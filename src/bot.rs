//! The decision engine: one bot's view of the board, its persisted target
//! and anchor, and the per-tick decision loop.
use crate::consts::{ANCHOR_RESET_RATE, EXPAND_RATE};
use crate::board::same_pos;
use crate::laws::lemma_same_board;
use crate::map::Grid;
use crate::random::roll_percent;
use crate::route::Route;
use crate::BotData;
use vstd::prelude::*;

verus! {

/// A cell's coordinates: row, then column, both from 1.
pub type Pos = (usize, usize);

/// A proposed move: source cell, destination cell, and 1 to send half the army.
pub type Movement = (Pos, Pos, u8);

/// One bot's engine: its view of the board, who stands behind each color,
/// and the target and anchor that it keeps from tick to tick.
pub struct Bot {
    /// Edge length of the board; 0 until a board arrives.
    pub size: usize,
    /// The cells, indexed by row then column, both from 1.
    pub gm: Grid,
    /// This bot's color.
    pub my_color: u8,
    /// The identity behind each color; color 0 is neutral.
    pub color_to_uid: std::collections::HashMap<u8, u32>,
    /// The long-range objective of the pursuit.
    pub target: Option<Pos>,
    /// The anchor: the cell from which the pursuit's routes start.
    pub from: Option<Pos>,
    /// This bot's settings and team.
    pub config: &'static BotData,
    /// The bot's own stream of random numbers.
    pub rng: fastrand::Rng,
}

/// What a planning step found: a result, nothing, or an owner that it
/// could not look up.
pub enum Lookup<T> {
    Found(T),
    Empty,
    Unknown,
}

/// A pursuit with reset draw `reset` keeps its anchor.
pub open spec fn keeps_anchor(reset: u8) -> bool {
    reset >= ANCHOR_RESET_RATE
}

/// A tick with draw `roll` tries to expand before it pursues.
pub open spec fn expand_first(roll: u8) -> bool {
    roll < EXPAND_RATE
}

pub(crate) fn expands_first(roll: u8) -> (r: bool)
    ensures
        r == expand_first(roll),
{
    roll < EXPAND_RATE
}

impl Bot {
    /// A bot with no board yet, no identities, and nothing pursued.
    pub fn new(config: &'static BotData) -> (r: Bot)
        ensures
            r.size == 0,
            r.gm@.len() == 0,
            r.my_color == 0,
            r.color_to_uid@ == vstd::map::Map::<u8, u32>::empty(),
            r.target is None,
            r.from is None,
            r.config == config,
    {
        Bot {
            config,
            rng: fastrand::Rng::new(),
            size: 0,
            my_color: 0,
            color_to_uid: std::collections::HashMap::new(),
            target: None,
            from: None,
            gm: Vec::new(),
        }
    }

    /// The board, this bot's color, the identities and the team are those of `o`.
    pub open spec fn same_board(&self, o: &Bot) -> bool {
        &&& self.size == o.size
        &&& self.gm@ == o.gm@
        &&& self.my_color == o.my_color
        &&& self.color_to_uid@ == o.color_to_uid@
        &&& self.config == o.config
    }

    /// The persisted target is a cell of the board that is not ours.
    pub open spec fn target_live(&self) -> bool {
        self.target matches Some(t) && self.on_board(t) && !self.owns(t)
    }

    /// Target selection would find nothing.
    pub open spec fn no_target(&self) -> bool {
        !self.targets_resolved() || forall|p: Pos| !#[trigger] self.target_candidate(p)
    }

    /// Expansion planning would find nothing.
    pub open spec fn no_expansion(&self) -> bool {
        !self.expansions_resolved() || forall|f: Pos, c: Pos| !#[trigger] self.expansion_candidate(f, c)
    }

    /// `m` is a legal move: from a cell of ours to an adjacent passable cell,
    /// with the force-split flag that the move builder gives.
    pub open spec fn legal_move(&self, m: Movement) -> bool {
        &&& self.on_board(m.0)
        &&& self.owns(m.0)
        &&& self.adjacent(m.0, m.1)
        &&& m.2 == if self.split(m.0, m.1) { 1u8 } else { 0u8 }
    }

    /// A pursuit of `t` may go along `rt` from `origin`: `t` is the persisted
    /// target when that is live, else a best target; `origin` is the
    /// persisted anchor or a sweep anchor; and `rt` is a sound route.
    pub open spec fn pursuit(&self, t: Pos, origin: Pos, rt: Route) -> bool {
        &&& if self.target_live() {
            self.target == Some(t)
        } else {
            self.best_target(t)
        }
        &&& (self.from == Some(origin) || self.sweep_anchor(origin))
        &&& self.sound_route(origin, t, rt, !self.urgent())
    }

    /// `m` takes the first hop of a pursuit, and `next_target` is the target
    /// afterwards: dropped when the hop reaches it.
    pub open spec fn pursuit_step(&self, m: Movement, next_target: Option<Pos>) -> bool {
        exists|t: Pos, rt: Route| #[trigger]
            self.pursuit(t, m.0, rt) && rt.hop == m.1 && next_target == if t == m.1 {
                None
            } else {
                Some(t)
            }
    }

    /// A cell the pursuit may aim at: the persisted target when it is live,
    /// else a best target.
    pub open spec fn pursuable(&self, t: Pos) -> bool {
        if self.target_live() {
            self.target == Some(t)
        } else {
            self.best_target(t)
        }
    }

    /// Nothing urgent is in sight, so searches keep to the depth cap.
    pub open spec fn calm(&self) -> bool {
        !self.urgent()
    }

    /// Some sweep anchor is owed a route to `t`.
    pub open spec fn sweep_owed(&self, t: Pos) -> bool {
        exists|p: Pos| #[trigger] self.sweep_anchor(p) && self.route_owed(p, t, !self.urgent())
    }

    /// `m` takes the first hop of a pursuit whose origin was chosen by a
    /// sweep of every anchor: `tried` holds what each sweep anchor's
    /// searches kept, and none of them outscores the route taken.
    pub open spec fn swept_step(&self, m: Movement, next_target: Option<Pos>) -> bool {
        exists|t: Pos, rt: Route, tried: Map<Pos, Option<Route>>| #[trigger]
            self.valuation(t, self.calm(), tried, Some((m.0, rt))) && self.pursuit(t, m.0, rt)
                && rt.hop == m.1 && next_target == (if t == m.1 {
                None
            } else {
                Some(t)
            }) && (forall|p: Pos| #[trigger] tried.contains_key(p) <==> self.sweep_anchor(p))
    }

    /// The persisted anchor survives a reset draw of `reset`: the draw keeps
    /// it, the target is live, and the anchor is still ours.
    pub open spec fn anchor_kept(&self, reset: u8) -> bool {
        &&& keeps_anchor(reset)
        &&& self.target_live()
        &&& self.from matches Some(a) && self.on_board(a) && self.owns(a)
    }

    /// The pursue strategy: keep or choose a target, find a route to it, and
    /// take its first hop. The first hop becomes the anchor; reaching the
    /// target clears it; finding no route clears it too. An unknown owner
    /// among the cells that target selection looks at changes nothing. A
    /// draw `reset` under the reset rate forgets the anchor and sweeps every
    /// anchor again.
    pub fn move_to_target(&mut self, reset: u8) -> (r: Lookup<Movement>)
        requires
            old(self).wf(),
        ensures
            final(self).same_board(old(self)),
            r is Unknown <==> !old(self).target_live() && !old(self).targets_resolved(),
            r is Unknown ==> final(self).target == old(self).target && final(self).from == old(
                self,
            ).from,
            r matches Lookup::Found(m) ==> {
                &&& old(self).legal_move(m)
                &&& final(self).from == Some(m.1)
                &&& old(self).pursuit_step(m, final(self).target)
            },
            r is Empty ==> final(self).target is None,
            !old(self).target_live() && old(self).targets_resolved() && old(self).no_target() ==> r is Empty
                && final(self).from == old(self).from,
            (old(self).target matches Some(t) && old(self).target_live() && old(self).from is None
                && old(self).config.bot.calc_cnt >= 1 && old(self).directly_reachable(t)) ==> r is Found,
            !old(self).anchor_kept(reset) ==> (r matches Lookup::Found(m) ==> old(self).swept_step(
                m,
                final(self).target,
            )),
            !old(self).anchor_kept(reset) && old(self).config.bot.calc_cnt >= 1 && (old(
                self,
            ).target_live() || (old(self).targets_resolved() && !old(self).no_target())) && (forall|
                t: Pos,
            | #[trigger] old(self).pursuable(t) ==> old(self).sweep_owed(t)) ==> r is Found,
            old(self).anchor_kept(reset) ==> (r matches Lookup::Found(m) ==> m.0 == old(
                self,
            ).from.unwrap()),
            old(self).anchor_kept(reset) && old(self).config.bot.calc_cnt >= 1 && old(self).route_owed(
                old(self).from.unwrap(),
                old(self).target.unwrap(),
                old(self).calm(),
            ) ==> r is Found,
    {
        let ghost start = *self;
        let live = match self.target {
            Some(t) => self.valid_pos(t) && self.land(t).color != self.my_color,
            None => false,
        };
        if !live {
            match self.select_target() {
                Lookup::Unknown => {
                    return Lookup::Unknown;
                },
                Lookup::Empty => {
                    self.target = None;
                    return Lookup::Empty;
                },
                Lookup::Found(t) => {
                    self.target = Some(t);
                    self.from = None;
                },
            }
        }
        let target = self.target.unwrap();
        assert(self.on_board(target) && !self.owns(target));
        if reset < ANCHOR_RESET_RATE {
            self.from = None;
        }
        if let Some(a) = self.from {
            if !(self.valid_pos(a) && self.land(a).color == self.my_color) {
                self.from = None;
            }
        }
        proof {
            lemma_same_board(&start, self);
        }
        let capped = !self.found_enemy();
        let (found, tried) = self.valuate(target, capped, self.from);
        match found {
            None => {
                proof {
                    if start.anchor_kept(reset) && start.config.bot.calc_cnt >= 1 {
                        let a = start.from.unwrap();
                        assert(tried@.contains_key(a));
                    }
                    if !start.anchor_kept(reset) && start.config.bot.calc_cnt >= 1
                        && (forall|t: Pos| #[trigger] start.pursuable(t) ==> start.sweep_owed(t)) {
                        assert(start.pursuable(target));
                        let p = choose|p: Pos| #[trigger] start.sweep_anchor(p) && start.route_owed(
                            p,
                            target,
                            !start.urgent(),
                        );
                        assert(tried@.contains_key(p));
                    }
                }
                self.target = None;
                Lookup::Empty
            },
            Some((origin, rt)) => {
                let ghost path = choose|path: Seq<Pos>| self.walk_of(origin, target, rt, path);
                let ghost first: int = 0;
                assert(self.adjacent(path[first], path[first + 1]));
                if same_pos(rt.hop, target) {
                    self.target = None;
                }
                proof {
                    lemma_same_board(&start, self);
                }
                let mv = self.move_to(origin, rt.hop);
                assert(self.legal_move(mv));
                self.from = Some(rt.hop);
                assert(start.pursuit(target, origin, rt));
                assert(rt.hop == mv.1 && mv.0 == origin);
                assert(self.target == if target == mv.1 {
                    None
                } else {
                    Some(target)
                });
                assert(start.pursuit_step(mv, self.target));
                proof {
                    if !start.anchor_kept(reset) {
                        assert(start.valuation(target, start.calm(), tried@, Some((origin, rt))));
                        assert forall|p: Pos| #[trigger] tried@.contains_key(p) <==> start.sweep_anchor(p) by {}
                        assert(start.swept_step(mv, self.target));
                    }
                }
                Lookup::Found(mv)
            },
        }
    }

    /// Commits to the capture from `from` into `to`. A capture that moves
    /// the anchor's army anywhere but into the target leaves the pursuit
    /// without the force its route was valued on, so the target is dropped
    /// and chosen afresh on a later tick.
    fn commit_expansion(&mut self, from: Pos, to: Pos) -> (m: Movement)
        requires
            old(self).wf(),
            old(self).on_board(from),
            old(self).owns(from),
            old(self).adjacent(from, to),
        ensures
            final(self).same_board(old(self)),
            final(self).from == old(self).from,
            m.0 == from && m.1 == to,
            old(self).legal_move(m),
            final(self).target == if old(self).from == Some(from) && old(self).target != Some(to) {
                None
            } else {
                old(self).target
            },
    {
        let leaves_anchor = match self.from {
            Some(a) => same_pos(a, from),
            None => false,
        };
        let toward_target = match self.target {
            Some(t) => same_pos(t, to),
            None => false,
        };
        let mv = self.move_to(from, to);
        if leaves_anchor && !toward_target {
            self.target = None;
        }
        mv
    }

    /// The expand strategy: commit to the best immediate capture; nothing on
    /// a board that is not yet known or not well formed.
    pub fn expand(&mut self) -> (r: Option<Movement>)
        ensures
            final(self).same_board(old(self)),
            final(self).from == old(self).from,
            !old(self).wf() ==> r is None,
            old(self).wf() && old(self).expansions_resolved() ==> (r is None <==> forall|f: Pos, c: Pos|
                !#[trigger] old(self).expansion_candidate(f, c)),
            !old(self).expansions_resolved() ==> r is None,
            r is None ==> final(self).target == old(self).target,
            r matches Some(m) ==> {
                &&& old(self).best_expansion(m.0, m.1)
                &&& old(self).legal_move(m)
                &&& final(self).target == if old(self).from == Some(m.0) && old(self).target
                    != Some(m.1) {
                    None
                } else {
                    old(self).target
                }
            },
    {
        if !self.board_ok() {
            return None;
        }
        match self.plan_expansion() {
            Some((from, to)) => Some(self.commit_expansion(from, to)),
            None => None,
        }
    }

    /// One tick's decision for draws `roll` and `reset` in `0..100`: expand
    /// first when `roll` is under the expand rate, else pursue first, with
    /// `reset` choosing whether the pursuit forgets its anchor; when the
    /// first strategy finds nothing, the other is tried once. An owner that
    /// cannot be looked up ends the tick with no move and nothing changed.
    pub fn decide(&mut self, roll: u8, reset: u8) -> (r: Option<Movement>)
        requires
            old(self).wf(),
        ensures
            final(self).same_board(old(self)),
            r matches Some(m) ==> old(self).legal_move(m),
            r matches Some(m) ==> old(self).best_expansion(m.0, m.1) || old(self).pursuit_step(
                m,
                final(self).target,
            ),
            !old(self).expansions_resolved() ==> {
                &&& r is None
                &&& final(self).target == old(self).target
                &&& final(self).from == old(self).from
            },
            !old(self).target_live() && !old(self).targets_resolved() && (!expand_first(roll)
                || old(self).no_expansion()) ==> {
                &&& r is None
                &&& final(self).target == old(self).target
                &&& final(self).from == old(self).from
            },
            expand_first(roll) && !old(self).no_expansion() ==> (r matches Some(m)
                && old(self).best_expansion(m.0, m.1)),
            !old(self).no_expansion() && (expand_first(roll) || old(self).target_live()
                || old(self).targets_resolved()) ==> r is Some,
            old(self).expansions_resolved() && old(self).no_expansion() && !old(self).target_live()
                && old(self).targets_resolved() && old(self).no_target() ==> {
                &&& r is None
                &&& final(self).from == old(self).from
                &&& final(self).target is None
            },
            (!expand_first(roll) || old(self).no_expansion()) && old(self).expansions_resolved()
                && !old(self).anchor_kept(reset) && old(self).config.bot.calc_cnt >= 1 && (old(
                self,
            ).target_live() || (old(self).targets_resolved() && !old(self).no_target())) && (forall|
                t: Pos,
            | #[trigger] old(self).pursuable(t) ==> old(self).sweep_owed(t)) ==> (r matches Some(m)
                && old(self).swept_step(m, final(self).target)),
            (!expand_first(roll) || old(self).no_expansion()) && old(self).expansions_resolved()
                && old(self).anchor_kept(reset) && old(self).config.bot.calc_cnt >= 1 && old(
                self,
            ).route_owed(old(self).from.unwrap(), old(self).target.unwrap(), old(self).calm()) ==> (r matches Some(m)
                && m.0 == old(self).from.unwrap() && old(self).pursuit_step(m, final(self).target)),
    {
        let ghost start = *self;
        let plan = self.expansion_lookup();
        if let Lookup::Unknown = plan {
            return None;
        }
        if expands_first(roll) {
            if let Lookup::Found((from, to)) = plan {
                return Some(self.commit_expansion(from, to));
            }
            match self.move_to_target(reset) {
                Lookup::Found(m) => Some(m),
                _ => None,
            }
        } else {
            match self.move_to_target(reset) {
                Lookup::Found(m) => Some(m),
                Lookup::Unknown => None,
                Lookup::Empty => {
                    proof {
                        lemma_same_board(&start, self);
                    }
                    match plan {
                        Lookup::Found((from, to)) => {
                            let m = self.commit_expansion(from, to);
                            proof {
                                lemma_same_board(&start, self);
                            }
                            Some(m)
                        },
                        _ => None,
                    }
                },
            }
        }
    }

    /// The decision loop, once per tick: nothing when the board is not yet
    /// known or not well formed, else one decision on a fresh draw.
    pub fn next_move(&mut self) -> (r: Option<Movement>)
        ensures
            final(self).same_board(old(self)),
            !old(self).wf() ==> r is None && final(self).target == old(self).target
                && final(self).from == old(self).from,
            r matches Some(m) ==> old(self).legal_move(m),
            !old(self).expansions_resolved() ==> r is None && final(self).target == old(self).target
                && final(self).from == old(self).from,
            !old(self).target_live() && !old(self).targets_resolved() && old(self).no_expansion()
                ==> r is None && final(self).target == old(self).target && final(self).from == old(
                self,
            ).from,
            old(self).wf() && !old(self).no_expansion() && (old(self).target_live() || old(
                self,
            ).targets_resolved()) ==> r is Some,
            old(self).expansions_resolved() && old(self).no_expansion() && !old(self).target_live()
                && old(self).targets_resolved() && old(self).no_target() ==> {
                &&& r is None
                &&& final(self).from == old(self).from
                &&& (old(self).wf() ==> final(self).target is None)
            },
            r matches Some(m) ==> old(self).best_expansion(m.0, m.1) || old(self).pursuit_step(
                m,
                final(self).target,
            ),
            old(self).wf() && old(self).expansions_resolved() && old(self).no_expansion() && (old(
                self,
            ).from is None || !old(self).target_live()) && old(self).config.bot.calc_cnt >= 1 && (old(
                self,
            ).target_live() || (old(self).targets_resolved() && !old(self).no_target())) && (forall|
                t: Pos,
            | #[trigger] old(self).pursuable(t) ==> old(self).sweep_owed(t)) ==> r is Some,
            old(self).wf() && old(self).expansions_resolved() && old(self).no_expansion() && old(
                self,
            ).target_live() && old(self).from is Some && old(self).on_board(old(self).from.unwrap())
                && old(self).owns(old(self).from.unwrap()) && old(self).config.bot.calc_cnt >= 1
                && old(self).route_owed(old(self).from.unwrap(), old(self).target.unwrap(), old(
                self,
            ).calm()) && old(self).sweep_owed(old(self).target.unwrap()) ==> r is Some,
    {
        if !self.board_ok() {
            return None;
        }
        let roll = roll_percent(&self.rng);
        let reset = roll_percent(&self.rng);
        let ghost start = *self;
        let r = self.decide(roll, reset);
        proof {
            if start.target_live() {
                assert forall|t: Pos| #[trigger] start.pursuable(t) implies t == start.target.unwrap() by {}
            }
        }
        r
    }
}

} // verus!
