//! The expansion planner: the best capture that our cells can make this tick.
use crate::consts::{capture_margin, expand_base, expand_score, margin, STRONGHOLD_A, STRONGHOLD_B, TYPE_A};
use crate::board::{lemma_push_contains, Guard};
use crate::bot::{Bot, Lookup, Pos};
use crate::random::shuffle;
use crate::team::holds;
use vstd::prelude::*;

verus! {

broadcast use vstd::seq_lib::group_to_multiset_ensures;

impl Bot {
    /// `f` is ours and can take its neighbour `c` with the margin that `c`'s terrain asks.
    pub open spec fn capturable(&self, f: Pos, c: Pos) -> bool {
        &&& self.on_board(f)
        &&& self.owns(f)
        &&& self.adjacent(f, c)
        &&& !self.owns(c)
        &&& self.army(f) > self.army(c) + margin(self.cell(c).kind)
    }

    /// Every cell that could be taken has a known owner.
    pub open spec fn expansions_resolved(&self) -> bool {
        forall|f: Pos, c: Pos| #[trigger] self.capturable(f, c) ==> self.resolved(c)
    }

    /// A capture the expansion planner may choose.
    pub open spec fn expansion_candidate(&self, f: Pos, c: Pos) -> bool {
        self.capturable(f, c) && self.resolved(c) && !self.protected_cell(c)
    }

    /// The army left behind in `f` by a move into `c`.
    pub open spec fn remain(&self, f: Pos, c: Pos) -> int {
        if self.split(f, c) {
            self.army(f) / 2
        } else {
            1
        }
    }

    /// Reward for moving from a garrisoned stronghold into a prized cell.
    pub open spec fn garrison_bonus(&self, f: Pos, c: Pos) -> int {
        if self.cell(f).kind == STRONGHOLD_A && (self.cell(c).kind == TYPE_A || self.cell(c).kind
            == STRONGHOLD_B) {
            20 - if self.army(f) - self.army(c) < 10 {
                self.army(f) - self.army(c)
            } else {
                10
            }
        } else {
            0
        }
    }

    /// How much a capture is wanted; lower is better.
    pub open spec fn expansion_score(&self, f: Pos, c: Pos) -> int {
        expand_base(self.cell(c).kind) - self.garrison_bonus(f, c) + (if self.hostile_at(
            f,
            c,
            Guard::AnyTerrain,
            self.remain(f, c) + 1,
        ) {
            10int
        } else {
            0int
        }) + (if self.hostile_at(
            c,
            f,
            Guard::AnyTerrain,
            self.army(f) - self.remain(f, c) - self.army(c) + 1,
        ) {
            10int
        } else {
            0int
        }) + (if self.teammate_cell(c) {
            100int
        } else {
            0int
        })
    }

    /// `(f, c)` is a candidate of least score.
    pub open spec fn best_expansion(&self, f: Pos, c: Pos) -> bool {
        &&& self.expansion_candidate(f, c)
        &&& forall|g: Pos, d: Pos| #[trigger]
            self.expansion_candidate(g, d) ==> self.expansion_score(f, c)
                <= self.expansion_score(g, d)
    }

    pub fn expansion_rank(&self, f: Pos, c: Pos) -> (r: i64)
        requires
            self.wf(),
            self.capturable(f, c),
            self.resolved(c),
        ensures
            r == self.expansion_score(f, c),
    {
        let from_land = self.land(f);
        let to_land = self.land(c);
        let mut score = expand_score(to_land.kind);
        if from_land.kind == STRONGHOLD_A && (to_land.kind == TYPE_A || to_land.kind
            == STRONGHOLD_B) {
            let surplus = from_land.amount - to_land.amount;
            let kept: i64 = if surplus < 10 {
                surplus as i64
            } else {
                10
            };
            score = score - (20 - kept);
        }
        let (_, _, half_tag) = self.move_to(f, c);
        let from_remain: i64 = if half_tag == 1 {
            (from_land.amount / 2) as i64
        } else {
            1
        };
        if self.hostile_near(f, c, Guard::AnyTerrain, from_remain + 1) {
            score = score + 10;
        }
        let to_remain: i64 = from_land.amount as i64 - from_remain - to_land.amount as i64;
        if self.hostile_near(c, f, Guard::AnyTerrain, to_remain + 1) {
            score = score + 10;
        }
        if holds(&self.config.team, self.owner_of(c).unwrap()) {
            score = score + 100;
        }
        score
    }

    /// Expansion planning: among the captures that our cells can make this
    /// tick, one of least score; ties are broken at random. Nothing when the
    /// owner of a capturable cell is unknown or no capture qualifies.
    pub fn plan_expansion(&self) -> (r: Option<(Pos, Pos)>)
        requires
            self.wf(),
        ensures
            !self.expansions_resolved() ==> r is None,
            self.expansions_resolved() ==> (r is None <==> forall|f: Pos, c: Pos|
                !#[trigger] self.expansion_candidate(f, c)),
            r matches Some(m) ==> self.best_expansion(m.0, m.1),
            r matches Some(m) ==> self.army(m.0) > self.army(m.1) + margin(self.cell(m.1).kind),
    {
        match self.expansion_lookup() {
            Lookup::Found(m) => Some(m),
            _ => None,
        }
    }

    /// Expansion planning that tells an unknown owner apart from finding nothing.
    pub fn expansion_lookup(&self) -> (r: Lookup<(Pos, Pos)>)
        requires
            self.wf(),
        ensures
            r is Unknown <==> !self.expansions_resolved(),
            self.expansions_resolved() ==> (r is Empty <==> forall|f: Pos, c: Pos|
                !#[trigger] self.expansion_candidate(f, c)),
            r matches Lookup::Found(m) ==> self.best_expansion(m.0, m.1),
    {
        let cells = self.positions();
        let mut moves: Vec<(Pos, Pos)> = Vec::new();
        let mut i: usize = 0;
        while i < cells.len()
            invariant
                self.wf(),
                0 <= i <= cells@.len(),
                forall|q: Pos| cells@.contains(q) <==> self.on_board(q),
                forall|m: (Pos, Pos)|
                    #[trigger] moves@.contains(m) <==> (cells@.subrange(0, i as int).contains(m.0)
                        && self.expansion_candidate(m.0, m.1)),
                forall|f: Pos, c: Pos|
                    cells@.subrange(0, i as int).contains(f) && #[trigger] self.capturable(f, c)
                        ==> self.resolved(c),
            decreases cells@.len() - i,
        {
            let from = cells[i];
            assert(cells@.contains(from));
            proof {
                lemma_push_contains(cells@.subrange(0, i as int), from);
                assert(cells@.subrange(0, i + 1) =~= cells@.subrange(0, i as int).push(from));
            }
            let from_land = self.land(from);
            if from_land.color == self.my_color {
                let nb = self.neighbours(from);
                let mut k: usize = 0;
                while k < nb.len()
                    invariant
                        self.wf(),
                        0 <= i < cells@.len(),
                        from == cells@[i as int],
                        self.on_board(from),
                        self.owns(from),
                        *from_land == self.cell(from),
                        0 <= k <= nb@.len(),
                        forall|q: Pos| nb@.contains(q) <==> self.adjacent(from, q),
                        forall|m: (Pos, Pos)|
                            #[trigger] moves@.contains(m) <==> ((cells@.subrange(0, i as int).contains(
                                m.0,
                            ) && self.expansion_candidate(m.0, m.1)) || (m.0 == from
                                && nb@.subrange(0, k as int).contains(m.1)
                                && self.expansion_candidate(m.0, m.1))),
                        forall|f: Pos, c: Pos|
                            cells@.subrange(0, i as int).contains(f) && #[trigger] self.capturable(
                                f,
                                c,
                            ) ==> self.resolved(c),
                        forall|c: Pos|
                            nb@.subrange(0, k as int).contains(c) && #[trigger] self.capturable(
                                from,
                                c,
                            ) ==> self.resolved(c),
                    decreases nb@.len() - k,
                {
                    let to = nb[k];
                    assert(nb@.contains(to));
                    proof {
                        lemma_push_contains(nb@.subrange(0, k as int), to);
                        assert(nb@.subrange(0, k + 1) =~= nb@.subrange(0, k as int).push(to));
                    }
                    let to_land = self.land(to);
                    let delta = capture_margin(to_land.kind);
                    if to_land.color != self.my_color && from_land.amount as u64 > to_land.amount
                        as u64 + delta as u64 {
                        assert(self.capturable(from, to));
                        match self.owner_of(to) {
                            None => {
                                assert(!self.expansions_resolved());
                                return Lookup::Unknown;
                            },
                            Some(uid) => {
                                if !self.superior(uid) {
                                    proof {
                                        lemma_push_contains(moves@, (from, to));
                                    }
                                    moves.push((from, to));
                                }
                            },
                        }
                    }
                    k = k + 1;
                }
                assert(nb@.subrange(0, nb@.len() as int) =~= nb@);
                assert forall|c: Pos| #[trigger] self.capturable(from, c) implies self.resolved(c) by {
                    assert(nb@.contains(c));
                }
            }
            i = i + 1;
        }
        assert(cells@.subrange(0, cells@.len() as int) =~= cells@);
        let ghost found = moves@;
        shuffle(&self.rng, &mut moves);
        assert forall|m: (Pos, Pos)| #[trigger] moves@.contains(m) <==> self.expansion_candidate(
            m.0,
            m.1,
        ) by {
            assert(moves@.to_multiset().count(m) == found.to_multiset().count(m));
            assert(found.contains(m) <==> (cells@.contains(m.0) && self.expansion_candidate(m.0, m.1)));
        }
        let mut best: Option<(Pos, Pos)> = None;
        let mut best_score: i64 = 0;
        let mut k: usize = 0;
        while k < moves.len()
            invariant
                self.wf(),
                0 <= k <= moves@.len(),
                forall|m: (Pos, Pos)| #[trigger] moves@.contains(m) <==> self.expansion_candidate(m.0, m.1),
                best is None <==> k == 0,
                best matches Some(b) ==> {
                    &&& self.expansion_candidate(b.0, b.1)
                    &&& best_score == self.expansion_score(b.0, b.1)
                    &&& forall|j: int|
                        0 <= j < k ==> self.expansion_score(b.0, b.1) <= self.expansion_score(
                            (#[trigger] moves@[j]).0,
                            moves@[j].1,
                        )
                },
            decreases moves@.len() - k,
        {
            let m = moves[k];
            assert(moves@.contains(m));
            let score = self.expansion_rank(m.0, m.1);
            if best.is_none() || score < best_score {
                best = Some(m);
                best_score = score;
            }
            k = k + 1;
        }
        if let Some(b) = best {
            assert forall|g: Pos, d: Pos| #[trigger] self.expansion_candidate(g, d) implies self.expansion_score(b.0, b.1)
                <= self.expansion_score(g, d) by {
                assert(moves@.contains((g, d)));
                let j = choose|j: int| 0 <= j < moves@.len() && moves@[j] == (g, d);
            }
        } else {
            assert forall|f: Pos, c: Pos| !#[trigger] self.expansion_candidate(f, c) by {
                if self.expansion_candidate(f, c) {
                    assert(moves@.contains((f, c)));
                }
            }
        }
        match best {
            Some(b) => Lookup::Found(b),
            None => Lookup::Empty,
        }
    }
}

} // verus!
