//! The target selector: the long-range objective of a pursuit.
use crate::consts::{is_passable, passable, target_base, target_score};
use crate::board::lemma_push_contains;
use crate::bot::{Bot, Lookup, Pos};
use crate::random::shuffle;
use crate::team::holds;
use vstd::prelude::*;

verus! {

broadcast use vstd::seq_lib::group_to_multiset_ensures;

impl Bot {
    /// A cell the target selector looks at: on the board, passable, not ours, in sight.
    pub open spec fn eligible_target(&self, p: Pos) -> bool {
        &&& self.on_board(p)
        &&& passable(self.cell(p).kind)
        &&& !self.owns(p)
        &&& self.visible_at(p)
    }

    /// Every cell the target selector looks at has a known owner.
    pub open spec fn targets_resolved(&self) -> bool {
        forall|p: Pos| #[trigger] self.eligible_target(p) ==> self.resolved(p)
    }

    /// A cell the target selector may choose.
    pub open spec fn target_candidate(&self, p: Pos) -> bool {
        self.eligible_target(p) && self.resolved(p) && !self.protected_cell(p)
    }

    /// How much a target is wanted; lower is better.
    pub open spec fn desirability(&self, p: Pos) -> int {
        target_base(self.cell(p).kind) + if self.teammate_cell(p) {
            10int
        } else {
            0int
        }
    }

    /// `t` is a candidate of least desirability score.
    pub open spec fn best_target(&self, t: Pos) -> bool {
        &&& self.target_candidate(t)
        &&& forall|p: Pos| #[trigger]
            self.target_candidate(p) ==> self.desirability(t) <= self.desirability(p)
    }

    pub fn target_rank(&self, p: Pos) -> (r: i64)
        requires
            self.wf(),
            self.on_board(p),
            self.resolved(p),
        ensures
            r == self.desirability(p),
    {
        let uid = self.owner_of(p).unwrap();
        let mut score = target_score(self.land(p).kind);
        if holds(&self.config.team, uid) {
            score = score + 10;
        }
        score
    }

    /// Target selection: the visible cell, not ours and not protected, that
    /// is most wanted; ties are broken at random. Nothing when an owner in
    /// sight is unknown or no cell qualifies.
    pub fn new_target(&self) -> (r: Option<Pos>)
        requires
            self.wf(),
        ensures
            !self.targets_resolved() ==> r is None,
            self.targets_resolved() ==> (r is None <==> forall|p: Pos|
                !#[trigger] self.target_candidate(p)),
            r matches Some(t) ==> self.best_target(t),
            r matches Some(t) ==> !self.owns(t) && !self.protected_cell(t),
    {
        match self.select_target() {
            Lookup::Found(t) => Some(t),
            _ => None,
        }
    }

    /// Target selection that tells an unknown owner apart from finding nothing.
    pub fn select_target(&self) -> (r: Lookup<Pos>)
        requires
            self.wf(),
        ensures
            r is Unknown <==> !self.targets_resolved(),
            self.targets_resolved() ==> (r is Empty <==> forall|p: Pos|
                !#[trigger] self.target_candidate(p)),
            r matches Lookup::Found(t) ==> self.best_target(t),
    {
        let cells = self.positions();
        let mut targets: Vec<Pos> = Vec::new();
        let mut i: usize = 0;
        while i < cells.len()
            invariant
                self.wf(),
                0 <= i <= cells@.len(),
                forall|q: Pos| cells@.contains(q) <==> self.on_board(q),
                forall|q: Pos|
                    #[trigger] targets@.contains(q) <==> (cells@.subrange(0, i as int).contains(q)
                        && self.target_candidate(q)),
                forall|j: int|
                    0 <= j < i ==> #[trigger] self.eligible_target(cells@[j]) ==> self.resolved(
                        cells@[j],
                    ),
            decreases cells@.len() - i,
        {
            let pos = cells[i];
            assert(cells@.contains(pos));
            proof {
                lemma_push_contains(cells@.subrange(0, i as int), pos);
                assert(cells@.subrange(0, i + 1) =~= cells@.subrange(0, i as int).push(pos));
            }
            let land = self.land(pos);
            if is_passable(land.kind) && land.color != self.my_color && self.visible(pos) {
                match self.owner_of(pos) {
                    None => {
                        assert(self.eligible_target(pos) && !self.resolved(pos));
                        return Lookup::Unknown;
                    },
                    Some(uid) => {
                        assert(self.eligible_target(pos));
                        if !self.superior(uid) {
                            proof {
                                lemma_push_contains(targets@, pos);
                            }
                            targets.push(pos);
                        }
                    },
                }
            }
            i = i + 1;
        }
        assert(cells@.subrange(0, cells@.len() as int) =~= cells@);
        assert forall|p: Pos| #[trigger] self.eligible_target(p) implies self.resolved(p) by {
            let j = choose|j: int| 0 <= j < cells@.len() && cells@[j] == p;
        }
        let ghost found = targets@;
        shuffle(&self.rng, &mut targets);
        assert forall|q: Pos| #[trigger] targets@.contains(q) <==> self.target_candidate(q) by {
            assert(targets@.to_multiset().count(q) == found.to_multiset().count(q));
            assert(found.contains(q) <==> (cells@.contains(q) && self.target_candidate(q)));
        }
        let mut best: Option<Pos> = None;
        let mut best_score: i64 = 0;
        let mut k: usize = 0;
        while k < targets.len()
            invariant
                self.wf(),
                0 <= k <= targets@.len(),
                forall|q: Pos| #[trigger] targets@.contains(q) <==> self.target_candidate(q),
                best is None <==> k == 0,
                best matches Some(b) ==> {
                    &&& self.target_candidate(b)
                    &&& best_score == self.desirability(b)
                    &&& forall|j: int|
                        0 <= j < k ==> self.desirability(b) <= self.desirability(
                            #[trigger] targets@[j],
                        )
                },
            decreases targets@.len() - k,
        {
            let p = targets[k];
            assert(targets@.contains(p));
            let score = self.target_rank(p);
            if best.is_none() || score < best_score {
                best = Some(p);
                best_score = score;
            }
            k = k + 1;
        }
        if let Some(b) = best {
            assert forall|p: Pos| #[trigger] self.target_candidate(p) implies self.desirability(b)
                <= self.desirability(p) by {
                assert(targets@.contains(p));
                let j = choose|j: int| 0 <= j < targets@.len() && targets@[j] == p;
            }
        } else {
            assert forall|p: Pos| !#[trigger] self.target_candidate(p) by {
                if self.target_candidate(p) {
                    assert(targets@.contains(p));
                }
            }
        }
        match best {
            Some(b) => Lookup::Found(b),
            None => Lookup::Empty,
        }
    }
}

} // verus!
