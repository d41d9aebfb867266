//! The route valuer: breadth-first searches toward the target, scored by value per hop.
use crate::consts::{DEPTH_CAP, GUARD_HOPS, MAX_CELLS, MAX_SIZE, STRONGHOLD_A, STRONGHOLD_B, TYPE_A};
use crate::board::{lemma_push_contains, same_pos, Guard};
use crate::bot::{Bot, Pos};
use crate::random::shuffle;
use vstd::arithmetic::mul::lemma_mul_upper_bound;
use vstd::set_lib::{lemma_int_range, lemma_len_subset, set_int_range};
use vstd::prelude::*;

verus! {

broadcast use vstd::seq_lib::group_to_multiset_ensures;

/// The slot of a cell in a flat table of the board is within the table,
/// whose size stays small.
pub proof fn lemma_slot(x: usize, y: usize, size: usize)
    requires
        x <= size,
        y <= size,
        size <= MAX_SIZE,
    ensures
        x * (size + 1) + y < (size + 1) * (size + 1),
        (size + 1) * (size + 1) <= MAX_CELLS,
{
    assert(x * (size + 1) + y < (size + 1) * (size + 1)) by (nonlinear_arith)
        requires
            x <= size,
            y <= size,
    ;
    lemma_mul_upper_bound(size + 1, MAX_SIZE + 1, size + 1, MAX_SIZE + 1);
    assert(MAX_SIZE == 4096 && MAX_CELLS == 16785409);
    assert(4097 * 4097 == 16785409int);
}

/// Distinct cells of the board have distinct slots.
pub proof fn lemma_slot_injective(p: Pos, r: Pos, size: usize)
    requires
        p.1 <= size,
        r.1 <= size,
    ensures
        p.0 * (size + 1) + p.1 == r.0 * (size + 1) + r.1 ==> p == r,
{
    let w = size + 1;
    if p.0 < r.0 {
        assert(p.0 * w + p.1 < r.0 * w + r.1) by (nonlinear_arith)
            requires
                p.0 < r.0,
                0 <= p.1 < w,
                0 <= r.1,
        ;
    } else if r.0 < p.0 {
        assert(r.0 * w + r.1 < p.0 * w + p.1) by (nonlinear_arith)
            requires
                r.0 < p.0,
                0 <= r.1 < w,
                0 <= p.1,
        ;
    }
}

/// A route found by the search: its first hop, the summed value of its
/// cells, and its number of hops.
#[derive(Clone, Copy, PartialEq, Eq, Debug)]
pub struct Route {
    pub hop: Pos,
    pub value: i64,
    pub hops: usize,
}

/// `a` scores more than `b`, a score being value per hop.
pub open spec fn outscores(a: Route, b: Route) -> bool {
    a.value * b.hops > b.value * a.hops
}

/// Whether `a`, of at least one hop, scores more than the best so far.
pub fn better(a: Route, best: Option<Route>) -> (r: bool)
    requires
        a.hops >= 1,
        a.hops <= MAX_CELLS,
        best matches Some(b) ==> 1 <= b.hops <= MAX_CELLS,
    ensures
        r == match best {
            Some(b) => outscores(a, b),
            None => true,
        },
{
    match best {
        Some(b) => {
            assert(-0x10_0000_0000_0000_0000_0000_0000 <= a.value * b.hops <= 0x10_0000_0000_0000_0000_0000_0000)
                by (nonlinear_arith)
                requires
                    -0x8000_0000_0000_0000 <= a.value <= 0x8000_0000_0000_0000,
                    0 <= b.hops <= MAX_CELLS,
            ;
            assert(-0x10_0000_0000_0000_0000_0000_0000 <= b.value * a.hops <= 0x10_0000_0000_0000_0000_0000_0000)
                by (nonlinear_arith)
                requires
                    -0x8000_0000_0000_0000 <= b.value <= 0x8000_0000_0000_0000,
                    0 <= a.hops <= MAX_CELLS,
            ;
            a.value as i128 * b.hops as i128 > b.value as i128 * a.hops as i128
        },
        None => true,
    }
}

/// `best` is a result of `tries` that none of them outscores.
pub open spec fn keeps_best(tries: Seq<Option<Route>>, best: Option<Route>) -> bool {
    &&& forall|i: int|
        0 <= i < tries.len() && (#[trigger] tries[i]) is Some ==> best is Some && !outscores(
            tries[i].unwrap(),
            best.unwrap(),
        )
    &&& best matches Some(b) ==> exists|i: int| 0 <= i < tries.len() && tries[i] == Some(b)
}

/// Scores are ordered: what does not outscore a route does not outscore one
/// that outscores it.
pub proof fn lemma_outscores_order(x: Route, b: Route, n: Route)
    requires
        x.hops >= 1,
        b.hops >= 1,
        n.hops >= 1,
        !outscores(x, b),
        outscores(n, b),
    ensures
        !outscores(x, n),
{
    let (xv, xh, bv, bh, nv, nh) = (
        x.value as int,
        x.hops as int,
        b.value as int,
        b.hops as int,
        n.value as int,
        n.hops as int,
    );
    assert(xv * bh * nh <= bv * xh * nh) by (nonlinear_arith)
        requires
            xv * bh <= bv * xh,
            nh >= 1,
    ;
    assert(nv * bh * xh > bv * nh * xh) by (nonlinear_arith)
        requires
            nv * bh > bv * nh,
            xh >= 1,
    ;
    assert(xv * nh <= nv * xh) by (nonlinear_arith)
        requires
            xv * bh * nh <= bv * xh * nh,
            nv * bh * xh > bv * nh * xh,
            bh >= 1,
    ;
}

/// Whether `a` is under half of the record: a missing route always is, and
/// nothing is under a missing record.
pub open spec fn under_half(a: Option<Route>, record: Option<Route>) -> bool {
    match a {
        None => true,
        Some(x) => match record {
            None => false,
            Some(y) => 2 * x.value * y.hops < y.value * x.hops,
        },
    }
}

pub fn below_half(a: Option<Route>, record: Option<Route>) -> (r: bool)
    requires
        a matches Some(x) ==> x.hops <= MAX_CELLS,
        record matches Some(y) ==> y.hops <= MAX_CELLS,
    ensures
        r == under_half(a, record),
{
    match a {
        None => true,
        Some(x) => match record {
            None => false,
            Some(y) => {
                assert(-0x10_0000_0000_0000_0000_0000_0000 <= 2 * x.value * y.hops
                    <= 0x10_0000_0000_0000_0000_0000_0000) by (nonlinear_arith)
                    requires
                        -0x8000_0000_0000_0000 <= x.value <= 0x8000_0000_0000_0000,
                        0 <= y.hops <= MAX_CELLS,
                ;
                assert(-0x10_0000_0000_0000_0000_0000_0000 <= y.value * x.hops
                    <= 0x10_0000_0000_0000_0000_0000_0000) by (nonlinear_arith)
                    requires
                        -0x8000_0000_0000_0000 <= y.value <= 0x8000_0000_0000_0000,
                        0 <= x.hops <= MAX_CELLS,
                ;
                (2 * x.value as i128 * y.hops as i128) < (y.value as i128 * x.hops as i128)
            },
        },
    }
}

impl Bot {
    /// What crossing `p` adds to a route: our spare army, or the army needed to take it.
    pub open spec fn cell_value(&self, p: Pos) -> int {
        if self.owns(p) {
            self.army(p) - 1
        } else {
            -(self.army(p) + 1)
        }
    }

    /// The summed value of the cells of a path.
    pub open spec fn path_value(&self, path: Seq<Pos>) -> int
        decreases path.len(),
    {
        if path.len() == 0 {
            0
        } else {
            self.path_value(path.drop_last()) + self.cell_value(path.last())
        }
    }

    /// Each step of the path goes to an adjacent passable cell.
    pub open spec fn is_walk(&self, path: Seq<Pos>) -> bool {
        forall|i: int| 0 <= i < path.len() - 1 ==> #[trigger] self.adjacent(path[i], path[i + 1])
    }

    /// `path` is a walk from `from` to `target` that `r` describes.
    pub open spec fn walk_of(&self, from: Pos, target: Pos, r: Route, path: Seq<Pos>) -> bool {
        &&& path.len() == r.hops + 1
        &&& path[0] == from
        &&& path.last() == target
        &&& self.is_walk(path)
        &&& path[1] == r.hop
        &&& self.path_value(path) == r.value
    }

    /// `r` describes a real walk from `from` to `target` that the search may
    /// accept: at least one hop, not a short walk of negative value, within
    /// the depth cap when `capped`, and of the fewest hops any walk takes.
    pub open spec fn sound_route(&self, from: Pos, target: Pos, r: Route, capped: bool) -> bool {
        &&& r.hops >= 1
        &&& !(r.value < 0 && r.hops < GUARD_HOPS)
        &&& capped ==> r.hops <= DEPTH_CAP
        &&& exists|path: Seq<Pos>| #[trigger] self.walk_of(from, target, r, path)
        &&& self.fewest_hops(from, target, r.hops as int)
    }

    /// Some cell in sight, not ours, is of type A or a stronghold.
    pub open spec fn urgent(&self) -> bool {
        exists|p: Pos|
            #[trigger] self.on_board(p) && !self.owns(p) && self.visible_at(p) && (self.cell(p).kind
                == TYPE_A || self.cell(p).kind == STRONGHOLD_A || self.cell(p).kind == STRONGHOLD_B)
    }

    fn value_of(&self, p: Pos) -> (r: i64)
        requires
            self.wf(),
            self.on_board(p),
        ensures
            r == self.cell_value(p),
    {
        let land = self.land(p);
        if land.color == self.my_color {
            land.amount as i64 - 1
        } else {
            -(land.amount as i64) - 1
        }
    }

    /// Whether some cell in sight, not ours, is of type A or a stronghold.
    pub fn found_enemy(&self) -> (r: bool)
        requires
            self.wf(),
        ensures
            r == self.urgent(),
    {
        let cells = self.positions();
        let mut i: usize = 0;
        while i < cells.len()
            invariant
                self.wf(),
                0 <= i <= cells@.len(),
                forall|q: Pos| cells@.contains(q) <==> self.on_board(q),
                forall|j: int|
                    0 <= j < i ==> {
                        let p = #[trigger] cells@[j];
                        !(!self.owns(p) && self.visible_at(p) && (self.cell(p).kind == TYPE_A
                            || self.cell(p).kind == STRONGHOLD_A || self.cell(p).kind
                            == STRONGHOLD_B))
                    },
            decreases cells@.len() - i,
        {
            let pos = cells[i];
            assert(cells@.contains(pos));
            let land = self.land(pos);
            if land.color != self.my_color && (land.kind == TYPE_A || land.kind == STRONGHOLD_A
                || land.kind == STRONGHOLD_B) && self.visible(pos) {
                assert(self.on_board(pos));
                return true;
            }
            i = i + 1;
        }
        assert forall|p: Pos| #[trigger] self.on_board(p) implies !(!self.owns(p) && self.visible_at(p)
            && (self.cell(p).kind == TYPE_A || self.cell(p).kind == STRONGHOLD_A || self.cell(p).kind
            == STRONGHOLD_B)) by {
            assert(cells@.contains(p));
            let j = choose|j: int| 0 <= j < cells@.len() && cells@[j] == p;
        }
        false
    }

    /// `target` is next to `from`, and the direct route into it has a
    /// value of at least zero.
    pub open spec fn direct_route(&self, from: Pos, target: Pos) -> bool {
        &&& self.adjacent(from, target)
        &&& from != target
        &&& self.cell_value(from) + self.cell_value(target) >= 0
    }

    /// `path` starts at `from` and does not pass through `target` before its end.
    pub open spec fn clear_of(&self, from: Pos, target: Pos, path: Seq<Pos>) -> bool {
        &&& path.len() >= 1
        &&& path[0] == from
        &&& self.is_walk(path)
        &&& forall|i: int| 1 <= i < path.len() - 1 ==> #[trigger] path[i] != target
    }

    /// No walk from `from` reaches `target` in fewer than `hops` hops.
    pub open spec fn fewest_hops(&self, from: Pos, target: Pos, hops: int) -> bool {
        forall|path: Seq<Pos>|
            #[trigger] self.is_walk(path) && path.len() >= 1 && path[0] == from && path.last()
                == target ==> path.len() - 1 >= hops
    }

    /// Some entry of the queue holds `x` at no more than `bound` hops.
    spec fn reached(q: Seq<(Pos, i64, usize, Option<Pos>)>, x: Pos, bound: int) -> bool {
        exists|j: int| 0 <= j < q.len() && (#[trigger] q[j]).0 == x && q[j].2 <= bound
    }

    /// The queue of a breadth-first search whose first `done` entries have
    /// been taken: hop counts never fall along it, each cell stands once,
    /// and each taken entry that was expanded has every neighbour queued at
    /// most one hop further; the entries left unexpanded are the target and
    /// those beyond the depth cap.
    spec fn layered(
        &self,
        target: Pos,
        capped: bool,
        q: Seq<(Pos, i64, usize, Option<Pos>)>,
        done: int,
        skipped: Set<int>,
    ) -> bool {
        &&& forall|i: int, j: int| 0 <= i <= j < q.len() ==> #[trigger] q[i].2 <= #[trigger] q[j].2
        &&& forall|i: int, j: int| 0 <= i < j < q.len() ==> #[trigger] q[i].0 != #[trigger] q[j].0
        &&& forall|i: int|
            #[trigger] skipped.contains(i) ==> 0 <= i < done && ((q[i].0 == target && q[i].2 >= 1)
                || (capped && q[i].2 >= DEPTH_CAP))
        &&& forall|i: int, x: Pos|
            0 <= i < done && !skipped.contains(i) && #[trigger] self.adjacent(q[i].0, x)
                ==> Self::reached(q, x, q[i].2 + 1)
    }

    /// A walk that keeps clear of the target, no longer than the hop counts
    /// still queued, ends at a queued cell no further than the walk.
    proof fn lemma_clear_walk_reached(
        &self,
        from: Pos,
        target: Pos,
        capped: bool,
        q: Seq<(Pos, i64, usize, Option<Pos>)>,
        done: int,
        skipped: Set<int>,
        path: Seq<Pos>,
    )
        requires
            self.layered(target, capped, q, done, skipped),
            q.len() >= 1,
            q[0].0 == from,
            q[0].2 == 0,
            0 <= done <= q.len(),
            self.clear_of(from, target, path),
            forall|j: int| done <= j < q.len() ==> (#[trigger] q[j]).2 >= path.len() - 1,
            capped ==> path.len() - 1 <= DEPTH_CAP,
        ensures
            Self::reached(q, path.last(), path.len() - 1),
        decreases path.len(),
    {
        let k = path.len() - 1;
        if k == 0 {
            assert(q[0].0 == path.last());
        } else {
            let prefix = path.drop_last();
            assert forall|i: int| 0 <= i < prefix.len() - 1 implies #[trigger] self.adjacent(
                prefix[i],
                prefix[i + 1],
            ) by {
                assert(self.adjacent(path[i], path[i + 1]));
            }
            assert forall|i: int| 1 <= i < prefix.len() - 1 implies #[trigger] prefix[i] != target by {
                assert(path[i] != target);
            }
            self.lemma_clear_walk_reached(from, target, capped, q, done, skipped, prefix);
            let p = prefix.last();
            let jp = choose|j: int| 0 <= j < q.len() && (#[trigger] q[j]).0 == p && q[j].2 <= k - 1;
            assert(jp < done);
            if skipped.contains(jp) {
                if k - 1 >= 1 {
                    assert(path[k - 1] != target);
                }
                assert(false);
            }
            let ghost a: int = k - 1;
            assert(self.adjacent(path[a], path[a + 1]));
            assert(self.adjacent(q[jp].0, path.last()));
            let j = choose|j: int|
                0 <= j < q.len() && (#[trigger] q[j]).0 == path.last() && q[j].2 <= q[jp].2 + 1;
            assert(q[j].0 == path.last() && q[j].2 <= k);
        }
    }

    /// The first position after the start where a walk reaches `target`.
    proof fn lemma_first_hit(path: Seq<Pos>, target: Pos, i: int) -> (r: int)
        requires
            path.len() >= 2,
            path.last() == target,
            1 <= i < path.len(),
            forall|j: int| 1 <= j < i ==> #[trigger] path[j] != target,
        ensures
            1 <= r < path.len(),
            path[r] == target,
            forall|j: int| 1 <= j < r ==> #[trigger] path[j] != target,
        decreases path.len() - i,
    {
        if path[i] == target {
            i
        } else {
            Self::lemma_first_hit(path, target, i + 1)
        }
    }

    /// When a search takes the target's entry, no walk reaches the target in
    /// fewer hops than that entry records.
    proof fn lemma_fewest(
        &self,
        from: Pos,
        target: Pos,
        capped: bool,
        q: Seq<(Pos, i64, usize, Option<Pos>)>,
        h: int,
        skipped: Set<int>,
    )
        requires
            self.layered(target, capped, q, h, skipped),
            0 <= h < q.len(),
            q[0].0 == from,
            q[0].2 == 0,
            q[h].0 == target,
            q[h].2 >= 1,
            capped ==> q[h].2 <= DEPTH_CAP,
        ensures
            self.fewest_hops(from, target, q[h].2 as int),
    {
        assert forall|path: Seq<Pos>|
            #[trigger] self.is_walk(path) && path.len() >= 1 && path[0] == from && path.last()
                == target implies path.len() - 1 >= q[h].2 by {
            if path.len() - 1 < q[h].2 {
                if path.len() == 1 {
                    assert(q[0].0 == q[h].0);
                    assert(h != 0);
                    assert(false);
                } else {
                    let r = Self::lemma_first_hit(path, target, 1);
                    let prefix = path.subrange(0, r + 1);
                    assert forall|i: int| 0 <= i < prefix.len() - 1 implies #[trigger] self.adjacent(
                        prefix[i],
                        prefix[i + 1],
                    ) by {
                        assert(self.adjacent(path[i], path[i + 1]));
                    }
                    assert forall|i: int| 1 <= i < prefix.len() - 1 implies #[trigger] prefix[i]
                        != target by {
                        assert(path[i] != target);
                    }
                    assert forall|j: int| h <= j < q.len() implies (#[trigger] q[j]).2 >= prefix.len()
                        - 1 by {
                        assert(q[h].2 <= q[j].2);
                    }
                    self.lemma_clear_walk_reached(from, target, capped, q, h, skipped, prefix);
                    let j = choose|j: int|
                        0 <= j < q.len() && (#[trigger] q[j]).0 == prefix.last() && q[j].2 <= r;
                    if j < h {
                        assert(q[j].0 != q[h].0);
                    } else if j > h {
                        assert(q[h].0 != q[j].0);
                    }
                    assert(false);
                }
            }
        }
    }

    proof fn lemma_layered_skip(
        &self,
        target: Pos,
        capped: bool,
        q: Seq<(Pos, i64, usize, Option<Pos>)>,
        done: int,
        skipped: Set<int>,
    )
        requires
            self.layered(target, capped, q, done, skipped),
            0 <= done < q.len(),
            (q[done].0 == target && q[done].2 >= 1) || (capped && q[done].2 >= DEPTH_CAP),
        ensures
            self.layered(target, capped, q, done + 1, skipped.insert(done)),
    {
        assert forall|i: int, x: Pos|
            0 <= i < done + 1 && !skipped.insert(done).contains(i) && #[trigger] self.adjacent(
                q[i].0,
                x,
            ) implies Self::reached(q, x, q[i].2 + 1) by {
            assert(i < done && !skipped.contains(i));
        }
    }

    proof fn lemma_layered_expand(
        &self,
        target: Pos,
        capped: bool,
        q: Seq<(Pos, i64, usize, Option<Pos>)>,
        done: int,
        skipped: Set<int>,
    )
        requires
            self.layered(target, capped, q, done, skipped),
            0 <= done < q.len(),
            forall|x: Pos| #[trigger] self.adjacent(q[done].0, x) ==> Self::reached(q, x, q[done].2 + 1),
        ensures
            self.layered(target, capped, q, done + 1, skipped),
    {
    }

    proof fn lemma_layered_push(
        &self,
        target: Pos,
        capped: bool,
        q: Seq<(Pos, i64, usize, Option<Pos>)>,
        done: int,
        skipped: Set<int>,
        e: (Pos, i64, usize, Option<Pos>),
    )
        requires
            self.layered(target, capped, q, done, skipped),
            0 <= done <= q.len(),
            forall|j: int| 0 <= j < q.len() ==> (#[trigger] q[j]).2 <= e.2,
            forall|j: int| 0 <= j < q.len() ==> (#[trigger] q[j]).0 != e.0,
        ensures
            self.layered(target, capped, q.push(e), done, skipped),
    {
        let r = q.push(e);
        assert forall|i: int, j: int| 0 <= i <= j < r.len() implies #[trigger] r[i].2 <= #[trigger] r[j].2 by {
            if j < q.len() {
                assert(q[i].2 <= q[j].2);
            } else if i < q.len() {
                assert(q[i].2 <= e.2);
            }
        }
        assert forall|i: int, j: int| 0 <= i < j < r.len() implies #[trigger] r[i].0 != #[trigger] r[j].0 by {
            if j < q.len() {
                assert(q[i].0 != q[j].0);
            } else {
                assert(q[i].0 != e.0);
            }
        }
        assert forall|i: int, x: Pos|
            0 <= i < done && !skipped.contains(i) && #[trigger] self.adjacent(r[i].0, x) implies Self::reached(
            r,
            x,
            r[i].2 + 1,
        ) by {
            assert(r[i] == q[i]);
            assert(self.adjacent(q[i].0, x));
            let j = choose|j: int| 0 <= j < q.len() && (#[trigger] q[j]).0 == x && q[j].2 <= q[i].2 + 1;
            assert(r[j] == q[j]);
        }
    }


    /// The value of a walk of one cell, and of two.
    proof fn lemma_short_path_value(&self, from: Pos, to: Pos)
        ensures
            self.path_value(seq![from]) == self.cell_value(from),
            self.path_value(seq![from, to]) == self.cell_value(from) + self.cell_value(to),
    {
        assert(seq![from].drop_last() =~= Seq::<Pos>::empty());
        assert(seq![from].last() == from);
        assert(self.path_value(Seq::<Pos>::empty()) == 0);
        assert(self.path_value(seq![from]) == self.cell_value(from));
        let two = seq![from, to];
        assert(two.drop_last() =~= seq![from]);
        assert(two.last() == to);
        assert(self.path_value(two) == self.path_value(two.drop_last()) + self.cell_value(to));
    }

    /// `rt` is the one-hop route from `from` into its neighbour `target`.
    pub open spec fn is_direct(&self, from: Pos, target: Pos, rt: Route) -> bool {
        &&& rt.hop == target
        &&& rt.hops == 1
        &&& rt.value == self.cell_value(from) + self.cell_value(target)
    }

    /// An entry of the search queue at index `j`: it stands for `path`, a
    /// walk from `from` whose value, hop count and first hop it records.
    spec fn entry_ok(
        &self,
        from: Pos,
        capped: bool,
        e: (Pos, i64, usize, Option<Pos>),
        path: Seq<Pos>,
        j: int,
    ) -> bool {
        &&& self.on_board(e.0)
        &&& path.len() == e.2 + 1
        &&& path[0] == from
        &&& path.last() == e.0
        &&& self.is_walk(path)
        &&& self.path_value(path) == e.1
        &&& (e.2 >= 1 ==> e.3 == Some(path[1]))
        &&& e.2 <= j
        &&& -(e.2 + 1) * 0x1_0000_0000 <= e.1 <= (e.2 + 1) * 0x1_0000_0000
        &&& (capped ==> e.2 <= DEPTH_CAP)
    }

    /// Some walk of at least one hop leads from `from` to `target`, within
    /// the depth cap when `capped`, and `target` is not a neighbour whose
    /// direct route has negative value, the one short route the guard refuses.
    pub open spec fn route_owed(&self, from: Pos, target: Pos, capped: bool) -> bool {
        &&& from != target
        &&& exists|path: Seq<Pos>|
            #[trigger] self.is_walk(path) && path.len() >= 2 && path[0] == from && path.last()
                == target && (capped ==> path.len() - 1 <= DEPTH_CAP)
        &&& !(self.adjacent(from, target) && self.cell_value(from) + self.cell_value(target) < 0)
    }

    /// One breadth-first search from `from`: each cell is entered once, by
    /// the first arrival, so only walks of fewest hops are weighed. The walk
    /// that reaches `target` is offered when it has a hop, is not a short
    /// walk of negative value, and when `capped`, no longer than the depth
    /// cap. A route is found whenever one is owed; a direct one exactly.
    pub(crate) fn search(&self, from: Pos, target: Pos, capped: bool) -> (r: Option<Route>)
        requires
            self.wf(),
            self.on_board(from),
        ensures
            r matches Some(rt) ==> self.sound_route(from, target, rt, capped) && rt.hops
                <= MAX_CELLS,
            self.direct_route(from, target) ==> (r matches Some(rt) && self.is_direct(
                from,
                target,
                rt,
            )),
            self.route_owed(from, target, capped) ==> r is Some,
    {
        let width: usize = self.size + 1;
        proof {
            lemma_slot(from.0, from.1, self.size);
        }
        let n: usize = width * width;
        let mut vis: Vec<bool> = Vec::new();
        while vis.len() < n
            invariant
                forall|k: int| 0 <= k < vis@.len() ==> !vis@[k],
                vis@.len() <= n,
            decreases n - vis@.len(),
        {
            vis.push(false);
        }
        let ghost seen: Set<int> = Set::empty();
        let ghost paths: Seq<Seq<Pos>> = seq![seq![from]];
        let ghost direct = self.direct_route(from, target);
        let mut q: Vec<(Pos, i64, usize, Option<Pos>)> = Vec::new();
        q.push((from, self.value_of(from), 0, None));
        let start = from.0 * width + from.1;
        vis.set(start, true);
        proof {
            seen = seen.insert(start as int);
            self.lemma_short_path_value(from, target);
            lemma_int_range(0, n as int);
            assert(q@[0] == (from, self.cell_value(from) as i64, 0usize, None::<Pos>));
            assert(paths[0] == seq![from]);
            assert(self.entry_ok(from, capped, q@[0], paths[0], 0));
            assert forall|k: int| #[trigger] seen.contains(k) implies exists|j: int|
                0 <= j < q@.len() && q@[j].0.0 * width + q@[j].0.1 == k by {
                assert(q@[0].0.0 * width + q@[0].0.1 == k);
            }
            assert(seen.contains(q@[0].0.0 * width + q@[0].0.1));
        }
        let ghost skipped: Set<int> = Set::empty();
        assert(self.layered(target, capped, q@, 0, skipped));
        let mut best: Option<Route> = None;
        let mut head: usize = 0;
        while head < q.len()
            invariant
                self.wf(),
                self.on_board(from),
                direct == self.direct_route(from, target),
                width == self.size + 1,
                n == width * width,
                n <= MAX_CELLS,
                vis@.len() == n,
                set_int_range(0, n as int).finite(),
                set_int_range(0, n as int).len() == n,
                seen.finite(),
                seen.len() == q@.len(),
                forall|k: int| #[trigger] seen.contains(k) <==> (0 <= k < n && vis@[k]),
                forall|k: int|
                    #[trigger] seen.contains(k) ==> exists|j: int|
                        0 <= j < q@.len() && q@[j].0.0 * width + q@[j].0.1 == k,
                0 <= head <= q@.len(),
                1 <= q@.len() <= n,
                q@[0].0 == from,
                head <= 1 ==> forall|j: int| 1 <= j < q@.len() ==> (#[trigger] q@[j]).2 == 1,
                paths.len() == q@.len(),
                forall|j: int|
                    0 <= j < q@.len() ==> self.entry_ok(from, capped, #[trigger] q@[j], paths[j], j),
                best matches Some(rt) ==> self.sound_route(from, target, rt, capped) && rt.hops <= n,
                direct ==> (best is Some || head == 0 || exists|j: int|
                    head <= j < q@.len() && (#[trigger] q@[j]).0 == target && q@[j].2 == 1),
                forall|j: int|
                    0 <= j < q@.len() ==> seen.contains(
                        (#[trigger] q@[j]).0.0 * width + q@[j].0.1,
                    ),
                direct ==> forall|j: int|
                    0 <= j < q@.len() && (#[trigger] q@[j]).0 == target ==> q@[j].2 == 1
                        && q@[j].1 == self.cell_value(from) + self.cell_value(target) && q@[j].3
                        == Some(target),
                direct && head >= 1 ==> exists|j: int|
                    1 <= j < q@.len() && (#[trigger] q@[j]).0 == target,
                direct ==> (best matches Some(rt) ==> self.is_direct(from, target, rt)),
                q@[0].2 == 0,
                head == 0 ==> q@.len() == 1,
                head >= 1 ==> forall|j: int|
                    0 <= j < q@.len() ==> (#[trigger] q@[j]).2 <= q@[head - 1].2 + 1,
                self.layered(target, capped, q@, head as int, skipped),
                forall|j: int| 1 <= j < q@.len() ==> (#[trigger] q@[j]).2 >= 1,
                forall|j: int|
                    0 <= j < head && (#[trigger] q@[j]).0 == target && q@[j].2 >= 1 && !(q@[j].1 < 0
                        && q@[j].2 < GUARD_HOPS) ==> best is Some,
            decreases n - q@.len(), q@.len() - head,
        {
            let (cur, amount, length, ans) = q[head];
            let ghost h = head as int;
            assert(self.entry_ok(from, capped, q@[h], paths[h], h));
            proof {
                assert forall|j: int| 0 <= j < q@.len() implies (#[trigger] q@[j]).2 <= q@[h].2 + 1 by {
                    if h > 0 {
                        assert(q@[h - 1].2 <= q@[h].2);
                    }
                }
                if h == 0 {
                    assert(paths[0] =~= seq![from]);
                    self.lemma_short_path_value(from, target);
                }
            }
            head = head + 1;
            if same_pos(cur, target) && length >= 1 && !(amount < 0 && length < GUARD_HOPS) {
                let route = Route { hop: ans.unwrap(), value: amount, hops: length };
                assert(self.walk_of(from, target, route, paths[h]));
                if better(route, best) {
                    proof {
                        self.lemma_fewest(from, target, capped, q@, h, skipped);
                        self.lemma_layered_skip(target, capped, q@, h, skipped);
                        skipped = skipped.insert(h);
                    }
                    best = Some(route);
                    continue;
                }
            }
            proof {
                if direct && best is None && h > 0 {
                    let j = choose|j: int|
                        h <= j < q@.len() && (#[trigger] q@[j]).0 == target && q@[j].2 == 1;
                    if j == h {
                        let path = paths[h];
                        assert(path =~= seq![from, target]);
                        self.lemma_short_path_value(from, target);
                        assert(amount == self.cell_value(from) + self.cell_value(target));
                        assert(false);
                    }
                    assert(head <= j);
                }
            }
            if capped && length >= DEPTH_CAP {
                proof {
                    self.lemma_layered_skip(target, capped, q@, h, skipped);
                    skipped = skipped.insert(h);
                }
                continue;
            }
            let mut nb = self.neighbours(cur);
            let ghost listed = nb@;
            shuffle(&self.rng, &mut nb);
            assert forall|x: Pos| #[trigger] nb@.contains(x) <==> self.adjacent(cur, x) by {
                assert(nb@.to_multiset().count(x) == listed.to_multiset().count(x));
            }
            let ghost qlen0 = q@.len();
            let mut k: usize = 0;
            while k < nb.len()
                invariant
                    self.wf(),
                    self.on_board(from),
                    self.on_board(cur),
                    direct == self.direct_route(from, target),
                    0 <= h < head <= q@.len(),
                    head == h + 1,
                    q@[h] == (cur, amount, length, ans),
                    h == 0 ==> cur == from && length == 0,
                    capped ==> length < DEPTH_CAP,
                    forall|x: Pos| #[trigger] nb@.contains(x) <==> self.adjacent(cur, x),
                    0 <= k <= nb@.len(),
                    width == self.size + 1,
                    n == width * width,
                    n <= MAX_CELLS,
                    q@.len() >= qlen0,
                    vis@.len() == n,
                    set_int_range(0, n as int).finite(),
                    set_int_range(0, n as int).len() == n,
                    seen.finite(),
                    seen.len() == q@.len(),
                    forall|k: int| #[trigger] seen.contains(k) <==> (0 <= k < n && vis@[k]),
                    forall|k: int|
                        #[trigger] seen.contains(k) ==> exists|j: int|
                            0 <= j < q@.len() && q@[j].0.0 * width + q@[j].0.1 == k,
                    1 <= q@.len() <= n,
                    q@[0].0 == from,
                    h == 0 ==> forall|j: int| 1 <= j < q@.len() ==> (#[trigger] q@[j]).2 == 1,
                    paths.len() == q@.len(),
                    forall|j: int|
                        0 <= j < q@.len() ==> self.entry_ok(from, capped, #[trigger] q@[j], paths[j], j),
                    best matches Some(rt) ==> self.sound_route(from, target, rt, capped) && rt.hops
                        <= n,
                    direct && h > 0 ==> (best is Some || exists|j: int|
                        head <= j < q@.len() && (#[trigger] q@[j]).0 == target && q@[j].2 == 1),
                    direct && h == 0 && nb@.subrange(0, k as int).contains(target) ==> exists|j: int|
                        1 <= j < q@.len() && (#[trigger] q@[j]).0 == target && q@[j].2 == 1,
                    forall|j: int|
                        0 <= j < q@.len() ==> seen.contains(
                            (#[trigger] q@[j]).0.0 * width + q@[j].0.1,
                        ),
                    direct ==> forall|j: int|
                        0 <= j < q@.len() && (#[trigger] q@[j]).0 == target ==> q@[j].2 == 1
                            && q@[j].1 == self.cell_value(from) + self.cell_value(target) && q@[j].3
                            == Some(target),
                    direct && h > 0 ==> exists|j: int|
                        1 <= j < q@.len() && (#[trigger] q@[j]).0 == target,
                    direct && h == 0 ==> amount == self.cell_value(from),
                    direct ==> (best matches Some(rt) ==> self.is_direct(from, target, rt)),
                    q@[0].2 == 0,
                    self.layered(target, capped, q@, h, skipped),
                    forall|j: int| 1 <= j < q@.len() ==> (#[trigger] q@[j]).2 >= 1,
                    forall|j: int|
                        0 <= j < head && (#[trigger] q@[j]).0 == target && q@[j].2 >= 1 && !(q@[j].1
                            < 0 && q@[j].2 < GUARD_HOPS) ==> best is Some,
                    forall|j: int| 0 <= j < q@.len() ==> (#[trigger] q@[j]).2 <= length + 1,
                    forall|x: Pos|
                        #[trigger] nb@.subrange(0, k as int).contains(x) ==> Self::reached(q@, x, length + 1),
                decreases nb@.len() - k,
            {
                let nxt = nb[k];
                assert(nb@.contains(nxt));
                proof {
                    lemma_slot(nxt.0, nxt.1, self.size);
                    lemma_push_contains(nb@.subrange(0, k as int), nxt);
                    assert(nb@.subrange(0, k + 1) =~= nb@.subrange(0, k as int).push(nxt));
                }
                let slot = nxt.0 * width + nxt.1;
                if !vis[slot] {
                    proof {
                        assert(!seen.contains(slot as int));
                        assert forall|j: int| 0 <= j < q@.len() implies (#[trigger] q@[j]).0 != nxt by {
                            if q@[j].0 == nxt {
                                assert(seen.contains(q@[j].0.0 * width + q@[j].0.1));
                            }
                        }
                        if direct && h > 0 && nxt == target {
                            let j = choose|j: int| 1 <= j < q@.len() && (#[trigger] q@[j]).0 == target;
                            assert(seen.contains(q@[j].0.0 * width + q@[j].0.1));
                        }
                        lemma_len_subset(seen.insert(slot as int), set_int_range(0, n as int));
                    }
                    vis.set(slot, true);
                    let first = if length == 0 {
                        Some(nxt)
                    } else {
                        ans
                    };
                    let ghost path = paths[h].push(nxt);
                    let ghost before = q@;
                    let value = self.value_of(nxt);
                    proof {
                        seen = seen.insert(slot as int);
                        assert(path.drop_last() =~= paths[h]);
                        assert forall|i: int| 0 <= i < path.len() - 1 implies #[trigger] self.adjacent(
                            path[i],
                            path[i + 1],
                        ) by {
                            if i < path.len() - 2 {
                                assert(self.adjacent(paths[h][i], paths[h][i + 1]));
                            }
                        }
                        paths = paths.push(path);
                    }
                    let entry = (nxt, amount + value, length + 1, first);
                    proof {
                        self.lemma_layered_push(target, capped, q@, h, skipped, entry);
                    }
                    assert(path.len() == entry.2 + 1 && path[0] == from && path.last() == nxt);
                    assert(self.path_value(path) == entry.1);
                    assert(entry.2 >= 1 ==> entry.3 == Some(path[1]));
                    q.push(entry);
                    assert forall|j: int| 0 <= j < q@.len() - 1 implies #[trigger] q@[j] == before[j] by {}
                    assert forall|x: Pos|
                        #[trigger] nb@.subrange(0, k + 1).contains(x) implies Self::reached(q@, x, length + 1) by {
                        if x == nxt {
                            assert(q@[q@.len() - 1].0 == x);
                        } else {
                            assert(nb@.subrange(0, k as int).contains(x));
                            let j = choose|j: int|
                                0 <= j < before.len() && (#[trigger] before[j]).0 == x && before[j].2
                                    <= length + 1;
                            assert(q@[j] == before[j]);
                        }
                    }
                    assert(self.entry_ok(from, capped, q@[q@.len() - 1], paths[q@.len() - 1], q@.len() - 1));
                    assert forall|k: int| #[trigger] seen.contains(k) implies exists|j: int|
                        0 <= j < q@.len() && q@[j].0.0 * width + q@[j].0.1 == k by {
                        if k == slot {
                            assert(q@[q@.len() - 1].0 == nxt);
                        } else {
                            let j = choose|j: int|
                                0 <= j < before.len() && before[j].0.0 * width + before[j].0.1 == k;
                            assert(q@[j] == before[j]);
                        }
                    }
                    proof {
                        assert forall|j: int| 0 <= j < q@.len() implies seen.contains(
                            (#[trigger] q@[j]).0.0 * width + q@[j].0.1,
                        ) by {
                            if j < before.len() {
                                assert(q@[j] == before[j]);
                            }
                        }
                        if direct {
                            assert forall|j: int|
                                0 <= j < q@.len() && (#[trigger] q@[j]).0 == target implies q@[j].2 == 1
                                    && q@[j].1 == self.cell_value(from) + self.cell_value(target)
                                    && q@[j].3 == Some(target) by {
                                if j < before.len() {
                                    assert(q@[j] == before[j]);
                                }
                            }
                        }
                        if direct && h > 0 {
                            let j = choose|j: int| 1 <= j < before.len() && (#[trigger] before[j]).0 == target;
                            assert(q@[j] == before[j]);
                        }
                        if direct && h > 0 && best is None {
                            let j = choose|j: int|
                                head <= j < before.len() && (#[trigger] before[j]).0 == target
                                    && before[j].2 == 1;
                            assert(q@[j] == before[j]);
                        }
                        if direct && h == 0 {
                            if nxt == target {
                                assert(q@[q@.len() - 1].0 == target);
                                assert(q@[q@.len() - 1].2 == 1);
                            } else if nb@.subrange(0, k as int).contains(target) {
                                let j = choose|j: int|
                                    1 <= j < before.len() && (#[trigger] before[j]).0 == target
                                        && before[j].2 == 1;
                                assert(q@[j] == before[j]);
                            }
                        }
                    }
                } else {
                    proof {
                        assert(seen.contains(slot as int));
                        let jv = choose|j: int|
                            0 <= j < q@.len() && q@[j].0.0 * width + q@[j].0.1 == slot;
                        assert(self.on_board(q@[jv].0));
                        lemma_slot_injective(q@[jv].0, nxt, self.size);
                        assert(q@[jv].0 == nxt);
                        assert forall|x: Pos|
                            #[trigger] nb@.subrange(0, k + 1).contains(x) implies Self::reached(q@, x, length + 1) by {
                            if x == nxt {
                                assert(q@[jv].0 == x);
                            } else {
                                assert(nb@.subrange(0, k as int).contains(x));
                            }
                        }
                        if direct && h == 0 && nxt == target {
                            assert(seen.contains(slot as int));
                            let j = choose|j: int|
                                0 <= j < q@.len() && q@[j].0.0 * width + q@[j].0.1 == slot;
                            lemma_slot_injective(q@[j].0, nxt, self.size);
                            assert(self.entry_ok(from, capped, q@[j], paths[j], j));
                            assert(j != 0);
                            assert(q@[j].2 == 1);
                            assert(q@[j].0 == target);
                        }
                    }
                }
                k = k + 1;
            }
            proof {
                assert(nb@.subrange(0, nb@.len() as int) =~= nb@);
                if direct && h == 0 {
                    assert(nb@.contains(target));
                }
                assert forall|x: Pos| #[trigger] self.adjacent(q@[h].0, x) implies Self::reached(
                    q@,
                    x,
                    q@[h].2 + 1,
                ) by {
                    assert(nb@.contains(x));
                }
                self.lemma_layered_expand(target, capped, q@, h, skipped);
            }
        }
        proof {
            if self.route_owed(from, target, capped) {
                let w = choose|path: Seq<Pos>|
                    #[trigger] self.is_walk(path) && path.len() >= 2 && path[0] == from
                        && path.last() == target && (capped ==> path.len() - 1 <= DEPTH_CAP);
                let hit = Self::lemma_first_hit(w, target, 1);
                let prefix = w.subrange(0, hit + 1);
                assert forall|i: int| 0 <= i < prefix.len() - 1 implies #[trigger] self.adjacent(
                    prefix[i],
                    prefix[i + 1],
                ) by {
                    assert(self.adjacent(w[i], w[i + 1]));
                }
                assert forall|i: int| 1 <= i < prefix.len() - 1 implies #[trigger] prefix[i]
                    != target by {
                    assert(w[i] != target);
                }
                self.lemma_clear_walk_reached(from, target, capped, q@, q@.len() as int, skipped, prefix);
                let j = choose|j: int|
                    0 <= j < q@.len() && (#[trigger] q@[j]).0 == prefix.last() && q@[j].2 <= hit;
                assert(j != 0);
                assert(self.entry_ok(from, capped, q@[j], paths[j], j));
                if q@[j].1 < 0 && q@[j].2 < GUARD_HOPS {
                    let path = paths[j];
                    assert(path =~= seq![from, target]);
                    let ghost a: int = 0;
                    assert(self.adjacent(path[a], path[a + 1]));
                    self.lemma_short_path_value(from, target);
                    assert(false);
                }
            }
        }
        best
    }

    /// An owned cell that a sweep starts searches from: more than one army
    /// and no stronghold not ours next to it.
    pub open spec fn sweep_anchor(&self, p: Pos) -> bool {
        &&& self.on_board(p)
        &&& self.owns(p)
        &&& self.army(p) > 1
        &&& !self.hostile_at(p, p, Guard::Strongholds, -1)
    }

    /// Some sweep anchor has a direct route into `t`.
    pub open spec fn directly_reachable(&self, t: Pos) -> bool {
        exists|p: Pos| #[trigger] self.sweep_anchor(p) && self.direct_route(p, t)
    }

    /// `tried` records, for each anchor searched from, the route its
    /// searches kept: each sound, found whenever one is owed, and none
    /// outscoring the best, which is one of them.
    pub open spec fn valuation(
        &self,
        target: Pos,
        capped: bool,
        tried: Map<Pos, Option<Route>>,
        best: Option<(Pos, Route)>,
    ) -> bool {
        &&& forall|p: Pos|
            #[trigger] tried.contains_key(p) ==> (tried[p] matches Some(x) ==> self.sound_route(
                p,
                target,
                x,
                capped,
            ) && x.hops <= MAX_CELLS)
        &&& self.config.bot.calc_cnt >= 1 ==> forall|p: Pos|
            #[trigger] tried.contains_key(p) && self.route_owed(p, target, capped) ==> tried[p] is Some
        &&& best matches Some(found) ==> tried.contains_key(found.0) && tried[found.0] == Some(found.1)
        &&& forall|p: Pos|
            #[trigger] tried.contains_key(p) && tried[p] is Some ==> best is Some && !outscores(
                tried[p].unwrap(),
                best.unwrap().1,
            )
    }

    /// Up to `calc_cnt` searches from `from`, keeping the best route; after
    /// the third, stop when the best is under half of `record`. The ghost
    /// sequence records what each search found.
    pub(crate) fn search_from(&self, from: Pos, target: Pos, capped: bool, record: Option<Route>) -> (r:
        (Option<Route>, Ghost<Seq<Option<Route>>>))
        requires
            self.wf(),
            self.on_board(from),
            record matches Some(b) ==> 1 <= b.hops <= MAX_CELLS,
        ensures
            ({
                let (best, tries) = r;
                &&& best matches Some(rt) ==> self.sound_route(from, target, rt, capped) && rt.hops
                    <= MAX_CELLS
                &&& forall|i: int|
                    0 <= i < tries@.len() ==> (#[trigger] tries@[i] matches Some(x) ==> self.sound_route(
                        from,
                        target,
                        x,
                        capped,
                    ))
                &&& self.route_owed(from, target, capped) ==> forall|i: int|
                    0 <= i < tries@.len() ==> #[trigger] tries@[i] is Some
                &&& keeps_best(tries@, best)
                &&& tries@.len() == self.config.bot.calc_cnt || (tries@.len() == 3 && under_half(
                    best,
                    record,
                ))
                &&& self.config.bot.calc_cnt >= 1 && self.route_owed(from, target, capped) ==> best is Some
                &&& self.config.bot.calc_cnt >= 1 && self.direct_route(from, target) ==> best is Some
                &&& self.direct_route(from, target) ==> (best matches Some(rt) ==> self.is_direct(
                    from,
                    target,
                    rt,
                ))
            }),
    {
        let mut best: Option<Route> = None;
        let ghost tries: Seq<Option<Route>> = Seq::empty();
        let mut t: u8 = 0;
        while t < self.config.bot.calc_cnt
            invariant
                self.wf(),
                self.on_board(from),
                record matches Some(b) ==> 1 <= b.hops <= MAX_CELLS,
                tries.len() == t,
                t <= self.config.bot.calc_cnt,
                best matches Some(rt) ==> self.sound_route(from, target, rt, capped) && rt.hops
                    <= MAX_CELLS,
                forall|i: int|
                    0 <= i < tries.len() ==> (#[trigger] tries[i] matches Some(x) ==> self.sound_route(
                        from,
                        target,
                        x,
                        capped,
                    ) && x.hops <= MAX_CELLS),
                self.route_owed(from, target, capped) ==> forall|i: int|
                    0 <= i < tries.len() ==> #[trigger] tries[i] is Some,
                keeps_best(tries, best),
                t >= 1 && self.direct_route(from, target) ==> best is Some,
                self.direct_route(from, target) ==> (best matches Some(rt) ==> self.is_direct(
                    from,
                    target,
                    rt,
                )),
            ensures
                best matches Some(rt) ==> self.sound_route(from, target, rt, capped) && rt.hops
                    <= MAX_CELLS,
                forall|i: int|
                    0 <= i < tries.len() ==> (#[trigger] tries[i] matches Some(x) ==> self.sound_route(
                        from,
                        target,
                        x,
                        capped,
                    )),
                self.route_owed(from, target, capped) ==> forall|i: int|
                    0 <= i < tries.len() ==> #[trigger] tries[i] is Some,
                keeps_best(tries, best),
                tries.len() == self.config.bot.calc_cnt || (tries.len() == 3 && under_half(best, record)),
                self.config.bot.calc_cnt >= 1 && self.direct_route(from, target) ==> best is Some,
                self.direct_route(from, target) ==> (best matches Some(rt) ==> self.is_direct(
                    from,
                    target,
                    rt,
                )),
            decreases self.config.bot.calc_cnt - t,
        {
            let found = self.search(from, target, capped);
            let ghost before = tries;
            let ghost old_best = best;
            proof {
                tries = tries.push(found);
            }
            if let Some(rt) = found {
                if better(rt, best) {
                    best = Some(rt);
                    proof {
                        assert forall|i: int|
                            0 <= i < tries.len() && (#[trigger] tries[i]) is Some implies best is Some
                                && !outscores(tries[i].unwrap(), best.unwrap()) by {
                            if i < before.len() {
                                assert(before[i] == tries[i]);
                                lemma_outscores_order(tries[i].unwrap(), old_best.unwrap(), rt);
                            }
                        }
                        assert(tries[tries.len() - 1] == best);
                    }
                } else {
                    proof {
                        assert forall|i: int|
                            0 <= i < tries.len() && (#[trigger] tries[i]) is Some implies best is Some
                                && !outscores(tries[i].unwrap(), best.unwrap()) by {
                            if i < before.len() {
                                assert(before[i] == tries[i]);
                            }
                        }
                        let b = best.unwrap();
                        let k = choose|k: int| 0 <= k < before.len() && before[k] == Some(b);
                        assert(tries[k] == Some(b));
                    }
                }
            } else {
                proof {
                    assert forall|i: int|
                        0 <= i < tries.len() && (#[trigger] tries[i]) is Some implies best is Some
                            && !outscores(tries[i].unwrap(), best.unwrap()) by {
                        assert(before[i] == tries[i]);
                    }
                    if best is Some {
                        let b = best.unwrap();
                        let k = choose|k: int| 0 <= k < before.len() && before[k] == Some(b);
                        assert(tries[k] == Some(b));
                    }
                }
            }
            proof {
                assert forall|i: int| 0 <= i < tries.len() - 1 implies #[trigger] tries[i] == before[i] by {}
            }
            t = t + 1;
            if t == 3 && below_half(best, record) {
                break;
            }
        }
        proof {
            if self.config.bot.calc_cnt >= 1 && self.route_owed(from, target, capped) {
                assert(tries[0] is Some);
            }
        }
        (best, Ghost(tries))
    }

    /// Route valuation toward `target`: from the persisted anchor when there
    /// is one, else from every sweep anchor; the best route and where it
    /// starts. The ghost map records what each anchor's searches kept.
    pub(crate) fn valuate(&self, target: Pos, capped: bool, anchor: Option<Pos>) -> (r: (
        Option<(Pos, Route)>,
        Ghost<Map<Pos, Option<Route>>>,
    ))
        requires
            self.wf(),
            anchor matches Some(a) ==> self.on_board(a),
        ensures
            ({
                let (best, tried) = r;
                &&& best matches Some(found) ==> {
                    &&& self.sound_route(found.0, target, found.1, capped)
                    &&& match anchor {
                        Some(a) => found.0 == a,
                        None => self.sweep_anchor(found.0),
                    }
                }
                &&& self.config.bot.calc_cnt >= 1 ==> match anchor {
                    Some(a) => self.direct_route(a, target) ==> (best matches Some(found)
                        && self.is_direct(a, target, found.1)),
                    None => self.directly_reachable(target) ==> best is Some,
                }
                &&& forall|p: Pos|
                    #[trigger] tried@.contains_key(p) <==> match anchor {
                        Some(a) => p == a,
                        None => self.sweep_anchor(p),
                    }
                &&& self.valuation(target, capped, tried@, best)
            }),
    {
        match anchor {
            Some(a) => {
                let (found, _) = self.search_from(a, target, capped, None);
                let ghost tried = Map::<Pos, Option<Route>>::empty().insert(a, found);
                let r = match found {
                    Some(rt) => Some((a, rt)),
                    None => None,
                };
                assert(tried.contains_key(a));
                (r, Ghost(tried))
            },
            None => {
                let cells = self.positions();
                let mut best: Option<(Pos, Route)> = None;
                let ghost tried = Map::<Pos, Option<Route>>::empty();
                let mut i: usize = 0;
                while i < cells.len()
                    invariant
                        self.wf(),
                        anchor is None,
                        0 <= i <= cells@.len(),
                        forall|q: Pos| cells@.contains(q) <==> self.on_board(q),
                        cells@.no_duplicates(),
                        best matches Some(found) ==> {
                            &&& self.sound_route(found.0, target, found.1, capped)
                            &&& found.1.hops <= MAX_CELLS
                            &&& self.sweep_anchor(found.0)
                        },
                        self.config.bot.calc_cnt >= 1 && (exists|j: int|
                            0 <= j < i && #[trigger] self.sweep_anchor(cells@[j])
                                && self.direct_route(cells@[j], target)) ==> best is Some,
                        forall|p: Pos|
                            #[trigger] tried.contains_key(p) <==> (cells@.subrange(0, i as int).contains(
                                p,
                            ) && self.sweep_anchor(p)),
                        self.valuation(target, capped, tried, best),
                    decreases cells@.len() - i,
                {
                    let pos = cells[i];
                    assert(cells@.contains(pos));
                    proof {
                        lemma_push_contains(cells@.subrange(0, i as int), pos);
                        assert(cells@.subrange(0, i + 1) =~= cells@.subrange(0, i as int).push(pos));
                        if cells@.subrange(0, i as int).contains(pos) {
                            let k = choose|k: int|
                                0 <= k < i && cells@.subrange(0, i as int)[k] == pos;
                            assert(cells@[k] == cells@[i as int]);
                        }
                    }
                    let land = self.land(pos);
                    if land.color == self.my_color && land.amount > 1 && !self.hostile_near(
                        pos,
                        pos,
                        Guard::Strongholds,
                        -1,
                    ) {
                        let record = match best {
                            Some(found) => Some(found.1),
                            None => None,
                        };
                        let (got, _) = self.search_from(pos, target, capped, record);
                        let ghost old_tried = tried;
                        let ghost old_best = best;
                        proof {
                            tried = tried.insert(pos, got);
                        }
                        if let Some(rt) = got {
                            if better(rt, record) {
                                best = Some((pos, rt));
                                proof {
                                    assert forall|p: Pos|
                                        #[trigger] tried.contains_key(p) && tried[p] is Some implies !outscores(
                                        tried[p].unwrap(),
                                        rt,
                                    ) by {
                                        if p != pos {
                                            assert(old_tried.contains_key(p));
                                            lemma_outscores_order(tried[p].unwrap(), old_best.unwrap().1, rt);
                                        }
                                    }
                                }
                            } else {
                                proof {
                                    assert(old_tried.contains_key(old_best.unwrap().0));
                                }
                            }
                        } else {
                            proof {
                                if best is Some {
                                    assert(old_tried.contains_key(old_best.unwrap().0));
                                }
                            }
                        }
                    }
                    proof {
                        if self.config.bot.calc_cnt >= 1 && best is None {
                            assert forall|j: int|
                                0 <= j < i + 1 && #[trigger] self.sweep_anchor(cells@[j]) implies !self.direct_route(
                                cells@[j],
                                target,
                            ) by {
                                if j == i && self.direct_route(cells@[j], target) {
                                    assert(self.sweep_anchor(pos));
                                }
                            }
                        }
                    }
                    i = i + 1;
                }
                proof {
                    assert(cells@.subrange(0, cells@.len() as int) =~= cells@);
                    if self.config.bot.calc_cnt >= 1 && (exists|p: Pos| #[trigger]
                        self.sweep_anchor(p) && self.direct_route(p, target)) {
                        let p = choose|p: Pos| #[trigger]
                            self.sweep_anchor(p) && self.direct_route(p, target);
                        assert(cells@.contains(p));
                        let j = choose|j: int| 0 <= j < cells@.len() && cells@[j] == p;
                        assert(self.sweep_anchor(cells@[j]));
                    }
                }
                (best, Ghost(tried))
            },
        }
    }
}

} // verus!
