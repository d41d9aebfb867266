//! The board model: cells, terrain, adjacency, fog of war, and who owns what.
use crate::consts::{
    is_passable, passable, CAPITAL, MAX_SIZE, OBSTACLE_B, STRONGHOLD_A, STRONGHOLD_B, TYPE_A,
};
use crate::bot::{Bot, Pos};
use crate::map::Land;
use crate::team::{members, outranked, protected};
use vstd::prelude::*;

verus! {

broadcast use vstd::std_specs::hash::group_hash_axioms;

/// What a sequence holds after a push.
pub proof fn lemma_push_contains<T>(s: Seq<T>, e: T)
    ensures
        forall|q: T| #[trigger] s.push(e).contains(q) <==> (s.contains(q) || q == e),
{
    assert forall|q: T| #[trigger] s.push(e).contains(q) <==> (s.contains(q) || q == e) by {
        if s.push(e).contains(q) {
            let k = choose|k: int| 0 <= k < s.push(e).len() && s.push(e)[k] == q;
            if k < s.len() {
                assert(s[k] == q);
            }
        }
        if s.contains(q) {
            let k = choose|k: int| 0 <= k < s.len() && s[k] == q;
            assert(s.push(e)[k] == q);
        }
        if q == e {
            assert(s.push(e)[s.len() as int] == q);
        }
    }
}

/// The place of a cell in a row-by-row listing of a board of edge `size`.
pub open spec fn row_major(size: usize, p: Pos) -> int {
    (p.0 - 1) * size + (p.1 - 1)
}

/// Cells listed row by row before `(x, y)` come at lower places.
pub proof fn lemma_row_major_before(size: usize, p: Pos, x: usize, y: usize)
    requires
        1 <= p.0,
        1 <= p.1 <= size,
        1 <= y,
        p.0 < x || (p.0 == x && p.1 < y),
    ensures
        0 <= row_major(size, p) < (x - 1) * size + (y - 1),
{
    let w = size as int;
    let a = p.0 as int;
    let b = p.1 as int;
    let xi = x as int;
    let yi = y as int;
    assert(0 <= (a - 1) * w) by (nonlinear_arith)
        requires
            1 <= a,
            0 <= w,
    ;
    if a < xi {
        assert((a - 1) * w + (b - 1) < (xi - 1) * w + (yi - 1)) by (nonlinear_arith)
            requires
                1 <= a < xi,
                1 <= b <= w,
                1 <= yi,
        ;
    }
}

/// The order in which `neighbours` lists the cells next to `p`: up, right,
/// down, left.
pub open spec fn dir_rank(p: Pos, q: Pos) -> int {
    if q.0 + 1 == p.0 {
        0
    } else if q.1 == p.1 + 1 {
        1
    } else if q.0 == p.0 + 1 {
        2
    } else {
        3
    }
}

/// Whether two positions are the same cell.
pub fn same_pos(a: Pos, b: Pos) -> (r: bool)
    ensures
        r == (a == b),
{
    a.0 == b.0 && a.1 == b.1
}

/// Terrains that count for a neighbour check.
#[derive(Clone, Copy, PartialEq, Eq, Debug)]
pub enum Guard {
    /// Either kind of stronghold.
    Strongholds,
    /// Type A land, strongholds and capitals.
    Valuable,
    /// Any terrain.
    AnyTerrain,
}

impl Guard {
    pub open spec fn admits(self, kind: u8) -> bool {
        match self {
            Guard::Strongholds => kind == STRONGHOLD_A || kind == STRONGHOLD_B,
            Guard::Valuable => kind == TYPE_A || kind == STRONGHOLD_A || kind == STRONGHOLD_B
                || kind == CAPITAL,
            Guard::AnyTerrain => true,
        }
    }

    pub fn allows(self, kind: u8) -> (r: bool)
        ensures
            r == self.admits(kind),
    {
        match self {
            Guard::Strongholds => kind == STRONGHOLD_A || kind == STRONGHOLD_B,
            Guard::Valuable => kind == TYPE_A || kind == STRONGHOLD_A || kind == STRONGHOLD_B
                || kind == CAPITAL,
            Guard::AnyTerrain => true,
        }
    }
}

impl Bot {
    /// The board has its declared size, no larger than `MAX_SIZE`, and known
    /// terrain codes.
    pub open spec fn wf(&self) -> bool {
        &&& self.size <= MAX_SIZE
        &&& self.gm@.len() > self.size
        &&& forall|x: int| 1 <= x <= self.size ==> #[trigger] self.gm@[x]@.len() > self.size
        &&& forall|p: Pos| self.on_board(p) ==> #[trigger] self.cell(p).kind <= OBSTACLE_B
    }

    pub open spec fn on_board(&self, p: Pos) -> bool {
        1 <= p.0 <= self.size && 1 <= p.1 <= self.size
    }

    pub open spec fn cell(&self, p: Pos) -> Land {
        self.gm@[p.0 as int]@[p.1 as int]
    }

    pub open spec fn owns(&self, p: Pos) -> bool {
        self.cell(p).color == self.my_color
    }

    pub open spec fn army(&self, p: Pos) -> int {
        self.cell(p).amount as int
    }

    /// `q` is a passable cell of the board one step from `p` in one of four directions.
    pub open spec fn adjacent(&self, p: Pos, q: Pos) -> bool {
        &&& self.on_board(q)
        &&& passable(self.cell(q).kind)
        &&& {
            ||| q.0 == p.0 && q.1 == p.1 + 1
            ||| q.0 == p.0 && q.1 + 1 == p.1
            ||| q.1 == p.1 && q.0 == p.0 + 1
            ||| q.1 == p.1 && q.0 + 1 == p.0
        }
    }

    /// `p` or one of its eight surrounding cells belongs to this bot.
    pub open spec fn visible_at(&self, p: Pos) -> bool {
        exists|q: Pos|
            #[trigger] self.owns(q) && self.on_board(q) && p.0 <= q.0 + 1 && q.0 <= p.0 + 1
                && p.1 <= q.1 + 1 && q.1 <= p.1 + 1
    }

    pub fn valid_pos(&self, p: Pos) -> (r: bool)
        ensures
            r == self.on_board(p),
    {
        p.0 >= 1 && p.0 <= self.size && p.1 >= 1 && p.1 <= self.size
    }

    pub fn land(&self, p: Pos) -> (r: &Land)
        requires
            self.wf(),
            self.on_board(p),
        ensures
            *r == self.cell(p),
    {
        &self.gm[p.0][p.1]
    }

    /// The board's shape and terrain codes are as the engine needs them.
    pub fn board_ok(&self) -> (r: bool)
        ensures
            r == self.wf(),
    {
        if self.size > MAX_SIZE || self.gm.len() <= self.size {
            return false;
        }
        let mut x: usize = 1;
        while x <= self.size
            invariant
                1 <= x <= self.size + 1,
                self.size <= MAX_SIZE,
                self.gm@.len() > self.size,
                forall|i: int| 1 <= i < x ==> #[trigger] self.gm@[i]@.len() > self.size,
                forall|p: Pos| 1 <= p.0 < x && 1 <= p.1 <= self.size ==> #[trigger] self.cell(p).kind <= OBSTACLE_B,
            decreases self.size + 1 - x,
        {
            let row = &self.gm[x];
            if row.len() <= self.size {
                return false;
            }
            let mut y: usize = 1;
            while y <= self.size
                invariant
                    1 <= x <= self.size,
                    1 <= y <= self.size + 1,
                    self.size <= MAX_SIZE,
                    row@ == self.gm@[x as int]@,
                    row@.len() > self.size,
                    forall|p: Pos| 1 <= p.0 < x && 1 <= p.1 <= self.size ==> #[trigger] self.cell(p).kind <= OBSTACLE_B,
                    forall|p: Pos| p.0 == x && 1 <= p.1 < y ==> #[trigger] self.cell(p).kind <= OBSTACLE_B,
                decreases self.size + 1 - y,
            {
                if row[y].kind > OBSTACLE_B {
                    assert(self.cell((x, y)).kind > OBSTACLE_B);
                    return false;
                }
                y = y + 1;
            }
            x = x + 1;
        }
        true
    }

    /// The passable cells next to `p`, each once.
    pub fn neighbours(&self, p: Pos) -> (r: Vec<Pos>)
        requires
            self.wf(),
            self.on_board(p),
        ensures
            forall|q: Pos| r@.contains(q) <==> self.adjacent(p, q),
            forall|i: int|
                0 <= i < r@.len() ==> self.on_board(#[trigger] r@[i]) && passable(
                    self.cell(r@[i]).kind,
                ),
            r@.no_duplicates(),
            r@.len() <= 4,
            forall|i: int, j: int|
                0 <= i < j < r@.len() ==> dir_rank(p, #[trigger] r@[i]) < dir_rank(p, #[trigger] r@[j]),
    {
        let (x, y) = p;
        let mut r: Vec<Pos> = Vec::new();
        let ghost up: Pos = ((x - 1) as usize, y);
        let ghost right: Pos = (x, (y + 1) as usize);
        let ghost down: Pos = ((x + 1) as usize, y);
        let ghost left: Pos = (x, (y - 1) as usize);
        if x > 1 && is_passable(self.land((x - 1, y)).kind) {
            proof { lemma_push_contains(r@, up); }
            r.push((x - 1, y));
        }
        assert(forall|q: Pos| r@.contains(q) <==> (q == up && self.adjacent(p, q)));
        assert(forall|i: int| 0 <= i < r@.len() ==> dir_rank(p, #[trigger] r@[i]) < 1);
        assert(forall|i: int, j: int|
            0 <= i < j < r@.len() ==> dir_rank(p, #[trigger] r@[i]) < dir_rank(p, #[trigger] r@[j]));
        if y < self.size && is_passable(self.land((x, y + 1)).kind) {
            proof { lemma_push_contains(r@, right); }
            r.push((x, y + 1));
        }
        assert(forall|q: Pos| r@.contains(q) <==> ((q == up || q == right) && self.adjacent(p, q)));
        assert(forall|i: int| 0 <= i < r@.len() ==> dir_rank(p, #[trigger] r@[i]) < 2);
        assert(forall|i: int, j: int|
            0 <= i < j < r@.len() ==> dir_rank(p, #[trigger] r@[i]) < dir_rank(p, #[trigger] r@[j]));
        if x < self.size && is_passable(self.land((x + 1, y)).kind) {
            proof { lemma_push_contains(r@, down); }
            r.push((x + 1, y));
        }
        assert(forall|q: Pos|
            r@.contains(q) <==> ((q == up || q == right || q == down) && self.adjacent(p, q)));
        assert(forall|i: int| 0 <= i < r@.len() ==> dir_rank(p, #[trigger] r@[i]) < 3);
        assert(forall|i: int, j: int|
            0 <= i < j < r@.len() ==> dir_rank(p, #[trigger] r@[i]) < dir_rank(p, #[trigger] r@[j]));
        if y > 1 && is_passable(self.land((x, y - 1)).kind) {
            proof { lemma_push_contains(r@, left); }
            r.push((x, y - 1));
        }
        assert(forall|q: Pos|
            r@.contains(q) <==> ((q == up || q == right || q == down || q == left) && self.adjacent(p, q)));
        assert forall|q: Pos| self.adjacent(p, q) implies (q == up || q == right || q == down || q == left) by {
            if q.0 + 1 == p.0 {
                assert(q == up);
            } else if q.1 == p.1 + 1 {
                assert(q == right);
            } else if q.0 == p.0 + 1 {
                assert(q == down);
            } else {
                assert(q == left);
            }
        }
        r
    }

    /// Every cell of the board, once each, row by row.
    pub fn positions(&self) -> (r: Vec<Pos>)
        requires
            self.size <= MAX_SIZE,
        ensures
            forall|q: Pos| #[trigger] r@.contains(q) <==> self.on_board(q),
            r@.no_duplicates(),
            r@.len() == self.size * self.size,
            forall|q: Pos| self.on_board(q) ==> #[trigger] r@[row_major(self.size, q)] == q,
    {
        let mut r: Vec<Pos> = Vec::new();
        let mut x: usize = 1;
        while x <= self.size
            invariant
                1 <= x <= self.size + 1,
                self.size <= MAX_SIZE,
                forall|q: Pos| r@.contains(q) <==> (1 <= q.0 < x && 1 <= q.1 <= self.size),
                r@.no_duplicates(),
                r@.len() == (x - 1) * self.size,
                forall|q: Pos|
                    1 <= q.0 < x && 1 <= q.1 <= self.size ==> #[trigger] r@[row_major(self.size, q)]
                        == q,
            decreases self.size + 1 - x,
        {
            let mut y: usize = 1;
            while y <= self.size
                invariant
                    1 <= x <= self.size,
                    1 <= y <= self.size + 1,
                    self.size <= MAX_SIZE,
                    forall|q: Pos|
                        r@.contains(q) <==> ((1 <= q.0 < x && 1 <= q.1 <= self.size) || (q.0 == x
                            && 1 <= q.1 < y)),
                    r@.no_duplicates(),
                    r@.len() == (x - 1) * self.size + (y - 1),
                    forall|q: Pos|
                        ((1 <= q.0 < x && 1 <= q.1 <= self.size) || (q.0 == x && 1 <= q.1 < y))
                            ==> #[trigger] r@[row_major(self.size, q)] == q,
                decreases self.size + 1 - y,
            {
                let ghost before = r@;
                proof {
                    lemma_push_contains(r@, (x, y));
                    assert(!before.contains((x, y)));
                }
                r.push((x, y));
                proof {
                    assert forall|i: int, j: int| 0 <= i < j < r@.len() implies r@[i] != r@[j] by {
                        if j == before.len() {
                            assert(before.contains(before[i]));
                        } else {
                            assert(before[i] != before[j]);
                        }
                    }
                    assert forall|q: Pos|
                        ((1 <= q.0 < x && 1 <= q.1 <= self.size) || (q.0 == x && 1 <= q.1 < y + 1))
                            implies #[trigger] r@[row_major(self.size, q)] == q by {
                        if q != (x, y) {
                            lemma_row_major_before(self.size, q, x, y);
                            assert(before[row_major(self.size, q)] == q);
                        }
                    }
                }
                y = y + 1;
            }
            proof {
                let w = self.size as int;
                assert((x - 1) * w + w == x * w) by (nonlinear_arith);
            }
            x = x + 1;
        }
        r
    }

    /// Whether this bot owns the cell at row `x`, column `y`; false off the board.
    fn owned_at(&self, x: usize, y: usize) -> (r: bool)
        requires
            self.wf(),
        ensures
            r == (self.on_board((x, y)) && self.owns((x, y))),
    {
        self.valid_pos((x, y)) && self.land((x, y)).color == self.my_color
    }

    /// Fog of war: `p` is seen when it or one of its eight surrounding cells is ours.
    pub fn visible(&self, p: Pos) -> (r: bool)
        requires
            self.wf(),
            self.on_board(p),
        ensures
            r == self.visible_at(p),
    {
        let (x, y) = p;
        let r = self.owned_at(x - 1, y - 1) || self.owned_at(x - 1, y) || self.owned_at(x - 1, y + 1)
            || self.owned_at(x, y - 1) || self.owned_at(x, y) || self.owned_at(x, y + 1)
            || self.owned_at(x + 1, y - 1) || self.owned_at(x + 1, y) || self.owned_at(x + 1, y + 1);
        if !r {
            assert forall|q: Pos|
                #[trigger] self.owns(q) && self.on_board(q) implies !(p.0 <= q.0 + 1 && q.0 <= p.0 + 1
                && p.1 <= q.1 + 1 && q.1 <= p.1 + 1) by {
                if p.0 <= q.0 + 1 && q.0 <= p.0 + 1 && p.1 <= q.1 + 1 && q.1 <= p.1 + 1 {
                    assert(q.0 == x - 1 || q.0 == x || q.0 == x + 1);
                    assert(q.1 == y - 1 || q.1 == y || q.1 == y + 1);
                }
            }
        }
        r
    }

    /// The identity that owns `p` is known.
    pub open spec fn resolved(&self, p: Pos) -> bool {
        self.color_to_uid@.contains_key(self.cell(p).color)
    }

    /// The identity that owns `p`.
    pub open spec fn owner(&self, p: Pos) -> u32 {
        self.color_to_uid@[self.cell(p).color]
    }

    /// This bot's team, in order of rank.
    pub open spec fn team(&self) -> Seq<u32> {
        members(self.config.team)
    }

    /// `p` is land of a teammate that outranks this bot.
    pub open spec fn protected_cell(&self, p: Pos) -> bool {
        outranked(self.team(), self.config.id, self.owner(p))
    }

    /// `p` is land of a teammate.
    pub open spec fn teammate_cell(&self, p: Pos) -> bool {
        self.team().contains(self.owner(p))
    }

    /// Some cell next to `p`, other than `other`, that is not ours, has a
    /// terrain that `guard` names, and holds more than `min_army`.
    pub open spec fn hostile_at(&self, p: Pos, other: Pos, guard: Guard, min_army: int) -> bool {
        exists|n: Pos|
            #[trigger] self.adjacent(p, n) && !self.owns(n) && n != other && guard.admits(
                self.cell(n).kind,
            ) && self.army(n) > min_army
    }

    /// Whether the land of `uid` is protected from this bot.
    pub fn superior(&self, uid: u32) -> (r: bool)
        ensures
            r == outranked(self.team(), self.config.id, uid),
            1 <= self.config.id <= self.team().len() && self.team()[self.config.id - 1] == uid ==> !r,
    {
        protected(&self.config.team, self.config.id, uid)
    }

    /// The identity that owns `p`, when it is known.
    pub fn owner_of(&self, p: Pos) -> (r: Option<u32>)
        requires
            self.wf(),
            self.on_board(p),
        ensures
            r == if self.resolved(p) {
                Some(self.owner(p))
            } else {
                None::<u32>
            },
    {
        match self.color_to_uid.get(&self.land(p).color) {
            Some(uid) => Some(*uid),
            None => None,
        }
    }

    /// Whether some cell next to `p`, other than `other`, is not ours, has a
    /// terrain that `guard` names, and holds more than `min_army`.
    pub fn hostile_near(&self, p: Pos, other: Pos, guard: Guard, min_army: i64) -> (r: bool)
        requires
            self.wf(),
            self.on_board(p),
        ensures
            r == self.hostile_at(p, other, guard, min_army as int),
    {
        let nb = self.neighbours(p);
        let mut k: usize = 0;
        while k < nb.len()
            invariant
                self.wf(),
                0 <= k <= nb@.len(),
                forall|q: Pos| nb@.contains(q) <==> self.adjacent(p, q),
                forall|j: int|
                    0 <= j < k ==> !{
                        let n = #[trigger] nb@[j];
                        !self.owns(n) && n != other && guard.admits(self.cell(n).kind)
                            && self.army(n) > min_army
                    },
            decreases nb@.len() - k,
        {
            let n = nb[k];
            assert(nb@.contains(n));
            let land = self.land(n);
            if land.color != self.my_color && !same_pos(n, other) && guard.allows(land.kind)
                && land.amount as i64 > min_army {
                return true;
            }
            k = k + 1;
        }
        assert forall|n: Pos| #[trigger] self.adjacent(p, n) implies !(!self.owns(n) && n != other
            && guard.admits(self.cell(n).kind) && self.army(n) > min_army) by {
            assert(nb@.contains(n));
            let j = choose|j: int| 0 <= j < nb@.len() && nb@[j] == n;
        }
        false
    }
}

} // verus!
