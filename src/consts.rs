//! Tunable constants and terrain tables of the engine.
use vstd::prelude::*;

verus! {

/// Largest board edge the engine accepts. A route search keeps a flat table
/// of `(MAX_SIZE + 1)` squared visited flags, and hop counts and route values
/// stay within machine integers; a board with a larger edge is refused as
/// not well formed, and a tick on it gives no move.
pub const MAX_SIZE: usize = 4096;

/// Cells of the largest flat table of a board: `(MAX_SIZE + 1)` squared.
pub const MAX_CELLS: usize = 16785409;

/// Hop count below which a route of negative value is refused. Tunable
/// here; the search's promise that an owed route is found assumes that only
/// one-hop routes fall under it, as with this value.
pub const GUARD_HOPS: usize = 2;

/// Most hops a search walks while nothing urgent is visible.
pub const DEPTH_CAP: usize = 6;

/// Chance, in percent, that a tick tries to expand before pursuing.
pub const EXPAND_RATE: u8 = 70;

/// Chance, in percent, that a pursuit forgets its anchor and sweeps all anchors again.
pub const ANCHOR_RESET_RATE: u8 = 30;

/// Army above which a capital capture considers splitting the force.
pub const CAPITAL_CAUTION: u32 = 25;

/// Terrain code of plain land.
pub const PLAIN: u8 = 0;

/// Terrain code of the most wanted open land.
pub const TYPE_A: u8 = 1;

/// Terrain code of a stronghold whose neighbours weigh splitting the force.
pub const STRONGHOLD_A: u8 = 2;

/// Terrain code of a stronghold that needs two more army than its defender to take.
pub const STRONGHOLD_B: u8 = 3;

/// Terrain code of an impassable obstacle.
pub const OBSTACLE_A: u8 = 4;

/// Terrain code of a capital.
pub const CAPITAL: u8 = 5;

/// Terrain code of the other impassable obstacle; the highest code.
pub const OBSTACLE_B: u8 = 6;

/// Default number of searches per anchor.
pub fn default_calc_cnt() -> (r: u8)
    ensures
        r == 1,
{
    1
}

/// Whether armies can stand on and move through a terrain.
pub open spec fn passable(kind: u8) -> bool {
    kind != OBSTACLE_A && kind != OBSTACLE_B
}

/// Base desirability of a terrain as a long-range target; lower is better.
pub open spec fn target_base(kind: u8) -> int {
    if kind == PLAIN {
        2
    } else if kind == TYPE_A || kind == STRONGHOLD_A || kind == STRONGHOLD_B {
        1
    } else if kind == CAPITAL {
        3
    } else {
        9
    }
}

/// Base desirability of a terrain as an immediate capture; lower is better.
pub open spec fn expand_base(kind: u8) -> int {
    if kind == PLAIN {
        5
    } else if kind == TYPE_A {
        1
    } else if kind == STRONGHOLD_A {
        3
    } else if kind == STRONGHOLD_B {
        2
    } else if kind == CAPITAL {
        4
    } else {
        9
    }
}

/// Extra army, beyond the defender's, that a capture needs.
pub open spec fn margin(kind: u8) -> int {
    if kind == STRONGHOLD_B {
        2
    } else {
        1
    }
}

/// Whether armies can stand on and move through a terrain.
pub fn is_passable(kind: u8) -> (r: bool)
    ensures
        r == passable(kind),
{
    kind != OBSTACLE_A && kind != OBSTACLE_B
}

/// Base desirability of a terrain as a long-range target; lower is better.
pub fn target_score(kind: u8) -> (r: i64)
    ensures
        r == target_base(kind),
{
    if kind == PLAIN {
        2
    } else if kind == TYPE_A || kind == STRONGHOLD_A || kind == STRONGHOLD_B {
        1
    } else if kind == CAPITAL {
        3
    } else {
        9
    }
}

/// Base desirability of a terrain as an immediate capture; lower is better.
pub fn expand_score(kind: u8) -> (r: i64)
    ensures
        r == expand_base(kind),
{
    if kind == PLAIN {
        5
    } else if kind == TYPE_A {
        1
    } else if kind == STRONGHOLD_A {
        3
    } else if kind == STRONGHOLD_B {
        2
    } else if kind == CAPITAL {
        4
    } else {
        9
    }
}

/// Extra army, beyond the defender's, that a capture needs.
pub fn capture_margin(kind: u8) -> (r: u32)
    ensures
        r == margin(kind),
{
    if kind == STRONGHOLD_B {
        2
    } else {
        1
    }
}

} // verus!
