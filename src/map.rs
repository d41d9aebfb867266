//! Cells of the board as the game server describes them.
use vstd::prelude::*;

verus! {

/// One cell: its owner's color (0 for neutral), its terrain code and its army.
#[derive(Clone, Copy, PartialEq, Eq, Debug)]
pub struct Land {
    pub color: u8,
    pub kind: u8,
    pub amount: u32,
}

/// Size and map type of a new board.
#[derive(Clone, Copy, PartialEq, Eq, Debug)]
pub struct MapInfo {
    pub size: usize,
    pub kind: u8,
}

/// The board, indexed by row then column, both from 1.
pub type Grid = Vec<Vec<Land>>;

} // verus!
