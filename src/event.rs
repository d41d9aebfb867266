//! Payloads of the game server's events.
use crate::map::{Land, MapInfo};
use vstd::prelude::*;

verus! {

/// Game speed, which the server sends either as a number or as text.
#[derive(Clone, Debug)]
pub enum Speed {
    U8(u8),
    String(String),
}

/// A room's settings as the server announces them.
#[derive(Clone, Debug)]
pub struct UpdateSettings {
    pub speed: Speed,
    pub private: bool,
}

/// One node of a full board: the first holds the board's size, the others are cells.
#[derive(Clone, Copy, Debug)]
pub enum NewMapNode {
    MapInfo(MapInfo),
    Land(Land),
}

/// A board patch: either a round number or changed cells as `[row, col, cell]` texts.
#[derive(Clone, Debug)]
pub enum MapUpdate {
    Round(u32),
    Data(Vec<(String, String, String)>),
}

} // verus!
