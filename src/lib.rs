//! Decision engine of a bot for a tick-driven, grid-based territorial game.
//!
//! The board model, team deference rule, target selection, route search,
//! expansion planning, force-split rule and the per-tick decision loop are
//! verified; connection handling lives outside the library.
use vstd::prelude::*;

pub mod board;
pub mod bot;
pub mod consts;
pub mod event;
pub mod expansion;
pub mod laws;
pub mod map;
pub mod moves;
pub mod random;
pub mod route;
pub mod session;
pub mod target;
pub mod team;

pub use bot::Bot;

verus! {

/// When a bot votes to start a game.
#[derive(Clone, Copy, PartialEq, Eq, Debug)]
pub enum AutoReady {
    Unconditional(bool),
    Conditional { more_than: u8 },
}

/// Settings of one bot account.
#[derive(Clone, Debug)]
pub struct BotConfig {
    pub cookie: String,
    pub room: String,
    pub auto_ready: AutoReady,
    pub team: u32,
    /// How many searches a route valuation may run from one anchor.
    pub calc_cnt: u8,
}

/// Settings that a bot asks its room to use.
#[derive(Clone, Copy, PartialEq, Eq, Debug)]
pub struct RoomConfig {
    pub map: Option<u8>,
    pub speed: Option<u8>,
    pub private: Option<bool>,
}

/// All bots and rooms of one run.
pub struct Config {
    pub bots: Vec<BotConfig>,
    pub rooms: std::collections::HashMap<String, RoomConfig>,
}

/// Everything one bot knows about itself and its team.
pub struct BotData {
    /// One-based rank of this bot within its team.
    pub id: usize,
    pub bot: BotConfig,
    /// Identities of the team, in order of rank.
    pub team: indexmap::IndexSet<u32>,
    pub room: Option<RoomConfig>,
}

} // verus!
