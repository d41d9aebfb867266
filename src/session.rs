//! Decisions of a game session that sit around the engine: start votes,
//! room settings, readiness, and keeping the board and identities current.
use crate::bot::{Bot, Pos};
use crate::event::{NewMapNode, Speed, UpdateSettings};
use crate::map::Land;
use crate::{AutoReady, BotData, RoomConfig};
use vstd::prelude::*;
use vstd::utf8::encode_utf8;

verus! {

broadcast use vstd::std_specs::hash::group_hash_axioms;

/// On joining a room or after a game: the map to ask for, and whether to
/// vote for a start at once.
pub fn vote_start(config: &BotData) -> (r: (Option<u8>, bool))
    ensures
        r.0 == match config.room {
            Some(room) => room.map,
            None => None,
        },
        r.1 == (config.bot.auto_ready == AutoReady::Unconditional(true)),
{
    let map = match config.room {
        Some(room) => room.map,
        None => None,
    };
    let vote = match config.bot.auto_ready {
        AutoReady::Unconditional(b) => b,
        AutoReady::Conditional { .. } => false,
    };
    (map, vote)
}

/// The decimal digits of `v`, most significant first.
pub open spec fn decimal(v: nat) -> Seq<u8>
    decreases v,
{
    if v < 10 {
        seq![(48 + v) as u8]
    } else {
        decimal(v / 10).push((48 + v % 10) as u8)
    }
}

/// The decimal digits of `v`.
pub fn decimal_bytes(v: u8) -> (r: Vec<u8>)
    ensures
        r@ == decimal(v as nat),
{
    let mut r: Vec<u8> = Vec::new();
    if v >= 100 {
        r.push(48 + v / 100);
    }
    if v >= 10 {
        r.push(48 + (v / 10) % 10);
    }
    r.push(48 + v % 10);
    proof {
        let n = v as nat;
        if n >= 100 {
            assert(decimal(n / 100) == seq![(48 + n / 100) as u8]);
            assert(decimal(n / 10) == decimal(n / 100).push((48 + (n / 10) % 10) as u8));
        } else if n >= 10 {
            assert(decimal(n / 10) == seq![(48 + n / 10) as u8]);
        }
        assert(r@ =~= decimal(n));
    }
    r
}

/// Whether the room's announced speed differs from `want`.
pub open spec fn speed_differs(speed: Speed, want: u8) -> bool {
    match speed {
        Speed::U8(s) => s != want,
        Speed::String(text) => encode_utf8(text@) != decimal(want as nat),
    }
}

/// Whether the room's announced speed differs from `want`; a speed sent as
/// text is compared with `want` written in decimal.
pub fn speed_changed(speed: &Speed, want: u8) -> (r: bool)
    ensures
        r == speed_differs(*speed, want),
{
    match speed {
        Speed::U8(s) => *s != want,
        Speed::String(text) => {
            let digits = decimal_bytes(want);
            let bytes = text.as_str().as_bytes();
            assert(bytes@ == encode_utf8(text@));
            if bytes.len() != digits.len() {
                return true;
            }
            let mut i: usize = 0;
            while i < bytes.len()
                invariant
                    speed_differs(*speed, want) == (encode_utf8(text@) != decimal(want as nat)),
                    bytes@ == encode_utf8(text@),
                    digits@ == decimal(want as nat),
                    bytes@.len() == digits@.len(),
                    0 <= i <= bytes@.len(),
                    forall|j: int| 0 <= j < i ==> bytes@[j] == digits@[j],
                decreases bytes@.len() - i,
            {
                if bytes[i] != digits[i] {
                    assert(bytes@[i as int] != digits@[i as int]);
                    assert(bytes@ != digits@);
                    return true;
                }
                i = i + 1;
            }
            assert(bytes@ =~= digits@);
            false
        },
    }
}

/// The settings to ask the room for, after it announces `current`: the
/// configured speed and privacy, each only where it differs.
pub fn settings_requests(room: Option<RoomConfig>, current: &UpdateSettings) -> (r: (
    Option<u8>,
    Option<bool>,
))
    ensures
        r.0 == match room {
            Some(rc) => match rc.speed {
                Some(want) => if speed_differs(current.speed, want) {
                    Some(want)
                } else {
                    None
                },
                None => None,
            },
            None => None,
        },
        r.1 == match room {
            Some(rc) => match rc.private {
                Some(want) => if current.private != want {
                    Some(want)
                } else {
                    None
                },
                None => None,
            },
            None => None,
        },
{
    match room {
        Some(rc) => {
            let speed = match rc.speed {
                Some(want) => if speed_changed(&current.speed, want) {
                    Some(want)
                } else {
                    None
                },
                None => None,
            };
            let private = match rc.private {
                Some(want) => if current.private != want {
                    Some(want)
                } else {
                    None
                },
                None => None,
            };
            (speed, private)
        },
        None => (None, None),
    }
}

/// A conditional bot is ready while more than `more_than` users are in the
/// room: the vote to send when `count` users are there, if readiness changes.
pub fn ready_vote(auto_ready: AutoReady, count: u8, is_ready: bool) -> (r: Option<bool>)
    ensures
        r == match auto_ready {
            AutoReady::Conditional { more_than } => if count > more_than && !is_ready {
                Some(true)
            } else if count <= more_than && is_ready {
                Some(false)
            } else {
                None
            },
            AutoReady::Unconditional(_) => None,
        },
{
    match auto_ready {
        AutoReady::Conditional { more_than } => {
            if count > more_than && !is_ready {
                Some(true)
            } else if count <= more_than && is_ready {
                Some(false)
            } else {
                None
            }
        },
        AutoReady::Unconditional(_) => None,
    }
}

/// The cell a node of a full board stands for; the size node stands for an
/// empty neutral cell.
pub open spec fn land_of(node: NewMapNode) -> Land {
    match node {
        NewMapNode::Land(l) => l,
        NewMapNode::MapInfo(_) => Land { color: 0, kind: 0, amount: 0 },
    }
}

fn node_land(node: &NewMapNode) -> (r: Land)
    ensures
        r == land_of(*node),
{
    match node {
        NewMapNode::Land(l) => *l,
        NewMapNode::MapInfo(_) => Land { color: 0, kind: 0, amount: 0 },
    }
}

/// The identity table that the players give: each playing color other than
/// 0 maps to its player, a later player winning.
pub open spec fn identities(players: Seq<(u32, u8, bool)>) -> Map<u8, u32>
    decreases players.len(),
{
    if players.len() == 0 {
        Map::empty()
    } else {
        let rest = identities(players.drop_last());
        let (uid, color, gaming) = players.last();
        if color != 0 && gaming {
            rest.insert(color, uid)
        } else {
            rest
        }
    }
}

impl Bot {
    /// Takes a full board: the size from its first node when that node gives
    /// one, and every node as a cell.
    pub fn load_map(&mut self, nodes: &Vec<Vec<NewMapNode>>)
        ensures
            final(self).size == match (if nodes@.len() > 0 && nodes@[0]@.len() > 0 {
                Some(nodes@[0]@[0])
            } else {
                None
            }) {
                Some(NewMapNode::MapInfo(info)) => info.size,
                _ => old(self).size,
            },
            final(self).gm@.len() == nodes@.len(),
            forall|i: int|
                0 <= i < nodes@.len() ==> (#[trigger] final(self).gm@[i])@.len() == nodes@[i]@.len(),
            forall|i: int, j: int|
                0 <= i < nodes@.len() && 0 <= j < nodes@[i]@.len() ==> #[trigger] final(self).gm@[i]@[j]
                    == land_of(nodes@[i]@[j]),
            final(self).my_color == old(self).my_color,
            final(self).color_to_uid@ == old(self).color_to_uid@,
            final(self).target == old(self).target,
            final(self).from == old(self).from,
            final(self).config == old(self).config,
    {
        if nodes.len() > 0 && nodes[0].len() > 0 {
            if let NewMapNode::MapInfo(info) = &nodes[0][0] {
                self.size = info.size;
            }
        }
        let mut gm: Vec<Vec<Land>> = Vec::new();
        let mut i: usize = 0;
        while i < nodes.len()
            invariant
                0 <= i <= nodes@.len(),
                gm@.len() == i,
                forall|a: int| 0 <= a < i ==> (#[trigger] gm@[a])@.len() == nodes@[a]@.len(),
                forall|a: int, b: int|
                    0 <= a < i && 0 <= b < nodes@[a]@.len() ==> #[trigger] gm@[a]@[b] == land_of(
                        nodes@[a]@[b],
                    ),
            decreases nodes@.len() - i,
        {
            let src = &nodes[i];
            let mut row: Vec<Land> = Vec::new();
            let mut j: usize = 0;
            while j < src.len()
                invariant
                    0 <= j <= src@.len(),
                    row@.len() == j,
                    forall|b: int| 0 <= b < j ==> #[trigger] row@[b] == land_of(src@[b]),
                decreases src@.len() - j,
            {
                row.push(node_land(&src[j]));
                j = j + 1;
            }
            gm.push(row);
            i = i + 1;
        }
        self.gm = gm;
    }

    /// Takes a changed cell; a position outside the board is ignored.
    pub fn apply_patch(&mut self, x: usize, y: usize, land: Land) -> (r: bool)
        ensures
            r == (x < old(self).gm@.len() && y < old(self).gm@[x as int]@.len()),
            final(self).gm@.len() == old(self).gm@.len(),
            forall|i: int|
                0 <= i < old(self).gm@.len() && (i != x || !r) ==> #[trigger] final(self).gm@[i]
                    == old(self).gm@[i],
            r ==> final(self).gm@[x as int]@ == old(self).gm@[x as int]@.update(y as int, land),
            final(self).size == old(self).size,
            final(self).my_color == old(self).my_color,
            final(self).color_to_uid@ == old(self).color_to_uid@,
            final(self).target == old(self).target,
            final(self).from == old(self).from,
            final(self).config == old(self).config,
    {
        if x >= self.gm.len() || y >= self.gm[x].len() {
            return false;
        }
        let mut row: Vec<Land> = Vec::new();
        let mut j: usize = 0;
        while j < self.gm[x].len()
            invariant
                x < self.gm@.len(),
                0 <= j <= self.gm@[x as int]@.len(),
                row@.len() == j,
                forall|b: int| 0 <= b < j ==> #[trigger] row@[b] == self.gm@[x as int]@[b],
            decreases self.gm@[x as int]@.len() - j,
        {
            row.push(self.gm[x][j]);
            j = j + 1;
        }
        row.set(y, land);
        let ghost before = self.gm@;
        self.gm.set(x, row);
        assert(row@ =~= before[x as int]@.update(y as int, land));
        true
    }

    /// Every colored cell of the board belongs to a known member of this
    /// bot's team; false on a board that is not well formed.
    pub open spec fn team_holds_board(&self) -> bool {
        forall|p: Pos|
            self.on_board(p) && #[trigger] self.cell(p).color != 0 ==> self.resolved(p)
                && self.teammate_cell(p)
    }

    /// Whether the team has won: every colored cell is a teammate's.
    pub fn team_won(&self) -> (r: bool)
        ensures
            r == (self.wf() && self.team_holds_board()),
    {
        if !self.board_ok() {
            return false;
        }
        let cells = self.positions();
        let mut i: usize = 0;
        while i < cells.len()
            invariant
                self.wf(),
                0 <= i <= cells@.len(),
                forall|q: Pos| cells@.contains(q) <==> self.on_board(q),
                forall|j: int|
                    0 <= j < i ==> {
                        let p = #[trigger] cells@[j];
                        self.cell(p).color != 0 ==> self.resolved(p) && self.teammate_cell(p)
                    },
            decreases cells@.len() - i,
        {
            let pos = cells[i];
            assert(cells@.contains(pos));
            if self.land(pos).color != 0 {
                match self.owner_of(pos) {
                    Some(uid) => {
                        if !crate::team::holds(&self.config.team, uid) {
                            return false;
                        }
                    },
                    None => {
                        return false;
                    },
                }
            }
            i = i + 1;
        }
        assert forall|p: Pos| self.on_board(p) && #[trigger] self.cell(p).color != 0 implies self.resolved(p)
            && self.teammate_cell(p) by {
            assert(cells@.contains(p));
            let j = choose|j: int| 0 <= j < cells@.len() && cells@[j] == p;
        }
        true
    }

    /// Rebuilds the identity table from the players `(identity, color,
    /// playing)`; color 0 always stands for identity 0.
    pub fn set_identities(&mut self, players: &Vec<(u32, u8, bool)>)
        ensures
            final(self).color_to_uid@ == identities(players@).insert(0, 0),
            final(self).size == old(self).size,
            final(self).gm@ == old(self).gm@,
            final(self).my_color == old(self).my_color,
            final(self).target == old(self).target,
            final(self).from == old(self).from,
            final(self).config == old(self).config,
    {
        self.color_to_uid.clear();
        let mut i: usize = 0;
        while i < players.len()
            invariant
                0 <= i <= players@.len(),
                self.color_to_uid@ == identities(players@.subrange(0, i as int)),
                self.size == old(self).size,
                self.gm@ == old(self).gm@,
                self.my_color == old(self).my_color,
                self.target == old(self).target,
                self.from == old(self).from,
                self.config == old(self).config,
            decreases players@.len() - i,
        {
            let (uid, color, gaming) = players[i];
            proof {
                assert(players@.subrange(0, i + 1).drop_last() =~= players@.subrange(0, i as int));
            }
            if color != 0 && gaming {
                self.color_to_uid.insert(color, uid);
            }
            i = i + 1;
        }
        assert(players@.subrange(0, players@.len() as int) =~= players@);
        self.color_to_uid.insert(0, 0);
    }
}

} // verus!
