use checkmate_bot::bot::Bot;
use checkmate_bot::event::{NewMapNode, Speed, UpdateSettings};
use checkmate_bot::map::{Land, MapInfo};
use checkmate_bot::session::{decimal_bytes, ready_vote, settings_requests, speed_changed, vote_start};
use checkmate_bot::{AutoReady, BotConfig, BotData, RoomConfig};
use indexmap::IndexSet;

fn data(auto_ready: AutoReady, room: Option<RoomConfig>, team: &[u32]) -> &'static BotData {
    Box::leak(Box::new(BotData {
        id: 1,
        bot: BotConfig {
            cookie: String::from("c"),
            room: String::from("r"),
            auto_ready,
            team: 0,
            calc_cnt: 1,
        },
        team: team.iter().copied().collect::<IndexSet<u32>>(),
        room,
    }))
}

fn room(map: Option<u8>, speed: Option<u8>, private: Option<bool>) -> RoomConfig {
    RoomConfig { map, speed, private }
}

#[test]
fn vote_start_asks_for_map_and_votes() {
    let d = data(AutoReady::Unconditional(true), Some(room(Some(3), None, None)), &[1]);
    assert_eq!(vote_start(d), (Some(3), true));
    let d = data(AutoReady::Unconditional(false), None, &[1]);
    assert_eq!(vote_start(d), (None, false));
    let d = data(AutoReady::Conditional { more_than: 2 }, Some(room(None, Some(4), None)), &[1]);
    assert_eq!(vote_start(d), (None, false));
}

#[test]
fn decimal_digits() {
    assert_eq!(decimal_bytes(0), b"0".to_vec());
    assert_eq!(decimal_bytes(7), b"7".to_vec());
    assert_eq!(decimal_bytes(42), b"42".to_vec());
    assert_eq!(decimal_bytes(255), b"255".to_vec());
    assert_eq!(decimal_bytes(100), b"100".to_vec());
}

#[test]
fn speed_compares_numbers_and_text() {
    assert!(!speed_changed(&Speed::U8(4), 4));
    assert!(speed_changed(&Speed::U8(3), 4));
    assert!(!speed_changed(&Speed::String(String::from("12")), 12));
    assert!(speed_changed(&Speed::String(String::from("12")), 1));
    assert!(speed_changed(&Speed::String(String::from("4x")), 4));
}

#[test]
fn settings_requests_only_what_differs() {
    let current = UpdateSettings { speed: Speed::String(String::from("2")), private: false };
    assert_eq!(settings_requests(Some(room(None, Some(4), Some(true))), &current), (Some(4), Some(true)));
    assert_eq!(settings_requests(Some(room(None, Some(2), Some(false))), &current), (None, None));
    assert_eq!(settings_requests(None, &current), (None, None));
}

#[test]
fn ready_vote_follows_user_count() {
    let cond = AutoReady::Conditional { more_than: 3 };
    assert_eq!(ready_vote(cond, 4, false), Some(true));
    assert_eq!(ready_vote(cond, 4, true), None);
    assert_eq!(ready_vote(cond, 3, true), Some(false));
    assert_eq!(ready_vote(cond, 3, false), None);
    assert_eq!(ready_vote(AutoReady::Unconditional(true), 9, false), None);
}

fn cell(color: u8, kind: u8, amount: u32) -> NewMapNode {
    NewMapNode::Land(Land { color, kind, amount })
}

#[test]
fn load_map_reads_size_and_cells() {
    let mut b = Bot::new(data(AutoReady::Unconditional(false), None, &[10]));
    let mut nodes = vec![vec![NewMapNode::MapInfo(MapInfo { size: 2, kind: 0 }); 3]; 3];
    nodes[1][1] = cell(1, 0, 5);
    nodes[1][2] = cell(2, 2, 7);
    nodes[2][1] = cell(0, 4, 0);
    nodes[2][2] = cell(0, 0, 0);
    b.load_map(&nodes);
    assert_eq!(b.size, 2);
    assert_eq!(b.gm[1][2], Land { color: 2, kind: 2, amount: 7 });
    assert_eq!(b.gm[0][0], Land { color: 0, kind: 0, amount: 0 });
    assert!(b.board_ok());
}

#[test]
fn apply_patch_changes_one_cell() {
    let mut b = Bot::new(data(AutoReady::Unconditional(false), None, &[10]));
    b.size = 2;
    b.gm = vec![vec![Land { color: 0, kind: 0, amount: 0 }; 3]; 3];
    let l = Land { color: 1, kind: 1, amount: 9 };
    assert!(b.apply_patch(2, 1, l));
    assert_eq!(b.gm[2][1], l);
    assert_eq!(b.gm[1][2], Land { color: 0, kind: 0, amount: 0 });
    assert!(!b.apply_patch(3, 1, l));
    assert!(!b.apply_patch(1, 7, l));
}

#[test]
fn identities_skip_idle_players() {
    let mut b = Bot::new(data(AutoReady::Unconditional(false), None, &[10]));
    b.set_identities(&vec![(10, 1, true), (20, 2, false), (30, 0, true), (40, 3, true)]);
    assert_eq!(b.color_to_uid.get(&1), Some(&10));
    assert_eq!(b.color_to_uid.get(&2), None);
    assert_eq!(b.color_to_uid.get(&0), Some(&0));
    assert_eq!(b.color_to_uid.get(&3), Some(&40));
    assert_eq!(b.color_to_uid.len(), 3);
}

#[test]
fn team_won_when_all_colors_are_teammates() {
    let mut b = Bot::new(data(AutoReady::Unconditional(false), None, &[10, 40]));
    b.set_identities(&vec![(10, 1, true), (40, 3, true), (50, 2, true)]);
    b.size = 2;
    b.my_color = 1;
    b.gm = vec![vec![Land { color: 0, kind: 0, amount: 0 }; 3]; 3];
    b.gm[1][1] = Land { color: 1, kind: 0, amount: 3 };
    b.gm[2][2] = Land { color: 3, kind: 0, amount: 3 };
    assert!(b.team_won());
    b.gm[1][2] = Land { color: 2, kind: 0, amount: 1 };
    assert!(!b.team_won());
    b.gm[1][2] = Land { color: 6, kind: 0, amount: 1 };
    assert!(!b.team_won());
}
