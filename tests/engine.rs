use checkmate_bot::bot::Bot;
use checkmate_bot::route::{below_half, better, Route};
use checkmate_bot::consts::{default_calc_cnt, CAPITAL, OBSTACLE_A, PLAIN, STRONGHOLD_A, STRONGHOLD_B, TYPE_A};
use checkmate_bot::map::Land;
use checkmate_bot::{AutoReady, BotConfig, BotData};
use indexmap::IndexSet;

const ME: u8 = 1;
const ENEMY: u8 = 2;
const MATE: u8 = 3;

fn data(id: usize, team: &[u32], calc_cnt: u8) -> &'static BotData {
    Box::leak(Box::new(BotData {
        id,
        bot: BotConfig {
            cookie: String::new(),
            room: String::from("room"),
            auto_ready: AutoReady::Unconditional(false),
            team: 0,
            calc_cnt,
        },
        team: team.iter().copied().collect::<IndexSet<u32>>(),
        room: None,
    }))
}

fn land(color: u8, kind: u8, amount: u32) -> Land {
    Land { color, kind, amount }
}

/// A board of `size` neutral plain cells of army 0 where this bot has color 1,
/// the enemy color 2 and a teammate color 3.
fn bot_with(config: &'static BotData, size: usize, fill: Land) -> Bot {
    let mut bot = Bot::new(config);
    bot.size = size;
    bot.my_color = ME;
    bot.gm = vec![vec![fill; size + 1]; size + 1];
    bot.color_to_uid.insert(0, 0);
    bot.color_to_uid.insert(ME, 100);
    bot.color_to_uid.insert(ENEMY, 200);
    bot.color_to_uid.insert(MATE, 300);
    bot
}

fn bot(size: usize) -> Bot {
    bot_with(data(1, &[100, 300], 1), size, land(0, PLAIN, 0))
}

fn put(bot: &mut Bot, p: (usize, usize), l: Land) {
    bot.gm[p.0][p.1] = l;
}

#[test]
fn default_calc_cnt_is_one() {
    assert_eq!(default_calc_cnt(), 1);
}

#[test]
fn owned_cell_is_visible_to_itself() {
    let mut b = bot(5);
    put(&mut b, (1, 1), land(ME, PLAIN, 3));
    assert!(b.visible((1, 1)));
    assert!(b.visible((2, 2)));
    assert!(!b.visible((3, 3)));
    assert!(!b.visible((1, 3)));
}

#[test]
fn neighbours_stay_on_board_and_skip_obstacles() {
    let mut b = bot(5);
    put(&mut b, (1, 2), land(0, OBSTACLE_A, 0));
    assert_eq!(b.neighbours((1, 1)), vec![(2, 1)]);
    let mut around = b.neighbours((3, 3));
    around.sort();
    assert_eq!(around, vec![(2, 3), (3, 2), (3, 4), (4, 3)]);
    put(&mut b, (5, 4), land(0, 6, 0));
    assert_eq!(b.neighbours((5, 5)), vec![(4, 5)]);
}

#[test]
fn positions_cover_the_board() {
    let b = bot(3);
    let cells = b.positions();
    assert_eq!(cells.len(), 9);
    assert_eq!(cells[0], (1, 1));
    assert_eq!(cells[8], (3, 3));
}

#[test]
fn expansion_takes_the_weak_enemy() {
    let mut b = bot(5);
    put(&mut b, (3, 3), land(ME, PLAIN, 10));
    put(&mut b, (3, 4), land(ENEMY, PLAIN, 3));
    assert_eq!(b.plan_expansion(), Some(((3, 3), (3, 4))));
    assert_eq!(b.move_to((3, 3), (3, 4)), ((3, 3), (3, 4), 0));
    assert_eq!(b.expansion_rank((3, 3), (3, 4)), 5);
    assert_eq!(b.expansion_rank((3, 3), (2, 3)), 15);
    assert_eq!(b.decide(0, 99), Some(((3, 3), (3, 4), 0)));
}

#[test]
fn sweep_follows_the_corridor() {
    let mut b = bot_with(data(1, &[100], 1), 5, land(0, OBSTACLE_A, 0));
    for col in 1..=4 {
        put(&mut b, (1, col), land(ME, PLAIN, 10));
    }
    put(&mut b, (1, 5), land(ENEMY, PLAIN, 1));
    assert_eq!(b.new_target(), Some((1, 5)));
    let mv = b.decide(99, 99);
    assert_eq!(mv, Some(((1, 1), (1, 2), 0)));
    assert_eq!(b.target, Some((1, 5)));
    assert_eq!(b.from, Some((1, 2)));
}

#[test]
fn idle_tick_emits_nothing() {
    let mut b = bot_with(data(1, &[100], 1), 5, land(0, OBSTACLE_A, 0));
    put(&mut b, (3, 3), land(ME, PLAIN, 9));
    assert_eq!(b.new_target(), None);
    assert_eq!(b.plan_expansion(), None);
    assert_eq!(b.decide(0, 99), None);
    assert_eq!(b.decide(99, 99), None);
    assert_eq!(b.next_move(), None);
    assert_eq!(b.target, None);
    assert_eq!(b.from, None);
}

#[test]
fn capital_with_stronghold_splits() {
    let mut b = bot(5);
    put(&mut b, (3, 3), land(ME, PLAIN, 30));
    put(&mut b, (3, 4), land(ENEMY, CAPITAL, 10));
    put(&mut b, (2, 3), land(ENEMY, STRONGHOLD_A, 40));
    assert_eq!(b.move_to((3, 3), (3, 4)), ((3, 3), (3, 4), 1));
    put(&mut b, (3, 3), land(ME, PLAIN, 25));
    assert_eq!(b.move_to((3, 3), (3, 4)), ((3, 3), (3, 4), 0));
}

#[test]
fn split_for_a_prized_cell_next_to_a_stronghold() {
    let mut b = bot(5);
    put(&mut b, (3, 3), land(ME, PLAIN, 21));
    put(&mut b, (3, 4), land(ENEMY, TYPE_A, 9));
    put(&mut b, (4, 3), land(ENEMY, STRONGHOLD_B, 50));
    assert_eq!(b.move_to((3, 3), (3, 4)), ((3, 3), (3, 4), 1));
    put(&mut b, (3, 3), land(ME, PLAIN, 19));
    assert_eq!(b.move_to((3, 3), (3, 4)), ((3, 3), (3, 4), 0));
}

#[test]
fn plain_destination_never_splits() {
    let mut b = bot(5);
    put(&mut b, (3, 3), land(ME, STRONGHOLD_A, 100));
    put(&mut b, (3, 4), land(ENEMY, PLAIN, 1));
    put(&mut b, (2, 3), land(ENEMY, STRONGHOLD_A, 5));
    put(&mut b, (4, 3), land(ENEMY, STRONGHOLD_B, 5));
    assert_eq!(b.move_to((3, 3), (3, 4)).2, 0);
}

#[test]
fn stronghold_b_needs_two_more() {
    let mut b = bot(3);
    put(&mut b, (1, 1), land(ME, PLAIN, 4));
    put(&mut b, (1, 2), land(ENEMY, STRONGHOLD_B, 2));
    put(&mut b, (2, 1), land(0, OBSTACLE_A, 0));
    assert_eq!(b.plan_expansion(), None);
    put(&mut b, (1, 1), land(ME, PLAIN, 5));
    assert_eq!(b.plan_expansion(), Some(((1, 1), (1, 2))));
}

#[test]
fn expansion_prefers_type_a_from_a_garrison() {
    let mut b = bot(3);
    put(&mut b, (2, 2), land(ME, STRONGHOLD_A, 12));
    put(&mut b, (2, 3), land(ENEMY, TYPE_A, 2));
    // 1 - (20 - min(10, 10)) = -9
    assert_eq!(b.expansion_rank((2, 2), (2, 3)), -9);
    assert_eq!(b.plan_expansion(), Some(((2, 2), (2, 3))));
}

#[test]
fn expansion_penalises_teammate_land() {
    let mut b = bot_with(data(2, &[300, 100], 1), 3, land(0, PLAIN, 0));
    put(&mut b, (2, 2), land(ME, PLAIN, 12));
    put(&mut b, (2, 3), land(MATE, TYPE_A, 2));
    for p in [(1, 2), (3, 2), (2, 1)] {
        put(&mut b, p, land(0, OBSTACLE_A, 0));
    }
    assert_eq!(b.expansion_rank((2, 2), (2, 3)), 101);
    assert_eq!(b.plan_expansion(), Some(((2, 2), (2, 3))));
}

#[test]
fn expansion_skips_outranking_teammate() {
    let config = data(1, &[100, 300], 1);
    let mut b = bot_with(config, 3, land(0, OBSTACLE_A, 0));
    put(&mut b, (2, 2), land(ME, PLAIN, 12));
    put(&mut b, (2, 3), land(MATE, PLAIN, 2));
    assert!(b.superior(300));
    assert!(!b.superior(100));
    assert!(!b.superior(200));
    assert_eq!(b.plan_expansion(), None);
    assert_eq!(b.new_target(), None);
}

#[test]
fn higher_rank_bot_may_take_teammate_land() {
    let config = data(2, &[300, 100], 1);
    let mut b = bot_with(config, 3, land(0, OBSTACLE_A, 0));
    put(&mut b, (2, 2), land(ME, PLAIN, 12));
    put(&mut b, (2, 3), land(MATE, PLAIN, 2));
    assert!(!b.superior(300));
    assert_eq!(b.plan_expansion(), Some(((2, 2), (2, 3))));
    assert_eq!(b.new_target(), Some((2, 3)));
    assert_eq!(b.target_rank((2, 3)), 12);
}

#[test]
fn unknown_owner_aborts_selection() {
    let mut b = bot(3);
    put(&mut b, (1, 1), land(ME, PLAIN, 9));
    put(&mut b, (1, 2), land(7, PLAIN, 1));
    assert_eq!(b.new_target(), None);
    assert_eq!(b.plan_expansion(), None);
}

#[test]
fn target_prefers_strongholds_over_plain() {
    let mut b = bot(5);
    put(&mut b, (3, 3), land(ME, PLAIN, 1));
    put(&mut b, (3, 4), land(ENEMY, STRONGHOLD_A, 50));
    assert_eq!(b.target_rank((3, 4)), 1);
    assert_eq!(b.target_rank((2, 2)), 2);
    assert_eq!(b.new_target(), Some((3, 4)));
}

#[test]
fn target_never_own_cell() {
    let mut b = bot(2);
    put(&mut b, (1, 1), land(ME, PLAIN, 1));
    put(&mut b, (1, 2), land(ME, PLAIN, 1));
    put(&mut b, (2, 1), land(ME, PLAIN, 1));
    put(&mut b, (2, 2), land(ENEMY, CAPITAL, 1));
    assert_eq!(b.new_target(), Some((2, 2)));
    assert_eq!(b.target_rank((2, 2)), 3);
}

#[test]
fn rerun_gives_same_expansion() {
    let mut b = bot(5);
    put(&mut b, (2, 2), land(ME, PLAIN, 20));
    put(&mut b, (2, 3), land(ENEMY, TYPE_A, 3));
    put(&mut b, (4, 4), land(ME, PLAIN, 20));
    put(&mut b, (4, 5), land(ENEMY, STRONGHOLD_B, 3));
    let first = b.plan_expansion();
    let second = b.plan_expansion();
    assert_eq!(first, Some(((2, 2), (2, 3))));
    assert_eq!(first, second);
}

#[test]
fn expand_drops_target_when_leaving_anchor() {
    let mut b = bot(5);
    put(&mut b, (3, 3), land(ME, PLAIN, 10));
    put(&mut b, (3, 4), land(ENEMY, PLAIN, 3));
    b.target = Some((5, 5));
    b.from = Some((3, 3));
    assert_eq!(b.expand(), Some(((3, 3), (3, 4), 0)));
    assert_eq!(b.target, None);
    assert_eq!(b.from, Some((3, 3)));
}

#[test]
fn adjacent_target_is_taken_directly() {
    let mut b = bot_with(data(1, &[100], 3), 3, land(0, OBSTACLE_A, 0));
    put(&mut b, (2, 2), land(ME, PLAIN, 10));
    put(&mut b, (2, 3), land(ENEMY, PLAIN, 4));
    let mv = b.decide(99, 99);
    assert_eq!(mv, Some(((2, 2), (2, 3), 0)));
    assert_eq!(b.target, None);
    assert_eq!(b.from, Some((2, 3)));
}

#[test]
fn unreachable_target_is_dropped() {
    let mut b = bot_with(data(1, &[100], 1), 5, land(0, OBSTACLE_A, 0));
    put(&mut b, (1, 1), land(ME, PLAIN, 1));
    put(&mut b, (2, 2), land(ENEMY, PLAIN, 1));
    assert_eq!(b.decide(99, 99), None);
    assert_eq!(b.target, None);
}

#[test]
fn empty_board_gives_no_move() {
    let mut b = Bot::new(data(1, &[100], 1));
    assert!(!b.board_ok());
    assert_eq!(b.next_move(), None);
    assert_eq!(b.target, None);
}

#[test]
fn malformed_board_is_refused() {
    let mut b = bot(3);
    put(&mut b, (1, 1), land(ME, PLAIN, 10));
    put(&mut b, (2, 2), land(0, 9, 0));
    assert!(!b.board_ok());
    assert_eq!(b.next_move(), None);
    b.gm[2].truncate(2);
    assert!(!b.board_ok());
}

#[test]
fn next_move_expands_when_it_can() {
    let mut b = bot(5);
    put(&mut b, (3, 3), land(ME, PLAIN, 10));
    put(&mut b, (3, 4), land(ENEMY, PLAIN, 3));
    assert!(b.board_ok());
    let mv = b.next_move().expect("a move");
    assert_eq!(mv.0, (3, 3));
    assert!(b.neighbours((3, 3)).contains(&mv.1));
}

#[test]
fn found_enemy_sees_only_visible_prized_cells() {
    let mut b = bot(5);
    put(&mut b, (1, 1), land(ME, PLAIN, 1));
    put(&mut b, (5, 5), land(ENEMY, STRONGHOLD_A, 1));
    assert!(!b.found_enemy());
    put(&mut b, (2, 2), land(ENEMY, TYPE_A, 1));
    assert!(b.found_enemy());
}

#[test]
fn route_scores_compare_per_hop() {
    let a = Route { hop: (1, 2), value: 34, hops: 4 };
    let b = Route { hop: (1, 3), value: 25, hops: 3 };
    assert!(better(a, Some(b)));
    assert!(!better(b, Some(a)));
    assert!(better(b, None));
    assert!(below_half(None, Some(a)));
    assert!(!below_half(Some(a), None));
    let weak = Route { hop: (1, 2), value: 4, hops: 1 };
    let strong = Route { hop: (1, 2), value: 9, hops: 1 };
    assert!(below_half(Some(weak), Some(strong)));
    assert!(!below_half(Some(strong), Some(weak)));
}

#[test]
fn route_keeps_fewest_hops_over_richer_detour() {
    let mut b = bot_with(data(1, &[100], 1), 3, land(ME, PLAIN, 1));
    put(&mut b, (2, 2), land(0, OBSTACLE_A, 0));
    put(&mut b, (3, 1), land(ME, PLAIN, 20));
    put(&mut b, (3, 2), land(ENEMY, PLAIN, 30));
    put(&mut b, (3, 3), land(ENEMY, TYPE_A, 1));
    assert_eq!(b.new_target(), Some((3, 3)));
    assert_eq!(b.decide(99, 99), Some(((3, 1), (3, 2), 0)));
    assert_eq!(b.target, Some((3, 3)));
    assert_eq!(b.from, Some((3, 2)));
}

#[test]
fn capital_with_type_a_neighbour_splits() {
    let mut b = bot(5);
    put(&mut b, (3, 3), land(ME, PLAIN, 30));
    put(&mut b, (3, 4), land(ENEMY, CAPITAL, 10));
    put(&mut b, (2, 3), land(ENEMY, TYPE_A, 4));
    assert_eq!(b.move_to((3, 3), (3, 4)), ((3, 3), (3, 4), 1));
    put(&mut b, (2, 3), land(ENEMY, PLAIN, 4));
    assert_eq!(b.move_to((3, 3), (3, 4)), ((3, 3), (3, 4), 0));
}

#[test]
fn positions_are_row_major_and_distinct() {
    let b = bot(4);
    let cells = b.positions();
    assert_eq!(cells.len(), 16);
    for x in 1..=4usize {
        for y in 1..=4usize {
            assert_eq!(cells[(x - 1) * 4 + (y - 1)], (x, y));
        }
    }
    assert!(Bot::new(data(1, &[100], 1)).positions().is_empty());
}

#[test]
fn neighbours_come_up_right_down_left() {
    let b = bot(5);
    assert_eq!(b.neighbours((3, 3)), vec![(2, 3), (3, 4), (4, 3), (3, 2)]);
    assert_eq!(b.neighbours((1, 5)), vec![(2, 5), (1, 4)]);
}

fn corridor(size: usize, target_kind: u8) -> Bot {
    let mut b = bot_with(data(1, &[100], 1), size, land(0, OBSTACLE_A, 0));
    put(&mut b, (1, 1), land(ME, PLAIN, 50));
    for col in 2..size {
        put(&mut b, (1, col), land(ME, PLAIN, 1));
    }
    put(&mut b, (1, size), land(ENEMY, target_kind, 1));
    b
}

#[test]
fn calm_search_reaches_six_hops() {
    let mut b = corridor(7, PLAIN);
    assert_eq!(b.decide(99, 99), Some(((1, 1), (1, 2), 0)));
    assert_eq!(b.target, Some((1, 7)));
}

#[test]
fn calm_search_stops_before_seven_hops() {
    let mut b = corridor(8, PLAIN);
    assert!(!b.found_enemy());
    assert_eq!(b.decide(99, 99), None);
    assert_eq!(b.target, None);
}

#[test]
fn urgent_search_goes_past_the_cap() {
    let mut b = corridor(8, TYPE_A);
    assert!(b.found_enemy());
    assert_eq!(b.decide(99, 99), Some(((1, 1), (1, 2), 0)));
}

#[test]
fn unknown_owner_aborts_the_tick() {
    let mut b = bot(5);
    put(&mut b, (3, 3), land(ME, PLAIN, 10));
    put(&mut b, (3, 4), land(ENEMY, PLAIN, 3));
    put(&mut b, (2, 3), land(7, PLAIN, 0));
    b.target = Some((5, 5));
    b.from = Some((3, 3));
    assert_eq!(b.decide(0, 99), None);
    assert_eq!(b.decide(99, 99), None);
    assert_eq!(b.next_move(), None);
    assert_eq!(b.target, Some((5, 5)));
    assert_eq!(b.from, Some((3, 3)));
}

#[test]
fn unknown_target_owner_aborts_pursuit_first() {
    let mut b = bot_with(data(1, &[100], 1), 5, land(0, OBSTACLE_A, 0));
    put(&mut b, (3, 3), land(ME, PLAIN, 1));
    put(&mut b, (2, 2), land(7, PLAIN, 0));
    b.from = Some((3, 3));
    assert_eq!(b.decide(99, 99), None);
    assert_eq!(b.target, None);
    assert_eq!(b.from, Some((3, 3)));
}

#[test]
fn expand_on_empty_board_gives_nothing() {
    let mut b = Bot::new(data(1, &[100], 1));
    assert_eq!(b.expand(), None);
    assert_eq!(b.target, None);
    assert_eq!(b.from, None);
}

#[test]
fn sweep_prefers_the_far_anchor_of_the_corridor() {
    let mut b = bot_with(data(1, &[10], 1), 5, land(0, OBSTACLE_A, 0));
    b.color_to_uid.insert(ME, 10);
    b.color_to_uid.insert(ENEMY, 20);
    for col in 1..=4 {
        put(&mut b, (1, col), land(ME, PLAIN, 5));
    }
    put(&mut b, (1, 5), land(ENEMY, PLAIN, 1));
    b.target = Some((1, 5));
    assert_eq!(b.decide(99, 99), Some(((1, 1), (1, 2), 0)));
    assert_eq!(b.from, Some((1, 2)));
    assert_eq!(b.target, Some((1, 5)));
}

fn short_corridor(target_army: u32) -> Bot {
    let mut b = bot_with(data(1, &[100], 1), 5, land(0, OBSTACLE_A, 0));
    for col in 1..=4 {
        put(&mut b, (1, col), land(ME, PLAIN, 5));
    }
    put(&mut b, (1, 5), land(ENEMY, PLAIN, target_army));
    b
}

#[test]
fn kept_anchor_routes_from_the_anchor() {
    let mut b = short_corridor(1);
    b.target = Some((1, 5));
    b.from = Some((1, 3));
    assert_eq!(b.decide(99, 99), Some(((1, 3), (1, 4), 0)));
    assert_eq!(b.from, Some((1, 4)));
}

#[test]
fn reset_anchor_sweeps_again() {
    let mut b = short_corridor(1);
    b.target = Some((1, 5));
    b.from = Some((1, 3));
    assert_eq!(b.decide(99, 0), Some(((1, 1), (1, 2), 0)));
}

#[test]
fn stale_anchor_is_dropped() {
    let mut b = short_corridor(1);
    b.target = Some((1, 5));
    b.from = Some((2, 2));
    assert_eq!(b.decide(99, 99), Some(((1, 1), (1, 2), 0)));
}

#[test]
fn expand_first_falls_back_to_pursuit() {
    let mut b = short_corridor(10);
    assert_eq!(b.plan_expansion(), None);
    assert_eq!(b.decide(0, 0), Some(((1, 1), (1, 2), 0)));
    assert_eq!(b.target, Some((1, 5)));
}
