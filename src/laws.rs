//! Properties that hold across the engine's functions.
use crate::board::Guard;
use crate::bot::{Bot, Movement, Pos};
use crate::consts::{DEPTH_CAP, OBSTACLE_B, STRONGHOLD_A, STRONGHOLD_B, TYPE_A};
use crate::route::Route;
use vstd::prelude::*;

verus! {

/// Whatever the engine decides from depends on the board, the identities and
/// the team alone, not on the persisted target and anchor.
pub proof fn lemma_same_board(a: &Bot, b: &Bot)
    requires
        b.same_board(a),
    ensures
        a.wf() == b.wf(),
        forall|p: Pos| #[trigger] b.cell(p) == a.cell(p),
        forall|p: Pos, q: Pos| #[trigger] b.adjacent(p, q) == a.adjacent(p, q),
        forall|m: Movement| #[trigger] b.legal_move(m) == a.legal_move(m),
        forall|f: Pos, c: Pos| #[trigger] b.expansion_candidate(f, c) == a.expansion_candidate(f, c),
        forall|f: Pos, c: Pos| #[trigger] b.best_expansion(f, c) == a.best_expansion(f, c),
        forall|t: Pos| #[trigger] b.target_candidate(t) == a.target_candidate(t),
        forall|t: Pos| #[trigger] b.best_target(t) == a.best_target(t),
        a.no_expansion() == b.no_expansion(),
        a.no_target() == b.no_target(),
        forall|p: Pos| #[trigger] b.sweep_anchor(p) == a.sweep_anchor(p),
        forall|o: Pos, t: Pos, rt: Route, capped: bool| #[trigger]
            b.sound_route(o, t, rt, capped) == a.sound_route(o, t, rt, capped),
        a.urgent() == b.urgent(),
        forall|f: Pos, c: Pos| #[trigger] b.expansion_score(f, c) == a.expansion_score(f, c),
        forall|t: Pos| #[trigger] b.directly_reachable(t) == a.directly_reachable(t),
        forall|p: Pos, t: Pos, c: bool| #[trigger] b.route_owed(p, t, c) == a.route_owed(p, t, c),
{
    assert forall|p: Pos| #[trigger] b.cell(p) == a.cell(p) by {}
    if a.wf() {
        assert forall|x: int| 1 <= x <= b.size implies #[trigger] b.gm@[x]@.len() > b.size by {
            assert(a.gm@[x]@.len() > a.size);
        }
        assert forall|p: Pos| b.on_board(p) implies #[trigger] b.cell(p).kind <= OBSTACLE_B by {
            assert(a.cell(p).kind <= OBSTACLE_B);
        }
    }
    if b.wf() {
        assert forall|x: int| 1 <= x <= a.size implies #[trigger] a.gm@[x]@.len() > a.size by {
            assert(b.gm@[x]@.len() > b.size);
        }
        assert forall|p: Pos| a.on_board(p) implies #[trigger] a.cell(p).kind <= OBSTACLE_B by {
            assert(b.cell(p).kind <= OBSTACLE_B);
        }
    }
    assert forall|p: Pos, o: Pos, g: Guard, k: int| #[trigger] b.hostile_at(p, o, g, k) == a.hostile_at(p, o, g, k) by {
        if b.hostile_at(p, o, g, k) {
            let n = choose|n: Pos| #[trigger] b.adjacent(p, n) && !b.owns(n) && n != o && g.admits(b.cell(n).kind) && b.army(n) > k;
            assert(a.adjacent(p, n));
        }
        if a.hostile_at(p, o, g, k) {
            let n = choose|n: Pos| #[trigger] a.adjacent(p, n) && !a.owns(n) && n != o && g.admits(a.cell(n).kind) && a.army(n) > k;
            assert(b.adjacent(p, n));
        }
    }
    assert forall|p: Pos| #[trigger] b.visible_at(p) == a.visible_at(p) by {
        if b.visible_at(p) {
            let q = choose|q: Pos| #[trigger] b.owns(q) && b.on_board(q) && p.0 <= q.0 + 1 && q.0 <= p.0 + 1 && p.1 <= q.1 + 1 && q.1 <= p.1 + 1;
            assert(a.owns(q));
        }
        if a.visible_at(p) {
            let q = choose|q: Pos| #[trigger] a.owns(q) && a.on_board(q) && p.0 <= q.0 + 1 && q.0 <= p.0 + 1 && p.1 <= q.1 + 1 && q.1 <= p.1 + 1;
            assert(b.owns(q));
        }
    }
    assert forall|f: Pos, c: Pos| #[trigger] b.expansion_candidate(f, c) == a.expansion_candidate(f, c) by {
        assert(b.capturable(f, c) == a.capturable(f, c));
    }
    assert forall|f: Pos, c: Pos| #[trigger] b.expansion_score(f, c) == a.expansion_score(f, c) by {
        assert(b.split(f, c) == a.split(f, c));
    }
    assert forall|t: Pos| #[trigger] b.target_candidate(t) == a.target_candidate(t) by {
        assert(b.eligible_target(t) == a.eligible_target(t));
    }
    assert forall|f: Pos, c: Pos| #[trigger] b.best_expansion(f, c) == a.best_expansion(f, c) by {
        if b.best_expansion(f, c) {
            assert forall|g: Pos, d: Pos| #[trigger] a.expansion_candidate(g, d) implies a.expansion_score(f, c)
                <= a.expansion_score(g, d) by {
                assert(b.expansion_candidate(g, d));
            }
        }
        if a.best_expansion(f, c) {
            assert forall|g: Pos, d: Pos| #[trigger] b.expansion_candidate(g, d) implies b.expansion_score(f, c)
                <= b.expansion_score(g, d) by {
                assert(a.expansion_candidate(g, d));
            }
        }
    }
    assert forall|t: Pos| #[trigger] b.best_target(t) == a.best_target(t) by {
        if b.best_target(t) {
            assert forall|p: Pos| #[trigger] a.target_candidate(p) implies a.desirability(t)
                <= a.desirability(p) by {
                assert(b.target_candidate(p));
            }
        }
        if a.best_target(t) {
            assert forall|p: Pos| #[trigger] b.target_candidate(p) implies b.desirability(t)
                <= b.desirability(p) by {
                assert(a.target_candidate(p));
            }
        }
    }
    assert(a.targets_resolved() == b.targets_resolved()) by {
        if a.targets_resolved() {
            assert forall|p: Pos| #[trigger] b.eligible_target(p) implies b.resolved(p) by {
                assert(a.eligible_target(p));
            }
        }
        if b.targets_resolved() {
            assert forall|p: Pos| #[trigger] a.eligible_target(p) implies a.resolved(p) by {
                assert(b.eligible_target(p));
            }
        }
    }
    assert(a.expansions_resolved() == b.expansions_resolved()) by {
        if a.expansions_resolved() {
            assert forall|f: Pos, c: Pos| #[trigger] b.capturable(f, c) implies b.resolved(c) by {
                assert(a.capturable(f, c));
            }
        }
        if b.expansions_resolved() {
            assert forall|f: Pos, c: Pos| #[trigger] a.capturable(f, c) implies a.resolved(c) by {
                assert(b.capturable(f, c));
            }
        }
    }
    assert(a.no_expansion() == b.no_expansion()) by {
        if (forall|f: Pos, c: Pos| !#[trigger] a.expansion_candidate(f, c)) {
            assert forall|f: Pos, c: Pos| !#[trigger] b.expansion_candidate(f, c) by {
                assert(!a.expansion_candidate(f, c));
            }
        }
        if (forall|f: Pos, c: Pos| !#[trigger] b.expansion_candidate(f, c)) {
            assert forall|f: Pos, c: Pos| !#[trigger] a.expansion_candidate(f, c) by {
                assert(!b.expansion_candidate(f, c));
            }
        }
    }
    assert(a.no_target() == b.no_target()) by {
        if (forall|p: Pos| !#[trigger] a.target_candidate(p)) {
            assert forall|p: Pos| !#[trigger] b.target_candidate(p) by {
                assert(!a.target_candidate(p));
            }
        }
        if (forall|p: Pos| !#[trigger] b.target_candidate(p)) {
            assert forall|p: Pos| !#[trigger] a.target_candidate(p) by {
                assert(!b.target_candidate(p));
            }
        }
    }
    assert forall|path: Seq<Pos>| #[trigger] b.path_value(path) == a.path_value(path) by {
        lemma_path_value_same(a, b, path);
    }
    assert forall|path: Seq<Pos>| #[trigger] b.is_walk(path) == a.is_walk(path) by {
        if b.is_walk(path) {
            assert forall|i: int| 0 <= i < path.len() - 1 implies #[trigger] a.adjacent(path[i], path[i + 1]) by {
                assert(b.adjacent(path[i], path[i + 1]));
            }
        }
        if a.is_walk(path) {
            assert forall|i: int| 0 <= i < path.len() - 1 implies #[trigger] b.adjacent(path[i], path[i + 1]) by {
                assert(a.adjacent(path[i], path[i + 1]));
            }
        }
    }
    assert forall|o: Pos, t: Pos, k: int| #[trigger] b.fewest_hops(o, t, k) == a.fewest_hops(o, t, k) by {
        if b.fewest_hops(o, t, k) {
            assert forall|path: Seq<Pos>| #[trigger] a.is_walk(path) && path.len() >= 1 && path[0] == o
                && path.last() == t implies path.len() - 1 >= k by {
                assert(b.is_walk(path));
            }
        }
        if a.fewest_hops(o, t, k) {
            assert forall|path: Seq<Pos>| #[trigger] b.is_walk(path) && path.len() >= 1 && path[0] == o
                && path.last() == t implies path.len() - 1 >= k by {
                assert(a.is_walk(path));
            }
        }
    }
    assert forall|p: Pos, t: Pos, c: bool| #[trigger] b.route_owed(p, t, c) == a.route_owed(p, t, c) by {
        if b.route_owed(p, t, c) {
            let w = choose|path: Seq<Pos>|
                #[trigger] b.is_walk(path) && path.len() >= 2 && path[0] == p && path.last() == t && (c
                    ==> path.len() - 1 <= DEPTH_CAP);
            assert(a.is_walk(w));
        }
        if a.route_owed(p, t, c) {
            let w = choose|path: Seq<Pos>|
                #[trigger] a.is_walk(path) && path.len() >= 2 && path[0] == p && path.last() == t && (c
                    ==> path.len() - 1 <= DEPTH_CAP);
            assert(b.is_walk(w));
        }
    }
    assert forall|o: Pos, t: Pos, rt: Route, capped: bool| #[trigger]
        b.sound_route(o, t, rt, capped) == a.sound_route(o, t, rt, capped) by {
        if b.sound_route(o, t, rt, capped) {
            let path = choose|path: Seq<Pos>| #[trigger] b.walk_of(o, t, rt, path);
            assert(a.walk_of(o, t, rt, path));
        }
        if a.sound_route(o, t, rt, capped) {
            let path = choose|path: Seq<Pos>| #[trigger] a.walk_of(o, t, rt, path);
            assert(b.walk_of(o, t, rt, path));
        }
    }
    assert(a.urgent() == b.urgent()) by {
        if a.urgent() {
            let p = choose|p: Pos| #[trigger] a.on_board(p) && !a.owns(p) && a.visible_at(p) && (a.cell(p).kind
                == TYPE_A || a.cell(p).kind == STRONGHOLD_A || a.cell(p).kind == STRONGHOLD_B);
            assert(b.on_board(p));
        }
        if b.urgent() {
            let p = choose|p: Pos| #[trigger] b.on_board(p) && !b.owns(p) && b.visible_at(p) && (b.cell(p).kind
                == TYPE_A || b.cell(p).kind == STRONGHOLD_A || b.cell(p).kind == STRONGHOLD_B);
            assert(a.on_board(p));
        }
    }
    assert forall|t: Pos| #[trigger] b.directly_reachable(t) == a.directly_reachable(t) by {
        if b.directly_reachable(t) {
            let p = choose|p: Pos| #[trigger] b.sweep_anchor(p) && b.direct_route(p, t);
            assert(a.sweep_anchor(p) && a.direct_route(p, t));
        }
        if a.directly_reachable(t) {
            let p = choose|p: Pos| #[trigger] a.sweep_anchor(p) && a.direct_route(p, t);
            assert(b.sweep_anchor(p) && b.direct_route(p, t));
        }
    }
}

proof fn lemma_path_value_same(a: &Bot, b: &Bot, path: Seq<Pos>)
    requires
        forall|p: Pos| #[trigger] b.cell(p) == a.cell(p),
        b.my_color == a.my_color,
    ensures
        b.path_value(path) == a.path_value(path),
    decreases path.len(),
{
    if path.len() > 0 {
        lemma_path_value_same(a, b, path.drop_last());
        assert(b.cell_value(path.last()) == a.cell_value(path.last()));
    }
}

/// Fog of war never hides a cell of ours from us.
pub proof fn lemma_visible_reflexive(b: &Bot, p: Pos)
    requires
        b.on_board(p),
        b.owns(p),
    ensures
        b.visible_at(p),
{
    assert(b.owns(p) && b.on_board(p));
}

/// Re-running a tick on an unchanged board and persisted state makes the
/// same primary decision: which strategy comes first depends on the draw
/// alone, and the same expansions, targets and pursuit steps qualify on both
/// runs, any two best expansions scoring alike.
pub proof fn lemma_rerun_same_primary(a: &Bot, b: &Bot)
    requires
        b.same_board(a),
        b.target == a.target,
        b.from == a.from,
    ensures
        a.no_expansion() == b.no_expansion(),
        a.no_target() == b.no_target(),
        a.target_live() == b.target_live(),
        forall|f: Pos, c: Pos| #[trigger] b.best_expansion(f, c) == a.best_expansion(f, c),
        forall|f: Pos, c: Pos, g: Pos, d: Pos|
            #[trigger] a.best_expansion(f, c) && #[trigger] b.best_expansion(g, d)
                ==> a.expansion_score(f, c) == b.expansion_score(g, d),
        forall|t: Pos| #[trigger] b.best_target(t) == a.best_target(t),
        forall|t: Pos, o: Pos, rt: Route| #[trigger] b.pursuit(t, o, rt) == a.pursuit(t, o, rt),
        forall|m: Movement, n: Option<Pos>| #[trigger]
            b.pursuit_step(m, n) == a.pursuit_step(m, n),
{
    lemma_same_board(a, b);
    assert(a.target_live() == b.target_live());
    assert forall|f: Pos, c: Pos, g: Pos, d: Pos|
        #[trigger] a.best_expansion(f, c) && #[trigger] b.best_expansion(g, d) implies a.expansion_score(f, c)
            == b.expansion_score(g, d) by {
        assert(a.best_expansion(g, d));
        assert(a.expansion_candidate(f, c));
        assert(a.expansion_candidate(g, d));
        assert(b.expansion_score(g, d) == a.expansion_score(g, d));
    }
    assert forall|m: Movement, n: Option<Pos>| #[trigger]
        b.pursuit_step(m, n) == a.pursuit_step(m, n) by {
        if b.pursuit_step(m, n) {
            let (t, rt) = choose|t: Pos, rt: Route| #[trigger]
                b.pursuit(t, m.0, rt) && rt.hop == m.1 && n == if t == m.1 {
                    None
                } else {
                    Some(t)
                };
            assert(a.pursuit(t, m.0, rt));
        }
        if a.pursuit_step(m, n) {
            let (t, rt) = choose|t: Pos, rt: Route| #[trigger]
                a.pursuit(t, m.0, rt) && rt.hop == m.1 && n == if t == m.1 {
                    None
                } else {
                    Some(t)
                };
            assert(b.pursuit(t, m.0, rt));
        }
    }
}

} // verus!
