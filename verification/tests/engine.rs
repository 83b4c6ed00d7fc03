use snake_engine::board_rep::{check_deaths, move_snake};
use snake_engine::grid::{Coord, Movement};
use snake_engine::mm_search;
use snake_engine::minimax;
use snake_engine::simple::SimpleBoard;
use snake_engine::wire::{Battlesnake, Board, GameInfo};

fn coord(x: i32, y: i32) -> Coord {
    Coord { x, y }
}

fn snake(id: &str, health: i32, body: &[(i32, i32)]) -> Battlesnake {
    Battlesnake {
        id: String::from(id),
        name: String::new(),
        health,
        body: body.iter().map(|&(x, y)| coord(x, y)).collect(),
        head: coord(body[0].0, body[0].1),
        length: body.len() as i32,
        latency: String::new(),
        shout: None,
    }
}

fn board(width: i32, height: i32, food: &[(i32, i32)], snakes: Vec<Battlesnake>) -> Board {
    Board {
        height,
        width,
        food: food.iter().map(|&(x, y)| coord(x, y)).collect(),
        snakes,
        hazards: Vec::new(),
    }
}

fn info_for(ids: &[&str], timeout: u32) -> GameInfo {
    GameInfo {
        agent_ids: ids.iter().map(|s| String::from(*s)).collect(),
        agent_moves: vec![Vec::new(), Vec::new()],
        timeout,
    }
}

fn compact(b: &Board, ours: &[&str]) -> SimpleBoard {
    SimpleBoard::from(b, &info_for(ours, 50))
}

/// Neck rule: whatever the heading, the generator never offers the reverse
/// move back onto the second body segment.
#[test]
fn neck_rule_all_headings() {
    let cases = [
        (&[(5, 5), (5, 6), (5, 7)][..], Movement::Up),
        (&[(5, 5), (5, 4), (5, 3)][..], Movement::Down),
        (&[(5, 5), (4, 5), (3, 5)][..], Movement::Left),
        (&[(5, 5), (6, 5), (7, 5)][..], Movement::Right),
    ];
    for (body, reverse) in cases {
        let b = board(11, 11, &[], vec![snake("a", 90, body)]);
        let sb = compact(&b, &["a"]);
        let moves = match &sb.snakes[0] {
            Some(s) => s.get_safe_moves(&sb),
            None => panic!("snake missing"),
        };
        assert!(!moves.is_empty());
        assert!(!moves.contains(&reverse));
    }
}

/// One transition never increases the number of live agents, and an agent
/// whose head left the grid is gone from the elimination-resolved board.
#[test]
fn transition_count_and_bounds() {
    // Opponent at the right edge can be forced off the board only via the
    // default move; here it has a legal move, so check counting instead.
    let b = board(
        11,
        11,
        &[],
        vec![
            snake("a", 90, &[(1, 1), (1, 2), (1, 3)]),
            snake("b", 90, &[(9, 9), (9, 8), (9, 7)]),
        ],
    );
    let sb = compact(&b, &["a"]);
    let live_before = sb.snakes.iter().filter(|s| s.is_some()).count();
    for (_, nb) in sb.simulate_move(false) {
        let live_after = nb.snakes.iter().filter(|s| s.is_some()).count();
        assert!(live_after <= live_before);
        for s in nb.snakes.iter().flatten() {
            let h = s.body[0];
            assert!(0 <= h.x && h.x < 11 && 0 <= h.y && h.y < 11);
        }
    }
}

/// A cornered opponent taking the default move steps off the grid and is
/// eliminated when the round resolves.
#[test]
fn off_grid_head_eliminated() {
    // Opponent head at (0, 0) with neck above and walls left/below; moving
    // right would be a losing head-on against our longer snake, so the
    // default Down is forced.
    let b = board(
        3,
        3,
        &[],
        vec![
            snake("a", 90, &[(1, 0), (2, 0), (2, 1), (2, 2)]),
            snake("b", 90, &[(0, 0), (0, 1), (1, 1)]),
        ],
    );
    let sb = compact(&b, &["a"]);
    let sims = sb.simulate_move(false);
    assert!(!sims.is_empty());
    for (mv, nb) in sims {
        // slot 1 is the opponent; its only candidate is the default Down.
        assert_eq!(mv[0].id, 1);
        assert_eq!(mv[0].mv, Movement::Down);
        assert!(nb.snakes[1].is_none());
    }
}

/// Head-on collision tie-break: equal lengths, both vanish; unequal, only
/// the shorter vanishes.
#[test]
fn headon_tiebreak() {
    // Both heads already on (5, 5) when the round resolves: equal lengths,
    // both vanish.
    let equal = board(
        11,
        11,
        &[],
        vec![
            snake("a", 90, &[(5, 5), (4, 5), (3, 5)]),
            snake("b", 90, &[(5, 5), (6, 5), (7, 5)]),
        ],
    );
    let mut sb = compact(&equal, &["a"]);
    sb.kill_snakes();
    assert!(sb.snakes[0].is_none(), "equal length: ours dies");
    assert!(sb.snakes[1].is_none(), "equal length: theirs dies");

    // Longer against shorter: only the shorter vanishes.
    let unequal = board(
        11,
        11,
        &[],
        vec![
            snake("a", 90, &[(5, 5), (4, 5), (3, 5), (2, 5)]),
            snake("b", 90, &[(5, 5), (6, 5), (7, 5)]),
        ],
    );
    let mut sb = compact(&unequal, &["a"]);
    sb.kill_snakes();
    assert!(sb.snakes[0].is_some(), "longer survives");
    assert!(sb.snakes[1].is_none(), "shorter dies");
}

/// Food conservation: the consumed item leaves the food list, and the
/// consumer grows by one with its health reset to full.
#[test]
fn food_conservation() {
    let b = board(
        11,
        11,
        &[(6, 5), (0, 0)],
        vec![
            snake("a", 37, &[(5, 5), (4, 5), (3, 5)]),
            snake("b", 90, &[(9, 9), (9, 8), (9, 7)]),
        ],
    );
    let sb = compact(&b, &["a"]);
    let mut seen = false;
    for (mv, nb) in sb.simulate_move(true) {
        if mv[0].mv != Movement::Right {
            continue;
        }
        seen = true;
        let grown = nb.snakes[0].as_ref().expect("alive");
        assert_eq!(grown.body.len(), 4);
        assert_eq!(grown.health, 100);
        assert_eq!(grown.body[0], coord(6, 5));
        assert!(!nb.food.contains(&coord(6, 5)));
        assert!(nb.food.contains(&coord(0, 0)));
        assert_eq!(nb.food.len(), 1);
    }
    assert!(seen);
}

/// Sentinels: both our slots empty scores the minimum; both opposing slots
/// empty scores the maximum.
#[test]
fn heuristic_sentinels() {
    let only_theirs = board(11, 11, &[], vec![snake("x", 90, &[(5, 5), (5, 6), (5, 7)])]);
    let mut sb = compact(&only_theirs, &["a"]);
    assert_eq!(sb.heuristic(true), i32::MIN);

    let only_ours = board(11, 11, &[], vec![snake("a", 90, &[(5, 5), (5, 6), (5, 7)])]);
    let mut sb = compact(&only_ours, &["a"]);
    assert_eq!(sb.heuristic(true), i32::MAX);
}

/// An exact value of the material term: our one snake of length 3, against
/// one opponent of length 2 at health 10.
#[test]
fn fast_heuristic_exact() {
    let b = board(
        11,
        11,
        &[],
        vec![
            snake("a", 100, &[(1, 1), (1, 2), (1, 3)]),
            snake("x", 10, &[(9, 9), (9, 8)]),
        ],
    );
    let mut sb = compact(&b, &["a"]);
    // health term +10 (their low health), length term (3 - 2) * 8,
    // death term 0 (one empty padding slot per side cancels out).
    assert_eq!(sb.heuristic(true), 10 + 8);
}

/// Caching idempotence: evaluating twice without a transition returns the
/// same value.
#[test]
fn heuristic_cached_twice() {
    let b = board(
        11,
        11,
        &[(1, 1)],
        vec![
            snake("a", 90, &[(2, 2), (2, 3), (2, 4)]),
            snake("x", 90, &[(5, 6), (5, 7)]),
        ],
    );
    let mut sb = compact(&b, &["a"]);
    let first = sb.heuristic(false);
    let second = sb.heuristic(false);
    assert_eq!(first, second);
    let fast_first = sb.heuristic(true);
    let fast_second = sb.heuristic(true);
    assert_eq!(fast_first, fast_second);
}

/// The flood fill on the end-to-end scenario board: our single-segment
/// agent at (2, 2), a two-segment opponent at (5, 6), food at (1, 1). The
/// shorter agent is seeded first and claims (5, 0). The scenario as
/// originally stated also expected the opponent to claim (5, 2); that
/// cannot hold of this fill (or of any fill that hands a cell to whichever
/// seed reaches it first): (5, 2) is three steps from our head and four
/// from the opponent's, so the first-seeded shorter agent claims it too,
/// which is asserted below instead.
#[test]
fn flood_fill_scenario() {
    let b = board(
        11,
        11,
        &[(1, 1)],
        vec![
            snake("Adam", 100, &[(2, 2)]),
            snake("Oliver", 100, &[(5, 6), (5, 5)]),
        ],
    );
    let sb = compact(&b, &["Adam"]);
    let regions = sb.flood_fill();
    assert!(regions[0].contains(&coord(5, 0)), "our agent reaches (5, 0)");
    assert!(!regions[1].contains(&coord(5, 0)));
    assert!(regions[0].contains(&coord(5, 2)), "the closer, first-seeded agent claims (5, 2)");
    // Regions are disjoint and lie on the grid.
    for (i, ri) in regions.iter().enumerate() {
        for c in ri {
            assert!(0 <= c.x && c.x < 11 && 0 <= c.y && c.y < 11);
            for (j, rj) in regions.iter().enumerate() {
                if i != j {
                    assert!(!rj.contains(c));
                }
            }
        }
    }
    // Together the two agents claim the whole empty grid.
    let total: usize = regions.iter().map(|r| r.len()).sum();
    assert_eq!(total, 121);
}

/// The pocket scenario: the only two legal moves are searched and the
/// neck-violating escape is never selected.
#[test]
fn pocket_search_avoids_neck() {
    // Our head at (1, 1) with the neck at (1, 2); Left is blocked by the
    // opponent's head-on threat, so Down and Right are the legal moves.
    let b = board(
        3,
        3,
        &[],
        vec![
            snake("a", 90, &[(1, 1), (1, 2)]),
            snake("x", 90, &[(0, 1), (0, 0)]),
        ],
    );
    let gi = info_for(&["a"], 50);
    let chosen = minimax::search(&b, &gi);
    assert_eq!(chosen[0].id, 0);
    assert!(chosen[0].mv == Movement::Down || chosen[0].mv == Movement::Right);
    assert!(chosen[0].mv != Movement::Up, "never the neck-violating move");
}

/// The wire-format move application: eating grows and refills, moving
/// without food shrinks health and keeps length.
#[test]
fn wire_move_snake() {
    let b = board(
        11,
        11,
        &[(6, 5)],
        vec![snake("a", 37, &[(5, 5), (4, 5), (3, 5)])],
    );
    let id = String::from("a");
    let fed = move_snake(&b, &id, Movement::Right);
    assert_eq!(fed.snakes[0].health, 100);
    assert_eq!(fed.snakes[0].body.len(), 4);
    assert_eq!(fed.snakes[0].length, 4);
    assert!(fed.food.is_empty());

    let moved = move_snake(&b, &id, Movement::Up);
    assert_eq!(moved.snakes[0].health, 36);
    assert_eq!(moved.snakes[0].body.len(), 3);
    assert_eq!(moved.snakes[0].body[0], coord(5, 6));
    assert_eq!(moved.food.len(), 1);

    // An unknown identifier leaves the snapshot unchanged.
    let missing = move_snake(&b, &String::from("zz"), Movement::Up);
    assert_eq!(missing.snakes.len(), 1);
    assert_eq!(missing.snakes[0].body.len(), 3);
}

/// A starving wire snake disappears when its health reaches zero.
#[test]
fn wire_move_snake_starves() {
    let b = board(11, 11, &[], vec![snake("a", 1, &[(5, 5), (4, 5), (3, 5)])]);
    let r = move_snake(&b, &String::from("a"), Movement::Up);
    assert!(r.snakes.is_empty());
}

/// Wire-format death resolution: an equal-length head-on kills both.
#[test]
fn wire_check_deaths_headon() {
    let b = board(
        11,
        11,
        &[],
        vec![
            snake("a", 90, &[(5, 5), (4, 5), (3, 5)]),
            snake("b", 90, &[(5, 5), (6, 5), (7, 5)]),
            snake("c", 90, &[(9, 9), (9, 8), (9, 7)]),
        ],
    );
    let r = check_deaths(&b, false);
    let ids: Vec<&str> = r.snakes.iter().map(|s| s.id.as_str()).collect();
    assert_eq!(ids, vec!["c"]);
}

/// The one-ply wire search picks the joint move with the best material
/// score: eating is strictly better here.
#[test]
fn wire_search_prefers_food() {
    let b = board(
        11,
        11,
        &[(6, 5)],
        vec![
            snake("a", 90, &[(5, 5), (4, 5), (3, 5)]),
            snake("t", 90, &[(0, 9), (0, 8), (0, 7)]),
            snake("x", 90, &[(9, 0), (9, 1), (9, 2)]),
        ],
    );
    let team = [String::from("a"), String::from("t")];
    let enemy = [String::from("x"), String::from("")];
    let r = mm_search::search(&b, &team, &enemy, 50);
    assert_eq!(r[0], "right");
    assert!(["up", "down", "left", "right"].contains(&r[1].as_str()));
}

/// The exact wire heuristic value on a known snapshot.
#[test]
fn wire_heuristic_exact() {
    let b = board(
        11,
        11,
        &[],
        vec![
            snake("a", 100, &[(1, 1), (1, 2), (1, 3)]),
            snake("t", 30, &[(3, 3), (3, 4), (3, 5), (3, 6)]),
            snake("x", 90, &[(9, 9), (9, 8)]),
        ],
    );
    let team = [String::from("a"), String::from("t")];
    let enemy = [String::from("x"), String::from("missing")];
    // a: +3; t: +4 - 1 (low health); x: -2; missing: 0.
    assert_eq!(mm_search::heuristic(&b, &team, &enemy), 3 + 4 - 1 - 2);
}

/// The movement vocabulary and its wire spellings.
#[test]
fn movement_vocabulary() {
    let all = Movement::all();
    assert_eq!(all.len(), 4);
    assert_eq!(all[0].text(), "up");
    assert_eq!(all[1].text(), "down");
    assert_eq!(all[2].text(), "left");
    assert_eq!(all[3].text(), "right");
}

/// Joint moves for a member that is absent from the board fall back to the
/// single default move.
#[test]
fn joint_moves_missing_member() {
    let b = board(11, 11, &[], vec![snake("a", 90, &[(5, 5), (4, 5), (3, 5)])]);
    let team = [String::from("a"), String::from("ghostly")];
    let jm = mm_search::get_joint_moves(&b, &team);
    assert!(!jm.is_empty());
    for pair in &jm {
        assert_eq!(pair[1], Movement::Down);
    }
    // Our present member keeps its full legal fan-out.
    assert_eq!(jm.len(), 3);
}
