use battlesnake::board::SimBoard;
use battlesnake::search::{order_non_risky_first, paranoid_opponent_move, SearchState};
use battlesnake::types::{Board, Coord, Direction, Game, GameState, Ruleset, Snake};
use std::time::{Duration, Instant};

fn snake(id: &str, body: &[(i32, i32)]) -> Snake {
    let body: Vec<Coord> = body.iter().map(|&(x, y)| Coord::new(x, y)).collect();
    Snake {
        id: id.to_string(),
        name: id.to_string(),
        health: 90,
        head: body[0],
        length: body.len() as i32,
        body,
        shout: None,
    }
}

fn board(snakes: Vec<Snake>) -> SimBoard {
    board_at(snakes, 20)
}

fn board_at(snakes: Vec<Snake>, turn: u32) -> SimBoard {
    let st = GameState {
        game: Game {
            id: "g".to_string(),
            ruleset: Ruleset { name: "standard".to_string(), version: String::new(), settings: None },
            timeout: 500,
        },
        turn,
        board: Board { height: 11, width: 11, food: vec![], hazards: vec![], snakes: snakes.clone() },
        you: snakes[0].clone(),
    };
    SimBoard::from_game_state(&st)
}

#[test]
fn check_time_counts_and_checks_every_256_nodes() {
    let past = Instant::now();
    let mut s = SearchState { nodes: 0, deadline: past, timed_out: false };
    assert!(!s.check_time());
    assert_eq!(s.nodes, 1);
    assert!(!s.timed_out);
    s.nodes = 255;
    assert!(s.check_time());
    assert_eq!(s.nodes, 256);
    assert!(s.timed_out);
    let mut fresh = SearchState { nodes: 255, deadline: Instant::now() + Duration::from_secs(3600), timed_out: false };
    assert!(!fresh.check_time());
    assert!(!fresh.timed_out);
}

#[test]
fn non_risky_moves_come_first_in_order() {
    let moves = vec![
        (Direction::Up, Coord::new(0, 1), true),
        (Direction::Down, Coord::new(0, 2), false),
        (Direction::Left, Coord::new(0, 3), true),
        (Direction::Right, Coord::new(0, 4), false),
    ];
    let ordered = order_non_risky_first(moves);
    let dirs: Vec<Direction> = ordered.iter().map(|m| m.0).collect();
    assert_eq!(dirs, vec![Direction::Down, Direction::Right, Direction::Up, Direction::Left]);
}

#[test]
fn alive_opponents_skip_us_and_the_dead() {
    let b = board(vec![snake("me", &[(1, 1), (1, 2)]), snake("a", &[(5, 5), (5, 6)]), snake("b", &[(8, 8), (8, 9)])]);
    assert_eq!(b.alive_opponents(), vec![1, 2]);
    let nb = b.apply_moves(&[(0, Direction::Down), (1, Direction::Down), (2, Direction::Down)]);
    assert_eq!(nb.alive_opponents(), vec![1, 2]);
}

#[test]
fn far_opponent_heads_for_center() {
    let b = board(vec![snake("me", &[(0, 0), (0, 1)]), snake("a", &[(8, 8), (8, 9)])]);
    let safe = b.safe_moves(1);
    // Center is (5,5): Down (8,7) and Left (7,8) are both at distance 5; the first wins.
    assert_eq!(paranoid_opponent_move(&b, 1, &safe), Direction::Down);
}

#[test]
fn close_longer_opponent_chases() {
    let b = board(vec![snake("me", &[(4, 4), (4, 3)]), snake("a", &[(6, 4), (7, 4), (8, 4)])]);
    let safe = b.safe_moves(1);
    assert_eq!(paranoid_opponent_move(&b, 1, &safe), Direction::Left);
}

#[test]
fn close_shorter_opponent_flees() {
    let b = board(vec![snake("me", &[(4, 4), (4, 3), (4, 2)]), snake("a", &[(6, 4), (6, 5)])]);
    let safe = b.safe_moves(1);
    // Left (5,4) is next to our longer head and is no safe move; Down (6,3) and
    // Right (7,4) are both 3 away, and the last farthest wins.
    assert_eq!(paranoid_opponent_move(&b, 1, &safe), Direction::Right);
}

#[test]
fn opening_opponent_heads_for_center() {
    let snakes = vec![snake("me", &[(1, 1), (1, 0)]), snake("a", &[(4, 3), (4, 2), (4, 1)])];
    // In the first 10 turns, 5 steps away: towards the centre (5,5).
    let b = board_at(snakes.clone(), 3);
    let safe = b.safe_moves(1);
    assert_eq!(paranoid_opponent_move(&b, 1, &safe), Direction::Up);
    // Later, the same longer snake 5 steps away chases our head (1,1).
    let b = board_at(snakes, 20);
    let safe = b.safe_moves(1);
    assert_eq!(paranoid_opponent_move(&b, 1, &safe), Direction::Left);
}

#[test]
fn search_plan_depends_on_the_snakes() {
    let two = board(vec![snake("me", &[(1, 1), (1, 0)]), snake("a", &[(8, 8), (8, 7)])]);
    assert_eq!(two.search_depth_cap(), 15);
    assert!(!two.uses_paranoid_search());
    let three = board(vec![
        snake("me", &[(1, 1), (1, 0)]),
        snake("a", &[(8, 8), (8, 7)]),
        snake("b", &[(5, 8), (5, 7)]),
    ]);
    assert_eq!(three.search_depth_cap(), 8);
    assert!(three.uses_paranoid_search());
}

#[test]
fn record_deadline_marks_time_out() {
    let mut s = SearchState { nodes: 7, deadline: Instant::now(), timed_out: false };
    assert!(!s.record_deadline(false));
    assert!(!s.timed_out);
    assert!(s.record_deadline(true));
    assert!(s.timed_out);
    assert!(!s.record_deadline(false));
    assert!(s.timed_out);
    assert_eq!(s.nodes, 7);
}
