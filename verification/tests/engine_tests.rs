use battlesnake::board::{Cell, SimBoard, MAX_DIM};
use battlesnake::flood::{flood_fill, flood_fill_area};
use battlesnake::logic::{get_move, MoveChoice};
use battlesnake::setup::is_supported;
use battlesnake::types::{
    Board, Coord, Direction, Game, GameMode, GameState, Ruleset, RulesetSettings, Snake,
};

fn snake(id: &str, health: i32, body: &[(i32, i32)]) -> Snake {
    let body: Vec<Coord> = body.iter().map(|&(x, y)| Coord::new(x, y)).collect();
    Snake {
        id: id.to_string(),
        name: id.to_string(),
        health,
        head: body[0],
        length: body.len() as i32,
        body,
        shout: None,
    }
}

fn coords(v: &[(i32, i32)]) -> Vec<Coord> {
    v.iter().map(|&(x, y)| Coord::new(x, y)).collect()
}

fn state(
    width: i32,
    height: i32,
    ruleset: &str,
    food: &[(i32, i32)],
    hazards: &[(i32, i32)],
    snakes: Vec<Snake>,
    you: usize,
) -> GameState {
    GameState {
        game: Game {
            id: "g".to_string(),
            ruleset: Ruleset { name: ruleset.to_string(), version: String::new(), settings: None },
            timeout: 500,
        },
        turn: 3,
        board: Board {
            height,
            width,
            food: coords(food),
            hazards: coords(hazards),
            snakes: snakes.clone(),
        },
        you: snakes[you].clone(),
    }
}

fn cell(b: &SimBoard, x: i32, y: i32) -> Cell {
    b.cells[(y as usize) * MAX_DIM + x as usize]
}

#[test]
fn build_places_hazards_food_and_snakes() {
    let me = snake("me", 90, &[(1, 1), (1, 2), (1, 3)]);
    let opp = snake("opp", 80, &[(9, 9), (9, 8)]);
    let st = state(11, 11, "standard", &[(0, 0), (5, 5)], &[(0, 0), (3, 3)], vec![opp, me], 1);
    let b = SimBoard::from_game_state(&st);
    assert_eq!(b.width, 11);
    assert_eq!(b.height, 11);
    assert_eq!(b.snake_count, 2);
    assert_eq!(b.our_index, 1);
    assert_eq!(b.mode, GameMode::Standard);
    assert_eq!(b.hazard_damage, 14);
    assert_eq!(b.turn, 3);
    assert_eq!(cell(&b, 0, 0), Cell::HazardFood);
    assert_eq!(cell(&b, 3, 3), Cell::Hazard);
    assert_eq!(cell(&b, 5, 5), Cell::Food);
    assert_eq!(cell(&b, 1, 1), Cell::SnakeHead(1));
    assert_eq!(cell(&b, 1, 2), Cell::SnakeBody(1, 2));
    assert_eq!(cell(&b, 1, 3), Cell::SnakeBody(1, 1));
    assert_eq!(cell(&b, 9, 9), Cell::SnakeHead(0));
    assert_eq!(cell(&b, 9, 8), Cell::SnakeBody(0, 1));
    assert_eq!(cell(&b, 4, 4), Cell::Empty);
    assert!(b.snakes[1].alive);
    assert_eq!(b.snakes[1].tail, Coord::new(1, 3));
    assert!(!b.snakes[2].alive);
    assert_eq!(b.snakes[2].head, Coord::new(-1, -1));
}

#[test]
fn build_keeps_highest_ttl_of_stacked_segments() {
    let me = snake("me", 100, &[(2, 2), (2, 2), (2, 2)]);
    let st = state(7, 7, "standard", &[], &[], vec![me], 0);
    let b = SimBoard::from_game_state(&st);
    assert_eq!(cell(&b, 2, 2), Cell::SnakeBody(0, 2));
}

#[test]
fn build_reads_mode_and_hazard_damage() {
    let me = snake("me", 100, &[(2, 2), (2, 3)]);
    let mut st = state(7, 7, "royale", &[], &[], vec![me], 0);
    st.game.ruleset.settings = Some(RulesetSettings { hazard_damage_per_turn: Some(7) });
    let b = SimBoard::from_game_state(&st);
    assert_eq!(b.mode, GameMode::Royale);
    assert_eq!(b.hazard_damage, 7);
    st.game.ruleset.settings = Some(RulesetSettings { hazard_damage_per_turn: None });
    assert_eq!(SimBoard::from_game_state(&st).hazard_damage, 14);
}

#[test]
fn index_round_trip() {
    let me = snake("me", 100, &[(2, 2), (2, 3)]);
    let b = SimBoard::from_game_state(&state(11, 11, "standard", &[], &[], vec![me], 0));
    assert_eq!(b.coord_to_idx(Coord::new(3, 2)), 45);
    assert_eq!(b.idx_to_coord(45), Coord::new(3, 2));
    for idx in [0usize, 20, 21, 440] {
        assert_eq!(b.coord_to_idx(b.idx_to_coord(idx)), idx);
    }
}

#[test]
fn get_cell_off_board_is_impassable() {
    let me = snake("me", 100, &[(2, 2), (2, 3)]);
    let b = SimBoard::from_game_state(&state(11, 11, "standard", &[], &[], vec![me], 0));
    assert_eq!(b.get_cell(Coord::new(-1, 0)), Cell::SnakeBody(255, 999));
    assert_eq!(b.get_cell(Coord::new(0, 11)), Cell::SnakeBody(255, 999));
    assert_eq!(b.get_cell(Coord::new(2, 3)), Cell::SnakeBody(0, 1));
}

#[test]
fn cell_safety_follows_ttl() {
    let me = snake("me", 90, &[(1, 1), (1, 2), (1, 3)]);
    let b = SimBoard::from_game_state(&state(11, 11, "standard", &[], &[], vec![me], 0));
    assert!(b.is_cell_safe(Coord::new(1, 3)), "tail moves away");
    assert!(!b.is_cell_safe(Coord::new(1, 2)), "neck stays");
    assert!(!b.is_cell_safe(Coord::new(1, 1)), "head");
    assert!(!b.is_cell_safe(Coord::new(-1, 1)), "wall");
    assert!(b.is_cell_safe(Coord::new(5, 5)));
}

#[test]
fn wrapped_cells_wrap_before_lookup() {
    let me = snake("me", 90, &[(0, 1), (0, 2), (0, 3)]);
    let b = SimBoard::from_game_state(&state(11, 11, "wrapped", &[], &[], vec![me], 0));
    assert!(b.is_cell_safe(Coord::new(-1, 1)));
    assert!(!b.is_cell_safe(Coord::new(11, 1)), "wraps onto the head");
    assert!(!b.is_cell_safe(Coord::new(0, 13)), "wraps onto the neck");
    assert_eq!(b.move_coord(Coord::new(0, 1), Direction::Left), Coord::new(10, 1));
}

#[test]
fn safe_moves_never_reverse_into_neck() {
    let me = snake("me", 90, &[(1, 1), (1, 2), (1, 3)]);
    let b = SimBoard::from_game_state(&state(11, 11, "standard", &[], &[], vec![me], 0));
    let moves = b.safe_moves(0);
    assert_eq!(
        moves,
        vec![
            (Direction::Down, Coord::new(1, 0)),
            (Direction::Left, Coord::new(0, 1)),
            (Direction::Right, Coord::new(2, 1)),
        ]
    );
    assert!(b.safe_moves(3).is_empty(), "empty slot");
}

#[test]
fn stacked_start_has_no_reverse_direction() {
    let me = snake("me", 100, &[(5, 5), (5, 5), (5, 5)]);
    let b = SimBoard::from_game_state(&state(11, 11, "standard", &[], &[], vec![me], 0));
    let dirs: Vec<Direction> = b.safe_moves(0).iter().map(|m| m.0).collect();
    assert_eq!(dirs, vec![Direction::Up, Direction::Down, Direction::Left, Direction::Right]);
}

#[test]
fn smart_safe_moves_flags_head_to_head_risk() {
    let me = snake("me", 90, &[(5, 5), (5, 4), (5, 3)]);
    let equal = snake("eq", 90, &[(4, 6), (3, 6), (2, 6)]);
    let b = SimBoard::from_game_state(&state(11, 11, "standard", &[], &[], vec![me, equal], 0));
    let moves = b.smart_safe_moves(0);
    assert_eq!(
        moves,
        vec![
            (Direction::Up, Coord::new(5, 6), true),
            (Direction::Left, Coord::new(4, 5), true),
            (Direction::Right, Coord::new(6, 5), false),
        ]
    );
    // Against a shorter snake nothing is risky.
    let small = snake("small", 90, &[(4, 6), (3, 6)]);
    let me2 = snake("me", 90, &[(5, 5), (5, 4), (5, 3)]);
    let b2 = SimBoard::from_game_state(&state(11, 11, "standard", &[], &[], vec![me2, small], 0));
    assert!(b2.smart_safe_moves(0).iter().all(|m| !m.2));
}

#[test]
fn safe_moves_avoid_the_head_of_a_longer_snake() {
    let me = snake("me", 90, &[(5, 5), (5, 4), (5, 3)]);
    let big = snake("big", 90, &[(4, 6), (3, 6), (2, 6), (1, 6)]);
    let b = SimBoard::from_game_state(&state(11, 11, "standard", &[], &[], vec![me, big], 0));
    assert_eq!(b.safe_moves(0), vec![(Direction::Right, Coord::new(6, 5))]);
    assert_eq!(b.smart_safe_moves(0), vec![(Direction::Right, Coord::new(6, 5), false)]);

    let a = snake("a", 100, &[(0, 0)]);
    let mut longer = snake("b", 100, &[(2, 0), (2, 0)]);
    longer.length = 2;
    let b = SimBoard::from_game_state(&state(3, 1, "standard", &[], &[], vec![a, longer], 0));
    assert!(b.safe_moves(0).is_empty());
}

#[test]
fn wrapped_neck_across_the_edge_is_excluded() {
    let me = snake("me", 100, &[(0, 1), (2, 1)]);
    let b = SimBoard::from_game_state(&state(3, 3, "wrapped", &[], &[], vec![me], 0));
    assert_eq!(
        b.safe_moves(0),
        vec![
            (Direction::Up, Coord::new(0, 2)),
            (Direction::Down, Coord::new(0, 0)),
            (Direction::Right, Coord::new(1, 1)),
        ]
    );
}

#[test]
fn apply_moves_keeps_highest_ttl_of_stacked_segments() {
    let me = snake("me", 100, &[(2, 2), (2, 2), (2, 2)]);
    let b = SimBoard::from_game_state(&state(5, 5, "standard", &[], &[], vec![me], 0));
    assert_eq!(cell(&b, 2, 2), Cell::SnakeBody(0, 2));
    let nb = b.apply_moves(&[(0, Direction::Up)]);
    assert_eq!(nb.snakes[0].body, coords(&[(2, 3), (2, 2), (2, 2)]));
    assert_eq!(nb.get_cell(Coord::new(2, 3)), Cell::SnakeHead(0));
    assert_eq!(nb.get_cell(Coord::new(2, 2)), Cell::SnakeBody(0, 2));
}

#[test]
fn apply_moves_eats_and_grows() {
    let me = snake("me", 50, &[(1, 1), (1, 2), (1, 3)]);
    let b = SimBoard::from_game_state(&state(11, 11, "standard", &[(1, 0)], &[], vec![me], 0));
    let nb = b.apply_moves(&[(0, Direction::Down)]);
    assert_eq!(nb.turn, 4);
    let s = &nb.snakes[0];
    assert!(s.alive);
    assert_eq!(s.health, 100);
    assert_eq!(s.length, 4);
    assert_eq!(s.head, Coord::new(1, 0));
    assert_eq!(s.body, coords(&[(1, 0), (1, 1), (1, 2), (1, 3)]));
    assert_eq!(s.tail, Coord::new(1, 3));
    assert_eq!(cell(&nb, 1, 0), Cell::SnakeHead(0));
    assert_eq!(cell(&nb, 1, 1), Cell::SnakeBody(0, 3));
    assert_eq!(cell(&nb, 1, 2), Cell::SnakeBody(0, 2));
    assert_eq!(cell(&nb, 1, 3), Cell::SnakeBody(0, 1));
}

#[test]
fn apply_moves_moves_tail_and_charges_hazards() {
    let me = snake("me", 50, &[(1, 1), (1, 2), (1, 3)]);
    let b = SimBoard::from_game_state(&state(11, 11, "royale", &[], &[(2, 1)], vec![me], 0));
    let nb = b.apply_moves(&[(0, Direction::Right)]);
    let s = &nb.snakes[0];
    assert!(s.alive);
    assert_eq!(s.health, 50 - 1 - 14);
    assert_eq!(s.length, 3);
    assert_eq!(s.body, coords(&[(2, 1), (1, 1), (1, 2)]));
    assert_eq!(s.tail, Coord::new(1, 2));
    assert_eq!(cell(&nb, 1, 3), Cell::Empty);
    assert_eq!(cell(&nb, 2, 1), Cell::SnakeHead(0));
    assert_eq!(cell(&nb, 1, 1), Cell::SnakeBody(0, 2));
}

#[test]
fn apply_moves_starvation_and_walls_kill() {
    let me = snake("me", 1, &[(1, 1), (1, 2)]);
    let b = SimBoard::from_game_state(&state(11, 11, "standard", &[], &[], vec![me], 0));
    let nb = b.apply_moves(&[(0, Direction::Right)]);
    assert!(!nb.snakes[0].alive);
    assert!(nb.we_died());
    let me2 = snake("me", 90, &[(0, 1), (1, 1)]);
    let b2 = SimBoard::from_game_state(&state(11, 11, "standard", &[], &[], vec![me2], 0));
    let nb2 = b2.apply_moves(&[(0, Direction::Left)]);
    assert!(!nb2.snakes[0].alive);
    assert_eq!(nb2.snakes[0].head, Coord::new(0, 1));
}

#[test]
fn head_to_head_shorter_dies_equal_both_die() {
    let me = snake("me", 90, &[(3, 5), (2, 5), (1, 5)]);
    let opp = snake("opp", 90, &[(5, 5), (6, 5)]);
    let b = SimBoard::from_game_state(&state(11, 11, "standard", &[], &[], vec![me, opp], 0));
    let nb = b.apply_moves(&[(0, Direction::Right), (1, Direction::Left)]);
    assert!(nb.snakes[0].alive);
    assert!(!nb.snakes[1].alive);
    assert!(nb.we_won());
    assert_eq!(nb.alive_count(), 1);

    let me = snake("me", 90, &[(3, 5), (2, 5)]);
    let opp = snake("opp", 90, &[(5, 5), (6, 5)]);
    let b = SimBoard::from_game_state(&state(11, 11, "standard", &[], &[], vec![me, opp], 0));
    let nb = b.apply_moves(&[(0, Direction::Right), (1, Direction::Left)]);
    assert!(!nb.snakes[0].alive);
    assert!(!nb.snakes[1].alive);
    assert_eq!(nb.alive_count(), 0);
    assert!(!nb.we_won());
}

#[test]
fn moving_into_a_body_kills() {
    let me = snake("me", 90, &[(3, 5), (2, 5)]);
    let opp = snake("opp", 90, &[(5, 4), (4, 4), (4, 5), (4, 6)]);
    let b = SimBoard::from_game_state(&state(11, 11, "standard", &[], &[], vec![me, opp], 0));
    let nb = b.apply_moves(&[(0, Direction::Right), (1, Direction::Right)]);
    // Our new head (4,5) lies on the opponent's body after its move.
    assert!(!nb.snakes[0].alive);
    assert!(nb.snakes[1].alive);
    assert_eq!(cell(&nb, 4, 5), Cell::SnakeBody(1, 1));
}

#[test]
fn later_move_for_a_snake_wins() {
    let me = snake("me", 90, &[(5, 5), (5, 4)]);
    let b = SimBoard::from_game_state(&state(11, 11, "standard", &[], &[], vec![me], 0));
    let nb = b.apply_moves(&[(0, Direction::Left), (0, Direction::Up)]);
    assert_eq!(nb.snakes[0].head, Coord::new(5, 6));
}

#[test]
fn area_counts_reachable_cells() {
    let me = snake("me", 90, &[(1, 1), (1, 2), (1, 3)]);
    let b = SimBoard::from_game_state(&state(11, 11, "standard", &[], &[], vec![me], 0));
    // Head and neck block, the tail does not.
    assert_eq!(flood_fill_area(&b, Coord::new(5, 5)), 119);
    assert_eq!(flood_fill_area(&b, Coord::new(-1, 5)), 0);
    assert_eq!(flood_fill_area(&b, Coord::new(11, 0)), 0);
}

#[test]
fn area_of_enclosed_pocket() {
    // A wall of a snake body cuts the 4x3 board in two.
    let me = snake("me", 90, &[(1, 0), (1, 1), (1, 2), (2, 2)]);
    let b = SimBoard::from_game_state(&state(4, 3, "standard", &[], &[], vec![me], 0));
    // Left column: (0,0),(0,1),(0,2) are enclosed by head (1,0), body (1,1) ttl 3, (1,2) ttl 2.
    assert_eq!(flood_fill_area(&b, Coord::new(0, 1)), 3);
    // Right side: (2,0),(2,1),(3,0),(3,1),(3,2) and the tail (2,2).
    assert_eq!(flood_fill_area(&b, Coord::new(3, 0)), 6);
}

#[test]
fn territory_goes_to_the_first_then_longer_snake() {
    let a = snake("a", 90, &[(0, 0)]);
    let b_snake = snake("b", 90, &[(2, 0)]);
    let b = SimBoard::from_game_state(&state(3, 1, "standard", &[], &[], vec![a, b_snake], 0));
    let r = flood_fill(&b);
    assert_eq!(r.territory[0], 1);
    assert_eq!(r.territory[1], 0);
    assert_eq!(r.our_reachable, 1);
    assert!(r.can_reach_tail);
    assert_eq!(r.tail_distance, 0);

    let a = snake("a", 90, &[(0, 0)]);
    let mut longer = snake("b", 90, &[(2, 0), (2, 0)]);
    longer.length = 2;
    let b = SimBoard::from_game_state(&state(3, 1, "standard", &[(1, 0)], &[], vec![a, longer], 0));
    let r = flood_fill(&b);
    assert_eq!(r.territory[0], 0);
    assert_eq!(r.territory[1], 1);
    // The contested cell counts as reachable for us though it went to the longer snake.
    assert_eq!(r.our_reachable, 1);
    // Both reached the food at distance 1; it counts for the longer snake only.
    assert_eq!(r.reachable_food[0], 0);
    assert_eq!(r.reachable_food[1], 1);
    assert_eq!(r.nearest_food_dist[0], 1);
    assert_eq!(r.nearest_food_dist[1], 1);
    assert_eq!(r.nearest_food_dist[2], i32::MAX);
}

#[test]
fn get_move_takes_the_only_safe_move() {
    let me = snake("me", 90, &[(0, 0), (1, 0), (2, 0)]);
    let st = state(11, 11, "standard", &[], &[], vec![me], 0);
    assert!(is_supported(&st));
    match get_move(&st) {
        MoveChoice::Decided(d) => assert_eq!(d, Direction::Up),
        MoveChoice::Search(..) => panic!("expected a decided move"),
    }
}

#[test]
fn get_move_emergency_picks_most_room() {
    let me = snake("me", 90, &[(0, 0), (1, 0), (1, 0)]);
    let st = state(2, 1, "standard", &[], &[], vec![me], 0);
    match get_move(&st) {
        MoveChoice::Decided(d) => assert_eq!(d, Direction::Right),
        MoveChoice::Search(..) => panic!("expected a decided move"),
    }
}

#[test]
fn get_move_prefers_single_non_risky_move() {
    let me = snake("me", 90, &[(5, 5), (5, 4), (5, 3)]);
    let big = snake("big", 90, &[(4, 6), (3, 6), (2, 6), (1, 6)]);
    let st = state(11, 11, "standard", &[], &[], vec![me, big], 0);
    match get_move(&st) {
        MoveChoice::Decided(d) => assert_eq!(d, Direction::Right),
        MoveChoice::Search(..) => panic!("expected a decided move"),
    }
}

#[test]
fn get_move_hands_open_positions_to_search() {
    let me = snake("me", 90, &[(5, 5), (5, 4), (5, 3)]);
    let mut st = state(11, 11, "standard", &[], &[], vec![me], 0);
    match get_move(&st) {
        MoveChoice::Search(board, budget) => {
            assert_eq!(budget, 350);
            assert_eq!(board.our_index, 0);
            assert_eq!(board.width, 11);
        }
        MoveChoice::Decided(_) => panic!("expected a search"),
    }
    st.game.timeout = 50;
    match get_move(&st) {
        MoveChoice::Search(_, budget) => assert_eq!(budget, 50),
        MoveChoice::Decided(_) => panic!("expected a search"),
    }
}

#[test]
fn supported_states() {
    let me = snake("me", 90, &[(5, 5), (5, 4)]);
    let st = state(11, 11, "standard", &[(1, 1)], &[], vec![me.clone()], 0);
    assert!(is_supported(&st));
    let wide = state(25, 11, "standard", &[], &[], vec![me.clone()], 0);
    assert!(!is_supported(&wide));
    let bad_food = state(11, 11, "standard", &[(0, -1)], &[], vec![me.clone()], 0);
    assert!(!is_supported(&bad_food));
    // Left of the bottom row the index lies past the cells: skipped, not refused.
    let skipped_food = state(11, 11, "standard", &[(-1, 0)], &[], vec![me.clone()], 0);
    assert!(is_supported(&skipped_food));
    let off = snake("me", 90, &[(5, 5), (5, 11)]);
    let off_board = state(11, 11, "standard", &[], &[], vec![off], 0);
    assert!(!is_supported(&off_board));
    let mut neg = me.clone();
    neg.length = -1;
    let neg_len = state(11, 11, "standard", &[], &[], vec![neg], 0);
    // Any length is accepted: the space check doubles it without overflow.
    assert!(is_supported(&neg_len));
}

#[test]
fn turn_limits() {
    let me = snake("me", 90, &[(5, 5), (5, 4)]);
    let mut b = SimBoard::from_game_state(&state(11, 11, "standard", &[], &[], vec![me], 0));
    assert!(b.can_apply_moves());
    b.turn = u32::MAX;
    assert!(!b.can_apply_moves());
}

#[test]
fn tail_reached_only_by_another_snake_is_not_ours() {
    let a = snake("a", 100, &[(0, 0), (1, 0), (2, 0)]);
    let b_snake = snake("b", 100, &[(3, 0)]);
    let b = SimBoard::from_game_state(&state(4, 1, "standard", &[], &[], vec![a, b_snake], 0));
    let r = flood_fill(&b);
    assert!(!r.can_reach_tail);
    assert_eq!(r.tail_distance, i32::MAX);
    // B takes our tail at distance 1 and our neck, gone by then, at distance 2.
    assert_eq!(r.territory[1], 2);
    assert_eq!(r.our_reachable, 0);
}

#[test]
fn unmoved_snake_is_unchanged_and_nobody_revives() {
    let me = snake("me", 90, &[(1, 1), (1, 2), (1, 3)]);
    let opp = snake("opp", 80, &[(5, 5), (5, 4)]);
    let dead = snake("dead", 0, &[(8, 8), (8, 7)]);
    let b = SimBoard::from_game_state(&state(11, 11, "standard", &[], &[], vec![me, opp, dead], 0));
    assert_eq!(b.alive_count(), 2);
    let nb = b.apply_moves(&[(0, Direction::Right), (2, Direction::Up)]);
    let (s, t) = (&b.snakes[1], &nb.snakes[1]);
    assert_eq!((t.alive, t.health, t.length, t.head, t.tail), (s.alive, s.health, s.length, s.head, s.tail));
    assert_eq!(t.body, s.body);
    assert!(!nb.snakes[2].alive);
    assert_eq!(nb.alive_count(), 2);
}

#[test]
fn dead_snakes_hold_no_territory() {
    let me = snake("me", 90, &[(0, 0)]);
    let dead = snake("dead", 0, &[(4, 0), (4, 0)]);
    let b = SimBoard::from_game_state(&state(5, 1, "standard", &[(3, 0)], &[], vec![me, dead], 0));
    let r = flood_fill(&b);
    assert_eq!(r.territory[1], 0);
    assert_eq!(r.reachable_food[1], 0);
    assert_eq!(r.reachable_food[0], 1);
    assert_eq!(r.nearest_food_dist[0], 3);
}

#[test]
fn wrapped_moves_round_trip_and_match_plain_moves_inside() {
    let me = snake("me", 90, &[(0, 0)]);
    let b = SimBoard::from_game_state(&state(5, 4, "wrapped", &[], &[], vec![me], 0));
    for &(x, y) in &[(0, 0), (4, 3), (2, 1), (4, 0)] {
        let c = Coord::new(x, y);
        for d in Direction::ALL {
            let t = b.move_coord(c, d);
            assert!(t.in_bounds(5, 4));
            assert_eq!(b.move_coord(t, d.opposite()), c);
            let plain = c.apply_move(d);
            if plain.in_bounds(5, 4) {
                assert_eq!(t, plain);
            }
        }
    }
    assert_eq!(b.move_coord(Coord::new(4, 3), Direction::Right), Coord::new(0, 3));
}

#[test]
fn food_on_a_hazard_and_plain_hazards_are_built() {
    let me = snake("me", 90, &[(0, 0)]);
    let b = SimBoard::from_game_state(&state(5, 5, "standard", &[(1, 1), (2, 2)], &[(2, 2), (3, 3)], vec![me], 0));
    assert_eq!(cell(&b, 1, 1), Cell::Food);
    assert_eq!(cell(&b, 2, 2), Cell::HazardFood);
    assert_eq!(cell(&b, 3, 3), Cell::Hazard);
    assert_eq!(cell(&b, 4, 4), Cell::Empty);
}

#[test]
fn coordinates_left_of_the_bottom_row_are_skipped() {
    let me = snake("me", 90, &[(1, 1), (1, 2)]);
    let st = state(5, 5, "standard", &[(-1, 0), (2, 2)], &[(-3, 0)], vec![me], 0);
    assert!(is_supported(&st));
    let b = SimBoard::from_game_state(&st);
    assert_eq!(cell(&b, 2, 2), Cell::Food);
    assert_eq!(cell(&b, 0, 0), Cell::Empty);
    assert_eq!(cell(&b, 4, 0), Cell::Empty);
    assert_eq!(cell(&b, 1, 1), Cell::SnakeHead(0));
}

#[test]
fn territory_and_heads_fit_the_board() {
    let a = snake("a", 90, &[(0, 0), (0, 1)]);
    let b_snake = snake("b", 90, &[(4, 4), (4, 3)]);
    let c = snake("c", 90, &[(2, 4), (2, 3), (2, 2)]);
    let b = SimBoard::from_game_state(&state(5, 5, "standard", &[], &[], vec![a, b_snake, c], 0));
    let r = flood_fill(&b);
    let total: u32 = r.territory.iter().sum();
    assert!(total as usize + b.alive_count() <= 25);
}

#[test]
fn built_body_cells_show_snakes() {
    let me = snake("me", 90, &[(1, 1), (1, 2), (1, 2), (2, 2)]);
    let b = SimBoard::from_game_state(&state(5, 5, "standard", &[(1, 2)], &[(2, 2)], vec![me], 0));
    assert_eq!(cell(&b, 1, 1), Cell::SnakeHead(0));
    assert_eq!(cell(&b, 1, 2), Cell::SnakeBody(0, 3));
    assert_eq!(cell(&b, 2, 2), Cell::SnakeBody(0, 1));
}
