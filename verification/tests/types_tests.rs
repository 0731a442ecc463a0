use battlesnake::types::{snake_info, Coord, Direction, GameMode, Snake};

fn snake(id: &str, health: i32, body: &[(i32, i32)]) -> Snake {
    let body: Vec<Coord> = body.iter().map(|&(x, y)| Coord::new(x, y)).collect();
    Snake {
        id: id.to_string(),
        name: id.to_string(),
        health,
        head: body[0],
        length: body.len() as i32,
        body,
        shout: None,
    }
}

#[test]
fn coord_dist_is_manhattan() {
    let a = Coord::new(1, 2);
    let b = Coord::new(4, -2);
    assert_eq!(a.dist(&b), 7);
    assert_eq!(b.dist(&a), 7);
    assert_eq!(a.dist(&a), 0);
}

#[test]
fn apply_move_steps_one_cell() {
    let c = Coord::new(3, 3);
    assert_eq!(c.apply_move(Direction::Up), Coord::new(3, 4));
    assert_eq!(c.apply_move(Direction::Down), Coord::new(3, 2));
    assert_eq!(c.apply_move(Direction::Left), Coord::new(2, 3));
    assert_eq!(c.apply_move(Direction::Right), Coord::new(4, 3));
}

#[test]
fn apply_move_wrapped_wraps_at_edges() {
    let c = Coord::new(0, 0);
    assert_eq!(c.apply_move_wrapped(Direction::Left, 11, 11), Coord::new(10, 0));
    assert_eq!(c.apply_move_wrapped(Direction::Down, 11, 7), Coord::new(0, 6));
    let d = Coord::new(10, 6);
    assert_eq!(d.apply_move_wrapped(Direction::Right, 11, 7), Coord::new(0, 6));
    assert_eq!(d.apply_move_wrapped(Direction::Up, 11, 7), Coord::new(10, 0));
    assert_eq!(d.apply_move_wrapped(Direction::Left, 11, 7), Coord::new(9, 6));
}

#[test]
fn apply_move_wrapped_follows_integer_remainder() {
    // ((x % w) + w) % w with a negative width keeps the sign of the width.
    let c = Coord::new(0, 0);
    assert_eq!(c.apply_move_wrapped(Direction::Left, -5, 3), Coord::new(-1, 0));
    assert_eq!(Coord::new(3, 1).apply_move_wrapped(Direction::Up, 7, 2), Coord::new(3, 0));
}

#[test]
fn neighbors_are_up_down_left_right() {
    let n = Coord::new(5, 5).neighbors();
    assert_eq!(n, [Coord::new(5, 6), Coord::new(5, 4), Coord::new(4, 5), Coord::new(6, 5)]);
}

#[test]
fn in_bounds_checks_both_axes() {
    assert!(Coord::new(0, 0).in_bounds(11, 11));
    assert!(Coord::new(10, 10).in_bounds(11, 11));
    assert!(!Coord::new(11, 0).in_bounds(11, 11));
    assert!(!Coord::new(0, -1).in_bounds(11, 11));
}

#[test]
fn opposite_is_an_involution() {
    for d in Direction::ALL {
        assert_ne!(d.opposite(), d);
        assert_eq!(d.opposite().opposite(), d);
        let c = Coord::new(4, 4);
        assert_eq!(c.apply_move(d).apply_move(d.opposite()), c);
        assert_eq!(c.dist(&c.apply_move(d)), 1);
    }
    assert_eq!(Direction::Up.opposite(), Direction::Down);
    assert_eq!(Direction::Left.opposite(), Direction::Right);
}

#[test]
fn direction_names() {
    assert_eq!(Direction::Up.to_string(), "up");
    assert_eq!(Direction::Down.to_string(), "down");
    assert_eq!(Direction::Left.to_string(), "left");
    assert_eq!(Direction::Right.to_string(), "right");
}

#[test]
fn game_mode_from_ruleset_names() {
    assert_eq!(GameMode::from_ruleset("royale"), GameMode::Royale);
    assert_eq!(GameMode::from_ruleset("constrictor"), GameMode::Constrictor);
    assert_eq!(GameMode::from_ruleset("wrapped"), GameMode::Wrapped);
    assert_eq!(GameMode::from_ruleset("solo"), GameMode::Solo);
    assert_eq!(GameMode::from_ruleset("standard"), GameMode::Standard);
    assert_eq!(GameMode::from_ruleset("Royale"), GameMode::Standard);
    assert_eq!(GameMode::from_ruleset(""), GameMode::Standard);
    assert!(GameMode::Wrapped.is_wrapped());
    assert!(!GameMode::Standard.is_wrapped());
}

#[test]
fn snake_tail_and_liveness() {
    let s = snake("a", 90, &[(1, 1), (1, 2), (2, 2)]);
    assert_eq!(s.tail(), Coord::new(2, 2));
    assert!(s.is_alive());
    let dead = snake("b", 0, &[(1, 1)]);
    assert!(!dead.is_alive());
    let mut empty = snake("c", 50, &[(1, 1)]);
    empty.body.clear();
    assert!(!empty.is_alive());
}

#[test]
fn info_response_values() {
    let info = snake_info();
    assert_eq!(info.apiversion, "1");
    assert_eq!(info.author, "ouroboros");
    assert_eq!(info.color, "#e63946");
    assert_eq!(info.head, "evil");
    assert_eq!(info.tail, "bolt");
    assert_eq!(info.version, "1.0.0");
}

#[test]
fn wrapped_step_round_trip() {
    for &(x, y) in &[(0, 0), (10, 10), (3, 7), (10, 0)] {
        let c = Coord::new(x, y);
        for d in Direction::ALL {
            let t = c.apply_move_wrapped(d, 11, 11);
            assert!(t.in_bounds(11, 11));
            assert_eq!(t.apply_move_wrapped(d.opposite(), 11, 11), c);
            let plain = c.apply_move(d);
            if plain.in_bounds(11, 11) {
                assert_eq!(t, plain);
            }
        }
    }
    assert_eq!(Coord::new(0, 0).apply_move_wrapped(Direction::Left, 11, 11), Coord::new(10, 0));
}
