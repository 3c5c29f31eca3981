use puzzles::labyrinth::{Direction, Labyrinth, Position};

fn grid(text: &str) -> Vec<Vec<u8>> {
    text.lines().map(|l| l.as_bytes().to_vec()).collect()
}

#[test]
fn reverse_directions() {
    assert_eq!(Direction::Up.reverse(), Direction::Down);
    assert_eq!(Direction::Down.reverse(), Direction::Up);
    assert_eq!(Direction::Left.reverse(), Direction::Right);
    assert_eq!(Direction::Right.reverse(), Direction::Left);
    assert_eq!(Direction::Left.reverse().reverse(), Direction::Left);
}

#[test]
fn draws_select_directions() {
    assert_eq!(Direction::from_draw(0), Direction::Up);
    assert_eq!(Direction::from_draw(5), Direction::Down);
    assert_eq!(Direction::from_draw(6), Direction::Left);
    assert_eq!(Direction::from_draw(11), Direction::Right);
    let _ = Direction::pick_random();
}

#[test]
fn steps() {
    let p = Position::new(2, 3);
    assert_eq!(p.step(&Direction::Up), Position::new(2, 2));
    assert_eq!(p.step(&Direction::Down), Position::new(2, 4));
    assert_eq!(p.step(&Direction::Left), Position::new(1, 3));
    assert_eq!(p.step(&Direction::Right), Position::new(3, 3));
}

#[test]
fn labyrinth_cells() {
    let l = Labyrinth::new(grid("#####\n#S G#\n#B#S#\n#####"));
    assert!(l.is_position_valid(&Position::new(2, 1)));
    assert!(!l.is_position_valid(&Position::new(2, 2)));
    assert!(l.is_position_final(Position::new(3, 1)));
    assert!(l.is_position_final(Position::new(1, 2)));
    assert!(!l.is_position_final(Position::new(1, 1)));
}

#[test]
fn moving_positions_stops_at_walls() {
    let l = Labyrinth::new(grid("#####\n#S G#\n#B#S#\n#####"));
    let moved = l.move_all_positions(
        vec![Position::new(1, 1), Position::new(1, 2), Position::new(3, 2)],
        &Direction::Right,
    );
    assert_eq!(moved, vec![Position::new(2, 1), Position::new(1, 2), Position::new(3, 2)]);
}

#[test]
fn reducing_many_starts_stops_at_once() {
    let l = Labyrinth::new(grid("#####\n#S S#\n#B#S#\n#####"));
    assert_eq!(l.reduce_starting_positions(), Vec::<Direction>::new());
}

#[test]
fn direction_letters() {
    assert_eq!(Direction::from_text("U"), Some(Direction::Up));
    assert_eq!(Direction::from_text("D"), Some(Direction::Down));
    assert_eq!(Direction::from_text("L"), Some(Direction::Left));
    assert_eq!(Direction::from_text("R"), Some(Direction::Right));
    assert_eq!(Direction::from_text("u"), None);
    assert_eq!(Direction::from_text("UD"), None);
    assert_eq!(Direction::Up.to_char(), 'U');
    assert_eq!(Direction::Right.to_char(), 'R');
}

#[test]
fn labyrinth_from_text() {
    let l = Labyrinth::from_text("###\n#G#\n###").unwrap();
    assert!(l.is_position_final(Position::new(1, 1)));
    assert!(!l.is_position_valid(&Position::new(0, 0)));
    assert!(Labyrinth::from_text("").is_none());
}
