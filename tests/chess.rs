use puzzles::chess::{
    decode_position, encode_position, Color, ParseError, State, TraversalResult,
};

fn st(text: &str) -> State {
    State::from_text(text).unwrap()
}

#[test]
fn black_king_boarder() {
    let state = st("black c4 c8 h3");
    let substates = vec![
        st("white c4 c8 g2"),
        st("white c4 c8 g3"),
        st("white c4 c8 g4"),
        st("white c4 c8 h4"),
        st("white c4 c8 h2"),
    ];
    for substate in state.substates() {
        assert!(substates.contains(&substate));
    }
    assert_eq!(state.substates().len(), substates.len());
}

#[test]
fn black_king_corner() {
    let state = st("black c4 c8 a1");
    let substates = vec![st("white c4 c8 a2"), st("white c4 c8 b1"), st("white c4 c8 b2")];
    for substate in state.substates() {
        assert!(substates.contains(&substate));
    }
    assert_eq!(state.substates().len(), substates.len());
}

#[test]
fn black_king_unobstructed() {
    let state = st("black a1 b2 f4");
    let substates = vec![
        st("white a1 b2 e3"),
        st("white a1 b2 e4"),
        st("white a1 b2 e5"),
        st("white a1 b2 f3"),
        st("white a1 b2 f5"),
        st("white a1 b2 g3"),
        st("white a1 b2 g4"),
        st("white a1 b2 g5"),
    ];
    for substate in state.substates() {
        assert!(substates.contains(&substate));
    }
    assert_eq!(state.substates().len(), substates.len());
}

#[test]
fn rook_unobstructed() {
    let state = st("white a1 e4 h8");
    let rook_substates = vec![
        // horizontal
        st("black a1 a4 h8"),
        st("black a1 b4 h8"),
        st("black a1 c4 h8"),
        st("black a1 d4 h8"),
        st("black a1 f4 h8"),
        st("black a1 g4 h8"),
        st("black a1 h4 h8"),
        // vertical
        st("black a1 e1 h8"),
        st("black a1 e2 h8"),
        st("black a1 e3 h8"),
        st("black a1 e5 h8"),
        st("black a1 e6 h8"),
        st("black a1 e7 h8"),
        st("black a1 e8 h8"),
    ];
    for state in state.rook_moves() {
        assert!(rook_substates.contains(&state));
    }
    assert_eq!(state.rook_moves().len(), rook_substates.len());
}

#[test]
fn rook_obstructed1() {
    let state = st("white c4 c8 h4");
    let rook_substates = vec![
        // horizontal
        st("black c4 a8 h4"),
        st("black c4 b8 h4"),
        st("black c4 d8 h4"),
        st("black c4 e8 h4"),
        st("black c4 f8 h4"),
        st("black c4 g8 h4"),
        st("black c4 h8 h4"),
        // vertical
        st("black c4 c5 h4"),
        st("black c4 c6 h4"),
        st("black c4 c7 h4"),
    ];
    for state in state.rook_moves() {
        assert!(rook_substates.contains(&state));
    }
    assert_eq!(state.rook_moves().len(), rook_substates.len());
}

#[test]
fn codec_round_trip_every_square() {
    for col in 0..8i8 {
        for row in 0..8i8 {
            let p = encode_position(col, row);
            assert_eq!(p, col * 8 + row);
            assert_eq!(decode_position(p), (col, row));
        }
    }
}

#[test]
fn flip_twice_is_identity() {
    assert_eq!(Color::White.flip(), Color::Black);
    assert_eq!(Color::Black.flip(), Color::White);
    assert_eq!(Color::White.flip().flip(), Color::White);
    assert_eq!(Color::Black.flip().flip(), Color::Black);
}

#[test]
fn king_moves_never_touch_other_king() {
    let state = st("white d4 a8 f4");
    let moves = state.white_king_moves();
    assert_eq!(moves.len(), 5);
    for t in moves {
        let (c, r) = decode_position(t.white_king_pos);
        let (bc, br) = decode_position(t.black_king_pos);
        assert!((c - bc).abs() >= 2 || (r - br).abs() >= 2);
    }
}

#[test]
fn rook_stops_before_kings() {
    // White king and black king both on the rook's row.
    let state = st("white b4 d4 h4");
    let moves = state.rook_moves();
    let cols: Vec<i8> = moves
        .iter()
        .filter(|t| decode_position(t.white_rook_pos).1 == 3)
        .map(|t| decode_position(t.white_rook_pos).0)
        .collect();
    // c4, e4, f4; g4 touches the black king on h4.
    assert_eq!(cols, vec![2, 4, 5]);
}

#[test]
fn rook_unobstructed_count() {
    // Seven squares along the row and seven along the column.
    let state = st("white a1 e4 h8");
    assert_eq!(state.rook_moves().len(), 14);
    // The white king on a1 adds a2, b1 and b2.
    assert_eq!(state.white_king_moves().len(), 3);
    assert_eq!(state.substates().len(), 17);
}

#[test]
fn corner_king_has_three_moves() {
    assert_eq!(st("black c4 c8 a1").substates().len(), 3);
}

#[test]
fn checkmate_detected() {
    let state = st("black g3 a1 h1");
    let moves = state.substates();
    assert_eq!(moves.len(), 0);
    assert!(state.is_checkmate(moves.len()));
}

#[test]
fn no_check_is_no_checkmate() {
    let state = st("black c4 c8 h3");
    assert!(!state.is_checkmate(0));
    assert!(!state.is_checkmate(state.substates().len()));
}

#[test]
fn solve_already_mate() {
    match st("black g3 a1 h1").solve() {
        TraversalResult::CheckMate(path) => assert_eq!(path.len(), 1),
        TraversalResult::Inf => panic!("expected a mate"),
    }
}

#[test]
fn solve_mate_in_one() {
    match st("white g3 a2 h1").solve() {
        TraversalResult::CheckMate(path) => {
            assert_eq!(path.len(), 2);
            assert_eq!(path[0], st("white g3 a2 h1"));
            assert!(path[1].is_checkmate(path[1].substates().len()));
        }
        TraversalResult::Inf => panic!("expected a mate"),
    }
}

#[test]
fn solve_longer_play_is_legal() {
    match st("black e4 a8 d6").solve() {
        TraversalResult::CheckMate(path) => {
            assert!(path.len() > 2);
            for w in path.windows(2) {
                assert!(w[0].substates().contains(&w[1]));
            }
            let last = path[path.len() - 1];
            assert!(last.is_checkmate(last.substates().len()));
        }
        TraversalResult::Inf => panic!("expected a mate"),
    }
}

#[test]
fn parse_position_text() {
    let s = st("white c4 g4 e4");
    assert_eq!(s.turn, Color::White);
    assert_eq!(s.white_king_pos, encode_position(2, 3));
    assert_eq!(s.white_rook_pos, encode_position(6, 3));
    assert_eq!(s.black_king_pos, encode_position(4, 3));
    assert_eq!(st("  black\tC4 c8\n h3 extra"), st("black c4 c8 h3"));
}

#[test]
fn parse_errors() {
    assert_eq!(State::from_text(""), Err(ParseError::WrongTokenCount));
    assert_eq!(State::from_text("white c4 c8"), Err(ParseError::WrongTokenCount));
    assert_eq!(State::from_text("white c4 i8 h3"), Err(ParseError::BadSquare));
    assert_eq!(State::from_text("white c4 c9 h3"), Err(ParseError::BadSquare));
    assert_eq!(State::from_text("white c44 c8"), Err(ParseError::BadSquare));
    assert_eq!(State::from_text("White c4 c8 h3"), Err(ParseError::BadSide));
}

#[test]
fn position_text_written() {
    let s = st("black C4 c8 h3");
    assert_eq!(s.to_text(), b"black c4 c8 h3".to_vec());
    let text = String::from_utf8(st("white a1 e4 h8").to_text()).unwrap();
    assert_eq!(text, "white a1 e4 h8");
    assert_eq!(st(&text), st("white a1 e4 h8"));
}

#[test]
fn well_formedness_check() {
    assert!(st("white a1 e4 h8").is_well_formed());
    assert!(!st("white a1 a1 h8").is_well_formed());
    assert!(!State::new(64, 1, 2, Color::White).is_well_formed());
}

#[test]
fn solve_stalemate_is_unbounded() {
    // Black king h8 has no move and is not in check: nothing follows.
    let state = st("black g6 g1 h8");
    assert_eq!(state.substates().len(), 0);
    assert!(!state.is_checkmate(0));
    assert!(matches!(state.solve(), TraversalResult::Inf));
}
