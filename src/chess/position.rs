use vstd::prelude::*;
use crate::chess::board::{
    between, beyond, col_of, decode_position, in_bounds, king_step, lemma_square_of_parts, near_sq,
    on_board, rook_path_hits, row_of, Pos, MAX_BOARD_POS, MIN_BOARD_POS,
};

verus! {

/// The side to move.
#[derive(Debug, Hash, Eq, PartialEq, Structural, Copy, Clone)]
pub enum Color {
    Black,
    White,
}

impl Color {
    pub open spec fn spec_flip(self) -> Color {
        match self {
            Color::Black => Color::White,
            Color::White => Color::Black,
        }
    }

    pub fn flip(&self) -> (r: Color)
        ensures
            r == self.spec_flip(),
    {
        match self {
            Color::Black => Color::White,
            Color::White => Color::Black,
        }
    }
}

/// Flipping the side twice gives the side back.
pub proof fn lemma_flip_involution(c: Color)
    ensures
        c.spec_flip().spec_flip() == c,
{
}

/// A position: the three pieces' packed squares and the side to move.
#[derive(Debug, Hash, Eq, PartialEq, Structural, Copy, Clone)]
pub struct State {
    pub black_king_pos: Pos,
    pub white_king_pos: Pos,
    pub white_rook_pos: Pos,
    pub turn: Color,
}

impl State {
    pub open spec fn bk(self) -> int {
        self.black_king_pos as int
    }

    pub open spec fn wk(self) -> int {
        self.white_king_pos as int
    }

    pub open spec fn rook(self) -> int {
        self.white_rook_pos as int
    }

    /// All pieces stand on the board, each on a square of its own.
    pub open spec fn well_formed(self) -> bool {
        on_board(self.bk()) && on_board(self.wk()) && on_board(self.rook()) && self.bk()
            != self.wk() && self.bk() != self.rook() && self.wk() != self.rook()
    }

    /// The black king touches the white king or shares a line with the rook.
    pub open spec fn black_in_check(self) -> bool {
        near_sq(self.bk(), self.wk()) || col_of(self.bk()) == col_of(self.rook()) || row_of(
            self.bk(),
        ) == row_of(self.rook())
    }

    /// `t` follows from a legal step of the black king.
    pub open spec fn black_king_move(self, t: State) -> bool {
        &&& self.turn == Color::Black
        &&& t.turn == Color::White
        &&& t.wk() == self.wk()
        &&& t.rook() == self.rook()
        &&& on_board(t.bk())
        &&& king_step(self.bk(), t.bk())
        &&& !near_sq(t.bk(), self.wk())
        &&& col_of(t.bk()) != col_of(self.rook())
        &&& row_of(t.bk()) != row_of(self.rook())
    }

    /// `t` follows from a legal step of the white king.
    pub open spec fn white_king_move(self, t: State) -> bool {
        &&& self.turn == Color::White
        &&& t.turn == Color::Black
        &&& t.bk() == self.bk()
        &&& t.rook() == self.rook()
        &&& on_board(t.wk())
        &&& king_step(self.wk(), t.wk())
        &&& !near_sq(t.wk(), self.bk())
        &&& t.wk() != self.rook()
    }

    /// `t` follows from a legal move of the rook along its row or column: it
    /// passes through no piece, lands on none and does not end next to the
    /// black king.
    pub open spec fn rook_move(self, t: State) -> bool {
        &&& self.turn == Color::White
        &&& t.turn == Color::Black
        &&& t.bk() == self.bk()
        &&& t.wk() == self.wk()
        &&& on_board(t.rook())
        &&& t.rook() != self.rook()
        &&& (col_of(t.rook()) == col_of(self.rook()) || row_of(t.rook()) == row_of(self.rook()))
        &&& !rook_path_hits(self.rook(), t.rook(), self.bk())
        &&& !rook_path_hits(self.rook(), t.rook(), self.wk())
        &&& !near_sq(t.rook(), self.bk())
    }

    /// Column `x` of the rook's row can be reached without passing a king.
    pub open spec fn row_clear(self, x: int) -> bool {
        between(0, 7, x) && !(row_of(self.bk()) == row_of(self.rook()) && beyond(
            col_of(self.rook()),
            x,
            col_of(self.bk()),
        )) && !(row_of(self.wk()) == row_of(self.rook()) && beyond(
            col_of(self.rook()),
            x,
            col_of(self.wk()),
        ))
    }

    /// Row `x` of the rook's column can be reached without passing a king.
    pub open spec fn col_clear(self, x: int) -> bool {
        between(0, 7, x) && !(col_of(self.bk()) == col_of(self.rook()) && beyond(
            row_of(self.rook()),
            x,
            row_of(self.bk()),
        )) && !(col_of(self.wk()) == col_of(self.rook()) && beyond(
            row_of(self.rook()),
            x,
            row_of(self.wk()),
        ))
    }

    /// `t` is reached from this position by one legal move of the side to move.
    pub open spec fn is_successor(self, t: State) -> bool {
        self.black_king_move(t) || self.white_king_move(t) || self.rook_move(t)
    }

    /// The black king is in check and the side to move has no legal move.
    pub open spec fn is_mate(self) -> bool {
        self.black_in_check() && forall|t: State| !#[trigger] self.is_successor(t)
    }

    pub fn new(white_king_pos: Pos, white_rook_pos: Pos, black_king_pos: Pos, turn: Color) -> (r:
        Self)
        ensures
            r.white_king_pos == white_king_pos,
            r.white_rook_pos == white_rook_pos,
            r.black_king_pos == black_king_pos,
            r.turn == turn,
    {
        Self { black_king_pos, white_king_pos, white_rook_pos, turn }
    }

    /// Checks that the pieces stand on the board, each on a square of its own.
    pub fn is_well_formed(&self) -> (r: bool)
        ensures
            r == self.well_formed(),
    {
        0 <= self.black_king_pos && self.black_king_pos < 64 && 0 <= self.white_king_pos
            && self.white_king_pos < 64 && 0 <= self.white_rook_pos && self.white_rook_pos < 64
            && self.black_king_pos != self.white_king_pos && self.black_king_pos
            != self.white_rook_pos && self.white_king_pos != self.white_rook_pos
    }

    /// Checks if the given coordinates lie on the board.
    pub fn is_position_within_bounds(&self, col: Pos, row: Pos) -> (r: bool)
        ensures
            r == in_bounds(col as int, row as int),
    {
        MIN_BOARD_POS <= col && col <= MAX_BOARD_POS && MIN_BOARD_POS <= row && row
            <= MAX_BOARD_POS
    }

    /// Checks if this position is a checkmate, given how many legal moves it has.
    pub fn is_checkmate(&self, possible_moves: usize) -> (r: bool)
        requires
            self.well_formed(),
        ensures
            r == (self.black_in_check() && possible_moves == 0),
    {
        let (black_king_col, black_king_row) = decode_position(self.black_king_pos);
        let (white_king_col, white_king_row) = decode_position(self.white_king_pos);
        let (rook_col, rook_row) = decode_position(self.white_rook_pos);
        let king_check = -2 < black_king_col - white_king_col && black_king_col - white_king_col
            < 2 && -2 < black_king_row - white_king_row && black_king_row - white_king_row < 2;
        let rook_check = black_king_col == rook_col || black_king_row == rook_row;
        (king_check || rook_check) && possible_moves == 0
    }
}

/// A king move never ends with the two kings next to each other.
pub proof fn lemma_king_moves_keep_kings_apart(s: State, t: State)
    requires
        s.is_successor(t),
    ensures
        s.black_king_move(t) ==> !near_sq(t.bk(), t.wk()),
        s.white_king_move(t) ==> !near_sq(t.wk(), t.bk()),
{
}

/// A rook move neither passes through nor lands on a king standing on the
/// rook's row or column.
pub proof fn lemma_rook_moves_contained(s: State, t: State)
    requires
        s.well_formed(),
        s.rook_move(t),
    ensures
        !rook_path_hits(s.rook(), t.rook(), s.bk()),
        !rook_path_hits(s.rook(), t.rook(), s.wk()),
        t.rook() != s.bk(),
        t.rook() != s.wk(),
{
    lemma_square_of_parts(s.rook());
    lemma_square_of_parts(s.wk());
    lemma_square_of_parts(t.rook());
}

/// Every legal move from a well-formed position leads to a well-formed one.
pub proof fn lemma_successor_well_formed(s: State, t: State)
    requires
        s.well_formed(),
        s.is_successor(t),
    ensures
        t.well_formed(),
{
    lemma_square_of_parts(s.rook());
    lemma_square_of_parts(s.wk());
    lemma_square_of_parts(s.bk());
    lemma_square_of_parts(t.rook());
    lemma_square_of_parts(t.wk());
    lemma_square_of_parts(t.bk());
}

} // verus!
