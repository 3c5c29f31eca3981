use vstd::prelude::*;

verus! {

/// A coordinate or a packed square. Coordinates run from 0 to 7; a square packs
/// its column into bits 3..6 and its row into bits 0..3.
pub type Pos = i8;

pub const MIN_BOARD_POS: Pos = 0;

pub const MAX_BOARD_POS: Pos = 7;

/// The packed square of column `col` and row `row`.
pub open spec fn square(col: int, row: int) -> int {
    col * 8 + row
}

/// The column stored in a packed square.
pub open spec fn col_of(p: int) -> int {
    p / 8
}

/// The row stored in a packed square.
pub open spec fn row_of(p: int) -> int {
    p % 8
}

pub open spec fn in_bounds(col: int, row: int) -> bool {
    0 <= col <= 7 && 0 <= row <= 7
}

pub open spec fn on_board(p: int) -> bool {
    0 <= p < 64
}

/// Decoding the encoding of an in-board coordinate pair gives the pair back.
pub proof fn lemma_round_trip(col: int, row: int)
    requires
        in_bounds(col, row),
    ensures
        on_board(square(col, row)),
        col_of(square(col, row)) == col,
        row_of(square(col, row)) == row,
{
}

/// Every in-board square is the encoding of its own column and row.
pub proof fn lemma_square_of_parts(p: int)
    requires
        on_board(p),
    ensures
        in_bounds(col_of(p), row_of(p)),
        square(col_of(p), row_of(p)) == p,
{
}

/// Gets a square's column and row from its packed form.
pub fn decode_position(position: Pos) -> (r: (Pos, Pos))
    requires
        on_board(position as int),
    ensures
        r.0 as int == col_of(position as int),
        r.1 as int == row_of(position as int),
        in_bounds(r.0 as int, r.1 as int),
{
    assert((position >> 3u32) == position / 8 && (position & 7) == position % 8
        && 0 <= position % 8 < 8 && 0 <= position / 8 < 8) by (bit_vector)
        requires
            0 <= position < 64,
    ;
    (position >> 3u32, position & 7)
}

/// Packs a column and a row into one square.
pub fn encode_position(col: Pos, row: Pos) -> (r: Pos)
    requires
        in_bounds(col as int, row as int),
    ensures
        r as int == square(col as int, row as int),
        on_board(r as int),
{
    assert(((col << 3u32) & 56) | (row & 7) == col * 8 + row) by (bit_vector)
        requires
            0 <= col < 8,
            0 <= row < 8,
    ;
    (col << 3u32) & 56 | row & 7
}


/// Chebyshev distance below two: the squares are equal or touch.
pub open spec fn near(c1: int, r1: int, c2: int, r2: int) -> bool {
    -2 < c1 - c2 < 2 && -2 < r1 - r2 < 2
}

/// `near` on packed squares.
pub open spec fn near_sq(a: int, b: int) -> bool {
    near(col_of(a), row_of(a), col_of(b), row_of(b))
}

/// One king step leads from square `a` to square `b`.
pub open spec fn king_step(a: int, b: int) -> bool {
    near_sq(a, b) && a != b
}

/// `x` lies in the range `lo..=hi`.
pub open spec fn between(lo: int, hi: int, x: int) -> bool {
    lo <= x <= hi
}

/// Seen from `from` towards `to` on one line, `at` lies after `from` and no
/// later than `to`.
pub open spec fn beyond(from: int, to: int, at: int) -> bool {
    (from < at && at <= to) || (to <= at && at < from)
}

/// A rook moving from `from` to `to` passes through or lands on `piece`.
pub open spec fn rook_path_hits(from: int, to: int, piece: int) -> bool {
    (row_of(to) == row_of(from) && row_of(piece) == row_of(from) && beyond(
        col_of(from),
        col_of(to),
        col_of(piece),
    )) || (col_of(to) == col_of(from) && col_of(piece) == col_of(from) && beyond(
        row_of(from),
        row_of(to),
        row_of(piece),
    ))
}

} // verus!
