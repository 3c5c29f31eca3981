use vstd::prelude::*;
use crate::chess::board::{
    beyond, between, col_of, decode_position, encode_position, king_step, lemma_round_trip,
    lemma_square_of_parts, on_board, row_of, Pos, MAX_BOARD_POS, MIN_BOARD_POS,
};
use crate::chess::position::{Color, State};
use crate::seqs::{lemma_concat_disjoint, lemma_contains_push};

verus! {

/// Squares that one king step leads to, on the board, from `from`, in the
/// order of their column offset and then their row offset.
fn king_step_targets(from: Pos) -> (r: Vec<Pos>)
    requires
        on_board(from as int),
    ensures
        forall|q: Pos| #[trigger]
            r@.contains(q) <==> (on_board(q as int) && king_step(from as int, q as int)),
        r@.no_duplicates(),
{
    let (col, row) = decode_position(from);
    let mut res: Vec<Pos> = Vec::new();
    let mut dc: Pos = -1;
    while dc <= 1
        invariant
            -1 <= dc <= 2,
            col as int == col_of(from as int),
            row as int == row_of(from as int),
            on_board(from as int),
            forall|q: Pos| #[trigger]
                res@.contains(q) <==> (on_board(q as int) && king_step(from as int, q as int)
                    && col_of(q as int) - col < dc),
            forall|k: int|
                0 <= k < res.len() ==> on_board(res@[k] as int) && col_of(res@[k] as int) - col
                    < dc,
            res@.no_duplicates(),
        decreases 2 - dc,
    {
        let mut dr: Pos = -1;
        while dr <= 1
            invariant
                -1 <= dc <= 1,
                -1 <= dr <= 2,
                col as int == col_of(from as int),
                row as int == row_of(from as int),
                on_board(from as int),
                forall|q: Pos| #[trigger]
                    res@.contains(q) <==> (on_board(q as int) && king_step(from as int, q as int)
                        && (col_of(q as int) - col < dc || (col_of(q as int) - col == dc
                        && row_of(q as int) - row < dr))),
                forall|k: int|
                    0 <= k < res.len() ==> on_board(res@[k] as int) && (col_of(res@[k] as int)
                        - col < dc || (col_of(res@[k] as int) - col == dc && row_of(
                        res@[k] as int,
                    ) - row < dr)),
                res@.no_duplicates(),
            decreases 2 - dr,
        {
            let nc = col + dc;
            let nr = row + dr;
            if !(dc == 0 && dr == 0) && MIN_BOARD_POS <= nc && nc <= MAX_BOARD_POS
                && MIN_BOARD_POS <= nr && nr <= MAX_BOARD_POS {
                let q = encode_position(nc, nr);
                proof {
                    lemma_round_trip(nc as int, nr as int);
                    lemma_square_of_parts(from as int);
                    lemma_contains_push(res@, q);
                    assert forall|p: Pos|
                        on_board(p as int) && col_of(p as int) == nc && row_of(p as int)
                            == nr implies p == q by {
                        lemma_square_of_parts(p as int);
                    }
                    assert(!res@.contains(q));
                }
                res.push(q);
            } else {
                proof {
                    assert forall|p: Pos|
                        on_board(p as int) && col_of(p as int) == nc && row_of(p as int)
                            == nr implies !king_step(from as int, p as int) by {
                        lemma_square_of_parts(p as int);
                        lemma_square_of_parts(from as int);
                    }
                }
            }
            dr = dr + 1;
        }
        dc = dc + 1;
    }
    res
}

/// Narrows the range `lo..=hi` of a sliding piece at `at` so that it stops one
/// square short of a piece at `other` on the same line.
fn clip_range(lo: Pos, hi: Pos, at: Pos, other: Pos) -> (r: (Pos, Pos))
    requires
        0 <= lo <= at <= hi <= 7,
        0 <= other <= 7,
        other != at,
    ensures
        0 <= r.0 <= at <= r.1 <= 7,
        forall|x: int| #[trigger]
            between(r.0 as int, r.1 as int, x) <==> (between(lo as int, hi as int, x) && !beyond(
                at as int,
                x,
                other as int,
            )),
{
    if at < other {
        let top = if hi < other - 1 {
            hi
        } else {
            other - 1
        };
        (lo, top)
    } else {
        let bottom = if lo > other + 1 {
            lo
        } else {
            other + 1
        };
        (bottom, hi)
    }
}

impl State {
    /// Moves of the black king, in the order of the king's step offsets.
    pub fn black_king_moves(&self) -> (r: Vec<State>)
        requires
            self.well_formed(),
            self.turn == Color::Black,
        ensures
            forall|t: State| #[trigger] r@.contains(t) <==> self.black_king_move(t),
            r@.no_duplicates(),
    {
        let targets = king_step_targets(self.black_king_pos);
        let (rook_col, rook_row) = decode_position(self.white_rook_pos);
        let (white_king_col, white_king_row) = decode_position(self.white_king_pos);
        let mut res: Vec<State> = Vec::new();
        let mut i: usize = 0;
        while i < targets.len()
            invariant
                i <= targets.len(),
                self.well_formed(),
                self.turn == Color::Black,
                rook_col as int == col_of(self.rook()),
                rook_row as int == row_of(self.rook()),
                white_king_col as int == col_of(self.wk()),
                white_king_row as int == row_of(self.wk()),
                forall|q: Pos| #[trigger]
                    targets@.contains(q) <==> (on_board(q as int) && king_step(self.bk(), q as int)),
                targets@.no_duplicates(),
                forall|t: State| #[trigger]
                    res@.contains(t) <==> (self.black_king_move(t) && exists|j: int|
                        0 <= j < i && targets@[j] == t.black_king_pos),
                forall|k: int|
                    0 <= k < res.len() ==> exists|j: int|
                        0 <= j < i && targets@[j] == #[trigger] res@[k].black_king_pos,
                res@.no_duplicates(),
            decreases targets.len() - i,
        {
            let q = targets[i];
            assert(targets@.contains(q));
            let (new_col, new_row) = decode_position(q);
            let king_guard = -2 < new_col - white_king_col && new_col - white_king_col < 2 && -2
                < new_row - white_king_row && new_row - white_king_row < 2;
            let rook_guard = new_col == rook_col || new_row == rook_row;
            let ghost old_res = res@;
            if !king_guard && !rook_guard {
                let t = State::new(
                    self.white_king_pos,
                    self.white_rook_pos,
                    q,
                    self.turn.flip(),
                );
                proof {
                    lemma_contains_push(res@, t);
                    if res@.contains(t) {
                        let k = choose|k: int| 0 <= k < res.len() && res@[k] == t;
                        let j = choose|j: int|
                            0 <= j < i && targets@[j] == #[trigger] res@[k].black_king_pos;
                        assert(targets@[j] == targets@[i as int]);
                    }
                }
                res.push(t);
                proof {
                    assert forall|k: int| 0 <= k < res.len() implies exists|j: int|
                        0 <= j < i + 1 && targets@[j] == #[trigger] res@[k].black_king_pos by {
                        if k < old_res.len() {
                            assert(res@[k] == old_res[k]);
                        } else {
                            assert(targets@[i as int] == res@[k].black_king_pos);
                        }
                    }
                }
            }
            i = i + 1;
        }
        proof {
            assert forall|t: State| self.black_king_move(t) implies exists|j: int|
                0 <= j < i && targets@[j] == t.black_king_pos by {
                assert(targets@.contains(t.black_king_pos));
            }
        }
        res
    }


    /// Moves of the white king, in the order of the king's step offsets.
    pub fn white_king_moves(&self) -> (r: Vec<State>)
        requires
            self.well_formed(),
            self.turn == Color::White,
        ensures
            forall|t: State| #[trigger] r@.contains(t) <==> self.white_king_move(t),
            r@.no_duplicates(),
    {
        let targets = king_step_targets(self.white_king_pos);
        let (black_king_col, black_king_row) = decode_position(self.black_king_pos);
        let mut res: Vec<State> = Vec::new();
        let mut i: usize = 0;
        while i < targets.len()
            invariant
                i <= targets.len(),
                self.well_formed(),
                self.turn == Color::White,
                black_king_col as int == col_of(self.bk()),
                black_king_row as int == row_of(self.bk()),
                forall|q: Pos| #[trigger]
                    targets@.contains(q) <==> (on_board(q as int) && king_step(self.wk(), q as int)),
                targets@.no_duplicates(),
                forall|t: State| #[trigger]
                    res@.contains(t) <==> (self.white_king_move(t) && exists|j: int|
                        0 <= j < i && targets@[j] == t.white_king_pos),
                forall|k: int|
                    0 <= k < res.len() ==> exists|j: int|
                        0 <= j < i && targets@[j] == #[trigger] res@[k].white_king_pos,
                res@.no_duplicates(),
            decreases targets.len() - i,
        {
            let q = targets[i];
            assert(targets@.contains(q));
            let (new_col, new_row) = decode_position(q);
            let king_guard = -2 < new_col - black_king_col && new_col - black_king_col < 2 && -2
                < new_row - black_king_row && new_row - black_king_row < 2;
            let ghost old_res = res@;
            if !king_guard && q != self.white_rook_pos {
                let t = State::new(q, self.white_rook_pos, self.black_king_pos, self.turn.flip());
                proof {
                    lemma_contains_push(res@, t);
                    if res@.contains(t) {
                        let k = choose|k: int| 0 <= k < res.len() && res@[k] == t;
                        let j = choose|j: int|
                            0 <= j < i && targets@[j] == #[trigger] res@[k].white_king_pos;
                        assert(targets@[j] == targets@[i as int]);
                    }
                }
                res.push(t);
                proof {
                    assert forall|k: int| 0 <= k < res.len() implies exists|j: int|
                        0 <= j < i + 1 && targets@[j] == #[trigger] res@[k].white_king_pos by {
                        if k < old_res.len() {
                            assert(res@[k] == old_res[k]);
                        } else {
                            assert(targets@[i as int] == res@[k].white_king_pos);
                        }
                    }
                }
            }
            i = i + 1;
        }
        proof {
            assert forall|t: State| self.white_king_move(t) implies exists|j: int|
                0 <= j < i && targets@[j] == t.white_king_pos by {
                assert(targets@.contains(t.white_king_pos));
            }
        }
        res
    }

    /// Moves of the rook: first along its row from left to right, then along
    /// its column from bottom to top.
    pub fn rook_moves(&self) -> (r: Vec<State>)
        requires
            self.well_formed(),
            self.turn == Color::White,
        ensures
            forall|t: State| #[trigger] r@.contains(t) <==> self.rook_move(t),
            r@.no_duplicates(),
    {
        let (rook_col, rook_row) = decode_position(self.white_rook_pos);
        let (white_king_col, white_king_row) = decode_position(self.white_king_pos);
        let (black_king_col, black_king_row) = decode_position(self.black_king_pos);
        proof {
            lemma_square_of_parts(self.rook());
            lemma_square_of_parts(self.wk());
            lemma_square_of_parts(self.bk());
        }
        let mut left_range = MIN_BOARD_POS;
        let mut right_range = MAX_BOARD_POS;
        let mut bottom_range = MIN_BOARD_POS;
        let mut top_range = MAX_BOARD_POS;
        if black_king_row == rook_row {
            let (l, h) = clip_range(left_range, right_range, rook_col, black_king_col);
            left_range = l;
            right_range = h;
        }
        if black_king_col == rook_col {
            let (l, h) = clip_range(bottom_range, top_range, rook_row, black_king_row);
            bottom_range = l;
            top_range = h;
        }
        if white_king_row == rook_row {
            let (l, h) = clip_range(left_range, right_range, rook_col, white_king_col);
            left_range = l;
            right_range = h;
        }
        if white_king_col == rook_col {
            let (l, h) = clip_range(bottom_range, top_range, rook_row, white_king_row);
            bottom_range = l;
            top_range = h;
        }
        assert(forall|x: int| #[trigger]
            between(left_range as int, right_range as int, x) <==> self.row_clear(x));
        assert(forall|x: int| #[trigger]
            between(bottom_range as int, top_range as int, x) <==> self.col_clear(x));
        assert forall|t: State| #[trigger]
            self.rook_move(t) && row_of(t.rook()) == rook_row implies between(
            left_range as int,
            right_range as int,
            col_of(t.rook()),
        ) by {
            lemma_square_of_parts(t.rook());
            assert(self.row_clear(col_of(t.rook())));
        }
        assert forall|t: State| #[trigger]
            self.rook_move(t) && row_of(t.rook()) != rook_row implies col_of(t.rook()) == rook_col
            && between(bottom_range as int, top_range as int, row_of(t.rook())) by {
            lemma_square_of_parts(t.rook());
            assert(self.col_clear(row_of(t.rook())));
        }
        let mut res: Vec<State> = Vec::new();
        let mut col: Pos = left_range;
        while col <= right_range
            invariant
                0 <= left_range <= rook_col <= right_range <= 7,
                left_range <= col <= right_range + 1,
                self.well_formed(),
                self.turn == Color::White,
                rook_col as int == col_of(self.rook()),
                rook_row as int == row_of(self.rook()),
                black_king_col as int == col_of(self.bk()),
                black_king_row as int == row_of(self.bk()),
                forall|x: int| #[trigger]
                    between(left_range as int, right_range as int, x) <==> self.row_clear(x),
                white_king_row as int == row_of(self.wk()),
                white_king_col as int == col_of(self.wk()),
                forall|t: State| #[trigger]
                    res@.contains(t) <==> (self.rook_move(t) && row_of(t.rook()) == rook_row
                        && col_of(t.rook()) < col),
                forall|k: int|
                    0 <= k < res.len() ==> #[trigger] row_of(res@[k].rook()) == rook_row && col_of(
                        res@[k].rook(),
                    ) < col,
                res@.no_duplicates(),
                forall|t: State| #[trigger]
                    self.rook_move(t) && row_of(t.rook()) == rook_row ==> between(
                        left_range as int,
                        right_range as int,
                        col_of(t.rook()),
                    ),
            decreases right_range + 1 - col,
        {
            assert(between(left_range as int, right_range as int, col as int));
            assert(self.row_clear(col as int));
            let near_black = -2 < col - black_king_col && col - black_king_col < 2 && -2
                < rook_row - black_king_row && rook_row - black_king_row < 2;
            if col != rook_col && !near_black {
                let q = encode_position(col, rook_row);
                let t = State::new(self.white_king_pos, q, self.black_king_pos, self.turn.flip());
                proof {
                    lemma_round_trip(col as int, rook_row as int);
                    lemma_contains_push(res@, t);
                    assert forall|p: Pos|
                        on_board(p as int) && col_of(p as int) == col && row_of(p as int)
                            == rook_row implies p == q by {
                        lemma_square_of_parts(p as int);
                    }
                    assert(!res@.contains(t));
                }
                res.push(t);
            } else {
                proof {
                    assert forall|p: Pos|
                        on_board(p as int) && col_of(p as int) == col && row_of(p as int)
                            == rook_row && col == rook_col implies p == self.white_rook_pos by {
                        lemma_square_of_parts(p as int);
                    }
                }
            }
            col = col + 1;
        }
        let ghost horizontal = res@;
        let mut row: Pos = bottom_range;
        while row <= top_range
            invariant
                0 <= bottom_range <= rook_row <= top_range <= 7,
                bottom_range <= row <= top_range + 1,
                self.well_formed(),
                self.turn == Color::White,
                rook_col as int == col_of(self.rook()),
                rook_row as int == row_of(self.rook()),
                black_king_col as int == col_of(self.bk()),
                black_king_row as int == row_of(self.bk()),
                forall|x: int| #[trigger]
                    between(bottom_range as int, top_range as int, x) <==> self.col_clear(x),
                white_king_row as int == row_of(self.wk()),
                white_king_col as int == col_of(self.wk()),
                forall|t: State|
                    #![trigger horizontal.contains(t)]
                    horizontal.contains(t) ==> row_of(t.rook()) == rook_row,
                forall|t: State| #[trigger]
                    res@.contains(t) <==> (self.rook_move(t) && (row_of(t.rook()) == rook_row || (
                    col_of(t.rook()) == rook_col && row_of(t.rook()) < row))),
                forall|k: int|
                    0 <= k < res.len() ==> #[trigger] row_of(res@[k].rook()) == rook_row || (col_of(
                        res@[k].rook(),
                    ) == rook_col && row_of(res@[k].rook()) < row),
                res@.no_duplicates(),
                forall|t: State| #[trigger]
                    self.rook_move(t) && row_of(t.rook()) != rook_row ==> col_of(t.rook())
                        == rook_col && between(
                        bottom_range as int,
                        top_range as int,
                        row_of(t.rook()),
                    ),
            decreases top_range + 1 - row,
        {
            assert(between(bottom_range as int, top_range as int, row as int));
            assert(self.col_clear(row as int));
            let near_black = -2 < rook_col - black_king_col && rook_col - black_king_col < 2 && -2
                < row - black_king_row && row - black_king_row < 2;
            if row != rook_row && !near_black {
                let q = encode_position(rook_col, row);
                let t = State::new(self.white_king_pos, q, self.black_king_pos, self.turn.flip());
                proof {
                    lemma_round_trip(rook_col as int, row as int);
                    lemma_contains_push(res@, t);
                    assert forall|p: Pos|
                        on_board(p as int) && col_of(p as int) == rook_col && row_of(p as int)
                            == row implies p == q by {
                        lemma_square_of_parts(p as int);
                    }
                    assert(!res@.contains(t));
                }
                res.push(t);
            } else {
                proof {
                    assert forall|p: Pos|
                        on_board(p as int) && col_of(p as int) == rook_col && row_of(p as int)
                            == row && row == rook_row implies p == self.white_rook_pos by {
                        lemma_square_of_parts(p as int);
                    }
                }
            }
            row = row + 1;
        }
        res
    }

    /// All positions reached by one legal move of the side to move.
    pub fn substates(&self) -> (r: Vec<State>)
        requires
            self.well_formed(),
        ensures
            forall|t: State| #[trigger] r@.contains(t) <==> self.is_successor(t),
            r@.no_duplicates(),
    {
        match self.turn {
            Color::Black => self.black_king_moves(),
            Color::White => {
                let mut king_moves = self.white_king_moves();
                let mut rook_moves = self.rook_moves();
                proof {
                    lemma_concat_disjoint(king_moves@, rook_moves@);
                }
                king_moves.append(&mut rook_moves);
                king_moves
            },
        }
    }
}

} // verus!
