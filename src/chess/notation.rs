use vstd::prelude::*;
use crate::chess::board::{
    col_of, decode_position, encode_position, lemma_square_of_parts, on_board, row_of, square,
    Pos,
};
use crate::chess::position::{Color, State};
use crate::text::{
    is_space, lemma_scan_append_space, lemma_scan_append_word, scan_words, split_words, words,
};
use vstd::string::StringSliceAdditionalSpecFns;

verus! {

/// Why a textual position was refused.
#[derive(Debug, Clone, Copy, PartialEq, Eq, Structural)]
pub enum ParseError {
    /// Fewer than four words, the side and three squares.
    WrongTokenCount,
    /// A square word that is not a file letter `a`-`h` (either case) and a
    /// rank digit `1`-`8`.
    BadSquare,
    /// A side word other than `white` or `black`.
    BadSide,
}

/// The side that a word names.
pub open spec fn side_of(w: Seq<u8>) -> Option<Color> {
    if w == seq![119u8, 104u8, 105u8, 116u8, 101u8] {
        Some(Color::White)
    } else if w == seq![98u8, 108u8, 97u8, 99u8, 107u8] {
        Some(Color::Black)
    } else {
        None
    }
}

/// The column that a file letter names, in either case.
pub open spec fn file_of(c: u8) -> Option<int> {
    if 97 <= c <= 104 {
        Some(c - 97)
    } else if 65 <= c <= 72 {
        Some(c - 65)
    } else {
        None
    }
}

/// The packed square that a word such as `c4` names.
pub open spec fn square_of_word(w: Seq<u8>) -> Option<int> {
    if w.len() == 2 && file_of(w[0]).is_some() && 49 <= w[1] <= 56 {
        Some(square(file_of(w[0]).unwrap(), w[1] - 49))
    } else {
        None
    }
}

/// The position that the text `<side> <white king> <white rook> <black king>`
/// describes; words after the fourth are not read.
pub open spec fn position_of_text(b: Seq<u8>) -> Result<State, ParseError> {
    let t = words(b);
    if t.len() == 0 {
        Err(ParseError::WrongTokenCount)
    } else if exists|k: int| 1 <= k < t.len() && k < 4 && (#[trigger] square_of_word(t[k])).is_none() {
        Err(ParseError::BadSquare)
    } else if t.len() < 4 {
        Err(ParseError::WrongTokenCount)
    } else if side_of(t[0]).is_none() {
        Err(ParseError::BadSide)
    } else {
        Ok(
            State {
                black_king_pos: square_of_word(t[3]).unwrap() as i8,
                white_king_pos: square_of_word(t[1]).unwrap() as i8,
                white_rook_pos: square_of_word(t[2]).unwrap() as i8,
                turn: side_of(t[0]).unwrap(),
            },
        )
    }
}

fn side_from_word(w: &Vec<u8>) -> (r: Option<Color>)
    ensures
        r == side_of(w@),
{
    if w.len() == 5 && w[0] == 119u8 && w[1] == 104u8 && w[2] == 105u8 && w[3] == 116u8 && w[4]
        == 101u8 {
        assert(w@ =~= seq![119u8, 104u8, 105u8, 116u8, 101u8]);
        Some(Color::White)
    } else if w.len() == 5 && w[0] == 98u8 && w[1] == 108u8 && w[2] == 97u8 && w[3] == 99u8
        && w[4] == 107u8 {
        assert(w@ =~= seq![98u8, 108u8, 97u8, 99u8, 107u8]);
        Some(Color::Black)
    } else {
        None
    }
}

fn square_from_word(w: &Vec<u8>) -> (r: Option<Pos>)
    ensures
        match square_of_word(w@) {
            Some(q) => r == Some(q as i8) && on_board(q),
            None => r.is_none(),
        },
{
    if w.len() != 2 {
        return None;
    }
    let f = w[0];
    let rank = w[1];
    if !(49 <= rank && rank <= 56) {
        return None;
    }
    let col: Pos = if 97 <= f && f <= 104 {
        (f - 97) as i8
    } else if 65 <= f && f <= 72 {
        (f - 65) as i8
    } else {
        return None;
    };
    Some(encode_position(col, (rank - 49) as i8))
}

/// The word of a side: `white` or `black`.
pub open spec fn side_word(c: Color) -> Seq<u8> {
    match c {
        Color::White => seq![119u8, 104u8, 105u8, 116u8, 101u8],
        Color::Black => seq![98u8, 108u8, 97u8, 99u8, 107u8],
    }
}

/// The word of a packed square: its file letter and rank digit, as in `c4`.
pub open spec fn square_word(p: int) -> Seq<u8> {
    seq![(col_of(p) + 97) as u8, (row_of(p) + 49) as u8]
}

/// The text of a position: the side, then the squares of the white king, the
/// white rook and the black king, separated by single spaces.
pub open spec fn text_of(s: State) -> Seq<u8> {
    side_word(s.turn) + seq![32u8] + square_word(s.wk()) + seq![32u8] + square_word(s.rook())
        + seq![32u8] + square_word(s.bk())
}

/// Reading the text of a well-formed position gives the position back.
pub proof fn lemma_text_round_trip(s: State)
    requires
        s.well_formed(),
    ensures
        position_of_text(text_of(s)) == Ok::<State, ParseError>(s),
{
    let a = side_word(s.turn);
    let b = square_word(s.wk());
    let c = square_word(s.rook());
    let d = square_word(s.bk());
    let sp = seq![32u8];
    lemma_square_of_parts(s.wk());
    lemma_square_of_parts(s.rook());
    lemma_square_of_parts(s.bk());
    assert(forall|i: int| 0 <= i < a.len() ==> !is_space(#[trigger] a[i]));
    assert(forall|i: int| 0 <= i < b.len() ==> !is_space(#[trigger] b[i]));
    assert(forall|i: int| 0 <= i < c.len() ==> !is_space(#[trigger] c[i]));
    assert(forall|i: int| 0 <= i < d.len() ==> !is_space(#[trigger] d[i]));
    let e = Seq::<u8>::empty();
    assert(scan_words(e).1.len() == 0);
    lemma_scan_append_word(e, a);
    assert(e + a =~= a);
    lemma_scan_append_space(a);
    lemma_scan_append_word(a + sp, b);
    lemma_scan_append_space(a + sp + b);
    lemma_scan_append_word(a + sp + b + sp, c);
    lemma_scan_append_space(a + sp + b + sp + c);
    lemma_scan_append_word(a + sp + b + sp + c + sp, d);
    assert(text_of(s) == a + sp + b + sp + c + sp + d);
    let t = words(text_of(s));
    assert(t =~= seq![a, b, c, d]);
    assert(square_of_word(b) == Some(s.wk()));
    assert(square_of_word(c) == Some(s.rook()));
    assert(square_of_word(d) == Some(s.bk()));
    assert(side_of(a) == Some(s.turn));
    assert(!exists|k: int| 1 <= k < t.len() && k < 4 && (#[trigger] square_of_word(t[k])).is_none());
}

fn push_square(out: &mut Vec<u8>, position: Pos)
    requires
        on_board(position as int),
    ensures
        final(out)@ == old(out)@ + square_word(position as int),
{
    let (col, row) = decode_position(position);
    out.push((col + 97) as u8);
    out.push((row + 49) as u8);
    assert(final(out)@ =~= old(out)@ + square_word(position as int));
}

/// Reads a position from its text.
pub fn parse_position(b: &[u8]) -> (r: Result<State, ParseError>)
    ensures
        r == position_of_text(b@),
{
    let t = split_words(b);
    if t.len() == 0 {
        return Err(ParseError::WrongTokenCount);
    }
    let mut squares: Vec<Pos> = Vec::new();
    let mut k: usize = 1;
    while k < t.len() && k < 4
        invariant
            1 <= k <= 4,
            k <= t.len(),
            t@.len() == words(b@).len(),
            forall|m: int| 0 <= m < t@.len() ==> #[trigger] t@[m]@ == words(b@)[m],
            squares.len() == k - 1,
            forall|m: int|
                1 <= m < k ==> (#[trigger] square_of_word(words(b@)[m])).is_some()
                    && squares@[m - 1] == square_of_word(words(b@)[m]).unwrap() as i8,
        decreases 4 - k,
    {
        assert(t@[k as int]@ == words(b@)[k as int]);
        match square_from_word(&t[k]) {
            Some(q) => {
                squares.push(q);
            },
            None => {
                return Err(ParseError::BadSquare);
            },
        }
        k = k + 1;
    }
    if t.len() < 4 {
        return Err(ParseError::WrongTokenCount);
    }
    assert(t@[0]@ == words(b@)[0]);
    match side_from_word(&t[0]) {
        Some(turn) => Ok(State::new(squares[0], squares[1], squares[2], turn)),
        None => Err(ParseError::BadSide),
    }
}

impl State {
    /// Reads a position from text such as `white c4 g4 e4`: the side to move,
    /// then the squares of the white king, the white rook and the black king.
    pub fn from_text(text: &str) -> (r: Result<State, ParseError>)
        ensures
            r == position_of_text(text.spec_bytes()),
    {
        parse_position(text.as_bytes())
    }

    /// Writes this position as text, in the form that `from_text` reads.
    pub fn to_text(&self) -> (r: Vec<u8>)
        requires
            self.well_formed(),
        ensures
            r@ == text_of(*self),
    {
        let mut out: Vec<u8> = Vec::new();
        match self.turn {
            Color::White => {
                out.push(119u8);
                out.push(104u8);
                out.push(105u8);
                out.push(116u8);
                out.push(101u8);
            },
            Color::Black => {
                out.push(98u8);
                out.push(108u8);
                out.push(97u8);
                out.push(99u8);
                out.push(107u8);
            },
        }
        assert(out@ =~= side_word(self.turn));
        out.push(32u8);
        push_square(&mut out, self.white_king_pos);
        out.push(32u8);
        push_square(&mut out, self.white_rook_pos);
        out.push(32u8);
        push_square(&mut out, self.black_king_pos);
        assert(out@ =~= text_of(*self));
        out
    }
}

} // verus!
