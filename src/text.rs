use vstd::prelude::*;

verus! {

/// ASCII whitespace: space, tab, line feed, vertical tab, form feed, carriage
/// return.
pub open spec fn is_space(c: u8) -> bool {
    c == 32 || (9 <= c && c <= 13)
}

/// Scans bytes from the left: the words that have ended, and the word still
/// open at the end.
pub open spec fn scan_words(b: Seq<u8>) -> (Seq<Seq<u8>>, Seq<u8>)
    decreases b.len(),
{
    if b.len() == 0 {
        (seq![], seq![])
    } else {
        let (done, open) = scan_words(b.drop_last());
        if is_space(b.last()) {
            if open.len() > 0 {
                (done.push(open), seq![])
            } else {
                (done, seq![])
            }
        } else {
            (done, open.push(b.last()))
        }
    }
}

/// The maximal runs of non-whitespace bytes, from the left.
pub open spec fn words(b: Seq<u8>) -> Seq<Seq<u8>> {
    let (done, open) = scan_words(b);
    if open.len() > 0 {
        done.push(open)
    } else {
        done
    }
}

pub fn is_space_byte(c: u8) -> (r: bool)
    ensures
        r == is_space(c),
{
    c == 32 || (9 <= c && c <= 13)
}

/// Splits bytes into their whitespace-separated words.
pub fn split_words(b: &[u8]) -> (r: Vec<Vec<u8>>)
    ensures
        r@.len() == words(b@).len(),
        forall|k: int| 0 <= k < r@.len() ==> #[trigger] r@[k]@ == words(b@)[k],
{
    let mut done: Vec<Vec<u8>> = Vec::new();
    let mut open: Vec<u8> = Vec::new();
    let mut i: usize = 0;
    while i < b.len()
        invariant
            i <= b.len(),
            done@.len() == scan_words(b@.take(i as int)).0.len(),
            forall|k: int|
                0 <= k < done@.len() ==> #[trigger] done@[k]@ == scan_words(b@.take(i as int)).0[k],
            open@ == scan_words(b@.take(i as int)).1,
        decreases b.len() - i,
    {
        proof {
            assert(b@.take(i as int + 1).drop_last() =~= b@.take(i as int));
        }
        let c = b[i];
        if is_space_byte(c) {
            if open.len() > 0 {
                let ghost before = done@;
                done.push(open);
                open = Vec::new();
                proof {
                    assert forall|k: int| 0 <= k < done@.len() implies #[trigger] done@[k]@
                        == scan_words(b@.take(i as int + 1)).0[k] by {
                        if k < before.len() {
                            assert(done@[k] == before[k]);
                        }
                    }
                }
            }
        } else {
            open.push(c);
        }
        i = i + 1;
    }
    proof {
        assert(b@.take(b.len() as int) =~= b@);
    }
    if open.len() > 0 {
        let ghost before = done@;
        done.push(open);
        proof {
            assert forall|k: int| 0 <= k < done@.len() implies #[trigger] done@[k]@ == words(
                b@,
            )[k] by {
                if k < before.len() {
                    assert(done@[k] == before[k]);
                }
            }
        }
    }
    done
}

pub open spec fn is_digit(c: u8) -> bool {
    48 <= c <= 57
}

/// The value of a string of decimal digits.
pub open spec fn digits_value(w: Seq<u8>) -> int
    decreases w.len(),
{
    if w.len() == 0 {
        0
    } else {
        digits_value(w.drop_last()) * 10 + (w.last() - 48)
    }
}

/// The digits of a decimal word: what follows an optional leading `+`.
pub open spec fn unsigned_digits(w: Seq<u8>) -> Seq<u8> {
    if w.len() > 0 && w[0] == 43 {
        w.drop_first()
    } else {
        w
    }
}

/// The number that a word of decimal digits, with an optional leading `+`,
/// names, if it is at most `max`.
pub open spec fn decimal_of(w: Seq<u8>, max: int) -> Option<int> {
    let d = unsigned_digits(w);
    if d.len() > 0 && (forall|i: int| 0 <= i < d.len() ==> is_digit(#[trigger] d[i]))
        && digits_value(d) <= max {
        Some(digits_value(d))
    } else {
        None
    }
}

proof fn lemma_digits_grow(d: Seq<u8>, i: int, j: int)
    requires
        0 <= i <= j <= d.len(),
        forall|k: int| 0 <= k < d.len() ==> is_digit(#[trigger] d[k]),
    ensures
        0 <= digits_value(d.take(i)) <= digits_value(d.take(j)),
    decreases j - i,
{
    if i < j {
        lemma_digits_grow(d, i, j - 1);
        assert(d.take(j).drop_last() =~= d.take(j - 1));
        assert(is_digit(d[j - 1]));
    } else {
        lemma_digits_nonneg(d.take(i));
    }
}

proof fn lemma_digits_nonneg(d: Seq<u8>)
    requires
        forall|k: int| 0 <= k < d.len() ==> is_digit(#[trigger] d[k]),
    ensures
        digits_value(d) >= 0,
    decreases d.len(),
{
    if d.len() > 0 {
        lemma_digits_nonneg(d.drop_last());
    }
}

/// A decimal word names a number from 0 to `max`.
pub proof fn lemma_decimal_bounds(w: Seq<u8>, max: int)
    ensures
        decimal_of(w, max).is_some() ==> 0 <= decimal_of(w, max).unwrap() <= max,
{
    let d = unsigned_digits(w);
    if decimal_of(w, max).is_some() {
        lemma_digits_nonneg(d);
    }
}

/// Reads a decimal number of at most `max` from a word, as `str::parse` does
/// for unsigned integers.
pub fn parse_decimal(w: &[u8], max: usize) -> (r: Option<usize>)
    ensures
        match decimal_of(w@, max as int) {
            Some(v) => r == Some(v as usize),
            None => r.is_none(),
        },
{
    let start: usize = if w.len() > 0 && w[0] == 43u8 {
        1
    } else {
        0
    };
    let ghost d = unsigned_digits(w@);
    assert(d =~= w@.skip(start as int));
    if start >= w.len() {
        return None;
    }
    let mut value: usize = 0;
    let mut i: usize = start;
    while i < w.len()
        invariant
            start <= i <= w.len(),
            d == w@.skip(start as int),
            d == unsigned_digits(w@),
            forall|k: int| 0 <= k < i - start ==> is_digit(#[trigger] d[k]),
            value as int == digits_value(d.take(i - start)),
            value <= max,
        decreases w.len() - i,
    {
        let c = w[i];
        if c < 48u8 || c > 57u8 {
            assert(!is_digit(d[i - start]));
            assert(decimal_of(w@, max as int).is_none());
            return None;
        }
        proof {
            assert(d.take(i - start + 1).drop_last() =~= d.take(i - start));
        }
        let digit = (c - 48u8) as usize;
        if digit > max || value > (max - digit) / 10 {
            proof {
                assert(digits_value(d.take(i - start + 1)) > max) by (nonlinear_arith)
                    requires
                        digits_value(d.take(i - start + 1)) == value * 10 + digit,
                        digit > max || value > (max - digit) / 10,
                        value >= 0,
                ;
                if forall|k: int| 0 <= k < d.len() ==> is_digit(#[trigger] d[k]) {
                    lemma_digits_grow(d, i - start + 1, d.len() as int);
                    assert(d.take(d.len() as int) =~= d);
                }
                assert(decimal_of(w@, max as int).is_none());
            }
            return None;
        }
        proof {
            assert(value * 10 + digit <= max) by (nonlinear_arith)
                requires
                    value <= (max - digit) / 10,
                    digit <= max,
            ;
        }
        value = value * 10 + digit;
        i = i + 1;
    }
    proof {
        assert(d.take(d.len() as int) =~= d);
    }
    Some(value)
}

/// Scans bytes from the left: the lines that a line feed has ended, and the
/// line still open at the end.
pub open spec fn scan_lines(b: Seq<u8>) -> (Seq<Seq<u8>>, Seq<u8>)
    decreases b.len(),
{
    if b.len() == 0 {
        (seq![], seq![])
    } else {
        let (done, open) = scan_lines(b.drop_last());
        if b.last() == 10 {
            (done.push(open), seq![])
        } else {
            (done, open.push(b.last()))
        }
    }
}

/// A line without its trailing carriage return, if it has one.
pub open spec fn strip_cr(l: Seq<u8>) -> Seq<u8> {
    if l.len() > 0 && l.last() == 13 {
        l.drop_last()
    } else {
        l
    }
}

/// The lines of a text as `str::lines` gives them: split at line feeds, each
/// without a trailing carriage return, and no empty line after a final line
/// feed.
pub open spec fn lines_of(b: Seq<u8>) -> Seq<Seq<u8>> {
    let (done, open) = scan_lines(b);
    let all = if open.len() > 0 {
        done.push(open)
    } else {
        done
    };
    all.map_values(|l: Seq<u8>| strip_cr(l))
}

fn strip_cr_vec(l: Vec<u8>) -> (r: Vec<u8>)
    ensures
        r@ == strip_cr(l@),
{
    let mut l = l;
    if l.len() > 0 && l[l.len() - 1] == 13u8 {
        l.pop();
    }
    l
}

/// Splits a text into its lines.
pub fn split_lines(b: &[u8]) -> (r: Vec<Vec<u8>>)
    ensures
        r@.len() == lines_of(b@).len(),
        forall|k: int| 0 <= k < r@.len() ==> #[trigger] r@[k]@ == lines_of(b@)[k],
{
    let mut done: Vec<Vec<u8>> = Vec::new();
    let mut open: Vec<u8> = Vec::new();
    let mut i: usize = 0;
    while i < b.len()
        invariant
            i <= b.len(),
            done@.len() == scan_lines(b@.take(i as int)).0.len(),
            forall|k: int|
                0 <= k < done@.len() ==> #[trigger] done@[k]@ == strip_cr(
                    scan_lines(b@.take(i as int)).0[k],
                ),
            open@ == scan_lines(b@.take(i as int)).1,
        decreases b.len() - i,
    {
        proof {
            assert(b@.take(i as int + 1).drop_last() =~= b@.take(i as int));
        }
        let c = b[i];
        if c == 10u8 {
            let ghost before = done@;
            done.push(strip_cr_vec(open));
            open = Vec::new();
            proof {
                assert forall|k: int| 0 <= k < done@.len() implies #[trigger] done@[k]@
                    == strip_cr(scan_lines(b@.take(i as int + 1)).0[k]) by {
                    if k < before.len() {
                        assert(done@[k] == before[k]);
                    }
                }
            }
        } else {
            open.push(c);
        }
        i = i + 1;
    }
    proof {
        assert(b@.take(b.len() as int) =~= b@);
    }
    if open.len() > 0 {
        let ghost before = done@;
        done.push(strip_cr_vec(open));
        proof {
            assert forall|k: int| 0 <= k < done@.len() implies #[trigger] done@[k]@ == lines_of(
                b@,
            )[k] by {
                if k < before.len() {
                    assert(done@[k] == before[k]);
                }
            }
        }
    }
    done
}

/// Appending a word without whitespace to text that ends between words leaves
/// that word open.
pub proof fn lemma_scan_append_word(x: Seq<u8>, a: Seq<u8>)
    requires
        scan_words(x).1.len() == 0,
        forall|i: int| 0 <= i < a.len() ==> !is_space(#[trigger] a[i]),
    ensures
        scan_words(x + a) == (scan_words(x).0, a),
    decreases a.len(),
{
    if a.len() == 0 {
        assert(x + a =~= x);
        assert(scan_words(x).1 =~= a);
    } else {
        lemma_scan_append_word(x, a.drop_last());
        assert((x + a).drop_last() =~= x + a.drop_last());
        assert((x + a).last() == a.last());
        assert(a.drop_last().push(a.last()) =~= a);
    }
}

/// A space after an open word closes it.
pub proof fn lemma_scan_append_space(x: Seq<u8>)
    requires
        scan_words(x).1.len() > 0,
    ensures
        scan_words(x + seq![32u8]) == (scan_words(x).0.push(scan_words(x).1), Seq::<u8>::empty()),
{
    assert((x + seq![32u8]).drop_last() =~= x);
}

} // verus!
