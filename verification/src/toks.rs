//! Tokenization of the line-oriented text formats, and decimal numerals.
//!
//! All three file formats this library reads are lines of whitespace-separated
//! tokens. `tokenize` turns raw bytes into lines of tokens, dropping lines
//! that hold no token; the spec functions beside it say exactly which tokens
//! come out and what integer a numeral token denotes.

use vstd::prelude::*;

verus! {

/// Whitespace inside a line: space, horizontal tab, carriage return.
pub open spec fn is_ws(b: u8) -> bool {
    b == 32 || b == 9 || b == 13
}

/// The line feed byte that separates lines.
pub open spec fn is_nl(b: u8) -> bool {
    b == 10
}

/// The byte sequences that a vector of byte vectors holds.
pub open spec fn tok_views(v: Seq<Vec<u8>>) -> Seq<Seq<u8>> {
    Seq::new(v.len(), |i: int| v[i]@)
}

/// The token lines that a vector of token vectors holds.
pub open spec fn line_views(v: Seq<Vec<Vec<u8>>>) -> Seq<Seq<Seq<u8>>> {
    Seq::new(v.len(), |i: int| tok_views(v[i]@))
}

/// The pieces that splitting `s` on line feeds yields, empty pieces kept.
pub open spec fn spec_lines(s: Seq<u8>) -> Seq<Seq<u8>>
    decreases s.len(),
{
    if s.len() == 0 {
        seq![Seq::<u8>::empty()]
    } else if is_nl(s.last()) {
        spec_lines(s.drop_last()).push(Seq::<u8>::empty())
    } else {
        let r = spec_lines(s.drop_last());
        r.update(r.len() - 1, r.last().push(s.last()))
    }
}

/// The still-open last line of `s`.
pub open spec fn open_line(s: Seq<u8>) -> Seq<u8> {
    spec_lines(s).last()
}

proof fn lemma_spec_lines_nonempty(s: Seq<u8>)
    ensures
        spec_lines(s).len() > 0,
    decreases s.len(),
{
    if s.len() > 0 {
        lemma_spec_lines_nonempty(s.drop_last());
    }
}

/// The maximal whitespace-free, non-empty runs of one line.
pub open spec fn spec_tokens(s: Seq<u8>) -> Seq<Seq<u8>>
    decreases s.len(),
{
    if s.len() == 0 {
        seq![]
    } else if is_ws(s.last()) {
        spec_tokens(s.drop_last())
    } else if s.len() >= 2 && !is_ws(s[s.len() - 2]) {
        let r = spec_tokens(s.drop_last());
        r.update(r.len() - 1, r.last().push(s.last()))
    } else {
        spec_tokens(s.drop_last()).push(seq![s.last()])
    }
}

/// Token lines: each line's tokens, lines without tokens dropped.
pub open spec fn spec_token_lines(lines: Seq<Seq<u8>>) -> Seq<Seq<Seq<u8>>>
    decreases lines.len(),
{
    if lines.len() == 0 {
        seq![]
    } else {
        let r = spec_token_lines(lines.drop_last());
        let t = spec_tokens(lines.last());
        if t.len() == 0 {
            r
        } else {
            r.push(t)
        }
    }
}

/// What `tokenize` returns on the byte sequence `s`.
pub open spec fn spec_tokenize(s: Seq<u8>) -> Seq<Seq<Seq<u8>>> {
    spec_token_lines(spec_lines(s))
}

/// Splits text into lines of whitespace-separated tokens; lines holding no
/// token are dropped.
pub fn tokenize(text: &[u8]) -> (r: Vec<Vec<Vec<u8>>>)
    ensures
        line_views(r@) == spec_tokenize(text@),
{
    let mut out: Vec<Vec<Vec<u8>>> = Vec::new();
    let mut line_done: Vec<Vec<u8>> = Vec::new();
    let mut cur: Vec<u8> = Vec::new();
    let mut i: usize = 0;
    proof {
        assert(text@.take(0) =~= Seq::<u8>::empty());
        assert(tok_views(line_done@) =~= Seq::<Seq<u8>>::empty());
        assert(line_views(out@) =~= Seq::<Seq<Seq<u8>>>::empty());
        assert(spec_lines(Seq::<u8>::empty()).drop_last() =~= Seq::<Seq<u8>>::empty());
    }
    while i < text.len()
        invariant
            i <= text@.len(),
            spec_tokens(open_line(text@.take(i as int))) == (if cur@.len() == 0 {
                tok_views(line_done@)
            } else {
                tok_views(line_done@).push(cur@)
            }),
            open_line(text@.take(i as int)).len() > 0 ==> (cur@.len() > 0 <==> !is_ws(
                open_line(text@.take(i as int)).last(),
            )),
            cur@.len() > 0 ==> open_line(text@.take(i as int)).len() > 0,
            spec_token_lines(spec_lines(text@.take(i as int)).drop_last()) == line_views(out@),
        decreases text@.len() - i,
    {
        let b = text[i];
        proof {
            assert(text@.take(i + 1).drop_last() =~= text@.take(i as int));
            assert(text@.take(i + 1).last() == text@[i as int]);
            lemma_spec_lines_nonempty(text@.take(i as int));
        }
        if b == 10 {
            // line feed: close the open token, then the line
            let ghost full_line = open_line(text@.take(i as int));
            let ghost old_done = tok_views(line_done@);
            let ghost curv = cur@;
            if cur.len() > 0 {
                line_done.push(cur);
                cur = Vec::new();
                proof {
                    assert(tok_views(line_done@) =~= old_done.push(curv));
                }
            }
            proof {
                assert(spec_tokens(full_line) =~= tok_views(line_done@));
                assert(spec_lines(text@.take(i + 1)) =~= spec_lines(text@.take(i as int)).push(
                    Seq::<u8>::empty(),
                ));
                assert(spec_lines(text@.take(i + 1)).drop_last() =~= spec_lines(
                    text@.take(i as int),
                ));
            }
            let ghost closed = line_views(out@);
            if line_done.len() > 0 {
                out.push(line_done);
                line_done = Vec::new();
                proof {
                    assert(line_views(out@) =~= closed.push(spec_tokens(full_line)));
                }
            }
            proof {
                let lines1 = spec_lines(text@.take(i + 1));
                assert(lines1.drop_last().drop_last() =~= spec_lines(
                    text@.take(i as int),
                ).drop_last());
                assert(lines1.drop_last().last() == full_line);
                assert(spec_token_lines(lines1.drop_last()) == line_views(out@));
                assert(open_line(text@.take(i + 1)) =~= Seq::<u8>::empty());
                assert(tok_views(line_done@) =~= Seq::<Seq<u8>>::empty());
            }
        } else {
            let ghost old_line = open_line(text@.take(i as int));
            let ghost new_line = old_line.push(b);
            proof {
                let r = spec_lines(text@.take(i as int));
                assert(spec_lines(text@.take(i + 1)) =~= r.update(r.len() - 1, new_line));
                assert(open_line(text@.take(i + 1)) == new_line);
                assert(spec_lines(text@.take(i + 1)).drop_last() =~= r.drop_last());
                assert(new_line.drop_last() =~= old_line);
                assert(new_line.last() == b);
            }
            if b == 32 || b == 9 || b == 13 {
                let ghost old_done = tok_views(line_done@);
                let ghost curv = cur@;
                if cur.len() > 0 {
                    line_done.push(cur);
                    cur = Vec::new();
                    proof {
                        assert(tok_views(line_done@) =~= old_done.push(curv));
                    }
                }
                proof {
                    assert(spec_tokens(new_line) == spec_tokens(old_line));
                    assert(spec_tokens(new_line) =~= tok_views(line_done@));
                }
            } else {
                proof {
                    if cur@.len() > 0 {
                        assert(old_line.len() > 0 && !is_ws(old_line.last()));
                        assert(new_line.len() >= 2 && new_line[new_line.len() - 2]
                            == old_line.last());
                        let r0 = spec_tokens(old_line);
                        assert(spec_tokens(new_line) == r0.update(r0.len() - 1, r0.last().push(b)));
                        assert(r0 == tok_views(line_done@).push(cur@));
                        assert(r0.len() > 0);
                        assert(r0.last() == cur@);
                        assert(spec_tokens(new_line) =~~= tok_views(line_done@).push(cur@.push(b)));
                    } else {
                        if old_line.len() > 0 {
                            assert(is_ws(old_line.last()));
                        }
                        assert(spec_tokens(new_line) == spec_tokens(old_line).push(seq![b]));
                        assert(cur@.push(b) =~= seq![b]);
                        assert(spec_tokens(new_line) =~= tok_views(line_done@).push(cur@.push(b)));
                    }
                }
                cur.push(b);
            }
        }
        i += 1;
    }
    proof {
        assert(text@.take(text@.len() as int) =~= text@);
        lemma_spec_lines_nonempty(text@);
    }
    let ghost full_line = open_line(text@);
    let ghost old_done = tok_views(line_done@);
    if cur.len() > 0 {
        line_done.push(cur);
        proof {
            assert(tok_views(line_done@) =~= old_done.push(cur@));
        }
    }
    proof {
        assert(spec_tokens(full_line) =~= tok_views(line_done@));
    }
    let ghost closed = line_views(out@);
    if line_done.len() > 0 {
        out.push(line_done);
        proof {
            assert(line_views(out@) =~= closed.push(spec_tokens(full_line)));
        }
    }
    proof {
        assert(spec_token_lines(spec_lines(text@)) == line_views(out@));
    }
    out
}

/// A decimal digit byte.
pub open spec fn is_digit(b: u8) -> bool {
    48 <= b <= 57
}

/// The value of an unsigned decimal numeral; `None` on an empty or non-digit
/// token.
pub open spec fn spec_uint(s: Seq<u8>) -> Option<int>
    decreases s.len(),
{
    if s.len() == 0 {
        None
    } else if s.len() == 1 {
        if is_digit(s[0]) {
            Some((s[0] - 48) as int)
        } else {
            None
        }
    } else {
        match spec_uint(s.drop_last()) {
            Some(v) => if is_digit(s.last()) {
                Some(v * 10 + (s.last() - 48))
            } else {
                None
            },
            None => None,
        }
    }
}

/// The value of a decimal numeral with an optional leading minus sign.
pub open spec fn spec_int(s: Seq<u8>) -> Option<int> {
    if s.len() >= 1 && s[0] == 45 {
        match spec_uint(s.skip(1)) {
            Some(v) => Some(-v),
            None => None,
        }
    } else {
        spec_uint(s)
    }
}

/// The numeral's value where it fits an `i32`; `None` otherwise.
pub open spec fn spec_i32(s: Seq<u8>) -> Option<i32> {
    match spec_int(s) {
        Some(v) => if i32::MIN <= v <= i32::MAX {
            Some(v as i32)
        } else {
            None
        },
        None => None,
    }
}

/// The numeral's value where it fits a `usize`; `None` otherwise.
pub open spec fn spec_usize(s: Seq<u8>) -> Option<usize> {
    match spec_uint(s) {
        Some(v) => if v <= usize::MAX {
            Some(v as usize)
        } else {
            None
        },
        None => None,
    }
}

/// An unsigned numeral's value is never negative.
pub proof fn lemma_uint_nonneg(s: Seq<u8>)
    ensures
        spec_uint(s) matches Some(v) ==> v >= 0,
    decreases s.len(),
{
    if s.len() > 1 {
        lemma_uint_nonneg(s.drop_last());
    }
}

/// One bad byte spoils the numeral.
proof fn lemma_uint_bad_byte(s: Seq<u8>, k: int)
    requires
        0 <= k < s.len(),
        !is_digit(s[k]),
    ensures
        spec_uint(s) is None,
    decreases s.len(),
{
    if s.len() > 1 && k < s.len() - 1 {
        lemma_uint_bad_byte(s.drop_last(), k);
    }
}

/// Parses the unsigned decimal numeral standing at `s[off..]`; `None` when it
/// is empty, holds a non-digit, or exceeds `u64::MAX`.
fn parse_uint_from(s: &[u8], off: usize) -> (r: Option<u64>)
    requires
        off <= s@.len(),
    ensures
        r matches Some(v) ==> spec_uint(s@.skip(off as int)) == Some(v as int),
        r is None ==> (spec_uint(s@.skip(off as int)) is None || (spec_uint(s@.skip(off as int))
            matches Some(v) && v > u64::MAX)),
{
    let ghost whole = s@.skip(off as int);
    if off == s.len() {
        return None;
    }
    let mut acc: u64 = 0;
    let mut big: bool = false;
    let mut j: usize = off;
    while j < s.len()
        invariant
            off <= j <= s@.len(),
            whole == s@.skip(off as int),
            j > off ==> (!big ==> spec_uint(s@.skip(off as int).take(j - off)) == Some(
                acc as int,
            )),
            j > off ==> (big ==> (spec_uint(s@.skip(off as int).take(j - off)) matches Some(v) && v
                > u64::MAX)),
            j == off ==> (!big && acc == 0),
        decreases s@.len() - j,
    {
        let b = s[j];
        let ghost p = s@.skip(off as int).take(j - off);
        let ghost p1 = s@.skip(off as int).take(j + 1 - off);
        proof {
            assert(p1.drop_last() =~= p);
            assert(p1.last() == s@[j as int]);
        }
        if b < 48 || b > 57 {
            proof {
                lemma_uint_bad_byte(whole, j - off);
            }
            return None;
        }
        let d: u64 = (b - 48) as u64;
        if j == off {
            acc = d;
            proof {
                assert(p1.len() == 1);
            }
        } else if !big {
            let wide: u128 = (acc as u128) * 10 + (d as u128);
            if wide > u64::MAX as u128 {
                big = true;
                proof {
                    lemma_uint_nonneg(p);
                }
            } else {
                acc = wide as u64;
            }
        } else {
            proof {
                lemma_uint_nonneg(p);
            }
        }
        j += 1;
    }
    proof {
        assert(s@.skip(off as int).take(s@.len() - off) =~= whole);
    }
    if big {
        None
    } else {
        Some(acc)
    }
}

/// Parses a signed decimal numeral token as an `i32`.
pub fn parse_i32_tok(s: &[u8]) -> (r: Option<i32>)
    ensures
        r == spec_i32(s@),
{
    proof {
        lemma_uint_nonneg(s@);
        lemma_uint_nonneg(s@.skip(1));
    }
    if s.len() >= 1 && s[0] == 45 {
        match parse_uint_from(s, 1) {
            Some(v) => {
                if v <= 0x8000_0000u64 {
                    let w: i64 = -(v as i64);
                    Some(w as i32)
                } else {
                    None
                }
            }
            None => None,
        }
    } else {
        match parse_uint_from(s, 0) {
            Some(v) => {
                proof {
                    assert(s@.skip(0) =~= s@);
                }
                if v <= 0x7fff_ffffu64 {
                    Some(v as i32)
                } else {
                    None
                }
            }
            None => {
                proof {
                    assert(s@.skip(0) =~= s@);
                }
                None
            }
        }
    }
}

/// Parses an unsigned decimal numeral token as a `usize`.
pub fn parse_usize_tok(s: &[u8]) -> (r: Option<usize>)
    ensures
        r == spec_usize(s@),
{
    proof {
        lemma_uint_nonneg(s@);
        assert(s@.skip(0) =~= s@);
    }
    match parse_uint_from(s, 0) {
        Some(v) => {
            if v <= usize::MAX as u64 {
                Some(v as usize)
            } else {
                None
            }
        }
        None => None,
    }
}

/// The decimal digits of a non-negative integer.
pub open spec fn dec_u(n: int) -> Seq<u8>
    decreases n,
{
    if n < 0 {
        Seq::empty()
    } else if n < 10 {
        seq![(48 + n) as u8]
    } else {
        dec_u(n / 10).push((48 + n % 10) as u8)
    }
}

/// The decimal numeral of an integer, a minus sign leading a negative one.
pub open spec fn dec_i(n: int) -> Seq<u8> {
    if n < 0 {
        seq![45u8] + dec_u(-n)
    } else {
        dec_u(n)
    }
}

/// Appends the decimal digits of `n`.
pub fn push_usize_dec(out: &mut Vec<u8>, n: usize)
    ensures
        final(out)@ == old(out)@ + dec_u(n as int),
    decreases n,
{
    if n < 10 {
        out.push((48 + n as u8) as u8);
        proof {
            assert(out@ =~= old(out)@ + dec_u(n as int));
        }
    } else {
        let ghost mid = dec_u(n as int / 10);
        push_usize_dec(out, n / 10);
        out.push(48 + (n % 10) as u8);
        proof {
            assert(out@ =~= old(out)@ + dec_u(n as int));
        }
    }
}

/// Appends the decimal numeral of `n`.
pub fn push_i32_dec(out: &mut Vec<u8>, n: i32)
    requires
        n != i32::MIN,
    ensures
        final(out)@ == old(out)@ + dec_i(n as int),
{
    if n < 0 {
        out.push(45);
        let m: i32 = -n;
        push_usize_dec(out, m as usize);
        proof {
            assert(out@ =~= old(out)@ + dec_i(n as int));
        }
    } else {
        push_usize_dec(out, n as usize);
    }
}

/// Every line that tokenization yields holds at least one token.
pub proof fn lemma_token_lines_nonempty(lines: Seq<Seq<u8>>)
    ensures
        forall|j: int|
            0 <= j < spec_token_lines(lines).len() ==> #[trigger] spec_token_lines(
                lines,
            )[j].len() > 0,
    decreases lines.len(),
{
    if lines.len() > 0 {
        lemma_token_lines_nonempty(lines.drop_last());
        let r = spec_token_lines(lines.drop_last());
        let t = spec_tokens(lines.last());
        if t.len() > 0 {
            assert forall|j: int| 0 <= j < spec_token_lines(lines).len() implies #[trigger]
                spec_token_lines(lines)[j].len() > 0 by {
                if j < r.len() {
                    assert(spec_token_lines(lines)[j] == r[j]);
                } else {
                    assert(spec_token_lines(lines)[j] == t);
                }
            }
        }
    }
}

/// A run of one or more digits.
pub open spec fn digits_only(s: Seq<u8>) -> bool {
    s.len() > 0 && (forall|k: int| 0 <= k < s.len() ==> is_digit(#[trigger] s[k]))
}

/// An exponent part: an optional sign, then digits.
pub open spec fn expo_part(s: Seq<u8>) -> bool {
    if s.len() >= 1 && (s[0] == 43 || s[0] == 45) {
        digits_only(s.skip(1))
    } else {
        digits_only(s)
    }
}

/// The unsigned part of a floating-point decimal, scanned left to right:
/// digits with at most one dot, at least one digit, and optionally an
/// exponent mark followed by a signed digit run.
pub open spec fn float_tail(s: Seq<u8>, dot_seen: bool, digit_seen: bool) -> bool
    decreases s.len(),
{
    if s.len() == 0 {
        digit_seen
    } else if is_digit(s[0]) {
        float_tail(s.skip(1), dot_seen, true)
    } else if s[0] == 46 && !dot_seen {
        float_tail(s.skip(1), true, digit_seen)
    } else if (s[0] == 101 || s[0] == 69) && digit_seen {
        expo_part(s.skip(1))
    } else {
        false
    }
}

/// A floating-point decimal numeral, as the counting-graph header carries
/// one: an optional sign, digits with at most one dot, an optional exponent.
pub open spec fn float_shaped(s: Seq<u8>) -> bool {
    if s.len() >= 1 && (s[0] == 43 || s[0] == 45) {
        float_tail(s.skip(1), false, false)
    } else {
        float_tail(s, false, false)
    }
}

/// Whether every byte of `s[from..]` is a digit, and there is at least one.
fn check_digits(s: &Vec<u8>, from: usize) -> (r: bool)
    requires
        from <= s@.len(),
    ensures
        r == digits_only(s@.skip(from as int)),
{
    if from == s.len() {
        return false;
    }
    let mut j: usize = from;
    while j < s.len()
        invariant
            from <= j <= s@.len(),
            forall|k: int| from <= k < j ==> is_digit(#[trigger] s@[k]),
        decreases s@.len() - j,
    {
        let b = s[j];
        if b < 48 || b > 57 {
            proof {
                assert(!is_digit(s@.skip(from as int)[j - from]));
            }
            return false;
        }
        j += 1;
    }
    proof {
        assert(forall|k: int|
            0 <= k < s@.skip(from as int).len() ==> is_digit(#[trigger] s@.skip(from as int)[k]));
    }
    true
}

/// Whether the token is a floating-point decimal numeral.
pub fn check_float(s: &Vec<u8>) -> (r: bool)
    ensures
        r == float_shaped(s@),
{
    let mut j: usize = 0;
    if s.len() >= 1 && (s[0] == 43 || s[0] == 45) {
        j = 1;
    }
    proof {
        if j == 1 {
            assert(float_shaped(s@) == float_tail(s@.skip(1), false, false));
        } else {
            assert(s@.skip(0) =~= s@);
        }
    }
    let mut dot_seen = false;
    let mut digit_seen = false;
    while j < s.len()
        invariant
            j <= s@.len(),
            float_shaped(s@) == float_tail(s@.skip(j as int), dot_seen, digit_seen),
        decreases s@.len() - j,
    {
        let b = s[j];
        proof {
            assert(s@.skip(j as int)[0] == s@[j as int]);
            assert(s@.skip(j as int).skip(1) =~= s@.skip(j + 1));
        }
        if b >= 48 && b <= 57 {
            digit_seen = true;
        } else if b == 46 && !dot_seen {
            dot_seen = true;
        } else if (b == 101 || b == 69) && digit_seen {
            return check_digits_signed(s, j + 1);
        } else {
            return false;
        }
        j += 1;
    }
    proof {
        assert(s@.skip(s@.len() as int) =~= Seq::<u8>::empty());
    }
    digit_seen
}

/// Whether `s[from..]` is an optional sign followed by digits.
fn check_digits_signed(s: &Vec<u8>, from: usize) -> (r: bool)
    requires
        from <= s@.len(),
    ensures
        r == expo_part(s@.skip(from as int)),
{
    proof {
        if from < s@.len() {
            assert(s@.skip(from as int)[0] == s@[from as int]);
            assert(s@.skip(from as int).skip(1) =~= s@.skip(from + 1));
        }
    }
    if from < s.len() && (s[from] == 43 || s[from] == 45) {
        check_digits(s, from + 1)
    } else {
        check_digits(s, from)
    }
}

} // verus!
