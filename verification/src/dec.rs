//! Decimal rendering and parsing of unsigned integers, and line scanning,
//! for the textual mirror.

use vstd::prelude::*;

use crate::codec::Error;

verus! {

/// `c` is an ASCII decimal digit.
pub open spec fn is_digit(c: u8) -> bool {
    48 <= c && c <= 57
}

/// The ASCII decimal digits of `n`, most significant first, no leading
/// zeros (a lone zero for `n == 0`).
pub open spec fn dec_digits(n: nat) -> Seq<u8>
    decreases n,
{
    if n < 10 {
        seq![(48 + n) as u8]
    } else {
        dec_digits(n / 10).push((48 + n % 10) as u8)
    }
}

/// The first position at or after `pos` that does not hold a digit; the
/// length of the buffer when digits run to its end.
pub open spec fn digits_end(b: Seq<u8>, pos: int) -> int
    decreases b.len() - pos,
{
    if pos < 0 || pos >= b.len() || !is_digit(b[pos]) {
        pos
    } else {
        digits_end(b, pos + 1)
    }
}

/// The value of the digits of `b` in positions `pos..end`.
pub open spec fn dec_value(b: Seq<u8>, pos: int, end: int) -> int
    decreases end - pos,
{
    if end <= pos {
        0
    } else {
        dec_value(b, pos, end - 1) * 10 + (b[end - 1] - 48)
    }
}

/// What parsing an unsigned 64-bit decimal at `pos` yields: the value and
/// the position after its digits, or a failure when no digit stands at
/// `pos` or the digits exceed the 64-bit range.
pub open spec fn parse_u64_spec(b: Seq<u8>, pos: int) -> Result<(u64, int), Error> {
    let end = digits_end(b, pos);
    if end == pos {
        Err(Error::TextFormat { offset: pos as usize })
    } else if dec_value(b, pos, end) > u64::MAX {
        Err(Error::TextFormat { offset: pos as usize })
    } else {
        Ok((dec_value(b, pos, end) as u64, end))
    }
}

/// `digits_end` stays between `pos` and the buffer length, every position
/// before it holds a digit, and the position at it does not.
pub proof fn lemma_digits_end(b: Seq<u8>, pos: int)
    requires
        0 <= pos <= b.len(),
    ensures
        pos <= digits_end(b, pos) <= b.len(),
        forall|j: int| pos <= j < digits_end(b, pos) ==> is_digit(#[trigger] b[j]),
        digits_end(b, pos) < b.len() ==> !is_digit(b[digits_end(b, pos)]),
    decreases b.len() - pos,
{
    if pos < b.len() && is_digit(b[pos]) {
        lemma_digits_end(b, pos + 1);
    }
}

/// Appending digits never lowers the value they spell.
pub proof fn lemma_dec_value_monotone(b: Seq<u8>, pos: int, e1: int, e2: int)
    requires
        pos <= e1 <= e2,
        forall|j: int| pos <= j < e2 ==> is_digit(#[trigger] b[j]),
    ensures
        0 <= dec_value(b, pos, e1) <= dec_value(b, pos, e2),
    decreases e2 - pos,
{
    if e1 == e2 {
        lemma_dec_value_nonneg(b, pos, e1);
    } else {
        lemma_dec_value_monotone(b, pos, e1, e2 - 1);
        let v = dec_value(b, pos, e2 - 1);
        assert(dec_value(b, pos, e2) == v * 10 + (b[e2 - 1] - 48));
        assert(v * 10 >= v) by (nonlinear_arith)
            requires
                v >= 0,
        ;
    }
}

/// The value of a digit run is never negative.
pub proof fn lemma_dec_value_nonneg(b: Seq<u8>, pos: int, end: int)
    requires
        forall|j: int| pos <= j < end ==> is_digit(#[trigger] b[j]),
    ensures
        dec_value(b, pos, end) >= 0,
    decreases end - pos,
{
    if end > pos {
        lemma_dec_value_nonneg(b, pos, end - 1);
        let v = dec_value(b, pos, end - 1);
        assert(v * 10 >= 0) by (nonlinear_arith)
            requires
                v >= 0,
        ;
    }
}

/// Parses an unsigned 64-bit decimal at `pos`.
pub fn parse_u64_at(b: &[u8], pos: usize) -> (r: Result<(u64, usize), Error>)
    requires
        pos <= b@.len(),
    ensures
        match r {
            Ok(p) => parse_u64_spec(b@, pos as int) == Ok::<(u64, int), Error>(
                (p.0, p.1 as int),
            ) && pos < p.1 <= b@.len(),
            Err(e) => parse_u64_spec(b@, pos as int) == Err::<(u64, int), Error>(e),
        },
{
    let blen: usize = b.len();
    proof {
        lemma_digits_end(b@, pos as int);
    }
    if pos == blen || b[pos] < 48 || b[pos] > 57 {
        return Err(Error::TextFormat { offset: pos });
    }
    let mut i: usize = pos;
    let mut acc: u64 = 0;
    while i < blen && 48 <= b[i] && b[i] <= 57
        invariant
            pos <= i <= blen,
            blen == b@.len(),
            forall|j: int| pos <= j < i ==> is_digit(#[trigger] b@[j]),
            digits_end(b@, pos as int) == digits_end(b@, i as int),
            acc == dec_value(b@, pos as int, i as int),
        decreases blen - i,
    {
        let d: u8 = b[i] - 48;
        let ghost end = digits_end(b@, pos as int);
        proof {
            lemma_digits_end(b@, i as int);
            assert(digits_end(b@, i as int) == digits_end(b@, i as int + 1));
            lemma_digits_end(b@, i as int + 1);
            vstd::arithmetic::div_mod::lemma_fundamental_div_mod(
                u64::MAX as int - d as int,
                10,
            );
            vstd::arithmetic::div_mod::lemma_mod_bound(u64::MAX as int - d as int, 10);
        }
        let q: u64 = (u64::MAX - d as u64) / 10;
        if acc > q {
            proof {
                assert(dec_value(b@, pos as int, i as int + 1) == acc * 10 + d);
                assert(acc * 10 >= q * 10 + 10) by (nonlinear_arith)
                    requires
                        acc >= q + 1,
                ;
                assert(acc * 10 + d > u64::MAX);
                lemma_dec_value_monotone(b@, pos as int, i as int + 1, end);
            }
            return Err(Error::TextFormat { offset: pos });
        }
        proof {
            assert(acc * 10 <= q * 10) by (nonlinear_arith)
                requires
                    acc <= q,
            ;
            assert(acc * 10 + d <= u64::MAX);
        }
        acc = acc * 10 + d as u64;
        i = i + 1;
    }
    proof {
        assert(digits_end(b@, i as int) == i);
    }
    Ok((acc, i))
}

/// The position of the first newline at or after `pos`; the length of the
/// buffer when none follows.
pub open spec fn line_end(b: Seq<u8>, pos: int) -> int
    decreases b.len() - pos,
{
    if pos < 0 || pos >= b.len() {
        b.len() as int
    } else if b[pos] == 10 {
        pos
    } else {
        line_end(b, pos + 1)
    }
}

/// `line_end` stays between `pos` and the buffer length.
pub proof fn lemma_line_end(b: Seq<u8>, pos: int)
    requires
        0 <= pos <= b.len(),
    ensures
        pos <= line_end(b, pos) <= b.len(),
    decreases b.len() - pos,
{
    if pos < b.len() && b[pos] != 10 {
        lemma_line_end(b, pos + 1);
    }
}

/// Finds the first newline at or after `pos`.
pub fn find_line_end(b: &[u8], pos: usize) -> (r: usize)
    requires
        pos <= b@.len(),
    ensures
        r as int == line_end(b@, pos as int),
        pos <= r <= b@.len(),
{
    let blen: usize = b.len();
    let mut i: usize = pos;
    while i < blen && b[i] != 10
        invariant
            pos <= i <= blen,
            blen == b@.len(),
            line_end(b@, pos as int) == line_end(b@, i as int),
        decreases blen - i,
    {
        i = i + 1;
    }
    i
}

/// A decimal rendering is never empty and holds digits alone.
pub proof fn lemma_dec_digits_are_digits(n: nat)
    ensures
        dec_digits(n).len() >= 1,
        forall|j: int| 0 <= j < dec_digits(n).len() ==> is_digit(#[trigger] dec_digits(n)[j]),
    decreases n,
{
    if n >= 10 {
        lemma_dec_digits_are_digits(n / 10);
    }
}

/// A run of digits up to a non-digit (or the buffer's end) pins where the
/// digits end.
pub proof fn lemma_digits_end_determined(b: Seq<u8>, pos: int, end: int)
    requires
        0 <= pos <= end <= b.len(),
        forall|j: int| pos <= j < end ==> is_digit(#[trigger] b[j]),
        end == b.len() || !is_digit(b[end]),
    ensures
        digits_end(b, pos) == end,
    decreases end - pos,
{
    if pos < end {
        lemma_digits_end_determined(b, pos + 1, end);
    }
}

/// The digits rendering a value spell that value back.
pub proof fn lemma_dec_value_of_digits(b: Seq<u8>, pos: int, n: nat)
    requires
        0 <= pos,
        pos + dec_digits(n).len() <= b.len(),
        b.subrange(pos, pos + dec_digits(n).len()) == dec_digits(n),
    ensures
        dec_value(b, pos, pos + dec_digits(n).len()) == n,
    decreases n,
{
    let d = dec_digits(n);
    let end = pos + d.len();
    if n < 10 {
        assert(b[pos] == b.subrange(pos, end)[0]);
        assert(dec_value(b, pos, end) == dec_value(b, pos, end - 1) * 10 + (b[pos] - 48));
    } else {
        let dq = dec_digits(n / 10);
        assert(d == dq.push((48 + n % 10) as u8));
        assert forall|j: int| 0 <= j < dq.len() implies b.subrange(
            pos,
            pos + dq.len() as int,
        )[j] == dq[j] by {
            assert(b.subrange(pos, end)[j] == d[j]);
        }
        assert(b.subrange(pos, pos + dq.len() as int) =~= dq);
        lemma_dec_value_of_digits(b, pos, n / 10);
        assert(b[end - 1] == b.subrange(pos, end)[d.len() - 1]);
        assert(b[end - 1] == 48 + n % 10);
        assert(dec_value(b, pos, end) == (n / 10) * 10 + (n % 10));
        vstd::arithmetic::div_mod::lemma_fundamental_div_mod(n as int, 10);
    }
}

/// Parsing a rendered 64-bit value, followed by a non-digit or the
/// buffer's end, returns the value and the position after its digits.
pub proof fn lemma_parse_u64_of_digits(b: Seq<u8>, pos: int, x: u64)
    requires
        0 <= pos,
        pos + dec_digits(x as nat).len() <= b.len(),
        b.subrange(pos, pos + dec_digits(x as nat).len()) == dec_digits(x as nat),
        pos + dec_digits(x as nat).len() == b.len() || !is_digit(
            b[pos + dec_digits(x as nat).len()],
        ),
    ensures
        parse_u64_spec(b, pos) == Ok::<(u64, int), Error>(
            (x, pos + dec_digits(x as nat).len()),
        ),
{
    let d = dec_digits(x as nat);
    let end = pos + d.len();
    lemma_dec_digits_are_digits(x as nat);
    assert forall|j: int| pos <= j < end implies is_digit(#[trigger] b[j]) by {
        assert(b[j] == b.subrange(pos, end)[j - pos]);
        assert(b.subrange(pos, end)[j - pos] == d[j - pos]);
    }
    lemma_digits_end_determined(b, pos, end);
    lemma_dec_value_of_digits(b, pos, x as nat);
}

/// A line's body without a newline, terminated by one (or by the buffer's
/// end), pins where the line ends.
pub proof fn lemma_line_end_determined(b: Seq<u8>, pos: int, e: int)
    requires
        0 <= pos <= e <= b.len(),
        forall|j: int| pos <= j < e ==> #[trigger] b[j] != 10,
        e == b.len() || b[e] == 10,
    ensures
        line_end(b, pos) == e,
    decreases e - pos,
{
    if pos < e {
        lemma_line_end_determined(b, pos + 1, e);
    }
}

/// Appends the decimal digits of `x`.
pub fn push_dec_u64(out: &mut Vec<u8>, x: u64)
    ensures
        final(out)@ == old(out)@ + dec_digits(x as nat),
    decreases x,
{
    if x < 10 {
        out.push(48 + x as u8);
        assert(out@ =~= old(out)@ + dec_digits(x as nat));
    } else {
        push_dec_u64(out, x / 10);
        out.push(48 + (x % 10) as u8);
        assert(out@ =~= old(out)@ + dec_digits(x as nat));
    }
}

} // verus!
