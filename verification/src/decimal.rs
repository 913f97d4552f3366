//! Decimal text for integers: the one number format on the wire.
//!
//! A number is written without padding: `0` is `0`, no other number starts
//! with `0`, a negative number has one leading `-`, and nothing is ever
//! written with a `+`. Every integer therefore has exactly one text, and
//! [`parse_i32`] accepts that text and nothing else.

use vstd::prelude::*;

verus! {

/// ASCII `-`.
pub const MINUS: u8 = 0x2d;

/// ASCII `0`.
pub const ZERO: u8 = 0x30;

/// ASCII `9`.
pub const NINE: u8 = 0x39;

/// Whether `b` is an ASCII decimal digit.
pub open spec fn is_digit(b: u8) -> bool {
    0x30 <= b <= 0x39
}

/// Whether `b` can occur in the text of a number: a digit or the sign.
pub open spec fn is_number_byte(b: u8) -> bool {
    is_digit(b) || b == MINUS
}

/// The decimal digits of `n`, most significant first.
pub open spec fn digits(n: nat) -> Seq<u8>
    decreases n,
{
    if n < 10 {
        seq![(0x30 + n) as u8]
    } else {
        digits(n / 10).push((0x30 + n % 10) as u8)
    }
}

/// The text of `v`: its digits, behind a `-` if it is negative.
pub open spec fn int_text(v: int) -> Seq<u8> {
    if v < 0 {
        seq![MINUS] + digits((-v) as nat)
    } else {
        digits(v as nat)
    }
}

/// The number that a run of digits denotes, read most significant first.
pub open spec fn digits_value(s: Seq<u8>) -> nat
    decreases s.len(),
{
    if s.len() == 0 {
        0
    } else {
        digits_value(s.drop_last()) * 10 + (s.last() - 0x30) as nat
    }
}

/// Whether `s` is a run of digits written as [`digits`] writes them:
/// not empty, digits only, and no leading zero but for `0` itself.
pub open spec fn is_canonical_digits(s: Seq<u8>) -> bool {
    &&& s.len() >= 1
    &&& forall|i: int| 0 <= i < s.len() ==> is_digit(#[trigger] s[i])
    &&& (s.len() == 1 || s[0] != ZERO)
}

/// Ten to the power `k`.
pub open spec fn pow10(k: nat) -> nat
    decreases k,
{
    if k == 0 {
        1
    } else {
        10 * pow10((k - 1) as nat)
    }
}

/// `digits` writes canonically, and a number below `10^k` takes at most `k`
/// digits.
pub proof fn lemma_digits_canonical(n: nat)
    ensures
        is_canonical_digits(digits(n)),
        digits(n)[0] == ZERO <==> n == 0,
        forall|k: nat| k >= 1 && n < pow10(k) ==> digits(n).len() <= k,
    decreases n,
{
    if n < 10 {
        assert forall|k: nat| k >= 1 && n < pow10(k) implies digits(n).len() <= k by {}
    } else {
        lemma_digits_canonical(n / 10);
        let head = digits(n / 10);
        assert(digits(n)[0] == head[0]);
        assert forall|k: nat| k >= 1 && n < pow10(k) implies digits(n).len() <= k by {
            if k == 1 {
                assert(pow10(1) == 10 * pow10(0));
            } else {
                assert(pow10(k) == 10 * pow10((k - 1) as nat));
                assert(n / 10 < pow10((k - 1) as nat));
            }
        }
    }
}

/// Reading what `digits` wrote gives the number back.
pub proof fn lemma_value_of_digits(n: nat)
    ensures
        digits_value(digits(n)) == n,
    decreases n,
{
    if n < 10 {
        assert(digits(n).drop_last() =~= Seq::<u8>::empty());
        assert(digits_value(digits(n).drop_last()) == 0);
    } else {
        lemma_value_of_digits(n / 10);
        assert(digits(n).drop_last() =~= digits(n / 10));
    }
}

/// Writing the number that a canonical run denotes gives the run back.
pub proof fn lemma_digits_of_value(s: Seq<u8>)
    requires
        is_canonical_digits(s),
    ensures
        digits(digits_value(s)) == s,
        s[0] != ZERO ==> digits_value(s) > 0,
    decreases s.len(),
{
    let last = (s.last() - 0x30) as nat;
    if s.len() == 1 {
        assert(s.drop_last() =~= Seq::<u8>::empty());
        assert(digits_value(s.drop_last()) == 0);
        assert(digits_value(s) == last);
        assert(digits(last) =~= s);
    } else {
        let head = s.drop_last();
        assert(head[0] == s[0]);
        assert(is_canonical_digits(head));
        lemma_digits_of_value(head);
        let hv = digits_value(head);
        assert(hv > 0);
        let v = digits_value(s);
        assert(v == hv * 10 + last);
        assert(v / 10 == hv);
        assert(v % 10 == last);
        assert(digits(v) =~= s);
    }
}

/// What the text of a number looks like: the sign is there exactly for a
/// negative number, and behind it stand the canonical digits of the
/// magnitude.
pub proof fn lemma_int_text_shape(v: int)
    ensures
        int_text(v).len() >= 1,
        int_text(v)[0] == MINUS <==> v < 0,
        v < 0 ==> int_text(v).subrange(1, int_text(v).len() as int) == digits((-v) as nat),
        forall|i: int| 0 <= i < int_text(v).len() ==> is_number_byte(#[trigger] int_text(v)[i]),
{
    if v < 0 {
        let d = digits((-v) as nat);
        lemma_digits_canonical((-v) as nat);
        assert(int_text(v).subrange(1, int_text(v).len() as int) =~= d);
        assert forall|i: int| 0 <= i < int_text(v).len() implies is_number_byte(
            #[trigger] int_text(v)[i],
        ) by {
            if i > 0 {
                assert(int_text(v)[i] == d[i - 1]);
            }
        }
    } else {
        lemma_digits_canonical(v as nat);
    }
}

/// No two integers share a text.
pub proof fn lemma_int_text_injective(a: int, b: int)
    requires
        int_text(a) == int_text(b),
    ensures
        a == b,
{
    lemma_int_text_shape(a);
    lemma_int_text_shape(b);
    if a < 0 {
        lemma_value_of_digits((-a) as nat);
        lemma_value_of_digits((-b) as nat);
    } else {
        lemma_value_of_digits(a as nat);
        lemma_value_of_digits(b as nat);
    }
}

/// Whether `s` is the text of some number up to `max`.
pub open spec fn is_u32_text(s: Seq<u8>, max: u32) -> bool {
    exists|n: u32| n <= max && s == digits(n as nat)
}

/// The number up to `max` whose digits `s` is, if there is one.
pub open spec fn u32_of_text(s: Seq<u8>, max: u32) -> Option<u32> {
    if is_u32_text(s, max) {
        Some(choose|n: u32| n <= max && s == digits(n as nat))
    } else {
        None
    }
}

/// Whether `s` is the text of some 32-bit integer.
pub open spec fn is_i32_text(s: Seq<u8>) -> bool {
    exists|v: i32| s == int_text(v as int)
}

/// The 32-bit integer whose text `s` is, if there is one.
pub open spec fn i32_of_text(s: Seq<u8>) -> Option<i32> {
    if is_i32_text(s) {
        Some(choose|v: i32| s == int_text(v as int))
    } else {
        None
    }
}

/// Reading the digits of a number up to `max` gives that number.
pub proof fn lemma_u32_of_text(n: u32, max: u32)
    requires
        n <= max,
    ensures
        u32_of_text(digits(n as nat), max) == Some(n),
{
    let s = digits(n as nat);
    assert(is_u32_text(s, max));
    let m = choose|m: u32| m <= max && s == digits(m as nat);
    lemma_value_of_digits(n as nat);
    lemma_value_of_digits(m as nat);
}

/// Reading the text of a 32-bit integer gives that integer.
pub proof fn lemma_i32_of_text(v: i32)
    ensures
        i32_of_text(int_text(v as int)) == Some(v),
{
    let s = int_text(v as int);
    assert(is_i32_text(s));
    let w = choose|w: i32| s == int_text(w as int);
    lemma_int_text_injective(v as int, w as int);
}

/// A 32-bit number takes at most ten digits.
pub proof fn lemma_u32_text_len(n: u32)
    ensures
        1 <= digits(n as nat).len() <= 10,
{
    lemma_digits_canonical(n as nat);
    lemma_pow10_values();
    assert(n < pow10(10));
}

/// The text of a 32-bit integer takes at most eleven bytes.
pub proof fn lemma_i32_text_len(v: i32)
    ensures
        1 <= int_text(v as int).len() <= 11,
{
    if v < 0 {
        lemma_u32_text_len((-v) as u32);
    } else {
        lemma_u32_text_len(v as u32);
    }
}

/// The two powers of ten that bound the digits of a 32-bit number.
pub proof fn lemma_pow10_values()
    ensures
        pow10(10) == 10_000_000_000,
        pow10(11) == 100_000_000_000,
{
    reveal_with_fuel(pow10, 12);
}

/// `pow10` grows with its argument.
pub proof fn lemma_pow10_monotonic(a: nat, b: nat)
    requires
        a <= b,
    ensures
        pow10(a) <= pow10(b),
        pow10(a) >= 1,
    decreases b,
{
    if a < b {
        lemma_pow10_monotonic(a, (b - 1) as nat);
    } else if a > 0 {
        lemma_pow10_monotonic((a - 1) as nat, (a - 1) as nat);
    }
}

/// Appends the digits of `n` to `out`.
pub fn push_u32(out: &mut Vec<u8>, n: u32)
    ensures
        final(out)@ == old(out)@ + digits(n as nat),
    decreases n,
{
    if n >= 10 {
        push_u32(out, n / 10);
    }
    let d: u8 = (n % 10) as u8;
    out.push(ZERO + d);
    assert(out@ =~= old(out)@ + digits(n as nat));
}

/// Appends the text of `v` to `out`.
pub fn push_i32(out: &mut Vec<u8>, v: i32)
    ensures
        final(out)@ == old(out)@ + int_text(v as int),
{
    if v < 0 {
        out.push(MINUS);
        let magnitude: u32 = (-(v as i64)) as u32;
        push_u32(out, magnitude);
        assert(out@ =~= old(out)@ + int_text(v as int));
    } else {
        push_u32(out, v as u32);
    }
}

/// Where the run of number bytes that starts at `start` ends: the first
/// place from `start` on that holds no number byte, or the end of `s`.
pub open spec fn run_end(s: Seq<u8>, start: int) -> int
    decreases s.len() - start,
{
    if 0 <= start < s.len() && is_number_byte(s[start]) {
        run_end(s, start + 1)
    } else {
        start
    }
}

/// A run of number bytes ends at the first byte that is none.
pub proof fn lemma_run_end(s: Seq<u8>, start: int, end: int)
    requires
        0 <= start <= end <= s.len(),
        forall|k: int| start <= k < end ==> is_number_byte(#[trigger] s[k]),
        end == s.len() || !is_number_byte(s[end]),
    ensures
        run_end(s, start) == end,
    decreases end - start,
{
    if start < end {
        assert(is_number_byte(s[start]));
        lemma_run_end(s, start + 1, end);
    }
}

/// A run that starts inside `s` ends inside `s`, at or behind its start.
pub proof fn lemma_run_end_bounds(s: Seq<u8>, start: int)
    requires
        0 <= start <= s.len(),
    ensures
        start <= run_end(s, start) <= s.len(),
    decreases s.len() - start,
{
    if start < s.len() && is_number_byte(s[start]) {
        lemma_run_end_bounds(s, start + 1);
    }
}

/// Finds where the run of number bytes that starts at `start` ends.
///
/// A run that would start behind the end of `bytes` is empty.
pub fn scan_number(bytes: &[u8], start: usize) -> (end: usize)
    ensures
        end == run_end(bytes@, start as int),
        start <= end,
        start <= bytes.len() ==> end <= bytes.len(),
{
    let mut end: usize = start;
    while end < bytes.len() && (bytes[end] == MINUS || (ZERO <= bytes[end] && bytes[end] <= NINE))
        invariant
            start <= end,
            start <= bytes.len() ==> end <= bytes.len(),
            start > bytes.len() ==> end == start,
            forall|k: int| start <= k < end ==> is_number_byte(#[trigger] bytes@[k]),
        decreases bytes.len() - end,
    {
        end += 1;
    }
    proof {
        if start <= bytes.len() {
            lemma_run_end(bytes@, start as int, end as int);
        } else {
            assert(run_end(bytes@, start as int) == start);
        }
    }
    end
}

/// Reads `text` as the digits of a number up to `max`.
///
/// Only the digits that [`push_u32`] writes for a number are read as that
/// number: an empty text, a leading zero, any byte that is no digit, and a
/// number above `max` are all turned down.
pub fn parse_u32(text: &[u8], max: u32) -> (r: Option<u32>)
    ensures
        r == u32_of_text(text@, max),
{
    proof {
        // Whatever number `text` may hold the digits of, it is written
        // canonically, and it is the number that the digits denote.
        assert forall|n: u32| text@ == digits(n as nat) implies is_canonical_digits(text@)
            && digits_value(text@) == n && text@.len() <= 10 by {
            lemma_digits_canonical(n as nat);
            lemma_value_of_digits(n as nat);
            lemma_u32_text_len(n);
        }
    }
    if text.len() == 0 || text.len() > 10 {
        return None;
    }
    if text[0] == ZERO && text.len() > 1 {
        return None;
    }
    let mut value: u64 = 0;
    let mut i: usize = 0;
    while i < text.len()
        invariant
            i <= text.len() <= 10,
            forall|k: int| 0 <= k < i ==> is_digit(#[trigger] text@[k]),
            value == digits_value(text@.subrange(0, i as int)),
            value < pow10(i as nat),
            forall|n: u32| text@ == digits(n as nat) ==> is_canonical_digits(text@),
        decreases text.len() - i,
    {
        let b: u8 = text[i];
        if b < ZERO || b > NINE {
            return None;
        }
        proof {
            let next = text@.subrange(0, i + 1);
            assert(next.drop_last() =~= text@.subrange(0, i as int));
            assert(next.last() == b);
            assert(pow10((i + 1) as nat) == 10 * pow10(i as nat));
            lemma_pow10_monotonic((i + 1) as nat, 10);
            lemma_pow10_values();
        }
        value = value * 10 + (b - ZERO) as u64;
        i += 1;
    }
    proof {
        assert(text@.subrange(0, text.len() as int) =~= text@);
        assert(is_canonical_digits(text@));
        lemma_digits_of_value(text@);
    }
    if value > max as u64 {
        return None;
    }
    let n: u32 = value as u32;
    proof {
        lemma_u32_of_text(n, max);
    }
    Some(n)
}

/// Reads `text` as the text of a 32-bit integer.
///
/// Only the one text that [`push_i32`] writes for a number is read as that
/// number: a sign without digits, a leading zero, `-0`, any byte that is no
/// digit, and a number out of range are all turned down.
pub fn parse_i32(text: &[u8]) -> (r: Option<i32>)
    ensures
        r == i32_of_text(text@),
{
    let negative: bool = text.len() > 0 && text[0] == MINUS;
    let run: &[u8] = if negative {
        &text[1..text.len()]
    } else {
        text
    };
    proof {
        // Whatever number `text` may be the text of, its sign is the one
        // that was found, and `run` holds the digits of its magnitude.
        assert forall|v: i32| text@ == int_text(v as int) implies (v < 0 <==> negative) && run@
            == digits(
            if v < 0 {
                (-v) as nat
            } else {
                v as nat
            },
        ) by {
            lemma_int_text_shape(v as int);
        }
    }
    if negative {
        match parse_u32(run, 0x8000_0000) {
            Some(magnitude) => {
                if magnitude == 0 {
                    proof {
                        assert forall|v: i32| text@ != int_text(v as int) by {
                            if text@ == int_text(v as int) {
                                lemma_value_of_digits((-v) as nat);
                                lemma_value_of_digits(0);
                            }
                        }
                    }
                    return None;
                }
                let v: i32 = (-(magnitude as i64)) as i32;
                proof {
                    assert(text@ =~= int_text(v as int));
                    lemma_i32_of_text(v);
                }
                Some(v)
            },
            None => {
                proof {
                    assert forall|v: i32| text@ != int_text(v as int) by {
                        if text@ == int_text(v as int) {
                            assert(run@ == digits((-v) as u32 as nat));
                        }
                    }
                }
                None
            },
        }
    } else {
        match parse_u32(run, 0x7fff_ffff) {
            Some(magnitude) => {
                let v: i32 = magnitude as i32;
                proof {
                    lemma_i32_of_text(v);
                }
                Some(v)
            },
            None => {
                proof {
                    assert forall|v: i32| text@ != int_text(v as int) by {
                        if text@ == int_text(v as int) {
                            assert(run@ == digits(v as u32 as nat));
                        }
                    }
                }
                None
            },
        }
    }
}

} // verus!
