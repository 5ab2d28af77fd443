//! Decimal ASCII digit runs: their rendering, their numeric value, and the
//! executable conversions both engines build on.

use vstd::prelude::*;

use crate::protocol::DIGIT_NINE;
use crate::protocol::DIGIT_ZERO;
use crate::protocol::MINUS;

verus! {

/// Whether `b` is an ASCII decimal digit.
pub open spec fn is_digit(b: u8) -> bool {
    DIGIT_ZERO <= b <= DIGIT_NINE
}

/// Decimal ASCII digits of `n`, most significant first; zero renders as `0`.
pub open spec fn spec_digits(n: nat) -> Seq<u8>
    decreases n,
{
    if n < 10 {
        seq![(DIGIT_ZERO + n) as u8]
    } else {
        spec_digits(n / 10).push((DIGIT_ZERO + n % 10) as u8)
    }
}

/// Decimal ASCII rendering of a signed integer: a `-` before the magnitude's
/// digits when negative.
pub open spec fn spec_int_bytes(i: int) -> Seq<u8> {
    if i < 0 {
        seq![MINUS] + spec_digits((-i) as nat)
    } else {
        spec_digits(i as nat)
    }
}

/// Numeric value of a run of ASCII digits.
pub open spec fn spec_digits_val(s: Seq<u8>) -> nat
    decreases s.len(),
{
    if s.len() == 0 {
        0
    } else {
        spec_digits_val(s.drop_last()) * 10 + (s.last() - DIGIT_ZERO) as nat
    }
}

/// The index of the first non-digit byte at or after `pos` (or the end of
/// the sequence).
pub open spec fn digits_end(s: Seq<u8>, pos: int) -> int
    decreases s.len() - pos,
{
    if pos < 0 || pos >= s.len() || !is_digit(s[pos]) {
        pos
    } else {
        digits_end(s, pos + 1)
    }
}

/// A rendered number is made of digits, at least one, and starts with `0`
/// exactly for the value zero.
pub proof fn lemma_spec_digits(n: nat)
    ensures
        spec_digits(n).len() >= 1,
        forall|i: int| 0 <= i < spec_digits(n).len() ==> is_digit(#[trigger] spec_digits(n)[i]),
        spec_digits(n)[0] == DIGIT_ZERO <==> n == 0,
        n < 10 ==> spec_digits(n).len() == 1,
    decreases n,
{
    if n >= 10 {
        lemma_spec_digits(n / 10);
        let p = spec_digits(n / 10);
        assert forall|i: int| 0 <= i < spec_digits(n).len() implies is_digit(
            #[trigger] spec_digits(n)[i],
        ) by {
            if i < p.len() {
                assert(spec_digits(n)[i] == p[i]);
            }
        }
        assert(spec_digits(n)[0] == p[0]);
    }
}

/// Reading back the rendering of `n` yields `n`.
pub proof fn lemma_digits_val_of_digits(n: nat)
    ensures
        spec_digits_val(spec_digits(n)) == n,
    decreases n,
{
    if n < 10 {
        assert(spec_digits(n).drop_last() =~= Seq::<u8>::empty());
        assert(spec_digits_val(Seq::<u8>::empty()) == 0);
        assert(spec_digits(n).last() == (DIGIT_ZERO + n) as u8);
    } else {
        lemma_digits_val_of_digits(n / 10);
        assert(spec_digits(n) == spec_digits(n / 10).push((DIGIT_ZERO + n % 10) as u8));
        assert(spec_digits(n).drop_last() =~= spec_digits(n / 10));
        assert(spec_digits(n).last() == (DIGIT_ZERO + n % 10) as u8);
        assert(spec_digits_val(spec_digits(n)) == (n / 10) * 10 + n % 10);
        vstd::arithmetic::div_mod::lemma_fundamental_div_mod(n as int, 10);
    }
}

/// The digit scan stops inside bounds, covers digits only, and stops at the
/// first non-digit.
pub proof fn lemma_digits_end(s: Seq<u8>, pos: int)
    requires
        0 <= pos <= s.len(),
    ensures
        pos <= digits_end(s, pos) <= s.len(),
        forall|j: int| pos <= j < digits_end(s, pos) ==> is_digit(#[trigger] s[j]),
        digits_end(s, pos) < s.len() ==> !is_digit(s[digits_end(s, pos)]),
    decreases s.len() - pos,
{
    if pos < s.len() && is_digit(s[pos]) {
        lemma_digits_end(s, pos + 1);
    }
}

/// A region known to hold digits and to be followed by a non-digit is
/// exactly what the digit scan spans.
pub proof fn lemma_digits_end_exact(s: Seq<u8>, pos: int, end: int)
    requires
        0 <= pos <= end <= s.len(),
        forall|j: int| pos <= j < end ==> is_digit(#[trigger] s[j]),
        end < s.len() ==> !is_digit(s[end]),
    ensures
        digits_end(s, pos) == end,
    decreases end - pos,
{
    if pos < end {
        lemma_digits_end_exact(s, pos + 1, end);
    }
}

/// A digit run is worth at least as much as any of its prefixes.
pub proof fn lemma_digits_val_prefix_mono(s: Seq<u8>, k: int)
    requires
        0 <= k <= s.len(),
    ensures
        spec_digits_val(s) >= spec_digits_val(s.subrange(0, k)),
    decreases s.len() - k,
{
    if k == s.len() {
        assert(s.subrange(0, k) =~= s);
    } else {
        lemma_digits_val_prefix_mono(s, k + 1);
        assert(s.subrange(0, k + 1).drop_last() =~= s.subrange(0, k));
    }
}

/// Append the decimal rendering of `n` to `out`.
pub fn push_digits(n: u64, out: &mut Vec<u8>)
    ensures
        final(out)@ == old(out)@ + spec_digits(n as nat),
    decreases n,
{
    if n < 10 {
        out.push(DIGIT_ZERO + n as u8);
        assert(out@ =~= old(out)@ + spec_digits(n as nat));
    } else {
        push_digits(n / 10, out);
        out.push(DIGIT_ZERO + (n % 10) as u8);
        assert(out@ =~= old(out)@ + spec_digits(n as nat));
    }
}

/// The numeric value of the digit region `[start, end)`, or `None` when it
/// exceeds the 64-bit range.
pub fn digits_to_u64(bytes: &Vec<u8>, start: usize, end: usize) -> (r: Option<u64>)
    requires
        start <= end <= bytes@.len(),
        forall|j: int| start <= j < end ==> is_digit(#[trigger] bytes@[j]),
    ensures
        match r {
            Some(v) => v as nat == spec_digits_val(bytes@.subrange(start as int, end as int)),
            None => spec_digits_val(bytes@.subrange(start as int, end as int)) > u64::MAX,
        },
{
    let mut acc: u64 = 0;
    let mut i: usize = start;
    while i < end
        invariant
            start <= i <= end <= bytes@.len(),
            forall|j: int| start <= j < end ==> is_digit(#[trigger] bytes@[j]),
            acc as nat == spec_digits_val(bytes@.subrange(start as int, i as int)),
        decreases end - i,
    {
        let d = bytes[i] - DIGIT_ZERO;
        if acc > (u64::MAX - d as u64) / 10 {
            proof {
                let taken = bytes@.subrange(start as int, i as int + 1);
                assert(taken.drop_last() =~= bytes@.subrange(start as int, i as int));
                assert(taken.last() == bytes@[i as int]);
                assert(acc * 10 + d > u64::MAX) by (nonlinear_arith)
                    requires
                        acc > (u64::MAX - d as u64) / 10,
                        0 <= d < 10,
                        u64::MAX == (u64::MAX - d as u64) / 10 * 10 + (u64::MAX - d as u64) % 10
                            + d,
                        (u64::MAX - d as u64) % 10 < 10,
                {}
                assert(spec_digits_val(taken) > u64::MAX);
                lemma_digits_val_prefix_mono(
                    bytes@.subrange(start as int, end as int),
                    i as int + 1 - start,
                );
                assert(bytes@.subrange(start as int, end as int).subrange(
                    0,
                    i as int + 1 - start,
                ) =~= taken);
            }
            return None;
        }
        proof {
            let taken = bytes@.subrange(start as int, i as int + 1);
            assert(taken.drop_last() =~= bytes@.subrange(start as int, i as int));
            assert(taken.last() == bytes@[i as int]);
            assert(acc <= (u64::MAX - d as u64) / 10);
            assert(acc * 10 + d <= u64::MAX) by (nonlinear_arith)
                requires
                    acc <= (u64::MAX - d as u64) / 10,
                    0 <= d < 10,
                    u64::MAX == (u64::MAX - d as u64) / 10 * 10 + (u64::MAX - d as u64) % 10 + d,
                    (u64::MAX - d as u64) % 10 < 10,
            {}
        }
        acc = acc * 10 + d as u64;
        i = i + 1;
    }
    proof {
        assert(bytes@.subrange(start as int, end as int) =~= bytes@.subrange(
            start as int,
            i as int,
        ));
    }
    Some(acc)
}

} // verus!
