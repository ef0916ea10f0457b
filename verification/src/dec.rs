//! Decimal text for unsigned integers: minimal digits out, bounded parse in.

use vstd::prelude::*;
use vstd::arithmetic::div_mod::lemma_fundamental_div_mod;

verus! {

/// Whether an ASCII byte is a decimal digit.
pub open spec fn spec_is_dec_digit(c: u8) -> bool {
    48 <= c <= 57
}

/// The minimal decimal digits, as ASCII bytes, of a number: no leading
/// zeros, and zero itself is the single digit `0`.
pub open spec fn spec_dec_bytes(n: nat) -> Seq<u8>
    decreases n,
{
    if n < 10 {
        seq![(48 + n) as u8]
    } else {
        spec_dec_bytes(n / 10) + seq![(48 + n % 10) as u8]
    }
}

/// Powers of ten.
pub open spec fn spec_pow10(k: nat) -> nat
    decreases k,
{
    if k == 0 {
        1
    } else {
        10 * spec_pow10((k - 1) as nat)
    }
}

/// The end of the run of decimal digits that starts at position `i`.
pub open spec fn spec_dec_run_end(bs: Seq<u8>, i: int) -> int
    decreases bs.len() - i,
{
    if i < bs.len() && spec_is_dec_digit(bs[i]) {
        spec_dec_run_end(bs, i + 1)
    } else {
        i
    }
}

/// The numeric value of the digit bytes in `[i, j)`.
pub open spec fn spec_dec_value(bs: Seq<u8>, i: int, j: int) -> int
    decreases j - i,
{
    if i < j {
        spec_dec_value(bs, i, j - 1) * 10 + bs[j - 1] - 48
    } else {
        0
    }
}

/// Parsing an unsigned decimal at position `i`, capped at `max`: the digit
/// run must be non-empty, at most 20 digits long, and worth at most `max`;
/// the parse returns the value and the position just past the run.
pub open spec fn spec_parse_dec(bs: Seq<u8>, i: int, max: u64) -> Option<(u64, int)> {
    let e = spec_dec_run_end(bs, i);
    if e == i || e - i > 20 || spec_dec_value(bs, i, e) > max {
        None
    } else {
        Some((spec_dec_value(bs, i, e) as u64, e))
    }
}

/// Append the decimal digits of `n` to a buffer.
pub(crate) fn push_dec(out: &mut Vec<u8>, n: u64)
    ensures
        final(out)@ == old(out)@ + spec_dec_bytes(n as nat),
    decreases n,
{
    if n < 10 {
        out.push(48 + n as u8);
        proof {
            assert(out@ =~= old(out)@ + spec_dec_bytes(n as nat));
        }
    } else {
        push_dec(out, n / 10);
        out.push(48 + (n % 10) as u8);
        proof {
            assert(out@ =~= old(out)@ + spec_dec_bytes(n as nat));
        }
    }
}

/// Ten to a smaller power divides into ten to a larger one.
proof fn lemma_pow10_le(a: nat, b: nat)
    requires
        a <= b,
    ensures
        spec_pow10(a) <= spec_pow10(b),
        spec_pow10(a) >= 1,
    decreases b,
{
    if b > 0 {
        if a == b {
            lemma_pow10_le(0, (b - 1) as nat);
        } else {
            lemma_pow10_le(a, (b - 1) as nat);
        }
    }
}

/// The run end lies between `i` and the buffer's end, everything before it
/// is a digit, and the byte at it (if any) is not.
pub proof fn lemma_dec_run_end_facts(bs: Seq<u8>, i: int)
    requires
        0 <= i <= bs.len(),
    ensures
        i <= spec_dec_run_end(bs, i) <= bs.len(),
        forall|j: int| i <= j < spec_dec_run_end(bs, i) ==> spec_is_dec_digit(#[trigger] bs[j]),
        spec_dec_run_end(bs, i) == bs.len() || !spec_is_dec_digit(bs[spec_dec_run_end(bs, i)]),
    decreases bs.len() - i,
{
    if i < bs.len() && spec_is_dec_digit(bs[i]) {
        lemma_dec_run_end_facts(bs, i + 1);
    }
}

/// A stretch of digits ending at a non-digit (or the buffer's end) is
/// exactly the digit run.
pub proof fn lemma_dec_run_end_is(bs: Seq<u8>, i: int, e: int)
    requires
        0 <= i <= e <= bs.len(),
        forall|j: int| i <= j < e ==> spec_is_dec_digit(#[trigger] bs[j]),
        e == bs.len() || !spec_is_dec_digit(bs[e]),
    ensures
        spec_dec_run_end(bs, i) == e,
    decreases e - i,
{
    if i < e {
        assert(spec_is_dec_digit(bs[i]));
        lemma_dec_run_end_is(bs, i + 1, e);
    }
}

/// The value of `j - i` digits is below ten to that power.
pub proof fn lemma_dec_value_bound(bs: Seq<u8>, i: int, j: int)
    requires
        0 <= i <= j <= bs.len(),
        forall|q: int| i <= q < j ==> spec_is_dec_digit(#[trigger] bs[q]),
    ensures
        0 <= spec_dec_value(bs, i, j) < spec_pow10((j - i) as nat),
    decreases j - i,
{
    if i < j {
        lemma_dec_value_bound(bs, i, j - 1);
        assert(spec_pow10((j - i) as nat) == 10 * spec_pow10((j - 1 - i) as nat));
        assert(spec_is_dec_digit(bs[j - 1]));
    }
}

/// Every byte of a number's decimal form is a digit.
pub proof fn lemma_dec_bytes_digits(n: nat)
    ensures
        forall|j: int|
            0 <= j < spec_dec_bytes(n).len() ==> spec_is_dec_digit(#[trigger] spec_dec_bytes(n)[j]),
    decreases n,
{
    if n >= 10 {
        lemma_dec_bytes_digits(n / 10);
        let head = spec_dec_bytes(n / 10);
        assert forall|j: int| 0 <= j < spec_dec_bytes(n).len() implies spec_is_dec_digit(
            #[trigger] spec_dec_bytes(n)[j],
        ) by {
            if j < head.len() {
                assert(spec_dec_bytes(n)[j] == head[j]);
            } else {
                assert(spec_dec_bytes(n)[j] == (48 + n % 10) as u8);
            }
        }
    }
}

/// A number below ten to the `k` has at most `k` decimal digits.
pub proof fn lemma_dec_bytes_len(n: nat, k: nat)
    requires
        1 <= k,
        n < spec_pow10(k),
    ensures
        1 <= spec_dec_bytes(n).len() <= k,
    decreases n,
{
    if n >= 10 {
        assert(spec_pow10(k) == 10 * spec_pow10((k - 1) as nat));
        lemma_dec_bytes_len(n / 10, (k - 1) as nat);
    }
}

/// Reading back the digits of `n` found at `[i, i + len)` yields `n`.
proof fn lemma_dec_value_of(bs: Seq<u8>, i: int, n: nat)
    requires
        0 <= i,
        i + spec_dec_bytes(n).len() <= bs.len(),
        bs.subrange(i, i + spec_dec_bytes(n).len() as int) == spec_dec_bytes(n),
    ensures
        spec_dec_value(bs, i, i + spec_dec_bytes(n).len() as int) == n,
    decreases n,
{
    let l = spec_dec_bytes(n).len() as int;
    if n < 10 {
        assert(bs[i] == spec_dec_bytes(n)[0]);
        assert(spec_dec_value(bs, i, i) == 0);
    } else {
        let head = spec_dec_bytes(n / 10);
        assert(spec_dec_bytes(n) == head + seq![(48 + n % 10) as u8]);
        assert(bs.subrange(i, i + head.len() as int) =~= head) by {
            assert forall|q: int| 0 <= q < head.len() implies bs.subrange(
                i,
                i + head.len() as int,
            )[q] == head[q] by {
                assert(bs[i + q] == bs.subrange(i, i + l)[q]);
                assert(spec_dec_bytes(n)[q] == head[q]);
            }
        }
        lemma_dec_value_of(bs, i, n / 10);
        assert(bs[i + l - 1] == spec_dec_bytes(n)[l - 1]);
        assert(bs[i + l - 1] == (48 + n % 10) as u8);
        lemma_fundamental_div_mod(n as int, 10);
    }
}

/// Round trip: the decimal form of `n`, written at position `i` and followed
/// by a non-digit byte or the buffer's end, parses back to exactly `n`.
pub proof fn lemma_dec_round_trip(bs: Seq<u8>, i: int, n: u64, max: u64)
    requires
        0 <= i,
        n <= max,
        i + spec_dec_bytes(n as nat).len() <= bs.len(),
        bs.subrange(i, i + spec_dec_bytes(n as nat).len() as int) == spec_dec_bytes(n as nat),
        i + spec_dec_bytes(n as nat).len() == bs.len() || !spec_is_dec_digit(
            bs[i + spec_dec_bytes(n as nat).len()],
        ),
    ensures
        spec_parse_dec(bs, i, max) == Some((n, i + spec_dec_bytes(n as nat).len() as int)),
{
    let l = spec_dec_bytes(n as nat).len() as int;
    lemma_dec_bytes_digits(n as nat);
    assert forall|j: int| i <= j < i + l implies spec_is_dec_digit(#[trigger] bs[j]) by {
        assert(bs[j] == bs.subrange(i, i + l)[j - i]);
    }
    lemma_dec_run_end_is(bs, i, i + l);
    assert(spec_pow10(20) == 100000000000000000000) by {
        reveal_with_fuel(spec_pow10, 21);
    }
    lemma_pow10_le(20, 20);
    lemma_dec_bytes_len(n as nat, 20);
    lemma_dec_value_of(bs, i, n as nat);
}

/// Parse an unsigned decimal at position `i`, capped at `max`.
pub(crate) fn parse_dec(bs: &[u8], i: usize, max: u64) -> (r: Option<(u64, usize)>)
    requires
        i <= bs@.len(),
    ensures
        match (r, spec_parse_dec(bs@, i as int, max)) {
            (Some((v, j)), Some((sv, sj))) => v == sv && j as int == sj,
            (None, None) => true,
            _ => false,
        },
{
    let mut e = i;
    while e < bs.len() && 48 <= bs[e] && bs[e] <= 57
        invariant
            i <= e <= bs@.len(),
            forall|j: int| i <= j < e ==> spec_is_dec_digit(#[trigger] bs@[j]),
        decreases bs@.len() - e,
    {
        e = e + 1;
    }
    proof {
        lemma_dec_run_end_is(bs@, i as int, e as int);
    }
    if e == i || e - i > 20 {
        return None;
    }
    proof {
        assert(spec_pow10(20) == 100000000000000000000) by {
            reveal_with_fuel(spec_pow10, 21);
        }
    }
    let mut acc: u128 = 0;
    let mut j = i;
    while j < e
        invariant
            i <= j <= e <= bs@.len(),
            e - i <= 20,
            forall|q: int| i <= q < e ==> spec_is_dec_digit(#[trigger] bs@[q]),
            acc == spec_dec_value(bs@, i as int, j as int),
            spec_pow10(20) == 100000000000000000000,
        decreases e - j,
    {
        let d = bs[j] - 48;
        proof {
            lemma_dec_value_bound(bs@, i as int, j as int);
            lemma_pow10_le(((j - i) + 1) as nat, 20);
            assert(spec_pow10(((j - i) + 1) as nat) == 10 * spec_pow10((j - i) as nat));
        }
        acc = acc * 10 + d as u128;
        j = j + 1;
    }
    if acc > max as u128 {
        return None;
    }
    Some((acc as u64, e))
}

} // verus!
