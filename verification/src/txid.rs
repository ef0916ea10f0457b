//! Transaction identifiers and their hexadecimal text form.

use vstd::prelude::*;
use vstd::string::StringSliceAdditionalSpecFns;
use crate::ascii::{ascii_to_string, spec_ascii_chars};
use crate::BitcoinError;

verus! {

/// A transaction identifier: exactly 32 raw bytes. The text form is
/// lowercase hex of 64 characters; the binary wire form is the bytes as-is.
#[derive(Debug, PartialEq, Eq, Clone)]
pub struct Txid(pub [u8; 32]);

/// Whether an ASCII byte is a hexadecimal digit, in either case.
pub open spec fn spec_is_hex_digit(c: u8) -> bool {
    (48 <= c <= 57) || (97 <= c <= 102) || (65 <= c <= 70)
}

/// The numeric value of a hexadecimal digit byte.
pub open spec fn spec_hex_val(c: u8) -> u8
    recommends
        spec_is_hex_digit(c),
{
    if 48 <= c <= 57 {
        (c - 48) as u8
    } else if 97 <= c <= 102 {
        (c - 87) as u8
    } else {
        (c - 55) as u8
    }
}

/// The lowercase hex digit, as an ASCII byte, of a value below 16.
pub open spec fn spec_hex_digit(n: u8) -> u8
    recommends
        n < 16,
{
    if n < 10 {
        (48 + n) as u8
    } else {
        (87 + n) as u8
    }
}

/// Lowercase hex text, as ASCII bytes, of a byte sequence: each byte becomes
/// its high nibble's digit and then its low nibble's digit.
pub open spec fn spec_hex_bytes(s: Seq<u8>) -> Seq<u8> {
    Seq::new(
        2 * s.len(),
        |i: int|
            if i % 2 == 0 {
                spec_hex_digit(s[i / 2] / 16)
            } else {
                spec_hex_digit(s[i / 2] % 16)
            },
    )
}

/// The 32 bytes that a hex text stands for, or the error: anything that is
/// not exactly 64 hex digits is malformed.
pub open spec fn spec_hex32_parse(t: Seq<u8>) -> Result<Seq<u8>, BitcoinError> {
    if t.len() == 64 && (forall|i: int| 0 <= i < 64 ==> spec_is_hex_digit(#[trigger] t[i])) {
        Ok(Seq::new(32, |i: int| (spec_hex_val(t[2 * i]) * 16 + spec_hex_val(t[2 * i + 1])) as u8))
    } else {
        Err(BitcoinError::InvalidFormat)
    }
}

/// The lowercase hex digit of a value below 16.
fn hex_digit(n: u8) -> (r: u8)
    requires
        n < 16,
    ensures
        r == spec_hex_digit(n),
{
    if n < 10 {
        48 + n
    } else {
        87 + n
    }
}

/// The value of a hex digit byte, or `None` if it is not one.
pub(crate) fn hex_val(c: u8) -> (r: Option<u8>)
    ensures
        match r {
            Some(v) => spec_is_hex_digit(c) && v == spec_hex_val(c),
            None => !spec_is_hex_digit(c),
        },
{
    if 48 <= c && c <= 57 {
        Some(c - 48)
    } else if 97 <= c && c <= 102 {
        Some(c - 87)
    } else if 65 <= c && c <= 70 {
        Some(c - 55)
    } else {
        None
    }
}

/// Append the lowercase hex digits of the given bytes to a buffer.
pub(crate) fn push_hex32(out: &mut Vec<u8>, bytes: &[u8; 32])
    ensures
        final(out)@ == old(out)@ + spec_hex_bytes(bytes@),
{
    let mut i: usize = 0;
    while i < 32
        invariant
            0 <= i <= 32,
            out@ == old(out)@ + spec_hex_bytes(bytes@).subrange(0, 2 * i as int),
        decreases 32 - i,
    {
        let b = bytes[i];
        out.push(hex_digit(b / 16));
        out.push(hex_digit(b % 16));
        proof {
            let h = spec_hex_bytes(bytes@);
            assert(h.subrange(0, 2 * (i + 1) as int) =~= h.subrange(0, 2 * i as int)
                + seq![h[2 * i as int], h[2 * i as int + 1]]);
            assert(h[2 * i as int] == spec_hex_digit(bytes@[i as int] / 16));
            assert(h[2 * i as int + 1] == spec_hex_digit(bytes@[i as int] % 16));
        }
        i = i + 1;
    }
    proof {
        assert(spec_hex_bytes(bytes@).subrange(0, 64) =~= spec_hex_bytes(bytes@));
    }
}

impl Txid {
    /// The text form: lowercase hex of the 32 bytes, exactly 64 characters.
    pub fn to_text(&self) -> (r: String)
        ensures
            r@ == spec_ascii_chars(spec_hex_bytes(self.0@)),
            r@.len() == 64,
    {
        let mut out: Vec<u8> = Vec::new();
        push_hex32(&mut out, &self.0);
        proof {
            assert forall|i: int| 0 <= i < out@.len() implies out@[i] < 128 by {
                assert(out@[i] == spec_hex_bytes(self.0@)[i]);
            }
        }
        ascii_to_string(out)
    }

    /// Parse a hex text back into an identifier: it must be exactly 64 hex
    /// digits (either case is accepted), that is 32 bytes.
    pub fn from_text(s: &str) -> (r: Result<Self, BitcoinError>)
        ensures
            match (r, spec_hex32_parse(s.spec_bytes())) {
                (Ok(t), Ok(bs)) => t.0@ == bs,
                (Err(e), Err(f)) => e == f,
                _ => false,
            },
    {
        let b: &[u8] = s.as_bytes();
        if b.len() != 64 {
            return Err(BitcoinError::InvalidFormat);
        }
        let mut arr = [0u8; 32];
        let mut k: usize = 0;
        while k < 32
            invariant
                0 <= k <= 32,
                b@.len() == 64,
                b@ == s.spec_bytes(),
                arr@.len() == 32,
                forall|j: int| 0 <= j < 2 * k ==> spec_is_hex_digit(#[trigger] b@[j]),
                forall|j: int|
                    0 <= j < k ==> arr@[j] == (spec_hex_val(b@[2 * j]) * 16 + spec_hex_val(
                        b@[2 * j + 1],
                    )) as u8,
            decreases 32 - k,
        {
            let hi = match hex_val(b[2 * k]) {
                Some(v) => v,
                None => {
                    return Err(BitcoinError::InvalidFormat);
                },
            };
            let lo = match hex_val(b[2 * k + 1]) {
                Some(v) => v,
                None => {
                    return Err(BitcoinError::InvalidFormat);
                },
            };
            arr[k] = hi * 16 + lo;
            k = k + 1;
        }
        proof {
            let t = s.spec_bytes();
            assert forall|i: int| 0 <= i < 64 implies spec_is_hex_digit(#[trigger] t[i]) by {
                assert(t[i] == b@[i]);
            }
            assert(arr@ =~= spec_hex32_parse(t)->Ok_0);
        }
        Ok(Txid(arr))
    }
}

/// Hex round trip: the hex text of any 32 bytes parses back to those bytes.
pub proof fn lemma_hex32_round_trip(bs: Seq<u8>)
    requires
        bs.len() == 32,
    ensures
        spec_hex32_parse(spec_hex_bytes(bs)) == Ok::<Seq<u8>, BitcoinError>(bs),
{
    let t = spec_hex_bytes(bs);
    assert(t.len() == 64);
    assert forall|i: int| 0 <= i < 64 implies spec_is_hex_digit(#[trigger] t[i]) by {
        if i % 2 == 0 {
            assert(t[i] == spec_hex_digit(bs[i / 2] / 16));
        } else {
            assert(t[i] == spec_hex_digit(bs[i / 2] % 16));
        }
    }
    let r = spec_hex32_parse(t)->Ok_0;
    assert forall|i: int| 0 <= i < 32 implies r[i] == bs[i] by {
        assert(t[2 * i] == spec_hex_digit(bs[i] / 16));
        assert(t[2 * i + 1] == spec_hex_digit(bs[i] % 16));
        assert(spec_hex_val(spec_hex_digit(bs[i] / 16)) == bs[i] / 16);
        assert(spec_hex_val(spec_hex_digit(bs[i] % 16)) == bs[i] % 16);
        assert((bs[i] / 16) * 16 + bs[i] % 16 == bs[i]) by {
            vstd::arithmetic::div_mod::lemma_fundamental_div_mod(bs[i] as int, 16);
        }
    }
    assert(r =~= bs);
}

/// The same round trip at the string boundary: a string whose characters are
/// `to_text`'s output carries the hex bytes, so `from_text` on it succeeds
/// with the same identifier.
pub proof fn lemma_hex32_round_trip_str(s: &str, bs: Seq<u8>)
    requires
        bs.len() == 32,
        s@ == spec_ascii_chars(spec_hex_bytes(bs)),
    ensures
        spec_hex32_parse(s.spec_bytes()) == Ok::<Seq<u8>, BitcoinError>(bs),
{
    let h = spec_hex_bytes(bs);
    assert forall|i: int| 0 <= i < h.len() implies h[i] < 128 by {
        if i % 2 == 0 {
            assert(h[i] == spec_hex_digit(bs[i / 2] / 16));
        } else {
            assert(h[i] == spec_hex_digit(bs[i / 2] % 16));
        }
    }
    crate::ascii::lemma_ascii_chars_utf8(h);
    assert(s.spec_bytes() == h);
    lemma_hex32_round_trip(bs);
}

} // verus!
