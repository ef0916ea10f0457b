//! The CompactSize variable-length unsigned integer encoding.

use vstd::prelude::*;
use vstd::bytes::*;
use vstd::slice::slice_subrange;
use crate::BitcoinError;

verus! {

/// A Bitcoin CompactSize (variable-length) integer.
#[derive(Debug, PartialEq, Eq, Clone)]
pub struct CompactSize {
    pub value: u64,
}

/// The canonical CompactSize byte form of a value: values up to 0xFC are a
/// single byte; larger values get a tag byte (0xFD/0xFE/0xFF) followed by the
/// value as 2, 4 or 8 little-endian bytes.
pub open spec fn spec_compact_size_encode(v: u64) -> Seq<u8> {
    if v <= 0xFC {
        seq![v as u8]
    } else if v <= 0xFFFF {
        seq![0xFDu8] + spec_u16_to_le_bytes(v as u16)
    } else if v <= 0xFFFF_FFFF {
        seq![0xFEu8] + spec_u32_to_le_bytes(v as u32)
    } else {
        seq![0xFFu8] + spec_u64_to_le_bytes(v)
    }
}

/// What decoding a buffer as a CompactSize yields: the value and the number
/// of bytes consumed, or the error. An empty buffer is malformed; a tag byte
/// without enough bytes behind it is a short read.
pub open spec fn spec_compact_size_decode(b: Seq<u8>) -> Result<(u64, nat), BitcoinError> {
    if b.len() == 0 {
        Err(BitcoinError::InvalidFormat)
    } else if b[0] <= 0xFC {
        Ok((b[0] as u64, 1))
    } else if b[0] == 0xFD {
        if b.len() >= 3 {
            Ok((spec_u16_from_le_bytes(b.subrange(1, 3)) as u64, 3))
        } else {
            Err(BitcoinError::InsufficientBytes)
        }
    } else if b[0] == 0xFE {
        if b.len() >= 5 {
            Ok((spec_u32_from_le_bytes(b.subrange(1, 5)) as u64, 5))
        } else {
            Err(BitcoinError::InsufficientBytes)
        }
    } else {
        if b.len() >= 9 {
            Ok((spec_u64_from_le_bytes(b.subrange(1, 9)), 9))
        } else {
            Err(BitcoinError::InsufficientBytes)
        }
    }
}

impl CompactSize {
    pub fn new(value: u64) -> (r: Self)
        ensures
            r.value == value,
    {
        Self { value }
    }

    /// Encode to the canonical byte form.
    pub fn to_bytes(&self) -> (r: Vec<u8>)
        ensures
            r@ == spec_compact_size_encode(self.value),
    {
        let mut out: Vec<u8> = Vec::new();
        if self.value <= 0xFC {
            out.push(self.value as u8);
        } else if self.value <= 0xFFFF {
            out.push(0xFD);
            let mut tail = u16_to_le_bytes(self.value as u16);
            out.append(&mut tail);
        } else if self.value <= 0xFFFF_FFFF {
            out.push(0xFE);
            let mut tail = u32_to_le_bytes(self.value as u32);
            out.append(&mut tail);
        } else {
            out.push(0xFF);
            let mut tail = u64_to_le_bytes(self.value);
            out.append(&mut tail);
        }
        proof {
            assert(out@ =~= spec_compact_size_encode(self.value));
        }
        out
    }

    /// Decode a CompactSize from the front of a buffer, returning the value
    /// and the number of bytes consumed.
    pub fn from_bytes(bytes: &[u8]) -> (r: Result<(Self, usize), BitcoinError>)
        ensures
            match (r, spec_compact_size_decode(bytes@)) {
                (Ok((c, n)), Ok((v, m))) => c.value == v && n as nat == m,
                (Err(e), Err(f)) => e == f,
                _ => false,
            },
    {
        if bytes.len() == 0 {
            return Err(BitcoinError::InvalidFormat);
        }
        let first = bytes[0];
        if first <= 0xFC {
            Ok((Self::new(first as u64), 1))
        } else if first == 0xFD {
            if bytes.len() < 3 {
                return Err(BitcoinError::InsufficientBytes);
            }
            let v = u16_from_le_bytes(slice_subrange(bytes, 1, 3));
            Ok((Self::new(v as u64), 3))
        } else if first == 0xFE {
            if bytes.len() < 5 {
                return Err(BitcoinError::InsufficientBytes);
            }
            let v = u32_from_le_bytes(slice_subrange(bytes, 1, 5));
            Ok((Self::new(v as u64), 5))
        } else {
            if bytes.len() < 9 {
                return Err(BitcoinError::InsufficientBytes);
            }
            let v = u64_from_le_bytes(slice_subrange(bytes, 1, 9));
            Ok((Self::new(v), 9))
        }
    }
}

/// Decoding reads only the encoded prefix: whatever follows it in the buffer
/// changes neither the value nor the count of consumed bytes.
pub proof fn lemma_compact_size_decode_prefix(v: u64, rest: Seq<u8>)
    ensures
        spec_compact_size_decode(spec_compact_size_encode(v) + rest) == Ok::<
            (u64, nat),
            BitcoinError,
        >((v, spec_compact_size_encode(v).len() as nat)),
{
    let e = spec_compact_size_encode(v);
    let b = e + rest;
    lemma_auto_spec_u16_to_from_le_bytes();
    lemma_auto_spec_u32_to_from_le_bytes();
    lemma_auto_spec_u64_to_from_le_bytes();
    if v <= 0xFC {
        assert(b[0] == v as u8);
    } else if v <= 0xFFFF {
        assert(b[0] == 0xFDu8);
        assert(b.subrange(1, 3) =~= spec_u16_to_le_bytes(v as u16));
        assert(spec_u16_from_le_bytes(b.subrange(1, 3)) == v as u16);
    } else if v <= 0xFFFF_FFFF {
        assert(b[0] == 0xFEu8);
        assert(b.subrange(1, 5) =~= spec_u32_to_le_bytes(v as u32));
        assert(spec_u32_from_le_bytes(b.subrange(1, 5)) == v as u32);
    } else {
        assert(b[0] == 0xFFu8);
        assert(b.subrange(1, 9) =~= spec_u64_to_le_bytes(v));
        assert(spec_u64_from_le_bytes(b.subrange(1, 9)) == v);
    }
}

/// Round trip: decoding a canonical encoding returns the encoded value and
/// consumes exactly the encoding's length.
pub proof fn lemma_compact_size_round_trip(v: u64)
    ensures
        spec_compact_size_decode(spec_compact_size_encode(v)) == Ok::<(u64, nat), BitcoinError>(
            (v, spec_compact_size_encode(v).len() as nat),
        ),
{
    lemma_compact_size_decode_prefix(v, Seq::empty());
    assert(spec_compact_size_encode(v) + Seq::<u8>::empty() =~= spec_compact_size_encode(v));
}

/// The encoding is injective: each value has one canonical byte form.
pub proof fn lemma_compact_size_encode_injective(a: u64, b: u64)
    requires
        spec_compact_size_encode(a) == spec_compact_size_encode(b),
    ensures
        a == b,
{
    lemma_compact_size_round_trip(a);
    lemma_compact_size_round_trip(b);
}

} // verus!
