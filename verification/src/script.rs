//! Length-prefixed opaque byte buffers.

use vstd::prelude::*;
use vstd::slice::{slice_subrange, slice_to_vec};
use crate::compact_size::{
    lemma_compact_size_decode_prefix, spec_compact_size_decode, spec_compact_size_encode,
    CompactSize,
};
use crate::BitcoinError;

verus! {

/// An opaque script payload. The binary form is a CompactSize length prefix
/// followed by exactly that many raw bytes.
#[derive(Debug, PartialEq, Eq, Clone)]
pub struct Script {
    pub bytes: Vec<u8>,
}

impl View for Script {
    type V = Seq<u8>;

    open spec fn view(&self) -> Seq<u8> {
        self.bytes@
    }
}

/// The canonical form: the payload's length as a CompactSize, then the
/// payload itself.
pub open spec fn spec_script_encode(s: Seq<u8>) -> Seq<u8>
    recommends
        s.len() <= u64::MAX,
{
    spec_compact_size_encode(s.len() as u64) + s
}

/// What decoding yields: the declared length bounds the payload read, and a
/// buffer holding fewer payload bytes than declared is a short read. Bytes
/// after the declared payload are left unconsumed for the caller.
pub open spec fn spec_script_decode(b: Seq<u8>) -> Result<(Seq<u8>, nat), BitcoinError> {
    match spec_compact_size_decode(b) {
        Err(e) => Err(e),
        Ok((l, n)) => if n + l <= b.len() {
            Ok((b.subrange(n as int, n + l), (n + l) as nat))
        } else {
            Err(BitcoinError::InsufficientBytes)
        },
    }
}

impl Script {
    pub fn new(bytes: Vec<u8>) -> (r: Self)
        ensures
            r@ == bytes@,
    {
        Self { bytes }
    }

    /// Read-only access to the raw payload bytes.
    pub fn as_bytes(&self) -> (r: &[u8])
        ensures
            r@ == self@,
    {
        self.bytes.as_slice()
    }

    /// Encode to the canonical length-prefixed form.
    pub fn to_bytes(&self) -> (r: Vec<u8>)
        ensures
            r@ == spec_script_encode(self@),
    {
        let len = self.bytes.len() as u64;
        let mut out = CompactSize::new(len).to_bytes();
        out.extend_from_slice(self.bytes.as_slice());
        proof {
            assert(out@ =~= spec_script_encode(self@));
        }
        out
    }

    /// Decode from the front of a buffer: the CompactSize prefix declares the
    /// payload length, and exactly that many bytes follow.
    pub fn from_bytes(bytes: &[u8]) -> (r: Result<(Self, usize), BitcoinError>)
        ensures
            match (r, spec_script_decode(bytes@)) {
                (Ok((s, n)), Ok((m, k))) => s@ == m && n as nat == k,
                (Err(e), Err(f)) => e == f,
                _ => false,
            },
    {
        let (cs, n) = match CompactSize::from_bytes(bytes) {
            Ok(p) => p,
            Err(e) => {
                return Err(e);
            },
        };
        proof {
            assert(n <= bytes@.len());
        }
        let l = cs.value;
        if l > (bytes.len() - n) as u64 {
            return Err(BitcoinError::InsufficientBytes);
        }
        let end = n + (l as usize);
        let payload = slice_to_vec(slice_subrange(bytes, n, end));
        Ok((Script::new(payload), end))
    }
}

/// A successful Script decode consumes no more than the buffer holds, and at
/// least the length prefix.
pub proof fn lemma_script_decode_bounds(b: Seq<u8>)
    ensures
        spec_script_decode(b) matches Ok((s, m)) ==> 1 <= m <= b.len(),
{
    match spec_compact_size_decode(b) {
        Err(_) => {},
        Ok((l, n)) => {
            assert(n >= 1);
        },
    }
}

/// Decoding reads only the encoded prefix: whatever follows the declared
/// payload changes neither the payload nor the count of consumed bytes.
pub proof fn lemma_script_decode_prefix(s: Seq<u8>, rest: Seq<u8>)
    requires
        s.len() <= u64::MAX,
    ensures
        spec_script_decode(spec_script_encode(s) + rest) == Ok::<(Seq<u8>, nat), BitcoinError>(
            (s, spec_script_encode(s).len() as nat),
        ),
{
    let pre = spec_compact_size_encode(s.len() as u64);
    let b = spec_script_encode(s) + rest;
    assert(b =~= pre + (s + rest));
    lemma_compact_size_decode_prefix(s.len() as u64, s + rest);
    assert(b.subrange(pre.len() as int, pre.len() as int + s.len() as int) =~= s);
}

/// Round trip: an encoded script decodes to the same payload, consuming
/// exactly the encoding's length.
pub proof fn lemma_script_round_trip(s: Seq<u8>)
    requires
        s.len() <= u64::MAX,
    ensures
        spec_script_decode(spec_script_encode(s)) == Ok::<(Seq<u8>, nat), BitcoinError>(
            (s, spec_script_encode(s).len() as nat),
        ),
{
    lemma_script_decode_prefix(s, Seq::empty());
    assert(spec_script_encode(s) + Seq::<u8>::empty() =~= spec_script_encode(s));
}

} // verus!
