//! References to a specific output of a prior transaction.

use vstd::prelude::*;
use vstd::bytes::*;
use vstd::slice::slice_subrange;
use crate::txid::Txid;
use crate::BitcoinError;

verus! {

/// The mathematical shape of an `OutPoint`: 32 identifier bytes and an index.
#[verifier::ext_equal]
pub struct OutPointView {
    pub txid: Seq<u8>,
    pub vout: u32,
}

impl OutPointView {
    /// A well-formed outpoint carries exactly 32 identifier bytes.
    pub open spec fn wf(self) -> bool {
        self.txid.len() == 32
    }
}

/// A reference to one output of a prior transaction. The binary form is
/// exactly 36 bytes: the identifier, then the index as 4 little-endian bytes.
#[derive(Debug, PartialEq, Eq, Clone)]
pub struct OutPoint {
    pub txid: Txid,
    pub vout: u32,
}

impl View for OutPoint {
    type V = OutPointView;

    open spec fn view(&self) -> OutPointView {
        OutPointView { txid: self.txid.0@, vout: self.vout }
    }
}

/// The canonical 36-byte form: identifier bytes, then the index.
pub open spec fn spec_outpoint_encode(o: OutPointView) -> Seq<u8> {
    o.txid + spec_u32_to_le_bytes(o.vout)
}

/// What decoding yields: this decoder works on an exact 36-byte window (the
/// caller slices it out of a larger buffer); any other length is a short read.
pub open spec fn spec_outpoint_decode(b: Seq<u8>) -> Result<(OutPointView, nat), BitcoinError> {
    if b.len() != 36 {
        Err(BitcoinError::InsufficientBytes)
    } else {
        Ok(
            (
                OutPointView {
                    txid: b.subrange(0, 32),
                    vout: spec_u32_from_le_bytes(b.subrange(32, 36)),
                },
                36,
            ),
        )
    }
}

impl OutPoint {
    pub fn new(txid: [u8; 32], vout: u32) -> (r: Self)
        ensures
            r@ == (OutPointView { txid: txid@, vout }),
    {
        Self { txid: Txid(txid), vout }
    }

    /// Encode to the canonical 36-byte form.
    pub fn to_bytes(&self) -> (r: Vec<u8>)
        ensures
            r@ == spec_outpoint_encode(self@),
            r@.len() == 36,
    {
        let mut out: Vec<u8> = Vec::new();
        out.extend_from_slice(self.txid.0.as_slice());
        let mut tail = u32_to_le_bytes(self.vout);
        out.append(&mut tail);
        proof {
            assert(out@ =~= spec_outpoint_encode(self@));
        }
        out
    }

    /// Decode from an exact 36-byte window, returning the value and the
    /// number of bytes consumed.
    pub fn from_bytes(bytes: &[u8]) -> (r: Result<(Self, usize), BitcoinError>)
        ensures
            match (r, spec_outpoint_decode(bytes@)) {
                (Ok((o, n)), Ok((m, k))) => o@ == m && n as nat == k,
                (Err(e), Err(f)) => e == f,
                _ => false,
            },
    {
        if bytes.len() != 36 {
            return Err(BitcoinError::InsufficientBytes);
        }
        let mut arr = [0u8; 32];
        let mut i: usize = 0;
        while i < 32
            invariant
                0 <= i <= 32,
                bytes@.len() == 36,
                arr@.len() == 32,
                forall|j: int| 0 <= j < i ==> arr@[j] == bytes@[j],
            decreases 32 - i,
        {
            arr[i] = bytes[i];
            i = i + 1;
        }
        let vout = u32_from_le_bytes(slice_subrange(bytes, 32, 36));
        proof {
            assert(arr@ =~= bytes@.subrange(0, 32));
        }
        Ok((OutPoint::new(arr, vout), 36))
    }
}

/// Round trip: an encoded outpoint decodes to itself, consuming 36 bytes.
pub proof fn lemma_outpoint_round_trip(o: OutPointView)
    requires
        o.wf(),
    ensures
        spec_outpoint_encode(o).len() == 36,
        spec_outpoint_decode(spec_outpoint_encode(o)) == Ok::<(OutPointView, nat), BitcoinError>(
            (o, 36),
        ),
{
    lemma_auto_spec_u32_to_from_le_bytes();
    let b = spec_outpoint_encode(o);
    assert(b.subrange(0, 32) =~= o.txid);
    assert(b.subrange(32, 36) =~= spec_u32_to_le_bytes(o.vout));
    assert(spec_outpoint_decode(b)->Ok_0.0 =~= o);
}

} // verus!
