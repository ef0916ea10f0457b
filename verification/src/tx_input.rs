//! Transaction inputs: an outpoint, a script, and a sequence number.

use vstd::prelude::*;
use vstd::bytes::*;
use vstd::slice::slice_subrange;
use crate::outpoint::{
    lemma_outpoint_round_trip, spec_outpoint_decode, spec_outpoint_encode, OutPoint, OutPointView,
};
use crate::script::{
    lemma_script_decode_bounds, lemma_script_decode_prefix, spec_script_decode, spec_script_encode,
    Script,
};
use crate::BitcoinError;

verus! {

/// The mathematical shape of a `TransactionInput`.
#[verifier::ext_equal]
pub struct InputView {
    pub previous_output: OutPointView,
    pub script_sig: Seq<u8>,
    pub sequence: u32,
}

impl InputView {
    /// Well-formed: the outpoint carries 32 identifier bytes and the script
    /// payload's length has a CompactSize form.
    pub open spec fn wf(self) -> bool {
        self.previous_output.wf() && self.script_sig.len() <= u64::MAX
    }
}

/// One input of a transaction. The binary form is the outpoint's 36 bytes,
/// the script's length-prefixed bytes, and the sequence number as 4
/// little-endian bytes.
#[derive(Debug, PartialEq, Eq, Clone)]
pub struct TransactionInput {
    pub previous_output: OutPoint,
    pub script_sig: Script,
    pub sequence: u32,
}

impl View for TransactionInput {
    type V = InputView;

    open spec fn view(&self) -> InputView {
        InputView {
            previous_output: self.previous_output@,
            script_sig: self.script_sig@,
            sequence: self.sequence,
        }
    }
}

/// The canonical form: outpoint, script, then the sequence number.
pub open spec fn spec_input_encode(i: InputView) -> Seq<u8>
    recommends
        i.wf(),
{
    spec_outpoint_encode(i.previous_output) + spec_script_encode(i.script_sig)
        + spec_u32_to_le_bytes(i.sequence)
}

/// What decoding from the front of a buffer yields: 36 bytes are sliced for
/// the outpoint, the script is read bounded by its declared length, and 4
/// bytes follow for the sequence number. Trailing bytes stay unconsumed.
pub open spec fn spec_input_decode(b: Seq<u8>) -> Result<(InputView, nat), BitcoinError> {
    if b.len() < 36 {
        Err(BitcoinError::InsufficientBytes)
    } else {
        match spec_outpoint_decode(b.subrange(0, 36)) {
            Err(e) => Err(e),
            Ok((o, _)) => match spec_script_decode(b.skip(36)) {
                Err(e) => Err(e),
                Ok((s, m)) => if 36 + m + 4 <= b.len() {
                    Ok(
                        (
                            InputView {
                                previous_output: o,
                                script_sig: s,
                                sequence: spec_u32_from_le_bytes(
                                    b.subrange(36 + m as int, 36 + m as int + 4),
                                ),
                            },
                            (36 + m + 4) as nat,
                        ),
                    )
                } else {
                    Err(BitcoinError::InsufficientBytes)
                },
            },
        }
    }
}

impl TransactionInput {
    pub fn new(previous_output: OutPoint, script_sig: Script, sequence: u32) -> (r: Self)
        ensures
            r@ == (InputView {
                previous_output: previous_output@,
                script_sig: script_sig@,
                sequence,
            }),
    {
        Self { previous_output, script_sig, sequence }
    }

    /// Encode to the canonical form.
    pub fn to_bytes(&self) -> (r: Vec<u8>)
        ensures
            r@ == spec_input_encode(self@),
    {
        let mut out = self.previous_output.to_bytes();
        let mut script = self.script_sig.to_bytes();
        out.append(&mut script);
        let mut tail = u32_to_le_bytes(self.sequence);
        out.append(&mut tail);
        proof {
            assert(out@ =~= spec_input_encode(self@));
        }
        out
    }

    /// Decode from the front of a buffer, returning the value and the number
    /// of bytes consumed.
    pub fn from_bytes(bytes: &[u8]) -> (r: Result<(Self, usize), BitcoinError>)
        ensures
            match (r, spec_input_decode(bytes@)) {
                (Ok((i, n)), Ok((m, k))) => i@ == m && n as nat == k,
                (Err(e), Err(f)) => e == f,
                _ => false,
            },
    {
        if bytes.len() < 36 {
            return Err(BitcoinError::InsufficientBytes);
        }
        let outpoint = match OutPoint::from_bytes(slice_subrange(bytes, 0, 36)) {
            Ok((o, _)) => o,
            Err(e) => {
                return Err(e);
            },
        };
        proof {
            assert(bytes@.subrange(36, bytes@.len() as int) =~= bytes@.skip(36));
            lemma_script_decode_bounds(bytes@.skip(36));
        }
        let (script, sc) = match Script::from_bytes(slice_subrange(bytes, 36, bytes.len())) {
            Ok(p) => p,
            Err(e) => {
                return Err(e);
            },
        };
        let off = 36 + sc;
        if bytes.len() - off < 4 {
            return Err(BitcoinError::InsufficientBytes);
        }
        let sequence = u32_from_le_bytes(slice_subrange(bytes, off, off + 4));
        Ok((TransactionInput::new(outpoint, script, sequence), off + 4))
    }
}

/// A successful input decode consumes between 41 bytes and the whole buffer.
pub proof fn lemma_input_decode_bounds(b: Seq<u8>)
    ensures
        spec_input_decode(b) matches Ok((i, k)) ==> 41 <= k <= b.len(),
{
    if b.len() >= 36 {
        match spec_outpoint_decode(b.subrange(0, 36)) {
            Err(_) => {},
            Ok(_) => {
                lemma_script_decode_bounds(b.skip(36));
            },
        }
    }
}

/// Decoding reads only the encoded prefix: whatever follows it in the buffer
/// changes neither the decoded input nor the count of consumed bytes.
pub proof fn lemma_input_decode_prefix(i: InputView, rest: Seq<u8>)
    requires
        i.wf(),
    ensures
        spec_input_encode(i).len() == 40 + spec_script_encode(i.script_sig).len(),
        spec_input_decode(spec_input_encode(i) + rest) == Ok::<(InputView, nat), BitcoinError>(
            (i, spec_input_encode(i).len() as nat),
        ),
{
    let eo = spec_outpoint_encode(i.previous_output);
    let es = spec_script_encode(i.script_sig);
    let eq = spec_u32_to_le_bytes(i.sequence);
    let b = spec_input_encode(i) + rest;
    lemma_auto_spec_u32_to_from_le_bytes();
    lemma_outpoint_round_trip(i.previous_output);
    assert(b.subrange(0, 36) =~= eo);
    assert(b.skip(36) =~= es + (eq + rest));
    lemma_script_decode_prefix(i.script_sig, eq + rest);
    let m = es.len() as int;
    assert(b.subrange(36 + m, 36 + m + 4) =~= eq);
    assert(spec_input_decode(b)->Ok_0.0 =~= i);
}

/// Round trip: an encoded input decodes to itself, consuming exactly the
/// encoding's length.
pub proof fn lemma_input_round_trip(i: InputView)
    requires
        i.wf(),
    ensures
        spec_input_decode(spec_input_encode(i)) == Ok::<(InputView, nat), BitcoinError>(
            (i, spec_input_encode(i).len() as nat),
        ),
{
    lemma_input_decode_prefix(i, Seq::empty());
    assert(spec_input_encode(i) + Seq::<u8>::empty() =~= spec_input_encode(i));
}

} // verus!
