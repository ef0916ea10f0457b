//! Whole transactions: a version, a count-prefixed input list, a lock time.

use vstd::prelude::*;
use vstd::bytes::*;
use vstd::slice::slice_subrange;
use crate::compact_size::{
    lemma_compact_size_decode_prefix, spec_compact_size_decode, spec_compact_size_encode,
    CompactSize,
};
use crate::tx_input::{
    lemma_input_decode_bounds, lemma_input_decode_prefix, spec_input_decode, spec_input_encode,
    InputView, TransactionInput,
};
use crate::BitcoinError;

verus! {

/// The mathematical shape of a `BitcoinTransaction`.
#[verifier::ext_equal]
pub struct TxView {
    pub version: u32,
    pub inputs: Seq<InputView>,
    pub lock_time: u32,
}

impl TxView {
    /// Well-formed: the input count has a CompactSize form and every input is
    /// itself well formed.
    pub open spec fn wf(self) -> bool {
        self.inputs.len() <= u64::MAX && forall|i: int|
            0 <= i < self.inputs.len() ==> (#[trigger] self.inputs[i]).wf()
    }
}

/// The views of the inputs held in a vector.
pub open spec fn spec_input_views(v: Seq<TransactionInput>) -> Seq<InputView> {
    Seq::new(v.len(), |i: int| v[i]@)
}

/// A transaction. The binary form is the version as 4 little-endian bytes,
/// the input count as a CompactSize, each input's bytes in order, and the
/// lock time as 4 little-endian bytes.
#[derive(Debug, PartialEq, Eq, Clone)]
pub struct BitcoinTransaction {
    pub version: u32,
    pub inputs: Vec<TransactionInput>,
    pub lock_time: u32,
}

impl View for BitcoinTransaction {
    type V = TxView;

    open spec fn view(&self) -> TxView {
        TxView {
            version: self.version,
            inputs: spec_input_views(self.inputs@),
            lock_time: self.lock_time,
        }
    }
}

/// The concatenation of the canonical forms of a list of inputs.
pub open spec fn spec_inputs_encode(is: Seq<InputView>) -> Seq<u8>
    decreases is.len(),
{
    if is.len() == 0 {
        Seq::empty()
    } else {
        spec_input_encode(is[0]) + spec_inputs_encode(is.drop_first())
    }
}

/// The canonical form of a whole transaction.
pub open spec fn spec_tx_encode(t: TxView) -> Seq<u8>
    recommends
        t.wf(),
{
    spec_u32_to_le_bytes(t.version) + spec_compact_size_encode(t.inputs.len() as u64)
        + spec_inputs_encode(t.inputs) + spec_u32_to_le_bytes(t.lock_time)
}

/// Decoding `n` inputs one after another from the front of a buffer: each
/// consumes its own bytes, and the next starts where it ended.
pub open spec fn spec_inputs_decode(b: Seq<u8>, n: nat) -> Result<
    (Seq<InputView>, nat),
    BitcoinError,
>
    decreases n,
{
    if n == 0 {
        Ok((Seq::empty(), 0))
    } else {
        match spec_input_decode(b) {
            Err(e) => Err(e),
            Ok((m, k)) => match spec_inputs_decode(b.skip(k as int), (n - 1) as nat) {
                Err(e) => Err(e),
                Ok((ms, j)) => Ok((seq![m] + ms, (k + j) as nat)),
            },
        }
    }
}

/// What decoding a transaction yields: the version, the declared number of
/// inputs decoded in sequence, then the lock time; a buffer exhausted before
/// any of those is a short read. Trailing bytes stay unconsumed.
pub open spec fn spec_tx_decode(b: Seq<u8>) -> Result<(TxView, nat), BitcoinError> {
    if b.len() < 4 {
        Err(BitcoinError::InsufficientBytes)
    } else {
        match spec_compact_size_decode(b.skip(4)) {
            Err(e) => Err(e),
            Ok((cnt, n)) => match spec_inputs_decode(b.skip(4 + n as int), cnt as nat) {
                Err(e) => Err(e),
                Ok((ms, j)) => if 4 + n + j + 4 <= b.len() {
                    Ok(
                        (
                            TxView {
                                version: spec_u32_from_le_bytes(b.subrange(0, 4)),
                                inputs: ms,
                                lock_time: spec_u32_from_le_bytes(
                                    b.subrange(
                                        4 + n as int + j as int,
                                        4 + n as int + j as int + 4,
                                    ),
                                ),
                            },
                            (4 + n + j + 4) as nat,
                        ),
                    )
                } else {
                    Err(BitcoinError::InsufficientBytes)
                },
            },
        }
    }
}

/// A decoded prefix of the input list carries over: errors in the remainder
/// pass through, successes are prepended to it.
pub open spec fn spec_decoded_so_far(
    pre: Seq<InputView>,
    used: nat,
    r: Result<(Seq<InputView>, nat), BitcoinError>,
) -> Result<(Seq<InputView>, nat), BitcoinError> {
    match r {
        Err(e) => Err(e),
        Ok((ms, k)) => Ok((pre + ms, (used + k) as nat)),
    }
}

proof fn lemma_decoded_so_far_step(
    pre: Seq<InputView>,
    used: nat,
    m: InputView,
    k: nat,
    r: Result<(Seq<InputView>, nat), BitcoinError>,
)
    ensures
        spec_decoded_so_far(pre, used, spec_decoded_so_far(seq![m], k, r))
            == spec_decoded_so_far(pre.push(m), (used + k) as nat, r),
{
    match r {
        Err(_) => {},
        Ok((ms, j)) => {
            assert(pre + (seq![m] + ms) =~= pre.push(m) + ms);
        },
    }
}

/// Encoding a concatenation of input lists concatenates their encodings.
pub proof fn lemma_inputs_encode_app(a: Seq<InputView>, b: Seq<InputView>)
    ensures
        spec_inputs_encode(a + b) == spec_inputs_encode(a) + spec_inputs_encode(b),
    decreases a.len(),
{
    if a.len() == 0 {
        assert(a + b =~= b);
        assert(spec_inputs_encode(a) + spec_inputs_encode(b) =~= spec_inputs_encode(b));
    } else {
        assert((a + b).len() > 0);
        assert((a + b)[0] == a[0]);
        assert((a + b).drop_first() =~= a.drop_first() + b);
        lemma_inputs_encode_app(a.drop_first(), b);
        assert(spec_input_encode(a[0]) + (spec_inputs_encode(a.drop_first())
            + spec_inputs_encode(b)) =~= (spec_input_encode(a[0]) + spec_inputs_encode(
            a.drop_first(),
        )) + spec_inputs_encode(b));
    }
}

/// Taking one more input extends the encoding by that input's bytes.
pub proof fn lemma_inputs_encode_snoc(is: Seq<InputView>, i: int)
    requires
        0 <= i < is.len(),
    ensures
        spec_inputs_encode(is.take(i + 1)) == spec_inputs_encode(is.take(i)) + spec_input_encode(
            is[i],
        ),
{
    assert(is.take(i + 1) =~= is.take(i) + seq![is[i]]);
    lemma_inputs_encode_app(is.take(i), seq![is[i]]);
    assert(seq![is[i]].drop_first() =~= Seq::<InputView>::empty());
    assert(spec_inputs_encode(Seq::<InputView>::empty()) == Seq::<u8>::empty());
    assert(seq![is[i]].len() == 1 && seq![is[i]][0] == is[i]);
    assert(spec_input_encode(is[i]) + Seq::<u8>::empty() =~= spec_input_encode(is[i]));
    assert(spec_inputs_encode(seq![is[i]]) =~= spec_input_encode(is[i]));
}

impl BitcoinTransaction {
    pub fn new(version: u32, inputs: Vec<TransactionInput>, lock_time: u32) -> (r: Self)
        ensures
            r@ == (TxView { version, inputs: spec_input_views(inputs@), lock_time }),
    {
        Self { version, inputs, lock_time }
    }

    /// Encode to the canonical form: version, input count, every input in
    /// order, lock time.
    pub fn to_bytes(&self) -> (r: Vec<u8>)
        ensures
            r@ == spec_tx_encode(self@),
    {
        let mut out = u32_to_le_bytes(self.version);
        let mut cbytes = CompactSize::new(self.inputs.len() as u64).to_bytes();
        out.append(&mut cbytes);
        let ghost head = out@;
        let mut i: usize = 0;
        while i < self.inputs.len()
            invariant
                0 <= i <= self.inputs@.len(),
                head == spec_u32_to_le_bytes(self.version) + spec_compact_size_encode(
                    self.inputs@.len() as u64,
                ),
                out@ == head + spec_inputs_encode(self@.inputs.take(i as int)),
            decreases self.inputs@.len() - i,
        {
            let mut ib = self.inputs[i].to_bytes();
            out.append(&mut ib);
            proof {
                lemma_inputs_encode_snoc(self@.inputs, i as int);
                assert(self@.inputs[i as int] == self.inputs@[i as int]@);
            }
            i = i + 1;
        }
        proof {
            assert(self@.inputs.take(self.inputs@.len() as int) =~= self@.inputs);
        }
        let mut tail = u32_to_le_bytes(self.lock_time);
        out.append(&mut tail);
        proof {
            assert(out@ =~= spec_tx_encode(self@));
        }
        out
    }

    /// Decode from the front of a buffer, returning the transaction and the
    /// number of bytes consumed.
    pub fn from_bytes(bytes: &[u8]) -> (r: Result<(Self, usize), BitcoinError>)
        ensures
            match (r, spec_tx_decode(bytes@)) {
                (Ok((t, n)), Ok((m, k))) => t@ == m && n as nat == k,
                (Err(e), Err(f)) => e == f,
                _ => false,
            },
    {
        if bytes.len() < 4 {
            return Err(BitcoinError::InsufficientBytes);
        }
        let version = u32_from_le_bytes(slice_subrange(bytes, 0, 4));
        proof {
            assert(bytes@.subrange(4, bytes@.len() as int) =~= bytes@.skip(4));
        }
        let (cnt, n) = match CompactSize::from_bytes(slice_subrange(bytes, 4, bytes.len())) {
            Ok(p) => p,
            Err(e) => {
                return Err(e);
            },
        };
        let count = cnt.value;
        proof {
            assert(n as nat <= bytes@.skip(4).len());
        }
        let start = 4 + n;
        let mut inputs: Vec<TransactionInput> = Vec::new();
        let mut offset: usize = start;
        let mut i: u64 = 0;
        while i < count
            invariant
                bytes@.len() >= 4,
                4 <= start <= offset <= bytes@.len(),
                i <= count,
                inputs@.len() == i,
                spec_compact_size_decode(bytes@.skip(4)) == Ok::<(u64, nat), BitcoinError>(
                    (count, (start - 4) as nat),
                ),
                spec_inputs_decode(bytes@.skip(start as int), count as nat)
                    == spec_decoded_so_far(
                    spec_input_views(inputs@),
                    (offset - start) as nat,
                    spec_inputs_decode(bytes@.skip(offset as int), (count - i) as nat),
                ),
            decreases count - i,
        {
            proof {
                lemma_input_decode_bounds(bytes@.skip(offset as int));
                assert(bytes@.subrange(offset as int, bytes@.len() as int) =~= bytes@.skip(
                    offset as int,
                ));
            }
            let (inp, k) = match TransactionInput::from_bytes(
                slice_subrange(bytes, offset, bytes.len()),
            ) {
                Ok(p) => p,
                Err(e) => {
                    return Err(e);
                },
            };
            proof {
                let bo = bytes@.skip(offset as int);
                let c = (count - i) as nat;
                assert(spec_inputs_decode(bo, c) == spec_decoded_so_far(
                    seq![inp@],
                    k as nat,
                    spec_inputs_decode(bo.skip(k as int), (c - 1) as nat),
                ));
                assert(bo.skip(k as int) =~= bytes@.skip(offset as int + k as int));
                lemma_decoded_so_far_step(
                    spec_input_views(inputs@),
                    (offset - start) as nat,
                    inp@,
                    k as nat,
                    spec_inputs_decode(bytes@.skip(offset as int + k as int), (c - 1) as nat),
                );
                assert(spec_input_views(inputs@.push(inp)) =~= spec_input_views(inputs@).push(
                    inp@,
                ));
            }
            inputs.push(inp);
            offset = offset + k;
            i = i + 1;
        }
        proof {
            assert(spec_input_views(inputs@) + Seq::<InputView>::empty() =~= spec_input_views(
                inputs@,
            ));
        }
        if bytes.len() - offset < 4 {
            return Err(BitcoinError::InsufficientBytes);
        }
        let lock_time = u32_from_le_bytes(slice_subrange(bytes, offset, offset + 4));
        proof {
            assert((BitcoinTransaction {
                version,
                inputs: inputs,
                lock_time,
            })@.inputs =~= spec_tx_decode(bytes@)->Ok_0.0.inputs);
        }
        Ok((BitcoinTransaction::new(version, inputs, lock_time), offset + 4))
    }
}

/// Decoding the declared number of encoded inputs returns exactly that list,
/// whatever follows it in the buffer.
pub proof fn lemma_inputs_decode_prefix(is: Seq<InputView>, rest: Seq<u8>)
    requires
        forall|i: int| 0 <= i < is.len() ==> (#[trigger] is[i]).wf(),
    ensures
        spec_inputs_decode(spec_inputs_encode(is) + rest, is.len()) == Ok::<
            (Seq<InputView>, nat),
            BitcoinError,
        >((is, spec_inputs_encode(is).len() as nat)),
    decreases is.len(),
{
    if is.len() == 0 {
        assert(is =~= Seq::<InputView>::empty());
    } else {
        let e0 = spec_input_encode(is[0]);
        let tl = is.drop_first();
        let tail = spec_inputs_encode(tl);
        let b = spec_inputs_encode(is) + rest;
        assert(spec_inputs_encode(is) == e0 + tail);
        assert(b =~= e0 + (tail + rest));
        lemma_input_decode_prefix(is[0], tail + rest);
        assert(spec_input_decode(b) == Ok::<(InputView, nat), BitcoinError>(
            (is[0], e0.len() as nat),
        ));
        assert(b.skip(e0.len() as int) =~= tail + rest);
        assert forall|q: int| 0 <= q < tl.len() implies (#[trigger] tl[q]).wf() by {
            assert(tl[q] == is[q + 1]);
        }
        lemma_inputs_decode_prefix(tl, rest);
        assert(spec_inputs_decode(b.skip(e0.len() as int), tl.len()) == Ok::<
            (Seq<InputView>, nat),
            BitcoinError,
        >((tl, tail.len() as nat)));
        assert(seq![is[0]] + tl =~= is);
        assert(spec_inputs_decode(b, is.len()) == Ok::<(Seq<InputView>, nat), BitcoinError>(
            (seq![is[0]] + tl, (e0.len() + tail.len()) as nat),
        ));
    }
}

/// Round trip: an encoded transaction decodes to itself, consuming exactly
/// the encoding's length.
pub proof fn lemma_tx_round_trip(t: TxView)
    requires
        t.wf(),
    ensures
        spec_tx_decode(spec_tx_encode(t)) == Ok::<(TxView, nat), BitcoinError>(
            (t, spec_tx_encode(t).len() as nat),
        ),
{
    let ev = spec_u32_to_le_bytes(t.version);
    let ec = spec_compact_size_encode(t.inputs.len() as u64);
    let ei = spec_inputs_encode(t.inputs);
    let el = spec_u32_to_le_bytes(t.lock_time);
    let b = spec_tx_encode(t);
    lemma_auto_spec_u32_to_from_le_bytes();
    assert(b.subrange(0, 4) =~= ev);
    assert(b.skip(4) =~= ec + (ei + el));
    lemma_compact_size_decode_prefix(t.inputs.len() as u64, ei + el);
    let n = ec.len() as int;
    assert(b.skip(4 + n) =~= ei + el);
    lemma_inputs_decode_prefix(t.inputs, el);
    let j = ei.len() as int;
    assert(b.subrange(4 + n + j, 4 + n + j + 4) =~= el);
    assert(b.len() == 4 + n + j + 4);
    assert(spec_tx_decode(b)->Ok_0.0 =~= t);
}

} // verus!
