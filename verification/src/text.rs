//! The text-interchange form of a transaction, and its display rendering.
//!
//! A transaction serializes to a structured one-line record with the fields
//! `version`, `inputs` (each input as `previous_output` with `txid` and
//! `vout`, `script_sig` with `bytes`, and `sequence`) and `lock_time`. The
//! identifier appears as 64 lowercase hex characters, script bytes as a list
//! of decimal values. Parsing accepts exactly this canonical shape and is
//! proved to invert the encoder.

use vstd::prelude::*;
use vstd::string::StringSliceAdditionalSpecFns;
use vstd::utf8::{is_ascii_chars, is_ascii_chars_encode_utf8};
use crate::ascii::{ascii_to_string, spec_ascii_chars};
use crate::dec::{
    lemma_dec_bytes_digits, lemma_dec_round_trip, parse_dec, push_dec, spec_dec_bytes,
    spec_is_dec_digit, spec_parse_dec,
};
use crate::dec::lemma_dec_run_end_facts;
use crate::outpoint::{OutPoint, OutPointView};
use crate::script::Script;
use crate::transaction::{spec_input_views, BitcoinTransaction, TxView};
use crate::tx_input::{InputView, TransactionInput};
use crate::txid::{
    hex_val, push_hex32, spec_hex_bytes, spec_hex_digit, spec_hex_val, spec_is_hex_digit,
};
use crate::BitcoinError;

verus! {

// ------------------------------------------------------------------
// The fixed pieces of the text form, as ASCII bytes.
// ------------------------------------------------------------------

/// The bytes of `{"version": `.
pub open spec fn lit_tx_open() -> Seq<u8> {
    seq![123u8, 34, 118, 101, 114, 115, 105, 111, 110, 34, 58, 32]
}

/// The bytes of `, "inputs": [`.
pub open spec fn lit_inputs_key() -> Seq<u8> {
    seq![44u8, 32, 34, 105, 110, 112, 117, 116, 115, 34, 58, 32, 91]
}

/// The bytes of `{"previous_output": {"txid": "`.
pub open spec fn lit_input_open() -> Seq<u8> {
    seq![
        123u8, 34, 112, 114, 101, 118, 105, 111, 117, 115, 95, 111, 117, 116, 112, 117, 116, 34,
        58, 32, 123, 34, 116, 120, 105, 100, 34, 58, 32, 34,
    ]
}

/// The bytes of `", "vout": `.
pub open spec fn lit_vout_key() -> Seq<u8> {
    seq![34u8, 44, 32, 34, 118, 111, 117, 116, 34, 58, 32]
}

/// The bytes of `}, "script_sig": {"bytes": [`.
pub open spec fn lit_script_key() -> Seq<u8> {
    seq![
        125u8, 44, 32, 34, 115, 99, 114, 105, 112, 116, 95, 115, 105, 103, 34, 58, 32, 123, 34,
        98, 121, 116, 101, 115, 34, 58, 32, 91,
    ]
}

/// The bytes of `]}, "sequence": `.
pub open spec fn lit_sequence_key() -> Seq<u8> {
    seq![93u8, 125, 44, 32, 34, 115, 101, 113, 117, 101, 110, 99, 101, 34, 58, 32]
}

/// The bytes of `], "lock_time": `.
pub open spec fn lit_lock_key() -> Seq<u8> {
    seq![93u8, 44, 32, 34, 108, 111, 99, 107, 95, 116, 105, 109, 101, 34, 58, 32]
}

/// The byte of `}`.
pub open spec fn lit_close() -> Seq<u8> {
    seq![125u8]
}

/// The bytes of `, `.
pub open spec fn lit_sep() -> Seq<u8> {
    seq![44u8, 32]
}

fn tx_open_bytes() -> (r: &'static [u8])
    ensures
        r@ == lit_tx_open(),
{
    let s = "{\"version\": ";
    let r = s.as_bytes();
    proof {
        reveal_strlit("{\"version\": ");
        assert(is_ascii_chars(s@));
        is_ascii_chars_encode_utf8(s@);
        assert(r@ =~= lit_tx_open());
    }
    r
}

fn inputs_key_bytes() -> (r: &'static [u8])
    ensures
        r@ == lit_inputs_key(),
{
    let s = ", \"inputs\": [";
    let r = s.as_bytes();
    proof {
        reveal_strlit(", \"inputs\": [");
        assert(is_ascii_chars(s@));
        is_ascii_chars_encode_utf8(s@);
        assert(r@ =~= lit_inputs_key());
    }
    r
}

fn input_open_bytes() -> (r: &'static [u8])
    ensures
        r@ == lit_input_open(),
{
    let s = "{\"previous_output\": {\"txid\": \"";
    let r = s.as_bytes();
    proof {
        reveal_strlit("{\"previous_output\": {\"txid\": \"");
        assert(is_ascii_chars(s@));
        is_ascii_chars_encode_utf8(s@);
        assert(r@ =~= lit_input_open());
    }
    r
}

fn vout_key_bytes() -> (r: &'static [u8])
    ensures
        r@ == lit_vout_key(),
{
    let s = "\", \"vout\": ";
    let r = s.as_bytes();
    proof {
        reveal_strlit("\", \"vout\": ");
        assert(is_ascii_chars(s@));
        is_ascii_chars_encode_utf8(s@);
        assert(r@ =~= lit_vout_key());
    }
    r
}

fn script_key_bytes() -> (r: &'static [u8])
    ensures
        r@ == lit_script_key(),
{
    let s = "}, \"script_sig\": {\"bytes\": [";
    let r = s.as_bytes();
    proof {
        reveal_strlit("}, \"script_sig\": {\"bytes\": [");
        assert(is_ascii_chars(s@));
        is_ascii_chars_encode_utf8(s@);
        assert(r@ =~= lit_script_key());
    }
    r
}

fn sequence_key_bytes() -> (r: &'static [u8])
    ensures
        r@ == lit_sequence_key(),
{
    let s = "]}, \"sequence\": ";
    let r = s.as_bytes();
    proof {
        reveal_strlit("]}, \"sequence\": ");
        assert(is_ascii_chars(s@));
        is_ascii_chars_encode_utf8(s@);
        assert(r@ =~= lit_sequence_key());
    }
    r
}

fn lock_key_bytes() -> (r: &'static [u8])
    ensures
        r@ == lit_lock_key(),
{
    let s = "], \"lock_time\": ";
    let r = s.as_bytes();
    proof {
        reveal_strlit("], \"lock_time\": ");
        assert(is_ascii_chars(s@));
        is_ascii_chars_encode_utf8(s@);
        assert(r@ =~= lit_lock_key());
    }
    r
}

fn close_bytes() -> (r: &'static [u8])
    ensures
        r@ == lit_close(),
{
    let s = "}";
    let r = s.as_bytes();
    proof {
        reveal_strlit("}");
        assert(is_ascii_chars(s@));
        is_ascii_chars_encode_utf8(s@);
        assert(r@ =~= lit_close());
    }
    r
}

fn sep_bytes() -> (r: &'static [u8])
    ensures
        r@ == lit_sep(),
{
    let s = ", ";
    let r = s.as_bytes();
    proof {
        reveal_strlit(", ");
        assert(is_ascii_chars(s@));
        is_ascii_chars_encode_utf8(s@);
        assert(r@ =~= lit_sep());
    }
    r
}

// ------------------------------------------------------------------
// Byte-level building blocks.
// ------------------------------------------------------------------

/// Whether the literal occurs in the buffer at position `i`.
pub open spec fn spec_match(bs: Seq<u8>, i: int, lit: Seq<u8>) -> bool {
    0 <= i && i + lit.len() <= bs.len() && bs.subrange(i, i + lit.len() as int) == lit
}

/// Append a literal to a buffer.
fn push_lit(out: &mut Vec<u8>, lit: &[u8])
    ensures
        final(out)@ == old(out)@ + lit@,
{
    let mut k: usize = 0;
    while k < lit.len()
        invariant
            0 <= k <= lit@.len(),
            out@ == old(out)@ + lit@.subrange(0, k as int),
        decreases lit@.len() - k,
    {
        out.push(lit[k]);
        proof {
            assert(old(out)@ + lit@.subrange(0, k as int + 1) =~= (old(out)@ + lit@.subrange(
                0,
                k as int,
            )).push(lit@[k as int]));
        }
        k = k + 1;
    }
    proof {
        assert(lit@.subrange(0, lit@.len() as int) =~= lit@);
    }
}

/// Whether the literal occurs in the buffer at position `i`.
fn match_at(bs: &[u8], i: usize, lit: &[u8]) -> (r: bool)
    requires
        i <= bs@.len(),
    ensures
        r == spec_match(bs@, i as int, lit@),
        bs@.len() <= usize::MAX,
{
    if lit.len() > bs.len() - i {
        return false;
    }
    let mut k: usize = 0;
    while k < lit.len()
        invariant
            0 <= k <= lit@.len(),
            i + lit@.len() <= bs@.len(),
            bs@.len() <= usize::MAX,
            forall|q: int| 0 <= q < k ==> bs@[i + q] == lit@[q],
        decreases lit@.len() - k,
    {
        if bs[i + k] != lit[k] {
            proof {
                assert(bs@.subrange(i as int, i as int + lit@.len() as int)[k as int] == bs@[i
                    + k]);
            }
            return false;
        }
        k = k + 1;
    }
    proof {
        assert(bs@.subrange(i as int, i as int + lit@.len() as int) =~= lit@);
    }
    true
}

// ------------------------------------------------------------------
// The canonical text, defined over the mathematical views.
// ------------------------------------------------------------------

/// The continuation of a byte list: `, ` and a decimal per remaining byte.
pub open spec fn spec_byte_tail_text(s: Seq<u8>) -> Seq<u8>
    decreases s.len(),
{
    if s.len() == 0 {
        Seq::empty()
    } else {
        lit_sep() + spec_dec_bytes(s[0] as nat) + spec_byte_tail_text(s.drop_first())
    }
}

/// A script's bytes as decimals separated by `, `.
pub open spec fn spec_byte_list_text(s: Seq<u8>) -> Seq<u8> {
    if s.len() == 0 {
        Seq::empty()
    } else {
        spec_dec_bytes(s[0] as nat) + spec_byte_tail_text(s.drop_first())
    }
}

/// One input's text: its outpoint (hex identifier and index), script bytes,
/// and sequence number.
pub open spec fn spec_input_text(i: InputView) -> Seq<u8> {
    lit_input_open() + spec_hex_bytes(i.previous_output.txid) + lit_vout_key() + spec_dec_bytes(
        i.previous_output.vout as nat,
    ) + lit_script_key() + spec_byte_list_text(i.script_sig) + lit_sequence_key()
        + spec_dec_bytes(i.sequence as nat) + lit_close()
}

/// The continuation of an input list: `, ` and a record per remaining input.
pub open spec fn spec_inputs_tail_text(is: Seq<InputView>) -> Seq<u8>
    decreases is.len(),
{
    if is.len() == 0 {
        Seq::empty()
    } else {
        lit_sep() + spec_input_text(is[0]) + spec_inputs_tail_text(is.drop_first())
    }
}

/// The input list's text, records separated by `, `.
pub open spec fn spec_inputs_text(is: Seq<InputView>) -> Seq<u8> {
    if is.len() == 0 {
        Seq::empty()
    } else {
        spec_input_text(is[0]) + spec_inputs_tail_text(is.drop_first())
    }
}

/// The whole transaction's canonical text.
pub open spec fn spec_tx_text(t: TxView) -> Seq<u8> {
    lit_tx_open() + spec_dec_bytes(t.version as nat) + lit_inputs_key() + spec_inputs_text(
        t.inputs,
    ) + lit_lock_key() + spec_dec_bytes(t.lock_time as nat) + lit_close()
}

/// Splitting a byte list splits its tail text.
proof fn lemma_byte_tail_text_app(a: Seq<u8>, b: Seq<u8>)
    ensures
        spec_byte_tail_text(a + b) == spec_byte_tail_text(a) + spec_byte_tail_text(b),
    decreases a.len(),
{
    if a.len() == 0 {
        assert(a + b =~= b);
        assert(spec_byte_tail_text(a) + spec_byte_tail_text(b) =~= spec_byte_tail_text(b));
    } else {
        assert((a + b)[0] == a[0]);
        assert((a + b).drop_first() =~= a.drop_first() + b);
        lemma_byte_tail_text_app(a.drop_first(), b);
        assert(lit_sep() + spec_dec_bytes(a[0] as nat) + (spec_byte_tail_text(a.drop_first())
            + spec_byte_tail_text(b)) =~= (lit_sep() + spec_dec_bytes(a[0] as nat)
            + spec_byte_tail_text(a.drop_first())) + spec_byte_tail_text(b));
    }
}

/// Taking one more byte extends the tail text by `, ` and its decimal.
proof fn lemma_byte_tail_text_snoc(s: Seq<u8>, lo: int, k: int)
    requires
        0 <= lo <= k < s.len(),
    ensures
        spec_byte_tail_text(s.subrange(lo, k + 1)) == spec_byte_tail_text(s.subrange(lo, k))
            + lit_sep() + spec_dec_bytes(s[k] as nat),
{
    assert(s.subrange(lo, k + 1) =~= s.subrange(lo, k) + seq![s[k]]);
    lemma_byte_tail_text_app(s.subrange(lo, k), seq![s[k]]);
    assert(seq![s[k]].drop_first() =~= Seq::<u8>::empty());
    assert(spec_byte_tail_text(Seq::<u8>::empty()) == Seq::<u8>::empty());
    assert(seq![s[k]].len() == 1 && seq![s[k]][0] == s[k]);
    assert(lit_sep() + spec_dec_bytes(s[k] as nat) + Seq::<u8>::empty() =~= lit_sep()
        + spec_dec_bytes(s[k] as nat));
    assert(spec_byte_tail_text(seq![s[k]]) =~= lit_sep() + spec_dec_bytes(s[k] as nat));
    assert(spec_byte_tail_text(s.subrange(lo, k)) + (lit_sep() + spec_dec_bytes(s[k] as nat))
        =~= spec_byte_tail_text(s.subrange(lo, k)) + lit_sep() + spec_dec_bytes(s[k] as nat));
}

/// Splitting an input list splits its tail text.
proof fn lemma_inputs_tail_text_app(a: Seq<InputView>, b: Seq<InputView>)
    ensures
        spec_inputs_tail_text(a + b) == spec_inputs_tail_text(a) + spec_inputs_tail_text(b),
    decreases a.len(),
{
    if a.len() == 0 {
        assert(a + b =~= b);
        assert(spec_inputs_tail_text(a) + spec_inputs_tail_text(b) =~= spec_inputs_tail_text(b));
    } else {
        assert((a + b)[0] == a[0]);
        assert((a + b).drop_first() =~= a.drop_first() + b);
        lemma_inputs_tail_text_app(a.drop_first(), b);
        assert(lit_sep() + spec_input_text(a[0]) + (spec_inputs_tail_text(a.drop_first())
            + spec_inputs_tail_text(b)) =~= (lit_sep() + spec_input_text(a[0])
            + spec_inputs_tail_text(a.drop_first())) + spec_inputs_tail_text(b));
    }
}

/// Taking one more input extends the tail text by `, ` and its record.
proof fn lemma_inputs_tail_text_snoc(is: Seq<InputView>, k: int)
    requires
        1 <= k < is.len(),
    ensures
        spec_inputs_tail_text(is.subrange(1, k + 1)) == spec_inputs_tail_text(is.subrange(1, k))
            + lit_sep() + spec_input_text(is[k]),
{
    assert(is.subrange(1, k + 1) =~= is.subrange(1, k) + seq![is[k]]);
    lemma_inputs_tail_text_app(is.subrange(1, k), seq![is[k]]);
    assert(seq![is[k]].drop_first() =~= Seq::<InputView>::empty());
    assert(spec_inputs_tail_text(Seq::<InputView>::empty()) == Seq::<u8>::empty());
    assert(seq![is[k]].len() == 1 && seq![is[k]][0] == is[k]);
    assert(lit_sep() + spec_input_text(is[k]) + Seq::<u8>::empty() =~= lit_sep()
        + spec_input_text(is[k]));
    assert(spec_inputs_tail_text(seq![is[k]]) =~= lit_sep() + spec_input_text(is[k]));
    assert(spec_inputs_tail_text(is.subrange(1, k)) + (lit_sep() + spec_input_text(is[k]))
        =~= spec_inputs_tail_text(is.subrange(1, k)) + lit_sep() + spec_input_text(is[k]));
}

// ------------------------------------------------------------------
// Everything emitted is ASCII.
// ------------------------------------------------------------------

/// Whether every byte is ASCII.
pub open spec fn spec_all_ascii(s: Seq<u8>) -> bool {
    forall|i: int| 0 <= i < s.len() ==> #[trigger] s[i] < 128
}

proof fn lemma_all_ascii_app(a: Seq<u8>, b: Seq<u8>)
    requires
        spec_all_ascii(a),
        spec_all_ascii(b),
    ensures
        spec_all_ascii(a + b),
{
    assert forall|i: int| 0 <= i < (a + b).len() implies #[trigger] (a + b)[i] < 128 by {
        if i < a.len() {
            assert((a + b)[i] == a[i]);
        } else {
            assert((a + b)[i] == b[i - a.len()]);
        }
    }
}

proof fn lemma_dec_bytes_ascii(n: nat)
    ensures
        spec_all_ascii(spec_dec_bytes(n)),
{
    lemma_dec_bytes_digits(n);
}

proof fn lemma_byte_tail_text_ascii(s: Seq<u8>)
    ensures
        spec_all_ascii(spec_byte_tail_text(s)),
    decreases s.len(),
{
    if s.len() > 0 {
        lemma_dec_bytes_ascii(s[0] as nat);
        lemma_byte_tail_text_ascii(s.drop_first());
        lemma_all_ascii_app(lit_sep(), spec_dec_bytes(s[0] as nat));
        lemma_all_ascii_app(
            lit_sep() + spec_dec_bytes(s[0] as nat),
            spec_byte_tail_text(s.drop_first()),
        );
    }
}

proof fn lemma_byte_list_text_ascii(s: Seq<u8>)
    ensures
        spec_all_ascii(spec_byte_list_text(s)),
{
    if s.len() > 0 {
        lemma_dec_bytes_ascii(s[0] as nat);
        lemma_byte_tail_text_ascii(s.drop_first());
        lemma_all_ascii_app(spec_dec_bytes(s[0] as nat), spec_byte_tail_text(s.drop_first()));
    }
}

proof fn lemma_hex_bytes_ascii(s: Seq<u8>)
    ensures
        spec_all_ascii(spec_hex_bytes(s)),
{
    assert forall|i: int| 0 <= i < spec_hex_bytes(s).len() implies #[trigger] spec_hex_bytes(
        s,
    )[i] < 128 by {
    }
}

proof fn lemma_input_text_ascii(i: InputView)
    ensures
        spec_all_ascii(spec_input_text(i)),
{
    lemma_hex_bytes_ascii(i.previous_output.txid);
    lemma_dec_bytes_ascii(i.previous_output.vout as nat);
    lemma_byte_list_text_ascii(i.script_sig);
    lemma_dec_bytes_ascii(i.sequence as nat);
    let a1 = lit_input_open();
    let a2 = a1 + spec_hex_bytes(i.previous_output.txid);
    lemma_all_ascii_app(a1, spec_hex_bytes(i.previous_output.txid));
    let a3 = a2 + lit_vout_key();
    lemma_all_ascii_app(a2, lit_vout_key());
    let a4 = a3 + spec_dec_bytes(i.previous_output.vout as nat);
    lemma_all_ascii_app(a3, spec_dec_bytes(i.previous_output.vout as nat));
    let a5 = a4 + lit_script_key();
    lemma_all_ascii_app(a4, lit_script_key());
    let a6 = a5 + spec_byte_list_text(i.script_sig);
    lemma_all_ascii_app(a5, spec_byte_list_text(i.script_sig));
    let a7 = a6 + lit_sequence_key();
    lemma_all_ascii_app(a6, lit_sequence_key());
    let a8 = a7 + spec_dec_bytes(i.sequence as nat);
    lemma_all_ascii_app(a7, spec_dec_bytes(i.sequence as nat));
    lemma_all_ascii_app(a8, lit_close());
}

proof fn lemma_inputs_tail_text_ascii(is: Seq<InputView>)
    ensures
        spec_all_ascii(spec_inputs_tail_text(is)),
    decreases is.len(),
{
    if is.len() > 0 {
        lemma_input_text_ascii(is[0]);
        lemma_inputs_tail_text_ascii(is.drop_first());
        lemma_all_ascii_app(lit_sep(), spec_input_text(is[0]));
        lemma_all_ascii_app(
            lit_sep() + spec_input_text(is[0]),
            spec_inputs_tail_text(is.drop_first()),
        );
    }
}

proof fn lemma_inputs_text_ascii(is: Seq<InputView>)
    ensures
        spec_all_ascii(spec_inputs_text(is)),
{
    if is.len() > 0 {
        lemma_input_text_ascii(is[0]);
        lemma_inputs_tail_text_ascii(is.drop_first());
        lemma_all_ascii_app(spec_input_text(is[0]), spec_inputs_tail_text(is.drop_first()));
    }
}

proof fn lemma_tx_text_ascii(t: TxView)
    ensures
        spec_all_ascii(spec_tx_text(t)),
{
    lemma_dec_bytes_ascii(t.version as nat);
    lemma_inputs_text_ascii(t.inputs);
    lemma_dec_bytes_ascii(t.lock_time as nat);
    let a1 = lit_tx_open();
    let a2 = a1 + spec_dec_bytes(t.version as nat);
    lemma_all_ascii_app(a1, spec_dec_bytes(t.version as nat));
    let a3 = a2 + lit_inputs_key();
    lemma_all_ascii_app(a2, lit_inputs_key());
    let a4 = a3 + spec_inputs_text(t.inputs);
    lemma_all_ascii_app(a3, spec_inputs_text(t.inputs));
    let a5 = a4 + lit_lock_key();
    lemma_all_ascii_app(a4, lit_lock_key());
    let a6 = a5 + spec_dec_bytes(t.lock_time as nat);
    lemma_all_ascii_app(a5, spec_dec_bytes(t.lock_time as nat));
    lemma_all_ascii_app(a6, lit_close());
}

// ------------------------------------------------------------------
// Emitting.
// ------------------------------------------------------------------

/// Append a script's byte-list text.
fn push_byte_list(out: &mut Vec<u8>, s: &[u8])
    ensures
        final(out)@ == old(out)@ + spec_byte_list_text(s@),
{
    if s.len() == 0 {
        proof {
            assert(out@ =~= old(out)@ + spec_byte_list_text(s@));
        }
        return ;
    }
    push_dec(out, s[0] as u64);
    let mut k: usize = 1;
    while k < s.len()
        invariant
            1 <= k <= s@.len(),
            out@ == old(out)@ + spec_dec_bytes(s@[0] as nat) + spec_byte_tail_text(
                s@.subrange(1, k as int),
            ),
        decreases s@.len() - k,
    {
        push_lit(out, sep_bytes());
        push_dec(out, s[k] as u64);
        proof {
            lemma_byte_tail_text_snoc(s@, 1, k as int);
        }
        k = k + 1;
    }
    proof {
        assert(s@.subrange(1, s@.len() as int) =~= s@.drop_first());
        assert(out@ =~= old(out)@ + spec_byte_list_text(s@));
    }
}

/// Append one input's text.
fn push_input_text(out: &mut Vec<u8>, inp: &TransactionInput)
    ensures
        final(out)@ == old(out)@ + spec_input_text(inp@),
{
    push_lit(out, input_open_bytes());
    push_hex32(out, &inp.previous_output.txid.0);
    push_lit(out, vout_key_bytes());
    push_dec(out, inp.previous_output.vout as u64);
    push_lit(out, script_key_bytes());
    push_byte_list(out, inp.script_sig.as_bytes());
    push_lit(out, sequence_key_bytes());
    push_dec(out, inp.sequence as u64);
    push_lit(out, close_bytes());
    proof {
        assert(out@ =~= old(out)@ + spec_input_text(inp@));
    }
}

impl BitcoinTransaction {
    /// Serialize to the canonical text-interchange form.
    pub fn to_text(&self) -> (r: String)
        ensures
            r@ == spec_ascii_chars(spec_tx_text(self@)),
    {
        let mut out: Vec<u8> = Vec::new();
        push_lit(&mut out, tx_open_bytes());
        push_dec(&mut out, self.version as u64);
        push_lit(&mut out, inputs_key_bytes());
        let ghost head = out@;
        if self.inputs.len() > 0 {
            push_input_text(&mut out, &self.inputs[0]);
            let mut k: usize = 1;
            while k < self.inputs.len()
                invariant
                    1 <= k <= self.inputs@.len(),
                    out@ == head + spec_input_text(self@.inputs[0]) + spec_inputs_tail_text(
                        self@.inputs.subrange(1, k as int),
                    ),
                decreases self.inputs@.len() - k,
            {
                push_lit(&mut out, sep_bytes());
                push_input_text(&mut out, &self.inputs[k]);
                proof {
                    lemma_inputs_tail_text_snoc(self@.inputs, k as int);
                    assert(self@.inputs[k as int] == self.inputs@[k as int]@);
                }
                k = k + 1;
            }
            proof {
                assert(self@.inputs.subrange(1, self@.inputs.len() as int)
                    =~= self@.inputs.drop_first());
                assert(out@ =~= head + spec_inputs_text(self@.inputs));
            }
        }
        push_lit(&mut out, lock_key_bytes());
        push_dec(&mut out, self.lock_time as u64);
        push_lit(&mut out, close_bytes());
        proof {
            assert(out@ =~= spec_tx_text(self@));
            lemma_tx_text_ascii(self@);
        }
        ascii_to_string(out)
    }
}

// ------------------------------------------------------------------
// The display rendering: a human-readable line, not wire-stable.
// ------------------------------------------------------------------

/// The bytes of `Version: `.
pub open spec fn lit_disp_version() -> Seq<u8> {
    seq![86u8, 101, 114, 115, 105, 111, 110, 58, 32]
}

/// The bytes of `, Lock Time: `.
pub open spec fn lit_disp_lock() -> Seq<u8> {
    seq![44u8, 32, 76, 111, 99, 107, 32, 84, 105, 109, 101, 58, 32]
}

/// The bytes of `, Previous Output Vout: `.
pub open spec fn lit_disp_vout() -> Seq<u8> {
    seq![
        44u8, 32, 80, 114, 101, 118, 105, 111, 117, 115, 32, 79, 117, 116, 112, 117, 116, 32, 86,
        111, 117, 116, 58, 32,
    ]
}

/// The bytes of `, ScriptSig length: `.
pub open spec fn lit_disp_len() -> Seq<u8> {
    seq![44u8, 32, 83, 99, 114, 105, 112, 116, 83, 105, 103, 32, 108, 101, 110, 103, 116, 104, 58, 32]
}

/// The bytes of `, ScriptSig bytes: [`.
pub open spec fn lit_disp_bytes() -> Seq<u8> {
    seq![44u8, 32, 83, 99, 114, 105, 112, 116, 83, 105, 103, 32, 98, 121, 116, 101, 115, 58, 32, 91]
}

/// The bytes of `], The transaction input sequence: `.
pub open spec fn lit_disp_seq() -> Seq<u8> {
    seq![
        93u8, 44, 32, 84, 104, 101, 32, 116, 114, 97, 110, 115, 97, 99, 116, 105, 111, 110, 32,
        105, 110, 112, 117, 116, 32, 115, 101, 113, 117, 101, 110, 99, 101, 58, 32,
    ]
}

fn disp_version_bytes() -> (r: &'static [u8])
    ensures
        r@ == lit_disp_version(),
{
    let s = "Version: ";
    let r = s.as_bytes();
    proof {
        reveal_strlit("Version: ");
        assert(is_ascii_chars(s@));
        is_ascii_chars_encode_utf8(s@);
        assert(r@ =~= lit_disp_version());
    }
    r
}

fn disp_lock_bytes() -> (r: &'static [u8])
    ensures
        r@ == lit_disp_lock(),
{
    let s = ", Lock Time: ";
    let r = s.as_bytes();
    proof {
        reveal_strlit(", Lock Time: ");
        assert(is_ascii_chars(s@));
        is_ascii_chars_encode_utf8(s@);
        assert(r@ =~= lit_disp_lock());
    }
    r
}

fn disp_vout_bytes() -> (r: &'static [u8])
    ensures
        r@ == lit_disp_vout(),
{
    let s = ", Previous Output Vout: ";
    let r = s.as_bytes();
    proof {
        reveal_strlit(", Previous Output Vout: ");
        assert(is_ascii_chars(s@));
        is_ascii_chars_encode_utf8(s@);
        assert(r@ =~= lit_disp_vout());
    }
    r
}

fn disp_len_bytes() -> (r: &'static [u8])
    ensures
        r@ == lit_disp_len(),
{
    let s = ", ScriptSig length: ";
    let r = s.as_bytes();
    proof {
        reveal_strlit(", ScriptSig length: ");
        assert(is_ascii_chars(s@));
        is_ascii_chars_encode_utf8(s@);
        assert(r@ =~= lit_disp_len());
    }
    r
}

fn disp_bytes_bytes() -> (r: &'static [u8])
    ensures
        r@ == lit_disp_bytes(),
{
    let s = ", ScriptSig bytes: [";
    let r = s.as_bytes();
    proof {
        reveal_strlit(", ScriptSig bytes: [");
        assert(is_ascii_chars(s@));
        is_ascii_chars_encode_utf8(s@);
        assert(r@ =~= lit_disp_bytes());
    }
    r
}

fn disp_seq_bytes() -> (r: &'static [u8])
    ensures
        r@ == lit_disp_seq(),
{
    let s = "], The transaction input sequence: ";
    let r = s.as_bytes();
    proof {
        reveal_strlit("], The transaction input sequence: ");
        assert(is_ascii_chars(s@));
        is_ascii_chars_encode_utf8(s@);
        assert(r@ =~= lit_disp_seq());
    }
    r
}

/// The display line: version, lock time, and the first input's outpoint
/// index, script length, script bytes and sequence number.
pub open spec fn spec_display_text(t: TxView) -> Seq<u8>
    recommends
        t.inputs.len() >= 1,
{
    lit_disp_version() + spec_dec_bytes(t.version as nat) + lit_disp_lock() + spec_dec_bytes(
        t.lock_time as nat,
    ) + lit_disp_vout() + spec_dec_bytes(t.inputs[0].previous_output.vout as nat) + lit_disp_len()
        + spec_dec_bytes(t.inputs[0].script_sig.len()) + lit_disp_bytes() + spec_byte_list_text(
        t.inputs[0].script_sig,
    ) + lit_disp_seq() + spec_dec_bytes(t.inputs[0].sequence as nat)
}

proof fn lemma_display_text_ascii(t: TxView)
    requires
        t.inputs.len() >= 1,
    ensures
        spec_all_ascii(spec_display_text(t)),
{
    lemma_dec_bytes_ascii(t.version as nat);
    lemma_dec_bytes_ascii(t.lock_time as nat);
    lemma_dec_bytes_ascii(t.inputs[0].previous_output.vout as nat);
    lemma_dec_bytes_ascii(t.inputs[0].script_sig.len());
    lemma_byte_list_text_ascii(t.inputs[0].script_sig);
    lemma_dec_bytes_ascii(t.inputs[0].sequence as nat);
    let a1 = lit_disp_version() + spec_dec_bytes(t.version as nat);
    lemma_all_ascii_app(lit_disp_version(), spec_dec_bytes(t.version as nat));
    let a2 = a1 + lit_disp_lock();
    lemma_all_ascii_app(a1, lit_disp_lock());
    let a3 = a2 + spec_dec_bytes(t.lock_time as nat);
    lemma_all_ascii_app(a2, spec_dec_bytes(t.lock_time as nat));
    let a4 = a3 + lit_disp_vout();
    lemma_all_ascii_app(a3, lit_disp_vout());
    let a5 = a4 + spec_dec_bytes(t.inputs[0].previous_output.vout as nat);
    lemma_all_ascii_app(a4, spec_dec_bytes(t.inputs[0].previous_output.vout as nat));
    let a6 = a5 + lit_disp_len();
    lemma_all_ascii_app(a5, lit_disp_len());
    let a7 = a6 + spec_dec_bytes(t.inputs[0].script_sig.len());
    lemma_all_ascii_app(a6, spec_dec_bytes(t.inputs[0].script_sig.len()));
    let a8 = a7 + lit_disp_bytes();
    lemma_all_ascii_app(a7, lit_disp_bytes());
    let a9 = a8 + spec_byte_list_text(t.inputs[0].script_sig);
    lemma_all_ascii_app(a8, spec_byte_list_text(t.inputs[0].script_sig));
    let a10 = a9 + lit_disp_seq();
    lemma_all_ascii_app(a9, lit_disp_seq());
    lemma_all_ascii_app(a10, spec_dec_bytes(t.inputs[0].sequence as nat));
}

impl BitcoinTransaction {
    /// A human-readable one-line rendering (not wire-stable): version, lock
    /// time, and the first input's outpoint index, script and sequence.
    pub fn to_display_text(&self) -> (r: String)
        requires
            self.inputs.len() >= 1,
        ensures
            r@ == spec_ascii_chars(spec_display_text(self@)),
    {
        let mut out: Vec<u8> = Vec::new();
        push_lit(&mut out, disp_version_bytes());
        push_dec(&mut out, self.version as u64);
        push_lit(&mut out, disp_lock_bytes());
        push_dec(&mut out, self.lock_time as u64);
        push_lit(&mut out, disp_vout_bytes());
        push_dec(&mut out, self.inputs[0].previous_output.vout as u64);
        push_lit(&mut out, disp_len_bytes());
        push_dec(&mut out, self.inputs[0].script_sig.bytes.len() as u64);
        push_lit(&mut out, disp_bytes_bytes());
        push_byte_list(&mut out, self.inputs[0].script_sig.as_bytes());
        push_lit(&mut out, disp_seq_bytes());
        push_dec(&mut out, self.inputs[0].sequence as u64);
        proof {
            assert(self@.inputs[0] == self.inputs@[0]@);
            assert(out@ =~= spec_display_text(self@));
            lemma_display_text_ascii(self@);
        }
        ascii_to_string(out)
    }
}

// ------------------------------------------------------------------
// Parsing the canonical text, defined over the raw bytes.
// ------------------------------------------------------------------

/// Parsing exactly 64 hex digits at position `i` into 32 bytes.
pub open spec fn spec_parse_hex64(bs: Seq<u8>, i: int) -> Option<Seq<u8>> {
    if 0 <= i && i + 64 <= bs.len() && (forall|k: int|
        0 <= k < 64 ==> spec_is_hex_digit(#[trigger] bs[i + k])) {
        Some(
            Seq::new(
                32,
                |k: int| (spec_hex_val(bs[i + 2 * k]) * 16 + spec_hex_val(bs[i + 2 * k + 1])) as u8,
            ),
        )
    } else {
        None
    }
}

/// Parsing the rest of a script byte list, standing at either `]` or a
/// `, `-separated further value.
pub open spec fn spec_parse_more_bytes(bs: Seq<u8>, j: int) -> Option<(Seq<u8>, int)>
    decreases bs.len() - j,
{
    if j < bs.len() && bs[j] == 93 {
        Some((Seq::empty(), j))
    } else if spec_match(bs, j, lit_sep()) {
        match spec_parse_dec(bs, j + 2, 255) {
            None => None,
            Some((v, k)) => if j < k <= bs.len() {
                match spec_parse_more_bytes(bs, k) {
                    None => None,
                    Some((vs, e)) => Some((seq![v as u8] + vs, e)),
                }
            } else {
                None
            },
        }
    } else {
        None
    }
}

/// Parsing a script byte list, standing at either `]` or its first value.
/// The returned position stands at the closing `]`.
pub open spec fn spec_parse_byte_list(bs: Seq<u8>, i: int) -> Option<(Seq<u8>, int)> {
    if i < bs.len() && bs[i] == 93 {
        Some((Seq::empty(), i))
    } else {
        match spec_parse_dec(bs, i, 255) {
            None => None,
            Some((v, j)) => if i < j <= bs.len() {
                match spec_parse_more_bytes(bs, j) {
                    None => None,
                    Some((vs, e)) => Some((seq![v as u8] + vs, e)),
                }
            } else {
                None
            },
        }
    }
}

/// Parsing one input record at position `i`. The returned position stands
/// just past its closing `}`.
pub open spec fn spec_parse_input(bs: Seq<u8>, i: int) -> Option<(InputView, int)> {
    if !spec_match(bs, i, lit_input_open()) {
        None
    } else {
        match spec_parse_hex64(bs, i + lit_input_open().len() as int) {
            None => None,
            Some(txid) => {
                let a = i + lit_input_open().len() + 64;
                if !spec_match(bs, a, lit_vout_key()) {
                    None
                } else {
                    match spec_parse_dec(bs, a + lit_vout_key().len() as int, 0xFFFF_FFFF) {
                        None => None,
                        Some((vout, b)) => if !spec_match(bs, b, lit_script_key()) {
                            None
                        } else {
                            match spec_parse_byte_list(bs, b + lit_script_key().len() as int) {
                                None => None,
                                Some((script, c)) => if !spec_match(bs, c, lit_sequence_key()) {
                                    None
                                } else {
                                    match spec_parse_dec(
                                        bs,
                                        c + lit_sequence_key().len() as int,
                                        0xFFFF_FFFF,
                                    ) {
                                        None => None,
                                        Some((seqno, d)) => if spec_match(bs, d, lit_close()) {
                                            Some(
                                                (
                                                    InputView {
                                                        previous_output: OutPointView {
                                                            txid: txid,
                                                            vout: vout as u32,
                                                        },
                                                        script_sig: script,
                                                        sequence: seqno as u32,
                                                    },
                                                    d + 1,
                                                ),
                                            )
                                        } else {
                                            None
                                        },
                                    }
                                },
                            }
                        },
                    }
                }
            },
        }
    }
}

/// Parsing the rest of the input list, standing at either `]` or a
/// `, `-separated further record.
pub open spec fn spec_parse_more_inputs(bs: Seq<u8>, j: int) -> Option<(Seq<InputView>, int)>
    decreases bs.len() - j,
{
    if j < bs.len() && bs[j] == 93 {
        Some((Seq::empty(), j))
    } else if spec_match(bs, j, lit_sep()) {
        match spec_parse_input(bs, j + 2) {
            None => None,
            Some((m, k)) => if j < k <= bs.len() {
                match spec_parse_more_inputs(bs, k) {
                    None => None,
                    Some((ms, e)) => Some((seq![m] + ms, e)),
                }
            } else {
                None
            },
        }
    } else {
        None
    }
}

/// Parsing the input list, standing at either `]` or its first record. The
/// returned position stands at the closing `]`.
pub open spec fn spec_parse_inputs(bs: Seq<u8>, i: int) -> Option<(Seq<InputView>, int)> {
    if i < bs.len() && bs[i] == 93 {
        Some((Seq::empty(), i))
    } else {
        match spec_parse_input(bs, i) {
            None => None,
            Some((m, j)) => if i < j <= bs.len() {
                match spec_parse_more_inputs(bs, j) {
                    None => None,
                    Some((ms, e)) => Some((seq![m] + ms, e)),
                }
            } else {
                None
            },
        }
    }
}

/// What parsing the whole text yields: the canonical shape, spanning the
/// buffer exactly, or nothing.
pub open spec fn spec_parse_tx_text(bs: Seq<u8>) -> Option<TxView> {
    if !spec_match(bs, 0, lit_tx_open()) {
        None
    } else {
        match spec_parse_dec(bs, lit_tx_open().len() as int, 0xFFFF_FFFF) {
            None => None,
            Some((version, i1)) => if !spec_match(bs, i1, lit_inputs_key()) {
                None
            } else {
                match spec_parse_inputs(bs, i1 + lit_inputs_key().len() as int) {
                    None => None,
                    Some((inputs, i2)) => if !spec_match(bs, i2, lit_lock_key()) {
                        None
                    } else {
                        match spec_parse_dec(bs, i2 + lit_lock_key().len() as int, 0xFFFF_FFFF) {
                            None => None,
                            Some((lock, i3)) => if spec_match(bs, i3, lit_close()) && i3 + 1
                                == bs.len() {
                                Some(
                                    TxView {
                                        version: version as u32,
                                        inputs: inputs,
                                        lock_time: lock as u32,
                                    },
                                )
                            } else {
                                None
                            },
                        }
                    },
                }
            },
        }
    }
}

// ------------------------------------------------------------------
// Bounds of the parsing positions.
// ------------------------------------------------------------------

proof fn lemma_parse_dec_bounds(bs: Seq<u8>, i: int, max: u64)
    requires
        0 <= i <= bs.len(),
    ensures
        spec_parse_dec(bs, i, max) matches Some((v, e)) ==> i < e <= bs.len(),
{
    lemma_dec_run_end_facts(bs, i);
}

proof fn lemma_parse_more_bytes_bounds(bs: Seq<u8>, j: int)
    requires
        0 <= j,
    ensures
        spec_parse_more_bytes(bs, j) matches Some((vs, e)) ==> j <= e <= bs.len(),
    decreases bs.len() - j,
{
    if j < bs.len() && bs[j] == 93 {
    } else if spec_match(bs, j, lit_sep()) {
        match spec_parse_dec(bs, j + 2, 255) {
            None => {},
            Some((v, k)) => {
                if j < k <= bs.len() {
                    lemma_parse_more_bytes_bounds(bs, k);
                }
            },
        }
    }
}

proof fn lemma_parse_byte_list_bounds(bs: Seq<u8>, i: int)
    requires
        0 <= i,
    ensures
        spec_parse_byte_list(bs, i) matches Some((vs, e)) ==> i <= e <= bs.len(),
{
    if i < bs.len() && bs[i] == 93 {
    } else {
        match spec_parse_dec(bs, i, 255) {
            None => {},
            Some((v, j)) => {
                if i < j <= bs.len() {
                    lemma_parse_more_bytes_bounds(bs, j);
                }
            },
        }
    }
}

proof fn lemma_parse_input_bounds(bs: Seq<u8>, i: int)
    requires
        0 <= i,
    ensures
        spec_parse_input(bs, i) matches Some((m, j)) ==> i < j <= bs.len(),
{
    if spec_match(bs, i, lit_input_open()) {
        match spec_parse_hex64(bs, i + lit_input_open().len() as int) {
            None => {},
            Some(txid) => {
                let a = i + lit_input_open().len() + 64;
                if spec_match(bs, a, lit_vout_key()) {
                    lemma_parse_dec_bounds(bs, a + lit_vout_key().len() as int, 0xFFFF_FFFF);
                    match spec_parse_dec(bs, a + lit_vout_key().len() as int, 0xFFFF_FFFF) {
                        None => {},
                        Some((vout, b)) => {
                            if spec_match(bs, b, lit_script_key()) {
                                lemma_parse_byte_list_bounds(
                                    bs,
                                    b + lit_script_key().len() as int,
                                );
                                match spec_parse_byte_list(bs, b + lit_script_key().len() as int) {
                                    None => {},
                                    Some((script, c)) => {
                                        if spec_match(bs, c, lit_sequence_key()) {
                                            lemma_parse_dec_bounds(
                                                bs,
                                                c + lit_sequence_key().len() as int,
                                                0xFFFF_FFFF,
                                            );
                                        }
                                    },
                                }
                            }
                        },
                    }
                }
            },
        }
    }
}

proof fn lemma_parse_more_inputs_bounds(bs: Seq<u8>, j: int)
    requires
        0 <= j,
    ensures
        spec_parse_more_inputs(bs, j) matches Some((ms, e)) ==> j <= e <= bs.len(),
    decreases bs.len() - j,
{
    if j < bs.len() && bs[j] == 93 {
    } else if spec_match(bs, j, lit_sep()) {
        match spec_parse_input(bs, j + 2) {
            None => {},
            Some((m, k)) => {
                if j < k <= bs.len() {
                    lemma_parse_more_inputs_bounds(bs, k);
                }
            },
        }
    }
}

// ------------------------------------------------------------------
// Gluing a parsed prefix of a list onto the rest.
// ------------------------------------------------------------------

spec fn spec_byte_glue(pre: Seq<u8>, r: Option<(Seq<u8>, int)>) -> Option<(Seq<u8>, int)> {
    match r {
        None => None,
        Some((vs, e)) => Some((pre + vs, e)),
    }
}

proof fn lemma_byte_glue_step(pre: Seq<u8>, x: u8, r: Option<(Seq<u8>, int)>)
    ensures
        spec_byte_glue(pre, spec_byte_glue(seq![x], r)) == spec_byte_glue(pre.push(x), r),
{
    match r {
        None => {},
        Some((vs, e)) => {
            assert(pre + (seq![x] + vs) =~= pre.push(x) + vs);
        },
    }
}

spec fn spec_input_glue(pre: Seq<InputView>, r: Option<(Seq<InputView>, int)>) -> Option<
    (Seq<InputView>, int),
> {
    match r {
        None => None,
        Some((ms, e)) => Some((pre + ms, e)),
    }
}

proof fn lemma_input_glue_step(pre: Seq<InputView>, x: InputView, r: Option<(Seq<InputView>, int)>)
    ensures
        spec_input_glue(pre, spec_input_glue(seq![x], r)) == spec_input_glue(pre.push(x), r),
{
    match r {
        None => {},
        Some((ms, e)) => {
            assert(pre + (seq![x] + ms) =~= pre.push(x) + ms);
        },
    }
}

// ------------------------------------------------------------------
// The executable parsers.
// ------------------------------------------------------------------

/// Parse 64 hex digits into 32 bytes.
fn parse_hex64(bs: &[u8], i: usize) -> (r: Option<[u8; 32]>)
    requires
        i <= bs@.len(),
    ensures
        match (r, spec_parse_hex64(bs@, i as int)) {
            (Some(a), Some(s)) => a@ == s,
            (None, None) => true,
            _ => false,
        },
{
    let n = bs.len();
    if n - i < 64 {
        return None;
    }
    let mut arr = [0u8; 32];
    let mut k: usize = 0;
    while k < 32
        invariant
            i + 64 <= bs@.len(),
            bs@.len() <= usize::MAX,
            0 <= k <= 32,
            arr@.len() == 32,
            forall|j: int| 0 <= j < 2 * k ==> spec_is_hex_digit(#[trigger] bs@[i + j]),
            forall|j: int|
                0 <= j < k ==> arr@[j] == (spec_hex_val(bs@[i + 2 * j]) * 16 + spec_hex_val(
                    bs@[i + 2 * j + 1],
                )) as u8,
        decreases 32 - k,
    {
        let hi = match hex_val(bs[i + 2 * k]) {
            Some(v) => v,
            None => {
                proof {
                    let k0 = 2 * (k as int);
                    assert(0 <= k0 < 64);
                    assert(!spec_is_hex_digit(bs@[i as int + k0]));
                }
                return None;
            },
        };
        let lo = match hex_val(bs[i + 2 * k + 1]) {
            Some(v) => v,
            None => {
                proof {
                    let k0 = 2 * (k as int) + 1;
                    assert(0 <= k0 < 64);
                    assert(!spec_is_hex_digit(bs@[i as int + k0]));
                }
                return None;
            },
        };
        arr[k] = hi * 16 + lo;
        k = k + 1;
    }
    proof {
        let s = spec_parse_hex64(bs@, i as int)->Some_0;
        assert(arr@ =~= s);
    }
    Some(arr)
}

/// Parse a script byte list; the returned position stands at the `]`.
fn parse_byte_list(bs: &[u8], i: usize) -> (r: Option<(Vec<u8>, usize)>)
    requires
        i <= bs@.len(),
    ensures
        match (r, spec_parse_byte_list(bs@, i as int)) {
            (Some((v, j)), Some((s, sj))) => v@ == s && j as int == sj,
            (None, None) => true,
            _ => false,
        },
{
    let n = bs.len();
    let mut acc: Vec<u8> = Vec::new();
    if i < n && bs[i] == 93 {
        proof {
            assert(acc@ =~= Seq::<u8>::empty());
        }
        return Some((acc, i));
    }
    let (v0, first_end) = match parse_dec(bs, i, 255) {
        Some(p) => p,
        None => {
            return None;
        },
    };
    proof {
        lemma_parse_dec_bounds(bs@, i as int, 255);
        assert(spec_parse_byte_list(bs@, i as int) == spec_byte_glue(
            seq![(v0 as u8)],
            spec_parse_more_bytes(bs@, first_end as int),
        ));
    }
    acc.push(v0 as u8);
    proof {
        assert(acc@ =~= seq![(v0 as u8)]);
    }
    let mut cur = first_end;
    loop
        invariant
            i < cur <= bs@.len(),
            n == bs@.len(),
            bs@.len() <= usize::MAX,
            acc@.len() >= 1,
            spec_parse_byte_list(bs@, i as int) == spec_byte_glue(
                acc@,
                spec_parse_more_bytes(bs@, cur as int),
            ),
        decreases bs@.len() - cur,
    {
        if cur < n && bs[cur] == 93 {
            proof {
                assert(acc@ + Seq::<u8>::empty() =~= acc@);
            }
            return Some((acc, cur));
        }
        if !match_at(bs, cur, sep_bytes()) {
            return None;
        }
        let (v, k) = match parse_dec(bs, cur + 2, 255) {
            Some(p) => p,
            None => {
                return None;
            },
        };
        proof {
            lemma_parse_dec_bounds(bs@, cur as int + 2, 255);
            let rest = spec_parse_more_bytes(bs@, k as int);
            assert(spec_parse_more_bytes(bs@, cur as int) == spec_byte_glue(
                seq![(v as u8)],
                rest,
            ));
            lemma_byte_glue_step(acc@, v as u8, rest);
        }
        acc.push(v as u8);
        cur = k;
    }
}

/// Parse one input record; the returned position stands just past its `}`.
fn parse_input(bs: &[u8], i: usize) -> (r: Option<(TransactionInput, usize)>)
    requires
        i <= bs@.len(),
    ensures
        match (r, spec_parse_input(bs@, i as int)) {
            (Some((inp, j)), Some((m, sj))) => inp@ == m && j as int == sj,
            (None, None) => true,
            _ => false,
        },
{
    if !match_at(bs, i, input_open_bytes()) {
        return None;
    }
    let h = i + 30;
    let txid = match parse_hex64(bs, h) {
        Some(a) => a,
        None => {
            return None;
        },
    };
    let a = h + 64;
    if !match_at(bs, a, vout_key_bytes()) {
        return None;
    }
    let (vout, b) = match parse_dec(bs, a + 11, 0xFFFF_FFFF) {
        Some(p) => p,
        None => {
            return None;
        },
    };
    proof {
        lemma_parse_dec_bounds(bs@, a as int + 11, 0xFFFF_FFFF);
    }
    if !match_at(bs, b, script_key_bytes()) {
        return None;
    }
    let (script, c) = match parse_byte_list(bs, b + 28) {
        Some(p) => p,
        None => {
            return None;
        },
    };
    proof {
        lemma_parse_byte_list_bounds(bs@, b as int + 28);
    }
    if !match_at(bs, c, sequence_key_bytes()) {
        return None;
    }
    let (seqno, d) = match parse_dec(bs, c + 16, 0xFFFF_FFFF) {
        Some(p) => p,
        None => {
            return None;
        },
    };
    proof {
        lemma_parse_dec_bounds(bs@, c as int + 16, 0xFFFF_FFFF);
    }
    if !match_at(bs, d, close_bytes()) {
        return None;
    }
    let inp = TransactionInput::new(
        OutPoint::new(txid, vout as u32),
        Script::new(script),
        seqno as u32,
    );
    proof {
        assert(inp@ =~= spec_parse_input(bs@, i as int)->Some_0.0);
    }
    Some((inp, d + 1))
}

/// Parse the input list; the returned position stands at the closing `]`.
fn parse_inputs(bs: &[u8], i: usize) -> (r: Option<(Vec<TransactionInput>, usize)>)
    requires
        i <= bs@.len(),
    ensures
        match (r, spec_parse_inputs(bs@, i as int)) {
            (Some((v, j)), Some((s, sj))) => spec_input_views(v@) == s && j as int == sj,
            (None, None) => true,
            _ => false,
        },
{
    let n = bs.len();
    let mut acc: Vec<TransactionInput> = Vec::new();
    if i < n && bs[i] == 93 {
        proof {
            assert(spec_input_views(acc@) =~= Seq::<InputView>::empty());
        }
        return Some((acc, i));
    }
    let (first, first_end) = match parse_input(bs, i) {
        Some(p) => p,
        None => {
            return None;
        },
    };
    proof {
        lemma_parse_input_bounds(bs@, i as int);
        assert(spec_parse_inputs(bs@, i as int) == spec_input_glue(
            seq![first@],
            spec_parse_more_inputs(bs@, first_end as int),
        ));
    }
    acc.push(first);
    proof {
        assert(spec_input_views(acc@) =~= seq![first@]);
    }
    let mut cur = first_end;
    loop
        invariant
            i < cur <= bs@.len(),
            n == bs@.len(),
            bs@.len() <= usize::MAX,
            acc@.len() >= 1,
            spec_parse_inputs(bs@, i as int) == spec_input_glue(
                spec_input_views(acc@),
                spec_parse_more_inputs(bs@, cur as int),
            ),
        decreases bs@.len() - cur,
    {
        if cur < n && bs[cur] == 93 {
            proof {
                assert(spec_input_views(acc@) + Seq::<InputView>::empty() =~= spec_input_views(
                    acc@,
                ));
            }
            return Some((acc, cur));
        }
        if !match_at(bs, cur, sep_bytes()) {
            return None;
        }
        let (inp, k) = match parse_input(bs, cur + 2) {
            Some(p) => p,
            None => {
                return None;
            },
        };
        proof {
            lemma_parse_input_bounds(bs@, cur as int + 2);
            let rest = spec_parse_more_inputs(bs@, k as int);
            assert(spec_parse_more_inputs(bs@, cur as int) == spec_input_glue(seq![inp@], rest));
            lemma_input_glue_step(spec_input_views(acc@), inp@, rest);
            assert(spec_input_views(acc@.push(inp)) =~= spec_input_views(acc@).push(inp@));
        }
        acc.push(inp);
        cur = k;
    }
}

// ------------------------------------------------------------------
// The parser inverts the encoder.
// ------------------------------------------------------------------

proof fn lemma_parse_hex64_at(bs: Seq<u8>, i: int, s: Seq<u8>)
    requires
        s.len() == 32,
        0 <= i,
        i + 64 <= bs.len(),
        bs.subrange(i, i + 64) == spec_hex_bytes(s),
    ensures
        spec_parse_hex64(bs, i) == Some(s),
{
    let h = spec_hex_bytes(s);
    assert forall|k: int| 0 <= k < 64 implies spec_is_hex_digit(#[trigger] bs[i + k]) by {
        assert(bs[i + k] == bs.subrange(i, i + 64)[k]);
        if k % 2 == 0 {
            assert(h[k] == spec_hex_digit(s[k / 2] / 16));
        } else {
            assert(h[k] == spec_hex_digit(s[k / 2] % 16));
        }
    }
    let r = spec_parse_hex64(bs, i)->Some_0;
    assert forall|k: int| 0 <= k < 32 implies r[k] == s[k] by {
        assert(bs[i + 2 * k] == bs.subrange(i, i + 64)[2 * k]);
        assert(bs[i + 2 * k + 1] == bs.subrange(i, i + 64)[2 * k + 1]);
        assert(h[2 * k] == spec_hex_digit(s[k] / 16));
        assert(h[2 * k + 1] == spec_hex_digit(s[k] % 16));
        assert(spec_hex_val(spec_hex_digit(s[k] / 16)) == s[k] / 16);
        assert(spec_hex_val(spec_hex_digit(s[k] % 16)) == s[k] % 16);
        assert((s[k] / 16) * 16 + s[k] % 16 == s[k]) by {
            vstd::arithmetic::div_mod::lemma_fundamental_div_mod(s[k] as int, 16);
        }
    }
    assert(r =~= s);
}

proof fn lemma_parse_more_bytes_at(bs: Seq<u8>, j: int, s: Seq<u8>)
    requires
        0 <= j,
        j + spec_byte_tail_text(s).len() < bs.len(),
        bs.subrange(j, j + spec_byte_tail_text(s).len() as int) == spec_byte_tail_text(s),
        bs[j + spec_byte_tail_text(s).len()] == 93,
    ensures
        spec_parse_more_bytes(bs, j) == Some((s, j + spec_byte_tail_text(s).len() as int)),
    decreases s.len(),
{
    let t = spec_byte_tail_text(s);
    if s.len() == 0 {
        assert(bs[j] == 93);
        assert(s =~= Seq::<u8>::empty());
    } else {
        let d = spec_dec_bytes(s[0] as nat);
        let rest = spec_byte_tail_text(s.drop_first());
        assert(t == lit_sep() + d + rest);
        assert(bs[j] == t[0]) by {
            assert(bs[j] == bs.subrange(j, j + t.len() as int)[0]);
        }
        assert(t[0] == 44);
        assert(bs.subrange(j, j + 2) =~= lit_sep()) by {
            assert forall|q: int| 0 <= q < 2 implies bs.subrange(j, j + 2)[q] == lit_sep()[q] by {
                assert(bs[j + q] == bs.subrange(j, j + t.len() as int)[q]);
            }
        }
        assert(spec_match(bs, j, lit_sep()));
        let dl = d.len() as int;
        assert(bs.subrange(j + 2, j + 2 + dl) =~= d) by {
            assert forall|q: int| 0 <= q < dl implies bs.subrange(j + 2, j + 2 + dl)[q] == d[q] by {
                assert(bs[j + 2 + q] == bs.subrange(j, j + t.len() as int)[2 + q]);
                assert(t[2 + q] == d[q]);
            }
        }
        // the byte after the digits is the next separator's comma or the `]`
        let after = j + 2 + dl;
        if s.len() == 1 {
            assert(after == j + t.len());
            assert(bs[after] == 93);
            assert(!spec_is_dec_digit(bs[after]));
        } else {
            assert(bs[after] == bs.subrange(j, j + t.len() as int)[2 + dl]);
            assert(t[2 + dl] == rest[0]);
            assert(rest[0] == 44);
            assert(!spec_is_dec_digit(bs[after]));
        }
        lemma_dec_round_trip(bs, j + 2, s[0] as u64, 255);
        assert(spec_parse_dec(bs, j + 2, 255) == Some((s[0] as u64, after)));
        // recurse on the rest
        assert(bs.subrange(after, after + rest.len() as int) =~= rest) by {
            assert forall|q: int| 0 <= q < rest.len() implies bs.subrange(
                after,
                after + rest.len() as int,
            )[q] == rest[q] by {
                assert(bs[after + q] == bs.subrange(j, j + t.len() as int)[2 + dl + q]);
                assert(t[2 + dl + q] == rest[q]);
            }
        }
        assert(after + rest.len() == j + t.len());
        lemma_parse_more_bytes_at(bs, after, s.drop_first());
        assert(seq![s[0]] + s.drop_first() =~= s);
    }
}

proof fn lemma_parse_byte_list_at(bs: Seq<u8>, i: int, s: Seq<u8>)
    requires
        0 <= i,
        i + spec_byte_list_text(s).len() < bs.len(),
        bs.subrange(i, i + spec_byte_list_text(s).len() as int) == spec_byte_list_text(s),
        bs[i + spec_byte_list_text(s).len()] == 93,
    ensures
        spec_parse_byte_list(bs, i) == Some((s, i + spec_byte_list_text(s).len() as int)),
{
    let t = spec_byte_list_text(s);
    if s.len() == 0 {
        assert(bs[i] == 93);
        assert(s =~= Seq::<u8>::empty());
    } else {
        let d = spec_dec_bytes(s[0] as nat);
        let rest = spec_byte_tail_text(s.drop_first());
        assert(t == d + rest);
        crate::dec::lemma_dec_bytes_digits(s[0] as nat);
        assert(bs[i] == t[0]) by {
            assert(bs[i] == bs.subrange(i, i + t.len() as int)[0]);
        }
        assert(t[0] == d[0]);
        assert(spec_is_dec_digit(d[0]));
        assert(bs[i] != 93);
        let dl = d.len() as int;
        assert(bs.subrange(i, i + dl) =~= d) by {
            assert forall|q: int| 0 <= q < dl implies bs.subrange(i, i + dl)[q] == d[q] by {
                assert(bs[i + q] == bs.subrange(i, i + t.len() as int)[q]);
                assert(t[q] == d[q]);
            }
        }
        let after = i + dl;
        if s.len() == 1 {
            assert(after == i + t.len());
            assert(bs[after] == 93);
            assert(!spec_is_dec_digit(bs[after]));
        } else {
            assert(bs[after] == bs.subrange(i, i + t.len() as int)[dl]);
            assert(t[dl] == rest[0]);
            assert(rest[0] == 44);
            assert(!spec_is_dec_digit(bs[after]));
        }
        lemma_dec_round_trip(bs, i, s[0] as u64, 255);
        assert(spec_parse_dec(bs, i, 255) == Some((s[0] as u64, after)));
        assert(bs.subrange(after, after + rest.len() as int) =~= rest) by {
            assert forall|q: int| 0 <= q < rest.len() implies bs.subrange(
                after,
                after + rest.len() as int,
            )[q] == rest[q] by {
                assert(bs[after + q] == bs.subrange(i, i + t.len() as int)[dl + q]);
                assert(t[dl + q] == rest[q]);
            }
        }
        assert(after + rest.len() == i + t.len());
        lemma_parse_more_bytes_at(bs, after, s.drop_first());
        assert(seq![s[0]] + s.drop_first() =~= s);
    }
}

#[verifier::rlimit(80)]
proof fn lemma_parse_input_at(bs: Seq<u8>, i: int, m: InputView)
    requires
        m.wf(),
        0 <= i,
        i + spec_input_text(m).len() <= bs.len(),
        bs.subrange(i, i + spec_input_text(m).len() as int) == spec_input_text(m),
    ensures
        spec_parse_input(bs, i) == Some((m, i + spec_input_text(m).len() as int)),
{
    let t = spec_input_text(m);
    let tl = t.len() as int;
    let h = spec_hex_bytes(m.previous_output.txid);
    let dv = spec_dec_bytes(m.previous_output.vout as nat);
    let bl = spec_byte_list_text(m.script_sig);
    let ds = spec_dec_bytes(m.sequence as nat);
    let p1 = i + 30;
    let p2 = p1 + 64;
    let p3 = p2 + 11;
    let p4 = p3 + dv.len();
    let p5 = p4 + 28;
    let p6 = p5 + bl.len();
    let p7 = p6 + 16;
    let p8 = p7 + ds.len();
    assert(tl == 30 + 64 + 11 + dv.len() + 28 + bl.len() + 16 + ds.len() + 1);
    assert(bs.subrange(i, p1) =~= lit_input_open()) by {
        assert forall|q: int| 0 <= q < 30 implies bs.subrange(i, p1)[q] == lit_input_open()[q] by {
            assert(bs[i + q] == bs.subrange(i, i + tl)[q]);
        }
    }
    assert(spec_match(bs, i, lit_input_open()));
    assert(bs.subrange(p1, p2) =~= h) by {
        assert forall|q: int| 0 <= q < 64 implies bs.subrange(p1, p2)[q] == h[q] by {
            assert(bs[p1 + q] == bs.subrange(i, i + tl)[30 + q]);
            assert(t[30 + q] == h[q]);
        }
    }
    lemma_parse_hex64_at(bs, p1, m.previous_output.txid);
    assert(bs.subrange(p2, p3) =~= lit_vout_key()) by {
        assert forall|q: int| 0 <= q < 11 implies bs.subrange(p2, p3)[q] == lit_vout_key()[q] by {
            assert(bs[p2 + q] == bs.subrange(i, i + tl)[94 + q]);
        }
    }
    assert(spec_match(bs, p2, lit_vout_key()));
    assert(bs.subrange(p3, p4) =~= dv) by {
        assert forall|q: int| 0 <= q < dv.len() implies bs.subrange(p3, p4)[q] == dv[q] by {
            assert(bs[p3 + q] == bs.subrange(i, i + tl)[105 + q]);
            assert(t[105 + q] == dv[q]);
        }
    }
    assert(bs[p4] == bs.subrange(i, i + tl)[105 + dv.len() as int]);
    assert(t[105 + dv.len() as int] == lit_script_key()[0]);
    assert(!spec_is_dec_digit(bs[p4]));
    lemma_dec_round_trip(bs, p3, m.previous_output.vout as u64, 0xFFFF_FFFF);
    assert(bs.subrange(p4, p5) =~= lit_script_key()) by {
        assert forall|q: int| 0 <= q < 28 implies bs.subrange(p4, p5)[q]
            == lit_script_key()[q] by {
            assert(bs[p4 + q] == bs.subrange(i, i + tl)[105 + dv.len() + q]);
            assert(t[105 + dv.len() + q] == lit_script_key()[q]);
        }
    }
    assert(spec_match(bs, p4, lit_script_key()));
    let boff = 133 + dv.len() as int;
    assert(bs.subrange(p5, p6) =~= bl) by {
        assert forall|q: int| 0 <= q < bl.len() implies bs.subrange(p5, p6)[q] == bl[q] by {
            assert(bs[p5 + q] == bs.subrange(i, i + tl)[boff + q]);
            assert(t[boff + q] == bl[q]);
        }
    }
    assert(bs[p6] == bs.subrange(i, i + tl)[boff + bl.len() as int]);
    assert(t[boff + bl.len() as int] == lit_sequence_key()[0]);
    assert(bs[p6] == 93);
    lemma_parse_byte_list_at(bs, p5, m.script_sig);
    let soff = boff + bl.len() as int;
    assert(bs.subrange(p6, p7) =~= lit_sequence_key()) by {
        assert forall|q: int| 0 <= q < 16 implies bs.subrange(p6, p7)[q]
            == lit_sequence_key()[q] by {
            assert(bs[p6 + q] == bs.subrange(i, i + tl)[soff + q]);
            assert(t[soff + q] == lit_sequence_key()[q]);
        }
    }
    assert(spec_match(bs, p6, lit_sequence_key()));
    let qoff = soff + 16;
    assert(bs.subrange(p7, p8) =~= ds) by {
        assert forall|q: int| 0 <= q < ds.len() implies bs.subrange(p7, p8)[q] == ds[q] by {
            assert(bs[p7 + q] == bs.subrange(i, i + tl)[qoff + q]);
            assert(t[qoff + q] == ds[q]);
        }
    }
    assert(bs[p8] == bs.subrange(i, i + tl)[qoff + ds.len() as int]);
    assert(t[qoff + ds.len() as int] == lit_close()[0]);
    assert(!spec_is_dec_digit(bs[p8]));
    lemma_dec_round_trip(bs, p7, m.sequence as u64, 0xFFFF_FFFF);
    assert(bs.subrange(p8, p8 + 1) =~= lit_close()) by {
        assert(bs[p8] == 125);
    }
    assert(spec_match(bs, p8, lit_close()));
    let got = spec_parse_input(bs, i)->Some_0.0;
    assert(got =~= m);
    assert(p8 + 1 == i + tl);
}

proof fn lemma_parse_more_inputs_at(bs: Seq<u8>, j: int, is: Seq<InputView>)
    requires
        forall|q: int| 0 <= q < is.len() ==> (#[trigger] is[q]).wf(),
        0 <= j,
        j + spec_inputs_tail_text(is).len() < bs.len(),
        bs.subrange(j, j + spec_inputs_tail_text(is).len() as int) == spec_inputs_tail_text(is),
        bs[j + spec_inputs_tail_text(is).len()] == 93,
    ensures
        spec_parse_more_inputs(bs, j) == Some((is, j + spec_inputs_tail_text(is).len() as int)),
    decreases is.len(),
{
    let t = spec_inputs_tail_text(is);
    if is.len() == 0 {
        assert(bs[j] == 93);
        assert(is =~= Seq::<InputView>::empty());
    } else {
        let it = spec_input_text(is[0]);
        let rest = spec_inputs_tail_text(is.drop_first());
        assert(t == lit_sep() + it + rest);
        assert(bs[j] == t[0]) by {
            assert(bs[j] == bs.subrange(j, j + t.len() as int)[0]);
        }
        assert(t[0] == 44);
        assert(bs.subrange(j, j + 2) =~= lit_sep()) by {
            assert forall|q: int| 0 <= q < 2 implies bs.subrange(j, j + 2)[q] == lit_sep()[q] by {
                assert(bs[j + q] == bs.subrange(j, j + t.len() as int)[q]);
            }
        }
        assert(spec_match(bs, j, lit_sep()));
        let il = it.len() as int;
        assert(bs.subrange(j + 2, j + 2 + il) =~= it) by {
            assert forall|q: int| 0 <= q < il implies bs.subrange(j + 2, j + 2 + il)[q]
                == it[q] by {
                assert(bs[j + 2 + q] == bs.subrange(j, j + t.len() as int)[2 + q]);
                assert(t[2 + q] == it[q]);
            }
        }
        lemma_parse_input_at(bs, j + 2, is[0]);
        let k = j + 2 + il;
        assert(bs.subrange(k, k + rest.len() as int) =~= rest) by {
            assert forall|q: int| 0 <= q < rest.len() implies bs.subrange(
                k,
                k + rest.len() as int,
            )[q] == rest[q] by {
                assert(bs[k + q] == bs.subrange(j, j + t.len() as int)[2 + il + q]);
                assert(t[2 + il + q] == rest[q]);
            }
        }
        assert(k + rest.len() == j + t.len());
        assert forall|q: int| 0 <= q < is.drop_first().len() implies (#[trigger] is.drop_first()[q]).wf() by {
            assert(is.drop_first()[q] == is[q + 1]);
        }
        lemma_parse_more_inputs_at(bs, k, is.drop_first());
        assert(seq![is[0]] + is.drop_first() =~= is);
    }
}

proof fn lemma_parse_inputs_at(bs: Seq<u8>, i: int, is: Seq<InputView>)
    requires
        forall|q: int| 0 <= q < is.len() ==> (#[trigger] is[q]).wf(),
        0 <= i,
        i + spec_inputs_text(is).len() < bs.len(),
        bs.subrange(i, i + spec_inputs_text(is).len() as int) == spec_inputs_text(is),
        bs[i + spec_inputs_text(is).len()] == 93,
    ensures
        spec_parse_inputs(bs, i) == Some((is, i + spec_inputs_text(is).len() as int)),
{
    let t = spec_inputs_text(is);
    if is.len() == 0 {
        assert(bs[i] == 93);
        assert(is =~= Seq::<InputView>::empty());
    } else {
        let it = spec_input_text(is[0]);
        let rest = spec_inputs_tail_text(is.drop_first());
        assert(t == it + rest);
        assert(bs[i] == t[0]) by {
            assert(bs[i] == bs.subrange(i, i + t.len() as int)[0]);
        }
        assert(t[0] == it[0]);
        assert(it[0] == lit_input_open()[0]);
        assert(bs[i] != 93);
        let il = it.len() as int;
        assert(bs.subrange(i, i + il) =~= it) by {
            assert forall|q: int| 0 <= q < il implies bs.subrange(i, i + il)[q] == it[q] by {
                assert(bs[i + q] == bs.subrange(i, i + t.len() as int)[q]);
                assert(t[q] == it[q]);
            }
        }
        lemma_parse_input_at(bs, i, is[0]);
        let k = i + il;
        assert(bs.subrange(k, k + rest.len() as int) =~= rest) by {
            assert forall|q: int| 0 <= q < rest.len() implies bs.subrange(
                k,
                k + rest.len() as int,
            )[q] == rest[q] by {
                assert(bs[k + q] == bs.subrange(i, i + t.len() as int)[il + q]);
                assert(t[il + q] == rest[q]);
            }
        }
        assert(k + rest.len() == i + t.len());
        assert forall|q: int| 0 <= q < is.drop_first().len() implies (#[trigger] is.drop_first()[q]).wf() by {
            assert(is.drop_first()[q] == is[q + 1]);
        }
        lemma_parse_more_inputs_at(bs, k, is.drop_first());
        assert(seq![is[0]] + is.drop_first() =~= is);
    }
}

/// Text round trip: the canonical text of any well-formed transaction parses
/// back to exactly that transaction.
#[verifier::rlimit(80)]
pub proof fn lemma_text_round_trip(t: TxView)
    requires
        t.wf(),
    ensures
        spec_parse_tx_text(spec_tx_text(t)) == Some(t),
{
    let bs = spec_tx_text(t);
    let dv = spec_dec_bytes(t.version as nat);
    let il = spec_inputs_text(t.inputs);
    let dl = spec_dec_bytes(t.lock_time as nat);
    let q1 = 12int;
    let q2 = q1 + dv.len();
    let q3 = q2 + 13;
    let q4 = q3 + il.len();
    let q5 = q4 + 16;
    let q6 = q5 + dl.len();
    assert(bs.len() == 12 + dv.len() + 13 + il.len() + 16 + dl.len() + 1);
    assert(bs.subrange(0, 12) =~= lit_tx_open()) by {
        assert forall|q: int| 0 <= q < 12 implies bs.subrange(0, 12)[q] == lit_tx_open()[q] by {
            assert(bs.subrange(0, 12)[q] == bs[q]);
        }
    }
    assert(spec_match(bs, 0, lit_tx_open()));
    assert(bs.subrange(q1, q2) =~= dv) by {
        assert forall|q: int| 0 <= q < dv.len() implies bs.subrange(q1, q2)[q] == dv[q] by {
            assert(bs[q1 + q] == dv[q]);
        }
    }
    assert(bs[q2] == lit_inputs_key()[0]);
    assert(!spec_is_dec_digit(bs[q2]));
    lemma_dec_round_trip(bs, q1, t.version as u64, 0xFFFF_FFFF);
    assert(bs.subrange(q2, q3) =~= lit_inputs_key()) by {
        assert forall|q: int| 0 <= q < 13 implies bs.subrange(q2, q3)[q]
            == lit_inputs_key()[q] by {
            assert(bs[q2 + q] == lit_inputs_key()[q]);
        }
    }
    assert(spec_match(bs, q2, lit_inputs_key()));
    assert(bs.subrange(q3, q4) =~= il) by {
        assert forall|q: int| 0 <= q < il.len() implies bs.subrange(q3, q4)[q] == il[q] by {
            assert(bs[q3 + q] == il[q]);
        }
    }
    assert(bs[q4] == lit_lock_key()[0]);
    lemma_parse_inputs_at(bs, q3, t.inputs);
    assert(bs.subrange(q4, q5) =~= lit_lock_key()) by {
        assert forall|q: int| 0 <= q < 16 implies bs.subrange(q4, q5)[q] == lit_lock_key()[q] by {
            assert(bs[q4 + q] == lit_lock_key()[q]);
        }
    }
    assert(spec_match(bs, q4, lit_lock_key()));
    assert(bs.subrange(q5, q6) =~= dl) by {
        assert forall|q: int| 0 <= q < dl.len() implies bs.subrange(q5, q6)[q] == dl[q] by {
            assert(bs[q5 + q] == dl[q]);
        }
    }
    assert(bs[q6] == lit_close()[0]);
    assert(!spec_is_dec_digit(bs[q6]));
    lemma_dec_round_trip(bs, q5, t.lock_time as u64, 0xFFFF_FFFF);
    assert(bs.subrange(q6, q6 + 1) =~= lit_close()) by {
        assert(bs[q6] == 125);
    }
    assert(spec_match(bs, q6, lit_close()));
    assert(q6 + 1 == bs.len());
    let got = spec_parse_tx_text(bs)->Some_0;
    assert(got =~= t);
}

/// The same round trip at the string boundary: a string whose characters are
/// `to_text`'s output carries the canonical bytes, so `from_text` on it
/// succeeds with exactly the encoded transaction.
pub proof fn lemma_text_round_trip_str(s: &str, t: TxView)
    requires
        t.wf(),
        s@ == spec_ascii_chars(spec_tx_text(t)),
    ensures
        spec_parse_tx_text(s.spec_bytes()) == Some(t),
{
    lemma_tx_text_ascii(t);
    crate::ascii::lemma_ascii_chars_utf8(spec_tx_text(t));
    assert(s.spec_bytes() == spec_tx_text(t));
    lemma_text_round_trip(t);
}

impl BitcoinTransaction {
    /// Parse the canonical text-interchange form back into a transaction;
    /// anything else is malformed.
    pub fn from_text(s: &str) -> (r: Result<Self, BitcoinError>)
        ensures
            match (r, spec_parse_tx_text(s.spec_bytes())) {
                (Ok(t), Some(m)) => t@ == m,
                (Err(e), None) => e == BitcoinError::InvalidFormat,
                _ => false,
            },
    {
        let bs = s.as_bytes();
        let n = bs.len();
        if !match_at(bs, 0, tx_open_bytes()) {
            return Err(BitcoinError::InvalidFormat);
        }
        let (version, i1) = match parse_dec(bs, 12, 0xFFFF_FFFF) {
            Some(p) => p,
            None => {
                return Err(BitcoinError::InvalidFormat);
            },
        };
        proof {
            lemma_parse_dec_bounds(bs@, 12, 0xFFFF_FFFF);
        }
        if !match_at(bs, i1, inputs_key_bytes()) {
            return Err(BitcoinError::InvalidFormat);
        }
        let (inputs, i2) = match parse_inputs(bs, i1 + 13) {
            Some(p) => p,
            None => {
                return Err(BitcoinError::InvalidFormat);
            },
        };
        proof {
            if i1 as int + 13 < bs@.len() && bs@[i1 as int + 13] == 93 {
            } else {
                lemma_parse_input_bounds(bs@, i1 as int + 13);
                match spec_parse_input(bs@, i1 as int + 13) {
                    None => {},
                    Some((m, j)) => {
                        lemma_parse_more_inputs_bounds(bs@, j);
                    },
                }
            }
        }
        if !match_at(bs, i2, lock_key_bytes()) {
            return Err(BitcoinError::InvalidFormat);
        }
        let (lock, i3) = match parse_dec(bs, i2 + 16, 0xFFFF_FFFF) {
            Some(p) => p,
            None => {
                return Err(BitcoinError::InvalidFormat);
            },
        };
        proof {
            lemma_parse_dec_bounds(bs@, i2 as int + 16, 0xFFFF_FFFF);
        }
        if !match_at(bs, i3, close_bytes()) {
            return Err(BitcoinError::InvalidFormat);
        }
        if i3 + 1 != n {
            return Err(BitcoinError::InvalidFormat);
        }
        let t = BitcoinTransaction::new(version as u32, inputs, lock as u32);
        proof {
            assert(t@ =~= spec_parse_tx_text(s.spec_bytes())->Some_0);
        }
        Ok(t)
    }
}

} // verus!
