//! Bridging between ASCII byte buffers and Rust strings.
//!
//! All text this library produces (hex identifiers, the text-interchange
//! form, display renderings) is ASCII, built verified as `Vec<u8>` and turned
//! into a `String` at the very edge.

use vstd::prelude::*;

verus! {

/// The characters that a sequence of ASCII bytes stands for, one per byte.
pub open spec fn spec_ascii_chars(bs: Seq<u8>) -> Seq<char> {
    Seq::new(bs.len(), |i: int| bs[i] as char)
}

/// Relies on String::from_utf8: a vector of bytes below 0x80 is valid UTF-8
/// and becomes a string of exactly those characters.
#[verifier::external_body]
pub(crate) fn ascii_to_string(v: Vec<u8>) -> (r: String)
    requires
        forall|i: int| 0 <= i < v@.len() ==> v@[i] < 128,
    ensures
        r@ == spec_ascii_chars(v@),
{
    match String::from_utf8(v) {
        Ok(s) => s,
        Err(_) => String::new(),
    }
}

/// The UTF-8 bytes of the characters of ASCII bytes are those bytes again:
/// reading a produced string back through `str::as_bytes` loses nothing.
pub proof fn lemma_ascii_chars_utf8(bs: Seq<u8>)
    requires
        forall|i: int| 0 <= i < bs.len() ==> bs[i] < 128,
    ensures
        vstd::utf8::encode_utf8(spec_ascii_chars(bs)) =~= bs,
{
    let cs = spec_ascii_chars(bs);
    assert forall|i: int| 0 <= i < cs.len() implies '\0' <= #[trigger] cs[i] <= '\u{7f}' by {
        assert(cs[i] == bs[i] as char);
        assert(bs[i] < 128);
    }
    assert(vstd::utf8::is_ascii_chars(cs));
    vstd::utf8::is_ascii_chars_encode_utf8(cs);
}

} // verus!
