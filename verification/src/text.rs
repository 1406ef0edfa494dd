//! Text on the wire: strings as their UTF-8 bytes, and back.
use vstd::prelude::*;
use vstd::string::StrSliceExecFns;
use vstd::utf8::*;

verus! {

/// What a string has left once the whitespace at both ends is taken off.
pub uninterp spec fn trimmed(text: Seq<char>) -> Seq<char>;

/// `str::trim`: the text without the whitespace at its two ends, as Unicode
/// defines whitespace. All that is claimed is that the result depends on the
/// text alone.
#[verifier::external_body]
pub(crate) fn text_trim(text: &str) -> (r: &str)
    ensures
        r@ == trimmed(text@),
{
    text.trim()
}

/// `String::from_utf8`: the string that the bytes spell, where they are valid
/// UTF-8, and nothing where they are not.
#[verifier::external_body]
pub(crate) fn text_from_utf8(bytes: Vec<u8>) -> (r: Option<String>)
    ensures
        r is Some <==> valid_utf8(bytes@),
        r is Some ==> r->0@ == decode_utf8(bytes@),
{
    String::from_utf8(bytes).ok()
}

/// What a list of strings holds.
pub open spec fn texts_view(texts: Seq<String>) -> Seq<Seq<char>> {
    texts.map_values(|t: String| t@)
}

/// What an optional string holds.
pub open spec fn optional_text(text: Option<String>) -> Option<Seq<char>> {
    match text {
        Some(t) => Some(t@),
        None => None,
    }
}

/// Whether a text is empty once trimmed.
pub open spec fn blank(text: Seq<char>) -> bool {
    trimmed(text).len() == 0
}

/// Whether a string is empty, or nothing but whitespace.
pub fn is_blank(text: &String) -> (r: bool)
    ensures
        r == blank(text@),
{
    text_trim(text.as_str()).is_empty()
}

/// The UTF-8 bytes of a string.
pub fn text_bytes(text: &String) -> (r: Vec<u8>)
    ensures
        r@ == encode_utf8(text@),
        valid_utf8(r@),
        decode_utf8(r@) == text@,
{
    proof {
        encode_utf8_valid_utf8(text@);
        encode_utf8_decode_utf8(text@);
    }
    text.as_str().as_bytes_vec()
}

/// Two texts with the same UTF-8 bytes are the same text.
pub proof fn lemma_text_bytes_injective(a: Seq<char>, b: Seq<char>)
    requires
        encode_utf8(a) == encode_utf8(b),
    ensures
        a == b,
{
    encode_utf8_decode_utf8(a);
    encode_utf8_decode_utf8(b);
}

/// A copy of a list of strings.
pub fn copy_texts(texts: &Vec<String>) -> (r: Vec<String>)
    ensures
        texts_view(r@) == texts_view(texts@),
{
    let mut out: Vec<String> = Vec::new();
    let mut i: usize = 0;
    while i < texts.len()
        invariant
            0 <= i <= texts.len(),
            out@.len() == i,
            texts_view(out@) == texts_view(texts@).take(i as int),
        decreases texts.len() - i,
    {
        let text = texts[i].clone();
        let ghost before = out@;
        out.push(text);
        assert forall|k: int| 0 <= k < out@.len() implies texts_view(out@)[k] == texts_view(
            texts@,
        ).take(i as int + 1)[k] by {
            if k < i {
                assert(texts_view(before)[k] == texts_view(texts@).take(i as int)[k]);
            }
        }
        assert(texts_view(out@) =~= texts_view(texts@).take(i as int + 1));
        i += 1;
    }
    assert(texts_view(texts@).take(texts@.len() as int) =~= texts_view(texts@));
    out
}

} // verus!
