use vstd::prelude::*;
use vstd::string::StrSliceExecFns;
use vstd::utf8::{valid_utf8, decode_utf8, encode_utf8, encode_utf8_valid_utf8,
    encode_utf8_decode_utf8};

verus! {

/// The UTF-8 bytes of `text`: the byte sequence the splitter works on.
pub fn encode(text: &str) -> (r: Vec<u8>)
    ensures
        r@ == encode_utf8(text@),
{
    text.as_bytes_vec()
}

/// Relies on String::from_utf8: succeeds exactly on valid UTF-8, and then
/// returns the string those bytes spell.
#[verifier::external_body]
pub fn decode(bytes: &Vec<u8>) -> (r: Option<String>)
    ensures
        r is Some <==> valid_utf8(bytes@),
        r matches Some(t) ==> t@ == decode_utf8(bytes@) && encode_utf8(t@) == bytes@,
{
    String::from_utf8(bytes.clone()).ok()
}

/// Encoding a text and decoding the bytes yields the original text, and the
/// encoded bytes are valid UTF-8: `decode` applied to `encode(text)` cannot
/// fail and returns `text` itself.
pub proof fn lemma_encode_decode_round_trip(text: Seq<char>)
    ensures
        valid_utf8(encode_utf8(text)),
        decode_utf8(encode_utf8(text)) == text,
{
    encode_utf8_valid_utf8(text);
    encode_utf8_decode_utf8(text);
}

} // verus!
