use vstd::prelude::*;

use encoding_rs::GBK;

verus! {

/// What `encoding_rs::GBK.decode` gives for `bytes`: GBK decoding with BOM
/// sniffing, malformed sequences replaced by U+FFFD.
pub uninterp spec fn gbk_decoded(bytes: Seq<u8>) -> Seq<char>;

/// What `encoding_rs::GBK.encode` gives for `text`: GBK bytes, unmappable
/// characters written as HTML numeric character references.
pub uninterp spec fn gbk_encoded(text: Seq<char>) -> Seq<u8>;

/// What `String::from_utf8_lossy` gives for `bytes`: UTF-8 decoding with
/// malformed sequences replaced by U+FFFD.
pub uninterp spec fn utf8_lossy(bytes: Seq<u8>) -> Seq<char>;

/// All bytes are ASCII.
pub open spec fn is_ascii_bytes(bytes: Seq<u8>) -> bool {
    forall|i: int| 0 <= i < bytes.len() ==> bytes[i] < 0x80
}

/// ASCII bytes as characters.
pub open spec fn ascii_chars(bytes: Seq<u8>) -> Seq<char> {
    Seq::new(bytes.len(), |i: int| bytes[i] as char)
}

/// All characters are ASCII.
pub open spec fn is_ascii_text(text: Seq<char>) -> bool {
    forall|i: int| 0 <= i < text.len() ==> (text[i] as u32) < 0x80
}

/// ASCII characters as bytes.
pub open spec fn ascii_bytes(text: Seq<char>) -> Seq<u8> {
    Seq::new(text.len(), |i: int| text[i] as u8)
}

/// `encoding_rs::GBK.decode`: the text of GBK bytes. ASCII input decodes
/// to the same characters (GBK is ASCII-compatible and no byte-order mark
/// starts with an ASCII byte).
#[verifier::external_body]
pub(crate) fn gbk_decode(bytes: &[u8]) -> (text: String)
    ensures
        text@ == gbk_decoded(bytes@),
        is_ascii_bytes(bytes@) ==> text@ == ascii_chars(bytes@),
{
    GBK.decode(bytes).0.into_owned()
}

/// `encoding_rs::GBK.encode`: the GBK bytes of a text. ASCII text encodes to
/// the same bytes (the input is returned as it is).
#[verifier::external_body]
pub(crate) fn gbk_encode(text: &str) -> (bytes: Vec<u8>)
    ensures
        bytes@ == gbk_encoded(text@),
        is_ascii_text(text@) ==> bytes@ == ascii_bytes(text@),
{
    GBK.encode(text).0.into_owned()
}

/// `String::from_utf8_lossy`: the text of UTF-8 bytes. ASCII input is
/// valid UTF-8 and comes back as the same characters.
#[verifier::external_body]
pub(crate) fn utf8_lossy_text(bytes: &[u8]) -> (text: String)
    ensures
        text@ == utf8_lossy(bytes@),
        is_ascii_bytes(bytes@) ==> text@ == ascii_chars(bytes@),
{
    String::from_utf8_lossy(bytes).into_owned()
}

} // verus!
