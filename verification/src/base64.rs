//! Digests as text, for formats that cannot hold bytes: base64 in the
//! standard alphabet, with padding, as the `base64` crate writes and reads it.

use vstd::prelude::*;

verus! {

/// `base64::DecodeError`, of which nothing is known here but that it is
/// handed on.
#[verifier::external_type_specification]
#[verifier::external_body]
pub struct ExDecodeError(::base64::DecodeError);

/// The base64 text of `bytes`.
pub uninterp spec fn base64_text(bytes: Seq<u8>) -> Seq<char>;

/// The bytes that `text` stands for, where it is base64.
pub uninterp spec fn base64_bytes(text: Seq<char>) -> Option<Seq<u8>>;

/// `base64::encode`, which panics only where the length of the text would
/// not fit in `usize`.
///
/// Not proved: the text depends on `bytes` alone, it has four characters for
/// every three bytes begun, and `base64::decode` reads it back as `bytes`.
#[verifier::external_body]
fn encode(bytes: &[u8]) -> (text: String)
    requires
        (bytes@.len() / 3 + 1) * 4 <= usize::MAX,
    ensures
        text@ == base64_text(bytes@),
        text@.len() == (bytes@.len() + 2) / 3 * 4,
        base64_bytes(text@) == Some(bytes@),
{
    ::base64::encode(bytes)
}

/// `base64::decode`, which panics only where the length of the text, seven
/// added, would not fit in `usize` (a character takes four bytes at most).
///
/// Not proved: the outcome depends on `text` alone; it is given the name
/// [`base64_bytes`].
#[verifier::external_body]
fn decode(text: &str) -> (bytes: Result<Vec<u8>, ::base64::DecodeError>)
    requires
        text@.len() * 4 + 7 <= usize::MAX,
    ensures
        match bytes {
            Ok(decoded) => base64_bytes(text@) == Some(decoded@),
            Err(_) => base64_bytes(text@) is None,
        },
{
    ::base64::decode(text)
}

/// Writes `bytes` as base64 text: four characters for every three bytes
/// begun.
pub fn serialize(bytes: &[u8]) -> (text: String)
    requires
        (bytes@.len() / 3 + 1) * 4 <= usize::MAX,
    ensures
        text@ == base64_text(bytes@),
        text@.len() == (bytes@.len() + 2) / 3 * 4,
        base64_bytes(text@) == Some(bytes@),
{
    encode(bytes)
}

/// Reads base64 text back into bytes, and fails on text that is not base64.
pub fn deserialize(text: &str) -> (bytes: Result<Vec<u8>, ::base64::DecodeError>)
    requires
        text@.len() * 4 + 7 <= usize::MAX,
    ensures
        match bytes {
            Ok(decoded) => base64_bytes(text@) == Some(decoded@),
            Err(_) => base64_bytes(text@) is None,
        },
{
    decode(text)
}

} // verus!
