//! The envelope in which objects and the index are kept on disk: standard
//! base64 with padding.

use base64::Engine;
use vstd::prelude::*;

verus! {

/// The base64 text of `data`.
pub uninterp spec fn base64_text(data: Seq<u8>) -> Seq<u8>;

/// The bytes that base64 text `text` stands for, or `None` where `text` is
/// no base64.
pub uninterp spec fn base64_data(text: Seq<u8>) -> Option<Seq<u8>>;

/// Whether data of length `n` can be encoded on this machine: the text,
/// four bytes for every three, has to fit an allocation.
pub open spec fn encodable_len(n: nat) -> bool {
    n <= usize::MAX / 4
}

/// Calls `Engine::encode` of `base64::engine::general_purpose::STANDARD`.
/// The result is the base64 text of `data`, which the contract only names;
/// it has four bytes for every three bytes of `data`, the last three
/// filled up, and decoding it gives `data` back. The encoder panics where
/// the length of the text overflows, which `requires` leaves out.
#[verifier::external_body]
pub fn serialize(data: &[u8]) -> (text: Vec<u8>)
    requires
        encodable_len(data@.len()),
    ensures
        text@ == base64_text(data@),
        text@.len() == (data@.len() + 2) / 3 * 4,
        base64_data(text@) == Some(data@),
{
    base64::engine::general_purpose::STANDARD.encode(data).into_bytes()
}

/// Calls `Engine::decode` of `base64::engine::general_purpose::STANDARD`.
/// The result is what `text` stands for, or `None` where the decoder
/// rejects `text`.
#[verifier::external_body]
pub fn deserialize(text: &[u8]) -> (data: Option<Vec<u8>>)
    ensures
        match data {
            Some(d) => base64_data(text@) == Some(d@),
            None => base64_data(text@) is None,
        },
{
    base64::engine::general_purpose::STANDARD.decode(text).ok()
}

/// Whether `data` can be encoded on this machine.
pub fn can_serialize(data: &[u8]) -> (r: bool)
    ensures
        r == encodable_len(data@.len()),
{
    data.len() <= usize::MAX / 4
}

} // verus!
