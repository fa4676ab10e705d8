//! Object ids: the SHA-1 digest of a byte string, written as forty
//! lowercase hexadecimal digits.

use sha1::Digest;
use vstd::prelude::*;

verus! {

/// The length of an object id.
pub const HASH_LENGTH: usize = 40;

/// The length of the part of an object id that names its directory in the
/// object store.
pub const FOLDER_LENGTH: usize = 2;

/// The SHA-1 digest of `data`.
pub uninterp spec fn sha1_digest(data: Seq<u8>) -> Seq<u8>;

/// The digit for `n`, which is below sixteen: `0` to `9`, then `a` to `f`.
pub open spec fn hex_digit(n: u8) -> u8 {
    if n < 10 {
        (48 + n) as u8
    } else {
        (87 + n) as u8
    }
}

/// `data` in hexadecimal: two digits for each byte, the high half first.
pub open spec fn hex_spec(data: Seq<u8>) -> Seq<u8> {
    Seq::new(
        2 * data.len(),
        |i: int|
            if i % 2 == 0 {
                hex_digit(data[i / 2] / 16)
            } else {
                hex_digit(data[i / 2] % 16)
            },
    )
}

/// Whether `c` is one of the digits `0` to `9` and `a` to `f`.
pub open spec fn is_hex_digit(c: u8) -> bool {
    (48 <= c <= 57) || (97 <= c <= 102)
}

/// Whether `s` has the form of an object id.
pub open spec fn is_object_id(s: Seq<u8>) -> bool {
    &&& s.len() == HASH_LENGTH
    &&& forall|i: int| 0 <= i < s.len() ==> is_hex_digit(#[trigger] s[i])
}

/// The object id of content `data`.
pub open spec fn object_id_of(data: Seq<u8>) -> Seq<u8> {
    hex_spec(sha1_digest(data))
}

/// Calls `sha1::Sha1::digest`. The result is the digest of `data`, which the
/// contract only names; SHA-1 digests are twenty bytes long.
#[verifier::external_body]
fn digest(data: &[u8]) -> (r: Vec<u8>)
    ensures
        r@ == sha1_digest(data@),
        r@.len() == 20,
{
    sha1::Sha1::digest(data).to_vec()
}

/// Calls `hex::encode`. The result holds two lowercase hexadecimal digits
/// for each byte of `data`, in order, the high half of a byte first.
#[verifier::external_body]
fn hex_encode(data: &[u8]) -> (r: Vec<u8>)
    ensures
        r@ == hex_spec(data@),
{
    hex::encode(data).into_bytes()
}

/// Hexadecimal text of twenty bytes has the form of an object id.
pub proof fn lemma_hex_is_object_id(data: Seq<u8>)
    requires
        data.len() == 20,
    ensures
        is_object_id(hex_spec(data)),
{
    let s = hex_spec(data);
    assert forall|i: int| 0 <= i < s.len() implies is_hex_digit(#[trigger] s[i]) by {
        let b = data[i / 2];
        assert(b / 16 < 16);
        assert(b % 16 < 16);
    }
}

/// The object id of `text`.
pub fn sha1(text: &[u8]) -> (id: Vec<u8>)
    ensures
        id@ == object_id_of(text@),
        is_object_id(id@),
{
    let d = digest(text);
    proof {
        lemma_hex_is_object_id(d@);
    }
    hex_encode(d.as_slice())
}

} // verus!
