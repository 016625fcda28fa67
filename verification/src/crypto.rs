//! The outside primitives the core leans on: the blake3 digest, hex and
//! z-base-32 renderings, and a source of randomness. Each digest or
//! encoding is a function of its input alone, so its result is given a
//! name that contracts elsewhere build on; of random draws nothing is
//! promised beyond their size.

use vstd::prelude::*;
use rand::RngCore;

verus! {

/// The 32-byte blake3 digest of the given bytes.
pub uninterp spec fn blake3_of(data: Seq<u8>) -> Seq<u8>;

/// The lowercase hexadecimal rendering of the given bytes.
pub uninterp spec fn hex_of(data: Seq<u8>) -> Seq<char>;

/// The z-base-32 rendering of the given bytes.
pub uninterp spec fn zbase32_of(data: Seq<u8>) -> Seq<char>;

/// Relies on blake3::hash: a 32-byte digest determined by the input alone.
#[verifier::external_body]
pub fn blake3_digest(data: &[u8]) -> (r: [u8; 32])
    ensures
        r@ == blake3_of(data@),
{
    *blake3::hash(data).as_bytes()
}

/// Relies on hex::encode: two lowercase digits for each input byte,
/// determined by the input alone.
#[verifier::external_body]
pub fn hex_encode(data: &[u8]) -> (r: String)
    ensures
        r@ == hex_of(data@),
        r@.len() == 2 * data@.len(),
{
    hex::encode(data)
}

/// Relies on base32::encode with the z-base-32 alphabet: an unpadded
/// rendering determined by the input alone.
#[verifier::external_body]
pub fn zbase32_encode(data: &[u8]) -> (r: String)
    ensures
        r@ == zbase32_of(data@),
{
    base32::encode(base32::Alphabet::Z, data)
}

/// Relies on String::from_utf8: it accepts exactly the valid UTF-8 byte
/// strings and decodes them to their character sequence.
#[verifier::external_body]
pub fn bytes_to_string(b: Vec<u8>) -> (r: Option<String>)
    ensures
        r is Some <==> vstd::utf8::valid_utf8(b@),
        r matches Some(s) ==> s@ == vstd::utf8::decode_utf8(b@),
{
    String::from_utf8(b).ok()
}

/// Relies on rand's thread-local generator to fill a fresh buffer.
/// Nothing is promised of the contents: every caller must hold for every
/// outcome.
#[verifier::external_body]
pub fn random_bytes(n: usize) -> (r: Vec<u8>)
    ensures
        r@.len() == n,
{
    let mut v = vec![0u8; n];
    rand::thread_rng().fill_bytes(&mut v);
    v
}

} // verus!
