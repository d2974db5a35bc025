//! The keyed hash behind a token's tag.
use vstd::prelude::*;
use hmac::Mac;

verus! {

/// HMAC-SHA256 (RFC 2104 over FIPS 180-4) of `msg` under `key`.
pub uninterp spec fn hmac_sha256(key: Seq<u8>, msg: Seq<u8>) -> Seq<u8>;

/// Relies on hmac's `Hmac<Sha256>`: `new_from_slice` accepts a key of any length (longer keys
/// are hashed first), and `update` then `finalize` give the 32-byte MAC of the message.
#[verifier::external_body]
pub(crate) fn hmac_sha256_tag(key: &[u8], msg: &[u8]) -> (r: Vec<u8>)
    ensures
        r@ == hmac_sha256(key@, msg@),
        r@.len() == 32,
{
    let mut mac = hmac::Hmac::<sha2::Sha256>::new_from_slice(key).unwrap();
    mac.update(msg);
    mac.finalize().into_bytes().to_vec()
}

/// Relies on hmac's `Mac::verify_slice`: it compares `tag` with the MAC of the message in
/// constant time, and accepts exactly when they are equal (a tag of another length is
/// refused).
#[verifier::external_body]
pub(crate) fn hmac_sha256_verify(key: &[u8], msg: &[u8], tag: &[u8]) -> (r: bool)
    ensures
        r == (tag@ == hmac_sha256(key@, msg@)),
{
    let mut mac = hmac::Hmac::<sha2::Sha256>::new_from_slice(key).unwrap();
    mac.update(msg);
    mac.verify_slice(tag).is_ok()
}

} // verus!
