//! HMAC-SHA256, computed and checked by the `hmac` and `sha2` crates.
use vstd::prelude::*;
use hmac::{Hmac, Mac};
use sha2::Sha256;

verus! {

/// The HMAC-SHA256 tag of `msg` under `key`: a function of the two byte sequences alone.
pub uninterp spec fn hmac_sha256(key: Seq<u8>, msg: Seq<u8>) -> Seq<u8>;

/// Relies on hmac's `Hmac<Sha256>` (`Mac::new_from_slice`, `update`, `finalize`) for the tag
/// of `msg` under `key`. `new_from_slice` takes keys of every length (longer ones are hashed
/// first) and never returns its error. The tag is the 32-byte output of SHA-256.
#[verifier::external_body]
pub(crate) fn compute_tag(key: &[u8], msg: &[u8]) -> (r: Vec<u8>)
    ensures
        r@ == hmac_sha256(key@, msg@),
        r@.len() == 32,
{
    let mut mac = <Hmac<Sha256> as Mac>::new_from_slice(key).expect("HMAC takes keys of any length");
    mac.update(msg);
    mac.finalize().into_bytes().to_vec()
}

/// Relies on hmac's `Mac::verify_slice` on `Hmac<Sha256>`: succeeds exactly when `candidate`
/// equals the tag of `msg` under `key`, comparing in constant time (a candidate of another
/// length is refused before any byte is compared).
#[verifier::external_body]
pub(crate) fn tag_matches(key: &[u8], msg: &[u8], candidate: &[u8]) -> (r: bool)
    ensures
        r == (candidate@ == hmac_sha256(key@, msg@)),
{
    let mut mac = <Hmac<Sha256> as Mac>::new_from_slice(key).expect("HMAC takes keys of any length");
    mac.update(msg);
    mac.verify_slice(candidate).is_ok()
}

} // verus!
