//! Hashes, RSA PKCS#1 v1.5 verification and Base64, through `sha1`, `sha2`,
//! `rsa` and `base64`.

use vstd::prelude::*;
use crate::der::{be_value, pow256};
use base64::Engine;
use rsa::pkcs1v15::{Signature, VerifyingKey};
use rsa::signature::Verifier;
use rsa::{BigUint, RsaPublicKey};
use sha2::Digest;

verus! {

/// SHA-256 of a byte string.
pub uninterp spec fn sha256_of(data: Seq<u8>) -> Seq<u8>;

/// SHA-1 of a byte string.
pub uninterp spec fn sha1_of(data: Seq<u8>) -> Seq<u8>;

/// Whether an RSASSA-PKCS1-v1_5 signature with the SHA-256 DigestInfo prefix
/// verifies `msg` under the key with modulus `n` and exponent `e` (big-endian
/// bytes); false when `RsaPublicKey::new` refuses the key.
pub uninterp spec fn rsa_sha256_verifies(n: Seq<u8>, e: Seq<u8>, msg: Seq<u8>, sig: Seq<u8>) -> bool;

/// As `rsa_sha256_verifies`, with SHA-1 and no DigestInfo prefix.
pub uninterp spec fn rsa_sha1_unprefixed_verifies(
    n: Seq<u8>,
    e: Seq<u8>,
    msg: Seq<u8>,
    sig: Seq<u8>,
) -> bool;

/// Standard-alphabet, padded Base64 decoding of the characters of `s`, or the
/// text of the decoding error.
pub uninterp spec fn base64_standard(s: Seq<char>) -> Result<Seq<u8>, Seq<char>>;

/// The checks of `RsaPublicKey::new` (rsa 0.9): a modulus of at most 4096
/// bits, an exponent below the modulus, both odd, the exponent in
/// `2..=2^33 - 1`.
pub open spec fn rsa_key_acceptable(n: nat, e: nat) -> bool {
    &&& n < pow256(512)
    &&& e < n
    &&& n % 2 == 1
    &&& e % 2 == 1
    &&& 2 <= e <= 8589934591
}

/// Calls `sha2::Sha256::digest`; the output has 32 bytes.
#[verifier::external_body]
pub(crate) fn sha256(data: &[u8]) -> (r: Vec<u8>)
    ensures
        r@ == sha256_of(data@),
        r@.len() == 32,
{
    sha2::Sha256::digest(data).to_vec()
}

/// Calls `sha1::Sha1::digest`; the output has 20 bytes.
#[verifier::external_body]
pub(crate) fn sha1(data: &[u8]) -> (r: Vec<u8>)
    ensures
        r@ == sha1_of(data@),
        r@.len() == 20,
{
    sha1::Sha1::digest(data).to_vec()
}

/// Calls `RsaPublicKey::new` on the big-endian modulus and exponent and tells
/// whether it accepted them.
#[verifier::external_body]
pub(crate) fn rsa_key_accepted(n: &[u8], e: &[u8]) -> (r: bool)
    ensures
        r == rsa_key_acceptable(be_value(n@), be_value(e@)),
{
    RsaPublicKey::new(BigUint::from_bytes_be(n), BigUint::from_bytes_be(e)).is_ok()
}

/// Builds the key with `RsaPublicKey::new`, the signature with
/// `Signature::try_from` (which never fails in rsa 0.9) and calls `verify` of
/// `VerifyingKey::<Sha256>::new`.
#[verifier::external_body]
pub(crate) fn rsa_sha256_verify(n: &[u8], e: &[u8], msg: &[u8], sig: &[u8]) -> (r: bool)
    ensures
        r == rsa_sha256_verifies(n@, e@, msg@, sig@),
{
    let Ok(key) = RsaPublicKey::new(BigUint::from_bytes_be(n), BigUint::from_bytes_be(e)) else {
        return false;
    };
    let Ok(signature) = Signature::try_from(sig) else { return false };
    VerifyingKey::<sha2::Sha256>::new(key).verify(msg, &signature).is_ok()
}

/// Builds the key with `RsaPublicKey::new`, the signature with
/// `Signature::try_from` and calls `verify` of
/// `VerifyingKey::<Sha1>::new_unprefixed`.
#[verifier::external_body]
pub(crate) fn rsa_sha1_unprefixed_verify(n: &[u8], e: &[u8], msg: &[u8], sig: &[u8]) -> (r: bool)
    ensures
        r == rsa_sha1_unprefixed_verifies(n@, e@, msg@, sig@),
{
    let Ok(key) = RsaPublicKey::new(BigUint::from_bytes_be(n), BigUint::from_bytes_be(e)) else {
        return false;
    };
    let Ok(signature) = Signature::try_from(sig) else { return false };
    VerifyingKey::<sha1::Sha1>::new_unprefixed(key).verify(msg, &signature).is_ok()
}

/// Calls `decode` of the `STANDARD` engine of `base64`; an error is handed
/// out as its display text.
#[verifier::external_body]
pub(crate) fn base64_decode(s: &str) -> (r: Result<Vec<u8>, String>)
    ensures
        r is Ok ==> base64_standard(s@) == Ok::<Seq<u8>, Seq<char>>(r->Ok_0@),
        r is Err ==> base64_standard(s@) == Err::<Seq<u8>, Seq<char>>(r->Err_0@),
{
    match base64::engine::general_purpose::STANDARD.decode(s) {
        Ok(v) => Ok(v),
        Err(e) => Err(e.to_string()),
    }
}

} // verus!
