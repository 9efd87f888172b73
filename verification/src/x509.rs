//! What the library reads of an X.509 certificate, through `x509-parser`.
//!
//! Every item takes the DER bytes of one certificate and parses them again;
//! each result is named as a function of those bytes alone. When the bytes do
//! not parse, the text items give an empty string, the optional items `None`,
//! the times `0` and the flag `false`.

use vstd::prelude::*;
use x509_parser::prelude::{FromDer, X509Certificate};
use x509_parser::public_key::PublicKey;

verus! {

/// Whether `X509Certificate::from_der` accepts the bytes.
pub uninterp spec fn x509_parses(der: Seq<u8>) -> bool;

/// `subject().to_string()` of the parsed certificate.
pub uninterp spec fn x509_subject_text(der: Seq<u8>) -> Seq<char>;

/// `issuer().to_string()` of the parsed certificate.
pub uninterp spec fn x509_issuer_text(der: Seq<u8>) -> Seq<char>;

/// The first common name of the subject, when it is a readable string.
pub uninterp spec fn x509_common_name(der: Seq<u8>) -> Option<Seq<char>>;

/// The first organization of the subject, when it is a readable string.
pub uninterp spec fn x509_organization(der: Seq<u8>) -> Option<Seq<char>>;

/// The serial number in lowercase hexadecimal.
pub uninterp spec fn x509_serial_hex(der: Seq<u8>) -> Seq<char>;

/// `not_before` of the validity, as `ASN1Time` displays it.
pub uninterp spec fn x509_not_before_text(der: Seq<u8>) -> Seq<char>;

/// `not_after` of the validity, as `ASN1Time` displays it.
pub uninterp spec fn x509_not_after_text(der: Seq<u8>) -> Seq<char>;

/// `not_before` as a Unix timestamp.
pub uninterp spec fn x509_not_before_unix(der: Seq<u8>) -> i64;

/// `not_after` as a Unix timestamp.
pub uninterp spec fn x509_not_after_unix(der: Seq<u8>) -> i64;

/// Whether the subject name equals the issuer name.
pub uninterp spec fn x509_self_issued(der: Seq<u8>) -> bool;

/// Modulus and exponent bytes of the subject key, when it is an RSA key.
pub uninterp spec fn x509_rsa_parts(der: Seq<u8>) -> Option<(Seq<u8>, Seq<u8>)>;

/// Calls `X509Certificate::from_der` and tells whether it succeeded.
#[verifier::external_body]
pub(crate) fn parses(der: &[u8]) -> (r: bool)
    ensures
        r == x509_parses(der@),
{
    X509Certificate::from_der(der).is_ok()
}

/// Calls `X509Certificate::subject` and displays the name.
#[verifier::external_body]
pub(crate) fn subject_text(der: &[u8]) -> (r: String)
    ensures
        r@ == x509_subject_text(der@),
{
    match X509Certificate::from_der(der) {
        Ok((_, cert)) => cert.subject().to_string(),
        Err(_) => String::new(),
    }
}

/// Calls `X509Certificate::issuer` and displays the name.
#[verifier::external_body]
pub(crate) fn issuer_text(der: &[u8]) -> (r: String)
    ensures
        r@ == x509_issuer_text(der@),
{
    match X509Certificate::from_der(der) {
        Ok((_, cert)) => cert.issuer().to_string(),
        Err(_) => String::new(),
    }
}

/// Calls `X509Name::iter_common_name` and `AttributeTypeAndValue::as_str` on
/// the first entry.
#[verifier::external_body]
pub(crate) fn common_name(der: &[u8]) -> (r: Option<String>)
    ensures
        r is Some ==> x509_common_name(der@) == Some(r->Some_0@),
        r is None ==> x509_common_name(der@) is None,
{
    let Ok((_, cert)) = X509Certificate::from_der(der) else { return None };
    let found = match cert.subject().iter_common_name().next() {
        Some(attr) => match attr.as_str() {
            Ok(s) => Some(s.to_string()),
            Err(_) => None,
        },
        None => None,
    };
    found
}

/// Calls `X509Name::iter_organization` and `AttributeTypeAndValue::as_str` on
/// the first entry.
#[verifier::external_body]
pub(crate) fn organization(der: &[u8]) -> (r: Option<String>)
    ensures
        r is Some ==> x509_organization(der@) == Some(r->Some_0@),
        r is None ==> x509_organization(der@) is None,
{
    let Ok((_, cert)) = X509Certificate::from_der(der) else { return None };
    let found = match cert.subject().iter_organization().next() {
        Some(attr) => match attr.as_str() {
            Ok(s) => Some(s.to_string()),
            Err(_) => None,
        },
        None => None,
    };
    found
}

/// Formats the `serial` field with `{:x}`.
#[verifier::external_body]
pub(crate) fn serial_hex(der: &[u8]) -> (r: String)
    ensures
        r@ == x509_serial_hex(der@),
{
    match X509Certificate::from_der(der) {
        Ok((_, cert)) => format!("{:x}", cert.serial),
        Err(_) => String::new(),
    }
}

/// Displays `validity().not_before`.
#[verifier::external_body]
pub(crate) fn not_before_text(der: &[u8]) -> (r: String)
    ensures
        r@ == x509_not_before_text(der@),
{
    match X509Certificate::from_der(der) {
        Ok((_, cert)) => cert.validity().not_before.to_string(),
        Err(_) => String::new(),
    }
}

/// Displays `validity().not_after`.
#[verifier::external_body]
pub(crate) fn not_after_text(der: &[u8]) -> (r: String)
    ensures
        r@ == x509_not_after_text(der@),
{
    match X509Certificate::from_der(der) {
        Ok((_, cert)) => cert.validity().not_after.to_string(),
        Err(_) => String::new(),
    }
}

/// Calls `ASN1Time::timestamp` on `validity().not_before`.
#[verifier::external_body]
pub(crate) fn not_before_unix(der: &[u8]) -> (r: i64)
    ensures
        r == x509_not_before_unix(der@),
{
    match X509Certificate::from_der(der) {
        Ok((_, cert)) => cert.validity().not_before.timestamp(),
        Err(_) => 0,
    }
}

/// Calls `ASN1Time::timestamp` on `validity().not_after`.
#[verifier::external_body]
pub(crate) fn not_after_unix(der: &[u8]) -> (r: i64)
    ensures
        r == x509_not_after_unix(der@),
{
    match X509Certificate::from_der(der) {
        Ok((_, cert)) => cert.validity().not_after.timestamp(),
        Err(_) => 0,
    }
}

/// Compares `subject()` and `issuer()` with the `PartialEq` of `X509Name`.
#[verifier::external_body]
pub(crate) fn self_issued(der: &[u8]) -> (r: bool)
    ensures
        r == x509_self_issued(der@),
{
    match X509Certificate::from_der(der) {
        Ok((_, cert)) => cert.subject() == cert.issuer(),
        Err(_) => false,
    }
}

/// Calls `SubjectPublicKeyInfo::parsed` and hands out the modulus and
/// exponent bytes of an RSA key.
#[verifier::external_body]
pub(crate) fn rsa_parts(der: &[u8]) -> (r: Option<(Vec<u8>, Vec<u8>)>)
    ensures
        r is Some ==> x509_rsa_parts(der@) == Some((r->Some_0.0@, r->Some_0.1@)),
        r is None ==> x509_rsa_parts(der@) is None,
{
    let Ok((_, cert)) = X509Certificate::from_der(der) else { return None };
    match cert.public_key().parsed() {
        Ok(PublicKey::RSA(key)) => Some((key.modulus.to_vec(), key.exponent.to_vec())),
        _ => None,
    }
}

} // verus!
