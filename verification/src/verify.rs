//! Cryptographic checks of one CMS signature: the messageDigest attribute
//! against the digest of the signed byte range, then the signer's RSA
//! signature over the signed attributes.

use vstd::prelude::*;
use crate::cms::{
    message_digest_oid, opt_bytes, parse_signed_data, rsa_key_of, spec_cms_layout,
    spec_fault_message, spec_first_certificate, certificate_view, AlgorithmName, CmsLayout,
    ParsedCms,
};
use crate::crypto::{
    base64_decode, base64_standard, rsa_sha1_unprefixed_verifies, rsa_sha1_unprefixed_verify,
    rsa_sha256_verifies, rsa_sha256_verify,
};
use crate::der::spec_trim_der;
use crate::sign::{
    opt_text, CertificateInfoView, SigError, SigErrorView, SignatureInfo, SignatureInfoView,
    SignatureStatus,
};
use crate::text::{push_str, string_of};
use vstd::string::StringSliceAdditionalSpecFns;
use vstd::utf8::is_char_boundary;

verus! {

/// The certificate the walker picked in a layout.
pub open spec fn layout_certificate(der: Seq<u8>, l: CmsLayout) -> Option<Seq<u8>> {
    match l.certificates {
        Some(b) => spec_first_certificate(der, b.value_start as int, b.end as int),
        None => None,
    }
}

/// The signed attributes with the SET tag in front, as they were signed.
pub open spec fn layout_signed_attrs(der: Seq<u8>, l: CmsLayout) -> Option<Seq<u8>> {
    match l.fields.signed_attrs {
        Some(t) => Some(seq![0x31u8] + der.subrange(t.start + 1, t.end as int)),
        None => None,
    }
}

/// The verdict on a signature, with its explanation.
///
/// The digest that matches the digest algorithm must be provided, else the
/// signature is unsupported. A messageDigest attribute that differs from it
/// (or is missing) means a modified document. Without signed attributes or
/// without a usable RSA key the document is intact but the signature is not
/// checked. Then the RSA signature decides; a good one from a self-signed
/// certificate (or with no certificate) is intact but untrusted.
pub open spec fn spec_verdict(
    der: Seq<u8>,
    l: CmsLayout,
    sha256: Option<Seq<u8>>,
    sha1: Option<Seq<u8>>,
) -> (SignatureStatus, Seq<char>) {
    let alg = l.fields.digest_algorithm;
    let provided = match alg {
        AlgorithmName::Sha256 => sha256,
        AlgorithmName::Sha1 => sha1,
        _ => None,
    };
    let cert = layout_certificate(der, l);
    match provided {
        None => (
            SignatureStatus::Unsupported,
            "Algoritmo de resumo "@ + alg.spec_label() + " sem payload correspondente."@,
        ),
        Some(expected) => if l.fields.message_digest != Some(expected) {
            (
                SignatureStatus::DocumentModified,
                "O resumo do intervalo assinado não confere. O arquivo foi alterado após a assinatura."@,
            )
        } else {
            match layout_signed_attrs(der, l) {
                None => (
                    SignatureStatus::IntactButUntrusted,
                    "O resumo do documento confere, mas o CMS não traz atributos assinados."@,
                ),
                Some(attrs) => {
                    let key = match cert {
                        Some(c) => rsa_key_of(c),
                        None => None,
                    };
                    match key {
                        None => (
                            SignatureStatus::IntactButUntrusted,
                            "O documento coberto está íntegro, mas a chave pública RSA não pôde ser extraída."@,
                        ),
                        Some((n, e)) => {
                            let sig = der.subrange(
                                l.fields.signature.value_start as int,
                                l.fields.signature.end as int,
                            );
                            if alg != AlgorithmName::Sha256 && alg != AlgorithmName::Sha1 {
                                (
                                    SignatureStatus::IntactButUntrusted,
                                    "O documento coberto está íntegro, mas o algoritmo "@
                                        + alg.spec_label() + " ainda não é verificado."@,
                                )
                            } else if !(if alg == AlgorithmName::Sha256 {
                                rsa_sha256_verifies(n, e, attrs, sig)
                            } else {
                                rsa_sha1_unprefixed_verifies(n, e, attrs, sig)
                            }) {
                                (
                                    SignatureStatus::Invalid,
                                    "A criptografia da assinatura não confere."@,
                                )
                            } else if cert is None || certificate_view(
                                cert->Some_0,
                            ).is_self_signed {
                                (
                                    SignatureStatus::IntactButUntrusted,
                                    "Assinatura criptograficamente válida, mas o certificado é autoassinado — não há cadeia de confiança pública."@,
                                )
                            } else {
                                (
                                    SignatureStatus::Valid,
                                    "Assinatura íntegra: o conteúdo coberto não foi alterado."@,
                                )
                            }
                        },
                    }
                },
            }
        },
    }
}

/// The digest that a CMS layout's digest algorithm is checked against.
pub open spec fn provided_digest(l: CmsLayout, sha256: Option<Seq<u8>>, sha1: Option<Seq<u8>>) -> Option<Seq<u8>> {
    match l.fields.digest_algorithm {
        AlgorithmName::Sha256 => sha256,
        AlgorithmName::Sha1 => sha1,
        _ => None,
    }
}

/// The signer's RSA signature over the signed attributes verifies with the
/// key of a certificate that is not self-signed.
pub open spec fn signer_checks_out(der: Seq<u8>, l: CmsLayout) -> bool {
    match (layout_certificate(der, l), layout_signed_attrs(der, l)) {
        (Some(c), Some(attrs)) => !certificate_view(c).is_self_signed && match rsa_key_of(c) {
            Some((n, e)) => {
                let sig = der.subrange(
                    l.fields.signature.value_start as int,
                    l.fields.signature.end as int,
                );
                if l.fields.digest_algorithm == AlgorithmName::Sha256 {
                    rsa_sha256_verifies(n, e, attrs, sig)
                } else {
                    l.fields.digest_algorithm == AlgorithmName::Sha1 && rsa_sha1_unprefixed_verifies(
                        n,
                        e,
                        attrs,
                        sig,
                    )
                }
            },
            None => false,
        },
        _ => false,
    }
}

/// A signature whose messageDigest differs from the digest of the signed
/// byte range reads as a modified document; one reads as valid only when
/// that digest matches and the signer's RSA signature checks out with a
/// certificate that is not self-signed.
pub proof fn law_verdict(der: Seq<u8>, l: CmsLayout, sha256: Option<Seq<u8>>, sha1: Option<Seq<u8>>)
    ensures
        provided_digest(l, sha256, sha1) is None ==> spec_verdict(der, l, sha256, sha1).0
            == SignatureStatus::Unsupported,
        provided_digest(l, sha256, sha1) is Some && l.fields.message_digest != provided_digest(
            l,
            sha256,
            sha1,
        ) ==> spec_verdict(der, l, sha256, sha1).0 == SignatureStatus::DocumentModified,
        spec_verdict(der, l, sha256, sha1).0 == SignatureStatus::Valid ==> provided_digest(
            l,
            sha256,
            sha1,
        ) is Some && l.fields.message_digest == provided_digest(l, sha256, sha1)
            && signer_checks_out(der, l),
{
}

/// The signer's RSA signature over the signed attributes was checked and
/// does not verify: the signed attributes are there, the certificate gives
/// an RSA key, the digest algorithm is SHA-256 or SHA-1, and the signature
/// value fails with that key.
pub open spec fn rsa_check_fails(der: Seq<u8>, l: CmsLayout) -> bool {
    match (layout_certificate(der, l), layout_signed_attrs(der, l)) {
        (Some(c), Some(attrs)) => match rsa_key_of(c) {
            Some((n, e)) => {
                let sig = der.subrange(
                    l.fields.signature.value_start as int,
                    l.fields.signature.end as int,
                );
                ||| l.fields.digest_algorithm == AlgorithmName::Sha256 && !rsa_sha256_verifies(
                    n,
                    e,
                    attrs,
                    sig,
                )
                ||| l.fields.digest_algorithm == AlgorithmName::Sha1 && !rsa_sha1_unprefixed_verifies(
                    n,
                    e,
                    attrs,
                    sig,
                )
            },
            None => false,
        },
        _ => false,
    }
}

/// A signature whose RSA check fails is invalid, whatever else holds: when
/// the messageDigest matches the digest of the signed bytes and the RSA
/// signature over the signed attributes does not verify with the signer's
/// key, the verdict is `Invalid`; so a verdict of `Valid` or of an intact
/// document never comes with a failed RSA check. And when the digest
/// matches and the signature verifies with the key of a certificate that is
/// not self-signed, the verdict is `Valid`.
pub proof fn law_failed_signature_is_invalid(
    der: Seq<u8>,
    l: CmsLayout,
    sha256: Option<Seq<u8>>,
    sha1: Option<Seq<u8>>,
)
    ensures
        provided_digest(l, sha256, sha1) is Some && l.fields.message_digest == provided_digest(
            l,
            sha256,
            sha1,
        ) && rsa_check_fails(der, l) ==> spec_verdict(der, l, sha256, sha1).0
            == SignatureStatus::Invalid,
        spec_verdict(der, l, sha256, sha1).0 == SignatureStatus::Valid || spec_verdict(
            der,
            l,
            sha256,
            sha1,
        ).0 == SignatureStatus::IntactButUntrusted ==> !rsa_check_fails(der, l),
        provided_digest(l, sha256, sha1) is Some && l.fields.message_digest == provided_digest(
            l,
            sha256,
            sha1,
        ) && signer_checks_out(der, l) ==> spec_verdict(der, l, sha256, sha1).0
            == SignatureStatus::Valid,
{
}

/// The report on a CMS signature checked against the given digests.
pub open spec fn spec_cms_report(
    der: Seq<u8>,
    l: CmsLayout,
    sha256: Option<Seq<u8>>,
    sha1: Option<Seq<u8>>,
) -> SignatureInfoView {
    let cert = layout_certificate(der, l);
    let certificate: Option<CertificateInfoView> = match cert {
        Some(c) => Some(certificate_view(c)),
        None => None,
    };
    let verdict = spec_verdict(der, l, sha256, sha1);
    SignatureInfoView {
        field_name: None,
        signer_name: match certificate {
            Some(c) => c.common_name,
            None => None,
        },
        reason: None,
        location: None,
        contact_info: None,
        signing_time: None,
        filter: None,
        sub_filter: Some("adbe.pkcs7.detached"@),
        byte_range: None,
        covers_whole_document: true,
        status: verdict.0,
        status_detail: verdict.1,
        certificate,
        digest_algorithm: Some(l.fields.digest_algorithm.spec_label()),
        signature_algorithm: Some(l.fields.signature_algorithm.spec_label()),
    }
}

/// The view of an optional borrowed byte string.
pub open spec fn opt_slice(o: Option<&[u8]>) -> Option<Seq<u8>> {
    match o {
        Some(s) => Some(s@),
        None => None,
    }
}

fn verdict(parsed: &ParsedCms, sha256: Option<&[u8]>, sha1: Option<&[u8]>) -> (r: (
    SignatureStatus,
    String,
))
    requires
        exists|der: Seq<u8>, l: CmsLayout| parsed.read_from(der, l),
    ensures
        forall|der: Seq<u8>, l: CmsLayout|
            parsed.read_from(der, l) ==> (r.0, r.1@) == spec_verdict(
                der,
                l,
                opt_slice(sha256),
                opt_slice(sha1),
            ),
{
    let alg = parsed.digest_algorithm;
    let provided: Option<&[u8]> = match alg {
        AlgorithmName::Sha256 => sha256,
        AlgorithmName::Sha1 => sha1,
        _ => None,
    };
    let expected = match provided {
        Some(e) => e,
        None => {
            let mut detail = string_of("Algoritmo de resumo ");
            push_str(&mut detail, alg.label());
            push_str(&mut detail, " sem payload correspondente.");
            return (SignatureStatus::Unsupported, detail);
        },
    };
    let digest_ok = match &parsed.message_digest {
        Some(got) => crate::cms::bytes_eq(got.as_slice(), expected),
        None => false,
    };
    if !digest_ok {
        return (
            SignatureStatus::DocumentModified,
            string_of(
                "O resumo do intervalo assinado não confere. O arquivo foi alterado após a assinatura.",
            ),
        );
    }
    let signed_attrs = match &parsed.signed_attrs_for_verify {
        Some(a) => a,
        None => {
            return (
                SignatureStatus::IntactButUntrusted,
                string_of("O resumo do documento confere, mas o CMS não traz atributos assinados."),
            );
        },
    };
    let key = match &parsed.public_key {
        Some(k) => k,
        None => {
            return (
                SignatureStatus::IntactButUntrusted,
                string_of(
                    "O documento coberto está íntegro, mas a chave pública RSA não pôde ser extraída.",
                ),
            );
        },
    };
    let crypto_ok = match alg {
        AlgorithmName::Sha256 => rsa_sha256_verify(
            key.modulus.as_slice(),
            key.exponent.as_slice(),
            signed_attrs.as_slice(),
            parsed.signature.as_slice(),
        ),
        AlgorithmName::Sha1 => rsa_sha1_unprefixed_verify(
            key.modulus.as_slice(),
            key.exponent.as_slice(),
            signed_attrs.as_slice(),
            parsed.signature.as_slice(),
        ),
        _ => {
            let mut detail = string_of("O documento coberto está íntegro, mas o algoritmo ");
            push_str(&mut detail, alg.label());
            push_str(&mut detail, " ainda não é verificado.");
            return (SignatureStatus::IntactButUntrusted, detail);
        },
    };
    if !crypto_ok {
        return (
            SignatureStatus::Invalid,
            string_of("A criptografia da assinatura não confere."),
        );
    }
    let self_signed = match &parsed.certificate {
        Some(c) => c.is_self_signed,
        None => true,
    };
    if self_signed {
        (
            SignatureStatus::IntactButUntrusted,
            string_of(
                "Assinatura criptograficamente válida, mas o certificado é autoassinado — não há cadeia de confiança pública.",
            ),
        )
    } else {
        (
            SignatureStatus::Valid,
            string_of("Assinatura íntegra: o conteúdo coberto não foi alterado."),
        )
    }
}

/// A copy of an optional text.
pub fn copy_text(o: &Option<String>) -> (r: Option<String>)
    ensures
        opt_text(r) == opt_text(*o),
{
    match o {
        Some(s) => Some(s.clone()),
        None => None,
    }
}

/// Checks a CMS signature: `sha256` and `sha1` are the digests of the signed
/// byte range, when known.
pub fn verify_cms(pkcs7: &[u8], sha256: Option<&[u8]>, sha1: Option<&[u8]>) -> (r: Result<
    SignatureInfo,
    SigError,
>)
    ensures
        match spec_cms_layout(spec_trim_der(pkcs7@), message_digest_oid()) {
            Ok(l) => r is Ok && r->Ok_0@ == spec_cms_report(
                spec_trim_der(pkcs7@),
                l,
                opt_slice(sha256),
                opt_slice(sha1),
            ),
            Err(f) => r is Err && r->Err_0@ == SigErrorView::Cms(spec_fault_message(f)),
        },
{
    let parsed = match parse_signed_data(pkcs7) {
        Ok(p) => p,
        Err(e) => return Err(e),
    };
    let ghost der = spec_trim_der(pkcs7@);
    let ghost l = spec_cms_layout(der, message_digest_oid())->Ok_0;
    assert(parsed.read_from(der, l));
    let (status, status_detail) = verdict(&parsed, sha256, sha1);
    let signer_name = match &parsed.certificate {
        Some(c) => copy_text(&c.common_name),
        None => None,
    };
    let digest_algorithm = Some(string_of(parsed.digest_algorithm.label()));
    let signature_algorithm = Some(string_of(parsed.signature_algorithm.label()));
    let certificate = parsed.certificate;
    let info = SignatureInfo {
        field_name: None,
        signer_name,
        reason: None,
        location: None,
        contact_info: None,
        signing_time: None,
        filter: None,
        sub_filter: Some(string_of("adbe.pkcs7.detached")),
        byte_range: None,
        covers_whole_document: true,
        status,
        status_detail,
        certificate,
        digest_algorithm,
        signature_algorithm,
    };
    Ok(info)
}

/// Cutting `s` into two-byte pieces, as long as the pieces before read as
/// hexadecimal, never cuts inside a character: the slices that
/// `u8::from_str_radix` is handed stay within `str`.
pub open spec fn hex_slices_ok(s: Seq<u8>) -> bool {
    s.len() % 2 == 0 ==> forall|k: int|
        0 <= k && 2 * k + 2 <= s.len() && (#[trigger] spec_hex_decode(s.take(2 * k))) is Ok
            ==> is_char_boundary(s, 2 * k) && is_char_boundary(s, 2 * k + 2)
}

/// Value of an ASCII hexadecimal digit, either case.
pub open spec fn hex_value(b: u8) -> Option<u8> {
    if 48 <= b <= 57 {
        Some((b - 48) as u8)
    } else if 97 <= b <= 102 {
        Some((b - 87) as u8)
    } else if 65 <= b <= 70 {
        Some((b - 55) as u8)
    } else {
        None
    }
}

/// `u8::from_str_radix(_, 16)` on a two-byte string: an optional `+` and one
/// digit, or two digits.
pub open spec fn hex_pair(b0: u8, b1: u8) -> Option<u8> {
    if b0 == 43 {
        hex_value(b1)
    } else {
        match (hex_value(b0), hex_value(b1)) {
            (Some(h), Some(l)) => Some((h * 16 + l) as u8),
            _ => None,
        }
    }
}

/// The bytes a hexadecimal text stands for, read two bytes at a time.
pub open spec fn spec_hex_decode(s: Seq<u8>) -> Result<Seq<u8>, Seq<char>>
    decreases s.len(),
{
    if s.len() % 2 != 0 {
        Err("hex inválido"@)
    } else if s.len() == 0 {
        Ok(Seq::empty())
    } else {
        match spec_hex_decode(s.drop_last().drop_last()) {
            Err(m) => Err(m),
            Ok(v) => match hex_pair(s[s.len() - 2], s[s.len() - 1]) {
                Some(b) => Ok(v.push(b)),
                None => Err("invalid digit found in string"@),
            },
        }
    }
}

fn hex_digit_value(b: u8) -> (r: Option<u8>)
    ensures
        r == hex_value(b),
{
    if 48 <= b && b <= 57 {
        Some(b - 48)
    } else if 97 <= b && b <= 102 {
        Some(b - 87)
    } else if 65 <= b && b <= 70 {
        Some(b - 55)
    } else {
        None
    }
}

/// Decodes a hexadecimal digest.
pub fn hex_decode(s: &str) -> (r: Result<Vec<u8>, String>)
    requires
        hex_slices_ok(s.spec_bytes()),
    ensures
        match spec_hex_decode(s.spec_bytes()) {
            Ok(v) => r is Ok && r->Ok_0@ == v,
            Err(m) => r is Err && r->Err_0@ == m,
        },
{
    let bytes = s.as_bytes();
    if bytes.len() % 2 != 0 {
        return Err(string_of("hex inválido"));
    }
    let mut out: Vec<u8> = Vec::new();
    let mut i: usize = 0;
    assert(bytes@.take(0) =~= Seq::<u8>::empty());
    while i < bytes.len()
        invariant
            bytes@ == s.spec_bytes(),
            bytes@.len() % 2 == 0,
            i <= bytes@.len(),
            i % 2 == 0,
            spec_hex_decode(bytes@.take(i as int)) == Ok::<Seq<u8>, Seq<char>>(out@),
        decreases bytes@.len() - i,
    {
        let b0 = bytes[i];
        let b1 = bytes[i + 1];
        let ghost next = bytes@.take(i + 2);
        assert(next.drop_last().drop_last() =~= bytes@.take(i as int));
        assert(next[next.len() - 2] == b0 && next[next.len() - 1] == b1);
        let value = if b0 == 43 {
            hex_digit_value(b1)
        } else {
            match (hex_digit_value(b0), hex_digit_value(b1)) {
                (Some(h), Some(l)) => Some(h * 16 + l),
                _ => None,
            }
        };
        match value {
            Some(v) => out.push(v),
            None => {
                proof {
                    lemma_hex_decode_prefix_err(bytes@, i as int + 2);
                }
                return Err(string_of("invalid digit found in string"));
            },
        }
        i = i + 2;
    }
    assert(bytes@.take(i as int) =~= bytes@);
    Ok(out)
}

proof fn lemma_hex_decode_prefix_err(s: Seq<u8>, k: int)
    requires
        0 <= k <= s.len(),
        s.len() % 2 == 0,
        k % 2 == 0,
        spec_hex_decode(s.take(k)) is Err,
    ensures
        spec_hex_decode(s) == spec_hex_decode(s.take(k)),
    decreases s.len() - k,
{
    if k < s.len() {
        let t = s.take(k + 2);
        assert(t.drop_last().drop_last() =~= s.take(k));
        lemma_hex_decode_prefix_err(s, k + 2);
    } else {
        assert(s.take(k) =~= s);
    }
}

/// Checks a Base64 CMS blob against a SHA-256 digest given in hexadecimal.
pub fn verify_cms_b64(pkcs7_b64: &str, sha256_hex: &str) -> (r: Result<SignatureInfo, SigError>)
    requires
        hex_slices_ok(sha256_hex.spec_bytes()),
    ensures
        match base64_standard(pkcs7_b64@) {
            Err(m) => r is Err && r->Err_0@ == SigErrorView::Cms(m),
            Ok(pkcs7) => match spec_hex_decode(sha256_hex.spec_bytes()) {
                Err(m) => r is Err && r->Err_0@ == SigErrorView::Cms(m),
                Ok(digest) => match spec_cms_layout(spec_trim_der(pkcs7), message_digest_oid()) {
                    Ok(l) => r is Ok && r->Ok_0@ == spec_cms_report(
                        spec_trim_der(pkcs7),
                        l,
                        Some(digest),
                        None,
                    ),
                    Err(f) => r is Err && r->Err_0@ == SigErrorView::Cms(spec_fault_message(f)),
                },
            },
        },
{
    let pkcs7 = match base64_decode(pkcs7_b64) {
        Ok(v) => v,
        Err(m) => return Err(SigError::Cms(m)),
    };
    let digest = match hex_decode(sha256_hex) {
        Ok(v) => v,
        Err(m) => return Err(SigError::Cms(m)),
    };
    verify_cms(pkcs7.as_slice(), Some(digest.as_slice()), None)
}

} // verus!
