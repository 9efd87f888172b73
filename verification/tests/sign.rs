use tsuro::cms::{oid_digest_name, oid_from_str, parse_signed_data, AlgorithmName};
use tsuro::der::{der_len, trim_der};
use tsuro::pdfload::analyze_pdf;
use tsuro::pdfsig::{covers_whole_document, format_pdf_date, hash_byte_range_sha1, hash_byte_range_sha256};
use tsuro::sign::{signer_display_name, status_label, worst_status, CertificateInfo, PdfAnalysis, SigError, SignatureInfo, SignatureStatus as S};
use tsuro::verify::{hex_decode, verify_cms, verify_cms_b64};

/// Loads `bytes` with lopdf, as the reader does, and analyses them.
fn analyze(bytes: &[u8]) -> Result<PdfAnalysis, SigError> {
    analyze_pdf(bytes, lopdf::Document::load_mem(bytes).map_err(|e| e.to_string()))
}

/// A one-page PDF with a correct cross-reference table.
fn tiny_pdf() -> Vec<u8> {
    let objects = [
        "<< /Type /Catalog /Pages 2 0 R >>",
        "<< /Type /Pages /Kids [3 0 R] /Count 1 >>",
        "<< /Type /Page /Parent 2 0 R /MediaBox [0 0 100 100] >>",
    ];
    let mut out = String::from("%PDF-1.4\n");
    let mut offsets = Vec::new();
    for (i, body) in objects.iter().enumerate() {
        offsets.push(out.len());
        out.push_str(&format!("{} 0 obj\n{}\nendobj\n", i + 1, body));
    }
    let xref = out.len();
    out.push_str(&format!("xref\n0 {}\n0000000000 65535 f \n", objects.len() + 1));
    for off in offsets {
        out.push_str(&format!("{off:010} 00000 n \n"));
    }
    out.push_str(&format!(
        "trailer\n<< /Size {} /Root 1 0 R >>\nstartxref\n{}\n%%EOF\n",
        objects.len() + 1,
        xref
    ));
    out.into_bytes()
}

fn hex(bytes: &[u8]) -> String {
    bytes.iter().map(|b| format!("{b:02x}")).collect()
}

#[test]
fn unsigned_pdf_has_no_signatures() {
    let analysis = analyze(&tiny_pdf()).expect("parse");
    assert_eq!(analysis.page_count_hint, Some(1));
    assert!(!analysis.has_acro_form);
    assert!(analysis.signatures.is_empty());
}

#[test]
fn garbage_is_not_a_pdf() {
    let err = analyze(b"definitely not a pdf").err().expect("error");
    match err {
        SigError::Pdf(_) => {}
        other => panic!("expected a PDF error, got {other:?}"),
    }
    assert!(err_message(&analyze(b"").err().unwrap()).starts_with("não foi possível ler o PDF: "));
}

fn err_message(e: &SigError) -> String {
    e.message()
}

#[test]
fn hex_decode_reads_pairs() {
    assert_eq!(hex_decode("00ff10Aa").unwrap(), vec![0x00, 0xff, 0x10, 0xaa]);
    assert_eq!(hex_decode("").unwrap(), Vec::<u8>::new());
    assert_eq!(hex_decode("abc").err().unwrap(), "hex inválido");
    assert_eq!(hex_decode("zz").err().unwrap(), "invalid digit found in string");
}

#[test]
fn pdf_dates_read_as_calendar_text() {
    assert_eq!(format_pdf_date("D:20240131235959+03'00'"), "2024-01-31 23:59:59");
    assert_eq!(format_pdf_date("20240131235959"), "2024-01-31 23:59:59");
    assert_eq!(format_pdf_date("D:2024"), "D:2024");
    assert_eq!(format_pdf_date(""), "");
    // the cuts are bytes: a two-byte character fills two of them
    assert_eq!(format_pdf_date("D:éé0131235959"), "éé-01-31 23:59:59");
    // a cut inside a character keeps the text
    assert_eq!(format_pdf_date("202é0131235959"), "202é0131235959");
    // thirteen characters but fourteen bytes
    assert_eq!(format_pdf_date("é012345678901"), "é01-23-45 67:89:01");
}

#[test]
fn der_length_and_trim() {
    let data = [0x30, 0x03, 0x02, 0x01, 0x05, 0x00, 0x00];
    assert_eq!(der_len(&data), Some(5));
    assert_eq!(trim_der(&data), &data[..5]);
    let long = [0x30, 0x81, 0x01, 0x00, 0xff];
    assert_eq!(der_len(&long), Some(4));
    assert_eq!(trim_der(&[0x30]), &[0x30]);
}

#[test]
fn byte_range_coverage() {
    let mut bytes = vec![b'a'; 10];
    bytes.push(b'<');
    bytes.extend_from_slice(&[b'0'; 8]);
    bytes.push(b'>');
    bytes.extend_from_slice(&[b'b'; 70]);
    bytes.extend_from_slice(&[b'\n'; 10]);
    assert_eq!(bytes.len(), 100);
    assert!(covers_whole_document(&bytes, [0, 10, 20, 70]));
    assert!(covers_whole_document(&bytes, [0, 10, 20, 80]));
    assert!(!covers_whole_document(&bytes, [0, 10, 20, 60]));
    assert!(!covers_whole_document(&bytes, [1, 10, 20, 70]));
    assert!(!covers_whole_document(&bytes, [0, 11, 20, 70]));
    assert!(!covers_whole_document(&bytes, [0, 10, 20, 90]));
}

#[test]
fn byte_range_hashes_the_two_parts() {
    let bytes = b"abcXYZdef".to_vec();
    // "abc" + "def"
    assert_eq!(
        hex(&hash_byte_range_sha256(&bytes, [0, 3, 6, 3])),
        "bef57ec7f53a6d40beb640a780a639c83bc29ac8a9816f1fc6c5c6dcd93c4721"
    );
    assert_eq!(
        hex(&hash_byte_range_sha1(&bytes, [0, 3, 6, 3])),
        "1f8ac10f23c5b5bc1167bda84b833e5c057a77d2"
    );
}

#[test]
fn statuses_have_labels_and_a_worst() {
    assert_eq!(status_label(S::Valid), "Válida");
    assert_eq!(status_label(S::DocumentModified), "Documento alterado");
    assert_eq!(worst_status(&[]), None);
    assert_eq!(worst_status(&[S::Valid, S::Unsupported, S::CertificateExpired]), Some(S::Unsupported));
    assert_eq!(worst_status(&[S::Valid, S::Invalid, S::DocumentModified]), Some(S::Invalid));
}

#[test]
fn oids_name_digests() {
    let sha256 = oid_from_str("2.16.840.1.101.3.4.2.1");
    assert_eq!(sha256, vec![0x60, 0x86, 0x48, 0x01, 0x65, 0x03, 0x04, 0x02, 0x01]);
    assert_eq!(oid_digest_name(&sha256), AlgorithmName::Sha256);
    assert_eq!(oid_digest_name(&oid_from_str("1.3.14.3.2.26")), AlgorithmName::Sha1);
    assert_eq!(oid_digest_name(&[1, 2, 3]), AlgorithmName::Unknown);
    assert_eq!(AlgorithmName::Sha256.label(), "SHA-256");
}

#[test]
fn broken_cms_is_refused() {
    assert!(parse_signed_data(&[0x30, 0x00]).is_err());
    assert!(parse_signed_data(&[]).is_err());
    match verify_cms(&[0x04, 0x01, 0x00], None, None) {
        Err(SigError::Cms(_)) => {}
        other => panic!("expected a CMS error, got {:?}", other.map(|_| ())),
    }
}

#[test]
fn base64_and_hex_errors_come_first() {
    match verify_cms_b64("***", "00") {
        Err(SigError::Cms(_)) => {}
        other => panic!("expected a CMS error, got {:?}", other.map(|_| ())),
    }
    // "MAA=" is the DER 30 00; the odd digest fails before the CMS is read.
    let e = verify_cms_b64("MAA=", "abc").err().unwrap();
    assert_eq!(e.message(), "CMS inválido: hex inválido");
}

#[test]
fn trimming_twice_changes_nothing() {
    let cases: Vec<Vec<u8>> = vec![
        vec![0x00, 0x30, 0x03, 0x02, 0x01, 0x05, 0x00, 0x00],
        vec![0x30, 0x82, 0x01, 0x00, 0x07, 0x00],
        vec![0x01, 0x02, 0x00, 0x00],
        vec![0x00, 0x00],
        vec![0x30],
    ];
    for data in cases {
        let once = trim_der(&data);
        assert_eq!(trim_der(once), once);
    }
    assert_eq!(trim_der(&[0x30, 0x82, 0x01, 0x00, 0x07, 0x00]), &[0x30, 0x82, 0x01, 0x00, 0x07]);
}

#[test]
fn document_model_copies_objects_trailer_and_pages() {
    let doc = lopdf::Document::load_mem(&tiny_pdf()).expect("load");
    let model = tsuro::pdfload::document_model(&doc);
    assert_eq!(model.page_count, 1);
    let ids: Vec<(u32, u16)> = model.objects.iter().map(|(n, g, _)| (*n, *g)).collect();
    assert_eq!(ids, vec![(1, 0), (2, 0), (3, 0)]);
    assert!(matches!(model.trailer.get(b"Root"), Some(tsuro::pdf::PdfObject::Reference(1, 0))));
    assert!(matches!(model.trailer.get(b"Size"), Some(tsuro::pdf::PdfObject::Integer(4))));
    match &model.objects[1].2 {
        tsuro::pdf::PdfObject::Dictionary(d) => {
            match d.get(b"Kids") {
                Some(tsuro::pdf::PdfObject::Array(kids)) => {
                    assert_eq!(kids.len(), 1);
                    assert!(matches!(kids[0], tsuro::pdf::PdfObject::Reference(3, 0)));
                }
                _ => panic!("Kids is not an array"),
            }
            assert!(matches!(d.get(b"Count"), Some(tsuro::pdf::PdfObject::Integer(1))));
        }
        _ => panic!("object 2 is not a dictionary"),
    }
}

fn signature(signer: Option<&str>, common_name: Option<Option<&str>>) -> SignatureInfo {
    SignatureInfo {
        field_name: None,
        signer_name: signer.map(|s| s.to_string()),
        reason: None,
        location: None,
        contact_info: None,
        signing_time: None,
        filter: None,
        sub_filter: None,
        byte_range: None,
        covers_whole_document: false,
        status: S::Unsupported,
        status_detail: String::new(),
        certificate: common_name.map(|cn| CertificateInfo {
            subject: "CN=x".to_string(),
            common_name: cn.map(|c| c.to_string()),
            organization: None,
            issuer: "CN=x".to_string(),
            serial: "1".to_string(),
            not_before: String::new(),
            not_after: String::new(),
            is_self_signed: true,
        }),
        digest_algorithm: None,
        signature_algorithm: None,
    }
}

#[test]
fn signer_name_falls_back_to_common_name_then_placeholder() {
    assert_eq!(signer_display_name(&signature(Some("Ana Souza"), Some(Some("ANA")))), "Ana Souza");
    assert_eq!(signer_display_name(&signature(None, Some(Some("ANA SOUZA:123")))), "ANA SOUZA:123");
    assert_eq!(signer_display_name(&signature(None, Some(None))), "Assinante");
    assert_eq!(signer_display_name(&signature(None, None)), "Assinante");
}
