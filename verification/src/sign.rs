//! The data of a signature report: errors, statuses, certificate and
//! signature summaries.

use vstd::prelude::*;
use crate::text::{push_str, string_of};

verus! {

/// Why a PDF or a CMS blob could not be read.
#[derive(Debug, Clone)]
pub enum SigError {
    Pdf(String),
    Cms(String),
    Unsupported(String),
}

pub enum SigErrorView {
    Pdf(Seq<char>),
    Cms(Seq<char>),
    Unsupported(Seq<char>),
}

impl View for SigError {
    type V = SigErrorView;

    open spec fn view(&self) -> SigErrorView {
        match self {
            SigError::Pdf(s) => SigErrorView::Pdf(s@),
            SigError::Cms(s) => SigErrorView::Cms(s@),
            SigError::Unsupported(s) => SigErrorView::Unsupported(s@),
        }
    }
}

/// The text an error displays.
pub open spec fn sig_error_text(e: SigErrorView) -> Seq<char> {
    match e {
        SigErrorView::Pdf(s) => "não foi possível ler o PDF: "@ + s,
        SigErrorView::Cms(s) => "CMS inválido: "@ + s,
        SigErrorView::Unsupported(s) => "algoritmo não suportado: "@ + s,
    }
}

impl SigError {
    /// The text of the error, as it is shown to the reader.
    pub fn message(&self) -> (r: String)
        ensures
            r@ == sig_error_text(self@),
    {
        match self {
            SigError::Pdf(s) => {
                let mut out = string_of("não foi possível ler o PDF: ");
                push_str(&mut out, s.as_str());
                out
            },
            SigError::Cms(s) => {
                let mut out = string_of("CMS inválido: ");
                push_str(&mut out, s.as_str());
                out
            },
            SigError::Unsupported(s) => {
                let mut out = string_of("algoritmo não suportado: ");
                push_str(&mut out, s.as_str());
                out
            },
        }
    }
}

/// The verdict on one signature.
#[derive(Debug, Clone, Copy, PartialEq, Eq, Structural)]
pub enum SignatureStatus {
    Valid,
    IntactButUntrusted,
    DocumentModified,
    Invalid,
    Unsupported,
    CertificateExpired,
    CertificateNotYetValid,
}

/// Severity of a status: `Valid` is 1; the statuses that leave the content
/// intact but the trust open are 2; a modified document or a broken
/// signature is 3.
pub open spec fn spec_severity(s: SignatureStatus) -> u8 {
    match s {
        SignatureStatus::Valid => 1,
        SignatureStatus::IntactButUntrusted | SignatureStatus::Unsupported
        | SignatureStatus::CertificateExpired | SignatureStatus::CertificateNotYetValid => 2,
        SignatureStatus::DocumentModified | SignatureStatus::Invalid => 3,
    }
}

impl SignatureStatus {
    /// Severity of the status, as `spec_severity` states it.
    pub fn severity(self) -> (r: u8)
        ensures
            r == spec_severity(self),
    {
        match self {
            SignatureStatus::Valid => 1,
            SignatureStatus::IntactButUntrusted | SignatureStatus::Unsupported
            | SignatureStatus::CertificateExpired | SignatureStatus::CertificateNotYetValid => 2,
            SignatureStatus::DocumentModified | SignatureStatus::Invalid => 3,
        }
    }
}

/// The label of a status in the signatures panel.
pub open spec fn spec_status_label(s: SignatureStatus) -> Seq<char> {
    match s {
        SignatureStatus::Valid => "Válida"@,
        SignatureStatus::IntactButUntrusted => "Íntegra (sem confiança pública)"@,
        SignatureStatus::DocumentModified => "Documento alterado"@,
        SignatureStatus::Invalid => "Inválida"@,
        SignatureStatus::Unsupported => "Não suportada"@,
        SignatureStatus::CertificateExpired => "Certificado expirado"@,
        SignatureStatus::CertificateNotYetValid => "Certificado ainda não válido"@,
    }
}

/// The label of a status in the signatures panel.
pub fn status_label(status: SignatureStatus) -> (r: &'static str)
    ensures
        r@ == spec_status_label(status),
{
    match status {
        SignatureStatus::Valid => "Válida",
        SignatureStatus::IntactButUntrusted => "Íntegra (sem confiança pública)",
        SignatureStatus::DocumentModified => "Documento alterado",
        SignatureStatus::Invalid => "Inválida",
        SignatureStatus::Unsupported => "Não suportada",
        SignatureStatus::CertificateExpired => "Certificado expirado",
        SignatureStatus::CertificateNotYetValid => "Certificado ainda não válido",
    }
}

/// The worst status of a list (the first of the worst ones), `None` for an
/// empty list.
pub open spec fn spec_worst_status(statuses: Seq<SignatureStatus>) -> Option<SignatureStatus>
    decreases statuses.len(),
{
    if statuses.len() == 0 {
        None
    } else {
        match spec_worst_status(statuses.drop_last()) {
            Some(w) if spec_severity(w) >= spec_severity(statuses.last()) => Some(w),
            _ => Some(statuses.last()),
        }
    }
}

/// The status whose color marks the signatures button: the worst one wins,
/// no status for a document without signatures.
pub fn worst_status(statuses: &[SignatureStatus]) -> (r: Option<SignatureStatus>)
    ensures
        r == spec_worst_status(statuses@),
{
    let mut worst: Option<SignatureStatus> = None;
    let mut i: usize = 0;
    while i < statuses.len()
        invariant
            i <= statuses@.len(),
            worst == spec_worst_status(statuses@.take(i as int)),
        decreases statuses@.len() - i,
    {
        let s = statuses[i];
        proof {
            assert(statuses@.take(i + 1).drop_last() =~= statuses@.take(i as int));
        }
        worst = match worst {
            Some(w) if w.severity() >= s.severity() => Some(w),
            _ => Some(s),
        };
        i = i + 1;
    }
    assert(statuses@.take(statuses@.len() as int) =~= statuses@);
    worst
}

/// The worst status is none exactly for no signatures; otherwise it is one
/// of the statuses, and none is more severe.
pub proof fn law_worst_status(statuses: Seq<SignatureStatus>)
    ensures
        spec_worst_status(statuses) is None <==> statuses.len() == 0,
        spec_worst_status(statuses) matches Some(w) ==> statuses.contains(w) && forall|i: int|
            0 <= i < statuses.len() ==> spec_severity(#[trigger] statuses[i]) <= spec_severity(w),
    decreases statuses.len(),
{
    if statuses.len() > 0 {
        let pre = statuses.drop_last();
        law_worst_status(pre);
        assert(statuses[statuses.len() - 1] == statuses.last());
        match spec_worst_status(statuses) {
            Some(w) => {
                assert forall|i: int| 0 <= i < statuses.len() implies spec_severity(
                    #[trigger] statuses[i],
                ) <= spec_severity(w) by {
                    if i < pre.len() {
                        assert(statuses[i] == pre[i]);
                    }
                }
                if w != statuses.last() {
                    let k = choose|k: int| 0 <= k < pre.len() && pre[k] == w;
                    assert(statuses[k] == w);
                }
            },
            None => {},
        }
    }
}

/// What a signature's certificate says of its holder.
#[derive(Debug, Clone)]
pub struct CertificateInfo {
    pub subject: String,
    pub common_name: Option<String>,
    pub organization: Option<String>,
    pub issuer: String,
    pub serial: String,
    pub not_before: String,
    pub not_after: String,
    pub is_self_signed: bool,
}

pub struct CertificateInfoView {
    pub subject: Seq<char>,
    pub common_name: Option<Seq<char>>,
    pub organization: Option<Seq<char>>,
    pub issuer: Seq<char>,
    pub serial: Seq<char>,
    pub not_before: Seq<char>,
    pub not_after: Seq<char>,
    pub is_self_signed: bool,
}

pub open spec fn opt_text(o: Option<String>) -> Option<Seq<char>> {
    match o {
        Some(s) => Some(s@),
        None => None,
    }
}

impl View for CertificateInfo {
    type V = CertificateInfoView;

    open spec fn view(&self) -> CertificateInfoView {
        CertificateInfoView {
            subject: self.subject@,
            common_name: opt_text(self.common_name),
            organization: opt_text(self.organization),
            issuer: self.issuer@,
            serial: self.serial@,
            not_before: self.not_before@,
            not_after: self.not_after@,
            is_self_signed: self.is_self_signed,
        }
    }
}

/// One signature found in a PDF, with its verdict.
#[derive(Debug, Clone)]
pub struct SignatureInfo {
    pub field_name: Option<String>,
    pub signer_name: Option<String>,
    pub reason: Option<String>,
    pub location: Option<String>,
    pub contact_info: Option<String>,
    pub signing_time: Option<String>,
    pub filter: Option<String>,
    pub sub_filter: Option<String>,
    pub byte_range: Option<[i64; 4]>,
    pub covers_whole_document: bool,
    pub status: SignatureStatus,
    pub status_detail: String,
    pub certificate: Option<CertificateInfo>,
    pub digest_algorithm: Option<String>,
    pub signature_algorithm: Option<String>,
}

pub struct SignatureInfoView {
    pub field_name: Option<Seq<char>>,
    pub signer_name: Option<Seq<char>>,
    pub reason: Option<Seq<char>>,
    pub location: Option<Seq<char>>,
    pub contact_info: Option<Seq<char>>,
    pub signing_time: Option<Seq<char>>,
    pub filter: Option<Seq<char>>,
    pub sub_filter: Option<Seq<char>>,
    pub byte_range: Option<Seq<i64>>,
    pub covers_whole_document: bool,
    pub status: SignatureStatus,
    pub status_detail: Seq<char>,
    pub certificate: Option<CertificateInfoView>,
    pub digest_algorithm: Option<Seq<char>>,
    pub signature_algorithm: Option<Seq<char>>,
}

pub open spec fn opt_range(o: Option<[i64; 4]>) -> Option<Seq<i64>> {
    match o {
        Some(a) => Some(a@),
        None => None,
    }
}

pub open spec fn opt_certificate(o: Option<CertificateInfo>) -> Option<CertificateInfoView> {
    match o {
        Some(c) => Some(c@),
        None => None,
    }
}

impl View for SignatureInfo {
    type V = SignatureInfoView;

    open spec fn view(&self) -> SignatureInfoView {
        SignatureInfoView {
            field_name: opt_text(self.field_name),
            signer_name: opt_text(self.signer_name),
            reason: opt_text(self.reason),
            location: opt_text(self.location),
            contact_info: opt_text(self.contact_info),
            signing_time: opt_text(self.signing_time),
            filter: opt_text(self.filter),
            sub_filter: opt_text(self.sub_filter),
            byte_range: opt_range(self.byte_range),
            covers_whole_document: self.covers_whole_document,
            status: self.status,
            status_detail: self.status_detail@,
            certificate: opt_certificate(self.certificate),
            digest_algorithm: opt_text(self.digest_algorithm),
            signature_algorithm: opt_text(self.signature_algorithm),
        }
    }
}

/// The name shown for a signature: the signer's name, else the common name
/// of its certificate, else "Assinante".
pub open spec fn spec_signer_display_name(s: SignatureInfoView) -> Seq<char> {
    match s.signer_name {
        Some(n) => n,
        None => match s.certificate {
            Some(c) => match c.common_name {
                Some(cn) => cn,
                None => "Assinante"@,
            },
            None => "Assinante"@,
        },
    }
}

/// The name shown for a signature in the signatures panel.
pub fn signer_display_name(sig: &SignatureInfo) -> (r: String)
    ensures
        r@ == spec_signer_display_name(sig@),
{
    match &sig.signer_name {
        Some(n) => string_of(n.as_str()),
        None => match &sig.certificate {
            Some(c) => match &c.common_name {
                Some(cn) => string_of(cn.as_str()),
                None => string_of("Assinante"),
            },
            None => string_of("Assinante"),
        },
    }
}

/// What a PDF says of its signatures.
#[derive(Debug, Clone)]
pub struct PdfAnalysis {
    pub page_count_hint: Option<u32>,
    pub has_acro_form: bool,
    pub signatures: Vec<SignatureInfo>,
}

} // verus!
