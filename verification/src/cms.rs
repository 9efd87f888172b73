//! Lenient CMS/PKCS#7 SignedData walker.
//!
//! Real-world PDF signatures often break strict DER SET rules, so the walker
//! reads the TLV structure without that check. It takes the first SignerInfo
//! and the first certificate that `x509-parser` accepts.

use vstd::prelude::*;
use crate::crypto::{rsa_key_acceptable, rsa_key_accepted};
use crate::der::{
    be_value, children, expect_tag, lemma_children_placed, lemma_read_tlv_placed, read_tlv, spec_children,
    spec_read_tlv, spec_trim_der, trim_der, CmsFault, TagContext, Tlv,
};
use crate::sign::{CertificateInfo, CertificateInfoView, SigError, SigErrorView};
use crate::text::{push_char, push_hex, push_str, string_of, hex_lower};
use crate::x509;
use vstd::slice::slice_to_vec;
use vstd::string::StrSliceExecFns;

verus! {

/// The algorithms that the walker names.
#[derive(Debug, Clone, Copy, PartialEq, Eq, Structural)]
pub enum AlgorithmName {
    Sha256,
    Sha1,
    Sha512,
    Rsa,
    Unknown,
}

impl AlgorithmName {
    pub open spec fn spec_label(self) -> Seq<char> {
        match self {
            AlgorithmName::Sha256 => "SHA-256"@,
            AlgorithmName::Sha1 => "SHA-1"@,
            AlgorithmName::Sha512 => "SHA-512"@,
            AlgorithmName::Rsa => "RSA"@,
            AlgorithmName::Unknown => "desconhecido"@,
        }
    }

    /// The name shown for the algorithm.
    pub fn label(self) -> (r: &'static str)
        ensures
            r@ == self.spec_label(),
    {
        match self {
            AlgorithmName::Sha256 => "SHA-256",
            AlgorithmName::Sha1 => "SHA-1",
            AlgorithmName::Sha512 => "SHA-512",
            AlgorithmName::Rsa => "RSA",
            AlgorithmName::Unknown => "desconhecido",
        }
    }
}

/// The algorithm that an OID (its DER content bytes) names: SHA-256
/// (2.16.840.1.101.3.4.2.1), SHA-1 (1.3.14.3.2.26), SHA-512
/// (2.16.840.1.101.3.4.2.3), RSA (rsaEncryption 1.2.840.113549.1.1.1 and
/// sha256WithRSAEncryption 1.2.840.113549.1.1.11).
pub open spec fn spec_oid_name(oid: Seq<u8>) -> AlgorithmName {
    if oid == seq![0x60u8, 0x86, 0x48, 0x01, 0x65, 0x03, 0x04, 0x02, 0x01] {
        AlgorithmName::Sha256
    } else if oid == seq![0x2bu8, 0x0e, 0x03, 0x02, 0x1a] {
        AlgorithmName::Sha1
    } else if oid == seq![0x60u8, 0x86, 0x48, 0x01, 0x65, 0x03, 0x04, 0x02, 0x03] {
        AlgorithmName::Sha512
    } else if oid == seq![0x2au8, 0x86, 0x48, 0x86, 0xf7, 0x0d, 0x01, 0x01, 0x01] {
        AlgorithmName::Rsa
    } else if oid == seq![0x2au8, 0x86, 0x48, 0x86, 0xf7, 0x0d, 0x01, 0x01, 0x0b] {
        AlgorithmName::Rsa
    } else {
        AlgorithmName::Unknown
    }
}

/// Whether two byte strings are equal.
pub fn bytes_eq(a: &[u8], b: &[u8]) -> (r: bool)
    ensures
        r == (a@ == b@),
{
    if a.len() != b.len() {
        return false;
    }
    let mut i: usize = 0;
    while i < a.len()
        invariant
            a@.len() == b@.len(),
            i <= a@.len(),
            forall|j: int| 0 <= j < i ==> a@[j] == b@[j],
        decreases a@.len() - i,
    {
        if a[i] != b[i] {
            return false;
        }
        i = i + 1;
    }
    assert(a@ =~= b@);
    true
}

/// The algorithm that the DER content bytes of an OID name.
pub fn oid_digest_name(bytes: &[u8]) -> (r: AlgorithmName)
    ensures
        r == spec_oid_name(bytes@),
{
    let sha256: [u8; 9] = [0x60, 0x86, 0x48, 0x01, 0x65, 0x03, 0x04, 0x02, 0x01];
    let sha1: [u8; 5] = [0x2b, 0x0e, 0x03, 0x02, 0x1a];
    let sha512: [u8; 9] = [0x60, 0x86, 0x48, 0x01, 0x65, 0x03, 0x04, 0x02, 0x03];
    let rsa: [u8; 9] = [0x2a, 0x86, 0x48, 0x86, 0xf7, 0x0d, 0x01, 0x01, 0x01];
    let sha256_rsa: [u8; 9] = [0x2a, 0x86, 0x48, 0x86, 0xf7, 0x0d, 0x01, 0x01, 0x0b];
    assert(sha256@ =~= seq![0x60u8, 0x86, 0x48, 0x01, 0x65, 0x03, 0x04, 0x02, 0x01]);
    assert(sha1@ =~= seq![0x2bu8, 0x0e, 0x03, 0x02, 0x1a]);
    assert(sha512@ =~= seq![0x60u8, 0x86, 0x48, 0x01, 0x65, 0x03, 0x04, 0x02, 0x03]);
    assert(rsa@ =~= seq![0x2au8, 0x86, 0x48, 0x86, 0xf7, 0x0d, 0x01, 0x01, 0x01]);
    assert(sha256_rsa@ =~= seq![0x2au8, 0x86, 0x48, 0x86, 0xf7, 0x0d, 0x01, 0x01, 0x0b]);
    if bytes_eq(bytes, sha256.as_slice()) {
        return AlgorithmName::Sha256;
    }
    if bytes_eq(bytes, sha1.as_slice()) {
        return AlgorithmName::Sha1;
    }
    if bytes_eq(bytes, sha512.as_slice()) {
        return AlgorithmName::Sha512;
    }
    if bytes_eq(bytes, rsa.as_slice()) {
        return AlgorithmName::Rsa;
    }
    if bytes_eq(bytes, sha256_rsa.as_slice()) {
        return AlgorithmName::Rsa;
    }
    AlgorithmName::Unknown
}

/// The pieces of `s` between dots, as `str::split('.')` gives them.
pub open spec fn split_dots(s: Seq<char>) -> Seq<Seq<char>>
    decreases s.len(),
{
    if s.len() == 0 {
        seq![Seq::empty()]
    } else {
        let rest = split_dots(s.drop_last());
        if s.last() == '.' {
            rest.push(Seq::empty())
        } else {
            rest.update(rest.len() - 1, rest.last().push(s.last()))
        }
    }
}

proof fn lemma_split_dots_nonempty(s: Seq<char>)
    ensures
        split_dots(s).len() >= 1,
    decreases s.len(),
{
    if s.len() > 0 {
        lemma_split_dots_nonempty(s.drop_last());
    }
}

pub open spec fn is_digit(c: char) -> bool {
    '0' <= c && c <= '9'
}

pub open spec fn all_digits(s: Seq<char>) -> bool {
    forall|i: int| 0 <= i < s.len() ==> is_digit(#[trigger] s[i])
}

/// The characters after a leading `+`, if there is one.
pub open spec fn sign_stripped(p: Seq<char>) -> Seq<char> {
    if p.len() > 0 && p[0] == '+' {
        p.skip(1)
    } else {
        p
    }
}

/// Decimal value of a string of digits.
pub open spec fn digits_value(p: Seq<char>) -> nat
    decreases p.len(),
{
    if p.len() == 0 {
        0
    } else {
        digits_value(p.drop_last()) * 10 + (p.last() as nat - 48) as nat
    }
}

/// `u128::from_str`: an optional `+`, then one or more ASCII digits whose
/// value fits in 128 bits.
pub open spec fn parse_u128(p: Seq<char>) -> Option<nat> {
    let body = sign_stripped(p);
    if body.len() > 0 && all_digits(body) && digits_value(body) <= u128::MAX {
        Some(digits_value(body))
    } else {
        None
    }
}

/// The pieces that parse as `u128`, in order.
pub open spec fn parsed_components(parts: Seq<Seq<char>>) -> Seq<nat>
    decreases parts.len(),
{
    if parts.len() == 0 {
        Seq::empty()
    } else {
        let before = parsed_components(parts.drop_last());
        match parse_u128(parts.last()) {
            Some(v) => before.push(v),
            None => before,
        }
    }
}

/// Base-128 groups above the last one, each with the high bit set.
pub open spec fn base128_high(n: nat) -> Seq<u8>
    decreases n,
{
    if n == 0 {
        Seq::empty()
    } else {
        base128_high(n / 128).push(((n % 128) + 128) as u8)
    }
}

/// The base-128 encoding of one OID arc.
pub open spec fn base128(n: nat) -> Seq<u8> {
    base128_high(n / 128).push((n % 128) as u8)
}

pub open spec fn encode_arcs(arcs: Seq<nat>) -> Seq<u8>
    decreases arcs.len(),
{
    if arcs.len() == 0 {
        Seq::empty()
    } else {
        encode_arcs(arcs.drop_last()) + base128(arcs.last())
    }
}

/// DER content bytes of the OID written in dotted form: pieces that do not
/// parse as numbers are skipped; fewer than two arcs give no bytes; the first
/// byte is `40 * arc1 + arc2` truncated to a byte.
pub open spec fn spec_oid_from_str(s: Seq<char>) -> Seq<u8> {
    let arcs = parsed_components(split_dots(s));
    if arcs.len() < 2 {
        Seq::empty()
    } else {
        seq![((arcs[0] * 40 + arcs[1]) % 256) as u8] + encode_arcs(arcs.skip(2))
    }
}

proof fn lemma_digits_value_grows(p: Seq<char>, q: Seq<char>)
    requires
        q.len() <= p.len(),
        q =~= p.take(q.len() as int),
        forall|i: int| 0 <= i < p.len() ==> is_digit(#[trigger] p[i]),
    ensures
        digits_value(q) <= digits_value(p),
    decreases p.len(),
{
    if q.len() < p.len() {
        let pl = p.drop_last();
        assert(q =~= pl.take(q.len() as int));
        assert forall|i: int| 0 <= i < pl.len() implies is_digit(#[trigger] pl[i]) by {
            assert(pl[i] == p[i]);
        }
        lemma_digits_value_grows(pl, q);
        assert(is_digit(p[p.len() - 1]));
    } else {
        assert(q =~= p);
    }
}

/// `u128::from_str` on the characters of one piece.
fn parse_piece(piece: &Vec<char>) -> (r: Option<u128>)
    ensures
        match parse_u128(piece@) {
            Some(v) => r == Some(v as u128),
            None => r is None,
        },
{
    let start: usize = if piece.len() > 0 && piece[0] == '+' {
        1
    } else {
        0
    };
    let ghost body = sign_stripped(piece@);
    assert(body =~= piece@.skip(start as int));
    if start >= piece.len() {
        return None;
    }
    let mut value: u128 = 0;
    let mut i: usize = start;
    assert(body.take(0) =~= Seq::<char>::empty());
    while i < piece.len()
        invariant
            start <= i <= piece@.len(),
            body =~= piece@.skip(start as int),
            body == sign_stripped(piece@),
            value as nat == digits_value(body.take(i - start)),
            forall|j: int| 0 <= j < i - start ==> is_digit(#[trigger] body[j]),
        decreases piece@.len() - i,
    {
        let c = piece[i];
        if !('0' <= c && c <= '9') {
            assert(body[i - start] == c);
            assert(!is_digit(body[i - start]));
            assert(!all_digits(body));
            assert(parse_u128(piece@) is None);
            return None;
        }
        let d = (c as u32 - 48) as u128;
        proof {
            assert(body.take(i - start + 1).drop_last() =~= body.take(i - start));
            assert(body.take(i - start + 1).last() == c);
        }
        if value > (u128::MAX - d) / 10 {
            proof {
                assert(digits_value(body.take(i - start + 1)) == value * 10 + d);
                assert(value * 10 + d > u128::MAX) by (nonlinear_arith)
                    requires
                        value > (u128::MAX - d) / 10,
                        d <= 9,
                ;
                if all_digits(body) {
                    lemma_digits_value_grows(body, body.take(i - start + 1));
                    assert(digits_value(body) > u128::MAX);
                }
                assert(parse_u128(piece@) is None);
            }
            return None;
        }
        proof {
            assert(value * 10 + d <= u128::MAX) by (nonlinear_arith)
                requires
                    value <= (u128::MAX - d) / 10,
                    d <= 9,
            ;
        }
        value = value * 10 + d;
        i = i + 1;
    }
    assert(body.take(i - start) =~= body);
    Some(value)
}

fn push_base128_high(out: &mut Vec<u8>, n: u128)
    ensures
        final(out)@ == old(out)@ + base128_high(n as nat),
    decreases n,
{
    if n > 0 {
        push_base128_high(out, n / 128);
        out.push(((n % 128) + 128) as u8);
    }
    assert(final(out)@ =~= old(out)@ + base128_high(n as nat));
}

fn push_base128(out: &mut Vec<u8>, n: u128)
    ensures
        final(out)@ == old(out)@ + base128(n as nat),
{
    push_base128_high(out, n / 128);
    out.push((n % 128) as u8);
    assert(final(out)@ =~= old(out)@ + base128(n as nat));
}

/// DER content bytes of an OID written in dotted decimal form.
pub fn oid_from_str(s: &str) -> (r: Vec<u8>)
    ensures
        r@ == spec_oid_from_str(s@),
{
    let n = s.unicode_len();
    let mut arcs: Vec<u128> = Vec::new();
    let mut piece: Vec<char> = Vec::new();
    let mut i: usize = 0;
    assert(s@.take(0) =~= Seq::<char>::empty());
    assert(split_dots(Seq::<char>::empty()).drop_last() =~= Seq::<Seq<char>>::empty());
    while i < n
        invariant
            n == s@.len(),
            i <= n,
            split_dots(s@.take(i as int)).len() >= 1,
            piece@ == split_dots(s@.take(i as int)).last(),
            arcs@.map_values(|v: u128| v as nat) == parsed_components(
                split_dots(s@.take(i as int)).drop_last(),
            ),
        decreases n - i,
    {
        let c = s.get_char(i);
        let ghost prev = split_dots(s@.take(i as int));
        proof {
            assert(s@.take(i + 1).drop_last() =~= s@.take(i as int));
            assert(s@.take(i + 1).last() == c);
            lemma_split_dots_nonempty(s@.take(i as int));
        }
        if c == '.' {
            let parsed = parse_piece(&piece);
            let ghost before = arcs@.map_values(|v: u128| v as nat);
            match parsed {
                Some(v) => arcs.push(v),
                None => {},
            }
            proof {
                let now = split_dots(s@.take(i + 1));
                assert(now == prev.push(Seq::empty()));
                assert(now.drop_last() =~= prev);
                assert(prev.drop_last().push(prev.last()) =~= prev);
                assert(arcs@.map_values(|v: u128| v as nat) =~= parsed_components(prev));
            }
            piece = Vec::new();
        } else {
            piece.push(c);
            proof {
                let now = split_dots(s@.take(i + 1));
                assert(now == prev.update(prev.len() - 1, prev.last().push(c)));
                assert(now.drop_last() =~= prev.drop_last());
            }
        }
        i = i + 1;
    }
    let last = parse_piece(&piece);
    match last {
        Some(v) => arcs.push(v),
        None => {},
    }
    let ghost all = split_dots(s@);
    proof {
        assert(s@.take(n as int) =~= s@);
        assert(all.drop_last().push(all.last()) =~= all);
        assert(arcs@.map_values(|v: u128| v as nat) =~= parsed_components(all));
    }
    let mut out: Vec<u8> = Vec::new();
    if arcs.len() < 2 {
        assert(out@ =~= spec_oid_from_str(s@));
        return out;
    }
    let a0 = arcs[0];
    let a1 = arcs[1];
    let first = (((a0 % 256) * 40 + (a1 % 256)) % 256) as u8;
    proof {
        let x = a0 as int;
        let y = a1 as int;
        vstd::arithmetic::div_mod::lemma_mul_mod_noop_left(x, 40, 256);
        vstd::arithmetic::div_mod::lemma_add_mod_noop(x * 40, y, 256);
        vstd::arithmetic::div_mod::lemma_add_mod_noop((x % 256) * 40, y, 256);
        assert(((x % 256) * 40 % 256 + y % 256) % 256 == ((x % 256) * 40 + y % 256) % 256) by {
            vstd::arithmetic::div_mod::lemma_add_mod_noop((x % 256) * 40, y % 256, 256);
            vstd::arithmetic::div_mod::lemma_mod_twice(y, 256);
        }
    }
    out.push(first);
    let mut k: usize = 2;
    let ghost arcs_n = arcs@.map_values(|v: u128| v as nat);
    assert(arcs_n.skip(2).take(0) =~= Seq::<nat>::empty());
    while k < arcs.len()
        invariant
            2 <= k <= arcs@.len(),
            arcs_n == arcs@.map_values(|v: u128| v as nat),
            out@ == seq![first] + encode_arcs(arcs_n.skip(2).take(k - 2)),
        decreases arcs@.len() - k,
    {
        let a = arcs[k];
        proof {
            assert(arcs_n.skip(2).take(k - 1).drop_last() =~= arcs_n.skip(2).take(k - 2));
            assert(arcs_n.skip(2).take(k - 1).last() == a as nat);
        }
        push_base128(&mut out, a);
        assert(out@ =~= seq![first] + encode_arcs(arcs_n.skip(2).take(k - 1)));
        k = k + 1;
    }
    assert(arcs_n.skip(2).take(k - 2) =~= arcs_n.skip(2));
    assert(arcs_n[0] == a0 as nat && arcs_n[1] == a1 as nat);
    out
}

/// Text of a tag context in messages.
pub open spec fn spec_context_name(c: TagContext) -> Seq<char> {
    match c {
        TagContext::ContentInfo => "ContentInfo"@,
        TagContext::SignedData => "SignedData"@,
        TagContext::SignerInfo => "SignerInfo"@,
        TagContext::Signature => "signature"@,
    }
}

/// `{:#x}` of a byte.
pub open spec fn alt_hex(b: u8) -> Seq<char> {
    "0x"@ + hex_lower(b as nat)
}

/// The message that a fault carries in `SigError::Cms`.
pub open spec fn spec_fault_message(f: CmsFault) -> Seq<char> {
    match f {
        CmsFault::ShortTlv => "TLV curto"@,
        CmsFault::BadLength => "comprimento DER inválido"@,
        CmsFault::Truncated => "TLV truncado"@,
        CmsFault::UnexpectedTag { context, expected, found } => spec_context_name(context)
            + ": esperado tag "@ + alt_hex(expected) + ", veio "@ + alt_hex(found),
        CmsFault::ContentInfoIncomplete => "ContentInfo incompleto"@,
        CmsFault::SignedDataIncomplete => "SignedData incompleto"@,
        CmsFault::SignerInfosMissing => "SignerInfos ausente"@,
        CmsFault::NoSignerInfo => "CMS sem SignerInfo"@,
        CmsFault::SignerInfoIncomplete => "SignerInfo incompleto"@,
        CmsFault::AlgorithmWithoutOid => "AlgorithmIdentifier sem OID"@,
        CmsFault::SignatureAlgorithmMissing => "signatureAlgorithm ausente"@,
        CmsFault::SignatureMissing => "signature ausente"@,
    }
}

fn context_name(c: TagContext) -> (r: &'static str)
    ensures
        r@ == spec_context_name(c),
{
    match c {
        TagContext::ContentInfo => "ContentInfo",
        TagContext::SignedData => "SignedData",
        TagContext::SignerInfo => "SignerInfo",
        TagContext::Signature => "signature",
    }
}

/// The message of a fault.
pub fn fault_message(f: CmsFault) -> (r: String)
    ensures
        r@ == spec_fault_message(f),
{
    match f {
        CmsFault::ShortTlv => string_of("TLV curto"),
        CmsFault::BadLength => string_of("comprimento DER inválido"),
        CmsFault::Truncated => string_of("TLV truncado"),
        CmsFault::UnexpectedTag { context, expected, found } => {
            let mut out = string_of(context_name(context));
            push_str(&mut out, ": esperado tag ");
            push_str(&mut out, "0x");
            push_hex(&mut out, expected as u64);
            push_str(&mut out, ", veio ");
            push_str(&mut out, "0x");
            push_hex(&mut out, found as u64);
            assert(out@ =~= spec_fault_message(f));
            out
        },
        CmsFault::ContentInfoIncomplete => string_of("ContentInfo incompleto"),
        CmsFault::SignedDataIncomplete => string_of("SignedData incompleto"),
        CmsFault::SignerInfosMissing => string_of("SignerInfos ausente"),
        CmsFault::NoSignerInfo => string_of("CMS sem SignerInfo"),
        CmsFault::SignerInfoIncomplete => string_of("SignerInfo incompleto"),
        CmsFault::AlgorithmWithoutOid => string_of("AlgorithmIdentifier sem OID"),
        CmsFault::SignatureAlgorithmMissing => string_of("signatureAlgorithm ausente"),
        CmsFault::SignatureMissing => string_of("signature ausente"),
    }
}

/// The algorithm an AlgorithmIdentifier names: its first child must be an OID.
pub open spec fn spec_algorithm(d: Seq<u8>, alg: Tlv) -> Result<AlgorithmName, CmsFault> {
    match spec_children(d, alg.value_start as int, alg.end as int) {
        Err(f) => Err(f),
        Ok(parts) => if parts.len() == 0 || parts[0].tag != 0x06 {
            Err(CmsFault::AlgorithmWithoutOid)
        } else {
            Ok(spec_oid_name(d.subrange(parts[0].value_start as int, parts[0].end as int)))
        },
    }
}

/// The algorithm an AlgorithmIdentifier names.
pub fn algorithm_name(d: &[u8], alg: Tlv) -> (r: Result<AlgorithmName, CmsFault>)
    requires
        alg.value_start <= alg.end <= d@.len(),
    ensures
        r == spec_algorithm(d@, alg),
{
    proof {
        lemma_children_placed(d@, alg.value_start as int, alg.end as int);
    }
    let parts = match children(d, alg) {
        Ok(p) => p,
        Err(f) => return Err(f),
    };
    if parts.len() == 0 || parts[0].tag != 0x06 {
        return Err(CmsFault::AlgorithmWithoutOid);
    }
    let oid = parts[0];
    Ok(oid_digest_name(&d[oid.value_start..oid.end]))
}

/// The messageDigest attribute among the signed attributes in `[pos, end)`:
/// the first SEQUENCE whose first two children are an OID equal to `oid` and
/// a SET; its first element's value when that element is an OCTET STRING,
/// else the whole element.
pub open spec fn spec_message_digest(d: Seq<u8>, pos: int, end: int, oid: Seq<u8>) -> Result<
    Option<Seq<u8>>,
    CmsFault,
>
    decreases end - pos when 0 <= pos && end <= usize::MAX
{
    if pos >= end {
        Ok(None)
    } else {
        proof {
            lemma_read_tlv_placed(d, pos, end);
        }
        match spec_read_tlv(d, pos, end) {
            Err(f) => Err(f),
            Ok(attr) => if attr.tag != 0x30 {
                spec_message_digest(d, attr.end as int, end, oid)
            } else {
                match spec_children(d, attr.value_start as int, attr.end as int) {
                    Err(f) => Err(f),
                    Ok(parts) => if parts.len() < 2 || parts[0].tag != 0x06 || d.subrange(
                        parts[0].value_start as int,
                        parts[0].end as int,
                    ) != oid {
                        spec_message_digest(d, attr.end as int, end, oid)
                    } else {
                        let set = parts[1];
                        match spec_read_tlv(d, set.value_start as int, set.end as int) {
                            Err(f) => Err(f),
                            Ok(oct) => Ok(
                                Some(
                                    if oct.tag == 0x04 {
                                        d.subrange(oct.value_start as int, oct.end as int)
                                    } else {
                                        d.subrange(oct.start as int, oct.end as int)
                                    },
                                ),
                            ),
                        }
                    },
                }
            },
        }
    }
}

/// Finds the messageDigest signed attribute in `[start, end)`.
pub fn extract_message_digest(d: &[u8], start: usize, end: usize, oid: &[u8]) -> (r: Result<
    Option<Vec<u8>>,
    CmsFault,
>)
    requires
        start <= end <= d@.len(),
    ensures
        match spec_message_digest(d@, start as int, end as int, oid@) {
            Ok(Some(v)) => r is Ok && r->Ok_0 is Some && r->Ok_0->Some_0@ == v,
            Ok(None) => r is Ok && r->Ok_0 is None,
            Err(f) => r == Err::<Option<Vec<u8>>, CmsFault>(f),
        },
{
    let mut cur = start;
    while cur < end
        invariant
            start <= cur <= end <= d@.len(),
            spec_message_digest(d@, start as int, end as int, oid@) == spec_message_digest(
                d@,
                cur as int,
                end as int,
                oid@,
            ),
        decreases end - cur,
    {
        proof {
            lemma_read_tlv_placed(d@, cur as int, end as int);
        }
        let attr = match read_tlv(d, cur, end) {
            Ok(t) => t,
            Err(f) => return Err(f),
        };
        if attr.tag == 0x30 {
            proof {
                lemma_children_placed(d@, attr.value_start as int, attr.end as int);
            }
            let parts = match children(d, attr) {
                Ok(p) => p,
                Err(f) => return Err(f),
            };
            if parts.len() >= 2 && parts[0].tag == 0x06 {
                let id = parts[0];
                if bytes_eq(&d[id.value_start..id.end], oid) {
                    let set = parts[1];
                    proof {
                        lemma_read_tlv_placed(d@, set.value_start as int, set.end as int);
                    }
                    let oct = match read_tlv(d, set.value_start, set.end) {
                        Ok(t) => t,
                        Err(f) => return Err(f),
                    };
                    if oct.tag == 0x04 {
                        return Ok(Some(slice_to_vec(&d[oct.value_start..oct.end])));
                    }
                    return Ok(Some(slice_to_vec(&d[oct.start..oct.end])));
                }
            }
        }
        cur = attr.end;
    }
    Ok(None)
}

pub open spec fn is_context_tag(tag: u8) -> bool {
    tag & 0xc0 == 0x80
}

/// The children of SignedData: ContentInfo is a SEQUENCE with at least two
/// children; the second, unwrapped from its `[0] EXPLICIT` tag when it has
/// one, is the SignedData SEQUENCE, with at least four children.
pub open spec fn spec_signed_data(der: Seq<u8>) -> Result<Seq<Tlv>, CmsFault> {
    match spec_read_tlv(der, 0, der.len() as int) {
        Err(f) => Err(f),
        Ok(ci) => if ci.tag != 0x30 {
            Err(
                CmsFault::UnexpectedTag {
                    context: TagContext::ContentInfo,
                    expected: 0x30,
                    found: ci.tag,
                },
            )
        } else {
            match spec_children(der, ci.value_start as int, ci.end as int) {
                Err(f) => Err(f),
                Ok(cic) => if cic.len() < 2 {
                    Err(CmsFault::ContentInfoIncomplete)
                } else {
                    let w = cic[1];
                    let inner = if is_context_tag(w.tag) {
                        spec_read_tlv(der, w.value_start as int, w.end as int)
                    } else {
                        Ok(w)
                    };
                    match inner {
                        Err(f) => Err(f),
                        Ok(sd) => if sd.tag != 0x30 {
                            Err(
                                CmsFault::UnexpectedTag {
                                    context: TagContext::SignedData,
                                    expected: 0x30,
                                    found: sd.tag,
                                },
                            )
                        } else {
                            match spec_children(der, sd.value_start as int, sd.end as int) {
                                Err(f) => Err(f),
                                Ok(kids) => if kids.len() < 4 {
                                    Err(CmsFault::SignedDataIncomplete)
                                } else {
                                    Ok(kids)
                                },
                            }
                        },
                    }
                },
            }
        },
    }
}

fn signed_data_children(der: &[u8]) -> (r: Result<Vec<Tlv>, CmsFault>)
    ensures
        match spec_signed_data(der@) {
            Ok(kids) => r is Ok && r->Ok_0@ == kids,
            Err(f) => r == Err::<Vec<Tlv>, CmsFault>(f),
        },
        r is Ok ==> forall|i: int|
            0 <= i < r->Ok_0@.len() ==> (#[trigger] r->Ok_0@[i]).value_start <= r->Ok_0@[i].end
                <= der@.len(),
{
    let n = der.len();
    proof {
        lemma_read_tlv_placed(der@, 0, n as int);
    }
    let ci = match read_tlv(der, 0, n) {
        Ok(t) => t,
        Err(f) => return Err(f),
    };
    match expect_tag(ci, 0x30, TagContext::ContentInfo) {
        Ok(()) => {},
        Err(f) => return Err(f),
    }
    proof {
        lemma_children_placed(der@, ci.value_start as int, ci.end as int);
    }
    let cic = match children(der, ci) {
        Ok(k) => k,
        Err(f) => return Err(f),
    };
    if cic.len() < 2 {
        return Err(CmsFault::ContentInfoIncomplete);
    }
    let w = cic[1];
    let sd = if w.tag & 0xc0 == 0x80 {
        proof {
            lemma_read_tlv_placed(der@, w.value_start as int, w.end as int);
        }
        match read_tlv(der, w.value_start, w.end) {
            Ok(t) => t,
            Err(f) => return Err(f),
        }
    } else {
        w
    };
    match expect_tag(sd, 0x30, TagContext::SignedData) {
        Ok(()) => {},
        Err(f) => return Err(f),
    }
    proof {
        lemma_children_placed(der@, sd.value_start as int, sd.end as int);
    }
    let kids = match children(der, sd) {
        Ok(k) => k,
        Err(f) => return Err(f),
    };
    if kids.len() < 4 {
        return Err(CmsFault::SignedDataIncomplete);
    }
    Ok(kids)
}

/// Index of SignerInfos: the first child from the fourth on that does not
/// carry a context-specific tag (`sd.len()` when there is none).
pub open spec fn signer_infos_index(sd: Seq<Tlv>, i: int) -> int
    decreases sd.len() - i,
{
    if i >= sd.len() {
        i
    } else if is_context_tag(sd[i].tag) {
        signer_infos_index(sd, i + 1)
    } else {
        i
    }
}

/// The last `[0]` (certificates) child among `sd[3..k)`.
pub open spec fn last_certificates(sd: Seq<Tlv>, k: int) -> Option<Tlv>
    decreases k,
{
    if k <= 3 {
        None
    } else if sd[k - 1].tag == 0xa0 {
        Some(sd[k - 1])
    } else {
        last_certificates(sd, k - 1)
    }
}

/// The children of the first SignerInfo inside SignerInfos, at least five.
pub open spec fn spec_signer_info(der: Seq<u8>, infos: Tlv) -> Result<Seq<Tlv>, CmsFault> {
    match spec_children(der, infos.value_start as int, infos.end as int) {
        Err(f) => Err(f),
        Ok(list) => if list.len() == 0 {
            Err(CmsFault::NoSignerInfo)
        } else {
            let first = list[0];
            if first.tag != 0x30 {
                Err(
                    CmsFault::UnexpectedTag {
                        context: TagContext::SignerInfo,
                        expected: 0x30,
                        found: first.tag,
                    },
                )
            } else {
                match spec_children(der, first.value_start as int, first.end as int) {
                    Err(f) => Err(f),
                    Ok(si) => if si.len() < 5 {
                        Err(CmsFault::SignerInfoIncomplete)
                    } else {
                        Ok(si)
                    },
                }
            }
        },
    }
}

fn signer_info_children(der: &[u8], infos: Tlv) -> (r: Result<Vec<Tlv>, CmsFault>)
    requires
        infos.value_start <= infos.end <= der@.len(),
    ensures
        match spec_signer_info(der@, infos) {
            Ok(kids) => r is Ok && r->Ok_0@ == kids,
            Err(f) => r == Err::<Vec<Tlv>, CmsFault>(f),
        },
        r is Ok ==> forall|i: int|
            0 <= i < r->Ok_0@.len() ==> (#[trigger] r->Ok_0@[i]).start < r->Ok_0@[i].value_start
                <= r->Ok_0@[i].end <= der@.len(),
{
    proof {
        lemma_children_placed(der@, infos.value_start as int, infos.end as int);
    }
    let list = match children(der, infos) {
        Ok(k) => k,
        Err(f) => return Err(f),
    };
    if list.len() == 0 {
        return Err(CmsFault::NoSignerInfo);
    }
    let first = list[0];
    match expect_tag(first, 0x30, TagContext::SignerInfo) {
        Ok(()) => {},
        Err(f) => return Err(f),
    }
    proof {
        lemma_children_placed(der@, first.value_start as int, first.end as int);
    }
    let si = match children(der, first) {
        Ok(k) => k,
        Err(f) => return Err(f),
    };
    if si.len() < 5 {
        return Err(CmsFault::SignerInfoIncomplete);
    }
    Ok(si)
}

/// What the walker reads of a SignerInfo.
pub struct SignerFields {
    pub digest_algorithm: AlgorithmName,
    pub signed_attrs: Option<Tlv>,
    pub message_digest: Option<Seq<u8>>,
    pub signature_algorithm: AlgorithmName,
    pub signature: Tlv,
}

/// SignerInfo is version, sid, digestAlgorithm, `[0]` signedAttrs (optional),
/// signatureAlgorithm, signature (an OCTET STRING).
pub open spec fn spec_signer_fields(der: Seq<u8>, si: Seq<Tlv>, oid: Seq<u8>) -> Result<
    SignerFields,
    CmsFault,
> {
    match spec_algorithm(der, si[2]) {
        Err(f) => Err(f),
        Ok(digest_algorithm) => {
            let attrs: Result<(Option<Tlv>, Option<Seq<u8>>), CmsFault> = if si[3].tag == 0xa0 {
                match spec_message_digest(der, si[3].value_start as int, si[3].end as int, oid) {
                    Err(f) => Err(f),
                    Ok(md) => Ok((Some(si[3]), md)),
                }
            } else {
                Ok((None, None))
            };
            match attrs {
                Err(f) => Err(f),
                Ok((signed_attrs, message_digest)) => {
                    let cursor: int = if signed_attrs is Some {
                        4
                    } else {
                        3
                    };
                    if cursor >= si.len() {
                        Err(CmsFault::SignatureAlgorithmMissing)
                    } else {
                        match spec_algorithm(der, si[cursor]) {
                            Err(f) => Err(f),
                            Ok(signature_algorithm) => if cursor + 1 >= si.len() {
                                Err(CmsFault::SignatureMissing)
                            } else if si[cursor + 1].tag != 0x04 {
                                Err(
                                    CmsFault::UnexpectedTag {
                                        context: TagContext::Signature,
                                        expected: 0x04,
                                        found: si[cursor + 1].tag,
                                    },
                                )
                            } else {
                                Ok(
                                    SignerFields {
                                        digest_algorithm,
                                        signed_attrs,
                                        message_digest,
                                        signature_algorithm,
                                        signature: si[cursor + 1],
                                    },
                                )
                            },
                        }
                    }
                },
            }
        },
    }
}

/// Where a SignedData blob keeps what the verification reads.
pub struct CmsLayout {
    pub certificates: Option<Tlv>,
    pub fields: SignerFields,
}

/// The layout of the SignedData in `der`.
pub open spec fn spec_cms_layout(der: Seq<u8>, oid: Seq<u8>) -> Result<CmsLayout, CmsFault> {
    match spec_signed_data(der) {
        Err(f) => Err(f),
        Ok(sd) => {
            let idx = signer_infos_index(sd, 3);
            if idx >= sd.len() {
                Err(CmsFault::SignerInfosMissing)
            } else {
                match spec_signer_info(der, sd[idx]) {
                    Err(f) => Err(f),
                    Ok(si) => match spec_signer_fields(der, si, oid) {
                        Err(f) => Err(f),
                        Ok(fields) => Ok(
                            CmsLayout { certificates: last_certificates(sd, idx), fields },
                        ),
                    },
                }
            }
        },
    }
}

/// The OID of the messageDigest attribute (1.2.840.113549.1.9.4).
pub open spec fn message_digest_oid() -> Seq<u8> {
    spec_oid_from_str("1.2.840.113549.1.9.4"@)
}

/// The DER of the first certificate in `[pos, end)` that is a SEQUENCE and
/// that `x509-parser` accepts; the search stops at the first unreadable TLV.
pub open spec fn spec_first_certificate(d: Seq<u8>, pos: int, end: int) -> Option<Seq<u8>>
    decreases end - pos when 0 <= pos && end <= usize::MAX
{
    if pos >= end {
        None
    } else {
        proof {
            lemma_read_tlv_placed(d, pos, end);
        }
        match spec_read_tlv(d, pos, end) {
            Err(_) => None,
            Ok(t) => if t.tag == 0x30 && x509::x509_parses(d.subrange(t.start as int, t.end as int)) {
                Some(d.subrange(t.start as int, t.end as int))
            } else {
                spec_first_certificate(d, t.end as int, end)
            },
        }
    }
}

/// RSA key parts that `RsaPublicKey::new` accepts.
#[derive(Debug, Clone)]
pub struct RsaKeyParts {
    pub modulus: Vec<u8>,
    pub exponent: Vec<u8>,
}

/// The summary of a certificate, read with `x509-parser`.
pub open spec fn certificate_view(cert: Seq<u8>) -> CertificateInfoView {
    CertificateInfoView {
        subject: x509::x509_subject_text(cert),
        common_name: x509::x509_common_name(cert),
        organization: x509::x509_organization(cert),
        issuer: x509::x509_issuer_text(cert),
        serial: x509::x509_serial_hex(cert),
        not_before: x509::x509_not_before_text(cert),
        not_after: x509::x509_not_after_text(cert),
        is_self_signed: x509::x509_self_issued(cert),
    }
}

/// The RSA key of a certificate, when it has one that `RsaPublicKey::new`
/// accepts.
pub open spec fn rsa_key_of(cert: Seq<u8>) -> Option<(Seq<u8>, Seq<u8>)> {
    match x509::x509_rsa_parts(cert) {
        Some((n, e)) => if rsa_key_acceptable(be_value(n), be_value(e)) {
            Some((n, e))
        } else {
            None
        },
        None => None,
    }
}

/// What a SignedData blob says about its first signer.
pub struct ParsedCms {
    pub certificate: Option<CertificateInfo>,
    pub public_key: Option<RsaKeyParts>,
    pub message_digest: Option<Vec<u8>>,
    pub digest_algorithm: AlgorithmName,
    pub signature_algorithm: AlgorithmName,
    pub signature: Vec<u8>,
    pub signed_attrs_for_verify: Option<Vec<u8>>,
    pub cert_not_before: Option<i64>,
    pub cert_not_after: Option<i64>,
}

pub open spec fn opt_bytes(o: Option<Vec<u8>>) -> Option<Seq<u8>> {
    match o {
        Some(v) => Some(v@),
        None => None,
    }
}

pub open spec fn opt_key(o: Option<RsaKeyParts>) -> Option<(Seq<u8>, Seq<u8>)> {
    match o {
        Some(k) => Some((k.modulus@, k.exponent@)),
        None => None,
    }
}

/// The certificate summary, key and validity times are those of `cert`.
pub open spec fn certificate_parts_from(
    certificate: Option<CertificateInfo>,
    public_key: Option<RsaKeyParts>,
    not_before: Option<i64>,
    not_after: Option<i64>,
    cert: Option<Seq<u8>>,
) -> bool {
    match cert {
        Some(c) => {
            &&& certificate is Some && certificate->Some_0@ == certificate_view(c)
            &&& opt_key(public_key) == rsa_key_of(c)
            &&& not_before == Some(x509::x509_not_before_unix(c))
            &&& not_after == Some(x509::x509_not_after_unix(c))
        },
        None => {
            &&& certificate is None
            &&& public_key is None
            &&& not_before is None
            &&& not_after is None
        },
    }
}

impl ParsedCms {
    /// The certificate fields of `self` are those of `cert`.
    pub open spec fn certificate_from(self, cert: Option<Seq<u8>>) -> bool {
        certificate_parts_from(
            self.certificate,
            self.public_key,
            self.cert_not_before,
            self.cert_not_after,
            cert,
        )
    }

    /// `self` is what the walker reads from `der` laid out as `l`.
    pub open spec fn read_from(self, der: Seq<u8>, l: CmsLayout) -> bool {
        let f = l.fields;
        &&& self.digest_algorithm == f.digest_algorithm
        &&& self.signature_algorithm == f.signature_algorithm
        &&& opt_bytes(self.message_digest) == f.message_digest
        &&& self.signature@ == der.subrange(f.signature.value_start as int, f.signature.end as int)
        &&& opt_bytes(self.signed_attrs_for_verify) == match f.signed_attrs {
            Some(t) => Some(seq![0x31u8] + der.subrange(t.start + 1, t.end as int)),
            None => None,
        }
        &&& self.certificate_from(
            match l.certificates {
                Some(b) => spec_first_certificate(der, b.value_start as int, b.end as int),
                None => None,
            },
        )
    }
}

/// What `signer_fields` reads, with the message digest copied out.
struct SignerRead {
    digest_algorithm: AlgorithmName,
    signed_attrs: Option<Tlv>,
    message_digest: Option<Vec<u8>>,
    signature_algorithm: AlgorithmName,
    signature: Tlv,
}

impl SignerRead {
    spec fn is(self, f: SignerFields) -> bool {
        &&& self.digest_algorithm == f.digest_algorithm
        &&& self.signed_attrs == f.signed_attrs
        &&& opt_bytes(self.message_digest) == f.message_digest
        &&& self.signature_algorithm == f.signature_algorithm
        &&& self.signature == f.signature
    }
}

fn signer_fields(der: &[u8], si: &Vec<Tlv>, oid: &[u8]) -> (r: Result<SignerRead, CmsFault>)
    requires
        si@.len() >= 5,
        forall|i: int|
            0 <= i < si@.len() ==> (#[trigger] si@[i]).start < si@[i].value_start <= si@[i].end
                <= der@.len(),
    ensures
        match spec_signer_fields(der@, si@, oid@) {
            Ok(f) => r is Ok && r->Ok_0.is(f),
            Err(e) => r is Err && r->Err_0 == e,
        },
        r is Ok ==> r->Ok_0.signature.value_start <= r->Ok_0.signature.end <= der@.len(),
        r is Ok ==> (r->Ok_0.signed_attrs matches Some(t) ==> t.start < t.value_start <= t.end
            <= der@.len()),
{
    let digest_algorithm = match algorithm_name(der, si[2]) {
        Ok(a) => a,
        Err(f) => return Err(f),
    };
    let mut cursor: usize = 3;
    let mut signed_attrs: Option<Tlv> = None;
    let mut message_digest: Option<Vec<u8>> = None;
    if si[3].tag == 0xa0 {
        let attrs = si[3];
        message_digest = match extract_message_digest(der, attrs.value_start, attrs.end, oid) {
            Ok(md) => md,
            Err(f) => return Err(f),
        };
        signed_attrs = Some(attrs);
        cursor = 4;
    }
    if cursor >= si.len() {
        return Err(CmsFault::SignatureAlgorithmMissing);
    }
    let signature_algorithm = match algorithm_name(der, si[cursor]) {
        Ok(a) => a,
        Err(f) => return Err(f),
    };
    cursor = cursor + 1;
    if cursor >= si.len() {
        return Err(CmsFault::SignatureMissing);
    }
    let signature = si[cursor];
    match expect_tag(signature, 0x04, TagContext::Signature) {
        Ok(()) => {},
        Err(f) => return Err(f),
    }
    Ok(SignerRead { digest_algorithm, signed_attrs, message_digest, signature_algorithm, signature })
}

/// The summary of a certificate, read with `x509-parser`.
fn certificate_info(cert: &[u8]) -> (r: CertificateInfo)
    ensures
        r@ == certificate_view(cert@),
{
    CertificateInfo {
        subject: x509::subject_text(cert),
        common_name: x509::common_name(cert),
        organization: x509::organization(cert),
        issuer: x509::issuer_text(cert),
        serial: x509::serial_hex(cert),
        not_before: x509::not_before_text(cert),
        not_after: x509::not_after_text(cert),
        is_self_signed: x509::self_issued(cert),
    }
}

/// The RSA key of a certificate, when `RsaPublicKey::new` accepts it.
fn rsa_key(cert: &[u8]) -> (r: Option<RsaKeyParts>)
    ensures
        opt_key(r) == rsa_key_of(cert@),
{
    match x509::rsa_parts(cert) {
        Some((modulus, exponent)) => if rsa_key_accepted(modulus.as_slice(), exponent.as_slice()) {
            Some(RsaKeyParts { modulus, exponent })
        } else {
            None
        },
        None => None,
    }
}

/// Where the first usable certificate of `[start, end)` lies.
fn first_certificate(der: &[u8], start: usize, end: usize) -> (r: Option<(usize, usize)>)
    requires
        start <= end <= der@.len(),
    ensures
        match spec_first_certificate(der@, start as int, end as int) {
            Some(c) => r matches Some((s, e)) && s <= e <= der@.len() && der@.subrange(
                s as int,
                e as int,
            ) == c,
            None => r is None,
        },
{
    let mut cur = start;
    while cur < end
        invariant
            start <= cur <= end <= der@.len(),
            spec_first_certificate(der@, start as int, end as int) == spec_first_certificate(
                der@,
                cur as int,
                end as int,
            ),
        decreases end - cur,
    {
        proof {
            lemma_read_tlv_placed(der@, cur as int, end as int);
        }
        let t = match read_tlv(der, cur, end) {
            Ok(t) => t,
            Err(_) => return None,
        };
        if t.tag == 0x30 && x509::parses(&der[t.start..t.end]) {
            return Some((t.start, t.end));
        }
        cur = t.end;
    }
    None
}

/// What `[start, end)` of the certificates field gives: the certificate
/// summary, its RSA key and its validity times.
fn parse_first_cert(der: &[u8], start: usize, end: usize) -> (r: (
    Option<CertificateInfo>,
    Option<RsaKeyParts>,
    Option<i64>,
    Option<i64>,
))
    requires
        start <= end <= der@.len(),
    ensures
        certificate_parts_from(
            r.0,
            r.1,
            r.2,
            r.3,
            spec_first_certificate(der@, start as int, end as int),
        ),
{
    match first_certificate(der, start, end) {
        Some((s, e)) => {
            let cert = &der[s..e];
            (
                Some(certificate_info(cert)),
                rsa_key(cert),
                Some(x509::not_before_unix(cert)),
                Some(x509::not_after_unix(cert)),
            )
        },
        None => (None, None, None, None),
    }
}

fn read_signed_data(der: &[u8], oid: &[u8]) -> (r: Result<ParsedCms, CmsFault>)
    ensures
        match spec_cms_layout(der@, oid@) {
            Ok(l) => r is Ok && r->Ok_0.read_from(der@, l),
            Err(f) => r == Err::<ParsedCms, CmsFault>(f),
        },
{
    let sd = match signed_data_children(der) {
        Ok(k) => k,
        Err(f) => return Err(f),
    };
    let mut idx: usize = 3;
    let mut certs: Option<Tlv> = None;
    while idx < sd.len() && sd[idx].tag & 0xc0 == 0x80
        invariant
            3 <= idx <= sd@.len(),
            signer_infos_index(sd@, 3) == signer_infos_index(sd@, idx as int),
            certs == last_certificates(sd@, idx as int),
            forall|i: int|
                0 <= i < sd@.len() ==> (#[trigger] sd@[i]).value_start <= sd@[i].end
                    <= der@.len(),
            certs matches Some(t) ==> t.value_start <= t.end <= der@.len(),
        decreases sd@.len() - idx,
    {
        if sd[idx].tag == 0xa0 {
            certs = Some(sd[idx]);
        }
        idx = idx + 1;
    }
    if idx >= sd.len() {
        return Err(CmsFault::SignerInfosMissing);
    }
    let si = match signer_info_children(der, sd[idx]) {
        Ok(k) => k,
        Err(f) => return Err(f),
    };
    let fields = match signer_fields(der, &si, oid) {
        Ok(f) => f,
        Err(f) => return Err(f),
    };
    let signed_attrs_for_verify = match fields.signed_attrs {
        Some(t) => {
            let mut rewritten: Vec<u8> = Vec::new();
            rewritten.push(0x31);
            let tail = &der[t.start + 1..t.end];
            let mut k: usize = 0;
            while k < tail.len()
                invariant
                    k <= tail@.len(),
                    rewritten@ == seq![0x31u8] + tail@.take(k as int),
                decreases tail@.len() - k,
            {
                rewritten.push(tail[k]);
                assert(tail@.take(k + 1) =~= tail@.take(k as int).push(tail@[k as int]));
                k = k + 1;
            }
            assert(tail@.take(k as int) =~= tail@);
            Some(rewritten)
        },
        None => None,
    };
    let signature = slice_to_vec(&der[fields.signature.value_start..fields.signature.end]);
    let (certificate, public_key, cert_not_before, cert_not_after) = match certs {
        Some(blob) => parse_first_cert(der, blob.value_start, blob.end),
        None => (None, None, None, None),
    };
    Ok(
        ParsedCms {
            certificate,
            public_key,
            message_digest: fields.message_digest,
            digest_algorithm: fields.digest_algorithm,
            signature_algorithm: fields.signature_algorithm,
            signature,
            signed_attrs_for_verify,
            cert_not_before,
            cert_not_after,
        },
    )
}

/// Reads the first signer of a PKCS#7/CMS SignedData blob (padding around
/// the DER object is stripped first).
pub fn parse_signed_data(pkcs7: &[u8]) -> (r: Result<ParsedCms, SigError>)
    ensures
        match spec_cms_layout(spec_trim_der(pkcs7@), message_digest_oid()) {
            Ok(l) => r is Ok && r->Ok_0.read_from(spec_trim_der(pkcs7@), l),
            Err(f) => r is Err && r->Err_0@ == SigErrorView::Cms(spec_fault_message(f)),
        },
{
    let der = trim_der(pkcs7);
    let oid = oid_from_str("1.2.840.113549.1.9.4");
    match read_signed_data(der, oid.as_slice()) {
        Ok(p) => Ok(p),
        Err(f) => Err(SigError::Cms(fault_message(f))),
    }
}

} // verus!
