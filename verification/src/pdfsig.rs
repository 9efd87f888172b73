//! Recognition of signature dictionaries in a PDF object graph and the
//! checks on the bytes they cover.

use vstd::prelude::*;
use crate::crypto::{sha1, sha1_of, sha256, sha256_of};
use crate::cms::{message_digest_oid, spec_cms_layout, spec_fault_message};
use crate::der::spec_trim_der;
use crate::pdf::{deref_dict, deref_dict_of, dict_get, get_object, PdfDict, PdfModel, PdfObject};
use crate::sign::{
    opt_range, opt_text, sig_error_text, PdfAnalysis, SigErrorView, SignatureInfo,
    SignatureInfoView, SignatureStatus,
};
use crate::verify::{spec_cms_report, verify_cms};
use crate::text::{
    char_width, chars_vec, lemma_encode_utf8_concat, lemma_encode_utf8_prefix, lemma_encode_utf8_push,
    lossy_text, push_char, push_str, string_of, utf8_lossy, utf8_width,
};
use vstd::utf8::encode_utf8;
use crate::cms::bytes_eq;
use vstd::slice::slice_to_vec;
use vstd::string::{StrSliceExecFns, StringSliceAdditionalSpecFns};

verus! {

/// Text of a name object.
pub open spec fn spec_name_of(o: PdfObject) -> Option<Seq<char>> {
    match o {
        PdfObject::Name(n) => Some(utf8_lossy(n@)),
        _ => None,
    }
}

/// Text of a name object.
pub fn name_of(o: &PdfObject) -> (r: Option<String>)
    ensures
        match spec_name_of(*o) {
            Some(t) => r is Some && r->Some_0@ == t,
            None => r is None,
        },
{
    match o {
        PdfObject::Name(n) => Some(lossy_text(n.as_slice())),
        _ => None,
    }
}

/// Text of a string or name object.
pub open spec fn spec_string_of(o: Option<PdfObject>) -> Option<Seq<char>> {
    match o {
        Some(PdfObject::Str(s)) => Some(utf8_lossy(s@)),
        Some(PdfObject::Name(n)) => Some(utf8_lossy(n@)),
        _ => None,
    }
}

/// Text of a string or name object.
pub fn string_of_object(o: Option<&PdfObject>) -> (r: Option<String>)
    ensures
        match spec_string_of(
            match o {
                Some(x) => Some(*x),
                None => None,
            },
        ) {
            Some(t) => r is Some && r->Some_0@ == t,
            None => r is None,
        },
{
    match o {
        Some(PdfObject::Str(s)) => Some(lossy_text(s.as_slice())),
        Some(PdfObject::Name(n)) => Some(lossy_text(n.as_slice())),
        _ => None,
    }
}

/// The text that the entry `key` of `d` holds as a string or a name.
pub open spec fn entry_text(d: PdfDict, key: &str) -> Option<Seq<char>> {
    spec_string_of(dict_get(d, key.spec_bytes()))
}

/// The name that the entry `key` of `d` holds.
pub open spec fn entry_name(d: PdfDict, key: &str) -> Option<Seq<char>> {
    match dict_get(d, key.spec_bytes()) {
        Some(o) => spec_name_of(o),
        None => None,
    }
}

pub fn text_entry(d: &PdfDict, key: &str) -> (r: Option<String>)
    ensures
        match entry_text(*d, key) {
            Some(t) => r is Some && r->Some_0@ == t,
            None => r is None,
        },
{
    string_of_object(d.get(key.as_bytes()))
}

pub fn name_entry(d: &PdfDict, key: &str) -> (r: Option<String>)
    ensures
        match entry_name(*d, key) {
            Some(t) => r is Some && r->Some_0@ == t,
            None => r is None,
        },
{
    match d.get(key.as_bytes()) {
        Some(o) => name_of(o),
        None => None,
    }
}

/// The bytes of the `/Contents` string.
pub open spec fn spec_contents(d: PdfDict) -> Option<Seq<u8>> {
    match dict_get(d, "Contents".spec_bytes()) {
        Some(PdfObject::Str(s)) => Some(s@),
        _ => None,
    }
}

/// The bytes of the `/Contents` string.
pub fn contents_bytes(d: &PdfDict) -> (r: Option<Vec<u8>>)
    ensures
        match spec_contents(*d) {
            Some(c) => r is Some && r->Some_0@ == c,
            None => r is None,
        },
{
    match d.get("Contents".as_bytes()) {
        Some(PdfObject::Str(s)) => Some(slice_to_vec(s.as_slice())),
        _ => None,
    }
}

/// A number of a `/ByteRange`: an integer, or a real as `as i64` makes it.
pub open spec fn spec_number(o: PdfObject) -> Option<i64> {
    match o {
        PdfObject::Integer(n) => Some(n),
        PdfObject::Real(n) => Some(n),
        _ => None,
    }
}

/// `/ByteRange` when it is an array of exactly four numbers.
pub open spec fn spec_byte_range(d: PdfDict) -> Option<Seq<i64>> {
    match dict_get(d, "ByteRange".spec_bytes()) {
        Some(PdfObject::Array(items)) => if items@.len() == 4 && spec_number(items@[0]) is Some
            && spec_number(items@[1]) is Some && spec_number(items@[2]) is Some && spec_number(
            items@[3],
        ) is Some {
            Some(
                seq![
                    spec_number(items@[0])->Some_0,
                    spec_number(items@[1])->Some_0,
                    spec_number(items@[2])->Some_0,
                    spec_number(items@[3])->Some_0,
                ],
            )
        } else {
            None
        },
        _ => None,
    }
}

fn number(o: &PdfObject) -> (r: Option<i64>)
    ensures
        r == spec_number(*o),
{
    match o {
        PdfObject::Integer(n) => Some(*n),
        PdfObject::Real(n) => Some(*n),
        _ => None,
    }
}

/// `/ByteRange` when it is an array of exactly four numbers.
pub fn parse_byte_range(d: &PdfDict) -> (r: Option<[i64; 4]>)
    ensures
        match spec_byte_range(*d) {
            Some(br) => r is Some && r->Some_0@ == br,
            None => r is None,
        },
{
    let items = match d.get("ByteRange".as_bytes()) {
        Some(PdfObject::Array(items)) => items,
        _ => return None,
    };
    if items.len() != 4 {
        return None;
    }
    let n0 = match number(&items[0]) {
        Some(n) => n,
        None => return None,
    };
    let n1 = match number(&items[1]) {
        Some(n) => n,
        None => return None,
    };
    let n2 = match number(&items[2]) {
        Some(n) => n,
        None => return None,
    };
    let n3 = match number(&items[3]) {
        Some(n) => n,
        None => return None,
    };
    let out = [n0, n1, n2, n3];
    assert(out@ =~= seq![n0, n1, n2, n3]);
    Some(out)
}

/// A dictionary looks like a signature dictionary when its `/Type` is the
/// name `Sig`, or, failing that, when it has both `/ByteRange` and
/// `/Contents`.
pub open spec fn spec_looks_like_sig_dict(d: PdfDict) -> bool {
    match entry_name(d, "Type") {
        Some(name) if name == "Sig"@ => true,
        _ => dict_get(d, "ByteRange".spec_bytes()) is Some && dict_get(
            d,
            "Contents".spec_bytes(),
        ) is Some,
    }
}

/// Whether a dictionary looks like a signature dictionary.
pub fn looks_like_sig_dict(d: &PdfDict) -> (r: bool)
    ensures
        r == spec_looks_like_sig_dict(*d),
{
    match name_entry(d, "Type") {
        Some(name) => {
            if name == string_of("Sig") {
                return true;
            }
        },
        None => {},
    }
    d.has("ByteRange".as_bytes()) && d.has("Contents".as_bytes())
}

/// Byte offsets of a range as `as usize` gives them.
pub open spec fn offsets(br: Seq<i64>) -> (int, int, int, int) {
    (br[0] as usize as int, br[1] as usize as int, br[2] as usize as int, br[3] as usize as int)
}

/// Bytes that may follow a signed range: space, LF, CR, tab, NUL, form feed.
pub open spec fn is_padding(b: u8) -> bool {
    b == 32 || b == 10 || b == 13 || b == 9 || b == 0 || b == 12
}

/// A byte range `[a, b, c, d]` covers the whole document when it starts at
/// zero, both parts lie in the file, the gap between them is the hex string
/// `<...>` of the signature, and nothing but padding follows the second
/// part.
pub open spec fn spec_covers(bytes: Seq<u8>, br: Seq<i64>) -> bool {
    let (a, b, c, d) = offsets(br);
    if a != 0 || a + b > bytes.len() || c + d > bytes.len() || a + b > c {
        false
    } else {
        let gap = bytes.subrange(a + b, c);
        &&& gap.len() > 0
        &&& gap[0] == 60
        &&& gap.last() == 62
        &&& forall|i: int| c + d <= i < bytes.len() ==> is_padding(#[trigger] bytes[i])
    }
}

/// Whether the byte range covers the whole document.
pub fn covers_whole_document(bytes: &[u8], br: [i64; 4]) -> (r: bool)
    ensures
        r == spec_covers(bytes@, br@),
{
    let a = #[verifier::truncate] (br[0] as usize);
    let b = #[verifier::truncate] (br[1] as usize);
    let c = #[verifier::truncate] (br[2] as usize);
    let d = #[verifier::truncate] (br[3] as usize);
    let len = bytes.len();
    if a != 0 || b > len || c > len || d > len - c || b > c {
        return false;
    }
    let ghost gap = bytes@.subrange(b as int, c as int);
    if b == c || bytes[b] != 60 || bytes[c - 1] != 62 {
        assert(b < c ==> gap[0] == bytes@[b as int] && gap.last() == bytes@[c - 1]);
        return false;
    }
    assert(gap[0] == bytes@[b as int] && gap.last() == bytes@[c - 1]);
    let mut i = c + d;
    while i < len
        invariant
            c + d <= i <= len == bytes@.len(),
            spec_covers(bytes@, br@) == (forall|j: int|
                c + d <= j < bytes@.len() ==> is_padding(#[trigger] bytes@[j])),
            forall|j: int| c + d <= j < i ==> is_padding(#[trigger] bytes@[j]),
        decreases len - i,
    {
        let x = bytes[i];
        if !(x == 32 || x == 10 || x == 13 || x == 9 || x == 0 || x == 12) {
            assert(!is_padding(bytes@[i as int]));
            return false;
        }
        i = i + 1;
    }
    true
}

/// The bytes that a range covers: `[a, a + b)` then `[c, c + d)`, each end
/// clamped to the file.
pub open spec fn covered_bytes(bytes: Seq<u8>, br: Seq<i64>) -> Seq<u8> {
    let (a, b, c, d) = offsets(br);
    let len = bytes.len() as int;
    let start = if a < len { a } else { len };
    let mid = if a + b < len { a + b } else { len };
    let second = if c < len { c } else { len };
    let end = if c + d < len { c + d } else { len };
    bytes.subrange(start, mid) + bytes.subrange(second, end)
}

fn covered(bytes: &[u8], br: [i64; 4]) -> (r: Vec<u8>)
    ensures
        r@ == covered_bytes(bytes@, br@),
{
    let a = #[verifier::truncate] (br[0] as usize);
    let b = #[verifier::truncate] (br[1] as usize);
    let c = #[verifier::truncate] (br[2] as usize);
    let d = #[verifier::truncate] (br[3] as usize);
    let len = bytes.len();
    let start = if a < len { a } else { len };
    let mid = if b < len && a < len - b { a + b } else { len };
    let second = if c < len { c } else { len };
    let end = if d < len && c < len - d { c + d } else { len };
    let mut out = slice_to_vec(&bytes[start..mid]);
    let tail = &bytes[second..end];
    let mut i: usize = 0;
    let ghost first = out@;
    while i < tail.len()
        invariant
            i <= tail@.len(),
            out@ == first + tail@.take(i as int),
        decreases tail@.len() - i,
    {
        out.push(tail[i]);
        assert(tail@.take(i + 1) =~= tail@.take(i as int).push(tail@[i as int]));
        i = i + 1;
    }
    assert(tail@.take(i as int) =~= tail@);
    out
}

/// SHA-256 of the bytes a range covers.
pub fn hash_byte_range_sha256(bytes: &[u8], br: [i64; 4]) -> (r: Vec<u8>)
    ensures
        r@ == sha256_of(covered_bytes(bytes@, br@)),
{
    let data = covered(bytes, br);
    sha256(data.as_slice())
}

/// SHA-1 of the bytes a range covers.
pub fn hash_byte_range_sha1(bytes: &[u8], br: [i64; 4]) -> (r: Vec<u8>)
    ensures
        r@ == sha1_of(covered_bytes(bytes@, br@)),
{
    let data = covered(bytes, br);
    sha1(data.as_slice())
}

/// The bytes of `s` before its `j`-th character, in UTF-8.
pub open spec fn byte_off(s: Seq<char>, j: int) -> int {
    encode_utf8(s.take(j)).len() as int
}

/// The index of the character that starts at byte `k` of `s` (the length,
/// at its end), when byte `k` lies on a character boundary.
pub open spec fn char_at_byte(s: Seq<char>, k: int) -> Option<int> {
    if exists|j: int| 0 <= j <= s.len() && byte_off(s, j) == k {
        Some(choose|j: int| 0 <= j <= s.len() && byte_off(s, j) == k)
    } else {
        None
    }
}

/// `D:YYYYMMDDHHmmSS...` as `YYYY-MM-DD HH:mm:SS`, cut at bytes 4, 6, 8,
/// 10, 12 and 14 of the text after the optional `D:`. The text is kept as
/// it is when it has fewer than 14 bytes there, or when a cut falls inside
/// a character.
pub open spec fn spec_format_pdf_date(raw: Seq<char>) -> Seq<char> {
    let s = if raw.len() >= 2 && raw[0] == 'D' && raw[1] == ':' {
        raw.skip(2)
    } else {
        raw
    };
    match (
        char_at_byte(s, 4),
        char_at_byte(s, 6),
        char_at_byte(s, 8),
        char_at_byte(s, 10),
        char_at_byte(s, 12),
        char_at_byte(s, 14),
    ) {
        (Some(a), Some(b), Some(c), Some(d), Some(e), Some(f)) => s.subrange(0, a) + "-"@ + s.subrange(
            a,
            b,
        ) + "-"@ + s.subrange(b, c) + " "@ + s.subrange(c, d) + ":"@ + s.subrange(d, e) + ":"@
            + s.subrange(e, f),
        _ => raw,
    }
}

proof fn lemma_byte_off_step(s: Seq<char>, j: int)
    requires
        0 <= j < s.len(),
    ensures
        byte_off(s, j + 1) == byte_off(s, j) + utf8_width(s[j]),
        utf8_width(s[j]) >= 1,
{
    assert(s.take(j + 1) =~= s.take(j).push(s[j]));
    lemma_encode_utf8_push(s.take(j), s[j]);
}

proof fn lemma_byte_off_mono(s: Seq<char>, a: int, b: int)
    requires
        0 <= a < b <= s.len(),
    ensures
        byte_off(s, a) < byte_off(s, b),
    decreases b - a,
{
    lemma_byte_off_step(s, b - 1);
    if a < b - 1 {
        lemma_byte_off_mono(s, a, b - 1);
    }
}

/// Cuts at increasing bytes fall at increasing characters.
proof fn lemma_char_at_byte_order(s: Seq<char>, k1: int, k2: int)
    requires
        k1 < k2,
        char_at_byte(s, k1) is Some,
        char_at_byte(s, k2) is Some,
    ensures
        char_at_byte(s, k1)->0 < char_at_byte(s, k2)->0,
        0 <= char_at_byte(s, k1)->0,
        char_at_byte(s, k2)->0 <= s.len(),
{
    let a = char_at_byte(s, k1)->0;
    let b = char_at_byte(s, k2)->0;
    if b <= a {
        if b < a {
            lemma_byte_off_mono(s, b, a);
        }
    }
}

/// Where byte `k` falls among the characters of `cs`.
fn char_at_byte_exec(cs: &Vec<char>, k: usize) -> (r: Option<usize>)
    requires
        encode_utf8(cs@).len() <= usize::MAX,
    ensures
        match char_at_byte(cs@, k as int) {
            Some(j) => r == Some(j as usize),
            None => r is None,
        },
{
    let mut j: usize = 0;
    let mut off: usize = 0;
    assert(cs@.take(0) =~= Seq::<char>::empty());
    while j < cs.len() && off < k
        invariant
            j <= cs@.len(),
            off == byte_off(cs@, j as int),
            forall|i: int| 0 <= i < j ==> byte_off(cs@, i) < k,
            encode_utf8(cs@).len() <= usize::MAX,
        decreases cs@.len() - j,
    {
        proof {
            lemma_byte_off_step(cs@, j as int);
            lemma_encode_utf8_prefix(cs@, j + 1);
        }
        off = off + char_width(cs[j]);
        j = j + 1;
    }
    if off == k {
        proof {
            let w = choose|i: int| 0 <= i <= cs@.len() && byte_off(cs@, i) == k;
            if w < j {
                lemma_byte_off_mono(cs@, w, j as int);
            } else if w > j {
                lemma_byte_off_mono(cs@, j as int, w);
            }
        }
        Some(j)
    } else {
        proof {
            assert forall|i: int| 0 <= i <= cs@.len() implies byte_off(cs@, i) != k by {
                if i > j {
                    lemma_byte_off_mono(cs@, j as int, i);
                }
            }
        }
        None
    }
}

/// Appends the characters `a..b` of `cs`.
fn push_chars(out: &mut String, cs: &Vec<char>, a: usize, b: usize)
    requires
        a <= b <= cs@.len(),
    ensures
        final(out)@ == old(out)@ + cs@.subrange(a as int, b as int),
{
    let mut i: usize = a;
    while i < b
        invariant
            a <= i <= b <= cs@.len(),
            out@ == old(out)@ + cs@.subrange(a as int, i as int),
        decreases b - i,
    {
        push_char(out, cs[i]);
        assert(cs@.subrange(a as int, i + 1) =~= cs@.subrange(a as int, i as int).push(cs@[i as int]));
        i = i + 1;
    }
}

/// Formats a PDF date for display.
pub fn format_pdf_date(raw: &str) -> (r: String)
    ensures
        r@ == spec_format_pdf_date(raw@),
{
    let all = chars_vec(raw);
    let total = raw.as_bytes().len();
    let skip: usize = if all.len() >= 2 && all[0] == 'D' && all[1] == ':' {
        2
    } else {
        0
    };
    let mut cs: Vec<char> = Vec::new();
    let mut i: usize = skip;
    while i < all.len()
        invariant
            skip <= i <= all@.len(),
            cs@ == all@.subrange(skip as int, i as int),
        decreases all@.len() - i,
    {
        cs.push(all[i]);
        assert(all@.subrange(skip as int, i + 1) =~= all@.subrange(skip as int, i as int).push(all@[i as int]));
        i = i + 1;
    }
    proof {
        let s = all@.skip(skip as int);
        assert(cs@ =~= s);
        assert(all@ =~= all@.take(skip as int) + s);
        lemma_encode_utf8_concat(all@.take(skip as int), s);
        assert(skip == 0 ==> s =~= raw@);
    }
    let c4 = char_at_byte_exec(&cs, 4);
    let c6 = char_at_byte_exec(&cs, 6);
    let c8 = char_at_byte_exec(&cs, 8);
    let c10 = char_at_byte_exec(&cs, 10);
    let c12 = char_at_byte_exec(&cs, 12);
    let c14 = char_at_byte_exec(&cs, 14);
    match (c4, c6, c8, c10, c12, c14) {
        (Some(a), Some(b), Some(c), Some(d), Some(e), Some(f)) => {
            proof {
                lemma_char_at_byte_order(cs@, 4, 6);
                lemma_char_at_byte_order(cs@, 6, 8);
                lemma_char_at_byte_order(cs@, 8, 10);
                lemma_char_at_byte_order(cs@, 10, 12);
                lemma_char_at_byte_order(cs@, 12, 14);
            }
            let mut out = String::new();
            push_chars(&mut out, &cs, 0, a);
            push_str(&mut out, "-");
            push_chars(&mut out, &cs, a, b);
            push_str(&mut out, "-");
            push_chars(&mut out, &cs, b, c);
            push_str(&mut out, " ");
            push_chars(&mut out, &cs, c, d);
            push_str(&mut out, ":");
            push_chars(&mut out, &cs, d, e);
            push_str(&mut out, ":");
            push_chars(&mut out, &cs, e, f);
            proof {
                assert(Seq::<char>::empty() + cs@.subrange(0, a as int) =~= cs@.subrange(0, a as int));
            }
            out
        },
        _ => string_of(raw),
    }
}

/// The report on a signature whose CMS blob could not be read.
pub open spec fn fallback_report(
    d: PdfDict,
    br: Option<Seq<i64>>,
    covers: bool,
    detail: Seq<char>,
) -> SignatureInfoView {
    SignatureInfoView {
        field_name: None,
        signer_name: entry_text(d, "Name"),
        reason: entry_text(d, "Reason"),
        location: entry_text(d, "Location"),
        contact_info: entry_text(d, "ContactInfo"),
        signing_time: entry_text(d, "M"),
        filter: entry_name(d, "Filter"),
        sub_filter: entry_name(d, "SubFilter"),
        byte_range: br,
        covers_whole_document: covers,
        status: SignatureStatus::Invalid,
        status_detail: detail,
        certificate: None,
        digest_algorithm: None,
        signature_algorithm: None,
    }
}

/// Whether the byte range of `d` covers the whole document.
pub open spec fn dict_covers(d: PdfDict, bytes: Seq<u8>) -> bool {
    match spec_byte_range(d) {
        Some(r) => spec_covers(bytes, r),
        None => false,
    }
}

/// The CMS report on the `/Contents` blob `contents` of `d`, checked against
/// the digests of the byte range; the fallback report when the blob cannot
/// be read.
pub open spec fn spec_cms_result(d: PdfDict, bytes: Seq<u8>, contents: Seq<u8>) -> SignatureInfoView {
    let br = spec_byte_range(d);
    let sha256 = match br {
        Some(r) => Some(sha256_of(covered_bytes(bytes, r))),
        None => None,
    };
    let sha1 = match br {
        Some(r) => Some(sha1_of(covered_bytes(bytes, r))),
        None => None,
    };
    let der = spec_trim_der(contents);
    match spec_cms_layout(der, message_digest_oid()) {
        Ok(l) => spec_cms_report(der, l, sha256, sha1),
        Err(f) => fallback_report(
            d,
            br,
            dict_covers(d, bytes),
            sig_error_text(SigErrorView::Cms(spec_fault_message(f))),
        ),
    }
}

/// What the signature dictionary adds to a report: the missing text fields,
/// the formatted signing time, its own filter, sub-filter and byte range, and
/// the coverage; a good verdict on a range that leaves bytes out becomes a
/// modified document.
pub open spec fn finish_report(
    info: SignatureInfoView,
    d: PdfDict,
    field_name: Option<Seq<char>>,
    bytes: Seq<u8>,
) -> SignatureInfoView {
    let covers = dict_covers(d, bytes);
    let downgraded = !covers && (info.status == SignatureStatus::Valid || info.status
        == SignatureStatus::IntactButUntrusted);
    SignatureInfoView {
        field_name: if info.field_name is None {
            field_name
        } else {
            info.field_name
        },
        signer_name: if info.signer_name is None {
            entry_text(d, "Name")
        } else {
            info.signer_name
        },
        reason: if info.reason is None {
            entry_text(d, "Reason")
        } else {
            info.reason
        },
        location: if info.location is None {
            entry_text(d, "Location")
        } else {
            info.location
        },
        contact_info: if info.contact_info is None {
            entry_text(d, "ContactInfo")
        } else {
            info.contact_info
        },
        signing_time: match info.signing_time {
            Some(raw) => Some(spec_format_pdf_date(raw)),
            None => match entry_text(d, "M") {
                Some(m) => Some(spec_format_pdf_date(m)),
                None => None,
            },
        },
        filter: match entry_name(d, "Filter") {
            Some(f) => Some(f),
            None => info.filter,
        },
        sub_filter: match entry_name(d, "SubFilter") {
            Some(f) => Some(f),
            None => info.sub_filter,
        },
        byte_range: match spec_byte_range(d) {
            Some(r) => Some(r),
            None => info.byte_range,
        },
        covers_whole_document: covers,
        status: if downgraded {
            SignatureStatus::DocumentModified
        } else {
            info.status
        },
        status_detail: if downgraded {
            "Há bytes no arquivo fora do intervalo assinado. O documento foi alterado depois da assinatura."@
        } else {
            info.status_detail
        },
        certificate: info.certificate,
        digest_algorithm: info.digest_algorithm,
        signature_algorithm: info.signature_algorithm,
    }
}

/// The signature a signature dictionary describes, with its `/Contents`
/// bytes; nothing when it has no `/Contents` string or when those bytes were
/// already reported.
pub open spec fn spec_signature_from_dict(
    d: PdfDict,
    field_name: Option<Seq<char>>,
    bytes: Seq<u8>,
    visited: Seq<Seq<u8>>,
) -> Option<(SignatureInfoView, Seq<u8>)> {
    match spec_contents(d) {
        None => None,
        Some(c) => if visited.contains(c) {
            None
        } else {
            Some((finish_report(spec_cms_result(d, bytes, c), d, field_name, bytes), c))
        },
    }
}

pub open spec fn visited_view(v: Seq<Vec<u8>>) -> Seq<Seq<u8>> {
    v.map_values(|c: Vec<u8>| c@)
}

fn already_seen(visited: &Vec<Vec<u8>>, contents: &[u8]) -> (r: bool)
    ensures
        r == visited_view(visited@).contains(contents@),
{
    let mut i: usize = 0;
    while i < visited.len()
        invariant
            i <= visited@.len(),
            forall|j: int| 0 <= j < i ==> visited@[j]@ != contents@,
        decreases visited@.len() - i,
    {
        if bytes_eq(visited[i].as_slice(), contents) {
            assert(visited_view(visited@)[i as int] == contents@);
            return true;
        }
        i = i + 1;
    }
    proof {
        if visited_view(visited@).contains(contents@) {
            let j = choose|j: int|
                0 <= j < visited_view(visited@).len() && visited_view(visited@)[j] == contents@;
            assert(visited@[j]@ == contents@);
        }
    }
    false
}

fn fallback(d: &PdfDict, br: Option<[i64; 4]>, covers: bool, detail: String) -> (r: SignatureInfo)
    ensures
        r@ == fallback_report(*d, opt_range(br), covers, detail@),
{
    SignatureInfo {
        field_name: None,
        signer_name: text_entry(d, "Name"),
        reason: text_entry(d, "Reason"),
        location: text_entry(d, "Location"),
        contact_info: text_entry(d, "ContactInfo"),
        signing_time: text_entry(d, "M"),
        filter: name_entry(d, "Filter"),
        sub_filter: name_entry(d, "SubFilter"),
        byte_range: br,
        covers_whole_document: covers,
        status: SignatureStatus::Invalid,
        status_detail: detail,
        certificate: None,
        digest_algorithm: None,
        signature_algorithm: None,
    }
}

/// The signature a signature dictionary describes; its `/Contents` bytes
/// join `visited` when it is reported.
pub fn signature_from_dict(
    d: &PdfDict,
    field_name: Option<String>,
    bytes: &[u8],
    visited: &mut Vec<Vec<u8>>,
) -> (r: Option<SignatureInfo>)
    ensures
        match spec_signature_from_dict(*d, opt_text(field_name), bytes@, visited_view(old(visited)@)) {
            Some((info, c)) => r is Some && r->Some_0@ == info && visited_view(final(visited)@)
                == visited_view(old(visited)@).push(c),
            None => r is None && final(visited)@ == old(visited)@,
        },
{
    let contents = match contents_bytes(d) {
        Some(c) => c,
        None => return None,
    };
    if already_seen(visited, contents.as_slice()) {
        return None;
    }
    let seen = slice_to_vec(contents.as_slice());
    visited.push(seen);
    assert(visited_view(visited@) =~= visited_view(old(visited)@).push(contents@));
    let br = parse_byte_range(d);
    let covers = match br {
        Some(r) => covers_whole_document(bytes, r),
        None => false,
    };
    let sha256 = match br {
        Some(r) => Some(hash_byte_range_sha256(bytes, r)),
        None => None,
    };
    let sha1 = match br {
        Some(r) => Some(hash_byte_range_sha1(bytes, r)),
        None => None,
    };
    let sha256_ref: Option<&[u8]> = match &sha256 {
        Some(v) => Some(v.as_slice()),
        None => None,
    };
    let sha1_ref: Option<&[u8]> = match &sha1 {
        Some(v) => Some(v.as_slice()),
        None => None,
    };
    let mut info = match verify_cms(contents.as_slice(), sha256_ref, sha1_ref) {
        Ok(info) => info,
        Err(e) => fallback(d, br, covers, e.message()),
    };
    let ghost base = info@;
    if info.field_name.is_none() {
        info.field_name = field_name;
    }
    if info.signer_name.is_none() {
        info.signer_name = text_entry(d, "Name");
    }
    if info.reason.is_none() {
        info.reason = text_entry(d, "Reason");
    }
    if info.location.is_none() {
        info.location = text_entry(d, "Location");
    }
    if info.contact_info.is_none() {
        info.contact_info = text_entry(d, "ContactInfo");
    }
    let signing_time = match &info.signing_time {
        Some(raw) => Some(format_pdf_date(raw.as_str())),
        None => match text_entry(d, "M") {
            Some(m) => Some(format_pdf_date(m.as_str())),
            None => None,
        },
    };
    info.signing_time = signing_time;
    match name_entry(d, "Filter") {
        Some(f) => info.filter = Some(f),
        None => {},
    }
    match name_entry(d, "SubFilter") {
        Some(f) => info.sub_filter = Some(f),
        None => {},
    }
    match br {
        Some(r) => info.byte_range = Some(r),
        None => {},
    }
    info.covers_whole_document = covers;
    if !covers && (info.status == SignatureStatus::Valid || info.status
        == SignatureStatus::IntactButUntrusted) {
        info.status = SignatureStatus::DocumentModified;
        info.status_detail = string_of(
            "Há bytes no arquivo fora do intervalo assinado. O documento foi alterado depois da assinatura.",
        );
    }
    assert(base == spec_cms_result(*d, bytes@, contents@));
    Some(info)
}

/// The signature a form field of type `/Sig` holds in its `/V` value.
pub open spec fn spec_signature_from_field(
    m: PdfModel,
    field: PdfDict,
    bytes: Seq<u8>,
    visited: Seq<Seq<u8>>,
) -> Option<(SignatureInfoView, Seq<u8>)> {
    match entry_name(field, "FT") {
        Some(ft) if ft == "Sig"@ => match dict_get(field, "V".spec_bytes()) {
            Some(v) => match deref_dict(m, v) {
                Some(d) => spec_signature_from_dict(d, entry_text(field, "T"), bytes, visited),
                None => None,
            },
            None => None,
        },
        _ => None,
    }
}

/// The signature a form field of type `/Sig` holds in its `/V` value.
pub fn signature_from_field(
    m: &PdfModel,
    field: &PdfDict,
    bytes: &[u8],
    visited: &mut Vec<Vec<u8>>,
) -> (r: Option<SignatureInfo>)
    ensures
        match spec_signature_from_field(*m, *field, bytes@, visited_view(old(visited)@)) {
            Some((info, c)) => r is Some && r->Some_0@ == info && visited_view(final(visited)@)
                == visited_view(old(visited)@).push(c),
            None => r is None && final(visited)@ == old(visited)@,
        },
{
    let ft = match name_entry(field, "FT") {
        Some(n) => n,
        None => return None,
    };
    if ft != string_of("Sig") {
        return None;
    }
    let field_name = text_entry(field, "T");
    let value = match field.get("V".as_bytes()) {
        Some(v) => v,
        None => return None,
    };
    let d = match deref_dict_of(m, value) {
        Some(d) => d,
        None => return None,
    };
    signature_from_dict(d, field_name, bytes, visited)
}

/// One object's contribution: a signature field first, else a bare
/// signature dictionary.
pub open spec fn object_step(
    m: PdfModel,
    o: PdfObject,
    bytes: Seq<u8>,
    visited: Seq<Seq<u8>>,
) -> Option<(SignatureInfoView, Seq<u8>)> {
    match o {
        PdfObject::Dictionary(d) => match spec_signature_from_field(m, d, bytes, visited) {
            Some(found) => Some(found),
            None => if spec_looks_like_sig_dict(d) {
                spec_signature_from_dict(d, None, bytes, visited)
            } else {
                None
            },
        },
        _ => None,
    }
}

/// The signatures found in the first `k` objects, with the `/Contents`
/// blobs reported so far.
pub open spec fn scan_signatures(m: PdfModel, bytes: Seq<u8>, k: int) -> (
    Seq<SignatureInfoView>,
    Seq<Seq<u8>>,
)
    decreases k,
{
    if k <= 0 {
        (Seq::empty(), Seq::empty())
    } else {
        let (sigs, visited) = scan_signatures(m, bytes, k - 1);
        match object_step(m, m.objects@[k - 1].2, bytes, visited) {
            Some((info, c)) => (sigs.push(info), visited.push(c)),
            None => (sigs, visited),
        }
    }
}

/// Whether the catalog (`/Root` of the trailer, a reference to a
/// dictionary) has an `/AcroForm` entry.
pub open spec fn spec_has_acro_form(m: PdfModel) -> bool {
    match dict_get(m.trailer, "Root".spec_bytes()) {
        Some(PdfObject::Reference(n, g)) => match get_object(m, (n, g)) {
            Some(PdfObject::Dictionary(cat)) => dict_get(cat, "AcroForm".spec_bytes()) is Some,
            _ => false,
        },
        _ => false,
    }
}

pub struct PdfAnalysisView {
    pub page_count_hint: Option<u32>,
    pub has_acro_form: bool,
    pub signatures: Seq<SignatureInfoView>,
}

impl View for PdfAnalysis {
    type V = PdfAnalysisView;

    open spec fn view(&self) -> PdfAnalysisView {
        PdfAnalysisView {
            page_count_hint: self.page_count_hint,
            has_acro_form: self.has_acro_form,
            signatures: self.signatures@.map_values(|s: SignatureInfo| s@),
        }
    }
}

/// What a document model says of its signatures.
pub open spec fn spec_analyze_model(m: PdfModel, bytes: Seq<u8>) -> PdfAnalysisView {
    PdfAnalysisView {
        page_count_hint: Some(m.page_count as u32),
        has_acro_form: spec_has_acro_form(m),
        signatures: scan_signatures(m, bytes, m.objects@.len() as int).0,
    }
}

fn has_acro_form(m: &PdfModel) -> (r: bool)
    ensures
        r == spec_has_acro_form(*m),
{
    match m.trailer.get("Root".as_bytes()) {
        Some(PdfObject::Reference(n, g)) => match m.get_object(*n, *g) {
            Some(PdfObject::Dictionary(cat)) => cat.has("AcroForm".as_bytes()),
            _ => false,
        },
        _ => false,
    }
}

/// Finds and checks the signatures of a document model whose file bytes are
/// `bytes`.
pub fn analyze_model(m: &PdfModel, bytes: &[u8]) -> (r: PdfAnalysis)
    ensures
        r@ == spec_analyze_model(*m, bytes@),
{
    let mut signatures: Vec<SignatureInfo> = Vec::new();
    let mut visited: Vec<Vec<u8>> = Vec::new();
    let mut k: usize = 0;
    while k < m.objects.len()
        invariant
            k <= m.objects@.len(),
            scan_signatures(*m, bytes@, k as int) == (
                signatures@.map_values(|s: SignatureInfo| s@),
                visited_view(visited@),
            ),
        decreases m.objects@.len() - k,
    {
        let ghost before = visited_view(visited@);
        let ghost sigs_before = signatures@;
        let found = match &m.objects[k].2 {
            PdfObject::Dictionary(d) => match signature_from_field(m, d, bytes, &mut visited) {
                Some(info) => Some(info),
                None => if looks_like_sig_dict(d) {
                    signature_from_dict(d, None, bytes, &mut visited)
                } else {
                    None
                },
            },
            _ => None,
        };
        match found {
            Some(info) => {
                signatures.push(info);
            },
            None => {},
        }
        proof {
            assert(signatures@.map_values(|s: SignatureInfo| s@) =~= match found {
                Some(info) => sigs_before.map_values(|s: SignatureInfo| s@).push(info@),
                None => sigs_before.map_values(|s: SignatureInfo| s@),
            });
        }
        k = k + 1;
    }
    let page_count_hint = Some(#[verifier::truncate] (m.page_count as u32));
    PdfAnalysis { page_count_hint, has_acro_form: has_acro_form(m), signatures }
}

/// A status that calls the signed document whole.
pub open spec fn reads_whole(s: SignatureStatus) -> bool {
    s == SignatureStatus::Valid || s == SignatureStatus::IntactButUntrusted
}

/// A signature whose byte range leaves bytes of the file out is never
/// reported valid or intact: the report says whether the range covers the
/// whole file, and when it does not, a verdict of valid or intact from the
/// CMS check becomes a modified document.
pub proof fn law_uncovered_signature_is_modified(
    d: PdfDict,
    field_name: Option<Seq<char>>,
    bytes: Seq<u8>,
    visited: Seq<Seq<u8>>,
)
    ensures
        match spec_signature_from_dict(d, field_name, bytes, visited) {
            Some((info, c)) => {
                &&& info.covers_whole_document == (spec_byte_range(d) matches Some(r) && spec_covers(
                    bytes,
                    r,
                ))
                &&& !info.covers_whole_document ==> !reads_whole(info.status)
                &&& !info.covers_whole_document && reads_whole(spec_cms_result(d, bytes, c).status)
                    ==> info.status == SignatureStatus::DocumentModified
                &&& info.covers_whole_document ==> info.status == spec_cms_result(d, bytes, c).status
            },
            None => true,
        },
{
}

proof fn lemma_scan_uncovered(m: PdfModel, bytes: Seq<u8>, k: int)
    ensures
        forall|i: int|
            0 <= i < scan_signatures(m, bytes, k).0.len() && !(#[trigger] scan_signatures(m, bytes, k).0[i]).covers_whole_document
                ==> !reads_whole(scan_signatures(m, bytes, k).0[i].status),
    decreases k,
{
    if k > 0 {
        lemma_scan_uncovered(m, bytes, k - 1);
        let (sigs, visited) = scan_signatures(m, bytes, k - 1);
        let o = m.objects@[k - 1].2;
        if let PdfObject::Dictionary(d) = o {
            law_uncovered_signature_is_modified(d, None, bytes, visited);
            match entry_name(d, "FT") {
                Some(ft) => if ft == "Sig"@ {
                    match dict_get(d, "V".spec_bytes()) {
                        Some(v) => match deref_dict(m, v) {
                            Some(vd) => law_uncovered_signature_is_modified(
                                vd,
                                entry_text(d, "T"),
                                bytes,
                                visited,
                            ),
                            None => {},
                        },
                        None => {},
                    }
                },
                None => {},
            }
        }
        let r = scan_signatures(m, bytes, k).0;
        assert forall|i: int|
            0 <= i < r.len() && !(#[trigger] r[i]).covers_whole_document implies !reads_whole(r[i].status) by {
            if i < sigs.len() {
                assert(r[i] == sigs[i]);
            }
        }
    }
}

/// No signature that a file's analysis reports as valid or intact leaves
/// bytes of the file outside its signed range.
pub proof fn law_analysis_uncovered_not_whole(m: PdfModel, bytes: Seq<u8>)
    ensures
        forall|i: int|
            0 <= i < spec_analyze_model(m, bytes).signatures.len() && !(
            #[trigger] spec_analyze_model(m, bytes).signatures[i]).covers_whole_document ==> !reads_whole(
                spec_analyze_model(m, bytes).signatures[i].status,
            ),
{
    lemma_scan_uncovered(m, bytes, m.objects@.len() as int);
}

} // verus!
