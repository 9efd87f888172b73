//! Lenient DER TLV walking.
//!
//! A TLV is described by offsets into one byte buffer: where it starts, where
//! its value starts and where it ends. Children of a constructed TLV are read
//! from its value region, one after the other, without checking SET ordering.

use vstd::prelude::*;

verus! {

/// Big-endian unsigned value of a byte sequence.
pub open spec fn be_value(s: Seq<u8>) -> nat
    decreases s.len(),
{
    if s.len() == 0 {
        0
    } else {
        be_value(s.drop_last()) * 256 + s.last() as nat
    }
}

/// `256` raised to `n`.
pub open spec fn pow256(n: nat) -> nat
    decreases n,
{
    if n == 0 {
        1
    } else {
        pow256((n - 1) as nat) * 256
    }
}

pub proof fn lemma_be_value_bound(s: Seq<u8>)
    ensures
        be_value(s) < pow256(s.len()),
    decreases s.len(),
{
    if s.len() > 0 {
        lemma_be_value_bound(s.drop_last());
    }
}

proof fn lemma_pow256_small()
    ensures
        pow256(0) == 1,
        pow256(1) == 256,
        pow256(2) == 65536,
        pow256(3) == 16777216,
        pow256(4) == 4294967296,
{
    reveal_with_fuel(pow256, 5);
}

/// Why a walk over DER / CMS bytes stopped.
#[derive(Debug, Clone, Copy, PartialEq, Eq, Structural)]
pub enum CmsFault {
    /// Fewer than two bytes left for a tag and a length.
    ShortTlv,
    /// Long-form length with zero or more than four length bytes, or cut short.
    BadLength,
    /// The declared length runs past the available bytes.
    Truncated,
    /// A TLV has another tag than the structure requires.
    UnexpectedTag { context: TagContext, expected: u8, found: u8 },
    ContentInfoIncomplete,
    SignedDataIncomplete,
    SignerInfosMissing,
    NoSignerInfo,
    SignerInfoIncomplete,
    AlgorithmWithoutOid,
    SignatureAlgorithmMissing,
    SignatureMissing,
}

/// The structure whose tag is checked.
#[derive(Debug, Clone, Copy, PartialEq, Eq, Structural)]
pub enum TagContext {
    ContentInfo,
    SignedData,
    SignerInfo,
    Signature,
}

/// One TLV inside a buffer: `[start, value_start)` holds tag and length,
/// `[value_start, end)` holds the value.
#[derive(Debug, Clone, Copy, PartialEq, Eq, Structural)]
pub struct Tlv {
    pub tag: u8,
    pub start: usize,
    pub value_start: usize,
    pub end: usize,
}

/// Length of the header and of the value of the TLV that starts at `pos`,
/// reading no byte at or beyond `end`.
pub open spec fn spec_read_tlv(d: Seq<u8>, pos: int, end: int) -> Result<Tlv, CmsFault> {
    let avail = end - pos;
    if avail < 2 {
        Err(CmsFault::ShortTlv)
    } else {
        let b1 = d[pos + 1];
        let header: Result<(int, int), CmsFault> = if b1 < 0x80 {
            Ok((2int, b1 as int))
        } else {
            let n = b1 - 0x80;
            if n == 0 || n > 4 || avail < 2 + n {
                Err(CmsFault::BadLength)
            } else {
                Ok((2 + n, be_value(d.subrange(pos + 2, pos + 2 + n)) as int))
            }
        };
        match header {
            Err(f) => Err(f),
            Ok((hlen, vlen)) => if avail < hlen + vlen {
                Err(CmsFault::Truncated)
            } else {
                Ok(
                    Tlv {
                        tag: d[pos],
                        start: pos as usize,
                        value_start: (pos + hlen) as usize,
                        end: (pos + hlen + vlen) as usize,
                    },
                )
            },
        }
    }
}

pub proof fn lemma_read_tlv_placed(d: Seq<u8>, pos: int, end: int)
    requires
        0 <= pos <= end <= usize::MAX,
    ensures
        spec_read_tlv(d, pos, end) matches Ok(t) ==> t.start == pos && pos + 2 <= t.value_start
            <= t.end <= end && t.tag == d[pos],
{
}

/// The TLVs that follow one another in `[pos, end)`.
pub open spec fn spec_children(d: Seq<u8>, pos: int, end: int) -> Result<Seq<Tlv>, CmsFault>
    decreases end - pos when 0 <= pos && end <= usize::MAX
{
    if pos >= end {
        Ok(Seq::empty())
    } else {
        proof {
            lemma_read_tlv_placed(d, pos, end);
        }
        match spec_read_tlv(d, pos, end) {
            Err(f) => Err(f),
            Ok(t) => match spec_children(d, t.end as int, end) {
                Err(f) => Err(f),
                Ok(rest) => Ok(seq![t] + rest),
            },
        }
    }
}

pub proof fn lemma_children_placed(d: Seq<u8>, pos: int, end: int)
    requires
        0 <= pos <= end <= d.len(),
        end <= usize::MAX,
    ensures
        spec_children(d, pos, end) matches Ok(kids) ==> forall|i: int|
            0 <= i < kids.len() ==> pos <= (#[trigger] kids[i]).start && kids[i].start
                < kids[i].value_start <= kids[i].end <= end,
    decreases end - pos,
{
    if pos < end {
        lemma_read_tlv_placed(d, pos, end);
        if let Ok(t) = spec_read_tlv(d, pos, end) {
            lemma_children_placed(d, t.end as int, end);
            if let Ok(rest) = spec_children(d, t.end as int, end) {
                let kids = seq![t] + rest;
                assert forall|i: int| 0 <= i < kids.len() implies pos <= (#[trigger] kids[i]).start
                    && kids[i].start < kids[i].value_start <= kids[i].end <= end by {
                    if i > 0 {
                        assert(kids[i] == rest[i - 1]);
                    }
                }
            }
        }
    }
}

/// Reads the TLV that starts at `pos` without reading at or beyond `end`.
pub fn read_tlv(d: &[u8], pos: usize, end: usize) -> (r: Result<Tlv, CmsFault>)
    requires
        pos <= end <= d@.len(),
    ensures
        r == spec_read_tlv(d@, pos as int, end as int),
{
    if end - pos < 2 {
        return Err(CmsFault::ShortTlv);
    }
    let b1 = d[pos + 1];
    let hlen: usize;
    let vlen: usize;
    if b1 < 0x80 {
        hlen = 2;
        vlen = b1 as usize;
    } else {
        let n = (b1 - 0x80) as usize;
        if n == 0 || n > 4 || end - pos < 2 + n {
            return Err(CmsFault::BadLength);
        }
        let mut acc: usize = 0;
        let mut i: usize = 0;
        proof {
            lemma_pow256_small();
            assert(d@.subrange(pos + 2, pos + 2) =~= Seq::<u8>::empty());
        }
        while i < n
            invariant
                pos + 2 + n <= end <= d@.len(),
                1 <= n <= 4,
                i <= n,
                acc == be_value(d@.subrange(pos + 2, pos + 2 + i)),
                acc < pow256(i as nat),
                pow256(0) == 1,
                pow256(1) == 256,
                pow256(2) == 65536,
                pow256(3) == 16777216,
                pow256(4) == 4294967296,
            decreases n - i,
        {
            let byte = d[pos + 2 + i];
            proof {
                let next = d@.subrange(pos + 2, pos + 2 + i + 1);
                assert(next.drop_last() =~= d@.subrange(pos + 2, pos + 2 + i));
                assert(next.last() == byte);
                assert(pow256((i + 1) as nat) == pow256(i as nat) * 256);
                assert(acc < 16777216);
            }
            acc = acc * 256 + byte as usize;
            i = i + 1;
        }
        hlen = 2 + n;
        vlen = acc;
    }
    let avail = end - pos;
    if vlen > avail || avail - vlen < hlen {
        return Err(CmsFault::Truncated);
    }
    Ok(Tlv { tag: d[pos], start: pos, value_start: pos + hlen, end: pos + hlen + vlen })
}

/// Reads the TLVs that follow one another in `[pos, end)`.
pub fn read_children(d: &[u8], pos: usize, end: usize) -> (r: Result<Vec<Tlv>, CmsFault>)
    requires
        pos <= end <= d@.len(),
    ensures
        match spec_children(d@, pos as int, end as int) {
            Ok(kids) => r is Ok && r->Ok_0@ == kids,
            Err(f) => r == Err::<Vec<Tlv>, CmsFault>(f),
        },
{
    let mut out: Vec<Tlv> = Vec::new();
    let mut cur = pos;
    while cur < end
        invariant
            pos <= cur <= end <= d@.len(),
            spec_children(d@, pos as int, end as int) == match spec_children(
                d@,
                cur as int,
                end as int,
            ) {
                Ok(rest) => Ok(out@ + rest),
                Err(f) => Err(f),
            },
        decreases end - cur,
    {
        proof {
            lemma_read_tlv_placed(d@, cur as int, end as int);
        }
        let t = match read_tlv(d, cur, end) {
            Ok(t) => t,
            Err(f) => return Err(f),
        };
        proof {
            let rest_old = spec_children(d@, cur as int, end as int);
            let rest_new = spec_children(d@, t.end as int, end as int);
            if let Ok(r) = rest_new {
                assert(out@.push(t) + r =~= out@ + (seq![t] + r));
            }
        }
        out.push(t);
        cur = t.end;
    }
    proof {
        assert(out@ + Seq::<Tlv>::empty() =~= out@);
    }
    Ok(out)
}

/// The TLVs inside the value of `tlv`.
pub fn children(d: &[u8], tlv: Tlv) -> (r: Result<Vec<Tlv>, CmsFault>)
    requires
        tlv.value_start <= tlv.end <= d@.len(),
    ensures
        match spec_children(d@, tlv.value_start as int, tlv.end as int) {
            Ok(kids) => r is Ok && r->Ok_0@ == kids,
            Err(f) => r == Err::<Vec<Tlv>, CmsFault>(f),
        },
{
    read_children(d, tlv.value_start, tlv.end)
}

/// Fails with `UnexpectedTag` unless `tlv` carries `tag`.
pub fn expect_tag(tlv: Tlv, tag: u8, context: TagContext) -> (r: Result<(), CmsFault>)
    ensures
        r == (if tlv.tag == tag {
            Ok(())
        } else {
            Err(CmsFault::UnexpectedTag { context, expected: tag, found: tlv.tag })
        }),
{
    if tlv.tag != tag {
        Err(CmsFault::UnexpectedTag { context, expected: tag, found: tlv.tag })
    } else {
        Ok(())
    }
}

/// Total length (header plus value) that a SEQUENCE header at the front of
/// `s` declares.
pub open spec fn spec_der_len(s: Seq<u8>) -> Option<int> {
    if s.len() < 2 || s[0] != 0x30 {
        None
    } else if s[1] < 0x80 {
        Some(2 + s[1] as int)
    } else {
        let n = s[1] - 0x80;
        if n == 0 || n > 4 || s.len() < 2 + n {
            None
        } else {
            Some(2 + n + be_value(s.subrange(2, 2 + n)))
        }
    }
}

/// The length a leading SEQUENCE header declares, or `None` when there is no
/// well-formed SEQUENCE header or the length does not fit in `usize`.
pub fn der_len(data: &[u8]) -> (r: Option<usize>)
    ensures
        match spec_der_len(data@) {
            Some(l) => if l <= usize::MAX {
                r == Some(l as usize)
            } else {
                r is None
            },
            None => r is None,
        },
{
    if data.len() < 2 || data[0] != 0x30 {
        return None;
    }
    let b1 = data[1];
    if b1 < 0x80 {
        return Some(2 + b1 as usize);
    }
    let n = (b1 - 0x80) as usize;
    if n == 0 || n > 4 || data.len() < 2 + n {
        return None;
    }
    let mut acc: usize = 0;
    let mut i: usize = 0;
    proof {
        lemma_pow256_small();
        assert(data@.subrange(2int, 2int) =~= Seq::<u8>::empty());
    }
    while i < n
        invariant
            2 + n <= data@.len(),
            1 <= n <= 4,
            i <= n,
            acc == be_value(data@.subrange(2, 2 + i)),
            acc < pow256(i as nat),
            pow256(0) == 1,
            pow256(1) == 256,
            pow256(2) == 65536,
            pow256(3) == 16777216,
            pow256(4) == 4294967296,
        decreases n - i,
    {
        let byte = data[2 + i];
        proof {
            let next = data@.subrange(2, 2 + i + 1);
            assert(next.drop_last() =~= data@.subrange(2, 2 + i));
            assert(pow256((i + 1) as nat) == pow256(i as nat) * 256);
        }
        acc = acc * 256 + byte as usize;
        i = i + 1;
    }
    if acc > usize::MAX - (2 + n) {
        return None;
    }
    Some(2 + n + acc)
}

/// Index of the first `0x30` byte, or `s.len()` when there is none.
pub open spec fn first_sequence_byte(s: Seq<u8>, from: int) -> int
    decreases s.len() - from,
{
    if from >= s.len() {
        s.len() as int
    } else if s[from] == 0x30 {
        from
    } else {
        first_sequence_byte(s, from + 1)
    }
}

/// Length of the longest prefix of `s.take(k)` that ends in a non-zero byte.
pub open spec fn nonzero_end(s: Seq<u8>, k: int) -> Option<int>
    decreases k,
{
    if k <= 0 {
        None
    } else if s[k - 1] != 0 {
        Some(k)
    } else {
        nonzero_end(s, k - 1)
    }
}

/// The DER object that a padded `/Contents` blob holds: from the first
/// `0x30` byte (or the start when there is none), cut to the length that the
/// SEQUENCE header declares when it fits, else cut after the last non-zero
/// byte (kept whole when every byte is zero).
pub open spec fn spec_trim_der(data: Seq<u8>) -> Seq<u8> {
    if data.len() == 0 {
        data
    } else {
        let first = first_sequence_byte(data, 0);
        let start = if first < data.len() {
            first
        } else {
            0
        };
        let rest = data.skip(start);
        match spec_der_len(rest) {
            Some(l) if l <= rest.len() => rest.take(l),
            _ => match nonzero_end(rest, rest.len() as int) {
                Some(k) => rest.take(k),
                None => rest,
            },
        }
    }
}

proof fn lemma_first_sequence_byte(s: Seq<u8>, from: int)
    requires
        0 <= from <= s.len(),
    ensures
        from <= first_sequence_byte(s, from) <= s.len(),
        first_sequence_byte(s, from) < s.len() ==> s[first_sequence_byte(s, from)] == 0x30,
    decreases s.len() - from,
{
    if from < s.len() && s[from] != 0x30 {
        lemma_first_sequence_byte(s, from + 1);
    }
}

proof fn lemma_no_sequence_byte(s: Seq<u8>, from: int)
    requires
        0 <= from <= s.len(),
        forall|i: int| from <= i < s.len() ==> s[i] != 0x30,
    ensures
        first_sequence_byte(s, from) == s.len(),
    decreases s.len() - from,
{
    if from < s.len() {
        lemma_no_sequence_byte(s, from + 1);
    }
}

proof fn lemma_sequence_byte_absent(s: Seq<u8>, from: int)
    requires
        0 <= from <= s.len(),
        first_sequence_byte(s, from) == s.len(),
    ensures
        forall|i: int| from <= i < s.len() ==> s[i] != 0x30,
    decreases s.len() - from,
{
    if from < s.len() {
        lemma_sequence_byte_absent(s, from + 1);
    }
}

proof fn lemma_nonzero_end_byte(s: Seq<u8>, k: int)
    requires
        k <= s.len(),
    ensures
        nonzero_end(s, k) matches Some(j) ==> 0 < j <= k && s[j - 1] != 0,
    decreases k,
{
    if k > 0 && s[k - 1] == 0 {
        lemma_nonzero_end_byte(s, k - 1);
    }
}

/// A header that a prefix of `s` holds whole is the header of `s`.
proof fn lemma_der_len_prefix(s: Seq<u8>, j: int)
    requires
        0 <= j <= s.len(),
    ensures
        spec_der_len(s.take(j)) matches Some(l) ==> spec_der_len(s) == Some(l),
{
    let p = s.take(j);
    if p.len() >= 2 && p[0] == 0x30 && p[1] >= 0x80 {
        let n = p[1] - 0x80;
        if n != 0 && n <= 4 && p.len() >= 2 + n {
            assert(p.subrange(2, 2 + n) =~= s.subrange(2, 2 + n));
        }
    }
}

/// Cutting `s` to the length its header declares keeps the header.
proof fn lemma_der_len_take(s: Seq<u8>, l: int)
    requires
        spec_der_len(s) == Some(l),
        l <= s.len(),
    ensures
        2 <= l,
        spec_der_len(s.take(l)) == Some(l),
{
    let t = s.take(l);
    if s[1] >= 0x80 {
        let n = s[1] - 0x80;
        assert(t.subrange(2, 2 + n) =~= s.subrange(2, 2 + n));
    }
}

/// Trimming is idempotent: the DER object that `trim_der` finds is itself
/// trimmed.
pub proof fn law_trim_der_idempotent(data: Seq<u8>)
    ensures
        spec_trim_der(spec_trim_der(data)) == spec_trim_der(data),
{
    if data.len() == 0 {
        return;
    }
    lemma_first_sequence_byte(data, 0);
    let first = first_sequence_byte(data, 0);
    let start = if first < data.len() {
        first
    } else {
        0
    };
    let rest = data.skip(start);
    let t = spec_trim_der(data);
    let j = match spec_der_len(rest) {
        Some(l) if l <= rest.len() => l,
        _ => match nonzero_end(rest, rest.len() as int) {
            Some(k) => k,
            None => rest.len() as int,
        },
    };
    lemma_nonzero_end_byte(rest, rest.len() as int);
    if let Some(l) = spec_der_len(rest) {
        if l <= rest.len() {
            lemma_der_len_take(rest, l);
        }
    }
    assert(rest.take(rest.len() as int) =~= rest);
    assert(1 <= j <= rest.len());
    assert(t == rest.take(j));
    // The trimmed bytes start the same way: with a SEQUENCE byte, or with
    // none anywhere.
    if first < data.len() {
        assert(t[0] == 0x30);
        assert(first_sequence_byte(t, 0) == 0);
    } else {
        lemma_sequence_byte_absent(data, 0);
        assert forall|i: int| 0 <= i < t.len() implies t[i] != 0x30 by {
            assert(t[i] == data[i]);
        }
        lemma_no_sequence_byte(t, 0);
    }
    assert(t.skip(0) =~= t);
    lemma_der_len_prefix(rest, j);
    match spec_der_len(rest) {
        Some(l) if l <= rest.len() => {
            assert(t.take(l) =~= t);
        },
        _ => {
            match nonzero_end(rest, rest.len() as int) {
                Some(k) => {
                    assert(t[k - 1] == rest[k - 1]);
                    assert(nonzero_end(t, t.len() as int) == Some(k));
                    assert(t.take(k) =~= t);
                },
                None => {
                    assert(t =~= rest);
                },
            }
        },
    }
}

/// Strips the padding around the DER object of a `/Contents` blob.
pub fn trim_der(data: &[u8]) -> (r: &[u8])
    ensures
        r@ == spec_trim_der(data@),
{
    if data.len() == 0 {
        return data;
    }
    let mut start: usize = 0;
    while start < data.len() && data[start] != 0x30
        invariant
            start <= data@.len(),
            first_sequence_byte(data@, 0) == first_sequence_byte(data@, start as int),
        decreases data@.len() - start,
    {
        start = start + 1;
    }
    if start == data.len() {
        start = 0;
    }
    proof {
        lemma_first_sequence_byte(data@, 0);
    }
    let rest = &data[start..data.len()];
    assert(rest@ =~= data@.skip(start as int));
    match der_len(rest) {
        Some(len) => {
            if len <= rest.len() {
                let out = &rest[0..len];
                assert(out@ =~= rest@.take(len as int));
                return out;
            }
        },
        None => {},
    }
    let mut k: usize = rest.len();
    while k > 0 && rest[k - 1] == 0
        invariant
            k <= rest@.len(),
            nonzero_end(rest@, rest@.len() as int) == nonzero_end(rest@, k as int),
        decreases k,
    {
        k = k - 1;
    }
    let end = if k == 0 {
        rest.len()
    } else {
        k
    };
    let out = &rest[0..end];
    assert(out@ =~= rest@.take(end as int));
    assert(k == 0 ==> rest@.take(end as int) =~= rest@);
    out
}

} // verus!
