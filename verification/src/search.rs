//! Case-insensitive search over the text layers of the pages, and where
//! each hit lies among the page's glyphs.

use unicode_normalization::UnicodeNormalization;
use vstd::prelude::*;
use vstd::utf8::{encode_scalar, encode_utf8};
use crate::text::{
    char_width, lemma_encode_utf8_concat, lemma_encode_utf8_empty, lemma_encode_utf8_prefix,
    lemma_encode_utf8_push, utf8_width,
};
use crate::browse::texts;
use crate::page::PageNo;
use crate::text::{chars_vec, push_str, string_from_chars, string_of};

verus! {

/// `char::to_lowercase` of std: the lowercase mapping of a character.
pub uninterp spec fn lower_chars(c: char) -> Seq<char>;

/// The lowercase mapping of a character.
///
/// Trusted: `char::to_lowercase`, which vstd does not specify. Its
/// documentation says that it yields one or more characters; its result
/// depends on the character alone, and nothing more is claimed here.
#[verifier::external_body]
fn char_to_lower(c: char) -> (r: Vec<char>)
    ensures
        r@ == lower_chars(c),
        r@.len() >= 1,
{
    c.to_lowercase().collect()
}

/// The lowercase characters of `cs`, each with the byte range `[start, end)`
/// of its source character in the UTF-8 text.
pub open spec fn lower_map(cs: Seq<char>) -> Seq<(char, usize, usize)>
    decreases cs.len(),
{
    if cs.len() == 0 {
        Seq::empty()
    } else {
        let pre = cs.drop_last();
        let c = cs.last();
        let start = encode_utf8(pre).len();
        lower_map(pre) + tagged(lower_chars(c), start as usize, (start + utf8_width(c)) as usize)
    }
}

/// The characters `lows`, each tagged with the byte range `[lo, hi)`.
pub open spec fn tagged(lows: Seq<char>, lo: usize, hi: usize) -> Seq<(char, usize, usize)>
    decreases lows.len(),
{
    if lows.len() == 0 {
        Seq::empty()
    } else {
        tagged(lows.drop_last(), lo, hi).push((lows.last(), lo, hi))
    }
}

/// The lowercase characters of a text.
pub open spec fn lowered(cs: Seq<char>) -> Seq<char>
    decreases cs.len(),
{
    if cs.len() == 0 {
        Seq::empty()
    } else {
        lowered(cs.drop_last()) + lower_chars(cs.last())
    }
}

/// The lowercase characters of a page's text with their byte ranges.
pub fn lower_plain_map(plain: &str) -> (r: Vec<(char, usize, usize)>)
    ensures
        r@ == lower_map(plain@),
{
    let total = plain.as_bytes().len();
    let cs = chars_vec(plain);
    let mut out: Vec<(char, usize, usize)> = Vec::new();
    let mut off: usize = 0;
    let mut k: usize = 0;
    assert(cs@.take(0) =~= Seq::<char>::empty());
    assert(encode_utf8(Seq::<char>::empty()) =~= Seq::<u8>::empty());
    while k < cs.len()
        invariant
            cs@ == plain@,
            total == encode_utf8(cs@).len(),
            k <= cs@.len(),
            off == encode_utf8(cs@.take(k as int)).len(),
            out@ == lower_map(cs@.take(k as int)),
        decreases cs@.len() - k,
    {
        let c = cs[k];
        let w = char_width(c);
        proof {
            assert(cs@.take(k + 1) =~= cs@.take(k as int).push(c));
            lemma_encode_utf8_push(cs@.take(k as int), c);
            lemma_encode_utf8_prefix(cs@, k + 1);
            assert(cs@.take(k + 1).drop_last() =~= cs@.take(k as int));
        }
        let end = off + w;
        let lows = char_to_lower(c);
        let ghost before = out@;
        let mut j: usize = 0;
        assert(lows@.take(0) =~= Seq::<char>::empty());
        assert(before + tagged(lows@.take(0), off, end) =~= before);
        while j < lows.len()
            invariant
                j <= lows@.len(),
                out@ == before + tagged(lows@.take(j as int), off, end),
            decreases lows@.len() - j,
        {
            out.push((lows[j], off, end));
            assert(lows@.take(j + 1) =~= lows@.take(j as int).push(lows@[j as int]));
            assert(lows@.take(j + 1).drop_last() =~= lows@.take(j as int));
            proof {
                let t1 = lows@.take(j + 1);
                assert(t1.len() == j + 1);
                assert(t1.last() == lows@[j as int]);
                assert(tagged(t1, off, end) == tagged(t1.drop_last(), off, end).push(
                    (t1.last(), off, end),
                ));
            }
            assert(out@ =~= before + tagged(lows@.take(j + 1), off, end));
            j = j + 1;
        }
        assert(lows@.take(j as int) =~= lows@);
        assert(out@ =~= lower_map(cs@.take(k + 1)));
        off = end;
        k = k + 1;
    }
    assert(cs@.take(k as int) =~= cs@);
    out
}

/// The characters of `cs` whose UTF-8 bytes lie whole in `[start, end)`.
pub open spec fn chars_within(cs: Seq<char>, start: int, end: int) -> Seq<char>
    decreases cs.len(),
{
    if cs.len() == 0 {
        Seq::empty()
    } else {
        let pre = cs.drop_last();
        let lo = encode_utf8(pre).len() as int;
        let hi = lo + utf8_width(cs.last());
        if start <= lo && hi <= end {
            chars_within(pre, start, end).push(cs.last())
        } else {
            chars_within(pre, start, end)
        }
    }
}

/// The text of a byte range of a page's text: the characters that lie
/// whole inside it.
pub fn text_slice(plain: &str, start: usize, end: usize) -> (r: String)
    ensures
        r@ == chars_within(plain@, start as int, end as int),
{
    let total = plain.as_bytes().len();
    let cs = chars_vec(plain);
    let mut out: Vec<char> = Vec::new();
    let mut off: usize = 0;
    let mut k: usize = 0;
    assert(cs@.take(0) =~= Seq::<char>::empty());
    assert(encode_utf8(Seq::<char>::empty()) =~= Seq::<u8>::empty());
    while k < cs.len()
        invariant
            cs@ == plain@,
            total == encode_utf8(cs@).len(),
            k <= cs@.len(),
            off == encode_utf8(cs@.take(k as int)).len(),
            out@ == chars_within(cs@.take(k as int), start as int, end as int),
        decreases cs@.len() - k,
    {
        let c = cs[k];
        let w = char_width(c);
        proof {
            assert(cs@.take(k + 1) =~= cs@.take(k as int).push(c));
            lemma_encode_utf8_push(cs@.take(k as int), c);
            lemma_encode_utf8_prefix(cs@, k + 1);
            assert(cs@.take(k + 1).drop_last() =~= cs@.take(k as int));
        }
        let hi = off + w;
        if start <= off && hi <= end {
            out.push(c);
        }
        off = hi;
        k = k + 1;
    }
    assert(cs@.take(k as int) =~= cs@);
    string_from_chars(out.as_slice())
}

/// The lowercase characters of a text, for the query.
fn lower_text(s: &str) -> (r: Vec<char>)
    ensures
        r@ == lowered(s@),
{
    let cs = chars_vec(s);
    let mut out: Vec<char> = Vec::new();
    let mut k: usize = 0;
    assert(cs@.take(0) =~= Seq::<char>::empty());
    while k < cs.len()
        invariant
            k <= cs@.len(),
            out@ == lowered(cs@.take(k as int)),
        decreases cs@.len() - k,
    {
        let lows = char_to_lower(cs[k]);
        let mut j: usize = 0;
        let ghost before = out@;
        while j < lows.len()
            invariant
                j <= lows@.len(),
                out@ == before + lows@.take(j as int),
            decreases lows@.len() - j,
        {
            out.push(lows[j]);
            assert(lows@.take(j + 1) =~= lows@.take(j as int).push(lows@[j as int]));
            j = j + 1;
        }
        assert(lows@.take(j as int) =~= lows@);
        assert(cs@.take(k + 1).drop_last() =~= cs@.take(k as int));
        k = k + 1;
    }
    assert(cs@.take(k as int) =~= cs@);
    out
}


/// The lowercase characters of `m` from `i` on spell `needle`.
pub open spec fn matches_at(m: Seq<(char, usize, usize)>, needle: Seq<char>, i: int) -> bool {
    forall|k: int| 0 <= k < needle.len() ==> (#[trigger] m[i + k]).0 == needle[k]
}

/// The byte ranges of the matches of `needle` in `m` that start at `i` or
/// later, in order; overlapping matches all count.
pub open spec fn spec_ranges(m: Seq<(char, usize, usize)>, needle: Seq<char>, i: int) -> Seq<
    (usize, usize),
>
    decreases m.len() - i,
{
    if i < 0 || i + needle.len() > m.len() || needle.len() == 0 {
        Seq::empty()
    } else if matches_at(m, needle, i) {
        seq![(m[i].1, m[i + needle.len() - 1].2)] + spec_ranges(m, needle, i + 1)
    } else {
        spec_ranges(m, needle, i + 1)
    }
}

/// The byte ranges of the case-insensitive matches of `needle` in `plain`.
pub open spec fn spec_byte_ranges(plain: Seq<char>, needle: Seq<char>) -> Seq<(usize, usize)> {
    spec_ranges(lower_map(plain), lowered(needle), 0)
}

/// The byte ranges in `plain` where `needle` occurs, ignoring case: both
/// are lowercased character by character, and every position where the
/// lowercase needle occurs gives the range from the first to the last
/// source character that it covers.
pub fn case_insensitive_byte_ranges(plain: &str, needle: &str) -> (r: Vec<(usize, usize)>)
    ensures
        r@ == spec_byte_ranges(plain@, needle@),
{
    let nd = lower_text(needle);
    let k = nd.len();
    let mut out: Vec<(usize, usize)> = Vec::new();
    if k == 0 {
        return out;
    }
    let mapped = lower_plain_map(plain);
    let m = mapped.len();
    if m < k {
        return out;
    }
    let mut i: usize = 0;
    while i <= m - k
        invariant
            nd@ == lowered(needle@),
            mapped@ == lower_map(plain@),
            k == nd@.len() > 0,
            m == mapped@.len(),
            k <= m,
            i <= m - k + 1,
            out@ + spec_ranges(mapped@, nd@, i as int) == spec_ranges(mapped@, nd@, 0),
        decreases m - i,
    {
        let mut j: usize = 0;
        while j < k && mapped[i + j].0 == nd[j]
            invariant
                i + k <= m == mapped@.len(),
                k == nd@.len(),
                j <= k,
                forall|q: int| 0 <= q < j ==> (#[trigger] mapped@[i + q]).0 == nd@[q],
            decreases k - j,
        {
            j = j + 1;
        }
        let ghost rest = spec_ranges(mapped@, nd@, i + 1);
        if j == k {
            let start = mapped[i].1;
            let end = mapped[i + k - 1].2;
            proof {
                assert(matches_at(mapped@, nd@, i as int));
                assert(out@.push((start, end)) + rest =~= out@ + (seq![(start, end)] + rest));
            }
            out.push((start, end));
        } else {
            proof {
                assert(!matches_at(mapped@, nd@, i as int)) by {
                    assert(mapped@[i + j].0 != nd@[j as int]);
                }
            }
        }
        i = i + 1;
    }
    proof {
        assert(spec_ranges(mapped@, nd@, i as int) =~= Seq::<(usize, usize)>::empty());
        assert(out@ + Seq::<(usize, usize)>::empty() =~= out@);
    }
    out
}


proof fn lemma_lower_map_sorted(cs: Seq<char>)
    requires
        encode_utf8(cs).len() <= usize::MAX,
    ensures
        forall|i: int, j: int|
            0 <= i <= j < lower_map(cs).len() ==> (#[trigger] lower_map(cs)[i]).1 <= (
            #[trigger] lower_map(cs)[j]).1,
        forall|i: int| 0 <= i < lower_map(cs).len() ==> (#[trigger] lower_map(cs)[i]).1 <= encode_utf8(cs).len(),
    decreases cs.len(),
{
    if cs.len() > 0 {
        let pre = cs.drop_last();
        let c = cs.last();
        assert(pre.push(c) =~= cs);
        lemma_encode_utf8_push(pre, c);
        lemma_lower_map_sorted(pre);
        let a = lower_map(pre);
        let start = encode_utf8(pre).len();
        let t = tagged(lower_chars(c), start as usize, (start + utf8_width(c)) as usize);
        lemma_tagged(lower_chars(c), start as usize, (start + utf8_width(c)) as usize);
        assert(lower_map(cs) == a + t);
        assert forall|i: int, j: int| 0 <= i <= j < lower_map(cs).len() implies (#[trigger] lower_map(cs)[i]).1
            <= (#[trigger] lower_map(cs)[j]).1 by {
            if j < a.len() {
                assert(lower_map(cs)[i] == a[i] && lower_map(cs)[j] == a[j]);
            } else if i < a.len() {
                assert(lower_map(cs)[i] == a[i] && lower_map(cs)[j] == t[j - a.len()]);
            } else {
                assert(lower_map(cs)[i] == t[i - a.len()] && lower_map(cs)[j] == t[j - a.len()]);
            }
        }
        assert forall|i: int| 0 <= i < lower_map(cs).len() implies (#[trigger] lower_map(cs)[i]).1
            <= encode_utf8(cs).len() by {
            if i < a.len() {
                assert(lower_map(cs)[i] == a[i]);
            } else {
                assert(lower_map(cs)[i] == t[i - a.len()]);
            }
        }
    }
}

proof fn lemma_tagged(lows: Seq<char>, lo: usize, hi: usize)
    ensures
        tagged(lows, lo, hi).len() == lows.len(),
        forall|i: int| 0 <= i < lows.len() ==> #[trigger] tagged(lows, lo, hi)[i] == (lows[i], lo, hi),
    decreases lows.len(),
{
    if lows.len() > 0 {
        lemma_tagged(lows.drop_last(), lo, hi);
    }
}

proof fn lemma_ranges_sorted(m: Seq<(char, usize, usize)>, needle: Seq<char>, i: int)
    requires
        0 <= i,
        forall|a: int, b: int| 0 <= a <= b < m.len() ==> (#[trigger] m[a]).1 <= (#[trigger] m[b]).1,
    ensures
        forall|a: int| 0 <= a < spec_ranges(m, needle, i).len() ==> i < m.len() && m[i].1
            <= (#[trigger] spec_ranges(m, needle, i)[a]).0,
        forall|a: int, b: int|
            0 <= a <= b < spec_ranges(m, needle, i).len() ==> (#[trigger] spec_ranges(
                m,
                needle,
                i,
            )[a]).0 <= (#[trigger] spec_ranges(m, needle, i)[b]).0,
    decreases m.len() - i,
{
    if !(i + needle.len() > m.len() || needle.len() == 0) {
        lemma_ranges_sorted(m, needle, i + 1);
        let rest = spec_ranges(m, needle, i + 1);
        let r = spec_ranges(m, needle, i);
        if i + 1 < m.len() {
            assert(m[i].1 <= m[i + 1].1);
        }
        if matches_at(m, needle, i) {
            assert(r == seq![(m[i].1, m[i + needle.len() - 1].2)] + rest);
            assert forall|a: int| 0 <= a < r.len() implies i < m.len() && m[i].1 <= (#[trigger] r[a]).0 by {
                if a > 0 {
                    assert(r[a] == rest[a - 1]);
                }
            }
            assert forall|a: int, b: int| 0 <= a <= b < r.len() implies (#[trigger] r[a]).0 <= (
            #[trigger] r[b]).0 by {
                if a > 0 {
                    assert(r[a] == rest[a - 1] && r[b] == rest[b - 1]);
                } else if b > 0 {
                    assert(r[b] == rest[b - 1]);
                }
            }
        }
    }
}

/// Byte offset `b` of the UTF-8 encoding of `plain` falls between two of
/// its characters (or at either end).
pub open spec fn char_boundary(plain: Seq<char>, b: int) -> bool {
    exists|a: int| 0 <= a <= plain.len() && b == encode_utf8(#[trigger] plain.take(a)).len()
}

proof fn lemma_lower_map_bounds(cs: Seq<char>)
    requires
        encode_utf8(cs).len() <= usize::MAX,
    ensures
        forall|i: int|
            0 <= i < lower_map(cs).len() ==> char_boundary(cs, (#[trigger] lower_map(cs)[i]).1 as int)
                && char_boundary(cs, lower_map(cs)[i].2 as int) && lower_map(cs)[i].1 < lower_map(cs)[i].2,
    decreases cs.len(),
{
    if cs.len() > 0 {
        let pre = cs.drop_last();
        let c = cs.last();
        let n = cs.len() - 1;
        assert(pre.push(c) =~= cs);
        lemma_encode_utf8_push(pre, c);
        lemma_lower_map_bounds(pre);
        let a = lower_map(pre);
        let start = encode_utf8(pre).len();
        let t = tagged(lower_chars(c), start as usize, (start + utf8_width(c)) as usize);
        lemma_tagged(lower_chars(c), start as usize, (start + utf8_width(c)) as usize);
        assert(lower_map(cs) == a + t);
        assert(cs.take(n) =~= pre);
        assert(cs.take(n + 1) =~= cs);
        assert(encode_scalar(c as u32).len() >= 1);
        assert forall|i: int| 0 <= i < lower_map(cs).len() implies char_boundary(
            cs,
            (#[trigger] lower_map(cs)[i]).1 as int,
        ) && char_boundary(cs, lower_map(cs)[i].2 as int) && lower_map(cs)[i].1 < lower_map(cs)[i].2 by {
            if i < a.len() {
                let e = a[i];
                assert(lower_map(cs)[i] == e);
                let w1 = choose|w: int| 0 <= w <= pre.len() && e.1 == encode_utf8(#[trigger] pre.take(w)).len();
                let w2 = choose|w: int| 0 <= w <= pre.len() && e.2 == encode_utf8(#[trigger] pre.take(w)).len();
                assert(cs.take(w1) =~= pre.take(w1));
                assert(cs.take(w2) =~= pre.take(w2));
            } else {
                assert(lower_map(cs)[i] == t[i - a.len()]);
                assert(encode_utf8(cs.take(n)).len() == start);
                assert(encode_utf8(cs.take(n + 1)).len() == start + utf8_width(c));
            }
        }
    }
}

proof fn lemma_ranges_bounds(cs: Seq<char>, m: Seq<(char, usize, usize)>, needle: Seq<char>, i: int)
    requires
        0 <= i,
        forall|a: int, b: int| 0 <= a <= b < m.len() ==> (#[trigger] m[a]).1 <= (#[trigger] m[b]).1,
        forall|a: int|
            0 <= a < m.len() ==> char_boundary(cs, (#[trigger] m[a]).1 as int) && char_boundary(cs, m[a].2 as int)
                && m[a].1 < m[a].2,
    ensures
        forall|j: int|
            0 <= j < spec_ranges(m, needle, i).len() ==> char_boundary(
                cs,
                (#[trigger] spec_ranges(m, needle, i)[j]).0 as int,
            ) && char_boundary(cs, spec_ranges(m, needle, i)[j].1 as int) && spec_ranges(m, needle, i)[j].0
                < spec_ranges(m, needle, i)[j].1,
    decreases m.len() - i,
{
    if !(i + needle.len() > m.len() || needle.len() == 0) {
        lemma_ranges_bounds(cs, m, needle, i + 1);
        let rest = spec_ranges(m, needle, i + 1);
        let r = spec_ranges(m, needle, i);
        if matches_at(m, needle, i) {
            let last = i + needle.len() - 1;
            assert(r == seq![(m[i].1, m[last].2)] + rest);
            assert(m[i].1 <= m[last].1);
            assert forall|j: int| 0 <= j < r.len() implies char_boundary(cs, (#[trigger] r[j]).0 as int)
                && char_boundary(cs, r[j].1 as int) && r[j].0 < r[j].1 by {
                if j > 0 {
                    assert(r[j] == rest[j - 1]);
                } else {
                    assert(r[j] == (m[i].1, m[last].2));
                }
            }
        }
    }
}

/// Every range that case-insensitive search finds starts and ends between
/// characters of the text, and is not empty.
pub proof fn law_search_ranges_on_char_boundaries(plain: Seq<char>, needle: Seq<char>)
    requires
        encode_utf8(plain).len() <= usize::MAX,
    ensures
        forall|j: int|
            0 <= j < spec_byte_ranges(plain, needle).len() ==> char_boundary(
                plain,
                (#[trigger] spec_byte_ranges(plain, needle)[j]).0 as int,
            ) && char_boundary(plain, spec_byte_ranges(plain, needle)[j].1 as int)
                && spec_byte_ranges(plain, needle)[j].0 < spec_byte_ranges(plain, needle)[j].1,
{
    lemma_lower_map_sorted(plain);
    lemma_lower_map_bounds(plain);
    lemma_ranges_bounds(plain, lower_map(plain), lowered(needle), 0);
}

/// The byte offset where glyph `g` starts: the bytes of the glyphs before it.
pub open spec fn glyph_off(lens: Seq<usize>, g: int) -> int
    decreases g,
{
    if g <= 0 {
        0
    } else {
        glyph_off(lens, g - 1) + lens[g - 1]
    }
}

/// The byte offset where glyph `g` ends.
pub open spec fn glyph_end(lens: Seq<usize>, g: int) -> int {
    glyph_off(lens, g + 1)
}

/// Glyph `g` covers some byte of `[start, end)`.
pub open spec fn overlaps(lens: Seq<usize>, g: int, start: int, end: int) -> bool {
    glyph_off(lens, g) < end && glyph_end(lens, g) > start
}

/// `span` names exactly the glyphs that cover some byte of `[start, end)`:
/// an inclusive range of glyph indices, none when no glyph does.
pub open spec fn span_ok(lens: Seq<usize>, start: int, end: int, span: Option<(usize, usize)>) -> bool {
    match span {
        Some((a, b)) => a <= b < lens.len() && forall|g: int|
            0 <= g < lens.len() ==> (#[trigger] overlaps(lens, g, start, end) <==> a <= g <= b),
        None => forall|g: int| 0 <= g < lens.len() ==> !#[trigger] overlaps(lens, g, start, end),
    }
}

proof fn lemma_glyph_off_mono(lens: Seq<usize>, g1: int, g2: int)
    requires
        0 <= g1 <= g2,
    ensures
        glyph_off(lens, g1) <= glyph_off(lens, g2),
    decreases g2 - g1,
{
    if g1 < g2 {
        lemma_glyph_off_mono(lens, g1, g2 - 1);
    }
}

/// Finds the glyphs that cover `[start, end)`, going on from the glyph and
/// byte offset that the previous range reached; ranges come with starts in
/// increasing order.
fn glyph_span(
    lens: &Vec<usize>,
    start: usize,
    end: usize,
    glyph_idx: &mut usize,
    byte_cursor: &mut usize,
) -> (r: Option<(usize, usize)>)
    requires
        glyph_off(lens@, lens@.len() as int) <= usize::MAX,
        *old(glyph_idx) <= lens@.len(),
        *old(byte_cursor) == glyph_off(lens@, *old(glyph_idx) as int),
        forall|g: int| 0 <= g < *old(glyph_idx) ==> #[trigger] glyph_end(lens@, g) <= start,
    ensures
        span_ok(lens@, start as int, end as int, r),
        *old(glyph_idx) <= *final(glyph_idx) <= lens@.len(),
        *final(byte_cursor) == glyph_off(lens@, *final(glyph_idx) as int),
        forall|g: int| 0 <= g < *final(glyph_idx) ==> #[trigger] glyph_end(lens@, g) <= start,
{
    let n = lens.len();
    let ghost idx0 = *glyph_idx;
    proof {
        if *glyph_idx < n {
            lemma_glyph_off_mono(lens@, *glyph_idx as int + 1, n as int);
        }
    }
    while *glyph_idx < n && *byte_cursor + lens[*glyph_idx] <= start
        invariant
            n == lens@.len(),
            idx0 == *old(glyph_idx) <= *glyph_idx,
            glyph_off(lens@, n as int) <= usize::MAX,
            *glyph_idx <= n,
            *byte_cursor == glyph_off(lens@, *glyph_idx as int),
            *glyph_idx < n ==> glyph_off(lens@, *glyph_idx + 1) <= glyph_off(lens@, n as int),
            forall|g: int| 0 <= g < *glyph_idx ==> #[trigger] glyph_end(lens@, g) <= start,
        decreases n - *glyph_idx,
    {
        *byte_cursor = *byte_cursor + lens[*glyph_idx];
        *glyph_idx = *glyph_idx + 1;
        proof {
            if *glyph_idx < n {
                lemma_glyph_off_mono(lens@, *glyph_idx as int + 1, n as int);
            }
        }
    }
    let first = *glyph_idx;
    let mut acc: Option<(usize, usize)> = None;
    let mut cur = *byte_cursor;
    let mut g = first;
    while g < n && cur < end
        invariant
            n == lens@.len(),
            glyph_off(lens@, n as int) <= usize::MAX,
            first <= g <= n,
            cur == glyph_off(lens@, g as int),
            first < n ==> glyph_off(lens@, first + 1) > start,
            forall|h: int| 0 <= h < first ==> #[trigger] glyph_end(lens@, h) <= start,
            match acc {
                None => forall|h: int| first <= h < g ==> !#[trigger] overlaps(lens@, h, start as int, end as int),
                Some((a, b)) => first <= a <= b < g && overlaps(lens@, a as int, start as int, end as int)
                    && overlaps(lens@, b as int, start as int, end as int) && forall|h: int|
                    first <= h < g && #[trigger] overlaps(lens@, h, start as int, end as int) ==> a <= h <= b,
            },
        decreases n - g,
    {
        proof {
            lemma_glyph_off_mono(lens@, g as int + 1, n as int);
            lemma_glyph_off_mono(lens@, first as int + 1, g as int + 1);
        }
        let next = cur + lens[g];
        if next > start {
            acc = match acc {
                None => Some((g, g)),
                Some((a, _)) => Some((a, g)),
            };
        }
        cur = next;
        g = g + 1;
    }
    proof {
        assert forall|h: int| 0 <= h < n && #[trigger] overlaps(lens@, h, start as int, end as int)
            implies first <= h < g by {
            if h < first {
                assert(glyph_end(lens@, h) <= start);
            }
            if h >= g {
                lemma_glyph_off_mono(lens@, g as int, h);
            }
        }
        match acc {
            Some((a, b)) => {
                assert forall|h: int| 0 <= h < n implies (#[trigger] overlaps(lens@, h, start as int, end as int)
                    <==> a <= h <= b) by {
                    if a <= h <= b {
                        lemma_glyph_off_mono(lens@, h, b as int);
                        lemma_glyph_off_mono(lens@, a as int + 1, h + 1);
                    }
                }
            },
            None => {},
        }
    }
    acc
}


proof fn lemma_span_unique(lens: Seq<usize>, start: int, end: int, s1: Option<(usize, usize)>, s2: Option<(usize, usize)>)
    requires
        span_ok(lens, start, end, s1),
        span_ok(lens, start, end, s2),
    ensures
        s1 == s2,
{
    match (s1, s2) {
        (Some((a, b)), Some((c, d))) => {
            assert(overlaps(lens, a as int, start, end));
            assert(overlaps(lens, b as int, start, end));
            assert(overlaps(lens, c as int, start, end));
            assert(overlaps(lens, d as int, start, end));
        },
        (Some((a, b)), None) => {
            assert(overlaps(lens, a as int, start, end));
        },
        (None, Some((c, d))) => {
            assert(overlaps(lens, c as int, start, end));
        },
        (None, None) => {},
    }
}

/// The glyphs that cover `[start, end)`, as `span_ok` pins them down.
pub open spec fn spec_span(lens: Seq<usize>, start: int, end: int) -> Option<(usize, usize)> {
    choose|s: Option<(usize, usize)>| span_ok(lens, start, end, s)
}

/// The text of a page: its characters, and the byte length of each glyph's
/// text, in order.
#[derive(Debug, Clone)]
pub struct TextLayer {
    pub page: PageNo,
    pub plain: String,
    pub cluster_lens: Vec<usize>,
}

/// The Unicode normalization form C of a text (canonical decomposition,
/// then canonical composition).
pub uninterp spec fn nfc_of(s: Seq<char>) -> Seq<char>;

/// The text in normalization form C.
///
/// Trusted: `UnicodeNormalization::nfc` of `unicode-normalization`,
/// collected into a `String`. The normal form depends on the text alone;
/// what it is, is not stated here.
#[verifier::external_body]
pub(crate) fn nfc(s: &str) -> (r: String)
    ensures
        r@ == nfc_of(s@),
{
    s.nfc().collect()
}

/// The clusters of a page's characters, each in normalization form C,
/// without those that come out empty.
pub open spec fn kept_clusters(raw: Seq<Seq<char>>) -> Seq<Seq<char>>
    decreases raw.len(),
{
    if raw.len() == 0 {
        Seq::empty()
    } else if nfc_of(raw.last()).len() == 0 {
        kept_clusters(raw.drop_last())
    } else {
        kept_clusters(raw.drop_last()).push(nfc_of(raw.last()))
    }
}

/// Where the kept clusters come from: the index of each among the raw
/// clusters.
pub open spec fn kept_at(raw: Seq<Seq<char>>) -> Seq<int>
    decreases raw.len(),
{
    if raw.len() == 0 {
        Seq::empty()
    } else if nfc_of(raw.last()).len() == 0 {
        kept_at(raw.drop_last())
    } else {
        kept_at(raw.drop_last()).push(raw.len() - 1)
    }
}

/// The clusters one after another.
pub open spec fn joined(cs: Seq<Seq<char>>) -> Seq<char>
    decreases cs.len(),
{
    if cs.len() == 0 {
        Seq::empty()
    } else {
        joined(cs.drop_last()) + cs.last()
    }
}

/// The UTF-8 byte length of each cluster.
pub open spec fn byte_lens(cs: Seq<Seq<char>>) -> Seq<usize> {
    Seq::new(cs.len(), |i: int| encode_utf8(cs[i]).len() as usize)
}

proof fn lemma_glyph_off_push(lens: Seq<usize>, x: usize, g: int)
    requires
        0 <= g <= lens.len(),
    ensures
        glyph_off(lens.push(x), g) == glyph_off(lens, g),
    decreases g,
{
    if g > 0 {
        lemma_glyph_off_push(lens, x, g - 1);
    }
}

impl TextLayer {
    /// The text of a page from the text of its characters, in order: each
    /// cluster is put in normalization form C and left out when that is
    /// empty; the page's text is then the clusters one after another, put
    /// in normalization form C as a whole. With it comes the index of the
    /// character of each kept cluster.
    pub fn from_clusters(page: PageNo, raw: &[String]) -> (r: (TextLayer, Vec<usize>))
        ensures
            r.0.page == page,
            r.0.plain@ == nfc_of(joined(kept_clusters(texts(raw@)))),
            r.0.cluster_lens@ == byte_lens(kept_clusters(texts(raw@))),
            layer_fits(r.0),
            r.1@.map_values(|k: usize| k as int) == kept_at(texts(raw@)),
    {
        let mut all = String::new();
        let mut lens: Vec<usize> = Vec::new();
        let mut from: Vec<usize> = Vec::new();
        let ghost mut kept: Seq<Seq<char>> = Seq::empty();
        let mut i: usize = 0;
        assert(texts(raw@.take(0)) =~= Seq::<Seq<char>>::empty());
        assert(lens@ =~= byte_lens(kept));
        assert(from@.map_values(|k: usize| k as int) =~= Seq::<int>::empty());
        while i < raw.len()
            invariant
                i <= raw@.len(),
                kept == kept_clusters(texts(raw@.take(i as int))),
                from@.map_values(|k: usize| k as int) == kept_at(texts(raw@.take(i as int))),
                all@ == joined(kept),
                lens@ == byte_lens(kept),
                glyph_off(lens@, lens@.len() as int) == encode_utf8(all@).len(),
                encode_utf8(all@).len() <= usize::MAX,
            decreases raw@.len() - i,
        {
            proof {
                assert(texts(raw@.take(i + 1)) =~= texts(raw@.take(i as int)).push(raw@[i as int]@));
                assert(texts(raw@.take(i + 1)).drop_last() =~= texts(raw@.take(i as int)));
            }
            let c = nfc(raw[i].as_str());
            let n = c.as_str().as_bytes().len();
            proof {
                lemma_encode_utf8_empty(c@);
            }
            if n > 0 {
                let ghost before = all@;
                push_str(&mut all, c.as_str());
                let total = all.as_str().as_bytes().len();
                proof {
                    lemma_encode_utf8_concat(before, c@);
                    lemma_glyph_off_push(lens@, n, lens@.len() as int);
                }
                lens.push(n);
                let ghost f0 = from@;
                from.push(i);
                proof {
                    assert(texts(raw@.take(i + 1)).len() == i + 1);
                    assert(from@.map_values(|k: usize| k as int) =~= f0.map_values(|k: usize| k as int).push(
                        i as int,
                    ));
                    let k0 = kept;
                    kept = kept.push(c@);
                    assert(kept.drop_last() =~= k0);
                    assert(kept.last() == c@);
                    assert(all@ == joined(kept));
                    assert(lens@ =~= byte_lens(kept));
                }
            }
            i = i + 1;
        }
        assert(raw@.take(i as int) =~= raw@);
        let plain = nfc(all.as_str());
        (TextLayer { page, plain, cluster_lens: lens }, from)
    }
}

/// A byte range of a page's text.
#[derive(Debug, Clone, Copy, PartialEq, Eq, Structural)]
pub struct TextRange {
    pub start: usize,
    pub end: usize,
}

/// A match of the search: its page, its byte range in the page's text, and
/// the first and last glyph that it covers (none when it covers none).
#[derive(Debug, Clone, Copy)]
pub struct Hit {
    pub page: PageNo,
    pub range: TextRange,
    pub glyphs: Option<(usize, usize)>,
}

pub open spec fn mk_hit(page: PageNo, start: usize, end: usize, glyphs: Option<(usize, usize)>) -> Hit {
    Hit { page, range: TextRange { start, end }, glyphs }
}

/// The glyph bytes of a layer fit in `usize`.
pub open spec fn layer_fits(layer: TextLayer) -> bool {
    glyph_off(layer.cluster_lens@, layer.cluster_lens@.len() as int) <= usize::MAX
}

/// The hits of a query on one page, in the order of the text.
pub open spec fn spec_page_hits(query: Seq<char>, layer: TextLayer) -> Seq<Hit> {
    let ranges = spec_byte_ranges(layer.plain@, query);
    Seq::new(
        ranges.len(),
        |j: int|
            mk_hit(
                layer.page,
                ranges[j].0,
                ranges[j].1,
                spec_span(layer.cluster_lens@, ranges[j].0 as int, ranges[j].1 as int),
            ),
    )
}

/// The hits of a query on one page: each case-insensitive match with the
/// glyphs that it covers.
pub fn find_hits(query: &str, layer: &TextLayer) -> (r: Vec<Hit>)
    requires
        layer_fits(*layer),
    ensures
        r@ == spec_page_hits(query@, *layer),
{
    let total = layer.plain.as_str().as_bytes().len();
    let ranges = case_insensitive_byte_ranges(layer.plain.as_str(), query);
    let ghost want = spec_page_hits(query@, *layer);
    let ghost m = lower_map(layer.plain@);
    proof {
        lemma_lower_map_sorted(layer.plain@);
        lemma_ranges_sorted(m, lowered(query@), 0);
    }
    let lens = &layer.cluster_lens;
    let mut hits: Vec<Hit> = Vec::new();
    let mut glyph_idx: usize = 0;
    let mut byte_cursor: usize = 0;
    let mut j: usize = 0;
    while j < ranges.len()
        invariant
            ranges@ == spec_byte_ranges(layer.plain@, query@),
            want == spec_page_hits(query@, *layer),
            lens@ == layer.cluster_lens@,
            glyph_off(lens@, lens@.len() as int) <= usize::MAX,
            forall|a: int, b: int| 0 <= a <= b < ranges@.len() ==> (#[trigger] ranges@[a]).0 <= (#[trigger] ranges@[b]).0,
            j <= ranges@.len(),
            glyph_idx <= lens@.len(),
            byte_cursor == glyph_off(lens@, glyph_idx as int),
            j < ranges@.len() ==> forall|g: int| 0 <= g < glyph_idx ==> #[trigger] glyph_end(lens@, g) <= ranges@[j as int].0,
            hits@.len() == j,
            forall|q: int| 0 <= q < j ==> #[trigger] hits@[q] == want[q],
        decreases ranges@.len() - j,
    {
        let (start, end) = ranges[j];
        let span = glyph_span(lens, start, end, &mut glyph_idx, &mut byte_cursor);
        proof {
            lemma_span_unique(lens@, start as int, end as int, span, spec_span(lens@, start as int, end as int));
            if j + 1 < ranges@.len() {
                assert(ranges@[j as int].0 <= ranges@[j + 1].0);
            }
        }
        hits.push(Hit { page: layer.page, range: TextRange { start, end }, glyphs: span });
        assert(hits@[j as int] == want[j as int]);
        j = j + 1;
    }
    assert(hits@ =~= want);
    hits
}

/// The byte range of glyph `index` in its page's text; `(0, 0)` past the
/// last glyph.
pub fn glyph_byte_range(layer: &TextLayer, index: usize) -> (r: (usize, usize))
    requires
        layer_fits(*layer),
    ensures
        index < layer.cluster_lens@.len() ==> r.0 == glyph_off(layer.cluster_lens@, index as int)
            && r.1 == glyph_off(layer.cluster_lens@, index + 1),
        index >= layer.cluster_lens@.len() ==> r == (0usize, 0usize),
{
    let lens = &layer.cluster_lens;
    let n = lens.len();
    let mut cursor: usize = 0;
    let mut i: usize = 0;
    while i < n
        invariant
            n == lens@.len(),
            lens@ == layer.cluster_lens@,
            glyph_off(lens@, n as int) <= usize::MAX,
            i <= n,
            i <= index,
            cursor == glyph_off(lens@, i as int),
        decreases n - i,
    {
        proof {
            lemma_glyph_off_mono(lens@, i + 1, n as int);
        }
        let next = cursor + lens[i];
        if i == index {
            return (cursor, next);
        }
        cursor = next;
        i = i + 1;
    }
    (0, 0)
}


/// `a` comes strictly before `b` in the order of the hits: by page, then by
/// where they start.
pub open spec fn hit_before(a: Hit, b: Hit) -> bool {
    a.page.idx < b.page.idx || (a.page.idx == b.page.idx && a.range.start < b.range.start)
}

/// No hit comes before one that precedes it.
pub open spec fn hits_ordered(s: Seq<Hit>) -> bool {
    forall|a: int, b: int| 0 <= a < b < s.len() ==> !hit_before(#[trigger] s[b], #[trigger] s[a])
}

/// Where `e` goes in `s`: before the first hit that it comes before,
/// searching from `j`.
pub open spec fn hit_slot(s: Seq<Hit>, e: Hit, j: int) -> int
    decreases s.len() - j,
{
    if j >= s.len() || j < 0 {
        j
    } else if hit_before(e, s[j]) {
        j
    } else {
        hit_slot(s, e, j + 1)
    }
}

/// The stable sort of `s` by `hit_before`.
pub open spec fn sorted_hits(s: Seq<Hit>) -> Seq<Hit>
    decreases s.len(),
{
    if s.len() == 0 {
        s
    } else {
        let r = sorted_hits(s.drop_last());
        r.insert(hit_slot(r, s.last(), 0), s.last())
    }
}

/// The hits of each loaded page, page after page.
pub open spec fn all_page_hits(query: Seq<char>, pages: Seq<Option<TextLayer>>) -> Seq<Hit>
    decreases pages.len(),
{
    if pages.len() == 0 {
        Seq::empty()
    } else {
        all_page_hits(query, pages.drop_last()) + match pages.last() {
            Some(layer) => spec_page_hits(query, layer),
            None => Seq::empty(),
        }
    }
}

/// Every loaded page's glyph bytes fit in `usize`.
pub open spec fn pages_fit(pages: Seq<Option<TextLayer>>) -> bool {
    forall|k: int| 0 <= k < pages.len() ==> (#[trigger] pages[k] matches Some(l) ==> layer_fits(l))
}

proof fn lemma_hit_slot(s: Seq<Hit>, e: Hit, j: int)
    requires
        0 <= j <= s.len(),
    ensures
        j <= hit_slot(s, e, j) <= s.len(),
        forall|i: int| j <= i < hit_slot(s, e, j) ==> !hit_before(e, #[trigger] s[i]),
        hit_slot(s, e, j) < s.len() ==> hit_before(e, s[hit_slot(s, e, j)]),
    decreases s.len() - j,
{
    if j < s.len() && !hit_before(e, s[j]) {
        lemma_hit_slot(s, e, j + 1);
    }
}

proof fn lemma_insert_hit_ordered(r: Seq<Hit>, e: Hit)
    requires
        hits_ordered(r),
    ensures
        hits_ordered(r.insert(hit_slot(r, e, 0), e)),
{
    lemma_hit_slot(r, e, 0);
    let k = hit_slot(r, e, 0);
    let t = r.insert(k, e);
    assert forall|a: int, b: int| 0 <= a < b < t.len() implies !hit_before(#[trigger] t[b], #[trigger] t[a]) by {
        if a < k && b < k {
            assert(t[a] == r[a] && t[b] == r[b]);
        } else if a < k && b == k {
            assert(t[a] == r[a] && t[b] == e);
        } else if a < k && b > k {
            assert(t[a] == r[a] && t[b] == r[b - 1]);
        } else if a == k {
            assert(t[a] == e && t[b] == r[b - 1]);
            if b - 1 > k {
                assert(!hit_before(r[b - 1], r[k]));
            }
        } else {
            assert(t[a] == r[a - 1] && t[b] == r[b - 1]);
        }
    }
}

proof fn lemma_sorted_hits(s: Seq<Hit>)
    ensures
        hits_ordered(sorted_hits(s)),
        sorted_hits(s).len() == s.len(),
    decreases s.len(),
{
    if s.len() > 0 {
        lemma_sorted_hits(s.drop_last());
        let r = sorted_hits(s.drop_last());
        lemma_insert_hit_ordered(r, s.last());
        lemma_hit_slot(r, s.last(), 0);
    }
}

/// Inserts `e` after the hits that it does not come before.
fn insert_hit(out: &mut Vec<Hit>, e: Hit)
    ensures
        final(out)@ == old(out)@.insert(hit_slot(old(out)@, e, 0), e),
{
    let ghost s = out@;
    proof {
        lemma_hit_slot(s, e, 0);
    }
    let mut k: usize = 0;
    while k < out.len() && !(e.page.idx < out[k].page.idx || (e.page.idx == out[k].page.idx
        && e.range.start < out[k].range.start))
        invariant
            out@ == s,
            k <= s.len(),
            hit_slot(s, e, 0) == hit_slot(s, e, k as int),
        decreases s.len() - k,
    {
        k = k + 1;
    }
    out.insert(k, e);
}

/// The search of the open document: the query, and its hits on the pages
/// whose text is loaded, ordered by page and by place on the page.
#[derive(Debug)]
pub struct Search {
    query: String,
    hits: Vec<Hit>,
}

/// The hits that are not on page `p`, in order.
pub open spec fn other_pages(hits: Seq<Hit>, p: u32) -> Seq<Hit>
    decreases hits.len(),
{
    if hits.len() == 0 {
        hits
    } else if hits.last().page.idx != p {
        other_pages(hits.drop_last(), p).push(hits.last())
    } else {
        other_pages(hits.drop_last(), p)
    }
}

/// The first place, from `j` on, whose hit is on page `p` or later.
pub open spec fn page_slot(hits: Seq<Hit>, p: u32, j: int) -> int
    decreases hits.len() - j,
{
    if j >= hits.len() || j < 0 {
        j
    } else if hits[j].page.idx >= p {
        j
    } else {
        page_slot(hits, p, j + 1)
    }
}

/// The hits once the text of `layer` is loaded: the hits of its page are
/// replaced by the layer's, put where its page goes.
pub open spec fn spec_extend(hits: Seq<Hit>, query: Seq<char>, layer: TextLayer) -> Seq<Hit> {
    let kept = other_pages(hits, layer.page.idx);
    let pos = page_slot(kept, layer.page.idx, 0);
    kept.take(pos) + spec_page_hits(query, layer) + kept.skip(pos)
}

proof fn lemma_other_pages(hits: Seq<Hit>, p: u32)
    requires
        hits_ordered(hits),
    ensures
        hits_ordered(other_pages(hits, p)),
        forall|i: int| 0 <= i < other_pages(hits, p).len() ==> (#[trigger] other_pages(hits, p)[i]).page.idx != p,
        forall|i: int| 0 <= i < other_pages(hits, p).len() ==> hits.contains(#[trigger] other_pages(hits, p)[i]),
    decreases hits.len(),
{
    if hits.len() > 0 {
        let pre = hits.drop_last();
        assert(hits_ordered(pre)) by {
            assert forall|a: int, b: int| 0 <= a < b < pre.len() implies !hit_before(#[trigger] pre[b], #[trigger] pre[a]) by {
                assert(pre[a] == hits[a] && pre[b] == hits[b]);
            }
        }
        lemma_other_pages(pre, p);
        let w = other_pages(pre, p);
        assert forall|i: int| 0 <= i < w.len() implies hits.contains(#[trigger] w[i]) by {
            let k = choose|k: int| 0 <= k < pre.len() && pre[k] == w[i];
            assert(hits[k] == w[i]);
        }
        assert(hits.contains(hits.last())) by {
            assert(hits[hits.len() - 1] == hits.last());
        }
        if hits.last().page.idx != p {
            let t = w.push(hits.last());
            assert forall|a: int, b: int| 0 <= a < b < t.len() implies !hit_before(#[trigger] t[b], #[trigger] t[a]) by {
                if b == w.len() {
                    let k = choose|k: int| 0 <= k < pre.len() && pre[k] == w[a];
                    assert(hits[k] == t[a]);
                    assert(hits[hits.len() - 1] == t[b]);
                } else {
                    assert(t[a] == w[a] && t[b] == w[b]);
                }
            }
            assert forall|i: int| 0 <= i < t.len() implies hits.contains(#[trigger] t[i]) by {
                if i < w.len() {
                    assert(t[i] == w[i]);
                }
            }
            assert forall|i: int| 0 <= i < t.len() implies (#[trigger] t[i]).page.idx != p by {
                if i < w.len() {
                    assert(t[i] == w[i]);
                }
            }
        }
    }
}

proof fn lemma_page_slot(hits: Seq<Hit>, p: u32, j: int)
    requires
        0 <= j <= hits.len(),
    ensures
        j <= page_slot(hits, p, j) <= hits.len(),
        forall|i: int| j <= i < page_slot(hits, p, j) ==> (#[trigger] hits[i]).page.idx < p,
        page_slot(hits, p, j) < hits.len() ==> hits[page_slot(hits, p, j)].page.idx >= p,
    decreases hits.len() - j,
{
    if j < hits.len() && hits[j].page.idx < p {
        lemma_page_slot(hits, p, j + 1);
    }
}

proof fn lemma_page_hits_ordered(query: Seq<char>, layer: TextLayer)
    requires
        encode_utf8(layer.plain@).len() <= usize::MAX,
    ensures
        hits_ordered(spec_page_hits(query, layer)),
        forall|i: int| 0 <= i < spec_page_hits(query, layer).len() ==> (#[trigger] spec_page_hits(query, layer)[i]).page == layer.page,
{
    lemma_lower_map_sorted(layer.plain@);
    lemma_ranges_sorted(lower_map(layer.plain@), lowered(query), 0);
    let h = spec_page_hits(query, layer);
    let ranges = spec_byte_ranges(layer.plain@, query);
    assert forall|a: int, b: int| 0 <= a < b < h.len() implies !hit_before(#[trigger] h[b], #[trigger] h[a]) by {
        assert(ranges[a].0 <= ranges[b].0);
    }
}

impl Clone for Search {
    fn clone(&self) -> (r: Search)
        ensures
            r.spec_query() == self.spec_query(),
            r.spec_hits() == self.spec_hits(),
    {
        proof {
            use_type_invariant(self);
        }
        let mut hits: Vec<Hit> = Vec::new();
        let mut i: usize = 0;
        while i < self.hits.len()
            invariant
                i <= self.hits@.len(),
                hits@ == self.hits@.take(i as int),
            decreases self.hits@.len() - i,
        {
            hits.push(self.hits[i]);
            assert(self.hits@.take(i + 1) =~= self.hits@.take(i as int).push(self.hits@[i as int]));
            i = i + 1;
        }
        assert(self.hits@.take(i as int) =~= self.hits@);
        Search { query: self.query.clone(), hits }
    }
}

impl Search {
    #[verifier::type_invariant]
    spec fn ordered(self) -> bool {
        hits_ordered(self.hits@)
    }

    /// The query's text.
    pub closed spec fn spec_query(self) -> Seq<char> {
        self.query@
    }

    /// The hits, in order.
    pub closed spec fn spec_hits(self) -> Seq<Hit> {
        self.hits@
    }

    /// The query.
    pub fn query(&self) -> (r: &str)
        ensures
            r@ == self.spec_query(),
    {
        self.query.as_str()
    }

    /// The hits.
    pub fn hits(&self) -> (r: &[Hit])
        ensures
            r@ == self.spec_hits(),
    {
        self.hits.as_slice()
    }

    /// The search of `query` over the pages whose text is loaded: none for
    /// an empty query, else the hits of every loaded page, ordered by page
    /// and by place, equal keys in the order of the pages.
    pub fn derive(query: &str, pages: &[Option<TextLayer>]) -> (r: Search)
        requires
            pages_fit(pages@),
        ensures
            r.spec_query() == query@,
            query@.len() == 0 ==> r.spec_hits().len() == 0,
            query@.len() > 0 ==> r.spec_hits() == sorted_hits(all_page_hits(query@, pages@)),
            hits_ordered(r.spec_hits()),
    {
        if query.is_empty() {
            return Search { query: string_of(query), hits: Vec::new() };
        }
        let mut all: Vec<Hit> = Vec::new();
        let mut k: usize = 0;
        assert(pages@.take(0) =~= Seq::<Option<TextLayer>>::empty());
        while k < pages.len()
            invariant
                pages_fit(pages@),
                k <= pages@.len(),
                all@ == all_page_hits(query@, pages@.take(k as int)),
            decreases pages@.len() - k,
        {
            assert(pages@.take(k + 1).drop_last() =~= pages@.take(k as int));
            assert(pages@.take(k + 1).last() == pages@[k as int]);
            match &pages[k] {
                Some(layer) => {
                    assert(pages@[k as int] matches Some(l) ==> layer_fits(l));
                    let mut found = find_hits(query, layer);
                    all.append(&mut found);
                },
                None => {
                    assert(all@ =~= all@ + Seq::<Hit>::empty());
                },
            }
            k = k + 1;
        }
        assert(pages@.take(k as int) =~= pages@);
        let ghost src = all@;
        let mut out: Vec<Hit> = Vec::new();
        let mut i: usize = 0;
        assert(src.take(0) =~= Seq::<Hit>::empty());
        proof {
            lemma_sorted_hits(src.take(0));
        }
        while i < all.len()
            invariant
                all@ == src,
                i <= src.len(),
                out@ == sorted_hits(src.take(i as int)),
            decreases src.len() - i,
        {
            assert(src.take(i + 1).drop_last() =~= src.take(i as int));
            insert_hit(&mut out, all[i]);
            i = i + 1;
        }
        assert(src.take(i as int) =~= src);
        proof {
            lemma_sorted_hits(src);
        }
        Search { query: string_of(query), hits: out }
    }
}


impl Search {
    /// Adds the hits of a page whose text has just loaded: the page's old
    /// hits leave, and its new ones go where the page belongs. Nothing
    /// changes for an empty query.
    ///
    /// The place is the first hit on that page or a later one; as the hits
    /// are ordered, it is the partition point of "on an earlier page".
    pub fn extend_page(&mut self, layer: &TextLayer)
        requires
            layer_fits(*layer),
        ensures
            final(self).spec_query() == old(self).spec_query(),
            old(self).spec_query().len() == 0 ==> final(self).spec_hits() == old(self).spec_hits(),
            old(self).spec_query().len() > 0 ==> final(self).spec_hits() == spec_extend(
                old(self).spec_hits(),
                old(self).spec_query(),
                *layer,
            ),
            hits_ordered(final(self).spec_hits()),
    {
        proof {
            use_type_invariant(&*self);
        }
        if self.query.as_str().is_empty() {
            return;
        }
        let total = layer.plain.as_str().as_bytes().len();
        let p = layer.page.idx;
        let ghost old_hits = self.hits@;
        let mut kept: Vec<Hit> = Vec::new();
        let mut i: usize = 0;
        assert(old_hits.take(0) =~= Seq::<Hit>::empty());
        while i < self.hits.len()
            invariant
                self.hits@ == old_hits,
                i <= old_hits.len(),
                kept@ == other_pages(old_hits.take(i as int), p),
            decreases old_hits.len() - i,
        {
            assert(old_hits.take(i + 1).drop_last() =~= old_hits.take(i as int));
            if self.hits[i].page.idx != p {
                kept.push(self.hits[i]);
            }
            i = i + 1;
        }
        assert(old_hits.take(i as int) =~= old_hits);
        proof {
            lemma_other_pages(old_hits, p);
            lemma_page_slot(kept@, p, 0);
        }
        let mut pos: usize = 0;
        while pos < kept.len() && kept[pos].page.idx < p
            invariant
                pos <= kept@.len(),
                page_slot(kept@, p, 0) == page_slot(kept@, p, pos as int),
            decreases kept@.len() - pos,
        {
            pos = pos + 1;
        }
        let page_hits = find_hits(self.query.as_str(), layer);
        let ghost ks = kept@;
        let ghost ph = page_hits@;
        let mut out: Vec<Hit> = Vec::new();
        let mut j: usize = 0;
        while j < pos
            invariant
                kept@ == ks,
                pos <= ks.len(),
                j <= pos,
                out@ == ks.take(j as int),
            decreases pos - j,
        {
            out.push(kept[j]);
            assert(ks.take(j + 1) =~= ks.take(j as int).push(ks[j as int]));
            j = j + 1;
        }
        let mut q: usize = 0;
        while q < page_hits.len()
            invariant
                page_hits@ == ph,
                q <= ph.len(),
                out@ == ks.take(pos as int) + ph.take(q as int),
            decreases ph.len() - q,
        {
            out.push(page_hits[q]);
            assert(ph.take(q + 1) =~= ph.take(q as int).push(ph[q as int]));
            q = q + 1;
        }
        assert(ph.take(q as int) =~= ph);
        let mut t: usize = pos;
        while t < kept.len()
            invariant
                kept@ == ks,
                pos <= t <= ks.len(),
                out@ == ks.take(pos as int) + ph + ks.subrange(pos as int, t as int),
            decreases ks.len() - t,
        {
            out.push(kept[t]);
            assert(ks.subrange(pos as int, t + 1) =~= ks.subrange(pos as int, t as int).push(ks[t as int]));
            t = t + 1;
        }
        assert(ks.subrange(pos as int, t as int) =~= ks.skip(pos as int));
        proof {
            lemma_page_hits_ordered(self.query@, *layer);
            let r = out@;
            let k2 = ks.take(pos as int);
            let k3 = ks.skip(pos as int);
            assert forall|x: int| 0 <= x < k3.len() implies (#[trigger] k3[x]).page.idx > p by {
                assert(k3[x] == ks[pos + x]);
                if pos < ks.len() {
                    assert(ks[pos as int].page.idx >= p);
                    if x > 0 {
                        assert(!hit_before(ks[pos + x], ks[pos as int]));
                    }
                }
            }
            assert forall|a: int, b: int| 0 <= a < b < r.len() implies !hit_before(#[trigger] r[b], #[trigger] r[a]) by {
                let n2 = k2.len() as int;
                let n3 = ph.len() as int;
                if b < n2 {
                    assert(r[a] == ks[a] && r[b] == ks[b]);
                } else if b < n2 + n3 {
                    assert(r[b] == ph[b - n2]);
                    if a < n2 {
                        assert(r[a] == ks[a]);
                    } else {
                        assert(r[a] == ph[a - n2]);
                    }
                } else {
                    assert(r[b] == k3[b - n2 - n3]);
                    assert(r[b] == ks[b - n3]);
                    if a < n2 {
                        assert(r[a] == ks[a]);
                    } else if a < n2 + n3 {
                        assert(r[a] == ph[a - n2]);
                    } else {
                        assert(r[a] == ks[a - n3]);
                    }
                }
            }
        }
        self.hits = out;
    }
}


/// Each loaded page sits in the slot of its page number, and its text fits
/// in memory's offsets.
pub open spec fn pages_in_place(pages: Seq<Option<TextLayer>>) -> bool {
    forall|k: int|
        0 <= k < pages.len() ==> (#[trigger] pages[k] matches Some(l) ==> l.page.idx == k
            && encode_utf8(l.plain@).len() <= usize::MAX)
}

proof fn lemma_all_page_hits_concat(query: Seq<char>, p1: Seq<Option<TextLayer>>, p2: Seq<Option<TextLayer>>)
    ensures
        all_page_hits(query, p1 + p2) == all_page_hits(query, p1) + all_page_hits(query, p2),
    decreases p2.len(),
{
    if p2.len() == 0 {
        assert(p1 + p2 =~= p1);
        assert(all_page_hits(query, p1) + all_page_hits(query, p2) =~= all_page_hits(query, p1));
    } else {
        lemma_all_page_hits_concat(query, p1, p2.drop_last());
        assert((p1 + p2).drop_last() =~= p1 + p2.drop_last());
        assert((p1 + p2).last() == p2.last());
        let tail = match p2.last() {
            Some(layer) => spec_page_hits(query, layer),
            None => Seq::<Hit>::empty(),
        };
        assert(all_page_hits(query, p1) + all_page_hits(query, p2.drop_last()) + tail
            =~= all_page_hits(query, p1) + (all_page_hits(query, p2.drop_last()) + tail));
    }
}

/// Every hit of the pages `base..base + pages.len()` lies on one of those
/// pages, and the hits come ordered.
proof fn lemma_all_page_hits_placed(query: Seq<char>, pages: Seq<Option<TextLayer>>, base: int)
    requires
        0 <= base,
        forall|k: int|
            0 <= k < pages.len() ==> (#[trigger] pages[k] matches Some(l) ==> l.page.idx == base + k
                && encode_utf8(l.plain@).len() <= usize::MAX),
    ensures
        forall|j: int|
            0 <= j < all_page_hits(query, pages).len() ==> base <= (#[trigger] all_page_hits(query, pages)[j]).page.idx
                < base + pages.len(),
        hits_ordered(all_page_hits(query, pages)),
    decreases pages.len(),
{
    if pages.len() > 0 {
        let pre = pages.drop_last();
        assert forall|k: int| 0 <= k < pre.len() implies (#[trigger] pre[k] matches Some(l) ==> l.page.idx == base + k
            && encode_utf8(l.plain@).len() <= usize::MAX) by {
            assert(pre[k] == pages[k]);
        }
        lemma_all_page_hits_placed(query, pre, base);
        let a = all_page_hits(query, pre);
        assert(pages[pages.len() - 1] == pages.last());
        match pages.last() {
            Some(layer) => {
                let t = spec_page_hits(query, layer);
                lemma_page_hits_ordered(query, layer);
                let all = a + t;
                assert(all_page_hits(query, pages) == all);
                assert forall|j: int| 0 <= j < all.len() implies base <= (#[trigger] all[j]).page.idx < base + pages.len() by {
                    if j < a.len() {
                        assert(all[j] == a[j]);
                    } else {
                        assert(all[j] == t[j - a.len()]);
                    }
                }
                assert forall|x: int, y: int| 0 <= x < y < all.len() implies !hit_before(#[trigger] all[y], #[trigger] all[x]) by {
                    if y < a.len() {
                        assert(all[x] == a[x] && all[y] == a[y]);
                    } else if x >= a.len() {
                        assert(all[x] == t[x - a.len()] && all[y] == t[y - a.len()]);
                    } else {
                        assert(all[x] == a[x] && all[y] == t[y - a.len()]);
                    }
                }
            },
            None => {
                assert(all_page_hits(query, pages) =~= a);
            },
        }
    }
}

proof fn lemma_sorted_hits_ordered(s: Seq<Hit>)
    requires
        hits_ordered(s),
    ensures
        sorted_hits(s) == s,
    decreases s.len(),
{
    if s.len() > 0 {
        let pre = s.drop_last();
        assert(hits_ordered(pre)) by {
            assert forall|a: int, b: int| 0 <= a < b < pre.len() implies !hit_before(#[trigger] pre[b], #[trigger] pre[a]) by {
                assert(pre[a] == s[a] && pre[b] == s[b]);
            }
        }
        lemma_sorted_hits_ordered(pre);
        lemma_hit_slot(pre, s.last(), 0);
        assert forall|j: int| 0 <= j < pre.len() implies !hit_before(s.last(), #[trigger] pre[j]) by {
            assert(pre[j] == s[j]);
            assert(s[s.len() - 1] == s.last());
        }
        assert(hit_slot(pre, s.last(), 0) == pre.len());
        assert(pre.insert(pre.len() as int, s.last()) =~= s);
    }
}

proof fn lemma_other_pages_none(hits: Seq<Hit>, p: u32)
    requires
        forall|j: int| 0 <= j < hits.len() ==> (#[trigger] hits[j]).page.idx != p,
    ensures
        other_pages(hits, p) == hits,
    decreases hits.len(),
{
    if hits.len() > 0 {
        let pre = hits.drop_last();
        assert forall|j: int| 0 <= j < pre.len() implies (#[trigger] pre[j]).page.idx != p by {
            assert(pre[j] == hits[j]);
        }
        lemma_other_pages_none(pre, p);
        assert(hits[hits.len() - 1] == hits.last());
        assert(pre.push(hits.last()) =~= hits);
    }
}

proof fn lemma_other_pages_concat(x: Seq<Hit>, y: Seq<Hit>, p: u32)
    ensures
        other_pages(x + y, p) == other_pages(x, p) + other_pages(y, p),
    decreases y.len(),
{
    if y.len() == 0 {
        assert(x + y =~= x);
        assert(other_pages(x, p) + other_pages(y, p) =~= other_pages(x, p));
    } else {
        lemma_other_pages_concat(x, y.drop_last(), p);
        assert((x + y).drop_last() =~= x + y.drop_last());
        assert((x + y).last() == y.last());
        if y.last().page.idx != p {
            assert(other_pages(x, p) + other_pages(y.drop_last(), p).push(y.last())
                =~= (other_pages(x, p) + other_pages(y.drop_last(), p)).push(y.last()));
        }
    }
}

proof fn lemma_other_pages_all_on(hits: Seq<Hit>, p: u32)
    requires
        forall|j: int| 0 <= j < hits.len() ==> (#[trigger] hits[j]).page.idx == p,
    ensures
        other_pages(hits, p) == Seq::<Hit>::empty(),
    decreases hits.len(),
{
    if hits.len() > 0 {
        let pre = hits.drop_last();
        assert forall|j: int| 0 <= j < pre.len() implies (#[trigger] pre[j]).page.idx == p by {
            assert(pre[j] == hits[j]);
        }
        lemma_other_pages_all_on(pre, p);
        assert(hits[hits.len() - 1] == hits.last());
    }
}

/// Hits of the pages before `p`, then hits of page `p`, then hits of the
/// pages after it, each part in order, are in order as a whole.
proof fn lemma_three_parts_ordered(a1: Seq<Hit>, m: Seq<Hit>, a2: Seq<Hit>, p: int)
    requires
        hits_ordered(a1),
        hits_ordered(m),
        hits_ordered(a2),
        forall|j: int| 0 <= j < a1.len() ==> (#[trigger] a1[j]).page.idx < p,
        forall|j: int| 0 <= j < m.len() ==> (#[trigger] m[j]).page.idx == p,
        forall|j: int| 0 <= j < a2.len() ==> (#[trigger] a2[j]).page.idx > p,
    ensures
        hits_ordered(a1 + m + a2),
{
    let all = a1 + m + a2;
    assert forall|x: int, y: int| 0 <= x < y < all.len() implies !hit_before(#[trigger] all[y], #[trigger] all[x]) by {
        let n1 = a1.len() as int;
        let n2 = m.len() as int;
        if y < n1 {
            assert(all[x] == a1[x] && all[y] == a1[y]);
        } else if y < n1 + n2 {
            assert(all[y] == m[y - n1]);
            if x < n1 {
                assert(all[x] == a1[x]);
            } else {
                assert(all[x] == m[x - n1]);
            }
        } else {
            assert(all[y] == a2[y - n1 - n2]);
            if x < n1 {
                assert(all[x] == a1[x]);
            } else if x < n1 + n2 {
                assert(all[x] == m[x - n1]);
            } else {
                assert(all[x] == a2[x - n1 - n2]);
            }
        }
    }
}

/// The hits of one page slot: none for a page not loaded, else the page's
/// own hits, all on that page and in order.
proof fn lemma_one_page_hits(query: Seq<char>, slot: Option<TextLayer>, p: int)
    requires
        slot matches Some(l) ==> l.page.idx == p && encode_utf8(l.plain@).len() <= usize::MAX,
    ensures
        all_page_hits(query, seq![slot]) == (match slot {
            Some(l) => spec_page_hits(query, l),
            None => Seq::<Hit>::empty(),
        }),
        hits_ordered(all_page_hits(query, seq![slot])),
        forall|j: int|
            0 <= j < all_page_hits(query, seq![slot]).len() ==> (#[trigger] all_page_hits(query, seq![slot])[j]).page.idx
                == p,
{
    let one = seq![slot];
    assert(one.drop_last() =~= Seq::<Option<TextLayer>>::empty());
    assert(one.last() == slot);
    assert(all_page_hits(query, one.drop_last()) == Seq::<Hit>::empty());
    match slot {
        Some(l) => {
            lemma_page_hits_ordered(query, l);
            assert(Seq::<Hit>::empty() + spec_page_hits(query, l) =~= spec_page_hits(query, l));
        },
        None => {
            assert(Seq::<Hit>::empty() + Seq::<Hit>::empty() =~= Seq::<Hit>::empty());
        },
    }
}

/// Loading the text of a page into a running search gives the hits that
/// searching all the loaded pages again would give, when each loaded page
/// sits in the slot of its page number. This holds both for a page that
/// was not loaded and for one whose text is loaded again.
pub proof fn law_lazy_search(query: Seq<char>, pages: Seq<Option<TextLayer>>, layer: TextLayer)
    requires
        query.len() > 0,
        pages_in_place(pages),
        layer.page.idx < pages.len(),
        encode_utf8(layer.plain@).len() <= usize::MAX,
    ensures
        spec_extend(sorted_hits(all_page_hits(query, pages)), query, layer) == sorted_hits(
            all_page_hits(query, pages.update(layer.page.idx as int, Some(layer))),
        ),
{
    let i = layer.page.idx as int;
    let p = layer.page.idx;
    let after = pages.update(i, Some(layer));
    let before_part = pages.take(i);
    let rest = pages.skip(i + 1);
    let old_page = seq![pages[i]];
    let new_page = seq![Some(layer)];
    assert(pages =~= before_part + old_page + rest);
    assert(after =~= before_part + new_page + rest);
    assert forall|k: int| 0 <= k < before_part.len() implies (#[trigger] before_part[k] matches Some(l) ==> l.page.idx == 0 + k
        && encode_utf8(l.plain@).len() <= usize::MAX) by {
        assert(before_part[k] == pages[k]);
    }
    assert forall|k: int| 0 <= k < rest.len() implies (#[trigger] rest[k] matches Some(l) ==> l.page.idx == (i + 1) + k
        && encode_utf8(l.plain@).len() <= usize::MAX) by {
        assert(rest[k] == pages[i + 1 + k]);
    }
    lemma_all_page_hits_placed(query, before_part, 0);
    lemma_all_page_hits_placed(query, rest, i + 1);
    let a1 = all_page_hits(query, before_part);
    let a2 = all_page_hits(query, rest);
    let ph = spec_page_hits(query, layer);
    lemma_page_hits_ordered(query, layer);
    lemma_one_page_hits(query, pages[i], i);
    lemma_one_page_hits(query, Some(layer), i);
    let mh = all_page_hits(query, old_page);
    assert(all_page_hits(query, new_page) == ph);
    lemma_all_page_hits_concat(query, before_part + old_page, rest);
    lemma_all_page_hits_concat(query, before_part, old_page);
    lemma_all_page_hits_concat(query, before_part + new_page, rest);
    lemma_all_page_hits_concat(query, before_part, new_page);
    let old_all = all_page_hits(query, pages);
    let new_all = all_page_hits(query, after);
    assert(old_all =~= a1 + mh + a2);
    assert(new_all =~= a1 + ph + a2);
    lemma_three_parts_ordered(a1, mh, a2, i);
    lemma_three_parts_ordered(a1, ph, a2, i);
    lemma_sorted_hits_ordered(old_all);
    lemma_sorted_hits_ordered(new_all);
    // the old hits of the page leave; those of the other pages stay
    assert forall|j: int| 0 <= j < a1.len() implies (#[trigger] a1[j]).page.idx != p by {}
    assert forall|j: int| 0 <= j < a2.len() implies (#[trigger] a2[j]).page.idx != p by {}
    lemma_other_pages_none(a1, p);
    lemma_other_pages_none(a2, p);
    lemma_other_pages_all_on(mh, p);
    lemma_other_pages_concat(a1 + mh, a2, p);
    lemma_other_pages_concat(a1, mh, p);
    let kept = other_pages(old_all, p);
    assert(kept =~= a1 + a2);
    // the new page's hits go right after those of the pages before it
    lemma_page_slot(kept, p, 0);
    let pos = page_slot(kept, p, 0);
    assert(pos == a1.len()) by {
        if pos < a1.len() {
            assert(kept[pos] == a1[pos]);
        }
        if pos > a1.len() {
            assert(kept[a1.len() as int] == a2[0]);
        }
    }
    assert(kept.take(pos) =~= a1);
    assert(kept.skip(pos) =~= a2);
}

} // verus!
