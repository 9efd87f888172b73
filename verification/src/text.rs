//! Small string builders shared by the messages and labels of the library.

use vstd::prelude::*;
use vstd::string::StringExecFns;
use vstd::utf8::{decode_utf8, encode_scalar, encode_utf8, valid_utf8};

verus! {

/// `String::from_utf8_lossy` of std: the text of `bytes`, each invalid
/// sequence replaced by U+FFFD.
pub uninterp spec fn utf8_lossy(bytes: Seq<u8>) -> Seq<char>;

/// Decodes bytes as UTF-8, replacing invalid sequences.
///
/// Trusted: `String::from_utf8_lossy`, which vstd does not specify. Its
/// documentation says that valid UTF-8 comes out unchanged.
#[verifier::external_body]
pub(crate) fn lossy_text(bytes: &[u8]) -> (r: String)
    ensures
        r@ == utf8_lossy(bytes@),
        valid_utf8(bytes@) ==> r@ == decode_utf8(bytes@),
{
    String::from_utf8_lossy(bytes).into_owned()
}

/// Appends one character to a string.
///
/// Trusted: `String::push` of std, which vstd does not specify; its
/// documentation says that it appends the character to the end.
#[verifier::external_body]
pub(crate) fn push_char(s: &mut String, c: char)
    ensures
        final(s)@ == old(s)@.push(c),
{
    s.push(c);
}

/// Appends a string slice.
pub fn push_str(s: &mut String, t: &str)
    ensures
        final(s)@ == old(s)@ + t@,
{
    s.append(t);
}

/// A fresh string with the characters of `t`.
pub fn string_of(t: &str) -> (r: String)
    ensures
        r@ == t@,
{
    String::from_str(t)
}

/// The lowercase hexadecimal digit for `d`.
pub open spec fn hex_digit(d: nat) -> char {
    if d < 10 {
        (48 + d) as char
    } else {
        (97 + d - 10) as char
    }
}

/// Lowercase hexadecimal digits of `n`, without leading zeros (`"0"` for zero).
pub open spec fn hex_lower(n: nat) -> Seq<char>
    decreases n,
{
    if n < 16 {
        seq![hex_digit(n)]
    } else {
        hex_lower(n / 16).push(hex_digit(n % 16))
    }
}

/// Decimal digits of `n`, without leading zeros (`"0"` for zero).
pub open spec fn decimal(n: nat) -> Seq<char>
    decreases n,
{
    if n < 10 {
        seq![(48 + n) as char]
    } else {
        decimal(n / 10).push((48 + n % 10) as char)
    }
}

fn digit_char(d: u8) -> (c: char)
    requires
        d < 16,
    ensures
        c == hex_digit(d as nat),
{
    if d < 10 {
        (48 + d) as char
    } else {
        (97 + d - 10) as char
    }
}

/// Appends the lowercase hexadecimal digits of `n`.
pub fn push_hex(s: &mut String, n: u64)
    ensures
        final(s)@ == old(s)@ + hex_lower(n as nat),
    decreases n,
{
    if n >= 16 {
        push_hex(s, n / 16);
    }
    let c = digit_char((n % 16) as u8);
    push_char(s, c);
    proof {
        if n >= 16 {
            assert(hex_lower(n as nat) == hex_lower((n / 16) as nat).push(hex_digit((n % 16) as nat)));
        }
    }
    assert(final(s)@ =~= old(s)@ + hex_lower(n as nat));
}

/// Appends the decimal digits of `n`.
pub fn push_decimal(s: &mut String, n: u64)
    ensures
        final(s)@ == old(s)@ + decimal(n as nat),
    decreases n,
{
    if n >= 10 {
        push_decimal(s, n / 10);
    }
    let d = (n % 10) as u8;
    let c = (48 + d) as char;
    push_char(s, c);
    assert(final(s)@ =~= old(s)@ + decimal(n as nat));
}

/// The characters of a string slice.
///
/// Trusted: `str::chars` of std collected into a vector; its documentation
/// says that it yields the characters of the slice in order.
#[verifier::external_body]
pub(crate) fn chars_vec(s: &str) -> (r: Vec<char>)
    ensures
        r@ == s@,
{
    s.chars().collect()
}

/// A string with the given characters.
pub fn string_from_chars(cs: &[char]) -> (r: String)
    ensures
        r@ == cs@,
{
    let mut out = String::new();
    let mut i: usize = 0;
    while i < cs.len()
        invariant
            i <= cs@.len(),
            out@ == cs@.take(i as int),
        decreases cs@.len() - i,
    {
        push_char(&mut out, cs[i]);
        assert(cs@.take(i + 1) =~= cs@.take(i as int).push(cs@[i as int]));
        i = i + 1;
    }
    assert(cs@.take(i as int) =~= cs@);
    out
}

/// `char::is_whitespace`: the Unicode White_Space property.
pub open spec fn is_white_space(c: char) -> bool {
    let u = c as u32;
    (9 <= u <= 13) || u == 32 || u == 0x85 || u == 0xA0 || u == 0x1680 || (0x2000 <= u <= 0x200A)
        || u == 0x2028 || u == 0x2029 || u == 0x202F || u == 0x205F || u == 0x3000
}

/// Whether a character is Unicode white space.
pub fn white_space(c: char) -> (r: bool)
    ensures
        r == is_white_space(c),
{
    let u = c as u32;
    (9 <= u && u <= 13) || u == 32 || u == 0x85 || u == 0xA0 || u == 0x1680 || (0x2000 <= u && u
        <= 0x200A) || u == 0x2028 || u == 0x2029 || u == 0x202F || u == 0x205F || u == 0x3000
}

/// Number of leading white-space characters.
pub open spec fn leading_ws(s: Seq<char>, i: int) -> int
    decreases s.len() - i,
{
    if i >= s.len() || !is_white_space(s[i]) {
        i
    } else {
        leading_ws(s, i + 1)
    }
}

/// End of `s` once trailing white space is cut, not below `floor`.
pub open spec fn trailing_end(s: Seq<char>, floor: int, j: int) -> int
    decreases j - floor,
{
    if j <= floor || !is_white_space(s[j - 1]) {
        j
    } else {
        trailing_end(s, floor, j - 1)
    }
}

/// `str::trim`: `s` without leading and trailing white space.
pub open spec fn spec_trim(s: Seq<char>) -> Seq<char> {
    let start = leading_ws(s, 0);
    s.subrange(start, trailing_end(s, start, s.len() as int))
}

proof fn lemma_leading_ws(s: Seq<char>, i: int)
    requires
        0 <= i <= s.len(),
    ensures
        i <= leading_ws(s, i) <= s.len(),
    decreases s.len() - i,
{
    if i < s.len() && is_white_space(s[i]) {
        lemma_leading_ws(s, i + 1);
    }
}

proof fn lemma_trailing_end(s: Seq<char>, floor: int, j: int)
    requires
        0 <= floor <= j <= s.len(),
    ensures
        floor <= trailing_end(s, floor, j) <= j,
    decreases j - floor,
{
    if j > floor && is_white_space(s[j - 1]) {
        lemma_trailing_end(s, floor, j - 1);
    }
}

/// The bounds `[start, end)` of `s[from..to)` without surrounding white
/// space.
pub fn trim_bounds(s: &Vec<char>, from: usize, to: usize) -> (r: (usize, usize))
    requires
        from <= to <= s@.len(),
    ensures
        from <= r.0 <= r.1 <= to,
        s@.subrange(r.0 as int, r.1 as int) == spec_trim(s@.subrange(from as int, to as int)),
{
    let ghost t = s@.subrange(from as int, to as int);
    let mut start = from;
    while start < to && white_space(s[start])
        invariant
            from <= start <= to <= s@.len(),
            t == s@.subrange(from as int, to as int),
            leading_ws(t, 0) == leading_ws(t, start - from),
        decreases to - start,
    {
        start = start + 1;
    }
    let mut end = to;
    proof {
        lemma_leading_ws(t, 0);
    }
    while end > start && white_space(s[end - 1])
        invariant
            from <= start <= end <= to <= s@.len(),
            t == s@.subrange(from as int, to as int),
            leading_ws(t, 0) == start - from,
            trailing_end(t, start - from, t.len() as int) == trailing_end(t, start - from, end - from),
        decreases end - start,
    {
        end = end - 1;
    }
    proof {
        lemma_trailing_end(t, start - from, t.len() as int);
        assert(t.subrange(start - from, end - from) =~= s@.subrange(start as int, end as int));
    }
    (start, end)
}

/// `str::trim` of a string slice.
pub fn trim(s: &str) -> (r: String)
    ensures
        r@ == spec_trim(s@),
{
    let cs = chars_vec(s);
    let (a, b) = trim_bounds(&cs, 0, cs.len());
    assert(cs@.subrange(0, cs@.len() as int) =~= cs@);
    string_from_chars(&cs.as_slice()[a..b])
}

/// The pieces of `s` between `sep` characters, as `str::split` gives them.
pub open spec fn split_on(s: Seq<char>, sep: char) -> Seq<Seq<char>>
    decreases s.len(),
{
    if s.len() == 0 {
        seq![Seq::empty()]
    } else {
        let rest = split_on(s.drop_last(), sep);
        if s.last() == sep {
            rest.push(Seq::empty())
        } else {
            rest.update(rest.len() - 1, rest.last().push(s.last()))
        }
    }
}

pub proof fn lemma_split_on_nonempty(s: Seq<char>, sep: char)
    ensures
        split_on(s, sep).len() >= 1,
    decreases s.len(),
{
    if s.len() > 0 {
        lemma_split_on_nonempty(s.drop_last(), sep);
    }
}


/// `str::to_lowercase` of std: the lowercase mapping of a text.
pub uninterp spec fn lowercase_text(s: Seq<char>) -> Seq<char>;

/// The lowercase form of a string slice.
///
/// Trusted: `str::to_lowercase`, which vstd does not specify; its result
/// depends on the text alone, and nothing more is claimed of it here.
#[verifier::external_body]
pub(crate) fn to_lowercase(s: &str) -> (r: String)
    ensures
        r@ == lowercase_text(s@),
{
    s.to_lowercase()
}

/// `s` comes strictly before `t` in the order of `str`'s `cmp`: byte
/// order on UTF-8, which is the order of the characters' code points.
pub open spec fn text_lt(s: Seq<char>, t: Seq<char>) -> bool
    decreases s.len(),
{
    if s.len() == 0 {
        t.len() > 0
    } else if t.len() == 0 {
        false
    } else if (s[0] as u32) < (t[0] as u32) {
        true
    } else if (s[0] as u32) > (t[0] as u32) {
        false
    } else {
        text_lt(s.drop_first(), t.drop_first())
    }
}

/// Whether `s` comes strictly before `t`.
pub fn chars_lt(s: &Vec<char>, t: &Vec<char>) -> (r: bool)
    ensures
        r == text_lt(s@, t@),
{
    let mut i: usize = 0;
    assert(s@.skip(0) =~= s@);
    assert(t@.skip(0) =~= t@);
    while i < s.len() && i < t.len()
        invariant
            i <= s@.len(),
            i <= t@.len(),
            text_lt(s@, t@) == text_lt(s@.skip(i as int), t@.skip(i as int)),
        decreases s@.len() - i,
    {
        let a = s[i] as u32;
        let b = t[i] as u32;
        assert(s@.skip(i as int)[0] == s@[i as int]);
        assert(t@.skip(i as int)[0] == t@[i as int]);
        if a < b {
            return true;
        }
        if a > b {
            return false;
        }
        assert(s@.skip(i as int).drop_first() =~= s@.skip(i + 1));
        assert(t@.skip(i as int).drop_first() =~= t@.skip(i + 1));
        i = i + 1;
    }
    i == s.len() && i < t.len()
}

pub proof fn lemma_text_lt_irreflexive(s: Seq<char>)
    ensures
        !text_lt(s, s),
    decreases s.len(),
{
    if s.len() > 0 {
        lemma_text_lt_irreflexive(s.drop_first());
    }
}

pub proof fn lemma_text_lt_transitive(a: Seq<char>, b: Seq<char>, c: Seq<char>)
    requires
        text_lt(a, b),
        text_lt(b, c),
    ensures
        text_lt(a, c),
    decreases a.len(),
{
    if a.len() > 0 && b.len() > 0 && c.len() > 0 {
        if (a[0] as u32) == (b[0] as u32) && (b[0] as u32) == (c[0] as u32) {
            lemma_text_lt_transitive(a.drop_first(), b.drop_first(), c.drop_first());
        }
    }
}

/// Bytes of a character in UTF-8.
pub open spec fn utf8_width(c: char) -> nat {
    encode_scalar(c as u32).len()
}

pub(crate) fn char_width(c: char) -> (w: usize)
    ensures
        w == utf8_width(c),
{
    let u = c as u32;
    if u <= 0x7F {
        1
    } else if u <= 0x7FF {
        2
    } else if u <= 0xFFFF {
        3
    } else {
        4
    }
}

pub(crate) proof fn lemma_encode_utf8_push(cs: Seq<char>, c: char)
    ensures
        encode_utf8(cs.push(c)) == encode_utf8(cs) + encode_scalar(c as u32),
    decreases cs.len(),
{
    if cs.len() == 0 {
        assert(cs.push(c).drop_first() =~= Seq::<char>::empty());
        assert(encode_utf8(Seq::<char>::empty()) =~= Seq::<u8>::empty());
        assert(encode_utf8(cs) =~= Seq::<u8>::empty());
        assert(encode_utf8(cs.push(c)) =~= encode_scalar(c as u32) + Seq::<u8>::empty());
        assert(encode_scalar(c as u32) + Seq::<u8>::empty() =~= encode_scalar(c as u32));
    } else {
        lemma_encode_utf8_push(cs.drop_first(), c);
        assert(cs.push(c).drop_first() =~= cs.drop_first().push(c));
        assert(cs.push(c)[0] == cs[0]);
        assert(encode_utf8(cs.push(c)) =~= encode_scalar(cs[0] as u32) + (encode_utf8(
            cs.drop_first(),
        ) + encode_scalar(c as u32)));
    }
}

pub(crate) proof fn lemma_encode_utf8_prefix(cs: Seq<char>, k: int)
    requires
        0 <= k <= cs.len(),
    ensures
        encode_utf8(cs.take(k)).len() <= encode_utf8(cs).len(),
    decreases cs.len() - k,
{
    if k < cs.len() {
        lemma_encode_utf8_prefix(cs, k + 1);
        assert(cs.take(k + 1) =~= cs.take(k).push(cs[k]));
        lemma_encode_utf8_push(cs.take(k), cs[k]);
    } else {
        assert(cs.take(k) =~= cs);
    }
}

pub(crate) proof fn lemma_encode_utf8_concat(a: Seq<char>, b: Seq<char>)
    ensures
        encode_utf8(a + b) == encode_utf8(a) + encode_utf8(b),
    decreases b.len(),
{
    if b.len() == 0 {
        assert(a + b =~= a);
        assert(encode_utf8(b) =~= Seq::<u8>::empty());
        assert(encode_utf8(a) + encode_utf8(b) =~= encode_utf8(a));
    } else {
        let pre = b.drop_last();
        lemma_encode_utf8_concat(a, pre);
        assert(a + b =~= (a + pre).push(b.last()));
        assert(b =~= pre.push(b.last()));
        lemma_encode_utf8_push(a + pre, b.last());
        lemma_encode_utf8_push(pre, b.last());
        assert(encode_utf8(a) + encode_utf8(pre) + encode_scalar(b.last() as u32) =~= encode_utf8(a) + (
        encode_utf8(pre) + encode_scalar(b.last() as u32)));
    }
}

pub(crate) proof fn lemma_encode_utf8_empty(cs: Seq<char>)
    ensures
        encode_utf8(cs).len() == 0 <==> cs.len() == 0,
{
    if cs.len() > 0 {
        assert(encode_scalar(cs[0] as u32).len() >= 1);
    }
}

} // verus!
