//! Recent files and the folder browser of the empty window.
//!
//! A path is held as its text in canonical form, the form that collecting a
//! `Path`'s components gives (no empty or `.` components but a leading `.`,
//! no trailing separator). On such texts equality is the equality of paths.

use vstd::prelude::*;
use crate::text::{
    chars_lt, chars_vec, lemma_split_on_nonempty, lemma_text_lt_irreflexive,
    lemma_text_lt_transitive, lowercase_text, push_char, push_str, spec_trim, split_on,
    string_from_chars, string_of, text_lt, to_lowercase, trim_bounds,
};
use vstd::string::{StringSliceAdditionalSpecFns};

verus! {

/// Most recent files kept.
pub const RECENTS_CAP: usize = 12;

/// Index of the last `c` in `s[..j)`, if any.
pub open spec fn last_index_of(s: Seq<char>, c: char, j: int) -> Option<int>
    decreases j,
{
    if j <= 0 {
        None
    } else if s[j - 1] == c {
        Some(j - 1)
    } else {
        last_index_of(s, c, j - 1)
    }
}

pub(crate) proof fn lemma_last_index_of_range(s: Seq<char>, c: char, j: int)
    ensures
        last_index_of(s, c, j) matches Some(k) ==> 0 <= k < j && s[k] == c,
    decreases j,
{
    if j > 0 && s[j - 1] != c {
        lemma_last_index_of_range(s, c, j - 1);
    }
}

/// A path text without its trailing separators and trailing `.`
/// components, which `Path::components` passes over from the back.
pub open spec fn trim_path_end(p: Seq<char>) -> Seq<char>
    decreases p.len(),
{
    if p.len() > 0 && p.last() == '/' {
        trim_path_end(p.drop_last())
    } else if p.len() >= 2 && p.last() == '.' && p[p.len() - 2] == '/' {
        trim_path_end(p.drop_last())
    } else {
        p
    }
}

/// The last component of a path text, as `Path::file_name` finds it:
/// trailing separators and trailing `.` components are passed over.
pub open spec fn last_component(path: Seq<char>) -> Seq<char> {
    let t = trim_path_end(path);
    match last_index_of(t, '/', t.len() as int) {
        Some(k) => t.skip(k + 1),
        None => t,
    }
}

/// The last component of a path text.
pub(crate) fn path_name(cs: &Vec<char>) -> (r: Vec<char>)
    ensures
        r@ == last_component(cs@),
{
    let mut n: usize = cs.len();
    assert(cs@.take(n as int) =~= cs@);
    loop
        invariant
            n <= cs@.len(),
            trim_path_end(cs@) == trim_path_end(cs@.take(n as int)),
        ensures
            n <= cs@.len(),
            trim_path_end(cs@) == cs@.take(n as int),
        decreases n,
    {
        let ghost t = cs@.take(n as int);
        if n > 0 && cs[n - 1] == '/' {
            assert(t.drop_last() =~= cs@.take(n - 1));
            n = n - 1;
        } else if n >= 2 && cs[n - 1] == '.' && cs[n - 2] == '/' {
            assert(t.drop_last() =~= cs@.take(n - 1));
            n = n - 1;
        } else {
            break;
        }
    }
    let ghost t = cs@.take(n as int);
    let found = last_index(cs, '/', n);
    proof {
        lemma_last_index_of_range(cs@, '/', n as int);
        assert forall|j: int| 0 <= j <= n implies last_index_of(t, '/', j) == last_index_of(cs@, '/', j) by {
            lemma_last_index_of_prefix(cs@, t, '/', j);
        }
    }
    let start = match found {
        Some(k) => k + 1,
        None => 0,
    };
    let name = vstd::slice::slice_to_vec(&cs.as_slice()[start..n]);
    proof {
        match last_index_of(t, '/', t.len() as int) {
            Some(k) => {
                assert(name@ =~= t.skip(k + 1));
            },
            None => {
                assert(name@ =~= t);
            },
        }
    }
    name
}

proof fn lemma_last_index_of_prefix(s: Seq<char>, t: Seq<char>, c: char, j: int)
    requires
        t.len() <= s.len(),
        0 <= j <= t.len(),
        forall|i: int| 0 <= i < t.len() ==> t[i] == s[i],
    ensures
        last_index_of(t, c, j) == last_index_of(s, c, j),
    decreases j,
{
    if j > 0 {
        lemma_last_index_of_prefix(s, t, c, j - 1);
    }
}

/// `Path::extension`: the part of the file name after its last dot, none for
/// a name without a dot or whose only dot leads, and none without a file
/// name (`.`, `..`, the root, the empty path).
pub open spec fn spec_extension(path: Seq<char>) -> Option<Seq<char>> {
    let name = last_component(path);
    if name.len() == 0 || name == "."@ || name == ".."@ {
        None
    } else {
        match last_index_of(name, '.', name.len() as int) {
            None => None,
            Some(k) => if k == 0 {
                None
            } else {
                Some(name.skip(k + 1))
            },
        }
    }
}

/// ASCII lowercase of a character.
pub open spec fn ascii_lower(c: char) -> char {
    if 'A' <= c && c <= 'Z' {
        ((c as u32) + 32) as char
    } else {
        c
    }
}

/// A path names a PDF when its extension is `pdf` in any ASCII case.
pub open spec fn spec_is_pdf(path: Seq<char>) -> bool {
    match spec_extension(path) {
        Some(e) => e.len() == 3 && ascii_lower(e[0]) == 'p' && ascii_lower(e[1]) == 'd'
            && ascii_lower(e[2]) == 'f',
        None => false,
    }
}

fn lower_ascii(c: char) -> (r: char)
    ensures
        r == ascii_lower(c),
{
    let u = c as u32;
    if 65 <= u && u <= 90 {
        ((u as u8) + 32) as char
    } else {
        c
    }
}

pub(crate) fn last_index(s: &Vec<char>, c: char, j: usize) -> (r: Option<usize>)
    requires
        j <= s@.len(),
    ensures
        match last_index_of(s@, c, j as int) {
            Some(k) => r == Some(k as usize),
            None => r is None,
        },
        r matches Some(k) ==> k < j,
{
    let mut i = j;
    while i > 0
        invariant
            i <= j <= s@.len(),
            last_index_of(s@, c, j as int) == last_index_of(s@, c, i as int),
        decreases i,
    {
        if s[i - 1] == c {
            return Some(i - 1);
        }
        i = i - 1;
    }
    None
}

/// Whether a path names a PDF file.
pub fn is_pdf(path: &str) -> (r: bool)
    ensures
        r == spec_is_pdf(path@),
{
    let cs = chars_vec(path);
    let name = path_name(&cs);
    let ghost gname = last_component(path@);
    let n = name.len();
    if n == 0 || (n == 1 && name[0] == '.') || (n == 2 && name[0] == '.' && name[1] == '.') {
        proof {
            if n == 1 && name[0] == '.' {
                reveal_strlit(".");
                assert(gname =~= "."@);
            }
            if n == 2 && name[0] == '.' && name[1] == '.' {
                reveal_strlit("..");
                assert(gname =~= ".."@);
            }
        }
        return false;
    }
    proof {
        reveal_strlit(".");
        reveal_strlit("..");
        assert(gname != "."@) by {
            if gname == "."@ {
                assert(gname.len() == 1);
            }
        }
        assert(gname != ".."@) by {
            if gname == ".."@ {
                assert(gname.len() == 2 && gname[0] == '.' && gname[1] == '.');
            }
        }
    }
    let name_vec = vstd::slice::slice_to_vec(name.as_slice());
    assert(name_vec@ == gname);
    let dot_found = last_index(&name_vec, '.', n);
    proof {
        lemma_last_index_of_range(gname, '.', n as int);
    }
    let dot = match dot_found {
        Some(k) => k,
        None => {
            assert(last_index_of(gname, '.', gname.len() as int) is None);
            return false;
        },
    };
    assert(last_index_of(gname, '.', gname.len() as int) == Some(dot as int));
    if dot == 0 {
        return false;
    }
    let ext = &name.as_slice()[dot + 1..n];
    assert(ext@ =~= gname.skip(dot + 1));
    assert(spec_extension(path@) == Some(gname.skip(dot + 1)));
    ext.len() == 3 && lower_ascii(ext[0]) == 'p' && lower_ascii(ext[1]) == 'd' && lower_ascii(
        ext[2],
    ) == 'f'
}

/// The texts of a list of paths.
pub open spec fn texts(v: Seq<String>) -> Seq<Seq<char>> {
    v.map_values(|s: String| s@)
}

/// `s` without the elements equal to `x`, in order.
pub open spec fn without(s: Seq<Seq<char>>, x: Seq<char>) -> Seq<Seq<char>>
    decreases s.len(),
{
    if s.len() == 0 {
        s
    } else if s.last() == x {
        without(s.drop_last(), x)
    } else {
        without(s.drop_last(), x).push(s.last())
    }
}

/// The elements of `s` in order, each kept at its first occurrence.
pub open spec fn dedup_first(s: Seq<Seq<char>>) -> Seq<Seq<char>>
    decreases s.len(),
{
    if s.len() == 0 {
        s
    } else {
        let d = dedup_first(s.drop_last());
        if d.contains(s.last()) {
            d
        } else {
            d.push(s.last())
        }
    }
}

/// Keeps the first `RECENTS_CAP` elements.
pub open spec fn capped(s: Seq<Seq<char>>) -> Seq<Seq<char>> {
    if s.len() <= RECENTS_CAP {
        s
    } else {
        s.take(RECENTS_CAP as int)
    }
}

fn contains_text(v: &Vec<String>, x: &String) -> (r: bool)
    ensures
        r == texts(v@).contains(x@),
{
    let mut i: usize = 0;
    while i < v.len()
        invariant
            i <= v@.len(),
            forall|j: int| 0 <= j < i ==> v@[j]@ != x@,
        decreases v@.len() - i,
    {
        if v[i] == *x {
            assert(texts(v@)[i as int] == x@);
            return true;
        }
        i = i + 1;
    }
    proof {
        if texts(v@).contains(x@) {
            let j = choose|j: int| 0 <= j < texts(v@).len() && texts(v@)[j] == x@;
            assert(v@[j]@ == x@);
        }
    }
    false
}

proof fn lemma_texts_push(v: Seq<String>, x: String)
    ensures
        texts(v.push(x)) == texts(v).push(x@),
{
    assert(texts(v.push(x)) =~= texts(v).push(x@));
}

/// Puts `path` first, drops its other occurrences, keeps `RECENTS_CAP`.
pub fn push_recent(recents: Vec<String>, path: String) -> (r: Vec<String>)
    ensures
        texts(r@) == capped(seq![path@] + without(texts(recents@), path@)),
{
    let mut out: Vec<String> = Vec::new();
    let ghost first = path@;
    out.push(path);
    let mut rest = drop_recent(recents, &out[0]);
    let mut i: usize = 0;
    let n = rest.len();
    let ghost kept = texts(rest@);
    assert(texts(out@) =~= seq![first] + kept.take(0));
    while i < n && out.len() < RECENTS_CAP
        invariant
            n == rest@.len() == kept.len(),
            kept == texts(rest@),
            i <= n,
            out@.len() == i + 1,
            out@.len() <= RECENTS_CAP,
            texts(out@) == seq![first] + kept.take(i as int),
        decreases n - i,
    {
        let item = rest[i].clone();
        assert(item@ == kept[i as int]);
        proof {
            lemma_texts_push(out@, item);
        }
        out.push(item);
        assert(kept.take(i + 1) =~= kept.take(i as int).push(kept[i as int]));
        assert(texts(out@) =~= seq![first] + kept.take(i + 1));
        i = i + 1;
    }
    proof {
        let all = seq![first] + kept;
        if i == n {
            assert(kept.take(i as int) =~= kept);
            assert(texts(out@) =~= all);
        } else {
            assert(i == RECENTS_CAP - 1);
            assert(all.len() > RECENTS_CAP);
            assert(all.take(RECENTS_CAP as int) =~= seq![first] + kept.take(i as int));
        }
    }
    out
}

/// `recents` without `path`.
pub fn drop_recent(recents: Vec<String>, path: &String) -> (r: Vec<String>)
    ensures
        texts(r@) == without(texts(recents@), path@),
{
    let mut out: Vec<String> = Vec::new();
    let mut i: usize = 0;
    assert(texts(recents@).take(0) =~= Seq::<Seq<char>>::empty());
    while i < recents.len()
        invariant
            i <= recents@.len(),
            texts(out@) == without(texts(recents@).take(i as int), path@),
        decreases recents@.len() - i,
    {
        let ghost pre = texts(recents@).take(i as int);
        assert(texts(recents@).take(i + 1).drop_last() =~= pre);
        if recents[i] != *path {
            out.push(recents[i].clone());
            assert(texts(out@) =~= without(pre, path@).push(recents@[i as int]@));
        }
        i = i + 1;
    }
    assert(texts(recents@).take(i as int) =~= texts(recents@));
    out
}

proof fn lemma_dedup_prefix(s: Seq<Seq<char>>, k: int)
    requires
        0 <= k <= s.len(),
    ensures
        dedup_first(s.take(k)).len() <= dedup_first(s).len(),
        dedup_first(s.take(k)) == dedup_first(s).take(dedup_first(s.take(k)).len() as int),
    decreases s.len() - k,
{
    if k == s.len() {
        assert(s.take(k) =~= s);
        assert(dedup_first(s).take(dedup_first(s).len() as int) =~= dedup_first(s));
    } else {
        lemma_dedup_prefix(s, k + 1);
        let a = dedup_first(s.take(k));
        let b = dedup_first(s.take(k + 1));
        assert(s.take(k + 1).drop_last() =~= s.take(k));
        let d = dedup_first(s);
        assert(a =~= b.take(a.len() as int)) by {
            if !a.contains(s[k]) {
                assert(b == a.push(s[k]));
            }
        }
        assert(a =~= d.take(a.len() as int));
    }
}

/// Each path once, at its first place, then the first `RECENTS_CAP`.
#[verifier::rlimit(30)]
fn dedup_capped(items: Vec<String>) -> (r: Vec<String>)
    ensures
        texts(r@) == capped(dedup_first(texts(items@))),
{
    let ghost all = texts(items@);
    let mut out: Vec<String> = Vec::new();
    let mut i: usize = 0;
    let n = items.len();
    assert(all.take(0) =~= Seq::<Seq<char>>::empty());
    while i < n
        invariant
            n == items@.len() == all.len(),
            all == texts(items@),
            i <= n,
            texts(out@) == dedup_first(all.take(i as int)),
            out@.len() < RECENTS_CAP,
        decreases n - i,
    {
        let item = items[i].clone();
        assert(item@ == all[i as int]);
        assert(all.take(i + 1).drop_last() =~= all.take(i as int));
        if !contains_text(&out, &item) {
            proof {
                lemma_texts_push(out@, item);
            }
            out.push(item);
        }
        assert(texts(out@) == dedup_first(all.take(i + 1)));
        i = i + 1;
        if out.len() == RECENTS_CAP {
            proof {
                lemma_dedup_prefix(all, i as int);
                let d = dedup_first(all);
                assert(d.len() >= RECENTS_CAP);
                assert(texts(out@) == d.take(RECENTS_CAP as int));
                if d.len() == RECENTS_CAP {
                    assert(d.take(RECENTS_CAP as int) =~= d);
                    assert(capped(d) == d);
                } else {
                    assert(capped(d) == d.take(RECENTS_CAP as int));
                }
                assert(texts(out@) == capped(d));
            }
            return out;
        }
    }
    assert(all.take(n as int) =~= all);
    out
}

/// The primary list, then the secondary one, each path once, at most
/// `RECENTS_CAP`.
pub fn merge_recents(primary: Vec<String>, secondary: Vec<String>) -> (r: Vec<String>)
    ensures
        texts(r@) == capped(dedup_first(texts(primary@) + texts(secondary@))),
{
    let mut items = primary;
    let mut tail = secondary;
    let ghost all = texts(items@) + texts(tail@);
    items.append(&mut tail);
    assert(texts(items@) =~= all);
    dedup_capped(items)
}

/// The recents that the text of a recents file lists: one path per line,
/// trimmed; blank lines and paths that do not name a PDF are skipped; each
/// path kept once, at most `RECENTS_CAP`.
pub open spec fn spec_recents_from_text(raw: Seq<char>) -> Seq<Seq<char>> {
    capped(dedup_first(pdf_lines(split_on(raw, '\n'))))
}

/// The trimmed lines that name a PDF.
pub open spec fn pdf_lines(lines: Seq<Seq<char>>) -> Seq<Seq<char>>
    decreases lines.len(),
{
    if lines.len() == 0 {
        Seq::empty()
    } else {
        let before = pdf_lines(lines.drop_last());
        let t = spec_trim(lines.last());
        if t.len() > 0 && spec_is_pdf(t) {
            before.push(t)
        } else {
            before
        }
    }
}


proof fn lemma_split_on_step(s: Seq<char>, c: char, sep: char)
    ensures
        split_on(s.push(c), sep) == (if c == sep {
            split_on(s, sep).push(Seq::empty())
        } else {
            split_on(s, sep).update(
                split_on(s, sep).len() - 1,
                split_on(s, sep).last().push(c),
            )
        }),
{
    assert(s.push(c).drop_last() =~= s);
}

/// The trimmed line `raw[from..to)`, when it names a PDF.
fn pdf_line(cs: &Vec<char>, from: usize, to: usize) -> (r: Option<String>)
    requires
        from <= to <= cs@.len(),
    ensures
        ({
            let t = spec_trim(cs@.subrange(from as int, to as int));
            match r {
                Some(p) => t.len() > 0 && spec_is_pdf(t) && p@ == t,
                None => !(t.len() > 0 && spec_is_pdf(t)),
            }
        }),
{
    let (a, b) = trim_bounds(cs, from, to);
    if a == b {
        return None;
    }
    let t = string_from_chars(&cs.as_slice()[a..b]);
    if is_pdf(t.as_str()) {
        Some(t)
    } else {
        None
    }
}

/// The recents that the text of a recents file lists.
pub fn read_recents(raw: &str) -> (r: Vec<String>)
    ensures
        texts(r@) == spec_recents_from_text(raw@),
{
    let cs = chars_vec(raw);
    let mut found: Vec<String> = Vec::new();
    let ghost mut done: Seq<Seq<char>> = Seq::empty();
    let mut start: usize = 0;
    let mut i: usize = 0;
    let n = cs.len();
    assert(cs@.take(0) =~= Seq::<char>::empty());
    assert(cs@.subrange(0, 0) =~= Seq::<char>::empty());
    while i < n
        invariant
            n == cs@.len(),
            start <= i <= n,
            split_on(cs@.take(i as int), '\n') == done.push(cs@.subrange(start as int, i as int)),
            texts(found@) == pdf_lines(done),
        decreases n - i,
    {
        proof {
            lemma_split_on_step(cs@.take(i as int), cs@[i as int], '\n');
            assert(cs@.take(i + 1) =~= cs@.take(i as int).push(cs@[i as int]));
        }
        if cs[i] == '\n' {
            let line = pdf_line(&cs, start, i);
            match line {
                Some(p) => {
                    proof {
                        lemma_texts_push(found@, p);
                        assert(done.push(cs@.subrange(start as int, i as int)).drop_last() =~= done);
                    }
                    found.push(p);
                },
                None => {
                    proof {
                        assert(done.push(cs@.subrange(start as int, i as int)).drop_last() =~= done);
                    }
                },
            }
            proof {
                done = done.push(cs@.subrange(start as int, i as int));
            }
            start = i + 1;
            assert(cs@.subrange(start as int, i + 1) =~= Seq::<char>::empty());
        } else {
            assert(cs@.subrange(start as int, i + 1) =~= cs@.subrange(start as int, i as int).push(
                cs@[i as int],
            ));
        }
        i = i + 1;
    }
    let last = pdf_line(&cs, start, n);
    proof {
        assert(done.push(cs@.subrange(start as int, n as int)).drop_last() =~= done);
    }
    match last {
        Some(p) => {
            proof {
                lemma_texts_push(found@, p);
            }
            found.push(p);
        },
        None => {},
    }
    assert(cs@.take(n as int) =~= cs@);
    assert(texts(found@) == pdf_lines(split_on(raw@, '\n')));
    dedup_capped(found)
}

/// The text of a recents file: each of the first `RECENTS_CAP` paths on
/// a line of its own.
pub open spec fn lines_text(paths: Seq<Seq<char>>) -> Seq<char>
    decreases paths.len(),
{
    if paths.len() == 0 {
        Seq::empty()
    } else {
        lines_text(paths.drop_last()) + paths.last() + seq!['\n']
    }
}

/// The body that saving `paths` writes.
pub fn recents_body(paths: &Vec<String>) -> (r: String)
    ensures
        r@ == lines_text(capped(texts(paths@))),
{
    let mut body = String::new();
    let mut i: usize = 0;
    let n = if paths.len() < RECENTS_CAP {
        paths.len()
    } else {
        RECENTS_CAP
    };
    let ghost all = texts(paths@);
    assert(all.take(0) =~= Seq::<Seq<char>>::empty());
    while i < n
        invariant
            n <= paths@.len(),
            n == capped(all).len(),
            all == texts(paths@),
            i <= n,
            body@ == lines_text(all.take(i as int)),
        decreases n - i,
    {
        push_str(&mut body, paths[i].as_str());
        push_char(&mut body, '\n');
        assert(all.take(i + 1).drop_last() =~= all.take(i as int));
        assert(body@ =~= lines_text(all.take(i + 1)));
        i = i + 1;
    }
    assert(all.take(n as int) =~= capped(all));
    body
}


proof fn lemma_split_on_append(s: Seq<char>, t: Seq<char>, sep: char)
    requires
        !t.contains(sep),
    ensures
        split_on(s + t, sep) == split_on(s, sep).update(
            split_on(s, sep).len() - 1,
            split_on(s, sep).last() + t,
        ),
    decreases t.len(),
{
    lemma_split_on_nonempty(s, sep);
    let base = split_on(s, sep);
    if t.len() == 0 {
        assert(s + t =~= s);
        assert(base.last() + t =~= base.last());
        assert(base.update(base.len() - 1, base.last() + t) =~= base);
    } else {
        let t0 = t.drop_last();
        let c = t.last();
        assert(t0.contains(sep) ==> t.contains(sep)) by {
            if t0.contains(sep) {
                let k = choose|k: int| 0 <= k < t0.len() && t0[k] == sep;
                assert(t[k] == sep);
            }
        }
        assert(c != sep) by {
            assert(t[t.len() - 1] == c);
        }
        lemma_split_on_append(s, t0, sep);
        lemma_split_on_step(s + t0, c, sep);
        assert(s + t =~= (s + t0).push(c));
        assert((base.last() + t0).push(c) =~= base.last() + t);
        let mid = base.update(base.len() - 1, base.last() + t0);
        assert(mid.update(mid.len() - 1, mid.last().push(c)) =~= base.update(
            base.len() - 1,
            base.last() + t,
        ));
    }
}

proof fn lemma_split_lines_text(ps: Seq<Seq<char>>)
    requires
        forall|i: int| 0 <= i < ps.len() ==> !(#[trigger] ps[i]).contains('\n'),
    ensures
        split_on(lines_text(ps), '\n') == ps.push(Seq::empty()),
    decreases ps.len(),
{
    if ps.len() == 0 {
        assert(split_on(Seq::<char>::empty(), '\n') =~= ps.push(Seq::empty()));
    } else {
        let pre = ps.drop_last();
        let p = ps.last();
        assert(!p.contains('\n')) by {
            assert(ps[ps.len() - 1] == p);
        }
        lemma_split_lines_text(pre);
        let x = lines_text(pre);
        lemma_split_on_append(x, p, '\n');
        let y = pre.push(Seq::<char>::empty());
        assert(y.update(y.len() - 1, y.last() + p) =~= ps) by {
            assert(Seq::<char>::empty() + p =~= p);
        }
        lemma_split_on_step(x + p, '\n', '\n');
        assert(lines_text(ps) =~= (x + p).push('\n'));
    }
}

/// A recents list whose paths read back as they are: each a nonempty,
/// trimmed line that names a PDF, and no path twice.
pub open spec fn recents_readable(ps: Seq<Seq<char>>) -> bool {
    &&& forall|i: int|
        0 <= i < ps.len() ==> {
            &&& (#[trigger] ps[i]).len() > 0
            &&& !ps[i].contains('\n')
            &&& spec_trim(ps[i]) == ps[i]
            &&& spec_is_pdf(ps[i])
        }
    &&& ps.no_duplicates()
}

proof fn lemma_pdf_lines_keep(ps: Seq<Seq<char>>)
    requires
        recents_readable(ps),
    ensures
        pdf_lines(ps) == ps,
        pdf_lines(ps.push(Seq::empty())) == ps,
    decreases ps.len(),
{
    assert(ps.push(Seq::<char>::empty()).drop_last() =~= ps);
    assert(spec_trim(Seq::<char>::empty()) =~= Seq::<char>::empty());
    assert(ps.push(Seq::<char>::empty()).last() == Seq::<char>::empty());
    assert(pdf_lines(ps.push(Seq::empty())) == pdf_lines(ps));
    if ps.len() > 0 {
        let pre = ps.drop_last();
        assert(recents_readable(pre)) by {
            assert forall|i: int| 0 <= i < pre.len() implies {
                &&& (#[trigger] pre[i]).len() > 0
                &&& !pre[i].contains('\n')
                &&& spec_trim(pre[i]) == pre[i]
                &&& spec_is_pdf(pre[i])
            } by {
                assert(pre[i] == ps[i]);
            }
        }
        lemma_pdf_lines_keep(pre);
        assert(ps[ps.len() - 1] == ps.last());
        assert(pre.push(ps.last()) =~= ps);
    }
}

proof fn lemma_dedup_distinct(ps: Seq<Seq<char>>)
    requires
        ps.no_duplicates(),
    ensures
        dedup_first(ps) == ps,
    decreases ps.len(),
{
    if ps.len() > 0 {
        let pre = ps.drop_last();
        assert(pre.no_duplicates());
        lemma_dedup_distinct(pre);
        assert(!pre.contains(ps.last())) by {
            if pre.contains(ps.last()) {
                let k = choose|k: int| 0 <= k < pre.len() && pre[k] == ps.last();
                assert(ps[k] == ps[ps.len() - 1]);
            }
        }
        assert(pre.push(ps.last()) =~= ps);
    }
}

/// Saving a recents list and reading the file back gives the list, cut to
/// `RECENTS_CAP`, when each path is a nonempty trimmed line naming a PDF
/// and no path comes twice.
pub proof fn law_recents_roundtrip(ps: Seq<Seq<char>>)
    requires
        recents_readable(ps),
    ensures
        spec_recents_from_text(lines_text(capped(ps))) == capped(ps),
{
    let c = capped(ps);
    assert(recents_readable(c)) by {
        assert forall|i: int| 0 <= i < c.len() implies {
            &&& (#[trigger] c[i]).len() > 0
            &&& !c[i].contains('\n')
            &&& spec_trim(c[i]) == c[i]
            &&& spec_is_pdf(c[i])
        } by {
            assert(c[i] == ps[i]);
        }
        assert forall|i: int, j: int| 0 <= i < c.len() && 0 <= j < c.len() && i != j implies c[i]
            != c[j] by {
            assert(c[i] == ps[i] && c[j] == ps[j]);
        }
    }
    lemma_split_lines_text(c);
    lemma_pdf_lines_keep(c);
    lemma_dedup_distinct(c);
}


proof fn lemma_without_props(s: Seq<Seq<char>>, x: Seq<char>)
    ensures
        forall|y: Seq<char>| #[trigger] without(s, x).contains(y) <==> (s.contains(y) && y != x),
        s.no_duplicates() ==> without(s, x).no_duplicates(),
    decreases s.len(),
{
    if s.len() > 0 {
        let pre = s.drop_last();
        lemma_without_props(pre, x);
        let w = without(pre, x);
        assert forall|y: Seq<char>| s.contains(y) <==> (pre.contains(y) || y == s.last()) by {
            if s.contains(y) {
                let k = choose|k: int| 0 <= k < s.len() && s[k] == y;
                if k < s.len() - 1 {
                    assert(pre[k] == y);
                }
            }
            if pre.contains(y) {
                let k = choose|k: int| 0 <= k < pre.len() && pre[k] == y;
                assert(s[k] == y);
            }
            if y == s.last() {
                assert(s[s.len() - 1] == y);
            }
        }
        if s.last() != x {
            assert forall|y: Seq<char>| w.push(s.last()).contains(y) <==> (w.contains(y) || y
                == s.last()) by {
                if w.push(s.last()).contains(y) {
                    let k = choose|k: int| 0 <= k < w.len() + 1 && w.push(s.last())[k] == y;
                    if k < w.len() {
                        assert(w[k] == y);
                    }
                }
                if w.contains(y) {
                    let k = choose|k: int| 0 <= k < w.len() && w[k] == y;
                    assert(w.push(s.last())[k] == y);
                }
                if y == s.last() {
                    assert(w.push(s.last())[w.len() as int] == y);
                }
            }
            if s.no_duplicates() {
                assert(pre.no_duplicates());
                assert(!pre.contains(s.last())) by {
                    if pre.contains(s.last()) {
                        let k = choose|k: int| 0 <= k < pre.len() && pre[k] == s.last();
                        assert(s[k] == s[s.len() - 1]);
                    }
                }
                assert(!w.contains(s.last()));
                assert forall|i: int, j: int|
                    0 <= i < w.len() + 1 && 0 <= j < w.len() + 1 && i != j implies w.push(
                    s.last(),
                )[i] != w.push(s.last())[j] by {
                    if i == w.len() {
                        assert(w[j] == w.push(s.last())[j]);
                    } else if j == w.len() {
                        assert(w[i] == w.push(s.last())[i]);
                    }
                }
            }
        } else {
            if s.no_duplicates() {
                assert(pre.no_duplicates());
            }
        }
        assert forall|y: Seq<char>| #[trigger] without(s, x).contains(y) <==> (s.contains(y) && y
            != x) by {
            assert(w.contains(y) <==> (pre.contains(y) && y != x));
            assert(s.contains(y) <==> (pre.contains(y) || y == s.last()));
            if s.last() != x {
                assert(w.push(s.last()).contains(y) <==> (w.contains(y) || y == s.last()));
            }
        }
    }
}

proof fn lemma_dedup_props(s: Seq<Seq<char>>)
    ensures
        forall|y: Seq<char>| #[trigger] dedup_first(s).contains(y) <==> s.contains(y),
        dedup_first(s).no_duplicates(),
    decreases s.len(),
{
    if s.len() > 0 {
        let pre = s.drop_last();
        lemma_dedup_props(pre);
        let d = dedup_first(pre);
        assert forall|y: Seq<char>| s.contains(y) <==> (pre.contains(y) || y == s.last()) by {
            if s.contains(y) {
                let k = choose|k: int| 0 <= k < s.len() && s[k] == y;
                if k < s.len() - 1 {
                    assert(pre[k] == y);
                }
            }
            if pre.contains(y) {
                let k = choose|k: int| 0 <= k < pre.len() && pre[k] == y;
                assert(s[k] == y);
            }
            if y == s.last() {
                assert(s[s.len() - 1] == y);
            }
        }
        if !d.contains(s.last()) {
            assert forall|y: Seq<char>| d.push(s.last()).contains(y) <==> (d.contains(y) || y
                == s.last()) by {
                if d.push(s.last()).contains(y) {
                    let k = choose|k: int| 0 <= k < d.len() + 1 && d.push(s.last())[k] == y;
                    if k < d.len() {
                        assert(d[k] == y);
                    }
                }
                if d.contains(y) {
                    let k = choose|k: int| 0 <= k < d.len() && d[k] == y;
                    assert(d.push(s.last())[k] == y);
                }
                if y == s.last() {
                    assert(d.push(s.last())[d.len() as int] == y);
                }
            }
            assert forall|i: int, j: int|
                0 <= i < d.len() + 1 && 0 <= j < d.len() + 1 && i != j implies d.push(
                s.last(),
            )[i] != d.push(s.last())[j] by {
                if i == d.len() {
                    assert(d[j] == d.push(s.last())[j]);
                } else if j == d.len() {
                    assert(d[i] == d.push(s.last())[i]);
                }
            }
        }
        assert forall|y: Seq<char>| #[trigger] dedup_first(s).contains(y) <==> s.contains(y) by {
            assert(d.contains(y) <==> pre.contains(y));
            assert(s.contains(y) <==> (pre.contains(y) || y == s.last()));
            if !d.contains(s.last()) {
                assert(d.push(s.last()).contains(y) <==> (d.contains(y) || y == s.last()));
            }
        }
    }
}

proof fn lemma_take_props(s: Seq<Seq<char>>, k: int)
    requires
        0 <= k <= s.len(),
    ensures
        forall|y: Seq<char>| #[trigger] s.take(k).contains(y) ==> s.contains(y),
        s.no_duplicates() ==> s.take(k).no_duplicates(),
{
    assert forall|y: Seq<char>| #[trigger] s.take(k).contains(y) implies s.contains(y) by {
        let i = choose|i: int| 0 <= i < k && s.take(k)[i] == y;
        assert(s[i] == y);
    }
    if s.no_duplicates() {
        assert forall|i: int, j: int| 0 <= i < k && 0 <= j < k && i != j implies s.take(k)[i]
            != s.take(k)[j] by {
            assert(s.take(k)[i] == s[i] && s.take(k)[j] == s[j]);
        }
    }
}

/// After pushing `p`, the recents start with `p`, hold it once, hold at
/// most `RECENTS_CAP` paths, each `p` or one that was there before, and
/// hold no path twice when the old list held none twice.
pub proof fn law_push_recent(rs: Seq<Seq<char>>, p: Seq<char>)
    ensures
        ({
            let r = capped(seq![p] + without(rs, p));
            &&& 1 <= r.len() <= RECENTS_CAP
            &&& r[0] == p
            &&& !r.drop_first().contains(p)
            &&& forall|y: Seq<char>| #[trigger] r.contains(y) ==> y == p || rs.contains(y)
            &&& rs.no_duplicates() ==> r.no_duplicates()
        }),
{
    lemma_without_props(rs, p);
    let w = without(rs, p);
    let full = seq![p] + w;
    let r = capped(full);
    lemma_take_props(full, r.len() as int);
    assert(r =~= full.take(r.len() as int));
    assert(r[0] == full[0]);
    assert forall|y: Seq<char>| #[trigger] full.contains(y) implies y == p || w.contains(y) by {
        let i = choose|i: int| 0 <= i < full.len() && full[i] == y;
        if i > 0 {
            assert(w[i - 1] == y);
        }
    }
    assert(!w.contains(p));
    assert(!r.drop_first().contains(p)) by {
        if r.drop_first().contains(p) {
            let i = choose|i: int| 0 <= i < r.drop_first().len() && r.drop_first()[i] == p;
            assert(r.drop_first()[i] == r[i + 1]);
            assert(r[i + 1] == full[i + 1]);
            assert(full[i + 1] == w[i]);
            assert(w.contains(p));
        }
    }
    if rs.no_duplicates() {
        assert forall|i: int, j: int|
            0 <= i < full.len() && 0 <= j < full.len() && i != j implies full[i] != full[j] by {
            if i == 0 {
                assert(full[j] == w[j - 1]);
                assert(w.contains(w[j - 1]));
            } else if j == 0 {
                assert(full[i] == w[i - 1]);
                assert(w.contains(w[i - 1]));
            } else {
                assert(full[i] == w[i - 1] && full[j] == w[j - 1]);
            }
        }
    }
}

/// Dropping `p` removes each of its occurrences and keeps every other path.
pub proof fn law_drop_recent(rs: Seq<Seq<char>>, p: Seq<char>)
    ensures
        forall|y: Seq<char>| #[trigger] without(rs, p).contains(y) <==> (rs.contains(y) && y != p),
{
    lemma_without_props(rs, p);
}

/// Merging keeps the primary list as it is, in front, when it holds each
/// path once and no more than `RECENTS_CAP`; the result holds each path
/// once, and only paths of the two lists.
pub proof fn law_merge_recents(a: Seq<Seq<char>>, b: Seq<Seq<char>>)
    ensures
        ({
            let r = capped(dedup_first(a + b));
            &&& r.len() <= RECENTS_CAP
            &&& r.no_duplicates()
            &&& forall|y: Seq<char>| #[trigger] r.contains(y) ==> a.contains(y) || b.contains(y)
            &&& (a.no_duplicates() && a.len() <= RECENTS_CAP) ==> r.take(a.len() as int) == a
        }),
{
    let d = dedup_first(a + b);
    lemma_dedup_props(a + b);
    let r = capped(d);
    lemma_take_props(d, r.len() as int);
    assert(r =~= d.take(r.len() as int));
    assert forall|y: Seq<char>| #[trigger] (a + b).contains(y) implies a.contains(y) || b.contains(
        y,
    ) by {
        let i = choose|i: int| 0 <= i < (a + b).len() && (a + b)[i] == y;
        if i < a.len() {
            assert(a[i] == y);
        } else {
            assert(b[i - a.len()] == y);
        }
    }
    if a.no_duplicates() && a.len() <= RECENTS_CAP {
        lemma_dedup_prefix(a + b, a.len() as int);
        assert((a + b).take(a.len() as int) =~= a);
        lemma_dedup_distinct(a);
        assert(r.take(a.len() as int) =~= d.take(a.len() as int));
    }
}


/// An entry of a folder listing.
#[derive(Debug, Clone)]
pub struct FsEntry {
    pub path: String,
    pub name: String,
    pub is_dir: bool,
}

/// Whether a listing shows an entry: no hidden name, and a folder or a PDF.
pub open spec fn entry_shown(e: FsEntry) -> bool {
    &&& !(e.name@.len() > 0 && e.name@[0] == '.')
    &&& (e.is_dir || spec_is_pdf(e.path@))
}

/// `a` is listed strictly before `b`: folders first, then by the lowercase
/// name.
pub open spec fn entry_before(a: FsEntry, b: FsEntry) -> bool {
    ||| (a.is_dir && !b.is_dir)
    ||| (a.is_dir == b.is_dir && text_lt(lowercase_text(a.name@), lowercase_text(b.name@)))
}

/// The shown entries of `s`, in order.
pub open spec fn shown(s: Seq<FsEntry>) -> Seq<FsEntry>
    decreases s.len(),
{
    if s.len() == 0 {
        s
    } else if entry_shown(s.last()) {
        shown(s.drop_last()).push(s.last())
    } else {
        shown(s.drop_last())
    }
}

/// Where `e` goes in `s`: before the first entry that it comes before,
/// searching from `j`.
pub open spec fn first_after(s: Seq<FsEntry>, e: FsEntry, j: int) -> int
    decreases s.len() - j,
{
    if j >= s.len() || j < 0 {
        j
    } else if entry_before(e, s[j]) {
        j
    } else {
        first_after(s, e, j + 1)
    }
}

/// The stable sort of `s` by `entry_before`: each entry goes after those
/// that it does not come before.
pub open spec fn sorted_entries(s: Seq<FsEntry>) -> Seq<FsEntry>
    decreases s.len(),
{
    if s.len() == 0 {
        s
    } else {
        let r = sorted_entries(s.drop_last());
        r.insert(first_after(r, s.last(), 0), s.last())
    }
}

/// What a folder listing shows of the entries read from the folder.
pub open spec fn spec_listing(s: Seq<FsEntry>) -> Seq<FsEntry> {
    sorted_entries(shown(s))
}

proof fn lemma_first_after(s: Seq<FsEntry>, e: FsEntry, j: int)
    requires
        0 <= j <= s.len(),
    ensures
        j <= first_after(s, e, j) <= s.len(),
        forall|i: int| j <= i < first_after(s, e, j) ==> !entry_before(e, #[trigger] s[i]),
        first_after(s, e, j) < s.len() ==> entry_before(e, s[first_after(s, e, j)]),
    decreases s.len() - j,
{
    if j < s.len() && !entry_before(e, s[j]) {
        lemma_first_after(s, e, j + 1);
    }
}

/// Whether `e` goes before an entry whose folder flag and lowercase name
/// are given.
fn goes_before(e_dir: bool, e_key: &Vec<char>, o_dir: bool, o_key: &Vec<char>) -> (r: bool)
    ensures
        r == ((e_dir && !o_dir) || (e_dir == o_dir && text_lt(e_key@, o_key@))),
{
    if e_dir && !o_dir {
        true
    } else if e_dir == o_dir {
        chars_lt(e_key, o_key)
    } else {
        false
    }
}

/// The characters of an entry's lowercase name.
fn name_key(e: &FsEntry) -> (r: Vec<char>)
    ensures
        r@ == lowercase_text(e.name@),
{
    let low = to_lowercase(e.name.as_str());
    chars_vec(low.as_str())
}

/// Inserts `e` into a sorted listing, after the entries that it does not
/// come before.
fn insert_entry(out: &mut Vec<FsEntry>, keys: &mut Vec<Vec<char>>, e: FsEntry)
    requires
        old(keys)@.len() == old(out)@.len(),
        forall|j: int|
            0 <= j < old(out)@.len() ==> (#[trigger] old(keys)@[j])@ == lowercase_text(
                old(out)@[j].name@,
            ),
    ensures
        final(out)@ == old(out)@.insert(first_after(old(out)@, e, 0), e),
        final(keys)@.len() == final(out)@.len(),
        forall|j: int|
            0 <= j < final(out)@.len() ==> (#[trigger] final(keys)@[j])@ == lowercase_text(
                final(out)@[j].name@,
            ),
{
    let key = name_key(&e);
    let ghost s = out@;
    let mut k: usize = 0;
    proof {
        lemma_first_after(s, e, 0);
    }
    while k < out.len() && !goes_before(e.is_dir, &key, out[k].is_dir, &keys[k])
        invariant
            out@ == s,
            keys@.len() == s.len(),
            forall|j: int| 0 <= j < s.len() ==> (#[trigger] keys@[j])@ == lowercase_text(s[j].name@),
            key@ == lowercase_text(e.name@),
            k <= s.len(),
            first_after(s, e, 0) == first_after(s, e, k as int),
        decreases s.len() - k,
    {
        k = k + 1;
    }
    let ghost ks = keys@;
    out.insert(k, e);
    keys.insert(k, key);
    assert forall|j: int| 0 <= j < out@.len() implies (#[trigger] keys@[j])@ == lowercase_text(
        out@[j].name@,
    ) by {
        if j < k {
            assert(keys@[j] == ks[j]);
        } else if j > k {
            assert(keys@[j] == ks[j - 1]);
        }
    }
}

/// Orders the entries read from a folder as the browser lists them:
/// hidden names, and files that are not PDFs, are left out; folders come
/// first, then the rest by lowercase name, ties in the order read.
pub fn listing(entries: Vec<FsEntry>) -> (r: Vec<FsEntry>)
    ensures
        r@ == spec_listing(entries@),
{
    let ghost orig = entries@;
    let mut rest = entries;
    let mut visible: Vec<FsEntry> = Vec::new();
    let mut i: usize = 0;
    let n = rest.len();
    assert(orig.take(0) =~= Seq::<FsEntry>::empty());
    while rest.len() > 0
        invariant
            n == orig.len(),
            i + rest@.len() == n,
            rest@ == orig.skip(i as int),
            visible@ == shown(orig.take(i as int)),
        decreases rest@.len(),
    {
        let e = rest.remove(0);
        assert(e == orig[i as int]);
        assert(orig.take(i + 1).drop_last() =~= orig.take(i as int));
        assert(rest@ =~= orig.skip(i + 1));
        let hidden = !e.name.as_str().is_empty() && e.name.as_str().get_char(0) == '.';
        if !hidden && (e.is_dir || is_pdf(e.path.as_str())) {
            visible.push(e);
        }
        i = i + 1;
    }
    assert(orig.take(i as int) =~= orig);
    let ghost vis = visible@;
    let mut out: Vec<FsEntry> = Vec::new();
    let mut keys: Vec<Vec<char>> = Vec::new();
    let mut j: usize = 0;
    let m = visible.len();
    assert(vis.take(0) =~= Seq::<FsEntry>::empty());
    while visible.len() > 0
        invariant
            m == vis.len(),
            j + visible@.len() == m,
            visible@ == vis.skip(j as int),
            out@ == sorted_entries(vis.take(j as int)),
            keys@.len() == out@.len(),
            forall|q: int| 0 <= q < out@.len() ==> (#[trigger] keys@[q])@ == lowercase_text(out@[q].name@),
        decreases visible@.len(),
    {
        let e = visible.remove(0);
        assert(e == vis[j as int]);
        assert(vis.take(j + 1).drop_last() =~= vis.take(j as int));
        assert(visible@ =~= vis.skip(j + 1));
        insert_entry(&mut out, &mut keys, e);
        j = j + 1;
    }
    assert(vis.take(j as int) =~= vis);
    out
}


/// No entry of `s` comes before one that precedes it.
pub open spec fn listing_ordered(s: Seq<FsEntry>) -> bool {
    forall|a: int, b: int| 0 <= a < b < s.len() ==> !entry_before(#[trigger] s[b], #[trigger] s[a])
}

proof fn lemma_entry_before_order(a: FsEntry, b: FsEntry, c: FsEntry)
    ensures
        !entry_before(a, a),
        entry_before(a, b) && entry_before(b, c) ==> entry_before(a, c),
{
    lemma_text_lt_irreflexive(lowercase_text(a.name@));
    if entry_before(a, b) && entry_before(b, c) {
        if a.is_dir == b.is_dir && b.is_dir == c.is_dir {
            lemma_text_lt_transitive(
                lowercase_text(a.name@),
                lowercase_text(b.name@),
                lowercase_text(c.name@),
            );
        }
    }
}

proof fn lemma_insert_ordered(r: Seq<FsEntry>, e: FsEntry)
    requires
        listing_ordered(r),
    ensures
        listing_ordered(r.insert(first_after(r, e, 0), e)),
{
    lemma_first_after(r, e, 0);
    let k = first_after(r, e, 0);
    let t = r.insert(k, e);
    assert forall|a: int, b: int| 0 <= a < b < t.len() implies !entry_before(
        #[trigger] t[b],
        #[trigger] t[a],
    ) by {
        if a < k && b < k {
            assert(t[a] == r[a] && t[b] == r[b]);
        } else if a < k && b == k {
            assert(t[a] == r[a] && t[b] == e);
        } else if a < k && b > k {
            assert(t[a] == r[a] && t[b] == r[b - 1]);
        } else if a == k {
            assert(t[a] == e && t[b] == r[b - 1]);
            lemma_entry_before_order(r[b - 1], e, r[k]);
            lemma_entry_before_order(r[k], r[k], r[k]);
            if b - 1 > k {
                assert(!entry_before(r[b - 1], r[k]));
            }
        } else {
            assert(t[a] == r[a - 1] && t[b] == r[b - 1]);
        }
    }
}

proof fn lemma_insert_multiset(r: Seq<FsEntry>, k: int, e: FsEntry)
    requires
        0 <= k <= r.len(),
    ensures
        r.insert(k, e).to_multiset() == r.to_multiset().insert(e),
{
    broadcast use vstd::seq_lib::group_to_multiset_ensures;

    let t = r.insert(k, e);
    assert(t.remove(k) =~= r);
    assert(t[k] == e);
    assert(r.to_multiset() == t.to_multiset().remove(e));
    assert(t.contains(e));
    assert(t.to_multiset().count(e) > 0);
    assert(t.to_multiset() =~= t.to_multiset().remove(e).insert(e));
}

proof fn lemma_sorted_entries(s: Seq<FsEntry>)
    ensures
        listing_ordered(sorted_entries(s)),
        sorted_entries(s).to_multiset() == s.to_multiset(),
    decreases s.len(),
{
    broadcast use vstd::seq_lib::group_to_multiset_ensures;

    if s.len() > 0 {
        let r = sorted_entries(s.drop_last());
        lemma_sorted_entries(s.drop_last());
        lemma_insert_ordered(r, s.last());
        lemma_first_after(r, s.last(), 0);
        lemma_insert_multiset(r, first_after(r, s.last(), 0), s.last());
        assert(s.drop_last().push(s.last()) =~= s);
    }
}

proof fn lemma_shown(s: Seq<FsEntry>)
    ensures
        forall|i: int| 0 <= i < shown(s).len() ==> entry_shown(#[trigger] shown(s)[i]),
    decreases s.len(),
{
    if s.len() > 0 {
        let pre = shown(s.drop_last());
        lemma_shown(s.drop_last());
        assert forall|i: int| 0 <= i < shown(s).len() implies entry_shown(#[trigger] shown(s)[i]) by {
            if i < pre.len() {
                assert(shown(s)[i] == pre[i]);
            }
        }
    }
}

/// A folder listing holds exactly the shown entries that were read, each as
/// often as it was read, folders before files and names in order.
pub proof fn law_listing(s: Seq<FsEntry>)
    ensures
        listing_ordered(spec_listing(s)),
        spec_listing(s).to_multiset() == shown(s).to_multiset(),
        forall|x: FsEntry| #[trigger] spec_listing(s).contains(x) ==> entry_shown(x),
{
    broadcast use vstd::seq_lib::group_to_multiset_ensures;

    lemma_sorted_entries(shown(s));
    lemma_shown(s);
    assert forall|x: FsEntry| #[trigger] spec_listing(s).contains(x) implies entry_shown(x) by {
        assert(spec_listing(s).to_multiset().count(x) > 0);
        assert(shown(s).contains(x));
        let i = choose|i: int| 0 <= i < shown(s).len() && shown(s)[i] == x;
        assert(entry_shown(shown(s)[i]));
    }
}


/// `Path::parent` of a canonical path text: none for the root and for the
/// empty path; the empty path for a single relative component.
pub open spec fn spec_parent(p: Seq<char>) -> Option<Seq<char>> {
    if p.len() == 0 || p == seq!['/'] {
        None
    } else {
        match last_index_of(p, '/', p.len() as int) {
            None => Some(Seq::empty()),
            Some(k) => if k == 0 {
                Some(seq!['/'])
            } else {
                Some(p.take(k))
            },
        }
    }
}

/// The folder that "up" leads to from `cwd`: none from a special folder,
/// whose parent is the list of special folders, else the path's parent.
pub open spec fn spec_parent_of(cwd: Seq<char>, specials: Seq<FsEntry>) -> Option<Seq<char>> {
    if exists|i: int| 0 <= i < specials.len() && (#[trigger] specials[i]).path@ == cwd {
        None
    } else {
        spec_parent(cwd)
    }
}

/// Where "up" leads from `cwd`, given the special folders.
pub fn parent_of(cwd: &str, specials: &Vec<FsEntry>) -> (r: Option<String>)
    ensures
        match spec_parent_of(cwd@, specials@) {
            Some(p) => r matches Some(s) && s@ == p,
            None => r is None,
        },
{
    let here = string_of(cwd);
    let mut i: usize = 0;
    while i < specials.len()
        invariant
            i <= specials@.len(),
            here@ == cwd@,
            forall|j: int| 0 <= j < i ==> (#[trigger] specials@[j]).path@ != cwd@,
        decreases specials@.len() - i,
    {
        if specials[i].path == here {
            return None;
        }
        i = i + 1;
    }
    let cs = chars_vec(cwd);
    let n = cs.len();
    if n == 0 || (n == 1 && cs[0] == '/') {
        assert(n == 1 ==> cs@ =~= seq!['/']);
        return None;
    }
    assert(cs@ != seq!['/']) by {
        if cs@ == seq!['/'] {
            assert(cs@.len() == 1 && cs@[0] == '/');
        }
    }
    let found = last_index(&cs, '/', n);
    proof {
        lemma_last_index_of_range(cs@, '/', n as int);
    }
    match found {
        None => Some(String::new()),
        Some(k) => if k == 0 {
            let mut s = String::new();
            push_char(&mut s, '/');
            assert(s@ =~= seq!['/']);
            Some(s)
        } else {
            let s = string_from_chars(&cs.as_slice()[0..k]);
            assert(s@ =~= cs@.take(k as int));
            Some(s)
        },
    }
}

/// The label of the browser's location: the path, or "Pastas" for the list
/// of special folders.
pub fn display_path(cwd: Option<&str>) -> (r: String)
    ensures
        match cwd {
            None => r@ == "Pastas"@,
            Some(p) => r@ == p@,
        },
{
    match cwd {
        None => string_of("Pastas"),
        Some(p) => string_of(p),
    }
}

/// `Path::join` of a relative name onto a canonical path text.
pub open spec fn spec_join(base: Seq<char>, name: Seq<char>) -> Seq<char> {
    if base.len() == 0 || base.last() == '/' {
        base + name
    } else {
        base.push('/') + name
    }
}

fn join_path(base: &str, name: &str) -> (r: String)
    ensures
        r@ == spec_join(base@, name@),
{
    let mut out = string_of(base);
    let cs = chars_vec(base);
    if cs.len() > 0 && cs[cs.len() - 1] != '/' {
        push_char(&mut out, '/');
    }
    push_str(&mut out, name);
    out
}

fn folder(name: &str, path: String) -> (r: FsEntry)
    ensures
        r.name@ == name@,
        r.path@ == path@,
        r.is_dir,
{
    FsEntry { path, name: string_of(name), is_dir: true }
}

/// The special folders offered under a home folder, before they are
/// checked to exist: the home folder itself, then its documents,
/// downloads and desktop folders.
pub fn special_folder_candidates(home: &str) -> (r: Vec<FsEntry>)
    ensures
        r@.len() == 4,
        forall|i: int| 0 <= i < 4 ==> (#[trigger] r@[i]).is_dir,
        r@[0].name@ == "Início"@ && r@[0].path@ == home@,
        r@[1].name@ == "Documentos"@ && r@[1].path@ == spec_join(home@, "Documents"@),
        r@[2].name@ == "Downloads"@ && r@[2].path@ == spec_join(home@, "Downloads"@),
        r@[3].name@ == "Desktop"@ && r@[3].path@ == spec_join(home@, "Desktop"@),
{
    let mut out: Vec<FsEntry> = Vec::new();
    out.push(folder("Início", string_of(home)));
    out.push(folder("Documentos", join_path(home, "Documents")));
    out.push(folder("Downloads", join_path(home, "Downloads")));
    out.push(folder("Desktop", join_path(home, "Desktop")));
    out
}

proof fn lemma_shown_count(s: Seq<FsEntry>, x: FsEntry)
    ensures
        shown(s).to_multiset().count(x) == if entry_shown(x) {
            s.to_multiset().count(x)
        } else {
            0
        },
    decreases s.len(),
{
    broadcast use vstd::seq_lib::group_to_multiset_ensures;

    if s.len() == 0 {
    } else {
        let pre = s.drop_last();
        lemma_shown_count(pre, x);
        assert(s =~= pre.push(s.last()));
    }
}

/// A folder listing leaves out nothing it should show: every entry read
/// whose name does not start with a dot and that is a folder or a PDF (its
/// extension `pdf` in any case) is listed as often as it was read, and no
/// other entry is listed.
pub proof fn law_listing_complete(s: Seq<FsEntry>, x: FsEntry)
    ensures
        spec_listing(s).to_multiset().count(x) == if !(x.name@.len() > 0 && x.name@[0] == '.') && (
        x.is_dir || spec_is_pdf(x.path@)) {
            s.to_multiset().count(x)
        } else {
            0
        },
        s.contains(x) && !(x.name@.len() > 0 && x.name@[0] == '.') && (x.is_dir || spec_is_pdf(x.path@))
            ==> spec_listing(s).contains(x),
{
    broadcast use vstd::seq_lib::group_to_multiset_ensures;

    lemma_sorted_entries(shown(s));
    lemma_shown_count(s, x);
}

/// A path names a PDF exactly when its extension, in ASCII lowercase, is
/// `pdf`: `.pdf`, `.PDF` and `.Pdf` all count.
pub proof fn law_is_pdf_any_case(path: Seq<char>)
    ensures
        spec_is_pdf(path) <==> (spec_extension(path) matches Some(e) && e.map_values(
            |c: char| ascii_lower(c),
        ) == "pdf"@),
{
    reveal_strlit("pdf");
    if let Some(e) = spec_extension(path) {
        let l = e.map_values(|c: char| ascii_lower(c));
        if spec_is_pdf(path) {
            assert(l =~= "pdf"@);
        }
        if l == "pdf"@ {
            assert(l.len() == 3);
            assert(l[0] == 'p' && l[1] == 'd' && l[2] == 'f');
        }
    }
}

} // verus!
