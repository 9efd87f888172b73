//! The reader's session state that is pure logic: the document source,
//! errors on open, the page navigation of the toolbar and the pages whose
//! renders stay cached.

use vstd::prelude::*;
use std::collections::HashSet;
use crate::page::PageNo;
use crate::search::TextRange;
use crate::text::{decimal, push_decimal, push_str, spec_trim, string_of, trim};

verus! {

broadcast use vstd::std_specs::hash::group_hash_axioms;

/// Where an open document came from: the file dialog or the command line,
/// or a file dropped on the window.
#[derive(Debug, Clone)]
pub enum OpenSource {
    Path(String),
    Dropped(String),
}

impl OpenSource {
    /// The document's path.
    pub fn path(&self) -> (r: &str)
        ensures
            r@ == match self {
                OpenSource::Path(p) => p@,
                OpenSource::Dropped(p) => p@,
            },
    {
        match self {
            OpenSource::Path(p) => p.as_str(),
            OpenSource::Dropped(p) => p.as_str(),
        }
    }
}

/// Why a document did not open.
#[derive(Debug, Clone)]
pub enum OpenError {
    Io(String),
    Engine(String),
    Sign(String),
}

/// The text an open error shows.
pub open spec fn open_error_text(e: OpenError) -> Seq<char> {
    match e {
        OpenError::Io(s) => "não foi possível ler o arquivo: "@ + s@,
        OpenError::Engine(s) => "não foi possível abrir o PDF: "@ + s@,
        OpenError::Sign(s) => "assinaturas: "@ + s@,
    }
}

impl OpenError {
    /// The text of the error, as it is shown to the reader.
    pub fn message(&self) -> (r: String)
        ensures
            r@ == open_error_text(*self),
    {
        let (head, detail) = match self {
            OpenError::Io(s) => ("não foi possível ler o arquivo: ", s),
            OpenError::Engine(s) => ("não foi possível abrir o PDF: ", s),
            OpenError::Sign(s) => ("assinaturas: ", s),
        };
        let mut out = string_of(head);
        push_str(&mut out, detail.as_str());
        out
    }
}

/// A selected run of a page's text.
#[derive(Debug, Clone, Copy)]
pub struct Selection {
    pub page: PageNo,
    pub range: TextRange,
}

/// A command of the page navigation.
#[derive(Debug, Clone, Copy, PartialEq, Eq, Structural)]
pub enum NavCmd {
    Previous,
    Next,
    First,
    Last,
    GoTo(PageNo),
}

/// The pages whose renders stay cached around the visible one: it and its
/// two neighbours that exist; none for a document without pages.
pub open spec fn spec_neighbors(visible: u32, total: u32) -> Set<u32> {
    if total == 0 {
        Set::empty()
    } else {
        Set::new(
            |p: u32|
                p == visible || (visible > 0 && p == visible - 1) || (visible + 1 < total && p
                    == visible + 1),
        )
    }
}

/// The pages whose renders stay cached around the visible one.
pub fn neighbor_page_set(visible: u32, total: u32) -> (r: HashSet<u32>)
    ensures
        r@ == spec_neighbors(visible, total),
{
    let mut keep: HashSet<u32> = HashSet::new();
    if total == 0 {
        assert(keep@ =~= spec_neighbors(visible, total));
        return keep;
    }
    keep.insert(visible);
    if visible > 0 {
        keep.insert(visible - 1);
    }
    if visible < u32::MAX && visible + 1 < total {
        keep.insert(visible + 1);
    }
    assert(keep@ =~= spec_neighbors(visible, total));
    keep
}

/// `str::parse::<u32>`: an optional `+`, then one or more ASCII digits,
/// whose value fits in `u32`.
pub open spec fn spec_parse_u32(s: Seq<char>) -> Option<u32> {
    let digits = if s.len() > 0 && s[0] == '+' {
        s.drop_first()
    } else {
        s
    };
    if digits.len() > 0 && all_digits(digits) && digits_value(digits) <= u32::MAX {
        Some(digits_value(digits) as u32)
    } else {
        None
    }
}

pub open spec fn all_digits(s: Seq<char>) -> bool {
    forall|i: int| 0 <= i < s.len() ==> '0' <= #[trigger] s[i] && s[i] <= '9'
}

/// The value of a run of decimal digits.
pub open spec fn digits_value(s: Seq<char>) -> nat
    decreases s.len(),
{
    if s.len() == 0 {
        0
    } else {
        digits_value(s.drop_last()) * 10 + ((s.last() as u32) - 48) as nat
    }
}

proof fn lemma_digits_value_mono(s: Seq<char>, k: int)
    requires
        0 <= k <= s.len(),
        all_digits(s),
    ensures
        digits_value(s.take(k)) <= digits_value(s),
    decreases s.len() - k,
{
    if k < s.len() {
        lemma_digits_value_mono(s, k + 1);
        assert(s.take(k + 1).drop_last() =~= s.take(k));
        assert(s.take(k + 1).last() == s[k]);
    } else {
        assert(s.take(k) =~= s);
    }
}

/// Parses a page number as `str::parse::<u32>` does.
pub fn parse_u32(s: &str) -> (r: Option<u32>)
    ensures
        r == spec_parse_u32(s@),
{
    let cs = crate::text::chars_vec(s);
    let n = cs.len();
    let mut i: usize = 0;
    if n > 0 && cs[0] == '+' {
        i = 1;
    }
    let ghost digits = if s@.len() > 0 && s@[0] == '+' {
        s@.drop_first()
    } else {
        s@
    };
    assert(digits =~= cs@.skip(i as int));
    if i == n {
        return None;
    }
    let start = i;
    let mut value: u64 = 0;
    while i < n
        invariant
            cs@ == s@,
            n == cs@.len(),
            digits == cs@.skip(start as int),
            digits == (if s@.len() > 0 && s@[0] == '+' {
                s@.drop_first()
            } else {
                s@
            }),
            start <= i <= n,
            start < n,
            all_digits(cs@.subrange(start as int, i as int)),
            value == digits_value(cs@.subrange(start as int, i as int)),
            value <= u32::MAX,
        decreases n - i,
    {
        let c = cs[i];
        if !('0' <= c && c <= '9') {
            proof {
                assert(digits[i - start] == c);
                assert(!all_digits(digits));
            }
            return None;
        }
        let d = (c as u32 - 48) as u64;
        let next = value * 10 + d;
        proof {
            let sub = cs@.subrange(start as int, i + 1);
            assert(sub.drop_last() =~= cs@.subrange(start as int, i as int));
            assert(sub.last() == c);
            assert(digits_value(sub) == next);
            assert(all_digits(sub));
        }
        if next > 4294967295u64 {
            proof {
                let sub = cs@.subrange(start as int, i + 1);
                if all_digits(digits) {
                    assert(digits.take(i + 1 - start) =~= sub);
                    lemma_digits_value_mono(digits, i + 1 - start);
                }
            }
            return None;
        }
        value = next;
        i = i + 1;
    }
    assert(cs@.subrange(start as int, n as int) =~= digits);
    Some(value as u32)
}


/// How much of the reading bar is filled, in thousandths: the pages up to
/// the visible one out of the document's (at least one), and never less
/// than one thousandth.
pub open spec fn spec_progress(visible: u32, page_count: u32) -> int {
    let n = if page_count >= 1 {
        page_count as int
    } else {
        1
    };
    let done = if visible + 1 <= n {
        visible + 1
    } else {
        n
    };
    let filled = done * 1000 / n;
    if filled < 1 {
        1
    } else if filled > 1000 {
        1000
    } else {
        filled
    }
}

/// The filled part of the reading bar, in thousandths.
pub fn progress_permille(visible: u32, page_count: u32) -> (r: u16)
    requires
        visible < u32::MAX,
        (if visible + 1 <= page_count { visible + 1 } else { if page_count >= 1 { page_count as int } else { 1 } }) * 1000 <= u32::MAX,
    ensures
        r == spec_progress(visible, page_count),
{
    let n = if page_count >= 1 {
        page_count
    } else {
        1
    };
    let done = if visible + 1 <= n {
        visible + 1
    } else {
        n
    };
    let filled = done * 1000 / n;
    assert(filled <= 1000) by (nonlinear_arith)
        requires
            done <= n,
            n >= 1,
            filled as int == (done as int * 1000) / (n as int),
    ;
    if filled < 1 {
        1
    } else {
        filled as u16
    }
}

/// The page navigation of an open document: the page count, the visible
/// page, the draft in the page box of the toolbar, and the render
/// generation, which each move of the visible page advances.
#[derive(Debug)]
pub struct PageNav {
    pub total: u32,
    pub visible: PageNo,
    pub page_input: String,
    pub render_gen: u64,
}

/// The next render generation: it wraps past the largest value, and skips 0.
pub open spec fn spec_bump(g: u64) -> u64 {
    if g == u64::MAX {
        1
    } else {
        (g + 1) as u64
    }
}

/// What the page box shows: the visible page counted from 1, nothing for a
/// document without pages.
pub open spec fn synced_input(total: u32, visible: u32) -> Seq<char> {
    if total == 0 {
        Seq::empty()
    } else {
        decimal((visible + 1) as nat)
    }
}

/// `new` is `old` once asked to show page `page`: within a document with
/// pages, the page kept within it becomes visible (a move advances the
/// render generation) and the page box shows it; without pages, only the
/// page box clears.
pub open spec fn moved_to(old: PageNav, new: PageNav, page: u32) -> bool {
    &&& new.total == old.total
    &&& if old.total == 0 {
        &&& new.visible == old.visible
        &&& new.render_gen == old.render_gen
        &&& new.page_input@ == Seq::<char>::empty()
    } else {
        let t = if page < old.total {
            page
        } else {
            (old.total - 1) as u32
        };
        &&& new.visible.idx == t
        &&& new.render_gen == (if t != old.visible.idx {
            spec_bump(old.render_gen)
        } else {
            old.render_gen
        })
        &&& new.page_input@ == decimal((t + 1) as nat)
    }
}

/// `new` is `old` with the page box showing the visible page again.
pub open spec fn resynced(old: PageNav, new: PageNav) -> bool {
    &&& new.total == old.total
    &&& new.visible == old.visible
    &&& new.render_gen == old.render_gen
    &&& new.page_input@ == synced_input(old.total, old.visible.idx)
}

/// The page that a command asks for, before it is kept within the document.
pub open spec fn cmd_page(cmd: NavCmd, visible: u32, total: u32) -> u32 {
    match cmd {
        NavCmd::Previous => if visible > 0 {
            (visible - 1) as u32
        } else {
            0
        },
        NavCmd::Next => if visible + 1 <= total - 1 {
            (visible + 1) as u32
        } else {
            (total - 1) as u32
        },
        NavCmd::First => 0,
        NavCmd::Last => (total - 1) as u32,
        NavCmd::GoTo(p) => p.idx,
    }
}

/// The page that the draft in the page box asks for, if any: the number
/// counted from 1, 0 meaning the first page.
pub open spec fn draft_page(draft: Seq<char>) -> Option<u32> {
    match spec_parse_u32(spec_trim(draft)) {
        Some(n) => if n == 0 {
            Some(0u32)
        } else {
            Some((n - 1) as u32)
        },
        None => None,
    }
}

impl PageNav {
    /// The visible page lies in the document (or is the first page of an
    /// empty one).
    pub open spec fn wf(self) -> bool {
        self.visible.idx == 0 || self.visible.idx < self.total
    }

    /// A fresh navigation at the first page.
    pub fn new(total: u32) -> (r: PageNav)
        ensures
            r.wf(),
            r.total == total,
            r.visible.idx == 0,
            r.render_gen == 0,
            r.page_input@ == synced_input(total, 0),
    {
        let mut nav = PageNav {
            total,
            visible: PageNo::from_index(0),
            page_input: String::new(),
            render_gen: 0,
        };
        nav.sync_page_input();
        nav
    }

    /// Shows the visible page in the page box again.
    pub fn sync_page_input(&mut self)
        ensures
            resynced(*old(self), *final(self)),
    {
        if self.total == 0 {
            self.page_input = String::new();
            return;
        }
        let mut s = String::new();
        push_decimal(&mut s, self.visible.idx as u64 + 1);
        self.page_input = s;
    }

    /// Advances the render generation.
    pub fn bump_render_gen(&mut self)
        ensures
            final(self).render_gen == spec_bump(old(self).render_gen),
            final(self).total == old(self).total,
            final(self).visible == old(self).visible,
            final(self).page_input == old(self).page_input,
    {
        self.render_gen = self.render_gen.wrapping_add(1);
        if self.render_gen == 0 {
            self.render_gen = 1;
        }
    }

    /// Shows a page, kept within the document.
    pub fn navigate_to(&mut self, page: PageNo)
        requires
            old(self).wf(),
        ensures
            final(self).wf(),
            moved_to(*old(self), *final(self), page.idx),
    {
        if self.total == 0 {
            self.sync_page_input();
            return;
        }
        let max = self.total - 1;
        let idx = if page.index() < max {
            page.index()
        } else {
            max
        };
        if idx != self.visible.idx {
            self.visible = PageNo::from_index(idx);
            self.bump_render_gen();
        }
        self.sync_page_input();
    }

    /// Carries out a navigation command.
    pub fn apply_nav(&mut self, cmd: NavCmd)
        requires
            old(self).wf(),
        ensures
            final(self).wf(),
            old(self).total == 0 ==> resynced(*old(self), *final(self)),
            old(self).total > 0 ==> moved_to(
                *old(self),
                *final(self),
                cmd_page(cmd, old(self).visible.idx, old(self).total),
            ),
    {
        match cmd {
            NavCmd::Previous => {
                let idx = if self.visible.idx > 0 {
                    self.visible.idx - 1
                } else {
                    0
                };
                self.navigate_to(PageNo::from_index(idx));
            },
            NavCmd::Next => {
                if self.total == 0 {
                    self.sync_page_input();
                    return;
                }
                let max = self.total - 1;
                let idx = if self.visible.idx + 1 <= max {
                    self.visible.idx + 1
                } else {
                    max
                };
                self.navigate_to(PageNo::from_index(idx));
            },
            NavCmd::First => self.navigate_to(PageNo::from_index(0)),
            NavCmd::Last => {
                if self.total == 0 {
                    self.sync_page_input();
                    return;
                }
                self.navigate_to(PageNo::from_index(self.total - 1));
            },
            NavCmd::GoTo(page) => self.navigate_to(page),
        }
    }

    /// Goes to the page typed in the page box: a number counted from 1
    /// (0 means the first page), kept within the document; anything else,
    /// or a document without pages, puts the visible page back in the box.
    pub fn submit_page_input(&mut self)
        requires
            old(self).wf(),
        ensures
            final(self).wf(),
            match draft_page(old(self).page_input@) {
                Some(p) => if old(self).total == 0 {
                    resynced(*old(self), *final(self))
                } else {
                    moved_to(*old(self), *final(self), p)
                },
                None => resynced(*old(self), *final(self)),
            },
    {
        let draft = trim(self.page_input.as_str());
        if draft.as_str().is_empty() {
            self.sync_page_input();
            return;
        }
        match parse_u32(draft.as_str()) {
            Some(n) => {
                if self.total == 0 {
                    self.sync_page_input();
                    return;
                }
                if n == 0 {
                    self.navigate_to(PageNo::from_index(0));
                } else {
                    let max = self.total - 1;
                    let idx = if n - 1 < max {
                        n - 1
                    } else {
                        max
                    };
                    self.navigate_to(PageNo::from_index(idx));
                }
            },
            None => self.sync_page_input(),
        }
    }
}


/// Thumbnails shown at once in the pages panel.
pub const THUMB_VISIBLE: u32 = 8;

/// Thumbnails prefetched above and below those shown.
pub const THUMB_PREFETCH: u32 = 3;

/// The first page of the thumbnail window whose first shown row is `first`.
pub open spec fn thumb_start(first: u32) -> int {
    if first >= THUMB_PREFETCH {
        first - THUMB_PREFETCH
    } else {
        0
    }
}

/// The pages of the thumbnail window: from a few rows above the first row
/// shown to a few below the last, within the document.
pub open spec fn thumb_end(first: u32, total: u32) -> int {
    let end = thumb_start(first) + THUMB_VISIBLE + 2 * THUMB_PREFETCH;
    if end < total {
        end
    } else {
        total as int
    }
}

/// The pages of the thumbnail window, in order.
pub fn thumb_window(first: u32, total: u32) -> (r: Vec<PageNo>)
    requires
        thumb_start(first) + THUMB_VISIBLE + 2 * THUMB_PREFETCH <= u32::MAX,
    ensures
        r@.len() == if thumb_end(first, total) > thumb_start(first) {
            thumb_end(first, total) - thumb_start(first)
        } else {
            0
        },
        forall|i: int| 0 <= i < r@.len() ==> (#[trigger] r@[i]).idx == thumb_start(first) + i,
{
    let start = if first >= THUMB_PREFETCH {
        first - THUMB_PREFETCH
    } else {
        0
    };
    let wanted = start + THUMB_VISIBLE + THUMB_PREFETCH * 2;
    let end = if wanted < total {
        wanted
    } else {
        total
    };
    let mut out: Vec<PageNo> = Vec::new();
    let mut p = start;
    while p < end
        invariant
            start <= end || out@.len() == 0,
            start <= p,
            p <= end || p == start,
            out@.len() == p - start,
            forall|i: int| 0 <= i < out@.len() ==> (#[trigger] out@[i]).idx == start + i,
        decreases end - p,
    {
        out.push(PageNo::from_index(p));
        p = p + 1;
    }
    out
}

/// `s` with `p` at its end, unless it holds `p` already.
pub open spec fn add_page(s: Seq<PageNo>, p: PageNo) -> Seq<PageNo> {
    if s.contains(p) {
        s
    } else {
        s.push(p)
    }
}

/// `base`, then the pages of `window` that are not listed yet, in order.
pub open spec fn add_window(base: Seq<PageNo>, window: Seq<PageNo>) -> Seq<PageNo>
    decreases window.len(),
{
    if window.len() == 0 {
        base
    } else {
        add_page(add_window(base, window.drop_last()), window.last())
    }
}

/// The order in which page data is loaded.
pub open spec fn priority_order(visible: u32, total: u32, pages_open: bool, window: Seq<PageNo>) -> Seq<
    PageNo,
> {
    let base = if visible + 1 < total {
        seq![PageNo { idx: visible }, PageNo { idx: (visible + 1) as u32 }]
    } else {
        seq![PageNo { idx: visible }]
    };
    if pages_open {
        add_window(base, window)
    } else {
        base
    }
}

/// The first page of `prio` that is neither loaded, nor loading, nor failed.
pub open spec fn first_open(prio: Seq<PageNo>, loaded: Set<u32>, inflight: Set<u32>, failed: Set<u32>) -> Option<
    PageNo,
>
    decreases prio.len(),
{
    if prio.len() == 0 {
        None
    } else if !loaded.contains(prio[0].idx) && !inflight.contains(prio[0].idx) && !failed.contains(
        prio[0].idx,
    ) {
        Some(prio[0])
    } else {
        first_open(prio.drop_first(), loaded, inflight, failed)
    }
}

/// The order in which page data is loaded: the visible page, the next one,
/// then, with the pages panel open, the thumbnail window's pages not yet
/// listed.
pub fn page_data_priority(visible: u32, total: u32, pages_open: bool, window: &[PageNo]) -> (r: Vec<PageNo>)
    requires
        visible < u32::MAX,
    ensures
        r@.len() >= 1,
        r@[0].idx == visible,
        visible + 1 < total ==> r@.len() >= 2 && r@[1].idx == visible + 1,
        forall|i: int, j: int| 0 <= i < j < r@.len() ==> (#[trigger] r@[i]).idx != (#[trigger] r@[j]).idx,
        forall|i: int| 0 <= i < r@.len() ==> (#[trigger] r@[i]).idx == visible || (
            r@[i].idx == visible + 1 && visible + 1 < total) || (pages_open && exists|k: int|
            0 <= k < window@.len() && window@[k].idx == r@[i].idx),
        pages_open ==> forall|k: int| 0 <= k < window@.len() ==> exists|i: int|
            0 <= i < r@.len() && r@[i].idx == (#[trigger] window@[k]).idx,
        r@ == priority_order(visible, total, pages_open, window@),
{
    let mut pages: Vec<PageNo> = Vec::new();
    pages.push(PageNo::from_index(visible));
    if visible + 1 < total {
        pages.push(PageNo::from_index(visible + 1));
    }
    let ghost base = pages@;
    assert(base =~= if visible + 1 < total {
        seq![PageNo { idx: visible }, PageNo { idx: (visible + 1) as u32 }]
    } else {
        seq![PageNo { idx: visible }]
    });
    assert(window@.take(0) =~= Seq::<PageNo>::empty());
    if pages_open {
        let mut k: usize = 0;
        while k < window.len()
            invariant
                k <= window@.len(),
                pages@.len() >= 1,
                pages@[0].idx == visible,
                visible + 1 < total ==> pages@.len() >= 2 && pages@[1].idx == visible + 1,
                forall|i: int, j: int| 0 <= i < j < pages@.len() ==> (#[trigger] pages@[i]).idx != (#[trigger] pages@[j]).idx,
                forall|i: int| 0 <= i < pages@.len() ==> (#[trigger] pages@[i]).idx == visible || (
                    pages@[i].idx == visible + 1 && visible + 1 < total) || (exists|q: int|
                    0 <= q < window@.len() && window@[q].idx == pages@[i].idx),
                forall|q: int| 0 <= q < k ==> exists|i: int|
                    0 <= i < pages@.len() && pages@[i].idx == (#[trigger] window@[q]).idx,
                pages@ == add_window(base, window@.take(k as int)),
            decreases window@.len() - k,
        {
            let page = window[k];
            proof {
                assert(window@.take(k + 1).drop_last() =~= window@.take(k as int));
                assert(window@.take(k + 1).last() == page);
            }
            let mut found = false;
            let mut i: usize = 0;
            while i < pages.len()
                invariant
                    i <= pages@.len(),
                    found == exists|j: int| 0 <= j < i && pages@[j].idx == page.idx,
                decreases pages@.len() - i,
            {
                if pages[i].idx == page.idx {
                    found = true;
                }
                i = i + 1;
            }
            let ghost before = pages@;
            if !found {
                pages.push(page);
                proof {
                    assert forall|q: int| 0 <= q < k + 1 implies exists|i: int|
                        0 <= i < pages@.len() && pages@[i].idx == (#[trigger] window@[q]).idx by {
                        if q == k {
                            assert(pages@[before.len() as int].idx == window@[q].idx);
                        } else {
                            let i0 = choose|i: int| 0 <= i < before.len() && before[i].idx == window@[q].idx;
                            assert(pages@[i0] == before[i0]);
                        }
                    }
                    assert forall|i: int| 0 <= i < pages@.len() implies (#[trigger] pages@[i]).idx == visible || (
                        pages@[i].idx == visible + 1 && visible + 1 < total) || (exists|q: int|
                        0 <= q < window@.len() && window@[q].idx == pages@[i].idx) by {
                        if i == before.len() {
                            assert(window@[k as int].idx == pages@[i].idx);
                        } else {
                            assert(pages@[i] == before[i]);
                        }
                    }
                }
            } else {
                proof {
                    assert forall|q: int| 0 <= q < k + 1 implies exists|i: int|
                        0 <= i < pages@.len() && pages@[i].idx == (#[trigger] window@[q]).idx by {
                        if q == k {
                            let j = choose|j: int| 0 <= j < pages@.len() && pages@[j].idx == page.idx;
                            assert(pages@[j].idx == window@[q].idx);
                        }
                    }
                }
            }
            proof {
                if found {
                    let j = choose|j: int| 0 <= j < pages@.len() && pages@[j].idx == page.idx;
                    assert(pages@[j] == page);
                    assert(pages@.contains(page));
                } else {
                    assert(!before.contains(page)) by {
                        if before.contains(page) {
                            let j = choose|j: int| 0 <= j < before.len() && before[j] == page;
                            assert(before[j].idx == page.idx);
                        }
                    }
                    assert(pages@ == before.push(page));
                }
            }
            k = k + 1;
        }
        assert(window@.take(k as int) =~= window@);
    }
    pages
}

/// The next page whose data to load: the first of the priority order that
/// is neither loaded, nor loading, nor failed.
pub fn next_page_data_target(
    priority: &[PageNo],
    loaded: &HashSet<u32>,
    inflight: &HashSet<u32>,
    failed: &HashSet<u32>,
) -> (r: Option<PageNo>)
    ensures
        match r {
            Some(p) => exists|i: int|
                0 <= i < priority@.len() && #[trigger] priority@[i] == p && !loaded@.contains(p.idx)
                    && !inflight@.contains(p.idx) && !failed@.contains(p.idx) && forall|j: int|
                    0 <= j < i ==> {
                        let q = #[trigger] priority@[j];
                        loaded@.contains(q.idx) || inflight@.contains(q.idx) || failed@.contains(q.idx)
                    },
            None => forall|j: int|
                0 <= j < priority@.len() ==> {
                    let q = #[trigger] priority@[j];
                    loaded@.contains(q.idx) || inflight@.contains(q.idx) || failed@.contains(q.idx)
                },
        },
        r == first_open(priority@, loaded@, inflight@, failed@),
{
    let mut i: usize = 0;
    assert(priority@.skip(0) =~= priority@);
    while i < priority.len()
        invariant
            i <= priority@.len(),
            first_open(priority@, loaded@, inflight@, failed@) == first_open(
                priority@.skip(i as int),
                loaded@,
                inflight@,
                failed@,
            ),
            forall|j: int|
                0 <= j < i ==> {
                    let q = #[trigger] priority@[j];
                    loaded@.contains(q.idx) || inflight@.contains(q.idx) || failed@.contains(q.idx)
                },
        decreases priority@.len() - i,
    {
        let page = priority[i];
        assert(priority@.skip(i as int)[0] == page);
        assert(priority@.skip(i as int).drop_first() =~= priority@.skip(i + 1));
        if !loaded.contains(&page.idx) && !inflight.contains(&page.idx) && !failed.contains(&page.idx) {
            return Some(page);
        }
        i = i + 1;
    }
    None
}

/// Each navigation command shows the page it names, kept within the
/// document: `Previous` the page before the visible one (the first stays
/// put), `Next` the page after it (the last stays put), `First` and `Last`
/// the ends, `GoTo` the asked page or the last one. The render generation
/// moves on exactly when the visible page changes, and the page box shows
/// the new page counted from 1.
pub proof fn law_navigation(old: PageNav, new: PageNav, cmd: NavCmd)
    requires
        old.wf(),
        old.total > 0,
        moved_to(old, new, cmd_page(cmd, old.visible.idx, old.total)),
    ensures
        new.total == old.total,
        new.visible.idx < new.total,
        cmd is Previous && old.visible.idx > 0 ==> new.visible.idx == old.visible.idx - 1,
        cmd is Previous && old.visible.idx == 0 ==> new.visible.idx == 0,
        cmd is Next && old.visible.idx + 1 < old.total ==> new.visible.idx == old.visible.idx + 1,
        cmd is Next && old.visible.idx + 1 == old.total ==> new.visible.idx == old.visible.idx,
        cmd is First ==> new.visible.idx == 0,
        cmd is Last ==> new.visible.idx == old.total - 1,
        cmd matches NavCmd::GoTo(p) ==> (p.idx < old.total ==> new.visible.idx == p.idx) && (p.idx
            >= old.total ==> new.visible.idx == old.total - 1),
        (new.render_gen != old.render_gen) == (new.visible.idx != old.visible.idx),
        new.page_input@ == decimal((new.visible.idx + 1) as nat),
{
}

} // verus!
