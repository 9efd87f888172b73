//! The reader's work queue for an open document: which page render or page
//! load runs next, what a finished render leaves cached, and which cached
//! renders are let go. One piece of outside work runs at a time.
//!
//! Scales arrive as their keys: the floating-point zoom and density that
//! give them are worked out by the caller, as is the estimated size of the
//! next page's render.

use std::collections::HashSet;
use vstd::prelude::*;
use crate::cache::{
    dist, enforce_neighbor_budget, farthest, law_within_budget, lemma_farthest, lemma_neighbor_le_total,
    lemma_surface_index, lemma_total_nonneg, lemma_total_update, lemma_within_budget_total,
    neighbor_bytes, neighbor_sum, page_bytes, prefetch_fits_budget, spec_page_bytes, surface_index,
    total_bytes, within_budget,
};
use crate::page::PageNo;
use crate::session::{
    first_open, neighbor_page_set, next_page_data_target, page_data_priority, priority_order,
    spec_neighbors,
};

verus! {

/// The bytes that the renders of the pages around the visible one may take
/// (the visible page's own render is not counted).
pub const NEIGHBOR_CACHE_BUDGET: usize = 67108864;

/// The outside work that the queue asks for.
#[derive(Debug, Clone, Copy, PartialEq, Eq, Structural)]
pub enum Work {
    /// Nothing to start.
    Idle,
    /// Render a page at a scale, for the document and render generation
    /// given; answer with `RenderWork::rendered`.
    Render { page: u32, scale: u16, doc_gen: u64, render_gen: u64 },
    /// Load a page's size and text for the document given; answer with
    /// `RenderWork::page_data_done`.
    PageData { page: u32, doc_gen: u64 },
}

/// What the queue needs to know of the open document when it decides: its
/// generations, the visible page and the page count, the scale keys of the
/// visible page, of the next one and of each page of the thumbnail window,
/// the estimated bytes of the next page's render, and which pages have
/// their size and text loaded.
#[derive(Debug)]
pub struct WorkView {
    pub open_gen: u64,
    pub render_gen: u64,
    pub visible: u32,
    pub total: u32,
    pub visible_scale: u16,
    pub next_scale: u16,
    pub next_estimate: usize,
    pub loaded: HashSet<u32>,
    pub pages_open: bool,
    pub window: Vec<PageNo>,
    pub thumb_scales: Vec<u16>,
}

/// The visible page lies in the document, and each page of the window has
/// its thumbnail scale.
pub open spec fn view_ok(v: WorkView) -> bool {
    &&& v.visible == 0 || v.visible < v.total
    &&& v.window@.len() == v.thumb_scales@.len()
}

/// The work state of an open document: the cached page renders (page,
/// scale key, bytes), the cached thumbnails (page, scale key), the renders
/// running and those that failed (page, scale key), and the page loads
/// running and failed.
#[derive(Debug)]
pub struct RenderWork {
    pub surfaces: Vec<(u32, u16, usize)>,
    pub thumbs: Vec<(u32, u16)>,
    pub inflight: Vec<(u32, u16)>,
    pub failed: Vec<(u32, u16)>,
    pub data_inflight: HashSet<u32>,
    pub data_failed: HashSet<u32>,
}

/// The work state as values.
pub struct WorkModel {
    pub surfaces: Seq<(u32, u16, usize)>,
    pub thumbs: Seq<(u32, u16)>,
    pub inflight: Seq<(u32, u16)>,
    pub failed: Seq<(u32, u16)>,
    pub data_inflight: Set<u32>,
    pub data_failed: Set<u32>,
}

impl View for RenderWork {
    type V = WorkModel;

    open spec fn view(&self) -> WorkModel {
        WorkModel {
            surfaces: self.surfaces@,
            thumbs: self.thumbs@,
            inflight: self.inflight@,
            failed: self.failed@,
            data_inflight: self.data_inflight@,
            data_failed: self.data_failed@,
        }
    }
}

impl WorkModel {
    /// The cached renders fit in memory's offsets together.
    pub open spec fn wf(self) -> bool {
        total_bytes(self.surfaces) <= usize::MAX
    }
}

/// `s` without the key `k`.
pub open spec fn drop_key(s: Seq<(u32, u16)>, k: (u32, u16)) -> Seq<(u32, u16)>
    decreases s.len(),
{
    if s.len() == 0 {
        s
    } else if s.last() == k {
        drop_key(s.drop_last(), k)
    } else {
        drop_key(s.drop_last(), k).push(s.last())
    }
}

/// `s` with the key `k` at its end, unless it holds `k` already.
pub open spec fn add_key(s: Seq<(u32, u16)>, k: (u32, u16)) -> Seq<(u32, u16)> {
    if s.contains(k) {
        s
    } else {
        s.push(k)
    }
}

/// The thumbnails of `s` whose page is in `keep`.
pub open spec fn keep_thumbs(s: Seq<(u32, u16)>, keep: Set<u32>) -> Seq<(u32, u16)>
    decreases s.len(),
{
    if s.len() == 0 {
        s
    } else if keep.contains(s.last().0) {
        keep_thumbs(s.drop_last(), keep).push(s.last())
    } else {
        keep_thumbs(s.drop_last(), keep)
    }
}

/// The renders of `s` whose page is in `keep`.
pub open spec fn keep_surfaces(s: Seq<(u32, u16, usize)>, keep: Set<u32>) -> Seq<(u32, u16, usize)>
    decreases s.len(),
{
    if s.len() == 0 {
        s
    } else if keep.contains(s.last().0) {
        keep_surfaces(s.drop_last(), keep).push(s.last())
    } else {
        keep_surfaces(s.drop_last(), keep)
    }
}

/// All pages but `page`.
pub open spec fn other_than(page: u32) -> Set<u32> {
    Set::new(|p: u32| p != page)
}

/// The scale of the cached render of `page`, if any.
pub open spec fn surface_scale(s: Seq<(u32, u16, usize)>, page: u32) -> Option<u16> {
    let i = surface_index(s, page, 0);
    if i < s.len() {
        Some(s[i].1)
    } else {
        None
    }
}

/// `s` once the render of `page` at `scale` is cached: it takes the place
/// of the page's render, or comes last.
pub open spec fn put_surface(s: Seq<(u32, u16, usize)>, page: u32, scale: u16, bytes: usize) -> Seq<
    (u32, u16, usize),
> {
    let i = surface_index(s, page, 0);
    if i < s.len() {
        s.update(i, (page, scale, bytes))
    } else {
        s.push((page, scale, bytes))
    }
}

/// `s` once the thumbnail of `page` at `scale` is cached: it replaces the
/// page's others.
pub open spec fn put_thumb(s: Seq<(u32, u16)>, page: u32, scale: u16) -> Seq<(u32, u16)> {
    keep_thumbs(s, other_than(page)).push((page, scale))
}

proof fn lemma_keep_surfaces(s: Seq<(u32, u16, usize)>, keep: Set<u32>)
    ensures
        total_bytes(keep_surfaces(s, keep)) <= total_bytes(s),
        forall|i: int| 0 <= i < keep_surfaces(s, keep).len() ==> keep.contains(#[trigger] keep_surfaces(s, keep)[i].0),
    decreases s.len(),
{
    if s.len() > 0 {
        lemma_keep_surfaces(s.drop_last(), keep);
        lemma_total_nonneg(keep_surfaces(s.drop_last(), keep));
        let k = keep_surfaces(s.drop_last(), keep);
        if keep.contains(s.last().0) {
            assert(keep_surfaces(s, keep).drop_last() =~= k);
            assert forall|i: int| 0 <= i < keep_surfaces(s, keep).len() implies keep.contains(#[trigger] keep_surfaces(s, keep)[i].0) by {
                if i < k.len() {
                    assert(keep_surfaces(s, keep)[i] == k[i]);
                }
            }
        }
    }
}

proof fn lemma_keep_thumbs(s: Seq<(u32, u16)>, keep: Set<u32>)
    ensures
        forall|i: int| 0 <= i < keep_thumbs(s, keep).len() ==> keep.contains(#[trigger] keep_thumbs(s, keep)[i].0),
        forall|x: (u32, u16)| #[trigger] keep_thumbs(s, keep).contains(x) <==> s.contains(x) && keep.contains(x.0),
    decreases s.len(),
{
    if s.len() > 0 {
        let pre = s.drop_last();
        lemma_keep_thumbs(pre, keep);
        let k = keep_thumbs(pre, keep);
        assert forall|x: (u32, u16)| s.contains(x) <==> pre.contains(x) || x == s.last() by {
            if s.contains(x) {
                let j = choose|j: int| 0 <= j < s.len() && s[j] == x;
                if j < pre.len() {
                    assert(pre[j] == x);
                }
            }
            if pre.contains(x) {
                let j = choose|j: int| 0 <= j < pre.len() && pre[j] == x;
                assert(s[j] == x);
            }
            if x == s.last() {
                assert(s[s.len() - 1] == x);
            }
        }
        if keep.contains(s.last().0) {
            let r = keep_thumbs(s, keep);
            assert(r == k.push(s.last()));
            assert forall|i: int| 0 <= i < r.len() implies keep.contains(#[trigger] r[i].0) by {
                if i < k.len() {
                    assert(r[i] == k[i]);
                }
            }
            assert forall|x: (u32, u16)| #[trigger] r.contains(x) <==> k.contains(x) || x == s.last() by {
                if r.contains(x) {
                    let j = choose|j: int| 0 <= j < r.len() && r[j] == x;
                    if j < k.len() {
                        assert(k[j] == x);
                    }
                }
                if k.contains(x) {
                    let j = choose|j: int| 0 <= j < k.len() && k[j] == x;
                    assert(r[j] == x);
                }
                if x == s.last() {
                    assert(r[r.len() - 1] == x);
                }
            }
        }
    }
}

proof fn lemma_drop_key(s: Seq<(u32, u16)>, k: (u32, u16))
    ensures
        forall|x: (u32, u16)| #[trigger] drop_key(s, k).contains(x) <==> s.contains(x) && x != k,
        drop_key(s, k).len() <= s.len(),
    decreases s.len(),
{
    if s.len() > 0 {
        let pre = s.drop_last();
        lemma_drop_key(pre, k);
        let d = drop_key(pre, k);
        assert forall|x: (u32, u16)| s.contains(x) <==> pre.contains(x) || x == s.last() by {
            if s.contains(x) {
                let j = choose|j: int| 0 <= j < s.len() && s[j] == x;
                if j < pre.len() {
                    assert(pre[j] == x);
                }
            }
            if pre.contains(x) {
                let j = choose|j: int| 0 <= j < pre.len() && pre[j] == x;
                assert(s[j] == x);
            }
            if x == s.last() {
                assert(s[s.len() - 1] == x);
            }
        }
        if s.last() != k {
            let r = drop_key(s, k);
            assert forall|x: (u32, u16)| #[trigger] r.contains(x) <==> d.contains(x) || x == s.last() by {
                if r.contains(x) {
                    let j = choose|j: int| 0 <= j < r.len() && r[j] == x;
                    if j < d.len() {
                        assert(d[j] == x);
                    }
                }
                if d.contains(x) {
                    let j = choose|j: int| 0 <= j < d.len() && d[j] == x;
                    assert(r[j] == x);
                }
                if x == s.last() {
                    assert(r[r.len() - 1] == x);
                }
            }
        }
    }
}

/// Whether `s` holds the key `k`.
fn has_key(s: &Vec<(u32, u16)>, k: (u32, u16)) -> (r: bool)
    ensures
        r == s@.contains(k),
{
    let mut i: usize = 0;
    while i < s.len()
        invariant
            i <= s@.len(),
            forall|j: int| 0 <= j < i ==> s@[j] != k,
        decreases s@.len() - i,
    {
        if s[i].0 == k.0 && s[i].1 == k.1 {
            assert(s@[i as int] == k);
            return true;
        }
        i = i + 1;
    }
    false
}

/// Takes the key `k` out of `s`.
fn remove_key(s: &mut Vec<(u32, u16)>, k: (u32, u16))
    ensures
        final(s)@ == drop_key(old(s)@, k),
{
    let ghost src = s@;
    let mut out: Vec<(u32, u16)> = Vec::new();
    let mut i: usize = 0;
    assert(src.take(0) =~= Seq::<(u32, u16)>::empty());
    while i < s.len()
        invariant
            s@ == src,
            i <= src.len(),
            out@ == drop_key(src.take(i as int), k),
        decreases src.len() - i,
    {
        assert(src.take(i + 1).drop_last() =~= src.take(i as int));
        let x = s[i];
        if !(x.0 == k.0 && x.1 == k.1) {
            out.push(x);
        }
        i = i + 1;
    }
    assert(src.take(i as int) =~= src);
    *s = out;
}

/// Puts the key `k` into `s`, unless it holds it already.
fn insert_key(s: &mut Vec<(u32, u16)>, k: (u32, u16))
    ensures
        final(s)@ == add_key(old(s)@, k),
{
    if !has_key(s, k) {
        s.push(k);
    }
}

/// Where the first cached render of `page` lies in `s`; the length when
/// there is none.
fn find_surface(s: &Vec<(u32, u16, usize)>, page: u32) -> (r: usize)
    ensures
        r == surface_index(s@, page, 0),
{
    let mut i: usize = 0;
    while i < s.len()
        invariant
            i <= s@.len(),
            surface_index(s@, page, 0) == surface_index(s@, page, i as int),
        decreases s@.len() - i,
    {
        if s[i].0 == page {
            return i;
        }
        i = i + 1;
    }
    i
}

/// Whether `page` is in the thumbnail window.
fn in_window(window: &Vec<PageNo>, page: u32) -> (r: bool)
    ensures
        r == window_has(window@, page),
{
    let mut i: usize = 0;
    while i < window.len()
        invariant
            i <= window@.len(),
            forall|j: int| 0 <= j < i ==> (#[trigger] window@[j]).idx != page,
        decreases window@.len() - i,
    {
        if window[i].idx == page {
            return true;
        }
        i = i + 1;
    }
    false
}

/// Whether one of `window`'s pages is `page`.
pub open spec fn window_has(window: Seq<PageNo>, page: u32) -> bool {
    exists|j: int| 0 <= j < window.len() && (#[trigger] window[j]).idx == page
}

/// The pages of the thumbnail window.
pub open spec fn window_pages(window: Seq<PageNo>) -> Set<u32> {
    Set::new(|p: u32| window_has(window, p))
}


/// Keeps the renders of the pages in `keep`.
fn retain_surfaces(s: &mut Vec<(u32, u16, usize)>, keep: &HashSet<u32>)
    ensures
        final(s)@ == keep_surfaces(old(s)@, keep@),
{
    let ghost src = s@;
    let mut out: Vec<(u32, u16, usize)> = Vec::new();
    let mut i: usize = 0;
    assert(src.take(0) =~= Seq::<(u32, u16, usize)>::empty());
    while i < s.len()
        invariant
            s@ == src,
            i <= src.len(),
            out@ == keep_surfaces(src.take(i as int), keep@),
        decreases src.len() - i,
    {
        assert(src.take(i + 1).drop_last() =~= src.take(i as int));
        let x = s[i];
        if keep.contains(&x.0) {
            out.push(x);
        }
        i = i + 1;
    }
    assert(src.take(i as int) =~= src);
    *s = out;
}

/// Keeps the thumbnails of the pages of the window.
fn retain_window_thumbs(s: &mut Vec<(u32, u16)>, window: &Vec<PageNo>)
    ensures
        final(s)@ == keep_thumbs(old(s)@, window_pages(window@)),
{
    let ghost src = s@;
    let mut out: Vec<(u32, u16)> = Vec::new();
    let mut i: usize = 0;
    assert(src.take(0) =~= Seq::<(u32, u16)>::empty());
    while i < s.len()
        invariant
            s@ == src,
            i <= src.len(),
            out@ == keep_thumbs(src.take(i as int), window_pages(window@)),
        decreases src.len() - i,
    {
        assert(src.take(i + 1).drop_last() =~= src.take(i as int));
        let x = s[i];
        if in_window(window, x.0) {
            out.push(x);
        }
        i = i + 1;
    }
    assert(src.take(i as int) =~= src);
    *s = out;
}

/// Lets go the thumbnails of `page`.
fn drop_thumb_page(s: &mut Vec<(u32, u16)>, page: u32)
    ensures
        final(s)@ == keep_thumbs(old(s)@, other_than(page)),
{
    let ghost src = s@;
    let mut out: Vec<(u32, u16)> = Vec::new();
    let mut i: usize = 0;
    assert(src.take(0) =~= Seq::<(u32, u16)>::empty());
    while i < s.len()
        invariant
            s@ == src,
            i <= src.len(),
            out@ == keep_thumbs(src.take(i as int), other_than(page)),
        decreases src.len() - i,
    {
        assert(src.take(i + 1).drop_last() =~= src.take(i as int));
        let x = s[i];
        if x.0 != page {
            out.push(x);
        }
        i = i + 1;
    }
    assert(src.take(i as int) =~= src);
    *s = out;
}

/// Caches the render of `page` at `scale`.
fn cache_surface(s: &mut Vec<(u32, u16, usize)>, page: u32, scale: u16, bytes: usize)
    ensures
        final(s)@ == put_surface(old(s)@, page, scale, bytes),
{
    let i = find_surface(s, page);
    proof {
        lemma_surface_index(s@, page, 0);
    }
    if i < s.len() {
        s.set(i, (page, scale, bytes));
    } else {
        s.push((page, scale, bytes));
    }
}

/// The work state once the renders that are not needed have left: the
/// renders of pages other than the visible one and its neighbours, then
/// the farthest ones until the neighbours fit in the budget, and the
/// thumbnails outside the window (all of them with the pages panel shut).
pub open spec fn evicted(m: WorkModel, v: WorkView) -> WorkModel {
    WorkModel {
        surfaces: within_budget(
            keep_surfaces(m.surfaces, spec_neighbors(v.visible, v.total)),
            v.visible,
            NEIGHBOR_CACHE_BUDGET as int,
        ),
        thumbs: if v.pages_open {
            keep_thumbs(m.thumbs, window_pages(v.window@))
        } else {
            Seq::empty()
        },
        ..m
    }
}

/// Whether the cached render of `page` is at `scale`.
pub open spec fn cached_at(s: Seq<(u32, u16, usize)>, page: u32, scale: u16) -> bool {
    surface_scale(s, page) == Some(scale)
}

/// The render of the visible page, when none runs, its data is loaded, and
/// it is neither cached at its scale nor failed there.
pub open spec fn visible_request(m: WorkModel, v: WorkView) -> Option<(u32, u16)> {
    let k = (v.visible, v.visible_scale);
    if m.inflight.len() > 0 || !v.loaded@.contains(v.visible) {
        None
    } else if cached_at(m.surfaces, v.visible, v.visible_scale) || m.failed.contains(k) {
        None
    } else {
        Some(k)
    }
}

/// The page to render ahead: the next one, when it exists and its data is
/// loaded, at its scale.
pub open spec fn prefetch(v: WorkView) -> Option<(u32, u16)> {
    if v.total == 0 || v.visible + 1 >= v.total || !v.loaded@.contains((v.visible + 1) as u32) {
        None
    } else {
        Some(((v.visible + 1) as u32, v.next_scale))
    }
}

/// `a - b`, or 0 below it.
pub open spec fn sat_sub(a: int, b: int) -> int {
    if a >= b {
        a - b
    } else {
        0
    }
}

/// Whether rendering `page` ahead keeps the neighbours within the budget:
/// its estimate replaces the bytes of its current render.
pub open spec fn fits(m: WorkModel, v: WorkView, page: u32) -> bool {
    page == v.visible || sat_sub(neighbor_sum(m.surfaces, v.visible), spec_page_bytes(m.surfaces, page))
        + v.next_estimate <= NEIGHBOR_CACHE_BUDGET
}

/// The render ahead, when none runs, the visible page is cached at its
/// scale and loaded, and the next page is loaded, neither cached at its
/// scale nor failed there, and fits in the budget.
pub open spec fn speculative_request(m: WorkModel, v: WorkView) -> Option<(u32, u16)> {
    if m.inflight.len() > 0 || !cached_at(m.surfaces, v.visible, v.visible_scale) || !v.loaded@.contains(
        v.visible,
    ) {
        None
    } else {
        match prefetch(v) {
            None => None,
            Some(k) => if cached_at(m.surfaces, k.0, k.1) || m.failed.contains(k) || !fits(m, v, k.0) {
                None
            } else {
                Some(k)
            },
        }
    }
}

/// Whether the visible page can be read: its data is loaded or some render
/// of it is cached.
pub open spec fn reading_ready(m: WorkModel, v: WorkView) -> bool {
    v.loaded@.contains(v.visible) || surface_index(m.surfaces, v.visible, 0) < m.surfaces.len()
}

/// The first thumbnail of the window, from place `j` on, whose page is
/// loaded and that is neither cached nor failed.
pub open spec fn thumb_pick(m: WorkModel, v: WorkView, j: int) -> Option<(u32, u16)>
    decreases v.window@.len() - j,
{
    if j < 0 || j >= v.window@.len() {
        None
    } else {
        let k = (v.window@[j].idx, v.thumb_scales@[j]);
        if v.loaded@.contains(k.0) && !m.thumbs.contains(k) && !m.failed.contains(k) {
            Some(k)
        } else {
            thumb_pick(m, v, j + 1)
        }
    }
}

/// The thumbnail to render, when nothing runs, the pages panel is open and
/// the visible page can be read.
pub open spec fn thumb_request(m: WorkModel, v: WorkView) -> Option<(u32, u16)> {
    if m.inflight.len() > 0 || !m.data_inflight.is_empty() || !v.pages_open || !reading_ready(m, v) {
        None
    } else {
        thumb_pick(m, v, 0)
    }
}

/// The work state with the render `k` running.
pub open spec fn track(m: WorkModel, k: (u32, u16)) -> WorkModel {
    WorkModel { inflight: add_key(m.inflight, k), ..m }
}

/// The render of `k` for the document and render generation of `v`.
pub open spec fn render_of(k: (u32, u16), v: WorkView) -> Work {
    Work::Render { page: k.0, scale: k.1, doc_gen: v.open_gen, render_gen: v.render_gen }
}

/// What the queue starts, and its state after: nothing while a render or a
/// page load runs; else, once the unneeded renders left, the visible page's
/// render, then the next page load in priority order, then the render
/// ahead, then a thumbnail.
pub open spec fn scheduled(m: WorkModel, v: WorkView) -> (WorkModel, Work) {
    if m.inflight.len() > 0 || !m.data_inflight.is_empty() {
        (m, Work::Idle)
    } else {
        let e = evicted(m, v);
        match visible_request(e, v) {
            Some(k) => (track(e, k), render_of(k, v)),
            None => match first_open(
                priority_order(v.visible, v.total, v.pages_open, v.window@),
                v.loaded@,
                e.data_inflight,
                e.data_failed,
            ) {
                Some(p) => (
                    WorkModel { data_inflight: e.data_inflight.insert(p.idx), ..e },
                    Work::PageData { page: p.idx, doc_gen: v.open_gen },
                ),
                None => match speculative_request(e, v) {
                    Some(k) => (track(e, k), render_of(k, v)),
                    None => match thumb_request(e, v) {
                        Some(k) => (track(e, k), render_of(k, v)),
                        None => (e, Work::Idle),
                    },
                },
            },
        }
    }
}

/// The page to render ahead.
fn prefetch_target(v: &WorkView) -> (r: Option<(u32, u16)>)
    requires
        view_ok(*v),
    ensures
        r == prefetch(*v),
{
    if v.total == 0 {
        return None;
    }
    let next = v.visible + 1;
    if next >= v.total {
        return None;
    }
    if !v.loaded.contains(&next) {
        return None;
    }
    Some((next, v.next_scale))
}

impl RenderWork {
    /// No render cached, running or failed; no page loading or failed.
    pub fn new() -> (r: RenderWork)
        ensures
            r@.wf(),
            r@.surfaces.len() == 0,
            r@.thumbs.len() == 0,
            r@.inflight.len() == 0,
            r@.failed.len() == 0,
            r@.data_inflight.is_empty(),
            r@.data_failed.is_empty(),
    {
        RenderWork {
            surfaces: Vec::new(),
            thumbs: Vec::new(),
            inflight: Vec::new(),
            failed: Vec::new(),
            data_inflight: HashSet::new(),
            data_failed: HashSet::new(),
        }
    }

    /// Lets go the renders that are not needed.
    fn evict_unused(&mut self, v: &WorkView)
        requires
            old(self)@.wf(),
        ensures
            final(self)@ == evicted(old(self)@, *v),
            final(self)@.wf(),
    {
        let ghost s0 = self.surfaces@;
        let keep = neighbor_page_set(v.visible, v.total);
        retain_surfaces(&mut self.surfaces, &keep);
        proof {
            lemma_keep_surfaces(s0, keep@);
            lemma_neighbor_le_total(self.surfaces@, v.visible);
            lemma_within_budget_total(self.surfaces@, v.visible, NEIGHBOR_CACHE_BUDGET as int);
        }
        enforce_neighbor_budget(&mut self.surfaces, v.visible, NEIGHBOR_CACHE_BUDGET);
        if !v.pages_open {
            self.thumbs = Vec::new();
        } else {
            retain_window_thumbs(&mut self.thumbs, &v.window);
        }
    }

    /// The render of the visible page to start, if any.
    fn request_visible_render(&self, v: &WorkView) -> (r: Option<(u32, u16)>)
        ensures
            r == visible_request(self@, *v),
    {
        if self.inflight.len() > 0 || !v.loaded.contains(&v.visible) {
            return None;
        }
        let k = (v.visible, v.visible_scale);
        let i = find_surface(&self.surfaces, v.visible);
        let cached = i < self.surfaces.len() && self.surfaces[i].1 == v.visible_scale;
        if cached || has_key(&self.failed, k) {
            None
        } else {
            Some(k)
        }
    }

    /// The render ahead to start, if any.
    fn request_speculative_render(&self, v: &WorkView) -> (r: Option<(u32, u16)>)
        requires
            self@.wf(),
            view_ok(*v),
        ensures
            r == speculative_request(self@, *v),
    {
        if self.inflight.len() > 0 {
            return None;
        }
        let i = find_surface(&self.surfaces, v.visible);
        let cached = i < self.surfaces.len() && self.surfaces[i].1 == v.visible_scale;
        if !cached || !v.loaded.contains(&v.visible) {
            return None;
        }
        match prefetch_target(v) {
            None => None,
            Some(k) => {
                let j = find_surface(&self.surfaces, k.0);
                let ahead_cached = j < self.surfaces.len() && self.surfaces[j].1 == k.1;
                if ahead_cached || has_key(&self.failed, k) {
                    return None;
                }
                proof {
                    lemma_neighbor_le_total(self.surfaces@, v.visible);
                }
                let neighbors = neighbor_bytes(&self.surfaces, v.visible);
                let retained = page_bytes(&self.surfaces, k.0);
                let ok = prefetch_fits_budget(
                    k.0,
                    v.visible,
                    neighbors,
                    retained,
                    v.next_estimate,
                    NEIGHBOR_CACHE_BUDGET,
                );
                assert(NEIGHBOR_CACHE_BUDGET < usize::MAX);
                if !ok {
                    None
                } else {
                    Some(k)
                }
            },
        }
    }

    /// The thumbnail render to start, if any.
    fn request_thumb_render(&self, v: &WorkView) -> (r: Option<(u32, u16)>)
        requires
            view_ok(*v),
        ensures
            r == thumb_request(self@, *v),
    {
        if self.inflight.len() > 0 || !self.data_inflight.is_empty() || !v.pages_open {
            return None;
        }
        let i = find_surface(&self.surfaces, v.visible);
        if !(v.loaded.contains(&v.visible) || i < self.surfaces.len()) {
            return None;
        }
        let mut j: usize = 0;
        while j < v.window.len()
            invariant
                view_ok(*v),
                j <= v.window@.len(),
                thumb_request(self@, *v) == thumb_pick(self@, *v, 0),
                thumb_pick(self@, *v, 0) == thumb_pick(self@, *v, j as int),
            decreases v.window@.len() - j,
        {
            let k = (v.window[j].idx, v.thumb_scales[j]);
            if v.loaded.contains(&k.0) && !has_key(&self.thumbs, k) && !has_key(&self.failed, k) {
                return Some(k);
            }
            j = j + 1;
        }
        None
    }

    /// Starts what comes next, if anything: see `scheduled`.
    pub fn schedule_work(&mut self, v: &WorkView) -> (w: Work)
        requires
            old(self)@.wf(),
            view_ok(*v),
        ensures
            final(self)@.wf(),
            (final(self)@, w) == scheduled(old(self)@, *v),
    {
        if self.inflight.len() > 0 || !self.data_inflight.is_empty() {
            return Work::Idle;
        }
        self.evict_unused(v);
        if let Some(k) = self.request_visible_render(v) {
            insert_key(&mut self.inflight, k);
            return Work::Render { page: k.0, scale: k.1, doc_gen: v.open_gen, render_gen: v.render_gen };
        }
        let prio = page_data_priority(v.visible, v.total, v.pages_open, v.window.as_slice());
        if let Some(p) = next_page_data_target(prio.as_slice(), &v.loaded, &self.data_inflight, &self.data_failed) {
            self.data_inflight.insert(p.idx);
            return Work::PageData { page: p.idx, doc_gen: v.open_gen };
        }
        if let Some(k) = self.request_speculative_render(v) {
            insert_key(&mut self.inflight, k);
            return Work::Render { page: k.0, scale: k.1, doc_gen: v.open_gen, render_gen: v.render_gen };
        }
        if let Some(k) = self.request_thumb_render(v) {
            insert_key(&mut self.inflight, k);
            return Work::Render { page: k.0, scale: k.1, doc_gen: v.open_gen, render_gen: v.render_gen };
        }
        Work::Idle
    }
}


/// Whether `page` is in the thumbnail window with `scale` as its
/// thumbnail scale.
pub open spec fn thumb_slot(v: WorkView, page: u32, scale: u16) -> bool {
    exists|j: int| 0 <= j < v.window@.len() && (#[trigger] v.window@[j]).idx == page && v.thumb_scales@[j] == scale
}

/// The work state once the render of `page` at `scale` came back (its
/// bytes, or none when it failed): a failure is remembered; a render is no
/// longer failed, and it is cached when it is the visible page's at its
/// scale or the render ahead, else kept as a thumbnail when the panel is
/// open and the page is in the window at that scale.
pub open spec fn render_landed(m: WorkModel, v: WorkView, page: u32, scale: u16, surface: Option<usize>) -> WorkModel {
    let k = (page, scale);
    match surface {
        Some(b) => {
            let m1 = WorkModel { failed: drop_key(m.failed, k), ..m };
            if (v.visible == page && v.visible_scale == scale) || prefetch(v) == Some(k) {
                WorkModel { surfaces: put_surface(m1.surfaces, page, scale, b), ..m1 }
            } else if v.pages_open && v.loaded@.contains(page) && thumb_slot(v, page, scale) {
                WorkModel { thumbs: put_thumb(m1.thumbs, page, scale), ..m1 }
            } else {
                m1
            }
        },
        None => WorkModel { failed: add_key(m.failed, k), ..m },
    }
}

/// What the queue starts once a render answered, and its state after: an
/// answer for another document changes nothing; else the render no longer
/// runs, its result counts unless the render generation moved on since,
/// and the next work is scheduled.
pub open spec fn after_render(
    m: WorkModel,
    v: WorkView,
    page: u32,
    scale: u16,
    doc_gen: u64,
    render_gen: u64,
    surface: Option<usize>,
) -> (WorkModel, Work) {
    if doc_gen != v.open_gen {
        (m, Work::Idle)
    } else {
        let m1 = WorkModel { inflight: drop_key(m.inflight, (page, scale)), ..m };
        if render_gen != v.render_gen {
            scheduled(evicted(m1, v), v)
        } else {
            scheduled(evicted(render_landed(m1, v, page, scale, surface), v), v)
        }
    }
}

/// What the queue starts once a page load answered, and its state after:
/// an answer for another document changes nothing; else the load no
/// longer runs, a failure is remembered (a success forgets one), and the
/// next work is scheduled.
pub open spec fn after_page_data(m: WorkModel, v: WorkView, page: u32, doc_gen: u64, ok: bool) -> (WorkModel, Work) {
    if doc_gen != v.open_gen {
        (m, Work::Idle)
    } else {
        let m1 = WorkModel {
            data_inflight: m.data_inflight.remove(page),
            data_failed: if ok {
                m.data_failed.remove(page)
            } else {
                m.data_failed.insert(page)
            },
            ..m
        };
        scheduled(m1, v)
    }
}

/// The work state once the pages panel opened or shut: a shut panel lets
/// its thumbnails go, and failed renders may be tried again.
pub open spec fn panel_toggled(m: WorkModel, pages_open: bool) -> WorkModel {
    WorkModel {
        thumbs: if pages_open {
            m.thumbs
        } else {
            Seq::empty()
        },
        failed: Seq::empty(),
        ..m
    }
}

proof fn lemma_put_surface_total(s: Seq<(u32, u16, usize)>, page: u32, scale: u16, bytes: usize)
    ensures
        total_bytes(put_surface(s, page, scale, bytes)) <= total_bytes(s) + bytes,
{
    lemma_surface_index(s, page, 0);
    let i = surface_index(s, page, 0);
    if i < s.len() {
        lemma_total_update(s, i, (page, scale, bytes));
    } else {
        assert(s.push((page, scale, bytes)).drop_last() =~= s);
    }
}

/// Whether `page` is in the window with `scale` as its thumbnail scale.
fn in_thumb_slot(v: &WorkView, page: u32, scale: u16) -> (r: bool)
    requires
        view_ok(*v),
    ensures
        r == thumb_slot(*v, page, scale),
{
    let mut j: usize = 0;
    while j < v.window.len()
        invariant
            view_ok(*v),
            j <= v.window@.len(),
            forall|q: int| 0 <= q < j ==> !((#[trigger] v.window@[q]).idx == page && v.thumb_scales@[q] == scale),
        decreases v.window@.len() - j,
    {
        if v.window[j].idx == page && v.thumb_scales[j] == scale {
            return true;
        }
        j = j + 1;
    }
    false
}

impl RenderWork {
    /// The bytes of all the cached renders.
    pub fn cached_bytes(&self) -> (r: usize)
        requires
            self@.wf(),
        ensures
            r == total_bytes(self@.surfaces),
    {
        let mut total: usize = 0;
        let mut i: usize = 0;
        assert(self.surfaces@.take(0) =~= Seq::<(u32, u16, usize)>::empty());
        while i < self.surfaces.len()
            invariant
                self@.wf(),
                i <= self.surfaces@.len(),
                total == total_bytes(self.surfaces@.take(i as int)),
            decreases self.surfaces@.len() - i,
        {
            proof {
                assert(self.surfaces@.take(i + 1).drop_last() =~= self.surfaces@.take(i as int));
                lemma_total_prefix(self.surfaces@, i + 1);
            }
            total = total + self.surfaces[i].2;
            i = i + 1;
        }
        assert(self.surfaces@.take(i as int) =~= self.surfaces@);
        total
    }

    /// Takes the answer of a render: see `after_render`.
    pub fn rendered(
        &mut self,
        page: u32,
        scale: u16,
        doc_gen: u64,
        render_gen: u64,
        surface: Option<usize>,
        v: &WorkView,
    ) -> (w: Work)
        requires
            old(self)@.wf(),
            view_ok(*v),
            surface matches Some(b) ==> total_bytes(old(self)@.surfaces) + b <= usize::MAX,
        ensures
            final(self)@.wf(),
            (final(self)@, w) == after_render(old(self)@, *v, page, scale, doc_gen, render_gen, surface),
    {
        if doc_gen != v.open_gen {
            return Work::Idle;
        }
        let k = (page, scale);
        remove_key(&mut self.inflight, k);
        if render_gen != v.render_gen {
            self.evict_unused(v);
            return self.schedule_work(v);
        }
        match surface {
            Some(b) => {
                remove_key(&mut self.failed, k);
                let ahead = prefetch_target(v);
                let is_ahead = match ahead {
                    Some(a) => a.0 == page && a.1 == scale,
                    None => false,
                };
                if (v.visible == page && v.visible_scale == scale) || is_ahead {
                    proof {
                        lemma_put_surface_total(self.surfaces@, page, scale, b);
                    }
                    cache_surface(&mut self.surfaces, page, scale, b);
                } else if v.pages_open && v.loaded.contains(&page) && in_thumb_slot(v, page, scale) {
                    drop_thumb_page(&mut self.thumbs, page);
                    self.thumbs.push((page, scale));
                }
            },
            None => {
                insert_key(&mut self.failed, k);
            },
        }
        self.evict_unused(v);
        self.schedule_work(v)
    }

    /// Takes the answer of a page load: see `after_page_data`.
    pub fn page_data_done(&mut self, page: u32, doc_gen: u64, ok: bool, v: &WorkView) -> (w: Work)
        requires
            old(self)@.wf(),
            view_ok(*v),
        ensures
            final(self)@.wf(),
            (final(self)@, w) == after_page_data(old(self)@, *v, page, doc_gen, ok),
    {
        if doc_gen != v.open_gen {
            return Work::Idle;
        }
        self.data_inflight.remove(&page);
        if ok {
            self.data_failed.remove(&page);
        } else {
            self.data_failed.insert(page);
        }
        self.schedule_work(v)
    }

    /// The pages panel opened or shut (`v` shows its new state): the
    /// thumbnails of a shut panel leave, failed renders may be tried again,
    /// and the next work is scheduled.
    pub fn panel_toggled(&mut self, v: &WorkView) -> (w: Work)
        requires
            old(self)@.wf(),
            view_ok(*v),
        ensures
            final(self)@.wf(),
            (final(self)@, w) == scheduled(panel_toggled(old(self)@, v.pages_open), *v),
    {
        if !v.pages_open {
            self.thumbs = Vec::new();
        }
        self.failed = Vec::new();
        self.schedule_work(v)
    }

    /// Whether the render of the visible page at its scale failed.
    pub fn visible_render_failed(&self, v: &WorkView) -> (r: bool)
        ensures
            r == self@.failed.contains((v.visible, v.visible_scale)),
    {
        has_key(&self.failed, (v.visible, v.visible_scale))
    }

    /// The scale of the cached render of `page`, if any: the render shown
    /// while the one at the current scale is on its way.
    pub fn surface_scale(&self, page: u32) -> (r: Option<u16>)
        ensures
            r == surface_scale(self@.surfaces, page),
    {
        let i = find_surface(&self.surfaces, page);
        if i < self.surfaces.len() {
            Some(self.surfaces[i].1)
        } else {
            None
        }
    }

    /// Whether the thumbnail of `page` at `scale` is cached.
    pub fn has_thumb(&self, page: u32, scale: u16) -> (r: bool)
        ensures
            r == self@.thumbs.contains((page, scale)),
    {
        has_key(&self.thumbs, (page, scale))
    }
}

proof fn lemma_total_prefix(s: Seq<(u32, u16, usize)>, k: int)
    requires
        0 <= k <= s.len(),
    ensures
        0 <= total_bytes(s.take(k)) <= total_bytes(s),
    decreases s.len() - k,
{
    if k < s.len() {
        lemma_total_prefix(s, k + 1);
        assert(s.take(k + 1).drop_last() =~= s.take(k));
        lemma_total_nonneg(s.take(k));
    } else {
        assert(s.take(k) =~= s);
        lemma_total_nonneg(s);
    }
}


proof fn lemma_surface_index_char(t: Seq<(u32, u16, usize)>, p: u32, j: int)
    requires
        0 <= j <= t.len(),
        forall|k: int| 0 <= k < j ==> (#[trigger] t[k]).0 != p,
        j == t.len() || t[j].0 == p,
    ensures
        surface_index(t, p, 0) == j,
{
    lemma_surface_index(t, p, 0);
    let f = surface_index(t, p, 0);
    if f < j {
        assert(t[f].0 == p);
    }
    if f > j {
        assert(t[j].0 != p);
    }
}

proof fn lemma_surface_scale_push(t: Seq<(u32, u16, usize)>, x: (u32, u16, usize), p: u32)
    ensures
        surface_scale(t.push(x), p) == (if surface_scale(t, p) is Some {
            surface_scale(t, p)
        } else if x.0 == p {
            Some(x.1)
        } else {
            None::<u16>
        }),
{
    lemma_surface_index(t, p, 0);
    let f = surface_index(t, p, 0);
    let u = t.push(x);
    if f < t.len() {
        assert forall|k: int| 0 <= k < f implies (#[trigger] u[k]).0 != p by {
            assert(u[k] == t[k]);
        }
        assert(u[f] == t[f]);
        lemma_surface_index_char(u, p, f);
    } else {
        assert forall|k: int| 0 <= k < t.len() implies (#[trigger] u[k]).0 != p by {
            assert(u[k] == t[k]);
        }
        if x.0 == p {
            lemma_surface_index_char(u, p, t.len() as int);
        } else {
            lemma_surface_index_char(u, p, u.len() as int);
        }
    }
}

proof fn lemma_surface_scale_remove(t: Seq<(u32, u16, usize)>, i: int, p: u32)
    requires
        0 <= i < t.len(),
        t[i].0 != p,
    ensures
        surface_scale(t.remove(i), p) == surface_scale(t, p),
{
    lemma_surface_index(t, p, 0);
    let f = surface_index(t, p, 0);
    let u = t.remove(i);
    if f < i {
        assert forall|k: int| 0 <= k < f implies (#[trigger] u[k]).0 != p by {
            assert(u[k] == t[k]);
        }
        assert(u[f] == t[f]);
        lemma_surface_index_char(u, p, f);
    } else {
        assert(f != i);
        assert forall|k: int| 0 <= k < f - 1 implies (#[trigger] u[k]).0 != p by {
            if k < i {
                assert(u[k] == t[k]);
            } else {
                assert(u[k] == t[k + 1]);
            }
        }
        if f < t.len() {
            assert(u[f - 1] == t[f]);
        }
        lemma_surface_index_char(u, p, f - 1);
    }
}

proof fn lemma_keep_surfaces_scale(s: Seq<(u32, u16, usize)>, keep: Set<u32>, p: u32)
    requires
        keep.contains(p),
    ensures
        surface_scale(keep_surfaces(s, keep), p) == surface_scale(s, p),
    decreases s.len(),
{
    if s.len() > 0 {
        let pre = s.drop_last();
        let x = s.last();
        lemma_keep_surfaces_scale(pre, keep, p);
        assert(s == pre.push(x));
        lemma_surface_scale_push(pre, x, p);
        if keep.contains(x.0) {
            lemma_surface_scale_push(keep_surfaces(pre, keep), x, p);
        }
    } else {
        lemma_surface_index(s, p, 0);
    }
}

proof fn lemma_within_budget_scale(s: Seq<(u32, u16, usize)>, visible: u32, budget: int)
    ensures
        surface_scale(within_budget(s, visible, budget), visible) == surface_scale(s, visible),
    decreases s.len(),
{
    if neighbor_sum(s, visible) > budget {
        lemma_farthest(s, visible);
        match farthest(s, visible) {
            None => {},
            Some(i) => {
                lemma_within_budget_scale(s.remove(i), visible, budget);
                lemma_surface_scale_remove(s, i, visible);
            },
        }
    }
}

/// Letting the unneeded renders go keeps the render of the visible page of
/// a document with pages.
proof fn lemma_evicted_keeps_visible(m: WorkModel, v: WorkView)
    requires
        v.total > 0,
    ensures
        surface_scale(evicted(m, v).surfaces, v.visible) == surface_scale(m.surfaces, v.visible),
{
    let keep = spec_neighbors(v.visible, v.total);
    assert(keep.contains(v.visible));
    lemma_keep_surfaces_scale(m.surfaces, keep, v.visible);
    lemma_within_budget_scale(keep_surfaces(m.surfaces, keep), v.visible, NEIGHBOR_CACHE_BUDGET as int);
}

proof fn lemma_first_open(prio: Seq<PageNo>, loaded: Set<u32>, inflight: Set<u32>, failed: Set<u32>)
    ensures
        first_open(prio, loaded, inflight, failed) matches Some(p) ==> prio.contains(p) && !loaded.contains(
            p.idx,
        ) && !inflight.contains(p.idx) && !failed.contains(p.idx),
    decreases prio.len(),
{
    if prio.len() > 0 {
        lemma_first_open(prio.drop_first(), loaded, inflight, failed);
        if let Some(p) = first_open(prio.drop_first(), loaded, inflight, failed) {
            let j = choose|j: int| 0 <= j < prio.drop_first().len() && prio.drop_first()[j] == p;
            assert(prio[j + 1] == p);
        }
        assert(prio[0] == prio[0]);
    }
}

proof fn lemma_thumb_pick(m: WorkModel, v: WorkView, j: int)
    ensures
        thumb_pick(m, v, j) matches Some(k) ==> !m.failed.contains(k) && !m.thumbs.contains(k)
            && v.loaded@.contains(k.0),
    decreases v.window@.len() - j,
{
    if 0 <= j < v.window@.len() {
        lemma_thumb_pick(m, v, j + 1);
    }
}

/// The render that leaves first is the last of those farthest away.
proof fn lemma_farthest_last(entries: Seq<(u32, u16, usize)>, visible: u32)
    ensures
        farthest(entries, visible) matches Some(i) ==> forall|j: int|
            i < j < entries.len() && (#[trigger] entries[j]).0 != visible ==> dist(entries[j].0, visible)
                < dist(entries[i].0, visible),
    decreases entries.len(),
{
    if entries.len() > 0 {
        let pre = entries.drop_last();
        let n = entries.len() - 1;
        lemma_farthest_last(pre, visible);
        lemma_farthest(pre, visible);
        assert forall|j: int| 0 <= j < pre.len() implies #[trigger] pre[j] == entries[j] by {}
        assert(entries[n] == entries.last());
        if let Some(i) = farthest(entries, visible) {
            if i < n {
                assert(farthest(pre, visible) == Some(i));
                assert forall|j: int|
                    i < j < entries.len() && (#[trigger] entries[j]).0 != visible implies dist(
                    entries[j].0,
                    visible,
                ) < dist(entries[i].0, visible) by {
                    if j < n {
                        assert(pre[j] == entries[j]);
                    }
                }
            }
        }
    }
}

/// Letting the farthest render go leaves the scale of a page's render as it
/// was, or leaves the page with none.
proof fn lemma_remove_farthest_scale(s: Seq<(u32, u16, usize)>, visible: u32, p: u32)
    requires
        farthest(s, visible) is Some,
    ensures
        ({
            let r = surface_scale(s.remove(farthest(s, visible)->0), p);
            r is None || r == surface_scale(s, p)
        }),
{
    lemma_farthest(s, visible);
    lemma_farthest_last(s, visible);
    let i = farthest(s, visible)->0;
    if s[i].0 != p {
        lemma_surface_scale_remove(s, i, p);
    } else {
        lemma_surface_index(s, p, 0);
        let f = surface_index(s, p, 0);
        let u = s.remove(i);
        if f < i {
            assert forall|k: int| 0 <= k < f implies (#[trigger] u[k]).0 != p by {
                assert(u[k] == s[k]);
            }
            assert(u[f] == s[f]);
            lemma_surface_index_char(u, p, f);
        } else {
            assert forall|k: int| 0 <= k < u.len() implies (#[trigger] u[k]).0 != p by {
                if k < i {
                    assert(u[k] == s[k]);
                } else {
                    assert(u[k] == s[k + 1]);
                }
            }
            lemma_surface_index_char(u, p, u.len() as int);
        }
    }
}

proof fn lemma_within_budget_any_scale(s: Seq<(u32, u16, usize)>, visible: u32, budget: int, p: u32)
    ensures
        ({
            let r = surface_scale(within_budget(s, visible, budget), p);
            r is None || r == surface_scale(s, p)
        }),
    decreases s.len(),
{
    if neighbor_sum(s, visible) > budget {
        lemma_farthest(s, visible);
        match farthest(s, visible) {
            None => {},
            Some(i) => {
                lemma_within_budget_any_scale(s.remove(i), visible, budget, p);
                lemma_remove_farthest_scale(s, visible, p);
                lemma_surface_index(s.remove(i), p, 0);
            },
        }
    }
}

proof fn lemma_keep_surfaces_dropped(s: Seq<(u32, u16, usize)>, keep: Set<u32>, p: u32)
    requires
        !keep.contains(p),
    ensures
        surface_scale(keep_surfaces(s, keep), p) is None,
    decreases s.len(),
{
    if s.len() > 0 {
        let pre = s.drop_last();
        let x = s.last();
        lemma_keep_surfaces_dropped(pre, keep, p);
        if keep.contains(x.0) {
            lemma_surface_scale_push(keep_surfaces(pre, keep), x, p);
        }
    } else {
        lemma_surface_index(s, p, 0);
    }
}

/// Letting the unneeded renders go adds no render: a page keeps the scale
/// of its render, or has none.
proof fn lemma_evicted_adds_nothing(m: WorkModel, v: WorkView, p: u32)
    ensures
        ({
            let r = surface_scale(evicted(m, v).surfaces, p);
            r is None || r == surface_scale(m.surfaces, p)
        }),
{
    let keep = spec_neighbors(v.visible, v.total);
    let kept = keep_surfaces(m.surfaces, keep);
    if keep.contains(p) {
        lemma_keep_surfaces_scale(m.surfaces, keep, p);
    } else {
        lemma_keep_surfaces_dropped(m.surfaces, keep, p);
    }
    lemma_within_budget_any_scale(kept, v.visible, NEIGHBOR_CACHE_BUDGET as int, p);
}

/// A stale render answer caches nothing, and a failed render is
/// remembered (`after_render` is what `RenderWork::rendered` does, and
/// `visible_render_failed` reads `failed`): when the render of `page` at
/// `scale` is not cached, an
/// answer for another document or an older render generation, or a
/// failed render, leaves it uncached; a failed render of the current
/// document and render generation is marked failed.
pub proof fn law_stale_or_failed_render_caches_nothing(
    m: WorkModel,
    v: WorkView,
    page: u32,
    scale: u16,
    doc_gen: u64,
    render_gen: u64,
    surface: Option<usize>,
)
    requires
        !cached_at(m.surfaces, page, scale),
    ensures
        doc_gen != v.open_gen || render_gen != v.render_gen || surface is None ==> !cached_at(
            after_render(m, v, page, scale, doc_gen, render_gen, surface).0.surfaces,
            page,
            scale,
        ),
        doc_gen == v.open_gen && render_gen == v.render_gen && surface is None ==> after_render(
            m,
            v,
            page,
            scale,
            doc_gen,
            render_gen,
            surface,
        ).0.failed.contains((page, scale)),
{
    if doc_gen != v.open_gen {
        return;
    }
    let m1 = WorkModel { inflight: drop_key(m.inflight, (page, scale)), ..m };
    let landed = if render_gen != v.render_gen {
        m1
    } else {
        render_landed(m1, v, page, scale, surface)
    };
    if render_gen != v.render_gen || surface is None {
        assert(landed.surfaces == m.surfaces);
        let e = evicted(landed, v);
        lemma_evicted_adds_nothing(landed, v, page);
        lemma_evicted_adds_nothing(e, v, page);
        assert(scheduled(e, v).0.surfaces == e.surfaces || scheduled(e, v).0.surfaces == evicted(e, v).surfaces);
    }
    if render_gen == v.render_gen && surface is None {
        let k = (page, scale);
        assert(landed.failed == add_key(m.failed, k));
        assert(landed.failed.contains(k)) by {
            if !m.failed.contains(k) {
                assert(m.failed.push(k)[m.failed.len() as int] == k);
            }
        }
        let e = evicted(landed, v);
        assert(scheduled(e, v).0.failed == e.failed);
    }
}

/// Nothing runs, or one render, or one page load.
pub open spec fn one_job(m: WorkModel) -> bool {
    ||| m.inflight.len() == 0 && m.data_inflight.is_empty()
    ||| m.inflight.len() == 1 && m.data_inflight.is_empty()
    ||| m.inflight.len() == 0 && exists|p: u32| m.data_inflight == set![p]
}

proof fn lemma_scheduled_one_job(m: WorkModel, v: WorkView)
    requires
        one_job(m),
    ensures
        one_job(scheduled(m, v).0),
{
    if !(m.inflight.len() > 0 || !m.data_inflight.is_empty()) {
        let e = evicted(m, v);
        assert(e.inflight.len() == 0);
        assert forall|k: (u32, u16)| track(e, k).inflight.len() == 1 by {
            assert(!e.inflight.contains(k));
        }
        if let Some(p) = first_open(
            priority_order(v.visible, v.total, v.pages_open, v.window@),
            v.loaded@,
            e.data_inflight,
            e.data_failed,
        ) {
            assert(e.data_inflight.insert(p.idx) =~= set![p.idx]);
        }
    }
}

/// One piece of outside work runs at a time: scheduling, the answer of a
/// render, the answer of a page load and a toggled pages panel each leave
/// nothing running, or one render, or one page load.
pub proof fn law_one_job_at_a_time(
    m: WorkModel,
    v: WorkView,
    page: u32,
    scale: u16,
    doc_gen: u64,
    render_gen: u64,
    surface: Option<usize>,
    ok: bool,
)
    requires
        one_job(m),
    ensures
        one_job(scheduled(m, v).0),
        one_job(after_render(m, v, page, scale, doc_gen, render_gen, surface).0),
        one_job(after_page_data(m, v, page, doc_gen, ok).0),
        one_job(scheduled(panel_toggled(m, v.pages_open), v).0),
{
    lemma_scheduled_one_job(m, v);
    lemma_scheduled_one_job(panel_toggled(m, v.pages_open), v);
    if doc_gen == v.open_gen {
        let m1 = WorkModel { inflight: drop_key(m.inflight, (page, scale)), ..m };
        lemma_drop_key(m.inflight, (page, scale));
        assert(one_job(m1));
        lemma_scheduled_one_job(evicted(m1, v), v);
        lemma_scheduled_one_job(evicted(render_landed(m1, v, page, scale, surface), v), v);
        let d = m.data_inflight.remove(page);
        let m2 = WorkModel {
            data_inflight: d,
            data_failed: if ok {
                m.data_failed.remove(page)
            } else {
                m.data_failed.insert(page)
            },
            ..m
        };
        assert(one_job(m2)) by {
            if m.data_inflight.is_empty() {
                assert(d =~= Set::<u32>::empty());
            } else if m.inflight.len() == 0 {
                let q = choose|q: u32| m.data_inflight == set![q];
                if q == page {
                    assert(d =~= Set::<u32>::empty());
                } else {
                    assert(d =~= set![q]);
                }
            }
        }
        lemma_scheduled_one_job(m2, v);
    }
}

/// Nothing that failed is tried again: a render that failed at its scale
/// is not started again, nor is a page load that failed, nor the load of a
/// page whose data is there or on its way.
pub proof fn law_no_retry(m: WorkModel, v: WorkView)
    ensures
        scheduled(m, v).1 matches Work::Render { page, scale, .. } ==> !m.failed.contains((page, scale)),
        scheduled(m, v).1 matches Work::PageData { page, .. } ==> !m.data_failed.contains(page)
            && !v.loaded@.contains(page) && !m.data_inflight.contains(page),
{
    let e = evicted(m, v);
    lemma_first_open(
        priority_order(v.visible, v.total, v.pages_open, v.window@),
        v.loaded@,
        e.data_inflight,
        e.data_failed,
    );
    lemma_thumb_pick(e, v, 0);
}

/// The visible page comes first: when nothing runs, the visible page of a
/// document with pages has its data loaded, and its render at the current
/// scale is neither cached nor failed, that render is what starts.
pub proof fn law_visible_first(m: WorkModel, v: WorkView)
    requires
        m.inflight.len() == 0,
        m.data_inflight.is_empty(),
        v.total > 0,
        v.loaded@.contains(v.visible),
        surface_scale(m.surfaces, v.visible) != Some(v.visible_scale),
        !m.failed.contains((v.visible, v.visible_scale)),
    ensures
        scheduled(m, v).1 == render_of((v.visible, v.visible_scale), v),
        scheduled(m, v).0.inflight == seq![(v.visible, v.visible_scale)],
{
    lemma_evicted_keeps_visible(m, v);
    let e = evicted(m, v);
    assert(!e.inflight.contains((v.visible, v.visible_scale)));
    assert(e.inflight.push((v.visible, v.visible_scale)) =~= seq![(v.visible, v.visible_scale)]);
}

/// Once the queue has scheduled from an idle state, the cached renders are
/// of the visible page and its neighbours only, and those other than the
/// visible page's fit in the budget.
pub proof fn law_renders_stay_near(m: WorkModel, v: WorkView)
    requires
        m.inflight.len() == 0,
        m.data_inflight.is_empty(),
    ensures
        forall|i: int| 0 <= i < scheduled(m, v).0.surfaces.len() ==> spec_neighbors(v.visible, v.total).contains(
            #[trigger] scheduled(m, v).0.surfaces[i].0,
        ),
        neighbor_sum(scheduled(m, v).0.surfaces, v.visible) <= NEIGHBOR_CACHE_BUDGET,
{
    let keep = spec_neighbors(v.visible, v.total);
    let kept = keep_surfaces(m.surfaces, keep);
    lemma_keep_surfaces(m.surfaces, keep);
    law_within_budget(kept, v.visible, NEIGHBOR_CACHE_BUDGET as int);
    let r = within_budget(kept, v.visible, NEIGHBOR_CACHE_BUDGET as int);
    assert(scheduled(m, v).0.surfaces == r);
    assert forall|i: int| 0 <= i < r.len() implies keep.contains(#[trigger] r[i].0) by {
        assert(r.contains(r[i]));
        assert(kept.contains(r[i]));
        let j = choose|j: int| 0 <= j < kept.len() && kept[j] == r[i];
        assert(keep.contains(kept[j].0));
    }
}

} // verus!
