//! The budget of the page renders kept around the visible page: the byte
//! sizes of the cached renders, which ones leave when the neighbours take
//! too much room, and whether a prefetch fits.

use vstd::prelude::*;

verus! {

/// How far a page is from the visible one.
pub open spec fn dist(page: u32, visible: u32) -> int {
    if page >= visible {
        page - visible
    } else {
        visible - page
    }
}

/// The bytes of the cached renders other than the visible page's.
pub open spec fn neighbor_sum(entries: Seq<(u32, u16, usize)>, visible: u32) -> int
    decreases entries.len(),
{
    if entries.len() == 0 {
        0
    } else {
        neighbor_sum(entries.drop_last(), visible) + if entries.last().0 != visible {
            entries.last().2 as int
        } else {
            0
        }
    }
}

/// The render that leaves first: the last of the pages other than the
/// visible one that lie farthest from it (`max_by_key` keeps the last of
/// equal maxima).
pub open spec fn farthest(entries: Seq<(u32, u16, usize)>, visible: u32) -> Option<int>
    decreases entries.len(),
{
    if entries.len() == 0 {
        None
    } else {
        let f = farthest(entries.drop_last(), visible);
        let last = entries.last();
        if last.0 != visible && (f is None || dist(last.0, visible) >= dist(
            entries[f->0].0,
            visible,
        )) {
            Some(entries.len() - 1)
        } else {
            f
        }
    }
}

/// The renders that stay once the farthest ones have left, one at a time,
/// until the neighbours' bytes fit in the budget.
pub open spec fn within_budget(entries: Seq<(u32, u16, usize)>, visible: u32, budget: int) -> Seq<
    (u32, u16, usize),
>
    decreases entries.len(),
{
    if neighbor_sum(entries, visible) <= budget {
        entries
    } else {
        match farthest(entries, visible) {
            None => entries,
            Some(i) => if 0 <= i < entries.len() {
                within_budget(entries.remove(i), visible, budget)
            } else {
                entries
            },
        }
    }
}

pub(crate) proof fn lemma_farthest(entries: Seq<(u32, u16, usize)>, visible: u32)
    ensures
        farthest(entries, visible) matches Some(i) ==> 0 <= i < entries.len() && entries[i].0
            != visible && forall|j: int|
            0 <= j < entries.len() && entries[j].0 != visible ==> dist(
                #[trigger] entries[j].0,
                visible,
            ) <= dist(entries[i].0, visible),
        farthest(entries, visible) is None ==> forall|j: int|
            0 <= j < entries.len() ==> (#[trigger] entries[j]).0 == visible,
    decreases entries.len(),
{
    if entries.len() > 0 {
        let pre = entries.drop_last();
        lemma_farthest(pre, visible);
        let n = entries.len() - 1;
        assert(entries[n] == entries.last());
        assert forall|j: int| 0 <= j < pre.len() implies #[trigger] pre[j] == entries[j] by {}
        match farthest(entries, visible) {
            Some(i) => {
                assert forall|j: int| 0 <= j < entries.len() && entries[j].0 != visible implies dist(
                    #[trigger] entries[j].0,
                    visible,
                ) <= dist(entries[i].0, visible) by {
                    if j < n {
                        assert(pre[j] == entries[j]);
                        match farthest(pre, visible) {
                            Some(f) => {
                                assert(pre[f] == entries[f]);
                            },
                            None => {},
                        }
                    }
                }
            },
            None => {
                assert forall|j: int| 0 <= j < entries.len() implies (#[trigger] entries[j]).0 == visible by {
                    if j < n {
                        assert(pre[j] == entries[j]);
                    }
                }
            },
        }
    }
}

proof fn lemma_neighbor_sum_nonneg(entries: Seq<(u32, u16, usize)>, visible: u32)
    ensures
        neighbor_sum(entries, visible) >= 0,
        (forall|j: int| 0 <= j < entries.len() ==> (#[trigger] entries[j]).0 == visible) ==> neighbor_sum(
            entries,
            visible,
        ) == 0,
    decreases entries.len(),
{
    if entries.len() > 0 {
        let pre = entries.drop_last();
        assert forall|j: int| 0 <= j < pre.len() implies #[trigger] pre[j] == entries[j] by {}
        lemma_neighbor_sum_nonneg(pre, visible);
        assert(entries[entries.len() - 1] == entries.last());
    }
}

proof fn lemma_neighbor_sum_remove(entries: Seq<(u32, u16, usize)>, visible: u32, i: int)
    requires
        0 <= i < entries.len(),
    ensures
        neighbor_sum(entries.remove(i), visible) == neighbor_sum(entries, visible) - if entries[i].0
            != visible {
            entries[i].2 as int
        } else {
            0
        },
    decreases entries.len(),
{
    let pre = entries.drop_last();
    if i == entries.len() - 1 {
        assert(entries.remove(i) =~= pre);
    } else {
        lemma_neighbor_sum_remove(pre, visible, i);
        assert(entries.remove(i) =~= pre.remove(i).push(entries.last()));
        assert(entries.remove(i).drop_last() =~= pre.remove(i));
        assert(pre[i] == entries[i]);
    }
}

/// The bytes of the cached renders other than the visible page's.
pub fn neighbor_bytes(entries: &Vec<(u32, u16, usize)>, visible: u32) -> (r: usize)
    requires
        neighbor_sum(entries@, visible) <= usize::MAX,
    ensures
        r == neighbor_sum(entries@, visible),
{
    let mut total: usize = 0;
    let mut i: usize = 0;
    assert(entries@.take(0) =~= Seq::<(u32, u16, usize)>::empty());
    while i < entries.len()
        invariant
            i <= entries@.len(),
            total == neighbor_sum(entries@.take(i as int), visible),
            neighbor_sum(entries@, visible) <= usize::MAX,
        decreases entries@.len() - i,
    {
        proof {
            lemma_neighbor_sum_prefix(entries@, visible, i + 1);
            assert(entries@.take(i + 1).drop_last() =~= entries@.take(i as int));
            assert(entries@.take(i + 1).last() == entries@[i as int]);
        }
        if entries[i].0 != visible {
            total = total + entries[i].2;
        }
        i = i + 1;
    }
    assert(entries@.take(i as int) =~= entries@);
    total
}

proof fn lemma_neighbor_sum_prefix(entries: Seq<(u32, u16, usize)>, visible: u32, k: int)
    requires
        0 <= k <= entries.len(),
    ensures
        0 <= neighbor_sum(entries.take(k), visible) <= neighbor_sum(entries, visible),
    decreases entries.len() - k,
{
    if k < entries.len() {
        lemma_neighbor_sum_prefix(entries, visible, k + 1);
        assert(entries.take(k + 1).drop_last() =~= entries.take(k));
        lemma_neighbor_sum_nonneg(entries.take(k), visible);
    } else {
        assert(entries.take(k) =~= entries);
        lemma_neighbor_sum_nonneg(entries, visible);
    }
}

/// Where the first cached render of `page` lies, searching from `j`; the
/// length when there is none.
pub open spec fn surface_index(entries: Seq<(u32, u16, usize)>, page: u32, j: int) -> int
    decreases entries.len() - j,
{
    if j < 0 || j >= entries.len() {
        entries.len() as int
    } else if entries[j].0 == page {
        j
    } else {
        surface_index(entries, page, j + 1)
    }
}

/// The bytes of the first cached render of `page`, 0 when it has none.
pub open spec fn spec_page_bytes(entries: Seq<(u32, u16, usize)>, page: u32) -> int {
    let i = surface_index(entries, page, 0);
    if i < entries.len() {
        entries[i].2 as int
    } else {
        0
    }
}

pub(crate) proof fn lemma_surface_index(entries: Seq<(u32, u16, usize)>, page: u32, j: int)
    requires
        0 <= j <= entries.len(),
    ensures
        j <= surface_index(entries, page, j) <= entries.len(),
        forall|k: int| j <= k < surface_index(entries, page, j) ==> (#[trigger] entries[k]).0 != page,
        surface_index(entries, page, j) < entries.len() ==> entries[surface_index(entries, page, j)].0
            == page,
    decreases entries.len() - j,
{
    if j < entries.len() && entries[j].0 != page {
        lemma_surface_index(entries, page, j + 1);
    }
}

/// The bytes of one page's cached render, 0 when it has none.
pub fn page_bytes(entries: &Vec<(u32, u16, usize)>, page: u32) -> (r: usize)
    ensures
        r == spec_page_bytes(entries@, page),
{
    let mut i: usize = 0;
    while i < entries.len()
        invariant
            i <= entries@.len(),
            surface_index(entries@, page, 0) == surface_index(entries@, page, i as int),
        decreases entries@.len() - i,
    {
        if entries[i].0 == page {
            return entries[i].2;
        }
        i = i + 1;
    }
    0
}

/// The bytes of all the cached renders.
pub open spec fn total_bytes(entries: Seq<(u32, u16, usize)>) -> int
    decreases entries.len(),
{
    if entries.len() == 0 {
        0
    } else {
        total_bytes(entries.drop_last()) + entries.last().2
    }
}

pub(crate) proof fn lemma_neighbor_le_total(entries: Seq<(u32, u16, usize)>, visible: u32)
    ensures
        0 <= neighbor_sum(entries, visible) <= total_bytes(entries),
    decreases entries.len(),
{
    if entries.len() > 0 {
        lemma_neighbor_le_total(entries.drop_last(), visible);
    }
}

pub(crate) proof fn lemma_total_remove(entries: Seq<(u32, u16, usize)>, i: int)
    requires
        0 <= i < entries.len(),
    ensures
        total_bytes(entries.remove(i)) == total_bytes(entries) - entries[i].2,
    decreases entries.len(),
{
    let pre = entries.drop_last();
    if i == entries.len() - 1 {
        assert(entries.remove(i) =~= pre);
    } else {
        lemma_total_remove(pre, i);
        assert(entries.remove(i) =~= pre.remove(i).push(entries.last()));
        assert(entries.remove(i).drop_last() =~= pre.remove(i));
        assert(pre[i] == entries[i]);
    }
}

pub(crate) proof fn lemma_total_update(entries: Seq<(u32, u16, usize)>, i: int, x: (u32, u16, usize))
    requires
        0 <= i < entries.len(),
    ensures
        total_bytes(entries.update(i, x)) == total_bytes(entries) - entries[i].2 + x.2,
    decreases entries.len(),
{
    let pre = entries.drop_last();
    if i == entries.len() - 1 {
        assert(entries.update(i, x).drop_last() =~= pre);
    } else {
        lemma_total_update(pre, i, x);
        assert(entries.update(i, x).drop_last() =~= pre.update(i, x));
    }
}

pub(crate) proof fn lemma_total_nonneg(entries: Seq<(u32, u16, usize)>)
    ensures
        total_bytes(entries) >= 0,
    decreases entries.len(),
{
    if entries.len() > 0 {
        lemma_total_nonneg(entries.drop_last());
    }
}

pub(crate) proof fn lemma_within_budget_total(entries: Seq<(u32, u16, usize)>, visible: u32, budget: int)
    ensures
        total_bytes(within_budget(entries, visible, budget)) <= total_bytes(entries),
    decreases entries.len(),
{
    if neighbor_sum(entries, visible) > budget {
        match farthest(entries, visible) {
            None => {},
            Some(i) => {
                if 0 <= i < entries.len() {
                    lemma_within_budget_total(entries.remove(i), visible, budget);
                    lemma_total_remove(entries, i);
                }
            },
        }
    }
}

/// Finds the render that leaves first.
fn farthest_index(entries: &Vec<(u32, u16, usize)>, visible: u32) -> (r: Option<usize>)
    ensures
        match farthest(entries@, visible) {
            Some(i) => r == Some(i as usize),
            None => r is None,
        },
        r matches Some(k) ==> farthest(entries@, visible) == Some(k as int),
{
    let mut best: Option<usize> = None;
    let mut i: usize = 0;
    assert(entries@.take(0) =~= Seq::<(u32, u16, usize)>::empty());
    while i < entries.len()
        invariant
            i <= entries@.len(),
            match farthest(entries@.take(i as int), visible) {
                Some(k) => best == Some(k as usize) && 0 <= k < i,
                None => best is None,
            },
        decreases entries@.len() - i,
    {
        let ghost pre = entries@.take(i as int);
        let ghost cur = entries@.take(i + 1);
        proof {
            assert(cur.drop_last() =~= pre);
            assert(cur.last() == entries@[i as int]);
            lemma_farthest(pre, visible);
        }
        let (page, _, _) = entries[i];
        if page != visible {
            let d = if page >= visible {
                page - visible
            } else {
                visible - page
            };
            let take = match best {
                None => true,
                Some(b) => {
                    let bp = entries[b].0;
                    let bd = if bp >= visible {
                        bp - visible
                    } else {
                        visible - bp
                    };
                    assert(cur[b as int] == entries@[b as int]);
                    d >= bd
                },
            };
            if take {
                best = Some(i);
            }
        }
        i = i + 1;
    }
    assert(entries@.take(i as int) =~= entries@);
    proof {
        lemma_farthest(entries@, visible);
    }
    best
}

/// Lets the farthest renders go, one at a time, until the renders other
/// than the visible page's fit in `budget` bytes.
pub fn enforce_neighbor_budget(entries: &mut Vec<(u32, u16, usize)>, visible: u32, budget: usize)
    requires
        neighbor_sum(old(entries)@, visible) <= usize::MAX,
    ensures
        final(entries)@ == within_budget(old(entries)@, visible, budget as int),
{
    loop
        invariant
            neighbor_sum(entries@, visible) <= usize::MAX,
            within_budget(entries@, visible, budget as int) == within_budget(old(entries)@, visible, budget as int),
        decreases entries@.len(),
    {
        if neighbor_bytes(entries, visible) <= budget {
            return;
        }
        let victim = farthest_index(entries, visible);
        match victim {
            None => return,
            Some(i) => {
                let ghost e0 = entries@;
                proof {
                    lemma_farthest(e0, visible);
                    assert(farthest(e0, visible) == Some(i as int));
                    assert(neighbor_sum(e0, visible) > budget);
                    lemma_neighbor_sum_remove(e0, visible, i as int);
                    lemma_neighbor_sum_nonneg(e0.remove(i as int), visible);
                    assert(within_budget(e0, visible, budget as int) == within_budget(
                        e0.remove(i as int),
                        visible,
                        budget as int,
                    ));
                }
                entries.remove(i);
            },
        }
    }
}

/// Whether prefetching a page keeps the renders other than the visible
/// page's within `budget`: the visible page always fits; another counts its
/// estimated bytes in place of the bytes of its current render.
pub fn prefetch_fits_budget(
    page: u32,
    visible: u32,
    neighbors: usize,
    retained: usize,
    estimate: usize,
    budget: usize,
) -> (r: bool)
    ensures
        r == (page == visible || (if neighbors >= retained {
            neighbors - retained
        } else {
            0
        }) + estimate <= budget || (if neighbors >= retained {
            neighbors - retained
        } else {
            0
        }) + estimate > usize::MAX && usize::MAX <= budget),
{
    if page == visible {
        return true;
    }
    neighbors.saturating_sub(retained).saturating_add(estimate) <= budget
}


/// Enforcing the budget keeps only cached renders, keeps the visible page's,
/// leaves the others within the budget, and lets go only renders at least
/// as far from the visible page as every other render that stays.
pub proof fn law_within_budget(entries: Seq<(u32, u16, usize)>, visible: u32, budget: int)
    requires
        budget >= 0,
    ensures
        ({
            let r = within_budget(entries, visible, budget);
            &&& neighbor_sum(r, visible) <= budget
            &&& forall|e: (u32, u16, usize)| #[trigger] r.contains(e) ==> entries.contains(e)
            &&& forall|e: (u32, u16, usize)| entries.contains(e) && e.0 == visible ==> #[trigger] r.contains(e)
            &&& forall|kept: (u32, u16, usize), gone: (u32, u16, usize)|
                #[trigger] r.contains(kept) && entries.contains(gone) && !#[trigger] r.contains(gone)
                    && kept.0 != visible ==> dist(kept.0, visible) <= dist(gone.0, visible)
        }),
    decreases entries.len(),
{
    let r = within_budget(entries, visible, budget);
    if neighbor_sum(entries, visible) <= budget {
    } else {
        lemma_farthest(entries, visible);
        match farthest(entries, visible) {
            None => {
                lemma_neighbor_sum_nonneg(entries, visible);
            },
            Some(i) => {
                let rest = entries.remove(i);
                law_within_budget(rest, visible, budget);
                assert(r == within_budget(rest, visible, budget));
                assert forall|e: (u32, u16, usize)| #[trigger] rest.contains(e) implies entries.contains(e) by {
                    let k = choose|k: int| 0 <= k < rest.len() && rest[k] == e;
                    if k < i {
                        assert(entries[k] == e);
                    } else {
                        assert(entries[k + 1] == e);
                    }
                }
                assert forall|e: (u32, u16, usize)| entries.contains(e) && e != entries[i] implies #[trigger] rest.contains(e) by {
                    let k = choose|k: int| 0 <= k < entries.len() && entries[k] == e;
                    if k < i {
                        assert(rest[k] == e);
                    } else {
                        assert(k != i);
                        assert(rest[k - 1] == e);
                    }
                }
                assert forall|kept: (u32, u16, usize), gone: (u32, u16, usize)|
                    #[trigger] r.contains(kept) && entries.contains(gone) && !#[trigger] r.contains(gone)
                        && kept.0 != visible implies dist(kept.0, visible) <= dist(gone.0, visible) by {
                    assert(rest.contains(kept));
                    assert(entries.contains(kept));
                    let k = choose|k: int| 0 <= k < entries.len() && entries[k] == kept;
                    assert(dist(entries[k].0, visible) <= dist(entries[i].0, visible));
                    if gone != entries[i] {
                        assert(rest.contains(gone));
                    }
                }
            },
        }
    }
}

} // verus!
