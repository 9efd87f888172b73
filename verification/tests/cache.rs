use std::collections::HashSet;
use tsuro::cache::{enforce_neighbor_budget, neighbor_bytes, page_bytes, prefetch_fits_budget};
use tsuro::page::PageNo;
use tsuro::session::{next_page_data_target, page_data_priority, thumb_window};

/// Byte budget of the renders kept around the visible page.
const NEIGHBOR_CACHE_BUDGET: usize = 64 * 1024 * 1024;

#[test]
fn farthest_renders_leave_first() {
    // visible page 5 and pages around it; the farthest go first
    let mut cache = vec![(5u32, 7u16, 100usize), (3, 7, 40), (6, 7, 40), (9, 7, 40), (1, 7, 40)];
    assert_eq!(neighbor_bytes(&cache, 5), 160);
    enforce_neighbor_budget(&mut cache, 5, 80);
    assert_eq!(cache, vec![(5, 7, 100), (3, 7, 40), (6, 7, 40)]);
    assert_eq!(neighbor_bytes(&cache, 5), 80);
}

#[test]
fn equal_distances_drop_the_later_entry_first() {
    let mut cache = vec![(4u32, 1u16, 10usize), (6, 1, 10), (5, 1, 999)];
    enforce_neighbor_budget(&mut cache, 5, 10);
    assert_eq!(cache, vec![(4, 1, 10), (5, 1, 999)]);
    let mut alone = vec![(5u32, 1u16, 999usize)];
    enforce_neighbor_budget(&mut alone, 5, 0);
    assert_eq!(alone, vec![(5, 1, 999)]);
}

#[test]
fn page_bytes_reads_one_entry() {
    let cache = vec![(2u32, 1u16, 7usize), (3, 1, 9), (3, 2, 11)];
    assert_eq!(page_bytes(&cache, 3), 9);
    assert_eq!(page_bytes(&cache, 4), 0);
}

#[test]
fn prefetch_budget_blocks_oversized_neighbor() {
    // page 1 of 2000x2000 points rendered at 100x, page 0 visible, nothing cached
    let (w, h, scale) = (2000.0f32, 2000.0f32, 100.0f32);
    let px_w = (w.max(1.0) * scale).round().max(1.0) as u64;
    let px_h = (h.max(1.0) * scale).round().max(1.0) as u64;
    let estimate = (px_w * px_h * 4).min(usize::MAX as u64) as usize;
    assert!(!prefetch_fits_budget(1, 0, 0, 0, estimate, NEIGHBOR_CACHE_BUDGET));
}

#[test]
fn prefetch_budget_counts_the_replaced_render() {
    assert!(prefetch_fits_budget(5, 5, usize::MAX, 0, usize::MAX, 0));
    assert!(prefetch_fits_budget(6, 5, 100, 40, 40, 100));
    assert!(!prefetch_fits_budget(6, 5, 100, 0, 2000, 100));
    assert!(prefetch_fits_budget(6, 5, 10, 40, 100, 100));
    assert!(!prefetch_fits_budget(6, 5, usize::MAX, 0, 1, usize::MAX - 1));
    assert!(prefetch_fits_budget(6, 5, usize::MAX, 0, 1, usize::MAX));
}

#[test]
fn thumb_window_spans_rows_around_the_view() {
    let w: Vec<u32> = thumb_window(10, 100).iter().map(|p| p.index()).collect();
    assert_eq!(w, (7..21).collect::<Vec<_>>());
    let w: Vec<u32> = thumb_window(1, 5).iter().map(|p| p.index()).collect();
    assert_eq!(w, vec![0, 1, 2, 3, 4]);
    assert!(thumb_window(50, 10).is_empty());
}

#[test]
fn page_data_goes_visible_next_then_window() {
    let window: Vec<PageNo> = [2u32, 3, 4].iter().map(|&i| PageNo::from_index(i)).collect();
    let order: Vec<u32> =
        page_data_priority(3, 10, true, &window).iter().map(|p| p.index()).collect();
    assert_eq!(order, vec![3, 4, 2]);
    let order: Vec<u32> =
        page_data_priority(9, 10, false, &window).iter().map(|p| p.index()).collect();
    assert_eq!(order, vec![9]);
    let loaded = HashSet::from([3u32]);
    let inflight = HashSet::from([4u32]);
    let failed = HashSet::new();
    let prio: Vec<PageNo> = [3u32, 4, 2].iter().map(|&i| PageNo::from_index(i)).collect();
    assert_eq!(next_page_data_target(&prio, &loaded, &inflight, &failed).map(|p| p.index()), Some(2));
    let failed = HashSet::from([2u32]);
    assert_eq!(next_page_data_target(&prio, &loaded, &inflight, &failed), None);
}
