use tsuro::page::PageNo;
use tsuro::render::{RenderWork, Work, WorkView, NEIGHBOR_CACHE_BUDGET};

/// The document of generation 1 at render generation 1, with `visible`
/// shown at scale key `scale` and the pages of `loaded` loaded; the pages
/// panel is shut.
fn view(visible: u32, total: u32, scale: u16, loaded: &[u32]) -> WorkView {
    WorkView {
        open_gen: 1,
        render_gen: 1,
        visible,
        total,
        visible_scale: scale,
        next_scale: scale,
        next_estimate: 16,
        loaded: loaded.iter().copied().collect(),
        pages_open: false,
        window: Vec::new(),
        thumb_scales: Vec::new(),
    }
}

fn render(page: u32, scale: u16) -> Work {
    Work::Render { page, scale, doc_gen: 1, render_gen: 1 }
}

#[test]
fn failed_render_is_not_cached() {
    let mut work = RenderWork::new();
    let v = view(0, 3, 100, &[0]);
    assert_eq!(work.schedule_work(&v), render(0, 100));
    let next = work.rendered(0, 100, 1, 1, None, &v);
    assert_eq!(work.surface_scale(0), None);
    assert!(work.visible_render_failed(&v));
    assert_eq!(next, Work::PageData { page: 1, doc_gen: 1 });
    // a new viewport moves the render generation on; the failure stays
    let resized = WorkView { render_gen: 2, ..view(0, 3, 100, &[0]) };
    assert_eq!(work.schedule_work(&resized), Work::Idle);
    assert_eq!(work.surface_scale(0), None);
    assert!(work.visible_render_failed(&resized));
}

#[test]
fn stale_render_gen_is_ignored() {
    let mut work = RenderWork::new();
    let v = view(0, 1, 100, &[0]);
    assert_eq!(work.schedule_work(&v), render(0, 100));
    let next = work.rendered(0, 100, 1, 0, Some(16), &v);
    assert_eq!(work.surface_scale(0), None);
    // the render is asked again for the current generation
    assert_eq!(next, render(0, 100));
}

#[test]
fn stale_doc_gen_render_is_ignored() {
    let mut work = RenderWork::new();
    let v = view(0, 1, 100, &[0]);
    assert_eq!(work.schedule_work(&v), render(0, 100));
    assert_eq!(work.rendered(0, 100, 2, 1, Some(16), &v), Work::Idle);
    assert_eq!(work.surface_scale(0), None);
    assert_eq!(work.inflight, vec![(0, 100)]);
}

#[test]
fn page_data_failure_is_not_retried() {
    let mut work = RenderWork::new();
    let v = view(0, 2, 100, &[0]);
    assert_eq!(work.schedule_work(&v), render(0, 100));
    assert_eq!(work.rendered(0, 100, 1, 1, Some(16), &v), Work::PageData { page: 1, doc_gen: 1 });
    let next = work.page_data_done(1, 1, false, &v);
    assert!(work.data_failed.contains(&1));
    assert!(work.data_inflight.is_empty());
    assert_ne!(next, Work::PageData { page: 1, doc_gen: 1 });
    assert_eq!(work.schedule_work(&v), Work::Idle);
}

#[test]
fn thumb_cache_drops_old_scale() {
    let mut work = RenderWork::new();
    let mut v = view(0, 1, 100, &[0]);
    v.pages_open = true;
    v.window = vec![PageNo::from_index(0)];
    v.thumb_scales = vec![5];
    assert_eq!(work.schedule_work(&v), render(0, 100));
    assert_eq!(work.rendered(0, 100, 1, 1, Some(64), &v), render(0, 5));
    assert_eq!(work.rendered(0, 5, 1, 1, Some(4), &v), Work::Idle);
    assert!(work.has_thumb(0, 5));
    v.thumb_scales = vec![7];
    assert_eq!(work.schedule_work(&v), render(0, 7));
    work.rendered(0, 7, 1, 1, Some(4), &v);
    assert!(!work.has_thumb(0, 5));
    assert!(work.has_thumb(0, 7));
}

#[test]
fn cache_replaces_scale_and_shows_stale_until_exact() {
    let mut work = RenderWork::new();
    let old = view(0, 1, 100, &[0]);
    work.schedule_work(&old);
    work.rendered(0, 100, 1, 1, Some(16), &old);
    assert_eq!(work.surface_scale(0), Some(100));
    let new = view(0, 1, 200, &[0]);
    assert_eq!(work.surface_scale(0), Some(100));
    assert_eq!(work.schedule_work(&new), render(0, 200));
    work.rendered(0, 200, 1, 1, Some(64), &new);
    assert_eq!(work.surface_scale(0), Some(200));
    assert_eq!(work.surfaces, vec![(0, 200, 64)]);
}

#[test]
fn zoom_change_keeps_old_bitmap_until_rerender() {
    let mut work = RenderWork::new();
    let v = view(0, 2, 100, &[0]);
    work.schedule_work(&v);
    work.rendered(0, 100, 1, 1, Some(16), &v);
    assert_eq!(work.page_data_done(1, 1, true, &view(0, 2, 100, &[0, 1])), render(1, 100));
    // the zoom changes while the page ahead renders: a new scale and a new
    // render generation
    let zoomed = WorkView { render_gen: 2, ..view(0, 2, 150, &[0, 1]) };
    let next = work.rendered(1, 100, 1, 1, Some(16), &zoomed);
    assert_eq!(next, Work::Render { page: 0, scale: 150, doc_gen: 1, render_gen: 2 });
    // the screen keeps the old render until the new one comes
    assert_eq!(work.surface_scale(0), Some(100));
}

#[test]
fn evict_retains_visible_neighbors() {
    // pages 0, 1 and 2 cached as 2x2 renders, page 1 visible
    let mut work = RenderWork::new();
    work.surfaces = vec![(0, 100, 16), (1, 100, 16), (2, 100, 16)];
    let v = view(1, 3, 100, &[0, 1, 2]);
    work.schedule_work(&v);
    assert_eq!(work.surface_scale(0), Some(100));
    assert_eq!(work.surface_scale(1), Some(100));
    assert_eq!(work.surface_scale(2), Some(100));
}

#[test]
fn far_renders_and_window_thumbnails_leave() {
    let mut work = RenderWork::new();
    work.surfaces = vec![(9, 1, 16), (4, 1, 16), (5, 1, 16)];
    work.thumbs = vec![(3, 2), (8, 2)];
    let mut v = view(5, 10, 1, &[5]);
    v.pages_open = true;
    v.window = vec![PageNo::from_index(3), PageNo::from_index(4)];
    v.thumb_scales = vec![2, 2];
    work.schedule_work(&v);
    assert_eq!(work.surfaces, vec![(4, 1, 16), (5, 1, 16)]);
    assert_eq!(work.thumbs, vec![(3, 2)]);
    v.pages_open = false;
    assert_eq!(work.panel_toggled(&v), Work::Idle);
    assert!(work.thumbs.is_empty());
}

#[test]
fn neighbours_over_budget_let_the_farthest_go() {
    let mut work = RenderWork::new();
    let half = NEIGHBOR_CACHE_BUDGET / 2 + 1;
    work.surfaces = vec![(4, 1, half), (5, 1, 16), (6, 1, half)];
    let v = view(5, 10, 1, &[5]);
    work.schedule_work(&v);
    assert_eq!(work.surfaces, vec![(4, 1, half), (5, 1, 16)]);
    assert_eq!(work.cached_bytes(), half + 16);
}

#[test]
fn one_job_runs_at_a_time() {
    let mut work = RenderWork::new();
    let v = view(0, 3, 100, &[0]);
    assert_eq!(work.schedule_work(&v), render(0, 100));
    assert_eq!(work.schedule_work(&v), Work::Idle);
    assert_eq!(work.rendered(0, 100, 1, 1, Some(16), &v), Work::PageData { page: 1, doc_gen: 1 });
    assert_eq!(work.schedule_work(&v), Work::Idle);
    assert!(work.inflight.is_empty());
    assert!(work.data_inflight.contains(&1));
}

#[test]
fn visible_page_first_then_data_then_ahead_then_thumbnails() {
    let mut work = RenderWork::new();
    let mut v = view(0, 3, 100, &[0]);
    v.pages_open = true;
    v.window = vec![PageNo::from_index(0), PageNo::from_index(1), PageNo::from_index(2)];
    v.thumb_scales = vec![5, 5, 5];
    assert_eq!(work.schedule_work(&v), render(0, 100));
    assert_eq!(work.rendered(0, 100, 1, 1, Some(16), &v), Work::PageData { page: 1, doc_gen: 1 });
    v.loaded.insert(1);
    assert_eq!(work.page_data_done(1, 1, true, &v), Work::PageData { page: 2, doc_gen: 1 });
    v.loaded.insert(2);
    assert_eq!(work.page_data_done(2, 1, true, &v), render(1, 100));
    assert_eq!(work.rendered(1, 100, 1, 1, Some(16), &v), render(0, 5));
    assert_eq!(work.surfaces, vec![(0, 100, 16), (1, 100, 16)]);
}

#[test]
fn oversized_render_ahead_is_skipped() {
    let mut work = RenderWork::new();
    let mut v = view(0, 2, 100, &[0, 1]);
    v.next_estimate = NEIGHBOR_CACHE_BUDGET + 1;
    assert_eq!(work.schedule_work(&v), render(0, 100));
    assert_eq!(work.rendered(0, 100, 1, 1, Some(16), &v), Work::Idle);
    v.next_estimate = NEIGHBOR_CACHE_BUDGET;
    assert_eq!(work.schedule_work(&v), render(1, 100));
}
