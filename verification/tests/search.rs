use tsuro::page::PageNo;
use tsuro::search::{
    case_insensitive_byte_ranges, find_hits, glyph_byte_range, lower_plain_map, Hit, Search,
    TextLayer,
};

fn s(v: &str) -> String {
    v.to_string()
}

/// A glyph as the renderer gives it: its text and its box.
struct Glyph {
    cluster: String,
    quad: (f32, f32, f32, f32),
}

fn layer_of(page: u32, glyphs: &[Glyph]) -> TextLayer {
    TextLayer {
        page: PageNo::from_index(page),
        plain: glyphs.iter().map(|g| g.cluster.as_str()).collect(),
        cluster_lens: glyphs.iter().map(|g| g.cluster.len()).collect(),
    }
}

/// The box of a hit: the union of the boxes of its glyphs, or an empty box.
fn hit_quad(hit: &Hit, glyphs: &[Glyph]) -> (f32, f32, f32, f32) {
    match hit.glyphs {
        None => (0.0, 0.0, 0.0, 0.0),
        Some((a, b)) => glyphs[a..=b].iter().map(|g| g.quad).reduce(|p, q| {
            (p.0.min(q.0), p.1.min(q.1), p.2.max(q.2), p.3.max(q.3))
        }).unwrap(),
    }
}

fn one_glyph(text: &str) -> Vec<Glyph> {
    vec![Glyph { cluster: text.into(), quad: (0.0, 0.0, 10.0, 10.0) }]
}

#[test]
fn search_keeps_portuguese_accents() {
    let layer = layer_of(0, &one_glyph("texto ação extra"));
    let hits = Search::derive("ação", &[Some(layer.clone())]);
    assert_eq!(hits.hits().len(), 1);
    let none = Search::derive("acao", &[Some(layer)]);
    assert!(none.hits().is_empty());
}

#[test]
fn lazy_search_skips_unloaded_pages() {
    let layer = layer_of(0, &one_glyph("texto ação extra"));
    let mut pages: Vec<Option<TextLayer>> = vec![None; 200];
    pages[0] = Some(layer);
    let hits = Search::derive("ação", &pages);
    assert_eq!(hits.hits().len(), 1);
    assert_eq!(pages.len(), 200);
}

#[test]
fn search_overlapping_ranges_keep_glyph_quads() {
    let glyphs = vec![
        Glyph { cluster: "a".into(), quad: (0.0, 0.0, 1.0, 1.0) },
        Glyph { cluster: "a".into(), quad: (1.0, 0.0, 2.0, 1.0) },
    ];
    let layer = layer_of(0, &glyphs);
    let hits = find_hits("aa", &layer);
    assert_eq!(hits.len(), 1);
    assert!(hit_quad(&hits[0], &glyphs).2 > 1.0);
}

#[test]
fn search_many_unicode_matches_share_glyph_walk() {
    let glyphs: Vec<Glyph> = (0..50)
        .map(|_| Glyph { cluster: "ação ".into(), quad: (0.0, 0.0, 10.0, 10.0) })
        .collect();
    let layer = layer_of(0, &glyphs);
    let hits = find_hits("ação", &layer);
    assert_eq!(hits.len(), 50);
    for (i, hit) in hits.iter().enumerate() {
        assert_eq!(hit.glyphs, Some((i, i)));
    }
}

#[test]
fn ranges_are_bytes_and_overlap() {
    assert_eq!(case_insensitive_byte_ranges("AAA", "aa"), vec![(0, 2), (1, 3)]);
    assert_eq!(case_insensitive_byte_ranges("xÇÃoy", "ção"), vec![(1, 6)]);
    assert!(case_insensitive_byte_ranges("abc", "").is_empty());
    assert!(case_insensitive_byte_ranges("ab", "abc").is_empty());
}

#[test]
fn lower_map_tracks_source_bytes() {
    let m = lower_plain_map("Aé");
    assert_eq!(m, vec![('a', 0, 1), ('é', 1, 3)]);
}

#[test]
fn derive_orders_hits_by_page_then_place() {
    let p2 = layer_of(2, &one_glyph("xx x"));
    let p0 = layer_of(0, &one_glyph("x"));
    let search = Search::derive("X", &[Some(p2), None, Some(p0)]);
    let keys: Vec<_> = search.hits().iter().map(|h| (h.page.index(), h.range.start)).collect();
    assert_eq!(keys, vec![(0, 0), (2, 0), (2, 1), (2, 3)]);
    assert_eq!(search.query(), "X");
    assert!(Search::derive("", &[Some(layer_of(0, &one_glyph("x")))]).hits().is_empty());
}

#[test]
fn extend_page_replaces_that_page_in_place() {
    let p0 = layer_of(0, &one_glyph("a"));
    let p2 = layer_of(2, &one_glyph("a a"));
    let mut search = Search::derive("a", &[Some(p0), None, Some(p2)]);
    let p1 = layer_of(1, &one_glyph("aa"));
    search.extend_page(&p1);
    let keys: Vec<_> = search.hits().iter().map(|h| (h.page.index(), h.range.start)).collect();
    assert_eq!(keys, vec![(0, 0), (1, 0), (1, 1), (2, 0), (2, 2)]);
    let p1_again = layer_of(1, &one_glyph("b"));
    search.extend_page(&p1_again);
    let keys: Vec<_> = search.hits().iter().map(|h| (h.page.index(), h.range.start)).collect();
    assert_eq!(keys, vec![(0, 0), (2, 0), (2, 2)]);
    let mut empty = Search::derive("", &[]);
    empty.extend_page(&layer_of(0, &one_glyph("a")));
    assert!(empty.hits().is_empty());
}

#[test]
fn loading_a_page_matches_searching_again() {
    let p0 = layer_of(0, &one_glyph("ção cao"));
    let p1 = layer_of(1, &one_glyph("CÃO"));
    let p2 = layer_of(2, &one_glyph("cão, cão"));
    let mut lazy = Search::derive("cão", &[Some(p0.clone()), None, Some(p2.clone())]);
    lazy.extend_page(&p1);
    let full = Search::derive("cão", &[Some(p0), Some(p1), Some(p2)]);
    let key = |s: &Search| -> Vec<(u32, usize, usize, Option<(usize, usize)>)> {
        s.hits().iter().map(|h| (h.page.index(), h.range.start, h.range.end, h.glyphs)).collect()
    };
    assert_eq!(key(&lazy), key(&full));
    assert_eq!(lazy.hits().len(), 3);
}

#[test]
fn hits_name_the_glyphs_they_cover() {
    let glyphs = vec![
        Glyph { cluster: "ab".into(), quad: (0.0, 0.0, 1.0, 1.0) },
        Glyph { cluster: "c".into(), quad: (1.0, 0.0, 2.0, 1.0) },
        Glyph { cluster: "de".into(), quad: (2.0, 0.0, 3.0, 1.0) },
    ];
    let layer = layer_of(4, &glyphs);
    let hits = find_hits("bcd", &layer);
    assert_eq!(hits.len(), 1);
    assert_eq!(hits[0].page.index(), 4);
    assert_eq!((hits[0].range.start, hits[0].range.end), (1, 4));
    assert_eq!(hits[0].glyphs, Some((0, 2)));
    let bare = TextLayer { page: PageNo::from_index(0), plain: "abc".into(), cluster_lens: vec![] };
    assert_eq!(find_hits("b", &bare)[0].glyphs, None);
}

#[test]
fn glyph_byte_range_counts_cluster_bytes() {
    let layer = layer_of(0, &[
        Glyph { cluster: "ç".into(), quad: (0.0, 0.0, 1.0, 1.0) },
        Glyph { cluster: "ab".into(), quad: (0.0, 0.0, 1.0, 1.0) },
    ]);
    assert_eq!(glyph_byte_range(&layer, 0), (0, 2));
    assert_eq!(glyph_byte_range(&layer, 1), (2, 4));
    assert_eq!(glyph_byte_range(&layer, 2), (0, 0));
}

#[test]
fn text_layer_joins_normalised_clusters() {
    let raw = vec![s("a"), s("e\u{301}"), String::new(), s("ç")];
    let (layer, kept) = TextLayer::from_clusters(PageNo::from_index(4), &raw);
    assert_eq!(layer.page.index(), 4);
    assert_eq!(layer.plain, "aéç");
    assert_eq!(layer.cluster_lens, vec![1, 2, 2]);
    assert_eq!(kept, vec![0, 1, 3]);
    // a mark on a glyph of its own composes in the page's text
    let (split, kept) = TextLayer::from_clusters(PageNo::from_index(0), &[s("e"), s("\u{301}")]);
    assert_eq!(split.plain, "é");
    assert_eq!(split.cluster_lens, vec![1, 2]);
    assert_eq!(kept, vec![0, 1]);
}

#[test]
fn search_ranges_fall_between_characters() {
    let plain = "Ação És xİy";
    let cases = [("és", vec![(7, 10)]), ("i", vec![(12, 14)]), ("ão", vec![(3, 6)])];
    for (needle, want) in cases {
        let got = case_insensitive_byte_ranges(plain, needle);
        assert_eq!(got, want);
        for (start, end) in got {
            assert!(start < end);
            assert!(plain.is_char_boundary(start) && plain.is_char_boundary(end));
        }
    }
}
