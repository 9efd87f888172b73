use tsuro::browse::{
    display_path, drop_recent, is_pdf, listing, merge_recents, parent_of, push_recent, read_recents,
    recents_body, special_folder_candidates, FsEntry, RECENTS_CAP,
};

fn s(v: &str) -> String {
    v.to_string()
}

fn entry(path: &str, name: &str, is_dir: bool) -> FsEntry {
    FsEntry { path: s(path), name: s(name), is_dir }
}

#[test]
fn merge_recents_keeps_primary_order_then_disk() {
    let merged = merge_recents(
        vec![s("/tmp/new.pdf")],
        vec![s("/tmp/old.pdf"), s("/tmp/new.pdf")],
    );
    assert_eq!(merged, vec![s("/tmp/new.pdf"), s("/tmp/old.pdf")]);
}

#[test]
fn push_recent_dedups_caps_and_persists() {
    let mut recents = Vec::new();
    recents = push_recent(recents, s("/tmp/a.pdf"));
    recents = push_recent(recents, s("/tmp/b.pdf"));
    recents = push_recent(recents, s("/tmp/a.pdf"));
    assert_eq!(recents[0], s("/tmp/a.pdf"));
    assert_eq!(recents.len(), 2);
    for i in 0..20 {
        recents = push_recent(recents, format!("/tmp/n{i}.pdf"));
    }
    assert_eq!(recents.len(), RECENTS_CAP);
    let body = recents_body(&recents);
    let loaded = read_recents(&body);
    assert_eq!(loaded, recents);
}

#[test]
fn read_recents_skips_non_pdf() {
    let body = recents_body(&vec![s("/tmp/ok.pdf"), s("/tmp/note.txt"), s("/tmp/also.PDF")]);
    let loaded = read_recents(&body);
    assert_eq!(loaded, vec![s("/tmp/ok.pdf"), s("/tmp/also.PDF")]);
}

#[test]
fn list_dir_keeps_only_folders_and_pdfs() {
    let root = "/tmp/tsuro-list";
    let entries = listing(vec![
        entry(&format!("{root}/sub"), "sub", true),
        entry(&format!("{root}/a.pdf"), "a.pdf", false),
        entry(&format!("{root}/a.PDF"), "a.PDF", false),
        entry(&format!("{root}/note.txt"), "note.txt", false),
        entry(&format!("{root}/.hidden.pdf"), ".hidden.pdf", false),
    ]);
    let names: Vec<_> = entries.iter().map(|e| e.name.as_str()).collect();
    assert!(names.contains(&"sub"));
    assert!(names.iter().any(|n| n.eq_ignore_ascii_case("a.pdf")));
    assert!(!names.contains(&"note.txt"));
    assert!(!names.contains(&".hidden.pdf"));
    assert!(entries.iter().any(|e| e.name == "sub" && e.is_dir));
    assert!(entries.iter().any(|e| !e.is_dir && is_pdf(&e.path)));
}

#[test]
fn listing_puts_folders_first_then_lowercase_names() {
    let entries = listing(vec![
        entry("/d/b.pdf", "b.pdf", false),
        entry("/d/Zeta", "Zeta", true),
        entry("/d/A.pdf", "A.pdf", false),
        entry("/d/alpha", "alpha", true),
        entry("/d/a.pdf", "a.pdf", false),
    ]);
    let names: Vec<_> = entries.iter().map(|e| e.name.as_str()).collect();
    // ties on the lowercase name keep the order read
    assert_eq!(names, vec!["alpha", "Zeta", "A.pdf", "a.pdf", "b.pdf"]);
}

#[test]
fn is_pdf_reads_the_extension_in_any_case() {
    assert!(is_pdf("/tmp/a.pdf"));
    assert!(is_pdf("/tmp/a.PdF"));
    assert!(is_pdf("rel/x.y.pdf"));
    assert!(!is_pdf("/tmp/a.pdfx"));
    assert!(!is_pdf("/tmp/.pdf"));
    assert!(!is_pdf("/tmp/pdf"));
    assert!(!is_pdf("/tmp/dir.pdf/.."));
    assert!(!is_pdf(""));
}

#[test]
fn drop_recent_removes_every_copy() {
    let out = drop_recent(
        vec![s("/a.pdf"), s("/b.pdf"), s("/a.pdf")],
        &s("/a.pdf"),
    );
    assert_eq!(out, vec![s("/b.pdf")]);
}

#[test]
fn merge_recents_caps_at_the_limit() {
    let primary: Vec<String> = (0..10).map(|i| format!("/p{i}.pdf")).collect();
    let secondary: Vec<String> = (0..10).map(|i| format!("/s{i}.pdf")).collect();
    let merged = merge_recents(primary.clone(), secondary);
    assert_eq!(merged.len(), RECENTS_CAP);
    assert_eq!(&merged[..10], &primary[..]);
    assert_eq!(merged[10], s("/s0.pdf"));
}

#[test]
fn read_recents_trims_skips_blanks_and_dedups() {
    let loaded = read_recents("  /x.pdf  \r\n\n/y.pdf\n/x.pdf\nnot a pdf\n");
    assert_eq!(loaded, vec![s("/x.pdf"), s("/y.pdf")]);
    assert!(read_recents("").is_empty());
}

#[test]
fn recents_body_writes_one_line_each() {
    assert_eq!(recents_body(&vec![s("/a.pdf"), s("/b.pdf")]), "/a.pdf\n/b.pdf\n");
}

#[test]
fn parent_of_walks_up_and_stops_at_special_folders() {
    let specials = special_folder_candidates("/home/ana");
    assert_eq!(parent_of("/home/ana/Documents", &specials), None);
    assert_eq!(parent_of("/home/ana/Documents/x", &specials), Some(s("/home/ana/Documents")));
    assert_eq!(parent_of("/tmp", &specials), Some(s("/")));
    assert_eq!(parent_of("/", &specials), None);
    assert_eq!(parent_of("rel", &specials), Some(s("")));
}

#[test]
fn special_folders_join_the_home_folder() {
    let c = special_folder_candidates("/home/ana");
    let pairs: Vec<_> = c.iter().map(|e| (e.name.as_str(), e.path.as_str(), e.is_dir)).collect();
    assert_eq!(
        pairs,
        vec![
            ("Início", "/home/ana", true),
            ("Documentos", "/home/ana/Documents", true),
            ("Downloads", "/home/ana/Downloads", true),
            ("Desktop", "/home/ana/Desktop", true),
        ]
    );
    assert_eq!(special_folder_candidates("/")[1].path, "/Documents");
}

#[test]
fn display_path_names_the_root_list() {
    assert_eq!(display_path(None), "Pastas");
    assert_eq!(display_path(Some("/tmp/x")), "/tmp/x");
}

#[test]
fn is_pdf_passes_over_trailing_separators_and_dots() {
    assert!(is_pdf("/tmp/x.pdf/"));
    assert!(is_pdf("/tmp/x.pdf//"));
    assert!(is_pdf("/tmp/x.pdf/."));
    assert!(is_pdf("/tmp/x.pdf/./"));
    assert!(is_pdf("x.pdf/"));
    assert!(!is_pdf("/tmp/x.pdf/.."));
    assert!(!is_pdf("/"));
    assert!(!is_pdf("/."));
    assert!(!is_pdf("./"));
    assert!(!is_pdf("/tmp/.pdf/"));
}
