use tsuro::browse::FsEntry;
use tsuro::kiri::Theme;
use tsuro::lifecycle::{OpenedDoc, Session, SessionAction, SessionEvent as Message};
use tsuro::page::PageNo;
use tsuro::search::TextLayer;
use tsuro::session::{NavCmd, OpenError, OpenSource};
use tsuro::sign::PdfAnalysis;

fn s(v: &str) -> String {
    v.to_string()
}

fn no_signatures() -> PdfAnalysis {
    PdfAnalysis { page_count_hint: None, has_acro_form: false, signatures: vec![] }
}

fn apply(session: &mut Session, message: Message) -> Vec<SessionAction> {
    session.update(message)
}

fn empty_with(recents: Vec<String>, theme: Theme) -> Session {
    let mut session = Session::empty(theme);
    apply(&mut session, Message::RecentsReady(recents));
    session
}

fn loading_gen(session: &Session) -> u64 {
    match session {
        Session::Loading { gen, .. } => *gen,
        other => panic!("expected Loading, got {other:?}"),
    }
}

/// A three-page document opened from `path`.
fn ready_at(path: &str, theme: Theme) -> Session {
    let mut session = Session::empty(theme);
    apply(&mut session, Message::OpenRecent(s(path)));
    let gen = loading_gen(&session);
    apply(
        &mut session,
        Message::Opened {
            gen,
            result: Ok(OpenedDoc { pages: 3, first_text: None, signatures: no_signatures() }),
            disk_recents: vec![],
        },
    );
    assert!(matches!(session, Session::Ready(_)));
    session
}

#[test]
fn empty_session_is_still_no_document() {
    assert!(matches!(Session::empty(Theme::Dark), Session::Empty(_)));
    assert!(matches!(
        Session::open_path(s("/tmp/doc.pdf"), vec![], Theme::Dark),
        Session::Loading { .. }
    ));
}

#[test]
fn listing_error_stays_empty() {
    let mut session = Session::empty(Theme::Dark);
    apply(&mut session, Message::ListingReady { path: None, result: Err(s("sem permissão")) });
    match &session {
        Session::Empty(empty) => {
            assert_eq!(empty.listing_error.as_deref(), Some("sem permissão"));
            assert!(empty.listing.is_empty());
        }
        other => panic!("listing error left Empty, got {other:?}"),
    }
}

#[test]
fn browse_into_folder_and_back() {
    let folder = s("/tmp/tsuro-docs");
    let mut session = Session::empty(Theme::Dark);
    apply(
        &mut session,
        Message::ListingReady {
            path: None,
            result: Ok(vec![FsEntry { path: folder.clone(), name: s("docs"), is_dir: true }]),
        },
    );
    let acts = apply(&mut session, Message::BrowseTo(Some(folder.clone())));
    assert!(matches!(&acts[..], [SessionAction::ListPath(Some(p))] if *p == folder));
    match &session {
        Session::Empty(empty) => assert_eq!(empty.cwd.as_deref(), Some(folder.as_str())),
        other => panic!("expected Empty after BrowseTo, got {other:?}"),
    }
    apply(
        &mut session,
        Message::ListingReady {
            path: Some(folder.clone()),
            result: Ok(vec![FsEntry {
                path: format!("{folder}/a.pdf"),
                name: s("a.pdf"),
                is_dir: false,
            }]),
        },
    );
    match &session {
        Session::Empty(empty) => {
            assert_eq!(empty.listing.len(), 1);
            assert!(!empty.listing[0].is_dir);
        }
        other => panic!("expected listing, got {other:?}"),
    }
    apply(&mut session, Message::BrowseTo(None));
    match &session {
        Session::Empty(empty) => assert!(empty.cwd.is_none()),
        other => panic!("expected roots, got {other:?}"),
    }
}

#[test]
fn listing_of_another_folder_is_ignored() {
    let mut session = Session::empty(Theme::Dark);
    apply(&mut session, Message::BrowseTo(Some(s("/a"))));
    apply(&mut session, Message::ListingReady { path: Some(s("/b")), result: Err(s("x")) });
    match &session {
        Session::Empty(empty) => assert!(empty.listing_error.is_none()),
        other => panic!("expected Empty, got {other:?}"),
    }
}

#[test]
fn open_path_skips_browser() {
    let session = Session::open_path(s("/tmp/direct.pdf"), vec![], Theme::Dark);
    assert!(matches!(session, Session::Loading { .. }));
    assert!(!matches!(session, Session::Empty(_)));
}

#[test]
fn remember_recent_on_successful_open_and_close() {
    let mut session = empty_with(vec![s("/tmp/older.pdf")], Theme::Dark);
    let acts = apply(&mut session, Message::OpenRecent(s("/tmp/remembered.pdf")));
    let gen = loading_gen(&session);
    assert!(matches!(&acts[..], [SessionAction::Open { gen: g, .. }] if *g == gen));
    apply(
        &mut session,
        Message::Opened {
            gen,
            result: Err(OpenError::Engine(s("sem motor no teste"))),
            disk_recents: vec![],
        },
    );
    match &session {
        Session::Failed { recents, .. } => assert!(recents.contains(&s("/tmp/older.pdf"))),
        other => panic!("expected Failed, got {other:?}"),
    }
    let mut session = empty_with(vec![s("/tmp/older.pdf")], Theme::Dark);
    apply(&mut session, Message::OpenRecent(s("/tmp/remembered.pdf")));
    let gen = loading_gen(&session);
    let acts = apply(
        &mut session,
        Message::Opened {
            gen,
            result: Ok(OpenedDoc { pages: 2, first_text: None, signatures: no_signatures() }),
            disk_recents: vec![],
        },
    );
    assert!(matches!(&acts[..], [SessionAction::SaveRecents(_)]));
    match &session {
        Session::Ready(ready) => {
            assert!(!ready.signatures_open);
            assert!(!ready.pages_open);
            assert_eq!(ready.recents.first(), Some(&s("/tmp/remembered.pdf")));
            assert!(ready.recents.contains(&s("/tmp/older.pdf")));
        }
        other => panic!("expected Ready, got {other:?}"),
    }
    apply(&mut session, Message::Close);
    match &session {
        Session::Empty(empty) => assert_eq!(empty.recents.first(), Some(&s("/tmp/remembered.pdf"))),
        other => panic!("Close should return to Empty, got {other:?}"),
    }
}

#[test]
fn close_from_failed_returns_to_empty() {
    let mut session = Session::empty(Theme::Dark);
    apply(&mut session, Message::OpenRecent(s("/tmp/falha.pdf")));
    let gen = loading_gen(&session);
    apply(
        &mut session,
        Message::Opened { gen, result: Err(OpenError::Engine(s("motor quebrou"))), disk_recents: vec![] },
    );
    assert!(matches!(session, Session::Failed { .. }));
    let acts = apply(&mut session, Message::Close);
    assert!(matches!(session, Session::Empty(_)));
    assert!(matches!(&acts[..], [SessionAction::LoadEmptyWindow]));
}

#[test]
fn dead_recent_drops_after_io_failure() {
    let missing = s("/tmp/tsuro-missing-recent.pdf");
    let mut session = empty_with(vec![missing.clone(), s("/tmp/keep.pdf")], Theme::Dark);
    apply(&mut session, Message::OpenRecent(missing.clone()));
    let gen = loading_gen(&session);
    apply(
        &mut session,
        Message::Opened { gen, result: Err(OpenError::Io(s("arquivo em falta"))), disk_recents: vec![] },
    );
    match &session {
        Session::Failed { recents, message, .. } => {
            assert!(message.contains("arquivo em falta"));
            assert!(!recents.contains(&missing));
            assert!(recents.contains(&s("/tmp/keep.pdf")));
        }
        other => panic!("expected Failed, got {other:?}"),
    }
}

#[test]
fn ready_panels_start_closed_and_toggle_independently() {
    let mut session = ready_at("/tmp/doc.pdf", Theme::Dark);
    let flags = |s: &Session| match s {
        Session::Ready(r) => (r.signatures_open, r.pages_open),
        _ => unreachable!(),
    };
    assert_eq!(flags(&session), (false, false));
    apply(&mut session, Message::ToggleSignatures);
    assert_eq!(flags(&session), (true, false));
    apply(&mut session, Message::TogglePages);
    assert_eq!(flags(&session), (true, true));
    apply(&mut session, Message::ToggleSignatures);
    assert_eq!(flags(&session), (false, true));
}

#[test]
fn set_page_from_list_changes_visible() {
    let mut session = ready_at("/tmp/doc.pdf", Theme::Dark);
    apply(&mut session, Message::Nav(NavCmd::GoTo(PageNo::from_index(1))));
    match &session {
        Session::Ready(ready) => assert_eq!(ready.nav.visible.index(), 1),
        _ => unreachable!(),
    }
}

#[test]
fn close_and_reopen_do_not_inherit_panel_flags() {
    let mut session = ready_at("/tmp/doc.pdf", Theme::Dark);
    apply(&mut session, Message::ToggleSignatures);
    apply(&mut session, Message::TogglePages);
    apply(&mut session, Message::Close);
    assert!(matches!(session, Session::Empty(_)));
    apply(&mut session, Message::OpenRecent(s("/tmp/doc.pdf")));
    let gen = loading_gen(&session);
    apply(
        &mut session,
        Message::Opened { gen, result: Ok(OpenedDoc { pages: 3, first_text: None, signatures: no_signatures() }), disk_recents: vec![] },
    );
    match &session {
        Session::Ready(ready) => {
            assert!(!ready.signatures_open);
            assert!(!ready.pages_open);
        }
        other => panic!("expected Ready, got {other:?}"),
    }
}

#[test]
fn finish_open_merges_disk_recents_when_memory_is_empty() {
    let mut session = Session::empty(Theme::Dark);
    apply(&mut session, Message::OpenRecent(s("/tmp/new.pdf")));
    let gen = loading_gen(&session);
    apply(
        &mut session,
        Message::Opened {
            gen,
            result: Err(OpenError::Engine(s("sem motor no teste"))),
            disk_recents: vec![s("/tmp/disk.pdf")],
        },
    );
    match &session {
        Session::Failed { recents, .. } => assert!(recents.contains(&s("/tmp/disk.pdf"))),
        other => panic!("expected Failed, got {other:?}"),
    }
}

#[test]
fn recents_ready_fills_loading_session() {
    let mut session = Session::Loading {
        source: OpenSource::Path(s("/tmp/direct.pdf")),
        recents: Vec::new(),
        gen: 1,
        theme: Theme::Dark,
    };
    apply(&mut session, Message::RecentsReady(vec![s("/tmp/old.pdf")]));
    match &session {
        Session::Loading { recents, .. } => assert_eq!(recents, &vec![s("/tmp/old.pdf")]),
        other => panic!("expected Loading, got {other:?}"),
    }
}

#[test]
fn stale_opened_after_close_is_ignored() {
    let mut session = Session::empty(Theme::Dark);
    apply(&mut session, Message::OpenRecent(s("/tmp/a.pdf")));
    let gen = loading_gen(&session);
    apply(&mut session, Message::Close);
    assert!(matches!(session, Session::Empty(_)));
    let acts = apply(
        &mut session,
        Message::Opened { gen, result: Err(OpenError::Engine(s("atrasado"))), disk_recents: vec![] },
    );
    assert!(acts.is_empty());
    match &session {
        Session::Empty(_) => {}
        other => panic!("stale Opened must not leave Empty, got {other:?}"),
    }
}

#[test]
fn stale_opened_does_not_replace_newer_open() {
    let mut session = Session::empty(Theme::Dark);
    apply(&mut session, Message::OpenRecent(s("/tmp/a.pdf")));
    let gen_a = loading_gen(&session);
    apply(&mut session, Message::OpenRecent(s("/tmp/b.pdf")));
    assert_eq!(loading_gen(&session), gen_a + 1);
    apply(
        &mut session,
        Message::Opened { gen: gen_a, result: Err(OpenError::Engine(s("A atrasado"))), disk_recents: vec![] },
    );
    match &session {
        Session::Loading { source, .. } => assert_eq!(source.path(), "/tmp/b.pdf"),
        other => panic!("A's result replaced B, got {other:?}"),
    }
}

#[test]
fn open_recent_ignores_non_pdf() {
    let mut session = Session::empty(Theme::Dark);
    let acts = apply(&mut session, Message::OpenRecent(s("/tmp/note.txt")));
    assert!(acts.is_empty());
    assert!(matches!(session, Session::Empty(_)));
    apply(&mut session, Message::FileDropped(s("/tmp/note.txt")));
    assert!(matches!(session, Session::Empty(_)));
    apply(&mut session, Message::FileDropped(s("/tmp/x.PDF")));
    assert!(matches!(session, Session::Loading { source: OpenSource::Dropped(_), .. }));
}

#[test]
fn theme_survives_open_overflow_and_close() {
    let mut session = Session::empty(Theme::Light);
    apply(&mut session, Message::OpenRecent(s("/tmp/doc.pdf")));
    let gen = loading_gen(&session);
    apply(
        &mut session,
        Message::Opened { gen, result: Ok(OpenedDoc { pages: 1, first_text: None, signatures: no_signatures() }), disk_recents: vec![] },
    );
    let Session::Ready(r) = &session else { panic!("expected Ready") };
    assert_eq!(r.theme, Theme::Light);
    assert!(!r.overflow_open);
    apply(&mut session, Message::ToggleOverflow);
    let Session::Ready(r) = &session else { panic!("expected Ready") };
    assert!(r.overflow_open);
    apply(&mut session, Message::ZoomChanged);
    let Session::Ready(r) = &session else { panic!("expected Ready") };
    assert!(!r.overflow_open);
    apply(&mut session, Message::Close);
    match &session {
        Session::Empty(empty) => assert_eq!(empty.theme, Theme::Light),
        other => panic!("expected Empty, got {other:?}"),
    }
    apply(&mut session, Message::ToggleOverflow);
    assert!(matches!(session, Session::Empty(_)));
}

#[test]
fn set_theme_reaches_every_state_and_asks_to_save() {
    let mut session = ready_at("/tmp/doc.pdf", Theme::Dark);
    apply(&mut session, Message::ToggleOverflow);
    let acts = apply(&mut session, Message::SetTheme(Theme::Light));
    assert!(matches!(&acts[..], [SessionAction::SaveTheme(Theme::Light)]));
    let Session::Ready(r) = &session else { panic!("expected Ready") };
    assert_eq!(r.theme, Theme::Light);
    assert!(!r.overflow_open);
}

#[test]
fn print_on_empty_is_noop() {
    let mut session = Session::empty(Theme::Dark);
    apply(&mut session, Message::Print);
    assert!(matches!(session, Session::Empty(_)));
    apply(&mut session, Message::PrintFinished { doc_gen: 0, result: Err(s("falha na impressão")) });
    assert!(matches!(session, Session::Empty(_)));
}

#[test]
fn print_from_ready_closes_overflow_and_marks_busy() {
    let mut session = ready_at("/tmp/doc.pdf", Theme::Dark);
    if let Session::Ready(r) = &mut session {
        r.overflow_open = true;
        r.print_error = Some(s("erro antigo"));
    }
    let acts = apply(&mut session, Message::Print);
    let Session::Ready(r) = &session else { panic!("expected Ready, got {session:?}") };
    assert!(!r.overflow_open);
    assert!(r.print_busy);
    assert!(r.print_error.is_none());
    assert!(matches!(&acts[..], [SessionAction::PrintDocument { doc_gen }] if *doc_gen == r.open_gen));
}

#[test]
fn second_print_while_busy_is_ignored() {
    let mut session = ready_at("/tmp/doc.pdf", Theme::Dark);
    apply(&mut session, Message::Print);
    let Session::Ready(r) = &session else { panic!("expected Ready, got {session:?}") };
    assert!(r.print_busy);
    apply(&mut session, Message::ToggleOverflow);
    let acts = apply(&mut session, Message::Print);
    assert!(acts.is_empty());
    let Session::Ready(r) = &session else { panic!("expected Ready, got {session:?}") };
    assert!(r.print_busy);
    assert!(r.overflow_open);
    assert!(r.print_error.is_none());
}

#[test]
fn print_finished_err_keeps_ready_and_reports_error() {
    let mut session = ready_at("/tmp/doc.pdf", Theme::Dark);
    apply(&mut session, Message::Print);
    let doc_gen = match &session {
        Session::Ready(r) => r.open_gen,
        _ => unreachable!(),
    };
    apply(&mut session, Message::PrintFinished { doc_gen, result: Err(s("falha na impressão")) });
    let Session::Ready(r) = &session else { panic!("expected Ready, got {session:?}") };
    assert!(!r.print_busy);
    assert_eq!(r.print_error.as_deref(), Some("falha na impressão"));
}

#[test]
fn print_finished_ok_clears_error_and_busy() {
    let mut session = ready_at("/tmp/doc.pdf", Theme::Dark);
    if let Session::Ready(r) = &mut session {
        r.print_busy = true;
        r.print_error = Some(s("erro antigo"));
    }
    let doc_gen = match &session {
        Session::Ready(r) => r.open_gen,
        _ => unreachable!(),
    };
    apply(&mut session, Message::PrintFinished { doc_gen, result: Ok(()) });
    let Session::Ready(r) = &session else { panic!("expected Ready, got {session:?}") };
    assert!(!r.print_busy);
    assert!(r.print_error.is_none());
}

#[test]
fn print_finished_with_stale_doc_gen_is_ignored() {
    let mut session = ready_at("/tmp/doc.pdf", Theme::Dark);
    if let Session::Ready(r) = &mut session {
        r.print_busy = true;
    }
    let stale = match &session {
        Session::Ready(r) => r.open_gen.wrapping_add(1),
        _ => unreachable!(),
    };
    apply(&mut session, Message::PrintFinished { doc_gen: stale, result: Err(s("tarde demais")) });
    let Session::Ready(r) = &session else { panic!("expected Ready, got {session:?}") };
    assert!(r.print_busy);
    assert!(r.print_error.is_none());
}

fn layer(page: u32, text: &str) -> TextLayer {
    TextLayer { page: PageNo::from_index(page), plain: s(text), cluster_lens: vec![text.len()] }
}

#[test]
fn search_jumps_to_the_first_hit_and_grows_with_loaded_pages() {
    let mut session = ready_at("/tmp/doc.pdf", Theme::Dark);
    let gen = match &session {
        Session::Ready(r) => r.open_gen,
        _ => unreachable!(),
    };
    apply(&mut session, Message::PageData { page: PageNo::from_index(2), doc_gen: gen, result: Ok(layer(2, "uma ação")) });
    apply(&mut session, Message::SearchChanged(s("AÇÃO")));
    match &session {
        Session::Ready(r) => {
            assert_eq!(r.search.hits().len(), 1);
            assert_eq!(r.nav.visible.index(), 2);
            assert_eq!(r.nav.page_input, "3");
        }
        _ => unreachable!(),
    }
    apply(&mut session, Message::PageData { page: PageNo::from_index(0), doc_gen: gen, result: Ok(layer(0, "ação ação")) });
    match &session {
        Session::Ready(r) => {
            let pages: Vec<u32> = r.search.hits().iter().map(|h| h.page.index()).collect();
            assert_eq!(pages, vec![0, 0, 2]);
        }
        _ => unreachable!(),
    }
    // an answer for another document changes nothing
    apply(&mut session, Message::PageData { page: PageNo::from_index(1), doc_gen: gen + 1, result: Ok(layer(1, "ação")) });
    match &session {
        Session::Ready(r) => {
            assert_eq!(r.search.hits().len(), 3);
            assert!(r.text[1].is_none());
        }
        _ => unreachable!(),
    }
}

#[test]
fn page_box_drafts_and_submits() {
    let mut session = ready_at("/tmp/doc.pdf", Theme::Dark);
    apply(&mut session, Message::PageInput(s("3")));
    apply(&mut session, Message::PageSubmit);
    match &session {
        Session::Ready(r) => assert_eq!((r.nav.visible.index(), r.nav.render_gen), (2, 2)),
        _ => unreachable!(),
    }
    apply(&mut session, Message::ViewportChanged);
    match &session {
        Session::Ready(r) => assert_eq!(r.nav.render_gen, 3),
        _ => unreachable!(),
    }
}

#[test]
fn selection_grows_over_glyphs_and_copies_its_text() {
    let mut session = ready_at("/tmp/doc.pdf", Theme::Dark);
    let gen = match &session {
        Session::Ready(r) => r.open_gen,
        _ => unreachable!(),
    };
    // three glyphs: "ab", "ção" and " x"
    let text = TextLayer {
        page: PageNo::from_index(1),
        plain: s("abção x"),
        cluster_lens: vec![2, 5, 2],
    };
    apply(&mut session, Message::PageData { page: PageNo::from_index(1), doc_gen: gen, result: Ok(text) });
    // a press off the loaded pages selects nothing
    apply(&mut session, Message::PointerDown { page: PageNo::from_index(0), glyph: Some(0) });
    assert!(apply(&mut session, Message::CopySelection).is_empty());
    apply(&mut session, Message::PointerDown { page: PageNo::from_index(1), glyph: Some(1) });
    match apply(&mut session, Message::CopySelection).as_slice() {
        [SessionAction::CopyText(t)] => assert_eq!(t, "ção"),
        other => panic!("expected one copy, got {other:?}"),
    }
    apply(&mut session, Message::PointerMove { page: PageNo::from_index(1), glyph: Some(0) });
    apply(&mut session, Message::PointerMove { page: PageNo::from_index(0), glyph: Some(2) });
    apply(&mut session, Message::PointerUp);
    match &session {
        Session::Ready(r) => {
            let sel = r.selection.expect("a selection");
            assert_eq!((sel.page.index(), sel.range.start, sel.range.end), (1, 0, 7));
        }
        _ => unreachable!(),
    }
    apply(&mut session, Message::ToggleOverflow);
    match apply(&mut session, Message::CopySelection).as_slice() {
        [SessionAction::CopyText(t)] => assert_eq!(t, "abção"),
        other => panic!("expected one copy, got {other:?}"),
    }
    match &session {
        Session::Ready(r) => assert!(!r.overflow_open),
        _ => unreachable!(),
    }
}

#[test]
fn boot_opens_the_loading_document_or_loads_the_empty_window() {
    let loading = Session::open_path(s("/tmp/a.pdf"), vec![], Theme::Dark);
    match loading.boot().as_slice() {
        [SessionAction::Open { source: OpenSource::Path(p), gen }] => {
            assert_eq!(p, "/tmp/a.pdf");
            assert_eq!(Some(*gen), loading.loading_gen());
        }
        other => panic!("expected one open, got {other:?}"),
    }
    assert!(matches!(Session::empty(Theme::Dark).boot().as_slice(), [SessionAction::LoadEmptyWindow]));
    assert!(ready_at("/tmp/doc.pdf", Theme::Dark).boot().is_empty());
}

#[test]
fn finish_open_takes_the_loading_generation() {
    let mut session = Session::empty(Theme::Light);
    assert!(session.finish_open(Err(OpenError::Engine(s("sem motor"))), vec![]).is_empty());
    assert!(matches!(session, Session::Empty(_)));
    apply(&mut session, Message::OpenRecent(s("/tmp/new.pdf")));
    let acts = session.finish_open(Ok(OpenedDoc { pages: 2, first_text: None, signatures: no_signatures() }), vec![s("/tmp/disk.pdf")]);
    assert!(matches!(session, Session::Ready(_)));
    assert_eq!(session.recents(), &vec![s("/tmp/new.pdf"), s("/tmp/disk.pdf")]);
    assert!(matches!(acts.as_slice(), [SessionAction::SaveRecents(_)]));
    assert_eq!(session.theme(), Theme::Light);
    assert_eq!(session.loading_gen(), None);
}

#[test]
fn empty_window_labels_its_folder_and_goes_up() {
    let mut session = Session::empty(Theme::Dark);
    let specials = vec![FsEntry { path: s("/home/ana"), name: s("Início"), is_dir: true }];
    match &session {
        Session::Empty(e) => {
            assert_eq!(e.path_label(), "Pastas");
            assert_eq!(e.parent(&specials), None);
        }
        other => panic!("expected Empty, got {other:?}"),
    }
    apply(&mut session, Message::BrowseTo(Some(s("/home/ana/docs"))));
    match &session {
        Session::Empty(e) => {
            assert_eq!(e.path_label(), "/home/ana/docs");
            assert_eq!(e.parent(&specials), Some(Some(s("/home/ana"))));
        }
        other => panic!("expected Empty, got {other:?}"),
    }
    apply(&mut session, Message::BrowseTo(Some(s("/home/ana"))));
    match &session {
        Session::Empty(e) => assert_eq!(e.parent(&specials), Some(None)),
        other => panic!("expected Empty, got {other:?}"),
    }
}

#[test]
fn loaded_pages_follow_page_data_and_queries_search_them() {
    let mut session = ready_at("/tmp/doc.pdf", Theme::Dark);
    let gen = match &session {
        Session::Ready(r) => r.open_gen,
        _ => unreachable!(),
    };
    apply(&mut session, Message::PageData { page: PageNo::from_index(2), doc_gen: gen, result: Ok(layer(2, "Ação")) });
    apply(&mut session, Message::PageData { page: PageNo::from_index(1), doc_gen: gen, result: Err(s("sem texto")) });
    let Session::Ready(r) = &mut session else { unreachable!() };
    let loaded = r.loaded_pages();
    assert_eq!(loaded.len(), 1);
    assert!(loaded.contains(&2));
    r.set_query(s("AÇÃO"));
    assert_eq!(r.search.query(), "AÇÃO");
    assert_eq!(r.search.hits().len(), 1);
    assert_eq!(r.nav.visible.index(), 0);
    r.set_query(String::new());
    assert!(r.search.hits().is_empty());
}

#[test]
fn opened_document_keeps_its_signature_analysis() {
    let mut session = Session::empty(Theme::Dark);
    apply(&mut session, Message::OpenRecent(s("/tmp/signed.pdf")));
    let gen = loading_gen(&session);
    let analysis = PdfAnalysis { page_count_hint: Some(2), has_acro_form: true, signatures: vec![] };
    apply(
        &mut session,
        Message::Opened {
            gen,
            result: Ok(OpenedDoc { pages: 2, first_text: None, signatures: analysis }),
            disk_recents: vec![],
        },
    );
    match &session {
        Session::Ready(ready) => {
            assert!(ready.signatures.has_acro_form);
            assert_eq!(ready.signatures.page_count_hint, Some(2));
            assert!(ready.signatures.signatures.is_empty());
            assert!(!ready.signatures_open);
        }
        other => panic!("expected Ready, got {other:?}"),
    }
}
