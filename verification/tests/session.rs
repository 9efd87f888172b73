use std::collections::HashSet;
use tsuro::page::PageNo;
use tsuro::session::{neighbor_page_set, parse_u32, progress_permille, NavCmd, OpenError, OpenSource, PageNav};
use tsuro::spool::{check_spool_pdf, spool_outcome};

#[test]
fn page_submit_clamps_and_restores_invalid() {
    let total = 7;
    let mut ready = PageNav::new(total);
    ready.page_input = "9999".into();
    ready.submit_page_input();
    assert_eq!(ready.visible.index(), total - 1);
    assert_eq!(ready.page_input, total.to_string());

    ready.page_input = "abc".into();
    ready.submit_page_input();
    assert_eq!(ready.page_input, total.to_string());

    ready.page_input = "0".into();
    ready.submit_page_input();
    assert_eq!(ready.visible.index(), 0);
    assert_eq!(ready.page_input, "1");

    ready.page_input = "  ".into();
    ready.submit_page_input();
    assert_eq!(ready.page_input, "1");
}

#[test]
fn page_submit_valid_and_external_nav_sync() {
    let mut ready = PageNav::new(3);
    ready.page_input = "2".into();
    ready.submit_page_input();
    assert_eq!(ready.visible.index(), 1);
    assert_eq!(ready.page_input, "2");

    ready.navigate_to(PageNo::from_index(0));
    assert_eq!(ready.page_input, "1");
}

#[test]
fn nav_commands_stay_in_the_document() {
    let mut nav = PageNav::new(3);
    assert_eq!(nav.page_input, "1");
    nav.apply_nav(NavCmd::Previous);
    assert_eq!(nav.visible.index(), 0);
    assert_eq!(nav.render_gen, 0);
    nav.apply_nav(NavCmd::Next);
    assert_eq!((nav.visible.index(), nav.render_gen), (1, 1));
    nav.apply_nav(NavCmd::Last);
    assert_eq!((nav.visible.index(), nav.render_gen), (2, 2));
    nav.apply_nav(NavCmd::Next);
    assert_eq!((nav.visible.index(), nav.render_gen), (2, 2));
    nav.apply_nav(NavCmd::GoTo(PageNo::from_index(40)));
    assert_eq!(nav.visible.index(), 2);
    nav.apply_nav(NavCmd::First);
    assert_eq!((nav.visible.index(), nav.page_input.as_str()), (0, "1"));
}

#[test]
fn nav_without_pages_only_clears_the_box() {
    let mut nav = PageNav::new(0);
    assert_eq!(nav.page_input, "");
    nav.page_input = "5".into();
    nav.apply_nav(NavCmd::Next);
    assert_eq!((nav.visible.index(), nav.page_input.as_str()), (0, ""));
    nav.page_input = "5".into();
    nav.submit_page_input();
    assert_eq!(nav.page_input, "");
}

#[test]
fn render_gen_wraps_past_zero() {
    let mut nav = PageNav::new(2);
    nav.render_gen = u64::MAX;
    nav.bump_render_gen();
    assert_eq!(nav.render_gen, 1);
}

#[test]
fn parse_u32_follows_std() {
    for s in ["0", "42", "+7", "4294967295", "", "+", "-1", "4294967296", "1a", " 1"] {
        assert_eq!(parse_u32(s), s.parse::<u32>().ok(), "{s}");
    }
}

#[test]
fn neighbors_of_the_visible_page() {
    assert_eq!(neighbor_page_set(0, 0), HashSet::new());
    assert_eq!(neighbor_page_set(0, 1), HashSet::from([0]));
    assert_eq!(neighbor_page_set(0, 5), HashSet::from([0, 1]));
    assert_eq!(neighbor_page_set(2, 5), HashSet::from([1, 2, 3]));
    assert_eq!(neighbor_page_set(4, 5), HashSet::from([3, 4]));
}

#[test]
fn open_source_and_errors() {
    assert_eq!(OpenSource::Path("/a.pdf".into()).path(), "/a.pdf");
    assert_eq!(OpenSource::Dropped("/b.pdf".into()).path(), "/b.pdf");
    assert_eq!(OpenError::Io("x".into()).message(), "não foi possível ler o arquivo: x");
    assert_eq!(OpenError::Engine("y".into()).message(), "não foi possível abrir o PDF: y");
    assert_eq!(OpenError::Sign("z".into()).message(), "assinaturas: z");
}

#[test]
fn spool_outcomes() {
    assert!(check_spool_pdf(b"%PDF-1.4").is_ok());
    assert_eq!(check_spool_pdf(b"").err().unwrap().message(), "PDF de impressão vazio");
    assert_eq!(spool_outcome("qualquer", Some(Ok(1))).ok(), Some(1));
    assert_eq!(
        spool_outcome("qualquer", None).err().unwrap().message(),
        "impressora não encontrada: qualquer"
    );
    assert_eq!(
        spool_outcome("p", Some(Err("sem papel".into()))).err().unwrap().message(),
        "falha no spool: sem papel"
    );
}

#[test]
fn reading_bar_fills_by_thousandths() {
    assert_eq!(progress_permille(0, 4), 250);
    assert_eq!(progress_permille(3, 4), 1000);
    assert_eq!(progress_permille(9, 4), 1000);
    assert_eq!(progress_permille(0, 0), 1000);
    assert_eq!(progress_permille(0, 3000), 1);
    assert_eq!(progress_permille(1499, 3000), 500);
}
