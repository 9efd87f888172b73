use tsuro::kiri::{status_color, status_dot_color, Rgb, Theme, Tokens};
use tsuro::prefs::{prefs_text, theme_from_text};
use tsuro::sign::SignatureStatus as S;

fn hex(r: u8, g: u8, b: u8) -> Rgb {
    Rgb { r, g, b }
}

const WHITE: Rgb = Rgb { r: 255, g: 255, b: 255 };

#[test]
fn dark_is_default_and_page_is_white() {
    let t = Tokens::for_theme(Theme::default());
    assert!(t.is_dark);
    assert_eq!(t.page, WHITE);
    assert_eq!(Tokens::for_theme(Theme::Light).page, WHITE);
}

#[test]
fn chrome_tokens_match_issue_12() {
    let t = Tokens::for_theme(Theme::Dark);
    assert_eq!(t.bg, hex(0x18, 0x18, 0x18));
    assert_eq!(t.accent, hex(0x4d, 0xb8, 0xb0));
    let l = Tokens::for_theme(Theme::Light);
    assert_eq!(l.bg, hex(0xf4, 0xf3, 0xf0));
    assert_eq!(l.elevated, WHITE);
}

#[test]
fn seg_uses_elevated_dark_and_surface_light() {
    let dark = Tokens::for_theme(Theme::Dark);
    assert_eq!(dark.seg_background(), dark.elevated);
    let light = Tokens::for_theme(Theme::Light);
    assert_eq!(light.seg_background(), light.surface);
}

#[test]
fn dot_worst_status_wins_and_empty_has_no_dot() {
    let t = Tokens::for_theme(Theme::Dark);
    assert_eq!(status_dot_color(t, &[]), None);
    assert_eq!(status_dot_color(t, &[S::Valid]), Some(t.ok));
    assert_eq!(status_dot_color(t, &[S::IntactButUntrusted]), Some(t.warn));
    assert_eq!(status_dot_color(t, &[S::Valid, S::CertificateExpired]), Some(t.warn));
    assert_eq!(
        status_dot_color(t, &[S::Valid, S::IntactButUntrusted, S::Invalid]),
        Some(t.danger)
    );
    assert_eq!(status_dot_color(t, &[S::DocumentModified]), Some(t.danger));
}

#[test]
fn status_colors_by_severity() {
    let t = Tokens::for_theme(Theme::Light);
    assert_eq!(status_color(t, S::Valid), t.ok);
    assert_eq!(status_color(t, S::Unsupported), t.warn);
    assert_eq!(status_color(t, S::CertificateNotYetValid), t.warn);
    assert_eq!(status_color(t, S::Invalid), t.danger);
    assert!(Theme::Dark.is_dark());
    assert!(!Theme::Light.is_dark());
}

#[test]
fn missing_or_garbage_prefs_read_dark() {
    // A missing file reads as the default theme.
    assert_eq!(Theme::default(), Theme::Dark);
    assert_eq!(theme_from_text("theme=banana\n"), Theme::Dark);
}

#[test]
fn theme_roundtrips_through_file() {
    assert_eq!(theme_from_text(&prefs_text(Theme::Light)), Theme::Light);
    assert_eq!(theme_from_text(&prefs_text(Theme::Dark)), Theme::Dark);
}

#[test]
fn prefs_text_is_one_line() {
    assert_eq!(prefs_text(Theme::Dark), "theme=dark\n");
    assert_eq!(prefs_text(Theme::Light), "theme=light\n");
    assert_eq!(theme_from_text("  theme=light \r\n"), Theme::Light);
    assert_eq!(theme_from_text("theme=LIGHT"), Theme::Dark);
    assert_eq!(theme_from_text(""), Theme::Dark);
}
