//! The design tokens of the reader's chrome: the two themes and the color
//! of each role, as 8-bit RGB.

use vstd::prelude::*;
use crate::sign::{spec_severity, spec_worst_status, worst_status, SignatureStatus};

verus! {

/// The chrome's theme. Dark is the default.
#[derive(Debug, Clone, Copy, PartialEq, Eq, Structural)]
pub enum Theme {
    Dark,
    Light,
}

impl Default for Theme {
    fn default() -> (r: Self)
        ensures
            r == Theme::Dark,
    {
        Theme::Dark
    }
}

impl Theme {
    pub fn is_dark(self) -> (r: bool)
        ensures
            r == (self == Theme::Dark),
    {
        match self {
            Theme::Dark => true,
            Theme::Light => false,
        }
    }
}

/// An 8-bit RGB color.
#[derive(Debug, Clone, Copy, PartialEq, Eq, Structural)]
pub struct Rgb {
    pub r: u8,
    pub g: u8,
    pub b: u8,
}

pub open spec fn rgb(r: u8, g: u8, b: u8) -> Rgb {
    Rgb { r, g, b }
}

fn hex(r: u8, g: u8, b: u8) -> (c: Rgb)
    ensures
        c == rgb(r, g, b),
{
    Rgb { r, g, b }
}

/// White, the color of the PDF sheet in either theme.
pub open spec fn white() -> Rgb {
    rgb(0xff, 0xff, 0xff)
}

/// The named colors of the chrome.
#[derive(Debug, Clone, Copy, PartialEq, Eq, Structural)]
pub struct Tokens {
    pub is_dark: bool,
    pub bg: Rgb,
    pub surface: Rgb,
    pub chrome: Rgb,
    pub elevated: Rgb,
    pub ink: Rgb,
    pub muted: Rgb,
    pub line: Rgb,
    pub accent: Rgb,
    pub accent_bg: Rgb,
    pub hover: Rgb,
    pub ok: Rgb,
    pub warn: Rgb,
    pub danger: Rgb,
    /// The PDF sheet: white in either theme.
    pub page: Rgb,
    /// The search highlight.
    pub mark: Rgb,
}

/// The tokens of each theme.
pub open spec fn spec_tokens(theme: Theme) -> Tokens {
    match theme {
        Theme::Dark => Tokens {
            is_dark: true,
            bg: rgb(0x18, 0x18, 0x18),
            surface: rgb(0x22, 0x22, 0x22),
            chrome: rgb(0x1a, 0x1a, 0x1a),
            elevated: rgb(0x26, 0x26, 0x26),
            ink: rgb(0xec, 0xec, 0xea),
            muted: rgb(0x9a, 0x98, 0x90),
            line: rgb(0x33, 0x33, 0x31),
            accent: rgb(0x4d, 0xb8, 0xb0),
            accent_bg: rgb(0x1e, 0x33, 0x31),
            hover: rgb(0x2a, 0x2a, 0x28),
            ok: rgb(0x5c, 0xb8, 0x5c),
            warn: rgb(0xd4, 0xa0, 0x17),
            danger: rgb(0xc0, 0x39, 0x2b),
            page: white(),
            mark: rgb(0xfd, 0xe6, 0x8a),
        },
        Theme::Light => Tokens {
            is_dark: false,
            bg: rgb(0xf4, 0xf3, 0xf0),
            surface: rgb(0xe8, 0xe6, 0xe0),
            chrome: rgb(0xee, 0xed, 0xe9),
            elevated: white(),
            ink: rgb(0x1a, 0x1a, 0x18),
            muted: rgb(0x6b, 0x68, 0x60),
            line: rgb(0xd4, 0xd2, 0xcc),
            accent: rgb(0x2a, 0x6f, 0x6a),
            accent_bg: rgb(0xe4, 0xf0, 0xef),
            hover: rgb(0xe4, 0xe2, 0xdc),
            ok: rgb(0x5c, 0xb8, 0x5c),
            warn: rgb(0xd4, 0xa0, 0x17),
            danger: rgb(0xc0, 0x39, 0x2b),
            page: white(),
            mark: rgb(0xfd, 0xe6, 0x8a),
        },
    }
}

impl Tokens {
    /// The tokens of a theme.
    pub fn for_theme(theme: Theme) -> (t: Self)
        ensures
            t == spec_tokens(theme),
    {
        match theme {
            Theme::Dark => Tokens {
                is_dark: true,
                bg: hex(0x18, 0x18, 0x18),
                surface: hex(0x22, 0x22, 0x22),
                chrome: hex(0x1a, 0x1a, 0x1a),
                elevated: hex(0x26, 0x26, 0x26),
                ink: hex(0xec, 0xec, 0xea),
                muted: hex(0x9a, 0x98, 0x90),
                line: hex(0x33, 0x33, 0x31),
                accent: hex(0x4d, 0xb8, 0xb0),
                accent_bg: hex(0x1e, 0x33, 0x31),
                hover: hex(0x2a, 0x2a, 0x28),
                ok: hex(0x5c, 0xb8, 0x5c),
                warn: hex(0xd4, 0xa0, 0x17),
                danger: hex(0xc0, 0x39, 0x2b),
                page: hex(0xff, 0xff, 0xff),
                mark: hex(0xfd, 0xe6, 0x8a),
            },
            Theme::Light => Tokens {
                is_dark: false,
                bg: hex(0xf4, 0xf3, 0xf0),
                surface: hex(0xe8, 0xe6, 0xe0),
                chrome: hex(0xee, 0xed, 0xe9),
                elevated: hex(0xff, 0xff, 0xff),
                ink: hex(0x1a, 0x1a, 0x18),
                muted: hex(0x6b, 0x68, 0x60),
                line: hex(0xd4, 0xd2, 0xcc),
                accent: hex(0x2a, 0x6f, 0x6a),
                accent_bg: hex(0xe4, 0xf0, 0xef),
                hover: hex(0xe4, 0xe2, 0xdc),
                ok: hex(0x5c, 0xb8, 0x5c),
                warn: hex(0xd4, 0xa0, 0x17),
                danger: hex(0xc0, 0x39, 0x2b),
                page: hex(0xff, 0xff, 0xff),
                mark: hex(0xfd, 0xe6, 0x8a),
            },
        }
    }

    /// The background of a segmented control: `elevated` in the dark
    /// theme, `surface` in the light one.
    pub fn seg_background(self) -> (c: Rgb)
        ensures
            c == (if self.is_dark {
                self.elevated
            } else {
                self.surface
            }),
    {
        if self.is_dark {
            self.elevated
        } else {
            self.surface
        }
    }
}

/// The color of a signature status: `ok` for a valid one, `danger` for a
/// modified document or a broken signature, `warn` for the rest.
pub open spec fn spec_status_color(tokens: Tokens, status: SignatureStatus) -> Rgb {
    if spec_severity(status) == 1 {
        tokens.ok
    } else if spec_severity(status) == 3 {
        tokens.danger
    } else {
        tokens.warn
    }
}

/// The color of a signature status.
pub fn status_color(tokens: Tokens, status: SignatureStatus) -> (c: Rgb)
    ensures
        c == spec_status_color(tokens, status),
{
    let sev = status.severity();
    if sev == 1 {
        tokens.ok
    } else if sev == 3 {
        tokens.danger
    } else {
        tokens.warn
    }
}

/// The color of the dot on the signatures button: that of the worst
/// status, none without signatures.
pub fn status_dot_color(tokens: Tokens, statuses: &[SignatureStatus]) -> (c: Option<Rgb>)
    ensures
        c == match spec_worst_status(statuses@) {
            Some(w) => Some(spec_status_color(tokens, w)),
            None => None,
        },
{
    match worst_status(statuses) {
        Some(w) => Some(status_color(tokens, w)),
        None => None,
    }
}

/// The sheet is white in both themes, and the default theme is dark.
pub proof fn law_page_is_white(theme: Theme)
    ensures
        spec_tokens(theme).page == white(),
        spec_tokens(Theme::Dark).is_dark,
        !spec_tokens(Theme::Light).is_dark,
{
}

} // verus!
