//! The preferences file: one line, `theme=dark` or `theme=light`.

use vstd::prelude::*;
use crate::kiri::Theme;
use crate::text::{spec_trim, string_of, trim};

verus! {

/// The theme that a preferences text selects: light only for the exact
/// line `theme=light` (surrounding white space aside), dark otherwise.
pub open spec fn spec_theme_from_text(raw: Seq<char>) -> Theme {
    if spec_trim(raw) == "theme=light"@ {
        Theme::Light
    } else {
        Theme::Dark
    }
}

/// The theme that a preferences text selects.
pub fn theme_from_text(raw: &str) -> (t: Theme)
    ensures
        t == spec_theme_from_text(raw@),
{
    let line = trim(raw);
    let light = string_of("theme=light");
    if line == light {
        Theme::Light
    } else {
        Theme::Dark
    }
}

/// The text that saving a theme writes.
pub open spec fn spec_prefs_text(theme: Theme) -> Seq<char> {
    match theme {
        Theme::Dark => "theme=dark\n"@,
        Theme::Light => "theme=light\n"@,
    }
}

/// The text that saving a theme writes.
pub fn prefs_text(theme: Theme) -> (r: String)
    ensures
        r@ == spec_prefs_text(theme),
{
    match theme {
        Theme::Dark => string_of("theme=dark\n"),
        Theme::Light => string_of("theme=light\n"),
    }
}

/// Saving a theme and reading the file back gives the same theme.
pub proof fn law_theme_roundtrip(theme: Theme)
    ensures
        spec_theme_from_text(spec_prefs_text(theme)) == theme,
{
    reveal_strlit("theme=dark\n");
    reveal_strlit("theme=light\n");
    reveal_strlit("theme=light");
    let t = spec_prefs_text(theme);
    assert(crate::text::leading_ws(t, 0) == 0);
    assert(crate::text::trailing_end(t, 0, t.len() - 1) == t.len() - 1);
    assert(crate::text::trailing_end(t, 0, t.len() as int) == t.len() - 1);
    assert(spec_trim(t) =~= t.subrange(0, t.len() - 1));
    match theme {
        Theme::Dark => {
            assert(spec_trim(t).len() == 10);
            assert(spec_trim(t) != "theme=light"@);
        },
        Theme::Light => {
            assert(spec_trim(t) =~= "theme=light"@);
        },
    }
}

} // verus!
