//! The reader's session as a state machine: which document is open or
//! opening, what the empty window browses, and what the window asks the
//! outside world to do (open a file, save the recents, list a folder).

use std::collections::HashSet;
use vstd::prelude::*;
use crate::browse::{
    capped, dedup_first, display_path, drop_recent, is_pdf, merge_recents, parent_of, push_recent,
    spec_is_pdf, spec_parent_of, texts, without, FsEntry,
};
use crate::kiri::Theme;
use crate::page::PageNo;
use crate::sign::PdfAnalysis;
use crate::search::{layer_fits, pages_fit, Search, TextLayer};
use crate::search::{spec_extend, spec_page_hits, sorted_hits, all_page_hits};
use crate::search::{chars_within, glyph_byte_range, glyph_off, text_slice, TextRange};
use crate::session::{
    cmd_page, draft_page, moved_to, resynced, NavCmd, OpenError, OpenSource, PageNav,
    open_error_text, synced_input, Selection,
};
use crate::text::string_of;

verus! {

/// The empty window: the folder it browses (none for the list of special
/// folders), its listing or the listing's error, and what survives a
/// closed document.
#[derive(Debug)]
pub struct EmptyState {
    pub cwd: Option<String>,
    pub listing: Vec<FsEntry>,
    pub listing_error: Option<String>,
    pub recents: Vec<String>,
    pub open_gen: u64,
    pub theme: Theme,
}

impl EmptyState {
    /// What the empty window shows as the folder it browses.
    pub fn path_label(&self) -> (r: String)
        ensures
            match self.cwd {
                None => r@ == "Pastas"@,
                Some(p) => r@ == p@,
            },
    {
        match &self.cwd {
            None => display_path(None),
            Some(p) => display_path(Some(p.as_str())),
        }
    }

    /// Where the empty window goes up to: nothing from the list of special
    /// folders; else the parent of the folder it browses (none from a
    /// special folder or a root, which lead back to the list).
    pub fn parent(&self, specials: &Vec<FsEntry>) -> (r: Option<Option<String>>)
        ensures
            match self.cwd {
                None => r is None,
                Some(cwd) => r matches Some(up) && match spec_parent_of(cwd@, specials@) {
                    Some(p) => up matches Some(s) && s@ == p,
                    None => up is None,
                },
            },
    {
        match &self.cwd {
            None => None,
            Some(cwd) => Some(parent_of(cwd.as_str(), specials)),
        }
    }
}

/// An open document, as far as the session decides about it: the page
/// navigation, the search and the text of the pages loaded so far, the
/// panels, and the print job's state.
#[derive(Debug)]
pub struct ReadyState {
    pub source: OpenSource,
    pub recents: Vec<String>,
    pub open_gen: u64,
    pub theme: Theme,
    pub nav: PageNav,
    pub search: Search,
    pub text: Vec<Option<TextLayer>>,
    pub signatures: PdfAnalysis,
    pub signatures_open: bool,
    pub pages_open: bool,
    pub overflow_open: bool,
    pub print_busy: bool,
    pub print_error: Option<String>,
    pub selection: Option<Selection>,
}

impl ReadyState {
    /// The visible page is in the document, there is one text slot per
    /// page, and the loaded text fits in memory's offsets.
    pub open spec fn wf(self) -> bool {
        &&& self.nav.wf()
        &&& self.text@.len() == self.nav.total
        &&& pages_fit(self.text@)
    }

    /// Searches the loaded pages for `query`.
    pub fn set_query(&mut self, query: String)
        requires
            old(self).wf(),
        ensures
            final(self).wf(),
            *final(self) == (ReadyState { search: final(self).search, ..*old(self) }),
            final(self).search.spec_query() == query@,
            query@.len() == 0 ==> final(self).search.spec_hits().len() == 0,
            query@.len() > 0 ==> final(self).search.spec_hits() == sorted_hits(
                all_page_hits(query@, old(self).text@),
            ),
    {
        self.search = Search::derive(query.as_str(), self.text.as_slice());
    }

    /// The pages whose text is loaded.
    pub fn loaded_pages(&self) -> (r: HashSet<u32>)
        requires
            self.wf(),
        ensures
            forall|p: u32| #[trigger] r@.contains(p) <==> p < self.text@.len() && self.text@[p as int] is Some,
    {
        let mut r: HashSet<u32> = HashSet::new();
        let mut i: usize = 0;
        while i < self.text.len()
            invariant
                i <= self.text@.len(),
                self.text@.len() == self.nav.total,
                forall|p: u32| #[trigger] r@.contains(p) <==> p < i && self.text@[p as int] is Some,
            decreases self.text@.len() - i,
        {
            if self.text[i].is_some() {
                r.insert(i as u32);
            }
            i = i + 1;
        }
        r
    }
}

/// A document that opened: its page count, the text of its first page and
/// what it says of its signatures.
#[derive(Debug)]
pub struct OpenedDoc {
    pub pages: u32,
    pub first_text: Option<TextLayer>,
    pub signatures: PdfAnalysis,
}

/// The session of the reader's window.
#[derive(Debug)]
pub enum Session {
    Empty(EmptyState),
    Loading { source: OpenSource, recents: Vec<String>, gen: u64, theme: Theme },
    Ready(ReadyState),
    Failed { source: OpenSource, message: String, recents: Vec<String>, gen: u64, theme: Theme },
}

/// What happens to the session.
#[derive(Debug)]
pub enum SessionEvent {
    /// The file dialog closed, with the file picked if any.
    Picked(Option<String>),
    FileDropped(String),
    OpenRecent(String),
    /// A document finished opening (its page count) or failed; the recents
    /// read from disk come along.
    Opened { gen: u64, result: Result<OpenedDoc, OpenError>, disk_recents: Vec<String> },
    Close,
    SetTheme(Theme),
    BrowseTo(Option<String>),
    ListingReady { path: Option<String>, result: Result<Vec<FsEntry>, String> },
    RecentsReady(Vec<String>),
    Nav(NavCmd),
    PageInput(String),
    PageSubmit,
    SearchChanged(String),
    /// The text of a page loaded (or failed to) for the document of `doc_gen`.
    PageData { page: PageNo, doc_gen: u64, result: Result<TextLayer, String> },
    /// The pointer went down on page `page`, over glyph `glyph` if any (the
    /// window finds the glyph under the pointer).
    PointerDown { page: PageNo, glyph: Option<usize> },
    /// The pointer moved over page `page`, over glyph `glyph` if any.
    PointerMove { page: PageNo, glyph: Option<usize> },
    PointerUp,
    /// Copy the selected text.
    CopySelection,
    ToggleSignatures,
    TogglePages,
    ToggleOverflow,
    /// The zoom changed: the menu closes and renders start over.
    ZoomChanged,
    /// The viewport changed: renders start over.
    ViewportChanged,
    Print,
    /// The print PDF of the document of `doc_gen` was presented, or failed.
    PrintFinished { doc_gen: u64, result: Result<(), String> },
}

/// What the session asks the outside world to do.
#[derive(Debug)]
pub enum SessionAction {
    /// Open the document; answer with `Opened` under this generation.
    Open { source: OpenSource, gen: u64 },
    SaveRecents(Vec<String>),
    SaveTheme(Theme),
    /// List a folder (none: the special folders); answer with `ListingReady`.
    ListPath(Option<String>),
    /// Load the recents from disk and list the special folders.
    LoadEmptyWindow,
    /// Make the print PDF of the document of `doc_gen`; answer with
    /// `PrintFinished`.
    PrintDocument { doc_gen: u64 },
    /// Put the text on the clipboard.
    CopyText(String),
}

/// The path of a document source.
pub open spec fn source_path(s: OpenSource) -> Seq<char> {
    match s {
        OpenSource::Path(p) => p@,
        OpenSource::Dropped(p) => p@,
    }
}

/// The recents that a session holds.
pub open spec fn recents_of(s: Session) -> Seq<Seq<char>> {
    match s {
        Session::Empty(e) => texts(e.recents@),
        Session::Loading { recents, .. } => texts(recents@),
        Session::Ready(r) => texts(r.recents@),
        Session::Failed { recents, .. } => texts(recents@),
    }
}

/// The theme of a session.
pub open spec fn theme_of(s: Session) -> Theme {
    match s {
        Session::Empty(e) => e.theme,
        Session::Loading { theme, .. } => theme,
        Session::Ready(r) => r.theme,
        Session::Failed { theme, .. } => theme,
    }
}

/// The generation of the last document asked to open.
pub open spec fn gen_of(s: Session) -> u64 {
    match s {
        Session::Empty(e) => e.open_gen,
        Session::Loading { gen, .. } => gen,
        Session::Ready(r) => r.open_gen,
        Session::Failed { gen, .. } => gen,
    }
}

/// The generation after `g`: it wraps past the largest value and skips 0.
pub open spec fn next_gen(g: u64) -> u64 {
    if g == u64::MAX {
        1
    } else {
        (g + 1) as u64
    }
}

/// `new` is `old` asked to open `source`: loading it under the next
/// generation, with the same recents and theme.
pub open spec fn begun(old: Session, new: Session, source: OpenSource) -> bool {
    &&& new matches Session::Loading { source: s, gen, .. }
    &&& s == source
    &&& gen == next_gen(gen_of(old))
    &&& recents_of(new) == recents_of(old)
    &&& theme_of(new) == theme_of(old)
}

impl Session {
    /// The empty window at start: nothing browsed, nothing listed.
    pub fn empty(theme: Theme) -> (s: Session)
        ensures
            s matches Session::Empty(e) && e.cwd is None && e.listing@.len() == 0
                && e.listing_error is None && e.recents@.len() == 0 && e.open_gen == 0 && e.theme
                == theme,
    {
        Session::Empty(EmptyState {
            cwd: None,
            listing: Vec::new(),
            listing_error: None,
            recents: Vec::new(),
            open_gen: 0,
            theme,
        })
    }

    /// A session that starts by opening a path, skipping the browser.
    pub fn open_path(path: String, recents: Vec<String>, theme: Theme) -> (s: Session)
        ensures
            s matches Session::Loading { source: OpenSource::Path(p), gen, .. } && p@ == path@ && gen
                == 1,
            recents_of(s) == texts(recents@),
            theme_of(s) == theme,
    {
        Session::Loading { source: OpenSource::Path(path), recents, gen: 1, theme }
    }

    fn take_recents(&mut self) -> (r: Vec<String>)
        ensures
            texts(r@) == recents_of(*old(self)),
            theme_of(*final(self)) == theme_of(*old(self)),
            gen_of(*final(self)) == gen_of(*old(self)),
    {
        let mut out: Vec<String> = Vec::new();
        match self {
            Session::Empty(e) => std::mem::swap(&mut e.recents, &mut out),
            Session::Loading { recents, .. } => std::mem::swap(recents, &mut out),
            Session::Ready(r) => std::mem::swap(&mut r.recents, &mut out),
            Session::Failed { recents, .. } => std::mem::swap(recents, &mut out),
        }
        out
    }

    /// The theme of the window.
    pub fn theme(&self) -> (t: Theme)
        ensures
            t == theme_of(*self),
    {
        match self {
            Session::Empty(e) => e.theme,
            Session::Loading { theme, .. } => *theme,
            Session::Ready(r) => r.theme,
            Session::Failed { theme, .. } => *theme,
        }
    }

    fn open_gen(&self) -> (g: u64)
        ensures
            g == gen_of(*self),
    {
        match self {
            Session::Empty(e) => e.open_gen,
            Session::Loading { gen, .. } => *gen,
            Session::Ready(r) => r.open_gen,
            Session::Failed { gen, .. } => *gen,
        }
    }

    /// The generation of the document loading, if one is.
    pub fn loading_gen(&self) -> (g: Option<u64>)
        ensures
            g == (match *self {
                Session::Loading { gen, .. } => Some(gen),
                _ => None,
            }),
    {
        match self {
            Session::Loading { gen, .. } => Some(*gen),
            _ => None,
        }
    }

    /// The recent files that the session holds.
    pub fn recents(&self) -> (r: &Vec<String>)
        ensures
            texts(r@) == recents_of(*self),
    {
        match self {
            Session::Empty(e) => &e.recents,
            Session::Loading { recents, .. } => recents,
            Session::Ready(r) => &r.recents,
            Session::Failed { recents, .. } => recents,
        }
    }

    /// What the window asks for when it starts: the document loading is
    /// opened; the empty window loads its recents and lists the special
    /// folders.
    pub fn boot(&self) -> (acts: Vec<SessionAction>)
        ensures
            match *self {
                Session::Loading { source, gen, .. } => one_action(acts@, SessionAction::Open { source, gen }),
                Session::Empty(_) => one_action(acts@, SessionAction::LoadEmptyWindow),
                _ => acts@.len() == 0,
            },
    {
        let mut acts = Vec::new();
        match self {
            Session::Loading { source, gen, .. } => {
                acts.push(SessionAction::Open { source: copy_source(source), gen: *gen });
            },
            Session::Empty(_) => {
                acts.push(SessionAction::LoadEmptyWindow);
            },
            _ => {},
        }
        acts
    }

    /// Starts opening a document under the next generation.
    pub fn begin_open(&mut self, source: OpenSource) -> (a: SessionAction)
        ensures
            begun(*old(self), *final(self), source),
            a matches SessionAction::Open { source: s, gen } && s == source && gen == next_gen(
                gen_of(*old(self)),
            ),
    {
        let theme = self.theme();
        let g = self.open_gen();
        let gen = if g == u64::MAX {
            1
        } else {
            g + 1
        };
        let recents = self.take_recents();
        let pass = match &source {
            OpenSource::Path(p) => OpenSource::Path(p.clone()),
            OpenSource::Dropped(p) => OpenSource::Dropped(p.clone()),
        };
        *self = Session::Loading { source, recents, gen, theme };
        SessionAction::Open { source: pass, gen }
    }
}


/// The recents once an open attempt for `path` is answered: the session's
/// recents, then those on disk, each once; a document that opened goes first,
/// and one that could not be read leaves.
pub open spec fn merged_recents(mine: Seq<Seq<char>>, disk: Seq<Seq<char>>) -> Seq<Seq<char>> {
    capped(dedup_first(mine + disk))
}

/// The only action is saving `recents`.
pub open spec fn saves(acts: Seq<SessionAction>, recents: Seq<Seq<char>>) -> bool {
    &&& acts.len() == 1
    &&& (acts[0] matches SessionAction::SaveRecents(v) && texts(v@) == recents)
}

/// `new` shows the document `d` that opened from `source` under `gen`: at
/// its first page, with nothing searched, only the first page's text
/// loaded, the panels closed and no print job.
pub open spec fn opened_as(
    new: Session,
    source: OpenSource,
    gen: u64,
    theme: Theme,
    recents: Seq<Seq<char>>,
    d: OpenedDoc,
) -> bool {
    match new {
        Session::Ready(r) => {
            &&& r.source == source
            &&& r.open_gen == gen
            &&& r.theme == theme
            &&& texts(r.recents@) == recents
            &&& r.nav.total == d.pages
            &&& r.nav.visible.idx == 0
            &&& r.nav.render_gen == 1
            &&& r.nav.page_input@ == synced_input(d.pages, 0)
            &&& r.search.spec_query().len() == 0
            &&& r.search.spec_hits().len() == 0
            &&& r.text@.len() == d.pages
            &&& d.pages > 0 ==> r.text@[0] == d.first_text
            &&& forall|i: int| 1 <= i < d.pages ==> #[trigger] r.text@[i] is None
            &&& r.signatures == d.signatures
            &&& !r.signatures_open && !r.pages_open && !r.overflow_open
            &&& !r.print_busy && r.print_error is None
            &&& r.selection is None
        },
        _ => false,
    }
}

/// `new` reports that `source`, asked under `gen`, failed with `e`.
pub open spec fn failed_as(
    new: Session,
    source: OpenSource,
    gen: u64,
    theme: Theme,
    recents: Seq<Seq<char>>,
    e: OpenError,
) -> bool {
    match new {
        Session::Failed { source: s, message, recents: r, gen: g, theme: t } => {
            &&& s == source
            &&& message@ == open_error_text(e)
            &&& texts(r@) == recents
            &&& g == gen
            &&& t == theme
        },
        _ => false,
    }
}

impl Session {
    /// The session is well formed: an open document is.
    pub open spec fn wf(self) -> bool {
        self matches Session::Ready(r) ==> r.wf()
    }

    /// Takes the answer of the document loading, whatever generation it
    /// was asked under; nothing changes when no document is loading.
    pub fn finish_open(&mut self, result: Result<OpenedDoc, OpenError>, disk: Vec<String>) -> (acts: Vec<SessionAction>)
        requires
            old(self).wf(),
            result matches Ok(d) ==> (d.first_text matches Some(l) ==> layer_fits(l)),
        ensures
            final(self).wf(),
            match *old(self) {
                Session::Loading { gen, .. } => apply_open_post(*old(self), *final(self), gen, result, disk, acts@),
                _ => *final(self) == *old(self) && acts@.len() == 0,
            },
    {
        match self.loading_gen() {
            Some(gen) => self.apply_open(gen, result, disk),
            None => Vec::new(),
        }
    }


    /// Answers an open attempt. Only the attempt being waited for counts;
    /// a late answer for an older one changes nothing.
    pub fn apply_open(&mut self, gen: u64, result: Result<OpenedDoc, OpenError>, disk: Vec<String>) -> (acts: Vec<SessionAction>)
        requires
            old(self).wf(),
            result matches Ok(d) ==> (d.first_text matches Some(l) ==> layer_fits(l)),
        ensures
            final(self).wf(),
            apply_open_post(*old(self), *final(self), gen, result, disk, acts@),
    {
        let (source, mine, theme) = match self {
            Session::Loading { source, recents, gen: g, theme } => {
                if *g != gen {
                    return Vec::new();
                }
                let mut mine: Vec<String> = Vec::new();
                std::mem::swap(recents, &mut mine);
                (copy_source(source), mine, *theme)
            },
            _ => return Vec::new(),
        };
        let merged = merge_recents(mine, disk);
        let mut acts: Vec<SessionAction> = Vec::new();
        match result {
            Ok(d) => {
                let path = match &source {
                    OpenSource::Path(p) => p.clone(),
                    OpenSource::Dropped(p) => p.clone(),
                };
                let recents = push_recent(merged, path);
                let saved = copy_texts(&recents);
                let mut nav = PageNav::new(d.pages);
                nav.render_gen = 1;
                let mut text: Vec<Option<TextLayer>> = Vec::new();
                let mut i: u32 = 0;
                let mut first = d.first_text;
                while i < d.pages
                    invariant
                        i <= d.pages,
                        text@.len() == i,
                        i > 0 ==> text@[0] == d.first_text,
                        i == 0 ==> first == d.first_text,
                        forall|k: int| 1 <= k < i ==> #[trigger] text@[k] is None,
                        d.first_text matches Some(l) ==> layer_fits(l),
                    decreases d.pages - i,
                {
                    if i == 0 {
                        let mut slot: Option<TextLayer> = None;
                        std::mem::swap(&mut slot, &mut first);
                        text.push(slot);
                    } else {
                        text.push(None);
                    }
                    i = i + 1;
                }
                assert(pages_fit(text@)) by {
                    assert forall|k: int| 0 <= k < text@.len() implies (#[trigger] text@[k] matches Some(l) ==> layer_fits(l)) by {
                        if k > 0 {
                            assert(text@[k] is None);
                        }
                    }
                }
                proof {
                    reveal_strlit("");
                }
                let search = Search::derive("", &[]);
                *self = Session::Ready(ReadyState {
                    source,
                    recents,
                    open_gen: gen,
                    theme,
                    nav,
                    search,
                    text,
                    signatures: d.signatures,
                    signatures_open: false,
                    pages_open: false,
                    overflow_open: false,
                    print_busy: false,
                    print_error: None,
                    selection: None,
                });
                acts.push(SessionAction::SaveRecents(saved));
            },
            Err(e) => {
                let recents = match &e {
                    OpenError::Io(_) => {
                        let path = match &source {
                            OpenSource::Path(p) => p.clone(),
                            OpenSource::Dropped(p) => p.clone(),
                        };
                        drop_recent(merged, &path)
                    },
                    _ => merged,
                };
                let saved = copy_texts(&recents);
                let message = e.message();
                *self = Session::Failed { source, message, recents, gen, theme };
                acts.push(SessionAction::SaveRecents(saved));
            },
        }
        acts
    }
}

fn copy_source(s: &OpenSource) -> (r: OpenSource)
    ensures
        r == *s,
{
    match s {
        OpenSource::Path(p) => OpenSource::Path(p.clone()),
        OpenSource::Dropped(p) => OpenSource::Dropped(p.clone()),
    }
}

/// A copy of a list of paths.
fn copy_texts(v: &Vec<String>) -> (r: Vec<String>)
    ensures
        r@ == v@,
{
    let mut out: Vec<String> = Vec::new();
    let mut i: usize = 0;
    while i < v.len()
        invariant
            i <= v@.len(),
            out@ == v@.take(i as int),
        decreases v@.len() - i,
    {
        out.push(v[i].clone());
        assert(out@ =~= v@.take(i + 1));
        i = i + 1;
    }
    assert(v@.take(i as int) =~= v@);
    out
}


/// `s` with its theme set to `t` (an open document's menu closes too).
pub open spec fn with_theme(s: Session, t: Theme) -> Session {
    match s {
        Session::Empty(e) => Session::Empty(EmptyState { theme: t, ..e }),
        Session::Loading { source, recents, gen, .. } => Session::Loading { source, recents, gen, theme: t },
        Session::Ready(r) => Session::Ready(ReadyState { theme: t, overflow_open: false, ..r }),
        Session::Failed { source, message, recents, gen, .. } => Session::Failed {
            source,
            message,
            recents,
            gen,
            theme: t,
        },
    }
}

/// `new` is the empty window that a closed document leaves: nothing
/// browsed yet, the recents, theme and generation kept.
pub open spec fn closed_from(old: Session, new: Session) -> bool {
    match new {
        Session::Empty(e) => {
            &&& e.cwd is None
            &&& e.listing@.len() == 0
            &&& e.listing_error is None
            &&& texts(e.recents@) == recents_of(old)
            &&& e.open_gen == gen_of(old)
            &&& e.theme == theme_of(old)
        },
        _ => false,
    }
}

/// `new` is the empty window `e` whose listing failed with `m`: no entry
/// listed, the error shown.
pub open spec fn listing_failed(new: Session, e: EmptyState, m: String) -> bool {
    match new {
        Session::Empty(f) => f == EmptyState { listing: f.listing, listing_error: Some(m), ..e }
            && f.listing@.len() == 0,
        _ => false,
    }
}

/// The only action is `a`.
pub open spec fn one_action(acts: Seq<SessionAction>, a: SessionAction) -> bool {
    acts.len() == 1 && acts[0] == a
}

impl Session {
    fn take_theme_and_gen(&self) -> (r: (Theme, u64))
        ensures
            r.0 == theme_of(*self),
            r.1 == gen_of(*self),
    {
        (self.theme(), self.open_gen())
    }

    /// Closes the document (or the failed attempt) and shows the empty
    /// window.
    pub fn close_document(&mut self) -> (acts: Vec<SessionAction>)
        ensures
            final(self).wf(),
            close_document_post(*old(self), *final(self), acts@),
    {
        let (theme, open_gen) = self.take_theme_and_gen();
        let recents = self.take_recents();
        *self = Session::Empty(EmptyState {
            cwd: None,
            listing: Vec::new(),
            listing_error: None,
            recents,
            open_gen,
            theme,
        });
        let mut acts = Vec::new();
        acts.push(SessionAction::LoadEmptyWindow);
        acts
    }

    /// Sets the theme and asks to save it.
    pub fn set_theme(&mut self, theme: Theme) -> (acts: Vec<SessionAction>)
        requires
            old(self).wf(),
        ensures
            final(self).wf(),
            set_theme_post(*old(self), *final(self), theme, acts@),
    {
        match self {
            Session::Empty(e) => e.theme = theme,
            Session::Loading { theme: t, .. } => *t = theme,
            Session::Ready(r) => {
                r.theme = theme;
                r.overflow_open = false;
            },
            Session::Failed { theme: t, .. } => *t = theme,
        }
        let mut acts = Vec::new();
        acts.push(SessionAction::SaveTheme(theme));
        acts
    }

    /// Browses a folder of the empty window (none: the special folders).
    pub fn browse_to(&mut self, path: Option<String>) -> (acts: Vec<SessionAction>)
        requires
            old(self).wf(),
        ensures
            final(self).wf(),
            browse_to_post(*old(self), *final(self), path, acts@),
    {
        let mut acts = Vec::new();
        if let Session::Empty(e) = self {
            let asked = match &path {
                Some(p) => Some(p.clone()),
                None => None,
            };
            e.cwd = path;
            e.listing_error = None;
            acts.push(SessionAction::ListPath(asked));
        }
        acts
    }

    /// Takes a folder listing, if it is of the folder still browsed.
    pub fn listing_ready(&mut self, path: Option<String>, result: Result<Vec<FsEntry>, String>)
        requires
            old(self).wf(),
        ensures
            final(self).wf(),
            listing_ready_post(*old(self), *final(self), path, result),
    {
        if let Session::Empty(e) = self {
            if same_place(&e.cwd, &path) {
                match result {
                    Ok(l) => {
                        e.listing = l;
                        e.listing_error = None;
                    },
                    Err(m) => {
                        e.listing = Vec::new();
                        e.listing_error = Some(m);
                    },
                }
            }
        }
    }

    /// Takes the recents read from disk, while nothing is open.
    pub fn recents_ready(&mut self, recents: Vec<String>)
        requires
            old(self).wf(),
        ensures
            final(self).wf(),
            recents_ready_post(*old(self), *final(self), recents),
    {
        match self {
            Session::Empty(e) => e.recents = recents,
            Session::Loading { recents: slot, .. } => *slot = recents,
            _ => {},
        }
    }

    /// Opens a file dropped on the window or picked among the recents; a
    /// file that is not a PDF changes nothing.
    pub fn open_if_pdf(&mut self, source: OpenSource) -> (acts: Vec<SessionAction>)
        requires
            old(self).wf(),
        ensures
            final(self).wf(),
            open_if_pdf_post(*old(self), *final(self), source, acts@),
    {
        let pdf = match &source {
            OpenSource::Path(p) => is_pdf(p.as_str()),
            OpenSource::Dropped(p) => is_pdf(p.as_str()),
        };
        let mut acts = Vec::new();
        if pdf {
            acts.push(self.begin_open(source));
        }
        acts
    }
}

/// The text of a browsed place.
pub open spec fn place_of(p: Option<String>) -> Option<Seq<char>> {
    match p {
        Some(s) => Some(s@),
        None => None,
    }
}

/// Whether two browsed places are the same.
fn same_place(a: &Option<String>, b: &Option<String>) -> (r: bool)
    ensures
        r == (place_of(*a) == place_of(*b)),
{
    match (a, b) {
        (None, None) => true,
        (Some(x), Some(y)) => *x == *y,
        _ => false,
    }
}


/// `new` is the open document `r` with only its navigation changed, as a
/// navigation command changes it.
pub open spec fn navigated(r: ReadyState, new: Session, cmd: NavCmd) -> bool {
    match new {
        Session::Ready(n) => {
            &&& n == ReadyState { nav: n.nav, ..r }
            &&& r.nav.total == 0 ==> resynced(r.nav, n.nav)
            &&& r.nav.total > 0 ==> moved_to(r.nav, n.nav, cmd_page(cmd, r.nav.visible.idx, r.nav.total))
        },
        _ => false,
    }
}

/// `new` is the open document `r` once the page box's draft is submitted.
pub open spec fn submitted(r: ReadyState, new: Session) -> bool {
    match new {
        Session::Ready(n) => {
            &&& n == ReadyState { nav: n.nav, ..r }
            &&& match draft_page(r.nav.page_input@) {
                Some(p) => if r.nav.total == 0 {
                    resynced(r.nav, n.nav)
                } else {
                    moved_to(r.nav, n.nav, p)
                },
                None => resynced(r.nav, n.nav),
            }
        },
        _ => false,
    }
}

/// `new` is the open document `r` searching `q`: the hits of the loaded
/// pages, and the first hit's page shown.
pub open spec fn searched(r: ReadyState, new: Session, q: Seq<char>) -> bool {
    match new {
        Session::Ready(n) => {
            &&& n == ReadyState { nav: n.nav, search: n.search, ..r }
            &&& n.search.spec_query() == q
            &&& (q.len() == 0 ==> n.search.spec_hits().len() == 0)
            &&& (q.len() > 0 ==> n.search.spec_hits() == sorted_hits(all_page_hits(q, r.text@)))
            &&& if n.search.spec_hits().len() > 0 {
                moved_to(r.nav, n.nav, n.search.spec_hits()[0].page.idx)
            } else {
                n.nav == r.nav
            }
        },
        _ => false,
    }
}

/// `new` is the open document `r` once the text of page `page` loaded:
/// its slot holds the text, and a running search takes the page's hits.
pub open spec fn page_loaded(r: ReadyState, new: Session, i: u32, layer: TextLayer) -> bool {
    match new {
        Session::Ready(n) => {
            &&& n == ReadyState { search: n.search, text: n.text, ..r }
            &&& n.text@ == r.text@.update(i as int, Some(layer))
            &&& n.search.spec_query() == r.search.spec_query()
            &&& (r.search.spec_query().len() == 0 ==> n.search.spec_hits() == r.search.spec_hits())
            &&& (r.search.spec_query().len() > 0 ==> n.search.spec_hits() == spec_extend(
                r.search.spec_hits(),
                r.search.spec_query(),
                layer,
            ))
        },
        _ => false,
    }
}

impl Session {
    /// Carries out a navigation command on the open document.
    pub fn nav(&mut self, cmd: NavCmd)
        requires
            old(self).wf(),
        ensures
            final(self).wf(),
            nav_post(*old(self), *final(self), cmd),
    {
        if let Session::Ready(r) = self {
            r.nav.apply_nav(cmd);
        }
    }

    /// Takes a new draft of the page box.
    pub fn page_input(&mut self, draft: String)
        requires
            old(self).wf(),
        ensures
            final(self).wf(),
            page_input_post(*old(self), *final(self), draft),
    {
        if let Session::Ready(r) = self {
            r.nav.page_input = draft;
        }
    }

    /// Goes to the page typed in the page box.
    pub fn page_submit(&mut self)
        requires
            old(self).wf(),
        ensures
            final(self).wf(),
            page_submit_post(*old(self), *final(self)),
    {
        if let Session::Ready(r) = self {
            r.nav.submit_page_input();
        }
    }

    /// Searches the loaded pages and shows the first hit's page.
    pub fn search_changed(&mut self, query: String)
        requires
            old(self).wf(),
        ensures
            final(self).wf(),
            search_changed_post(*old(self), *final(self), query),
    {
        if let Session::Ready(r) = self {
            r.set_query(query);
            if r.search.hits().len() > 0 {
                let page = r.search.hits()[0].page;
                r.nav.navigate_to(page);
            }
        }
    }

    /// Takes the text of a page that loaded for the open document; an
    /// answer for another document, a failure, or a page past the end
    /// changes nothing here.
    pub fn page_data(&mut self, page: PageNo, doc_gen: u64, result: Result<TextLayer, String>)
        requires
            old(self).wf(),
            result matches Ok(l) ==> layer_fits(l),
        ensures
            final(self).wf(),
            page_data_post(*old(self), *final(self), page, doc_gen, result),
    {
        if let Session::Ready(r) = self {
            if doc_gen != r.open_gen {
                return;
            }
            if let Ok(layer) = result {
                let i = page.idx;
                if i < r.nav.total {
                    if !r.search.query().is_empty() {
                        r.search.extend_page(&layer);
                    }
                    let ghost before = r.text@;
                    r.text.set(i as usize, Some(layer));
                    assert(pages_fit(r.text@)) by {
                        assert forall|k: int| 0 <= k < r.text@.len() implies (#[trigger] r.text@[k] matches Some(l) ==> layer_fits(l)) by {
                            if k != i {
                                assert(r.text@[k] == before[k]);
                            }
                        }
                    }
                }
            }
        }
    }
}


impl Session {
    /// Opens or closes the signatures panel.
    pub fn toggle_signatures(&mut self)
        requires
            old(self).wf(),
        ensures
            final(self).wf(),
            toggle_signatures_post(*old(self), *final(self)),
    {
        if let Session::Ready(r) = self {
            r.signatures_open = !r.signatures_open;
        }
    }

    /// Opens or closes the pages panel.
    pub fn toggle_pages(&mut self)
        requires
            old(self).wf(),
        ensures
            final(self).wf(),
            toggle_pages_post(*old(self), *final(self)),
    {
        if let Session::Ready(r) = self {
            r.pages_open = !r.pages_open;
        }
    }

    /// Opens or closes the overflow menu.
    pub fn toggle_overflow(&mut self)
        requires
            old(self).wf(),
        ensures
            final(self).wf(),
            toggle_overflow_post(*old(self), *final(self)),
    {
        if let Session::Ready(r) = self {
            r.overflow_open = !r.overflow_open;
        }
    }

    /// Starts printing the open document, unless a print job runs: the menu
    /// closes, the last error clears, and the job is marked busy.
    pub fn print(&mut self) -> (acts: Vec<SessionAction>)
        requires
            old(self).wf(),
        ensures
            final(self).wf(),
            print_post(*old(self), *final(self), acts@),
    {
        let mut acts = Vec::new();
        if let Session::Ready(r) = self {
            if r.print_busy {
                return acts;
            }
            r.overflow_open = false;
            r.print_error = None;
            r.print_busy = true;
            acts.push(SessionAction::PrintDocument { doc_gen: r.open_gen });
        }
        acts
    }

    /// Ends the print job of the open document: its error, if any, shows.
    /// An answer for another document changes nothing.
    pub fn print_finished(&mut self, doc_gen: u64, result: Result<(), String>)
        requires
            old(self).wf(),
        ensures
            final(self).wf(),
            print_finished_post(*old(self), *final(self), doc_gen, result),
    {
        if let Session::Ready(r) = self {
            if doc_gen == r.open_gen {
                r.print_error = match result {
                    Ok(_) => None,
                    Err(m) => Some(m),
                };
                r.print_busy = false;
            }
        }
    }
}

/// What `Session::apply_open` does.
pub open spec fn apply_open_post(
    old: Session,
    new: Session,
    gen: u64,
    result: Result<OpenedDoc, OpenError>,
    disk: Vec<String>,
    acts: Seq<SessionAction>,
) -> bool {
    &&& match old {
        Session::Loading { source, gen: g, theme, .. } => if g == gen {
            let merged = merged_recents(recents_of(old), texts(disk@));
            let path = source_path(source);
            match result {
                Ok(d) => {
                    let recents = capped(seq![path] + without(merged, path));
                    opened_as(new, source, gen, theme, recents, d) && saves(acts, recents)
                },
                Err(e) => {
                    let recents = if e is Io {
                        without(merged, path)
                    } else {
                        merged
                    };
                    failed_as(new, source, gen, theme, recents, e) && saves(acts, recents)
                },
            }
        } else {
            new == old && acts.len() == 0
        },
        _ => new == old && acts.len() == 0,
    }
}

/// What `Session::close_document` does.
pub open spec fn close_document_post(
    old: Session,
    new: Session,
    acts: Seq<SessionAction>,
) -> bool {
    &&& closed_from(old, new)
    &&& one_action(acts, SessionAction::LoadEmptyWindow)
}

/// What `Session::set_theme` does.
pub open spec fn set_theme_post(
    old: Session,
    new: Session,
    theme: Theme,
    acts: Seq<SessionAction>,
) -> bool {
    &&& new == with_theme(old, theme)
    &&& one_action(acts, SessionAction::SaveTheme(theme))
}

/// What `Session::browse_to` does.
pub open spec fn browse_to_post(
    old: Session,
    new: Session,
    path: Option<String>,
    acts: Seq<SessionAction>,
) -> bool {
    &&& match old {
        Session::Empty(e) => new == Session::Empty(
            EmptyState { cwd: path, listing_error: None, ..e },
        ) && one_action(acts, SessionAction::ListPath(path)),
        _ => new == old && acts.len() == 0,
    }
}

/// What `Session::listing_ready` does.
pub open spec fn listing_ready_post(
    old: Session,
    new: Session,
    path: Option<String>,
    result: Result<Vec<FsEntry>, String>,
) -> bool {
    &&& match old {
        Session::Empty(e) => if place_of(e.cwd) == place_of(path) {
            match result {
                Ok(l) => new == Session::Empty(
                    EmptyState { listing: l, listing_error: None, ..e },
                ),
                Err(m) => listing_failed(new, e, m),
            }
        } else {
            new == old
        },
        _ => new == old,
    }
}

/// What `Session::recents_ready` does.
pub open spec fn recents_ready_post(
    old: Session,
    new: Session,
    recents: Vec<String>,
) -> bool {
    &&& match old {
        Session::Empty(e) => new == Session::Empty(EmptyState { recents, ..e }),
        Session::Loading { source, gen, theme, .. } => new == Session::Loading {
            source,
            recents,
            gen,
            theme,
        },
        _ => new == old,
    }
}

/// What `Session::open_if_pdf` does.
pub open spec fn open_if_pdf_post(
    old: Session,
    new: Session,
    source: OpenSource,
    acts: Seq<SessionAction>,
) -> bool {
    &&& !spec_is_pdf(source_path(source)) ==> new == old && acts.len() == 0
    &&& spec_is_pdf(source_path(source)) ==> begun(old, new, source)
        && acts.len() == 1 && acts[0] == (SessionAction::Open {
        source,
        gen: next_gen(gen_of(old)),
    })
}

/// What `Session::nav` does.
pub open spec fn nav_post(
    old: Session,
    new: Session,
    cmd: NavCmd,
) -> bool {
    &&& match old {
        Session::Ready(r) => navigated(r, new, cmd),
        _ => new == old,
    }
}

/// What `Session::page_input` does.
pub open spec fn page_input_post(
    old: Session,
    new: Session,
    draft: String,
) -> bool {
    &&& match old {
        Session::Ready(r) => new == Session::Ready(
            ReadyState { nav: PageNav { page_input: draft, ..r.nav }, ..r },
        ),
        _ => new == old,
    }
}

/// What `Session::page_submit` does.
pub open spec fn page_submit_post(
    old: Session,
    new: Session,
) -> bool {
    &&& match old {
        Session::Ready(r) => submitted(r, new),
        _ => new == old,
    }
}

/// What `Session::search_changed` does.
pub open spec fn search_changed_post(
    old: Session,
    new: Session,
    query: String,
) -> bool {
    &&& match old {
        Session::Ready(r) => searched(r, new, query@),
        _ => new == old,
    }
}

/// What `Session::page_data` does.
pub open spec fn page_data_post(
    old: Session,
    new: Session,
    page: PageNo,
    doc_gen: u64,
    result: Result<TextLayer, String>,
) -> bool {
    &&& match old {
        Session::Ready(r) => if doc_gen == r.open_gen && result is Ok && page.idx
            < r.nav.total {
            page_loaded(r, new, page.idx, result->Ok_0)
        } else {
            new == old
        },
        _ => new == old,
    }
}

/// What `Session::toggle_signatures` does.
pub open spec fn toggle_signatures_post(
    old: Session,
    new: Session,
) -> bool {
    &&& match old {
        Session::Ready(r) => new == Session::Ready(
            ReadyState { signatures_open: !r.signatures_open, ..r },
        ),
        _ => new == old,
    }
}

/// What `Session::toggle_pages` does.
pub open spec fn toggle_pages_post(
    old: Session,
    new: Session,
) -> bool {
    &&& match old {
        Session::Ready(r) => new == Session::Ready(
            ReadyState { pages_open: !r.pages_open, ..r },
        ),
        _ => new == old,
    }
}

/// What `Session::toggle_overflow` does.
pub open spec fn toggle_overflow_post(
    old: Session,
    new: Session,
) -> bool {
    &&& match old {
        Session::Ready(r) => new == Session::Ready(
            ReadyState { overflow_open: !r.overflow_open, ..r },
        ),
        _ => new == old,
    }
}

/// What `Session::print` does.
pub open spec fn print_post(
    old: Session,
    new: Session,
    acts: Seq<SessionAction>,
) -> bool {
    &&& match old {
        Session::Ready(r) => if r.print_busy {
            new == old && acts.len() == 0
        } else {
            new == Session::Ready(
                ReadyState { overflow_open: false, print_error: None, print_busy: true, ..r },
            ) && one_action(acts, SessionAction::PrintDocument { doc_gen: r.open_gen })
        },
        _ => new == old && acts.len() == 0,
    }
}

/// What `Session::print_finished` does.
pub open spec fn print_finished_post(
    old: Session,
    new: Session,
    doc_gen: u64,
    result: Result<(), String>,
) -> bool {
    &&& match old {
        Session::Ready(r) => if doc_gen == r.open_gen {
            new == Session::Ready(
                ReadyState {
                    print_busy: false,
                    print_error: match result {
                        Ok(_) => None,
                        Err(m) => Some(m),
                    },
                    ..r
                },
            )
        } else {
            new == old
        },
        _ => new == old,
    }
}

/// What `Session::zoom_changed` does.
pub open spec fn zoom_changed_post(old: Session, new: Session) -> bool {
    match old {
        Session::Ready(r) => new == Session::Ready(
            ReadyState {
                overflow_open: false,
                nav: PageNav { render_gen: crate::session::spec_bump(r.nav.render_gen), ..r.nav },
                ..r
            },
        ),
        _ => new == old,
    }
}

/// What `Session::viewport_changed` does.
pub open spec fn viewport_changed_post(old: Session, new: Session) -> bool {
    match old {
        Session::Ready(r) => new == Session::Ready(
            ReadyState {
                nav: PageNav { render_gen: crate::session::spec_bump(r.nav.render_gen), ..r.nav },
                ..r
            },
        ),
        _ => new == old,
    }
}

impl Session {
    /// The zoom changed: the menu closes and the renders start over.
    pub fn zoom_changed(&mut self)
        requires
            old(self).wf(),
        ensures
            final(self).wf(),
            zoom_changed_post(*old(self), *final(self)),
    {
        if let Session::Ready(r) = self {
            r.overflow_open = false;
            r.nav.bump_render_gen();
        }
    }

    /// The viewport changed: the renders start over.
    pub fn viewport_changed(&mut self)
        requires
            old(self).wf(),
        ensures
            final(self).wf(),
            viewport_changed_post(*old(self), *final(self)),
    {
        if let Session::Ready(r) = self {
            r.nav.bump_render_gen();
        }
    }
}

/// The text of a page of the open document, if it is loaded.
pub open spec fn page_layer(r: ReadyState, page: PageNo) -> Option<TextLayer> {
    if page.idx < r.text@.len() {
        r.text@[page.idx as int]
    } else {
        None
    }
}

/// The byte range of glyph `g` of a page's text; `(0, 0)` past the last
/// glyph.
pub open spec fn glyph_range(l: TextLayer, g: usize) -> (int, int) {
    if g < l.cluster_lens@.len() {
        (glyph_off(l.cluster_lens@, g as int), glyph_off(l.cluster_lens@, g + 1))
    } else {
        (0, 0)
    }
}

/// The selection of the byte range `(s, e)` of page `page`.
pub open spec fn selection_of(page: PageNo, s: int, e: int) -> Selection {
    Selection { page, range: TextRange { start: s as usize, end: e as usize } }
}

/// What a press does: on a glyph of a loaded page of the open document,
/// the selection becomes that glyph; else nothing changes.
pub open spec fn pointer_down_post(old: Session, new: Session, page: PageNo, glyph: Option<usize>) -> bool {
    match old {
        Session::Ready(r) => if page_layer(r, page) is Some && glyph is Some {
            let g = glyph_range(page_layer(r, page)->0, glyph->0);
            new == Session::Ready(ReadyState { selection: Some(selection_of(page, g.0, g.1)), ..r })
        } else {
            new == old
        },
        _ => new == old,
    }
}

/// What a move does: over a glyph of the page of the selection, the
/// selection grows to cover that glyph too; else nothing changes.
pub open spec fn pointer_move_post(old: Session, new: Session, page: PageNo, glyph: Option<usize>) -> bool {
    match old {
        Session::Ready(r) => match r.selection {
            Some(sel) => if sel.page == page && page_layer(r, page) is Some && glyph is Some {
                let g = glyph_range(page_layer(r, page)->0, glyph->0);
                let s = if g.0 < sel.range.start {
                    g.0
                } else {
                    sel.range.start as int
                };
                let e = if g.1 > sel.range.end {
                    g.1
                } else {
                    sel.range.end as int
                };
                new == Session::Ready(ReadyState { selection: Some(selection_of(page, s, e)), ..r })
            } else {
                new == old
            },
            None => new == old,
        },
        _ => new == old,
    }
}

/// The selected text of the open document: the characters of the
/// selection's range on its page, when the page is loaded and they are not
/// none.
pub open spec fn selected_text(r: ReadyState) -> Option<Seq<char>> {
    match r.selection {
        Some(sel) => match page_layer(r, sel.page) {
            Some(l) => {
                let t = chars_within(l.plain@, sel.range.start as int, sel.range.end as int);
                if t.len() > 0 {
                    Some(t)
                } else {
                    None
                }
            },
            None => None,
        },
        None => None,
    }
}

/// What copying does: the menu closes, and the selected text, if any, goes
/// to the clipboard.
pub open spec fn copy_selection_post(old: Session, new: Session, acts: Seq<SessionAction>) -> bool {
    match old {
        Session::Ready(r) => {
            &&& new == Session::Ready(ReadyState { overflow_open: false, ..r })
            &&& match selected_text(r) {
                Some(t) => acts.len() == 1 && (acts[0] matches SessionAction::CopyText(s) && s@ == t),
                None => acts.len() == 0,
            }
        },
        _ => new == old && acts.len() == 0,
    }
}

impl ReadyState {
    /// The selected text, if any: see `selected_text`.
    pub fn selection_plain_text(&self) -> (r: Option<String>)
        ensures
            r matches Some(s) ==> selected_text(*self) == Some(s@),
            r is None ==> selected_text(*self) is None,
    {
        let sel = match self.selection {
            Some(sel) => sel,
            None => return None,
        };
        let i = sel.page.idx as usize;
        if i >= self.text.len() {
            return None;
        }
        match &self.text[i] {
            Some(layer) => {
                let t = text_slice(layer.plain.as_str(), sel.range.start, sel.range.end);
                if t.as_str().is_empty() {
                    None
                } else {
                    Some(t)
                }
            },
            None => None,
        }
    }
}

impl Session {
    /// The pointer went down: see `pointer_down_post`.
    pub fn pointer_down(&mut self, page: PageNo, glyph: Option<usize>)
        requires
            old(self).wf(),
        ensures
            final(self).wf(),
            pointer_down_post(*old(self), *final(self), page, glyph),
    {
        if let Session::Ready(r) = self {
            let i = page.idx as usize;
            if i < r.text.len() {
                if let Some(layer) = &r.text[i] {
                    if let Some(g) = glyph {
                        let range = glyph_byte_range(layer, g);
                        r.selection = Some(Selection { page, range: TextRange { start: range.0, end: range.1 } });
                    }
                }
            }
        }
    }

    /// The pointer moved: see `pointer_move_post`.
    pub fn pointer_move(&mut self, page: PageNo, glyph: Option<usize>)
        requires
            old(self).wf(),
        ensures
            final(self).wf(),
            pointer_move_post(*old(self), *final(self), page, glyph),
    {
        if let Session::Ready(r) = self {
            if let Some(sel) = r.selection {
                if sel.page.idx == page.idx {
                    let i = page.idx as usize;
                    if i < r.text.len() {
                        if let Some(layer) = &r.text[i] {
                            if let Some(g) = glyph {
                                let range = glyph_byte_range(layer, g);
                                let start = if range.0 < sel.range.start {
                                    range.0
                                } else {
                                    sel.range.start
                                };
                                let end = if range.1 > sel.range.end {
                                    range.1
                                } else {
                                    sel.range.end
                                };
                                r.selection = Some(Selection { page, range: TextRange { start, end } });
                            }
                        }
                    }
                }
            }
        }
    }

    /// Copies the selected text: see `copy_selection_post`.
    pub fn copy_selection(&mut self) -> (acts: Vec<SessionAction>)
        requires
            old(self).wf(),
        ensures
            final(self).wf(),
            copy_selection_post(*old(self), *final(self), acts@),
    {
        let mut acts = Vec::new();
        if let Session::Ready(r) = self {
            r.overflow_open = false;
            if let Some(t) = r.selection_plain_text() {
                acts.push(SessionAction::CopyText(t));
            }
        }
        acts
    }
}

/// The text an event carries fits in memory's offsets.
pub open spec fn event_ok(e: SessionEvent) -> bool {
    match e {
        SessionEvent::Opened { result: Ok(d), .. } => d.first_text matches Some(l) ==> layer_fits(l),
        SessionEvent::PageData { result: Ok(l), .. } => layer_fits(l),
        _ => true,
    }
}

/// What the session does with an event, and what it asks of the outside
/// world.
pub open spec fn update_post(old: Session, new: Session, e: SessionEvent, acts: Seq<SessionAction>) -> bool {
    match e {
        SessionEvent::Picked(None) => new == old && acts.len() == 0,
        SessionEvent::Picked(Some(p)) => begun(old, new, OpenSource::Path(p)) && one_action(
            acts,
            SessionAction::Open { source: OpenSource::Path(p), gen: next_gen(gen_of(old)) },
        ),
        SessionEvent::FileDropped(p) => open_if_pdf_post(old, new, OpenSource::Dropped(p), acts),
        SessionEvent::OpenRecent(p) => open_if_pdf_post(old, new, OpenSource::Path(p), acts),
        SessionEvent::Opened { gen, result, disk_recents } => apply_open_post(
            old,
            new,
            gen,
            result,
            disk_recents,
            acts,
        ),
        SessionEvent::Close => close_document_post(old, new, acts),
        SessionEvent::SetTheme(t) => set_theme_post(old, new, t, acts),
        SessionEvent::BrowseTo(p) => browse_to_post(old, new, p, acts),
        SessionEvent::ListingReady { path, result } => listing_ready_post(old, new, path, result)
            && acts.len() == 0,
        SessionEvent::RecentsReady(r) => recents_ready_post(old, new, r) && acts.len() == 0,
        SessionEvent::Nav(cmd) => nav_post(old, new, cmd) && acts.len() == 0,
        SessionEvent::PageInput(d) => page_input_post(old, new, d) && acts.len() == 0,
        SessionEvent::PageSubmit => page_submit_post(old, new) && acts.len() == 0,
        SessionEvent::SearchChanged(q) => search_changed_post(old, new, q) && acts.len() == 0,
        SessionEvent::PageData { page, doc_gen, result } => page_data_post(
            old,
            new,
            page,
            doc_gen,
            result,
        ) && acts.len() == 0,
        SessionEvent::PointerDown { page, glyph } => pointer_down_post(old, new, page, glyph) && acts.len()
            == 0,
        SessionEvent::PointerMove { page, glyph } => pointer_move_post(old, new, page, glyph) && acts.len()
            == 0,
        SessionEvent::PointerUp => new == old && acts.len() == 0,
        SessionEvent::CopySelection => copy_selection_post(old, new, acts),
        SessionEvent::ToggleSignatures => toggle_signatures_post(old, new) && acts.len() == 0,
        SessionEvent::TogglePages => toggle_pages_post(old, new) && acts.len() == 0,
        SessionEvent::ToggleOverflow => toggle_overflow_post(old, new) && acts.len() == 0,
        SessionEvent::ZoomChanged => zoom_changed_post(old, new) && acts.len() == 0,
        SessionEvent::ViewportChanged => viewport_changed_post(old, new) && acts.len() == 0,
        SessionEvent::Print => print_post(old, new, acts),
        SessionEvent::PrintFinished { doc_gen, result } => print_finished_post(
            old,
            new,
            doc_gen,
            result,
        ) && acts.len() == 0,
    }
}

impl Session {
    /// Handles an event: the next state, and what to ask of the outside
    /// world.
    pub fn update(&mut self, event: SessionEvent) -> (acts: Vec<SessionAction>)
        requires
            old(self).wf(),
            event_ok(event),
        ensures
            final(self).wf(),
            update_post(*old(self), *final(self), event, acts@),
    {
        match event {
            SessionEvent::Picked(None) => Vec::new(),
            SessionEvent::Picked(Some(p)) => {
                let mut acts = Vec::new();
                acts.push(self.begin_open(OpenSource::Path(p)));
                acts
            },
            SessionEvent::FileDropped(p) => self.open_if_pdf(OpenSource::Dropped(p)),
            SessionEvent::OpenRecent(p) => self.open_if_pdf(OpenSource::Path(p)),
            SessionEvent::Opened { gen, result, disk_recents } => self.apply_open(
                gen,
                result,
                disk_recents,
            ),
            SessionEvent::Close => self.close_document(),
            SessionEvent::SetTheme(t) => self.set_theme(t),
            SessionEvent::BrowseTo(p) => self.browse_to(p),
            SessionEvent::ListingReady { path, result } => {
                self.listing_ready(path, result);
                Vec::new()
            },
            SessionEvent::RecentsReady(r) => {
                self.recents_ready(r);
                Vec::new()
            },
            SessionEvent::Nav(cmd) => {
                self.nav(cmd);
                Vec::new()
            },
            SessionEvent::PageInput(d) => {
                self.page_input(d);
                Vec::new()
            },
            SessionEvent::PageSubmit => {
                self.page_submit();
                Vec::new()
            },
            SessionEvent::SearchChanged(q) => {
                self.search_changed(q);
                Vec::new()
            },
            SessionEvent::PageData { page, doc_gen, result } => {
                self.page_data(page, doc_gen, result);
                Vec::new()
            },
            SessionEvent::PointerDown { page, glyph } => {
                self.pointer_down(page, glyph);
                Vec::new()
            },
            SessionEvent::PointerMove { page, glyph } => {
                self.pointer_move(page, glyph);
                Vec::new()
            },
            SessionEvent::PointerUp => Vec::new(),
            SessionEvent::CopySelection => self.copy_selection(),
            SessionEvent::ToggleSignatures => {
                self.toggle_signatures();
                Vec::new()
            },
            SessionEvent::TogglePages => {
                self.toggle_pages();
                Vec::new()
            },
            SessionEvent::ToggleOverflow => {
                self.toggle_overflow();
                Vec::new()
            },
            SessionEvent::ZoomChanged => {
                self.zoom_changed();
                Vec::new()
            },
            SessionEvent::ViewportChanged => {
                self.viewport_changed();
                Vec::new()
            },
            SessionEvent::Print => self.print(),
            SessionEvent::PrintFinished { doc_gen, result } => {
                self.print_finished(doc_gen, result);
                Vec::new()
            },
        }
    }
}


/// The theme survives every event but `SetTheme`, and the generation only
/// moves to the next one, when a document is asked to open.
pub proof fn law_theme_and_generation(old: Session, new: Session, e: SessionEvent, acts: Seq<SessionAction>)
    requires
        update_post(old, new, e, acts),
    ensures
        !(e is SetTheme) ==> theme_of(new) == theme_of(old),
        e is SetTheme ==> theme_of(new) == e->SetTheme_0,
        gen_of(new) == gen_of(old) || gen_of(new) == next_gen(gen_of(old)),
        gen_of(new) == next_gen(gen_of(old)) && gen_of(new) != gen_of(old) ==> new is Loading,
{
}

/// An answer to an open attempt counts only while that attempt is the one
/// loading: any other answer changes nothing and asks nothing.
pub proof fn law_stale_answer_ignored(
    old: Session,
    new: Session,
    gen: u64,
    result: Result<OpenedDoc, OpenError>,
    disk: Vec<String>,
    acts: Seq<SessionAction>,
)
    requires
        apply_open_post(old, new, gen, result, disk, acts),
        !(old matches Session::Loading { gen: g, .. } && g == gen),
    ensures
        new == old,
        acts.len() == 0,
{
}

/// A document that opens goes first among the recents, which are saved; one
/// that cannot be read leaves them.
pub proof fn law_open_remembers(
    old: Session,
    new: Session,
    gen: u64,
    result: Result<OpenedDoc, OpenError>,
    disk: Vec<String>,
    acts: Seq<SessionAction>,
)
    requires
        apply_open_post(old, new, gen, result, disk, acts),
        old matches Session::Loading { gen: g, .. } && g == gen,
    ensures
        result is Ok ==> new is Ready && recents_of(new).len() >= 1 && recents_of(new)[0]
            == source_path(old->Loading_source),
        result matches Err(OpenError::Io(_)) ==> new is Failed && !recents_of(new).contains(
            source_path(old->Loading_source),
        ),
        acts.len() == 1 && (acts[0] matches SessionAction::SaveRecents(v) && texts(v@) == recents_of(new)),
{
    let path = source_path(old->Loading_source);
    let merged = merged_recents(recents_of(old), texts(disk@));
    crate::browse::law_push_recent(merged, path);
    crate::browse::law_drop_recent(merged, path);
}

} // verus!
