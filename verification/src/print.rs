//! The print job: which pages go, in which orientation, and how the pages
//! and their copies become the objects of the PDF that is printed.

use vstd::prelude::*;
use crate::page::PageNo;
use crate::browse::{last_component, last_index, last_index_of, lemma_last_index_of_range, path_name};
use crate::text::{chars_vec, decimal, push_char, push_decimal, push_str, string_of};

verus! {

/// Highest number of copies that the dialog offers.
pub const MAX_COPIES: u32 = 99;

/// An error of the print job, with its message.
#[derive(Debug, Clone)]
pub struct PrintError(pub String);

impl PrintError {
    /// The message of the error.
    pub fn message(&self) -> (r: String)
        ensures
            r@ == self.0@,
    {
        self.0.clone()
    }
}

fn print_error(text: &str) -> (e: PrintError)
    ensures
        e.0@ == text@,
{
    PrintError(string_of(text))
}

/// The pages that the dialog selects.
#[derive(Debug, Clone, Copy, PartialEq, Eq, Structural)]
pub enum PrintRange {
    All,
    Current(PageNo),
    FromTo { from: PageNo, to: PageNo },
}

impl Default for PrintRange {
    fn default() -> (r: Self)
        ensures
            r == PrintRange::All,
    {
        PrintRange::All
    }
}

/// The orientation that the dialog asks for; `Auto` keeps each page.
#[derive(Debug, Clone, Copy, PartialEq, Eq, Structural)]
pub enum PrintOrientation {
    Auto,
    Portrait,
    Landscape,
}

impl Default for PrintOrientation {
    fn default() -> (r: Self)
        ensures
            r == PrintOrientation::Auto,
    {
        PrintOrientation::Auto
    }
}

/// What the print dialog hands over.
#[derive(Debug, Clone, Copy, PartialEq, Eq, Structural)]
pub struct PrintSelection {
    pub range: PrintRange,
    pub copies: u32,
    pub orientation: PrintOrientation,
}

/// The first and last page index that a range selects in a document of
/// `count` pages, if it selects any.
pub open spec fn range_bounds(range: PrintRange, count: u32) -> Option<(u32, u32)> {
    if count == 0 {
        None
    } else {
        match range {
            PrintRange::All => Some((0u32, (count - 1) as u32)),
            PrintRange::Current(p) => if p.idx < count {
                Some((p.idx, p.idx))
            } else {
                None
            },
            PrintRange::FromTo { from, to } => if from.idx < count && to.idx < count && from.idx
                <= to.idx {
                Some((from.idx, to.idx))
            } else {
                None
            },
        }
    }
}

/// The pages of a range, in order; an error for an empty document or for a
/// range outside it.
pub fn resolve_range(range: PrintRange, page_count: u32) -> (r: Result<Vec<PageNo>, PrintError>)
    ensures
        match range_bounds(range, page_count) {
            Some((first, last)) => r matches Ok(pages) && pages@.len() == last - first + 1
                && forall|i: int| 0 <= i < pages@.len() ==> (#[trigger] pages@[i]).idx == first + i,
            None => r matches Err(e) && e.0@ == (if page_count == 0 {
                "nenhuma página para imprimir"@
            } else {
                "intervalo de páginas inválido"@
            }),
        },
{
    if page_count == 0 {
        return Err(print_error("nenhuma página para imprimir"));
    }
    let (first, last) = match range {
        PrintRange::All => (0u32, page_count - 1),
        PrintRange::Current(p) => {
            if p.index() < page_count {
                (p.index(), p.index())
            } else {
                return Err(print_error("intervalo de páginas inválido"));
            }
        },
        PrintRange::FromTo { from, to } => {
            if from.index() < page_count && to.index() < page_count && from.index() <= to.index() {
                (from.index(), to.index())
            } else {
                return Err(print_error("intervalo de páginas inválido"));
            }
        },
    };
    let mut pages: Vec<PageNo> = Vec::new();
    let mut i: u32 = first;
    while i <= last
        invariant
            first <= last < page_count,
            first <= i <= last + 1,
            pages@.len() == i - first,
            forall|k: int| 0 <= k < pages@.len() ==> (#[trigger] pages@[k]).idx == first + k,
        decreases last + 1 - i,
    {
        pages.push(PageNo::from_index(i));
        i = i + 1;
    }
    Ok(pages)
}

/// A rendered page: `width` by `height` pixels, four bytes each (RGBA),
/// row by row.
#[derive(Debug, Clone)]
pub struct Bitmap {
    pub width: u32,
    pub height: u32,
    pub rgba: Vec<u8>,
}

/// A channel of a pixel over white: as it is when opaque, white when
/// transparent, else blended by its alpha.
pub open spec fn over_white(c: u8, alpha: u8) -> u8 {
    if alpha == 255 {
        c
    } else if alpha == 0 {
        255
    } else {
        ((c * alpha + 255 * (255 - alpha)) / 255) as u8
    }
}

/// The RGB bytes of RGBA pixels laid over white.
pub open spec fn rgb_over_white(rgba: Seq<u8>, pixels: nat) -> Seq<u8> {
    Seq::new(
        pixels * 3,
        |i: int| over_white(rgba[(i / 3) * 4 + i % 3], rgba[(i / 3) * 4 + 3]),
    )
}

fn blend(c: u8, alpha: u8) -> (r: u8)
    ensures
        r == over_white(c, alpha),
{
    if alpha == 255 {
        c
    } else if alpha == 0 {
        255
    } else {
        let a = alpha as u16;
        let inv = 255 - a;
        assert(c * a + 255 * inv <= 255 * 255) by (nonlinear_arith)
            requires
                c <= 255,
                a <= 255,
                inv == 255 - a,
        ;
        assert((c * a + 255 * inv) / 255 <= 255) by (nonlinear_arith)
            requires
                c * a + 255 * inv <= 255 * 255,
        ;
        ((c as u16 * a + 255 * inv) / 255) as u8
    }
}

/// The RGB bytes of a bitmap laid over white; an error when the size
/// overflows or the bytes do not match it.
pub fn rgba_to_rgb(rgba: &[u8], width: u32, height: u32) -> (r: Result<Vec<u8>, PrintError>)
    ensures
        width * height * 4 > usize::MAX ==> (r matches Err(e) && e.0@ == "bitmap grande demais"@),
        width * height * 4 <= usize::MAX && rgba@.len() != width * height * 4 ==> (r matches Err(
            e,
        ) && e.0@ == "bitmap RGBA incompleto"@),
        width * height * 4 <= usize::MAX && rgba@.len() == width * height * 4 ==> (r matches Ok(
            rgb,
        ) && rgb@ == rgb_over_white(rgba@, (width * height) as nat)),
{
    let pixels = match (width as usize).checked_mul(height as usize) {
        Some(p) => p,
        None => {
            assert(width * height * 4 > usize::MAX) by (nonlinear_arith)
                requires
                    width * height > usize::MAX,
            ;
            return Err(print_error("bitmap grande demais"));
        },
    };
    let expected = match pixels.checked_mul(4) {
        Some(e) => e,
        None => return Err(print_error("bitmap grande demais")),
    };
    if rgba.len() != expected {
        return Err(print_error("bitmap RGBA incompleto"));
    }
    let ghost want = rgb_over_white(rgba@, pixels as nat);
    let mut rgb: Vec<u8> = Vec::new();
    let mut p: usize = 0;
    while p < pixels
        invariant
            pixels * 4 <= usize::MAX,
            rgba@.len() == pixels * 4,
            want == rgb_over_white(rgba@, pixels as nat),
            p <= pixels,
            rgb@.len() == p * 3,
            forall|i: int| 0 <= i < rgb@.len() ==> rgb@[i] == want[i],
        decreases pixels - p,
    {
        let base = p * 4;
        let alpha = rgba[base + 3];
        let ghost before = rgb@.len() as int;
        rgb.push(blend(rgba[base], alpha));
        rgb.push(blend(rgba[base + 1], alpha));
        rgb.push(blend(rgba[base + 2], alpha));
        proof {
            assert(before == p * 3);
            assert(before / 3 == p && before % 3 == 0);
            assert((before + 1) / 3 == p && (before + 1) % 3 == 1);
            assert((before + 2) / 3 == p && (before + 2) % 3 == 2);
            assert(p * 4 + 3 < rgba@.len()) by (nonlinear_arith)
                requires
                    p < pixels,
                    rgba@.len() == pixels * 4,
            ;
        }
        p = p + 1;
    }
    assert(rgb@ =~= want);
    Ok(rgb)
}


/// Byte `i` of a `w` by `h` RGBA bitmap turned a quarter clockwise: the
/// turned bitmap is `h` wide, and its pixel at row `y`, column `x` is the
/// source pixel at row `h - 1 - x`, column `y`.
pub open spec fn turned_byte(rgba: Seq<u8>, w: int, h: int, i: int) -> u8 {
    let p = i / 4;
    let y = p / h;
    let x = p % h;
    rgba[((h - 1 - x) * w + y) * 4 + i % 4]
}

/// A `w` by `h` RGBA bitmap turned a quarter clockwise.
pub open spec fn turned(rgba: Seq<u8>, w: int, h: int) -> Seq<u8> {
    Seq::new((w * h * 4) as nat, |i: int| turned_byte(rgba, w, h, i))
}

proof fn lemma_turned_index(w: int, h: int, y: int, x: int, c: int)
    requires
        0 <= y < w,
        0 <= x < h,
        0 <= c < 4,
    ensures
        ((y * h + x) * 4 + c) / 4 == y * h + x,
        ((y * h + x) * 4 + c) % 4 == c,
        (y * h + x) / h == y,
        (y * h + x) % h == x,
        0 <= ((h - 1 - x) * w + y) * 4 + c < w * h * 4,
        0 <= (y * h + x) * 4 + c < w * h * 4,
{
    vstd::arithmetic::div_mod::lemma_fundamental_div_mod_converse(
        (y * h + x) * 4 + c,
        4,
        y * h + x,
        c,
    );
    vstd::arithmetic::div_mod::lemma_fundamental_div_mod_converse(y * h + x, h, y, x);
    assert(0 <= ((h - 1 - x) * w + y) * 4 + c < w * h * 4) by (nonlinear_arith)
        requires
            0 <= y < w,
            0 <= x < h,
            0 <= c < 4,
    ;
    assert(0 <= (y * h + x) * 4 + c < w * h * 4) by (nonlinear_arith)
        requires
            0 <= y < w,
            0 <= x < h,
            0 <= c < 4,
    ;
}

proof fn lemma_turned_at(rgba: Seq<u8>, w: int, h: int, y: int, x: int, c: int)
    requires
        0 <= y < w,
        0 <= x < h,
        0 <= c < 4,
    ensures
        turned(rgba, w, h)[(y * h + x) * 4 + c] == rgba[((h - 1 - x) * w + y) * 4 + c],
{
    lemma_turned_index(w, h, y, x, c);
}

proof fn lemma_pixel_of(i: int, w: int, h: int) -> (r: (int, int, int))
    requires
        w > 0,
        h > 0,
        0 <= i < w * h * 4,
    ensures
        0 <= r.0 < h,
        0 <= r.1 < w,
        0 <= r.2 < 4,
        i == (r.0 * w + r.1) * 4 + r.2,
{
    let p = i / 4;
    let c = i % 4;
    vstd::arithmetic::div_mod::lemma_fundamental_div_mod(i, 4);
    let y = p / w;
    let x = p % w;
    vstd::arithmetic::div_mod::lemma_fundamental_div_mod(p, w);
    vstd::arithmetic::div_mod::lemma_mod_pos_bound(p, w);
    assert(0 <= p < w * h) by (nonlinear_arith)
        requires
            i == 4 * p + c,
            0 <= c < 4,
            0 <= i < w * h * 4,
    ;
    assert(0 <= y < h) by (nonlinear_arith)
        requires
            p == w * y + x,
            0 <= x < w,
            0 <= p < w * h,
            w > 0,
    ;
    assert(i == (y * w + x) * 4 + c) by (nonlinear_arith)
        requires
            i == 4 * p + c,
            p == w * y + x,
    ;
    (y, x, c)
}

/// Four quarter turns give back the bitmap: turning a `w` by `h` bitmap,
/// then the `h` by `w` result, and so on four times, ends where it began.
/// `rotate_rgba_90_cw` gives `turned` with width and height swapped, so four
/// calls give back the bytes, the width and the height.
pub proof fn law_four_quarter_turns(rgba: Seq<u8>, w: int, h: int)
    requires
        w > 0,
        h > 0,
        rgba.len() == w * h * 4,
    ensures
        turned(turned(turned(turned(rgba, w, h), h, w), w, h), h, w) == rgba,
{
    let t1 = turned(rgba, w, h);
    let t2 = turned(t1, h, w);
    let t3 = turned(t2, w, h);
    let t4 = turned(t3, h, w);
    assert(h * w == w * h) by (nonlinear_arith);
    assert forall|i: int| 0 <= i < rgba.len() implies #[trigger] t4[i] == rgba[i] by {
        let (y, x, c) = lemma_pixel_of(i, w, h);
        lemma_turned_at(t3, h, w, y, x, c);
        lemma_turned_at(t2, w, h, w - 1 - x, y, c);
        lemma_turned_at(t1, h, w, h - 1 - y, w - 1 - x, c);
        lemma_turned_at(rgba, w, h, x, h - 1 - y, c);
    }
    assert(t4 =~= rgba);
}

/// Turns an RGBA bitmap a quarter clockwise; gives the bytes and the new
/// width and height. An error when the size overflows, is zero, or does not
/// match the bytes.
pub fn rotate_rgba_90_cw(rgba: &[u8], width: u32, height: u32) -> (r: Result<
    (Vec<u8>, u32, u32),
    PrintError,
>)
    ensures
        width * height * 4 > usize::MAX ==> (r matches Err(e) && e.0@ == "bitmap grande demais"@),
        width * height * 4 <= usize::MAX && (rgba@.len() != width * height * 4 || width == 0
            || height == 0) ==> (r matches Err(e) && e.0@ == "bitmap RGBA incompleto"@),
        width * height * 4 <= usize::MAX && rgba@.len() == width * height * 4 && width > 0
            && height > 0 ==> (r matches Ok((out, w2, h2)) && w2 == height && h2 == width && out@
            == turned(rgba@, width as int, height as int)),
{
    let pixels = match (width as usize).checked_mul(height as usize) {
        Some(p) => p,
        None => {
            assert(width * height * 4 > usize::MAX) by (nonlinear_arith)
                requires
                    width * height > usize::MAX,
            ;
            return Err(print_error("bitmap grande demais"));
        },
    };
    let expected = match pixels.checked_mul(4) {
        Some(e) => e,
        None => return Err(print_error("bitmap grande demais")),
    };
    if rgba.len() != expected || width == 0 || height == 0 {
        return Err(print_error("bitmap RGBA incompleto"));
    }
    let w = width as usize;
    let h = height as usize;
    let ghost want = turned(rgba@, w as int, h as int);
    let mut out: Vec<u8> = Vec::new();
    let mut y: usize = 0;
    while y < w
        invariant
            w > 0 && h > 0,
            w * h * 4 <= usize::MAX,
            rgba@.len() == w * h * 4,
            want == turned(rgba@, w as int, h as int),
            y <= w,
            out@.len() == y * h * 4,
            forall|i: int| 0 <= i < out@.len() ==> out@[i] == want[i],
        decreases w - y,
    {
        let mut x: usize = 0;
        while x < h
            invariant
                w > 0 && h > 0,
                w * h * 4 <= usize::MAX,
                rgba@.len() == w * h * 4,
                want == turned(rgba@, w as int, h as int),
                y < w,
                x <= h,
                out@.len() == (y * h + x) * 4,
                forall|i: int| 0 <= i < out@.len() ==> out@[i] == want[i],
            decreases h - x,
        {
            proof {
                lemma_turned_index(w as int, h as int, y as int, x as int, 0);
                lemma_turned_index(w as int, h as int, y as int, x as int, 1);
                lemma_turned_index(w as int, h as int, y as int, x as int, 2);
                lemma_turned_index(w as int, h as int, y as int, x as int, 3);
            }
            let src = ((h - 1 - x) * w + y) * 4;
            let ghost before = out@.len() as int;
            out.push(rgba[src]);
            out.push(rgba[src + 1]);
            out.push(rgba[src + 2]);
            out.push(rgba[src + 3]);
            proof {
                assert forall|i: int| 0 <= i < out@.len() implies out@[i] == want[i] by {
                    if i >= before {
                        let c = i - before;
                        assert(i == (y * h + x) * 4 + c);
                    }
                }
                assert(out@.len() == (y * h + (x + 1)) * 4) by (nonlinear_arith)
                    requires
                        out@.len() == (y * h + x) * 4 + 4,
                ;
            }
            x = x + 1;
        }
        assert(out@.len() == (y + 1) * h * 4) by (nonlinear_arith)
            requires
                out@.len() == (y * h + h) * 4,
        ;
        y = y + 1;
    }
    assert(out@.len() == w * h * 4);
    assert(out@ =~= want);
    Ok((out, height, width))
}


/// Whether the dialog's orientation turns a page: portrait turns a
/// landscape page, landscape turns a portrait one; `Auto` and square pages
/// stay.
pub open spec fn spec_turns(orientation: PrintOrientation, landscape: bool, portrait: bool) -> bool {
    (orientation == PrintOrientation::Portrait && landscape) || (orientation
        == PrintOrientation::Landscape && portrait)
}

/// The dialog's orientation turns a page exactly when the page lacks it: a
/// portrait page (taller than wide) printed `Landscape` is turned, as is a
/// landscape page (wider than tall) printed `Portrait`; `Auto` keeps every
/// page as it is, and so does an orientation that the page already has, or
/// a square page. `apply_orientation` turns the bitmap and swaps its width
/// and height exactly when `spec_turns` holds.
pub proof fn law_orientation_turns(orientation: PrintOrientation, landscape: bool, portrait: bool)
    ensures
        orientation == PrintOrientation::Landscape && portrait ==> spec_turns(orientation, landscape, portrait),
        orientation == PrintOrientation::Portrait && landscape ==> spec_turns(orientation, landscape, portrait),
        orientation == PrintOrientation::Auto ==> !spec_turns(orientation, landscape, portrait),
        orientation == PrintOrientation::Landscape && !portrait ==> !spec_turns(orientation, landscape, portrait),
        orientation == PrintOrientation::Portrait && !landscape ==> !spec_turns(orientation, landscape, portrait),
{
}

/// Applies the dialog's orientation to a rendered page whose media box is
/// wider than tall (`landscape`) or taller than wide (`portrait`). Gives the
/// bitmap to print and whether it was turned, in which case the media box's
/// sides swap.
pub fn apply_orientation(
    bitmap: &Bitmap,
    landscape: bool,
    portrait: bool,
    orientation: PrintOrientation,
) -> (r: Result<(Bitmap, bool), PrintError>)
    ensures
        !spec_turns(orientation, landscape, portrait) ==> (r matches Ok((b, turned)) && !turned
            && b.width == bitmap.width && b.height == bitmap.height && b.rgba@ == bitmap.rgba@),
        spec_turns(orientation, landscape, portrait) ==> match r {
            Ok((b, t)) => t && bitmap.width * bitmap.height * 4 <= usize::MAX
                && bitmap.rgba@.len() == bitmap.width * bitmap.height * 4 && bitmap.width > 0
                && bitmap.height > 0 && b.width == bitmap.height && b.height == bitmap.width
                && b.rgba@ == turned(bitmap.rgba@, bitmap.width as int, bitmap.height as int),
            Err(_) => !(bitmap.width * bitmap.height * 4 <= usize::MAX && bitmap.rgba@.len()
                == bitmap.width * bitmap.height * 4 && bitmap.width > 0 && bitmap.height > 0),
        },
{
    let rotate = match orientation {
        PrintOrientation::Portrait => landscape,
        PrintOrientation::Landscape => portrait,
        PrintOrientation::Auto => false,
    };
    if !rotate {
        let rgba = bitmap.rgba.clone();
        assert(rgba@ =~= bitmap.rgba@);
        return Ok((Bitmap { width: bitmap.width, height: bitmap.height, rgba }, false));
    }
    match rotate_rgba_90_cw(bitmap.rgba.as_slice(), bitmap.width, bitmap.height) {
        Ok((rgba, width, height)) => Ok((Bitmap { width, height, rgba }, true)),
        Err(e) => Err(e),
    }
}

/// The zlib stream that `miniz_oxide` makes of `data` at a compression
/// level.
pub uninterp spec fn zlib_compressed(data: Seq<u8>, level: u8) -> Seq<u8>;

/// Trusted: `miniz_oxide::deflate::compress_to_vec_zlib`, which compresses
/// the whole input into a zlib stream; its output depends on the input and
/// the level alone, and nothing more is claimed of it here.
#[verifier::external_body]
fn zlib_compress(data: &[u8], level: u8) -> (r: Vec<u8>)
    ensures
        r@ == zlib_compressed(data@, level),
{
    miniz_oxide::deflate::compress_to_vec_zlib(data, level)
}

/// The number of copies that the job prints: the dialog's, kept within
/// `1..=MAX_COPIES`.
pub open spec fn spec_copies(copies: u32) -> int {
    if copies < 1 {
        1
    } else if copies > MAX_COPIES {
        MAX_COPIES as int
    } else {
        copies as int
    }
}

/// An image object of the print PDF: one per page, shared by its copies.
#[derive(Debug)]
pub struct PrintImage {
    pub id: i32,
    pub width: i32,
    pub height: i32,
    /// The page's RGB bytes over white, zlib-compressed.
    pub data: Vec<u8>,
}

/// A printed sheet: its page object, its content stream and the index of
/// the image that it shows.
#[derive(Debug, Clone, Copy)]
pub struct PrintSlot {
    pub page_id: i32,
    pub content_id: i32,
    pub image: usize,
}

/// The objects of the print PDF: the catalog is object 1 and the page tree
/// object 2; the images follow, then the page and content objects of each
/// sheet.
#[derive(Debug)]
pub struct PrintPlan {
    pub copies: usize,
    pub images: Vec<PrintImage>,
    pub slots: Vec<PrintSlot>,
}

/// Why the image of a page cannot be made, if it cannot.
pub open spec fn image_error(b: Bitmap) -> Option<Seq<char>> {
    if b.width * b.height * 4 > usize::MAX {
        Some("bitmap grande demais"@)
    } else if b.rgba@.len() != b.width * b.height * 4 {
        Some("bitmap RGBA incompleto"@)
    } else if b.width > i32::MAX {
        Some("largura de bitmap inválida"@)
    } else if b.height > i32::MAX {
        Some("altura de bitmap inválida"@)
    } else {
        None
    }
}

/// The error of the first page, from `j` on, whose image cannot be made.
pub open spec fn first_image_error(pages: Seq<Bitmap>, j: int) -> Option<Seq<char>>
    decreases pages.len() - j,
{
    if j < 0 || j >= pages.len() {
        None
    } else {
        match image_error(pages[j]) {
            Some(e) => Some(e),
            None => first_image_error(pages, j + 1),
        }
    }
}

/// The object numbers fit in `i32` for every job that gets that far.
pub open spec fn ids_fit(pages: nat, copies: u32) -> bool {
    pages * spec_copies(copies) > i32::MAX || 2 + pages + 2 * (pages * spec_copies(copies))
        <= i32::MAX
}

fn page_image(b: &Bitmap, id: i32) -> (r: Result<PrintImage, PrintError>)
    ensures
        match image_error(*b) {
            Some(e) => r matches Err(err) && err.0@ == e,
            None => r matches Ok(img) && img.id == id && img.width == b.width && img.height
                == b.height && img.data@ == zlib_compressed(
                rgb_over_white(b.rgba@, (b.width * b.height) as nat),
                6,
            ),
        },
{
    let rgb = match rgba_to_rgb(b.rgba.as_slice(), b.width, b.height) {
        Ok(v) => v,
        Err(e) => return Err(e),
    };
    let data = zlib_compress(rgb.as_slice(), 6);
    if b.width > 2147483647u32 {
        return Err(print_error("largura de bitmap inválida"));
    }
    if b.height > 2147483647u32 {
        return Err(print_error("altura de bitmap inválida"));
    }
    Ok(PrintImage { id, width: b.width as i32, height: b.height as i32, data })
}

/// The plan of the print PDF for the rendered pages and the dialog's
/// copies: each page becomes one image; each copy of each page a sheet
/// that shows it, the copies of a page side by side.
pub fn print_plan(pages: &[Bitmap], copies: u32) -> (r: Result<PrintPlan, PrintError>)
    requires
        ids_fit(pages@.len(), copies),
    ensures
        pages@.len() == 0 ==> (r matches Err(e) && e.0@ == "nenhuma página para imprimir"@),
        pages@.len() > 0 && pages@.len() * spec_copies(copies) > i32::MAX ==> (r matches Err(e)
            && e.0@ == "documento grande demais para imprimir"@),
        pages@.len() > 0 && pages@.len() * spec_copies(copies) <= i32::MAX ==> match first_image_error(pages@, 0) {
            Some(m) => r matches Err(e) && e.0@ == m,
            None => r matches Ok(plan) && plan.copies == spec_copies(copies)
                && plan.images@.len() == pages@.len()
                && (forall|i: int| 0 <= i < pages@.len() ==> {
                    let img = #[trigger] plan.images@[i];
                    &&& img.id == 3 + i
                    &&& img.width == pages@[i].width
                    &&& img.height == pages@[i].height
                    &&& img.data@ == zlib_compressed(
                        rgb_over_white(pages@[i].rgba@, (pages@[i].width * pages@[i].height) as nat),
                        6,
                    )
                })
                && plan.slots@.len() == pages@.len() * spec_copies(copies)
                && forall|s: int| 0 <= s < plan.slots@.len() ==> {
                    let slot = #[trigger] plan.slots@[s];
                    &&& slot.page_id == 3 + pages@.len() + 2 * s
                    &&& slot.content_id == 4 + pages@.len() + 2 * s
                    &&& slot.image == s / spec_copies(copies)
                },
        },
{
    let n = pages.len();
    if n == 0 {
        return Err(print_error("nenhuma página para imprimir"));
    }
    let per_page: usize = if copies < 1 {
        1
    } else if copies > MAX_COPIES {
        MAX_COPIES as usize
    } else {
        copies as usize
    };
    assert(per_page == spec_copies(copies));
    let total = match n.checked_mul(per_page) {
        Some(t) => t,
        None => return Err(print_error("documento grande demais para imprimir")),
    };
    if total > 2147483647usize {
        return Err(print_error("documento grande demais para imprimir"));
    }
    assert(total == n * spec_copies(copies));
    assert(2 + n + 2 * total <= i32::MAX);
    let mut images: Vec<PrintImage> = Vec::new();
    let mut i: usize = 0;
    while i < n
        invariant
            n == pages@.len(),
            2 + n + 2 * total <= i32::MAX,
            total == n * spec_copies(copies),
            total <= i32::MAX,
            i <= n,
            first_image_error(pages@, 0) == first_image_error(pages@, i as int),
            images@.len() == i,
            forall|k: int| 0 <= k < i ==> {
                let img = #[trigger] images@[k];
                &&& img.id == 3 + k
                &&& img.width == pages@[k].width
                &&& img.height == pages@[k].height
                &&& img.data@ == zlib_compressed(
                    rgb_over_white(pages@[k].rgba@, (pages@[k].width * pages@[k].height) as nat),
                    6,
                )
            },
        decreases n - i,
    {
        let img = match page_image(&pages[i], 3 + i as i32) {
            Ok(img) => img,
            Err(e) => return Err(e),
        };
        images.push(img);
        i = i + 1;
    }
    let mut slots: Vec<PrintSlot> = Vec::new();
    let mut s: usize = 0;
    while s < total
        invariant
            n == pages@.len(),
            total == n * per_page,
            per_page == spec_copies(copies),
            per_page >= 1,
            2 + n + 2 * total <= i32::MAX,
            s <= total,
            slots@.len() == s,
            forall|q: int| 0 <= q < s ==> {
                let slot = #[trigger] slots@[q];
                &&& slot.page_id == 3 + n + 2 * q
                &&& slot.content_id == 4 + n + 2 * q
                &&& slot.image == q / (per_page as int)
            },
        decreases total - s,
    {
        let page_id = (3 + n + 2 * s) as i32;
        slots.push(PrintSlot { page_id, content_id: page_id + 1, image: s / per_page });
        s = s + 1;
    }
    Ok(PrintPlan { copies: per_page, images, slots })
}


/// `Path::file_stem` of a path text: the file name without its last
/// extension; none for the root, the empty path, `.` and `..`.
pub open spec fn spec_file_stem(path: Seq<char>) -> Option<Seq<char>> {
    let name = last_component(path);
    if name.len() == 0 || name == seq!['.'] || name == seq!['.', '.'] {
        None
    } else {
        match last_index_of(name, '.', name.len() as int) {
            Some(k) => if k == 0 {
                Some(name)
            } else {
                Some(name.take(k))
            },
            None => Some(name),
        }
    }
}

/// A character kept in the name of a print file.
pub open spec fn stem_char(c: char) -> bool {
    ('a' <= c && c <= 'z') || ('A' <= c && c <= 'Z') || ('0' <= c && c <= '9') || c == '-'
}

/// The kept characters of `s`, in order, at most `limit` of them.
pub open spec fn kept_chars(s: Seq<char>, limit: nat) -> Seq<char>
    decreases s.len(),
{
    if s.len() == 0 || limit == 0 {
        Seq::empty()
    } else if stem_char(s[0]) {
        seq![s[0]] + kept_chars(s.drop_first(), (limit - 1) as nat)
    } else {
        kept_chars(s.drop_first(), limit)
    }
}

/// The stem of the print file of a document: the kept characters of the
/// document's file stem, at most 40, or `documento`.
pub open spec fn spec_print_stem(source: Seq<char>) -> Seq<char> {
    let raw = match spec_file_stem(source) {
        Some(s) => s,
        None => "documento"@,
    };
    let kept = kept_chars(raw, 40);
    if kept.len() == 0 {
        "documento"@
    } else {
        kept
    }
}

/// The name of the temporary print file of a document.
pub open spec fn spec_print_file_name(source: Seq<char>, pid: u32, seq: u64) -> Seq<char> {
    "tsuro-print-"@ + spec_print_stem(source) + "-"@ + decimal(pid as nat) + "-"@ + decimal(
        seq as nat,
    ) + ".pdf"@
}

fn file_stem_chars(cs: &Vec<char>) -> (r: Option<Vec<char>>)
    ensures
        match spec_file_stem(cs@) {
            Some(s) => r matches Some(v) && v@ == s,
            None => r is None,
        },
{
    let name = path_name(cs);
    let ghost gname = last_component(cs@);
    let m = name.len();
    if m == 0 || (m == 1 && name[0] == '.') || (m == 2 && name[0] == '.' && name[1] == '.') {
        proof {
            if m == 1 {
                assert(gname =~= seq!['.']);
            }
            if m == 2 {
                assert(gname =~= seq!['.', '.']);
            }
        }
        return None;
    }
    assert(gname != seq!['.']) by {
        if gname == seq!['.'] {
            assert(gname.len() == 1 && gname[0] == '.');
        }
    }
    assert(gname != seq!['.', '.']) by {
        if gname == seq!['.', '.'] {
            assert(gname.len() == 2 && gname[0] == '.' && gname[1] == '.');
        }
    }
    let dot = last_index(&name, '.', m);
    proof {
        lemma_last_index_of_range(gname, '.', m as int);
    }
    match dot {
        Some(k) => if k == 0 {
            Some(name)
        } else {
            let v = vstd::slice::slice_to_vec(&name.as_slice()[0..k]);
            assert(v@ =~= gname.take(k as int));
            Some(v)
        },
        None => Some(name),
    }
}

fn is_stem_char(c: char) -> (r: bool)
    ensures
        r == stem_char(c),
{
    ('a' <= c && c <= 'z') || ('A' <= c && c <= 'Z') || ('0' <= c && c <= '9') || c == '-'
}

proof fn lemma_kept_chars_step(s: Seq<char>, i: int, limit: nat)
    requires
        0 <= i < s.len(),
        limit > 0,
    ensures
        kept_chars(s.skip(i), limit) == (if stem_char(s[i]) {
            seq![s[i]] + kept_chars(s.skip(i + 1), (limit - 1) as nat)
        } else {
            kept_chars(s.skip(i + 1), limit)
        }),
{
    assert(s.skip(i).drop_first() =~= s.skip(i + 1));
    assert(s.skip(i)[0] == s[i]);
}

/// The name of the temporary print file of a document: `tsuro-print-`, the
/// document's stem reduced to ASCII letters, digits and `-` (at most 40,
/// `documento` when none is left), the process id, a sequence number, and
/// `.pdf`.
pub fn print_file_name(source: &str, pid: u32, seq: u64) -> (r: String)
    ensures
        r@ == spec_print_file_name(source@, pid, seq),
{
    let cs = chars_vec(source);
    let raw: Vec<char> = match file_stem_chars(&cs) {
        Some(v) => v,
        None => chars_vec("documento"),
    };
    let ghost graw = raw@;
    let mut stem = String::new();
    let mut i: usize = 0;
    let mut left: usize = 40;
    assert(raw@.skip(0) =~= raw@);
    while i < raw.len() && left > 0
        invariant
            graw == raw@,
            i <= raw@.len(),
            left <= 40,
            stem@ + kept_chars(raw@.skip(i as int), left as nat) == kept_chars(raw@, 40),
        decreases raw@.len() - i,
    {
        proof {
            lemma_kept_chars_step(raw@, i as int, left as nat);
        }
        if is_stem_char(raw[i]) {
            let ghost before = stem@;
            push_char(&mut stem, raw[i]);
            assert(before + (seq![raw@[i as int]] + kept_chars(raw@.skip(i + 1), (left - 1) as nat))
                =~= stem@ + kept_chars(raw@.skip(i + 1), (left - 1) as nat));
            left = left - 1;
        }
        i = i + 1;
    }
    proof {
        if i == raw.len() {
            assert(raw@.skip(i as int).len() == 0);
        }
        assert(kept_chars(raw@.skip(i as int), left as nat) =~= Seq::<char>::empty());
        assert(stem@ =~= kept_chars(raw@, 40));
    }
    let mut out = string_of("tsuro-print-");
    if stem.as_str().is_empty() {
        push_str(&mut out, "documento");
    } else {
        push_str(&mut out, stem.as_str());
    }
    push_char(&mut out, '-');
    push_decimal(&mut out, pid as u64);
    push_char(&mut out, '-');
    push_decimal(&mut out, seq);
    push_str(&mut out, ".pdf");
    proof {
        reveal_strlit("-");
        assert(out@ =~= spec_print_file_name(source@, pid, seq));
    }
    out
}

} // verus!
