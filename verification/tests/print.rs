use tsuro::page::PageNo;
use tsuro::print::{
    apply_orientation, print_file_name, print_plan, resolve_range, rgba_to_rgb, rotate_rgba_90_cw,
    Bitmap, PrintOrientation, PrintRange, MAX_COPIES,
};

fn solid_rgba(width: u32, height: u32, rgb: [u8; 3]) -> Bitmap {
    let mut rgba = Vec::with_capacity((width * height * 4) as usize);
    for _ in 0..(width * height) {
        rgba.extend_from_slice(&[rgb[0], rgb[1], rgb[2], 255]);
    }
    Bitmap { width, height, rgba }
}

/// The media box after the orientation: the sides swap when the page turns.
fn oriented(
    bitmap: &Bitmap,
    media: (f32, f32),
    orientation: PrintOrientation,
) -> Result<(Bitmap, (f32, f32)), String> {
    let landscape = media.0 > media.1;
    let portrait = media.1 > media.0;
    match apply_orientation(bitmap, landscape, portrait, orientation) {
        Ok((b, true)) => Ok((b, (media.1, media.0))),
        Ok((b, false)) => Ok((b, media)),
        Err(e) => Err(e.message()),
    }
}

#[test]
fn assemble_print_pdf_rejects_empty() {
    assert!(print_plan(&[], 1).is_err());
}

#[test]
fn resolve_range_covers_all_current_and_from_to() {
    let all = resolve_range(PrintRange::All, 3).expect("all");
    assert_eq!(all.iter().map(|p| p.index()).collect::<Vec<_>>(), vec![0, 1, 2]);
    let current = resolve_range(PrintRange::Current(PageNo::from_index(1)), 3).expect("current");
    assert_eq!(current.iter().map(|p| p.index()).collect::<Vec<_>>(), vec![1]);
    let span = resolve_range(
        PrintRange::FromTo { from: PageNo::from_index(1), to: PageNo::from_index(2) },
        3,
    )
    .expect("span");
    assert_eq!(span.iter().map(|p| p.index()).collect::<Vec<_>>(), vec![1, 2]);
    assert!(resolve_range(PrintRange::All, 0).is_err());
    assert!(resolve_range(PrintRange::Current(PageNo::from_index(5)), 3).is_err());
    assert!(resolve_range(
        PrintRange::FromTo { from: PageNo::from_index(2), to: PageNo::from_index(1) },
        3,
    )
    .is_err());
    assert!(resolve_range(
        PrintRange::FromTo { from: PageNo::from_index(0), to: PageNo::from_index(9) },
        3,
    )
    .is_err());
}

#[test]
fn resolve_range_error_messages() {
    let empty = resolve_range(PrintRange::All, 0).err().unwrap();
    assert_eq!(empty.message(), "nenhuma página para imprimir");
    let outside = resolve_range(PrintRange::Current(PageNo::from_index(3)), 3).err().unwrap();
    assert_eq!(outside.message(), "intervalo de páginas inválido");
}

#[test]
fn orientation_rotates_bitmap_and_media() {
    let wide = solid_rgba(4, 2, [255, 0, 0]);
    let media = (400.0f32, 200.0f32);
    let (same, same_media) = oriented(&wide, media, PrintOrientation::Landscape).expect("same");
    assert_eq!((same.width, same.height), (4, 2));
    assert_eq!(same_media, (400.0, 200.0));
    let (tall, tall_media) = oriented(&wide, media, PrintOrientation::Portrait).expect("rot");
    assert_eq!((tall.width, tall.height), (2, 4));
    assert_eq!(tall_media, (200.0, 400.0));
    let square = solid_rgba(3, 3, [0, 0, 255]);
    let sq_media = (100.0f32, 100.0f32);
    let (kept, _) = oriented(&square, sq_media, PrintOrientation::Portrait).expect("sq");
    assert_eq!((kept.width, kept.height), (3, 3));
}

#[test]
fn rotate_90_cw_maps_corners() {
    let rgba = vec![1, 0, 0, 255, 2, 0, 0, 255];
    let (out, w, h) = rotate_rgba_90_cw(&rgba, 2, 1).expect("rot");
    assert_eq!((w, h), (1, 2));
    assert_eq!(out, vec![1, 0, 0, 255, 2, 0, 0, 255]);
    let rgba = vec![1, 0, 0, 255, 2, 0, 0, 255];
    let (out, w, h) = rotate_rgba_90_cw(&rgba, 1, 2).expect("rot");
    assert_eq!((w, h), (2, 1));
    assert_eq!(out, vec![2, 0, 0, 255, 1, 0, 0, 255]);
    assert!(rotate_rgba_90_cw(&[0u8; 3], 1, 1).is_err());
}

#[test]
fn rotate_2x2_turns_clockwise() {
    // A B / C D turns into C A / D B.
    let px = |v: u8| [v, v, v, 255];
    let rgba: Vec<u8> = [px(1), px(2), px(3), px(4)].concat();
    let (out, w, h) = rotate_rgba_90_cw(&rgba, 2, 2).expect("rot");
    assert_eq!((w, h), (2, 2));
    assert_eq!(out, [px(3), px(1), px(4), px(2)].concat());
    assert_eq!(rotate_rgba_90_cw(&[], 0, 0).err().unwrap().message(), "bitmap RGBA incompleto");
}

#[test]
fn transparent_pixels_flatten_to_white() {
    let mut rgba = vec![0, 0, 0, 0, 10, 20, 30, 255];
    let rgb = rgba_to_rgb(&rgba, 2, 1).expect("rgb");
    assert_eq!(rgb, vec![255, 255, 255, 10, 20, 30]);
    rgba.truncate(3);
    assert!(rgba_to_rgb(&rgba, 1, 1).is_err());
}

#[test]
fn half_transparent_pixels_blend_over_white() {
    // (100 * 128 + 255 * 127) / 255 = 177
    let rgb = rgba_to_rgb(&[100, 0, 255, 128], 1, 1).expect("rgb");
    assert_eq!(rgb, vec![177, 127, 255]);
}

#[test]
fn copies_expand_pages_and_clamp() {
    let pages = [solid_rgba(4, 4, [0, 255, 0])];
    let plan = print_plan(&pages, 3).expect("plan");
    assert_eq!(plan.slots.len(), 3);
    let one = print_plan(&pages, 0).expect("plan");
    assert_eq!(one.slots.len(), 1);
    let many = print_plan(&pages, MAX_COPIES + 50).expect("plan");
    assert_eq!(many.slots.len(), MAX_COPIES as usize);
}

#[test]
fn plan_numbers_objects_and_shares_images() {
    let pages = [solid_rgba(2, 1, [1, 2, 3]), solid_rgba(1, 1, [9, 9, 9])];
    let plan = print_plan(&pages, 2).expect("plan");
    assert_eq!(plan.copies, 2);
    let ids: Vec<_> = plan.images.iter().map(|i| (i.id, i.width, i.height)).collect();
    assert_eq!(ids, vec![(3, 2, 1), (4, 1, 1)]);
    let slots: Vec<_> = plan.slots.iter().map(|s| (s.page_id, s.content_id, s.image)).collect();
    assert_eq!(slots, vec![(5, 6, 0), (7, 8, 0), (9, 10, 1), (11, 12, 1)]);
    let rgb = rgba_to_rgb(&pages[0].rgba, 2, 1).unwrap();
    let expected = miniz_oxide::deflate::compress_to_vec_zlib(&rgb, 6);
    assert_eq!(plan.images[0].data, expected);
    assert_ne!(plan.images[0].data, rgb);
}

#[test]
fn plan_reports_the_first_bad_page() {
    let bad = Bitmap { width: 2, height: 2, rgba: vec![0; 3] };
    let err = print_plan(&[solid_rgba(1, 1, [0, 0, 0]), bad], 1).err().unwrap();
    assert_eq!(err.message(), "bitmap RGBA incompleto");
    let err = print_plan(&[], 1).err().unwrap();
    assert_eq!(err.message(), "nenhuma página para imprimir");
}

#[test]
fn print_temp_path_sanitizes_stem() {
    let name = print_file_name("/tmp/Contrato (final).PDF", 42, 7);
    assert!(name.starts_with("tsuro-print-Contratofinal-"));
    assert!(name.ends_with(".pdf"));
    assert_eq!(name, "tsuro-print-Contratofinal-42-7.pdf");
}

#[test]
fn print_file_name_falls_back_to_documento() {
    assert_eq!(print_file_name("/tmp/(((.pdf", 1, 2), "tsuro-print-documento-1-2.pdf");
    assert_eq!(print_file_name("/", 1, 2), "tsuro-print-documento-1-2.pdf");
    assert_eq!(print_file_name("/tmp/.hidden", 3, 4), "tsuro-print-hidden-3-4.pdf");
    assert_eq!(print_file_name("/tmp/Nota.pdf/./", 5, 6), "tsuro-print-Nota-5-6.pdf");
    let long = format!("/tmp/{}.pdf", "a".repeat(60));
    assert_eq!(print_file_name(&long, 0, 0), format!("tsuro-print-{}-0-0.pdf", "a".repeat(40)));
}

#[test]
fn four_quarter_turns_give_the_bitmap_back() {
    let rgba: Vec<u8> = (0u8..24).collect();
    let (mut out, mut w, mut h) = (rgba.clone(), 3u32, 2u32);
    for _ in 0..4 {
        let (next, nw, nh) = rotate_rgba_90_cw(&out, w, h).expect("rot");
        out = next;
        w = nw;
        h = nh;
    }
    assert_eq!((w, h), (3, 2));
    assert_eq!(out, rgba);
}
