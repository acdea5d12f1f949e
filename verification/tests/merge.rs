use fontbake::model::{FontbakeError, GlyphRecord, SourceKind};
use fontbake::pipeline::merge::{copy_glyph, merge_fonts, page_file_name};
use fontbake::source::bmfont_text::parse_fnt;

fn make_glyph(cp: u32, source: &str, w: u32, h: u32) -> GlyphRecord {
    let mut g = GlyphRecord::new(cp, SourceKind::Outline, source.into());
    g.width = w;
    g.height = h;
    g.xadvance = 10;
    if w > 0 && h > 0 {
        g.bitmap_rgba = vec![128u8; (w * h * 4) as usize];
    }
    g
}

#[test]
fn merge_deduplicates_by_codepoint() {
    let set_a = vec![make_glyph(65, "a", 10, 10), make_glyph(66, "a", 10, 10)];
    let set_b = vec![make_glyph(65, "b", 8, 8), make_glyph(67, "b", 10, 10)];

    let result = merge_fonts(&[&set_a, &set_b], "test", 12, 14, 10, 128, 128, [0, 0, 0, 0], [0, 0])
        .unwrap();

    assert_eq!(result.glyphs.len(), 3);
    let a = result.glyphs.iter().find(|g| g.codepoint == 65).unwrap();
    assert_eq!(a.source_id, "a");
    assert_eq!(a.width, 10);
}

#[test]
fn merge_empty_sets() {
    let result =
        merge_fonts(&[&[], &[]], "test", 12, 14, 10, 128, 128, [0, 0, 0, 0], [0, 0]).unwrap();
    assert!(result.glyphs.is_empty());
}

#[test]
fn merge_preserves_bitmap_import_kind() {
    let mut g = make_glyph(65, "imported", 10, 10);
    g.source_kind = SourceKind::BitmapImport;
    let set = vec![g];

    let result =
        merge_fonts(&[&set], "test", 12, 14, 10, 128, 128, [0, 0, 0, 0], [0, 0]).unwrap();

    assert_eq!(result.glyphs[0].source_kind, SourceKind::BitmapImport);
}

#[test]
fn merge_orders_by_codepoint_and_first_set_wins() {
    let set_a = vec![make_glyph(70, "a", 4, 4), make_glyph(65, "a", 3, 3), make_glyph(70, "a2", 5, 5)];
    let set_b = vec![make_glyph(66, "b", 2, 2), make_glyph(65, "b", 9, 9), make_glyph(32, "b", 0, 0)];
    let result = merge_fonts(&[&set_a, &set_b], "m", 12, 14, 10, 64, 64, [0, 0, 0, 0], [0, 0])
        .unwrap();
    let cps: Vec<u32> = result.glyphs.iter().map(|g| g.codepoint).collect();
    assert_eq!(cps, vec![32, 65, 66, 70]);
    let ids: Vec<&str> = result.glyphs.iter().map(|g| g.source_id.as_str()).collect();
    assert_eq!(ids, vec!["b", "a", "b", "a"]);
    assert_eq!(result.glyphs[1].width, 3);
    assert_eq!(result.glyphs[3].width, 4);
    assert_eq!(result.page_pngs.len(), 1);
    assert_eq!(&result.page_pngs[0][..4], &[0x89, b'P', b'N', b'G']);
    let font = parse_fnt(&result.fnt_text).unwrap();
    assert_eq!(font.info.face, "m");
    assert_eq!(font.pages[0].file, "m.png");
    assert_eq!(font.chars.len(), 4);
    assert_eq!(font.chars[1].id, 65);
    assert_eq!(font.chars[1].x, result.glyphs[1].x);
    assert_eq!(font.chars[1].y, result.glyphs[1].y);
}

#[test]
fn merge_repacks_imported_positions() {
    let mut g = make_glyph(65, "a", 3, 3);
    g.page = 5;
    g.x = 40;
    g.y = 41;
    let set = vec![g];
    let result = merge_fonts(&[&set], "m", 12, 14, 10, 16, 16, [0, 0, 0, 0], [0, 0]).unwrap();
    assert_eq!((result.glyphs[0].page, result.glyphs[0].x, result.glyphs[0].y), (0, 0, 0));
}

#[test]
fn merge_reports_pack_errors() {
    let set = vec![make_glyph(65, "a", 20, 3)];
    match merge_fonts(&[&set], "m", 12, 14, 10, 16, 16, [0, 0, 0, 0], [0, 0]) {
        Err(FontbakeError::Pack(m)) => {
            assert_eq!(m, "glyph U+0041 (20x3) exceeds Hiero packable size for page (16x16)")
        }
        Err(e) => panic!("unexpected {:?}", e),
        Ok(_) => panic!("expected an error"),
    }
}

#[test]
fn page_file_names() {
    assert_eq!(page_file_name("face", 0), "face.png");
    assert_eq!(page_file_name("face", 12), "face_12.png");
}

#[test]
fn copy_glyph_copies_everything() {
    let mut g = make_glyph(65, "a", 2, 1);
    g.kernings = vec![(66, -3)];
    g.page = 2;
    let c = copy_glyph(&g);
    assert_eq!(c.codepoint, 65);
    assert_eq!(c.source_id, "a");
    assert_eq!(c.bitmap_rgba, g.bitmap_rgba);
    assert_eq!(c.kernings, vec![(66, -3)]);
    assert_eq!(c.page, 2);
}
