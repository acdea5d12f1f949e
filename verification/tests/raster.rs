use fontbake::model::FontbakeError;
use fontbake::pipeline::glyph_plan::{
    glyph_xadvance, java_layout, java_layout_checked, kerning_pairs, line_height, plan_from, should_emit_kerning, JavaGlyphLayout,
};
use fontbake::raster::freetype_bounds::{
    ceil_26_6, floor_26_6, snapped_vertical_bounds, vertical_bounds_26_6, FreetypeFont,
};
use fontbake::raster::java_shape::{alpha_mask, raster_size};
use fontbake::source::outline::{pair_kerning, resolve_codepoint, win_ascent, OutlineFont};

#[test]
fn metric_helpers_dont_panic_with_zero() {
    assert!(true);
}

#[test]
fn load_invalid_data_returns_error() {
    let result = OutlineFont::load(b"not a font", "bad.ttf".into());
    match result {
        Err(e) => assert!(e.to_string().contains("bad.ttf")),
        Ok(_) => panic!("expected error for invalid font data"),
    }
}

#[test]
fn resolve_codepoint_returns_none_for_empty_chain() {
    let fonts: Vec<&OutlineFont> = vec![];
    assert!(resolve_codepoint(&fonts, 'A').is_none());
}

#[test]
fn font_load_error_text() {
    match OutlineFont::load(b"", "x.otf".into()) {
        Err(FontbakeError::FontLoad(m)) => assert!(m.starts_with("x.otf: ")),
        _ => panic!("expected a font load error"),
    }
    match FreetypeFont::load(b"not a font", 16) {
        Err(FontbakeError::FontLoad(m)) => assert!(m.starts_with("FreeType load failed: ")),
        _ => panic!("expected a font load error"),
    }
    let e = FontbakeError::Pack("p".to_string());
    assert_eq!(e.to_string(), "pack error: p");
    assert_eq!(FontbakeError::Io("q".to_string()).to_string(), "io error: q");
}

#[test]
fn fixed_point_rounding() {
    assert_eq!(floor_26_6(64), 1);
    assert_eq!(floor_26_6(63), 0);
    assert_eq!(floor_26_6(-1), -1);
    assert_eq!(floor_26_6(-64), -1);
    assert_eq!(floor_26_6(-65), -2);
    assert_eq!(ceil_26_6(1), 1);
    assert_eq!(ceil_26_6(64), 1);
    assert_eq!(ceil_26_6(-63), 0);
    assert_eq!(ceil_26_6(-64), -1);
    assert_eq!(floor_26_6(1i64 << 40), 0);
}

#[test]
fn vertical_bounds_from_metrics() {
    let b = vertical_bounds_26_6(640, 1280).unwrap();
    assert_eq!((b.y, b.height), (-10, 20));
    let b = vertical_bounds_26_6(100, 50).unwrap();
    assert_eq!((b.y, b.height), (-2, 2));
    assert!(vertical_bounds_26_6(100, 0).is_none());
}

#[test]
fn kerning_plan_and_layout() {
    let a = plan_from('A', Some((1, 7)));
    let b = plan_from('B', Some((1, 9)));
    let c = plan_from('C', Some((0, 3)));
    let m = plan_from('D', None);
    assert_eq!((m.font_idx, m.glyph_id, m.missing), (0, 0, true));
    assert!(should_emit_kerning(a, b));
    assert!(!should_emit_kerning(a, c));
    assert!(!should_emit_kerning(a, m));
    let l = java_layout(-1, -12, 10, 12, 2, -3, 40, 4, 4, 4, 4);
    assert_eq!(l, JavaGlyphLayout { width: 21, height: 20, xoffset: -5, yoffset: 24 });
    let l = java_layout(-1, -12, 10, 12, -2, 5, 40, -4, -1, -4, 0);
    assert_eq!(l, JavaGlyphLayout { width: 12, height: 12, xoffset: 3, yoffset: 32 });
    let l = java_layout(3, 3, 0, 12, 0, 0, 40, 4, 4, 4, 4);
    assert_eq!(l, JavaGlyphLayout { width: 0, height: 0, xoffset: -4, yoffset: 0 });
    assert_eq!(glyph_xadvance(18, -8, 4, 4), 18);
    assert_eq!(line_height(12, 40, 5, 4, 4, -8), 57);
}

#[test]
fn table_value_helpers() {
    assert_eq!(win_ascent(Some(-1), 5), 65535);
    assert_eq!(win_ascent(None, -900), 900);
    assert_eq!(pair_kerning(&vec![(false, false, Some(5)), (true, true, Some(6)), (true, false, None), (true, false, Some(-7))]), -7);
    assert_eq!(pair_kerning(&vec![]), 0);
}

#[test]
fn checked_layout_refuses_overflow() {
    assert_eq!(
        java_layout_checked(-1, -12, 10, 12, 2, -3, 40, 4, 4, 4, 4),
        Some(JavaGlyphLayout { width: 21, height: 20, xoffset: -5, yoffset: 24 })
    );
    assert_eq!(java_layout_checked(0, 0, 0, 5, 0, 0, 0, i32::MIN, 0, 0, 0), None);
    assert_eq!(java_layout_checked(i32::MIN, 0, 10, 10, 0, 0, 0, 1, 0, 0, 0), None);
    assert_eq!(java_layout_checked(0, 0, 10, u32::MAX, 0, 0, 0, 0, 0, 1, 0), None);
    assert_eq!(java_layout_checked(0, 0, 10, 10, 0, 0, u32::MAX, 0, 0, 0, 0), None);
    assert_eq!(
        java_layout_checked(0, 0, 10, 10, 0, 0, 5, 0, 0, 0, 0),
        Some(JavaGlyphLayout { width: 10, height: 10, xoffset: 0, yoffset: 5 })
    );
}

#[test]
fn raster_size_and_alpha_channel() {
    assert_eq!(raster_size(-2, -10, 5, 3).unwrap(), (7, 13));
    assert_eq!(raster_size(4, 4, 4, 2).unwrap(), (1, 1));
    assert_eq!(raster_size(0, 0, 8192, 8192).unwrap(), (8192, 8192));
    match raster_size(0, 0, 8193, 3) {
        Err(FontbakeError::FontLoad(m)) => assert_eq!(m, "glyph raster too large: 8193x3"),
        other => panic!("unexpected {:?}", other),
    }
    let pixels = [1u8, 2, 3, 4, 5, 6, 7, 8, 9];
    assert_eq!(alpha_mask(&pixels, 2), vec![4, 8]);
    assert!(alpha_mask(&pixels, 0).is_empty());
}

#[test]
fn kerning_pairs_keep_same_font_nonzero_values() {
    let a = plan_from('A', Some((0, 7)));
    let b = plan_from('B', Some((0, 9)));
    let c = plan_from('C', Some((1, 3)));
    let d = plan_from('D', None);
    let e = plan_from('E', Some((0, 4)));
    let plans = vec![a, b, c, d, e, a];
    let px = vec![5, -2, 8, 9, 0, 6];
    assert_eq!(kerning_pairs(&plans, a, &px), vec![(66, -2)]);
    assert!(kerning_pairs(&plans, d, &px).is_empty());
    assert_eq!(kerning_pairs(&plans, c, &px), vec![]);
    assert_eq!(kerning_pairs(&plans, b, &[3, 0, 1, 1, 4, 2]), vec![(65, 3), (69, 4), (65, 2)]);
}

#[test]
fn snapped_bounds_from_pixel_extents() {
    let b = snapped_vertical_bounds(-3, 12).unwrap();
    assert_eq!((b.y, b.height), (-12, 15));
    assert!(snapped_vertical_bounds(4, 4).is_none());
}
