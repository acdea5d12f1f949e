use fontbake::model::{FontbakeError, GlyphRecord, SourceKind};
use fontbake::pack::hiero_rows::{pack_glyphs, pack_would_overflow};

fn make_glyph(cp: u32, w: u32, h: u32) -> GlyphRecord {
    let mut g = GlyphRecord::new(cp, SourceKind::Outline, "test".into());
    g.width = w;
    g.height = h;
    if w > 0 && h > 0 {
        g.bitmap_rgba = vec![255u8; (w * h * 4) as usize];
    }
    g
}

#[test]
fn single_glyph_fits() {
    let mut glyphs = vec![make_glyph(65, 10, 10)];
    let pages = pack_glyphs(&mut glyphs, 64, 64).unwrap();
    assert_eq!(pages.len(), 1);
    assert_eq!(glyphs[0].page, 0);
    assert_eq!(glyphs[0].x, 0);
    assert_eq!(glyphs[0].y, 0);
}

#[test]
fn row_wrapping() {
    let mut glyphs = vec![
        make_glyph(65, 30, 10),
        make_glyph(66, 30, 10),
        make_glyph(67, 30, 10),
    ];
    let pages = pack_glyphs(&mut glyphs, 64, 64).unwrap();
    assert_eq!(pages.len(), 1);
    assert!(glyphs.iter().all(|g| g.page == 0));
}

#[test]
fn page_overflow() {
    let mut glyphs = vec![
        make_glyph(65, 32, 32),
        make_glyph(66, 32, 32),
        make_glyph(67, 32, 32),
        make_glyph(68, 32, 32),
    ];
    let pages = pack_glyphs(&mut glyphs, 65, 65).unwrap();
    assert_eq!(pages.len(), 1);

    let mut glyphs = vec![
        make_glyph(65, 32, 32),
        make_glyph(66, 32, 32),
        make_glyph(67, 32, 32),
        make_glyph(68, 32, 32),
        make_glyph(69, 32, 32),
    ];
    let pages = pack_glyphs(&mut glyphs, 65, 65).unwrap();
    assert_eq!(pages.len(), 2);
}

#[test]
fn zero_size_glyph_placed() {
    let mut glyphs = vec![make_glyph(32, 0, 0), make_glyph(65, 10, 10)];
    let pages = pack_glyphs(&mut glyphs, 64, 64).unwrap();
    assert_eq!(pages.len(), 1);
    assert_eq!(glyphs[0].x, 0);
    assert_eq!(glyphs[0].y, 0);
}

#[test]
fn height_sort_descending() {
    let mut glyphs = vec![
        make_glyph(65, 10, 5),
        make_glyph(66, 10, 20),
        make_glyph(67, 10, 10),
    ];
    let _pages = pack_glyphs(&mut glyphs, 64, 64).unwrap();
    assert_eq!(glyphs[1].y, 0);
}

#[test]
fn glyph_too_large_errors() {
    let mut glyphs = vec![make_glyph(65, 100, 100)];
    let result = pack_glyphs(&mut glyphs, 64, 64);
    assert!(result.is_err());
}

#[test]
fn zero_page_size_errors() {
    let mut glyphs = vec![make_glyph(65, 10, 10)];
    assert!(pack_glyphs(&mut glyphs, 0, 64).is_err());
}

#[test]
fn pack_error_messages() {
    let mut glyphs = vec![make_glyph(65, 10, 10)];
    match pack_glyphs(&mut glyphs, 64, 0) {
        Err(FontbakeError::Pack(m)) => assert_eq!(m, "page dimensions must be > 0"),
        other => panic!("unexpected {:?}", other.map(|p| p.len())),
    }
    let mut glyphs = vec![make_glyph(32, 0, 0), make_glyph(0x4E2D, 64, 5)];
    match pack_glyphs(&mut glyphs, 64, 64) {
        Err(FontbakeError::Pack(m)) => {
            assert_eq!(m, "glyph U+4E2D (64x5) exceeds Hiero packable size for page (64x64)")
        }
        other => panic!("unexpected {:?}", other.map(|p| p.len())),
    }
}

#[test]
fn packed_glyphs_do_not_overlap_and_stay_inside() {
    let mut glyphs = Vec::new();
    for i in 0..40u32 {
        glyphs.push(make_glyph(100 + i, 3 + (i * 7) % 11, 2 + (i * 5) % 9));
    }
    glyphs.push(make_glyph(32, 0, 0));
    let pages = pack_glyphs(&mut glyphs, 32, 24).unwrap();
    for (i, a) in glyphs.iter().enumerate() {
        if a.width == 0 || a.height == 0 {
            assert_eq!((a.page, a.x, a.y), (0, 0, 0));
            continue;
        }
        assert!((a.page as usize) < pages.len());
        assert!(a.x + a.width < 32 && a.y + a.height < 24);
        for b in glyphs.iter().skip(i + 1) {
            if b.width == 0 || b.height == 0 || a.page != b.page {
                continue;
            }
            let apart = a.x + a.width <= b.x
                || b.x + b.width <= a.x
                || a.y + a.height <= b.y
                || b.y + b.height <= a.y;
            assert!(apart, "glyphs {} and {} overlap", a.codepoint, b.codepoint);
        }
    }
}

#[test]
fn packed_pixels_land_on_the_page() {
    let mut g = make_glyph(65, 2, 2);
    g.bitmap_rgba = (0..16u8).collect();
    let mut glyphs = vec![g];
    let pages = pack_glyphs(&mut glyphs, 8, 8).unwrap();
    let p = &pages[0];
    assert_eq!(p.rgba.len(), 8 * 8 * 4);
    let at = |x: usize, y: usize| -> &[u8] { &p.rgba[(y * 8 + x) * 4..(y * 8 + x) * 4 + 4] };
    let (x0, y0) = (glyphs[0].x as usize, glyphs[0].y as usize);
    assert_eq!(at(x0, y0), &[0, 1, 2, 3]);
    assert_eq!(at(x0 + 1, y0 + 1), &[12, 13, 14, 15]);
}

#[test]
fn overflow_check_before_packing() {
    let small = vec![make_glyph(65, 1, 1)];
    assert!(pack_would_overflow(&small, 40000, 40000));
    assert!(pack_would_overflow(&[], 40000, 40000));
    assert!(!pack_would_overflow(&small, 1024, 1024));
    assert!(!pack_would_overflow(&small, 0, 40000));
    let mut wide = make_glyph(66, 1, 1);
    wide.width = 40000;
    assert!(!pack_would_overflow(&[wide], 40000, 40000));
    let blank = make_glyph(32, 0, 0);
    assert!(pack_would_overflow(&[blank], 40000, 40000));
}
