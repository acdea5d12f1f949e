use fontbake::export::bmfont_text::encode_atlas_png;
use fontbake::model::{AtlasPage, FontbakeError};
use fontbake::pipeline::import::{
    decode_png_page, decode_png_page_checked, import_bmfont, import_overflows, PngPage,
};
use fontbake::source::bmfont_text::{bmfont_to_glyphs, parse_fnt};

#[test]
fn decode_roundtrip_png() {
    let page = AtlasPage::new(4, 4);
    let png_bytes = encode_atlas_png(&page).unwrap();
    let decoded = decode_png_page(&png_bytes).unwrap();
    assert_eq!(decoded.width, 4);
    assert_eq!(decoded.height, 4);
    assert_eq!(decoded.rgba.len(), 4 * 4 * 4);
}

#[test]
fn import_minimal_bmfont() {
    let fnt = "info face=\"T\" size=12 bold=0 italic=0 charset=\"\" unicode=0 stretchH=100 smooth=1 aa=1 padding=0,0,0,0 spacing=0,0\ncommon lineHeight=12 base=10 scaleW=4 scaleH=4 pages=1 packed=0\npage id=0 file=\"t.png\"\nchars count=1\nchar id=65 x=0 y=0 width=2 height=2 xoffset=0 yoffset=0 xadvance=3 page=0 chnl=0\nkernings count=0\n";
    let page = PngPage {
        width: 4,
        height: 4,
        rgba: vec![255u8; 4 * 4 * 4],
    };
    let (bmfont, glyphs) = import_bmfont(fnt, &[page], "test").unwrap();
    assert_eq!(bmfont.chars.len(), 1);
    assert_eq!(glyphs.len(), 1);
    assert_eq!(glyphs[0].codepoint, 65);
    assert_eq!(glyphs[0].width, 2);
    assert_eq!(glyphs[0].height, 2);
    assert_eq!(glyphs[0].bitmap_rgba.len(), 2 * 2 * 4);
}

const TWO_CHARS: &str = "info size=12 bold=0 italic=0\ncommon lineHeight=12 base=10 scaleW=4 scaleH=4 pages=1 packed=0\nchar id=65 x=1 y=1 width=2 height=2 xoffset=0 yoffset=0 xadvance=3 page=0\nchar id=66 x=3 y=0 width=1 height=1 xoffset=0 yoffset=0 xadvance=3 page=0\nkerning first=65 second=66 amount=-2\nkerning first=66 second=65 amount=4\nkerning first=65 second=67 amount=1\n";

#[test]
fn import_crops_rows_and_collects_kernings() {
    let rgba: Vec<u8> = (0..64u8).collect();
    let page = PngPage { width: 4, height: 4, rgba };
    let (_, glyphs) = import_bmfont(TWO_CHARS, &[page], "src").unwrap();
    // rows 1 and 2, columns 1 and 2 of a 4-pixel-wide page
    assert_eq!(
        glyphs[0].bitmap_rgba,
        vec![20, 21, 22, 23, 24, 25, 26, 27, 36, 37, 38, 39, 40, 41, 42, 43]
    );
    assert_eq!(glyphs[0].kernings, vec![(66, -2), (67, 1)]);
    assert_eq!(glyphs[1].bitmap_rgba, vec![12, 13, 14, 15]);
    assert_eq!(glyphs[1].kernings, vec![(65, 4)]);
    assert_eq!(glyphs[0].source_id, "src");
    assert_eq!((glyphs[0].x, glyphs[0].y, glyphs[0].page), (1, 1, 0));
}

#[test]
fn import_reports_missing_page() {
    match import_bmfont(TWO_CHARS, &[], "src") {
        Err(FontbakeError::BmfontParse(m)) => {
            assert_eq!(m, "char id=65 references page 0 but only 0 pages loaded")
        }
        other => panic!("unexpected {:?}", other.map(|_| ())),
    }
}

#[test]
fn import_reports_rect_out_of_bounds() {
    let page = PngPage { width: 4, height: 1, rgba: vec![0u8; 16] };
    match import_bmfont(TWO_CHARS, &[page], "src") {
        Err(FontbakeError::BmfontParse(m)) => {
            assert_eq!(m, "char id=65 rect exceeds atlas page 0 bounds")
        }
        other => panic!("unexpected {:?}", other.map(|_| ())),
    }
}

#[test]
fn import_overflow_check() {
    let font = parse_fnt(TWO_CHARS).unwrap();
    let page = PngPage { width: 4, height: 4, rgba: vec![0u8; 64] };
    assert!(!import_overflows(&font, &[page], "s"));
    let big = "info size=12 bold=0 italic=0\ncommon lineHeight=12 base=10 scaleW=4 scaleH=4 pages=1 packed=0\nchar id=65 x=0 y=0 width=70000 height=70000 xoffset=0 yoffset=0 xadvance=3 page=0\n";
    let font = parse_fnt(big).unwrap();
    let page = PngPage { width: 4, height: 4, rgba: vec![0u8; 64] };
    assert!(import_overflows(&font, &[page], "s"));
}

#[test]
fn bmfont_to_glyphs_skips_empty_rects() {
    let font = parse_fnt("info size=12 bold=0 italic=0\ncommon lineHeight=12 base=10 scaleW=4 scaleH=4 pages=1 packed=0\nchar id=32 x=0 y=0 width=0 height=3 xoffset=0 yoffset=0 xadvance=3 page=9\n")
    .unwrap();
    let pages: Vec<(u32, u32, &[u8])> = Vec::new();
    let glyphs = bmfont_to_glyphs(&font, &pages, "s").unwrap();
    assert_eq!(glyphs.len(), 1);
    assert!(glyphs[0].bitmap_rgba.is_empty());
    assert_eq!(glyphs[0].page, 9);
}

#[test]
fn decode_reports_png_errors() {
    match decode_png_page(b"not a png") {
        Err(FontbakeError::Png(m)) => assert!(!m.is_empty()),
        other => panic!("unexpected {:?}", other.map(|p| p.width)),
    }
    match decode_png_page_checked(b"not a png") {
        Some(Err(FontbakeError::Png(_))) => {}
        _ => panic!("expected a png error"),
    }
}

#[test]
fn decoded_page_keeps_encoded_pixels() {
    let mut page = AtlasPage::new(2, 1);
    page.rgba = vec![1, 2, 3, 4, 5, 6, 7, 8];
    let bytes = encode_atlas_png(&page).unwrap();
    assert_ne!(bytes, page.rgba);
    let decoded = decode_png_page_checked(&bytes).unwrap().unwrap();
    assert_eq!((decoded.width, decoded.height), (2, 1));
    assert_eq!(decoded.rgba, vec![1, 2, 3, 4, 5, 6, 7, 8]);
}

#[test]
fn reimport_keeps_chars_and_kernings() {
    let fnt = "info face=\"T\" size=12 bold=0 italic=0\ncommon lineHeight=12 base=10 scaleW=4 scaleH=4 pages=1 packed=0\nchar id=65 x=1 y=1 width=2 height=2 xoffset=-1 yoffset=3 xadvance=5 page=0 chnl=15\nchar id=66 x=3 y=0 width=1 height=1 xoffset=2 yoffset=-4 xadvance=7 page=0 chnl=0\nkerning first=65 second=66 amount=-2\n";
    let page = PngPage { width: 4, height: 4, rgba: vec![9u8; 64] };
    let (bmfont, glyphs) = import_bmfont(fnt, &[page], "src").unwrap();
    let files = vec!["t.png".to_string()];
    let text = fontbake::export::bmfont_text::glyphs_to_fnt(
        &glyphs, "T", 12, 12, 10, 4, 4, &files, [0, 0, 0, 0], [0, 0],
    );
    let back = parse_fnt(&text).unwrap();
    assert_eq!(back.chars.len(), bmfont.chars.len());
    for (a, b) in back.chars.iter().zip(bmfont.chars.iter()) {
        assert_eq!(
            (a.id, a.x, a.y, a.width, a.height, a.xoffset, a.yoffset, a.xadvance, a.page),
            (b.id, b.x, b.y, b.width, b.height, b.xoffset, b.yoffset, b.xadvance, b.page)
        );
        assert_eq!(a.chnl, 0);
    }
    assert_eq!(back.kernings.len(), 1);
    assert_eq!((back.kernings[0].first, back.kernings[0].second, back.kernings[0].amount), (65, 66, -2));
}

#[test]
fn rectangle_past_the_right_edge_reads_into_the_next_row() {
    let fnt = "info size=12 bold=0 italic=0\ncommon lineHeight=12 base=10 scaleW=4 scaleH=4 pages=1 packed=0\nchar id=65 x=3 y=0 width=2 height=1 xoffset=0 yoffset=0 xadvance=3 page=0\n";
    let rgba: Vec<u8> = (0..64u8).collect();
    let page = PngPage { width: 4, height: 4, rgba };
    let (_, glyphs) = import_bmfont(fnt, &[page], "src").unwrap();
    assert_eq!(glyphs[0].bitmap_rgba, vec![12, 13, 14, 15, 16, 17, 18, 19]);
}
