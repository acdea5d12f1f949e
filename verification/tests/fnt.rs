use fontbake::export::bmfont_text::{encode_atlas_png, export_fnt, glyphs_to_fnt};
use fontbake::model::{
    AtlasPage, BmFont, BmFontChar, BmFontCommon, BmFontInfo, BmFontKerning, BmFontPage,
    FontbakeError, GlyphRecord, SourceKind,
};
use fontbake::source::bmfont_text::parse_fnt;

const SAMPLE_FNT: &str = r#"info face="HUN2" size=52 bold=0 italic=0 charset="" unicode=0 stretchH=100 smooth=1 aa=1 padding=4,4,4,4 spacing=-8,-8
common lineHeight=52 base=40 scaleW=512 scaleH=512 pages=1 packed=0
page id=0 file="hun.png"
chars count=3
char id=32      x=0    y=0    width=0    height=0    xoffset=-4   yoffset=0    xadvance=18   page=0    chnl=0 
char id=33      x=66   y=0    width=16   height=48   xoffset=0    yoffset=-4   xadvance=16   page=0    chnl=0 
char id=65      x=95   y=49   width=36   height=48   xoffset=-1   yoffset=-4   xadvance=34   page=0    chnl=0 
kernings count=0"#;

#[test]
fn parse_info_line() {
    let bmfont = parse_fnt(SAMPLE_FNT).unwrap();
    assert_eq!(bmfont.info.face, "HUN2");
    assert_eq!(bmfont.info.size, 52);
    assert!(!bmfont.info.bold);
    assert!(!bmfont.info.italic);
    assert_eq!(bmfont.info.padding, [4, 4, 4, 4]);
    assert_eq!(bmfont.info.spacing, [-8, -8]);
}

#[test]
fn parse_common_line() {
    let bmfont = parse_fnt(SAMPLE_FNT).unwrap();
    assert_eq!(bmfont.common.line_height, 52);
    assert_eq!(bmfont.common.base, 40);
    assert_eq!(bmfont.common.scale_w, 512);
    assert_eq!(bmfont.common.scale_h, 512);
    assert_eq!(bmfont.common.pages, 1);
    assert!(!bmfont.common.packed);
}

#[test]
fn parse_pages() {
    let bmfont = parse_fnt(SAMPLE_FNT).unwrap();
    assert_eq!(bmfont.pages.len(), 1);
    assert_eq!(bmfont.pages[0].id, 0);
    assert_eq!(bmfont.pages[0].file, "hun.png");
}

#[test]
fn parse_chars() {
    let bmfont = parse_fnt(SAMPLE_FNT).unwrap();
    assert_eq!(bmfont.chars.len(), 3);
    assert_eq!(bmfont.chars[0].id, 32);
    assert_eq!(bmfont.chars[0].xadvance, 18);
    assert_eq!(bmfont.chars[1].id, 33);
    assert_eq!(bmfont.chars[1].x, 66);
    assert_eq!(bmfont.chars[1].width, 16);
    assert_eq!(bmfont.chars[1].height, 48);
    assert_eq!(bmfont.chars[2].id, 65);
    assert_eq!(bmfont.chars[2].xoffset, -1);
    assert_eq!(bmfont.chars[2].xadvance, 34);
}

#[test]
fn parse_empty_kernings() {
    let bmfont = parse_fnt(SAMPLE_FNT).unwrap();
    assert!(bmfont.kernings.is_empty());
}

#[test]
fn parse_kernings() {
    let input = "info face=\"T\" size=12 bold=0 italic=0 charset=\"\" unicode=0 stretchH=100 smooth=1 aa=1 padding=0,0,0,0 spacing=0,0\ncommon lineHeight=12 base=10 scaleW=64 scaleH=64 pages=1 packed=0\npage id=0 file=\"t.png\"\nchars count=0\nkernings count=2\nkerning first=65 second=86 amount=-2\nkerning first=86 second=65 amount=-1\n";
    let bmfont = parse_fnt(input).unwrap();
    assert_eq!(bmfont.kernings.len(), 2);
    assert_eq!(bmfont.kernings[0].first, 65);
    assert_eq!(bmfont.kernings[0].second, 86);
    assert_eq!(bmfont.kernings[0].amount, -2);
}

#[test]
fn roundtrip_fnt() {
    let fnt_source = "info face=\"HUN2\" size=52 bold=0 italic=0 charset=\"\" unicode=0 stretchH=100 smooth=1 aa=1 padding=4,4,4,4 spacing=-8,-8\ncommon lineHeight=52 base=40 scaleW=512 scaleH=512 pages=1 packed=0\npage id=0 file=\"hun.png\"\nchars count=2\nchar id=32      x=0    y=0    width=0    height=0    xoffset=-4   yoffset=0    xadvance=18   page=0    chnl=0 \nchar id=65      x=95   y=49   width=36   height=48   xoffset=-1   yoffset=-4   xadvance=34   page=0    chnl=0 \nkernings count=0\n";

    let parsed = parse_fnt(fnt_source).unwrap();
    let exported = export_fnt(&parsed);
    let reparsed = parse_fnt(&exported).unwrap();

    assert_eq!(parsed.info.face, reparsed.info.face);
    assert_eq!(parsed.info.size, reparsed.info.size);
    assert_eq!(parsed.info.padding, reparsed.info.padding);
    assert_eq!(parsed.info.spacing, reparsed.info.spacing);
    assert_eq!(parsed.common.line_height, reparsed.common.line_height);
    assert_eq!(parsed.common.base, reparsed.common.base);
    assert_eq!(parsed.common.scale_w, reparsed.common.scale_w);
    assert_eq!(parsed.pages.len(), reparsed.pages.len());
    assert_eq!(parsed.pages[0].file, reparsed.pages[0].file);
    assert_eq!(parsed.chars.len(), reparsed.chars.len());
    for (a, b) in parsed.chars.iter().zip(reparsed.chars.iter()) {
        assert_eq!(a.id, b.id);
        assert_eq!(a.x, b.x);
        assert_eq!(a.y, b.y);
        assert_eq!(a.width, b.width);
        assert_eq!(a.height, b.height);
        assert_eq!(a.xoffset, b.xoffset);
        assert_eq!(a.yoffset, b.yoffset);
        assert_eq!(a.xadvance, b.xadvance);
        assert_eq!(a.page, b.page);
    }
}

#[test]
fn encode_atlas_png_produces_valid_png() {
    let page = AtlasPage::new(4, 4);
    let bytes = encode_atlas_png(&page).unwrap();
    assert_eq!(&bytes[..4], &[0x89, b'P', b'N', b'G']);
}

fn sample_font() -> BmFont {
    BmFont {
        info: BmFontInfo {
            face: "My Face =x".to_string(),
            size: -13,
            bold: true,
            italic: false,
            charset: "ANSI 1".to_string(),
            unicode: true,
            stretch_h: 90,
            smooth: false,
            aa: 4,
            padding: [1, -2, 3, -4],
            spacing: [i32::MIN, i32::MAX],
        },
        common: BmFontCommon {
            line_height: 70,
            base: u32::MAX,
            scale_w: 256,
            scale_h: 128,
            pages: 2,
            packed: true,
        },
        pages: vec![
            BmFontPage { id: 0, file: "a b.png".to_string() },
            BmFontPage { id: 7, file: "".to_string() },
        ],
        chars: vec![
            BmFontChar {
                id: 1234567,
                x: 99999,
                y: 3,
                width: 12,
                height: 13,
                xoffset: -77777,
                yoffset: 5,
                xadvance: -1,
                page: 1,
                chnl: 15,
            },
            BmFontChar {
                id: 65,
                x: 0,
                y: 0,
                width: 0,
                height: 0,
                xoffset: 0,
                yoffset: 0,
                xadvance: 0,
                page: 0,
                chnl: 0,
            },
        ],
        kernings: vec![
            BmFontKerning { first: 65, second: 66, amount: i16::MIN },
            BmFontKerning { first: 1, second: 2, amount: 300 },
        ],
    }
}

fn same_font(a: &BmFont, b: &BmFont) -> bool {
    a.info.face == b.info.face
        && a.info.size == b.info.size
        && a.info.bold == b.info.bold
        && a.info.italic == b.info.italic
        && a.info.charset == b.info.charset
        && a.info.unicode == b.info.unicode
        && a.info.stretch_h == b.info.stretch_h
        && a.info.smooth == b.info.smooth
        && a.info.aa == b.info.aa
        && a.info.padding == b.info.padding
        && a.info.spacing == b.info.spacing
        && a.common.line_height == b.common.line_height
        && a.common.base == b.common.base
        && a.common.scale_w == b.common.scale_w
        && a.common.scale_h == b.common.scale_h
        && a.common.pages == b.common.pages
        && a.common.packed == b.common.packed
        && a.pages.len() == b.pages.len()
        && a.pages.iter().zip(b.pages.iter()).all(|(p, q)| p.id == q.id && p.file == q.file)
        && a.chars.len() == b.chars.len()
        && a.chars.iter().zip(b.chars.iter()).all(|(p, q)| {
            p.id == q.id
                && p.x == q.x
                && p.y == q.y
                && p.width == q.width
                && p.height == q.height
                && p.xoffset == q.xoffset
                && p.yoffset == q.yoffset
                && p.xadvance == q.xadvance
                && p.page == q.page
                && p.chnl == q.chnl
        })
        && a.kernings.len() == b.kernings.len()
        && a.kernings.iter().zip(b.kernings.iter()).all(|(p, q)| {
            p.first == q.first && p.second == q.second && p.amount == q.amount
        })
}

#[test]
fn exported_font_reads_back_whole() {
    let font = sample_font();
    let text = export_fnt(&font);
    let back = parse_fnt(&text).unwrap();
    assert!(same_font(&font, &back));
}

#[test]
fn export_writes_hiero_columns() {
    let font = sample_font();
    let text = export_fnt(&font);
    let lines: Vec<&str> = text.lines().collect();
    assert_eq!(
        lines[0],
        "info face=\"My Face =x\" size=-13 bold=1 italic=0 charset=\"ANSI 1\" unicode=1 stretchH=90 smooth=0 aa=4 padding=1,-2,3,-4 spacing=-2147483648,2147483647"
    );
    assert_eq!(
        lines[1],
        "common lineHeight=70 base=4294967295 scaleW=256 scaleH=128 pages=2 packed=1"
    );
    assert_eq!(lines[2], "page id=0 file=\"a b.png\"");
    assert_eq!(lines[3], "page id=7 file=\"\"");
    assert_eq!(lines[4], "chars count=2");
    assert_eq!(
        lines[5],
        "char id=1234567 x=99999 y=3     width=12    height=13    xoffset=-77777 yoffset=5    xadvance=-1   page=1    chnl=15"
    );
    assert_eq!(lines[7], "kernings count=2");
    assert_eq!(lines[8], "kerning first=65 second=66 amount=-32768");
    assert_eq!(lines.len(), 10);
    assert!(text.ends_with('\n'));
}

#[test]
fn glyphs_to_fnt_describes_packed_glyphs() {
    let mut g = GlyphRecord::new(65, SourceKind::Outline, "x".to_string());
    g.width = 3;
    g.height = 4;
    g.x = 5;
    g.y = 6;
    g.page = 1;
    g.xadvance = 7;
    g.kernings = vec![(66, -2), (67, 1)];
    let files = vec!["f.png".to_string(), "f_1.png".to_string()];
    let text = glyphs_to_fnt(&[g], "f", 12, 14, 10, 64, 32, &files, [1, 2, 3, 4], [5, 6]);
    let font = parse_fnt(&text).unwrap();
    assert_eq!(font.info.face, "f");
    assert_eq!(font.info.size, 12);
    assert_eq!(font.info.padding, [1, 2, 3, 4]);
    assert_eq!(font.info.spacing, [5, 6]);
    assert_eq!(font.info.stretch_h, 100);
    assert!(font.info.smooth);
    assert_eq!(font.common.line_height, 14);
    assert_eq!(font.common.base, 10);
    assert_eq!(font.common.scale_w, 64);
    assert_eq!(font.common.scale_h, 32);
    assert_eq!(font.common.pages, 2);
    assert_eq!(font.pages[1].id, 1);
    assert_eq!(font.pages[1].file, "f_1.png");
    assert_eq!(font.chars.len(), 1);
    assert_eq!(font.chars[0].id, 65);
    assert_eq!(font.chars[0].x, 5);
    assert_eq!(font.chars[0].y, 6);
    assert_eq!(font.chars[0].page, 1);
    assert_eq!(font.chars[0].xadvance, 7);
    assert_eq!(font.kernings.len(), 2);
    assert_eq!(font.kernings[0].first, 65);
    assert_eq!(font.kernings[0].second, 66);
    assert_eq!(font.kernings[0].amount, -2);
    assert_eq!(font.kernings[1].second, 67);
}

#[test]
fn parse_reports_missing_key_with_line_number() {
    let input = "info face=\"T\" size=12 bold=0 italic=0\ncommon lineHeight=12\n";
    match parse_fnt(input) {
        Err(FontbakeError::BmfontParse(m)) => assert_eq!(m, "line 2: missing key 'base'"),
        other => panic!("unexpected {:?}", other),
    }
}

#[test]
fn parse_reports_invalid_number() {
    let input = "info face=\"T\" size=x12 bold=0 italic=0\n";
    match parse_fnt(input) {
        Err(FontbakeError::BmfontParse(m)) => assert_eq!(m, "line 1: invalid i32 for 'size': x12"),
        other => panic!("unexpected {:?}", other),
    }
}

#[test]
fn parse_reports_wrong_padding_count() {
    let input = "info size=1 bold=0 italic=0 padding=1,2,3\n";
    match parse_fnt(input) {
        Err(FontbakeError::BmfontParse(m)) => {
            assert_eq!(m, "line 1: expected 4 values for 'padding', got 3")
        }
        other => panic!("unexpected {:?}", other),
    }
}

#[test]
fn parse_requires_info_and_common() {
    match parse_fnt("common lineHeight=1 base=1 scaleW=1 scaleH=1 pages=1\n") {
        Err(FontbakeError::BmfontParse(m)) => assert_eq!(m, "missing 'info' line"),
        other => panic!("unexpected {:?}", other),
    }
    match parse_fnt("info size=1 bold=0 italic=0\n") {
        Err(FontbakeError::BmfontParse(m)) => assert_eq!(m, "missing 'common' line"),
        other => panic!("unexpected {:?}", other),
    }
}

#[test]
fn parse_defaults_and_crlf() {
    let input = "info size=+7 bold=2 italic=0\r\n\r\ncommon lineHeight=1 base=2 scaleW=3 scaleH=4 pages=5 packed=x\r\nunknown tag\r\n";
    let font = parse_fnt(input).unwrap();
    assert_eq!(font.info.size, 7);
    assert!(font.info.bold);
    assert_eq!(font.info.face, "");
    assert_eq!(font.info.stretch_h, 100);
    assert_eq!(font.info.aa, 1);
    assert_eq!(font.info.padding, [0, 0, 0, 0]);
    assert!(!font.common.packed);
    assert_eq!(font.common.pages, 5);
}
