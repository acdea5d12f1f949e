use fontbake::config::hiero::{hiero_input_panics, parse_hiero};
use fontbake::model::{EffectSpec, FontbakeError, RenderMode};

const SAMPLE: &str = r#"
#YQ:font.name=HUN2
#BQ:font.size=52
#PS:font.bold=false
#HN:font.italic=false
#VN:font.gamma=1.8
#RV:font.mono=false
#HN:
#QP:font2.file=/home/miansoft/Project/bmfont-test/hun2.ttf
#KH:font2.use=true
#SK:
#QW:pad.top=4
#WQ:pad.right=4
#XN:pad.bottom=4
#WZ:pad.left=4
#QP:pad.advance.x=-8
#TY:pad.advance.y=-8
#HX:
#YS:glyph.native.rendering=false
#MV:glyph.page.width=1024
#SM:glyph.page.height=1024
#PT:glyph.text=ABC
#ZP:
#QT:render_type=0
#KW:
#MK:fallback.font.0=/home/miansoft/Project/bmfont-test/chinese_font.otf
#HK:
#KV:effect.class=com.badlogic.gdx.tools.hiero.unicodefont.effects.DistanceFieldEffect
#MS:effect.Color=ffffff
#TK:effect.Scale=32
#QQ:effect.Spread=3.5
"#;

#[test]
fn parses_hun2_config() {
    let spec = parse_hiero(SAMPLE).expect("parse failed");
    assert_eq!(spec.font_name, "HUN2");
    assert_eq!(spec.font_size, 52);
    assert!(!spec.bold);
    assert!(!spec.italic);
    assert_eq!(spec.gamma.parse::<f32>().unwrap(), 1.8);
    assert_eq!(spec.padding.top, 4);
    assert_eq!(spec.padding.right, 4);
    assert_eq!(spec.advance_adjust.x, -8);
    assert_eq!(spec.page_width, 1024);
    assert_eq!(spec.glyph_text, "ABC");
    assert_eq!(spec.primary_font_path, "/home/miansoft/Project/bmfont-test/hun2.ttf");
    assert_eq!(spec.fallback_font_paths, vec!["/home/miansoft/Project/bmfont-test/chinese_font.otf"]);
    assert!(matches!(spec.render_mode, RenderMode::Java));
    assert_eq!(spec.effects.len(), 1);
    match &spec.effects[0] {
        EffectSpec::DistanceField { color, scale, spread } => {
            assert_eq!(color, "ffffff");
            assert_eq!(*scale, 32);
            assert!((spread.parse::<f32>().unwrap() - 3.5).abs() < 1e-5);
        }
    }
}

#[test]
fn rejects_unsupported_render_type() {
    let input = "#AA:render_type=1\n";
    assert!(parse_hiero(input).is_err());
}

#[test]
fn rejects_unknown_effect_class() {
    let input = "#AA:render_type=0\n#BB:effect.class=com.badlogic.gdx.tools.hiero.unicodefont.effects.ColorEffect\n";
    assert!(parse_hiero(input).is_err());
}

#[test]
fn fallback_chain_ordering() {
    let input = "#AA:render_type=0\n#BB:fallback.font.0=/fonts/a.ttf\n#CC:fallback.font.1=/fonts/b.ttf\n#DD:fallback.font.2=/fonts/c.ttf\n";
    let spec = parse_hiero(input).unwrap();
    assert_eq!(spec.fallback_font_paths, vec!["/fonts/a.ttf", "/fonts/b.ttf", "/fonts/c.ttf"]);
}

#[test]
fn defaults_when_keys_are_missing() {
    let spec = parse_hiero("").unwrap();
    assert_eq!(spec.font_name, "");
    assert_eq!(spec.font_size, 52);
    assert_eq!(spec.gamma, "1.8");
    assert_eq!(spec.page_width, 1024);
    assert_eq!(spec.page_height, 1024);
    assert_eq!(spec.padding.left, 0);
    assert!(spec.fallback_font_paths.is_empty());
    assert!(spec.effects.is_empty());
}

#[test]
fn error_messages_name_the_setting() {
    match parse_hiero("render_type=1\n") {
        Err(FontbakeError::Unsupported(m)) => {
            assert_eq!(m, "render_type=1 is not supported (only 0 / Java path)")
        }
        other => panic!("unexpected {:?}", other.map(|_| ())),
    }
    match parse_hiero("render_type=x\n") {
        Err(FontbakeError::Config(m)) => assert_eq!(m, "invalid render_type: x"),
        other => panic!("unexpected {:?}", other.map(|_| ())),
    }
    match parse_hiero("font.bold=yes\n") {
        Err(FontbakeError::Config(m)) => assert_eq!(m, "invalid font.bold: yes"),
        other => panic!("unexpected {:?}", other.map(|_| ())),
    }
    match parse_hiero("pad.left=1.5\n") {
        Err(FontbakeError::Config(m)) => assert_eq!(m, "invalid pad.left: 1.5"),
        other => panic!("unexpected {:?}", other.map(|_| ())),
    }
    match parse_hiero("font.gamma=1.8.1\n") {
        Err(FontbakeError::Config(m)) => assert_eq!(m, "invalid font.gamma: 1.8.1"),
        other => panic!("unexpected {:?}", other.map(|_| ())),
    }
    match parse_hiero("effect.class=a.b.ColorEffect\n") {
        Err(FontbakeError::Unsupported(m)) => assert_eq!(
            m,
            "effect class 'ColorEffect' is not supported in v1 (only DistanceFieldEffect)"
        ),
        other => panic!("unexpected {:?}", other.map(|_| ())),
    }
    match parse_hiero("effect.class=DistanceFieldEffect\neffect.Scale=-1\n") {
        Err(FontbakeError::Config(m)) => assert_eq!(m, "invalid effect.Scale: -1"),
        other => panic!("unexpected {:?}", other.map(|_| ())),
    }
}

#[test]
fn later_values_win_and_glyph_text_is_verbatim() {
    let input = "font.size=10\n#AB: font.size = 12 \n#AB:glyph.text=  A B  \nglyph.text2= x \n";
    let spec = parse_hiero(input).unwrap();
    assert_eq!(spec.font_size, 12);
    assert_eq!(spec.glyph_text, "  A B  ");
}

#[test]
fn id_prefix_must_be_short_alphanumeric() {
    // "#ABCDE" is too long to be a prefix: the whole line is the entry,
    // whose key is then "#ABCDE:font.name".
    let spec = parse_hiero("#ABCDE:font.name=X\n#A1:font.name=Y\n").unwrap();
    assert_eq!(spec.font_name, "Y");
    let spec = parse_hiero("#A:font.name=Z\n").unwrap();
    assert_eq!(spec.font_name, "");
}

#[test]
fn fallback_numbers_must_be_contiguous() {
    let spec = parse_hiero("fallback.font.0=a\nfallback.font.2=c\n").unwrap();
    assert_eq!(spec.fallback_font_paths, vec!["a"]);
    let spec = parse_hiero("fallback.font.1=b\n").unwrap();
    assert!(spec.fallback_font_paths.is_empty());
}

#[test]
fn distance_field_defaults() {
    let spec = parse_hiero("effect.class=x.y.DistanceFieldEffect\n").unwrap();
    match &spec.effects[0] {
        EffectSpec::DistanceField { color, scale, spread } => {
            assert_eq!(color, "ffffff");
            assert_eq!(*scale, 32);
            assert_eq!(spread, "3.5");
        }
    }
    let spec = parse_hiero("effect.class=DistanceFieldEffect\neffect.Spread=-INF\n").unwrap();
    match &spec.effects[0] {
        EffectSpec::DistanceField { spread, .. } => assert_eq!(spread, "-INF"),
    }
}

#[test]
fn float_settings_accept_rust_float_syntax() {
    for ok in ["1", "+.5", "5.", "1e3", "-2.5E-3", "inf", "NaN", "-Infinity"] {
        let input = format!("font.gamma={ok}\n");
        let spec = parse_hiero(&input).unwrap();
        assert_eq!(spec.gamma, ok);
        assert!(spec.gamma.parse::<f32>().is_ok());
    }
    for bad in [".", "e3", "1e", "1.2.3", "--1", "0x10", "in"] {
        let input = format!("font.gamma={bad}\n");
        assert!(parse_hiero(&input).is_err(), "{bad}");
        assert!(bad.parse::<f32>().is_err(), "{bad}");
    }
}

#[test]
fn line_panic_check() {
    assert!(hiero_input_panics("é:font.name=x\n"));
    assert!(!hiero_input_panics(":é\n#AB:font.name=é\n"));
}
