use fontbake::effect::distance_field::{
    build_row_index, field_samples, find_min_edge_dist_sq, parse_color_panics, DistanceFieldConfig,
};
use fontbake::model::FontbakeError;

#[test]
fn parse_color_white() {
    let c = DistanceFieldConfig::parse_color("ffffff").unwrap();
    assert_eq!(c, [255, 255, 255]);
}

#[test]
fn parse_color_red() {
    let c = DistanceFieldConfig::parse_color("ff0000").unwrap();
    assert_eq!(c, [255, 0, 0]);
}

#[test]
fn parse_color_with_hash() {
    let c = DistanceFieldConfig::parse_color("#00ff00").unwrap();
    assert_eq!(c, [0, 255, 0]);
}

#[test]
fn parse_color_invalid() {
    assert!(DistanceFieldConfig::parse_color("fff").is_err());
}

#[test]
fn parse_color_messages_and_edge_cases() {
    match DistanceFieldConfig::parse_color("##12345") {
        Err(FontbakeError::Config(m)) => {
            assert_eq!(m, "invalid color hex: 12345 (expected 6 hex digits)")
        }
        other => panic!("unexpected {:?}", other),
    }
    match DistanceFieldConfig::parse_color("12345g") {
        Err(FontbakeError::Config(m)) => assert_eq!(m, "invalid color hex: 12345g"),
        other => panic!("unexpected {:?}", other),
    }
    assert_eq!(DistanceFieldConfig::parse_color("##A0b1C2").unwrap(), [0xa0, 0xb1, 0xc2]);
    assert_eq!(DistanceFieldConfig::parse_color("+f+0+1").unwrap(), [15, 0, 1]);
    assert!(DistanceFieldConfig::parse_color("éé12").is_err());
    assert!(!parse_color_panics("éé12"));
    assert!(parse_color_panics("aé123"));
    assert!(!parse_color_panics("ffffff"));
}

fn brute_force(mask: &[u8], w: u32, h: u32, cx: u32, cy: u32, delta: u32, inside: bool) -> u64 {
    let mut best = (delta as u64) * (delta as u64);
    let x0 = cx.saturating_sub(delta);
    let y0 = cy.saturating_sub(delta);
    let x1 = (cx + delta).min(w.saturating_sub(1));
    let y1 = (cy + delta).min(h.saturating_sub(1));
    for sy in y0..=y1 {
        for sx in x0..=x1 {
            if (mask[(sy * w + sx) as usize] >= 128) != inside {
                let dx = sx as i64 - cx as i64;
                let dy = sy as i64 - cy as i64;
                let d = (dx * dx + dy * dy) as u64;
                if d < best {
                    best = d;
                }
            }
        }
    }
    best
}

fn assert_matches_reference(mask: &[u8], mask_w: u32, mask_h: u32, scale: u32, spread: f32) {
    let table = build_row_index(mask, mask_w, mask_h);
    let delta = (spread * scale as f32).ceil() as u32;
    let out_w = mask_w / scale;
    let out_h = mask_h / scale;
    for oy in 0..out_h {
        let cy = oy * scale + scale / 2;
        for ox in 0..out_w {
            let cx = ox * scale + scale / 2;
            let sx = cx.min(mask_w - 1);
            let sy = cy.min(mask_h - 1);
            let inside = mask[(sy * mask_w + sx) as usize] >= 128;
            let fast = find_min_edge_dist_sq(&table, mask, mask_w, mask_h, cx, cy, delta, inside);
            let slow = brute_force(mask, mask_w, mask_h, cx, cy, delta, inside);
            assert_eq!(fast, slow, "pixel ({ox},{oy})");
        }
    }
}

#[test]
fn optimised_search_matches_reference_output() {
    let mask_w = 13u32;
    let mask_h = 11u32;
    let mut mask = vec![0u8; (mask_w * mask_h) as usize];
    for y in 1..10 {
        mask[(y * mask_w + 2) as usize] = 255;
    }
    for x in 2..11 {
        mask[(5 * mask_w + x) as usize] = 255;
    }
    mask[(2 * mask_w + 9) as usize] = 255;
    mask[(8 * mask_w + 8) as usize] = 255;
    assert_matches_reference(&mask, mask_w, mask_h, 3, 2.5);
}

#[test]
fn optimised_search_matches_reference_for_ring_shape() {
    let mask_w = 16u32;
    let mask_h = 16u32;
    let mut mask = vec![0u8; (mask_w * mask_h) as usize];
    for y in 2..14 {
        for x in 2..14 {
            mask[(y * mask_w + x) as usize] = 255;
        }
    }
    for y in 5..11 {
        for x in 5..11 {
            mask[(y * mask_w + x) as usize] = 0;
        }
    }
    assert_matches_reference(&mask, mask_w, mask_h, 4, 3.5);
}

#[test]
fn optimised_search_matches_reference_for_sparse_diagonal() {
    let mask_w = 15u32;
    let mask_h = 15u32;
    let mut mask = vec![0u8; (mask_w * mask_h) as usize];
    for i in 1..14 {
        mask[(i * mask_w + i) as usize] = 255;
        if i + 1 < 15 {
            mask[(i * mask_w + (i + 1)) as usize] = 255;
        }
    }
    assert_matches_reference(&mask, mask_w, mask_h, 3, 4.0);
}

#[test]
fn search_matches_brute_force_at_every_center() {
    let (w, h) = (9u32, 7u32);
    let mask: Vec<u8> = (0..w * h).map(|i| if (i * 37 + 11) % 5 < 2 { 200 } else { 10 }).collect();
    let table = build_row_index(&mask, w, h);
    for delta in 0..5u32 {
        for cy in 0..h + 2 {
            for cx in 0..w + 2 {
                for inside in [false, true] {
                    assert_eq!(
                        find_min_edge_dist_sq(&table, &mask, w, h, cx, cy, delta, inside),
                        brute_force(&mask, w, h, cx, cy, delta, inside)
                    );
                }
            }
        }
    }
}

#[test]
fn build_row_index_packs_positions_into_single_contiguous_buffer() {
    let mask_w = 8u32;
    let mask_h = 4u32;
    let mask = vec![
        255, 255, 255, 255, 255, 255, 255, 0,
        0, 0, 0, 0, 255, 0, 0, 0,
        255, 0, 255, 0, 255, 0, 255, 0,
        0, 0, 0, 0, 0, 0, 0, 0,
    ];

    let table = build_row_index(&mask, mask_w, mask_h);
    let stored_positions: usize = table
        .rows
        .iter()
        .map(|row| row.inside_len + row.outside_len)
        .sum();

    assert_eq!(stored_positions, mask.len());
    assert_eq!(table.xs.len(), mask.len());
}

#[test]
fn row_index_lists_inside_then_outside_columns() {
    let mask = vec![255, 0, 200, 127, 0, 0, 128, 0];
    let table = build_row_index(&mask, 4, 2);
    assert_eq!(table.xs, vec![0, 2, 1, 3, 2, 0, 1, 3]);
    assert_eq!(table.rows[1].inside_start, 4);
    assert_eq!(table.rows[1].inside_len, 1);
    assert_eq!(table.rows[1].outside_start, 5);
    assert_eq!(table.rows[1].outside_len, 3);
}

#[test]
fn field_samples_of_empty_and_solid_masks() {
    let (v, w, h) = field_samples(&[], 0, 0, 4, 3);
    assert!(v.is_empty());
    assert_eq!((w, h), (0, 0));

    // A solid inside mask has no pixel across the edge: every distance is
    // the cap, delta squared.
    let mask = vec![255u8; 8 * 8];
    let (v, w, h) = field_samples(&mask, 8, 8, 2, 3);
    assert_eq!((w, h), (4, 4));
    assert_eq!(v.len(), 16);
    assert!(v.iter().all(|&(inside, d)| inside && d == 9));

    // Scale 0 counts as 1.
    let (v, w, h) = field_samples(&mask, 8, 8, 0, 1);
    assert_eq!((w, h, v.len()), (8, 8, 64));
}

#[test]
fn field_samples_match_brute_force() {
    // left half inside, right half outside
    let (mw, mh) = (12u32, 6u32);
    let mask: Vec<u8> = (0..mw * mh).map(|i| if i % mw < 5 { 200 } else { 10 }).collect();
    let (scale, delta) = (3u32, 4u32);
    let (v, w, h) = field_samples(&mask, mw, mh, scale, delta);
    assert_eq!((w, h), (4, 2));
    for oy in 0..h {
        for ox in 0..w {
            let cx = ox * scale + scale / 2;
            let cy = oy * scale + scale / 2;
            let inside = mask[(cy * mw + cx) as usize] >= 128;
            let expected = (inside, brute_force(&mask, mw, mh, cx, cy, delta, inside));
            assert_eq!(v[(oy * w + ox) as usize], expected);
        }
    }
    assert_eq!(v[0], (true, 16));
    assert_eq!(v[1], (true, 1));
    assert_eq!(v[2], (false, 9));
    assert_eq!(v[3], (false, 16));
}

/// The distance field's RGBA pixels (white) from the library's samples, the
/// distance scaled to alpha by the spread as the build does.
fn field_rgba(mask: &[u8], mask_w: u32, mask_h: u32, scale: u32, spread: f32) -> (Vec<u8>, u32, u32) {
    let s = scale.max(1);
    let spread_scaled = spread * s as f32;
    let delta = spread_scaled.ceil() as u32;
    let (samples, w, h) = field_samples(mask, mask_w, mask_h, s, delta);
    let mut rgba = Vec::new();
    for (inside, dist_sq) in samples {
        let min_dist = (dist_sq as f32).sqrt().min(spread_scaled);
        let signed = if inside { min_dist } else { -min_dist };
        let alpha = ((0.5 + 0.5 * (signed / spread_scaled)).clamp(0.0, 1.0) * 255.0) as u8;
        rgba.extend_from_slice(&[255, 255, 255, alpha]);
    }
    (rgba, w, h)
}

#[test]
fn empty_mask_returns_empty() {
    // 3x3 mask / scale=4 → 0x0 output
    let (rgba, w, h) = field_rgba(&[0; 9], 3, 3, 4, 3.5);
    assert_eq!(w, 0);
    assert_eq!(h, 0);
    assert!(rgba.is_empty());
}

#[test]
fn solid_white_mask_produces_inside_values() {
    let mask = vec![255u8; 8 * 8];
    let (rgba, w, h) = field_rgba(&mask, 8, 8, 2, 2.0);
    assert_eq!(w, 4);
    assert_eq!(h, 4);
    for y in 0..h {
        for x in 0..w {
            let idx = ((y * w + x) * 4 + 3) as usize;
            assert!(rgba[idx] >= 128, "pixel ({x},{y}) alpha={} < 128", rgba[idx]);
        }
    }
}

#[test]
fn solid_black_mask_produces_outside_values() {
    let mask = vec![0u8; 8 * 8];
    let (rgba, w, h) = field_rgba(&mask, 8, 8, 2, 2.0);
    assert_eq!(w, 4);
    assert_eq!(h, 4);
    for y in 0..h {
        for x in 0..w {
            let idx = ((y * w + x) * 4 + 3) as usize;
            assert!(rgba[idx] < 128, "pixel ({x},{y}) alpha={} >= 128", rgba[idx]);
        }
    }
}

#[test]
fn edge_mask_produces_near_128_alpha() {
    // Left half white, right half black — 8x4 mask, scale=2 → 4x2 output
    let (mask_w, mask_h) = (8u32, 4u32);
    let mut mask = vec![0u8; (mask_w * mask_h) as usize];
    for y in 0..mask_h {
        for x in 0..mask_w / 2 {
            mask[(y * mask_w + x) as usize] = 255;
        }
    }
    let (rgba, _w, _h) = field_rgba(&mask, mask_w, mask_h, 2, 4.0);
    let inside_alpha = rgba[(1 * 4 + 3) as usize];
    assert!(inside_alpha >= 128);
    let outside_alpha = rgba[(2 * 4 + 3) as usize];
    assert!(outside_alpha < 128);
}
