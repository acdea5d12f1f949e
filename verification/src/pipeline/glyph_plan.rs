//! The integer decisions of building a font from a `.hiero` configuration:
//! which font renders each codepoint, which kerning pairs are emitted, the
//! Java layout box of a glyph, its advance and the line height. Measuring
//! and rasterising glyphs happen around them.
use vstd::prelude::*;
use crate::effect::distance_field::{color_panics, spec_parse_color, DistanceFieldConfig};
use crate::model::{BuildSpec, EffectSpec, EffectView, ErrorView, FontbakeError};
use crate::source::outline::{first_font_with, font_views, resolve_codepoint, OutlineFont};

verus! {

/// Which font of the chain renders a codepoint, and its glyph id. When no
/// font has the codepoint, the primary font's `.notdef` glyph (id 0) stands
/// in and the plan is marked missing, as in Hiero.
#[derive(Debug, Clone, Copy, PartialEq, Eq, Structural)]
pub struct ResolvedGlyphPlan {
    pub codepoint: char,
    pub font_idx: usize,
    pub glyph_id: u16,
    pub missing: bool,
}

/// The plan for a codepoint from what the font chain resolved it to.
pub open spec fn plan_spec(codepoint: char, found: Option<(usize, u16)>) -> ResolvedGlyphPlan {
    match found {
        Some((font_idx, glyph_id)) => ResolvedGlyphPlan { codepoint, font_idx, glyph_id, missing: false },
        None => ResolvedGlyphPlan { codepoint, font_idx: 0, glyph_id: 0, missing: true },
    }
}

pub fn plan_from(codepoint: char, found: Option<(usize, u16)>) -> (p: ResolvedGlyphPlan)
    ensures
        p == plan_spec(codepoint, found),
{
    match found {
        Some((font_idx, glyph_id)) => ResolvedGlyphPlan { codepoint, font_idx, glyph_id, missing: false },
        None => ResolvedGlyphPlan { codepoint, font_idx: 0, glyph_id: 0, missing: true },
    }
}

/// The plan for a codepoint: the first font of the chain that has it.
pub fn resolve_glyph_plan<'a>(fonts: &[&OutlineFont<'a>], codepoint: char) -> (p: ResolvedGlyphPlan)
    ensures
        p == plan_spec(codepoint, first_font_with(font_views(fonts@), codepoint, 0)),
        p.codepoint == codepoint,
        p.missing ==> p.font_idx == 0 && p.glyph_id == 0,
        !p.missing ==> p.font_idx < fonts@.len(),
        fonts@.len() == 0 ==> p.missing,
{
    plan_from(codepoint, resolve_codepoint(fonts, codepoint))
}

/// Kerning is emitted only between two resolved glyphs of the same font.
pub fn should_emit_kerning(left: ResolvedGlyphPlan, right: ResolvedGlyphPlan) -> (b: bool)
    ensures
        b == (!left.missing && !right.missing && left.font_idx == right.font_idx),
{
    !left.missing && !right.missing && left.font_idx == right.font_idx
}

/// The kerning pairs of glyph `me` against the glyphs of `plans` before
/// `n`: for each other codepoint resolved in the same font as `me`, its
/// kerning in pixels when that is not zero. A missing glyph has none.
pub open spec fn kerning_pairs_spec(plans: Seq<ResolvedGlyphPlan>, me: ResolvedGlyphPlan, kern_px: Seq<i16>, n: nat) -> Seq<
    (u32, i16),
>
    decreases n,
{
    if n == 0 {
        seq![]
    } else {
        let j = n - 1;
        let other = plans[j];
        kerning_pairs_spec(plans, me, kern_px, (n - 1) as nat) + if !me.missing && other.codepoint != me.codepoint
            && (!me.missing && !other.missing && me.font_idx == other.font_idx) && kern_px[j] != 0 {
            seq![(other.codepoint as u32, kern_px[j])]
        } else {
            seq![]
        }
    }
}

/// The kerning pairs of glyph `me`, given the kerning in pixels between it
/// and each glyph of `plans`.
pub fn kerning_pairs(plans: &[ResolvedGlyphPlan], me: ResolvedGlyphPlan, kern_px: &[i16]) -> (r: Vec<(u32, i16)>)
    requires
        kern_px@.len() == plans@.len(),
    ensures
        r@ == kerning_pairs_spec(plans@, me, kern_px@, plans@.len()),
{
    let mut r: Vec<(u32, i16)> = Vec::new();
    let mut j: usize = 0;
    while j < plans.len()
        invariant
            j <= plans@.len(),
            kern_px@.len() == plans@.len(),
            r@ == kerning_pairs_spec(plans@, me, kern_px@, j as nat),
        decreases plans@.len() - j,
    {
        let other = plans[j];
        if other.codepoint != me.codepoint && should_emit_kerning(me, other) && kern_px[j] != 0 {
            r.push((other.codepoint as u32, kern_px[j]));
        }
        assert(kerning_pairs_spec(plans@, me, kern_px@, (j + 1) as nat) == kerning_pairs_spec(
            plans@,
            me,
            kern_px@,
            j as nat,
        ) + if !me.missing && plans@[j as int].codepoint != me.codepoint && (!me.missing && !plans@[j as int].missing
            && me.font_idx == plans@[j as int].font_idx) && kern_px@[j as int] != 0 {
            seq![(plans@[j as int].codepoint as u32, kern_px@[j as int])]
        } else {
            seq![]
        });
        j = j + 1;
    }
    r
}

// ---------------------------------------------------------------------------
// Java glyph layout
// ---------------------------------------------------------------------------

/// The box of a glyph in the Java layout, padding included.
#[derive(Debug, Clone, Copy, PartialEq, Eq, Structural)]
pub struct JavaGlyphLayout {
    pub width: u32,
    pub height: u32,
    pub xoffset: i32,
    pub yoffset: i32,
}

pub open spec fn nonneg(v: i32) -> int {
    if v > 0 {
        v as int
    } else {
        0
    }
}

/// The layout of a glyph with pixel bounds `(bx, by, bw, bh)`, its left and
/// right side bearings in whole pixels (`lsb`, and `rsb` = advance - lsb -
/// width, both cut toward zero), the baseline and the padding. As in Hiero's
/// `Glyph.java`, positive bearings count as zero, a negative one widens the
/// glyph, and negative padding adds no room.
pub open spec fn java_layout_spec(
    bx: i32,
    by: i32,
    bw: u32,
    bh: u32,
    lsb: i32,
    rsb: i32,
    base: u32,
    pad_left: i32,
    pad_right: i32,
    pad_top: i32,
    pad_bottom: i32,
) -> (int, int, int, int) {
    if bw == 0 || bh == 0 {
        (0, 0, -pad_left, 0)
    } else {
        let l = if lsb > 0 {
            0
        } else {
            lsb as int
        };
        let r = if rsb > 0 {
            0
        } else {
            rsb as int
        };
        let gw = bw - l - r;
        (
            (if gw > 0 {
                gw
            } else {
                0
            }) + nonneg(pad_left) + nonneg(pad_right),
            bh + nonneg(pad_top) + nonneg(pad_bottom),
            bx - pad_left,
            base + by - pad_top,
        )
    }
}

/// The arithmetic of the layout stays within its machine integers.
pub open spec fn java_layout_fits(
    bx: i32,
    by: i32,
    bw: u32,
    bh: u32,
    lsb: i32,
    rsb: i32,
    base: u32,
    pad_left: i32,
    pad_right: i32,
    pad_top: i32,
    pad_bottom: i32,
) -> bool {
    if bw == 0 || bh == 0 {
        pad_left > i32::MIN
    } else {
        let l = if lsb > 0 {
            0
        } else {
            lsb as int
        };
        let r = if rsb > 0 {
            0
        } else {
            rsb as int
        };
        let gw = bw - l - r;
        let t = java_layout_spec(bx, by, bw, bh, lsb, rsb, base, pad_left, pad_right, pad_top, pad_bottom);
        &&& bw <= i32::MAX
        &&& bw - l <= i32::MAX
        &&& gw <= i32::MAX
        &&& (if gw > 0 {
            gw
        } else {
            0
        }) + nonneg(pad_left) <= u32::MAX
        &&& t.0 <= u32::MAX
        &&& bh + nonneg(pad_top) <= u32::MAX
        &&& t.1 <= u32::MAX
        &&& i32::MIN <= t.2 <= i32::MAX
        &&& base <= i32::MAX
        &&& i32::MIN <= base + by <= i32::MAX
        &&& i32::MIN <= t.3 <= i32::MAX
    }
}

/// The Java layout box of a glyph.
pub fn java_layout(
    bx: i32,
    by: i32,
    bw: u32,
    bh: u32,
    lsb: i32,
    rsb: i32,
    base: u32,
    pad_left: i32,
    pad_right: i32,
    pad_top: i32,
    pad_bottom: i32,
) -> (g: JavaGlyphLayout)
    requires
        java_layout_fits(bx, by, bw, bh, lsb, rsb, base, pad_left, pad_right, pad_top, pad_bottom),
    ensures
        (g.width as int, g.height as int, g.xoffset as int, g.yoffset as int) == java_layout_spec(
            bx,
            by,
            bw,
            bh,
            lsb,
            rsb,
            base,
            pad_left,
            pad_right,
            pad_top,
            pad_bottom,
        ),
{
    if bw == 0 || bh == 0 {
        return JavaGlyphLayout { width: 0, height: 0, xoffset: -pad_left, yoffset: 0 };
    }
    let mut l = lsb;
    if l > 0 {
        l = 0;
    }
    let mut r = rsb;
    if r > 0 {
        r = 0;
    }
    let gw = bw as i32 - l - r;
    let glyph_width: u32 = if gw > 0 {
        gw as u32
    } else {
        0
    };
    let pl: u32 = if pad_left > 0 {
        pad_left as u32
    } else {
        0
    };
    let pr: u32 = if pad_right > 0 {
        pad_right as u32
    } else {
        0
    };
    let pt: u32 = if pad_top > 0 {
        pad_top as u32
    } else {
        0
    };
    let pb: u32 = if pad_bottom > 0 {
        pad_bottom as u32
    } else {
        0
    };
    JavaGlyphLayout {
        width: glyph_width + pl + pr,
        height: bh + pt + pb,
        xoffset: bx - pad_left,
        yoffset: base as i32 + by - pad_top,
    }
}

/// [`java_layout`] where its arithmetic fits: `None` where it does not.
pub fn java_layout_checked(
    bx: i32,
    by: i32,
    bw: u32,
    bh: u32,
    lsb: i32,
    rsb: i32,
    base: u32,
    pad_left: i32,
    pad_right: i32,
    pad_top: i32,
    pad_bottom: i32,
) -> (r: Option<JavaGlyphLayout>)
    ensures
        match r {
            None => !java_layout_fits(bx, by, bw, bh, lsb, rsb, base, pad_left, pad_right, pad_top, pad_bottom),
            Some(g) => {
                &&& java_layout_fits(bx, by, bw, bh, lsb, rsb, base, pad_left, pad_right, pad_top, pad_bottom)
                &&& (g.width as int, g.height as int, g.xoffset as int, g.yoffset as int) == java_layout_spec(
                    bx,
                    by,
                    bw,
                    bh,
                    lsb,
                    rsb,
                    base,
                    pad_left,
                    pad_right,
                    pad_top,
                    pad_bottom,
                )
            },
        },
{
    if bw == 0 || bh == 0 {
        if pad_left == i32::MIN {
            return None;
        }
        return Some(java_layout(bx, by, bw, bh, lsb, rsb, base, pad_left, pad_right, pad_top, pad_bottom));
    }
    let l: i64 = if lsb > 0 {
        0
    } else {
        lsb as i64
    };
    let r: i64 = if rsb > 0 {
        0
    } else {
        rsb as i64
    };
    let gw: i64 = bw as i64 - l - r;
    let gwp: i64 = if gw > 0 {
        gw
    } else {
        0
    };
    let pl: i64 = if pad_left > 0 {
        pad_left as i64
    } else {
        0
    };
    let pr: i64 = if pad_right > 0 {
        pad_right as i64
    } else {
        0
    };
    let pt: i64 = if pad_top > 0 {
        pad_top as i64
    } else {
        0
    };
    let pb: i64 = if pad_bottom > 0 {
        pad_bottom as i64
    } else {
        0
    };
    let max_i: i64 = i32::MAX as i64;
    let min_i: i64 = i32::MIN as i64;
    let max_u: i64 = u32::MAX as i64;
    let w: i64 = gwp + pl + pr;
    let h: i64 = bh as i64 + pt + pb;
    let xo: i64 = bx as i64 - pad_left as i64;
    let bb: i64 = base as i64 + by as i64;
    let yo: i64 = bb - pad_top as i64;
    if bw as i64 > max_i || bw as i64 - l > max_i || gw > max_i || gwp + pl > max_u || w > max_u || bh as i64
        + pt > max_u || h > max_u || xo < min_i || xo > max_i || base as i64 > max_i || bb < min_i || bb > max_i
        || yo < min_i || yo > max_i {
        return None;
    }
    Some(java_layout(bx, by, bw, bh, lsb, rsb, base, pad_left, pad_right, pad_top, pad_bottom))
}

/// The advance of a glyph: its own, adjusted and widened by the padding.
pub fn glyph_xadvance(raw_advance: i32, adjust_x: i32, pad_left: i32, pad_right: i32) -> (a: i32)
    requires
        i32::MIN <= raw_advance + adjust_x <= i32::MAX,
        i32::MIN <= raw_advance + adjust_x + pad_left <= i32::MAX,
        i32::MIN <= raw_advance + adjust_x + pad_left + pad_right <= i32::MAX,
    ensures
        a == raw_advance + adjust_x + pad_left + pad_right,
{
    raw_advance + adjust_x + pad_left + pad_right
}

/// Hiero's line height: descent + ascent + leading + top and bottom padding
/// + vertical advance adjustment, each metric read as `i32` and the sum
/// cut to `u32`.
pub open spec fn line_height_spec(
    descent: u32,
    base: u32,
    leading: u32,
    pad_top: i32,
    pad_bottom: i32,
    adjust_y: i32,
) -> u32 {
    ((descent as i32) + (base as i32) + (leading as i32) + pad_top + pad_bottom + adjust_y) as u32
}

/// The line height is the sum of the descent, the ascent (`base`), the
/// leading, the top and bottom padding and the vertical advance
/// adjustment, wherever each metric is an `i32` and that sum is a `u32`.
pub proof fn lemma_line_height_is_the_sum(
    descent: u32,
    base: u32,
    leading: u32,
    pad_top: i32,
    pad_bottom: i32,
    adjust_y: i32,
)
    requires
        descent <= i32::MAX,
        base <= i32::MAX,
        leading <= i32::MAX,
        0 <= descent + base + leading + pad_top + pad_bottom + adjust_y <= u32::MAX,
    ensures
        line_height_spec(descent, base, leading, pad_top, pad_bottom, adjust_y) == descent + base + leading
            + pad_top + pad_bottom + adjust_y,
{
}

pub open spec fn line_height_fits(
    descent: u32,
    base: u32,
    leading: u32,
    pad_top: i32,
    pad_bottom: i32,
    adjust_y: i32,
) -> bool {
    let d = descent as i32 as int;
    let b = base as i32 as int;
    let l = leading as i32 as int;
    &&& i32::MIN <= d + b <= i32::MAX
    &&& i32::MIN <= d + b + l <= i32::MAX
    &&& i32::MIN <= d + b + l + pad_top <= i32::MAX
    &&& i32::MIN <= d + b + l + pad_top + pad_bottom <= i32::MAX
    &&& i32::MIN <= d + b + l + pad_top + pad_bottom + adjust_y <= i32::MAX
}

pub fn line_height(
    descent: u32,
    base: u32,
    leading: u32,
    pad_top: i32,
    pad_bottom: i32,
    adjust_y: i32,
) -> (h: u32)
    requires
        line_height_fits(descent, base, leading, pad_top, pad_bottom, adjust_y),
    ensures
        h == line_height_spec(descent, base, leading, pad_top, pad_bottom, adjust_y),
{
    let d = #[verifier::truncate] (descent as i32);
    let b = #[verifier::truncate] (base as i32);
    let l = #[verifier::truncate] (leading as i32);
    #[verifier::truncate]
    ((d + b + l + pad_top + pad_bottom + adjust_y) as u32)
}

// ---------------------------------------------------------------------------
// Distance-field settings
// ---------------------------------------------------------------------------

/// The distance-field settings of a build: the colour, scale and spread of
/// its first effect; a build needs one.
pub open spec fn effect_settings_spec(effects: Seq<EffectView>) -> Result<(Seq<u8>, u32, Seq<char>), ErrorView> {
    if effects.len() == 0 {
        Err(ErrorView::Config("no effects specified; v1 requires DistanceFieldEffect"@))
    } else {
        match effects[0] {
            EffectView::DistanceField { color, scale, spread } => match spec_parse_color(color) {
                Err(e) => Err(e),
                Ok(c) => Ok((c, scale, spread)),
            },
        }
    }
}

pub fn effect_settings(spec: &BuildSpec) -> (r: Result<([u8; 3], u32, String), FontbakeError>)
    requires
        spec@.effects.len() > 0 ==> match spec@.effects[0] {
            EffectView::DistanceField { color, .. } => !color_panics(color),
        },
    ensures
        match r {
            Ok(t) => effect_settings_spec(spec@.effects) == Ok::<_, ErrorView>((t.0@, t.1, t.2@)),
            Err(e) => effect_settings_spec(spec@.effects) == Err::<(Seq<u8>, u32, Seq<char>), ErrorView>(e@),
        },
{
    if spec.effects.len() == 0 {
        return Err(FontbakeError::Config(crate::source::bmfont_text::str_to_string(
            "no effects specified; v1 requires DistanceFieldEffect",
        )));
    }
    assert(spec@.effects[0] == spec.effects@[0]@);
    match &spec.effects[0] {
        EffectSpec::DistanceField { color, scale, spread } => {
            match DistanceFieldConfig::parse_color(color.as_str()) {
                Ok(c) => Ok((c, *scale, spread.clone())),
                Err(e) => Err(e),
            }
        },
    }
}

} // verus!
