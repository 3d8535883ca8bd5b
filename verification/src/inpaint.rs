//! Removing the text of a recognized region from a page picture: the
//! region, or the pixels of it that look like the text, is painted over
//! with the background color, by the policy chosen for the region.
use vstd::prelude::*;
use vstd::arithmetic::div_mod::{lemma_fundamental_div_mod, lemma_fundamental_div_mod_converse};
use crate::border_color::{calculate_border_average_color, lemma_border_samples_len, region_of, spec_border_color};
use crate::color::{is_high_saturation, is_within_distance, spec_distance_sq, spec_high_saturation};
use crate::ocr_kinds::RegionPolicy;

verus! {

/// Which pixels of a region are painted over: all of them, the strongly
/// saturated ones within distance 60 of the text color, or those within
/// distance 50 of the text color.
#[derive(Clone, Copy, Debug)]
pub enum Brush {
    All,
    SaturatedNear([u8; 3]),
    Near([u8; 3]),
}

/// The colors that the color analysis of a region found.
#[derive(Clone, Copy, Debug)]
pub struct TextColors {
    pub text: [u8; 3],
    pub background: [u8; 3],
}

/// Whether the brush paints over a pixel of color `c`.
pub open spec fn selects(brush: Brush, c: [u8; 3]) -> bool {
    match brush {
        Brush::All => true,
        Brush::SaturatedNear(t) => spec_high_saturation(c) && spec_distance_sq(c, t) < 60 * 60,
        Brush::Near(t) => spec_distance_sq(c, t) < 50 * 50,
    }
}

/// The color channels of the pixel that holds byte `i`.
pub open spec fn rgb_at(p: Seq<u8>, i: int) -> [u8; 3] {
    let b = (i / 4) * 4;
    [p[b], p[b + 1], p[b + 2]]
}

/// The pixel `(x, y)` that holds byte `i` of an RGBA buffer `w` pixels wide.
pub open spec fn pixel_xy(w: int, i: int) -> (int, int) {
    ((i / 4) % w, (i / 4) / w)
}

pub open spec fn in_region(xy: (int, int), x1: int, y1: int, x2: int, y2: int) -> bool {
    x1 <= xy.0 < x2 && y1 <= xy.1 < y2
}

/// Byte `i` once the region `x1..x2` by `y1..y2` is painted `color` with
/// the brush.
pub open spec fn painted_byte(old: Seq<u8>, w: int, x1: int, y1: int, x2: int, y2: int, color: [u8; 4], brush: Brush, i: int) -> u8 {
    if in_region(pixel_xy(w, i), x1, y1, x2, y2) && selects(brush, rgb_at(old, i)) {
        color[i % 4]
    } else {
        old[i]
    }
}

/// An RGBA picture `w` pixels wide with the region `x1..x2` by `y1..y2`
/// painted `color` where the brush selects a pixel by its color.
pub open spec fn painted(old: Seq<u8>, w: int, x1: int, y1: int, x2: int, y2: int, color: [u8; 4], brush: Brush) -> Seq<u8> {
    Seq::new(old.len(), |i: int| painted_byte(old, w, x1, y1, x2, y2, color, brush, i))
}

/// `(y, x)` comes before `(py, px)` row by row.
pub open spec fn before(xy: (int, int), px: int, py: int) -> bool {
    xy.1 < py || (xy.1 == py && xy.0 < px)
}

/// The bytes of pixel `(px, py)` lie at `4 * (py * w + px)` and on.
proof fn lemma_pixel_bytes(w: int, h: int, px: int, py: int, c: int)
    requires
        0 <= px < w,
        0 <= py < h,
        0 <= c < 4,
    ensures
        pixel_xy(w, 4 * (py * w + px) + c) == (px, py),
        (4 * (py * w + px) + c) % 4 == c,
        ((4 * (py * w + px) + c) / 4) * 4 == 4 * (py * w + px),
        0 <= 4 * (py * w + px) + c < 4 * (w * h),
{
    let p = py * w + px;
    lemma_fundamental_div_mod_converse(4 * p + c, 4, p, c);
    lemma_fundamental_div_mod_converse(p, w, py, px);
    assert(p < w * h) by (nonlinear_arith)
        requires
            0 <= px < w,
            0 <= py < h,
            p == py * w + px,
    ;
    assert(p >= 0) by (nonlinear_arith)
        requires
            0 <= px,
            0 <= py,
            0 <= w,
            p == py * w + px,
    ;
}

/// Every byte of a `w` by `h` picture lies in a pixel inside it.
proof fn lemma_byte_pixel(w: int, h: int, i: int)
    requires
        0 <= w,
        0 <= h,
        0 <= i < 4 * (w * h),
    ensures
        0 <= pixel_xy(w, i).0 < w,
        0 <= pixel_xy(w, i).1 < h,
{
    assert(w > 0) by (nonlinear_arith)
        requires
            0 <= w,
            0 <= h,
            0 < w * h,
    ;
    let p = i / 4;
    assert(p < w * h);
    assert(p / w < h) by (nonlinear_arith)
        requires
            0 <= p < w * h,
            0 < w,
    ;
}

fn selects_color(brush: Brush, c: [u8; 3]) -> (r: bool)
    ensures
        r == selects(brush, c),
{
    match brush {
        Brush::All => true,
        Brush::SaturatedNear(t) => is_high_saturation(&c) && is_within_distance(&c, &t, 60),
        Brush::Near(t) => is_within_distance(&c, &t, 50),
    }
}

/// Paints the region `x1..x2` by `y1..y2` of an RGBA picture (held to
/// the picture) with `color` where the brush selects a pixel.
pub fn paint_region(
    pixels: &mut Vec<u8>,
    width: u32,
    height: u32,
    x1: u32,
    y1: u32,
    x2: u32,
    y2: u32,
    color: [u8; 4],
    brush: Brush,
)
    requires
        old(pixels)@.len() == 4 * (width as int * height as int),
    ensures
        final(pixels)@ == painted(old(pixels)@, width as int, x1 as int, y1 as int, x2 as int, y2 as int, color, brush),
{
    let ghost old_px = pixels@;
    let ghost w = width as int;
    let ghost h = height as int;
    let total = pixels.len();
    let xe = if x2 < width { x2 } else { width };
    let ye = if y2 < height { y2 } else { height };
    let mut py = y1;
    while py < ye
        invariant
            y1 <= py,
            ye as int == if y2 < height { y2 as int } else { h },
            xe as int == if x2 < width { x2 as int } else { w },
            w == width as int,
            h == height as int,
            pixels@.len() == old_px.len(),
            old_px.len() == 4 * (w * h),
            total == old_px.len(),
            forall|i: int|
                0 <= i < old_px.len() ==> #[trigger] pixels@[i] == if before(pixel_xy(w, i), 0, py as int) {
                    painted_byte(old_px, w, x1 as int, y1 as int, x2 as int, y2 as int, color, brush, i)
                } else {
                    old_px[i]
                },
        decreases ye - py,
    {
        let mut px = x1;
        while px < xe
            invariant
                y1 <= py < ye,
                x1 <= px,
                ye as int == if y2 < height { y2 as int } else { h },
                xe as int == if x2 < width { x2 as int } else { w },
                w == width as int,
                h == height as int,
                pixels@.len() == old_px.len(),
                old_px.len() == 4 * (w * h),
                total == old_px.len(),
                forall|i: int|
                    0 <= i < old_px.len() ==> #[trigger] pixels@[i] == if before(pixel_xy(w, i), px as int, py as int) && in_region(
                        pixel_xy(w, i),
                        x1 as int,
                        y1 as int,
                        x2 as int,
                        y2 as int,
                    ) {
                        painted_byte(old_px, w, x1 as int, y1 as int, x2 as int, y2 as int, color, brush, i)
                    } else {
                        old_px[i]
                    },
            decreases xe - px,
        {
            proof {
                lemma_pixel_bytes(w, h, px as int, py as int, 0);
                lemma_pixel_bytes(w, h, px as int, py as int, 1);
                lemma_pixel_bytes(w, h, px as int, py as int, 2);
                lemma_pixel_bytes(w, h, px as int, py as int, 3);
                assert(py * w + px < total);
                assert(py * w <= py * w + px) by (nonlinear_arith)
                    requires
                        0 <= px,
                ;
            }
            let base = 4 * (py as usize * width as usize + px as usize);
            let c = [pixels[base], pixels[base + 1], pixels[base + 2]];
            proof {
                assert(!before(pixel_xy(w, base as int), px as int, py as int));
                assert(c == rgb_at(old_px, base as int));
            }
            if selects_color(brush, c) {
                pixels.set(base, color[0]);
                pixels.set(base + 1, color[1]);
                pixels.set(base + 2, color[2]);
                pixels.set(base + 3, color[3]);
            }
            proof {
                assert forall|i: int| 0 <= i < old_px.len() implies #[trigger] pixels@[i] == if before(
                    pixel_xy(w, i),
                    px + 1,
                    py as int,
                ) && in_region(pixel_xy(w, i), x1 as int, y1 as int, x2 as int, y2 as int) {
                    painted_byte(old_px, w, x1 as int, y1 as int, x2 as int, y2 as int, color, brush, i)
                } else {
                    old_px[i]
                } by {
                    if base <= i < base + 4 {
                        lemma_pixel_bytes(w, h, px as int, py as int, i - base);
                        assert(rgb_at(old_px, i) == c);
                    } else {
                        lemma_byte_pixel(w, h, i);
                        lemma_fundamental_div_mod(i / 4, w);
                        if pixel_xy(w, i) == (px as int, py as int) {
                            assert(w * (py as int) == py * w) by (nonlinear_arith);
                            assert(i / 4 == py * w + px);
                            assert(false);
                        }
                    }
                }
            }
            px = px + 1;
        }
        proof {
            assert forall|i: int| 0 <= i < old_px.len() implies #[trigger] pixels@[i] == if before(
                pixel_xy(w, i),
                0,
                py + 1,
            ) {
                painted_byte(old_px, w, x1 as int, y1 as int, x2 as int, y2 as int, color, brush, i)
            } else {
                old_px[i]
            } by {
                lemma_byte_pixel(w, h, i);
            }
        }
        py = py + 1;
    }
    proof {
        assert(pixels@ =~= painted(old_px, w, x1 as int, y1 as int, x2 as int, y2 as int, color, brush)) by {
            assert forall|i: int| 0 <= i < old_px.len() implies #[trigger] pixels@[i] == painted_byte(
                old_px,
                w,
                x1 as int,
                y1 as int,
                x2 as int,
                y2 as int,
                color,
                brush,
                i,
            ) by {
                lemma_byte_pixel(w, h, i);
            }
        }
    }
}


/// The color of an analysed background, opaque.
pub open spec fn opaque(c: [u8; 3]) -> [u8; 4] {
    [c[0], c[1], c[2], 255]
}

/// The background of a region: the analysed one, else the color around it.
pub open spec fn background_of(colors: Option<TextColors>, border: [u8; 4]) -> [u8; 4] {
    match colors {
        Some(c) => opaque(c.background),
        None => border,
    }
}

/// The picture once the text of the region `x1..x2` by `y1..y2` is
/// removed by `policy`. Where the color of the surroundings is used, it is
/// the border color of the region in the picture as it was.
/// - Dark text on light, and badges: the region is filled with it.
/// - Light text on a dark header: the region is filled with the analysed
///   background, else with it.
/// - Colored labels: with an analysis, the strongly saturated pixels near
///   the text color are painted with the analysed background; else the
///   region is filled with it.
/// - Complex visuals: with an analysis, the pixels near the text color are
///   painted with the analysed background; else the region is filled with it.
pub open spec fn spec_apply_region_policy(
    p: Seq<u8>,
    width: u32,
    height: u32,
    x1: u32,
    y1: u32,
    x2: u32,
    y2: u32,
    policy: RegionPolicy,
    colors: Option<TextColors>,
) -> Seq<u8> {
    let border = spec_border_color(p, region_of(x1, y1, x2, y2, width, height));
    let (w, a, b, c, d) = (width as int, x1 as int, y1 as int, x2 as int, y2 as int);
    match policy {
        RegionPolicy::DarkTextOnLight => painted(p, w, a, b, c, d, border, Brush::All),
        RegionPolicy::CompositeBadge => painted(p, w, a, b, c, d, border, Brush::All),
        RegionPolicy::LightTextOnDarkHeader => painted(p, w, a, b, c, d, background_of(colors, border), Brush::All),
        RegionPolicy::ColoredLabel => match colors {
            Some(t) => painted(p, w, a, b, c, d, opaque(t.background), Brush::SaturatedNear(t.text)),
            None => painted(p, w, a, b, c, d, border, Brush::All),
        },
        RegionPolicy::ComplexVisualText => match colors {
            Some(t) => painted(p, w, a, b, c, d, opaque(t.background), Brush::Near(t.text)),
            None => painted(p, w, a, b, c, d, border, Brush::All),
        },
    }
}

/// What the border color needs of a region and its picture.
pub open spec fn border_fits(width: u32, height: u32, x1: u32, y1: u32, x2: u32, y2: u32) -> bool {
    &&& 0 < width
    &&& 0 < height
    &&& x1 <= width
    &&& y1 <= height
    &&& x2 <= width
    &&& y2 <= height
    &&& 255 * (6 * width + 6 * height + 100) <= u32::MAX
}

fn border_color_of(pixels: &Vec<u8>, width: u32, height: u32, x1: u32, y1: u32, x2: u32, y2: u32) -> (r: [u8; 4])
    requires
        pixels@.len() == 4 * (width as int * height as int),
        border_fits(width, height, x1, y1, x2, y2),
    ensures
        r == spec_border_color(pixels@, region_of(x1, y1, x2, y2, width, height)),
{
    proof {
        lemma_border_samples_len(pixels@, region_of(x1, y1, x2, y2, width, height));
    }
    calculate_border_average_color(pixels.as_slice(), width, height, x1, y1, x2, y2)
}

/// Fills the region with one color.
pub fn fill_region_with_color(pixels: &mut Vec<u8>, width: u32, height: u32, x1: u32, y1: u32, x2: u32, y2: u32, color: [u8; 4])
    requires
        old(pixels)@.len() == 4 * (width as int * height as int),
    ensures
        final(pixels)@ == painted(old(pixels)@, width as int, x1 as int, y1 as int, x2 as int, y2 as int, color, Brush::All),
{
    paint_region(pixels, width, height, x1, y1, x2, y2, color, Brush::All);
}

/// Removes the text of a region from an RGBA picture by the region's
/// policy.
pub fn apply_region_policy(
    pixels: &mut Vec<u8>,
    width: u32,
    height: u32,
    x1: u32,
    y1: u32,
    x2: u32,
    y2: u32,
    policy: RegionPolicy,
    colors: Option<TextColors>,
)
    requires
        old(pixels)@.len() == 4 * (width as int * height as int),
        border_fits(width, height, x1, y1, x2, y2),
    ensures
        final(pixels)@ == spec_apply_region_policy(old(pixels)@, width, height, x1, y1, x2, y2, policy, colors),
{
    match policy {
        RegionPolicy::DarkTextOnLight | RegionPolicy::CompositeBadge => {
            let bg = border_color_of(pixels, width, height, x1, y1, x2, y2);
            fill_region_with_color(pixels, width, height, x1, y1, x2, y2, bg);
        },
        RegionPolicy::LightTextOnDarkHeader => {
            let bg = match colors {
                Some(t) => [t.background[0], t.background[1], t.background[2], 255],
                None => border_color_of(pixels, width, height, x1, y1, x2, y2),
            };
            fill_region_with_color(pixels, width, height, x1, y1, x2, y2, bg);
        },
        RegionPolicy::ColoredLabel => {
            match colors {
                Some(t) => {
                    let bg = [t.background[0], t.background[1], t.background[2], 255];
                    paint_region(pixels, width, height, x1, y1, x2, y2, bg, Brush::SaturatedNear(t.text));
                },
                None => {
                    let bg = border_color_of(pixels, width, height, x1, y1, x2, y2);
                    fill_region_with_color(pixels, width, height, x1, y1, x2, y2, bg);
                },
            }
        },
        RegionPolicy::ComplexVisualText => {
            match colors {
                Some(t) => {
                    let bg = [t.background[0], t.background[1], t.background[2], 255];
                    paint_region(pixels, width, height, x1, y1, x2, y2, bg, Brush::Near(t.text));
                },
                None => {
                    let bg = border_color_of(pixels, width, height, x1, y1, x2, y2);
                    fill_region_with_color(pixels, width, height, x1, y1, x2, y2, bg);
                },
            }
        },
    }
}

/// Painting touches nothing outside the region: every pixel outside it
/// keeps its color.
pub proof fn law_painting_stays_in_region(
    old: Seq<u8>,
    w: int,
    x1: int,
    y1: int,
    x2: int,
    y2: int,
    color: [u8; 4],
    brush: Brush,
    i: int,
)
    requires
        0 <= i < old.len(),
        !in_region(pixel_xy(w, i), x1, y1, x2, y2),
    ensures
        painted(old, w, x1, y1, x2, y2, color, brush)[i] == old[i],
{
}

/// What removing a region's text does to each byte `i` of the picture,
/// stated over the bytes: outside the region nothing changes; inside it,
/// by the policy,
/// - dark text on light and badges: the border color of the region;
/// - light text on a dark header: the analysed background (opaque), else
///   the border color;
/// - colored labels: with an analysis, a pixel whose color is strongly
///   saturated and within distance 60 of the text color takes the analysed
///   background (opaque), any other keeps its bytes; else the border color;
/// - complex visuals: with an analysis, a pixel within distance 50 of the
///   text color takes the analysed background (opaque), any other keeps its
///   bytes; else the border color.
pub proof fn law_region_policy_bytes(
    p: Seq<u8>,
    width: u32,
    height: u32,
    x1: u32,
    y1: u32,
    x2: u32,
    y2: u32,
    policy: RegionPolicy,
    colors: Option<TextColors>,
    i: int,
)
    requires
        0 <= i < p.len(),
    ensures
        ({
            let q = spec_apply_region_policy(p, width, height, x1, y1, x2, y2, policy, colors);
            let border = spec_border_color(p, region_of(x1, y1, x2, y2, width, height));
            let px = (i / 4) % (width as int);
            let py = (i / 4) / (width as int);
            let c: [u8; 3] = [p[(i / 4) * 4], p[(i / 4) * 4 + 1], p[(i / 4) * 4 + 2]];
            let inside = x1 <= px < x2 && y1 <= py < y2;
            &&& q.len() == p.len()
            &&& !inside ==> q[i] == p[i]
            &&& inside ==> q[i] == match policy {
                RegionPolicy::DarkTextOnLight => border[i % 4],
                RegionPolicy::CompositeBadge => border[i % 4],
                RegionPolicy::LightTextOnDarkHeader => match colors {
                    Some(t) => if i % 4 == 3 { 255u8 } else { t.background[i % 4] },
                    None => border[i % 4],
                },
                RegionPolicy::ColoredLabel => match colors {
                    Some(t) => if spec_high_saturation(c) && spec_distance_sq(c, t.text) < 3600 {
                        if i % 4 == 3 { 255u8 } else { t.background[i % 4] }
                    } else {
                        p[i]
                    },
                    None => border[i % 4],
                },
                RegionPolicy::ComplexVisualText => match colors {
                    Some(t) => if spec_distance_sq(c, t.text) < 2500 {
                        if i % 4 == 3 { 255u8 } else { t.background[i % 4] }
                    } else {
                        p[i]
                    },
                    None => border[i % 4],
                },
            }
        }),
{
}

/// Removing a colored label with analysed colors erases its text: every
/// pixel of the region that is strongly saturated and within distance 60 of
/// the text color ends as the analysed background, opaque, so never as the
/// text color when the two differ; every other pixel keeps its bytes.
pub proof fn law_colored_label_erases_text(
    p: Seq<u8>,
    width: u32,
    height: u32,
    x1: u32,
    y1: u32,
    x2: u32,
    y2: u32,
    t: TextColors,
    k: int,
)
    requires
        p.len() == 4 * (width as int * height as int),
        0 <= k < width as int * height as int,
        x1 <= k % (width as int) < x2,
        y1 <= k / (width as int) < y2,
    ensures
        ({
            let q = spec_apply_region_policy(p, width, height, x1, y1, x2, y2, RegionPolicy::ColoredLabel, Some(t));
            let c: [u8; 3] = [p[4 * k], p[4 * k + 1], p[4 * k + 2]];
            if spec_high_saturation(c) && spec_distance_sq(c, t.text) < 3600 {
                &&& q[4 * k] == t.background[0]
                &&& q[4 * k + 1] == t.background[1]
                &&& q[4 * k + 2] == t.background[2]
                &&& q[4 * k + 3] == 255
                &&& t.background != t.text ==> [q[4 * k], q[4 * k + 1], q[4 * k + 2]] != t.text
            } else {
                &&& q[4 * k] == p[4 * k]
                &&& q[4 * k + 1] == p[4 * k + 1]
                &&& q[4 * k + 2] == p[4 * k + 2]
                &&& q[4 * k + 3] == p[4 * k + 3]
            }
        }),
{
    assert(width as int > 0) by (nonlinear_arith)
        requires
            0 <= k < width as int * height as int,
            height >= 0,
    ;
    assert(4 * k + 3 < p.len());
    assert forall|j: int| 0 <= j < 4 implies (4 * k + j) / 4 == k && #[trigger] ((4 * k + j) % 4) == j by {
        lemma_fundamental_div_mod_converse(4 * k + j, 4, k, j);
    }
    law_region_policy_bytes(p, width, height, x1, y1, x2, y2, RegionPolicy::ColoredLabel, Some(t), 4 * k);
    law_region_policy_bytes(p, width, height, x1, y1, x2, y2, RegionPolicy::ColoredLabel, Some(t), 4 * k + 1);
    law_region_policy_bytes(p, width, height, x1, y1, x2, y2, RegionPolicy::ColoredLabel, Some(t), 4 * k + 2);
    law_region_policy_bytes(p, width, height, x1, y1, x2, y2, RegionPolicy::ColoredLabel, Some(t), 4 * k + 3);
    assert((4 * k) % 4 == 0 && (4 * k + 1) % 4 == 1 && (4 * k + 2) % 4 == 2 && (4 * k + 3) % 4 == 3);
    assert((4 * k) / 4 == k && (4 * k + 1) / 4 == k && (4 * k + 2) / 4 == k && (4 * k + 3) / 4 == k);
    let q = spec_apply_region_policy(p, width, height, x1, y1, x2, y2, RegionPolicy::ColoredLabel, Some(t));
    if t.background != t.text && q[4 * k] == t.background[0] && q[4 * k + 1] == t.background[1] && q[4 * k + 2] == t.background[2] {
        assert([q[4 * k], q[4 * k + 1], q[4 * k + 2]] =~= t.background);
    }
}

} // verus!
