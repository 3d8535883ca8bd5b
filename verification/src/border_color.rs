//! The background color around a text region: pixels sampled in rings
//! around the region and in its corners, sorted by brightness, and averaged
//! without the darkest and the brightest fifth.
use vstd::prelude::*;
use crate::line_detect::px_index;

verus! {

/// The RGBA pixel `(x, y)` of a row-major buffer `w` pixels wide.
pub open spec fn pix(p: Seq<u8>, w: int, x: int, y: int) -> [u8; 4] {
    let i = px_index(w, x, y);
    [p[i], p[i + 1], p[i + 2], p[i + 3]]
}

pub open spec fn sat_sub(a: int, b: int) -> int {
    if a >= b { a - b } else { 0 }
}

pub open spec fn min_of(a: int, b: int) -> int {
    if a < b { a } else { b }
}

/// Pixels `from..to` of row `y`.
pub open spec fn hrun(p: Seq<u8>, w: int, y: int, from: int, to: int) -> Seq<[u8; 4]> {
    Seq::new(if to > from { (to - from) as nat } else { 0 }, |k: int| pix(p, w, from + k, y))
}

/// Pixels `from..to` of column `x`.
pub open spec fn vrun(p: Seq<u8>, w: int, x: int, from: int, to: int) -> Seq<[u8; 4]> {
    Seq::new(if to > from { (to - from) as nat } else { 0 }, |k: int| pix(p, w, x, from + k))
}

pub open spec fn above(p: Seq<u8>, r: (int, int, int, int, int, int), off: int) -> Seq<[u8; 4]> {
    if r.1 >= off { hrun(p, r.4, r.1 - off, sat_sub(r.0, off), min_of(r.2 + off, r.4)) } else { seq![] }
}

pub open spec fn below(p: Seq<u8>, r: (int, int, int, int, int, int), off: int) -> Seq<[u8; 4]> {
    if r.3 + off < r.5 { hrun(p, r.4, r.3 + off, sat_sub(r.0, off), min_of(r.2 + off, r.4)) } else { seq![] }
}

pub open spec fn left_of(p: Seq<u8>, r: (int, int, int, int, int, int), off: int) -> Seq<[u8; 4]> {
    if r.0 >= off { vrun(p, r.4, r.0 - off, sat_sub(r.1, off), min_of(r.3 + off, r.5)) } else { seq![] }
}

pub open spec fn right_of(p: Seq<u8>, r: (int, int, int, int, int, int), off: int) -> Seq<[u8; 4]> {
    if r.2 + off < r.4 { vrun(p, r.4, r.2 + off, sat_sub(r.1, off), min_of(r.3 + off, r.5)) } else { seq![] }
}

/// The 5 by 5 pixels from the corner `(cx, cy)`, column by column, held to
/// the picture.
pub open spec fn corner(p: Seq<u8>, r: (int, int, int, int, int, int), cx: int, cy: int) -> Seq<[u8; 4]> {
    if cx < r.4 && cy < r.5 {
        Seq::new(25, |k: int| pix(p, r.4, min_of(cx + k / 5, r.4 - 1), min_of(cy + k % 5, r.5 - 1)))
    } else {
        seq![]
    }
}

/// All samples, in the order they are taken: three rings above, below, to
/// the left and to the right, then the four corners.
pub open spec fn border_samples(p: Seq<u8>, r: (int, int, int, int, int, int)) -> Seq<[u8; 4]> {
    above(p, r, 1) + above(p, r, 2) + above(p, r, 3) + below(p, r, 1) + below(p, r, 2) + below(p, r, 3) + left_of(p, r, 1)
        + left_of(p, r, 2) + left_of(p, r, 3) + right_of(p, r, 1) + right_of(p, r, 2) + right_of(p, r, 3) + corner(
        p,
        r,
        sat_sub(r.0, 3),
        sat_sub(r.1, 3),
    ) + corner(p, r, min_of(r.2, r.4 - 1), sat_sub(r.1, 3)) + corner(p, r, sat_sub(r.0, 3), min_of(r.3, r.5 - 1))
        + corner(p, r, min_of(r.2, r.4 - 1), min_of(r.3, r.5 - 1))
}

/// The brightness by which samples are sorted: the mean of the color
/// channels, rounded down.
pub open spec fn brightness(c: [u8; 4]) -> int {
    (c[0] + c[1] + c[2]) / 3
}

/// Where `x` goes into the sorted list `s`: after every sample that is not
/// brighter.
pub open spec fn insert_at(s: Seq<[u8; 4]>, x: [u8; 4], j: int) -> int
    decreases s.len() - j,
{
    if j < 0 || j >= s.len() {
        s.len() as int
    } else if brightness(s[j]) > brightness(x) {
        j
    } else {
        insert_at(s, x, j + 1)
    }
}

/// The samples sorted by brightness, equal ones keeping their order (a
/// stable sort, written as insertion).
pub open spec fn sort_by_brightness(s: Seq<[u8; 4]>) -> Seq<[u8; 4]>
    decreases s.len(),
{
    if s.len() == 0 {
        seq![]
    } else {
        let t = sort_by_brightness(s.drop_last());
        t.insert(insert_at(t, s.last(), 0), s.last())
    }
}

/// The sum of channel `ch` over a list of samples.
pub open spec fn ch_sum(s: Seq<[u8; 4]>, ch: int) -> int
    decreases s.len(),
{
    if s.len() == 0 {
        0
    } else {
        ch_sum(s.drop_last(), ch) + s.last()[ch]
    }
}

/// The channel-wise mean of a nonempty list, rounded down.
pub open spec fn mean(s: Seq<[u8; 4]>) -> [u8; 4] {
    [
        (ch_sum(s, 0) / s.len() as int) as u8,
        (ch_sum(s, 1) / s.len() as int) as u8,
        (ch_sum(s, 2) / s.len() as int) as u8,
        (ch_sum(s, 3) / s.len() as int) as u8,
    ]
}

/// The background color around a region: white without samples; else the
/// mean of the sorted samples without the first and the last fifth (of the
/// whole list when that leaves none).
pub open spec fn spec_border_color(p: Seq<u8>, r: (int, int, int, int, int, int)) -> [u8; 4] {
    let s = border_samples(p, r);
    let n = s.len() as int;
    if n == 0 {
        [255u8, 255u8, 255u8, 255u8]
    } else if n / 5 >= n - n / 5 {
        mean(s)
    } else {
        mean(sort_by_brightness(s).subrange(n / 5, n - n / 5))
    }
}

/// The region `x1..x2` by `y1..y2` of a `width` by `height` picture, as
/// `(x1, y1, x2, y2, width, height)`.
pub open spec fn region_of(x1: u32, y1: u32, x2: u32, y2: u32, width: u32, height: u32) -> (int, int, int, int, int, int) {
    (x1 as int, y1 as int, x2 as int, y2 as int, width as int, height as int)
}

proof fn lemma_pix_index(w: int, h: int, x: int, y: int)
    requires
        0 <= x < w,
        0 <= y < h,
    ensures
        0 <= px_index(w, x, y),
        px_index(w, x, y) + 3 < 4 * (w * h),
{
    assert(0 <= y * w + x < w * h) by (nonlinear_arith)
        requires
            0 <= x < w,
            0 <= y < h,
    ;
}

fn pixel(pixels: &[u8], width: u32, height: u32, x: u32, y: u32) -> (r: [u8; 4])
    requires
        pixels@.len() == 4 * (width as int * height as int),
        x < width,
        y < height,
    ensures
        r == pix(pixels@, width as int, x as int, y as int),
{
    let plen = pixels.len();
    proof {
        lemma_pix_index(width as int, height as int, x as int, y as int);
    }
    let i: usize = (y as usize * width as usize + x as usize) * 4;
    [pixels[i], pixels[i + 1], pixels[i + 2], pixels[i + 3]]
}

/// Appends pixels `from..to` of row `y` (columns below `width`).
fn push_hrun(out: &mut Vec<[u8; 4]>, pixels: &[u8], width: u32, height: u32, y: u32, from: u32, to: u32)
    requires
        pixels@.len() == 4 * (width as int * height as int),
        y < height,
        to <= width,
    ensures
        final(out)@ == old(out)@ + hrun(pixels@, width as int, y as int, from as int, to as int),
{
    let mut x = from;
    let ghost run = hrun(pixels@, width as int, y as int, from as int, to as int);
    while x < to
        invariant
            from <= x <= to || (x == from && from >= to),
            to <= width,
            y < height,
            pixels@.len() == 4 * (width as int * height as int),
            run == hrun(pixels@, width as int, y as int, from as int, to as int),
            out@ == old(out)@ + run.take(if x > from { x - from } else { 0 }),
        decreases to - x,
    {
        let c = pixel(pixels, width, height, x, y);
        out.push(c);
        proof {
            assert(run.take(x + 1 - from) =~= run.take(x - from).push(c));
        }
        x = x + 1;
    }
    proof {
        assert(run.take(if x > from { x - from } else { 0 }) =~= run);
    }
}

/// Appends pixels `from..to` of column `x` (rows below `height`).
fn push_vrun(out: &mut Vec<[u8; 4]>, pixels: &[u8], width: u32, height: u32, x: u32, from: u32, to: u32)
    requires
        pixels@.len() == 4 * (width as int * height as int),
        x < width,
        to <= height,
    ensures
        final(out)@ == old(out)@ + vrun(pixels@, width as int, x as int, from as int, to as int),
{
    let mut y = from;
    let ghost run = vrun(pixels@, width as int, x as int, from as int, to as int);
    while y < to
        invariant
            from <= y <= to || (y == from && from >= to),
            to <= height,
            x < width,
            pixels@.len() == 4 * (width as int * height as int),
            run == vrun(pixels@, width as int, x as int, from as int, to as int),
            out@ == old(out)@ + run.take(if y > from { y - from } else { 0 }),
        decreases to - y,
    {
        let c = pixel(pixels, width, height, x, y);
        out.push(c);
        proof {
            assert(run.take(y + 1 - from) =~= run.take(y - from).push(c));
        }
        y = y + 1;
    }
    proof {
        assert(run.take(if y > from { y - from } else { 0 }) =~= run);
    }
}

fn min_u32(a: u32, b: u32) -> (r: u32)
    ensures
        r == min_of(a as int, b as int),
{
    if a < b {
        a
    } else {
        b
    }
}

/// Appends the 5 by 5 pixels from a corner, when it lies in the picture.
fn push_corner(out: &mut Vec<[u8; 4]>, pixels: &[u8], width: u32, height: u32, cx: u32, cy: u32)
    requires
        pixels@.len() == 4 * (width as int * height as int),
        width > 0,
        height > 0,
    ensures
        final(out)@ == old(out)@ + corner(pixels@, region_of(0, 0, 0, 0, width, height), cx as int, cy as int),
{
    let ghost r = region_of(0, 0, 0, 0, width, height);
    let ghost part = corner(pixels@, r, cx as int, cy as int);
    if cx < width && cy < height {
        let mut dx: u32 = 0;
        while dx < 5
            invariant
                0 <= dx <= 5,
                cx < width,
                cy < height,
                pixels@.len() == 4 * (width as int * height as int),
                r == region_of(0, 0, 0, 0, width, height),
                part == corner(pixels@, r, cx as int, cy as int),
                part.len() == 25,
                out@ == old(out)@ + part.take(5 * dx),
            decreases 5 - dx,
        {
            let mut dy: u32 = 0;
            while dy < 5
                invariant
                    0 <= dx < 5,
                    0 <= dy <= 5,
                    cx < width,
                    cy < height,
                    pixels@.len() == 4 * (width as int * height as int),
                    r == region_of(0, 0, 0, 0, width, height),
                    part == corner(pixels@, r, cx as int, cy as int),
                    part.len() == 25,
                    out@ == old(out)@ + part.take(5 * dx + dy),
                decreases 5 - dy,
            {
                let px = min_u32(cx.saturating_add(dx), width - 1);
                let py = min_u32(cy.saturating_add(dy), height - 1);
                let c = pixel(pixels, width, height, px, py);
                proof {
                    let k = 5 * dx + dy;
                    assert(px as int == min_of(cx + dx, width - 1));
                    assert(py as int == min_of(cy + dy, height - 1));
                    assert(k / 5 == dx as int);
                    assert(k % 5 == dy as int);
                    assert(0 <= k < 25);
                    assert(part[k] == pix(pixels@, width as int, min_of(cx + k / 5, width - 1), min_of(cy + k % 5, height - 1)));
                    assert(part[k] == c);
                    assert(part.take(k + 1) =~= part.take(k).push(c));
                }
                out.push(c);
                dy = dy + 1;
            }
            dx = dx + 1;
        }
        proof {
            assert(part.take(25) =~= part);
        }
    } else {
        proof {
            assert(old(out)@ + part =~= old(out)@);
        }
    }
}

/// Collects the samples around the region.
fn collect_samples(pixels: &[u8], width: u32, height: u32, x1: u32, y1: u32, x2: u32, y2: u32) -> (r: Vec<[u8; 4]>)
    requires
        pixels@.len() == 4 * (width as int * height as int),
        0 < width,
        0 < height,
        x1 <= width,
        y1 <= height,
        x2 <= width,
        y2 <= height,
        width + 3 <= u32::MAX,
        height + 3 <= u32::MAX,
    ensures
        r@ == border_samples(pixels@, region_of(x1, y1, x2, y2, width, height)),
{
    let ghost rg = region_of(x1, y1, x2, y2, width, height);
    let mut out: Vec<[u8; 4]> = Vec::new();
    let mut off: u32 = 1;
    while off <= 3
        invariant
            1 <= off <= 4,
            pixels@.len() == 4 * (width as int * height as int),
            0 < width && 0 < height && x1 <= width && y1 <= height && x2 <= width && y2 <= height,
            width + 3 <= u32::MAX && height + 3 <= u32::MAX,
            rg == region_of(x1, y1, x2, y2, width, height),
            off == 1 ==> out@ == Seq::<[u8; 4]>::empty(),
            off == 2 ==> out@ == above(pixels@, rg, 1),
            off == 3 ==> out@ == above(pixels@, rg, 1) + above(pixels@, rg, 2),
            off == 4 ==> out@ == above(pixels@, rg, 1) + above(pixels@, rg, 2) + above(pixels@, rg, 3),
        decreases 4 - off,
    {
        let ghost before = out@;
        if y1 >= off {
            push_hrun(&mut out, pixels, width, height, y1 - off, x1.saturating_sub(off), min_u32(x2 + off, width));
        }
        proof {
            assert(out@ =~= before + above(pixels@, rg, off as int));
            if off == 1 {
                assert(out@ =~= above(pixels@, rg, 1));
            }
        }
        off = off + 1;
    }
    let ghost part1 = out@;
    off = 1;
    while off <= 3
        invariant
            1 <= off <= 4,
            pixels@.len() == 4 * (width as int * height as int),
            0 < width && 0 < height && x1 <= width && y1 <= height && x2 <= width && y2 <= height,
            width + 3 <= u32::MAX && height + 3 <= u32::MAX,
            rg == region_of(x1, y1, x2, y2, width, height),
            off == 1 ==> out@ == part1,
            off == 2 ==> out@ == part1 + below(pixels@, rg, 1),
            off == 3 ==> out@ == part1 + below(pixels@, rg, 1) + below(pixels@, rg, 2),
            off == 4 ==> out@ == part1 + below(pixels@, rg, 1) + below(pixels@, rg, 2) + below(pixels@, rg, 3),
        decreases 4 - off,
    {
        let ghost before = out@;
        if y2 + off < height {
            push_hrun(&mut out, pixels, width, height, y2 + off, x1.saturating_sub(off), min_u32(x2 + off, width));
        }
        proof {
            assert(out@ =~= before + below(pixels@, rg, off as int));
        }
        off = off + 1;
    }
    let ghost part2 = out@;
    off = 1;
    while off <= 3
        invariant
            1 <= off <= 4,
            pixels@.len() == 4 * (width as int * height as int),
            0 < width && 0 < height && x1 <= width && y1 <= height && x2 <= width && y2 <= height,
            width + 3 <= u32::MAX && height + 3 <= u32::MAX,
            rg == region_of(x1, y1, x2, y2, width, height),
            off == 1 ==> out@ == part2,
            off == 2 ==> out@ == part2 + left_of(pixels@, rg, 1),
            off == 3 ==> out@ == part2 + left_of(pixels@, rg, 1) + left_of(pixels@, rg, 2),
            off == 4 ==> out@ == part2 + left_of(pixels@, rg, 1) + left_of(pixels@, rg, 2) + left_of(pixels@, rg, 3),
        decreases 4 - off,
    {
        let ghost before = out@;
        if x1 >= off {
            push_vrun(&mut out, pixels, width, height, x1 - off, y1.saturating_sub(off), min_u32(y2 + off, height));
        }
        proof {
            assert(out@ =~= before + left_of(pixels@, rg, off as int));
        }
        off = off + 1;
    }
    let ghost part3 = out@;
    off = 1;
    while off <= 3
        invariant
            1 <= off <= 4,
            pixels@.len() == 4 * (width as int * height as int),
            0 < width && 0 < height && x1 <= width && y1 <= height && x2 <= width && y2 <= height,
            width + 3 <= u32::MAX && height + 3 <= u32::MAX,
            rg == region_of(x1, y1, x2, y2, width, height),
            off == 1 ==> out@ == part3,
            off == 2 ==> out@ == part3 + right_of(pixels@, rg, 1),
            off == 3 ==> out@ == part3 + right_of(pixels@, rg, 1) + right_of(pixels@, rg, 2),
            off == 4 ==> out@ == part3 + right_of(pixels@, rg, 1) + right_of(pixels@, rg, 2) + right_of(pixels@, rg, 3),
        decreases 4 - off,
    {
        let ghost before = out@;
        if x2 + off < width {
            push_vrun(&mut out, pixels, width, height, x2 + off, y1.saturating_sub(off), min_u32(y2 + off, height));
        }
        proof {
            assert(out@ =~= before + right_of(pixels@, rg, off as int));
        }
        off = off + 1;
    }
    let ghost part4 = out@;
    let ghost r0 = region_of(0, 0, 0, 0, width, height);
    proof {
        assert forall|cx: int, cy: int| #[trigger] corner(pixels@, rg, cx, cy) == corner(pixels@, r0, cx, cy) by {}
    }
    push_corner(&mut out, pixels, width, height, x1.saturating_sub(3), y1.saturating_sub(3));
    push_corner(&mut out, pixels, width, height, min_u32(x2, width - 1), y1.saturating_sub(3));
    push_corner(&mut out, pixels, width, height, x1.saturating_sub(3), min_u32(y2, height - 1));
    push_corner(&mut out, pixels, width, height, min_u32(x2, width - 1), min_u32(y2, height - 1));
    proof {
        assert(out@ =~= border_samples(pixels@, rg));
    }
    out
}

fn brightness_of(c: [u8; 4]) -> (r: u32)
    ensures
        r == brightness(c),
{
    (c[0] as u32 + c[1] as u32 + c[2] as u32) / 3
}

/// Sorts samples by brightness, keeping equal ones in order.
fn sort_samples(s: &Vec<[u8; 4]>) -> (r: Vec<[u8; 4]>)
    ensures
        r@ == sort_by_brightness(s@),
{
    let mut sorted: Vec<[u8; 4]> = Vec::new();
    let mut k: usize = 0;
    while k < s.len()
        invariant
            0 <= k <= s@.len(),
            sorted@ == sort_by_brightness(s@.take(k as int)),
        decreases s@.len() - k,
    {
        let x = s[k];
        proof {
            assert(s@.take(k + 1).drop_last() =~= s@.take(k as int));
        }
        let mut p: usize = 0;
        while p < sorted.len() && brightness_of(sorted[p]) <= brightness_of(x)
            invariant
                0 <= p <= sorted@.len(),
                insert_at(sorted@, x, 0) == insert_at(sorted@, x, p as int),
            decreases sorted@.len() - p,
        {
            p = p + 1;
        }
        sorted.insert(p, x);
        k = k + 1;
    }
    proof {
        assert(s@.take(s@.len() as int) =~= s@);
    }
    sorted
}

proof fn lemma_ch_sum_bound(s: Seq<[u8; 4]>, ch: int)
    requires
        0 <= ch < 4,
    ensures
        0 <= ch_sum(s, ch) <= 255 * s.len(),
    decreases s.len(),
{
    if s.len() > 0 {
        lemma_ch_sum_bound(s.drop_last(), ch);
    }
}

/// The channel-wise mean of `s[lo..hi]`.
fn mean_of(s: &Vec<[u8; 4]>, lo: usize, hi: usize) -> (r: [u8; 4])
    requires
        lo < hi <= s@.len(),
        255 * (hi - lo) <= u32::MAX,
    ensures
        r == mean(s@.subrange(lo as int, hi as int)),
{
    let ghost t = s@.subrange(lo as int, hi as int);
    let mut sum: [u32; 4] = [0, 0, 0, 0];
    let mut i = lo;
    while i < hi
        invariant
            lo <= i <= hi <= s@.len(),
            255 * (hi - lo) <= u32::MAX,
            t == s@.subrange(lo as int, hi as int),
            forall|ch: int| 0 <= ch < 4 ==> #[trigger] sum[ch] == ch_sum(t.take(i - lo), ch),
        decreases hi - i,
    {
        proof {
            assert(t.take(i + 1 - lo).drop_last() =~= t.take(i - lo));
            assert forall|ch: int| 0 <= ch < 4 implies #[trigger] ch_sum(t.take(i + 1 - lo), ch) <= 255 * (hi - lo) by {
                lemma_ch_sum_bound(t.take(i + 1 - lo), ch);
            }
        }
        let c = s[i];
        proof {
            assert(t.take(i + 1 - lo).last() == c);
            assert(ch_sum(t.take(i + 1 - lo), 0) == sum[0] + c[0]);
            assert(ch_sum(t.take(i + 1 - lo), 1) == sum[1] + c[1]);
            assert(ch_sum(t.take(i + 1 - lo), 2) == sum[2] + c[2]);
            assert(ch_sum(t.take(i + 1 - lo), 3) == sum[3] + c[3]);
        }
        sum = [sum[0] + c[0] as u32, sum[1] + c[1] as u32, sum[2] + c[2] as u32, sum[3] + c[3] as u32];
        i = i + 1;
    }
    proof {
        assert(t.take(hi - lo) =~= t);
    }
    let n = (hi - lo) as u32;
    proof {
        assert forall|ch: int| 0 <= ch < 4 implies #[trigger] sum[ch] / n <= 255 by {
            lemma_ch_sum_bound(t, ch);
            assert(sum[ch] / n <= 255) by (nonlinear_arith)
                requires
                    sum[ch] <= 255 * n,
                    n > 0,
            ;
        }
    }
    [(sum[0] / n) as u8, (sum[1] / n) as u8, (sum[2] / n) as u8, (sum[3] / n) as u8]
}

/// The background color around the region `x1..x2` by `y1..y2`.
pub fn calculate_border_average_color(pixels: &[u8], width: u32, height: u32, x1: u32, y1: u32, x2: u32, y2: u32) -> (r: [u8; 4])
    requires
        pixels@.len() == 4 * (width as int * height as int),
        0 < width,
        0 < height,
        x1 <= width,
        y1 <= height,
        x2 <= width,
        y2 <= height,
        width + 3 <= u32::MAX,
        height + 3 <= u32::MAX,
        255 * border_samples(pixels@, region_of(x1, y1, x2, y2, width, height)).len() <= u32::MAX,
    ensures
        r == spec_border_color(pixels@, region_of(x1, y1, x2, y2, width, height)),
{
    let samples = collect_samples(pixels, width, height, x1, y1, x2, y2);
    let n = samples.len();
    if n == 0 {
        return [255, 255, 255, 255];
    }
    let start = n / 5;
    let end = n - n / 5;
    if start >= end {
        proof {
            assert(samples@.subrange(0, n as int) =~= samples@);
        }
        return mean_of(&samples, 0, n);
    }
    let sorted = sort_samples(&samples);
    proof {
        lemma_sorted_len(samples@);
    }
    mean_of(&sorted, start, end)
}

proof fn lemma_sorted_len(s: Seq<[u8; 4]>)
    ensures
        sort_by_brightness(s).len() == s.len(),
    decreases s.len(),
{
    if s.len() > 0 {
        lemma_sorted_len(s.drop_last());
        lemma_insert_at(sort_by_brightness(s.drop_last()), s.last(), 0);
    }
}

proof fn lemma_insert_at(s: Seq<[u8; 4]>, x: [u8; 4], j: int)
    requires
        0 <= j <= s.len(),
    ensures
        j <= insert_at(s, x, j) <= s.len(),
    decreases s.len() - j,
{
    if j < s.len() && brightness(s[j]) <= brightness(x) {
        lemma_insert_at(s, x, j + 1);
    }
}


proof fn lemma_ring_lens(p: Seq<u8>, r: (int, int, int, int, int, int), off: int)
    requires
        0 <= r.0,
        0 <= r.1,
        0 <= r.4,
        0 <= r.5,
        1 <= off,
    ensures
        above(p, r, off).len() <= r.4,
        below(p, r, off).len() <= r.4,
        left_of(p, r, off).len() <= r.5,
        right_of(p, r, off).len() <= r.5,
{
}

proof fn lemma_corner_len(p: Seq<u8>, r: (int, int, int, int, int, int), cx: int, cy: int)
    ensures
        corner(p, r, cx, cy).len() <= 25,
{
}

/// At most `6 * width + 6 * height + 100` samples are taken around a region.
pub proof fn lemma_border_samples_len(p: Seq<u8>, r: (int, int, int, int, int, int))
    requires
        0 <= r.0,
        0 <= r.1,
        0 <= r.4,
        0 <= r.5,
    ensures
        border_samples(p, r).len() <= 6 * r.4 + 6 * r.5 + 100,
{
    lemma_ring_lens(p, r, 1);
    lemma_ring_lens(p, r, 2);
    lemma_ring_lens(p, r, 3);
    lemma_corner_len(p, r, sat_sub(r.0, 3), sat_sub(r.1, 3));
    lemma_corner_len(p, r, min_of(r.2, r.4 - 1), sat_sub(r.1, 3));
    lemma_corner_len(p, r, sat_sub(r.0, 3), min_of(r.3, r.5 - 1));
    lemma_corner_len(p, r, min_of(r.2, r.4 - 1), min_of(r.3, r.5 - 1));
}

} // verus!
