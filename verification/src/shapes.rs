//! Finding flat rectangles in an RGBA picture, to rebuild them as native
//! slide shapes.
//!
//! A rectangle grows from an opaque pixel to the right while the pixels keep
//! the start color, then down while whole rows keep it. It is kept when its
//! size is within bounds and most of a sparse sample of its pixels has the
//! color. Its rounded corner, its border and its kind are read off the
//! picture too.
use vstd::prelude::*;
use crate::color::{average_color, is_similar_color, spec_average_color, spec_channels_close};
use crate::line_detect::{alpha_at, px_index, rgb_at};
use crate::ocr_kinds::ShapeType;
use vstd::arithmetic::div_mod::{lemma_fundamental_div_mod, lemma_fundamental_div_mod_converse};

verus! {

/// The picture holds `w * h` RGBA pixels, row by row.
pub open spec fn picture_ok(p: Seq<u8>, w: int, h: int) -> bool {
    p.len() == 4 * (w * h)
}

/// The pixel `(x, y)` is close to `c`: under 30 in every channel.
pub open spec fn same_fill(p: Seq<u8>, w: int, x: int, y: int, c: [u8; 3]) -> bool {
    spec_channels_close(rgb_at(p, w, x, y), c, 30)
}

/// The last column of the run of `c` that goes right from `x` along row `y`.
pub open spec fn run_right(p: Seq<u8>, w: int, y: int, c: [u8; 3], x: int) -> int
    decreases w - x,
{
    if x < w - 1 && same_fill(p, w, x + 1, y, c) {
        run_right(p, w, y, c, x + 1)
    } else {
        x
    }
}

/// Every pixel of row `y` from column `x0` to `x1` is close to `c`.
pub open spec fn row_filled(p: Seq<u8>, w: int, y: int, x0: int, x1: int, c: [u8; 3]) -> bool {
    forall|x: int| x0 <= x <= x1 ==> #[trigger] same_fill(p, w, x, y, c)
}

/// The last row of the block of rows, from `y` down, whose pixels from
/// column `x0` to `x1` are all close to `c`.
pub open spec fn run_down(p: Seq<u8>, w: int, h: int, x0: int, x1: int, c: [u8; 3], y: int) -> int
    decreases h - y,
{
    if y < h - 1 && row_filled(p, w, y + 1, x0, x1, c) {
        run_down(p, w, h, x0, x1, c, y + 1)
    } else {
        y
    }
}

proof fn lemma_pixel_index(w: int, h: int, x: int, y: int)
    requires
        0 <= x < w,
        0 <= y < h,
    ensures
        0 <= px_index(w, x, y),
        px_index(w, x, y) + 3 < 4 * (w * h),
{
    assert(0 <= y * w) by (nonlinear_arith)
        requires
            0 <= y,
            0 <= w,
    ;
    assert(y * w + x < w * h) by (nonlinear_arith)
        requires
            0 <= x < w,
            0 <= y < h,
    ;
}

/// The color of pixel `(x, y)`.
fn rgb(pixels: &[u8], width: u32, height: u32, x: u32, y: u32) -> (r: [u8; 3])
    requires
        picture_ok(pixels@, width as int, height as int),
        x < width,
        y < height,
    ensures
        r == rgb_at(pixels@, width as int, x as int, y as int),
{
    let plen = pixels.len();
    proof {
        lemma_pixel_index(width as int, height as int, x as int, y as int);
    }
    let i: usize = (y as usize * width as usize + x as usize) * 4;
    [pixels[i], pixels[i + 1], pixels[i + 2]]
}

/// The alpha of pixel `(x, y)`.
fn alpha(pixels: &[u8], width: u32, height: u32, x: u32, y: u32) -> (r: u8)
    requires
        picture_ok(pixels@, width as int, height as int),
        x < width,
        y < height,
    ensures
        r == alpha_at(pixels@, width as int, x as int, y as int),
{
    let plen = pixels.len();
    proof {
        lemma_pixel_index(width as int, height as int, x as int, y as int);
    }
    let i: usize = (y as usize * width as usize + x as usize) * 4;
    pixels[i + 3]
}

/// How far the start color runs right, then down, from `(x, y)`.
fn grow_block(pixels: &[u8], width: u32, height: u32, x: u32, y: u32, c: [u8; 3]) -> (r: (u32, u32))
    requires
        picture_ok(pixels@, width as int, height as int),
        x < width,
        y < height,
    ensures
        r.0 == run_right(pixels@, width as int, y as int, c, x as int),
        r.1 == run_down(pixels@, width as int, height as int, x as int, r.0 as int, c, y as int),
        x <= r.0 < width,
        y <= r.1 < height,
{
    let ghost p = pixels@;
    let ghost wi = width as int;
    let ghost hi = height as int;
    let mut right = x;
    while right < width - 1
        invariant
            p == pixels@,
            picture_ok(p, wi, hi),
            wi == width,
            hi == height,
            y < height,
            x <= right < width,
            run_right(p, wi, y as int, c, x as int) == run_right(p, wi, y as int, c, right as int),
        ensures
            x <= right < width,
            run_right(p, wi, y as int, c, x as int) == right,
        decreases width - right,
    {
        let q = rgb(pixels, width, height, right + 1, y);
        if !is_similar_color(&q, &c, 30) {
            break;
        }
        right = right + 1;
    }
    let mut bottom = y;
    while bottom < height - 1
        invariant
            p == pixels@,
            picture_ok(p, wi, hi),
            wi == width,
            hi == height,
            x <= right < width,
            y <= bottom < height,
            run_down(p, wi, hi, x as int, right as int, c, y as int) == run_down(
                p,
                wi,
                hi,
                x as int,
                right as int,
                c,
                bottom as int,
            ),
        ensures
            y <= bottom < height,
            run_down(p, wi, hi, x as int, right as int, c, y as int) == bottom,
        decreases height - bottom,
    {
        let mut xx = x;
        let mut bad: Option<u32> = None;
        while xx <= right
            invariant
                p == pixels@,
                picture_ok(p, wi, hi),
                wi == width,
                hi == height,
                x <= xx <= right + 1,
                right < width,
                bottom + 1 < height,
                bad is None ==> forall|t: int| x <= t < xx ==> #[trigger] same_fill(p, wi, t, bottom + 1, c),
                bad matches Some(b) ==> x <= b <= right && !same_fill(p, wi, b as int, bottom + 1, c),
            decreases right + 1 - xx,
        {
            let q = rgb(pixels, width, height, xx, bottom + 1);
            if !is_similar_color(&q, &c, 30) {
                bad = Some(xx);
                xx = right + 1;
            } else {
                xx = xx + 1;
            }
        }
        if bad.is_some() {
            break;
        }
        bottom = bottom + 1;
    }
    (right, bottom)
}

/// Number of samples taken every 4 pixels from `lo` up to `hi`.
pub open spec fn sample_count(lo: int, hi: int) -> int {
    (hi - lo) / 4 + 1
}

/// Pixel `(x, y)` is close to `c` under the looser test: under 40 in
/// every channel.
pub open spec fn near_fill(p: Seq<u8>, w: int, x: int, y: int, c: [u8; 3]) -> bool {
    spec_channels_close(rgb_at(p, w, x, y), c, 40)
}

/// Among the first `i` samples of row `y` (columns `x1`, `x1 + 4`, ...), those
/// close to `c`.
pub open spec fn row_matches(p: Seq<u8>, w: int, y: int, x1: int, c: [u8; 3], i: int) -> int
    decreases i,
{
    if i <= 0 {
        0
    } else {
        row_matches(p, w, y, x1, c, i - 1) + if near_fill(p, w, x1 + 4 * (i - 1), y, c) {
            1int
        } else {
            0int
        }
    }
}

/// Among the samples of the first `j` sampled rows (rows `y1`, `y1 + 4`, ...),
/// from column `x1` up to `x2`, those close to `c`.
pub open spec fn block_matches(p: Seq<u8>, w: int, x1: int, x2: int, y1: int, c: [u8; 3], j: int) -> int
    decreases j,
{
    if j <= 0 {
        0
    } else {
        block_matches(p, w, x1, x2, y1, c, j - 1) + row_matches(p, w, y1 + 4 * (j - 1), x1, c, sample_count(x1, x2))
    }
}

proof fn lemma_row_matches_bound(p: Seq<u8>, w: int, y: int, x1: int, c: [u8; 3], i: int)
    ensures
        0 <= row_matches(p, w, y, x1, c, i) <= if i > 0 { i } else { 0 },
    decreases i,
{
    if i > 0 {
        lemma_row_matches_bound(p, w, y, x1, c, i - 1);
    }
}

proof fn lemma_block_matches_bound(p: Seq<u8>, w: int, x1: int, x2: int, y1: int, c: [u8; 3], j: int)
    requires
        x1 <= x2,
    ensures
        0 <= block_matches(p, w, x1, x2, y1, c, j) <= if j > 0 { j * sample_count(x1, x2) } else { 0 },
    decreases j,
{
    if j > 0 {
        lemma_block_matches_bound(p, w, x1, x2, y1, c, j - 1);
        lemma_row_matches_bound(p, w, y1 + 4 * (j - 1), x1, c, sample_count(x1, x2));
        assert(j * sample_count(x1, x2) == (j - 1) * sample_count(x1, x2) + sample_count(x1, x2)) by (nonlinear_arith);
    }
}

/// How many of the samples of the block from `(x1, y1)` to `(x2, y2)`,
/// taken every 4 pixels across and down, are close to `c`, and how many
/// samples there are.
fn sample_block(pixels: &[u8], width: u32, height: u32, x1: u32, y1: u32, x2: u32, y2: u32, c: [u8; 3]) -> (r: (u64, u64))
    requires
        picture_ok(pixels@, width as int, height as int),
        x1 <= x2 < width,
        y1 <= y2 < height,
    ensures
        r.0 == block_matches(pixels@, width as int, x1 as int, x2 as int, y1 as int, c, sample_count(y1 as int, y2 as int)),
        r.1 == sample_count(x1 as int, x2 as int) * sample_count(y1 as int, y2 as int),
{
    let ghost p = pixels@;
    let ghost wi = width as int;
    let nx: u32 = (x2 - x1) / 4 + 1;
    let ny: u32 = (y2 - y1) / 4 + 1;
    let mut matching: u64 = 0;
    let mut j: u32 = 0;
    while j < ny
        invariant
            p == pixels@,
            picture_ok(p, wi, height as int),
            wi == width,
            x1 <= x2 < width,
            y1 <= y2 < height,
            nx == sample_count(x1 as int, x2 as int),
            ny == sample_count(y1 as int, y2 as int),
            0 <= j <= ny,
            matching == block_matches(p, wi, x1 as int, x2 as int, y1 as int, c, j as int),
        decreases ny - j,
    {
        let y = y1 + 4 * j;
        let mut i: u32 = 0;
        let mut row: u64 = 0;
        while i < nx
            invariant
                p == pixels@,
                picture_ok(p, wi, height as int),
                wi == width,
                x1 <= x2 < width,
                y < height,
                nx == sample_count(x1 as int, x2 as int),
                0 <= i <= nx,
                row == row_matches(p, wi, y as int, x1 as int, c, i as int),
                row <= i,
            decreases nx - i,
        {
            let q = rgb(pixels, width, height, x1 + 4 * i, y);
            proof {
                lemma_row_matches_bound(p, wi, y as int, x1 as int, c, i as int);
            }
            if is_similar_color(&q, &c, 40) {
                row = row + 1;
            }
            i = i + 1;
        }
        proof {
            lemma_block_matches_bound(p, wi, x1 as int, x2 as int, y1 as int, c, j as int);
            lemma_block_matches_bound(p, wi, x1 as int, x2 as int, y1 as int, c, (j + 1) as int);
            assert(matching + row == block_matches(p, wi, x1 as int, x2 as int, y1 as int, c, (j + 1) as int));
            assert((j + 1) * nx <= 0x4000_0001 * 0x4000_0001) by (nonlinear_arith)
                requires
                    j + 1 <= ny,
                    ny <= 0x4000_0001,
                    nx <= 0x4000_0001,
            ;
        }
        matching = matching + row;
        j = j + 1;
    }
    proof {
        assert(nx * ny <= 0x4000_0001 * 0x4000_0001) by (nonlinear_arith)
            requires
                ny <= 0x4000_0001,
                nx <= 0x4000_0001,
        ;
    }
    let total: u64 = (nx as u64) * (ny as u64);
    (matching, total)
}

/// The corner radius found from `(x1, y1)`: the diagonal is walked while
/// it stays inside the picture and close to `c`, for at most 20 steps; the
/// radius is the last step that was close.
pub open spec fn corner_from(p: Seq<u8>, w: int, h: int, x1: int, y1: int, c: [u8; 3], r: int, acc: int) -> int
    decreases 20 - r,
{
    if r >= 20 || x1 + r >= w || y1 + r >= h || !same_fill(p, w, x1 + r, y1 + r, c) {
        acc
    } else {
        corner_from(p, w, h, x1, y1, c, r + 1, r)
    }
}

fn corner_radius(pixels: &[u8], width: u32, height: u32, x1: u32, y1: u32, c: [u8; 3]) -> (r: u32)
    requires
        picture_ok(pixels@, width as int, height as int),
        x1 < width,
        y1 < height,
    ensures
        r == corner_from(pixels@, width as int, height as int, x1 as int, y1 as int, c, 0, 0),
        r < 20,
{
    let ghost p = pixels@;
    let mut radius: u32 = 0;
    let mut r: u32 = 0;
    while r < 20
        invariant
            p == pixels@,
            picture_ok(p, width as int, height as int),
            x1 < width,
            y1 < height,
            0 <= r <= 20,
            radius < 20,
            corner_from(p, width as int, height as int, x1 as int, y1 as int, c, 0, 0) == corner_from(
                p,
                width as int,
                height as int,
                x1 as int,
                y1 as int,
                c,
                r as int,
                radius as int,
            ),
        ensures
            corner_from(p, width as int, height as int, x1 as int, y1 as int, c, 0, 0) == radius,
            radius < 20,
        decreases 20 - r,
    {
        if x1 as u64 + r as u64 >= width as u64 || y1 as u64 + r as u64 >= height as u64 {
            break;
        }
        let q = rgb(pixels, width, height, x1 + r, y1 + r);
        if !is_similar_color(&q, &c, 30) {
            break;
        }
        radius = r;
        r = r + 1;
    }
    radius
}

/// The pixel `d` deep from an edge at position `a` along it: for a
/// vertical edge (left or right) `d` is the column and `a` the row.
pub open spec fn probe_xy(vertical: bool, a: int, d: int) -> (int, int) {
    if vertical {
        (d, a)
    } else {
        (a, d)
    }
}

/// The depth `off` pixels outward from an edge at `edge`: forward (right or
/// down) adds, backward subtracts and stops at 0.
pub open spec fn outward(edge: int, forward: bool, off: int) -> int {
    if forward {
        edge + off
    } else if edge >= off {
        edge - off
    } else {
        0
    }
}

/// How thick a border of `color` is, counting from offset `off` (with
/// `acc` pixels counted so far): each further pixel outward, up to offset
/// 9, inside the picture (depth below `limit`) and close to `color` adds one.
pub open spec fn thickness_from(
    p: Seq<u8>,
    w: int,
    limit: int,
    vertical: bool,
    a: int,
    edge: int,
    forward: bool,
    color: [u8; 3],
    off: int,
    acc: int,
) -> int
    decreases 10 - off,
{
    if off >= 10 {
        acc
    } else {
        let d = outward(edge, forward, off);
        let xy = probe_xy(vertical, a, d);
        if d >= limit || !same_fill(p, w, xy.0, xy.1, color) {
            acc
        } else {
            thickness_from(p, w, limit, vertical, a, edge, forward, color, off + 1, acc + 1)
        }
    }
}

/// What the pixel just outside the edge at position `a` shows: its color and
/// the border's thickness, unless it lies outside the picture or is close
/// to the fill color.
pub open spec fn probe(
    p: Seq<u8>,
    w: int,
    limit: int,
    vertical: bool,
    a: int,
    edge: int,
    forward: bool,
    fill: [u8; 3],
) -> Option<([u8; 3], int)> {
    let d = outward(edge, forward, 1);
    let xy = probe_xy(vertical, a, d);
    if d >= limit {
        None
    } else if spec_channels_close(rgb_at(p, w, xy.0, xy.1), fill, 30) {
        None
    } else {
        Some((rgb_at(p, w, xy.0, xy.1), thickness_from(p, w, limit, vertical, a, edge, forward, rgb_at(p, w, xy.0, xy.1), 2, 1)))
    }
}

/// Distance between samples along an edge from `lo` to `hi`: a twentieth of
/// its length, at least 1.
pub open spec fn edge_step(lo: int, hi: int) -> int {
    if (hi - lo) / 20 >= 1 {
        (hi - lo) / 20
    } else {
        1
    }
}

/// Number of samples along an edge from `lo` to `hi`.
pub open spec fn edge_samples(lo: int, hi: int) -> int {
    (hi - lo) / edge_step(lo, hi) + 1
}

/// The border colors met by the first `n` samples along an edge, and the
/// greatest thickness among them (0 for none).
pub open spec fn edge_scan(
    p: Seq<u8>,
    w: int,
    limit: int,
    vertical: bool,
    lo: int,
    step: int,
    edge: int,
    forward: bool,
    fill: [u8; 3],
    n: int,
) -> (Seq<[u8; 3]>, int)
    decreases n,
{
    if n <= 0 {
        (seq![], 0)
    } else {
        let prev = edge_scan(p, w, limit, vertical, lo, step, edge, forward, fill, n - 1);
        match probe(p, w, limit, vertical, lo + (n - 1) * step, edge, forward, fill) {
            Some(found) => (prev.0.push(found.0), if found.1 > prev.1 { found.1 } else { prev.1 }),
            None => prev,
        }
    }
}

proof fn lemma_thickness_bound(
    p: Seq<u8>,
    w: int,
    limit: int,
    vertical: bool,
    a: int,
    edge: int,
    forward: bool,
    color: [u8; 3],
    off: int,
    acc: int,
)
    requires
        2 <= off <= 10,
        acc == off - 1,
    ensures
        1 <= thickness_from(p, w, limit, vertical, a, edge, forward, color, off, acc) <= 9,
    decreases 10 - off,
{
    if off < 10 {
        lemma_thickness_bound(p, w, limit, vertical, a, edge, forward, color, off + 1, acc + 1);
    }
}

proof fn lemma_edge_scan_bound(
    p: Seq<u8>,
    w: int,
    limit: int,
    vertical: bool,
    lo: int,
    step: int,
    edge: int,
    forward: bool,
    fill: [u8; 3],
    n: int,
)
    ensures
        edge_scan(p, w, limit, vertical, lo, step, edge, forward, fill, n).0.len() <= if n > 0 { n } else { 0 },
        0 <= edge_scan(p, w, limit, vertical, lo, step, edge, forward, fill, n).1 <= 9,
        edge_scan(p, w, limit, vertical, lo, step, edge, forward, fill, n).0.len() > 0
            <==> edge_scan(p, w, limit, vertical, lo, step, edge, forward, fill, n).1 > 0,
    decreases n,
{
    if n > 0 {
        lemma_edge_scan_bound(p, w, limit, vertical, lo, step, edge, forward, fill, n - 1);
        let a = lo + (n - 1) * step;
        let d = outward(edge, forward, 1);
        let xy = probe_xy(vertical, a, d);
        lemma_thickness_bound(p, w, limit, vertical, a, edge, forward, rgb_at(p, w, xy.0, xy.1), 2, 1);
    }
}

proof fn lemma_edge_samples(lo: int, hi: int)
    requires
        lo <= hi,
    ensures
        1 <= edge_samples(lo, hi) <= 40,
        edge_step(lo, hi) >= 1,
        (edge_samples(lo, hi) - 1) * edge_step(lo, hi) <= hi - lo,
{
    let d = hi - lo;
    let s = edge_step(lo, hi);
    assert(d / s * s <= d) by (nonlinear_arith)
        requires
            s >= 1,
            d >= 0,
    ;
    if d / 20 >= 1 {
        assert(d / s < 40) by (nonlinear_arith)
            requires
                s == d / 20,
                s >= 1,
                d >= 0,
        ;
    } else {
        assert(d < 20);
    }
}

/// The pixel outside an edge, at position `a` and depth `d`.
fn probe_color(pixels: &[u8], width: u32, height: u32, vertical: bool, a: u32, d: u32) -> (r: [u8; 3])
    requires
        picture_ok(pixels@, width as int, height as int),
        vertical ==> d < width && a < height,
        !vertical ==> a < width && d < height,
    ensures
        r == rgb_at(pixels@, width as int, probe_xy(vertical, a as int, d as int).0, probe_xy(vertical, a as int, d as int).1),
{
    if vertical {
        rgb(pixels, width, height, d, a)
    } else {
        rgb(pixels, width, height, a, d)
    }
}

/// Samples the pixels just outside one edge of a block, from position `lo`
/// to `hi` along it, and appends the border colors met; returns the greatest
/// border thickness.
fn scan_edge(
    pixels: &[u8],
    width: u32,
    height: u32,
    vertical: bool,
    lo: u32,
    hi: u32,
    edge: u32,
    forward: bool,
    fill: [u8; 3],
    colors: &mut Vec<[u8; 3]>,
) -> (r: u32)
    requires
        picture_ok(pixels@, width as int, height as int),
        lo <= hi,
        vertical ==> hi < height && edge < width,
        !vertical ==> hi < width && edge < height,
    ensures
        final(colors)@ == old(colors)@ + edge_scan(
            pixels@,
            width as int,
            if vertical { width as int } else { height as int },
            vertical,
            lo as int,
            edge_step(lo as int, hi as int),
            edge as int,
            forward,
            fill,
            edge_samples(lo as int, hi as int),
        ).0,
        r == edge_scan(
            pixels@,
            width as int,
            if vertical { width as int } else { height as int },
            vertical,
            lo as int,
            edge_step(lo as int, hi as int),
            edge as int,
            forward,
            fill,
            edge_samples(lo as int, hi as int),
        ).1,
{
    let ghost p = pixels@;
    let ghost wi = width as int;
    let limit: u32 = if vertical { width } else { height };
    let ghost li = limit as int;
    let step: u32 = if (hi - lo) / 20 >= 1 { (hi - lo) / 20 } else { 1 };
    let n: u32 = (hi - lo) / step + 1;
    let ghost start = colors@;
    proof {
        lemma_edge_samples(lo as int, hi as int);
    }
    let mut best: u32 = 0;
    let mut i: u32 = 0;
    while i < n
        invariant
            p == pixels@,
            picture_ok(p, wi, height as int),
            wi == width,
            li == limit,
            limit == (if vertical { width } else { height }),
            vertical ==> hi < height && edge < width,
            !vertical ==> hi < width && edge < height,
            lo <= hi,
            step == edge_step(lo as int, hi as int),
            n == edge_samples(lo as int, hi as int),
            (n - 1) * step <= hi - lo,
            step >= 1,
            0 <= i <= n,
            colors@ == start + edge_scan(p, wi, li, vertical, lo as int, step as int, edge as int, forward, fill, i as int).0,
            best == edge_scan(p, wi, li, vertical, lo as int, step as int, edge as int, forward, fill, i as int).1,
        decreases n - i,
    {
        proof {
            assert(i * step <= (n - 1) * step) by (nonlinear_arith)
                requires
                    i <= n - 1,
                    step >= 1,
            ;
        }
        let a: u32 = lo + i * step;
        let d1: u32 = if forward { if edge < u32::MAX { edge + 1 } else { u32::MAX } } else { if edge >= 1 { edge - 1 } else { 0 } };
        let ghost prev = edge_scan(p, wi, li, vertical, lo as int, step as int, edge as int, forward, fill, i as int);
        let ghost pr = probe(p, wi, li, vertical, a as int, edge as int, forward, fill);
        let ghost next = edge_scan(p, wi, li, vertical, lo as int, step as int, edge as int, forward, fill, i + 1);
        assert(a as int == lo + (i + 1 - 1) * step);
        if (forward && edge == u32::MAX) || d1 >= limit {
            proof {
                assert(outward(edge as int, forward, 1) >= li);
                assert(pr is None);
                assert(next == prev);
            }
        } else {
            proof {
                assert(d1 == outward(edge as int, forward, 1));
            }
            let color = probe_color(pixels, width, height, vertical, a, d1);
            if !is_similar_color(&color, &fill, 30) {
                let mut t: u32 = 1;
                let mut off: u32 = 2;
                while off < 10
                    invariant
                        p == pixels@,
                        picture_ok(p, wi, height as int),
                        wi == width,
                        li == limit,
                        limit == (if vertical { width } else { height }),
                        vertical ==> a < height,
                        !vertical ==> a < width,
                        2 <= off <= 10,
                        t == off - 1,
                        thickness_from(p, wi, li, vertical, a as int, edge as int, forward, color, 2, 1)
                            == thickness_from(p, wi, li, vertical, a as int, edge as int, forward, color, off as int, t as int),
                    ensures
                        thickness_from(p, wi, li, vertical, a as int, edge as int, forward, color, 2, 1) == t,
                    decreases 10 - off,
                {
                    let d: u64 = if forward { edge as u64 + off as u64 } else { if edge >= off { (edge - off) as u64 } else { 0 } };
                    if d >= limit as u64 {
                        break;
                    }
                    let q = probe_color(pixels, width, height, vertical, a, d as u32);
                    if !is_similar_color(&q, &color, 30) {
                        break;
                    }
                    t = t + 1;
                    off = off + 1;
                }
                colors.push(color);
                if t > best {
                    best = t;
                }
                proof {
                    assert(pr == Some((color, t as int)));
                    assert(next.0 == prev.0.push(color));
                }
            } else {
                proof {
                    assert(pr is None);
                    assert(next == prev);
                }
            }
        }
        proof {
            assert(colors@ =~= start + edge_scan(p, wi, li, vertical, lo as int, step as int, edge as int, forward, fill, i + 1).0);
        }
        i = i + 1;
    }
    best
}

/// The outline read off a block's surroundings.
#[derive(Clone, Copy, Debug)]
pub enum Stroke {
    /// No pixel around the block stands out from its fill: the default
    /// light outline.
    Default,
    /// The pixels around differ here and there, but on average they are
    /// close to the fill: no outline.
    Plain,
    /// An outline of the average color of the pixels around that stand out,
    /// as thick as the mean of the edges' thicknesses (`width_sum` over
    /// `width_count`).
    Border { color: [u8; 3], width_sum: u32, width_count: u32 },
}

/// What the samples outside one edge show, or nothing where the edge lies
/// on the picture's border.
pub open spec fn side(
    p: Seq<u8>,
    w: int,
    h: int,
    present: bool,
    vertical: bool,
    lo: int,
    hi: int,
    edge: int,
    forward: bool,
    fill: [u8; 3],
) -> (Seq<[u8; 3]>, int) {
    if present {
        edge_scan(
            p,
            w,
            if vertical { w } else { h },
            vertical,
            lo,
            edge_step(lo, hi),
            edge,
            forward,
            fill,
            edge_samples(lo, hi),
        )
    } else {
        (seq![], 0)
    }
}

/// The outline of the block from `(x1, y1)` to `(x2, y2)` filled with
/// `fill`, from the pixels just outside its top, bottom, left and right
/// edges (each where it is not the picture's border).
pub open spec fn spec_stroke(p: Seq<u8>, w: int, h: int, x1: int, y1: int, x2: int, y2: int, fill: [u8; 3]) -> Stroke {
    let top = side(p, w, h, y1 > 0, false, x1, x2, y1, false, fill);
    let bottom = side(p, w, h, y2 < h - 1, false, x1, x2, y2, true, fill);
    let left = side(p, w, h, x1 > 0, true, y1, y2, x1, false, fill);
    let right = side(p, w, h, x2 < w - 1, true, y1, y2, x2, true, fill);
    let colors = top.0 + bottom.0 + left.0 + right.0;
    let count = (if top.1 > 0 { 1int } else { 0 }) + (if bottom.1 > 0 { 1int } else { 0 }) + (if left.1 > 0 { 1int } else { 0 })
        + (if right.1 > 0 { 1int } else { 0 });
    if colors.len() == 0 {
        Stroke::Default
    } else if spec_channels_close(spec_average_color(colors), fill, 30) {
        Stroke::Plain
    } else {
        Stroke::Border {
            color: spec_average_color(colors),
            width_sum: (top.1 + bottom.1 + left.1 + right.1) as u32,
            width_count: count as u32,
        }
    }
}

fn scan_side(
    pixels: &[u8],
    width: u32,
    height: u32,
    present: bool,
    vertical: bool,
    lo: u32,
    hi: u32,
    edge: u32,
    forward: bool,
    fill: [u8; 3],
    colors: &mut Vec<[u8; 3]>,
) -> (r: u32)
    requires
        picture_ok(pixels@, width as int, height as int),
        lo <= hi,
        vertical ==> hi < height && edge < width,
        !vertical ==> hi < width && edge < height,
    ensures
        final(colors)@ == old(colors)@ + side(
            pixels@,
            width as int,
            height as int,
            present,
            vertical,
            lo as int,
            hi as int,
            edge as int,
            forward,
            fill,
        ).0,
        r == side(pixels@, width as int, height as int, present, vertical, lo as int, hi as int, edge as int, forward, fill).1,
        r <= 9,
        final(colors)@.len() <= old(colors)@.len() + 40,
        final(colors)@.len() > old(colors)@.len() <==> r > 0,
{
    if present {
        let ghost before = colors@;
        proof {
            lemma_edge_samples(lo as int, hi as int);
            lemma_edge_scan_bound(
                pixels@,
                width as int,
                if vertical { width as int } else { height as int },
                vertical,
                lo as int,
                edge_step(lo as int, hi as int),
                edge as int,
                forward,
                fill,
                edge_samples(lo as int, hi as int),
            );
        }
        scan_edge(pixels, width, height, vertical, lo, hi, edge, forward, fill, colors)
    } else {
        proof {
            assert(colors@ =~= colors@ + Seq::<[u8; 3]>::empty());
        }
        0
    }
}

/// The outline of the block from `(x1, y1)` to `(x2, y2)` (see `spec_stroke`).
fn block_stroke(pixels: &[u8], width: u32, height: u32, x1: u32, y1: u32, x2: u32, y2: u32, fill: [u8; 3]) -> (r: Stroke)
    requires
        picture_ok(pixels@, width as int, height as int),
        x1 <= x2 < width,
        y1 <= y2 < height,
    ensures
        r == spec_stroke(pixels@, width as int, height as int, x1 as int, y1 as int, x2 as int, y2 as int, fill),
{
    let ghost p = pixels@;
    let ghost wi = width as int;
    let ghost hi = height as int;
    let mut colors: Vec<[u8; 3]> = Vec::new();
    let t = scan_side(pixels, width, height, y1 > 0, false, x1, x2, y1, false, fill, &mut colors);
    let b = scan_side(pixels, width, height, y2 < height - 1, false, x1, x2, y2, true, fill, &mut colors);
    let l = scan_side(pixels, width, height, x1 > 0, true, y1, y2, x1, false, fill, &mut colors);
    let r = scan_side(pixels, width, height, x2 < width - 1, true, y1, y2, x2, true, fill, &mut colors);
    let ghost top = side(p, wi, hi, y1 > 0, false, x1 as int, x2 as int, y1 as int, false, fill);
    let ghost bottom = side(p, wi, hi, y2 < hi - 1, false, x1 as int, x2 as int, y2 as int, true, fill);
    let ghost left = side(p, wi, hi, x1 > 0, true, y1 as int, y2 as int, x1 as int, false, fill);
    let ghost right = side(p, wi, hi, x2 < wi - 1, true, y1 as int, y2 as int, x2 as int, true, fill);
    proof {
        assert(colors@ =~= top.0 + bottom.0 + left.0 + right.0);
    }
    if colors.len() == 0 {
        return Stroke::Default;
    }
    let avg = average_color(&colors);
    if is_similar_color(&avg, &fill, 30) {
        Stroke::Plain
    } else {
        let count: u32 = (if t > 0 { 1u32 } else { 0 }) + (if b > 0 { 1u32 } else { 0 }) + (if l > 0 { 1u32 } else { 0 }) + (if r > 0 { 1u32 } else { 0 });
        Stroke::Border { color: avg, width_sum: t + b + l + r, width_count: count }
    }
}

/// A flat block found in a picture, in pixels.
#[derive(Clone, Copy, Debug)]
pub struct RectShape {
    /// `Rectangle`, `RoundedRectangle` or `Card`.
    pub kind: ShapeType,
    pub x: u32,
    pub y: u32,
    pub width: u32,
    pub height: u32,
    pub fill: [u8; 3],
    pub corner_radius: u32,
    pub stroke: Stroke,
    /// The samples close to the fill; `matching / samples` is how sure the
    /// find is.
    pub matching: u64,
    pub samples: u64,
}

/// The block that grows from `(x, y)`, if it is between `min_size` and
/// `max_size` pixels wide and high and at least seven tenths of its samples
/// are close to its color. Its kind is `RoundedRectangle` where it has a
/// corner radius, else `Rectangle`.
pub open spec fn spec_try_rect(p: Seq<u8>, w: int, h: int, min_size: u32, max_size: u32, x: int, y: int) -> Option<RectShape> {
    let c = rgb_at(p, w, x, y);
    let right = run_right(p, w, y, c, x);
    let bottom = run_down(p, w, h, x, right, c, y);
    let rw = right - x + 1;
    let rh = bottom - y + 1;
    let m = block_matches(p, w, x, right, y, c, sample_count(y, bottom));
    let t = sample_count(x, right) * sample_count(y, bottom);
    let radius = corner_from(p, w, h, x, y, c, 0, 0);
    if rw < min_size || rh < min_size || rw > max_size || rh > max_size {
        None
    } else if 10 * m < 7 * t {
        None
    } else {
        Some(
            RectShape {
                kind: if radius > 0 { ShapeType::RoundedRectangle } else { ShapeType::Rectangle },
                x: x as u32,
                y: y as u32,
                width: rw as u32,
                height: rh as u32,
                fill: c,
                corner_radius: radius as u32,
                stroke: spec_stroke(p, w, h, x, y, right, bottom, c),
                matching: m as u64,
                samples: t as u64,
            },
        )
    }
}

/// The block lies inside the picture, its sides are between `min_size` and
/// `max_size`, and at least seven tenths of its samples match its fill.
pub open spec fn block_ok(s: RectShape, w: int, h: int, min_size: u32, max_size: u32) -> bool {
    &&& s.x + s.width <= w
    &&& s.y + s.height <= h
    &&& min_size <= s.width <= max_size
    &&& min_size <= s.height <= max_size
    &&& 10 * s.matching >= 7 * s.samples
}

/// Tries to grow a block from `(x, y)` (see `spec_try_rect`).
fn try_rect(pixels: &[u8], width: u32, height: u32, min_size: u32, max_size: u32, x: u32, y: u32) -> (r: Option<RectShape>)
    requires
        picture_ok(pixels@, width as int, height as int),
        x < width,
        y < height,
    ensures
        r == spec_try_rect(pixels@, width as int, height as int, min_size, max_size, x as int, y as int),
        r matches Some(s) ==> s.x == x && s.y == y && s.width >= 1 && s.height >= 1 && block_ok(
            s,
            width as int,
            height as int,
            min_size,
            max_size,
        ),
{
    let c = rgb(pixels, width, height, x, y);
    let (right, bottom) = grow_block(pixels, width, height, x, y, c);
    let rw = right - x + 1;
    let rh = bottom - y + 1;
    if rw < min_size || rh < min_size || rw > max_size || rh > max_size {
        return None;
    }
    let (m, t) = sample_block(pixels, width, height, x, y, right, bottom, c);
    proof {
        lemma_block_matches_bound(pixels@, width as int, x as int, right as int, y as int, c, sample_count(y as int, bottom as int));
        assert(m <= t) by (nonlinear_arith)
            requires
                m <= sample_count(y as int, bottom as int) * sample_count(x as int, right as int),
                t == sample_count(x as int, right as int) * sample_count(y as int, bottom as int),
        ;
        assert(t <= 0x4000_0001 * 0x4000_0001) by (nonlinear_arith)
            requires
                t == sample_count(x as int, right as int) * sample_count(y as int, bottom as int),
                sample_count(x as int, right as int) <= 0x4000_0001,
                sample_count(y as int, bottom as int) <= 0x4000_0001,
                sample_count(x as int, right as int) >= 0,
                sample_count(y as int, bottom as int) >= 0,
        ;
    }
    if 10 * m < 7 * t {
        return None;
    }
    let radius = corner_radius(pixels, width, height, x, y, c);
    let stroke = block_stroke(pixels, width, height, x, y, right, bottom, c);
    Some(
        RectShape {
            kind: if radius > 0 { ShapeType::RoundedRectangle } else { ShapeType::Rectangle },
            x,
            y,
            width: rw,
            height: rh,
            fill: c,
            corner_radius: radius,
            stroke,
            matching: m,
            samples: t,
        },
    )
}

/// `v` with the block from `(x0, y0)` to `(x1, y1)` marked, for a picture
/// `w` pixels wide.
pub open spec fn mark_block(v: Seq<bool>, w: int, x0: int, y0: int, x1: int, y1: int) -> Seq<bool> {
    Seq::new(v.len(), |i: int| v[i] || (x0 <= i % w <= x1 && y0 <= i / w <= y1))
}

/// The pixels passed and the blocks found after the scan has gone through
/// the first `k` pixels in row-major order. A pixel already inside a found
/// block is skipped; a transparent one (alpha under 128) is passed; from any
/// other a block is tried, and a block found marks all its pixels.
pub open spec fn rect_scan(p: Seq<u8>, w: int, h: int, min_size: u32, max_size: u32, k: nat) -> (Seq<bool>, Seq<RectShape>)
    decreases k,
{
    if k == 0 {
        (Seq::new((w * h) as nat, |i: int| false), seq![])
    } else {
        let prev = rect_scan(p, w, h, min_size, max_size, (k - 1) as nat);
        let i = k - 1;
        let x = i % w;
        let y = i / w;
        if prev.0[i] {
            prev
        } else if alpha_at(p, w, x, y) < 128 {
            (prev.0.update(i, true), prev.1)
        } else {
            match spec_try_rect(p, w, h, min_size, max_size, x, y) {
                Some(s) => (mark_block(prev.0, w, x, y, x + s.width - 1, y + s.height - 1), prev.1.push(s)),
                None => prev,
            }
        }
    }
}

proof fn lemma_rect_scan_len(p: Seq<u8>, w: int, h: int, min_size: u32, max_size: u32, k: nat)
    requires
        k <= w * h,
    ensures
        rect_scan(p, w, h, min_size, max_size, k).0.len() == w * h,
    decreases k,
{
    if k > 0 {
        lemma_rect_scan_len(p, w, h, min_size, max_size, (k - 1) as nat);
    }
}

/// Marks the pixels of the block from `(x0, y0)` to `(x1, y1)`.
fn mark_rect(visited: &mut Vec<bool>, width: u32, height: u32, x0: u32, y0: u32, x1: u32, y1: u32)
    requires
        old(visited)@.len() == width * height,
        width * height <= u32::MAX,
        x0 <= x1 < width,
        y0 <= y1 < height,
    ensures
        final(visited)@ == mark_block(old(visited)@, width as int, x0 as int, y0 as int, x1 as int, y1 as int),
{
    let ghost v0 = visited@;
    let ghost wi = width as int;
    let ghost n = wi * (height as int);
    let mut yy = y0;
    while yy <= y1
        invariant
            visited@.len() == n,
            v0.len() == n,
            n == wi * height,
            wi == width,
            width * height <= u32::MAX,
            x0 <= x1 < width,
            y0 <= yy <= y1 + 1,
            y1 < height,
            forall|i: int|
                0 <= i < n ==> #[trigger] visited@[i] == (v0[i] || (x0 <= i % wi <= x1 && y0 <= i / wi < yy)),
        decreases y1 + 1 - yy,
    {
        let mut xx = x0;
        while xx <= x1
            invariant
                visited@.len() == n,
                v0.len() == n,
                n == wi * height,
                wi == width,
                width * height <= u32::MAX,
                x0 <= xx <= x1 + 1,
                x1 < width,
                y0 <= yy <= y1,
                y1 < height,
                forall|i: int|
                    0 <= i < n ==> #[trigger] visited@[i] == (v0[i] || (x0 <= i % wi <= x1 && y0 <= i / wi < yy) || (i
                        / wi == yy && x0 <= i % wi < xx)),
            decreases x1 + 1 - xx,
        {
            proof {
                assert(yy * wi + xx < wi * height) by (nonlinear_arith)
                    requires
                        xx < wi,
                        yy < height,
                ;
                lemma_fundamental_div_mod_converse(yy * wi + xx, wi, yy as int, xx as int);
            }
            let j: usize = (yy * width + xx) as usize;
            let ghost before = visited@;
            visited.set(j, true);
            proof {
                assert forall|i: int| 0 <= i < n implies #[trigger] visited@[i] == (v0[i] || (x0 <= i % wi <= x1 && y0 <= i / wi
                    < yy) || (i / wi == yy && x0 <= i % wi < xx + 1)) by {
                    if i == j {
                        assert(i / wi == yy && i % wi == xx);
                    } else {
                        assert(visited@[i] == before[i]);
                        if i / wi == yy && i % wi == xx {
                            lemma_fundamental_div_mod(i, wi);
                            assert(wi * (i / wi) == (i / wi) * wi) by (nonlinear_arith);
                        }
                    }
                }
            }
            xx = xx + 1;
        }
        proof {
            assert forall|i: int| 0 <= i < n implies #[trigger] visited@[i] == (v0[i] || (x0 <= i % wi <= x1 && y0 <= i / wi
                < yy + 1)) by {
                assert(visited@[i] == (v0[i] || (x0 <= i % wi <= x1 && y0 <= i / wi < yy) || (i / wi == yy && x0 <= i % wi
                    < x1 + 1)));
            }
        }
        yy = yy + 1;
    }
    proof {
        assert(visited@ =~= mark_block(v0, wi, x0 as int, y0 as int, x1 as int, y1 as int));
    }
}

/// The blocks the scan finds, in the order of their top-left pixels.
#[verifier::rlimit(40)]
fn scan_rects(pixels: &[u8], width: u32, height: u32, min_size: u32, max_size: u32) -> (r: Vec<RectShape>)
    requires
        picture_ok(pixels@, width as int, height as int),
        width * height <= u32::MAX,
    ensures
        r@ == rect_scan(pixels@, width as int, height as int, min_size, max_size, (width * height) as nat).1,
        forall|i: int| 0 <= i < r@.len() ==> #[trigger] block_ok(r@[i], width as int, height as int, min_size, max_size),
{
    let ghost p = pixels@;
    let ghost wi = width as int;
    let ghost hi = height as int;
    let n: u32 = width * height;
    let mut visited: Vec<bool> = vec![false; n as usize];
    let mut shapes: Vec<RectShape> = Vec::new();
    proof {
        assert forall|i: int| 0 <= i < visited@.len() implies !visited@[i] by {
            assert(cloned(false, visited@[i]));
        }
        assert(visited@ =~= rect_scan(p, wi, hi, min_size, max_size, 0).0);
    }
    let mut k: u32 = 0;
    while k < n
        invariant
            p == pixels@,
            picture_ok(p, wi, hi),
            wi == width,
            hi == height,
            n == width * height,
            width * height <= u32::MAX,
            0 <= k <= n,
            visited@ == rect_scan(p, wi, hi, min_size, max_size, k as nat).0,
            shapes@ == rect_scan(p, wi, hi, min_size, max_size, k as nat).1,
            forall|i: int| 0 <= i < shapes@.len() ==> #[trigger] block_ok(shapes@[i], wi, hi, min_size, max_size),
        decreases n - k,
    {
        proof {
            lemma_rect_scan_len(p, wi, hi, min_size, max_size, k as nat);
            lemma_fundamental_div_mod(k as int, wi);
            assert(k / width < height) by (nonlinear_arith)
                requires
                    k < width * height,
                    k == width * (k / width) + k % width,
                    0 <= k % width,
                    width > 0,
            ;
        }
        let x = k % width;
        let y = k / width;
        if !visited[k as usize] {
            if alpha(pixels, width, height, x, y) < 128 {
                visited.set(k as usize, true);
            } else {
                let found = try_rect(pixels, width, height, min_size, max_size, x, y);
                match found {
                    Some(s) => {
                        mark_rect(&mut visited, width, height, x, y, x + s.width - 1, y + s.height - 1);
                        let ghost before = shapes@;
                        shapes.push(s);
                        proof {
                            assert forall|i: int| 0 <= i < shapes@.len() implies #[trigger] block_ok(shapes@[i], wi, hi, min_size, max_size) by {
                                if i < before.len() {
                                    assert(shapes@[i] == before[i]);
                                }
                            }
                        }
                    },
                    None => {},
                }
            }
        }
        k = k + 1;
    }
    shapes
}

/// Block `a` lies inside block `b`.
pub open spec fn contained(a: RectShape, b: RectShape) -> bool {
    &&& a.x >= b.x
    &&& a.y >= b.y
    &&& a.x + a.width <= b.x + b.width
    &&& a.y + a.height <= b.y + b.height
}

/// Block `i` lies inside no other block of the list.
pub open spec fn is_outer(shapes: Seq<RectShape>, i: int) -> bool {
    forall|j: int| 0 <= j < shapes.len() && j != i ==> !contained(shapes[i], #[trigger] shapes[j])
}

/// The blocks among the first `n` that lie inside no other block, in order.
pub open spec fn spec_outer_shapes(shapes: Seq<RectShape>, n: int) -> Seq<RectShape>
    decreases n,
{
    if n <= 0 {
        seq![]
    } else {
        let rest = spec_outer_shapes(shapes, n - 1);
        if is_outer(shapes, n - 1) {
            rest.push(shapes[n - 1])
        } else {
            rest
        }
    }
}

/// A rounded block over 100 pixels wide and 60 high, with a corner radius
/// over 4, is a card.
pub open spec fn as_card(s: RectShape) -> RectShape {
    if s.kind == ShapeType::RoundedRectangle && s.width > 100 && s.height > 60 && s.corner_radius > 4 {
        RectShape {
            kind: ShapeType::Card,
            x: s.x,
            y: s.y,
            width: s.width,
            height: s.height,
            fill: s.fill,
            corner_radius: s.corner_radius,
            stroke: s.stroke,
            matching: s.matching,
            samples: s.samples,
        }
    } else {
        s
    }
}

/// The flat blocks of a picture: those the scan finds (`rect_scan`), less
/// those inside another, with cards told apart.
pub open spec fn spec_detect_rectangles(p: Seq<u8>, w: int, h: int, min_size: u32, max_size: u32) -> Seq<RectShape> {
    let found = rect_scan(p, w, h, min_size, max_size, (w * h) as nat).1;
    spec_outer_shapes(found, found.len() as int).map_values(|s: RectShape| as_card(s))
}

fn is_contained(a: &RectShape, b: &RectShape) -> (r: bool)
    ensures
        r == contained(*a, *b),
{
    a.x >= b.x && a.y >= b.y && a.x as u64 + a.width as u64 <= b.x as u64 + b.width as u64 && a.y as u64 + a.height as u64
        <= b.y as u64 + b.height as u64
}

/// The blocks that lie inside no other block, in order.
pub fn merge_overlapping_shapes(shapes: &Vec<RectShape>) -> (r: Vec<RectShape>)
    ensures
        r@ == spec_outer_shapes(shapes@, shapes@.len() as int),
        forall|i: int| 0 <= i < r@.len() ==> shapes@.contains(#[trigger] r@[i]),
        forall|a: int, b: int| 0 <= a < r@.len() && 0 <= b < r@.len() && a != b ==> !contained(#[trigger] r@[a], #[trigger] r@[b]),
{
    let mut out: Vec<RectShape> = Vec::new();
    let ghost mut idx: Seq<int> = Seq::empty();
    let mut i: usize = 0;
    while i < shapes.len()
        invariant
            0 <= i <= shapes@.len(),
            out@ == spec_outer_shapes(shapes@, i as int),
            forall|k: int| 0 <= k < out@.len() ==> shapes@.contains(#[trigger] out@[k]),
            idx.len() == out@.len(),
            forall|k: int| 0 <= k < idx.len() ==> 0 <= #[trigger] idx[k] < i && out@[k] == shapes@[idx[k]] && is_outer(shapes@, idx[k]),
            forall|a: int, b: int| 0 <= a < b < idx.len() ==> #[trigger] idx[a] < #[trigger] idx[b],
        decreases shapes@.len() - i,
    {
        let mut inside = false;
        let mut j: usize = 0;
        while j < shapes.len()
            invariant
                0 <= i < shapes@.len(),
                0 <= j <= shapes@.len(),
                !inside ==> forall|t: int| 0 <= t < j && t != i ==> !contained(shapes@[i as int], #[trigger] shapes@[t]),
                inside ==> !is_outer(shapes@, i as int),
            decreases shapes@.len() - j,
        {
            if j != i && is_contained(&shapes[i], &shapes[j]) {
                inside = true;
            }
            j = j + 1;
        }
        if !inside {
            let ghost before = out@;
            out.push(shapes[i]);
            proof {
                assert forall|k: int| 0 <= k < out@.len() implies shapes@.contains(#[trigger] out@[k]) by {
                    if k < before.len() {
                        assert(out@[k] == before[k]);
                    } else {
                        assert(out@[k] == shapes@[i as int]);
                    }
                }
                idx = idx.push(i as int);
            }
        }
        i = i + 1;
    }
    proof {
        assert forall|a: int, b: int| 0 <= a < out@.len() && 0 <= b < out@.len() && a != b implies !contained(
            #[trigger] out@[a],
            #[trigger] out@[b],
        ) by {
            if a < b {
                assert(idx[a] < idx[b]);
            } else {
                assert(idx[b] < idx[a]);
            }
            assert(is_outer(shapes@, idx[a]));
            assert(shapes@[idx[b]] == out@[b]);
        }
    }
    out
}

fn card_of(s: RectShape) -> (r: RectShape)
    ensures
        r == as_card(s),
{
    if s.kind == ShapeType::RoundedRectangle && s.width > 100 && s.height > 60 && s.corner_radius > 4 {
        RectShape { kind: ShapeType::Card, ..s }
    } else {
        s
    }
}

/// Marks the rounded blocks that look like cards.
pub fn identify_cards(shapes: Vec<RectShape>) -> (r: Vec<RectShape>)
    ensures
        r@ == shapes@.map_values(|s: RectShape| as_card(s)),
{
    let mut out: Vec<RectShape> = Vec::new();
    let mut i: usize = 0;
    while i < shapes.len()
        invariant
            0 <= i <= shapes@.len(),
            out@ == shapes@.take(i as int).map_values(|s: RectShape| as_card(s)),
        decreases shapes@.len() - i,
    {
        out.push(card_of(shapes[i]));
        proof {
            assert(shapes@.take(i + 1).map_values(|s: RectShape| as_card(s)) =~= shapes@.take(i as int).map_values(
                |s: RectShape| as_card(s),
            ).push(as_card(shapes@[i as int])));
        }
        i = i + 1;
    }
    proof {
        assert(shapes@.take(shapes@.len() as int) =~= shapes@);
    }
    out
}

/// The flat blocks of an RGBA picture (see `spec_detect_rectangles`), each
/// between `min_size` and `max_size` pixels wide and high.
pub fn detect_rectangles(pixels: &[u8], width: u32, height: u32, min_size: u32, max_size: u32) -> (r: Vec<RectShape>)
    requires
        picture_ok(pixels@, width as int, height as int),
        width * height <= u32::MAX,
    ensures
        r@ == spec_detect_rectangles(pixels@, width as int, height as int, min_size, max_size),
        forall|i: int| 0 <= i < r@.len() ==> #[trigger] block_ok(r@[i], width as int, height as int, min_size, max_size),
        forall|a: int, b: int| 0 <= a < r@.len() && 0 <= b < r@.len() && a != b ==> !contained(#[trigger] r@[a], #[trigger] r@[b]),
{
    let found = scan_rects(pixels, width, height, min_size, max_size);
    let outer = merge_overlapping_shapes(&found);
    let r = identify_cards(outer);
    proof {
        assert forall|i: int| 0 <= i < r@.len() implies #[trigger] block_ok(r@[i], width as int, height as int, min_size, max_size) by {
            assert(found@.contains(outer@[i]));
            let j = choose|j: int| 0 <= j < found@.len() && found@[j] == outer@[i];
            assert(block_ok(found@[j], width as int, height as int, min_size, max_size));
            assert(r@[i] == as_card(outer@[i]));
        }
        assert forall|a: int, b: int| 0 <= a < r@.len() && 0 <= b < r@.len() && a != b implies !contained(
            #[trigger] r@[a],
            #[trigger] r@[b],
        ) by {
            assert(r@[a] == as_card(outer@[a]));
            assert(r@[b] == as_card(outer@[b]));
            assert(!contained(outer@[a], outer@[b]));
        }
    }
    r
}

} // verus!
