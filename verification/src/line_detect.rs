//! Finding straight horizontal and vertical lines in an RGBA picture: runs
//! of opaque, non-white pixels of one color along a row or a column.
use vstd::prelude::*;
use crate::color::{is_similar_color, spec_channels_close};

verus! {

/// A run of one color along a row (`vertical == false`, `at` is the row)
/// or a column (`at` is the column), from `start` up to `end` (exclusive).
#[derive(Clone, Copy, Debug)]
pub struct LineRun {
    pub vertical: bool,
    pub at: u32,
    pub start: u32,
    pub end: u32,
    pub color: [u8; 3],
}

/// Index of the first byte of pixel `(x, y)` in a row-major RGBA buffer.
pub open spec fn px_index(w: int, x: int, y: int) -> int {
    4 * (y * w + x)
}

/// Pixel `k` along a row or a column, as `(x, y)`.
pub open spec fn along(vertical: bool, at: int, k: int) -> (int, int) {
    if vertical { (at, k) } else { (k, at) }
}

pub open spec fn rgb_at(p: Seq<u8>, w: int, x: int, y: int) -> [u8; 3] {
    [p[px_index(w, x, y)], p[px_index(w, x, y) + 1], p[px_index(w, x, y) + 2]]
}

pub open spec fn alpha_at(p: Seq<u8>, w: int, x: int, y: int) -> u8 {
    p[px_index(w, x, y) + 3]
}

/// An ink pixel: almost opaque, and not within 30 of white in some channel.
pub open spec fn is_ink(p: Seq<u8>, w: int, x: int, y: int) -> bool {
    alpha_at(p, w, x, y) > 200 && !spec_channels_close(rgb_at(p, w, x, y), [255u8, 255u8, 255u8], 30)
}

/// The run from `start` to `end` if it is longer than `min_len`.
pub open spec fn emit(vertical: bool, at: int, start: int, end: int, color: [u8; 3], min_len: u32) -> Seq<LineRun> {
    if end - start > min_len {
        seq![LineRun { vertical, at: at as u32, start: start as u32, end: end as u32, color }]
    } else {
        seq![]
    }
}

/// Scans a row or column of `len` pixels from `k`, with a run open from
/// `start` in `color` (or none open): an ink pixel opens a run, or, when its
/// color differs by 30 or more in some channel from the run's, ends the run
/// there and opens a new one; any other pixel ends the open run. A run is
/// kept when it is longer than `min_len`; one still open at the end ends at
/// `len`.
pub open spec fn scan_from(
    p: Seq<u8>,
    w: int,
    vertical: bool,
    at: int,
    len: int,
    min_len: u32,
    k: int,
    start: Option<int>,
    color: [u8; 3],
) -> Seq<LineRun>
    decreases len - k,
{
    if k >= len {
        match start {
            Some(s) => emit(vertical, at, s, len, color, min_len),
            None => seq![],
        }
    } else {
        let (x, y) = along(vertical, at, k);
        let c = rgb_at(p, w, x, y);
        if is_ink(p, w, x, y) {
            match start {
                None => scan_from(p, w, vertical, at, len, min_len, k + 1, Some(k), c),
                Some(s) => if !spec_channels_close(c, color, 30) {
                    emit(vertical, at, s, k, color, min_len) + scan_from(p, w, vertical, at, len, min_len, k + 1, Some(k), c)
                } else {
                    scan_from(p, w, vertical, at, len, min_len, k + 1, start, color)
                },
            }
        } else {
            match start {
                Some(s) => emit(vertical, at, s, k, color, min_len) + scan_from(
                    p,
                    w,
                    vertical,
                    at,
                    len,
                    min_len,
                    k + 1,
                    None,
                    color,
                ),
                None => scan_from(p, w, vertical, at, len, min_len, k + 1, None, color),
            }
        }
    }
}

/// The runs of rows `0..n`.
pub open spec fn row_runs(p: Seq<u8>, w: int, min_len: u32, n: int) -> Seq<LineRun>
    decreases n,
{
    if n <= 0 {
        seq![]
    } else {
        row_runs(p, w, min_len, n - 1) + scan_from(p, w, false, n - 1, w, min_len, 0, None, [0u8, 0u8, 0u8])
    }
}

/// The runs of columns `0..n`, in a picture `h` pixels high.
pub open spec fn column_runs(p: Seq<u8>, w: int, h: int, min_len: u32, n: int) -> Seq<LineRun>
    decreases n,
{
    if n <= 0 {
        seq![]
    } else {
        column_runs(p, w, h, min_len, n - 1) + scan_from(p, w, true, n - 1, h, min_len, 0, None, [0u8, 0u8, 0u8])
    }
}

/// All runs: those of every row from the top, then those of every column
/// from the left.
pub open spec fn spec_line_runs(p: Seq<u8>, w: int, h: int, min_len: u32) -> Seq<LineRun> {
    row_runs(p, w, min_len, h) + column_runs(p, w, h, min_len, w)
}

proof fn lemma_index_bound(w: int, h: int, x: int, y: int)
    requires
        0 <= x < w,
        0 <= y < h,
    ensures
        0 <= 4 * (y * w + x),
        4 * (y * w + x) + 3 < 4 * (w * h),
{
    assert(0 <= y * w) by (nonlinear_arith)
        requires
            0 <= y,
            0 <= w,
    ;
    assert(y * w + x < w * h) by (nonlinear_arith)
        requires
            0 <= x < w,
            0 <= y < h,
    ;
}

/// Scans one row or column and appends its runs.
fn scan_line(
    pixels: &[u8],
    width: u32,
    height: u32,
    vertical: bool,
    at: u32,
    min_len: u32,
    out: &mut Vec<LineRun>,
)
    requires
        pixels@.len() == 4 * (width as int * height as int),
        vertical ==> at < width,
        !vertical ==> at < height,
    ensures
        final(out)@ == old(out)@ + scan_from(
            pixels@,
            width as int,
            vertical,
            at as int,
            if vertical { height as int } else { width as int },
            min_len,
            0,
            None,
            [0u8, 0u8, 0u8],
        ),
{
    let len: u32 = if vertical { height } else { width };
    let plen = pixels.len();
    let ghost p = pixels@;
    let ghost w = width as int;
    let ghost target = old(out)@ + scan_from(p, w, vertical, at as int, len as int, min_len, 0, None, [0u8, 0u8, 0u8]);
    let mut start: Option<u32> = None;
    let mut color: [u8; 3] = [0, 0, 0];
    let mut k: u32 = 0;
    while k < len
        invariant
            0 <= k <= len,
            len == (if vertical { height } else { width }),
            pixels@ == p,
            plen == pixels@.len(),
            w == width,
            pixels@.len() == 4 * (width as int * height as int),
            vertical ==> at < width,
            !vertical ==> at < height,
            match start {
                Some(s) => s < k,
                None => true,
            },
            target == out@ + scan_from(p, w, vertical, at as int, len as int, min_len, k as int, match start {
                Some(s) => Some(s as int),
                None => None,
            }, color),
        decreases len - k,
    {
        let (x, y) = if vertical { (at, k) } else { (k, at) };
        proof {
            lemma_index_bound(width as int, height as int, x as int, y as int);
            assert((y as int) * (width as int) <= (y as int) * (width as int) + (x as int));
        }
        let idx: usize = (y as usize * width as usize + x as usize) * 4;
        let c: [u8; 3] = [pixels[idx], pixels[idx + 1], pixels[idx + 2]];
        let alpha = pixels[idx + 3];
        let white: [u8; 3] = [255, 255, 255];
        proof {
            assert(c == rgb_at(p, w, x as int, y as int));
        }
        if alpha > 200 && !is_similar_color(&c, &white, 30) {
            match start {
                None => {
                    start = Some(k);
                    color = c;
                },
                Some(s) => {
                    if !is_similar_color(&c, &color, 30) {
                        if k - s > min_len {
                            out.push(LineRun { vertical, at, start: s, end: k, color });
                        }
                        start = Some(k);
                        color = c;
                    }
                },
            }
        } else {
            match start {
                Some(s) => {
                    if k - s > min_len {
                        out.push(LineRun { vertical, at, start: s, end: k, color });
                    }
                },
                None => {},
            }
            start = None;
        }
        k = k + 1;
    }
    match start {
        Some(s) => {
            if len - s > min_len {
                out.push(LineRun { vertical, at, start: s, end: len, color });
            }
        },
        None => {},
    }
}

/// Finds the straight lines of a picture given as row-major RGBA bytes:
/// the runs of every row, then of every column, longer than `min_len`.
pub fn detect_straight_lines(pixels: &[u8], width: u32, height: u32, min_len: u32) -> (r: Vec<LineRun>)
    requires
        pixels@.len() == 4 * (width as int * height as int),
    ensures
        r@ == spec_line_runs(pixels@, width as int, height as int, min_len),
{
    let mut out: Vec<LineRun> = Vec::new();
    let mut y: u32 = 0;
    while y < height
        invariant
            0 <= y <= height,
            pixels@.len() == 4 * (width as int * height as int),
            out@ == row_runs(pixels@, width as int, min_len, y as int),
        decreases height - y,
    {
        scan_line(pixels, width, height, false, y, min_len, &mut out);
        y = y + 1;
    }
    let ghost rows = out@;
    let mut x: u32 = 0;
    proof {
        assert(out@ =~= rows + column_runs(pixels@, width as int, height as int, min_len, 0));
    }
    while x < width
        invariant
            0 <= x <= width,
            pixels@.len() == 4 * (width as int * height as int),
            rows == row_runs(pixels@, width as int, min_len, height as int),
            out@ == rows + column_runs(pixels@, width as int, height as int, min_len, x as int),
        decreases width - x,
    {
        scan_line(pixels, width, height, true, x, min_len, &mut out);
        proof {
            assert(out@ =~= rows + column_runs(pixels@, width as int, height as int, min_len, x + 1));
        }
        x = x + 1;
    }
    out
}


/// A run lies in its row or column of a `w` by `h` picture, starts before
/// it ends, and is longer than `min_len`.
pub open spec fn run_fits(r: LineRun, w: int, h: int, min_len: u32) -> bool {
    &&& r.start < r.end
    &&& r.end - r.start > min_len
    &&& if r.vertical { r.at < w && r.end <= h } else { r.at < h && r.end <= w }
}

pub open spec fn all_fit(runs: Seq<LineRun>, w: int, h: int, min_len: u32) -> bool {
    forall|i: int| 0 <= i < runs.len() ==> run_fits(#[trigger] runs[i], w, h, min_len)
}

proof fn lemma_all_fit_concat(a: Seq<LineRun>, b: Seq<LineRun>, w: int, h: int, min_len: u32)
    requires
        all_fit(a, w, h, min_len),
        all_fit(b, w, h, min_len),
    ensures
        all_fit(a + b, w, h, min_len),
{
    assert forall|i: int| 0 <= i < (a + b).len() implies run_fits(#[trigger] (a + b)[i], w, h, min_len) by {
        if i < a.len() {
            assert((a + b)[i] == a[i]);
        } else {
            assert((a + b)[i] == b[i - a.len()]);
        }
    }
}

proof fn lemma_scan_fits(
    p: Seq<u8>,
    w: int,
    h: int,
    vertical: bool,
    at: int,
    len: int,
    min_len: u32,
    k: int,
    start: Option<int>,
    color: [u8; 3],
)
    requires
        0 <= k,
        len == (if vertical { h } else { w }),
        0 <= w <= u32::MAX,
        0 <= h <= u32::MAX,
        0 <= at < (if vertical { w } else { h }),
        start matches Some(s) ==> 0 <= s < k && s < len,
    ensures
        all_fit(scan_from(p, w, vertical, at, len, min_len, k, start, color), w, h, min_len),
    decreases len - k,
{
    if k < len {
        let (x, y) = along(vertical, at, k);
        let c = rgb_at(p, w, x, y);
        lemma_scan_fits(p, w, h, vertical, at, len, min_len, k + 1, Some(k), c);
        lemma_scan_fits(p, w, h, vertical, at, len, min_len, k + 1, start, color);
        lemma_scan_fits(p, w, h, vertical, at, len, min_len, k + 1, None, color);
        match start {
            Some(s) => {
                lemma_all_fit_concat(
                    emit(vertical, at, s, k, color, min_len),
                    scan_from(p, w, vertical, at, len, min_len, k + 1, Some(k), c),
                    w,
                    h,
                    min_len,
                );
                lemma_all_fit_concat(
                    emit(vertical, at, s, k, color, min_len),
                    scan_from(p, w, vertical, at, len, min_len, k + 1, None, color),
                    w,
                    h,
                    min_len,
                );
            },
            None => {},
        }
    }
}

proof fn lemma_rows_fit(p: Seq<u8>, w: int, h: int, min_len: u32, n: int)
    requires
        0 <= n <= h,
        0 <= w <= u32::MAX,
        0 <= h <= u32::MAX,
    ensures
        all_fit(row_runs(p, w, min_len, n), w, h, min_len),
    decreases n,
{
    if n > 0 {
        lemma_rows_fit(p, w, h, min_len, n - 1);
        lemma_scan_fits(p, w, h, false, n - 1, w, min_len, 0, None, [0u8, 0u8, 0u8]);
        lemma_all_fit_concat(
            row_runs(p, w, min_len, n - 1),
            scan_from(p, w, false, n - 1, w, min_len, 0, None, [0u8, 0u8, 0u8]),
            w,
            h,
            min_len,
        );
    }
}

proof fn lemma_columns_fit(p: Seq<u8>, w: int, h: int, min_len: u32, n: int)
    requires
        0 <= n <= w,
        0 <= w <= u32::MAX,
        0 <= h <= u32::MAX,
    ensures
        all_fit(column_runs(p, w, h, min_len, n), w, h, min_len),
    decreases n,
{
    if n > 0 {
        lemma_columns_fit(p, w, h, min_len, n - 1);
        lemma_scan_fits(p, w, h, true, n - 1, h, min_len, 0, None, [0u8, 0u8, 0u8]);
        lemma_all_fit_concat(
            column_runs(p, w, h, min_len, n - 1),
            scan_from(p, w, true, n - 1, h, min_len, 0, None, [0u8, 0u8, 0u8]),
            w,
            h,
            min_len,
        );
    }
}

/// Every line found lies in its row or column of the picture, starts
/// before it ends, and is longer than the minimum length.
pub proof fn law_lines_fit(p: Seq<u8>, width: u32, height: u32, min_len: u32)
    ensures
        all_fit(spec_line_runs(p, width as int, height as int, min_len), width as int, height as int, min_len),
{
    lemma_rows_fit(p, width as int, height as int, min_len, height as int);
    lemma_columns_fit(p, width as int, height as int, min_len, width as int);
    lemma_all_fit_concat(
        row_runs(p, width as int, min_len, height as int),
        column_runs(p, width as int, height as int, min_len, width as int),
        width as int,
        height as int,
        min_len,
    );
}

} // verus!
