//! Finding the content regions of a background picture.
//!
//! The picture is cut into square cells of `GRID_CELL` pixels, the last row and
//! column possibly narrower. Each cell has a content score, and how it stands
//! to the threshold is all that decides here: cells above it start a region,
//! cells at or above it let a region grow, four-neighbour by four-neighbour.
//! Cells are taken in row-major order; a cell that neither starts a region nor
//! was taken by one is closed when the scan passes it, so no later region can
//! grow through it.
use vstd::prelude::*;
use std::collections::VecDeque;
use crate::grid::{
    cell_index, component_of, flood, four_offsets, in_grid, is_fg, lemma_cells_distinct, lemma_closed_linked,
    lemma_index_bounds, lemma_linked_fg, lemma_linked_self, linked, linked_from_any, offsets_of,
};
use crate::template_pages::{min_int, ContentRegion};
use vstd::arithmetic::div_mod::lemma_fundamental_div_mod;

verus! {

/// Side of a grid cell, in pixels.
pub const GRID_CELL: u32 = 30;

/// How a cell's content score stands to the threshold.
#[derive(Clone, Copy, Debug)]
pub enum ScoreLevel {
    Below,
    AtThreshold,
    Above,
}

/// A cell, as `(row, column)`.
pub type CellPos = (usize, usize);

/// Number of cells needed to cover `n` pixels.
pub open spec fn cells_across(n: int) -> int {
    (n + GRID_CELL - 1) / (GRID_CELL as int)
}

/// The cell at raster position `k` of a grid `cols` cells wide.
pub open spec fn cell_at(cols: int, k: int) -> CellPos {
    ((k / cols) as usize, (k % cols) as usize)
}

/// The cells a region may still grow through: at or above the threshold,
/// and not closed yet.
pub open spec fn open_mask(levels: Seq<ScoreLevel>, closed: Seq<bool>) -> Seq<bool> {
    Seq::new(levels.len(), |i: int| !(levels[i] is Below) && !closed[i])
}

/// `closed` with the cells of `comp` closed as well.
pub open spec fn close_cells(closed: Seq<bool>, cols: int, comp: Set<CellPos>) -> Seq<bool> {
    Seq::new(closed.len(), |i: int| closed[i] || comp.contains(cell_at(cols, i)))
}

/// The closed cells and the regions found, as cells, after the scan has
/// passed the first `k` cells.
pub open spec fn scan(levels: Seq<ScoreLevel>, cols: int, rows: int, k: nat) -> (Seq<bool>, Seq<Set<CellPos>>)
    decreases k,
{
    if k == 0 {
        (Seq::new(levels.len(), |i: int| false), Seq::empty())
    } else {
        let prev = scan(levels, cols, rows, (k - 1) as nat);
        let i = k - 1;
        if prev.0[i] {
            prev
        } else if levels[i] is Above {
            let comp = component_of(open_mask(levels, prev.0), cols, rows, false, cell_at(cols, i));
            (close_cells(prev.0, cols, comp), prev.1.push(comp))
        } else {
            (prev.0.update(i, true), prev.1)
        }
    }
}

/// Row (`by_row`) or column of a cell.
pub open spec fn coord(a: CellPos, by_row: bool) -> int {
    if by_row {
        a.0 as int
    } else {
        a.1 as int
    }
}

/// `m` is the least (`lowest`) or greatest row or column of the cells of `comp`.
pub open spec fn is_extreme(comp: Set<CellPos>, by_row: bool, lowest: bool, m: int) -> bool {
    &&& exists|a: CellPos| #[trigger] comp.contains(a) && coord(a, by_row) == m
    &&& forall|a: CellPos| #[trigger]
        comp.contains(a) ==> if lowest {
            m <= coord(a, by_row)
        } else {
            coord(a, by_row) <= m
        }
}

/// The least or greatest row or column of the cells of `comp`.
pub open spec fn extreme(comp: Set<CellPos>, by_row: bool, lowest: bool) -> int {
    choose|m: int| is_extreme(comp, by_row, lowest, m)
}

/// The pixel rectangle of the cells from column `c0` to `c1` and from row
/// `r0` to `r1`, cut at the picture's edge; none where it is under two cells
/// wide or high.
pub open spec fn spec_bounds_region(c0: int, c1: int, r0: int, r1: int, width: int, height: int) -> Option<ContentRegion> {
    let g = GRID_CELL as int;
    let x = c0 * g;
    let y = r0 * g;
    let w = min_int((c1 - c0 + 1) * g, width - x);
    let h = min_int((r1 - r0 + 1) * g, height - y);
    if w < 2 * g || h < 2 * g {
        None
    } else {
        Some(ContentRegion { x: x as u32, y: y as u32, width: w as u32, height: h as u32 })
    }
}

/// The pixel rectangle of a region's bounding cells (see `spec_bounds_region`).
pub open spec fn spec_cell_region(comp: Set<CellPos>, width: int, height: int) -> Option<ContentRegion> {
    spec_bounds_region(
        extreme(comp, false, true),
        extreme(comp, false, false),
        extreme(comp, true, true),
        extreme(comp, true, false),
        width,
        height,
    )
}

/// The rectangles of the regions, in order, those too small left out.
pub open spec fn spec_found_regions(comps: Seq<Set<CellPos>>, width: int, height: int) -> Seq<ContentRegion>
    decreases comps.len(),
{
    if comps.len() == 0 {
        seq![]
    } else {
        let rest = spec_found_regions(comps.drop_last(), width, height);
        match spec_cell_region(comps.last(), width, height) {
            Some(r) => rest.push(r),
            None => rest,
        }
    }
}

/// The rectangles of at least `min_area` pixels, in order.
pub open spec fn spec_large_regions(rs: Seq<ContentRegion>, min_area: int) -> Seq<ContentRegion>
    decreases rs.len(),
{
    if rs.len() == 0 {
        seq![]
    } else {
        let rest = spec_large_regions(rs.drop_last(), min_area);
        if rs.last().width * rs.last().height >= min_area {
            rest.push(rs.last())
        } else {
            rest
        }
    }
}

/// The whole picture as one region.
pub open spec fn whole_picture(width: u32, height: u32) -> ContentRegion {
    ContentRegion { x: 0, y: 0, width, height }
}

/// The content regions of a `width` x `height` picture whose cells stand to
/// the threshold as `levels` says, row by row: the regions found that cover at
/// least a two-hundredth of the picture; the whole picture where none does, or
/// where the only one covers more than nine tenths of it.
pub open spec fn spec_content_regions(levels: Seq<ScoreLevel>, width: u32, height: u32) -> Seq<ContentRegion> {
    let cols = cells_across(width as int);
    let rows = cells_across(height as int);
    let comps = scan(levels, cols, rows, (cols * rows) as nat).1;
    let rs = spec_large_regions(spec_found_regions(comps, width as int, height as int), (width * height) / 200);
    if rs.len() == 0 {
        seq![whole_picture(width, height)]
    } else if rs.len() == 1 && 10 * (rs[0].width * rs[0].height) > 9 * (width * height) {
        seq![whole_picture(width, height)]
    } else {
        rs
    }
}

proof fn lemma_extreme_unique(comp: Set<CellPos>, by_row: bool, lowest: bool, m: int)
    requires
        is_extreme(comp, by_row, lowest, m),
    ensures
        extreme(comp, by_row, lowest) == m,
{
    let e = extreme(comp, by_row, lowest);
    assert(is_extreme(comp, by_row, lowest, e));
    let a = choose|a: CellPos| #[trigger] comp.contains(a) && coord(a, by_row) == m;
    let b = choose|b: CellPos| #[trigger] comp.contains(b) && coord(b, by_row) == e;
    assert(comp.contains(a));
    assert(comp.contains(b));
}

/// The least and greatest column and row of a nonempty list of cells.
fn cell_bounds(cells: &Vec<CellPos>) -> (r: (usize, usize, usize, usize))
    requires
        cells@.len() > 0,
    ensures
        is_extreme(cells@.to_set(), false, true, r.0 as int),
        is_extreme(cells@.to_set(), false, false, r.1 as int),
        is_extreme(cells@.to_set(), true, true, r.2 as int),
        is_extreme(cells@.to_set(), true, false, r.3 as int),
{
    let ghost s = cells@;
    let mut min_col = cells[0].1;
    let mut max_col = cells[0].1;
    let mut min_row = cells[0].0;
    let mut max_row = cells[0].0;
    let mut i: usize = 1;
    while i < cells.len()
        invariant
            s == cells@,
            1 <= i <= s.len(),
            exists|j: int| 0 <= j < i && s[j].1 == min_col,
            exists|j: int| 0 <= j < i && s[j].1 == max_col,
            exists|j: int| 0 <= j < i && s[j].0 == min_row,
            exists|j: int| 0 <= j < i && s[j].0 == max_row,
            forall|j: int| 0 <= j < i ==> min_col <= #[trigger] s[j].1 <= max_col && min_row <= s[j].0 <= max_row,
        decreases s.len() - i,
    {
        let c = cells[i];
        if c.1 < min_col {
            min_col = c.1;
        }
        if c.1 > max_col {
            max_col = c.1;
        }
        if c.0 < min_row {
            min_row = c.0;
        }
        if c.0 > max_row {
            max_row = c.0;
        }
        i = i + 1;
    }
    proof {
        let t = s.to_set();
        assert forall|a: CellPos| #[trigger] t.contains(a) implies min_col <= a.1 <= max_col && min_row <= a.0 <= max_row by {
            let j = choose|j: int| 0 <= j < s.len() && s[j] == a;
            assert(min_col <= s[j].1);
        }
        let j0 = choose|j: int| 0 <= j < i && s[j].1 == min_col;
        assert(t.contains(s[j0]));
        let j1 = choose|j: int| 0 <= j < i && s[j].1 == max_col;
        assert(t.contains(s[j1]));
        let j2 = choose|j: int| 0 <= j < i && s[j].0 == min_row;
        assert(t.contains(s[j2]));
        let j3 = choose|j: int| 0 <= j < i && s[j].0 == max_row;
        assert(t.contains(s[j3]));
        assert(coord(s[j0], false) == min_col);
        assert(coord(s[j1], false) == max_col);
        assert(coord(s[j2], true) == min_row);
        assert(coord(s[j3], true) == max_row);
    }
    (min_col, max_col, min_row, max_row)
}

proof fn lemma_cell_at(cols: int, rows: int, k: int)
    requires
        0 <= k < cols * rows,
        0 <= cols <= usize::MAX,
        0 <= rows <= usize::MAX,
    ensures
        in_grid(cols, rows, cell_at(cols, k)),
        cell_index(cols, cell_at(cols, k).0 as int, cell_at(cols, k).1 as int) == k,
        k / cols < rows,
        0 <= k % cols < cols,
{
    if cols == 0 {
        assert(cols * rows == 0);
    }
    lemma_fundamental_div_mod(k, cols);
    let q = k / cols;
    let r = k % cols;
    assert(0 <= q) by (nonlinear_arith)
        requires
            k == cols * q + r,
            0 <= r < cols,
            0 <= k,
    ;
    assert(q < rows) by (nonlinear_arith)
        requires
            k == cols * q + r,
            0 <= r < cols,
            k < cols * rows,
    ;
    assert(cell_index(cols, q, r) == k) by (nonlinear_arith)
        requires
            k == cols * q + r,
    ;
}

/// The region that grows from the cell at raster position `k` through the
/// open cells: its cells, and a mark for each cell of the grid that it holds.
fn grow_region(
    levels: &[ScoreLevel],
    closed: &Vec<bool>,
    cols: usize,
    rows: usize,
    k: usize,
    offsets: &Vec<(i32, i32)>,
) -> (r: (Vec<CellPos>, Vec<bool>))
    requires
        levels@.len() == cols * rows,
        closed@.len() == cols * rows,
        k < cols * rows,
        !(levels@[k as int] is Below),
        !closed@[k as int],
        offsets_of(false, offsets@),
    ensures
        r.0@.len() > 0,
        r.0@.to_set() == component_of(open_mask(levels@, closed@), cols as int, rows as int, false, cell_at(cols as int, k as int)),
        forall|i: int| 0 <= i < r.0@.len() ==> #[trigger] in_grid(cols as int, rows as int, r.0@[i]),
        r.1@.len() == cols * rows,
        forall|i: int| 0 <= i < cols * rows ==> (#[trigger] r.1@[i] <==> r.0@.to_set().contains(cell_at(cols as int, i))),
{
    let n = levels.len();
    let ghost ci = cols as int;
    let ghost ri = rows as int;
    let mut mask: Vec<bool> = Vec::new();
    let mut i: usize = 0;
    while i < n
        invariant
            n == levels@.len(),
            n == closed@.len(),
            0 <= i <= n,
            mask@.len() == i,
            forall|j: int| 0 <= j < i ==> #[trigger] mask@[j] == open_mask(levels@, closed@)[j],
        decreases n - i,
    {
        let open = match levels[i] {
            ScoreLevel::Below => false,
            _ => !closed[i],
        };
        mask.push(open);
        i = i + 1;
    }
    let ghost m = mask@;
    assert(m =~= open_mask(levels@, closed@));
    let s = (k / cols, k % cols);
    proof {
        lemma_cell_at(ci, ri, k as int);
        assert(s == cell_at(ci, k as int));
    }
    let mut seen: Vec<bool> = vec![false; n];
    seen.set(k, true);
    let ghost seen0 = seen@;
    let mut queue: VecDeque<CellPos> = VecDeque::new();
    queue.push_back(s);
    let ghost q0 = queue@;
    proof {
        assert(q0 =~= seq![s]);
        assert(is_fg(m, ci, ri, s));
        assert forall|c: CellPos| #[trigger] in_grid(ci, ri, c) && c != s implies !seen0[cell_index(ci, c.0 as int, c.1 as int)] by {
            lemma_cells_distinct(ci, ri, c, s);
            lemma_index_bounds(ci, ri, c.0 as int, c.1 as int);
        }
        assert forall|j: int| 0 <= j < queue@.len() implies #[trigger] is_fg(m, ci, ri, queue@[j])
            && seen@[cell_index(ci, queue@[j].0 as int, queue@[j].1 as int)] by {
            assert(queue@[j] == s);
        }
        assert forall|a: CellPos, b: CellPos|
            #![trigger crate::grid::adjacent(false, a, b), seen@[cell_index(ci, a.0 as int, a.1 as int)]]
            in_grid(ci, ri, a) && seen@[cell_index(ci, a.0 as int, a.1 as int)] && !queue@.contains(a)
                && is_fg(m, ci, ri, b) && crate::grid::adjacent(false, a, b)
                implies seen@[cell_index(ci, b.0 as int, b.1 as int)] by {
            if a != s {
                assert(in_grid(ci, ri, a));
            } else {
                assert(queue@[0] == s);
            }
        }
    }
    let pixels = flood(&mask, cols, rows, false, offsets, &mut seen, &mut queue);
    let ghost comp = component_of(m, ci, ri, false, s);
    proof {
        assert forall|c: CellPos| pixels@.to_set().contains(c) <==> comp.contains(c) by {
            if pixels@.to_set().contains(c) {
                let j = choose|j: int| 0 <= j < pixels@.len() && pixels@[j] == c;
                assert(linked_from_any(m, ci, ri, false, q0, pixels@[j]));
                let t = choose|t: int| 0 <= t < q0.len() && #[trigger] linked(m, ci, ri, false, q0[t], pixels@[j]);
                assert(q0[t] == s);
            }
            if comp.contains(c) {
                assert(linked(m, ci, ri, false, s, c));
                assert(seen@[cell_index(ci, s.0 as int, s.1 as int)]);
                lemma_closed_linked(m, ci, ri, false, seen@, s, c);
                lemma_linked_fg(m, ci, ri, false, s, c);
                if c == s {
                    assert(q0.contains(s)) by {
                        assert(q0[0] == s);
                    }
                }
                assert(pixels@.contains(c));
            }
        }
        assert(pixels@.to_set() =~= comp);
        lemma_linked_self(m, ci, ri, false, s);
        assert(pixels@.to_set().contains(s));
        assert(pixels@.len() > 0);
        assert forall|j: int| 0 <= j < ci * ri implies (#[trigger] seen@[j] <==> pixels@.to_set().contains(cell_at(ci, j))) by {
            lemma_cell_at(ci, ri, j);
            let c = cell_at(ci, j);
            if c == s {
                assert(q0.contains(s)) by {
                    assert(q0[0] == s);
                }
            }
            assert(seen@[cell_index(ci, c.0 as int, c.1 as int)] <==> pixels@.contains(c));
        }
    }
    (pixels, seen)
}

/// The regions the scan of a `width` x `height` picture finds, as
/// rectangles, in the order in which their first cells come, those under two
/// cells wide or high left out.
#[verifier::rlimit(40)]
pub fn found_regions(width: u32, height: u32, levels: &[ScoreLevel]) -> (r: Vec<ContentRegion>)
    requires
        width + GRID_CELL - 1 <= u32::MAX,
        height + GRID_CELL - 1 <= u32::MAX,
        levels@.len() == cells_across(width as int) * cells_across(height as int),
    ensures
        r@ == spec_found_regions(
            scan(levels@, cells_across(width as int), cells_across(height as int), levels@.len()).1,
            width as int,
            height as int,
        ),
        forall|i: int| 0 <= i < r@.len() ==> #[trigger] r@[i].x + r@[i].width <= width && r@[i].y + r@[i].height <= height,
{
    let cols: usize = ((width + (GRID_CELL - 1)) / GRID_CELL) as usize;
    let rows: usize = ((height + (GRID_CELL - 1)) / GRID_CELL) as usize;
    let ghost ci = cols as int;
    let ghost ri = rows as int;
    let ghost lv = levels@;
    let n = levels.len();
    let offsets = four_offsets();
    let mut closed: Vec<bool> = vec![false; n];
    let mut found: Vec<ContentRegion> = Vec::new();
    let ghost mut comps: Seq<Set<CellPos>> = Seq::empty();
    proof {
        assert forall|i: int| 0 <= i < closed@.len() implies !closed@[i] by {
            assert(cloned(false, closed@[i]));
        }
        assert(closed@ =~= scan(lv, ci, ri, 0).0);
    }
    let mut k: usize = 0;
    while k < n
        invariant
            lv == levels@,
            n == lv.len(),
            n == ci * ri,
            ci == cols,
            ri == rows,
            ci == cells_across(width as int),
            ri == cells_across(height as int),
            width + GRID_CELL - 1 <= u32::MAX,
            height + GRID_CELL - 1 <= u32::MAX,
            offsets_of(false, offsets@),
            0 <= k <= n,
            closed@ == scan(lv, ci, ri, k as nat).0,
            comps == scan(lv, ci, ri, k as nat).1,
            found@ == spec_found_regions(comps, width as int, height as int),
            forall|i: int| 0 <= i < found@.len() ==> #[trigger] found@[i].x + found@[i].width <= width && found@[i].y + found@[i].height <= height,
        decreases n - k,
    {
        proof {
            lemma_scan_len(lv, ci, ri, k as nat);
        }
        if !closed[k] {
            match levels[k] {
                ScoreLevel::Above => {
                    let ghost before = closed@;
                    let (cells, marks) = grow_region(levels, &closed, cols, rows, k, &offsets);
                    let ghost comp = cells@.to_set();
                    let (c0, c1, r0, r1) = cell_bounds(&cells);
                    proof {
                        lemma_extreme_unique(comp, false, true, c0 as int);
                        lemma_extreme_unique(comp, false, false, c1 as int);
                        lemma_extreme_unique(comp, true, true, r0 as int);
                        lemma_extreme_unique(comp, true, false, r1 as int);
                        let a = choose|a: CellPos| #[trigger] comp.contains(a) && coord(a, false) == c1;
                        let j = choose|j: int| 0 <= j < cells@.len() && cells@[j] == a;
                        assert(in_grid(ci, ri, cells@[j]));
                        let b = choose|b: CellPos| #[trigger] comp.contains(b) && coord(b, true) == r1;
                        let j2 = choose|j: int| 0 <= j < cells@.len() && cells@[j] == b;
                        assert(in_grid(ci, ri, cells@[j2]));
                        assert(comp.contains(a));
                    }
                    let reg = bounds_region(c0, c1, r0, r1, width, height);
                    let mut i: usize = 0;
                    while i < n
                        invariant
                            n == ci * ri,
                            0 <= i <= n,
                            closed@.len() == n,
                            before.len() == n,
                            marks@.len() == n,
                            forall|j: int| 0 <= j < i ==> #[trigger] closed@[j] == (before[j] || marks@[j]),
                            forall|j: int| i <= j < n ==> #[trigger] closed@[j] == before[j],
                        decreases n - i,
                    {
                        if marks[i] {
                            closed.set(i, true);
                        }
                        i = i + 1;
                    }
                    proof {
                        assert(closed@ =~= close_cells(before, ci, comp));
                        let old_comps = comps;
                        comps = comps.push(comp);
                        assert(comps.drop_last() =~= old_comps);
                        assert(comps.last() == comp);
                    }
                    match reg {
                        Some(r) => {
                            let ghost prev_found = found@;
                            found.push(r);
                            proof {
                                assert forall|i: int| 0 <= i < found@.len() implies #[trigger] found@[i].x + found@[i].width <= width
                                    && found@[i].y + found@[i].height <= height by {
                                    if i < prev_found.len() {
                                        assert(found@[i] == prev_found[i]);
                                    }
                                }
                            }
                        },
                        None => {},
                    }
                },
                _ => {
                    closed.set(k, true);
                },
            }
        }
        k = k + 1;
    }
    found
}

proof fn lemma_scan_len(levels: Seq<ScoreLevel>, cols: int, rows: int, k: nat)
    requires
        k <= levels.len(),
    ensures
        scan(levels, cols, rows, k).0.len() == levels.len(),
    decreases k,
{
    if k > 0 {
        lemma_scan_len(levels, cols, rows, (k - 1) as nat);
        let prev = scan(levels, cols, rows, (k - 1) as nat);
        let i = k - 1;
        if !prev.0[i] && levels[i] is Above {
            let comp = component_of(open_mask(levels, prev.0), cols, rows, false, cell_at(cols, i));
            assert(close_cells(prev.0, cols, comp).len() == prev.0.len());
        }
    } else {
        assert(scan(levels, cols, rows, k).0 =~= Seq::new(levels.len(), |i: int| false));
    }
}

/// The content regions of a `width` x `height` picture whose grid cells,
/// row by row, stand to the content threshold as `levels` says (see
/// `spec_content_regions`).
pub fn content_regions(width: u32, height: u32, levels: &[ScoreLevel]) -> (r: Vec<ContentRegion>)
    requires
        width + GRID_CELL - 1 <= u32::MAX,
        height + GRID_CELL - 1 <= u32::MAX,
        width * height <= u32::MAX,
        levels@.len() == cells_across(width as int) * cells_across(height as int),
    ensures
        r@ == spec_content_regions(levels@, width, height),
        r@.len() >= 1,
        forall|i: int| 0 <= i < r@.len() ==> #[trigger] r@[i].x + r@[i].width <= width && r@[i].y + r@[i].height <= height,
{
    let found = found_regions(width, height, levels);
    let min_area: u32 = (width * height) / 200;
    let mut large: Vec<ContentRegion> = Vec::new();
    let mut i: usize = 0;
    while i < found.len()
        invariant
            0 <= i <= found@.len(),
            width * height <= u32::MAX,
            min_area == (width * height) / 200,
            large@ == spec_large_regions(found@.take(i as int), min_area as int),
            forall|j: int| 0 <= j < found@.len() ==> #[trigger] found@[j].x + found@[j].width <= width && found@[j].y + found@[j].height <= height,
            forall|j: int| 0 <= j < large@.len() ==> #[trigger] large@[j].x + large@[j].width <= width && large@[j].y + large@[j].height <= height,
        decreases found@.len() - i,
    {
        let r = found[i];
        proof {
            assert(found@[i as int].x + found@[i as int].width <= width);
            assert(found@.take(i + 1).drop_last() =~= found@.take(i as int));
            assert(r.width * r.height <= width * height) by (nonlinear_arith)
                requires
                    r.width <= width,
                    r.height <= height,
            ;
        }
        if r.width * r.height >= min_area {
            let ghost prev_large = large@;
            large.push(r);
            proof {
                assert forall|j: int| 0 <= j < large@.len() implies #[trigger] large@[j].x + large@[j].width <= width
                    && large@[j].y + large@[j].height <= height by {
                    if j < prev_large.len() {
                        assert(large@[j] == prev_large[j]);
                    }
                }
            }
        }
        i = i + 1;
    }
    proof {
        assert(found@.take(found@.len() as int) =~= found@);
    }
    let whole = ContentRegion { x: 0, y: 0, width, height };
    if large.len() == 0 {
        vec![whole]
    } else {
        let first = large[0];
        proof {
            assert(large@[0].x + large@[0].width <= width);
            assert(first.width * first.height <= width * height) by (nonlinear_arith)
                requires
                    first.width <= width,
                    first.height <= height,
            ;
        }
        let area: u64 = (first.width as u64) * (first.height as u64);
        let total: u64 = (width as u64) * (height as u64);
        if large.len() == 1 && area * 10 > total * 9 {
            vec![whole]
        } else {
            large
        }
    }
}

/// The pixel rectangle of the cells from column `c0` to `c1` and from row
/// `r0` to `r1`, unless it is too small.
fn bounds_region(c0: usize, c1: usize, r0: usize, r1: usize, width: u32, height: u32) -> (r: Option<ContentRegion>)
    requires
        c0 <= c1 < cells_across(width as int),
        r0 <= r1 < cells_across(height as int),
        width + GRID_CELL - 1 <= u32::MAX,
        height + GRID_CELL - 1 <= u32::MAX,
    ensures
        r == spec_bounds_region(c0 as int, c1 as int, r0 as int, r1 as int, width as int, height as int),
        r matches Some(reg) ==> reg.x + reg.width <= width && reg.y + reg.height <= height,
{
    let g = GRID_CELL;
    let x: u32 = (c0 as u32) * g;
    let y: u32 = (r0 as u32) * g;
    let span_x: u32 = ((c1 - c0 + 1) as u32) * g;
    let span_y: u32 = ((r1 - r0 + 1) as u32) * g;
    let w: u32 = if span_x < width - x { span_x } else { width - x };
    let h: u32 = if span_y < height - y { span_y } else { height - y };
    if w < 2 * g || h < 2 * g {
        None
    } else {
        Some(ContentRegion { x, y, width: w, height: h })
    }
}

} // verus!
