//! Connected regions of the alpha channel of an RGBA image, and removal of
//! the small faint ones (specks and burrs left by background removal).
use vstd::prelude::*;
use crate::grid::{
    cell_index, column_steps, component_of, eight_offsets_by_column, in_grid, is_fg, is_path, lemma_index_bounds, lemma_linked_fg,
    lemma_linked_symmetric, linked, fresh_marks, lemma_bfs_masks, lemma_component_closed, masks_agree_on, raster_before,
};
use vstd::arithmetic::div_mod::lemma_fundamental_div_mod;
use crate::components::{
    cell_bounds, cell_list, first_and_component, flood_order, is_first, lemma_first_unique, is_component, is_labelling, label_cells, lemma_linked_along, tight_bounds,
};

verus! {

/// A connected region of visible pixels: its cells `(row, column)` in
/// breadth-first order from its first cell, its bounding box size, its
/// highest alpha and the number of its cells at or above the anchor alpha.
pub struct AlphaComponent {
    pub pixels: Vec<(usize, usize)>,
    pub area: usize,
    pub width: usize,
    pub height: usize,
    pub max_alpha: u8,
    pub anchor_area: usize,
}

/// Bounding box area, saturating at `usize::MAX` and at least 1.
pub open spec fn spec_bbox_area(c: AlphaComponent) -> int {
    let p = c.width * c.height;
    if p > usize::MAX {
        usize::MAX as int
    } else if p < 1 {
        1
    } else {
        p
    }
}

pub open spec fn spec_min_side(c: AlphaComponent) -> int {
    if c.width <= c.height { c.width as int } else { c.height as int }
}

pub open spec fn spec_max_side(c: AlphaComponent) -> int {
    if c.width >= c.height { c.width as int } else { c.height as int }
}

impl AlphaComponent {
    pub fn bbox_area(&self) -> (r: usize)
        ensures
            r == spec_bbox_area(*self),
    {
        let p = match self.width.checked_mul(self.height) {
            Some(p) => p,
            None => usize::MAX,
        };
        if p < 1 {
            1
        } else {
            p
        }
    }

    pub fn min_side(&self) -> (r: usize)
        ensures
            r == spec_min_side(*self),
    {
        if self.width <= self.height {
            self.width
        } else {
            self.height
        }
    }

    pub fn max_side(&self) -> (r: usize)
        ensures
            r == spec_max_side(*self),
    {
        if self.width >= self.height {
            self.width
        } else {
            self.height
        }
    }
}

/// Alpha of the cell `c` of an RGBA buffer `w` pixels wide.
pub open spec fn alpha_at(rgba: Seq<u8>, w: int, c: (usize, usize)) -> u8 {
    rgba[4 * cell_index(w, c.0 as int, c.1 as int) + 3]
}

/// The cells whose alpha is above `threshold`, for the first `n` pixels.
pub open spec fn alpha_mask(rgba: Seq<u8>, n: int, threshold: u8) -> Seq<bool> {
    Seq::new(n as nat, |i: int| rgba[4 * i + 3] > threshold)
}

/// Number of cells of the list whose alpha is at least `threshold`.
pub open spec fn count_anchor(rgba: Seq<u8>, w: int, pixels: Seq<(usize, usize)>, threshold: u8) -> nat
    decreases pixels.len(),
{
    if pixels.len() == 0 {
        0
    } else {
        count_anchor(rgba, w, pixels.drop_last(), threshold) + if alpha_at(rgba, w, pixels.last()) >= threshold {
            1nat
        } else {
            0nat
        }
    }
}

/// Some cell of the list has alpha `m`.
pub open spec fn alpha_attained(rgba: Seq<u8>, w: int, pixels: Seq<(usize, usize)>, m: u8) -> bool {
    exists|i: int| 0 <= i < pixels.len() && alpha_at(rgba, w, #[trigger] pixels[i]) == m
}

/// `s` spans `height` rows from `top` and `width` columns from `left`.
pub open spec fn extent_from(s: Set<(usize, usize)>, top: int, left: int, width: int, height: int) -> bool {
    tight_bounds(s, top, top + height - 1, left, left + width - 1)
}

/// The bounding box of `s` is `width` x `height`.
pub open spec fn has_extent(s: Set<(usize, usize)>, width: int, height: int) -> bool {
    exists|top: int, left: int| #[trigger] extent_from(s, top, left, width, height)
}

/// `c` holds the statistics of its cell list.
pub open spec fn alpha_describes(c: AlphaComponent, rgba: Seq<u8>, w: int, anchor_threshold: u8) -> bool {
    &&& c.pixels@.len() > 0
    &&& c.pixels@.no_duplicates()
    &&& c.area == c.pixels@.len()
    &&& has_extent(c.pixels@.to_set(), c.width as int, c.height as int)
    &&& forall|i: int| 0 <= i < c.pixels@.len() ==> alpha_at(rgba, w, #[trigger] c.pixels@[i]) <= c.max_alpha
    &&& alpha_attained(rgba, w, c.pixels@, c.max_alpha)
    &&& c.anchor_area == count_anchor(rgba, w, c.pixels@, anchor_threshold)
}

/// `comps` are the regions of cells whose alpha is above `fg` (full
/// neighbourhood), in row-major order of their first cells, with their
/// statistics; each region lists its cells in breadth-first order from its
/// first cell, trying the steps column by column.
pub open spec fn alpha_labelling(
    rgba: Seq<u8>,
    w: int,
    h: int,
    fg: u8,
    anchor: u8,
    comps: Seq<AlphaComponent>,
) -> bool {
    &&& is_labelling(alpha_mask(rgba, w * h, fg), w, h, true, comps.map_values(|c: AlphaComponent| c.pixels@.to_set()))
    &&& forall|k: int| 0 <= k < comps.len() ==> #[trigger] alpha_describes(comps[k], rgba, w, anchor)
    &&& forall|k: int, i: int|
        0 <= k < comps.len() && 0 <= i < comps[k].pixels@.len() ==> #[trigger] in_grid(w, h, comps[k].pixels@[i])
    &&& forall|k: int|
        0 <= k < comps.len() ==> #[trigger] flood_order(alpha_mask(rgba, w * h, fg), w, h, column_steps(), comps[k].pixels@)
    &&& forall|k: int| 0 <= k < comps.len() ==> is_first(#[trigger] comps[k].pixels@.to_set(), comps[k].pixels@[0])
}

/// Statistics of one region.
fn summarize(rgba: &[u8], w: usize, h: usize, pixels: Vec<(usize, usize)>, anchor_threshold: u8) -> (c: AlphaComponent)
    requires
        w * h <= usize::MAX,
        4 * (w * h) <= rgba@.len(),
        cell_list(w as int, h as int, pixels@),
    ensures
        alpha_describes(c, rgba@, w as int, anchor_threshold),
        c.pixels@ == pixels@,
{
    let (min_y, max_y, min_x, max_x) = cell_bounds(&pixels);
    let ghost s = pixels@.to_set();
    let ghost wi = w as int;
    let rlen = rgba.len();
    proof {
        assert(s.contains(pixels@[0]));
        assert(in_grid(wi, h as int, pixels@[0]));
        let p1 = choose|p: (usize, usize)| #[trigger] s.contains(p) && p.0 == max_y;
        let p2 = choose|p: (usize, usize)| #[trigger] s.contains(p) && p.1 == max_x;
        let p3 = choose|p: (usize, usize)| #[trigger] s.contains(p) && p.0 == min_y;
        let p4 = choose|p: (usize, usize)| #[trigger] s.contains(p) && p.1 == min_x;
        let j1 = choose|j: int| 0 <= j < pixels@.len() && pixels@[j] == p1;
        let j2 = choose|j: int| 0 <= j < pixels@.len() && pixels@[j] == p2;
        assert(in_grid(wi, h as int, pixels@[j1]));
        assert(in_grid(wi, h as int, pixels@[j2]));
        assert(min_y <= max_y && min_x <= max_x);
    }
    let first = pixels[0];
    proof {
        lemma_index_bounds(wi, h as int, first.0 as int, first.1 as int);
    }
    let mut max_alpha = rgba[(first.0 * w + first.1) * 4 + 3];
    let mut anchor_area: usize = 0;
    let mut i: usize = 0;
    while i < pixels.len()
        invariant
            0 <= i <= pixels@.len(),
            wi == w,
            w * h <= usize::MAX,
            4 * (w * h) <= rgba@.len(),
            rlen == rgba@.len(),
            cell_list(w as int, h as int, pixels@),
            first == pixels@[0],
            forall|j: int| 0 <= j < i ==> alpha_at(rgba@, wi, #[trigger] pixels@[j]) <= max_alpha,
            alpha_at(rgba@, wi, first) == max_alpha || exists|j: int|
                0 <= j < i && alpha_at(rgba@, wi, #[trigger] pixels@[j]) == max_alpha,
            alpha_at(rgba@, wi, first) <= max_alpha,
            anchor_area == count_anchor(rgba@, wi, pixels@.take(i as int), anchor_threshold),
            anchor_area <= i,
        decreases pixels@.len() - i,
    {
        let (y, x) = pixels[i];
        proof {
            assert(in_grid(wi, h as int, pixels@[i as int]));
            lemma_index_bounds(wi, h as int, y as int, x as int);
        }
        let a = rgba[(y * w + x) * 4 + 3];
        if a > max_alpha {
            max_alpha = a;
        }
        if a >= anchor_threshold {
            anchor_area = anchor_area + 1;
        }
        proof {
            assert(pixels@.take(i + 1).drop_last() =~= pixels@.take(i as int));
            assert(pixels@.take(i + 1).last() == pixels@[i as int]);
        }
        i = i + 1;
    }
    proof {
        assert(pixels@.take(pixels@.len() as int) =~= pixels@);
        if !(exists|j: int| 0 <= j < pixels@.len() && alpha_at(rgba@, wi, #[trigger] pixels@[j]) == max_alpha) {
            assert(alpha_at(rgba@, wi, pixels@[0]) == max_alpha);
        }
    }
    let c = AlphaComponent {
        area: pixels.len(),
        width: max_x - min_x + 1,
        height: max_y - min_y + 1,
        pixels,
        max_alpha,
        anchor_area,
    };
    proof {
        assert(extent_from(c.pixels@.to_set(), min_y as int, min_x as int, c.width as int, c.height as int));
    }
    c
}

/// Finds the regions of cells whose alpha is above `foreground_threshold`
/// (full neighbourhood) in a `width` x `height` RGBA buffer.
pub fn find_alpha_components(
    rgba: &[u8],
    width: usize,
    height: usize,
    foreground_threshold: u8,
    anchor_threshold: u8,
) -> (comps: Vec<AlphaComponent>)
    requires
        width * height <= usize::MAX,
        4 * (width * height) <= rgba@.len(),
    ensures
        alpha_labelling(rgba@, width as int, height as int, foreground_threshold, anchor_threshold, comps@),
{
    let n = width * height;
    let rlen = rgba.len();
    let mut mask: Vec<bool> = Vec::new();
    let mut idx: usize = 0;
    while idx < n
        invariant
            0 <= idx <= n,
            n == width * height,
            4 * n <= rgba@.len(),
            rlen == rgba@.len(),
            mask@ =~= alpha_mask(rgba@, idx as int, foreground_threshold),
        decreases n - idx,
    {
        mask.push(rgba[idx * 4 + 3] > foreground_threshold);
        idx = idx + 1;
    }
    let offsets = eight_offsets_by_column();
    let lists = label_cells(mask.as_slice(), width, height, true, &offsets);
    let ghost sets = lists@.map_values(|l: Vec<(usize, usize)>| l@.to_set());
    let mut comps: Vec<AlphaComponent> = Vec::new();
    let mut rest = lists;
    let ghost all = rest@;
    let mut k: usize = 0;
    let count = rest.len();
    while k < count
        invariant
            0 <= k <= count,
            count == all.len(),
            width * height <= usize::MAX,
            4 * (width * height) <= rgba@.len(),
            comps@.len() == k,
            rest@.len() == count - k,
            forall|j: int| 0 <= j < rest@.len() ==> rest@[j] == all[j + k],
            forall|j: int| 0 <= j < all.len() ==> #[trigger] cell_list(width as int, height as int, all[j]@),
            forall|j: int| 0 <= j < all.len() ==> #[trigger] flood_order(mask@, width as int, height as int, column_steps(), all[j]@),
            forall|j: int| 0 <= j < all.len() ==> is_first(#[trigger] all[j]@.to_set(), all[j]@[0]),
            forall|j: int| #![trigger comps@[j]] 0 <= j < k ==> alpha_describes(comps@[j], rgba@, width as int, anchor_threshold)
                && comps@[j].pixels@ == all[j]@,
        decreases count - k,
    {
        let pixels = rest.remove(0);
        proof {
            assert(pixels == all[k as int]);
            assert(cell_list(width as int, height as int, all[k as int]@));
        }
        let c = summarize(rgba, width, height, pixels, anchor_threshold);
        comps.push(c);
        k = k + 1;
    }
    proof {
        let mapped = comps@.map_values(|c: AlphaComponent| c.pixels@.to_set());
        assert forall|j: int| 0 <= j < sets.len() implies #[trigger] mapped[j] == sets[j] by {
            assert(comps@[j].pixels@ == all[j]@);
        }
        assert(mapped =~= sets);
        assert forall|j: int, i: int|
            0 <= j < comps@.len() && 0 <= i < comps@[j].pixels@.len() implies #[trigger] in_grid(
            width as int,
            height as int,
            comps@[j].pixels@[i],
        ) by {
            assert(comps@[j].pixels@ == all[j]@);
            assert(cell_list(width as int, height as int, all[j]@));
        }
        assert forall|j: int| 0 <= j < comps@.len() implies #[trigger] flood_order(
            alpha_mask(rgba@, width * height, foreground_threshold),
            width as int,
            height as int,
            column_steps(),
            comps@[j].pixels@,
        ) by {
            assert(comps@[j].pixels@ == all[j]@);
            assert(flood_order(mask@, width as int, height as int, column_steps(), all[j]@));
        }
        assert forall|j: int| 0 <= j < comps@.len() implies is_first(#[trigger] comps@[j].pixels@.to_set(), comps@[j].pixels@[0]) by {
            assert(comps@[j].pixels@ == all[j]@);
            assert(is_first(all[j]@.to_set(), all[j]@[0]));
        }
    }
    comps
}

/// The cell belongs to a region that `should_remove_component` drops.
pub open spec fn is_removed(comps: Seq<AlphaComponent>, c: (usize, usize)) -> bool {
    exists|k: int| 0 <= k < comps.len() && spec_should_remove(comps[k]) && #[trigger] comps[k].pixels@.contains(c)
}

/// A region is dropped when it has no anchor cell and is a small fragment,
/// a thin burr, or a sparse faint patch. The sparse test compares
/// `area / bbox_area <= 0.3` as the integer inequality
/// `10 * area <= 3 * bbox_area`: for areas up to 72 the two agree.
pub open spec fn spec_should_remove(c: AlphaComponent) -> bool {
    &&& c.anchor_area == 0
    &&& {
        ||| c.area <= 20 && spec_max_side(c) <= 8
        ||| c.area <= 48 && spec_min_side(c) <= 2 && spec_max_side(c) >= 6
        ||| c.area <= 72 && 10 * c.area <= 3 * spec_bbox_area(c) && c.max_alpha <= 112
    }
}

pub fn should_remove_component(component: &AlphaComponent) -> (r: bool)
    ensures
        r == spec_should_remove(*component),
{
    if component.anchor_area > 0 {
        return false;
    }
    if component.area <= 20 && component.max_side() <= 8 {
        return true;
    }
    if component.area <= 48 && component.min_side() <= 2 && component.max_side() >= 6 {
        return true;
    }
    if component.area <= 72 && (component.area as u128) * 10 <= (component.bbox_area() as u128) * 3
        && component.max_alpha <= 112 {
        return true;
    }
    false
}

/// `new` is `old` with the alpha of every cell of a dropped region set to 0.
pub open spec fn cleaned(old: Seq<u8>, new: Seq<u8>, w: int, h: int, comps: Seq<AlphaComponent>) -> bool {
    &&& new.len() == old.len()
    &&& forall|c: (usize, usize), j: int|
        in_grid(w, h, c) && 0 <= j < 4 ==> #[trigger] new[4 * cell_index(w, c.0 as int, c.1 as int) + j] == if j == 3
            && is_removed(comps, c) {
            0u8
        } else {
            old[4 * cell_index(w, c.0 as int, c.1 as int) + j]
        }
    &&& forall|j: int| 4 * (w * h) <= j < old.len() ==> #[trigger] new[j] == old[j]
}

/// Finds the alpha regions, then clears the alpha of every region that
/// `should_remove_component` drops. Returns all the regions found.
pub fn process_alpha(
    rgba: &mut [u8],
    width: usize,
    height: usize,
    foreground_threshold: u8,
    anchor_threshold: u8,
) -> (comps: Vec<AlphaComponent>)
    requires
        width * height <= usize::MAX,
        4 * (width * height) <= old(rgba)@.len(),
    ensures
        alpha_labelling(old(rgba)@, width as int, height as int, foreground_threshold, anchor_threshold, comps@),
        cleaned(old(rgba)@, final(rgba)@, width as int, height as int, comps@),
{
    let comps = find_alpha_components(rgba, width, height, foreground_threshold, anchor_threshold);
    let ghost old_rgba = rgba@;
    let ghost wi = width as int;
    let ghost hi = height as int;
    let n = width * height;
    let mut removed_mask = vec![false; n];
    proof {
        assert forall|i: int| 0 <= i < removed_mask@.len() implies !removed_mask@[i] by {
            assert(cloned(false, removed_mask@[i]));
        }
        assert forall|c: (usize, usize)|
            #![trigger removed_mask@[cell_index(wi, c.0 as int, c.1 as int)]]
            in_grid(wi, hi, c) implies (removed_mask@[cell_index(wi, c.0 as int, c.1 as int)] <==> is_removed(
                comps@.take(0),
                c,
            )) by {
            lemma_index_bounds(wi, hi, c.0 as int, c.1 as int);
        }
    }
    let mut k: usize = 0;
    while k < comps.len()
        invariant
            0 <= k <= comps@.len(),
            n == width * height,
            wi == width,
            hi == height,
            removed_mask@.len() == n,
            alpha_labelling(old_rgba, wi, hi, foreground_threshold, anchor_threshold, comps@),
            forall|c: (usize, usize)|
                #![trigger removed_mask@[cell_index(wi, c.0 as int, c.1 as int)]]
                in_grid(wi, hi, c) ==> (removed_mask@[cell_index(wi, c.0 as int, c.1 as int)] <==> is_removed(
                    comps@.take(k as int),
                    c,
                )),
        decreases comps@.len() - k,
    {
        let ghost before = removed_mask@;
        let drop = should_remove_component(&comps[k]);
        if drop {
            let pixels = &comps[k].pixels;
            let mut i: usize = 0;
            while i < pixels.len()
                invariant
                    0 <= i <= pixels@.len(),
                    *pixels == comps@[k as int].pixels,
                    0 <= k < comps@.len(),
                    n == width * height,
                    wi == width,
                    hi == height,
                    removed_mask@.len() == n,
                    alpha_labelling(old_rgba, wi, hi, foreground_threshold, anchor_threshold, comps@),
                    forall|c: (usize, usize)|
                        #![trigger removed_mask@[cell_index(wi, c.0 as int, c.1 as int)]]
                        in_grid(wi, hi, c) ==> (removed_mask@[cell_index(wi, c.0 as int, c.1 as int)] <==> (
                        before[cell_index(wi, c.0 as int, c.1 as int)] || pixels@.take(i as int).contains(c))),
                decreases pixels@.len() - i,
            {
                let (y, x) = pixels[i];
                proof {
                    assert(in_grid(wi, hi, comps@[k as int].pixels@[i as int]));
                    lemma_index_bounds(wi, hi, y as int, x as int);
                }
                let ghost b2 = removed_mask@;
                removed_mask.set(y * width + x, true);
                proof {
                    assert forall|c: (usize, usize)|
                        #![trigger removed_mask@[cell_index(wi, c.0 as int, c.1 as int)]]
                        in_grid(wi, hi, c) implies (removed_mask@[cell_index(wi, c.0 as int, c.1 as int)] <==> (
                        before[cell_index(wi, c.0 as int, c.1 as int)] || pixels@.take(i + 1).contains(c))) by {
                        lemma_index_bounds(wi, hi, c.0 as int, c.1 as int);
                        assert(b2[cell_index(wi, c.0 as int, c.1 as int)] <==> (
                            before[cell_index(wi, c.0 as int, c.1 as int)] || pixels@.take(i as int).contains(c)));
                        if c != (y, x) {
                            crate::grid::lemma_cells_distinct(wi, hi, c, (y, x));
                            let ta = pixels@.take(i + 1);
                            let tb = pixels@.take(i as int);
                            if ta.contains(c) {
                                let j = choose|j: int| 0 <= j < ta.len() && ta[j] == c;
                                assert(tb[j] == c);
                            }
                            if tb.contains(c) {
                                let j = choose|j: int| 0 <= j < tb.len() && tb[j] == c;
                                assert(ta[j] == c);
                            }
                        } else {
                            assert(pixels@.take(i + 1)[i as int] == c);
                        }
                    }
                }
                i = i + 1;
            }
            proof {
                assert(pixels@.take(pixels@.len() as int) =~= pixels@);
            }
        }
        proof {
            assert forall|c: (usize, usize)|
                #![trigger removed_mask@[cell_index(wi, c.0 as int, c.1 as int)]]
                in_grid(wi, hi, c) implies (removed_mask@[cell_index(wi, c.0 as int, c.1 as int)] <==> is_removed(
                comps@.take(k + 1),
                c,
            )) by {
                let t0 = comps@.take(k as int);
                let t1 = comps@.take(k + 1);
                assert(before[cell_index(wi, c.0 as int, c.1 as int)] <==> is_removed(t0, c));
                if is_removed(t1, c) {
                    let j = choose|j: int| 0 <= j < t1.len() && spec_should_remove(t1[j]) && #[trigger] t1[j].pixels@.contains(c);
                    if j < k {
                        assert(t0[j] == t1[j]);
                    }
                }
                if is_removed(t0, c) {
                    let j = choose|j: int| 0 <= j < t0.len() && spec_should_remove(t0[j]) && #[trigger] t0[j].pixels@.contains(c);
                    assert(t0[j] == t1[j]);
                }
                if drop && comps@[k as int].pixels@.contains(c) {
                    assert(t1[k as int] == comps@[k as int]);
                }
            }
        }
        k = k + 1;
    }
    proof {
        assert(comps@.take(comps@.len() as int) =~= comps@);
    }
    let rlen = rgba.len();
    let mut i: usize = 0;
    while i < n
        invariant
            0 <= i <= n,
            rlen == rgba@.len(),
            n == width * height,
            wi == width,
            hi == height,
            4 * n <= old_rgba.len(),
            rgba@.len() == old_rgba.len(),
            removed_mask@.len() == n,
            forall|j: int| 4 * i <= j < old_rgba.len() ==> #[trigger] rgba@[j] == old_rgba[j],
            forall|p: int, j: int|
                0 <= p < i && 0 <= j < 4 ==> #[trigger] rgba@[4 * p + j] == if j == 3 && removed_mask@[p] {
                    0u8
                } else {
                    old_rgba[4 * p + j]
                },
        decreases n - i,
    {
        if removed_mask[i] {
            rgba[i * 4 + 3] = 0;
        }
        proof {
            assert forall|p: int, j: int|
                0 <= p < i + 1 && 0 <= j < 4 implies #[trigger] rgba@[4 * p + j] == if j == 3 && removed_mask@[p] {
                    0u8
                } else {
                    old_rgba[4 * p + j]
                } by {
                if p == i {
                    assert(4 * i <= 4 * p + j);
                }
            }
        }
        i = i + 1;
    }
    proof {
        assert forall|c: (usize, usize), j: int|
            in_grid(wi, hi, c) && 0 <= j < 4 implies #[trigger] rgba@[4 * cell_index(wi, c.0 as int, c.1 as int) + j]
                == if j == 3 && is_removed(comps@, c) {
                0u8
            } else {
                old_rgba[4 * cell_index(wi, c.0 as int, c.1 as int) + j]
            } by {
            lemma_index_bounds(wi, hi, c.0 as int, c.1 as int);
            let p = cell_index(wi, c.0 as int, c.1 as int);
            assert(rgba@[4 * p + j] == if j == 3 && removed_mask@[p] {
                0u8
            } else {
                old_rgba[4 * p + j]
            });
            assert(removed_mask@[cell_index(wi, c.0 as int, c.1 as int)] <==> is_removed(comps@, c));
        }
    }
    comps
}

/// The alpha cleanup with the usual thresholds: visible above 1, anchored
/// from 160.
pub open spec fn pruned(old: Seq<u8>, new: Seq<u8>, w: int, h: int) -> bool {
    exists|comps: Seq<AlphaComponent>| #[trigger] alpha_labelling(old, w, h, 1, 160, comps) && cleaned(old, new, w, h, comps)
}

/// Removes specks, burrs and faint patches from the alpha channel.
pub fn prune_artifacts(rgba: &mut [u8], width: usize, height: usize)
    requires
        width * height <= usize::MAX,
        4 * (width * height) <= old(rgba)@.len(),
    ensures
        pruned(old(rgba)@, final(rgba)@, width as int, height as int),
{
    let comps = process_alpha(rgba, width, height, 1, 160);
    proof {
        assert(alpha_labelling(old(rgba)@, width as int, height as int, 1, 160, comps@));
    }
}

/// Cells that share a component share the whole component.
proof fn lemma_component_of_member(mask: Seq<bool>, w: int, h: int, a: (usize, usize), c: (usize, usize))
    requires
        component_of(mask, w, h, true, a).contains(c),
    ensures
        component_of(mask, w, h, true, c) == component_of(mask, w, h, true, a),
{
    assert(linked(mask, w, h, true, a, c));
    lemma_linked_symmetric(mask, w, h, true, a, c);
    assert forall|b: (usize, usize)| component_of(mask, w, h, true, c).contains(b) <==> component_of(mask, w, h, true, a).contains(b) by {
        if linked(mask, w, h, true, c, b) {
            let q = choose|q: Seq<(usize, usize)>| #[trigger] is_path(mask, w, h, true, q) && q[0] == c && q[q.len() - 1] == b;
            lemma_linked_along(mask, w, h, true, a, q);
        }
        if linked(mask, w, h, true, a, b) {
            let q = choose|q: Seq<(usize, usize)>| #[trigger] is_path(mask, w, h, true, q) && q[0] == a && q[q.len() - 1] == b;
            lemma_linked_along(mask, w, h, true, c, q);
        }
    }
    assert(component_of(mask, w, h, true, c) =~= component_of(mask, w, h, true, a));
}

/// Of a labelling: a set that holds a cell is that cell's component.
proof fn lemma_set_is_component_of(mask: Seq<bool>, w: int, h: int, sets: Seq<Set<(usize, usize)>>, k: int, c: (usize, usize))
    requires
        is_labelling(mask, w, h, true, sets),
        0 <= k < sets.len(),
        sets[k].contains(c),
    ensures
        sets[k] == component_of(mask, w, h, true, c),
        is_fg(mask, w, h, c),
{
    assert(is_component(mask, w, h, true, sets[k]));
    let a = choose|a: (usize, usize)| #[trigger] first_and_component(mask, w, h, true, sets[k], a);
    lemma_component_of_member(mask, w, h, a, c);
    assert(linked(mask, w, h, true, a, c));
    lemma_linked_fg(mask, w, h, true, a, c);
}

/// The anchored cells of a list without repeats, counted as a set.
proof fn lemma_count_anchor_set(rgba: Seq<u8>, w: int, l: Seq<(usize, usize)>, t: u8)
    requires
        l.no_duplicates(),
    ensures
        count_anchor(rgba, w, l, t) == l.to_set().filter(|p: (usize, usize)| alpha_at(rgba, w, p) >= t).len(),
    decreases l.len(),
{
    let f = |p: (usize, usize)| alpha_at(rgba, w, p) >= t;
    if l.len() == 0 {
        assert(l.to_set().filter(f) =~= Set::<(usize, usize)>::empty());
    } else {
        let r = l.drop_last();
        let x = l.last();
        assert(r.no_duplicates()) by {
            assert forall|i: int, j: int| 0 <= i < r.len() && 0 <= j < r.len() && i != j implies r[i] != r[j] by {
                assert(l[i] == r[i] && l[j] == r[j]);
            }
        }
        lemma_count_anchor_set(rgba, w, r, t);
        assert(!r.contains(x)) by {
            if r.contains(x) {
                let i = choose|i: int| 0 <= i < r.len() && r[i] == x;
                assert(l[i] == l[l.len() - 1]);
            }
        }
        assert(l =~= r.push(x));
        r.lemma_push_to_set_commute(x);
        assert(l.to_set() == r.to_set().insert(x));
        let rs = r.to_set().filter(f);
        vstd::seq_lib::seq_to_set_is_finite(r);
        assert(!rs.contains(x));
        if f(x) {
            assert(l.to_set().filter(f) =~= rs.insert(x));
        } else {
            assert(l.to_set().filter(f) =~= rs);
        }
    }
}

proof fn lemma_tight_unique(s: Set<(usize, usize)>, t1: int, b1: int, l1: int, r1: int, t2: int, b2: int, l2: int, r2: int)
    requires
        tight_bounds(s, t1, b1, l1, r1),
        tight_bounds(s, t2, b2, l2, r2),
    ensures
        t1 == t2 && b1 == b2 && l1 == l2 && r1 == r2,
{
    let p1 = choose|p: (usize, usize)| #[trigger] s.contains(p) && p.0 == t1;
    let p2 = choose|p: (usize, usize)| #[trigger] s.contains(p) && p.0 == t2;
    let p3 = choose|p: (usize, usize)| #[trigger] s.contains(p) && p.0 == b1;
    let p4 = choose|p: (usize, usize)| #[trigger] s.contains(p) && p.0 == b2;
    let p5 = choose|p: (usize, usize)| #[trigger] s.contains(p) && p.1 == l1;
    let p6 = choose|p: (usize, usize)| #[trigger] s.contains(p) && p.1 == l2;
    let p7 = choose|p: (usize, usize)| #[trigger] s.contains(p) && p.1 == r1;
    let p8 = choose|p: (usize, usize)| #[trigger] s.contains(p) && p.1 == r2;
    assert(s.contains(p1) && s.contains(p2) && s.contains(p3) && s.contains(p4));
    assert(s.contains(p5) && s.contains(p6) && s.contains(p7) && s.contains(p8));
}

/// Two regions with the same cells, whose alphas agree on those cells, have
/// the same statistics, so the same fate.
proof fn lemma_same_cells_same_fate(c1: AlphaComponent, rgba1: Seq<u8>, c2: AlphaComponent, rgba2: Seq<u8>, w: int, anchor: u8)
    requires
        alpha_describes(c1, rgba1, w, anchor),
        alpha_describes(c2, rgba2, w, anchor),
        c1.pixels@.to_set() == c2.pixels@.to_set(),
        forall|p: (usize, usize)| #[trigger] c1.pixels@.to_set().contains(p) ==> alpha_at(rgba1, w, p) == alpha_at(rgba2, w, p),
    ensures
        spec_should_remove(c1) == spec_should_remove(c2),
        c1.area == c2.area,
        c1.width == c2.width,
        c1.height == c2.height,
        c1.max_alpha == c2.max_alpha,
        c1.anchor_area == c2.anchor_area,
{
    let s = c1.pixels@.to_set();
    c1.pixels@.unique_seq_to_set();
    c2.pixels@.unique_seq_to_set();
    lemma_count_anchor_set(rgba1, w, c1.pixels@, anchor);
    lemma_count_anchor_set(rgba2, w, c2.pixels@, anchor);
    assert(s.filter(|p: (usize, usize)| alpha_at(rgba1, w, p) >= anchor) =~= s.filter(
        |p: (usize, usize)| alpha_at(rgba2, w, p) >= anchor,
    ));
    // The highest alpha is attained in the set and bounds it.
    let i1 = choose|i: int| 0 <= i < c1.pixels@.len() && alpha_at(rgba1, w, #[trigger] c1.pixels@[i]) == c1.max_alpha;
    let i2 = choose|i: int| 0 <= i < c2.pixels@.len() && alpha_at(rgba2, w, #[trigger] c2.pixels@[i]) == c2.max_alpha;
    assert(s.contains(c1.pixels@[i1]));
    assert(c2.pixels@.to_set().contains(c2.pixels@[i2]));
    let j1 = choose|j: int| 0 <= j < c2.pixels@.len() && c2.pixels@[j] == c1.pixels@[i1];
    let j2 = choose|j: int| 0 <= j < c1.pixels@.len() && c1.pixels@[j] == c2.pixels@[i2];
    assert(alpha_at(rgba2, w, c2.pixels@[j1]) <= c2.max_alpha);
    assert(alpha_at(rgba1, w, c1.pixels@[j2]) <= c1.max_alpha);
    assert(s.contains(c1.pixels@[j2]));
    assert(c1.max_alpha == c2.max_alpha);
    // The extents are those of the same set.
    let (t1, l1) = choose|top: int, left: int| #[trigger] extent_from(s, top, left, c1.width as int, c1.height as int);
    let (t2, l2) = choose|top: int, left: int| #[trigger] extent_from(s, top, left, c2.width as int, c2.height as int);
    lemma_tight_unique(s, t1, t1 + c1.height - 1, l1, l1 + c1.width - 1, t2, t2 + c2.height - 1, l2, l2 + c2.width - 1);
}

/// Which cells a labelling removes depends only on the picture: a cell is
/// removed by one labelling exactly when it is by any other.
proof fn lemma_removed_determined(
    rgba: Seq<u8>,
    w: int,
    h: int,
    fg: u8,
    anchor: u8,
    comps1: Seq<AlphaComponent>,
    comps2: Seq<AlphaComponent>,
    c: (usize, usize),
)
    requires
        alpha_labelling(rgba, w, h, fg, anchor, comps1),
        alpha_labelling(rgba, w, h, fg, anchor, comps2),
        is_removed(comps1, c),
    ensures
        is_removed(comps2, c),
{
    let mask = alpha_mask(rgba, w * h, fg);
    let sets1 = comps1.map_values(|a: AlphaComponent| a.pixels@.to_set());
    let sets2 = comps2.map_values(|a: AlphaComponent| a.pixels@.to_set());
    let k1 = choose|k: int| 0 <= k < comps1.len() && spec_should_remove(comps1[k]) && #[trigger] comps1[k].pixels@.contains(c);
    assert(sets1[k1] == comps1[k1].pixels@.to_set());
    assert(sets1[k1].contains(c));
    lemma_set_is_component_of(mask, w, h, sets1, k1, c);
    assert(is_fg(mask, w, h, c));
    let k2 = choose|k: int| 0 <= k < sets2.len() && #[trigger] sets2[k].contains(c);
    lemma_set_is_component_of(mask, w, h, sets2, k2, c);
    assert(sets2[k2] == comps2[k2].pixels@.to_set());
    assert(alpha_describes(comps1[k1], rgba, w, anchor));
    assert(alpha_describes(comps2[k2], rgba, w, anchor));
    lemma_same_cells_same_fate(comps1[k1], rgba, comps2[k2], rgba, w, anchor);
    assert(comps2[k2].pixels@.contains(c));
}

/// The cleanup of a picture does not depend on the labelling it went by:
/// two cleanups by labellings of the same picture give the same bytes.
pub proof fn law_cleanup_determined(
    old: Seq<u8>,
    w: int,
    h: int,
    fg: u8,
    anchor: u8,
    comps1: Seq<AlphaComponent>,
    new1: Seq<u8>,
    comps2: Seq<AlphaComponent>,
    new2: Seq<u8>,
)
    requires
        0 <= w <= usize::MAX,
        0 <= h <= usize::MAX,
        4 * (w * h) <= old.len(),
        alpha_labelling(old, w, h, fg, anchor, comps1),
        cleaned(old, new1, w, h, comps1),
        alpha_labelling(old, w, h, fg, anchor, comps2),
        cleaned(old, new2, w, h, comps2),
    ensures
        new1 == new2,
{
    assert forall|i: int| 0 <= i < new1.len() implies new1[i] == new2[i] by {
        if i < 4 * (w * h) {
            let p = i / 4;
            let j = i % 4;
            assert(0 <= p < w * h);
            assert(w > 0) by {
                if w == 0 {
                    assert(w * h == 0);
                }
            }
            lemma_fundamental_div_mod(p, w);
            let c = ((p / w) as usize, (p % w) as usize);
            assert(p / w < h) by (nonlinear_arith)
                requires
                    0 <= p < w * h,
                    p == w * (p / w) + p % w,
                    0 <= p % w,
                    w > 0,
            ;
            assert(0 <= p / w) by (nonlinear_arith)
                requires
                    0 <= p,
                    w > 0,
            ;
            assert(in_grid(w, h, c));
            assert(cell_index(w, c.0 as int, c.1 as int) == p) by (nonlinear_arith)
                requires
                    p == w * (p / w) + p % w,
                    c.0 as int == p / w,
                    c.1 as int == p % w,
            ;
            assert(i == 4 * cell_index(w, c.0 as int, c.1 as int) + j);
            if is_removed(comps1, c) {
                lemma_removed_determined(old, w, h, fg, anchor, comps1, comps2, c);
            }
            if is_removed(comps2, c) {
                lemma_removed_determined(old, w, h, fg, anchor, comps2, comps1, c);
            }
            assert(new1[4 * cell_index(w, c.0 as int, c.1 as int) + j] == new2[4 * cell_index(w, c.0 as int, c.1 as int) + j]);
        }
    }
    assert(new1 =~= new2);
}

/// Pruning is the alpha cleanup with thresholds 1 and 160: it leaves the
/// same bytes as `process_alpha` with those thresholds on a copy.
pub proof fn law_prune_is_cleanup(old: Seq<u8>, w: int, h: int, pruned_new: Seq<u8>, comps: Seq<AlphaComponent>, cleaned_new: Seq<u8>)
    requires
        0 <= w <= usize::MAX,
        0 <= h <= usize::MAX,
        4 * (w * h) <= old.len(),
        pruned(old, pruned_new, w, h),
        alpha_labelling(old, w, h, 1, 160, comps),
        cleaned(old, cleaned_new, w, h, comps),
    ensures
        pruned_new == cleaned_new,
{
    let c1 = choose|c1: Seq<AlphaComponent>| #[trigger] alpha_labelling(old, w, h, 1, 160, c1) && cleaned(old, pruned_new, w, h, c1);
    law_cleanup_determined(old, w, h, 1, 160, c1, pruned_new, comps, cleaned_new);
}

/// A byte of the first `4 * w * h` is channel `j` of a grid cell.
proof fn lemma_byte_cell(w: int, h: int, i: int) -> (r: ((usize, usize), int))
    requires
        0 <= w <= usize::MAX,
        0 <= h <= usize::MAX,
        0 <= i < 4 * (w * h),
    ensures
        in_grid(w, h, r.0),
        0 <= r.1 < 4,
        i == 4 * cell_index(w, r.0.0 as int, r.0.1 as int) + r.1,
{
    let p = i / 4;
    let j = i % 4;
    assert(w > 0) by {
        if w == 0 {
            assert(w * h == 0);
        }
    }
    lemma_fundamental_div_mod(p, w);
    assert(p / w < h) by (nonlinear_arith)
        requires
            0 <= p < w * h,
            p == w * (p / w) + p % w,
            0 <= p % w,
            w > 0,
    ;
    assert(0 <= p / w) by (nonlinear_arith)
        requires
            0 <= p,
            w > 0,
    ;
    let c = ((p / w) as usize, (p % w) as usize);
    assert(cell_index(w, c.0 as int, c.1 as int) == p) by (nonlinear_arith)
        requires
            p == w * (p / w) + p % w,
            c.0 as int == p / w,
            c.1 as int == p % w,
    ;
    (c, j)
}

/// A cell is set in the mask of the cleaned picture exactly when it was set
/// before and its region stayed.
proof fn lemma_cleaned_mask(
    old: Seq<u8>,
    mid: Seq<u8>,
    w: int,
    h: int,
    fg: u8,
    comps: Seq<AlphaComponent>,
    x: (usize, usize),
)
    requires
        0 <= w <= usize::MAX,
        0 <= h <= usize::MAX,
        4 * (w * h) <= old.len(),
        cleaned(old, mid, w, h, comps),
    ensures
        is_fg(alpha_mask(mid, w * h, fg), w, h, x) <==> (is_fg(alpha_mask(old, w * h, fg), w, h, x) && !is_removed(comps, x)),
        in_grid(w, h, x) && !is_removed(comps, x) ==> alpha_at(mid, w, x) == alpha_at(old, w, x),
{
    if in_grid(w, h, x) {
        lemma_index_bounds(w, h, x.0 as int, x.1 as int);
        assert(mid[4 * cell_index(w, x.0 as int, x.1 as int) + 3] == if is_removed(comps, x) {
            0u8
        } else {
            old[4 * cell_index(w, x.0 as int, x.1 as int) + 3]
        });
    }
}

/// A cell linked to a kept cell is kept: regions go whole.
proof fn lemma_kept_spreads(
    old: Seq<u8>,
    w: int,
    h: int,
    fg: u8,
    anchor: u8,
    comps: Seq<AlphaComponent>,
    c: (usize, usize),
    x: (usize, usize),
)
    requires
        alpha_labelling(old, w, h, fg, anchor, comps),
        linked(alpha_mask(old, w * h, fg), w, h, true, c, x),
        !is_removed(comps, c),
    ensures
        !is_removed(comps, x),
{
    let mask = alpha_mask(old, w * h, fg);
    let sets = comps.map_values(|a: AlphaComponent| a.pixels@.to_set());
    if is_removed(comps, x) {
        let k = choose|k: int| 0 <= k < comps.len() && spec_should_remove(comps[k]) && #[trigger] comps[k].pixels@.contains(x);
        assert(sets[k].contains(x));
        lemma_set_is_component_of(mask, w, h, sets, k, x);
        lemma_linked_symmetric(mask, w, h, true, c, x);
        assert(component_of(mask, w, h, true, x).contains(c));
        assert(sets[k].contains(c));
        assert(comps[k].pixels@.contains(c));
    }
}

/// For a kept cell, its region in the cleaned picture is its region before.
proof fn lemma_kept_component(
    old: Seq<u8>,
    mid: Seq<u8>,
    w: int,
    h: int,
    fg: u8,
    anchor: u8,
    comps: Seq<AlphaComponent>,
    c: (usize, usize),
)
    requires
        0 <= w <= usize::MAX,
        0 <= h <= usize::MAX,
        4 * (w * h) <= old.len(),
        alpha_labelling(old, w, h, fg, anchor, comps),
        cleaned(old, mid, w, h, comps),
        !is_removed(comps, c),
    ensures
        component_of(alpha_mask(mid, w * h, fg), w, h, true, c) == component_of(alpha_mask(old, w * h, fg), w, h, true, c),
{
    let m0 = alpha_mask(old, w * h, fg);
    let m1 = alpha_mask(mid, w * h, fg);
    assert forall|b: (usize, usize)| linked(m1, w, h, true, c, b) <==> linked(m0, w, h, true, c, b) by {
        if linked(m1, w, h, true, c, b) {
            let q = choose|q: Seq<(usize, usize)>| #[trigger] is_path(m1, w, h, true, q) && q[0] == c && q[q.len() - 1] == b;
            assert forall|i: int| 0 <= i < q.len() implies #[trigger] is_fg(m0, w, h, q[i]) by {
                assert(is_fg(m1, w, h, q[i]));
                lemma_cleaned_mask(old, mid, w, h, fg, comps, q[i]);
            }
            assert(is_path(m0, w, h, true, q));
        }
        if linked(m0, w, h, true, c, b) {
            let q = choose|q: Seq<(usize, usize)>| #[trigger] is_path(m0, w, h, true, q) && q[0] == c && q[q.len() - 1] == b;
            assert forall|i: int| 0 <= i < q.len() implies #[trigger] is_fg(m1, w, h, q[i]) by {
                let t = q.take(i + 1);
                assert forall|k: int| 0 <= k < t.len() implies #[trigger] is_fg(m0, w, h, t[k]) by {
                    assert(t[k] == q[k]);
                }
                assert forall|k: int| 0 <= k < t.len() - 1 implies #[trigger] crate::grid::step_ok(true, t, k) by {
                    assert(crate::grid::step_ok(true, q, k));
                }
                assert(is_path(m0, w, h, true, t));
                assert(t[0] == c && t[t.len() - 1] == q[i]);
                assert(linked(m0, w, h, true, c, q[i]));
                lemma_kept_spreads(old, w, h, fg, anchor, comps, c, q[i]);
                lemma_cleaned_mask(old, mid, w, h, fg, comps, q[i]);
            }
            assert(is_path(m1, w, h, true, q));
        }
    }
    assert(component_of(m1, w, h, true, c) =~= component_of(m0, w, h, true, c));
}

/// A region the first cleanup kept, with the given cells.
pub open spec fn kept_region_with(comps: Seq<AlphaComponent>, cells: Set<(usize, usize)>) -> bool {
    exists|k: int| 0 <= k < comps.len() && !spec_should_remove(comps[k]) && #[trigger] comps[k].pixels@.to_set() == cells
}

/// Two regions with the same pixel list, in the same order, and the same
/// statistics.
pub open spec fn same_region(a: AlphaComponent, b: AlphaComponent) -> bool {
    &&& a.pixels@ == b.pixels@
    &&& a.area == b.area
    &&& a.width == b.width
    &&& a.height == b.height
    &&& a.max_alpha == b.max_alpha
    &&& a.anchor_area == b.anchor_area
}

/// `c` is, pixel for pixel, a region of `comps` that the cleanup keeps.
pub open spec fn kept_as(comps: Seq<AlphaComponent>, c: AlphaComponent) -> bool {
    exists|k: int| 0 <= k < comps.len() && !spec_should_remove(comps[k]) && #[trigger] same_region(c, comps[k])
}

/// Some region of `comps` is, pixel for pixel, `c`.
pub open spec fn found_as(comps: Seq<AlphaComponent>, c: AlphaComponent) -> bool {
    exists|k: int| 0 <= k < comps.len() && #[trigger] same_region(comps[k], c)
}

/// A region of the second run whose cells are those of a region of the
/// first run is that region, pixel for pixel.
proof fn lemma_match(
    old: Seq<u8>,
    w: int,
    h: int,
    fg: u8,
    anchor: u8,
    comps1: Seq<AlphaComponent>,
    mid: Seq<u8>,
    comps2: Seq<AlphaComponent>,
    k1: int,
    k2: int,
)
    requires
        0 <= w <= usize::MAX,
        0 <= h <= usize::MAX,
        4 * (w * h) <= old.len(),
        alpha_labelling(old, w, h, fg, anchor, comps1),
        cleaned(old, mid, w, h, comps1),
        alpha_labelling(mid, w, h, fg, anchor, comps2),
        0 <= k1 < comps1.len(),
        0 <= k2 < comps2.len(),
        comps1[k1].pixels@.to_set() == comps2[k2].pixels@.to_set(),
    ensures
        same_region(comps2[k2], comps1[k1]),
        !spec_should_remove(comps1[k1]),
{
    let m0 = alpha_mask(old, w * h, fg);
    let m1 = alpha_mask(mid, w * h, fg);
    let sets1 = comps1.map_values(|a: AlphaComponent| a.pixels@.to_set());
    let sets2 = comps2.map_values(|a: AlphaComponent| a.pixels@.to_set());
    let p1 = comps1[k1].pixels@;
    let p2 = comps2[k2].pixels@;
    assert(is_first(p1.to_set(), p1[0]));
    assert(is_first(p2.to_set(), p2[0]));
    lemma_first_unique(p1.to_set(), p1[0], p2[0]);
    let c = p2[0];
    assert(alpha_describes(comps2[k2], mid, w, anchor));
    assert(p2.contains(c));
    assert(sets2[k2].contains(c));
    lemma_set_is_component_of(m1, w, h, sets2, k2, c);
    lemma_cleaned_mask(old, mid, w, h, fg, comps1, c);
    assert(sets1[k1].contains(c));
    lemma_set_is_component_of(m0, w, h, sets1, k1, c);
    let region = sets1[k1];
    lemma_component_closed(m0, w, h, true, c);
    assert forall|x: (usize, usize)| #![trigger region.contains(x)] in_grid(w, h, x) && region.contains(x)
        implies m0[cell_index(w, x.0 as int, x.1 as int)] == m1[cell_index(w, x.0 as int, x.1 as int)] by {
        assert(linked(m0, w, h, true, c, x));
        lemma_kept_spreads(old, w, h, fg, anchor, comps1, c, x);
        lemma_linked_fg(m0, w, h, true, c, x);
        lemma_cleaned_mask(old, mid, w, h, fg, comps1, x);
    }
    assert forall|x: (usize, usize)| #[trigger] is_fg(m1, w, h, x) implies is_fg(m0, w, h, x) by {
        lemma_cleaned_mask(old, mid, w, h, fg, comps1, x);
    }
    assert(masks_agree_on(m0, m1, w, h, true, region));
    let q = seq![c];
    assert forall|i: int| 0 <= i < q.len() implies region.contains(#[trigger] q[i]) && in_grid(w, h, q[i]) by {
        assert(q[i] == c);
    }
    assert(flood_order(m0, w, h, column_steps(), p1));
    assert(flood_order(m1, w, h, column_steps(), p2));
    lemma_bfs_masks(m0, m1, w, h, true, column_steps(), fresh_marks(w, h, c), q, region);
    assert(p1 == p2);
    assert forall|p: (usize, usize)| #[trigger] p1.to_set().contains(p) implies alpha_at(old, w, p) == alpha_at(mid, w, p) by {
        assert(region.contains(p));
        assert(linked(m0, w, h, true, c, p));
        lemma_kept_spreads(old, w, h, fg, anchor, comps1, c, p);
        lemma_linked_fg(m0, w, h, true, c, p);
        lemma_cleaned_mask(old, mid, w, h, fg, comps1, p);
    }
    assert(alpha_describes(comps1[k1], old, w, anchor));
    lemma_same_cells_same_fate(comps1[k1], old, comps2[k2], mid, w, anchor);
    if spec_should_remove(comps1[k1]) {
        assert(p1.contains(c));
        assert(is_removed(comps1, c));
    }
}

/// The test a region passes when the cleanup keeps it.
pub open spec fn kept_by_cleanup() -> spec_fn(AlphaComponent) -> bool {
    |c: AlphaComponent| !spec_should_remove(c)
}

/// The regions a cleanup keeps, in their order.
pub open spec fn kept_regions(comps: Seq<AlphaComponent>) -> Seq<AlphaComponent> {
    comps.filter(kept_by_cleanup())
}

/// A matching of the regions of `comps2` to the kept regions of `comps1`:
/// each region of `comps2` is a kept one, each kept one is found, at most
/// one region of `comps1` matches a region of `comps2`, and the matching
/// keeps the order.
pub open spec fn kept_matching(comps1: Seq<AlphaComponent>, comps2: Seq<AlphaComponent>) -> bool {
    &&& forall|k: int| 0 <= k < comps2.len() ==> #[trigger] kept_as(comps1, comps2[k])
    &&& forall|k: int| 0 <= k < comps1.len() && !spec_should_remove(comps1[k]) ==> #[trigger] found_as(comps2, comps1[k])
    &&& forall|k2: int, k1: int, k3: int|
        0 <= k2 < comps2.len() && 0 <= k1 < comps1.len() && 0 <= k3 < comps1.len() && #[trigger] same_region(comps2[k2], comps1[k1])
            && #[trigger] same_region(comps2[k2], comps1[k3]) ==> k1 == k3
    &&& forall|k2a: int, k2b: int, k1a: int, k1b: int|
        0 <= k2a < k2b < comps2.len() && 0 <= k1a < comps1.len() && 0 <= k1b < comps1.len()
            && #[trigger] same_region(comps2[k2a], comps1[k1a]) && #[trigger] same_region(comps2[k2b], comps1[k1b])
            ==> k1a < k1b
}

/// An order-keeping matching onto the kept regions lines them up one to one.
proof fn lemma_matching_is_filter(comps1: Seq<AlphaComponent>, comps2: Seq<AlphaComponent>)
    requires
        kept_matching(comps1, comps2),
    ensures
        comps2.len() == kept_regions(comps1).len(),
        forall|i: int| 0 <= i < comps2.len() ==> #[trigger] same_region(comps2[i], kept_regions(comps1)[i]),
    decreases comps1.len(),
{
    reveal(Seq::filter);
    let n1 = comps1.len() as int;
    let n2 = comps2.len() as int;
    if n1 == 0 {
        if n2 > 0 {
            assert(kept_as(comps1, comps2[0]));
        }
        assert(kept_regions(comps1) =~= comps1);
    } else {
        let last = n1 - 1;
        let c1 = comps1.drop_last();
        assert(comps1.last() == comps1[last]);
        assert(kept_by_cleanup()(comps1[last]) == !spec_should_remove(comps1[last]));
        assert(kept_regions(comps1) == if !spec_should_remove(comps1[last]) {
            kept_regions(c1).push(comps1[last])
        } else {
            kept_regions(c1)
        });
        // Every region of `comps2` but possibly the last maps below `last`.
        if !spec_should_remove(comps1[last]) {
            assert(found_as(comps2, comps1[last]));
            let k2 = choose|k: int| 0 <= k < comps2.len() && #[trigger] same_region(comps2[k], comps1[last]);
            assert(k2 == n2 - 1) by {
                if k2 < n2 - 1 {
                    assert(kept_as(comps1, comps2[n2 - 1]));
                    let k1 = choose|k: int| 0 <= k < comps1.len() && !spec_should_remove(comps1[k]) && #[trigger] same_region(
                        comps2[n2 - 1],
                        comps1[k],
                    );
                    assert(last < k1);
                }
            }
            let c2 = comps2.drop_last();
            assert forall|k: int| 0 <= k < c2.len() implies #[trigger] kept_as(c1, c2[k]) by {
                assert(c2[k] == comps2[k]);
                assert(kept_as(comps1, comps2[k]));
                let k1 = choose|j: int| 0 <= j < comps1.len() && !spec_should_remove(comps1[j]) && #[trigger] same_region(
                    comps2[k],
                    comps1[j],
                );
                assert(k1 < last);
                assert(c1[k1] == comps1[k1]);
            }
            assert forall|k: int| 0 <= k < c1.len() && !spec_should_remove(c1[k]) implies #[trigger] found_as(c2, c1[k]) by {
                assert(c1[k] == comps1[k]);
                assert(found_as(comps2, comps1[k]));
                let j = choose|j: int| 0 <= j < comps2.len() && #[trigger] same_region(comps2[j], comps1[k]);
                if j == n2 - 1 {
                    assert(same_region(comps2[j], comps1[last]));
                }
                assert(c2[j] == comps2[j]);
            }
            assert(kept_matching(c1, c2));
            lemma_matching_is_filter(c1, c2);
            assert forall|i: int| 0 <= i < comps2.len() implies #[trigger] same_region(comps2[i], kept_regions(comps1)[i]) by {
                if i < n2 - 1 {
                    assert(same_region(c2[i], kept_regions(c1)[i]));
                }
            }
        } else {
            assert forall|k: int| 0 <= k < comps2.len() implies #[trigger] kept_as(c1, comps2[k]) by {
                assert(kept_as(comps1, comps2[k]));
                let k1 = choose|j: int| 0 <= j < comps1.len() && !spec_should_remove(comps1[j]) && #[trigger] same_region(
                    comps2[k],
                    comps1[j],
                );
                assert(k1 < last);
                assert(c1[k1] == comps1[k1]);
            }
            assert forall|k: int| 0 <= k < c1.len() && !spec_should_remove(c1[k]) implies #[trigger] found_as(comps2, c1[k]) by {
                assert(c1[k] == comps1[k]);
                assert(found_as(comps2, comps1[k]));
            }
            assert(kept_matching(c1, comps2));
            lemma_matching_is_filter(c1, comps2);
        }
    }
}

/// Cleaning twice is cleaning once: the second cleanup of a cleaned
/// picture changes no byte, and the regions it finds are exactly those that
/// the first cleanup kept, pixel for pixel, in the same order: the list of
/// the second run lines up, entry by entry, with the first run's list
/// filtered to the regions it keeps.
pub proof fn law_cleanup_twice(
    old: Seq<u8>,
    w: int,
    h: int,
    fg: u8,
    anchor: u8,
    comps1: Seq<AlphaComponent>,
    mid: Seq<u8>,
    comps2: Seq<AlphaComponent>,
    new: Seq<u8>,
)
    requires
        0 <= w <= usize::MAX,
        0 <= h <= usize::MAX,
        4 * (w * h) <= old.len(),
        alpha_labelling(old, w, h, fg, anchor, comps1),
        cleaned(old, mid, w, h, comps1),
        alpha_labelling(mid, w, h, fg, anchor, comps2),
        cleaned(mid, new, w, h, comps2),
    ensures
        new == mid,
        forall|k: int| 0 <= k < comps2.len() ==> #[trigger] kept_as(comps1, comps2[k]),
        forall|k: int| 0 <= k < comps1.len() && !spec_should_remove(comps1[k]) ==> #[trigger] found_as(comps2, comps1[k]),
        forall|k2a: int, k2b: int, k1a: int, k1b: int|
            0 <= k2a < k2b < comps2.len() && 0 <= k1a < comps1.len() && 0 <= k1b < comps1.len()
                && #[trigger] same_region(comps2[k2a], comps1[k1a]) && #[trigger] same_region(comps2[k2b], comps1[k1b])
                ==> k1a < k1b,
        comps2.len() == kept_regions(comps1).len(),
        forall|i: int| 0 <= i < comps2.len() ==> #[trigger] same_region(comps2[i], kept_regions(comps1)[i]),
{
    let m0 = alpha_mask(old, w * h, fg);
    let m1 = alpha_mask(mid, w * h, fg);
    let sets1 = comps1.map_values(|a: AlphaComponent| a.pixels@.to_set());
    let sets2 = comps2.map_values(|a: AlphaComponent| a.pixels@.to_set());
    assert forall|k2: int| 0 <= k2 < comps2.len() implies kept_region_with(comps1, #[trigger] comps2[k2].pixels@.to_set())
        && !spec_should_remove(comps2[k2]) by {
        assert(alpha_describes(comps2[k2], mid, w, anchor));
        let c = comps2[k2].pixels@[0];
        assert(comps2[k2].pixels@.contains(c));
        assert(sets2[k2].contains(c));
        lemma_set_is_component_of(m1, w, h, sets2, k2, c);
        lemma_cleaned_mask(old, mid, w, h, fg, comps1, c);
        assert(is_fg(m0, w, h, c) && !is_removed(comps1, c));
        let k1 = choose|k: int| 0 <= k < sets1.len() && #[trigger] sets1[k].contains(c);
        lemma_set_is_component_of(m0, w, h, sets1, k1, c);
        lemma_kept_component(old, mid, w, h, fg, anchor, comps1, c);
        assert(sets1[k1] == sets2[k2]);
        assert(comps1[k1].pixels@.contains(c));
        assert(!spec_should_remove(comps1[k1]));
        assert forall|p: (usize, usize)| #[trigger] comps1[k1].pixels@.to_set().contains(p) implies alpha_at(old, w, p)
            == alpha_at(mid, w, p) by {
            assert(sets1[k1].contains(p));
            assert(linked(m0, w, h, true, c, p));
            lemma_kept_spreads(old, w, h, fg, anchor, comps1, c, p);
            lemma_linked_fg(m0, w, h, true, c, p);
            lemma_cleaned_mask(old, mid, w, h, fg, comps1, p);
        }
        assert(alpha_describes(comps1[k1], old, w, anchor));
        assert(alpha_describes(comps2[k2], mid, w, anchor));
        lemma_same_cells_same_fate(comps1[k1], old, comps2[k2], mid, w, anchor);
    }
    assert forall|i: int| 0 <= i < new.len() implies new[i] == mid[i] by {
        if i < 4 * (w * h) {
            let (c, j) = lemma_byte_cell(w, h, i);
            assert(!is_removed(comps2, c)) by {
                if is_removed(comps2, c) {
                    let k = choose|k: int| 0 <= k < comps2.len() && spec_should_remove(comps2[k]) && #[trigger] comps2[k].pixels@.contains(c);
                    assert(kept_region_with(comps1, comps2[k].pixels@.to_set()));
                }
            }
            assert(new[4 * cell_index(w, c.0 as int, c.1 as int) + j] == mid[4 * cell_index(w, c.0 as int, c.1 as int) + j]);
        }
    }
    assert(new =~= mid);
    assert forall|k2: int| 0 <= k2 < comps2.len() implies #[trigger] kept_as(comps1, comps2[k2]) by {
        assert(kept_region_with(comps1, comps2[k2].pixels@.to_set()));
        let k1 = choose|k: int| 0 <= k < comps1.len() && !spec_should_remove(comps1[k]) && #[trigger] comps1[k].pixels@.to_set()
            == comps2[k2].pixels@.to_set();
        lemma_match(old, w, h, fg, anchor, comps1, mid, comps2, k1, k2);
    }
    assert forall|k1: int| 0 <= k1 < comps1.len() && !spec_should_remove(comps1[k1]) implies #[trigger] found_as(comps2, comps1[k1]) by {
        assert(alpha_describes(comps1[k1], old, w, anchor));
        let c = comps1[k1].pixels@[0];
        assert(comps1[k1].pixels@.contains(c));
        assert(sets1[k1].contains(c));
        lemma_set_is_component_of(m0, w, h, sets1, k1, c);
        assert(!is_removed(comps1, c)) by {
            if is_removed(comps1, c) {
                let k = choose|k: int| 0 <= k < comps1.len() && spec_should_remove(comps1[k]) && #[trigger] comps1[k].pixels@.contains(c);
                assert(sets1[k].contains(c));
                lemma_set_is_component_of(m0, w, h, sets1, k, c);
                assert(alpha_describes(comps1[k], old, w, anchor));
                lemma_same_cells_same_fate(comps1[k], old, comps1[k1], old, w, anchor);
            }
        }
        lemma_cleaned_mask(old, mid, w, h, fg, comps1, c);
        assert(is_fg(m1, w, h, c));
        let k2 = choose|k: int| 0 <= k < sets2.len() && #[trigger] sets2[k].contains(c);
        lemma_set_is_component_of(m1, w, h, sets2, k2, c);
        lemma_kept_component(old, mid, w, h, fg, anchor, comps1, c);
        assert(sets1[k1] == sets2[k2]);
        lemma_match(old, w, h, fg, anchor, comps1, mid, comps2, k1, k2);
    }
    assert forall|k2a: int, k2b: int, k1a: int, k1b: int|
        0 <= k2a < k2b < comps2.len() && 0 <= k1a < comps1.len() && 0 <= k1b < comps1.len()
            && #[trigger] same_region(comps2[k2a], comps1[k1a]) && #[trigger] same_region(comps2[k2b], comps1[k1b])
            implies k1a < k1b by {
        let a = comps2[k2a].pixels@[0];
        let b = comps2[k2b].pixels@[0];
        assert(is_first(comps2[k2a].pixels@.to_set(), a));
        assert(is_first(comps2[k2b].pixels@.to_set(), b));
        assert(sets2[k2a] == comps2[k2a].pixels@.to_set());
        assert(sets2[k2b] == comps2[k2b].pixels@.to_set());
        assert(raster_before(a, b));
        if k1a > k1b {
            assert(sets1[k1a] == comps1[k1a].pixels@.to_set());
            assert(sets1[k1b] == comps1[k1b].pixels@.to_set());
            assert(is_first(sets1[k1a], a));
            assert(is_first(sets1[k1b], b));
            assert(raster_before(b, a));
        }
    }
    assert forall|k2: int, k1: int, k3: int|
        0 <= k2 < comps2.len() && 0 <= k1 < comps1.len() && 0 <= k3 < comps1.len() && #[trigger] same_region(comps2[k2], comps1[k1])
            && #[trigger] same_region(comps2[k2], comps1[k3]) implies k1 == k3 by {
        assert(alpha_describes(comps2[k2], mid, w, anchor));
        let a = comps2[k2].pixels@[0];
        assert(is_first(comps1[k1].pixels@.to_set(), comps1[k1].pixels@[0]));
        assert(is_first(comps1[k3].pixels@.to_set(), comps1[k3].pixels@[0]));
        assert(sets1[k1] == comps1[k1].pixels@.to_set());
        assert(sets1[k3] == comps1[k3].pixels@.to_set());
        assert(is_first(sets1[k1], a) && is_first(sets1[k3], a));
        if k1 < k3 {
            assert(raster_before(a, a));
        } else if k3 < k1 {
            assert(raster_before(a, a));
        }
    }
    assert(kept_matching(comps1, comps2));
    lemma_matching_is_filter(comps1, comps2);
}

} // verus!
