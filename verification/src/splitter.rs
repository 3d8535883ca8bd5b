//! Splitting a transparent picture into element assets: which pixels count
//! as visible and as solid, the order in which components become assets,
//! the crop of each asset, and which of its pixels stay visible.
use vstd::prelude::*;
use crate::components::{grow_mask_from_seed, reached_from_seed, Component};
use crate::grid::{cell_index, in_grid, lemma_index_bounds};
use crate::ooxml::{dec, push_decimal};
use crate::text::{owned, push_char};

verus! {

/// One element cut out of a picture: its file, its crop and the area of its
/// component.
#[derive(Clone, Debug)]
pub struct ElementAsset {
    pub index: usize,
    pub file: String,
    pub left: usize,
    pub top: usize,
    pub width: usize,
    pub height: usize,
    pub area: usize,
}

/// The assets cut out of a picture and the settings they were cut with.
#[derive(Clone, Debug)]
pub struct SplitResult {
    pub source_image: String,
    pub assets_dir: String,
    pub image_width: usize,
    pub image_height: usize,
    pub alpha_threshold: u8,
    pub alpha_core_threshold: u8,
    pub min_area: usize,
    pub count: usize,
    pub assets: Vec<ElementAsset>,
}

/// The threshold above which a pixel is solid: one above the visibility
/// threshold, or the core threshold if that is higher.
pub open spec fn spec_core_threshold(alpha_threshold: u8, alpha_core_threshold: u8) -> u8 {
    if (alpha_threshold + 1) as u8 >= alpha_core_threshold {
        (alpha_threshold + 1) as u8
    } else {
        alpha_core_threshold
    }
}

/// The visible pixels (alpha above `alpha_threshold`) and the solid ones
/// (alpha above the core threshold).
pub fn alpha_masks(alpha: &[u8], alpha_threshold: u8, alpha_core_threshold: u8) -> (r: (Vec<bool>, Vec<bool>))
    requires
        alpha_threshold < 255,
    ensures
        r.0@.len() == alpha@.len(),
        r.1@.len() == alpha@.len(),
        forall|i: int| 0 <= i < alpha@.len() ==> #[trigger] r.0@[i] == (alpha@[i] > alpha_threshold),
        forall|i: int|
            0 <= i < alpha@.len() ==> #[trigger] r.1@[i] == (alpha@[i] > spec_core_threshold(alpha_threshold, alpha_core_threshold)),
{
    let t1 = alpha_threshold + 1;
    let core = if t1 >= alpha_core_threshold {
        t1
    } else {
        alpha_core_threshold
    };
    let mut visual: Vec<bool> = Vec::new();
    let mut solid: Vec<bool> = Vec::new();
    let mut i: usize = 0;
    while i < alpha.len()
        invariant
            0 <= i <= alpha@.len(),
            core == spec_core_threshold(alpha_threshold, alpha_core_threshold),
            visual@.len() == i,
            solid@.len() == i,
            forall|j: int| 0 <= j < i ==> #[trigger] visual@[j] == (alpha@[j] > alpha_threshold),
            forall|j: int| 0 <= j < i ==> #[trigger] solid@[j] == (alpha@[j] > core),
        decreases alpha@.len() - i,
    {
        visual.push(alpha[i] > alpha_threshold);
        solid.push(alpha[i] > core);
        i = i + 1;
    }
    (visual, solid)
}

/// Component `a` comes before `b` in reading order: by top, then left, then
/// width, then height.
pub open spec fn key_le(a: Component, b: Component) -> bool {
    a.top < b.top || (a.top == b.top && (a.left < b.left || (a.left == b.left && (a.right - a.left < b.right - b.left
        || (a.right - a.left == b.right - b.left && a.bottom - a.top <= b.bottom - b.top)))))
}

/// Where index `x` goes into the ordered list `s`: after every entry whose
/// component does not come after it.
pub open spec fn insert_pos(comps: Seq<Component>, s: Seq<usize>, x: usize, j: int) -> int
    decreases s.len() - j,
{
    if j < 0 || j >= s.len() {
        s.len() as int
    } else if !key_le(comps[s[j] as int], comps[x as int]) {
        j
    } else {
        insert_pos(comps, s, x, j + 1)
    }
}

/// The indices `idx` put in reading order of their components, equal ones
/// keeping their order (a stable sort, written as insertion).
pub open spec fn stable_order(comps: Seq<Component>, idx: Seq<usize>) -> Seq<usize>
    decreases idx.len(),
{
    if idx.len() == 0 {
        seq![]
    } else {
        let s = stable_order(comps, idx.drop_last());
        s.insert(insert_pos(comps, s, idx.last(), 0), idx.last())
    }
}

/// The indices of the components with at least `min_area` pixels, in order.
pub open spec fn large_enough(comps: Seq<Component>, min_area: usize, n: int) -> Seq<usize>
    decreases n,
{
    if n <= 0 {
        seq![]
    } else if comps[n - 1].area >= min_area {
        large_enough(comps, min_area, n - 1).push((n - 1) as usize)
    } else {
        large_enough(comps, min_area, n - 1)
    }
}

/// The order in which components become assets.
pub open spec fn spec_split_order(comps: Seq<Component>, min_area: usize) -> Seq<usize> {
    stable_order(comps, large_enough(comps, min_area, comps.len() as int))
}

proof fn lemma_insert_pos(comps: Seq<Component>, s: Seq<usize>, x: usize, j: int)
    requires
        0 <= j <= s.len(),
    ensures
        j <= insert_pos(comps, s, x, j) <= s.len(),
    decreases s.len() - j,
{
    if j < s.len() && key_le(comps[s[j] as int], comps[x as int]) {
        lemma_insert_pos(comps, s, x, j + 1);
    }
}

proof fn lemma_stable_order_len(comps: Seq<Component>, idx: Seq<usize>)
    ensures
        stable_order(comps, idx).len() == idx.len(),
        forall|k: int| 0 <= k < stable_order(comps, idx).len() ==> idx.contains(#[trigger] stable_order(comps, idx)[k]),
    decreases idx.len(),
{
    if idx.len() > 0 {
        let s = stable_order(comps, idx.drop_last());
        lemma_stable_order_len(comps, idx.drop_last());
        lemma_insert_pos(comps, s, idx.last(), 0);
        let p = insert_pos(comps, s, idx.last(), 0);
        assert forall|k: int| 0 <= k < stable_order(comps, idx).len() implies idx.contains(#[trigger] stable_order(comps, idx)[k]) by {
            let r = s.insert(p, idx.last());
            if k < p {
                assert(r[k] == s[k]);
                assert(idx.drop_last().contains(s[k]));
                let m = choose|m: int| 0 <= m < idx.drop_last().len() && idx.drop_last()[m] == s[k];
                assert(idx[m] == s[k]);
            } else if k == p {
                assert(idx[idx.len() - 1] == idx.last());
            } else {
                assert(r[k] == s[k - 1]);
                assert(idx.drop_last().contains(s[k - 1]));
                let m = choose|m: int| 0 <= m < idx.drop_last().len() && idx.drop_last()[m] == s[k - 1];
                assert(idx[m] == s[k - 1]);
            }
        }
    }
}

fn comes_before_or_equal(a: &Component, b: &Component) -> (r: bool)
    requires
        a.left <= a.right,
        a.top <= a.bottom,
        b.left <= b.right,
        b.top <= b.bottom,
    ensures
        r == key_le(*a, *b),
{
    if a.top != b.top {
        return a.top < b.top;
    }
    if a.left != b.left {
        return a.left < b.left;
    }
    let aw = a.width();
    let bw = b.width();
    if aw != bw {
        return aw < bw;
    }
    a.height() <= b.height()
}

/// Components whose bounds are ordered.
pub open spec fn bounds_ordered(comps: Seq<Component>) -> bool {
    forall|k: int| 0 <= k < comps.len() ==> #[trigger] comps[k].left <= comps[k].right && comps[k].top <= comps[k].bottom
}

/// The order in which the components with at least `min_area` pixels
/// become assets: from the top down, then from the left, then by width and
/// height; equal ones keep their order.
pub fn split_order(comps: &[Component], min_area: usize) -> (r: Vec<usize>)
    requires
        bounds_ordered(comps@),
    ensures
        r@ == spec_split_order(comps@, min_area),
{
    let mut idx: Vec<usize> = Vec::new();
    let mut i: usize = 0;
    while i < comps.len()
        invariant
            0 <= i <= comps@.len(),
            idx@ == large_enough(comps@, min_area, i as int),
            forall|k: int| 0 <= k < idx@.len() ==> #[trigger] idx@[k] < i,
        decreases comps@.len() - i,
    {
        if comps[i].area >= min_area {
            idx.push(i);
        }
        i = i + 1;
    }
    let ghost all = idx@;
    let mut sorted: Vec<usize> = Vec::new();
    let mut k: usize = 0;
    while k < idx.len()
        invariant
            0 <= k <= idx@.len(),
            idx@ == all,
            bounds_ordered(comps@),
            forall|j: int| 0 <= j < idx@.len() ==> #[trigger] idx@[j] < comps@.len(),
            sorted@ == stable_order(comps@, all.take(k as int)),
        decreases idx@.len() - k,
    {
        let x = idx[k];
        proof {
            assert(all.take(k + 1).drop_last() =~= all.take(k as int));
            lemma_stable_order_len(comps@, all.take(k as int));
            assert forall|j: int| 0 <= j < sorted@.len() implies #[trigger] sorted@[j] < comps@.len() by {
                assert(all.take(k as int).contains(sorted@[j]));
            }
        }
        let mut p: usize = 0;
        while p < sorted.len() && comes_before_or_equal(&comps[sorted[p]], &comps[x])
            invariant
                0 <= p <= sorted@.len(),
                x < comps@.len(),
                bounds_ordered(comps@),
                forall|j: int| 0 <= j < sorted@.len() ==> #[trigger] sorted@[j] < comps@.len(),
                insert_pos(comps@, sorted@, x, 0) == insert_pos(comps@, sorted@, x, p as int),
            decreases sorted@.len() - p,
        {
            p = p + 1;
        }
        sorted.insert(p, x);
        k = k + 1;
    }
    proof {
        assert(all.take(all.len() as int) =~= all);
    }
    sorted
}

/// The crop of an asset: the component's box widened by `padding` on each
/// side, cut to the picture, as `(left, top, width, height)`.
pub open spec fn spec_crop(c: Component, padding: usize, width: usize, height: usize) -> (int, int, int, int) {
    let left = if c.left >= padding { c.left - padding } else { 0 };
    let top = if c.top >= padding { c.top - padding } else { 0 };
    let right = if c.right + padding < width { c.right + padding } else { width as int };
    let bottom = if c.bottom + padding < height { c.bottom + padding } else { height as int };
    (left, top, right - left, bottom - top)
}

/// The crop of an asset.
pub fn crop_rect(c: &Component, padding: usize, width: usize, height: usize) -> (r: (usize, usize, usize, usize))
    requires
        c.right + padding <= usize::MAX,
        c.bottom + padding <= usize::MAX,
        spec_crop(*c, padding, width, height).2 >= 0,
        spec_crop(*c, padding, width, height).3 >= 0,
    ensures
        (r.0 as int, r.1 as int, r.2 as int, r.3 as int) == spec_crop(*c, padding, width, height),
{
    let left = if c.left >= padding {
        c.left - padding
    } else {
        0
    };
    let top = if c.top >= padding {
        c.top - padding
    } else {
        0
    };
    let right = if c.right + padding < width {
        c.right + padding
    } else {
        width
    };
    let bottom = if c.bottom + padding < height {
        c.bottom + padding
    } else {
        height
    };
    (left, top, right - left, bottom - top)
}

/// Whether the pixel `(x, y)` of a crop at `(left, top)` stays visible: it
/// is looked up in the grown mask of the component, read with the
/// component's own width from the component's top-left corner.
pub open spec fn spec_keep(c: Component, grown: Seq<bool>, left: int, top: int, x: int, y: int) -> bool {
    let src_x = left + x;
    let src_y = top + y;
    let my = if src_y >= c.top { src_y - c.top } else { 0 };
    let mx = if src_x >= c.left { src_x - c.left } else { 0 };
    let i = my * c.mask_width + mx;
    my < (grown.len() as int) / (c.mask_width as int) && mx < c.mask_width && i < grown.len() && grown[i]
}

/// Which pixels of a crop stay visible, row by row.
pub fn crop_keep_mask(c: &Component, grown: &[bool], left: usize, top: usize, crop_width: usize, crop_height: usize) -> (r: Vec<bool>)
    requires
        c.mask_width > 0,
        left + crop_width <= usize::MAX,
        top + crop_height <= usize::MAX,
        crop_width * crop_height <= usize::MAX,
    ensures
        r@.len() == crop_width * crop_height,
        forall|y: int, x: int|
            0 <= y < crop_height && 0 <= x < crop_width ==> #[trigger] r@[cell_index(crop_width as int, y, x)] == spec_keep(
                *c,
                grown@,
                left as int,
                top as int,
                x,
                y,
            ),
{
    let glen = grown.len();
    let rows = glen / c.mask_width;
    let mut r: Vec<bool> = Vec::new();
    let mut y: usize = 0;
    while y < crop_height
        invariant
            0 <= y <= crop_height,
            glen == grown@.len(),
            rows == glen / c.mask_width,
            c.mask_width > 0,
            left + crop_width <= usize::MAX,
            top + crop_height <= usize::MAX,
            crop_width * crop_height <= usize::MAX,
            r@.len() == y * crop_width,
            forall|y2: int, x2: int|
                0 <= y2 < y && 0 <= x2 < crop_width ==> #[trigger] r@[cell_index(crop_width as int, y2, x2)] == spec_keep(
                    *c,
                    grown@,
                    left as int,
                    top as int,
                    x2,
                    y2,
                ),
        decreases crop_height - y,
    {
        let mut x: usize = 0;
        while x < crop_width
            invariant
                0 <= x <= crop_width,
                0 <= y < crop_height,
                glen == grown@.len(),
                rows == glen / c.mask_width,
                c.mask_width > 0,
                left + crop_width <= usize::MAX,
                top + crop_height <= usize::MAX,
                crop_width * crop_height <= usize::MAX,
                r@.len() == y * crop_width + x,
                forall|y2: int, x2: int|
                    0 <= y2 < y && 0 <= x2 < crop_width ==> #[trigger] r@[cell_index(crop_width as int, y2, x2)]
                        == spec_keep(*c, grown@, left as int, top as int, x2, y2),
                forall|x2: int| 0 <= x2 < x ==> #[trigger] r@[cell_index(crop_width as int, y as int, x2)] == spec_keep(
                    *c,
                    grown@,
                    left as int,
                    top as int,
                    x2,
                    y as int,
                ),
            decreases crop_width - x,
        {
            let src_x = left + x;
            let src_y = top + y;
            let my = if src_y >= c.top {
                src_y - c.top
            } else {
                0
            };
            let mx = if src_x >= c.left {
                src_x - c.left
            } else {
                0
            };
            let keep = if my < rows && mx < c.mask_width {
                proof {
                    assert(my * c.mask_width + mx < glen) by (nonlinear_arith)
                        requires
                            my < rows,
                            rows == glen / c.mask_width,
                            mx < c.mask_width,
                            c.mask_width > 0,
                    ;
                }
                let i = my * c.mask_width + mx;
                grown[i]
            } else {
                false
            };
            proof {
                lemma_index_bounds(crop_width as int, crop_height as int, y as int, x as int);
                assert(cell_index(crop_width as int, y as int, x as int) == r@.len());
            }
            r.push(keep);
            proof {
                assert forall|y2: int, x2: int|
                    0 <= y2 < y && 0 <= x2 < crop_width implies #[trigger] r@[cell_index(crop_width as int, y2, x2)]
                        == spec_keep(*c, grown@, left as int, top as int, x2, y2) by {
                    lemma_index_bounds(crop_width as int, y as int, y2, x2);
                }
                assert forall|x2: int| 0 <= x2 < x + 1 implies #[trigger] r@[cell_index(crop_width as int, y as int, x2)]
                    == spec_keep(*c, grown@, left as int, top as int, x2, y as int) by {
                    if x2 < x {
                        assert(cell_index(crop_width as int, y as int, x2) < cell_index(crop_width as int, y as int, x as int));
                    }
                }
            }
            x = x + 1;
        }
        proof {
            assert((y + 1) * crop_width == y * crop_width + crop_width) by (nonlinear_arith);
        }
        y = y + 1;
    }
    proof {
        assert(crop_height * crop_width == crop_width * crop_height) by (nonlinear_arith);
    }
    r
}


/// The box around a component that its mask is grown in: one pixel more on
/// each side, cut to the picture, as `(left, top, width, height)`.
pub open spec fn seed_box(c: Component, width: usize, height: usize) -> (int, int, int, int) {
    let sl = if c.left >= 1 { c.left - 1 } else { 0 };
    let st = if c.top >= 1 { c.top - 1 } else { 0 };
    let sr = if c.right + 1 < width { c.right + 1 } else { width as int };
    let sb = if c.bottom + 1 < height { c.bottom + 1 } else { height as int };
    (sl, st, sr - sl, sb - st)
}

/// The visible pixels of the seed box, row by row.
pub open spec fn local_visual(c: Component, visual: Seq<bool>, width: usize, height: usize) -> Seq<bool> {
    let (sl, st, sw, sh) = seed_box(c, width, height);
    Seq::new((sw * sh) as nat, |i: int| visual[(st + i / sw) * width + sl + i % sw])
}

/// Whether the component's mask marks the pixel `(x, y)` of the picture.
pub open spec fn in_component(c: Component, x: int, y: int) -> bool {
    c.top <= y < c.bottom && c.left <= x < c.right && c.mask@[(y - c.top) * c.mask_width + (x - c.left)]
}

/// The component's pixels in the seed box, row by row.
pub open spec fn local_seed(c: Component, width: usize, height: usize) -> Seq<bool> {
    let (sl, st, sw, sh) = seed_box(c, width, height);
    Seq::new((sw * sh) as nat, |i: int| in_component(c, sl + i % sw, st + i / sw))
}

/// A component that lies inside a `width` by `height` picture.
pub open spec fn component_in_picture(c: Component, width: usize, height: usize) -> bool {
    &&& c.left < c.right <= width
    &&& c.top < c.bottom <= height
    &&& c.mask_width == c.right - c.left
    &&& c.mask@.len() >= c.mask_width * (c.bottom - c.top)
}

proof fn lemma_cell_of(i: int, sw: int, sh: int)
    requires
        0 <= i < sw * sh,
        sw > 0,
    ensures
        0 <= i % sw < sw,
        0 <= i / sw < sh,
        i == cell_index(sw, i / sw, i % sw),
{
    vstd::arithmetic::div_mod::lemma_fundamental_div_mod(i, sw);
    vstd::arithmetic::div_mod::lemma_mod_pos_bound(i, sw);
    let q = i / sw;
    let r = i % sw;
    assert(0 <= q < sh) by (nonlinear_arith)
        requires
            i == sw * q + r,
            0 <= r < sw,
            0 <= i < sw * sh,
            sw > 0,
    ;
    assert(sw * q == q * sw) by (nonlinear_arith);
}

/// Grows a component through the visible pixels around it (eight
/// neighbours), inside its box widened by one pixel; the result covers that
/// box row by row.
pub fn expand_component_to_visual_mask(component: &Component, visual_mask: &[bool], width: usize, height: usize) -> (r: Vec<bool>)
    requires
        component_in_picture(*component, width, height),
        width * height <= visual_mask@.len(),
        component.right < usize::MAX,
        component.bottom < usize::MAX,
    ensures
        r@.len() == seed_box(*component, width, height).2 * seed_box(*component, width, height).3,
        forall|cell: (usize, usize)|
            #![trigger r@[cell_index(seed_box(*component, width, height).2, cell.0 as int, cell.1 as int)]]
            in_grid(seed_box(*component, width, height).2, seed_box(*component, width, height).3, cell) ==> (r@[cell_index(
                seed_box(*component, width, height).2,
                cell.0 as int,
                cell.1 as int,
            )] <==> reached_from_seed(
                local_visual(*component, visual_mask@, width, height),
                local_seed(*component, width, height),
                seed_box(*component, width, height).2,
                seed_box(*component, width, height).3,
                true,
                cell,
            )),
{
    let c = component;
    let vlen = visual_mask.len();
    let mlen = c.mask.len();
    let seed_left = if c.left >= 1 {
        c.left - 1
    } else {
        0
    };
    let seed_top = if c.top >= 1 {
        c.top - 1
    } else {
        0
    };
    let seed_right = if c.right + 1 < width {
        c.right + 1
    } else {
        width
    };
    let seed_bottom = if c.bottom + 1 < height {
        c.bottom + 1
    } else {
        height
    };
    let sw = seed_right - seed_left;
    let sh = seed_bottom - seed_top;
    proof {
        assert(sw * sh <= width * height) by (nonlinear_arith)
            requires
                sw <= width,
                sh <= height,
        ;
    }
    let ghost lv = local_visual(*c, visual_mask@, width, height);
    let ghost ls = local_seed(*c, width, height);
    let mut vis: Vec<bool> = Vec::new();
    let mut seed: Vec<bool> = Vec::new();
    let mut y: usize = 0;
    while y < sh
        invariant
            0 <= y <= sh,
            vlen == visual_mask@.len(),
            mlen == c.mask@.len(),
            component_in_picture(*c, width, height),
            width * height <= vlen,
            (seed_left as int, seed_top as int, sw as int, sh as int) == seed_box(*c, width, height),
            seed_left + sw <= width,
            seed_top + sh <= height,
            sw > 0,
            vis@.len() == y * sw,
            seed@.len() == y * sw,
            forall|y2: int, x2: int|
                0 <= y2 < y && 0 <= x2 < sw ==> #[trigger] vis@[cell_index(sw as int, y2, x2)] == visual_mask@[(seed_top + y2)
                    * width + seed_left + x2],
            forall|y2: int, x2: int|
                0 <= y2 < y && 0 <= x2 < sw ==> #[trigger] seed@[cell_index(sw as int, y2, x2)] == in_component(
                    *c,
                    seed_left + x2,
                    seed_top + y2,
                ),
        decreases sh - y,
    {
        let mut x: usize = 0;
        while x < sw
            invariant
                0 <= x <= sw,
                0 <= y < sh,
                vlen == visual_mask@.len(),
                mlen == c.mask@.len(),
                component_in_picture(*c, width, height),
                width * height <= vlen,
                (seed_left as int, seed_top as int, sw as int, sh as int) == seed_box(*c, width, height),
                seed_left + sw <= width,
                seed_top + sh <= height,
                sw > 0,
                vis@.len() == y * sw + x,
                seed@.len() == y * sw + x,
                forall|y2: int, x2: int|
                    0 <= y2 < y && 0 <= x2 < sw ==> #[trigger] vis@[cell_index(sw as int, y2, x2)] == visual_mask@[(
                    seed_top + y2) * width + seed_left + x2],
                forall|y2: int, x2: int|
                    0 <= y2 < y && 0 <= x2 < sw ==> #[trigger] seed@[cell_index(sw as int, y2, x2)] == in_component(
                        *c,
                        seed_left + x2,
                        seed_top + y2,
                    ),
                forall|x2: int|
                    0 <= x2 < x ==> #[trigger] vis@[cell_index(sw as int, y as int, x2)] == visual_mask@[(seed_top + y)
                        * width + seed_left + x2],
                forall|x2: int|
                    0 <= x2 < x ==> #[trigger] seed@[cell_index(sw as int, y as int, x2)] == in_component(
                        *c,
                        seed_left + x2,
                        seed_top + y,
                    ),
            decreases sw - x,
        {
            let py = seed_top + y;
            let px = seed_left + x;
            proof {
                lemma_index_bounds(width as int, height as int, py as int, px as int);
            }
            let v = visual_mask[py * width + px];
            let inside = c.top <= py && py < c.bottom && c.left <= px && px < c.right;
            let s = if inside {
                proof {
                    lemma_index_bounds(c.mask_width as int, (c.bottom - c.top) as int, (py - c.top) as int, (px - c.left) as int);
                }
                c.mask[(py - c.top) * c.mask_width + (px - c.left)]
            } else {
                false
            };
            proof {
                lemma_index_bounds(sw as int, sh as int, y as int, x as int);
                assert(cell_index(sw as int, y as int, x as int) == vis@.len());
            }
            vis.push(v);
            seed.push(s);
            proof {
                assert((sw as int) * (y as int) == (y as int) * (sw as int)) by (nonlinear_arith);
                assert forall|y2: int, x2: int| 0 <= y2 < y && 0 <= x2 < sw implies #[trigger] vis@[cell_index(sw as int, y2, x2)]
                    == visual_mask@[(seed_top + y2) * width + seed_left + x2] by {
                    lemma_index_bounds(sw as int, y as int, y2, x2);
                }
                assert forall|y2: int, x2: int| 0 <= y2 < y && 0 <= x2 < sw implies #[trigger] seed@[cell_index(sw as int, y2, x2)]
                    == in_component(*c, seed_left + x2, seed_top + y2) by {
                    lemma_index_bounds(sw as int, y as int, y2, x2);
                }
            }
            x = x + 1;
        }
        proof {
            assert((y + 1) * sw == y * sw + sw) by (nonlinear_arith);
        }
        y = y + 1;
    }
    proof {
        assert(sh * sw == sw * sh) by (nonlinear_arith);
        assert(sw * sh > 0) by (nonlinear_arith)
            requires
                sw > 0,
                sh > 0,
        ;
        assert(vis@ =~= lv) by {
            assert forall|i: int| 0 <= i < vis@.len() implies vis@[i] == lv[i] by {
                lemma_cell_of(i, sw as int, sh as int);
                assert(vis@[cell_index(sw as int, i / (sw as int), i % (sw as int))] == visual_mask@[(seed_top + i / (sw as int))
                    * width + seed_left + i % (sw as int)]);
            }
        }
        assert(seed@ =~= ls) by {
            assert forall|i: int| 0 <= i < seed@.len() implies seed@[i] == ls[i] by {
                lemma_cell_of(i, sw as int, sh as int);
                assert(seed@[cell_index(sw as int, i / (sw as int), i % (sw as int))] == in_component(
                    *c,
                    seed_left + i % (sw as int),
                    seed_top + i / (sw as int),
                ));
            }
        }
    }
    grow_mask_from_seed(vis.as_slice(), seed.as_slice(), sw, sh, 8)
}


proof fn lemma_key_total(a: Component, b: Component)
    ensures
        key_le(a, b) || key_le(b, a),
{
}

proof fn lemma_key_trans(a: Component, b: Component, c: Component)
    requires
        key_le(a, b),
        key_le(b, c),
    ensures
        key_le(a, c),
{
}

/// The components named by `s` come in reading order.
pub open spec fn in_reading_order(comps: Seq<Component>, s: Seq<usize>) -> bool {
    forall|i: int, j: int| 0 <= i < j < s.len() ==> key_le(comps[#[trigger] s[i] as int], comps[#[trigger] s[j] as int])
}

proof fn lemma_insert_pos_split(comps: Seq<Component>, s: Seq<usize>, x: usize, j: int)
    requires
        0 <= j <= s.len(),
        in_reading_order(comps, s),
        forall|m: int| 0 <= m < j ==> key_le(comps[#[trigger] s[m] as int], comps[x as int]),
    ensures
        forall|m: int| 0 <= m < insert_pos(comps, s, x, j) ==> key_le(comps[#[trigger] s[m] as int], comps[x as int]),
        forall|m: int| insert_pos(comps, s, x, j) <= m < s.len() ==> key_le(comps[x as int], comps[#[trigger] s[m] as int]),
    decreases s.len() - j,
{
    if j < s.len() {
        if !key_le(comps[s[j] as int], comps[x as int]) {
            assert forall|m: int| j <= m < s.len() implies key_le(comps[x as int], comps[#[trigger] s[m] as int]) by {
                lemma_key_total(comps[s[j] as int], comps[x as int]);
                if m > j {
                    assert(key_le(comps[s[j] as int], comps[s[m] as int]));
                    lemma_key_total(comps[x as int], comps[s[m] as int]);
                    if key_le(comps[s[m] as int], comps[x as int]) {
                        lemma_key_trans(comps[s[j] as int], comps[s[m] as int], comps[x as int]);
                    }
                }
            }
        } else {
            lemma_insert_pos_split(comps, s, x, j + 1);
        }
    }
}

proof fn lemma_stable_order_sorted(comps: Seq<Component>, idx: Seq<usize>)
    ensures
        in_reading_order(comps, stable_order(comps, idx)),
        stable_order(comps, idx).to_multiset() == idx.to_multiset(),
    decreases idx.len(),
{
    broadcast use vstd::seq_lib::group_to_multiset_ensures;

    if idx.len() == 0 {
        assert(stable_order(comps, idx).to_multiset() =~= idx.to_multiset());
    } else {
        let s = stable_order(comps, idx.drop_last());
        let x = idx.last();
        lemma_stable_order_sorted(comps, idx.drop_last());
        lemma_insert_pos(comps, s, x, 0);
        lemma_insert_pos_split(comps, s, x, 0);
        let p = insert_pos(comps, s, x, 0);
        let r = s.insert(p, x);
        assert forall|i: int, j: int| 0 <= i < j < r.len() implies key_le(comps[#[trigger] r[i] as int], comps[#[trigger] r[j] as int]) by {
            if j < p {
                assert(r[i] == s[i] && r[j] == s[j]);
            } else if j == p {
                assert(r[i] == s[i]);
            } else if i == p {
                assert(r[j] == s[j - 1]);
            } else if i < p {
                assert(r[i] == s[i] && r[j] == s[j - 1]);
            } else {
                assert(r[i] == s[i - 1] && r[j] == s[j - 1]);
            }
        }
        vstd::seq_lib::to_multiset_insert(s, p, x);
        assert(idx =~= idx.drop_last().push(x));
        assert(idx.to_multiset() == idx.drop_last().to_multiset().insert(x));
    }
}

/// The assets come in reading order (top, then left, then width, then
/// height), and each component with at least `min_area` pixels comes
/// exactly once.
pub proof fn law_split_order_sorted(comps: Seq<Component>, min_area: usize)
    ensures
        in_reading_order(comps, spec_split_order(comps, min_area)),
        spec_split_order(comps, min_area).to_multiset() == large_enough(comps, min_area, comps.len() as int).to_multiset(),
{
    lemma_stable_order_sorted(comps, large_enough(comps, min_area, comps.len() as int));
}


/// Byte `i` of an asset's picture: the pixel of the source under it, made
/// transparent where the component's mask does not keep it.
pub open spec fn cropped_byte(rgba: Seq<u8>, width: int, left: int, top: int, crop_width: int, keep: Seq<bool>, i: int) -> u8 {
    let p = i / 4;
    let y = p / crop_width;
    let x = p % crop_width;
    if i % 4 == 3 && !keep[p] {
        0
    } else {
        rgba[4 * ((top + y) * width + left + x) + i % 4]
    }
}

/// The RGBA picture of an asset: the crop `left..left + crop_width` by
/// `top..top + crop_height` of the source, with the pixels that the mask
/// does not keep made transparent.
pub open spec fn spec_crop_pixels(
    rgba: Seq<u8>,
    width: int,
    left: int,
    top: int,
    crop_width: int,
    crop_height: int,
    keep: Seq<bool>,
) -> Seq<u8> {
    Seq::new((4 * (crop_width * crop_height)) as nat, |i: int| cropped_byte(rgba, width, left, top, crop_width, keep, i))
}

proof fn lemma_crop_index(crop_width: int, crop_height: int, y: int, x: int, c: int)
    requires
        0 <= y < crop_height,
        0 <= x < crop_width,
        0 <= c < 4,
    ensures
        (4 * (y * crop_width + x) + c) / 4 == y * crop_width + x,
        (4 * (y * crop_width + x) + c) % 4 == c,
        (y * crop_width + x) / crop_width == y,
        (y * crop_width + x) % crop_width == x,
        0 <= y * crop_width + x < crop_width * crop_height,
{
    vstd::arithmetic::div_mod::lemma_fundamental_div_mod_converse(4 * (y * crop_width + x) + c, 4, y * crop_width + x, c);
    vstd::arithmetic::div_mod::lemma_fundamental_div_mod_converse(y * crop_width + x, crop_width, y, x);
    assert(0 <= y * crop_width + x < crop_width * crop_height) by (nonlinear_arith)
        requires
            0 <= y < crop_height,
            0 <= x < crop_width,
    ;
}

/// Copies an asset's pixels out of the source picture.
pub fn crop_pixels(
    rgba: &[u8],
    width: usize,
    height: usize,
    left: usize,
    top: usize,
    crop_width: usize,
    crop_height: usize,
    keep: &[bool],
) -> (r: Vec<u8>)
    requires
        rgba@.len() == 4 * (width * height),
        left + crop_width <= width,
        top + crop_height <= height,
        keep@.len() == crop_width * crop_height,
    ensures
        r@ == spec_crop_pixels(rgba@, width as int, left as int, top as int, crop_width as int, crop_height as int, keep@),
{
    let ghost target = spec_crop_pixels(rgba@, width as int, left as int, top as int, crop_width as int, crop_height as int, keep@);
    let total = rgba.len();
    let kept = keep.len();
    let mut r: Vec<u8> = Vec::new();
    let mut y: usize = 0;
    while y < crop_height
        invariant
            0 <= y <= crop_height,
            total == rgba@.len(),
            kept == keep@.len(),
            rgba@.len() == 4 * (width * height),
            left + crop_width <= width,
            top + crop_height <= height,
            keep@.len() == crop_width * crop_height,
            target == spec_crop_pixels(rgba@, width as int, left as int, top as int, crop_width as int, crop_height as int, keep@),
            r@ == target.take(4 * (y * crop_width)),
        decreases crop_height - y,
    {
        let mut x: usize = 0;
        while x < crop_width
            invariant
                0 <= y < crop_height,
                0 <= x <= crop_width,
                total == rgba@.len(),
                kept == keep@.len(),
                rgba@.len() == 4 * (width * height),
                left + crop_width <= width,
                top + crop_height <= height,
                keep@.len() == crop_width * crop_height,
                target == spec_crop_pixels(rgba@, width as int, left as int, top as int, crop_width as int, crop_height as int, keep@),
                r@ == target.take(4 * (y * crop_width + x)),
            decreases crop_width - x,
        {
            proof {
                lemma_crop_index(crop_width as int, crop_height as int, y as int, x as int, 0);
                assert((top + y) * width + left + x < width * height) by (nonlinear_arith)
                    requires
                        y < crop_height,
                        top + crop_height <= height,
                        x < crop_width,
                        left + crop_width <= width,
                ;
                assert(y * crop_width + x < crop_width * crop_height);
                assert(y * crop_width <= y * crop_width + x) by (nonlinear_arith)
                    requires
                        x >= 0,
                ;
                assert((top + y) * width <= (top + y) * width + left + x) by (nonlinear_arith)
                    requires
                        left + x >= 0,
                ;
            }
            let src = 4 * ((top + y) * width + left + x);
            let k = y * crop_width + x;
            let mut c: usize = 0;
            while c < 4
                invariant
                    0 <= c <= 4,
                    0 <= y < crop_height,
                    0 <= x < crop_width,
                    k == y * crop_width + x,
                    k < crop_width * crop_height,
                    src == 4 * ((top + y) * width + left + x),
                    src + 4 <= rgba@.len(),
                    keep@.len() == crop_width * crop_height,
                    target == spec_crop_pixels(rgba@, width as int, left as int, top as int, crop_width as int, crop_height as int, keep@),
                    r@ == target.take(4 * k + c),
                decreases 4 - c,
            {
                proof {
                    lemma_crop_index(crop_width as int, crop_height as int, y as int, x as int, c as int);
                }
                let v = if c == 3 && !keep[k] { 0u8 } else { rgba[src + c] };
                r.push(v);
                proof {
                    assert(target[4 * k + c] == v);
                    assert(r@ =~= target.take(4 * k + c + 1));
                }
                c = c + 1;
            }
            proof {
                assert(4 * (y * crop_width + x + 1) == 4 * k + 4);
            }
            x = x + 1;
        }
        proof {
            assert(4 * ((y + 1) * crop_width) == 4 * (y * crop_width + crop_width)) by (nonlinear_arith);
        }
        y = y + 1;
    }
    proof {
        assert(4 * (crop_height * crop_width) == 4 * (crop_width * crop_height)) by (nonlinear_arith);
        assert(r@ =~= target);
    }
    r
}

/// `n` written with at least three digits (`{:03}`).
pub open spec fn three_digits(n: nat) -> Seq<char> {
    if n < 10 {
        seq!['0', '0'] + dec(n)
    } else if n < 100 {
        seq!['0'] + dec(n)
    } else {
        dec(n)
    }
}

/// The file name of asset `n`, such as `asset_007.png`.
pub open spec fn asset_file_name(n: nat) -> Seq<char> {
    "asset_"@ + three_digits(n) + ".png"@
}

/// The crop of a component fits the picture and the sums stay in range.
pub open spec fn crop_ok(c: Component, padding: usize, width: usize, height: usize) -> bool {
    &&& c.right + padding <= usize::MAX
    &&& c.bottom + padding <= usize::MAX
    &&& spec_crop(c, padding, width, height).2 >= 0
    &&& spec_crop(c, padding, width, height).3 >= 0
}

/// The asset record `a` is the `k`-th (from 0) in cutting order, for
/// component `c`.
pub open spec fn asset_of(a: ElementAsset, k: int, c: Component, padding: usize, width: usize, height: usize) -> bool {
    &&& a.index == k + 1
    &&& a.file@ == asset_file_name((k + 1) as nat)
    &&& (a.left as int, a.top as int, a.width as int, a.height as int) == spec_crop(c, padding, width, height)
    &&& a.area == c.area
}

fn asset_name(n: usize) -> (r: String)
    ensures
        r@ == asset_file_name(n as nat),
{
    let mut r = owned("asset_");
    if n < 10 {
        push_char(&mut r, '0');
        push_char(&mut r, '0');
    } else if n < 100 {
        push_char(&mut r, '0');
    }
    push_decimal(&mut r, n as u64);
    r.append(".png");
    proof {
        assert(r@ =~= asset_file_name(n as nat));
    }
    r
}

/// The records of the assets cut, in cutting order: numbered from 1, named
/// `asset_NNN.png`, with each component's crop and area.
pub fn element_assets(comps: &[Component], order: &[usize], padding: usize, width: usize, height: usize) -> (r: Vec<ElementAsset>)
    requires
        forall|k: int| 0 <= k < order@.len() ==> (#[trigger] order@[k]) < comps@.len() && crop_ok(
            comps@[order@[k] as int],
            padding,
            width,
            height,
        ),
        order@.len() < usize::MAX,
    ensures
        r@.len() == order@.len(),
        forall|k: int| 0 <= k < r@.len() ==> asset_of(#[trigger] r@[k], k, comps@[order@[k] as int], padding, width, height),
{
    let mut r: Vec<ElementAsset> = Vec::new();
    let mut k: usize = 0;
    while k < order.len()
        invariant
            0 <= k <= order@.len(),
            order@.len() < usize::MAX,
            r@.len() == k,
            forall|j: int| 0 <= j < order@.len() ==> (#[trigger] order@[j]) < comps@.len() && crop_ok(
                comps@[order@[j] as int],
                padding,
                width,
                height,
            ),
            forall|j: int| 0 <= j < k ==> asset_of(#[trigger] r@[j], j, comps@[order@[j] as int], padding, width, height),
        decreases order@.len() - k,
    {
        let ci = order[k];
        assert(ci < comps@.len());
        let c = &comps[ci];
        let (left, top, w, h) = crop_rect(c, padding, width, height);
        let a = ElementAsset { index: k + 1, file: asset_name(k + 1), left, top, width: w, height: h, area: c.area };
        r.push(a);
        k = k + 1;
    }
    r
}

proof fn lemma_large_enough(comps: Seq<Component>, min_area: usize, n: int)
    requires
        0 <= n <= comps.len(),
        comps.len() <= usize::MAX,
    ensures
        large_enough(comps, min_area, n).no_duplicates(),
        forall|j: int| 0 <= j < large_enough(comps, min_area, n).len() ==> #[trigger] large_enough(comps, min_area, n)[j] < n,
        forall|k: int| 0 <= k < n ==> (large_enough(comps, min_area, n).contains(k as usize) <==> #[trigger] comps[k].area >= min_area),
    decreases n,
{
    if n > 0 {
        lemma_large_enough(comps, min_area, n - 1);
        let rest = large_enough(comps, min_area, n - 1);
        let cur = large_enough(comps, min_area, n);
        if comps[n - 1].area >= min_area {
            assert(cur == rest.push((n - 1) as usize));
            assert forall|a: int, b: int| 0 <= a < b < cur.len() implies cur[a] != cur[b] by {
                if b < rest.len() {
                    assert(cur[a] == rest[a] && cur[b] == rest[b]);
                } else {
                    assert(cur[a] == rest[a]);
                }
            }
            assert forall|k: int| 0 <= k < n implies (cur.contains(k as usize) <==> #[trigger] comps[k].area >= min_area) by {
                if k < n - 1 {
                    if cur.contains(k as usize) {
                        let m = choose|m: int| 0 <= m < cur.len() && cur[m] == k as usize;
                        if m < rest.len() {
                            assert(rest[m] == cur[m]);
                        }
                    }
                    if rest.contains(k as usize) {
                        let m = choose|m: int| 0 <= m < rest.len() && rest[m] == k as usize;
                        assert(cur[m] == rest[m]);
                    }
                } else {
                    assert(cur[rest.len() as int] == k as usize);
                }
            }
        } else {
            assert forall|k: int| 0 <= k < n implies (cur.contains(k as usize) <==> #[trigger] comps[k].area >= min_area) by {
                if k == n - 1 && cur.contains(k as usize) {
                    let m = choose|m: int| 0 <= m < cur.len() && cur[m] == k as usize;
                    assert(rest[m] < n - 1);
                }
            }
        }
    }
}

/// Elements become assets from the top down and, along one row, from left
/// to right (then the narrower, then the shorter first), compared by their
/// bounds; exactly the components with at least `min_area` pixels become
/// assets, each once.
pub proof fn law_assets_top_down_left_to_right(comps: Seq<Component>, min_area: usize)
    requires
        comps.len() <= usize::MAX,
    ensures
        forall|i: int, j: int|
            #![trigger spec_split_order(comps, min_area)[i], spec_split_order(comps, min_area)[j]]
            0 <= i < j < spec_split_order(comps, min_area).len() ==> {
                let a = comps[spec_split_order(comps, min_area)[i] as int];
                let b = comps[spec_split_order(comps, min_area)[j] as int];
                ||| a.top < b.top
                ||| (a.top == b.top && a.left < b.left)
                ||| (a.top == b.top && a.left == b.left && a.right - a.left < b.right - b.left)
                ||| (a.top == b.top && a.left == b.left && a.right - a.left == b.right - b.left && a.bottom - a.top
                    <= b.bottom - b.top)
            },
        forall|i: int, j: int|
            #![trigger spec_split_order(comps, min_area)[i], spec_split_order(comps, min_area)[j]]
            0 <= i < j < spec_split_order(comps, min_area).len() && comps[spec_split_order(comps, min_area)[i] as int].top
                == comps[spec_split_order(comps, min_area)[j] as int].top ==> comps[spec_split_order(
                comps,
                min_area,
            )[i] as int].left <= comps[spec_split_order(comps, min_area)[j] as int].left,
        forall|k: int|
            0 <= k < comps.len() ==> (spec_split_order(comps, min_area).contains(k as usize) <==> #[trigger] comps[k].area
                >= min_area),
        spec_split_order(comps, min_area).no_duplicates(),
{
    let r = spec_split_order(comps, min_area);
    let le = large_enough(comps, min_area, comps.len() as int);
    law_split_order_sorted(comps, min_area);
    lemma_large_enough(comps, min_area, comps.len() as int);
    assert forall|i: int, j: int| #![trigger r[i], r[j]] 0 <= i < j < r.len() implies {
        let a = comps[r[i] as int];
        let b = comps[r[j] as int];
        ||| a.top < b.top
        ||| (a.top == b.top && a.left < b.left)
        ||| (a.top == b.top && a.left == b.left && a.right - a.left < b.right - b.left)
        ||| (a.top == b.top && a.left == b.left && a.right - a.left == b.right - b.left && a.bottom - a.top <= b.bottom - b.top)
    } by {
        assert(key_le(comps[r[i] as int], comps[r[j] as int]));
    }
    le.lemma_multiset_has_no_duplicates();
    assert forall|x: usize| r.to_multiset().contains(x) implies r.to_multiset().count(x) == 1 by {
        assert(le.to_multiset().contains(x));
    }
    r.lemma_multiset_has_no_duplicates_conv();
    assert forall|k: int| 0 <= k < comps.len() implies (r.contains(k as usize) <==> #[trigger] comps[k].area >= min_area) by {
        broadcast use vstd::seq_lib::group_to_multiset_ensures;
        assert(r.contains(k as usize) <==> r.to_multiset().count(k as usize) > 0);
        assert(le.contains(k as usize) <==> le.to_multiset().count(k as usize) > 0);
    }
}

} // verus!
