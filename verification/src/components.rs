//! Connected components of a boolean mask, and growing a mask from seeds.
use vstd::prelude::*;
use std::collections::VecDeque;
use crate::grid::{
    is_path, step_ok, lemma_linked_extend,
    adjacent, cell_index, closed, component_of, eight_offsets_by_row, flood, four_offsets, in_grid, is_fg,
    lemma_cells_distinct, lemma_closed_linked, lemma_index_bounds, lemma_index_injective, lemma_linked_fg,
    lemma_linked_self, lemma_linked_symmetric, linked, linked_from_any, offsets_of, raster_before,
    agree_on, bfs, fresh_marks, lemma_bfs_agree, lemma_component_closed,
};

verus! {

/// A connected component: its bounding box (`right` and `bottom` exclusive),
/// its cell count and a local mask of the box, row-major and
/// `mask_width` cells wide.
pub struct Component {
    pub left: usize,
    pub top: usize,
    pub right: usize,
    pub bottom: usize,
    pub area: usize,
    pub mask: Vec<bool>,
    pub mask_width: usize,
    pub mask_height: usize,
}

impl Component {
    /// The grid cells that the local mask marks.
    pub open spec fn cells(&self) -> Set<(usize, usize)> {
        Set::new(
            |p: (usize, usize)|
                self.top <= p.0 < self.bottom && self.left <= p.1 < self.right
                    && self.mask@[cell_index(self.mask_width as int, p.0 - self.top, p.1 - self.left)],
        )
    }

    pub fn width(&self) -> (r: usize)
        requires
            self.left <= self.right,
        ensures
            r == self.right - self.left,
    {
        self.right - self.left
    }

    pub fn height(&self) -> (r: usize)
        requires
            self.top <= self.bottom,
        ensures
            r == self.bottom - self.top,
    {
        self.bottom - self.top
    }
}

/// `a` is the first cell of `s` in row-major order.
pub open spec fn is_first(s: Set<(usize, usize)>, a: (usize, usize)) -> bool {
    s.contains(a) && forall|b: (usize, usize)| #[trigger] s.contains(b) && b != a ==> raster_before(a, b)
}

/// Rows `top..=last_row` and columns `left..=last_col` are the tight bounds of `s`.
pub open spec fn tight_bounds(s: Set<(usize, usize)>, top: int, last_row: int, left: int, last_col: int) -> bool {
    &&& forall|p: (usize, usize)| #[trigger] s.contains(p) ==> top <= p.0 <= last_row && left <= p.1 <= last_col
    &&& exists|p: (usize, usize)| #[trigger] s.contains(p) && p.0 == top
    &&& exists|p: (usize, usize)| #[trigger] s.contains(p) && p.0 == last_row
    &&& exists|p: (usize, usize)| #[trigger] s.contains(p) && p.1 == left
    &&& exists|p: (usize, usize)| #[trigger] s.contains(p) && p.1 == last_col
}

/// `c` describes exactly the cells `s`.
pub open spec fn describes(c: Component, s: Set<(usize, usize)>) -> bool {
    &&& c.cells() == s
    &&& s.finite()
    &&& c.area == s.len()
    &&& c.left < c.right
    &&& c.top < c.bottom
    &&& tight_bounds(s, c.top as int, c.bottom - 1, c.left as int, c.right - 1)
    &&& c.mask_width == c.right - c.left
    &&& c.mask_height == c.bottom - c.top
    &&& c.mask@.len() == c.mask_width * c.mask_height
}

/// `s` is the connected component of `a`, a set cell that comes first in `s`.
pub open spec fn first_and_component(
    mask: Seq<bool>,
    w: int,
    h: int,
    eight: bool,
    s: Set<(usize, usize)>,
    a: (usize, usize),
) -> bool {
    is_first(s, a) && is_fg(mask, w, h, a) && s == component_of(mask, w, h, eight, a)
}

/// `s` is a connected component of the set cells.
pub open spec fn is_component(mask: Seq<bool>, w: int, h: int, eight: bool, s: Set<(usize, usize)>) -> bool {
    exists|a: (usize, usize)| #[trigger] first_and_component(mask, w, h, eight, s, a)
}

/// `sets` are the connected components of the set cells, each listed once,
/// in row-major order of their first cells.
pub open spec fn is_labelling(
    mask: Seq<bool>,
    w: int,
    h: int,
    eight: bool,
    sets: Seq<Set<(usize, usize)>>,
) -> bool {
    &&& forall|k: int| 0 <= k < sets.len() ==> #[trigger] is_component(mask, w, h, eight, sets[k])
    &&& forall|b: (usize, usize)|
        #[trigger] is_fg(mask, w, h, b) ==> exists|k: int| 0 <= k < sets.len() && #[trigger] sets[k].contains(b)
    &&& forall|k1: int, k2: int, a1: (usize, usize), a2: (usize, usize)|
        0 <= k1 < k2 < sets.len() && #[trigger] is_first(sets[k1], a1) && #[trigger] is_first(sets[k2], a2)
            ==> raster_before(a1, a2)
}

/// Tight row and column bounds of a nonempty list of cells:
/// `(first row, last row, first column, last column)`.
pub fn cell_bounds(pixels: &Vec<(usize, usize)>) -> (r: (usize, usize, usize, usize))
    requires
        pixels@.len() > 0,
    ensures
        tight_bounds(pixels@.to_set(), r.0 as int, r.1 as int, r.2 as int, r.3 as int),
{
    let mut min_y = pixels[0].0;
    let mut max_y = pixels[0].0;
    let mut min_x = pixels[0].1;
    let mut max_x = pixels[0].1;
    let mut i: usize = 1;
    while i < pixels.len()
        invariant
            1 <= i <= pixels@.len(),
            forall|j: int| 0 <= j < i ==> min_y <= #[trigger] pixels@[j].0 <= max_y && min_x <= pixels@[j].1 <= max_x,
            exists|j: int| 0 <= j < i && #[trigger] pixels@[j].0 == min_y,
            exists|j: int| 0 <= j < i && #[trigger] pixels@[j].0 == max_y,
            exists|j: int| 0 <= j < i && #[trigger] pixels@[j].1 == min_x,
            exists|j: int| 0 <= j < i && #[trigger] pixels@[j].1 == max_x,
        decreases pixels@.len() - i,
    {
        let p = pixels[i];
        if p.0 < min_y {
            min_y = p.0;
        }
        if p.0 > max_y {
            max_y = p.0;
        }
        if p.1 < min_x {
            min_x = p.1;
        }
        if p.1 > max_x {
            max_x = p.1;
        }
        proof {
            assert(pixels@[i as int] == p);
        }
        i = i + 1;
    }
    proof {
        let s = pixels@.to_set();
        let j0 = choose|j: int| 0 <= j < pixels@.len() && #[trigger] pixels@[j].0 == min_y;
        let j1 = choose|j: int| 0 <= j < pixels@.len() && #[trigger] pixels@[j].0 == max_y;
        let j2 = choose|j: int| 0 <= j < pixels@.len() && #[trigger] pixels@[j].1 == min_x;
        let j3 = choose|j: int| 0 <= j < pixels@.len() && #[trigger] pixels@[j].1 == max_x;
        assert(s.contains(pixels@[j0]));
        assert(s.contains(pixels@[j1]));
        assert(s.contains(pixels@[j2]));
        assert(s.contains(pixels@[j3]));
        assert forall|p: (usize, usize)| #[trigger] s.contains(p) implies min_y <= p.0 <= max_y && min_x <= p.1 <= max_x by {
            let j = choose|j: int| 0 <= j < pixels@.len() && pixels@[j] == p;
            assert(min_y <= pixels@[j].0 <= max_y);
        }
    }
    (min_y, max_y, min_x, max_x)
}

/// The component made of a nonempty list of distinct grid cells.
fn build_component(pixels: &Vec<(usize, usize)>, w: usize, h: usize) -> (c: Component)
    requires
        pixels@.len() > 0,
        pixels@.no_duplicates(),
        w * h <= usize::MAX,
        forall|i: int| 0 <= i < pixels@.len() ==> #[trigger] in_grid(w as int, h as int, pixels@[i]),
    ensures
        describes(c, pixels@.to_set()),
{
    let (min_y, max_y, min_x, max_x) = cell_bounds(pixels);
    let ghost s = pixels@.to_set();
    proof {
        let p = choose|p: (usize, usize)| #[trigger] s.contains(p) && p.0 == max_y;
        let j = choose|j: int| 0 <= j < pixels@.len() && pixels@[j] == p;
        assert(in_grid(w as int, h as int, pixels@[j]));
        let q = choose|q: (usize, usize)| #[trigger] s.contains(q) && q.1 == max_x;
        let j2 = choose|j: int| 0 <= j < pixels@.len() && pixels@[j] == q;
        assert(in_grid(w as int, h as int, pixels@[j2]));
        assert(max_y < h && max_x < w);
        let pp = choose|p: (usize, usize)| #[trigger] s.contains(p) && p.0 == min_y;
        assert(min_y <= max_y);
    }
    let comp_left = min_x;
    let comp_top = min_y;
    let comp_right = max_x + 1;
    let comp_bottom = max_y + 1;
    let comp_width = comp_right - comp_left;
    let comp_height = comp_bottom - comp_top;
    proof {
        assert(comp_width * comp_height <= w * h) by (nonlinear_arith)
            requires
                comp_width <= w,
                comp_height <= h,
        ;
    }
    let mut local_mask = vec![false; comp_width * comp_height];
    proof {
        assert forall|i: int| 0 <= i < local_mask@.len() implies !local_mask@[i] by {
            assert(cloned(false, local_mask@[i]));
        }
        assert forall|ly: int, lx: int|
            0 <= ly < comp_height && 0 <= lx < comp_width implies !(#[trigger] local_mask@[cell_index(comp_width as int, ly, lx)]) by {
            lemma_index_bounds(comp_width as int, comp_height as int, ly, lx);
        }
    }
    let mut i: usize = 0;
    while i < pixels.len()
        invariant
            0 <= i <= pixels@.len(),
            s == pixels@.to_set(),
            local_mask@.len() == comp_width * comp_height,
            comp_width * comp_height <= usize::MAX,
            tight_bounds(s, min_y as int, max_y as int, min_x as int, max_x as int),
            comp_left == min_x,
            comp_top == min_y,
            comp_width == max_x + 1 - min_x,
            comp_height == max_y + 1 - min_y,
            forall|ly: int, lx: int|
                0 <= ly < comp_height && 0 <= lx < comp_width ==> (#[trigger] local_mask@[cell_index(comp_width as int, ly, lx)]
                    <==> exists|j: int| 0 <= j < i && #[trigger] pixels@[j] == ((ly + min_y) as usize, (lx + min_x) as usize)),
        decreases pixels@.len() - i,
    {
        let (y, x) = pixels[i];
        proof {
            assert(s.contains(pixels@[i as int]));
        }
        let local_y = y - comp_top;
        let local_x = x - comp_left;
        proof {
            lemma_index_bounds(comp_width as int, comp_height as int, local_y as int, local_x as int);
        }
        let ghost before = local_mask@;
        let li = local_y * comp_width + local_x;
        local_mask.set(li, true);
        proof {
            assert forall|ly: int, lx: int|
                0 <= ly < comp_height && 0 <= lx < comp_width implies (#[trigger] local_mask@[cell_index(comp_width as int, ly, lx)]
                    <==> exists|j: int| 0 <= j < i + 1 && #[trigger] pixels@[j] == ((ly + min_y) as usize, (lx + min_x) as usize)) by {
                lemma_index_bounds(comp_width as int, comp_height as int, ly, lx);
                if ly == local_y && lx == local_x {
                    assert(pixels@[i as int] == ((ly + min_y) as usize, (lx + min_x) as usize));
                } else {
                    if cell_index(comp_width as int, ly, lx) == li {
                        lemma_index_injective(comp_width as int, ly, lx, local_y as int, local_x as int);
                    }
                    if exists|j: int| 0 <= j < i + 1 && #[trigger] pixels@[j] == ((ly + min_y) as usize, (lx + min_x) as usize) {
                        let j = choose|j: int| 0 <= j < i + 1 && #[trigger] pixels@[j] == ((ly + min_y) as usize, (lx + min_x) as usize);
                        assert(j != i);
                    }
                }
            }
        }
        i = i + 1;
    }
    let c = Component {
        left: comp_left,
        top: comp_top,
        right: comp_right,
        bottom: comp_bottom,
        area: pixels.len(),
        mask: local_mask,
        mask_width: comp_width,
        mask_height: comp_height,
    };
    proof {
        assert forall|p: (usize, usize)| c.cells().contains(p) <==> s.contains(p) by {
            if s.contains(p) {
                let j = choose|j: int| 0 <= j < pixels@.len() && pixels@[j] == p;
                let ly = p.0 - min_y;
                let lx = p.1 - min_x;
                assert(pixels@[j] == ((ly + min_y) as usize, (lx + min_x) as usize));
                assert(local_mask@[cell_index(comp_width as int, ly, lx)]);
            }
            if c.cells().contains(p) {
                let ly = p.0 - min_y;
                let lx = p.1 - min_x;
                assert(local_mask@[cell_index(comp_width as int, ly, lx)]);
                let j = choose|j: int| 0 <= j < pixels@.len() && #[trigger] pixels@[j] == ((ly + min_y) as usize, (lx + min_x) as usize);
                assert(pixels@[j] == p);
            }
        }
        assert(c.cells() =~= s);
        pixels@.unique_seq_to_set();
    }
    c
}

/// `is_first` names at most one cell of a set.
pub proof fn lemma_first_unique(s: Set<(usize, usize)>, a: (usize, usize), b: (usize, usize))
    requires
        is_first(s, a),
        is_first(s, b),
    ensures
        a == b,
{
    if a != b {
        assert(s.contains(b));
        assert(s.contains(a));
    }
}

/// A nonempty list of distinct grid cells.
pub open spec fn cell_list(w: int, h: int, l: Seq<(usize, usize)>) -> bool {
    &&& l.len() > 0
    &&& l.no_duplicates()
    &&& forall|i: int| 0 <= i < l.len() ==> #[trigger] in_grid(w, h, l[i])
}

/// Finds the connected components of the set cells of a `width` x `height`
/// mask, with the edge neighbourhood when `connectivity` is 4 and the full
/// neighbourhood otherwise.
pub fn find_components(mask: &[bool], width: usize, height: usize, connectivity: u8) -> (comps: Vec<Component>)
    requires
        mask@.len() > 0 && width > 0 && height > 0 ==> width * height <= mask@.len(),
    ensures
        mask@.len() == 0 || width == 0 || height == 0 ==> comps@.len() == 0,
        mask@.len() > 0 && width > 0 && height > 0 ==> {
            &&& is_labelling(
                mask@,
                width as int,
                height as int,
                connectivity != 4,
                comps@.map_values(|c: Component| c.cells()),
            )
            &&& forall|k: int| 0 <= k < comps@.len() ==> describes(#[trigger] comps@[k], comps@[k].cells())
        },
{
    if mask.len() == 0 || width == 0 || height == 0 {
        return Vec::new();
    }
    let eight = connectivity != 4;
    let offsets = if connectivity == 4 {
        four_offsets()
    } else {
        eight_offsets_by_row()
    };
    let mlen = mask.len();
    let lists = label_cells(mask, width, height, eight, &offsets);
    let ghost sets = lists@.map_values(|l: Vec<(usize, usize)>| l@.to_set());
    let mut comps: Vec<Component> = Vec::new();
    let mut k: usize = 0;
    while k < lists.len()
        invariant
            0 <= k <= lists@.len(),
            width * height <= mlen,
            comps@.len() == k,
            sets == lists@.map_values(|l: Vec<(usize, usize)>| l@.to_set()),
            forall|j: int| 0 <= j < lists@.len() ==> #[trigger] cell_list(width as int, height as int, lists@[j]@),
            forall|j: int| 0 <= j < k ==> describes(#[trigger] comps@[j], sets[j]),
        decreases lists@.len() - k,
    {
        proof {
            assert(cell_list(width as int, height as int, lists@[k as int]@));
        }
        let c = build_component(&lists[k], width, height);
        comps.push(c);
        k = k + 1;
    }
    proof {
        assert forall|j: int| 0 <= j < comps@.len() implies describes(#[trigger] comps@[j], comps@[j].cells()) by {
            assert(describes(comps@[j], sets[j]));
        }
        let mapped = comps@.map_values(|c: Component| c.cells());
        assert forall|j: int| 0 <= j < sets.len() implies #[trigger] mapped[j] == sets[j] by {
            assert(describes(comps@[j], sets[j]));
        }
        assert(mapped =~= sets);
    }
    comps
}

/// `l` is the breadth-first order of the cells reached from its first cell,
/// with only that cell marked at the start.
pub open spec fn flood_order(mask: Seq<bool>, w: int, h: int, offsets: Seq<(i32, i32)>, l: Seq<(usize, usize)>) -> bool {
    l.len() > 0 && l == bfs(mask, w, h, offsets, fresh_marks(w, h, l[0]), seq![l[0]])
}

/// A flood from a fresh seed `s`, with no cell of its component marked
/// but `s`, gives the same order as a flood with only `s` marked.
proof fn lemma_seed_flood_order(
    m: Seq<bool>,
    w: int,
    h: int,
    eight: bool,
    offsets: Seq<(i32, i32)>,
    vis_old: Seq<bool>,
    s: (usize, usize),
)
    requires
        0 <= w <= usize::MAX,
        0 <= h <= usize::MAX,
        w * h <= m.len(),
        vis_old.len() == w * h,
        offsets_of(eight, offsets),
        is_fg(m, w, h, s),
        !vis_old[cell_index(w, s.0 as int, s.1 as int)],
        closed(m, w, h, eight, vis_old),
    ensures
        ({
            let vis1 = vis_old.update(cell_index(w, s.0 as int, s.1 as int), true);
            &&& bfs(m, w, h, offsets, vis1, seq![s]) == bfs(m, w, h, offsets, fresh_marks(w, h, s), seq![s])
            &&& bfs(m, w, h, offsets, fresh_marks(w, h, s), seq![s])[0] == s
        }),
{
    let si = cell_index(w, s.0 as int, s.1 as int);
    let vis1 = vis_old.update(si, true);
    let comp = component_of(m, w, h, eight, s);
    let fresh = fresh_marks(w, h, s);
    lemma_index_bounds(w, h, s.0 as int, s.1 as int);
    lemma_component_closed(m, w, h, eight, s);
    lemma_linked_self(m, w, h, eight, s);
    assert forall|x: (usize, usize)| #![trigger comp.contains(x)] in_grid(w, h, x) && comp.contains(x)
        implies vis1[cell_index(w, x.0 as int, x.1 as int)] == fresh[cell_index(w, x.0 as int, x.1 as int)] by {
        lemma_index_bounds(w, h, x.0 as int, x.1 as int);
        if x != s {
            lemma_cells_distinct(w, h, x, s);
            assert(linked(m, w, h, eight, s, x));
            if vis_old[cell_index(w, x.0 as int, x.1 as int)] {
                lemma_linked_symmetric(m, w, h, eight, s, x);
                lemma_closed_linked(m, w, h, eight, vis_old, x, s);
            }
        }
    }
    assert(agree_on(w, h, vis1, fresh, comp));
    let q0 = seq![s];
    assert forall|i: int| 0 <= i < q0.len() implies comp.contains(#[trigger] q0[i]) && in_grid(w, h, q0[i]) by {
        assert(q0[i] == s);
    }
    lemma_bfs_agree(m, w, h, eight, offsets, vis1, fresh, q0, comp);
    assert(fresh.len() == w * h);
}

/// The set cells of a `width` x `height` mask grouped into connected
/// components, each listed in breadth-first order from its first cell, the
/// components in row-major order of their first cells.
#[verifier::rlimit(100)]
#[verifier::spinoff_prover]
pub fn label_cells(
    mask: &[bool],
    width: usize,
    height: usize,
    eight: bool,
    offsets: &Vec<(i32, i32)>,
) -> (lists: Vec<Vec<(usize, usize)>>)
    requires
        width * height <= mask@.len(),
        offsets_of(eight, offsets@),
    ensures
        is_labelling(mask@, width as int, height as int, eight, lists@.map_values(|l: Vec<(usize, usize)>| l@.to_set())),
        forall|k: int| 0 <= k < lists@.len() ==> #[trigger] cell_list(width as int, height as int, lists@[k]@),
        forall|k: int| 0 <= k < lists@.len() ==> is_first(#[trigger] lists@[k]@.to_set(), lists@[k]@[0]),
        forall|k: int| 0 <= k < lists@.len() ==> #[trigger] flood_order(mask@, width as int, height as int, offsets@, lists@[k]@),
{
    let ghost m = mask@;
    let ghost wi = width as int;
    let ghost hi = height as int;
    let mlen = mask.len();
    let mut visited = vec![false; width * height];
    proof {
        assert forall|i: int| 0 <= i < visited@.len() implies !visited@[i] by {
            assert(cloned(false, visited@[i]));
        }
        assert forall|c: (usize, usize)| in_grid(wi, hi, c) implies !visited@[cell_index(wi, c.0 as int, c.1 as int)] by {
            lemma_index_bounds(wi, hi, c.0 as int, c.1 as int);
        }
    }
    let mut components: Vec<Vec<(usize, usize)>> = Vec::new();
    let ghost mut seeds: Seq<(usize, usize)> = Seq::empty();
    let mut start_y: usize = 0;
    while start_y < height
        invariant
            m == mask@,
            wi == width,
            hi == height,
            width * height <= m.len(),
            width * height <= mlen,
                        offsets_of(eight, offsets@),
            visited@.len() == width * height,
            0 <= start_y <= height,
            components@.len() == seeds.len(),
            forall|k: int|
                0 <= k < seeds.len() ==> {
                    &&& is_fg(m, wi, hi, #[trigger] seeds[k])
                    &&& is_first(component_of(m, wi, hi, eight, seeds[k]), seeds[k])
                    &&& components@[k]@.to_set() == component_of(m, wi, hi, eight, seeds[k]) && cell_list(wi, hi, components@[k]@)
                    &&& seeds[k].0 < start_y
                    &&& components@[k]@[0] == seeds[k]
                    &&& components@[k]@ == bfs(m, wi, hi, offsets@, fresh_marks(wi, hi, seeds[k]), seq![seeds[k]])
                },
            forall|k1: int, k2: int| 0 <= k1 < k2 < seeds.len() ==> raster_before(#[trigger] seeds[k1], #[trigger] seeds[k2]),
            forall|c: (usize, usize)|
                #![trigger visited@[cell_index(wi, c.0 as int, c.1 as int)]]
                in_grid(wi, hi, c) ==> (visited@[cell_index(wi, c.0 as int, c.1 as int)] <==> exists|k: int|
                    0 <= k < seeds.len() && #[trigger] linked(m, wi, hi, eight, seeds[k], c)),
            closed(m, wi, hi, eight, visited@),
            forall|c: (usize, usize)| #[trigger] is_fg(m, wi, hi, c) && c.0 < start_y ==> visited@[cell_index(wi, c.0 as int, c.1 as int)],
        decreases height - start_y,
    {
        let mut start_x: usize = 0;
        while start_x < width
            invariant
                m == mask@,
                wi == width,
                hi == height,
                width * height <= m.len(),
                width * height <= mlen,
                                offsets_of(eight, offsets@),
                visited@.len() == width * height,
                0 <= start_y < height,
                0 <= start_x <= width,
                components@.len() == seeds.len(),
                forall|k: int|
                    0 <= k < seeds.len() ==> {
                        &&& is_fg(m, wi, hi, #[trigger] seeds[k])
                        &&& is_first(component_of(m, wi, hi, eight, seeds[k]), seeds[k])
                        &&& components@[k]@.to_set() == component_of(m, wi, hi, eight, seeds[k]) && cell_list(wi, hi, components@[k]@)
                        &&& raster_before(seeds[k], (start_y, start_x))
                        &&& components@[k]@[0] == seeds[k]
                        &&& components@[k]@ == bfs(m, wi, hi, offsets@, fresh_marks(wi, hi, seeds[k]), seq![seeds[k]])
                    },
                forall|k1: int, k2: int| 0 <= k1 < k2 < seeds.len() ==> raster_before(#[trigger] seeds[k1], #[trigger] seeds[k2]),
                forall|c: (usize, usize)|
                    #![trigger visited@[cell_index(wi, c.0 as int, c.1 as int)]]
                    in_grid(wi, hi, c) ==> (visited@[cell_index(wi, c.0 as int, c.1 as int)] <==> exists|k: int|
                        0 <= k < seeds.len() && #[trigger] linked(m, wi, hi, eight, seeds[k], c)),
                closed(m, wi, hi, eight, visited@),
                forall|c: (usize, usize)| #[trigger] is_fg(m, wi, hi, c) && raster_before(c, (start_y, start_x))
                    ==> visited@[cell_index(wi, c.0 as int, c.1 as int)],
            decreases width - start_x,
        {
            proof {
                lemma_index_bounds(wi, hi, start_y as int, start_x as int);
            }
            let start_idx = start_y * width + start_x;
            let s = (start_y, start_x);
            if mask[start_idx] && !visited[start_idx] {
                let ghost vis_old = visited@;
                let ghost comp = component_of(m, wi, hi, eight, s);
                visited.set(start_idx, true);
                let ghost vis1 = visited@;
                let mut queue: VecDeque<(usize, usize)> = VecDeque::new();
                queue.push_back(s);
                proof {
                    assert(is_fg(m, wi, hi, s));
                    assert(queue@ =~= seq![s]);
                    assert forall|c: (usize, usize)| in_grid(wi, hi, c) && c != s implies
                        vis1[cell_index(wi, c.0 as int, c.1 as int)] == vis_old[cell_index(wi, c.0 as int, c.1 as int)] by {
                        lemma_cells_distinct(wi, hi, c, s);
                        lemma_index_bounds(wi, hi, c.0 as int, c.1 as int);
                    }
                    assert forall|i: int| 0 <= i < queue@.len() implies #[trigger] is_fg(m, wi, hi, queue@[i])
                        && visited@[cell_index(wi, queue@[i].0 as int, queue@[i].1 as int)] by {
                        assert(queue@[i] == s);
                    }
                    assert forall|a: (usize, usize), b: (usize, usize)|
                        #![trigger adjacent(eight, a, b), visited@[cell_index(wi, a.0 as int, a.1 as int)]]
                        in_grid(wi, hi, a) && visited@[cell_index(wi, a.0 as int, a.1 as int)]
                            && !queue@.contains(a) && is_fg(m, wi, hi, b) && adjacent(eight, a, b)
                            implies visited@[cell_index(wi, b.0 as int, b.1 as int)] by {
                        assert(a != s) by {
                            assert(queue@[0] == s);
                        }
                        assert(vis_old[cell_index(wi, a.0 as int, a.1 as int)]);
                        assert(vis_old[cell_index(wi, b.0 as int, b.1 as int)]);
                        if b != s {
                            assert(vis1[cell_index(wi, b.0 as int, b.1 as int)] == vis_old[cell_index(wi, b.0 as int, b.1 as int)]);
                        }
                    }
                }
                let ghost q0 = queue@;
                let pixels = flood(mask, width, height, eight, &offsets, &mut visited, &mut queue);
                proof {
                    // The flood reached exactly the component of `s`.
                    assert forall|c: (usize, usize)| pixels@.to_set().contains(c) <==> comp.contains(c) by {
                        if pixels@.to_set().contains(c) {
                            let i = choose|i: int| 0 <= i < pixels@.len() && pixels@[i] == c;
                            assert(linked_from_any(m, wi, hi, eight, q0, pixels@[i]));
                            let j = choose|j: int| 0 <= j < q0.len() && #[trigger] linked(m, wi, hi, eight, q0[j], pixels@[i]);
                            assert(q0[j] == s);
                        }
                        if comp.contains(c) {
                            assert(linked(m, wi, hi, eight, s, c));
                            assert(visited@[cell_index(wi, s.0 as int, s.1 as int)]);
                            lemma_closed_linked(m, wi, hi, eight, visited@, s, c);
                            lemma_linked_fg(m, wi, hi, eight, s, c);
                            if c != s {
                                if vis_old[cell_index(wi, c.0 as int, c.1 as int)] {
                                    lemma_linked_symmetric(m, wi, hi, eight, s, c);
                                    lemma_closed_linked(m, wi, hi, eight, vis_old, c, s);
                                }
                                assert(!vis1[cell_index(wi, c.0 as int, c.1 as int)]);
                            } else {
                                assert(q0.contains(s)) by {
                                    assert(q0[0] == s);
                                }
                            }
                            assert(pixels@.contains(c));
                        }
                    }
                    assert(pixels@.to_set() =~= comp);
                    // `s` is the first cell of its component.
                    assert forall|b: (usize, usize)| #[trigger] comp.contains(b) && b != s implies raster_before(s, b) by {
                        assert(linked(m, wi, hi, eight, s, b));
                        lemma_linked_fg(m, wi, hi, eight, s, b);
                        if raster_before(b, s) {
                            assert(vis_old[cell_index(wi, b.0 as int, b.1 as int)]);
                            lemma_linked_symmetric(m, wi, hi, eight, s, b);
                            lemma_closed_linked(m, wi, hi, eight, vis_old, b, s);
                            assert(false);
                        }
                    }
                    lemma_linked_self(m, wi, hi, eight, s);
                    assert(comp.contains(s));
                    lemma_seed_flood_order(m, wi, hi, eight, offsets@, vis_old, s);
                    assert(vis1 == vis_old.update(cell_index(wi, s.0 as int, s.1 as int), true));
                    assert(q0 =~= seq![s]);
                }
                components.push(pixels);
                proof {
                    let old_seeds = seeds;
                    seeds = seeds.push(s);
                    assert forall|c: (usize, usize)|
                        #![trigger visited@[cell_index(wi, c.0 as int, c.1 as int)]]
                        in_grid(wi, hi, c) implies (visited@[cell_index(wi, c.0 as int, c.1 as int)] <==> exists|k: int|
                            0 <= k < seeds.len() && #[trigger] linked(m, wi, hi, eight, seeds[k], c)) by {
                        if visited@[cell_index(wi, c.0 as int, c.1 as int)] {
                            if c == s {
                                assert(linked(m, wi, hi, eight, seeds[old_seeds.len() as int], c));
                            } else if vis_old[cell_index(wi, c.0 as int, c.1 as int)] {
                                let k = choose|k: int| 0 <= k < old_seeds.len() && #[trigger] linked(m, wi, hi, eight, old_seeds[k], c);
                                assert(seeds[k] == old_seeds[k]);
                            } else {
                                assert(!vis1[cell_index(wi, c.0 as int, c.1 as int)]);
                                assert(pixels@.contains(c));
                                assert(pixels@.to_set().contains(c));
                                assert(linked(m, wi, hi, eight, seeds[old_seeds.len() as int], c));
                            }
                        }
                        if exists|k: int| 0 <= k < seeds.len() && #[trigger] linked(m, wi, hi, eight, seeds[k], c) {
                            let k = choose|k: int| 0 <= k < seeds.len() && #[trigger] linked(m, wi, hi, eight, seeds[k], c);
                            if k < old_seeds.len() {
                                assert(linked(m, wi, hi, eight, old_seeds[k], c));
                                assert(vis_old[cell_index(wi, c.0 as int, c.1 as int)]);
                                if c != s {
                                    assert(vis1[cell_index(wi, c.0 as int, c.1 as int)]);
                                }
                            } else {
                                assert(comp.contains(c));
                                assert(pixels@.to_set().contains(c));
                            }
                        }
                    }
                    assert forall|k: int|
                        0 <= k < seeds.len() implies {
                            &&& is_fg(m, wi, hi, #[trigger] seeds[k])
                            &&& is_first(component_of(m, wi, hi, eight, seeds[k]), seeds[k])
                            &&& components@[k]@.to_set() == component_of(m, wi, hi, eight, seeds[k]) && cell_list(wi, hi, components@[k]@)
                            &&& raster_before(seeds[k], (start_y, (start_x + 1) as usize))
                            &&& components@[k]@[0] == seeds[k]
                            &&& components@[k]@ == bfs(m, wi, hi, offsets@, fresh_marks(wi, hi, seeds[k]), seq![seeds[k]])
                        } by {
                        if k < old_seeds.len() {
                            assert(seeds[k] == old_seeds[k]);
                        }
                    }
                }
            }
            proof {
                assert forall|c: (usize, usize)| #[trigger] is_fg(m, wi, hi, c) && raster_before(c, (start_y, (start_x + 1) as usize))
                    implies visited@[cell_index(wi, c.0 as int, c.1 as int)] by {
                    if c == s {
                        assert(visited@[cell_index(wi, c.0 as int, c.1 as int)]);
                    }
                }
            }
            start_x = start_x + 1;
        }
        start_y = start_y + 1;
    }
    proof {
        let sets = components@.map_values(|l: Vec<(usize, usize)>| l@.to_set());
        assert forall|k: int| 0 <= k < sets.len() implies #[trigger] is_component(m, wi, hi, eight, sets[k]) by {
            assert(is_fg(m, wi, hi, seeds[k]));
            assert(sets[k] == component_of(m, wi, hi, eight, seeds[k]));
            assert(first_and_component(m, wi, hi, eight, sets[k], seeds[k]));
        }
        assert forall|b: (usize, usize)| #[trigger] is_fg(m, wi, hi, b) implies exists|k: int|
            0 <= k < sets.len() && #[trigger] sets[k].contains(b) by {
            assert(visited@[cell_index(wi, b.0 as int, b.1 as int)]);
            let k = choose|k: int| 0 <= k < seeds.len() && #[trigger] linked(m, wi, hi, eight, seeds[k], b);
            assert(is_fg(m, wi, hi, seeds[k]));
            assert(sets[k].contains(b));
        }
        assert forall|k1: int, k2: int, a1: (usize, usize), a2: (usize, usize)|
            0 <= k1 < k2 < sets.len() && #[trigger] is_first(sets[k1], a1) && #[trigger] is_first(sets[k2], a2)
                implies raster_before(a1, a2) by {
            assert(is_fg(m, wi, hi, seeds[k1]));
            assert(is_fg(m, wi, hi, seeds[k2]));
            lemma_first_unique(sets[k1], a1, seeds[k1]);
            lemma_first_unique(sets[k2], a2, seeds[k2]);
            assert(raster_before(seeds[k1], seeds[k2]));
        }
        assert forall|k: int| 0 <= k < components@.len() implies #[trigger] cell_list(wi, hi, components@[k]@) by {
            assert(is_fg(m, wi, hi, seeds[k]));
        }
        assert(is_labelling(m, wi, hi, eight, sets));
        assert forall|k: int| 0 <= k < components@.len() implies is_first(#[trigger] components@[k]@.to_set(), components@[k]@[0]) by {
            assert(is_fg(m, wi, hi, seeds[k]));
        }
        assert forall|k: int| 0 <= k < components@.len() implies #[trigger] flood_order(m, wi, hi, offsets@, components@[k]@) by {
            assert(components@[k]@[0] == seeds[k]);
        }

    }
    components
}

/// A component lies inside its grid: its box ends within the `w` x `h`
/// grid, and its area is at most the size of its box (the length of its
/// local mask).
pub proof fn law_component_inside(mask: Seq<bool>, w: int, h: int, eight: bool, c: Component)
    requires
        describes(c, c.cells()),
        is_component(mask, w, h, eight, c.cells()),
    ensures
        c.right <= w,
        c.bottom <= h,
        c.area <= c.mask_width * c.mask_height,
        c.mask@.len() == c.mask_width * c.mask_height,
{
    let s = c.cells();
    let a = choose|a: (usize, usize)| #[trigger] first_and_component(mask, w, h, eight, s, a);
    let p = choose|p: (usize, usize)| #[trigger] s.contains(p) && p.1 == c.right - 1;
    assert(linked(mask, w, h, eight, a, p));
    lemma_linked_fg(mask, w, h, eight, a, p);
    let q = choose|q: (usize, usize)| #[trigger] s.contains(q) && q.0 == c.bottom - 1;
    assert(linked(mask, w, h, eight, a, q));
    lemma_linked_fg(mask, w, h, eight, a, q);
    let mw = c.mask_width as int;
    let mh = c.mask_height as int;
    let top = c.top as int;
    let left = c.left as int;
    let f = |x: (usize, usize)| cell_index(mw, x.0 - top, x.1 - left);
    assert forall|x1: (usize, usize), x2: (usize, usize)| s.contains(x1) && s.contains(x2) && #[trigger] f(x1) == #[trigger] f(x2)
        implies x1 == x2 by {
        lemma_index_injective(mw, x1.0 - top, x1.1 - left, x2.0 - top, x2.1 - left);
    }
    assert(vstd::relations::injective_on(f, s));
    let y = s.map(f);
    vstd::set_lib::lemma_map_size(s, y, f);
    let range = vstd::set_lib::set_int_range(0, mw * mh);
    assert forall|i: int| #[trigger] y.contains(i) implies range.contains(i) by {
        let x = choose|x: (usize, usize)| s.contains(x) && f(x) == i;
        lemma_index_bounds(mw, mh, x.0 - top, x.1 - left);
    }
    assert(mw * mh >= 0) by (nonlinear_arith)
        requires
            mw >= 0,
            mh >= 0,
    ;
    vstd::set_lib::lemma_int_range(0, mw * mh);
    vstd::set_lib::lemma_len_subset(y, range);
}

/// `c` is reached from a seed cell through candidate cells.
pub open spec fn reached_from_seed(
    candidate: Seq<bool>,
    seed: Seq<bool>,
    w: int,
    h: int,
    eight: bool,
    c: (usize, usize),
) -> bool {
    exists|s: (usize, usize)| is_fg(seed, w, h, s) && #[trigger] linked(candidate, w, h, eight, s, c)
}

/// Grows the seed cells that are candidates through neighbouring candidate
/// cells (edge neighbourhood when `connectivity` is 4, full otherwise).
pub fn grow_mask_from_seed(
    candidate: &[bool],
    seed: &[bool],
    width: usize,
    height: usize,
    connectivity: u8,
) -> (grown: Vec<bool>)
    requires
        width * height <= usize::MAX,
        candidate@.len() > 0 && seed@.len() > 0 ==> width * height <= candidate@.len() && width * height <= seed@.len(),
    ensures
        grown@.len() == width * height,
        candidate@.len() == 0 || seed@.len() == 0 ==> forall|i: int| 0 <= i < grown@.len() ==> !grown@[i],
        candidate@.len() > 0 && seed@.len() > 0 ==> forall|c: (usize, usize)|
            #![trigger grown@[cell_index(width as int, c.0 as int, c.1 as int)]]
            in_grid(width as int, height as int, c) ==> (grown@[cell_index(width as int, c.0 as int, c.1 as int)]
                <==> reached_from_seed(candidate@, seed@, width as int, height as int, connectivity != 4, c)),
{
    if candidate.len() == 0 || seed.len() == 0 {
        let r = vec![false; width * height];
        proof {
            assert forall|i: int| 0 <= i < r@.len() implies !r@[i] by {
                assert(cloned(false, r@[i]));
            }
        }
        return r;
    }
    let eight = connectivity != 4;
    let offsets = if connectivity == 4 {
        four_offsets()
    } else {
        eight_offsets_by_row()
    };
    let ghost cm = candidate@;
    let ghost sm = seed@;
    let ghost wi = width as int;
    let ghost hi = height as int;
    let mut grown = vec![false; width * height];
    proof {
        assert forall|i: int| 0 <= i < grown@.len() implies !grown@[i] by {
            assert(cloned(false, grown@[i]));
        }
        assert forall|c: (usize, usize)| in_grid(wi, hi, c) implies !grown@[cell_index(wi, c.0 as int, c.1 as int)] by {
            lemma_index_bounds(wi, hi, c.0 as int, c.1 as int);
        }
    }
    let mut queue: VecDeque<(usize, usize)> = VecDeque::new();
    let mut y: usize = 0;
    while y < height
        invariant
            cm == candidate@,
            sm == seed@,
            wi == width,
            hi == height,
            width * height <= cm.len(),
            width * height <= sm.len(),
            width * height <= usize::MAX,
            grown@.len() == width * height,
            0 <= y <= height,
            queue@.no_duplicates(),
            forall|i: int| #![trigger queue@[i]] 0 <= i < queue@.len() ==> in_grid(wi, hi, queue@[i]) && queue@[i].0 < y,
            forall|c: (usize, usize)|
                #![trigger grown@[cell_index(wi, c.0 as int, c.1 as int)]]
                in_grid(wi, hi, c) ==> {
                    &&& grown@[cell_index(wi, c.0 as int, c.1 as int)] <==> queue@.contains(c)
                    &&& queue@.contains(c) <==> (is_fg(sm, wi, hi, c) && is_fg(cm, wi, hi, c) && c.0 < y)
                },
        decreases height - y,
    {
        let mut x: usize = 0;
        proof {
            assert forall|i: int| #![trigger queue@[i]] 0 <= i < queue@.len() implies in_grid(wi, hi, queue@[i])
                && raster_before(queue@[i], (y, x)) by {
                assert(in_grid(wi, hi, queue@[i]));
                assert(queue@[i].0 < y);
            }
            assert forall|c: (usize, usize)|
                #![trigger grown@[cell_index(wi, c.0 as int, c.1 as int)]]
                in_grid(wi, hi, c) implies {
                    &&& grown@[cell_index(wi, c.0 as int, c.1 as int)] <==> queue@.contains(c)
                    &&& queue@.contains(c) <==> (is_fg(sm, wi, hi, c) && is_fg(cm, wi, hi, c) && raster_before(c, (y, x)))
                } by {
                assert(grown@[cell_index(wi, c.0 as int, c.1 as int)] <==> queue@.contains(c));
            }
        }
        while x < width
            invariant
                cm == candidate@,
                sm == seed@,
                wi == width,
                hi == height,
                width * height <= cm.len(),
                width * height <= sm.len(),
                width * height <= usize::MAX,
                grown@.len() == width * height,
                0 <= y < height,
                0 <= x <= width,
                queue@.no_duplicates(),
                forall|i: int| #![trigger queue@[i]] 0 <= i < queue@.len() ==> in_grid(wi, hi, queue@[i])
                    && raster_before(queue@[i], (y, x)),
                forall|c: (usize, usize)|
                    #![trigger grown@[cell_index(wi, c.0 as int, c.1 as int)]]
                    in_grid(wi, hi, c) ==> {
                        &&& grown@[cell_index(wi, c.0 as int, c.1 as int)] <==> queue@.contains(c)
                        &&& queue@.contains(c) <==> (is_fg(sm, wi, hi, c) && is_fg(cm, wi, hi, c) && raster_before(c, (y, x)))
                    },
            decreases width - x,
        {
            proof {
                lemma_index_bounds(wi, hi, y as int, x as int);
            }
            let idx = y * width + x;
            let ghost g0 = grown@;
            let ghost q_before = queue@;
            if seed[idx] && candidate[idx] {
                grown.set(idx, true);
                queue.push_back((y, x));
                proof {
                    assert(!q_before.contains((y, x))) by {
                        if q_before.contains((y, x)) {
                            let i = choose|i: int| 0 <= i < q_before.len() && q_before[i] == (y, x);
                            assert(in_grid(wi, hi, q_before[i]));
                        }
                    }
                }
            }
            proof {
                assert forall|c: (usize, usize)|
                    #![trigger grown@[cell_index(wi, c.0 as int, c.1 as int)]]
                    in_grid(wi, hi, c) implies {
                        &&& grown@[cell_index(wi, c.0 as int, c.1 as int)] <==> queue@.contains(c)
                        &&& queue@.contains(c) <==> (is_fg(sm, wi, hi, c) && is_fg(cm, wi, hi, c)
                            && raster_before(c, (y, (x + 1) as usize)))
                    } by {
                    lemma_index_bounds(wi, hi, c.0 as int, c.1 as int);
                    if c != (y, x) {
                        lemma_cells_distinct(wi, hi, c, (y, x));
                        assert(grown@[cell_index(wi, c.0 as int, c.1 as int)] == g0[cell_index(wi, c.0 as int, c.1 as int)]);
                        assert(queue@.contains(c) == q_before.contains(c)) by {
                            if queue@.contains(c) {
                                let i = choose|i: int| 0 <= i < queue@.len() && queue@[i] == c;
                                if i < q_before.len() {
                                    assert(q_before[i] == c);
                                }
                            }
                            if q_before.contains(c) {
                                let i = choose|i: int| 0 <= i < q_before.len() && q_before[i] == c;
                                assert(queue@[i] == c);
                            }
                        }
                    } else if queue@.len() > q_before.len() {
                        assert(queue@[q_before.len() as int] == c);
                    }
                }
                assert forall|i: int| #![trigger queue@[i]] 0 <= i < queue@.len() implies in_grid(wi, hi, queue@[i])
                    && raster_before(queue@[i], (y, (x + 1) as usize)) by {
                    if i < q_before.len() {
                        assert(queue@[i] == q_before[i]);
                        assert(in_grid(wi, hi, q_before[i]));
                    }
                }
            }
            x = x + 1;
        }
        let ghost y_old = y;
        y = y + 1;
        proof {
            assert forall|i: int| #![trigger queue@[i]] 0 <= i < queue@.len() implies in_grid(wi, hi, queue@[i])
                && queue@[i].0 < y by {
                assert(in_grid(wi, hi, queue@[i]) && raster_before(queue@[i], (y_old, x)));
            }
            assert forall|c: (usize, usize)|
                #![trigger grown@[cell_index(wi, c.0 as int, c.1 as int)]]
                in_grid(wi, hi, c) implies {
                    &&& grown@[cell_index(wi, c.0 as int, c.1 as int)] <==> queue@.contains(c)
                    &&& queue@.contains(c) <==> (is_fg(sm, wi, hi, c) && is_fg(cm, wi, hi, c) && c.0 < y)
                } by {
                assert(grown@[cell_index(wi, c.0 as int, c.1 as int)] <==> queue@.contains(c));
                assert(queue@.contains(c) <==> (is_fg(sm, wi, hi, c) && is_fg(cm, wi, hi, c) && raster_before(c, (y_old, x))));
                assert(x == width);
            }
        }
    }
    let ghost g0 = grown@;
    let ghost q0 = queue@;
    proof {
        assert forall|i: int|
            0 <= i < queue@.len() implies #[trigger] is_fg(cm, wi, hi, queue@[i])
                && grown@[cell_index(wi, queue@[i].0 as int, queue@[i].1 as int)] by {
            assert(in_grid(wi, hi, queue@[i]));
            assert(queue@.contains(queue@[i]));
            assert(grown@[cell_index(wi, queue@[i].0 as int, queue@[i].1 as int)] <==> queue@.contains(queue@[i]));
        }
        assert forall|a: (usize, usize), b: (usize, usize)|
            #![trigger adjacent(eight, a, b), grown@[cell_index(wi, a.0 as int, a.1 as int)]]
            in_grid(wi, hi, a) && grown@[cell_index(wi, a.0 as int, a.1 as int)] && !queue@.contains(a)
                && is_fg(cm, wi, hi, b) && adjacent(eight, a, b)
                implies grown@[cell_index(wi, b.0 as int, b.1 as int)] by {
        }
    }
    let _pixels = flood(candidate, width, height, eight, &offsets, &mut grown, &mut queue);
    proof {
        assert forall|c: (usize, usize)|
            #![trigger grown@[cell_index(wi, c.0 as int, c.1 as int)]]
            in_grid(wi, hi, c) implies (grown@[cell_index(wi, c.0 as int, c.1 as int)]
                <==> reached_from_seed(cm, sm, wi, hi, eight, c)) by {
            if grown@[cell_index(wi, c.0 as int, c.1 as int)] {
                if g0[cell_index(wi, c.0 as int, c.1 as int)] {
                    assert(q0.contains(c));
                    lemma_linked_self(cm, wi, hi, eight, c);
                    assert(linked(cm, wi, hi, eight, c, c));
                } else {
                    assert(_pixels@.contains(c));
                    let i = choose|i: int| 0 <= i < _pixels@.len() && _pixels@[i] == c;
                    assert(linked_from_any(cm, wi, hi, eight, q0, _pixels@[i]));
                    let j = choose|j: int| 0 <= j < q0.len() && #[trigger] linked(cm, wi, hi, eight, q0[j], _pixels@[i]);
                    assert(in_grid(wi, hi, q0[j]));
                    assert(q0.contains(q0[j]));
                    assert(g0[cell_index(wi, q0[j].0 as int, q0[j].1 as int)] <==> q0.contains(q0[j]));
                    assert(is_fg(sm, wi, hi, q0[j]));
                }
            }
            if reached_from_seed(cm, sm, wi, hi, eight, c) {
                let s = choose|s: (usize, usize)| is_fg(sm, wi, hi, s) && #[trigger] linked(cm, wi, hi, eight, s, c);
                lemma_linked_fg(cm, wi, hi, eight, s, c);
                assert(g0[cell_index(wi, s.0 as int, s.1 as int)] <==> q0.contains(s));
                assert(g0[cell_index(wi, s.0 as int, s.1 as int)]);
                assert(grown@[cell_index(wi, s.0 as int, s.1 as int)]);
                lemma_closed_linked(cm, wi, hi, eight, grown@, s, c);
            }
        }
    }
    grown
}

/// A cell linked to the start of a path is linked to its end.
pub proof fn lemma_linked_along(
    mask: Seq<bool>,
    w: int,
    h: int,
    eight: bool,
    a: (usize, usize),
    q: Seq<(usize, usize)>,
)
    requires
        is_path(mask, w, h, eight, q),
        linked(mask, w, h, eight, a, q[0]),
    ensures
        linked(mask, w, h, eight, a, q[q.len() - 1]),
    decreases q.len(),
{
    if q.len() > 1 {
        let r = q.drop_last();
        assert forall|i: int| 0 <= i < r.len() implies #[trigger] is_fg(mask, w, h, r[i]) by {
            assert(is_fg(mask, w, h, q[i]));
        }
        assert forall|i: int| 0 <= i < r.len() - 1 implies #[trigger] step_ok(eight, r, i) by {
            assert(step_ok(eight, q, i));
        }
        lemma_linked_along(mask, w, h, eight, a, r);
        assert(step_ok(eight, q, q.len() - 2));
        assert(is_fg(mask, w, h, q[q.len() - 1]));
        lemma_linked_extend(mask, w, h, eight, a, q[q.len() - 2], q[q.len() - 1]);
    }
}

/// Growing again from a grown mask gives the same cells: every cell reached
/// from the grown cells is reached from the seed, and every seed-reached
/// cell is grown itself.
pub proof fn law_grow_again_is_stable(
    candidate: Seq<bool>,
    seed: Seq<bool>,
    grown: Seq<bool>,
    w: int,
    h: int,
    eight: bool,
)
    requires
        forall|c: (usize, usize)|
            #![trigger grown[cell_index(w, c.0 as int, c.1 as int)]]
            in_grid(w, h, c) ==> (grown[cell_index(w, c.0 as int, c.1 as int)] <==> reached_from_seed(candidate, seed, w, h, eight, c)),
    ensures
        forall|c: (usize, usize)|
            in_grid(w, h, c) ==> (#[trigger] reached_from_seed(candidate, grown, w, h, eight, c) <==> reached_from_seed(
                candidate,
                seed,
                w,
                h,
                eight,
                c,
            )),
{
    assert forall|c: (usize, usize)|
        in_grid(w, h, c) implies (#[trigger] reached_from_seed(candidate, grown, w, h, eight, c) <==> reached_from_seed(
        candidate,
        seed,
        w,
        h,
        eight,
        c,
    )) by {
        if reached_from_seed(candidate, grown, w, h, eight, c) {
            let s = choose|s: (usize, usize)| is_fg(grown, w, h, s) && #[trigger] linked(candidate, w, h, eight, s, c);
            assert(grown[cell_index(w, s.0 as int, s.1 as int)]);
            assert(reached_from_seed(candidate, seed, w, h, eight, s));
            let s0 = choose|s0: (usize, usize)| is_fg(seed, w, h, s0) && #[trigger] linked(candidate, w, h, eight, s0, s);
            let q = choose|q: Seq<(usize, usize)>|
                #[trigger] is_path(candidate, w, h, eight, q) && q[0] == s && q[q.len() - 1] == c;
            lemma_linked_along(candidate, w, h, eight, s0, q);
            assert(linked(candidate, w, h, eight, s0, c));
        }
        if reached_from_seed(candidate, seed, w, h, eight, c) {
            let s0 = choose|s0: (usize, usize)| is_fg(seed, w, h, s0) && #[trigger] linked(candidate, w, h, eight, s0, c);
            lemma_linked_fg(candidate, w, h, eight, s0, c);
            lemma_linked_self(candidate, w, h, eight, s0);
            assert(reached_from_seed(candidate, seed, w, h, eight, s0));
            assert(grown[cell_index(w, s0.0 as int, s0.1 as int)]);
            assert(is_fg(grown, w, h, s0));
        }
    }
}

} // verus!
