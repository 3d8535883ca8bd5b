//! Pixel grids, neighbourhoods and connectivity.
//!
//! A grid of `w` columns and `h` rows is stored row by row: the cell `(y, x)`
//! lives at index `y * w + x`. Cells are written `(row, column)` throughout.
use vstd::prelude::*;
use std::collections::VecDeque;

verus! {

/// Index of the cell `(y, x)` in a row-major buffer `w` cells wide.
pub open spec fn cell_index(w: int, y: int, x: int) -> int {
    y * w + x
}

/// The cell lies inside the `w` x `h` grid.
pub open spec fn in_grid(w: int, h: int, c: (usize, usize)) -> bool {
    c.0 < h && c.1 < w
}

/// The cell is inside the grid and set in `mask`.
pub open spec fn is_fg(mask: Seq<bool>, w: int, h: int, c: (usize, usize)) -> bool {
    in_grid(w, h, c) && mask[cell_index(w, c.0 as int, c.1 as int)]
}

/// `(dy, dx)` is a step of the neighbourhood: the four edge neighbours, and
/// with `eight` also the four corner neighbours.
pub open spec fn is_step(eight: bool, dy: int, dx: int) -> bool {
    &&& -1 <= dy <= 1
    &&& -1 <= dx <= 1
    &&& !(dy == 0 && dx == 0)
    &&& (eight || dy == 0 || dx == 0)
}

/// `b` is a neighbour of `a`.
pub open spec fn adjacent(eight: bool, a: (usize, usize), b: (usize, usize)) -> bool {
    is_step(eight, b.0 - a.0, b.1 - a.1)
}

/// The `i`-th step of the sequence joins neighbours.
pub open spec fn step_ok(eight: bool, p: Seq<(usize, usize)>, i: int) -> bool {
    adjacent(eight, p[i], p[i + 1])
}

/// A nonempty walk through set cells, each cell a neighbour of the one before.
pub open spec fn is_path(mask: Seq<bool>, w: int, h: int, eight: bool, p: Seq<(usize, usize)>) -> bool {
    &&& p.len() > 0
    &&& forall|i: int| 0 <= i < p.len() ==> #[trigger] is_fg(mask, w, h, p[i])
    &&& forall|i: int| 0 <= i < p.len() - 1 ==> #[trigger] step_ok(eight, p, i)
}

/// `b` can be reached from `a` through set cells.
pub open spec fn linked(
    mask: Seq<bool>,
    w: int,
    h: int,
    eight: bool,
    a: (usize, usize),
    b: (usize, usize),
) -> bool {
    exists|p: Seq<(usize, usize)>|
        #[trigger] is_path(mask, w, h, eight, p) && p[0] == a && p[p.len() - 1] == b
}

/// The connected set of cells that contains `a`.
pub open spec fn component_of(
    mask: Seq<bool>,
    w: int,
    h: int,
    eight: bool,
    a: (usize, usize),
) -> Set<(usize, usize)> {
    Set::new(|b: (usize, usize)| linked(mask, w, h, eight, a, b))
}

/// `b` is reached from one of the cells in `sources`.
pub open spec fn linked_from_any(
    mask: Seq<bool>,
    w: int,
    h: int,
    eight: bool,
    sources: Seq<(usize, usize)>,
    b: (usize, usize),
) -> bool {
    exists|j: int| 0 <= j < sources.len() && #[trigger] linked(mask, w, h, eight, sources[j], b)
}

/// Every marked cell has all its set neighbours marked too.
pub open spec fn closed(mask: Seq<bool>, w: int, h: int, eight: bool, marks: Seq<bool>) -> bool {
    forall|a: (usize, usize), b: (usize, usize)|
        #![trigger adjacent(eight, a, b), marks[cell_index(w, a.0 as int, a.1 as int)]]
        in_grid(w, h, a) && marks[cell_index(w, a.0 as int, a.1 as int)] && is_fg(mask, w, h, b)
            && adjacent(eight, a, b) ==> marks[cell_index(w, b.0 as int, b.1 as int)]
}

/// `a` comes before `b` in row-major order.
pub open spec fn raster_before(a: (usize, usize), b: (usize, usize)) -> bool {
    a.0 < b.0 || (a.0 == b.0 && a.1 < b.1)
}

/// The list `offsets` holds exactly the steps of the neighbourhood.
pub open spec fn offsets_of(eight: bool, offsets: Seq<(i32, i32)>) -> bool {
    &&& forall|k: int| 0 <= k < offsets.len() ==> is_step(eight, #[trigger] offsets[k].0 as int, offsets[k].1 as int)
    &&& forall|dy: int, dx: int| is_step(eight, dy, dx) ==> exists|k: int|
        0 <= k < offsets.len() && #[trigger] offsets[k] == (dy as i32, dx as i32)
}

/// Number of unset entries.
pub open spec fn count_false(s: Seq<bool>) -> nat
    decreases s.len(),
{
    if s.len() == 0 {
        0
    } else {
        count_false(s.drop_last()) + if s.last() { 0nat } else { 1nat }
    }
}

pub proof fn lemma_count_false_update(s: Seq<bool>, i: int)
    requires
        0 <= i < s.len(),
        !s[i],
    ensures
        count_false(s.update(i, true)) + 1 == count_false(s),
    decreases s.len(),
{
    if i == s.len() - 1 {
        assert(s.update(i, true).drop_last() =~= s.drop_last());
    } else {
        assert(s.update(i, true).drop_last() =~= s.drop_last().update(i, true));
        lemma_count_false_update(s.drop_last(), i);
    }
}

pub proof fn lemma_index_bounds(w: int, h: int, y: int, x: int)
    requires
        0 <= y < h,
        0 <= x < w,
    ensures
        0 <= cell_index(w, y, x) < w * h,
        cell_index(w, y, x) + 1 <= w * h,
{
    assert(0 <= y * w + x < w * h) by (nonlinear_arith)
        requires
            0 <= y < h,
            0 <= x < w,
    ;
}

pub proof fn lemma_index_injective(w: int, y1: int, x1: int, y2: int, x2: int)
    requires
        0 <= x1 < w,
        0 <= x2 < w,
        0 <= y1,
        0 <= y2,
        cell_index(w, y1, x1) == cell_index(w, y2, x2),
    ensures
        y1 == y2,
        x1 == x2,
{
    if y1 < y2 {
        assert(y1 * w + x1 < y2 * w + x2) by (nonlinear_arith)
            requires
                y1 < y2,
                0 <= x1 < w,
                0 <= x2,
        ;
    } else if y2 < y1 {
        assert(y2 * w + x2 < y1 * w + x1) by (nonlinear_arith)
            requires
                y2 < y1,
                0 <= x2 < w,
                0 <= x1,
        ;
    }
}

/// Distinct grid cells have distinct indices.
pub proof fn lemma_cells_distinct(w: int, h: int, a: (usize, usize), b: (usize, usize))
    requires
        in_grid(w, h, a),
        in_grid(w, h, b),
        a != b,
    ensures
        cell_index(w, a.0 as int, a.1 as int) != cell_index(w, b.0 as int, b.1 as int),
{
    if cell_index(w, a.0 as int, a.1 as int) == cell_index(w, b.0 as int, b.1 as int) {
        lemma_index_injective(w, a.0 as int, a.1 as int, b.0 as int, b.1 as int);
    }
}

pub proof fn lemma_linked_self(mask: Seq<bool>, w: int, h: int, eight: bool, a: (usize, usize))
    requires
        is_fg(mask, w, h, a),
    ensures
        linked(mask, w, h, eight, a, a),
{
    let p = seq![a];
    assert(is_path(mask, w, h, eight, p));
}

pub proof fn lemma_linked_extend(
    mask: Seq<bool>,
    w: int,
    h: int,
    eight: bool,
    a: (usize, usize),
    b: (usize, usize),
    c: (usize, usize),
)
    requires
        linked(mask, w, h, eight, a, b),
        is_fg(mask, w, h, c),
        adjacent(eight, b, c),
    ensures
        linked(mask, w, h, eight, a, c),
{
    let p = choose|p: Seq<(usize, usize)>|
        #[trigger] is_path(mask, w, h, eight, p) && p[0] == a && p[p.len() - 1] == b;
    let q = p.push(c);
    assert forall|i: int| 0 <= i < q.len() implies #[trigger] is_fg(mask, w, h, q[i]) by {
        if i < p.len() {
            assert(q[i] == p[i]);
        }
    }
    assert forall|i: int| 0 <= i < q.len() - 1 implies #[trigger] step_ok(eight, q, i) by {
        if i < p.len() - 1 {
            assert(step_ok(eight, p, i));
        }
    }
    assert(is_path(mask, w, h, eight, q));
}

pub proof fn lemma_linked_symmetric(
    mask: Seq<bool>,
    w: int,
    h: int,
    eight: bool,
    a: (usize, usize),
    b: (usize, usize),
)
    requires
        linked(mask, w, h, eight, a, b),
    ensures
        linked(mask, w, h, eight, b, a),
{
    let p = choose|p: Seq<(usize, usize)>|
        #[trigger] is_path(mask, w, h, eight, p) && p[0] == a && p[p.len() - 1] == b;
    let n = p.len();
    let q = Seq::new(n, |i: int| p[n - 1 - i]);
    assert forall|i: int| 0 <= i < q.len() implies #[trigger] is_fg(mask, w, h, q[i]) by {
        assert(is_fg(mask, w, h, p[n - 1 - i]));
    }
    assert forall|i: int| 0 <= i < q.len() - 1 implies #[trigger] step_ok(eight, q, i) by {
        assert(step_ok(eight, p, n - 2 - i));
    }
    assert(is_path(mask, w, h, eight, q));
}

/// A path that starts in a closed set of cells stays in it.
pub proof fn lemma_closed_path(
    mask: Seq<bool>,
    w: int,
    h: int,
    eight: bool,
    marks: Seq<bool>,
    p: Seq<(usize, usize)>,
)
    requires
        closed(mask, w, h, eight, marks),
        is_path(mask, w, h, eight, p),
        marks[cell_index(w, p[0].0 as int, p[0].1 as int)],
    ensures
        marks[cell_index(w, p[p.len() - 1].0 as int, p[p.len() - 1].1 as int)],
    decreases p.len(),
{
    if p.len() > 1 {
        let q = p.drop_last();
        assert forall|i: int| 0 <= i < q.len() implies #[trigger] is_fg(mask, w, h, q[i]) by {
            assert(is_fg(mask, w, h, p[i]));
        }
        assert forall|i: int| 0 <= i < q.len() - 1 implies #[trigger] step_ok(eight, q, i) by {
            assert(step_ok(eight, p, i));
        }
        lemma_closed_path(mask, w, h, eight, marks, q);
        assert(step_ok(eight, p, p.len() - 2));
        assert(is_fg(mask, w, h, p[p.len() - 1]));
        assert(is_fg(mask, w, h, p[p.len() - 2]));
    }
}

/// A closed set of cells holds everything linked to a cell in it.
pub proof fn lemma_closed_linked(
    mask: Seq<bool>,
    w: int,
    h: int,
    eight: bool,
    marks: Seq<bool>,
    a: (usize, usize),
    b: (usize, usize),
)
    requires
        closed(mask, w, h, eight, marks),
        linked(mask, w, h, eight, a, b),
        marks[cell_index(w, a.0 as int, a.1 as int)],
    ensures
        marks[cell_index(w, b.0 as int, b.1 as int)],
{
    let p = choose|p: Seq<(usize, usize)>|
        #[trigger] is_path(mask, w, h, eight, p) && p[0] == a && p[p.len() - 1] == b;
    lemma_closed_path(mask, w, h, eight, marks, p);
}

/// Linked cells are set cells of the grid.
pub proof fn lemma_linked_fg(
    mask: Seq<bool>,
    w: int,
    h: int,
    eight: bool,
    a: (usize, usize),
    b: (usize, usize),
)
    requires
        linked(mask, w, h, eight, a, b),
    ensures
        is_fg(mask, w, h, a),
        is_fg(mask, w, h, b),
{
    let p = choose|p: Seq<(usize, usize)>|
        #[trigger] is_path(mask, w, h, eight, p) && p[0] == a && p[p.len() - 1] == b;
    assert(is_fg(mask, w, h, p[0]));
    assert(is_fg(mask, w, h, p[p.len() - 1]));
}

/// The edge neighbourhood, in the order up, down, left, right.
pub fn four_offsets() -> (r: Vec<(i32, i32)>)
    ensures
        offsets_of(false, r@),
{
    let r = vec![(-1i32, 0i32), (1, 0), (0, -1), (0, 1)];
    proof {
        assert forall|dy: int, dx: int| is_step(false, dy, dx) implies exists|k: int|
            0 <= k < r@.len() && #[trigger] r@[k] == (dy as i32, dx as i32) by {
            if dy == -1 {
                assert(r@[0] == (dy as i32, dx as i32));
            } else if dy == 1 {
                assert(r@[1] == (dy as i32, dx as i32));
            } else if dx == -1 {
                assert(r@[2] == (dy as i32, dx as i32));
            } else {
                assert(r@[3] == (dy as i32, dx as i32));
            }
        }
    }
    r
}

/// The full neighbourhood, row by row from the row above.
pub fn eight_offsets_by_row() -> (r: Vec<(i32, i32)>)
    ensures
        offsets_of(true, r@),
{
    let r = vec![(-1i32, -1i32), (-1, 0), (-1, 1), (0, -1), (0, 1), (1, -1), (1, 0), (1, 1)];
    proof {
        assert forall|dy: int, dx: int| is_step(true, dy, dx) implies exists|k: int|
            0 <= k < r@.len() && #[trigger] r@[k] == (dy as i32, dx as i32) by {
            let k = if dy == -1 {
                dx + 1
            } else if dy == 0 {
                if dx == -1 { 3 } else { 4 }
            } else {
                dx + 6
            };
            assert(r@[k] == (dy as i32, dx as i32));
        }
    }
    r
}

/// The full neighbourhood, column by column from the column on the left.
/// The eight steps, column by column: left column top to bottom, then the
/// middle column, then the right column.
pub open spec fn column_steps() -> Seq<(i32, i32)> {
    seq![
        (-1i32, -1i32),
        (0i32, -1i32),
        (1i32, -1i32),
        (-1i32, 0i32),
        (1i32, 0i32),
        (-1i32, 1i32),
        (0i32, 1i32),
        (1i32, 1i32),
    ]
}

pub fn eight_offsets_by_column() -> (r: Vec<(i32, i32)>)
    ensures
        offsets_of(true, r@),
        r@ == column_steps(),
{
    let r = vec![(-1i32, -1i32), (0, -1), (1, -1), (-1, 0), (1, 0), (-1, 1), (0, 1), (1, 1)];
    proof {
        assert forall|dy: int, dx: int| is_step(true, dy, dx) implies exists|k: int|
            0 <= k < r@.len() && #[trigger] r@[k] == (dy as i32, dx as i32) by {
            let k = if dx == -1 {
                dy + 1
            } else if dx == 0 {
                if dy == -1 { 3 } else { 4 }
            } else {
                dy + 6
            };
            assert(r@[k] == (dy as i32, dx as i32));
        }
        assert(r@ =~= column_steps());
    }
    r
}


/// The neighbour of `c` by step `d`, when it lies in the `w` x `h` grid.
pub open spec fn step_to(c: (usize, usize), d: (i32, i32), w: int, h: int) -> Option<(usize, usize)> {
    let ny = c.0 + d.0;
    let nx = c.1 + d.1;
    if 0 <= ny < h && 0 <= nx < w {
        Some((ny as usize, nx as usize))
    } else {
        None
    }
}

/// Visiting the neighbours of `c` by the steps `offsets[k..]`, in order:
/// each set neighbour not marked yet is marked and queued.
pub open spec fn expand(
    mask: Seq<bool>,
    w: int,
    h: int,
    offsets: Seq<(i32, i32)>,
    c: (usize, usize),
    k: int,
    v: Seq<bool>,
    q: Seq<(usize, usize)>,
) -> (Seq<bool>, Seq<(usize, usize)>)
    decreases offsets.len() - k,
{
    if k < 0 || k >= offsets.len() {
        (v, q)
    } else {
        match step_to(c, offsets[k], w, h) {
            Some(n) => {
                let i = cell_index(w, n.0 as int, n.1 as int);
                if mask[i] && !v[i] {
                    expand(mask, w, h, offsets, c, k + 1, v.update(i, true), q.push(n))
                } else {
                    expand(mask, w, h, offsets, c, k + 1, v, q)
                }
            },
            None => expand(mask, w, h, offsets, c, k + 1, v, q),
        }
    }
}

pub proof fn lemma_expand_measure(
    mask: Seq<bool>,
    w: int,
    h: int,
    offsets: Seq<(i32, i32)>,
    c: (usize, usize),
    k: int,
    v: Seq<bool>,
    q: Seq<(usize, usize)>,
)
    requires
        0 <= w,
        0 <= h,
        v.len() == w * h,
    ensures
        expand(mask, w, h, offsets, c, k, v, q).0.len() == v.len(),
        count_false(expand(mask, w, h, offsets, c, k, v, q).0) + expand(mask, w, h, offsets, c, k, v, q).1.len()
            == count_false(v) + q.len(),
    decreases offsets.len() - k,
{
    if 0 <= k < offsets.len() {
        match step_to(c, offsets[k], w, h) {
            Some(n) => {
                let i = cell_index(w, n.0 as int, n.1 as int);
                lemma_index_bounds(w, h, n.0 as int, n.1 as int);
                if mask[i] && !v[i] {
                    lemma_count_false_update(v, i);
                    lemma_expand_measure(mask, w, h, offsets, c, k + 1, v.update(i, true), q.push(n));
                } else {
                    lemma_expand_measure(mask, w, h, offsets, c, k + 1, v, q);
                }
            },
            None => {
                lemma_expand_measure(mask, w, h, offsets, c, k + 1, v, q);
            },
        }
    }
}

/// The breadth-first order of the cells reached from the queue `q` with the
/// marks `v`: the front cell, then, after its neighbours are visited
/// (`expand`), the order of the rest.
pub open spec fn bfs(mask: Seq<bool>, w: int, h: int, offsets: Seq<(i32, i32)>, v: Seq<bool>, q: Seq<(usize, usize)>) -> Seq<(usize, usize)>
    decreases count_false(v) + q.len(),
{
    if q.len() == 0 || w < 0 || h < 0 || v.len() != w * h {
        seq![]
    } else {
        let next = expand(mask, w, h, offsets, q[0], 0, v, q.drop_first());
        proof {
            lemma_expand_measure(mask, w, h, offsets, q[0], 0, v, q.drop_first());
        }
        seq![q[0]] + bfs(mask, w, h, offsets, next.0, next.1)
    }
}

/// The cells held by the pixels found so far and the queue, as one sequence.
pub open spec fn found(pixels: Seq<(usize, usize)>, queue: Seq<(usize, usize)>) -> Seq<(usize, usize)> {
    pixels + queue
}

/// Breadth-first flood over set cells of `mask`, starting from the cells in
/// `queue` (already marked in `visited`). Every set neighbour of a reached cell
/// is marked and reached in turn. Returns the reached cells in the order in
/// which they leave the queue.
#[verifier::rlimit(100)]
#[verifier::spinoff_prover]
pub fn flood(
    mask: &[bool],
    w: usize,
    h: usize,
    eight: bool,
    offsets: &Vec<(i32, i32)>,
    visited: &mut Vec<bool>,
    queue: &mut VecDeque<(usize, usize)>,
) -> (pixels: Vec<(usize, usize)>)
    requires
        w * h <= mask@.len(),
        old(visited)@.len() == w * h,
        offsets_of(eight, offsets@),
        old(queue)@.no_duplicates(),
        forall|i: int|
            0 <= i < old(queue)@.len() ==> #[trigger] is_fg(mask@, w as int, h as int, old(queue)@[i])
                && old(visited)@[cell_index(w as int, old(queue)@[i].0 as int, old(queue)@[i].1 as int)],
        forall|a: (usize, usize), b: (usize, usize)|
            #![trigger adjacent(eight, a, b), old(visited)@[cell_index(w as int, a.0 as int, a.1 as int)]]
            in_grid(w as int, h as int, a) && old(visited)@[cell_index(w as int, a.0 as int, a.1 as int)]
                && !old(queue)@.contains(a) && is_fg(mask@, w as int, h as int, b) && adjacent(eight, a, b)
                ==> old(visited)@[cell_index(w as int, b.0 as int, b.1 as int)],
    ensures
        final(visited)@.len() == w * h,
        final(queue)@.len() == 0,
        pixels@ == bfs(mask@, w as int, h as int, offsets@, old(visited)@, old(queue)@),
        closed(mask@, w as int, h as int, eight, final(visited)@),
        forall|c: (usize, usize)|
            #![trigger final(visited)@[cell_index(w as int, c.0 as int, c.1 as int)]]
            in_grid(w as int, h as int, c) ==> {
                &&& old(visited)@[cell_index(w as int, c.0 as int, c.1 as int)]
                    ==> final(visited)@[cell_index(w as int, c.0 as int, c.1 as int)]
                &&& final(visited)@[cell_index(w as int, c.0 as int, c.1 as int)]
                    && !old(visited)@[cell_index(w as int, c.0 as int, c.1 as int)]
                    ==> is_fg(mask@, w as int, h as int, c)
                &&& pixels@.contains(c) <==> (final(visited)@[cell_index(w as int, c.0 as int, c.1 as int)]
                    && (!old(visited)@[cell_index(w as int, c.0 as int, c.1 as int)] || old(queue)@.contains(c)))
            },
        pixels@.no_duplicates(),
        forall|i: int| 0 <= i < pixels@.len() ==> #[trigger] in_grid(w as int, h as int, pixels@[i]),
        forall|i: int|
            0 <= i < pixels@.len() ==> #[trigger] linked_from_any(mask@, w as int, h as int, eight, old(queue)@, pixels@[i]),
{
    let ghost m = mask@;
    let ghost wi = w as int;
    let ghost hi = h as int;
    let ghost vis0 = visited@;
    let ghost q0 = queue@;
    let mut pixels: Vec<(usize, usize)> = Vec::new();
    let mlen = mask.len();
    proof {
        assert(pixels@ + bfs(m, wi, hi, offsets@, visited@, queue@) =~= bfs(m, wi, hi, offsets@, vis0, q0));
        assert(found(pixels@, queue@) =~= q0);
        assert forall|i: int| 0 <= i < found(pixels@, queue@).len() implies {
            &&& #[trigger] in_grid(wi, hi, found(pixels@, queue@)[i])
            &&& visited@[cell_index(wi, found(pixels@, queue@)[i].0 as int, found(pixels@, queue@)[i].1 as int)]
            &&& linked_from_any(m, wi, hi, eight, q0, found(pixels@, queue@)[i])
        } by {
            assert(is_fg(m, wi, hi, q0[i]));
            lemma_linked_self(m, wi, hi, eight, q0[i]);
            assert(linked(m, wi, hi, eight, q0[i], q0[i]));
        }
        assert forall|c: (usize, usize)| #![trigger visited@[cell_index(wi, c.0 as int, c.1 as int)]]
            in_grid(wi, hi, c) implies (found(pixels@, queue@).contains(c) <==> (visited@[cell_index(wi, c.0 as int, c.1 as int)]
                && (!vis0[cell_index(wi, c.0 as int, c.1 as int)] || q0.contains(c)))) by {
            if q0.contains(c) {
                let i = choose|i: int| 0 <= i < q0.len() && q0[i] == c;
                assert(is_fg(m, wi, hi, q0[i]));
            }
        }
    }
    while queue.len() > 0
        invariant
            w * h <= m.len(),
            w * h <= mlen,
            m == mask@,
            wi == w,
            hi == h,
            visited@.len() == w * h,
            offsets_of(eight, offsets@),
            found(pixels@, queue@).no_duplicates(),
            forall|i: int| 0 <= i < found(pixels@, queue@).len() ==> {
                &&& #[trigger] in_grid(wi, hi, found(pixels@, queue@)[i])
                &&& visited@[cell_index(wi, found(pixels@, queue@)[i].0 as int, found(pixels@, queue@)[i].1 as int)]
                &&& linked_from_any(m, wi, hi, eight, q0, found(pixels@, queue@)[i])
            },
            forall|c: (usize, usize)|
                #![trigger visited@[cell_index(wi, c.0 as int, c.1 as int)]]
                in_grid(wi, hi, c) ==> {
                    &&& vis0[cell_index(wi, c.0 as int, c.1 as int)] ==> visited@[cell_index(wi, c.0 as int, c.1 as int)]
                    &&& visited@[cell_index(wi, c.0 as int, c.1 as int)] && !vis0[cell_index(wi, c.0 as int, c.1 as int)]
                        ==> is_fg(m, wi, hi, c)
                    &&& found(pixels@, queue@).contains(c) <==> (visited@[cell_index(wi, c.0 as int, c.1 as int)]
                        && (!vis0[cell_index(wi, c.0 as int, c.1 as int)] || q0.contains(c)))
                },
            forall|a: (usize, usize), b: (usize, usize)|
                #![trigger adjacent(eight, a, b), visited@[cell_index(wi, a.0 as int, a.1 as int)]]
                in_grid(wi, hi, a) && visited@[cell_index(wi, a.0 as int, a.1 as int)] && !queue@.contains(a)
                    && is_fg(m, wi, hi, b) && adjacent(eight, a, b)
                    ==> visited@[cell_index(wi, b.0 as int, b.1 as int)],
            pixels@ + bfs(m, wi, hi, offsets@, visited@, queue@) == bfs(m, wi, hi, offsets@, vis0, q0),
        decreases count_false(visited@) + queue@.len(),
    {
        let ghost measure = count_false(visited@) + queue@.len();
        let ghost before = found(pixels@, queue@);
        let ghost old_q = queue@;
        let ghost v_pop = visited@;
        let ghost px_before = pixels@;
        let c = queue.pop_front().unwrap();
        let ghost rest = queue@;
        pixels.push(c);
        proof {
            assert(old_q[0] == c);
            assert(old_q.drop_first() =~= rest);
        }
        proof {
            assert(found(pixels@, queue@) =~= before);
            assert(before[pixels@.len() - 1] == c);
            assert(pixels@[pixels@.len() - 1] == c);
            assert(!queue@.contains(c)) by {
                if queue@.contains(c) {
                    let i = choose|i: int| 0 <= i < queue@.len() && queue@[i] == c;
                    assert(before[pixels@.len() + i] == c);
                }
            }
            assert(in_grid(wi, hi, before[pixels@.len() - 1]));
            assert(linked_from_any(m, wi, hi, eight, q0, before[pixels@.len() - 1]));
            assert forall|a: (usize, usize), b: (usize, usize)|
                #![trigger adjacent(eight, a, b), visited@[cell_index(wi, a.0 as int, a.1 as int)]]
                in_grid(wi, hi, a) && visited@[cell_index(wi, a.0 as int, a.1 as int)] && !queue@.contains(a)
                    && a != c && is_fg(m, wi, hi, b) && adjacent(eight, a, b)
                    implies visited@[cell_index(wi, b.0 as int, b.1 as int)] by {
                assert(!old_q.contains(a)) by {
                    if old_q.contains(a) {
                        let i = choose|i: int| 0 <= i < old_q.len() && old_q[i] == a;
                        assert(i != 0);
                        assert(queue@[i - 1] == a);
                    }
                }
            }
        }
        let cy = c.0;
        let cx = c.1;
        let mut k: usize = 0;
        while k < offsets.len()
            invariant
                w * h <= m.len(),
                w * h <= mlen,
                m == mask@,
                wi == w,
                hi == h,
                visited@.len() == w * h,
                offsets_of(eight, offsets@),
                0 <= k <= offsets@.len(),
                in_grid(wi, hi, c),
                c == (cy, cx),
                visited@[cell_index(wi, cy as int, cx as int)],
                pixels@.contains(c),
                !queue@.contains(c),
                linked_from_any(m, wi, hi, eight, q0, c),
                count_false(visited@) + queue@.len() + 1 == measure,
                found(pixels@, queue@).no_duplicates(),
                forall|i: int| 0 <= i < found(pixels@, queue@).len() ==> {
                    &&& #[trigger] in_grid(wi, hi, found(pixels@, queue@)[i])
                    &&& visited@[cell_index(wi, found(pixels@, queue@)[i].0 as int, found(pixels@, queue@)[i].1 as int)]
                    &&& linked_from_any(m, wi, hi, eight, q0, found(pixels@, queue@)[i])
                },
                forall|c2: (usize, usize)|
                    #![trigger visited@[cell_index(wi, c2.0 as int, c2.1 as int)]]
                    in_grid(wi, hi, c2) ==> {
                        &&& vis0[cell_index(wi, c2.0 as int, c2.1 as int)] ==> visited@[cell_index(wi, c2.0 as int, c2.1 as int)]
                        &&& visited@[cell_index(wi, c2.0 as int, c2.1 as int)] && !vis0[cell_index(wi, c2.0 as int, c2.1 as int)]
                            ==> is_fg(m, wi, hi, c2)
                        &&& found(pixels@, queue@).contains(c2) <==> (visited@[cell_index(wi, c2.0 as int, c2.1 as int)]
                            && (!vis0[cell_index(wi, c2.0 as int, c2.1 as int)] || q0.contains(c2)))
                    },
                forall|a: (usize, usize), b: (usize, usize)|
                    #![trigger adjacent(eight, a, b), visited@[cell_index(wi, a.0 as int, a.1 as int)]]
                    in_grid(wi, hi, a) && visited@[cell_index(wi, a.0 as int, a.1 as int)] && !queue@.contains(a)
                        && a != c && is_fg(m, wi, hi, b) && adjacent(eight, a, b)
                        ==> visited@[cell_index(wi, b.0 as int, b.1 as int)],
                forall|k2: int, b: (usize, usize)|
                    #![trigger offsets@[k2], is_fg(m, wi, hi, b)]
                    0 <= k2 < k && is_fg(m, wi, hi, b) && b.0 - cy == offsets@[k2].0 as int
                        && b.1 - cx == offsets@[k2].1 as int
                        ==> visited@[cell_index(wi, b.0 as int, b.1 as int)],
                expand(m, wi, hi, offsets@, c, 0, v_pop, rest) == expand(m, wi, hi, offsets@, c, k as int, visited@, queue@),
            decreases offsets@.len() - k,
        {
            let d = offsets[k];
            let dy = d.0;
            let dx = d.1;
            let ghost v_k = visited@;
            let ghost q_k = queue@;
            proof {
                assert(is_step(eight, offsets@[k as int].0 as int, offsets@[k as int].1 as int));
            }
            let y_ok = !(dy < 0 && cy == 0) && !(dy > 0 && cy + 1 >= h);
            let x_ok = !(dx < 0 && cx == 0) && !(dx > 0 && cx + 1 >= w);
            if y_ok && x_ok {
                let ny: usize = if dy < 0 { cy - 1 } else if dy > 0 { cy + 1 } else { cy };
                let nx: usize = if dx < 0 { cx - 1 } else if dx > 0 { cx + 1 } else { cx };
                let ghost n = (ny, nx);
                proof {
                    lemma_index_bounds(wi, hi, ny as int, nx as int);
                    assert(ny as int == cy as int + dy as int);
                    assert(nx as int == cx as int + dx as int);
                    assert(step_to(c, offsets@[k as int], wi, hi) == Some(n));
                }
                let nidx = ny * w + nx;
                if mask[nidx] && !visited[nidx] {
                    let ghost vis_before = visited@;
                    let ghost found_before = found(pixels@, queue@);
                    let ghost q_before = queue@;
                    proof {
                        lemma_count_false_update(visited@, nidx as int);
                        assert(adjacent(eight, c, n));
                        let j = choose|j: int| 0 <= j < q0.len() && #[trigger] linked(m, wi, hi, eight, q0[j], c);
                        lemma_linked_extend(m, wi, hi, eight, q0[j], c, n);
                        assert(linked_from_any(m, wi, hi, eight, q0, n));
                        assert(!found_before.contains(n)) by {
                            if found_before.contains(n) {
                                let i = choose|i: int| 0 <= i < found_before.len() && found_before[i] == n;
                                assert(in_grid(wi, hi, found_before[i]));
                            }
                        }
                    }
                    visited.set(nidx, true);
                    queue.push_back((ny, nx));
                    proof {
                        assert(visited@ == vis_before.update(nidx as int, true));
                        assert(nidx as int == cell_index(wi, n.0 as int, n.1 as int));
                        assert(in_grid(wi, hi, n));
                        assert(found(pixels@, queue@) =~= found_before.push(n));
                        assert forall|c2: (usize, usize)| in_grid(wi, hi, c2) && c2 != n implies
                            visited@[cell_index(wi, c2.0 as int, c2.1 as int)]
                                == vis_before[cell_index(wi, c2.0 as int, c2.1 as int)] by {
                            lemma_cells_distinct(wi, hi, c2, n);
                            lemma_index_bounds(wi, hi, c2.0 as int, c2.1 as int);
                        }
                        assert forall|i: int| 0 <= i < found(pixels@, queue@).len() implies {
                            &&& #[trigger] in_grid(wi, hi, found(pixels@, queue@)[i])
                            &&& visited@[cell_index(wi, found(pixels@, queue@)[i].0 as int, found(pixels@, queue@)[i].1 as int)]
                            &&& linked_from_any(m, wi, hi, eight, q0, found(pixels@, queue@)[i])
                        } by {
                            if i < found_before.len() {
                                assert(found(pixels@, queue@)[i] == found_before[i]);
                                if found_before[i] != n {
                                    assert(in_grid(wi, hi, found_before[i]));
                                    lemma_cells_distinct(wi, hi, found_before[i], n);
                                    lemma_index_bounds(wi, hi, found_before[i].0 as int, found_before[i].1 as int);
                                    assert(visited@[cell_index(wi, found_before[i].0 as int, found_before[i].1 as int)]
                                        == vis_before[cell_index(wi, found_before[i].0 as int, found_before[i].1 as int)]);
                                }
                            }
                        }
                        assert forall|c2: (usize, usize)| #![trigger visited@[cell_index(wi, c2.0 as int, c2.1 as int)]]
                            in_grid(wi, hi, c2) implies {
                                &&& vis0[cell_index(wi, c2.0 as int, c2.1 as int)] ==> visited@[cell_index(wi, c2.0 as int, c2.1 as int)]
                                &&& visited@[cell_index(wi, c2.0 as int, c2.1 as int)] && !vis0[cell_index(wi, c2.0 as int, c2.1 as int)]
                                    ==> is_fg(m, wi, hi, c2)
                                &&& found(pixels@, queue@).contains(c2) <==> (visited@[cell_index(wi, c2.0 as int, c2.1 as int)]
                                    && (!vis0[cell_index(wi, c2.0 as int, c2.1 as int)] || q0.contains(c2)))
                            } by {
                            if c2 != n {
                                assert(visited@[cell_index(wi, c2.0 as int, c2.1 as int)]
                                    == vis_before[cell_index(wi, c2.0 as int, c2.1 as int)]);
                                assert(found(pixels@, queue@).contains(c2) == found_before.contains(c2)) by {
                                    if found(pixels@, queue@).contains(c2) {
                                        let i = choose|i: int| 0 <= i < found(pixels@, queue@).len() && found(pixels@, queue@)[i] == c2;
                                        assert(found_before[i] == c2);
                                    }
                                    if found_before.contains(c2) {
                                        let i = choose|i: int| 0 <= i < found_before.len() && found_before[i] == c2;
                                        assert(found(pixels@, queue@)[i] == c2);
                                    }
                                }
                            } else {
                                assert(found(pixels@, queue@)[found_before.len() as int] == n);
                            }
                        }
                        assert forall|a: (usize, usize), b: (usize, usize)|
                            #![trigger adjacent(eight, a, b), visited@[cell_index(wi, a.0 as int, a.1 as int)]]
                            in_grid(wi, hi, a) && visited@[cell_index(wi, a.0 as int, a.1 as int)] && !queue@.contains(a)
                                && a != c && is_fg(m, wi, hi, b) && adjacent(eight, a, b)
                                implies visited@[cell_index(wi, b.0 as int, b.1 as int)] by {
                            assert(a != n) by {
                                assert(queue@[queue@.len() - 1] == n);
                            }
                            lemma_cells_distinct(wi, hi, a, n);
                            lemma_index_bounds(wi, hi, a.0 as int, a.1 as int);
                            assert(vis_before[cell_index(wi, a.0 as int, a.1 as int)]);
                            assert(!q_before.contains(a)) by {
                                if q_before.contains(a) {
                                    let i = choose|i: int| 0 <= i < q_before.len() && q_before[i] == a;
                                    assert(queue@[i] == a);
                                }
                            }
                            assert(vis_before[cell_index(wi, b.0 as int, b.1 as int)]);
                            if b != n {
                                lemma_cells_distinct(wi, hi, b, n);
                                lemma_index_bounds(wi, hi, b.0 as int, b.1 as int);
                            }
                        }
                        assert(!queue@.contains(c)) by {
                            assert(found(pixels@, queue@).no_duplicates());
                            if queue@.contains(c) {
                                let i = choose|i: int| 0 <= i < queue@.len() && queue@[i] == c;
                                let j = choose|j: int| 0 <= j < pixels@.len() && pixels@[j] == c;
                                assert(found(pixels@, queue@)[pixels@.len() + i] == c);
                                assert(found(pixels@, queue@)[j] == c);
                            }
                        }
                    }
                }
            }
            proof {
                if !(y_ok && x_ok) {
                    assert(step_to(c, offsets@[k as int], wi, hi) is None);
                }
                assert(expand(m, wi, hi, offsets@, c, k as int, v_k, q_k) == expand(
                    m,
                    wi,
                    hi,
                    offsets@,
                    c,
                    k + 1,
                    visited@,
                    queue@,
                ));
                assert forall|k2: int, b: (usize, usize)|
                    #![trigger offsets@[k2], is_fg(m, wi, hi, b)]
                    0 <= k2 < k + 1 && is_fg(m, wi, hi, b) && b.0 - cy == offsets@[k2].0 as int
                        && b.1 - cx == offsets@[k2].1 as int
                        implies visited@[cell_index(wi, b.0 as int, b.1 as int)] by {
                    if k2 == k {
                        assert(b.0 == cy as int + dy as int);
                        assert(b.1 == cx as int + dx as int);
                    }
                }
            }
            k = k + 1;
        }
        proof {
            assert(expand(m, wi, hi, offsets@, c, k as int, visited@, queue@) == (visited@, queue@));
            assert(v_pop.len() == wi * hi);
            assert(bfs(m, wi, hi, offsets@, v_pop, old_q) == seq![c] + bfs(m, wi, hi, offsets@, visited@, queue@));
            assert(pixels@ == px_before.push(c));
            assert(pixels@ + bfs(m, wi, hi, offsets@, visited@, queue@) =~= px_before + bfs(m, wi, hi, offsets@, v_pop, old_q));
            assert forall|a: (usize, usize), b: (usize, usize)|
                #![trigger adjacent(eight, a, b), visited@[cell_index(wi, a.0 as int, a.1 as int)]]
                in_grid(wi, hi, a) && visited@[cell_index(wi, a.0 as int, a.1 as int)] && !queue@.contains(a)
                    && is_fg(m, wi, hi, b) && adjacent(eight, a, b)
                    implies visited@[cell_index(wi, b.0 as int, b.1 as int)] by {
                if a == c {
                    let dy = b.0 - a.0;
                    let dx = b.1 - a.1;
                    assert(is_step(eight, dy, dx));
                    let k2 = choose|k2: int| 0 <= k2 < offsets@.len() && #[trigger] offsets@[k2] == (dy as i32, dx as i32);
                    assert(offsets@[k2].0 as int == dy);
                }
            }
        }
    }
    proof {
        assert(found(pixels@, queue@) =~= pixels@);
        assert(bfs(m, wi, hi, offsets@, visited@, queue@) =~= Seq::<(usize, usize)>::empty());
        assert(pixels@ + bfs(m, wi, hi, offsets@, visited@, queue@) =~= pixels@);
        assert forall|a: (usize, usize), b: (usize, usize)|
            #![trigger adjacent(eight, a, b), visited@[cell_index(wi, a.0 as int, a.1 as int)]]
            in_grid(wi, hi, a) && visited@[cell_index(wi, a.0 as int, a.1 as int)] && is_fg(m, wi, hi, b)
                && adjacent(eight, a, b) implies visited@[cell_index(wi, b.0 as int, b.1 as int)] by {
            assert(!queue@.contains(a));
        }
        assert forall|i: int| 0 <= i < pixels@.len() implies #[trigger] in_grid(wi, hi, pixels@[i]) by {
            assert(found(pixels@, queue@)[i] == pixels@[i]);
        }
        assert forall|i: int| 0 <= i < pixels@.len() implies #[trigger] linked_from_any(m, wi, hi, eight, q0, pixels@[i]) by {
            assert(found(pixels@, queue@)[i] == pixels@[i]);
            assert(in_grid(wi, hi, found(pixels@, queue@)[i]));
        }
    }
    pixels
}

/// Marks with only the cell `s` set.
pub open spec fn fresh_marks(w: int, h: int, s: (usize, usize)) -> Seq<bool> {
    Seq::new((w * h) as nat, |i: int| i == cell_index(w, s.0 as int, s.1 as int))
}

/// Two sets of marks agree on the cells of `region`.
pub open spec fn agree_on(w: int, h: int, v1: Seq<bool>, v2: Seq<bool>, region: Set<(usize, usize)>) -> bool {
    forall|x: (usize, usize)|
        #![trigger region.contains(x)]
        in_grid(w, h, x) && region.contains(x) ==> v1[cell_index(w, x.0 as int, x.1 as int)] == v2[cell_index(
            w,
            x.0 as int,
            x.1 as int,
        )]
}

/// Every set cell next to a cell of `region` is in `region`.
pub open spec fn closed_region(mask: Seq<bool>, w: int, h: int, eight: bool, region: Set<(usize, usize)>) -> bool {
    forall|a: (usize, usize), b: (usize, usize)|
        #![trigger region.contains(a), region.contains(b)]
        region.contains(a) && is_fg(mask, w, h, b) && adjacent(eight, a, b) ==> region.contains(b)
}

/// A connected component holds every set neighbour of its cells.
pub proof fn lemma_component_closed(mask: Seq<bool>, w: int, h: int, eight: bool, s: (usize, usize))
    ensures
        closed_region(mask, w, h, eight, component_of(mask, w, h, eight, s)),
{
    let comp = component_of(mask, w, h, eight, s);
    assert forall|a: (usize, usize), b: (usize, usize)|
        #![trigger comp.contains(a), comp.contains(b)]
        comp.contains(a) && is_fg(mask, w, h, b) && adjacent(eight, a, b) implies comp.contains(b) by {
        lemma_linked_extend(mask, w, h, eight, s, a, b);
    }
}

proof fn lemma_expand_agree(
    mask: Seq<bool>,
    w: int,
    h: int,
    eight: bool,
    offsets: Seq<(i32, i32)>,
    c: (usize, usize),
    k: int,
    v1: Seq<bool>,
    v2: Seq<bool>,
    q: Seq<(usize, usize)>,
    region: Set<(usize, usize)>,
)
    requires
        0 <= w <= usize::MAX,
        0 <= h <= usize::MAX,
        w * h <= mask.len(),
        v1.len() == w * h,
        v2.len() == w * h,
        offsets_of(eight, offsets),
        region.contains(c),
        in_grid(w, h, c),
        closed_region(mask, w, h, eight, region),
        agree_on(w, h, v1, v2, region),
        forall|i: int| 0 <= i < q.len() ==> region.contains(#[trigger] q[i]),
    ensures
        expand(mask, w, h, offsets, c, k, v1, q).1 == expand(mask, w, h, offsets, c, k, v2, q).1,
        agree_on(w, h, expand(mask, w, h, offsets, c, k, v1, q).0, expand(mask, w, h, offsets, c, k, v2, q).0, region),
        expand(mask, w, h, offsets, c, k, v1, q).0.len() == w * h,
        expand(mask, w, h, offsets, c, k, v2, q).0.len() == w * h,
        forall|i: int|
            0 <= i < expand(mask, w, h, offsets, c, k, v1, q).1.len() ==> region.contains(
                #[trigger] expand(mask, w, h, offsets, c, k, v1, q).1[i],
            ),
    decreases offsets.len() - k,
{
    if 0 <= k < offsets.len() {
        match step_to(c, offsets[k], w, h) {
            Some(n) => {
                let ny = c.0 + offsets[k].0;
                let nx = c.1 + offsets[k].1;
                assert(0 <= ny < h && 0 <= nx < w);
                assert(n == (ny as usize, nx as usize));
                let i = cell_index(w, n.0 as int, n.1 as int);
                lemma_index_bounds(w, h, n.0 as int, n.1 as int);
                if mask[i] {
                    assert(is_step(eight, offsets[k].0 as int, offsets[k].1 as int));
                    assert(n.0 as int == ny);
                    assert(n.1 as int == nx);
                    assert(adjacent(eight, c, n));
                    assert(is_fg(mask, w, h, n));
                    assert(region.contains(n));
                    assert(v1[i] == v2[i]);
                }
                if mask[i] && !v1[i] {
                    let u1 = v1.update(i, true);
                    let u2 = v2.update(i, true);
                    assert forall|x: (usize, usize)| #![trigger region.contains(x)] in_grid(w, h, x) && region.contains(x)
                        implies u1[cell_index(w, x.0 as int, x.1 as int)] == u2[cell_index(w, x.0 as int, x.1 as int)] by {
                        lemma_index_bounds(w, h, x.0 as int, x.1 as int);
                    }
                    assert forall|j: int| 0 <= j < q.push(n).len() implies region.contains(#[trigger] q.push(n)[j]) by {
                        if j < q.len() {
                            assert(q.push(n)[j] == q[j]);
                        }
                    }
                    lemma_expand_agree(mask, w, h, eight, offsets, c, k + 1, u1, u2, q.push(n), region);
                } else {
                    lemma_expand_agree(mask, w, h, eight, offsets, c, k + 1, v1, v2, q, region);
                }
            },
            None => {
                lemma_expand_agree(mask, w, h, eight, offsets, c, k + 1, v1, v2, q, region);
            },
        }
    }
}

/// The breadth-first order from cells of a closed region depends on the
/// marks only through those on the region.
pub proof fn lemma_bfs_agree(
    mask: Seq<bool>,
    w: int,
    h: int,
    eight: bool,
    offsets: Seq<(i32, i32)>,
    v1: Seq<bool>,
    v2: Seq<bool>,
    q: Seq<(usize, usize)>,
    region: Set<(usize, usize)>,
)
    requires
        0 <= w <= usize::MAX,
        0 <= h <= usize::MAX,
        w * h <= mask.len(),
        v1.len() == w * h,
        v2.len() == w * h,
        offsets_of(eight, offsets),
        closed_region(mask, w, h, eight, region),
        agree_on(w, h, v1, v2, region),
        forall|i: int| 0 <= i < q.len() ==> region.contains(#[trigger] q[i]) && in_grid(w, h, q[i]),
    ensures
        bfs(mask, w, h, offsets, v1, q) == bfs(mask, w, h, offsets, v2, q),
    decreases count_false(v1) + q.len(),
{
    if q.len() > 0 {
        assert(region.contains(q[0]) && in_grid(w, h, q[0]));
        let r = q.drop_first();
        assert forall|i: int| 0 <= i < r.len() implies region.contains(#[trigger] r[i]) by {
            assert(r[i] == q[i + 1]);
        }
        lemma_expand_agree(mask, w, h, eight, offsets, q[0], 0, v1, v2, r, region);
        lemma_expand_measure(mask, w, h, offsets, q[0], 0, v1, r);
        let n1 = expand(mask, w, h, offsets, q[0], 0, v1, r);
        let n2 = expand(mask, w, h, offsets, q[0], 0, v2, r);
        assert forall|i: int| 0 <= i < n1.1.len() implies region.contains(#[trigger] n1.1[i]) && in_grid(w, h, n1.1[i]) by {
            lemma_expand_in_grid(mask, w, h, offsets, q[0], 0, v1, r);
            if i >= r.len() {
            } else {
                assert(in_grid(w, h, q[i + 1]));
            }
        }
        lemma_bfs_agree(mask, w, h, eight, offsets, n1.0, n2.0, n1.1, region);
    }
}

proof fn lemma_expand_in_grid(
    mask: Seq<bool>,
    w: int,
    h: int,
    offsets: Seq<(i32, i32)>,
    c: (usize, usize),
    k: int,
    v: Seq<bool>,
    q: Seq<(usize, usize)>,
)
    ensures
        expand(mask, w, h, offsets, c, k, v, q).1.len() >= q.len(),
        forall|i: int| 0 <= i < q.len() ==> #[trigger] expand(mask, w, h, offsets, c, k, v, q).1[i] == q[i],
        forall|i: int|
            q.len() <= i < expand(mask, w, h, offsets, c, k, v, q).1.len() ==> in_grid(
                w,
                h,
                #[trigger] expand(mask, w, h, offsets, c, k, v, q).1[i],
            ),
    decreases offsets.len() - k,
{
    if 0 <= k < offsets.len() {
        match step_to(c, offsets[k], w, h) {
            Some(n) => {
                let i = cell_index(w, n.0 as int, n.1 as int);
                if mask[i] && !v[i] {
                    lemma_expand_in_grid(mask, w, h, offsets, c, k + 1, v.update(i, true), q.push(n));
                    let out = expand(mask, w, h, offsets, c, k + 1, v.update(i, true), q.push(n)).1;
                    assert forall|j: int| 0 <= j < q.len() implies #[trigger] out[j] == q[j] by {
                        assert(out[j] == q.push(n)[j]);
                    }
                    assert forall|j: int| q.len() <= j < out.len() implies in_grid(w, h, #[trigger] out[j]) by {
                        if j == q.len() {
                            assert(out[j] == q.push(n)[j]);
                        }
                    }
                } else {
                    lemma_expand_in_grid(mask, w, h, offsets, c, k + 1, v, q);
                }
            },
            None => {
                lemma_expand_in_grid(mask, w, h, offsets, c, k + 1, v, q);
            },
        }
    }
}

/// Two masks that agree on a region closed in the first, where the second
/// sets no cell that the first leaves unset.
pub open spec fn masks_agree_on(m0: Seq<bool>, m1: Seq<bool>, w: int, h: int, eight: bool, region: Set<(usize, usize)>) -> bool {
    &&& closed_region(m0, w, h, eight, region)
    &&& forall|x: (usize, usize)| #![trigger region.contains(x)] in_grid(w, h, x) && region.contains(x)
        ==> m0[cell_index(w, x.0 as int, x.1 as int)] == m1[cell_index(w, x.0 as int, x.1 as int)]
    &&& forall|x: (usize, usize)| #[trigger] is_fg(m1, w, h, x) ==> is_fg(m0, w, h, x)
}

proof fn lemma_expand_masks(
    m0: Seq<bool>,
    m1: Seq<bool>,
    w: int,
    h: int,
    eight: bool,
    offsets: Seq<(i32, i32)>,
    c: (usize, usize),
    k: int,
    v: Seq<bool>,
    q: Seq<(usize, usize)>,
    region: Set<(usize, usize)>,
)
    requires
        0 <= w <= usize::MAX,
        0 <= h <= usize::MAX,
        w * h <= m0.len(),
        w * h <= m1.len(),
        v.len() == w * h,
        offsets_of(eight, offsets),
        region.contains(c),
        in_grid(w, h, c),
        masks_agree_on(m0, m1, w, h, eight, region),
    ensures
        expand(m0, w, h, offsets, c, k, v, q) == expand(m1, w, h, offsets, c, k, v, q),
    decreases offsets.len() - k,
{
    if 0 <= k < offsets.len() {
        match step_to(c, offsets[k], w, h) {
            Some(n) => {
                let ny = c.0 + offsets[k].0;
                let nx = c.1 + offsets[k].1;
                assert(0 <= ny < h && 0 <= nx < w);
                assert(n == (ny as usize, nx as usize));
                let i = cell_index(w, n.0 as int, n.1 as int);
                lemma_index_bounds(w, h, n.0 as int, n.1 as int);
                assert(is_step(eight, offsets[k].0 as int, offsets[k].1 as int));
                assert(adjacent(eight, c, n));
                if m0[i] {
                    assert(is_fg(m0, w, h, n));
                    assert(region.contains(n));
                } else if m1[i] {
                    assert(is_fg(m1, w, h, n));
                }
                assert(m0[i] == m1[i]);
                if m0[i] && !v[i] {
                    lemma_expand_masks(m0, m1, w, h, eight, offsets, c, k + 1, v.update(i, true), q.push(n), region);
                } else {
                    lemma_expand_masks(m0, m1, w, h, eight, offsets, c, k + 1, v, q, region);
                }
            },
            None => {
                lemma_expand_masks(m0, m1, w, h, eight, offsets, c, k + 1, v, q, region);
            },
        }
    }
}

/// The breadth-first order from cells of a region depends on the mask only
/// through the region, when the region is closed in the mask and the other
/// mask sets no new cell.
pub proof fn lemma_bfs_masks(
    m0: Seq<bool>,
    m1: Seq<bool>,
    w: int,
    h: int,
    eight: bool,
    offsets: Seq<(i32, i32)>,
    v: Seq<bool>,
    q: Seq<(usize, usize)>,
    region: Set<(usize, usize)>,
)
    requires
        0 <= w <= usize::MAX,
        0 <= h <= usize::MAX,
        w * h <= m0.len(),
        w * h <= m1.len(),
        v.len() == w * h,
        offsets_of(eight, offsets),
        masks_agree_on(m0, m1, w, h, eight, region),
        forall|i: int| 0 <= i < q.len() ==> region.contains(#[trigger] q[i]) && in_grid(w, h, q[i]),
    ensures
        bfs(m0, w, h, offsets, v, q) == bfs(m1, w, h, offsets, v, q),
    decreases count_false(v) + q.len(),
{
    if q.len() > 0 {
        assert(region.contains(q[0]) && in_grid(w, h, q[0]));
        let r = q.drop_first();
        assert forall|i: int| 0 <= i < r.len() implies region.contains(#[trigger] r[i]) by {
            assert(r[i] == q[i + 1]);
        }
        lemma_expand_masks(m0, m1, w, h, eight, offsets, q[0], 0, v, r, region);
        lemma_expand_agree(m0, w, h, eight, offsets, q[0], 0, v, v, r, region);
        lemma_expand_measure(m0, w, h, offsets, q[0], 0, v, r);
        let n = expand(m0, w, h, offsets, q[0], 0, v, r);
        assert forall|i: int| 0 <= i < n.1.len() implies region.contains(#[trigger] n.1[i]) && in_grid(w, h, n.1[i]) by {
            lemma_expand_in_grid(m0, w, h, offsets, q[0], 0, v, r);
            if i < r.len() {
                assert(in_grid(w, h, q[i + 1]));
            }
        }
        lemma_bfs_masks(m0, m1, w, h, eight, offsets, n.0, n.1, region);
    }
}

} // verus!
