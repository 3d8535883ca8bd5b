//! Assigning layout families to the pages of a deck, so that a family does
//! not repeat too often in a row and the deck uses enough families.
use vstd::prelude::*;
use std::collections::HashMap;
use crate::style_guide::{StyleGuide, VariationPolicy};
use crate::text::{owned, push_string, str_eq, views};

verus! {

broadcast use vstd::std_specs::hash::group_hash_axioms;

/// A page-to-family map, with the families as character sequences.
pub open spec fn vmap(m: Map<u32, String>) -> Map<u32, Seq<char>> {
    m.map_values(|s: String| s@)
}

pub open spec fn opt_view(o: Option<String>) -> Option<Seq<char>> {
    match o {
        Some(s) => Some(s@),
        None => None,
    }
}

/// Occurrences of `f` in `used`.
pub open spec fn count_in(used: Seq<Seq<char>>, f: Seq<char>) -> nat
    decreases used.len(),
{
    if used.len() == 0 {
        0
    } else {
        count_in(used.drop_last(), f) + if used.last() == f { 1nat } else { 0nat }
    }
}

/// Scanning `families` from `i` with `best` so far: the first family,
/// other than `exclude`, among those used least often.
pub open spec fn least_used_from(
    families: Seq<Seq<char>>,
    exclude: Option<Seq<char>>,
    used: Seq<Seq<char>>,
    i: int,
    best: Option<Seq<char>>,
) -> Option<Seq<char>>
    decreases families.len() - i,
{
    if i < 0 || i >= families.len() {
        best
    } else {
        let f = families[i];
        let best2 = if exclude == Some(f) {
            best
        } else {
            match best {
                None => Some(f),
                Some(b) => if count_in(used, f) < count_in(used, b) {
                    Some(f)
                } else {
                    best
                },
            }
        };
        least_used_from(families, exclude, used, i + 1, best2)
    }
}

/// The first family other than `exclude` among the least used ones.
pub open spec fn spec_select_different(
    families: Seq<Seq<char>>,
    exclude: Option<Seq<char>>,
    used: Seq<Seq<char>>,
) -> Option<Seq<char>> {
    least_used_from(families, exclude, used, 0, None)
}

pub const FALLBACK_FAMILY: &'static str = "grid_n_x_m";

/// How many distinct families a deck of `n` pages must cover: as many as the
/// policy asks, but no more than there are families or pages.
pub open spec fn variety_target(families: Seq<Seq<char>>, policy: VariationPolicy, n: int) -> int {
    min_int(min_int(policy.min_distinct_layout_families as int, distinct_count(families) as int), n)
}

/// Giving the last page family `f`, after pages using `used` whose last one
/// is `last` and ends a run of `consecutive` pages, would break the policy:
/// the run would grow past the repeat limit, or the deck would cover fewer
/// families than it must.
pub open spec fn breaks_policy(
    families: Seq<Seq<char>>,
    policy: VariationPolicy,
    n: int,
    f: Seq<char>,
    last: Option<Seq<char>>,
    used: Seq<Seq<char>>,
    consecutive: int,
) -> bool {
    ||| (last == Some(f) && consecutive + 1 > policy.same_layout_max_repeat)
    ||| (used.to_set().len() < variety_target(families, policy, n) && used.contains(f))
}

/// The first family, or `grid_n_x_m` when there is none.
pub open spec fn default_family(families: Seq<Seq<char>>) -> Seq<char> {
    if families.len() > 0 {
        families[0]
    } else {
        FALLBACK_FAMILY@
    }
}

/// The family for a new page with `remaining` pages left (itself
/// included): after a previous page and with more than one page left, a
/// different, least used one, when there is one; otherwise the first family
/// (or `grid_n_x_m`), unless on the last page that would break the policy
/// and a different family is at hand.
pub open spec fn spec_select_family(
    families: Seq<Seq<char>>,
    policy: VariationPolicy,
    n: int,
    remaining: int,
    last: Option<Seq<char>>,
    used: Seq<Seq<char>>,
    consecutive: int,
) -> Seq<char> {
    let diff = spec_select_different(families, last, used);
    if last is Some && diff is Some && (remaining > 1 || breaks_policy(
        families,
        policy,
        n,
        default_family(families),
        last,
        used,
        consecutive,
    )) {
        diff->0
    } else {
        default_family(families)
    }
}

/// The state of an assignment pass.
pub struct AssignState {
    pub map: Map<u32, Seq<char>>,
    pub used: Seq<Seq<char>>,
    pub consecutive: int,
    pub last: Option<Seq<char>>,
}

/// One page of the assignment pass. A page that already has a family keeps
/// it, unless that makes the run of one family longer than the policy
/// allows; then a different family replaces it when there is one. A page
/// without a family gets `spec_select_family`.
pub open spec fn page_step(
    families: Seq<Seq<char>>,
    policy: VariationPolicy,
    n: int,
    p: int,
    st: AssignState,
) -> AssignState {
    let page = p as u32;
    if st.map.dom().contains(page) {
        let existing = st.map[page];
        if st.last == Some(existing) {
            let c = st.consecutive + 1;
            if c > policy.same_layout_max_repeat {
                match spec_select_different(families, st.last, st.used) {
                    Some(nf) => AssignState {
                        map: st.map.insert(page, nf),
                        used: st.used.push(nf),
                        consecutive: 1,
                        last: Some(nf),
                    },
                    None => AssignState { consecutive: c, ..st },
                }
            } else {
                AssignState { used: st.used.push(existing), consecutive: c, last: Some(existing), ..st }
            }
        } else {
            AssignState { used: st.used.push(existing), consecutive: 1, last: Some(existing), ..st }
        }
    } else {
        let f = spec_select_family(families, policy, n, n - p + 1, st.last, st.used, st.consecutive);
        AssignState {
            map: st.map.insert(page, f),
            used: st.used.push(f),
            consecutive: if st.last == Some(f) { st.consecutive + 1 } else { 1 },
            last: Some(f),
        }
    }
}

/// Pages `p..=n` of the assignment pass.
pub open spec fn assign_pages(
    families: Seq<Seq<char>>,
    policy: VariationPolicy,
    n: int,
    p: int,
    st: AssignState,
) -> AssignState
    decreases n + 1 - p,
{
    if p > n || p < 1 {
        st
    } else {
        assign_pages(families, policy, n, p + 1, page_step(families, policy, n, p, st))
    }
}

/// The family of a page, if it has one.
pub open spec fn family_at(m: Map<u32, Seq<char>>, page: int) -> Option<Seq<char>> {
    if 0 <= page <= u32::MAX && m.dom().contains(page as u32) {
        Some(m[page as u32])
    } else {
        None
    }
}

/// The first page `p` from `from` up to `n - 1` whose neighbours on both
/// sides have the same family as it (or, like it, none).
pub open spec fn first_triple(m: Map<u32, Seq<char>>, from: int, n: int) -> Option<int>
    decreases n - from,
{
    if from >= n {
        None
    } else if family_at(m, from - 1) == family_at(m, from) && family_at(m, from) == family_at(m, from + 1) {
        Some(from)
    } else {
        first_triple(m, from + 1, n)
    }
}

/// The first family not among `vals`.
pub open spec fn first_unused(families: Seq<Seq<char>>, vals: Set<Seq<char>>, i: int) -> Option<Seq<char>>
    decreases families.len() - i,
{
    if i < 0 || i >= families.len() {
        None
    } else if !vals.contains(families[i]) {
        Some(families[i])
    } else {
        first_unused(families, vals, i + 1)
    }
}

/// Gives the middle page of the first run of three equal families a family
/// that no page uses yet, when there is one.
pub open spec fn spec_diversify(families: Seq<Seq<char>>, m: Map<u32, Seq<char>>, n: int) -> Map<u32, Seq<char>> {
    match first_unused(families, m.values(), 0) {
        None => m,
        Some(f) => match first_triple(m, 2, n) {
            Some(p) => m.insert(p as u32, f),
            None => m,
        },
    }
}

/// The assignment of families to pages `1..=n`, starting from `existing`.
pub open spec fn spec_assign(
    families: Seq<Seq<char>>,
    policy: VariationPolicy,
    n: int,
    existing: Map<u32, Seq<char>>,
) -> Map<u32, Seq<char>> {
    let st = assign_pages(families, policy, n, 1, AssignState { map: existing, used: seq![], consecutive: 0, last: None });
    if st.map.values().len() < policy.min_distinct_layout_families {
        spec_diversify(families, st.map, n)
    } else {
        st.map
    }
}

/// Scanning from `i` with `best` never picks `exclude`, and picks some family
/// as soon as one other than `exclude` is left to scan or already picked.
proof fn lemma_least_used(
    families: Seq<Seq<char>>,
    exclude: Option<Seq<char>>,
    used: Seq<Seq<char>>,
    i: int,
    best: Option<Seq<char>>,
)
    requires
        0 <= i,
        best is Some ==> best != exclude,
    ensures
        least_used_from(families, exclude, used, i, best) is Some ==> least_used_from(families, exclude, used, i, best) != exclude,
        (best is Some || exists|j: int| i <= j < families.len() && Some(#[trigger] families[j]) != exclude)
            ==> least_used_from(families, exclude, used, i, best) is Some,
    decreases families.len() - i,
{
    if i < families.len() {
        let f = families[i];
        let best2 = if exclude == Some(f) {
            best
        } else {
            match best {
                None => Some(f),
                Some(b) => if count_in(used, f) < count_in(used, b) {
                    Some(f)
                } else {
                    best
                },
            }
        };
        lemma_least_used(families, exclude, used, i + 1, best2);
        if exists|j: int| i <= j < families.len() && Some(#[trigger] families[j]) != exclude {
            let j = choose|j: int| i <= j < families.len() && Some(#[trigger] families[j]) != exclude;
            if j > i {
                assert(exists|j2: int| i + 1 <= j2 < families.len() && Some(#[trigger] families[j2]) != exclude);
            }
        }
    }
}

/// The families of pages `1..=k`, in page order.
pub open spec fn pages_seq(m: Map<u32, Seq<char>>, k: int) -> Seq<Seq<char>> {
    Seq::new(k as nat, |i: int| m[(i + 1) as u32])
}

/// Number of distinct family names in the list.
pub open spec fn distinct_count(families: Seq<Seq<char>>) -> nat {
    families.to_set().len()
}

pub open spec fn min_int(a: int, b: int) -> int {
    if a <= b {
        a
    } else {
        b
    }
}

/// After a pass over pages `1..q` (`q` at most the deck's length) from an
/// empty map: exactly those pages have a family, the last one is the
/// previous family, the families used are those of the pages in order, each
/// page differs from the page before it when two families are at hand (so
/// every run has length one), and the first pages, as many as there are
/// distinct families, all differ.
pub open spec fn pass_from_empty(families: Seq<Seq<char>>, q: int, st: AssignState) -> bool {
    &&& forall|k: u32| #[trigger] st.map.dom().contains(k) <==> 1 <= k < q
    &&& (q >= 2 ==> st.last == Some(st.map[(q - 1) as u32]))
    &&& (q < 2 ==> st.last is None)
    &&& st.used == pages_seq(st.map, q - 1)
    &&& has_two_families(families) ==> forall|p: int| 2 <= p < q ==> #[trigger] st.map[p as u32] != st.map[(p - 1) as u32]
    &&& (has_two_families(families) && q >= 2 ==> st.consecutive == 1)
    &&& pages_seq(st.map, min_int(q - 1, distinct_count(families) as int)).no_duplicates()
    &&& (q >= 2 && families.len() > 0 ==> st.map[1] == families[0])
}

/// What a pass over all `n` pages from an empty map gives: each page has a
/// family; with two families at hand, neighbours differ, except that the
/// last page may repeat the page before it when runs of two are allowed;
/// the deck covers as many families as it must; page 1 has the first family.
pub open spec fn final_ok(families: Seq<Seq<char>>, policy: VariationPolicy, n: int, m: Map<u32, Seq<char>>) -> bool {
    &&& forall|k: u32| #[trigger] m.dom().contains(k) <==> 1 <= k <= n
    &&& has_two_families(families) ==> forall|p: int| 2 <= p < n ==> #[trigger] m[p as u32] != m[(p - 1) as u32]
    &&& (has_two_families(families) && policy.same_layout_max_repeat < 2 && n >= 2 ==> m[n as u32] != m[(n - 1) as u32])
    &&& families_used(m, n) >= variety_target(families, policy, n)
    &&& (n >= 1 && families.len() > 0 ==> m[1] == families[0])
    &&& (has_two_families(families) && n >= 2 && !breaks_policy(
        families,
        policy,
        n,
        default_family(families),
        Some(m[(n - 1) as u32]),
        pages_seq(m, n - 1),
        1,
    ) ==> m[n as u32] == default_family(families))
}

/// The families hold two different entries.
pub open spec fn has_two_families(families: Seq<Seq<char>>) -> bool {
    exists|i: int, j: int| 0 <= i < families.len() && 0 <= j < families.len() && families[i] != families[j]
}

proof fn lemma_count_zero(used: Seq<Seq<char>>, f: Seq<char>)
    ensures
        count_in(used, f) == 0 <==> !used.contains(f),
    decreases used.len(),
{
    if used.len() > 0 {
        lemma_count_zero(used.drop_last(), f);
        if used.drop_last().contains(f) {
            let i = choose|i: int| 0 <= i < used.drop_last().len() && used.drop_last()[i] == f;
            assert(used[i] == f);
        }
        if used.contains(f) && used.last() != f {
            let i = choose|i: int| 0 <= i < used.len() && used[i] == f;
            assert(used.drop_last()[i] == f);
        }
    }
}

/// A list without two different entries has at most one distinct entry.
proof fn lemma_two_families(families: Seq<Seq<char>>)
    ensures
        !has_two_families(families) ==> distinct_count(families) <= 1,
{
    vstd::seq_lib::seq_to_set_is_finite(families);
    if !has_two_families(families) {
        if families.len() == 0 {
            assert(families.to_set() =~= Set::<Seq<char>>::empty());
        } else {
            let one = Set::<Seq<char>>::empty().insert(families[0]);
            assert forall|x: Seq<char>| families.to_set().contains(x) implies one.contains(x) by {
                let i = choose|i: int| 0 <= i < families.len() && families[i] == x;
                if families[i] != families[0] {
                    assert(has_two_families(families));
                }
            }
            vstd::set_lib::lemma_len_subset(families.to_set(), one);
        }
    }
}

/// The scan picks a family used no more often than any other candidate.
proof fn lemma_least_used_min(
    families: Seq<Seq<char>>,
    exclude: Option<Seq<char>>,
    used: Seq<Seq<char>>,
    i: int,
    best: Option<Seq<char>>,
)
    requires
        0 <= i,
    ensures
        best matches Some(b) ==> (least_used_from(families, exclude, used, i, best) matches Some(r) && count_in(used, r)
            <= count_in(used, b)),
        forall|j: int|
            i <= j < families.len() && Some(#[trigger] families[j]) != exclude ==> (least_used_from(
                families,
                exclude,
                used,
                i,
                best,
            ) matches Some(r) && count_in(used, r) <= count_in(used, families[j])),
    decreases families.len() - i,
{
    if i < families.len() {
        let f = families[i];
        let best2 = if exclude == Some(f) {
            best
        } else {
            match best {
                None => Some(f),
                Some(b) => if count_in(used, f) < count_in(used, b) {
                    Some(f)
                } else {
                    best
                },
            }
        };
        lemma_least_used_min(families, exclude, used, i + 1, best2);
    }
}

proof fn lemma_pass_step(families: Seq<Seq<char>>, policy: VariationPolicy, n: int, q: int, st: AssignState)
    requires
        1 <= q <= n <= u32::MAX,
        q < n || q == 1,
        pass_from_empty(families, q, st),
    ensures
        pass_from_empty(families, q + 1, page_step(families, policy, n, q, st)),
{
    let page = q as u32;
    assert(!st.map.dom().contains(page));
    let f = spec_select_family(families, policy, n, n - q + 1, st.last, st.used, st.consecutive);
    let diff = spec_select_different(families, st.last, st.used);
    assert(f == if st.last is Some && diff is Some { diff->0 } else { default_family(families) });
    let next = page_step(families, policy, n, q, st);
    let d = distinct_count(families) as int;
    assert(next.map == st.map.insert(page, f));
    if has_two_families(families) && 2 <= q {
        let prev = st.map[(q - 1) as u32];
        let (i, j) = choose|i: int, j: int| 0 <= i < families.len() && 0 <= j < families.len() && families[i] != families[j];
        let k = if families[i] != prev { i } else { j };
        assert(Some(families[k]) != st.last);
        lemma_least_used(families, st.last, st.used, 0, None);
        assert(f != prev);
    }
    assert forall|p: int| 2 <= p < q + 1 && has_two_families(families) implies #[trigger] next.map[p as u32] != next.map[(p
        - 1) as u32] by {
        if p < q {
            assert(next.map[p as u32] == st.map[p as u32]);
            assert(next.map[(p - 1) as u32] == st.map[(p - 1) as u32]);
        }
    }
    assert(pages_seq(next.map, q) =~= st.used.push(f));
    assert(next.used == pages_seq(next.map, q));
    if q >= 2 {
        assert(next.map[1] == st.map[1]);
    }
    if q - 1 < d {
        // Some family is not used yet, and the least used one is such.
        let fs = families.to_set();
        let us = st.used.to_set();
        st.used.lemma_cardinality_of_set();
        assert(st.used.len() == q - 1);
        assert(!fs.subset_of(us)) by {
            if fs.subset_of(us) {
                vstd::set_lib::lemma_len_subset(fs, us);
            }
        }
        let g = choose|g: Seq<char>| fs.contains(g) && !us.contains(g);
        let jg = choose|jg: int| 0 <= jg < families.len() && families[jg] == g;
        lemma_count_zero(st.used, g);
        if q >= 2 {
            assert(st.used[q - 2] == st.map[(q - 1) as u32]);
            assert(st.used.contains(st.map[(q - 1) as u32]));
            assert(Some(families[jg]) != st.last);
            lemma_least_used_min(families, st.last, st.used, 0, None);
            lemma_least_used(families, st.last, st.used, 0, None);
            assert(count_in(st.used, f) == 0);
        } else {
            assert(st.used.len() == 0);
            assert(count_in(st.used, f) == 0);
        }
        lemma_count_zero(st.used, f);
        assert(pages_seq(st.map, min_int(q - 1, d)) =~= st.used);
        assert(pages_seq(next.map, min_int(q, d)) =~= st.used.push(f));
        assert forall|a: int, b: int| 0 <= a < b < q implies #[trigger] pages_seq(next.map, min_int(q, d))[a]
            != #[trigger] pages_seq(next.map, min_int(q, d))[b] by {
            if b == q - 1 {
                assert(st.used[a] == pages_seq(next.map, min_int(q, d))[a]);
            } else {
                assert(st.used[a] != st.used[b]);
            }
        }
    } else {
        assert(pages_seq(next.map, min_int(q, d)) =~= pages_seq(st.map, min_int(q - 1, d)));
    }
}

proof fn lemma_pass(families: Seq<Seq<char>>, policy: VariationPolicy, n: int, q: int, st: AssignState)
    requires
        1 <= q <= n,
        n <= u32::MAX,
        pass_from_empty(families, q, st),
    ensures
        final_ok(families, policy, n, assign_pages(families, policy, n, q, st).map),
    decreases n + 1 - q,
{
    if q < n {
        lemma_pass_step(families, policy, n, q, st);
        lemma_pass(families, policy, n, q + 1, page_step(families, policy, n, q, st));
    } else {
        let last = page_step(families, policy, n, q, st);
        assert(assign_pages(families, policy, n, q + 1, last) == last);
        assert(assign_pages(families, policy, n, q, st) == last);
        lemma_final_step(families, policy, n, st);
    }
}

/// Some family is not among those of `used`, when `used` holds fewer
/// distinct entries than `families`; the least used family other than the
/// last one is then unused.
proof fn lemma_unused_pick(families: Seq<Seq<char>>, used: Seq<Seq<char>>, last: Option<Seq<char>>)
    requires
        used.to_set().len() < distinct_count(families),
        last is Some ==> used.contains(last->0),
    ensures
        spec_select_different(families, last, used) is Some,
        !used.contains(spec_select_different(families, last, used)->0),
{
    let fs = families.to_set();
    let us = used.to_set();
    vstd::seq_lib::seq_to_set_is_finite(used);
    assert(!fs.subset_of(us)) by {
        if fs.subset_of(us) {
            vstd::set_lib::lemma_len_subset(fs, us);
        }
    }
    let g = choose|g: Seq<char>| fs.contains(g) && !us.contains(g);
    let jg = choose|jg: int| 0 <= jg < families.len() && families[jg] == g;
    lemma_count_zero(used, g);
    assert(Some(families[jg]) != last);
    lemma_least_used_min(families, last, used, 0, None);
    lemma_least_used(families, last, used, 0, None);
    lemma_count_zero(used, spec_select_different(families, last, used)->0);
}

/// The last page of a pass from an empty map.
proof fn lemma_final_step(families: Seq<Seq<char>>, policy: VariationPolicy, n: int, st: AssignState)
    requires
        1 <= n <= u32::MAX,
        pass_from_empty(families, n, st),
    ensures
        final_ok(families, policy, n, page_step(families, policy, n, n, st).map),
{
    let page = n as u32;
    assert(!st.map.dom().contains(page));
    let def = default_family(families);
    let diff = spec_select_different(families, st.last, st.used);
    let f = spec_select_family(families, policy, n, 1, st.last, st.used, st.consecutive);
    let next = page_step(families, policy, n, n, st);
    assert(next.map == st.map.insert(page, f));
    let m = next.map;
    let d = distinct_count(families) as int;
    let t = variety_target(families, policy, n);
    lemma_two_families(families);
    assert forall|p: int| 2 <= p < n && has_two_families(families) implies #[trigger] m[p as u32] != m[(p - 1) as u32] by {
        assert(m[p as u32] == st.map[p as u32]);
        assert(m[(p - 1) as u32] == st.map[(p - 1) as u32]);
    }
    if n >= 2 {
        assert(m[1] == st.map[1]);
    }
    if has_two_families(families) && n >= 2 {
        let prev = st.map[(n - 1) as u32];
        let (i, j) = choose|i: int, j: int| 0 <= i < families.len() && 0 <= j < families.len() && families[i] != families[j];
        let k = if families[i] != prev { i } else { j };
        assert(Some(families[k]) != st.last);
        lemma_least_used(families, st.last, st.used, 0, None);
        assert(diff is Some && diff->0 != prev);
        if policy.same_layout_max_repeat < 2 && def == prev {
            assert(breaks_policy(families, policy, n, def, st.last, st.used, st.consecutive));
        }
        assert(pages_seq(m, n - 1) =~= st.used);
        assert(m[(n - 1) as u32] == prev);
    }
    let all = pages_seq(m, n);
    assert forall|i: int| 0 <= i < n - 1 implies #[trigger] all[i] == st.used[i] by {
        assert(m[(i + 1) as u32] == st.map[(i + 1) as u32]);
    }
    if d <= n - 1 || t <= n - 1 {
        let l = min_int(n - 1, d);
        let pre = pages_seq(st.map, l);
        pre.unique_seq_to_set();
        assert forall|x: Seq<char>| pre.to_set().contains(x) implies all.to_set().contains(x) by {
            let i = choose|i: int| 0 <= i < pre.len() && pre[i] == x;
            assert(st.used[i] == pre[i]);
            assert(all[i] == x);
        }
        vstd::seq_lib::seq_to_set_is_finite(all);
        vstd::set_lib::lemma_len_subset(pre.to_set(), all.to_set());
    } else if n == 1 {
        assert(all =~= seq![f]);
        all.unique_seq_to_set();
    } else {
        let used = st.used;
        assert(pages_seq(st.map, min_int(n - 1, d)) == used);
        used.unique_seq_to_set();
        assert(used.to_set().len() < t);
        assert(families.len() > 0);
        assert(used[0] == st.map[1]);
        assert(used.contains(def));
        assert(breaks_policy(families, policy, n, def, st.last, st.used, st.consecutive));
        assert(used[n - 2] == st.map[(n - 1) as u32]);
        assert(used.contains(st.last->0));
        lemma_unused_pick(families, used, st.last);
        assert(f == diff->0);
        assert(all =~= used.push(f));
        assert(all.no_duplicates()) by {
            assert forall|a: int, b: int| 0 <= a < b < all.len() implies all[a] != all[b] by {
                if b == n - 1 {
                    assert(used.contains(all[a]));
                } else {
                    assert(used[a] != used[b]);
                }
            }
        }
        all.unique_seq_to_set();
    }
}

proof fn lemma_no_triple(m: Map<u32, Seq<char>>, from: int, n: int)
    requires
        2 <= from,
        n <= u32::MAX,
        forall|k: u32| #[trigger] m.dom().contains(k) <==> 1 <= k <= n,
        forall|p: int| 2 <= p < n ==> #[trigger] m[p as u32] != m[(p - 1) as u32],
    ensures
        first_triple(m, from, n) is None,
    decreases n - from,
{
    if from < n {
        assert(m[from as u32] != m[(from - 1) as u32]);
        assert(family_at(m, from - 1) != family_at(m, from));
        lemma_no_triple(m, from + 1, n);
    }
}

/// From no earlier assignments, the result is the pass itself: the pass
/// leaves no run of three pages for the final step to break.
proof fn lemma_assign_from_empty(families: Seq<Seq<char>>, policy: VariationPolicy, n: int)
    requires
        0 <= n <= u32::MAX,
    ensures
        final_ok(families, policy, n, spec_assign(families, policy, n, Map::empty())),
{
    let init = AssignState { map: Map::empty(), used: seq![], consecutive: 0, last: None };
    let st = assign_pages(families, policy, n, 1, init);
    if n >= 1 {
        assert(pages_seq(init.map, 0) =~= init.used);
        assert(pages_seq(init.map, min_int(0, distinct_count(families) as int)) =~= Seq::<Seq<char>>::empty());
        lemma_pass(families, policy, n, 1, init);
    } else {
        assert(st == init);
        assert(pages_seq(st.map, 0).to_set() =~= Set::<Seq<char>>::empty());
        assert forall|k: u32| #[trigger] st.map.dom().contains(k) <==> 1 <= k <= n by {}
    }
    lemma_two_families(families);
    if has_two_families(families) {
        lemma_no_triple(st.map, 2, n);
    } else if n >= 1 && families.len() > 0 {
        // One family name at most: page 1 holds it, so none is unused.
        assert forall|i: int| 0 <= i < families.len() implies st.map.values().contains(#[trigger] families[i]) by {
            if families[i] != families[0] {
                assert(has_two_families(families));
            }
            assert(st.map.dom().contains(1));
        }
        lemma_first_unused_none(families, st.map.values(), 0);
    } else if families.len() == 0 {
        lemma_first_unused_none(families, st.map.values(), 0);
    }
    if n < 2 {
        assert(first_triple(st.map, 2, n) is None);
    }
}

proof fn lemma_first_unused_none(families: Seq<Seq<char>>, vals: Set<Seq<char>>, i: int)
    requires
        forall|j: int| 0 <= j < families.len() ==> vals.contains(#[trigger] families[j]),
    ensures
        first_unused(families, vals, i) is None,
    decreases families.len() - i,
{
    if 0 <= i < families.len() {
        lemma_first_unused_none(families, vals, i + 1);
    }
}

/// A run from page `p` of `k + 1` pages holds two neighbours that differ.
pub open spec fn run_broken(m: Map<u32, Seq<char>>, p: int, k: int) -> bool {
    exists|j: int| p <= j < p + k && m[(j + 1) as u32] != #[trigger] m[j as u32]
}

/// No page run of `1..=n` longer than `k` pages shares one family.
pub open spec fn runs_at_most(m: Map<u32, Seq<char>>, n: int, k: int) -> bool {
    forall|p: int| 1 <= p && p + k <= n ==> #[trigger] run_broken(m, p, k)
}

/// Number of distinct families among pages `1..=n`.
pub open spec fn families_used(m: Map<u32, Seq<char>>, n: int) -> nat {
    pages_seq(m, n).to_set().len()
}

/// The variation policy, for a deck assigned from scratch: every page
/// `1..=n` gets a family; whenever two families are at hand, no family runs
/// over more pages in a row than the policy allows (nor over more than two);
/// and the deck uses at least as many families as the policy asks, or as
/// there are, or as there are pages, whichever is least.
pub proof fn law_assign_follows_policy(families: Seq<Seq<char>>, policy: VariationPolicy, n: int)
    requires
        0 <= n <= u32::MAX,
    ensures
        forall|k: u32| #[trigger] spec_assign(families, policy, n, Map::empty()).dom().contains(k) <==> 1 <= k <= n,
        has_two_families(families) && policy.same_layout_max_repeat >= 1 ==> runs_at_most(
            spec_assign(families, policy, n, Map::empty()),
            n,
            policy.same_layout_max_repeat as int,
        ),
        has_two_families(families) ==> runs_at_most(spec_assign(families, policy, n, Map::empty()), n, 2),
        families_used(spec_assign(families, policy, n, Map::empty()), n) >= variety_target(families, policy, n),
{
    lemma_assign_from_empty(families, policy, n);
    let m = spec_assign(families, policy, n, Map::empty());
    let k = policy.same_layout_max_repeat as int;
    if has_two_families(families) {
        assert forall|p: int| 1 <= p && p + 2 <= n implies #[trigger] run_broken(m, p, 2) by {
            assert(m[(p + 1) as u32] != m[p as u32]);
        }
        if k >= 1 {
            assert forall|p: int| 1 <= p && p + k <= n implies #[trigger] run_broken(m, p, k) by {
                if p + 1 < n {
                    assert(m[(p + 1) as u32] != m[p as u32]);
                } else {
                    assert(m[n as u32] != m[(n - 1) as u32]);
                    assert(m[(p + 1) as u32] != m[p as u32]);
                }
            }
        }
    }
}

/// With two different families to choose from and no earlier assignments,
/// no page has the family of the page before it; only the last page may
/// repeat the page before it, and only when the policy allows runs of two.
pub proof fn law_neighbours_differ(families: Seq<Seq<char>>, policy: VariationPolicy, n: int, p: int)
    requires
        has_two_families(families),
        n <= u32::MAX,
        2 <= p <= n,
        p < n || policy.same_layout_max_repeat < 2,
    ensures
        spec_assign(families, policy, n, Map::empty()).contains_key(p as u32),
        spec_assign(families, policy, n, Map::empty()).contains_key((p - 1) as u32),
        spec_assign(families, policy, n, Map::empty())[p as u32] != spec_assign(families, policy, n, Map::empty())[(p - 1) as u32],
{
    lemma_assign_from_empty(families, policy, n);
}

/// With two families at hand, the last page of a deck assigned from
/// scratch takes the first family (or `grid_n_x_m`), unless that would
/// break the policy after the pages before it.
pub proof fn law_last_page_takes_first_family(families: Seq<Seq<char>>, policy: VariationPolicy, n: int)
    requires
        has_two_families(families),
        2 <= n <= u32::MAX,
        !breaks_policy(
            families,
            policy,
            n,
            default_family(families),
            Some(spec_assign(families, policy, n, Map::empty())[(n - 1) as u32]),
            pages_seq(spec_assign(families, policy, n, Map::empty()), n - 1),
            1,
        ),
    ensures
        spec_assign(families, policy, n, Map::empty())[n as u32] == default_family(families),
{
    lemma_assign_from_empty(families, policy, n);
}

/// After a pass over pages `1..q` from `existing`: those pages and the
/// pages of `existing` have a family, and the pages outside `1..q` keep
/// theirs.
pub open spec fn keeps_existing(existing: Map<u32, Seq<char>>, q: int, st: AssignState) -> bool {
    &&& forall|k: u32| #[trigger] st.map.dom().contains(k) <==> (existing.dom().contains(k) || 1 <= k < q)
    &&& forall|k: u32| existing.dom().contains(k) && !(1 <= k < q) ==> #[trigger] st.map[k] == existing[k]
}

proof fn lemma_keeps_step(
    families: Seq<Seq<char>>,
    policy: VariationPolicy,
    n: int,
    q: int,
    existing: Map<u32, Seq<char>>,
    st: AssignState,
)
    requires
        1 <= q <= n <= u32::MAX,
        keeps_existing(existing, q, st),
    ensures
        keeps_existing(existing, q + 1, page_step(families, policy, n, q, st)),
{
    let next = page_step(families, policy, n, q, st);
    let page = q as u32;
    assert(next.map == st.map || exists|f: Seq<char>| next.map == st.map.insert(page, f));
    assert forall|k: u32| #[trigger] next.map.dom().contains(k) <==> (existing.dom().contains(k) || 1 <= k < q + 1) by {
        if k != page {
            assert(next.map.dom().contains(k) == st.map.dom().contains(k));
        }
    }
    assert forall|k: u32| existing.dom().contains(k) && !(1 <= k < q + 1) implies #[trigger] next.map[k] == existing[k] by {
        assert(k != page);
    }
}

proof fn lemma_keeps_pass(
    families: Seq<Seq<char>>,
    policy: VariationPolicy,
    n: int,
    q: int,
    existing: Map<u32, Seq<char>>,
    st: AssignState,
)
    requires
        1 <= q <= n + 1,
        n <= u32::MAX,
        keeps_existing(existing, q, st),
    ensures
        keeps_existing(existing, n + 1, assign_pages(families, policy, n, q, st)),
    decreases n + 1 - q,
{
    if q <= n {
        lemma_keeps_step(families, policy, n, q, existing, st);
        lemma_keeps_pass(families, policy, n, q + 1, existing, page_step(families, policy, n, q, st));
    }
}

proof fn lemma_first_triple_range(m: Map<u32, Seq<char>>, from: int, n: int)
    ensures
        first_triple(m, from, n) matches Some(p) ==> from <= p < n,
    decreases n - from,
{
    if from < n {
        lemma_first_triple_range(m, from + 1, n);
    }
}

/// Every page `1..=page_count` gets a family, and a page outside that range
/// keeps the family it had, if any.
pub proof fn law_assign_covers_pages(
    families: Seq<Seq<char>>,
    policy: VariationPolicy,
    n: int,
    existing: Map<u32, Seq<char>>,
)
    requires
        0 <= n <= u32::MAX,
    ensures
        forall|k: u32| #[trigger] spec_assign(families, policy, n, existing).dom().contains(k) <==> (existing.dom().contains(k)
            || 1 <= k <= n),
        forall|k: u32|
            existing.dom().contains(k) && !(1 <= k <= n) ==> #[trigger] spec_assign(families, policy, n, existing)[k]
                == existing[k],
{
    let init = AssignState { map: existing, used: seq![], consecutive: 0, last: None };
    lemma_keeps_pass(families, policy, n, 1, existing, init);
    let st = assign_pages(families, policy, n, 1, init);
    lemma_first_triple_range(st.map, 2, n);
}

/// Assigns layout families to pages.
pub struct LayoutAssigner {
    layout_families: Vec<String>,
    policy: VariationPolicy,
}

/// Copies of a list of strings.
fn clone_strings(v: &Vec<String>) -> (r: Vec<String>)
    ensures
        views(r@) == views(v@),
{
    let mut r: Vec<String> = Vec::new();
    let mut i: usize = 0;
    while i < v.len()
        invariant
            0 <= i <= v@.len(),
            views(r@) == views(v@).take(i as int),
        decreases v@.len() - i,
    {
        push_string(&mut r, owned(v[i].as_str()));
        proof {
            assert(views(v@).take(i + 1) =~= views(v@).take(i as int).push(v@[i as int]@));
        }
        i = i + 1;
    }
    proof {
        assert(views(v@).take(v@.len() as int) =~= views(v@));
    }
    r
}

/// Number of entries of `used` equal to `f`.
fn count_of(used: &Vec<String>, f: &str) -> (r: usize)
    ensures
        r == count_in(views(used@), f@),
{
    let mut c: usize = 0;
    let mut j: usize = 0;
    while j < used.len()
        invariant
            0 <= j <= used@.len(),
            c <= j,
            c == count_in(views(used@).take(j as int), f@),
        decreases used@.len() - j,
    {
        proof {
            assert(views(used@).take(j + 1).drop_last() =~= views(used@).take(j as int));
        }
        if str_eq(used[j].as_str(), f) {
            c = c + 1;
        }
        j = j + 1;
    }
    proof {
        assert(views(used@).take(used@.len() as int) =~= views(used@));
    }
    c
}

/// Whether two optional strings hold the same characters.
fn opt_eq(a: &Option<String>, b: &str) -> (r: bool)
    ensures
        r == (opt_view(*a) == Some(b@)),
{
    match a {
        Some(s) => str_eq(s.as_str(), b),
        None => false,
    }
}


/// Whether some string of the list holds the characters of `s`.
fn contains_str(v: &Vec<String>, s: &str) -> (r: bool)
    ensures
        r == views(v@).contains(s@),
{
    let mut i: usize = 0;
    while i < v.len()
        invariant
            0 <= i <= v@.len(),
            forall|j: int| 0 <= j < i ==> views(v@)[j] != s@,
        decreases v@.len() - i,
    {
        if str_eq(v[i].as_str(), s) {
            proof {
                assert(views(v@)[i as int] == s@);
            }
            return true;
        }
        i = i + 1;
    }
    false
}

/// The characters of each string of a list of references.
pub open spec fn ref_views(h: Seq<&String>) -> Seq<Seq<char>> {
    h.map_values(|s: &String| s@)
}

/// Once the strings seen are the map's values, their views are the
/// families of the map.
proof fn lemma_views_cover(m: Map<u32, String>, seen: Seq<&String>)
    ensures
        seen.unref().to_set() == m.values() ==> ref_views(seen).to_set() == vmap(m).values(),
{
    if seen.unref().to_set() == m.values() {
        let vm = vmap(m);
        let r = ref_views(seen);
        assert forall|x: Seq<char>| r.to_set().contains(x) <==> vm.values().contains(x) by {
            if r.to_set().contains(x) {
                assert(r.contains(x));
                let i = choose|i: int| 0 <= i < r.len() && r[i] == x;
                assert(seen.unref()[i] == *seen[i]);
                assert(seen.unref().to_set().contains(seen.unref()[i]));
                assert(m.values().contains(seen.unref()[i]));
                let k = choose|k: u32| #[trigger] m.contains_key(k) && m[k] == seen.unref()[i];
                assert(vm.contains_key(k) && vm[k] == x);
            }
            if vm.values().contains(x) {
                let k = choose|k: u32| #[trigger] vm.contains_key(k) && vm[k] == x;
                assert(m.values().contains(m[k]));
                assert(seen.unref().to_set().contains(m[k]));
                let i = choose|i: int| 0 <= i < seen.unref().len() && seen.unref()[i] == m[k];
                assert(r[i] == x);
                assert(r.contains(x));
            }
        }
        assert(r.to_set() =~= vm.values());
    }
}

/// The distinct families a map assigns, each listed once.
fn distinct_values(m: &HashMap<u32, String>) -> (r: Vec<String>)
    ensures
        views(r@).no_duplicates(),
        views(r@).to_set() == vmap(m@).values(),
{
    let mut r: Vec<String> = Vec::new();
    let ghost vals = m@.values();
    proof {
        assert(views(r@) =~= Seq::<Seq<char>>::empty());
        assert(views(r@).to_set() =~= ref_views(Seq::<&String>::empty()).to_set());
        lemma_views_cover(m@, Seq::<&String>::empty());
    }
    for v in it: m.values()
        invariant
            vals == m@.values(),
            it.seq().unref().to_set() == vals,
            views(r@).no_duplicates(),
            views(r@).to_set() == ref_views(it.history()).to_set(),
            it.history().unref().to_set() == vals ==> views(r@).to_set() == vmap(m@).values(),
            it.index() == it.seq().len() ==> it.history() == it.seq(),
            it.index() == it.seq().len() ==> views(r@).to_set() == vmap(m@).values(),
    {
        let ghost hist = it.history();
        let ghost before = views(r@);
        if !contains_str(&r, v.as_str()) {
            push_string(&mut r, owned(v.as_str()));
            proof {
                assert forall|a: int, b: int| 0 <= a < views(r@).len() && 0 <= b < views(r@).len() && a != b
                    implies views(r@)[a] != views(r@)[b] by {
                    if a < before.len() && b < before.len() {
                        assert(views(r@)[a] == before[a]);
                        assert(views(r@)[b] == before[b]);
                    } else if a == before.len() {
                        assert(views(r@)[b] == before[b]);
                    } else {
                        assert(views(r@)[a] == before[a]);
                    }
                }
            }
        }
        proof {
            let h2 = hist.push(v);
            let after = views(r@);
            assert(ref_views(h2) =~= ref_views(hist).push(v@));
            assert(after.to_set() =~= ref_views(h2).to_set()) by {
                ref_views(hist).lemma_push_to_set_commute(v@);
                if after == before {
                    assert(before.contains(v@));
                    assert(after.to_set() =~= before.to_set().insert(v@));
                } else {
                    assert(after == before.push(v@));
                    before.lemma_push_to_set_commute(v@);
                }
            }
            lemma_views_cover(m@, h2);
        }
        assert(it.index() + 1 == it.seq().len() ==> hist.push(v) =~= it.seq());
    }
    r
}

proof fn lemma_vmap_insert(m: Map<u32, String>, k: u32, v: String)
    ensures
        vmap(m.insert(k, v)) == vmap(m).insert(k, v@),
{
    assert(vmap(m.insert(k, v)) =~= vmap(m).insert(k, v@));
}

/// The family a map gives a page, copied.
fn family_of(m: &HashMap<u32, String>, page: u32) -> (r: Option<String>)
    ensures
        opt_view(r) == family_at(vmap(m@), page as int),
{
    match m.get(&page) {
        Some(s) => Some(owned(s.as_str())),
        None => None,
    }
}

/// Whether two optional strings are both absent or hold the same characters.
fn opt_same(a: &Option<String>, b: &Option<String>) -> (r: bool)
    ensures
        r == (opt_view(*a) == opt_view(*b)),
{
    match (a, b) {
        (Some(x), Some(y)) => str_eq(x.as_str(), y.as_str()),
        (None, None) => true,
        _ => false,
    }
}

/// Number of distinct strings in the list.
fn distinct_len(v: &Vec<String>) -> (r: usize)
    ensures
        r == views(v@).to_set().len(),
{
    let mut seen: Vec<String> = Vec::new();
    let mut i: usize = 0;
    proof {
        assert(views(seen@) =~= Seq::<Seq<char>>::empty());
        assert(views(v@).take(0) =~= Seq::<Seq<char>>::empty());
    }
    while i < v.len()
        invariant
            0 <= i <= v@.len(),
            views(seen@).no_duplicates(),
            views(seen@).to_set() == views(v@).take(i as int).to_set(),
        decreases v@.len() - i,
    {
        let ghost before = views(seen@);
        let x = v[i].as_str();
        if !contains_str(&seen, x) {
            push_string(&mut seen, owned(x));
            proof {
                assert forall|a: int, b: int| 0 <= a < views(seen@).len() && 0 <= b < views(seen@).len() && a != b
                    implies views(seen@)[a] != views(seen@)[b] by {
                    if a < before.len() && b < before.len() {
                        assert(views(seen@)[a] == before[a]);
                        assert(views(seen@)[b] == before[b]);
                    } else if a == before.len() {
                        assert(views(seen@)[b] == before[b]);
                    } else {
                        assert(views(seen@)[a] == before[a]);
                    }
                }
                before.lemma_push_to_set_commute(x@);
            }
        } else {
            proof {
                assert(before.to_set().contains(x@));
                assert(before.to_set().insert(x@) =~= before.to_set());
            }
        }
        proof {
            assert(views(v@).take(i + 1) =~= views(v@).take(i as int).push(x@));
            views(v@).take(i as int).lemma_push_to_set_commute(x@);
        }
        i = i + 1;
    }
    proof {
        assert(views(v@).take(v@.len() as int) =~= views(v@));
        views(seen@).unique_seq_to_set();
    }
    seen.len()
}

impl LayoutAssigner {
    /// The families the assigner chooses from.
    pub closed spec fn families(&self) -> Seq<Seq<char>> {
        views(self.layout_families@)
    }

    /// The variation policy it follows.
    pub closed spec fn policy(&self) -> VariationPolicy {
        self.policy
    }

    pub fn new(style_guide: &StyleGuide) -> (r: Self)
        ensures
            r.families() == views(style_guide.layout_families@),
            r.policy() == style_guide.variation_policy,
    {
        LayoutAssigner { layout_families: clone_strings(&style_guide.layout_families), policy: style_guide.variation_policy }
    }

    fn select_different_family(&self, exclude: &Option<String>, used_families: &Vec<String>) -> (r: Option<String>)
        ensures
            opt_view(r) == spec_select_different(self.families(), opt_view(*exclude), views(used_families@)),
    {
        let ghost fams = self.families();
        let ghost ex = opt_view(*exclude);
        let ghost used = views(used_families@);
        let mut best: Option<usize> = None;
        let mut best_count: usize = 0;
        let mut i: usize = 0;
        while i < self.layout_families.len()
            invariant
                0 <= i <= self.layout_families@.len(),
                fams == views(self.layout_families@),
                ex == opt_view(*exclude),
                used == views(used_families@),
                match best {
                    Some(b) => b < i && best_count == count_in(used, fams[b as int]),
                    None => true,
                },
                spec_select_different(fams, ex, used) == least_used_from(fams, ex, used, i as int, match best {
                    Some(b) => Some(fams[b as int]),
                    None => None,
                }),
            decreases self.layout_families@.len() - i,
        {
            let f = self.layout_families[i].as_str();
            proof {
                assert(fams[i as int] == f@);
            }
            if !opt_eq(exclude, f) {
                let c = count_of(used_families, f);
                match best {
                    None => {
                        best = Some(i);
                        best_count = c;
                    },
                    Some(_) => {
                        if c < best_count {
                            best = Some(i);
                            best_count = c;
                        }
                    },
                }
            }
            i = i + 1;
        }
        match best {
            Some(b) => Some(owned(self.layout_families[b].as_str())),
            None => None,
        }
    }

    /// Whether giving the last page family `f` breaks the policy.
    fn breaks_policy(&self, f: &String, last_family: &Option<String>, used_families: &Vec<String>, consecutive: u32, page_count: u32) -> (r: bool)
        ensures
            r == breaks_policy(
                self.families(),
                self.policy(),
                page_count as int,
                f@,
                opt_view(*last_family),
                views(used_families@),
                consecutive as int,
            ),
    {
        if opt_eq(last_family, f.as_str()) && (consecutive as u64) + 1 > (self.policy.same_layout_max_repeat as u64) {
            return true;
        }
        let families = distinct_len(&self.layout_families) as u64;
        let asked = self.policy.min_distinct_layout_families as u64;
        let mut target = if asked <= families { asked } else { families };
        if (page_count as u64) < target {
            target = page_count as u64;
        }
        (distinct_len(used_families) as u64) < target && contains_str(used_families, f.as_str())
    }

    fn select_family(
        &self,
        last_family: &Option<String>,
        used_families: &Vec<String>,
        consecutive: u32,
        remaining: u32,
        page_count: u32,
    ) -> (r: String)
        ensures
            r@ == spec_select_family(
                self.families(),
                self.policy(),
                page_count as int,
                remaining as int,
                opt_view(*last_family),
                views(used_families@),
                consecutive as int,
            ),
    {
        let default = if self.layout_families.len() > 0 {
            owned(self.layout_families[0].as_str())
        } else {
            owned(FALLBACK_FAMILY)
        };
        if last_family.is_some() {
            match self.select_different_family(last_family, used_families) {
                Some(family) => {
                    if remaining > 1 || self.breaks_policy(&default, last_family, used_families, consecutive, page_count) {
                        return family;
                    }
                },
                None => {},
            }
        }
        default
    }

    /// Gives the middle page of the first run of three pages with one family
    /// a family that the map does not use yet, when there is one.
    fn increase_diversity(&self, assignments: &mut HashMap<u32, String>, page_count: u32)
        ensures
            vmap(final(assignments)@) == spec_diversify(self.families(), vmap(old(assignments)@), page_count as int),
    {
        let ghost fams = self.families();
        let ghost m0 = vmap(assignments@);
        let used = distinct_values(assignments);
        let mut unused: Option<usize> = None;
        let mut i: usize = 0;
        while i < self.layout_families.len()
            invariant
                0 <= i <= self.layout_families@.len(),
                fams == views(self.layout_families@),
                views(used@).to_set() == m0.values(),
                match unused {
                    Some(u) => u < self.layout_families@.len() && first_unused(fams, m0.values(), 0) == Some(fams[u as int]),
                    None => first_unused(fams, m0.values(), 0) == first_unused(fams, m0.values(), i as int),
                },
            decreases self.layout_families@.len() - i,
        {
            if unused.is_none() {
                let f = self.layout_families[i].as_str();
                proof {
                    assert(fams[i as int] == f@);
                }
                if !contains_str(&used, f) {
                    proof {
                        assert(!views(used@).to_set().contains(f@));
                    }
                    unused = Some(i);
                } else {
                    proof {
                        assert(views(used@).to_set().contains(f@));
                    }
                }
            }
            i = i + 1;
        }
        let new_family = match unused {
            Some(u) => owned(self.layout_families[u].as_str()),
            None => {
                proof {
                    assert(first_unused(fams, m0.values(), i as int) is None);
                }
                return;
            },
        };
        assert(first_unused(fams, m0.values(), 0) == Some(new_family@));
        let mut page: u32 = 2;
        while page < page_count
            invariant
                2 <= page,
                page_count >= 2 ==> page <= page_count,
                vmap(assignments@) == m0,
                fams == self.families(),
                m0 == vmap(old(assignments)@),
                first_unused(fams, m0.values(), 0) == Some(new_family@),
                first_triple(m0, 2, page_count as int) == first_triple(m0, page as int, page_count as int),
            decreases page_count - page,
        {
            let prev = family_of(assignments, page - 1);
            let curr = family_of(assignments, page);
            let next = family_of(assignments, page + 1);
            if opt_same(&prev, &curr) && opt_same(&curr, &next) {
                proof {
                    assert(first_triple(m0, page as int, page_count as int) == Some(page as int));
                    lemma_vmap_insert(assignments@, page, new_family);
                }
                assignments.insert(page, new_family);
                assert(vmap(assignments@) == m0.insert(page, new_family@));
                return;
            }
            page = page + 1;
        }
        proof {
            assert(first_triple(m0, page as int, page_count as int) is None);
        }
    }

    /// Assigns a layout family to each page `1..=page_count`, starting from
    /// the assignments given, and returns the map. From scratch, the map
    /// follows the variation policy (see `law_assign_follows_policy`).
    pub fn assign(&self, page_count: u32, existing_assignments: Option<&HashMap<u32, String>>) -> (r: HashMap<u32, String>)
        ensures
            vmap(r@) == spec_assign(self.families(), self.policy(), page_count as int, match existing_assignments {
                Some(m) => vmap(m@),
                None => Map::empty(),
            }),
            existing_assignments is None ==> forall|k: u32| #[trigger] r@.dom().contains(k) <==> 1 <= k <= page_count,
            existing_assignments is None && has_two_families(self.families()) && self.policy().same_layout_max_repeat >= 1
                ==> runs_at_most(vmap(r@), page_count as int, self.policy().same_layout_max_repeat as int),
            existing_assignments is None && has_two_families(self.families()) ==> runs_at_most(vmap(r@), page_count as int, 2),
            existing_assignments is None ==> families_used(vmap(r@), page_count as int) >= variety_target(
                self.families(),
                self.policy(),
                page_count as int,
            ),
    {
        let ghost fams = self.families();
        let ghost pol = self.policy();
        let ghost n = page_count as int;
        let mut assignments: HashMap<u32, String> = match existing_assignments {
            Some(m) => m.clone(),
            None => HashMap::new(),
        };
        let ghost start = match existing_assignments {
            Some(m) => vmap(m@),
            None => Map::empty(),
        };
        proof {
            assert(vmap(assignments@) =~= start);
        }
        let ghost init = AssignState { map: vmap(assignments@), used: seq![], consecutive: 0, last: None };
        let mut used_families: Vec<String> = Vec::new();
        let mut consecutive: u32 = 0;
        let mut last_family: Option<String> = None;
        proof {
            assert(views(used_families@) =~= Seq::<Seq<char>>::empty());
        }
        let mut page: u64 = 1;
        while page <= page_count as u64
            invariant
                1 <= page <= n + 1,
                n == page_count,
                fams == self.families(),
                pol == self.policy(),
                consecutive < page,
                assign_pages(fams, pol, n, 1, init) == assign_pages(fams, pol, n, page as int, AssignState {
                    map: vmap(assignments@),
                    used: views(used_families@),
                    consecutive: consecutive as int,
                    last: opt_view(last_family),
                }),
            decreases n + 1 - page,
        {
            let p: u32 = page as u32;
            let ghost st = AssignState {
                map: vmap(assignments@),
                used: views(used_families@),
                consecutive: consecutive as int,
                last: opt_view(last_family),
            };
            let ghost next_st = page_step(fams, pol, n, p as int, st);
            match family_of(&assignments, p) {
                Some(existing) => {
                    if opt_eq(&last_family, existing.as_str()) {
                        let c = consecutive + 1;
                        if c > self.policy.same_layout_max_repeat {
                            match self.select_different_family(&last_family, &used_families) {
                                Some(nf) => {
                                    let copy = owned(nf.as_str());
                                    proof {
                                        lemma_vmap_insert(assignments@, p, copy);
                                    }
                                    assignments.insert(p, copy);
                                    last_family = Some(owned(nf.as_str()));
                                    push_string(&mut used_families, nf);
                                    consecutive = 1;
                                    assert(AssignState {
                                        map: vmap(assignments@),
                                        used: views(used_families@),
                                        consecutive: consecutive as int,
                                        last: opt_view(last_family),
                                    } == next_st);
                                },
                                None => {
                                    consecutive = c;
                                    assert(AssignState {
                                        map: vmap(assignments@),
                                        used: views(used_families@),
                                        consecutive: consecutive as int,
                                        last: opt_view(last_family),
                                    } == next_st);
                                },
                            }
                        } else {
                            consecutive = c;
                            last_family = Some(owned(existing.as_str()));
                            push_string(&mut used_families, existing);
                        }
                    } else {
                        consecutive = 1;
                        last_family = Some(owned(existing.as_str()));
                        push_string(&mut used_families, existing);
                    }
                },
                None => {
                    let remaining = (page_count as u64 - page + 1) as u32;
                    let family = self.select_family(&last_family, &used_families, consecutive, remaining, page_count);
                    let copy = owned(family.as_str());
                    proof {
                        lemma_vmap_insert(assignments@, p, copy);
                    }
                    assignments.insert(p, copy);
                    if opt_eq(&last_family, family.as_str()) {
                        consecutive = consecutive + 1;
                    } else {
                        consecutive = 1;
                    }
                    last_family = Some(owned(family.as_str()));
                    push_string(&mut used_families, family);
                },
            }
            proof {
                assert(AssignState {
                    map: vmap(assignments@),
                    used: views(used_families@),
                    consecutive: consecutive as int,
                    last: opt_view(last_family),
                } == next_st);
            }
            page = page + 1;
        }
        let ghost fin = assign_pages(fams, pol, n, 1, init);
        assert(fin.map == vmap(assignments@));
        let distinct = distinct_values(&assignments);
        proof {
            views(distinct@).unique_seq_to_set();
        }
        assert((distinct.len() < self.policy.min_distinct_layout_families) == (fin.map.values().len() < pol.min_distinct_layout_families));
        if (distinct.len() as u64) < (self.policy.min_distinct_layout_families as u64) {
            self.increase_diversity(&mut assignments, page_count);
        }
        proof {
            if existing_assignments is None {
                law_assign_follows_policy(fams, pol, n);
                assert forall|k: u32| #[trigger] assignments@.dom().contains(k) <==> 1 <= k <= page_count by {
                    assert(vmap(assignments@).dom().contains(k) == assignments@.dom().contains(k));
                }
            }
        }
        assignments
    }

}

} // verus!
