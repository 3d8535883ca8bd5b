//! The files of a project's pages: their names, the page numbers read back
//! from them, the order of the pages, the renumbering that follows a
//! deletion, and the counts that a project shows.
use vstd::prelude::*;
use crate::numbers::{parse_u32, spec_parse_u32};
use crate::ooxml::{dec, push_decimal};
use crate::style_guide::{spec_to_lowercase, to_lowercase};
use crate::text::{chars_of, find_char, first_index_of, has_prefix, owned, push_char, range_equals, starts_with_at, str_eq, substring};

verus! {

pub const PAGE_PREFIX: &'static str = "page-";
pub const MARKDOWN_SUFFIX: &'static str = ".md";

/// A number written with at least two digits, zero-padded (`{:02}`).
pub open spec fn two_digits(n: nat) -> Seq<char> {
    if n < 10 {
        seq!['0'] + dec(n)
    } else {
        dec(n)
    }
}

/// The name of page `n`'s file with extension `ext`, such as `page-07.md`.
pub open spec fn spec_page_file_name(n: nat, ext: Seq<char>) -> Seq<char> {
    PAGE_PREFIX@ + two_digits(n) + seq!['.'] + ext
}

/// The name of page `page_num`'s file with extension `ext`.
pub fn page_file_name(page_num: u32, ext: &str) -> (r: String)
    ensures
        r@ == spec_page_file_name(page_num as nat, ext@),
{
    let mut r = owned(PAGE_PREFIX);
    if page_num < 10 {
        push_char(&mut r, '0');
    }
    push_decimal(&mut r, page_num as u64);
    push_char(&mut r, '.');
    r.append(ext);
    proof {
        if page_num < 10 {
            assert(r@ =~= spec_page_file_name(page_num as nat, ext@));
        } else {
            assert(r@ =~= spec_page_file_name(page_num as nat, ext@));
        }
    }
    r
}

/// `p` ends `s`.
pub open spec fn has_suffix(s: Seq<char>, p: Seq<char>) -> bool {
    p.len() <= s.len() && s.skip(s.len() - p.len()) == p
}

/// `s` without every leading copy of `p` (`str::trim_start_matches`).
pub open spec fn strip_prefixes(s: Seq<char>, p: Seq<char>) -> Seq<char>
    decreases s.len(),
{
    if p.len() > 0 && has_prefix(s, p) {
        strip_prefixes(s.skip(p.len() as int), p)
    } else {
        s
    }
}

/// `s` without every trailing copy of `p` (`str::trim_end_matches`).
pub open spec fn strip_suffixes(s: Seq<char>, p: Seq<char>) -> Seq<char>
    decreases s.len(),
{
    if p.len() > 0 && has_suffix(s, p) {
        strip_suffixes(s.take(s.len() - p.len()), p)
    } else {
        s
    }
}

/// The page number in a page's markdown file name (`page-3.md`,
/// `page-03.md`): the name starts with `page-` and ends with `.md`, and
/// what is left without them reads as a `u32`.
pub open spec fn spec_md_page_number(name: Seq<char>) -> Option<u32> {
    if has_prefix(name, PAGE_PREFIX@) && has_suffix(name, MARKDOWN_SUFFIX@) {
        spec_parse_u32(strip_suffixes(strip_prefixes(name, PAGE_PREFIX@), MARKDOWN_SUFFIX@))
    } else {
        None
    }
}

/// The part of `s[lo..hi]` left after every leading copy of `p`, as its
/// start.
fn skip_prefixes(s: &[char], lo: usize, hi: usize, p: &[char]) -> (r: usize)
    requires
        lo <= hi <= s@.len(),
        p@.len() > 0,
    ensures
        lo <= r <= hi,
        s@.subrange(r as int, hi as int) == strip_prefixes(s@.subrange(lo as int, hi as int), p@),
{
    let mut i = lo;
    while starts_with_at(s, i, hi, p)
        invariant
            lo <= i <= hi <= s@.len(),
            p@.len() > 0,
            strip_prefixes(s@.subrange(lo as int, hi as int), p@) == strip_prefixes(s@.subrange(i as int, hi as int), p@),
        decreases hi - i,
    {
        proof {
            assert(s@.subrange(i as int, hi as int).skip(p@.len() as int) =~= s@.subrange(i + p@.len(), hi as int));
        }
        i = i + p.len();
    }
    i
}

/// The part of `s[lo..hi]` left after every trailing copy of `p`, as its
/// end.
fn skip_suffixes(s: &[char], lo: usize, hi: usize, p: &[char]) -> (r: usize)
    requires
        lo <= hi <= s@.len(),
        p@.len() > 0,
    ensures
        lo <= r <= hi,
        s@.subrange(lo as int, r as int) == strip_suffixes(s@.subrange(lo as int, hi as int), p@),
{
    let mut j = hi;
    loop
        invariant
            lo <= j <= hi <= s@.len(),
            p@.len() > 0,
            strip_suffixes(s@.subrange(lo as int, hi as int), p@) == strip_suffixes(s@.subrange(lo as int, j as int), p@),
        decreases j - lo,
    {
        let ghost t = s@.subrange(lo as int, j as int);
        if j - lo < p.len() {
            proof {
                assert(!has_suffix(t, p@));
            }
            return j;
        }
        let k = j - p.len();
        if !range_equals(s, k, j, p) {
            proof {
                assert(t.skip(t.len() - p@.len()) =~= s@.subrange(k as int, j as int));
            }
            return j;
        }
        proof {
            assert(t.skip(t.len() - p@.len()) =~= s@.subrange(k as int, j as int));
            assert(t.take(t.len() - p@.len()) =~= s@.subrange(lo as int, k as int));
        }
        j = k;
    }
}

/// The page number in a page's markdown file name, if it has one.
pub fn md_page_number(name: &str) -> (r: Option<u32>)
    ensures
        r == spec_md_page_number(name@),
{
    let s = chars_of(name);
    let prefix = chars_of(PAGE_PREFIX);
    let suffix = chars_of(MARKDOWN_SUFFIX);
    proof {
        reveal_strlit("page-");
        reveal_strlit(".md");
        assert(s@.subrange(0, s@.len() as int) =~= s@);
    }
    let n = s.len();
    if !starts_with_at(s.as_slice(), 0, n, prefix.as_slice()) {
        return None;
    }
    if n < suffix.len() || !range_equals(s.as_slice(), n - suffix.len(), n, suffix.as_slice()) {
        proof {
            if n >= suffix@.len() {
                assert(s@.skip(n - suffix@.len()) =~= s@.subrange(n - suffix@.len(), n as int));
            }
        }
        return None;
    }
    proof {
        assert(s@.skip(n - suffix@.len()) =~= s@.subrange(n - suffix@.len(), n as int));
    }
    let lo = skip_prefixes(s.as_slice(), 0, n, prefix.as_slice());
    let hi = skip_suffixes(s.as_slice(), lo, n, suffix.as_slice());
    let rest = substring(s.as_slice(), lo, hi);
    parse_u32(rest.as_str())
}


/// The number of a page listed in a project: that of its markdown file,
/// when it reads and is not 0.
pub open spec fn spec_listed_page_number(name: Seq<char>) -> Option<u32> {
    match spec_md_page_number(name) {
        Some(n) => if n > 0 { Some(n) } else { None },
        None => None,
    }
}

/// The number of a page to list for a file name, if it is a page's
/// markdown file with a number above 0.
pub fn listed_page_number(name: &str) -> (r: Option<u32>)
    ensures
        r == spec_listed_page_number(name@),
{
    match md_page_number(name) {
        Some(n) => if n > 0 {
            Some(n)
        } else {
            None
        },
        None => None,
    }
}

/// Whether `s` ends with `p`.
pub fn ends_with(s: &str, p: &str) -> (r: bool)
    ensures
        r == has_suffix(s@, p@),
{
    let cs = chars_of(s);
    let cp = chars_of(p);
    let n = cs.len();
    if cp.len() > n {
        return false;
    }
    let b = range_equals(cs.as_slice(), n - cp.len(), n, cp.as_slice());
    proof {
        assert(cs@.skip(n - cp@.len()) =~= cs@.subrange(n - cp@.len(), n as int));
    }
    b
}

/// Whether `s` starts with `p`.
pub fn starts_with(s: &str, p: &str) -> (r: bool)
    ensures
        r == has_prefix(s@, p@),
{
    let cs = chars_of(s);
    let cp = chars_of(p);
    proof {
        assert(cs@.subrange(0, cs@.len() as int) =~= cs@);
    }
    starts_with_at(cs.as_slice(), 0, cs.len(), cp.as_slice())
}

/// A page picture's extension.
pub open spec fn is_picture_suffix(name: Seq<char>) -> bool {
    has_suffix(name, ".png"@) || has_suffix(name, ".jpg"@) || has_suffix(name, ".webp"@)
}

/// The files that splitting an outline again replaces: a page's markdown
/// file or picture.
pub open spec fn spec_is_page_file(name: Seq<char>) -> bool {
    has_prefix(name, PAGE_PREFIX@) && (has_suffix(name, MARKDOWN_SUFFIX@) || is_picture_suffix(name))
}

/// Whether a file is a page's markdown file or picture.
pub fn is_page_file(name: &str) -> (r: bool)
    ensures
        r == spec_is_page_file(name@),
{
    starts_with(name, PAGE_PREFIX) && (ends_with(name, MARKDOWN_SUFFIX) || ends_with(name, ".png") || ends_with(
        name,
        ".jpg",
    ) || ends_with(name, ".webp"))
}

pub const BRAINSTORM_FILE: &'static str = "builder.db";
pub const OUTLINE_FILE: &'static str = "outline.md";

/// What a project's files show, from their names: whether it has a
/// brainstorm and an outline, and how many page files and page pictures
/// it has.
pub open spec fn spec_scan(names: Seq<Seq<char>>) -> (bool, bool, nat, nat)
    decreases names.len(),
{
    if names.len() == 0 {
        (false, false, 0, 0)
    } else {
        let (b, o, p, i) = spec_scan(names.drop_last());
        let n = names.last();
        if n == BRAINSTORM_FILE@ {
            (true, o, p, i)
        } else if n == OUTLINE_FILE@ {
            (b, true, p, i)
        } else if has_prefix(n, PAGE_PREFIX@) && has_suffix(n, MARKDOWN_SUFFIX@) {
            (b, o, p + 1, i)
        } else if has_prefix(n, PAGE_PREFIX@) && is_picture_suffix(n) {
            (b, o, p, i + 1)
        } else {
            (b, o, p, i)
        }
    }
}

proof fn lemma_scan_bounded(names: Seq<Seq<char>>)
    ensures
        spec_scan(names).2 <= names.len(),
        spec_scan(names).3 <= names.len(),
    decreases names.len(),
{
    if names.len() > 0 {
        lemma_scan_bounded(names.drop_last());
    }
}

/// Scans the names of a project's files.
pub fn scan_file_names(names: &[String]) -> (r: (bool, bool, u32, u32))
    requires
        names@.len() <= u32::MAX,
    ensures
        (r.0, r.1, r.2 as nat, r.3 as nat) == spec_scan(names@.map_values(|n: String| n@)),
{
    let ghost all = names@.map_values(|n: String| n@);
    let mut brainstorm = false;
    let mut outline = false;
    let mut pages: u32 = 0;
    let mut images: u32 = 0;
    let mut i: usize = 0;
    while i < names.len()
        invariant
            0 <= i <= names@.len(),
            names@.len() <= u32::MAX,
            all == names@.map_values(|n: String| n@),
            (brainstorm, outline, pages as nat, images as nat) == spec_scan(all.take(i as int)),
        decreases names@.len() - i,
    {
        let n = names[i].as_str();
        proof {
            assert(all.take(i + 1).drop_last() =~= all.take(i as int));
            assert(all.take(i + 1).last() == n@);
            lemma_scan_bounded(all.take(i as int));
        }
        if str_eq(n, BRAINSTORM_FILE) {
            brainstorm = true;
        } else if str_eq(n, OUTLINE_FILE) {
            outline = true;
        } else if starts_with(n, PAGE_PREFIX) {
            if ends_with(n, MARKDOWN_SUFFIX) {
                pages = pages + 1;
            } else if ends_with(n, ".png") || ends_with(n, ".jpg") || ends_with(n, ".webp") {
                images = images + 1;
            }
        }
        i = i + 1;
    }
    proof {
        assert(all.take(names@.len() as int) =~= all);
    }
    (brainstorm, outline, pages, images)
}

/// A page picture that goes into a PDF: `page-...` ending in `.png` or
/// `.jpg`.
pub open spec fn spec_is_pdf_picture(name: Seq<char>) -> bool {
    has_prefix(name, PAGE_PREFIX@) && (has_suffix(name, ".png"@) || has_suffix(name, ".jpg"@))
}

/// Whether a file is a page picture that goes into a PDF.
pub fn is_pdf_picture(name: &str) -> (r: bool)
    ensures
        r == spec_is_pdf_picture(name@),
{
    starts_with(name, PAGE_PREFIX) && (ends_with(name, ".png") || ends_with(name, ".jpg"))
}

/// The files that may hold the picture of page `n`, in the order they are
/// looked for.
pub open spec fn spec_picture_candidates(n: nat) -> Seq<Seq<char>> {
    seq![spec_page_file_name(n, "png"@), spec_page_file_name(n, "jpg"@), spec_page_file_name(n, "webp"@)]
}

/// The file names that may hold the picture of page `page_num`: PNG, then
/// JPEG, then WebP.
pub fn picture_candidates(page_num: u32) -> (r: Vec<String>)
    ensures
        r@.map_values(|s: String| s@) == spec_picture_candidates(page_num as nat),
{
    let mut r: Vec<String> = Vec::new();
    r.push(page_file_name(page_num, "png"));
    r.push(page_file_name(page_num, "jpg"));
    r.push(page_file_name(page_num, "webp"));
    proof {
        assert(r@.map_values(|s: String| s@) =~= spec_picture_candidates(page_num as nat));
    }
    r
}


/// An extension of a page picture that a simple export takes.
pub open spec fn is_picture_extension(ext: Seq<char>) -> bool {
    ext == "png"@ || ext == "jpg"@ || ext == "jpeg"@ || ext == "webp"@
}

/// A page picture for a simple export: a name that starts with `page-`
/// and holds exactly one dot, before which, without its leading `page-`s,
/// stands a `u32`, and after which stands a picture extension in any case.
/// Gives the page number and the extension in lower case.
pub open spec fn spec_picture_page(name: Seq<char>) -> Option<(u32, Seq<char>)> {
    let dot = first_index_of(name, '.');
    let ext = name.skip(dot + 1);
    let number = spec_parse_u32(strip_prefixes(name.take(dot), PAGE_PREFIX@));
    if has_prefix(name, PAGE_PREFIX@) && dot < name.len() && first_index_of(ext, '.') == ext.len() && number is Some
        && is_picture_extension(spec_to_lowercase(ext)) {
        Some((number->0, spec_to_lowercase(ext)))
    } else {
        None
    }
}

/// The page number and lower-case extension of a page picture's file
/// name, if it is one.
pub fn picture_page(name: &str) -> (r: Option<(u32, String)>)
    ensures
        match r {
            Some((n, e)) => spec_picture_page(name@) == Some((n, e@)),
            None => spec_picture_page(name@) is None,
        },
{
    let s = chars_of(name);
    let prefix = chars_of(PAGE_PREFIX);
    let n = s.len();
    proof {
        reveal_strlit("page-");
        assert(s@.subrange(0, n as int) =~= s@);
    }
    if !starts_with_at(s.as_slice(), 0, n, prefix.as_slice()) {
        return None;
    }
    let dot = find_char(s.as_slice(), 0, n, '.');
    if dot == n {
        return None;
    }
    let second = find_char(s.as_slice(), dot + 1, n, '.');
    proof {
        assert(s@.skip(dot + 1) =~= s@.subrange(dot + 1, n as int));
        assert(s@.take(dot as int) =~= s@.subrange(0, dot as int));
    }
    if second != n {
        return None;
    }
    let lo = skip_prefixes(s.as_slice(), 0, dot, prefix.as_slice());
    let stem = substring(s.as_slice(), lo, dot);
    let number = match parse_u32(stem.as_str()) {
        Some(v) => v,
        None => {
            return None;
        },
    };
    let ext = substring(s.as_slice(), dot + 1, n);
    let lower = to_lowercase(ext.as_str());
    let l = lower.as_str();
    if str_eq(l, "png") || str_eq(l, "jpg") || str_eq(l, "jpeg") || str_eq(l, "webp") {
        Some((number, lower))
    } else {
        None
    }
}


/// Where index `x` goes into the ordered list `s`: after every entry whose
/// number is not above its own.
pub open spec fn number_insert_pos(keys: Seq<u32>, s: Seq<usize>, x: usize, j: int) -> int
    decreases s.len() - j,
{
    if j < 0 || j >= s.len() {
        s.len() as int
    } else if keys[s[j] as int] > keys[x as int] {
        j
    } else {
        number_insert_pos(keys, s, x, j + 1)
    }
}

/// The indices `idx` ordered by their numbers in `keys`, indices with one
/// number keeping their order (a stable sort, written as insertion).
pub open spec fn number_order(keys: Seq<u32>, idx: Seq<usize>) -> Seq<usize>
    decreases idx.len(),
{
    if idx.len() == 0 {
        seq![]
    } else {
        let s = number_order(keys, idx.drop_last());
        s.insert(number_insert_pos(keys, s, idx.last(), 0), idx.last())
    }
}

/// The indices `0..n`.
pub open spec fn indices(n: nat) -> Seq<usize> {
    Seq::new(n, |i: int| i as usize)
}

proof fn lemma_number_insert_pos(keys: Seq<u32>, s: Seq<usize>, x: usize, j: int)
    requires
        0 <= j <= s.len(),
    ensures
        j <= number_insert_pos(keys, s, x, j) <= s.len(),
    decreases s.len() - j,
{
    if j < s.len() && keys[s[j] as int] <= keys[x as int] {
        lemma_number_insert_pos(keys, s, x, j + 1);
    }
}

proof fn lemma_number_order_from(keys: Seq<u32>, idx: Seq<usize>)
    ensures
        number_order(keys, idx).len() == idx.len(),
        forall|k: int| 0 <= k < number_order(keys, idx).len() ==> idx.contains(#[trigger] number_order(keys, idx)[k]),
    decreases idx.len(),
{
    if idx.len() > 0 {
        let s = number_order(keys, idx.drop_last());
        lemma_number_order_from(keys, idx.drop_last());
        lemma_number_insert_pos(keys, s, idx.last(), 0);
        let p = number_insert_pos(keys, s, idx.last(), 0);
        assert forall|k: int| 0 <= k < number_order(keys, idx).len() implies idx.contains(
            #[trigger] number_order(keys, idx)[k],
        ) by {
            let r = s.insert(p, idx.last());
            if k < p {
                assert(r[k] == s[k]);
                assert(idx.drop_last().contains(s[k]));
                let m = choose|m: int| 0 <= m < idx.drop_last().len() && idx.drop_last()[m] == s[k];
                assert(idx[m] == s[k]);
            } else if k == p {
                assert(idx[idx.len() - 1] == idx.last());
            } else {
                assert(r[k] == s[k - 1]);
                assert(idx.drop_last().contains(s[k - 1]));
                let m = choose|m: int| 0 <= m < idx.drop_last().len() && idx.drop_last()[m] == s[k - 1];
                assert(idx[m] == s[k - 1]);
            }
        }
    }
}

/// Orders the indices `idx` by their numbers in `keys`, stably.
pub fn order_by_number(keys: &[u32], idx: &[usize]) -> (r: Vec<usize>)
    requires
        forall|j: int| 0 <= j < idx@.len() ==> #[trigger] idx@[j] < keys@.len(),
    ensures
        r@ == number_order(keys@, idx@),
{
    let mut sorted: Vec<usize> = Vec::new();
    let mut k: usize = 0;
    while k < idx.len()
        invariant
            0 <= k <= idx@.len(),
            forall|j: int| 0 <= j < idx@.len() ==> #[trigger] idx@[j] < keys@.len(),
            sorted@ == number_order(keys@, idx@.take(k as int)),
        decreases idx@.len() - k,
    {
        let x = idx[k];
        proof {
            assert(idx@.take(k + 1).drop_last() =~= idx@.take(k as int));
            lemma_number_order_from(keys@, idx@.take(k as int));
            assert forall|j: int| 0 <= j < sorted@.len() implies #[trigger] sorted@[j] < keys@.len() by {
                assert(idx@.take(k as int).contains(sorted@[j]));
            }
        }
        let mut p: usize = 0;
        while p < sorted.len() && keys[sorted[p]] <= keys[x]
            invariant
                0 <= p <= sorted@.len(),
                x < keys@.len(),
                forall|j: int| 0 <= j < sorted@.len() ==> #[trigger] sorted@[j] < keys@.len(),
                number_insert_pos(keys@, sorted@, x, 0) == number_insert_pos(keys@, sorted@, x, p as int),
            decreases sorted@.len() - p,
        {
            p = p + 1;
        }
        sorted.insert(p, x);
        k = k + 1;
    }
    proof {
        assert(idx@.take(idx@.len() as int) =~= idx@);
    }
    sorted
}

/// The order of pages given their numbers: by number, pages with one
/// number keeping their order.
pub fn page_order(nums: &[u32]) -> (r: Vec<usize>)
    ensures
        r@ == number_order(nums@, indices(nums@.len())),
{
    let mut idx: Vec<usize> = Vec::new();
    let mut i: usize = 0;
    while i < nums.len()
        invariant
            0 <= i <= nums@.len(),
            idx@ == indices(i as nat),
        decreases nums@.len() - i,
    {
        idx.push(i);
        proof {
            assert(idx@ =~= indices((i + 1) as nat));
        }
        i = i + 1;
    }
    order_by_number(nums, idx.as_slice())
}

/// The numbers of the pages named, 0 for a name that gives none.
pub open spec fn page_numbers(names: Seq<Seq<char>>) -> Seq<u32> {
    names.map_values(|n: Seq<char>| match spec_md_page_number(n) {
        Some(v) => v,
        None => 0u32,
    })
}

/// The indices among the first `n` names of the pages left after page
/// `deleted` is gone: those whose name gives another number.
pub open spec fn remaining_pages(names: Seq<Seq<char>>, deleted: u32, n: int) -> Seq<usize>
    decreases n,
{
    if n <= 0 {
        seq![]
    } else {
        let rest = remaining_pages(names, deleted, n - 1);
        match spec_md_page_number(names[n - 1]) {
            Some(v) => if v != deleted {
                rest.push((n - 1) as usize)
            } else {
                rest
            },
            None => rest,
        }
    }
}

/// The renumbering after page `deleted` is gone: each page left, in order
/// of number, as its index among the names, its old number and its new
/// number, counted from 1.
pub open spec fn spec_renumbering(names: Seq<Seq<char>>, deleted: u32) -> Seq<(usize, u32, nat)> {
    let keys = page_numbers(names);
    let order = number_order(keys, remaining_pages(names, deleted, names.len() as int));
    Seq::new(order.len(), |k: int| (order[k], keys[order[k] as int], (k + 1) as nat))
}

proof fn lemma_remaining_below(names: Seq<Seq<char>>, deleted: u32, n: int)
    requires
        0 <= n <= names.len(),
    ensures
        remaining_pages(names, deleted, n).len() <= n,
        forall|j: int| 0 <= j < remaining_pages(names, deleted, n).len() ==> #[trigger] remaining_pages(names, deleted, n)[j] < n,
    decreases n,
{
    if n > 0 {
        lemma_remaining_below(names, deleted, n - 1);
    }
}

/// Renumbered pages as plain values.
pub open spec fn renumbered_view(r: Seq<(usize, u32, u32)>) -> Seq<(usize, u32, nat)> {
    r.map_values(|e: (usize, u32, u32)| (e.0, e.1, e.2 as nat))
}

/// The pages left after page `deleted` of a project is gone, from the
/// names of its files: each as its index among the names, its old number
/// and its new number.
pub fn renumber_after_delete(names: &[String], deleted: u32) -> (r: Vec<(usize, u32, u32)>)
    requires
        names@.len() < u32::MAX,
    ensures
        renumbered_view(r@) == spec_renumbering(
            names@.map_values(|n: String| n@),
            deleted,
        ),
{
    let ghost all = names@.map_values(|n: String| n@);
    let mut keys: Vec<u32> = Vec::new();
    let mut left: Vec<usize> = Vec::new();
    let mut i: usize = 0;
    while i < names.len()
        invariant
            0 <= i <= names@.len(),
            all == names@.map_values(|n: String| n@),
            keys@ == page_numbers(all).take(i as int),
            left@ == remaining_pages(all, deleted, i as int),
            forall|j: int| 0 <= j < left@.len() ==> #[trigger] left@[j] < i,
        decreases names@.len() - i,
    {
        let num = md_page_number(names[i].as_str());
        proof {
            assert(all[i as int] == names@[i as int]@);
        }
        match num {
            Some(v) => {
                keys.push(v);
                if v != deleted {
                    left.push(i);
                }
            },
            None => {
                keys.push(0);
            },
        }
        proof {
            assert(keys@ =~= page_numbers(all).take(i + 1));
        }
        i = i + 1;
    }
    proof {
        assert(keys@ =~= page_numbers(all));
        lemma_remaining_below(all, deleted, all.len() as int);
    }
    let order = order_by_number(keys.as_slice(), left.as_slice());
    proof {
        lemma_number_order_from(keys@, left@);
    }
    let mut r: Vec<(usize, u32, u32)> = Vec::new();
    let mut k: usize = 0;
    while k < order.len()
        invariant
            0 <= k <= order@.len(),
            order@.len() == left@.len(),
            left@.len() <= names@.len() < u32::MAX,
            keys@ == page_numbers(all),
            keys@.len() == names@.len(),
            all.len() == names@.len(),
            left@ == remaining_pages(all, deleted, names@.len() as int),
            order@ == number_order(keys@, left@),
            forall|j: int| 0 <= j < order@.len() ==> left@.contains(#[trigger] order@[j]),
            forall|j: int| 0 <= j < left@.len() ==> #[trigger] left@[j] < names@.len(),
            renumbered_view(r@) == spec_renumbering(all, deleted).take(k as int),
        decreases order@.len() - k,
    {
        let x = order[k];
        proof {
            assert(left@.contains(x));
        }
        let entry = (x, keys[x], (k + 1) as u32);
        let ghost before = r@;
        r.push(entry);
        proof {
            let sp = spec_renumbering(all, deleted);
            assert(r@ == before.push(entry));
            assert(renumbered_view(r@) =~= renumbered_view(before).push((x, keys@[x as int], (k + 1) as nat)));
            assert(sp[k as int] == (order@[k as int], keys@[order@[k as int] as int], (k + 1) as nat));
            assert(sp.take(k + 1) =~= sp.take(k as int).push(sp[k as int]));
        }
        k = k + 1;
    }
    proof {
        assert(spec_renumbering(all, deleted).take(order@.len() as int) =~= spec_renumbering(all, deleted));
    }
    r
}


/// The indices `s` come in order of their numbers.
pub open spec fn by_number(keys: Seq<u32>, s: Seq<usize>) -> bool {
    forall|i: int, j: int| 0 <= i < j < s.len() ==> keys[#[trigger] s[i] as int] <= keys[#[trigger] s[j] as int]
}

proof fn lemma_number_insert_split(keys: Seq<u32>, s: Seq<usize>, x: usize, j: int)
    requires
        0 <= j <= s.len(),
        by_number(keys, s),
        forall|m: int| 0 <= m < j ==> keys[#[trigger] s[m] as int] <= keys[x as int],
    ensures
        forall|m: int| 0 <= m < number_insert_pos(keys, s, x, j) ==> keys[#[trigger] s[m] as int] <= keys[x as int],
        forall|m: int| number_insert_pos(keys, s, x, j) <= m < s.len() ==> keys[x as int] <= keys[#[trigger] s[m] as int],
    decreases s.len() - j,
{
    if j < s.len() {
        if keys[s[j] as int] > keys[x as int] {
            assert forall|m: int| j <= m < s.len() implies keys[x as int] <= keys[#[trigger] s[m] as int] by {
                if m > j {
                    assert(keys[s[j] as int] <= keys[s[m] as int]);
                }
            }
        } else {
            lemma_number_insert_split(keys, s, x, j + 1);
        }
    }
}

proof fn lemma_number_order_sorted(keys: Seq<u32>, idx: Seq<usize>)
    ensures
        by_number(keys, number_order(keys, idx)),
        number_order(keys, idx).to_multiset() == idx.to_multiset(),
    decreases idx.len(),
{
    broadcast use vstd::seq_lib::group_to_multiset_ensures;

    if idx.len() == 0 {
        assert(number_order(keys, idx).to_multiset() =~= idx.to_multiset());
    } else {
        let s = number_order(keys, idx.drop_last());
        let x = idx.last();
        lemma_number_order_sorted(keys, idx.drop_last());
        lemma_number_insert_pos(keys, s, x, 0);
        lemma_number_insert_split(keys, s, x, 0);
        let p = number_insert_pos(keys, s, x, 0);
        let r = s.insert(p, x);
        assert forall|i: int, j: int| 0 <= i < j < r.len() implies keys[#[trigger] r[i] as int] <= keys[#[trigger] r[j] as int] by {
            if j < p {
                assert(r[i] == s[i] && r[j] == s[j]);
            } else if j == p {
                assert(r[i] == s[i]);
            } else if i == p {
                assert(r[j] == s[j - 1]);
            } else if i < p {
                assert(r[i] == s[i] && r[j] == s[j - 1]);
            } else {
                assert(r[i] == s[i - 1] && r[j] == s[j - 1]);
            }
        }
        vstd::seq_lib::to_multiset_insert(s, p, x);
        assert(idx =~= idx.drop_last().push(x));
        assert(idx.to_multiset() == idx.drop_last().to_multiset().insert(x));
    }
}

proof fn lemma_remaining_pages(names: Seq<Seq<char>>, deleted: u32, n: int, j: int)
    requires
        0 <= n <= names.len() <= usize::MAX,
        0 <= j < remaining_pages(names, deleted, n).len(),
    ensures
        spec_md_page_number(names[remaining_pages(names, deleted, n)[j] as int]) is Some,
        spec_md_page_number(names[remaining_pages(names, deleted, n)[j] as int])->0 != deleted,
    decreases n,
{
    lemma_remaining_below(names, deleted, n);
    if n > 0 {
        let rest = remaining_pages(names, deleted, n - 1);
        lemma_remaining_below(names, deleted, n - 1);
        match spec_md_page_number(names[n - 1]) {
            Some(v) => {
                if v != deleted {
                    assert(remaining_pages(names, deleted, n) == rest.push((n - 1) as usize));
                    if j < rest.len() {
                        assert(remaining_pages(names, deleted, n)[j] == rest[j]);
                        lemma_remaining_pages(names, deleted, n - 1, j);
                    } else {
                        assert(remaining_pages(names, deleted, n)[j] == (n - 1) as usize);
                    }
                } else {
                    assert(remaining_pages(names, deleted, n) == rest);
                    lemma_remaining_pages(names, deleted, n - 1, j);
                }
            },
            None => {
                assert(remaining_pages(names, deleted, n) == rest);
                lemma_remaining_pages(names, deleted, n - 1, j);
            },
        }
    }
}

/// After a page is deleted, the pages left are numbered 1, 2, 3, ... in
/// the order of their old numbers: each page whose file name gives a
/// number other than the deleted one is renumbered exactly once, and no
/// page keeps the deleted number.
pub proof fn law_renumbering_is_consecutive(names: Seq<Seq<char>>, deleted: u32)
    requires
        names.len() <= usize::MAX,
    ensures
        forall|k: int| 0 <= k < spec_renumbering(names, deleted).len() ==> (#[trigger] spec_renumbering(names, deleted)[k]).2
            == k + 1,
        forall|i: int, j: int|
            0 <= i < j < spec_renumbering(names, deleted).len() ==> (#[trigger] spec_renumbering(names, deleted)[i]).1
                <= (#[trigger] spec_renumbering(names, deleted)[j]).1,
        forall|k: int|
            0 <= k < spec_renumbering(names, deleted).len() ==> spec_md_page_number(
                names[(#[trigger] spec_renumbering(names, deleted)[k]).0 as int],
            ) == Some(spec_renumbering(names, deleted)[k].1) && spec_renumbering(names, deleted)[k].1 != deleted,
        spec_renumbering(names, deleted).map_values(|e: (usize, u32, nat)| e.0).to_multiset() == remaining_pages(
            names,
            deleted,
            names.len() as int,
        ).to_multiset(),
{
    let keys = page_numbers(names);
    let left = remaining_pages(names, deleted, names.len() as int);
    let order = number_order(keys, left);
    let r = spec_renumbering(names, deleted);
    lemma_number_order_sorted(keys, left);
    lemma_number_order_from(keys, left);
    lemma_remaining_below(names, deleted, names.len() as int);
    assert forall|i: int, j: int| 0 <= i < j < r.len() implies (#[trigger] r[i]).1 <= (#[trigger] r[j]).1 by {
        assert(keys[order[i] as int] <= keys[order[j] as int]);
    }
    assert forall|k: int| 0 <= k < r.len() implies spec_md_page_number(names[(#[trigger] r[k]).0 as int]) == Some(r[k].1)
        && r[k].1 != deleted by {
        assert(left.contains(order[k]));
        let m = choose|m: int| 0 <= m < left.len() && left[m] == order[k];
        lemma_remaining_pages(names, deleted, names.len() as int, m);
    }
    assert(r.map_values(|e: (usize, u32, nat)| e.0) =~= order);
}


/// Pages are listed in order of their numbers, each page exactly once.
pub proof fn law_page_order_sorted(nums: Seq<u32>)
    ensures
        by_number(nums, number_order(nums, indices(nums.len()))),
        number_order(nums, indices(nums.len())).to_multiset() == indices(nums.len()).to_multiset(),
{
    lemma_number_order_sorted(nums, indices(nums.len()));
}

proof fn lemma_remaining_distinct(names: Seq<Seq<char>>, deleted: u32, n: int)
    requires
        0 <= n <= names.len(),
        names.len() <= usize::MAX,
    ensures
        remaining_pages(names, deleted, n).no_duplicates(),
    decreases n,
{
    if n > 0 {
        lemma_remaining_distinct(names, deleted, n - 1);
        lemma_remaining_below(names, deleted, n - 1);
        let rest = remaining_pages(names, deleted, n - 1);
        let cur = remaining_pages(names, deleted, n);
        if cur != rest {
            assert(cur == rest.push((n - 1) as usize));
            assert(rest.len() <= n - 1);
            assert forall|a: int, b: int| 0 <= a < b < cur.len() implies cur[a] != cur[b] by {
                if b < rest.len() {
                    assert(cur[a] == rest[a] && cur[b] == rest[b]);
                } else {
                    assert(cur[a] == rest[a]);
                    assert(cur[b] == (n - 1) as usize);
                    assert(rest[a] < n - 1);
                }
            }
        }
    }
}

proof fn lemma_strictly_up(s: Seq<u32>, k: int)
    requires
        0 <= k < s.len(),
        s.len() > 0 ==> s[0] >= 1,
        forall|i: int| 0 < i < s.len() ==> #[trigger] s[i] > s[i - 1],
    ensures
        s[k] >= k + 1,
    decreases k,
{
    if k > 0 {
        lemma_strictly_up(s, k - 1);
        assert(s[k] > s[k - 1]);
    }
}

/// Renaming the pages left after a deletion one after another, in the
/// order of the renumbering, never lands a page on the file of a page that
/// is still to be renamed, and every page moves down or stays: so no page
/// is lost, when the page files give distinct numbers, none of them 0.
pub proof fn law_renames_never_overwrite(names: Seq<Seq<char>>, deleted: u32)
    requires
        names.len() <= usize::MAX,
        forall|i: int, j: int|
            0 <= i < j < names.len() && #[trigger] spec_md_page_number(names[i]) is Some ==> spec_md_page_number(names[i])
                != #[trigger] spec_md_page_number(names[j]),
        forall|i: int| 0 <= i < names.len() ==> #[trigger] spec_md_page_number(names[i]) != Some(0u32),
    ensures
        forall|k: int|
            0 <= k < spec_renumbering(names, deleted).len() ==> (#[trigger] spec_renumbering(names, deleted)[k]).2
                <= spec_renumbering(names, deleted)[k].1,
        forall|k: int, j: int|
            0 <= k < j < spec_renumbering(names, deleted).len() ==> (#[trigger] spec_renumbering(names, deleted)[j]).1
                != (#[trigger] spec_renumbering(names, deleted)[k]).2,
{
    let r = spec_renumbering(names, deleted);
    let keys = page_numbers(names);
    let left = remaining_pages(names, deleted, names.len() as int);
    let order = number_order(keys, left);
    law_renumbering_is_consecutive(names, deleted);
    lemma_number_order_sorted(keys, left);
    lemma_number_order_from(keys, left);
    lemma_remaining_distinct(names, deleted, names.len() as int);
    lemma_remaining_below(names, deleted, names.len() as int);
    assert(r.map_values(|e: (usize, u32, nat)| e.0) =~= order);
    left.lemma_multiset_has_no_duplicates();
    order.lemma_multiset_has_no_duplicates_conv();
    let olds = Seq::new(r.len(), |k: int| r[k].1);
    assert forall|i: int| 0 < i < olds.len() implies #[trigger] olds[i] > olds[i - 1] by {
        assert(r[i - 1].1 <= r[i].1);
        let a = order[i - 1] as int;
        let b = order[i] as int;
        assert(order[i - 1] != order[i]);
        assert(left.contains(order[i - 1]) && left.contains(order[i]));
        assert(spec_md_page_number(names[a]) == Some(r[i - 1].1));
        assert(spec_md_page_number(names[b]) == Some(r[i].1));
        if a < b {
            assert(spec_md_page_number(names[a]) != spec_md_page_number(names[b]));
        } else {
            assert(spec_md_page_number(names[b]) != spec_md_page_number(names[a]));
        }
    }
    if r.len() > 0 {
        assert(spec_md_page_number(names[r[0].0 as int]) == Some(r[0].1));
        assert(r[0].1 != 0);
    }
    assert forall|k: int| 0 <= k < r.len() implies (#[trigger] r[k]).2 <= r[k].1 by {
        lemma_strictly_up(olds, k);
    }
    assert forall|k: int, j: int| 0 <= k < j < r.len() implies (#[trigger] r[j]).1 != (#[trigger] r[k]).2 by {
        lemma_strictly_up(olds, j);
    }
}

} // verus!
