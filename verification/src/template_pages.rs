//! Placing pages on a template: which kind of page a slide is, which layout
//! and fixed regions that kind takes, and which picture slices stay clear
//! of the regions that must not be covered.
use vstd::prelude::*;
use crate::style_guide::{spec_to_lowercase, to_lowercase};
use crate::text::{chars_of, starts_with_at};

verus! {

/// The kind of a page of a deck.
#[derive(Clone, Copy, Debug, PartialEq, Eq, Structural)]
pub enum PageType {
    FrontCover,
    Content,
    BackCover,
}

/// `kw` occurs in `s`.
pub open spec fn contains_sub(s: Seq<char>, kw: Seq<char>) -> bool {
    exists|i: int| 0 <= i && i + kw.len() <= s.len() && #[trigger] s.subrange(i, i + kw.len()) == kw
}

pub open spec fn front_keywords() -> Seq<Seq<char>> {
    seq!["封面"@, "首页"@, "cover"@, "front"@, "title"@, "封面页"@]
}

pub open spec fn back_keywords() -> Seq<Seq<char>> {
    seq![
        "封底"@,
        "尾页"@,
        "结束"@,
        "back"@,
        "end"@,
        "closing"@,
        "感谢"@,
        "谢谢"@,
        "thanks"@,
        "thank you"@,
        "q&a"@,
        "问答"@,
    ]
}

/// Some keyword of the list occurs in `s`.
pub open spec fn mentions_any(s: Seq<char>, kws: Seq<Seq<char>>) -> bool {
    exists|k: int| 0 <= k < kws.len() && contains_sub(s, #[trigger] kws[k])
}

/// The kind of page `slide_num` of `total_pages`, from its position and its
/// lower-cased title: the first page is the front cover and the last the
/// back cover; in between, a cover or closing keyword in the title decides,
/// and a page with neither is content.
pub open spec fn spec_page_type_lower(slide_num: usize, total_pages: usize, lower_title: Seq<char>) -> PageType {
    if slide_num == 1 {
        PageType::FrontCover
    } else if slide_num == total_pages {
        PageType::BackCover
    } else if mentions_any(lower_title, front_keywords()) {
        PageType::FrontCover
    } else if mentions_any(lower_title, back_keywords()) {
        PageType::BackCover
    } else {
        PageType::Content
    }
}

/// Whether `kw` occurs in `s`.
pub(crate) fn contains_keyword(s: &Vec<char>, kw: &str) -> (r: bool)
    requires
        kw@.len() > 0,
    ensures
        r == contains_sub(s@, kw@),
{
    let k = chars_of(kw);
    let n = s.len();
    let m = k.len();
    if m > n {
        proof {
            assert forall|i: int| !(0 <= i && i + kw@.len() <= s@.len() && #[trigger] s@.subrange(i, i + kw@.len()) == kw@) by {}
        }
        return false;
    }
    let mut i: usize = 0;
    while i <= n - m
        invariant
            0 < m <= n,
            n == s@.len(),
            m == k@.len(),
            k@ == kw@,
            0 <= i <= n - m + 1,
            forall|j: int| 0 <= j < i ==> #[trigger] s@.subrange(j, j + m) != kw@,
        decreases n - m + 1 - i,
    {
        let found = starts_with_at(s.as_slice(), i, i + m, k.as_slice());
        proof {
            assert(s@.subrange(i as int, i + m).take(m as int) =~= s@.subrange(i as int, i + m));
        }
        if found {
            return true;
        }
        i = i + 1;
    }
    proof {
        assert forall|j: int| !(0 <= j && j + kw@.len() <= s@.len() && #[trigger] s@.subrange(j, j + kw@.len()) == kw@) by {
            if 0 <= j && j + m <= n {
                assert(s@.subrange(j, j + m) != kw@);
            }
        }
    }
    false
}

/// Whether any keyword of `kws` occurs in `s`.
pub(crate) fn contains_any(s: &Vec<char>, kws: &[&str], Ghost(spec_kws): Ghost<Seq<Seq<char>>>) -> (r: bool)
    requires
        kws@.len() == spec_kws.len(),
        forall|k: int| 0 <= k < kws@.len() ==> (#[trigger] kws@[k])@.len() > 0,
        forall|k: int| 0 <= k < kws@.len() ==> #[trigger] kws@[k]@ == spec_kws[k],
    ensures
        r == mentions_any(s@, spec_kws),
{
    let mut k: usize = 0;
    while k < kws.len()
        invariant
            0 <= k <= kws@.len(),
            kws@.len() == spec_kws.len(),
            forall|j: int| 0 <= j < kws@.len() ==> #[trigger] kws@[j]@ == spec_kws[j],
            forall|j: int| 0 <= j < kws@.len() ==> (#[trigger] kws@[j])@.len() > 0,
            forall|j: int| 0 <= j < k ==> !contains_sub(s@, #[trigger] spec_kws[j]),
        decreases kws@.len() - k,
    {
        if contains_keyword(s, kws[k]) {
            proof {
                assert(contains_sub(s@, spec_kws[k as int]));
            }
            return true;
        }
        k = k + 1;
    }
    false
}

/// The kind of a page from its position and its lower-cased title.
pub fn page_type_of_lowercase(slide_num: usize, total_pages: usize, lower_title: &str) -> (r: PageType)
    ensures
        r == spec_page_type_lower(slide_num, total_pages, lower_title@),
{
    if slide_num == 1 {
        return PageType::FrontCover;
    }
    if slide_num == total_pages {
        return PageType::BackCover;
    }
    let t = chars_of(lower_title);
    let front = ["封面", "首页", "cover", "front", "title", "封面页"];
    proof {
        reveal_strlit("封面");
        reveal_strlit("首页");
        reveal_strlit("cover");
        reveal_strlit("front");
        reveal_strlit("title");
        reveal_strlit("封面页");
        assert(front@.len() == front_keywords().len());
        assert forall|k: int| 0 <= k < front@.len() implies #[trigger] front@[k]@ == front_keywords()[k] by {}
    }
    if contains_any(&t, &front, Ghost(front_keywords())) {
        return PageType::FrontCover;
    }
    let back = ["封底", "尾页", "结束", "back", "end", "closing", "感谢", "谢谢", "thanks", "thank you", "q&a", "问答"];
    proof {
        reveal_strlit("封底");
        reveal_strlit("尾页");
        reveal_strlit("结束");
        reveal_strlit("back");
        reveal_strlit("end");
        reveal_strlit("closing");
        reveal_strlit("感谢");
        reveal_strlit("谢谢");
        reveal_strlit("thanks");
        reveal_strlit("thank you");
        reveal_strlit("q&a");
        reveal_strlit("问答");
        assert(back@.len() == back_keywords().len());
        assert forall|k: int| 0 <= k < back@.len() implies #[trigger] back@[k]@ == back_keywords()[k] by {}
    }
    if contains_any(&t, &back, Ghost(back_keywords())) {
        return PageType::BackCover;
    }
    PageType::Content
}

/// The kind of a page: its position first, then keywords of its title
/// compared after lower-casing with `str::to_lowercase`.
pub fn determine_page_type(slide_num: usize, total_pages: usize, title: &str) -> (r: PageType)
    ensures
        r == spec_page_type_lower(slide_num, total_pages, spec_to_lowercase(title@)),
{
    if slide_num == 1 {
        return PageType::FrontCover;
    }
    if slide_num == total_pages {
        return PageType::BackCover;
    }
    let lower = to_lowercase(title);
    page_type_of_lowercase(slide_num, total_pages, lower.as_str())
}

/// A region of a template slide that a page must leave free (a page
/// number, a logo, a notice), in EMU.
#[derive(Clone, Copy, Debug)]
pub struct FixedRegion {
    pub x: i64,
    pub y: i64,
    pub width: i64,
    pub height: i64,
}

/// A layout of a template: its index, the kind of page it serves, and its
/// fixed regions.
#[derive(Clone, Debug)]
pub struct TemplateLayout {
    pub layout_index: u32,
    pub page_type: PageType,
    pub fixed_regions: Vec<FixedRegion>,
}

/// The first layout serving `page_type`, if any.
pub open spec fn first_layout_for(page_type: PageType, layouts: Seq<TemplateLayout>) -> Option<int> {
    if exists|i: int| 0 <= i < layouts.len() && layouts[i].page_type == page_type {
        Some(choose|i: int| 0 <= i < layouts.len() && layouts[i].page_type == page_type && (forall|j: int|
            0 <= j < i ==> layouts[j].page_type != page_type))
    } else {
        None
    }
}

/// Finds the first layout serving `page_type`.
fn find_layout(page_type: PageType, layouts: &[TemplateLayout]) -> (r: Option<usize>)
    ensures
        match r {
            Some(i) => i < layouts@.len() && layouts@[i as int].page_type == page_type && forall|j: int|
                0 <= j < i ==> layouts@[j].page_type != page_type,
            None => forall|j: int| 0 <= j < layouts@.len() ==> layouts@[j].page_type != page_type,
        },
{
    let mut i: usize = 0;
    while i < layouts.len()
        invariant
            0 <= i <= layouts@.len(),
            forall|j: int| 0 <= j < i ==> layouts@[j].page_type != page_type,
        decreases layouts@.len() - i,
    {
        if layouts[i].page_type == page_type {
            return Some(i);
        }
        i = i + 1;
    }
    None
}

proof fn lemma_first_layout(page_type: PageType, layouts: Seq<TemplateLayout>, i: int)
    requires
        0 <= i < layouts.len(),
        layouts[i].page_type == page_type,
        forall|j: int| 0 <= j < i ==> layouts[j].page_type != page_type,
    ensures
        first_layout_for(page_type, layouts) == Some(i),
{
    let c = choose|c: int| 0 <= c < layouts.len() && layouts[c].page_type == page_type && (forall|j: int|
        0 <= j < c ==> layouts[j].page_type != page_type);
    assert(0 <= i < layouts.len() && layouts[i].page_type == page_type && (forall|j: int|
        0 <= j < i ==> layouts[j].page_type != page_type));
    if c < i {
        assert(layouts[c].page_type != page_type);
    }
    if c > i {
        assert(layouts[i].page_type != page_type);
    }
}

/// The layout index for a kind of page: that of the first layout serving
/// it, or 1.
pub open spec fn spec_layout_for(page_type: PageType, layouts: Seq<TemplateLayout>) -> u32 {
    match first_layout_for(page_type, layouts) {
        Some(i) => layouts[i].layout_index,
        None => 1,
    }
}

pub fn get_layout_for_page_type(page_type: PageType, layouts: &[TemplateLayout]) -> (r: u32)
    ensures
        r == spec_layout_for(page_type, layouts@),
{
    match find_layout(page_type, layouts) {
        Some(i) => {
            proof {
                lemma_first_layout(page_type, layouts@, i as int);
            }
            layouts[i].layout_index
        },
        None => 1,
    }
}

/// The fixed regions for a kind of page: those of the first layout serving
/// it, or none.
pub open spec fn spec_fixed_regions(page_type: PageType, layouts: Seq<TemplateLayout>) -> Seq<FixedRegion> {
    match first_layout_for(page_type, layouts) {
        Some(i) => layouts[i].fixed_regions@,
        None => seq![],
    }
}

fn copy_regions(v: &Vec<FixedRegion>) -> (r: Vec<FixedRegion>)
    ensures
        r@ == v@,
{
    let mut r: Vec<FixedRegion> = Vec::new();
    let mut i: usize = 0;
    while i < v.len()
        invariant
            0 <= i <= v@.len(),
            r@ == v@.take(i as int),
        decreases v@.len() - i,
    {
        let f = v[i];
        r.push(FixedRegion { x: f.x, y: f.y, width: f.width, height: f.height });
        proof {
            assert(v@.take(i + 1) =~= v@.take(i as int).push(v@[i as int]));
        }
        i = i + 1;
    }
    proof {
        assert(v@.take(v@.len() as int) =~= v@);
    }
    r
}

pub fn get_fixed_regions(page_type: PageType, layouts: &[TemplateLayout]) -> (r: Vec<FixedRegion>)
    ensures
        r@ == spec_fixed_regions(page_type, layouts@),
{
    match find_layout(page_type, layouts) {
        Some(i) => {
            proof {
                lemma_first_layout(page_type, layouts@, i as int);
            }
            copy_regions(&layouts[i].fixed_regions)
        },
        None => Vec::new(),
    }
}

/// The tolerance, in EMU, around a fixed region.
pub const FIXED_TOLERANCE: i64 = 50000;

pub open spec fn in_i64(v: int) -> bool {
    i64::MIN <= v <= i64::MAX
}

pub open spec fn min_int(a: int, b: int) -> int {
    if a < b { a } else { b }
}

pub open spec fn max_int(a: int, b: int) -> int {
    if a > b { a } else { b }
}

/// The overlap of a text box with a fixed region along each axis, and the
/// overlapping area.
pub open spec fn overlap_x(x: int, w: int, r: FixedRegion) -> int {
    min_int(x + w, r.x + r.width) - max_int(x, r.x as int)
}

pub open spec fn overlap_y(y: int, h: int, r: FixedRegion) -> int {
    min_int(y + h, r.y + r.height) - max_int(y, r.y as int)
}

pub open spec fn overlap_area(x: int, y: int, w: int, h: int, r: FixedRegion) -> int {
    max_int(overlap_x(x, w, r), 0) * max_int(overlap_y(y, h, r), 0)
}

/// Every sum and product of the overlap test stays within `i64`.
pub open spec fn overlap_fits(x: int, y: int, w: int, h: int, r: FixedRegion) -> bool {
    &&& in_i64(x + w) && in_i64(y + h) && in_i64(w * h)
    &&& in_i64(r.x + r.width) && in_i64(r.y + r.height)
    &&& in_i64(r.x + r.width + FIXED_TOLERANCE) && in_i64(r.x - FIXED_TOLERANCE)
    &&& in_i64(r.y + r.height + FIXED_TOLERANCE) && in_i64(r.y - FIXED_TOLERANCE)
    &&& in_i64(overlap_x(x, w, r)) && in_i64(overlap_y(y, h, r))
    &&& in_i64(overlap_area(x, y, w, h, r)) && in_i64(overlap_area(x, y, w, h, r) * 100)
}

/// Whether a text box at `(x, y)` of size `w` by `h` (EMU) meets a fixed
/// region widened by the tolerance, and covers more than 30% of its own
/// area with the region itself (division rounding toward zero).
pub open spec fn overlaps_region(x: int, y: int, w: int, h: int, r: FixedRegion) -> bool {
    let touches_x = x < r.x + r.width + FIXED_TOLERANCE && x + w > r.x - FIXED_TOLERANCE;
    let touches_y = y < r.y + r.height + FIXED_TOLERANCE && y + h > r.y - FIXED_TOLERANCE;
    touches_x && touches_y && w * h > 0 && (overlap_area(x, y, w, h, r) * 100) / (w * h) > 30
}

/// Whether the box overlaps any of the regions.
pub open spec fn overlaps_any(x: int, y: int, w: int, h: int, regions: Seq<FixedRegion>) -> bool {
    exists|k: int| 0 <= k < regions.len() && overlaps_region(x, y, w, h, #[trigger] regions[k])
}

fn max_i64(a: i64, b: i64) -> (r: i64)
    ensures
        r == max_int(a as int, b as int),
{
    if a > b {
        a
    } else {
        b
    }
}

fn min_i64(a: i64, b: i64) -> (r: i64)
    ensures
        r == min_int(a as int, b as int),
{
    if a < b {
        a
    } else {
        b
    }
}

/// Whether a text box, given in EMU, covers more than 30% of its area with
/// one of the fixed regions.
pub fn overlaps_fixed_regions(x: i64, y: i64, w: i64, h: i64, regions: &[FixedRegion]) -> (r: bool)
    requires
        forall|k: int| 0 <= k < regions@.len() ==> overlap_fits(x as int, y as int, w as int, h as int, #[trigger] regions@[k]),
    ensures
        r == overlaps_any(x as int, y as int, w as int, h as int, regions@),
{
    let mut k: usize = 0;
    while k < regions.len()
        invariant
            0 <= k <= regions@.len(),
            forall|j: int| 0 <= j < regions@.len() ==> overlap_fits(x as int, y as int, w as int, h as int, #[trigger] regions@[j]),
            forall|j: int| 0 <= j < k ==> !overlaps_region(x as int, y as int, w as int, h as int, #[trigger] regions@[j]),
        decreases regions@.len() - k,
    {
        let r = regions[k];
        proof {
            assert(overlap_fits(x as int, y as int, w as int, h as int, regions@[k as int]));
        }
        let touches_x = x < r.x + r.width + FIXED_TOLERANCE && x + w > r.x - FIXED_TOLERANCE;
        let touches_y = y < r.y + r.height + FIXED_TOLERANCE && y + h > r.y - FIXED_TOLERANCE;
        if touches_x && touches_y {
            let ox = min_i64(x + w, r.x + r.width) - max_i64(x, r.x);
            let oy = min_i64(y + h, r.y + r.height) - max_i64(y, r.y);
            let area = max_i64(ox, 0) * max_i64(oy, 0);
            let tb_area = w * h;
            if tb_area > 0 && area * 100 / tb_area > 30 {
                return true;
            }
        }
        k = k + 1;
    }
    false
}

/// A region of a picture, in pixels.
#[derive(Clone, Copy, Debug)]
pub struct ContentRegion {
    pub x: u32,
    pub y: u32,
    pub width: u32,
    pub height: u32,
}

/// Whether more than half of a region lies under the excluded rectangle
/// `(x, y, w, h)`.
pub open spec fn mostly_excluded(r: ContentRegion, ex: (u32, u32, u32, u32)) -> bool {
    r.width * r.height > 0 && (excluded_area(r, ex) * 100) / (r.width * r.height) > 50
}

/// A region is kept when no excluded rectangle covers more than half of it.
pub open spec fn kept(r: ContentRegion, excludes: Seq<(u32, u32, u32, u32)>) -> bool {
    forall|k: int| 0 <= k < excludes.len() ==> !mostly_excluded(r, #[trigger] excludes[k])
}

/// The regions kept, in order.
pub open spec fn spec_filter_regions(regions: Seq<ContentRegion>, excludes: Seq<(u32, u32, u32, u32)>) -> Seq<ContentRegion>
    decreases regions.len(),
{
    if regions.len() == 0 {
        seq![]
    } else {
        let rest = spec_filter_regions(regions.drop_last(), excludes);
        if kept(regions.last(), excludes) {
            rest.push(regions.last())
        } else {
            rest
        }
    }
}

/// The area where a region and an excluded rectangle overlap.
pub open spec fn excluded_area(r: ContentRegion, ex: (u32, u32, u32, u32)) -> int {
    let ox = min_int(r.x + r.width, ex.0 + ex.2) - max_int(r.x as int, ex.0 as int);
    let oy = min_int(r.y + r.height, ex.1 + ex.3) - max_int(r.y as int, ex.1 as int);
    max_int(ox, 0) * max_int(oy, 0)
}

/// No sum of the overlap test leaves `u32`, and a hundred times an overlap
/// fits in `u64`.
pub open spec fn regions_fit(regions: Seq<ContentRegion>, excludes: Seq<(u32, u32, u32, u32)>) -> bool {
    &&& forall|i: int|
        0 <= i < regions.len() ==> #[trigger] regions[i].x + regions[i].width <= u32::MAX && regions[i].y
            + regions[i].height <= u32::MAX
    &&& forall|k: int| 0 <= k < excludes.len() ==> #[trigger] excludes[k].0 + excludes[k].2 <= u32::MAX && excludes[k].1 + excludes[k].3 <= u32::MAX
    &&& forall|i: int, k: int|
        0 <= i < regions.len() && 0 <= k < excludes.len() ==> excluded_area(#[trigger] regions[i], #[trigger] excludes[k]) * 100 <= u64::MAX
}

fn is_kept(r: ContentRegion, excludes: &[(u32, u32, u32, u32)]) -> (b: bool)
    requires
        r.x + r.width <= u32::MAX,
        r.y + r.height <= u32::MAX,
        forall|k: int| 0 <= k < excludes@.len() ==> excluded_area(r, #[trigger] excludes@[k]) * 100 <= u64::MAX,
        forall|k: int| 0 <= k < excludes@.len() ==> #[trigger] excludes@[k].0 + excludes@[k].2 <= u32::MAX && excludes@[k].1 + excludes@[k].3 <= u32::MAX,
    ensures
        b == kept(r, excludes@),
{
    let mut k: usize = 0;
    while k < excludes.len()
        invariant
            0 <= k <= excludes@.len(),
            r.x + r.width <= u32::MAX,
            r.y + r.height <= u32::MAX,
            forall|j: int| 0 <= j < excludes@.len() ==> excluded_area(r, #[trigger] excludes@[j]) * 100 <= u64::MAX,
            forall|j: int| 0 <= j < excludes@.len() ==> #[trigger] excludes@[j].0 + excludes@[j].2 <= u32::MAX && excludes@[j].1 + excludes@[j].3 <= u32::MAX,
            forall|j: int| 0 <= j < k ==> !mostly_excluded(r, #[trigger] excludes@[j]),
        decreases excludes@.len() - k,
    {
        let (ex_x, ex_y, ex_w, ex_h) = excludes[k];
        let right = if r.x + r.width < ex_x + ex_w { r.x + r.width } else { ex_x + ex_w };
        let left = if r.x > ex_x { r.x } else { ex_x };
        let bottom = if r.y + r.height < ex_y + ex_h { r.y + r.height } else { ex_y + ex_h };
        let top = if r.y > ex_y { r.y } else { ex_y };
        let ox: u32 = if right > left { right - left } else { 0 };
        let oy: u32 = if bottom > top { bottom - top } else { 0 };
        proof {
            assert((r.width as int) * (r.height as int) <= u64::MAX) by (nonlinear_arith)
                requires
                    r.width <= u32::MAX,
                    r.height <= u32::MAX,
            ;
        }
        let region_area = r.width as u64 * r.height as u64;
        proof {
            assert(excluded_area(r, excludes@[k as int]) == (ox as int) * (oy as int));
            assert(0 <= (ox as int) * (oy as int)) by (nonlinear_arith);
            assert((r.width as int) * (r.height as int) <= u64::MAX) by (nonlinear_arith)
                requires
                    r.width <= u32::MAX,
                    r.height <= u32::MAX,
            ;
        }
        let overlap_area = ox as u64 * oy as u64;
        if region_area > 0 && overlap_area * 100 / region_area > 50 {
            proof {
                assert(mostly_excluded(r, excludes@[k as int]));
            }
            return false;
        }
        k = k + 1;
    }
    true
}

/// Keeps the picture regions that no excluded rectangle covers by more than
/// half, in order.
pub fn filter_regions_by_exclusions(
    regions: &[ContentRegion],
    exclude_regions: &[(u32, u32, u32, u32)],
    _img_width: u32,
    _img_height: u32,
) -> (r: Vec<ContentRegion>)
    requires
        regions_fit(regions@, exclude_regions@),
    ensures
        r@ == spec_filter_regions(regions@, exclude_regions@),
{
    let mut out: Vec<ContentRegion> = Vec::new();
    let mut i: usize = 0;
    while i < regions.len()
        invariant
            0 <= i <= regions@.len(),
            regions_fit(regions@, exclude_regions@),
            out@ == spec_filter_regions(regions@.take(i as int), exclude_regions@),
        decreases regions@.len() - i,
    {
        let reg = regions[i];
        proof {
            assert(regions@.take(i + 1).drop_last() =~= regions@.take(i as int));
        }
        if is_kept(reg, exclude_regions) {
            out.push(reg);
        }
        i = i + 1;
    }
    proof {
        assert(regions@.take(regions@.len() as int) =~= regions@);
    }
    out
}

} // verus!
