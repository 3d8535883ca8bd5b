//! Project and page states, and cutting a confirmed outline into pages
//! with their titles.
use vstd::prelude::*;
use crate::outline::{lemma_next_separator, next_separator, outline_pieces, piece_spans, page_separator};
use crate::text::{
    chars_of, has_prefix, lemma_line_end, push_char, line_end, line_text_end, line_text_end_exec, next_line_end, owned,
    push_string, starts_with_at, substring, trim, trim_bounds, views,
};

verus! {

/// Where a project stands.
#[derive(Clone, Copy, Debug, PartialEq, Eq, Structural)]
pub enum ProjectStatus {
    Draft,
    OutlineDraft,
    OutlineConfirmed,
    PagesSplit,
    ImagesGenerating,
    ImagesDone,
    Exported,
}

/// Where one page stands.
#[derive(Clone, Copy, Debug, PartialEq, Eq, Structural)]
pub enum PageStatus {
    Unprocessed,
    ImageGenerated,
    ImageFailed,
}

/// Cuts an outline into pages at each `"\n---\n"`; without a separator the
/// whole outline is one page.
pub fn split_outline_content(content: &str) -> (r: Vec<String>)
    ensures
        views(r@) == outline_pieces(content@),
{
    let s = chars_of(content);
    let n = s.len();
    let mut sep: Vec<char> = Vec::new();
    sep.push('\n');
    sep.push('-');
    sep.push('-');
    sep.push('-');
    sep.push('\n');
    proof {
        assert(sep@ =~= page_separator());
    }
    let ghost spans = piece_spans(s@, 0);
    let mut parts: Vec<String> = Vec::new();
    let mut lo: usize = 0;
    let mut done = false;
    proof {
        assert(views(parts@) =~= Seq::<Seq<char>>::empty());
        assert(spans =~= spans.take(0) + piece_spans(s@, 0));
    }
    while !done
        invariant
            n == s@.len(),
            s@ == content@,
            sep@ == page_separator(),
            spans == piece_spans(s@, 0),
            0 <= lo <= n,
            !done ==> spans =~= spans.take(parts@.len() as int) + piece_spans(s@, lo as int),
            done ==> parts@.len() == spans.len(),
            parts@.len() <= spans.len(),
            forall|i: int| 0 <= i < parts@.len() ==> #[trigger] views(parts@)[i] == s@.subrange(spans[i].0, spans[i].1),
        decreases n - lo + (if done { 0int } else { 1int }),
    {
        let i = find_sep(s.as_slice(), sep.as_slice(), lo);
        proof {
            lemma_next_separator(s@, lo as int);
        }
        let k = parts.len();
        let hi = if i < n { i } else { n };
        proof {
            assert(piece_spans(s@, lo as int)[0] == (lo as int, hi as int));
            assert(spans[k as int] == (lo as int, hi as int));
        }
        let piece = substring(s.as_slice(), lo, hi);
        let ghost before = parts@;
        let ghost pv = piece@;
        push_string(&mut parts, piece);
        proof {
            assert(views(parts@).len() == parts@.len());
            assert(views(before).len() == before.len());
            assert(parts@.len() == k + 1);
            assert(views(parts@)[k as int] == pv);
            assert forall|j: int| 0 <= j < parts@.len() implies #[trigger] views(parts@)[j] == s@.subrange(spans[j].0, spans[j].1) by {
                if j < k {
                    assert(views(parts@)[j] == views(before)[j]);
                }
            }
        }
        if i < n {
            proof {
                assert(piece_spans(s@, lo as int) =~= seq![(lo as int, i as int)] + piece_spans(s@, i + 5));
                assert(spans.take(k + 1) =~= spans.take(k as int).push((lo as int, i as int)));
            }
            lo = i + 5;
        } else {
            done = true;
        }
    }
    proof {
        assert(views(parts@) =~= outline_pieces(content@));
    }
    parts
}

fn find_sep(s: &[char], sep: &[char], from: usize) -> (r: usize)
    requires
        from <= s@.len(),
        sep@ == page_separator(),
    ensures
        r == next_separator(s@, from as int),
{
    let n = s.len();
    let mut i = from;
    while i < n && n - i >= 5
        invariant
            from <= i <= n,
            n == s@.len(),
            sep@ == page_separator(),
            next_separator(s@, from as int) == next_separator(s@, i as int),
        decreases n - i,
    {
        let found = starts_with_at(s, i, i + 5, sep);
        proof {
            assert(s@.subrange(i as int, i + 5).take(5) =~= s@.subrange(i as int, i + 5));
        }
        if found {
            return i;
        }
        i = i + 1;
    }
    n
}

/// The number of leading characters of `s` that `keep` accepts.
pub open spec fn leading_count(s: Seq<char>, keep: spec_fn(char) -> bool) -> nat
    decreases s.len(),
{
    if s.len() == 0 {
        0
    } else if keep(s[0]) {
        1 + leading_count(s.drop_first(), keep)
    } else {
        0
    }
}

/// `s` without its leading characters that `keep` accepts
/// (`str::trim_start_matches`).
pub open spec fn strip_leading(s: Seq<char>, keep: spec_fn(char) -> bool) -> Seq<char> {
    s.skip(leading_count(s, keep) as int)
}

pub const HASH: u8 = 0;
pub const COLON: u8 = 1;
pub const DI: u8 = 2;
pub const DIGIT: u8 = 3;
pub const PAGE_MARK: u8 = 4;

/// The characters that a title strips from its start, by kind: `'#'`;
/// a colon (`':'` or `'：'`); `'第'`; a digit (ASCII or full-width); `'页'`
/// or a colon.
pub open spec fn keep_kind(kind: u8) -> spec_fn(char) -> bool {
    if kind == HASH {
        |c: char| c == '#'
    } else if kind == COLON {
        |c: char| c == ':' || c == '：'
    } else if kind == DI {
        |c: char| c == '第'
    } else if kind == DIGIT {
        |c: char| ('0' <= c && c <= '9') || ('０' <= c && c <= '９')
    } else {
        |c: char| c == '页' || c == '：' || c == ':'
    }
}

/// A heading's text: leading `'#'` go, then it is trimmed.
pub open spec fn heading_title(t: Seq<char>) -> Seq<char> {
    trim(strip_leading(t, keep_kind(HASH)))
}

/// The title of a page heading `## 第N页：XXX`, that is `XXX`: after the
/// heading's text, `第`, the page number, then `页` and colons go, and the
/// rest is trimmed.
pub open spec fn page_heading_title(t: Seq<char>) -> Seq<char> {
    trim(
        strip_leading(
            strip_leading(strip_leading(heading_title(t), keep_kind(DI)), keep_kind(DIGIT)),
            keep_kind(PAGE_MARK),
        ),
    )
}

/// The title of a line `**标题**: XXX`, that is `XXX`: after the marker
/// `**标题**`, colons go and the rest is trimmed.
pub open spec fn field_title(t: Seq<char>) -> Seq<char> {
    trim(strip_leading(t.skip(6), keep_kind(COLON)))
}

pub const UNNAMED_PAGE: &'static str = "未命名页面";

/// What one trimmed line gives as the page title, if anything; with
/// `skip_topic`, a heading `# ...` that starts with `主题` gives none.
pub open spec fn title_of_line(t: Seq<char>, skip_topic: bool) -> Option<Seq<char>> {
    if has_prefix(t, "## 第"@) && t.contains('页') && page_heading_title(t).len() > 0 {
        Some(page_heading_title(t))
    } else if has_prefix(t, "**标题**"@) && field_title(t).len() > 0 {
        Some(field_title(t))
    } else if has_prefix(t, "# "@) && !has_prefix(t, "## "@) && heading_title(t).len() > 0 && !(skip_topic
        && has_prefix(heading_title(t), "主题"@)) {
        Some(heading_title(t))
    } else {
        None
    }
}

/// Walks the lines from `lo`: the title given by the first line that gives
/// one, or `未命名页面`.
pub open spec fn title_from(s: Seq<char>, lo: int, skip_topic: bool) -> Seq<char>
    decreases s.len() - lo,
{
    if lo < 0 || lo >= s.len() {
        UNNAMED_PAGE@
    } else {
        let end = line_end(s, lo);
        let t = trim(s.subrange(lo, line_text_end(s, lo, end)));
        proof {
            lemma_line_end(s, lo);
        }
        match title_of_line(t, skip_topic) {
            Some(title) => title,
            None => if end < s.len() {
                title_from(s, end + 1, skip_topic)
            } else {
                UNNAMED_PAGE@
            },
        }
    }
}

/// The title of a page's Markdown, where a heading about the topic
/// (`# 主题...`) names no page.
pub open spec fn spec_page_title(content: Seq<char>) -> Seq<char> {
    title_from(content, 0, true)
}

/// The title of a page's Markdown, any top heading counting.
pub open spec fn spec_title(content: Seq<char>) -> Seq<char> {
    title_from(content, 0, false)
}

fn leading_char(c: char, kind: u8) -> (r: bool)
    ensures
        r == keep_kind(kind)(c),
{
    if kind == HASH {
        c == '#'
    } else if kind == COLON {
        c == ':' || c == '：'
    } else if kind == DI {
        c == '第'
    } else if kind == DIGIT {
        ('0' <= c && c <= '9') || ('０' <= c && c <= '９')
    } else {
        c == '页' || c == '：' || c == ':'
    }
}

/// Skips the characters of `s[a..b]` from `a` that `keep_kind(kind)` accepts.
fn skip_leading(s: &[char], a: usize, b: usize, kind: u8) -> (r: usize)
    requires
        a <= b <= s@.len(),
    ensures
        a <= r <= b,
        r - a == leading_count(s@.subrange(a as int, b as int), keep_kind(kind)),
        strip_leading(s@.subrange(a as int, b as int), keep_kind(kind)) == s@.subrange(r as int, b as int),
{
    let ghost keep = keep_kind(kind);
    let mut i = a;
    while i < b && leading_char(s[i], kind)
        invariant
            a <= i <= b,
            b <= s@.len(),
            keep == keep_kind(kind),
            leading_count(s@.subrange(a as int, b as int), keep) == (i - a) + leading_count(s@.subrange(i as int, b as int), keep),
        decreases b - i,
    {
        proof {
            assert(s@.subrange(i as int, b as int).drop_first() =~= s@.subrange(i + 1, b as int));
        }
        i = i + 1;
    }
    proof {
        assert(strip_leading(s@.subrange(a as int, b as int), keep) =~= s@.subrange(i as int, b as int));
    }
    i
}

fn contains_char(s: &[char], a: usize, b: usize, c: char) -> (r: bool)
    requires
        a <= b <= s@.len(),
    ensures
        r == s@.subrange(a as int, b as int).contains(c),
{
    let i = crate::text::find_char(s, a, b, c);
    proof {
        crate::text::lemma_first_index_of(s@.subrange(a as int, b as int), c);
        if i == b {
            assert forall|j: int| 0 <= j < b - a implies s@.subrange(a as int, b as int)[j] != c by {}
        } else {
            assert(s@.subrange(a as int, b as int)[i - a] == c);
        }
    }
    i < b
}

/// The title of a trimmed line `s[a..b]`, as bounds into `s`.
fn line_title(
    s: &[char],
    a: usize,
    b: usize,
    skip_topic: bool,
    p1: &Vec<char>,
    p2: &Vec<char>,
    p3: &Vec<char>,
    p4: &Vec<char>,
    p5: &Vec<char>,
) -> (r: Option<(usize, usize)>)
    requires
        a <= b <= s@.len(),
        p1@ == "## 第"@,
        p2@ == "**标题**"@,
        p3@ == "# "@,
        p4@ == "## "@,
        p5@ == "主题"@,
    ensures
        match r {
            Some((x, y)) => x <= y <= s@.len() && title_of_line(s@.subrange(a as int, b as int), skip_topic) == Some(
                s@.subrange(x as int, y as int),
            ),
            None => title_of_line(s@.subrange(a as int, b as int), skip_topic) is None,
        },
{
    let ghost t = s@.subrange(a as int, b as int);
    let h = skip_leading(s, a, b, HASH);
    let (hx, hy) = trim_bounds(s, h, b);
    if starts_with_at(s, a, b, p1.as_slice()) && contains_char(s, a, b, '页') {
        let d = skip_leading(s, hx, hy, DI);
        let g = skip_leading(s, d, hy, DIGIT);
        let y = skip_leading(s, g, hy, PAGE_MARK);
        let (px, py) = trim_bounds(s, y, hy);
        if py > px {
            return Some((px, py));
        }
    }
    if starts_with_at(s, a, b, p2.as_slice()) {
        proof {
            reveal_strlit("**标题**");
            assert(p2@.len() == 6);
        }
        let st = skip_leading(s, a + 6, b, COLON);
        let (sx, sy) = trim_bounds(s, st, b);
        proof {
            assert(t.skip(6) =~= s@.subrange(a + 6, b as int));
        }
        if sy > sx {
            return Some((sx, sy));
        }
    }
    if starts_with_at(s, a, b, p3.as_slice()) && !starts_with_at(s, a, b, p4.as_slice()) && hy > hx
        && !(skip_topic && starts_with_at(s, hx, hy, p5.as_slice())) {
        return Some((hx, hy));
    }
    None
}

/// The title given by the first line of `content` that gives one.
fn title_of(content: &str, skip_topic: bool) -> (r: String)
    ensures
        r@ == title_from(content@, 0, skip_topic),
{
    let s = chars_of(content);
    let p1 = chars_of("## 第");
    let p2 = chars_of("**标题**");
    let p3 = chars_of("# ");
    let p4 = chars_of("## ");
    let p5 = chars_of("主题");
    let n = s.len();
    let mut pos: usize = 0;
    while pos < n
        invariant
            n == s@.len(),
            s@ == content@,
            p1@ == "## 第"@,
            p2@ == "**标题**"@,
            p3@ == "# "@,
            p4@ == "## "@,
            p5@ == "主题"@,
            0 <= pos <= n,
            title_from(content@, 0, skip_topic) == title_from(s@, pos as int, skip_topic),
        decreases n - pos,
    {
        let end = next_line_end(s.as_slice(), pos);
        let te = line_text_end_exec(s.as_slice(), pos, end);
        let (a, b) = trim_bounds(s.as_slice(), pos, te);
        proof {
            lemma_line_end(s@, pos as int);
        }
        match line_title(s.as_slice(), a, b, skip_topic, &p1, &p2, &p3, &p4, &p5) {
            Some((x, y)) => {
                return substring(s.as_slice(), x, y);
            },
            None => {},
        }
        if end < n {
            pos = end + 1;
        } else {
            pos = n;
        }
    }
    owned(UNNAMED_PAGE)
}

/// The title of a page: from the first line that is a page heading
/// `## 第N页...`, a field `**标题**...` or a heading `# ...` not starting
/// with `主题`; `未命名页面` when no line is.
pub fn extract_page_title(content: &str) -> (r: String)
    ensures
        r@ == spec_page_title(content@),
{
    title_of(content, true)
}

/// The title of a page for export: from the first line that is a page
/// heading `## 第N页...`, a field `**标题**...` or a heading `# ...`;
/// `未命名页面` when no line is.
pub fn extract_title(markdown: &str) -> (r: String)
    ensures
        r@ == spec_title(markdown@),
{
    title_of(markdown, false)
}


/// The number of lines of `s[lo..]` that hold more than whitespace.
pub open spec fn nonblank_lines_from(s: Seq<char>, lo: int) -> nat
    decreases s.len() - lo,
{
    if lo < 0 || lo >= s.len() {
        0
    } else {
        let end = line_end(s, lo);
        let line = s.subrange(lo, line_text_end(s, lo, end));
        proof {
            lemma_line_end(s, lo);
        }
        let here: nat = if trim(line).len() > 0 {
            1
        } else {
            0
        };
        here + if end < s.len() {
            nonblank_lines_from(s, end + 1)
        } else {
            0
        }
    }
}

/// A piece of an outline that becomes a page: trimmed, it has more than
/// one line that is not blank.
pub open spec fn is_page_piece(piece: Seq<char>) -> bool {
    trim(piece).len() > 0 && nonblank_lines_from(trim(piece), 0) > 1
}

/// The number of lines of `s` that hold more than whitespace.
fn count_nonblank_lines(s: &[char]) -> (r: usize)
    ensures
        r == nonblank_lines_from(s@, 0),
{
    let n = s.len();
    let mut count: usize = 0;
    let mut pos: usize = 0;
    while pos < n
        invariant
            n == s@.len(),
            0 <= pos <= n,
            count <= pos,
            nonblank_lines_from(s@, 0) == count + nonblank_lines_from(s@, pos as int),
        decreases n - pos,
    {
        let end = next_line_end(s, pos);
        let te = line_text_end_exec(s, pos, end);
        proof {
            lemma_line_end(s@, pos as int);
        }
        let (a, b) = trim_bounds(s, pos, te);
        if a < b {
            count = count + 1;
        }
        if end < n {
            pos = end + 1;
        } else {
            pos = n;
        }
    }
    count
}

/// Whether a piece of an outline becomes a page.
pub fn is_page_content(piece: &str) -> (r: bool)
    ensures
        r == is_page_piece(piece@),
{
    let s = chars_of(piece);
    proof {
        assert(s@.subrange(0, s@.len() as int) =~= s@);
    }
    let (a, b) = trim_bounds(s.as_slice(), 0, s.len());
    if a == b {
        return false;
    }
    let t = chars_of_range(s.as_slice(), a, b);
    count_nonblank_lines(t.as_slice()) > 1
}

fn chars_of_range(s: &[char], lo: usize, hi: usize) -> (r: Vec<char>)
    requires
        lo <= hi <= s@.len(),
    ensures
        r@ == s@.subrange(lo as int, hi as int),
{
    let mut r: Vec<char> = Vec::new();
    let mut i = lo;
    while i < hi
        invariant
            lo <= i <= hi <= s@.len(),
            r@ == s@.subrange(lo as int, i as int),
        decreases hi - i,
    {
        r.push(s[i]);
        proof {
            assert(s@.subrange(lo as int, i + 1) =~= s@.subrange(lo as int, i as int).push(s@[i as int]));
        }
        i = i + 1;
    }
    r
}

/// Whether an outline holds nothing but whitespace.
pub fn outline_is_blank(content: &str) -> (r: bool)
    ensures
        r == (trim(content@).len() == 0),
{
    let s = chars_of(content);
    proof {
        assert(s@.subrange(0, s@.len() as int) =~= s@);
    }
    let (a, b) = trim_bounds(s.as_slice(), 0, s.len());
    a == b
}


pub const OUTLINE_EMPTY: &'static str = "大纲内容为空";
pub const NO_PAGES: &'static str = "未能从大纲中解析出页面内容，请检查大纲格式";
pub const NO_VALID_PAGES: &'static str = "没有有效的页面内容。所有页面内容过少（只有一行或为空）。";

/// A page to write when an outline is split: its number, its content
/// (the outline's piece, trimmed) and its title.
#[derive(Clone, Debug)]
pub struct PagePlan {
    pub page_num: u32,
    pub content: String,
    pub title: String,
}

/// The pieces among the first `n` that become pages, in order.
pub open spec fn page_pieces(pieces: Seq<Seq<char>>, n: int) -> Seq<Seq<char>>
    decreases n,
{
    if n <= 0 {
        seq![]
    } else if is_page_piece(pieces[n - 1]) {
        page_pieces(pieces, n - 1).push(pieces[n - 1])
    } else {
        page_pieces(pieces, n - 1)
    }
}

/// The pages an outline is split into, numbered from 1 in order: the
/// pieces between separators that hold more than one non-blank line,
/// trimmed, with their titles. An error when the outline gives no piece,
/// or no piece that becomes a page.
pub open spec fn spec_plan_pages(content: Seq<char>) -> Result<Seq<(u32, Seq<char>, Seq<char>)>, Seq<char>> {
    let pieces = outline_pieces(content);
    let valid = page_pieces(pieces, pieces.len() as int);
    if pieces.len() == 0 {
        Err(NO_PAGES@)
    } else if valid.len() == 0 {
        Err(NO_VALID_PAGES@)
    } else {
        Ok(Seq::new(valid.len(), |k: int| (((k + 1) as usize) as u32, trim(valid[k]), spec_page_title(trim(valid[k])))))
    }
}

pub open spec fn plans_view(v: Seq<PagePlan>) -> Seq<(u32, Seq<char>, Seq<char>)> {
    v.map_values(|p: PagePlan| (p.page_num, p.content@, p.title@))
}

fn trimmed(piece: &str) -> (r: String)
    ensures
        r@ == trim(piece@),
{
    let s = chars_of(piece);
    proof {
        assert(s@.subrange(0, s@.len() as int) =~= s@);
    }
    let (a, b) = trim_bounds(s.as_slice(), 0, s.len());
    substring(s.as_slice(), a, b)
}

/// Splits an outline into the pages to write.
pub fn plan_pages(content: &str) -> (r: Result<Vec<PagePlan>, String>)
    ensures
        match r {
            Ok(v) => spec_plan_pages(content@) == Ok::<Seq<(u32, Seq<char>, Seq<char>)>, Seq<char>>(plans_view(v@)),
            Err(e) => spec_plan_pages(content@) == Err::<Seq<(u32, Seq<char>, Seq<char>)>, Seq<char>>(e@),
        },
{
    let pieces = split_outline_content(content);
    let ghost pv = views(pieces@);
    if pieces.len() == 0 {
        return Err(owned(NO_PAGES));
    }
    let mut valid: Vec<String> = Vec::new();
    let mut i: usize = 0;
    while i < pieces.len()
        invariant
            0 <= i <= pieces@.len(),
            pv == views(pieces@),
            views(valid@) == page_pieces(pv, i as int),
        decreases pieces@.len() - i,
    {
        let ghost before = views(valid@);
        proof {
            assert(pv[i as int] == pieces@[i as int]@);
        }
        if is_page_content(pieces[i].as_str()) {
            let c = pieces[i].clone();
            proof {
                assert(c@ == pieces@[i as int]@);
            }
            push_string(&mut valid, c);
            proof {
                assert(views(valid@) =~= before.push(pv[i as int]));
            }
        }
        i = i + 1;
    }
    if valid.len() == 0 {
        return Err(owned(NO_VALID_PAGES));
    }
    let ghost vv = views(valid@);
    let mut plans: Vec<PagePlan> = Vec::new();
    let mut k: usize = 0;
    while k < valid.len()
        invariant
            0 <= k <= valid@.len(),
            vv == views(valid@),
            vv == page_pieces(pv, pv.len() as int),
            pv == outline_pieces(content@),
            plans_view(plans@) == Seq::new(
                vv.len(),
                |j: int| (((j + 1) as usize) as u32, trim(vv[j]), spec_page_title(trim(vv[j]))),
            ).take(k as int),
        decreases valid@.len() - k,
    {
        let body = trimmed(valid[k].as_str());
        let title = extract_page_title(body.as_str());
        let ghost before = plans@;
        let num = (k + 1) as u32;
        plans.push(PagePlan { page_num: num, content: body, title });
        proof {
            let target = Seq::new(
                vv.len(),
                |j: int| (((j + 1) as usize) as u32, trim(vv[j]), spec_page_title(trim(vv[j]))),
            );
            assert(vv[k as int] == valid@[k as int]@);
            assert(plans_view(plans@) =~= plans_view(before).push((num, trim(vv[k as int]), spec_page_title(trim(vv[k as int])))));
            assert(target[k as int] == (num, trim(vv[k as int]), spec_page_title(trim(vv[k as int]))));
            assert(target.take(k + 1) =~= target.take(k as int).push(target[k as int]));
            assert(plans_view(plans@) =~= Seq::new(
                vv.len(),
                |j: int| (((j + 1) as usize) as u32, trim(vv[j]), spec_page_title(trim(vv[j]))),
            ).take(k + 1));
        }
        k = k + 1;
    }
    proof {
        assert(Seq::new(
            vv.len(),
            |j: int| (((j + 1) as usize) as u32, trim(vv[j]), spec_page_title(trim(vv[j]))),
        ).take(vv.len() as int) =~= Seq::new(
            vv.len(),
            |j: int| (((j + 1) as usize) as u32, trim(vv[j]), spec_page_title(trim(vv[j]))),
        ));
    }
    Ok(plans)
}


proof fn lemma_page_pieces(pieces: Seq<Seq<char>>, n: int)
    requires
        0 <= n <= pieces.len(),
    ensures
        page_pieces(pieces, n).len() <= n,
        forall|k: int| 0 <= k < page_pieces(pieces, n).len() ==> is_page_piece(#[trigger] page_pieces(pieces, n)[k]),
    decreases n,
{
    if n > 0 {
        lemma_page_pieces(pieces, n - 1);
    }
}

/// Splitting an outline numbers its pages 1, 2, 3, ... in order, and each
/// page holds more than one line that is not blank (the numbers wrap past
/// `u32::MAX` pages, which this leaves out).
pub proof fn law_split_pages_numbered_from_one(content: Seq<char>)
    requires
        outline_pieces(content).len() <= u32::MAX,
    ensures
        spec_plan_pages(content) matches Ok(v) ==> {
            &&& v.len() > 0
            &&& forall|k: int| 0 <= k < v.len() ==> (#[trigger] v[k]).0 == k + 1
            &&& forall|k: int| 0 <= k < v.len() ==> nonblank_lines_from(#[trigger] v[k].1, 0) > 1
        },
{
    let pieces = outline_pieces(content);
    lemma_page_pieces(pieces, pieces.len() as int);
    let valid = page_pieces(pieces, pieces.len() as int);
    if let Ok(v) = spec_plan_pages(content) {
        assert forall|k: int| 0 <= k < v.len() implies nonblank_lines_from(#[trigger] v[k].1, 0) > 1 by {
            assert(is_page_piece(valid[k]));
        }
    }
}


/// A character that cannot stand in a project's directory name.
pub open spec fn is_name_separator(c: char) -> bool {
    c == ' ' || c == '/' || c == '\\'
}

/// The start of a new project's directory name: the first 20 characters
/// of its topic, with spaces and slashes turned into `-`.
pub open spec fn spec_project_name_prefix(topic: Seq<char>) -> Seq<char> {
    let n = if topic.len() < 20 { topic.len() } else { 20 };
    Seq::new(n, |i: int| if is_name_separator(topic[i]) { '-' } else { topic[i] })
}

/// The start of a new project's directory name, from its topic.
pub fn project_name_prefix(topic: &str) -> (r: String)
    ensures
        r@ == spec_project_name_prefix(topic@),
{
    let s = chars_of(topic);
    let n: usize = if s.len() < 20 { s.len() } else { 20 };
    let mut r = String::new();
    let mut i: usize = 0;
    while i < n
        invariant
            0 <= i <= n,
            n <= s@.len(),
            s@ == topic@,
            n == (if topic@.len() < 20 { topic@.len() } else { 20 }),
            r@ == spec_project_name_prefix(topic@).take(i as int),
        decreases n - i,
    {
        let c = s[i];
        let d = if c == ' ' || c == '/' || c == '\\' { '-' } else { c };
        push_char(&mut r, d);
        proof {
            assert(r@ =~= spec_project_name_prefix(topic@).take(i + 1));
        }
        i = i + 1;
    }
    proof {
        assert(spec_project_name_prefix(topic@).take(n as int) =~= spec_project_name_prefix(topic@));
    }
    r
}

} // verus!
