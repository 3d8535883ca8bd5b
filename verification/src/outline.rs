//! Outlines of a deck: how many pages a mode asks for, and reading the pages
//! of an outline written in Markdown.
use vstd::prelude::*;
use crate::ooxml::{dec, push_decimal};
use crate::text::{
    owned, chars_of, first_index_of, has_prefix, lemma_first_index_of, lemma_line_end, line_end, line_text_end,
    line_text_end_exec, next_line_end, starts_with_at, substring, trim, trim_bounds,
};

verus! {

/// One page of an outline.
#[derive(Clone, Debug)]
pub struct PageOutline {
    pub page_num: u32,
    pub title: String,
    pub content: String,
    pub layout: String,
    pub image_desc: String,
    pub speaker_notes: String,
}

/// How long an outline should be.
#[derive(Clone, Copy, Debug, PartialEq, Eq, Structural)]
pub enum OutlineMode {
    Simple,
    Medium,
    Detailed,
}

pub open spec fn spec_page_range(m: OutlineMode) -> (u32, u32) {
    match m {
        OutlineMode::Simple => (3, 5),
        OutlineMode::Medium => (6, 10),
        OutlineMode::Detailed => (10, 15),
    }
}

impl OutlineMode {
    /// The least and the most pages of the mode.
    pub fn page_range(&self) -> (r: (u32, u32))
        ensures
            r == spec_page_range(*self),
    {
        match self {
            OutlineMode::Simple => (3, 5),
            OutlineMode::Medium => (6, 10),
            OutlineMode::Detailed => (10, 15),
        }
    }
}

pub const MODE_SIMPLE: &'static str = "simple";
pub const MODE_DETAILED: &'static str = "detailed";

/// The mode named `simple` or `detailed`; any other name is `Medium`.
pub open spec fn spec_mode_of(name: Seq<char>) -> OutlineMode {
    if name == MODE_SIMPLE@ {
        OutlineMode::Simple
    } else if name == MODE_DETAILED@ {
        OutlineMode::Detailed
    } else {
        OutlineMode::Medium
    }
}

/// The page bounds an outline request asks for: a page count given by the
/// user, held to `1..=50`, or else the range of the named mode.
pub open spec fn spec_page_bounds(mode: Seq<char>, expected_pages: Option<u32>) -> (u32, u32) {
    match expected_pages {
        Some(p) => {
            let q: u32 = if p < 1 { 1 } else if p > 50 { 50 } else { p };
            (q, q)
        },
        None => spec_page_range(spec_mode_of(mode)),
    }
}

/// The mode of an outline request.
pub fn mode_of(name: &str) -> (r: OutlineMode)
    ensures
        r == spec_mode_of(name@),
{
    if crate::text::str_eq(name, MODE_SIMPLE) {
        OutlineMode::Simple
    } else if crate::text::str_eq(name, MODE_DETAILED) {
        OutlineMode::Detailed
    } else {
        OutlineMode::Medium
    }
}

/// The least and the most pages an outline request asks for.
pub fn page_bounds(mode: &str, expected_pages: Option<u32>) -> (r: (u32, u32))
    ensures
        r == spec_page_bounds(mode@, expected_pages),
{
    match expected_pages {
        Some(p) => {
            let q: u32 = if p < 1 {
                1
            } else if p > 50 {
                50
            } else {
                p
            };
            (q, q)
        },
        None => mode_of(mode).page_range(),
    }
}

/// The text after the first `':'` of a line; nothing when it has none.
pub open spec fn after_colon(line: Seq<char>) -> Seq<char> {
    let i = first_index_of(line, ':');
    if i < line.len() {
        line.skip(i + 1)
    } else {
        seq![]
    }
}

/// `**{field}**`.
pub open spec fn field_marker(field: Seq<char>) -> Seq<char> {
    "**"@ + field + "**"@
}

/// Walks the lines from `lo`: the trimmed text after the first `':'` of the
/// first line that starts with `marker`, or nothing.
pub open spec fn field_from(s: Seq<char>, lo: int, marker: Seq<char>) -> Seq<char>
    decreases s.len() - lo,
{
    if lo < 0 || lo >= s.len() {
        seq![]
    } else {
        let end = line_end(s, lo);
        let line = s.subrange(lo, line_text_end(s, lo, end));
        proof {
            lemma_line_end(s, lo);
        }
        if has_prefix(line, marker) {
            trim(after_colon(line))
        } else if end < s.len() {
            field_from(s, end + 1, marker)
        } else {
            seq![]
        }
    }
}

/// The value of the field `**{field}**: value` in a page of an outline.
pub open spec fn spec_extract_field(content: Seq<char>, field: Seq<char>) -> Seq<char> {
    field_from(content, 0, field_marker(field))
}

fn marker_chars(field: &str) -> (r: Vec<char>)
    ensures
        r@ == field_marker(field@),
{
    let mut r: Vec<char> = Vec::new();
    r.push('*');
    r.push('*');
    let f = chars_of(field);
    proof {
        reveal_strlit("**");
        assert(r@ =~= "**"@ + f@.take(0));
    }
    let mut i: usize = 0;
    while i < f.len()
        invariant
            0 <= i <= f@.len(),
            r@ == "**"@ + f@.take(i as int),
        decreases f@.len() - i,
    {
        proof {
            reveal_strlit("**");
            assert(f@.take(i + 1) =~= f@.take(i as int).push(f@[i as int]));
        }
        r.push(f[i]);
        proof {
            assert(r@ =~= "**"@ + f@.take(i + 1));
        }
        i = i + 1;
    }
    r.push('*');
    r.push('*');
    proof {
        reveal_strlit("**");
        assert(f@.take(f@.len() as int) =~= f@);
        assert(r@ =~= field_marker(field@));
    }
    r
}

/// The trimmed text after the first `':'` of `s[a..b]`.
fn value_after_colon(s: &[char], a: usize, b: usize) -> (r: String)
    requires
        a <= b <= s@.len(),
    ensures
        r@ == trim(after_colon(s@.subrange(a as int, b as int))),
{
    let ghost line = s@.subrange(a as int, b as int);
    let i = crate::text::find_char(s, a, b, ':');
    proof {
        lemma_first_index_of(line, ':');
    }
    if i < b {
        let (x, y) = trim_bounds(s, i + 1, b);
        proof {
            assert(line.skip(i - a + 1) =~= s@.subrange(i + 1, b as int));
        }
        substring(s, x, y)
    } else {
        proof {
            assert(trim(Seq::<char>::empty()) =~= Seq::<char>::empty()) by {
                crate::text::lemma_lead_ws(Seq::<char>::empty());
                crate::text::lemma_trail_ws(Seq::<char>::empty());
            }
        }
        String::new()
    }
}

/// The value of the field `**{field_name}**` of an outline page: the text
/// after the first `':'` of the first line that starts with the marker,
/// trimmed; empty when no line does.
pub fn extract_field(content: &str, field_name: &str) -> (r: String)
    ensures
        r@ == spec_extract_field(content@, field_name@),
{
    let s = chars_of(content);
    let marker = marker_chars(field_name);
    let n = s.len();
    let mut pos: usize = 0;
    while pos < n
        invariant
            n == s@.len(),
            s@ == content@,
            marker@ == field_marker(field_name@),
            0 <= pos <= n,
            spec_extract_field(content@, field_name@) == field_from(s@, pos as int, marker@),
        decreases n - pos,
    {
        let end = next_line_end(s.as_slice(), pos);
        let te = line_text_end_exec(s.as_slice(), pos, end);
        proof {
            lemma_line_end(s@, pos as int);
        }
        if starts_with_at(s.as_slice(), pos, te, marker.as_slice()) {
            return value_after_colon(s.as_slice(), pos, te);
        }
        if end < n {
            pos = end + 1;
        } else {
            pos = n;
        }
    }
    proof {
        assert(trim(Seq::<char>::empty()) =~= Seq::<char>::empty()) by {
            crate::text::lemma_lead_ws(Seq::<char>::empty());
            crate::text::lemma_trail_ws(Seq::<char>::empty());
        }
    }
    String::new()
}

/// The separator between the pages of an outline.
pub open spec fn page_separator() -> Seq<char> {
    seq!['\n', '-', '-', '-', '\n']
}

/// Whether the separator starts at `i`.
pub open spec fn separator_at(s: Seq<char>, i: int) -> bool {
    0 <= i && i + 5 <= s.len() && s.subrange(i, i + 5) == page_separator()
}

/// The first index from `from` where the separator starts; `s.len()` when
/// there is none.
pub open spec fn next_separator(s: Seq<char>, from: int) -> int
    decreases s.len() - from,
{
    if from < 0 || from + 5 > s.len() {
        s.len() as int
    } else if separator_at(s, from) {
        from
    } else {
        next_separator(s, from + 1)
    }
}

pub proof fn lemma_next_separator(s: Seq<char>, from: int)
    requires
        0 <= from,
    ensures
        from <= next_separator(s, from) <= s.len() || next_separator(s, from) == s.len(),
        next_separator(s, from) < s.len() ==> separator_at(s, next_separator(s, from)) && from <= next_separator(s, from),
    decreases s.len() - from,
{
    if from + 5 <= s.len() && !separator_at(s, from) {
        lemma_next_separator(s, from + 1);
    }
}

/// The bounds of the pieces of `s[lo..]` between separators, left to right
/// and without overlap, as `str::split` cuts them.
pub open spec fn piece_spans(s: Seq<char>, lo: int) -> Seq<(int, int)>
    decreases s.len() - lo + 1,
{
    if lo < 0 || lo > s.len() {
        seq![]
    } else {
        let i = next_separator(s, lo);
        proof {
            lemma_next_separator(s, lo);
        }
        if i < s.len() {
            seq![(lo, i)] + piece_spans(s, i + 5)
        } else {
            seq![(lo, s.len() as int)]
        }
    }
}

/// The pages of an outline: the pieces between `"\n---\n"` separators.
pub open spec fn outline_pieces(s: Seq<char>) -> Seq<Seq<char>> {
    piece_spans(s, 0).map_values(|p: (int, int)| s.subrange(p.0, p.1))
}

pub const FIELD_TITLE: &'static str = "标题";
pub const FIELD_CONTENT: &'static str = "页面内容";
pub const FIELD_LAYOUT: &'static str = "布局设计";
pub const FIELD_IMAGE: &'static str = "配图设计";
pub const FIELD_NOTES: &'static str = "讲稿备注";

/// Page `i` (from 0) of an outline read from `piece`.
pub open spec fn page_from(piece: Seq<char>, i: int, p: PageOutline) -> bool {
    &&& p.page_num == (i + 1) as u32
    &&& p.title@ == spec_extract_field(piece, FIELD_TITLE@)
    &&& p.content@ == spec_extract_field(piece, FIELD_CONTENT@)
    &&& p.layout@ == spec_extract_field(piece, FIELD_LAYOUT@)
    &&& p.image_desc@ == spec_extract_field(piece, FIELD_IMAGE@)
    &&& p.speaker_notes@ == spec_extract_field(piece, FIELD_NOTES@)
}

fn separator_chars() -> (r: Vec<char>)
    ensures
        r@ == page_separator(),
{
    let mut r: Vec<char> = Vec::new();
    r.push('\n');
    r.push('-');
    r.push('-');
    r.push('-');
    r.push('\n');
    proof {
        assert(r@ =~= page_separator());
    }
    r
}

/// Finds the next separator from `from`.
fn find_separator(s: &[char], sep: &[char], from: usize) -> (r: usize)
    requires
        from <= s@.len(),
        sep@ == page_separator(),
    ensures
        r == next_separator(s@, from as int),
{
    let n = s.len();
    let mut i = from;
    while i < n && n - i >= 5
        invariant
            from <= i <= n,
            n == s@.len(),
            sep@ == page_separator(),
            next_separator(s@, from as int) == next_separator(s@, i as int),
        decreases n - i,
    {
        if starts_with_at(s, i, i + 5, sep) {
            proof {
                assert(s@.subrange(i as int, i + 5).take(5) =~= s@.subrange(i as int, i + 5));
            }
            return i;
        }
        proof {
            assert(s@.subrange(i as int, i + 5).take(5) =~= s@.subrange(i as int, i + 5));
        }
        i = i + 1;
    }
    n
}

fn page_of(piece: &str, i: usize) -> (r: PageOutline)
    requires
        i < usize::MAX,
    ensures
        page_from(piece@, i as int, r),
{
    PageOutline {
        page_num: #[verifier::truncate] ((i + 1) as u32),
        title: extract_field(piece, FIELD_TITLE),
        content: extract_field(piece, FIELD_CONTENT),
        layout: extract_field(piece, FIELD_LAYOUT),
        image_desc: extract_field(piece, FIELD_IMAGE),
        speaker_notes: extract_field(piece, FIELD_NOTES),
    }
}

/// Reads the pages of an outline: the text is cut at each `"\n---\n"`, and
/// page `i` (numbered from 1) takes its fields from the `i`-th piece.
pub fn parse_outline(content: &str) -> (r: Result<Vec<PageOutline>, String>)
    ensures
        r is Ok,
        r->Ok_0.len() == outline_pieces(content@).len(),
        forall|i: int| 0 <= i < r->Ok_0.len() ==> #[trigger] page_from(outline_pieces(content@)[i], i, r->Ok_0@[i]),
{
    let s = chars_of(content);
    let sep = separator_chars();
    let n = s.len();
    let mut outlines: Vec<PageOutline> = Vec::new();
    let mut lo: usize = 0;
    let mut done = false;
    let ghost spans = piece_spans(s@, 0);
    proof {
        assert(piece_spans(s@, 0) =~= seq![] + piece_spans(s@, 0));
    }
    while !done
        invariant
            n == s@.len(),
            s@ == content@,
            sep@ == page_separator(),
            spans == piece_spans(s@, 0),
            0 <= lo <= n,
            !done ==> 5 * outlines@.len() <= lo,
            !done ==> spans =~= spans.take(outlines@.len() as int) + piece_spans(s@, lo as int),
            done ==> outlines@.len() == spans.len(),
            outlines@.len() <= spans.len(),
            forall|i: int| 0 <= i < outlines@.len() ==> #[trigger] page_from(
                s@.subrange(spans[i].0, spans[i].1),
                i,
                outlines@[i],
            ),
        decreases n - lo + (if done { 0int } else { 1int }),
    {
        let i = find_separator(s.as_slice(), sep.as_slice(), lo);
        proof {
            lemma_next_separator(s@, lo as int);
        }
        let k = outlines.len();
        let hi = if i < n { i } else { n };
        let piece = substring(s.as_slice(), lo, hi);
        proof {
            assert(piece_spans(s@, lo as int)[0] == (lo as int, hi as int));
            assert(spans[k as int] == (lo as int, hi as int));
        }
        let page = page_of(piece.as_str(), k);
        outlines.push(page);
        if i < n {
            proof {
                assert(piece_spans(s@, lo as int) =~= seq![(lo as int, i as int)] + piece_spans(s@, i + 5));
                assert(spans.take(k + 1) =~= spans.take(k as int).push((lo as int, i as int)));
            }
            lo = i + 5;
        } else {
            proof {
                assert(piece_spans(s@, lo as int) =~= seq![(lo as int, n as int)]);
            }
            done = true;
        }
    }
    proof {
        assert forall|i: int| 0 <= i < outlines@.len() implies #[trigger] page_from(outline_pieces(content@)[i], i, outlines@[i]) by {
            assert(outline_pieces(content@)[i] == s@.subrange(spans[i].0, spans[i].1));
        }
    }
    Ok(outlines)
}


pub const OUTLINE_SYSTEM_PROMPT: &'static str = "你是一个专业的信息图表设计师，擅长创建结构清晰、内容丰富的演示文稿大纲。";
pub const OUTLINE_PROMPT_HEAD: &'static str = "请为以下主题生成一个信息图表大纲，包含";
pub const OUTLINE_PROMPT_TO: &'static str = "到";
pub const OUTLINE_PROMPT_TOPIC: &'static str = "页。\n\n主题：";
pub const OUTLINE_PROMPT_FORMAT: &'static str = "\n\n请按以下格式输出（使用Markdown）：\n\n# 主题：[主题名称]\n\n---\n\n## 第1页：封面\n\n**标题**: [主标题]\n**页面内容**: [副标题/日期/作者]\n**布局设计**: [布局描述]\n**配图设计**: [配图描述]\n**讲稿备注**: [讲稿内容]\n\n---\n\n## 第2页：[页面标题]\n\n**标题**: [标题]\n**页面内容**: [内容]\n**布局设计**: [布局描述]\n**配图设计**: [配图描述]\n**讲稿备注**: [讲稿内容]\n\n---\n\n... (更多页面)\n\n## 第N页：封底\n\n**标题**: 谢谢\n**页面内容**: [联系方式/二维码]\n**布局设计**: 居中布局\n**配图设计**: 简洁背景\n**讲稿备注**: 结束语\n\n请确保：\n1. 第一页是封面\n2. 最后一页是封底\n3. 内容页之间用 --- 分隔\n4. 每页都包含所有必需字段\n";

/// The request for an outline of `min_pages` to `max_pages` pages on a
/// topic, with the format every page must follow.
pub open spec fn spec_outline_prompt(min_pages: u32, max_pages: u32, topic: Seq<char>) -> Seq<char> {
    OUTLINE_PROMPT_HEAD@ + dec(min_pages as nat) + OUTLINE_PROMPT_TO@ + dec(max_pages as nat) + OUTLINE_PROMPT_TOPIC@
        + topic + OUTLINE_PROMPT_FORMAT@
}

/// Builds the request for an outline.
pub fn build_outline_prompt(min_pages: u32, max_pages: u32, topic: &str) -> (r: String)
    ensures
        r@ == spec_outline_prompt(min_pages, max_pages, topic@),
{
    let mut r = owned(OUTLINE_PROMPT_HEAD);
    push_decimal(&mut r, min_pages as u64);
    r.append(OUTLINE_PROMPT_TO);
    push_decimal(&mut r, max_pages as u64);
    r.append(OUTLINE_PROMPT_TOPIC);
    r.append(topic);
    r.append(OUTLINE_PROMPT_FORMAT);
    r
}

} // verus!
