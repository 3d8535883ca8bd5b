//! The prompt that asks an image model for one page: template rules when
//! reference pictures are given, the style, the kind of page, and the
//! page's content without its speaker notes.
use vstd::prelude::*;
use crate::numbers::{parse_u32, spec_parse_u32};
use crate::style_guide::{line_if, spec_to_lowercase, to_lowercase, StyleGuide};
use crate::template_pages::{contains_any, mentions_any};
use crate::text::{
    chars_of, has_prefix, join_strings, lemma_line_end, line_end, line_text_end, line_text_end_exec, next_line_end, owned,
    push_string, spec_join, starts_with_at, str_eq, substring, trim, trim_bounds, views,
};

verus! {

pub const REF_TASK: &'static str = "【核心任务】这是一张模板图片，你需要在此基础上生成新的页面。";
pub const REF_MUST: &'static str = "【必须严格遵守】参考图片中的以下元素是模板固有元素，必须保持原样不变：";
pub const REF_RULE_1: &'static str = "1. 所有 Logo、品牌标识、商标 - 位置、大小、颜色完全不变";
pub const REF_RULE_2: &'static str = "2. 背景色块、装饰图形、边框线条 - 形状、位置、颜色完全不变";
pub const REF_RULE_3: &'static str = "3. 标题区域的位置和样式 - 仅替换标题文字，不改变样式";
pub const REF_RULE_4: &'static str = "4. 页眉页脚、导航栏等固定区域 - 完全不变";
pub const REF_RULE_5: &'static str = "5. 整体配色方案 - 主色、辅色、背景色完全一致";
pub const REF_ALLOWED: &'static str = "【允许修改】只有内容区域的文字和数据可以更新。";
pub const REF_FINAL: &'static str = "【最终检查】生成前请确认：模板固有元素是否保持不变？只修改了内容区域的文字？";
pub const ANCHOR_LEAD: &'static str = "风格基调：";
pub const PALETTE_LEAD: &'static str = "配色方案：";
pub const PALETTE_SEPARATOR: &'static str = "、";
pub const STYLE_LEAD: &'static str = "风格要求：\n";
pub const FRONT_COVER_LINE: &'static str = "\n页面类型：封面页（保持封面标题区、副标题区、装饰元素的布局不变）";
pub const BACK_COVER_LINE: &'static str = "\n页面类型：封底页（保持致谢区、联系方式区的布局不变）";
pub const CONTENT_PAGE_LINE: &'static str = "\n页面类型：内容页（保持内容区域的卡片布局、图表样式不变）";
pub const CONTENT_LEAD: &'static str = "\n需要更新的内容：\n";
pub const NOTES_MARK: &'static str = "**讲稿备注**";
pub const SCRIPT_MARK: &'static str = "**讲稿**";
pub const LINE_BREAK: &'static str = "\n";

/// The template rules that open a prompt with reference pictures.
pub open spec fn reference_lines() -> Seq<Seq<char>> {
    seq![
        REF_TASK@,
        ""@,
        REF_MUST@,
        REF_RULE_1@,
        REF_RULE_2@,
        REF_RULE_3@,
        REF_RULE_4@,
        REF_RULE_5@,
        ""@,
        REF_ALLOWED@,
        ""@,
    ]
}

/// The line that names the kind of page.
pub open spec fn page_type_line(page_type: Seq<char>) -> Seq<char> {
    if page_type == "front-cover"@ {
        FRONT_COVER_LINE@
    } else if page_type == "back-cover"@ {
        BACK_COVER_LINE@
    } else {
        CONTENT_PAGE_LINE@
    }
}

/// A content line is kept unless, trimmed, it starts a speaker note.
pub open spec fn keeps_line(line: Seq<char>) -> bool {
    !has_prefix(trim(line), NOTES_MARK@) && !has_prefix(trim(line), SCRIPT_MARK@)
}

/// The lines of `s[lo..]` that are kept.
pub open spec fn kept_lines(s: Seq<char>, lo: int) -> Seq<Seq<char>>
    decreases s.len() - lo,
{
    if lo < 0 || lo >= s.len() {
        seq![]
    } else {
        let end = line_end(s, lo);
        let line = s.subrange(lo, line_text_end(s, lo, end));
        proof {
            lemma_line_end(s, lo);
        }
        let rest = if end < s.len() {
            kept_lines(s, end + 1)
        } else {
            seq![]
        };
        if keeps_line(line) {
            seq![line] + rest
        } else {
            rest
        }
    }
}

/// The style lines: the guide's anchor and palette when a guide is given,
/// else the style text.
pub open spec fn style_lines(style_content: Option<Seq<char>>, guide: Option<StyleGuide>) -> Seq<Seq<char>> {
    match guide {
        Some(g) => line_if(g.prompt_anchor@.len() > 0, ANCHOR_LEAD@ + g.prompt_anchor@) + line_if(
            g.style_core.palette@.len() > 0,
            PALETTE_LEAD@ + spec_join(views(g.style_core.palette@), PALETTE_SEPARATOR@),
        ),
        None => match style_content {
            Some(s) => seq![STYLE_LEAD@ + s],
            None => seq![],
        },
    }
}

/// The lines of an image prompt.
pub open spec fn prompt_lines(
    page_content: Seq<char>,
    style_content: Option<Seq<char>>,
    page_type: Seq<char>,
    guide: Option<StyleGuide>,
    has_reference_images: bool,
) -> Seq<Seq<char>> {
    (if has_reference_images {
        reference_lines()
    } else {
        seq![]
    }) + style_lines(style_content, guide) + seq![page_type_line(page_type)] + seq![
        CONTENT_LEAD@ + spec_join(kept_lines(page_content, 0), LINE_BREAK@),
    ] + (if has_reference_images {
        seq![""@, REF_FINAL@]
    } else {
        seq![]
    })
}

/// The page content without its speaker-note lines, joined by newlines.
fn content_without_notes(page_content: &str) -> (r: String)
    ensures
        r@ == spec_join(kept_lines(page_content@, 0), LINE_BREAK@),
{
    let s = chars_of(page_content);
    let notes = chars_of(NOTES_MARK);
    let script = chars_of(SCRIPT_MARK);
    let n = s.len();
    let mut kept: Vec<String> = Vec::new();
    let mut pos: usize = 0;
    proof {
        assert(views(kept@) =~= Seq::<Seq<char>>::empty());
        assert(kept_lines(s@, 0) =~= views(kept@) + kept_lines(s@, 0));
    }
    while pos < n
        invariant
            n == s@.len(),
            s@ == page_content@,
            notes@ == NOTES_MARK@,
            script@ == SCRIPT_MARK@,
            0 <= pos <= n,
            kept_lines(s@, 0) == views(kept@) + kept_lines(s@, pos as int),
        decreases n - pos,
    {
        let end = next_line_end(s.as_slice(), pos);
        let te = line_text_end_exec(s.as_slice(), pos, end);
        let (a, b) = trim_bounds(s.as_slice(), pos, te);
        proof {
            lemma_line_end(s@, pos as int);
        }
        let ghost line = s@.subrange(pos as int, te as int);
        let keep = !starts_with_at(s.as_slice(), a, b, notes.as_slice()) && !starts_with_at(s.as_slice(), a, b, script.as_slice());
        let ghost before = views(kept@);
        let next = if end < n {
            end + 1
        } else {
            n
        };
        if keep {
            let piece = substring(s.as_slice(), pos, te);
            push_string(&mut kept, piece);
            proof {
                assert(views(kept@) =~= before.push(line));
                if end < n {
                    assert(kept_lines(s@, pos as int) =~= seq![line] + kept_lines(s@, end + 1));
                } else {
                    assert(kept_lines(s@, pos as int) =~= seq![line]);
                    assert(kept_lines(s@, n as int) =~= Seq::<Seq<char>>::empty());
                }
                assert(kept_lines(s@, 0) =~= views(kept@) + kept_lines(s@, next as int));
            }
        } else {
            proof {
                if end >= n {
                    assert(kept_lines(s@, pos as int) =~= Seq::<Seq<char>>::empty());
                    assert(kept_lines(s@, n as int) =~= Seq::<Seq<char>>::empty());
                }
            }
        }
        pos = next;
    }
    proof {
        assert(kept_lines(s@, n as int) =~= Seq::<Seq<char>>::empty());
        assert(views(kept@) + Seq::<Seq<char>>::empty() =~= views(kept@));
    }
    join_strings(kept.as_slice(), LINE_BREAK)
}

fn concat(a: &str, b: &str) -> (r: String)
    ensures
        r@ == a@ + b@,
{
    let mut r = owned(a);
    r.append(b);
    r
}

/// Builds the prompt for one page image.
pub fn build_image_prompt(
    page_content: &str,
    style_content: Option<&str>,
    page_type: &str,
    _layout_family: Option<&str>,
    style_guide: Option<&StyleGuide>,
    has_reference_images: bool,
) -> (r: String)
    ensures
        r@ == spec_join(
            prompt_lines(
                page_content@,
                match style_content {
                    Some(s) => Some(s@),
                    None => None,
                },
                page_type@,
                match style_guide {
                    Some(g) => Some(*g),
                    None => None,
                },
                has_reference_images,
            ),
            LINE_BREAK@,
        ),
{
    let ghost sc = match style_content {
        Some(s) => Some(s@),
        None => None::<Seq<char>>,
    };
    let ghost sg = match style_guide {
        Some(g) => Some(*g),
        None => None::<StyleGuide>,
    };
    let mut parts: Vec<String> = Vec::new();
    proof {
        assert(views(parts@) =~= Seq::<Seq<char>>::empty());
    }
    if has_reference_images {
        push_string(&mut parts, owned(REF_TASK));
        push_string(&mut parts, owned(""));
        push_string(&mut parts, owned(REF_MUST));
        push_string(&mut parts, owned(REF_RULE_1));
        push_string(&mut parts, owned(REF_RULE_2));
        push_string(&mut parts, owned(REF_RULE_3));
        push_string(&mut parts, owned(REF_RULE_4));
        push_string(&mut parts, owned(REF_RULE_5));
        push_string(&mut parts, owned(""));
        push_string(&mut parts, owned(REF_ALLOWED));
        push_string(&mut parts, owned(""));
    }
    let ghost head = if has_reference_images {
        reference_lines()
    } else {
        Seq::<Seq<char>>::empty()
    };
    proof {
        assert(views(parts@) =~= head);
    }
    match style_guide {
        Some(guide) => {
            if !guide.prompt_anchor.as_str().is_empty() {
                push_string(&mut parts, concat(ANCHOR_LEAD, guide.prompt_anchor.as_str()));
            }
            if guide.style_core.palette.len() > 0 {
                let joined = join_strings(guide.style_core.palette.as_slice(), PALETTE_SEPARATOR);
                push_string(&mut parts, concat(PALETTE_LEAD, joined.as_str()));
            }
        },
        None => {
            match style_content {
                Some(style) => {
                    push_string(&mut parts, concat(STYLE_LEAD, style));
                },
                None => {},
            }
        },
    }
    proof {
        assert(views(parts@) =~= head + style_lines(sc, sg));
    }
    let type_line = if str_eq(page_type, "front-cover") {
        FRONT_COVER_LINE
    } else if str_eq(page_type, "back-cover") {
        BACK_COVER_LINE
    } else {
        CONTENT_PAGE_LINE
    };
    push_string(&mut parts, owned(type_line));
    let content = content_without_notes(page_content);
    push_string(&mut parts, concat(CONTENT_LEAD, content.as_str()));
    if has_reference_images {
        push_string(&mut parts, owned(""));
        push_string(&mut parts, owned(REF_FINAL));
    }
    proof {
        assert(views(parts@) =~= prompt_lines(page_content@, sc, page_type@, sg, has_reference_images));
    }
    join_strings(parts.as_slice(), LINE_BREAK)
}


pub const FRONT_COVER: &'static str = "front-cover";
pub const BACK_COVER: &'static str = "back-cover";
pub const CONTENT_PAGE: &'static str = "content";

/// Keywords that mark a cover page in a page's lower-cased content.
pub open spec fn cover_words() -> Seq<Seq<char>> {
    seq!["封面"@, "cover"@]
}

/// Keywords that mark a closing page in a page's lower-cased content.
pub open spec fn closing_words() -> Seq<Seq<char>> {
    seq!["封底"@, "thank"@, "谢谢"@, "感谢"@]
}

/// The kind of page to draw: the first page is the front cover and the
/// last the back cover (when the page count is known); otherwise a cover
/// or closing keyword in the lower-cased content decides, and a page with
/// neither is content.
pub open spec fn spec_image_page_type(lower_content: Seq<char>, page_num: u32, total_pages: usize) -> Seq<char> {
    if page_num == 1 {
        FRONT_COVER@
    } else if total_pages > 0 && page_num as int == total_pages as int {
        BACK_COVER@
    } else if mentions_any(lower_content, cover_words()) {
        FRONT_COVER@
    } else if mentions_any(lower_content, closing_words()) {
        BACK_COVER@
    } else {
        CONTENT_PAGE@
    }
}

/// The kind of page to draw for a page's content.
pub fn image_page_type(content: &str, page_num: u32, total_pages: usize) -> (r: &'static str)
    ensures
        r@ == spec_image_page_type(spec_to_lowercase(content@), page_num, total_pages),
{
    if page_num == 1 {
        return FRONT_COVER;
    }
    if total_pages > 0 && page_num as usize == total_pages {
        return BACK_COVER;
    }
    let lower = to_lowercase(content);
    let t = chars_of(lower.as_str());
    let cover = ["封面", "cover"];
    proof {
        reveal_strlit("封面");
        reveal_strlit("cover");
        assert forall|k: int| 0 <= k < cover@.len() implies #[trigger] cover@[k]@ == cover_words()[k] by {}
    }
    if contains_any(&t, &cover, Ghost(cover_words())) {
        return FRONT_COVER;
    }
    let closing = ["封底", "thank", "谢谢", "感谢"];
    proof {
        reveal_strlit("封底");
        reveal_strlit("thank");
        reveal_strlit("谢谢");
        reveal_strlit("感谢");
        assert forall|k: int| 0 <= k < closing@.len() implies #[trigger] closing@[k]@ == closing_words()[k] by {}
    }
    if contains_any(&t, &closing, Ghost(closing_words())) {
        return BACK_COVER;
    }
    CONTENT_PAGE
}

/// The picture of a template that serves a kind of page.
pub open spec fn spec_template_image_name(page_type: Seq<char>) -> Seq<char> {
    if page_type == FRONT_COVER@ {
        "front-cover.png"@
    } else if page_type == BACK_COVER@ {
        "back-cover.png"@
    } else {
        "content.png"@
    }
}

/// The file of a template's picture for a kind of page.
pub fn template_image_name(page_type: &str) -> (r: &'static str)
    ensures
        r@ == spec_template_image_name(page_type@),
{
    if str_eq(page_type, FRONT_COVER) {
        "front-cover.png"
    } else if str_eq(page_type, BACK_COVER) {
        "back-cover.png"
    } else {
        "content.png"
    }
}

/// The number of a page from its file's stem (`page-07`): what follows
/// `page-` read as a `u32`, 0 when there is none.
pub open spec fn spec_stem_page_number(stem: Seq<char>) -> u32 {
    if has_prefix(stem, "page-"@) {
        match spec_parse_u32(stem.skip(5)) {
            Some(n) => n,
            None => 0,
        }
    } else {
        0
    }
}

/// The number of a page from its file's stem.
pub fn stem_page_number(stem: &str) -> (r: u32)
    ensures
        r == spec_stem_page_number(stem@),
{
    let s = chars_of(stem);
    let p = chars_of("page-");
    proof {
        reveal_strlit("page-");
        assert(s@.subrange(0, s@.len() as int) =~= s@);
    }
    if !starts_with_at(s.as_slice(), 0, s.len(), p.as_slice()) {
        return 0;
    }
    let rest = substring(s.as_slice(), 5, s.len());
    proof {
        assert(s@.subrange(5, s@.len() as int) =~= s@.skip(5));
    }
    match parse_u32(rest.as_str()) {
        Some(n) => n,
        None => 0,
    }
}

/// How the drawing of one page went.
#[derive(Clone, Debug)]
pub enum ImageJobStatus {
    Success,
    Generating,
    Failed(String),
}

/// The outcome of drawing one page.
#[derive(Clone, Debug)]
pub struct ImageJobResult {
    pub page_num: u32,
    pub status: ImageJobStatus,
    pub output_path: Option<String>,
    pub error: Option<String>,
}

impl ImageJobResult {
    /// The result for a page from where its picture was written, or from
    /// the error that stopped it.
    pub fn from_outcome(page_num: u32, outcome: Result<String, String>) -> (r: ImageJobResult)
        ensures
            r.page_num == page_num,
            match outcome {
                Ok(path) => r.status is Success && r.output_path == Some(path) && r.error is None,
                Err(e) => (r.status matches ImageJobStatus::Failed(m) && m@ == e@) && r.output_path is None && r.error == Some(e),
            },
    {
        match outcome {
            Ok(path) => ImageJobResult { page_num, status: ImageJobStatus::Success, output_path: Some(path), error: None },
            Err(e) => {
                let shown = e.clone();
                ImageJobResult { page_num, status: ImageJobStatus::Failed(shown), output_path: None, error: Some(e) }
            },
        }
    }
}

} // verus!
