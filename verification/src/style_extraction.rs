//! Extracting a style from reference pictures or a presentation: which
//! pictures are sent and how, the request built from a presentation's
//! colors, the message for a service that cannot read pictures, and the
//! style file written from the guide that comes back.
use vstd::prelude::*;
use vstd::string::StrSliceExecFns;
use crate::pptx_colors::{pairs_view, ColorScheme};
use crate::ooxml::{dec, push_decimal};
use crate::style_guide::{default_apart_from_anchor, is_default_guide, StyleGuide};
use crate::template_pages::contains_sub;
use crate::text::{chars_of, has_prefix, owned, push_string, spec_join, starts_with_at, str_eq, views};
use crate::guide_markdown::{
    COLORS_HEADER, SECTION_ANCHOR, SECTION_BACKGROUND, SECTION_CARD, SECTION_ICON, SECTION_LINE, SECTION_RULES, SECTION_TITLE,
};
use crate::style_file::{bullet_lines, cat_lines, lemma_cat_push, style_lines};

verus! {

/// The MIME type of a picture by its extension; PNG when unknown.
pub open spec fn spec_image_mime(extension: Seq<char>) -> Seq<char> {
    if extension == "jpg"@ || extension == "jpeg"@ {
        "image/jpeg"@
    } else if extension == "png"@ {
        "image/png"@
    } else if extension == "gif"@ {
        "image/gif"@
    } else if extension == "webp"@ {
        "image/webp"@
    } else {
        "image/png"@
    }
}

/// The MIME type of a picture by its extension.
pub fn image_mime(extension: &str) -> (r: &'static str)
    ensures
        r@ == spec_image_mime(extension@),
{
    if str_eq(extension, "jpg") || str_eq(extension, "jpeg") {
        "image/jpeg"
    } else if str_eq(extension, "png") {
        "image/png"
    } else if str_eq(extension, "gif") {
        "image/gif"
    } else if str_eq(extension, "webp") {
        "image/webp"
    } else {
        "image/png"
    }
}

/// The character of the standard base64 alphabet for a six-bit value.
pub open spec fn b64_char(v: int) -> char {
    if v < 26 {
        ('A' as int + v) as char
    } else if v < 52 {
        ('a' as int + v - 26) as char
    } else if v < 62 {
        ('0' as int + v - 52) as char
    } else if v == 62 {
        '+'
    } else {
        '/'
    }
}

/// Standard base64 with padding (RFC 4648): each group of three bytes
/// becomes four characters, and a last group of one or two bytes is padded
/// with `=`.
pub open spec fn spec_base64(b: Seq<u8>) -> Seq<char>
    decreases b.len(),
{
    if b.len() == 0 {
        seq![]
    } else {
        let b0 = b[0] as int;
        let b1 = if b.len() > 1 { b[1] as int } else { 0 };
        let b2 = if b.len() > 2 { b[2] as int } else { 0 };
        let c0 = b64_char(b0 / 4);
        let c1 = b64_char((b0 % 4) * 16 + b1 / 16);
        let c2 = if b.len() > 1 { b64_char((b1 % 16) * 4 + b2 / 64) } else { '=' };
        let c3 = if b.len() > 2 { b64_char(b2 % 64) } else { '=' };
        seq![c0, c1, c2, c3] + if b.len() > 3 {
            spec_base64(b.skip(3))
        } else {
            seq![]
        }
    }
}

/// `base64::engine::general_purpose::STANDARD.encode`: the standard base64
/// text of the bytes, with padding, as the crate documents it.
#[verifier::external_body]
fn encode_base64(data: &[u8]) -> (r: String)
    ensures
        r@ == spec_base64(data@),
{
    base64::Engine::encode(&base64::engine::general_purpose::STANDARD, data)
}

/// A picture as a data URL: `data:`, its MIME type, `;base64,` and its
/// bytes in base64.
pub open spec fn spec_data_url(mime: Seq<char>, data: Seq<u8>) -> Seq<char> {
    "data:"@ + mime + ";base64,"@ + spec_base64(data)
}

/// The data URL that carries a picture's bytes to the text service.
pub fn image_data_url(mime: &str, data: &[u8]) -> (r: String)
    ensures
        r@ == spec_data_url(mime@, data@),
{
    let mut r = owned("data:");
    r.append(mime);
    r.append(";base64,");
    let b = encode_base64(data);
    r.append(b.as_str());
    r
}

pub const VISION_UNSUPPORTED: &'static str =
    "当前配置的 LLM 模型不支持图片输入（多模态）。请使用支持视觉能力的模型，如 GPT-4o、Qwen-VL、DeepSeek-V4 等。";
pub const LLM_ERROR_PREFIX: &'static str = "LLM API 错误: ";

/// The error for a failed request that carried pictures: a service that
/// rejects `image_url` cannot read pictures; otherwise its answer is
/// passed on.
pub open spec fn spec_vision_error(error_text: Seq<char>) -> Seq<char> {
    if contains_sub(error_text, "unknown variant 'image_url'"@) || contains_sub(error_text, "image_url"@) {
        VISION_UNSUPPORTED@
    } else {
        LLM_ERROR_PREFIX@ + error_text
    }
}

/// Whether `kw` occurs in `s`.
fn contains_text(s: &str, kw: &str) -> (r: bool)
    requires
        kw@.len() > 0,
    ensures
        r == contains_sub(s@, kw@),
{
    let t = chars_of(s);
    crate::template_pages::contains_keyword(&t, kw)
}

/// The error to report for a failed request that carried pictures.
pub fn vision_error_message(error_text: &str) -> (r: String)
    ensures
        r@ == spec_vision_error(error_text@),
{
    proof {
        reveal_strlit("unknown variant 'image_url'");
        reveal_strlit("image_url");
    }
    if contains_text(error_text, "unknown variant 'image_url'") || contains_text(error_text, "image_url") {
        owned(VISION_UNSUPPORTED)
    } else {
        let mut r = owned(LLM_ERROR_PREFIX);
        r.append(error_text);
        r
    }
}

/// A path that is not a web address.
pub open spec fn is_local_path(p: Seq<char>) -> bool {
    !has_prefix(p, "http"@)
}

/// The local paths among the first `n`.
pub open spec fn local_paths(paths: Seq<Seq<char>>, n: int) -> Seq<Seq<char>>
    decreases n,
{
    if n <= 0 {
        seq![]
    } else if is_local_path(paths[n - 1]) {
        local_paths(paths, n - 1).push(paths[n - 1])
    } else {
        local_paths(paths, n - 1)
    }
}

/// The reference pictures that are read: among the first three paths,
/// those that are not web addresses (starting with `http`).
pub open spec fn spec_reference_paths(paths: Seq<Seq<char>>) -> Seq<Seq<char>> {
    local_paths(paths, if paths.len() < 3 { paths.len() as int } else { 3 })
}

/// Picks the reference pictures to read.
pub fn reference_paths(paths: &[String]) -> (r: Vec<String>)
    ensures
        views(r@) == spec_reference_paths(views(paths@)),
{
    let ghost all = views(paths@);
    let n: usize = if paths.len() < 3 { paths.len() } else { 3 };
    let http = chars_of("http");
    let mut r: Vec<String> = Vec::new();
    let mut i: usize = 0;
    proof {
        reveal_strlit("http");
        assert(views(r@) =~= Seq::<Seq<char>>::empty());
    }
    while i < n
        invariant
            0 <= i <= n,
            n <= paths@.len(),
            all == views(paths@),
            http@ == "http"@,
            views(r@) == local_paths(all, i as int),
        decreases n - i,
    {
        let p = chars_of(paths[i].as_str());
        proof {
            assert(p@.subrange(0, p@.len() as int) =~= p@);
            assert(all[i as int] == paths@[i as int]@);
        }
        let ghost before = views(r@);
        if !starts_with_at(p.as_slice(), 0, p.len(), http.as_slice()) {
            let kept = paths[i].clone();
            push_string(&mut r, kept);
            proof {
                assert(views(r@) =~= before.push(all[i as int]));
            }
        }
        i = i + 1;
    }
    r
}

/// The guide used when no reference picture could be read: the default,
/// anchored on the style notes when there are any.
pub fn fallback_style_guide(style_notes: String) -> (r: StyleGuide)
    ensures
        default_apart_from_anchor(r),
        style_notes@.len() == 0 ==> is_default_guide(r),
        style_notes@.len() > 0 ==> r.prompt_anchor == style_notes,
{
    let mut guide = StyleGuide::default();
    if style_notes.as_str().unicode_len() > 0 {
        guide.prompt_anchor = style_notes;
    }
    guide
}


pub const PPTX_STYLE_HEAD: &'static str = "请根据以下从PPT文件中提取的配色方案，生成一个完整的风格描述。\n\n配色方案（主题名称：";
pub const PPTX_STYLE_COLORS: &'static str = "）：\n";
pub const PPTX_STYLE_SLIDES: &'static str = "\n\n幻灯片数量：";
pub const PPTX_STYLE_LAYOUT: &'static str = "\n主要布局类型：";
pub const PPTX_STYLE_TAIL: &'static str = "\n\n请返回 JSON 格式，包含以下字段：\n{\n  \"style_core\": {\n    \"background_tone\": \"背景色调描述（根据配色推测合适的背景）\",\n    \"palette\": [\"主色名称 (#颜色代码)\", \"辅助色名称 (#颜色代码)\", \"背景色名称 (#颜色代码)\"],\n    \"title_style\": \"标题样式描述（根据PPT风格推测）\",\n    \"card_style\": \"卡片样式描述（根据PPT风格推测）\",\n    \"icon_style\": \"图标样式描述（根据PPT风格推测）\",\n    \"line_style\": \"线条样式描述（根据PPT风格推测）\"\n  },\n  \"layout_families\": [\"适用的版式类型\"],\n  \"element_primitives\": [\"视觉元素特征\"],\n  \"negative_rules\": [\"禁止事项\"],\n  \"prompt_anchor\": \"一段简洁的风格锚点描述，包含配色方案、整体风格、视觉语言等关键信息\"\n}\n\n注意：\n1. palette 中必须使用上面提供的实际颜色\n2. 只返回 JSON，不要包含其他文字";
pub const DEFAULT_MAIN_COLOR: &'static str = "主色 #4472C4";
pub const DEFAULT_ACCENT_COLOR: &'static str = "辅助色 #ED7D31";
pub const UNKNOWN_LAYOUT: &'static str = "未知";

/// The request that asks the text service to read a style out of several
/// reference pictures.
pub const IMAGES_STYLE_PROMPT: &'static str = "请仔细分析这些原稿图的 PPT 风格，提炼出稳定的版式与视觉语言，供后续多页 PPT 统一复用。\n\n【重要】颜色提取要求：\n1. 仔细观察图片中实际使用的颜色，准确提取主色、辅助色、背景色\n2. 必须提供准确的 HEX 颜色代码（如 #FF5733），不要凭空想象颜色\n3. 如果图片明显是红色主基调，请如实返回红色系颜色\n\n请返回 JSON 格式，包含以下字段：\n{\n  \"style_core\": {\n    \"background_tone\": \"背景色调描述（如'浅灰底色'、'深蓝底色'）\",\n    \"palette\": [\"主色名称 (#颜色代码)\", \"辅助色名称 (#颜色代码)\", \"背景色名称 (#颜色代码)\"],\n    \"title_style\": \"标题样式描述\",\n    \"card_style\": \"卡片样式描述\",\n    \"icon_style\": \"图标样式描述\",\n    \"line_style\": \"线条样式描述\"\n  },\n  \"layout_families\": [\"grid_n_x_m\", \"timeline_horizontal\", \"hub_and_spoke\", ...],\n  \"element_primitives\": [\"语义分组\", \"重点标记\", ...],\n  \"negative_rules\": [\"禁止事项1\", \"禁止事项2\"],\n  \"prompt_anchor\": \"一段简洁的风格锚点描述，用于注入每页的生图提示词，确保整套PPT视觉一致\"\n}\n\n注意：\n1. layout_families 从以下选项中选择：grid_n_x_m, timeline_horizontal, timeline_vertical, hub_and_spoke, split_left_right, split_top_bottom, compare_dual_axis, process_horizontal, process_vertical, hero_with_supporting_cards\n2. prompt_anchor 应该是一段完整的描述，包含配色方案、整体风格、视觉语言等关键信息\n3. 只返回 JSON，不要包含其他文字";

/// The request that asks the text service to read a style out of one
/// picture.
pub const FILE_STYLE_PROMPT: &'static str = "请仔细分析这张图片的设计风格，准确提取视觉元素，用于生成类似风格的PPT或信息图表。\n\n【重要】颜色提取要求：\n1. 仔细观察图片中实际使用的颜色，准确提取主色、辅助色、背景色\n2. 必须提供准确的 HEX 颜色代码（如 #FF5733），不要凭空想象颜色\n3. 如果图片明显是红色主基调，请如实返回红色系颜色\n\n请返回 JSON 格式，包含以下字段：\n{\n  \"style_core\": {\n    \"background_tone\": \"背景色调描述（如'浅灰底色'、'深蓝底色'）\",\n    \"palette\": [\"主色名称 (#颜色代码)\", \"辅助色名称 (#颜色代码)\", \"背景色名称 (#颜色代码)\"],\n    \"title_style\": \"标题样式描述\",\n    \"card_style\": \"卡片样式描述\",\n    \"icon_style\": \"图标样式描述\",\n    \"line_style\": \"线条样式描述\"\n  },\n  \"layout_families\": [\"适用的版式类型\"],\n  \"element_primitives\": [\"视觉元素特征\"],\n  \"negative_rules\": [\"禁止事项\"],\n  \"prompt_anchor\": \"一段简洁的风格锚点描述，包含配色方案、整体风格、视觉语言等关键信息\"\n}\n\n注意：只返回 JSON，不要包含其他文字";

/// The color lines of a presentation's scheme (`name hex`), or two
/// default colors when the scheme has none.
pub open spec fn scheme_color_lines(colors: Seq<(Seq<char>, Seq<char>)>) -> Seq<Seq<char>> {
    if colors.len() == 0 {
        seq![DEFAULT_MAIN_COLOR@, DEFAULT_ACCENT_COLOR@]
    } else {
        colors.map_values(|c: (Seq<char>, Seq<char>)| c.0 + " "@ + c.1)
    }
}

/// The request for a style description from a presentation's theme colors,
/// its slide count and its first slide's kind of layout.
pub open spec fn spec_pptx_style_prompt(scheme_name: Seq<char>, colors: Seq<(Seq<char>, Seq<char>)>, slide_count: nat, first_layout: Option<Seq<char>>) -> Seq<char> {
    PPTX_STYLE_HEAD@ + scheme_name + PPTX_STYLE_COLORS@ + spec_join(scheme_color_lines(colors), "\n"@) + PPTX_STYLE_SLIDES@
        + dec(slide_count) + PPTX_STYLE_LAYOUT@ + match first_layout {
        Some(l) => l,
        None => UNKNOWN_LAYOUT@,
    } + PPTX_STYLE_TAIL@
}

/// Builds the request for a style description from a presentation.
pub fn pptx_style_prompt(scheme: &ColorScheme, slide_count: usize, layouts: &[String]) -> (r: String)
    ensures
        r@ == spec_pptx_style_prompt(
            scheme.name@,
            pairs_view(scheme.colors@),
            slide_count as nat,
            if layouts@.len() > 0 { Some(layouts@[0]@) } else { None },
        ),
{
    let ghost pv = pairs_view(scheme.colors@);
    let mut lines: Vec<String> = Vec::new();
    if scheme.colors.len() == 0 {
        lines.push(owned(DEFAULT_MAIN_COLOR));
        lines.push(owned(DEFAULT_ACCENT_COLOR));
        proof {
            assert(views(lines@) =~= scheme_color_lines(pv));
        }
    } else {
        let mut i: usize = 0;
        while i < scheme.colors.len()
            invariant
                0 <= i <= scheme.colors@.len(),
                pv == pairs_view(scheme.colors@),
                views(lines@) == pv.take(i as int).map_values(|c: (Seq<char>, Seq<char>)| c.0 + " "@ + c.1),
            decreases scheme.colors@.len() - i,
        {
            let mut line = owned(scheme.colors[i].0.as_str());
            line.append(" ");
            line.append(scheme.colors[i].1.as_str());
            let ghost before = views(lines@);
            push_string(&mut lines, line);
            proof {
                assert(pv[i as int] == (scheme.colors@[i as int].0@, scheme.colors@[i as int].1@));
                assert(views(lines@) =~= pv.take(i + 1).map_values(|c: (Seq<char>, Seq<char>)| c.0 + " "@ + c.1));
            }
            i = i + 1;
        }
        proof {
            assert(pv.take(pv.len() as int) =~= pv);
        }
    }
    let joined = crate::text::join_strings(lines.as_slice(), "\n");
    let mut r = owned(PPTX_STYLE_HEAD);
    r.append(scheme.name.as_str());
    r.append(PPTX_STYLE_COLORS);
    r.append(joined.as_str());
    r.append(PPTX_STYLE_SLIDES);
    push_decimal(&mut r, slide_count as u64);
    r.append(PPTX_STYLE_LAYOUT);
    if layouts.len() > 0 {
        r.append(layouts[0].as_str());
    } else {
        r.append(UNKNOWN_LAYOUT);
    }
    r.append(PPTX_STYLE_TAIL);
    r
}

/// Writes one line and its break.
fn push_line(r: &mut String, line: &str)
    ensures
        final(r)@ == old(r)@ + line@ + "\n"@,
{
    r.append(line);
    r.append("\n");
}

/// `## ` and a section name.
fn header_line(name: &str) -> (r: String)
    ensures
        r@ == "## "@ + name@,
{
    let mut h = owned("## ");
    h.append(name);
    h
}

/// Writes a Markdown list, one `- ` line per item (one empty line for no
/// items).
fn push_bullets(r: &mut String, items: &Vec<String>, Ghost(lines): Ghost<Seq<Seq<char>>>)
    requires
        old(r)@ == cat_lines(lines),
    ensures
        final(r)@ == cat_lines(lines + bullet_lines(views(items@))),
{
    let ghost iv = views(items@);
    if items.len() == 0 {
        push_line(r, "");
        proof {
            reveal_strlit("");
            assert(""@ =~= Seq::<char>::empty());
            assert(iv.len() == 0);
            assert(bullet_lines(iv) == seq![Seq::<char>::empty()]);
            lemma_cat_push(lines, ""@);
            assert(lines.push(""@) =~= lines + bullet_lines(iv));
        }
        return;
    }
    let mut i: usize = 0;
    while i < items.len()
        invariant
            0 <= i <= items@.len(),
            iv == views(items@),
            iv.len() > 0,
            r@ == cat_lines(lines + iv.take(i as int).map_values(|s: Seq<char>| "- "@ + s)),
        decreases items@.len() - i,
    {
        let mut line = owned("- ");
        line.append(items[i].as_str());
        push_line(r, line.as_str());
        proof {
            let before = lines + iv.take(i as int).map_values(|s: Seq<char>| "- "@ + s);
            lemma_cat_push(before, line@);
            assert(iv[i as int] == items@[i as int]@);
            assert(before.push(line@) =~= lines + iv.take(i + 1).map_values(|s: Seq<char>| "- "@ + s));
        }
        i = i + 1;
    }
    proof {
        assert(iv.take(iv.len() as int) =~= iv);
    }
}

/// The style file written from a guide, as its lines (see `style_lines`).
pub open spec fn spec_style_markdown(name: Seq<char>, g: StyleGuide) -> Seq<char> {
    cat_lines(style_lines(name, g))
}

/// Writes the style file of a guide.
pub fn style_markdown(style_name: &str, guide: &StyleGuide) -> (r: String)
    ensures
        r@ == spec_style_markdown(style_name@, *guide),
{
    let ghost g = *guide;
    let mut r = String::new();
    let ghost mut lines: Seq<Seq<char>> = seq![];
    proof {
        assert(r@ =~= cat_lines(lines));
    }
    let mut first = owned("# ");
    first.append(style_name);
    push_line(&mut r, first.as_str());
    proof { lemma_cat_push(lines, first@); lines = lines.push(first@); }
    push_line(&mut r, "");
    proof { lemma_cat_push(lines, ""@); lines = lines.push(""@); }
    push_line(&mut r, guide.prompt_anchor.as_str());
    proof { lemma_cat_push(lines, g.prompt_anchor@); lines = lines.push(g.prompt_anchor@); }
    push_line(&mut r, "");
    proof { lemma_cat_push(lines, ""@); lines = lines.push(""@); }
    let h = header_line(SECTION_ANCHOR);
    push_line(&mut r, h.as_str());
    proof { lemma_cat_push(lines, h@); lines = lines.push(h@); }
    push_line(&mut r, guide.prompt_anchor.as_str());
    proof { lemma_cat_push(lines, g.prompt_anchor@); lines = lines.push(g.prompt_anchor@); }
    push_line(&mut r, "");
    proof { lemma_cat_push(lines, ""@); lines = lines.push(""@); }
    push_line(&mut r, COLORS_HEADER);
    proof { lemma_cat_push(lines, COLORS_HEADER@); lines = lines.push(COLORS_HEADER@); }
    push_bullets(&mut r, &guide.style_core.palette, Ghost(lines));
    proof { lines = lines + bullet_lines(views(g.style_core.palette@)); }
    push_line(&mut r, "");
    proof { lemma_cat_push(lines, ""@); lines = lines.push(""@); }
    let h = header_line(SECTION_BACKGROUND);
    push_line(&mut r, h.as_str());
    proof { lemma_cat_push(lines, h@); lines = lines.push(h@); }
    push_line(&mut r, guide.style_core.background_tone.as_str());
    proof { lemma_cat_push(lines, g.style_core.background_tone@); lines = lines.push(g.style_core.background_tone@); }
    push_line(&mut r, "");
    proof { lemma_cat_push(lines, ""@); lines = lines.push(""@); }
    let h = header_line(SECTION_TITLE);
    push_line(&mut r, h.as_str());
    proof { lemma_cat_push(lines, h@); lines = lines.push(h@); }
    push_line(&mut r, guide.style_core.title_style.as_str());
    proof { lemma_cat_push(lines, g.style_core.title_style@); lines = lines.push(g.style_core.title_style@); }
    push_line(&mut r, "");
    proof { lemma_cat_push(lines, ""@); lines = lines.push(""@); }
    let h = header_line(SECTION_CARD);
    push_line(&mut r, h.as_str());
    proof { lemma_cat_push(lines, h@); lines = lines.push(h@); }
    push_line(&mut r, guide.style_core.card_style.as_str());
    proof { lemma_cat_push(lines, g.style_core.card_style@); lines = lines.push(g.style_core.card_style@); }
    push_line(&mut r, "");
    proof { lemma_cat_push(lines, ""@); lines = lines.push(""@); }
    let h = header_line(SECTION_ICON);
    push_line(&mut r, h.as_str());
    proof { lemma_cat_push(lines, h@); lines = lines.push(h@); }
    push_line(&mut r, guide.style_core.icon_style.as_str());
    proof { lemma_cat_push(lines, g.style_core.icon_style@); lines = lines.push(g.style_core.icon_style@); }
    push_line(&mut r, "");
    proof { lemma_cat_push(lines, ""@); lines = lines.push(""@); }
    let h = header_line(SECTION_LINE);
    push_line(&mut r, h.as_str());
    proof { lemma_cat_push(lines, h@); lines = lines.push(h@); }
    push_line(&mut r, guide.style_core.line_style.as_str());
    proof { lemma_cat_push(lines, g.style_core.line_style@); lines = lines.push(g.style_core.line_style@); }
    push_line(&mut r, "");
    proof { lemma_cat_push(lines, ""@); lines = lines.push(""@); }
    let h = header_line(SECTION_RULES);
    push_line(&mut r, h.as_str());
    proof { lemma_cat_push(lines, h@); lines = lines.push(h@); }
    push_bullets(&mut r, &guide.negative_rules, Ghost(lines));
    proof {
        lines = lines + bullet_lines(views(g.negative_rules@));
        reveal_strlit("");
        assert(""@ =~= Seq::<char>::empty());
        assert(lines =~= style_lines(style_name@, g));
    }
    r
}

} // verus!
