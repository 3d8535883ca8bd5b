use ppt_maker::brainstorm::{chat_messages, conversation_summary, note_block, note_part, requirements_prompt, stored_role, ChatContent, Message, REQUIREMENTS_TAIL};
use ppt_maker::pptx_colors::ColorScheme;
use ppt_maker::slides::{count_slide_parts, slide_layout_kind};
use ppt_maker::style_extraction::{
    fallback_style_guide, image_data_url, image_mime, pptx_style_prompt, reference_paths, style_markdown,
    vision_error_message, PPTX_STYLE_TAIL, VISION_UNSUPPORTED,
};
use ppt_maker::style_guide::StyleGuide;
use ppt_maker::guide_markdown::parse_style_guide_from_markdown;
use ppt_maker::xml::XmlNode;

#[test]
fn pictures_travel_as_data_urls() {
    assert_eq!(image_mime("jpg"), "image/jpeg");
    assert_eq!(image_mime("jpeg"), "image/jpeg");
    assert_eq!(image_mime("gif"), "image/gif");
    assert_eq!(image_mime("webp"), "image/webp");
    assert_eq!(image_mime("bmp"), "image/png");
    assert_eq!(image_data_url("image/png", b"Man"), "data:image/png;base64,TWFu");
    assert_eq!(image_data_url("image/png", b"Ma"), "data:image/png;base64,TWE=");
    assert_eq!(image_data_url("image/gif", b"M"), "data:image/gif;base64,TQ==");
    assert_eq!(image_data_url("x", &[0xff, 0xfe, 0x00, 0x01]), "data:x;base64,//4AAQ==");
    assert_eq!(image_data_url("x", b""), "data:x;base64,");
}

#[test]
fn services_without_vision_are_named() {
    assert_eq!(vision_error_message("unknown variant 'image_url', expected text"), VISION_UNSUPPORTED);
    assert_eq!(vision_error_message("bad image_url"), VISION_UNSUPPORTED);
    assert_eq!(vision_error_message("quota exceeded"), "LLM API 错误: quota exceeded");
}

#[test]
fn only_three_local_references_are_read() {
    let paths: Vec<String> = ["a.png", "http://x/b.png", "c.png", "d.png"].iter().map(|s| s.to_string()).collect();
    assert_eq!(reference_paths(&paths), vec!["a.png".to_string(), "c.png".to_string()]);
    assert!(reference_paths(&[]).is_empty());
}

#[test]
fn fallback_guides_take_the_notes_as_anchor() {
    assert_eq!(fallback_style_guide(String::new()).prompt_anchor, "");
    let g = fallback_style_guide("温暖".to_string());
    assert_eq!(g.prompt_anchor, "温暖");
    assert_eq!(g.negative_rules, StyleGuide::default().negative_rules);
}

#[test]
fn presentation_colors_make_the_style_request() {
    let scheme = ColorScheme {
        name: "Office".to_string(),
        colors: vec![("深色1".to_string(), "#000000".to_string()), ("强调色1".to_string(), "#4472C4".to_string())],
    };
    let p = pptx_style_prompt(&scheme, 12, &["图文混排".to_string()]);
    assert!(p.contains("配色方案（主题名称：Office）：\n深色1 #000000\n强调色1 #4472C4\n\n幻灯片数量：12\n主要布局类型：图文混排\n\n"));
    assert!(p.ends_with(PPTX_STYLE_TAIL));
    let empty = ColorScheme { name: "Unknown".to_string(), colors: Vec::new() };
    let q = pptx_style_prompt(&empty, 0, &[]);
    assert!(q.contains("）：\n主色 #4472C4\n辅助色 #ED7D31\n\n幻灯片数量：0\n主要布局类型：未知"));
}

#[test]
fn style_files_have_one_section_per_part() {
    let mut g = StyleGuide::default();
    g.prompt_anchor = "简洁".to_string();
    g.style_core.palette = vec!["蓝 (#0000FF)".to_string(), "白 (#FFFFFF)".to_string()];
    g.negative_rules = vec!["不要渐变".to_string()];
    let md = style_markdown("商务", &g);
    assert!(md.starts_with("# 商务\n\n简洁\n\n## 风格锚点\n简洁\n\n## 配色\n- 蓝 (#0000FF)\n- 白 (#FFFFFF)\n\n## 背景基调\n"));
    assert!(md.ends_with("\n\n## 禁止规则\n- 不要渐变\n"));
}

#[test]
fn style_files_read_back() {
    let mut g = StyleGuide::default();
    g.prompt_anchor = "深蓝商务风".to_string();
    g.style_core.background_tone = "浅灰底".to_string();
    g.style_core.title_style = "粗体标题".to_string();
    g.style_core.card_style = "圆角卡片".to_string();
    g.style_core.icon_style = "线性图标".to_string();
    g.style_core.line_style = "细线".to_string();
    g.negative_rules = vec!["不要渐变".to_string(), "不要阴影".to_string()];
    let md = style_markdown("商务", &g);
    let p = parse_style_guide_from_markdown(&md);
    assert_eq!(p.prompt_anchor, g.prompt_anchor);
    assert_eq!(p.style_core.background_tone, g.style_core.background_tone);
    assert_eq!(p.style_core.title_style, g.style_core.title_style);
    assert_eq!(p.style_core.card_style, g.style_core.card_style);
    assert_eq!(p.style_core.icon_style, g.style_core.icon_style);
    assert_eq!(p.style_core.line_style, g.style_core.line_style);
    assert_eq!(p.negative_rules, g.negative_rules);
}

#[test]
fn style_files_read_back_with_any_one_line_name_and_palette() {
    let mut g = StyleGuide::default();
    g.prompt_anchor = "极简".to_string();
    g.style_core.palette = vec!["".to_string(), "  ## 背景明度 ".to_string(), "#112233".to_string()];
    g.negative_rules = vec!["不要边框".to_string()];
    let md = style_markdown(" ## 标题风格 ", &g);
    let p = parse_style_guide_from_markdown(&md);
    assert_eq!(p.prompt_anchor, g.prompt_anchor);
    assert_eq!(p.style_core.background_tone, g.style_core.background_tone);
    assert_eq!(p.style_core.title_style, g.style_core.title_style);
    assert_eq!(p.style_core.line_style, g.style_core.line_style);
    assert_eq!(p.negative_rules, g.negative_rules);
}

fn node(depth: usize, name: &str) -> XmlNode {
    XmlNode { element: true, depth, name: name.to_string(), attributes: Vec::new() }
}

#[test]
fn slides_are_counted_and_classified() {
    let names: Vec<String> = ["ppt/slides/slide1.xml", "ppt/slides/slide2.xml", "ppt/slides/_rels/slide1.xml.rels", "ppt/slideLayouts/slideLayout1.xml"]
        .iter()
        .map(|s| s.to_string())
        .collect();
    assert_eq!(count_slide_parts(&names), 2);
    let shapes: Vec<XmlNode> = (0..3).flat_map(|_| vec![node(2, "p:sp"), node(3, "p:nvSpPr")]).collect();
    assert_eq!(slide_layout_kind(&shapes), "中等布局");
    let many: Vec<XmlNode> = (0..6).flat_map(|_| vec![node(2, "p:sp"), node(3, "p:nvSpPr")]).collect();
    assert_eq!(slide_layout_kind(&many), "多元素布局");
    assert_eq!(slide_layout_kind(&[node(1, "p:pic")]), "图文混排");
    assert_eq!(slide_layout_kind(&[node(1, "p:sp"), node(2, "p:spPr")]), "简洁布局");
}

fn message(role: &str, content: &str) -> Message {
    Message {
        id: 0,
        role: role.to_string(),
        content: content.to_string(),
        attachments: Vec::new(),
        timestamp: "t".to_string(),
    }
}

#[test]
fn conversations_become_requests() {
    let history = vec![message("user", "做一个路演"), message("assistant", "好的")];
    assert_eq!(conversation_summary(&history), "【user】做一个路演\n\n【assistant】好的");
    assert_eq!(conversation_summary(&[]), "");
    let plain = chat_messages("sys", &history, "继续", None);
    assert_eq!(plain.len(), 4);
    assert_eq!(plain[0].role, "system");
    assert!(matches!(&plain[3].content, ChatContent::Text(t) if t == "继续"));
    let with_notes = chat_messages("sys", &[], "看附件", Some(vec![note_part("a.md", "内容")]));
    assert_eq!(with_notes[1].role, "user");
    match &with_notes[1].content {
        ChatContent::Parts(p) => assert_eq!(p, &vec!["看附件".to_string(), "\n\n---\n附件: a.md\n---\n内容".to_string()]),
        ChatContent::Text(_) => panic!("expected parts"),
    }
    assert_eq!(note_block("b.txt", "x"), "\n---\n附件: b.txt\n---\nx\n");
    let p = requirements_prompt("S", "");
    assert!(p.starts_with("根据以下对话内容，生成一份完整的演示需求文档。\n\n对话记录：\nS"));
    assert!(p.ends_with(REQUIREMENTS_TAIL));
    let q = requirements_prompt("S", "N");
    assert!(q.contains("对话记录：\nS\n\n附件内容：\nN\n\n请按照"));
    assert_eq!(stored_role("User"), "user");
}
