use ppt_maker::outline::{extract_field, page_bounds, parse_outline, OutlineMode};
use ppt_maker::project_pages::{extract_page_title, extract_title, split_outline_content};

#[test]
fn modes_have_page_ranges() {
    assert_eq!(OutlineMode::Simple.page_range(), (3, 5));
    assert_eq!(OutlineMode::Medium.page_range(), (6, 10));
    assert_eq!(OutlineMode::Detailed.page_range(), (10, 15));
}

#[test]
fn requested_page_counts_are_held_to_fifty() {
    assert_eq!(page_bounds("simple", None), (3, 5));
    assert_eq!(page_bounds("detailed", None), (10, 15));
    assert_eq!(page_bounds("whatever", None), (6, 10));
    assert_eq!(page_bounds("simple", Some(0)), (1, 1));
    assert_eq!(page_bounds("simple", Some(80)), (50, 50));
    assert_eq!(page_bounds("simple", Some(7)), (7, 7));
}

#[test]
fn field_value_follows_the_first_colon() {
    let page = "## 第1页：封面\n\n**标题**: 年度: 总结 \n**页面内容**：全角冒号\n";
    assert_eq!(extract_field(page, "标题"), "年度: 总结");
    assert_eq!(extract_field(page, "页面内容"), "");
    assert_eq!(extract_field(page, "讲稿备注"), "");
}

#[test]
fn outline_pages_are_cut_at_rules() {
    let text = "# 主题：测试\n\n---\n\n## 第1页：封面\n\n**标题**: 开场\n**布局设计**: 居中\n\n---\n\n## 第2页：结尾\n\n**标题**: 谢谢\n**讲稿备注**: 结束语\n";
    let pages = parse_outline(text).unwrap();
    assert_eq!(pages.len(), 3);
    assert_eq!(pages[0].page_num, 1);
    assert_eq!(pages[0].title, "");
    assert_eq!(pages[1].page_num, 2);
    assert_eq!(pages[1].title, "开场");
    assert_eq!(pages[1].layout, "居中");
    assert_eq!(pages[2].title, "谢谢");
    assert_eq!(pages[2].speaker_notes, "结束语");
    assert_eq!(pages[2].image_desc, "");
}

#[test]
fn outline_without_rules_is_one_page() {
    let pages = parse_outline("**标题**: 唯一").unwrap();
    assert_eq!(pages.len(), 1);
    assert_eq!(pages[0].title, "唯一");
    assert_eq!(split_outline_content("no rules here"), vec!["no rules here".to_string()]);
}

#[test]
fn split_keeps_the_pieces_between_rules() {
    assert_eq!(split_outline_content("a\n---\nb\n---\n"), vec!["a".to_string(), "b".to_string(), "".to_string()]);
    assert_eq!(split_outline_content(""), vec!["".to_string()]);
}

#[test]
fn page_titles_come_from_headings_and_fields() {
    assert_eq!(extract_page_title("## 第3页：市场分析\n内容"), "市场分析");
    assert_eq!(extract_page_title("## 第12页: 结语"), "结语");
    assert_eq!(extract_title("## 第３页：全角页码"), "全角页码");
    assert_eq!(extract_page_title("## 第3页\n**标题**：下一行"), "下一行");
    assert_eq!(extract_page_title("正文\n**标题**: 增长"), "增长");
    assert_eq!(extract_page_title("# 主题：测试\n# 总览"), "总览");
    assert_eq!(extract_title("# 主题：测试\n# 总览"), "主题：测试");
    assert_eq!(extract_page_title("plain text"), "未命名页面");
    assert_eq!(extract_title(""), "未命名页面");
}
