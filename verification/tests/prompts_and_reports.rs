use ppt_maker::attachments::get_file_type;
use ppt_maker::image_prompt::build_image_prompt;
use ppt_maker::numbers::parse_i64;
use ppt_maker::reports::{merge_editability_reports, EditabilityReport};
use ppt_maker::style_guide::StyleGuide;

#[test]
fn prompt_without_references_or_guide() {
    let p = build_image_prompt("标题\n**讲稿备注** 说明\n  **讲稿**：x\n要点", Some("简约"), "front-cover", None, None, false);
    assert_eq!(
        p,
        "风格要求：\n简约\n\n页面类型：封面页（保持封面标题区、副标题区、装饰元素的布局不变）\n\n需要更新的内容：\n标题\n要点"
    );
}

#[test]
fn prompt_with_guide_ignores_raw_style() {
    let mut guide = StyleGuide::default();
    guide.prompt_anchor = "沉稳".to_string();
    guide.style_core.palette = vec!["蓝".to_string(), "白".to_string()];
    let p = build_image_prompt("内容", Some("忽略"), "other", Some("x"), Some(&guide), false);
    assert_eq!(
        p,
        "风格基调：沉稳\n配色方案：蓝、白\n\n页面类型：内容页（保持内容区域的卡片布局、图表样式不变）\n\n需要更新的内容：\n内容"
    );
    guide.prompt_anchor = String::new();
    guide.style_core.palette = Vec::new();
    let p = build_image_prompt("", None, "back-cover", None, Some(&guide), false);
    assert_eq!(p, "\n页面类型：封底页（保持致谢区、联系方式区的布局不变）\n\n需要更新的内容：\n");
}

#[test]
fn prompt_with_reference_images_frames_the_task() {
    let p = build_image_prompt("a", None, "front-cover", None, None, true);
    let lines: Vec<&str> = p.split('\n').collect();
    assert_eq!(lines[0], "【核心任务】这是一张模板图片，你需要在此基础上生成新的页面。");
    assert_eq!(lines[1], "");
    assert_eq!(lines[9], "【允许修改】只有内容区域的文字和数据可以更新。");
    assert!(p.ends_with("\na\n\n【最终检查】生成前请确认：模板固有元素是否保持不变？只修改了内容区域的文字？"));
}

#[test]
fn only_text_files_are_documents() {
    assert_eq!(get_file_type("txt"), "document");
    assert_eq!(get_file_type("md"), "document");
    assert_eq!(get_file_type("pdf"), "other");
    assert_eq!(get_file_type("TXT"), "other");
}

#[test]
fn whole_numbers_parse_like_std() {
    for s in ["0", "12192000", "-5", "+7", "9223372036854775807", "-9223372036854775808"] {
        assert_eq!(parse_i64(s), s.parse::<i64>().ok());
    }
    for s in ["", "-", "+", "1.5", " 1", "9223372036854775808", "--1", "1e3"] {
        assert_eq!(parse_i64(s), None);
    }
}

fn report(n: u32, issues: &[&str], limitations: &[&str]) -> EditabilityReport {
    EditabilityReport {
        slide: n,
        editable_text_bodies: n,
        accepted_ocr_lines: 2 * n,
        omitted_ocr_lines: 1,
        ocr_corrections: 0,
        native_shapes: 9,
        native_lines: 9,
        pictures: 9,
        issues: issues.iter().map(|s| s.to_string()).collect(),
        limitations: limitations.iter().map(|s| s.to_string()).collect(),
    }
}

#[test]
fn merged_report_sums_and_labels_pages() {
    let reports = vec![report(1, &["low contrast"], &[]), report(2, &[], &["rotated text"])];
    let m = merge_editability_reports(&reports, true);
    assert_eq!(m.slide, 0);
    assert_eq!(m.editable_text_bodies, 3);
    assert_eq!(m.accepted_ocr_lines, 6);
    assert_eq!(m.omitted_ocr_lines, 2);
    assert_eq!(m.ocr_corrections, 0);
    assert_eq!((m.native_shapes, m.native_lines, m.pictures), (0, 0, 0));
    assert_eq!(m.issues, vec!["Slide 1: low contrast".to_string()]);
    assert_eq!(m.limitations, vec!["Slide 2: rotated text".to_string()]);
}

#[test]
fn merging_no_pages_says_so() {
    let m = merge_editability_reports(&[report(3, &["x"], &[])], false);
    assert_eq!(m.issues, vec!["No slides processed".to_string()]);
    assert_eq!(m.editable_text_bodies, 0);
    assert!(m.limitations.is_empty());
}
