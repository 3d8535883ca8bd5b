use ppt_maker::image_requests::{decode_image_base64, edits_endpoint, elements_url, image_size_text, is_web_address, refine_prompt, template_request, TemplateRequest};
use ppt_maker::attachments::{attachment_file_name, attachment_of, order_by_name, sort_attachments, AttachmentInfo};
use ppt_maker::config::{connection_ok, format_config_yaml, img_models_url, llm_models_url, AppConfig};
use ppt_maker::image_prompt::{image_page_type, stem_page_number, template_image_name, ImageJobResult, ImageJobStatus};

#[test]
fn default_settings_use_openai_and_five_sizes() {
    let c = AppConfig::default();
    assert_eq!(c.llm.provider, "openai");
    assert_eq!(c.llm.endpoint, "https://api.openai.com/v1");
    assert_eq!(c.llm.model, "gpt-4o");
    assert_eq!(c.img.endpoint, "https://api.openai.com/v1/images/generations");
    assert_eq!(c.img.model, "gpt-image-2");
    assert!(c.llm.api_key.is_empty() && c.img.extra_headers.is_empty());
    let sizes: Vec<(String, u32, u32)> = c.image_sizes.iter().map(|s| (s.name.clone(), s.width, s.height)).collect();
    assert_eq!(sizes.len(), 5);
    assert_eq!(sizes[0], ("16:9 横屏".to_string(), 1920, 1072));
    assert_eq!(sizes[4], ("1:1 方形".to_string(), 1072, 1072));
}

#[test]
fn settings_file_indents_each_section() {
    let text = format_config_yaml("provider: openai\nmodel: x\n", "model: y", "- name: a\n  width: 1\n");
    assert_eq!(
        text,
        "llm:\n  provider: openai\n  model: x\n\nimg:\n  model: y\n\nimage_sizes:\n  - name: a\n    width: 1\n"
    );
    assert_eq!(format_config_yaml("", "", ""), "llm:\n\nimg:\n\nimage_sizes:\n");
}

#[test]
fn service_test_addresses() {
    assert_eq!(llm_models_url("https://api.openai.com/v1"), "https://api.openai.com/v1/models");
    assert_eq!(img_models_url("https://api.openai.com/v1/images/generations"), "https://api.openai.com/v1/images/models");
    assert_eq!(img_models_url("https://x/generations/v2/"), "https://x/v2/models");
    assert_eq!(img_models_url("https://x//"), "https://x/models");
    assert!(connection_ok(200) && connection_ok(299) && connection_ok(404) && connection_ok(403));
    assert!(!connection_ok(500) && !connection_ok(401) && !connection_ok(300));
}

#[test]
fn page_kinds_for_drawing() {
    assert_eq!(image_page_type("任何内容", 1, 5), "front-cover");
    assert_eq!(image_page_type("任何内容", 5, 5), "back-cover");
    assert_eq!(image_page_type("THANK you", 3, 5), "back-cover");
    assert_eq!(image_page_type("Cover story", 3, 0), "front-cover");
    assert_eq!(image_page_type("市场分析", 3, 5), "content");
    assert_eq!(template_image_name("front-cover"), "front-cover.png");
    assert_eq!(template_image_name("back-cover"), "back-cover.png");
    assert_eq!(template_image_name("content"), "content.png");
    assert_eq!(stem_page_number("page-07"), 7);
    assert_eq!(stem_page_number("page-x"), 0);
    assert_eq!(stem_page_number("cover"), 0);
}

#[test]
fn job_results_record_paths_or_errors() {
    let ok = ImageJobResult::from_outcome(3, Ok("/p/page-03.png".to_string()));
    assert_eq!(ok.page_num, 3);
    assert!(matches!(ok.status, ImageJobStatus::Success));
    assert_eq!(ok.output_path.as_deref(), Some("/p/page-03.png"));
    assert!(ok.error.is_none());
    let failed = ImageJobResult::from_outcome(4, Err("timeout".to_string()));
    assert!(matches!(failed.status, ImageJobStatus::Failed(ref m) if m == "timeout"));
    assert_eq!(failed.error.as_deref(), Some("timeout"));
    assert!(failed.output_path.is_none());
}

fn attachment(name: &str) -> AttachmentInfo {
    attachment_of(name.to_string(), format!("/a/{}", name), "txt").unwrap()
}

#[test]
fn attachments_are_text_files_sorted_by_name() {
    assert!(attachment_of("a.MD".to_string(), "/a/a.MD".to_string(), "MD").is_some());
    assert!(attachment_of("a.pdf".to_string(), "/a/a.pdf".to_string(), "pdf").is_none());
    let a = attachment_of("n.txt".to_string(), "/x/n.txt".to_string(), "txt").unwrap();
    assert_eq!((a.name.as_str(), a.path.as_str(), a.file_type.as_str()), ("n.txt", "/x/n.txt", "document"));
    let sorted = sort_attachments(vec![attachment("b.md"), attachment("a.txt"), attachment("B.md"), attachment("ab.md"), attachment("a")]);
    let names: Vec<&str> = sorted.iter().map(|a| a.name.as_str()).collect();
    assert_eq!(names, vec!["B.md", "a", "a.txt", "ab.md", "b.md"]);
}

#[test]
fn image_requests_follow_the_model() {
    assert_eq!(image_size_text(1920, 1080), "1920x1080");
    assert_eq!(template_request("GPT-Image-1"), TemplateRequest::Edits);
    assert_eq!(template_request("agnes-v2"), TemplateRequest::ExtraBody);
    assert_eq!(template_request("flux"), TemplateRequest::Inline);
    assert_eq!(edits_endpoint("https://x/v1/images/generations"), "https://x/v1/images/edits");
    assert_eq!(edits_endpoint("https://x/v1"), "https://x/v1");
    assert_eq!(decode_image_base64("TWFu").unwrap(), b"Man".to_vec());
    assert!(decode_image_base64("TWF").unwrap_err().starts_with("Failed to decode base64 image: "));
}

#[test]
fn refine_prompt_frames_the_request() {
    let p = refine_prompt("把标题改成红色");
    assert_eq!(p, "请根据以下要求对图片进行微调，保持整体风格和布局不变，只修改指定部分：\n\n把标题改成红色\n\n请生成修改后的图片。");
}

#[test]
fn attachments_keep_the_last_segment_of_their_path() {
    assert_eq!(attachment_file_name("/home/u/notes.md"), "notes.md");
    assert_eq!(attachment_file_name(r"C:\docs\plan.txt"), "plan.txt");
    assert_eq!(attachment_file_name("mixed/dir\\file"), "file");
    assert_eq!(attachment_file_name("plain"), "plain");
    assert_eq!(attachment_file_name("dir/"), "");
}

#[test]
fn names_are_ordered_as_str_orders_them() {
    let names: Vec<String> = ["page-10.png", "page-02.jpg", "page-1.png", "Page-03.png", "page-02.jpg"]
        .iter()
        .map(|s| s.to_string())
        .collect();
    assert_eq!(order_by_name(&names), vec![3, 1, 4, 2, 0]);
}

#[test]
fn elements_go_to_the_edits_address() {
    assert_eq!(elements_url("https://api.example.com/v1/"), "https://api.example.com/v1/images/edits");
    assert_eq!(elements_url("https://api.example.com/v1//"), "https://api.example.com/v1/images/edits");
    assert_eq!(elements_url("http://h"), "http://h/images/edits");
    assert!(is_web_address("https://cdn/x.png"));
    assert!(!is_web_address("iVBORw0KGgo="));
}
