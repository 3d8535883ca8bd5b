use ppt_maker::pptx_colors::{system_color_to_hex, color_slot_name, extract_color_value, color_scheme_from_nodes, color_scheme_from_theme_xml};
use ppt_maker::xml::XmlNode;
use ppt_maker::simple_parts;
use ppt_maker::editable_parts;
use ppt_maker::template_parts;
use ppt_maker::template_pages::{determine_page_type, get_layout_for_page_type, get_fixed_regions, filter_regions_by_exclusions, overlaps_fixed_regions, ContentRegion, FixedRegion, PageType, TemplateLayout};

#[test]
fn test_system_color_mapping() {
    assert_eq!(system_color_to_hex("windowText"), "#000000");
    assert_eq!(system_color_to_hex("window"), "#FFFFFF");
}

#[test]
fn system_colors_default_to_black() {
    assert_eq!(system_color_to_hex("Window"), "#FFFFFF");
    assert_eq!(system_color_to_hex("WindowText"), "#000000");
    assert_eq!(system_color_to_hex("highlight"), "#000000");
}

#[test]
fn scheme_slots_have_display_names() {
    assert_eq!(color_slot_name("a:dk1"), Some("深色1"));
    assert_eq!(color_slot_name("a:accent6"), Some("强调色6"));
    assert_eq!(color_slot_name("a:folHlink"), Some("访问过的链接"));
    assert_eq!(color_slot_name("a:other"), None);
}

fn node(depth: usize, name: &str, attrs: &[(&str, &str)]) -> XmlNode {
    XmlNode {
        element: true,
        depth,
        name: name.to_string(),
        attributes: attrs.iter().map(|(k, v)| (k.to_string(), v.to_string())).collect(),
    }
}

#[test]
fn slot_color_comes_from_first_child_with_a_value() {
    let srgb = vec![node(1, "a:accent1", &[]), node(2, "a:srgbClr", &[("val", "4472c4")])];
    assert_eq!(extract_color_value(&srgb, 0), Some("#4472C4".to_string()));
    let sys = vec![node(1, "a:dk1", &[]), node(2, "a:sysClr", &[("val", "windowText"), ("lastClr", "0a0b0c")])];
    assert_eq!(extract_color_value(&sys, 0), Some("#0A0B0C".to_string()));
    let named = vec![
        node(1, "a:lt1", &[]),
        node(2, "a:extLst", &[("val", "123456")]),
        node(2, "a:sysClr", &[("val", "window")]),
    ];
    assert_eq!(extract_color_value(&named, 0), Some("#FFFFFF".to_string()));
    let grandchild = vec![node(1, "a:lt1", &[]), node(2, "a:extLst", &[]), node(3, "a:srgbClr", &[("val", "111111")])];
    assert_eq!(extract_color_value(&grandchild, 0), None);
    let none = vec![node(1, "a:lt1", &[]), node(2, "a:extLst", &[("val", "123456")])];
    assert_eq!(extract_color_value(&none, 0), None);
}

#[test]
fn scheme_collects_named_slots() {
    let nodes = vec![
        node(1, "a:theme", &[]),
        node(2, "a:clrScheme", &[("name", "Office")]),
        node(3, "a:dk1", &[]),
        node(4, "a:sysClr", &[("val", "windowText"), ("lastClr", "000000")]),
        node(3, "a:accent1", &[]),
        node(4, "a:srgbClr", &[("val", "4472c4")]),
        node(3, "a:unknown", &[]),
        node(4, "a:srgbClr", &[("val", "abcdef")]),
        node(2, "a:fontScheme", &[]),
    ];
    let s = color_scheme_from_nodes(&nodes);
    assert_eq!(s.name, "Office");
    assert_eq!(
        s.colors,
        vec![("深色1".to_string(), "#000000".to_string()), ("强调色1".to_string(), "#4472C4".to_string())]
    );
    let plain = color_scheme_from_nodes(&nodes[2..]);
    assert_eq!(plain.name, "Unknown");
    assert!(plain.colors.is_empty());
}

#[test]
fn theme_text_that_does_not_parse_is_an_error() {
    let e = color_scheme_from_theme_xml("<a:theme>").unwrap_err();
    assert!(e.starts_with("解析主题XML失败: "));
    assert!(e.len() > "解析主题XML失败: ".len());
}

#[test]
fn namespaced_scheme_tags_are_compared_by_local_name() {
    let xml = r#"<a:theme xmlns:a="http://schemas.openxmlformats.org/drawingml/2006/main"><a:themeElements><a:clrScheme name="Office"><a:dk1><a:srgbClr val="000000"/></a:dk1></a:clrScheme></a:themeElements></a:theme>"#;
    let s = color_scheme_from_theme_xml(xml).unwrap();
    assert_eq!(s.name, "Unknown");
    assert!(s.colors.is_empty());
}

#[test]
fn slide_rels_name_picture_and_layout() {
    let expected = format!(
        r#"<?xml version="1.0" encoding="UTF-8" standalone="yes"?>
<Relationships xmlns="http://schemas.openxmlformats.org/package/2006/relationships">
<Relationship Id="rId1" Type="http://schemas.openxmlformats.org/officeDocument/2006/relationships/image" Target="../media/image{}.{}"/>
<Relationship Id="rId2" Type="http://schemas.openxmlformats.org/officeDocument/2006/relationships/slideLayout" Target="../slideLayouts/slideLayout1.xml"/>
</Relationships>"#,
        12, "jpg"
    );
    assert_eq!(simple_parts::generate_slide_rels(12, "jpg"), expected);
}

#[test]
fn presentation_lists_slide_ids_from_256() {
    let p = simple_parts::generate_presentation(3);
    assert!(p.contains(r#"<p:sldId id="256" r:id="rId1"/><p:sldId id="257" r:id="rId2"/><p:sldId id="258" r:id="rId3"/>"#));
    assert!(p.starts_with(r#"<?xml version="1.0" encoding="UTF-8" standalone="yes"?>"#));
    assert_eq!(editable_parts::generate_presentation(3), p);
}

#[test]
fn content_types_override_each_slide() {
    let c = simple_parts::generate_content_types(2);
    assert!(c.contains(r#"<Override PartName="/ppt/slides/slide1.xml""#));
    assert!(c.contains(r#"<Override PartName="/ppt/slides/slide2.xml""#));
    assert!(!c.contains(r#"<Override PartName="/ppt/slides/slide3.xml""#));
    let t = template_parts::generate_content_types(1);
    assert!(t.contains(r#"/ppt/slideLayouts/slideLayout10.xml"#));
    assert!(t.contains(r#"/ppt/slides/slide1.xml"#));
}

#[test]
fn presentation_rels_end_with_the_master() {
    let r = simple_parts::generate_presentation_rels(2);
    assert!(r.contains(r#"<Relationship Id="rId2" Type="http://schemas.openxmlformats.org/officeDocument/2006/relationships/slide" Target="slides/slide2.xml"/>"#));
    assert!(r.contains(r#"Id="rId1000""#));
    assert!(r.ends_with("</Relationships>"));
}

#[test]
fn template_presentation_carries_slide_size() {
    let p = template_parts::generate_presentation_xml(1, 12192000, -5);
    assert!(p.contains(r#"<p:sldSz cx="12192000" cy="-5" type="screen16x9"/>"#));
    assert!(p.contains(r#"<p:sldId id="256" r:id="rId1"/>"#));
}

#[test]
fn sliced_pictures_are_numbered_per_slide() {
    let one = vec![("rIdA".to_string(), 0i64, 0i64, 0i64, 0i64)];
    let r = template_parts::generate_slide_rels_for_sliced_images(4, 2, &one);
    assert!(r.contains(r#"<Relationship Id="rIdA" Type="http://schemas.openxmlformats.org/officeDocument/2006/relationships/image" Target="../media/image4.png"/>"#));
    assert!(r.contains(r#"<Relationship Id="rId2" Type="http://schemas.openxmlformats.org/officeDocument/2006/relationships/slideLayout" Target="../slideLayouts/slideLayout2.xml"/>"#));
    let two = vec![("r1".to_string(), 0i64, 5i64, 0i64, 0i64), ("r2".to_string(), 1i64, 1i64, 1i64, 1i64)];
    let r = template_parts::generate_slide_rels_for_sliced_images(4, 3, &two);
    assert!(r.contains(r#"Target="../media/image401.png""#));
    assert!(r.contains(r#"Target="../media/image402.png""#));
    assert!(r.contains(r#"<Relationship Id="rId3" Type="http://schemas.openxmlformats.org/officeDocument/2006/relationships/slideLayout" Target="../slideLayouts/slideLayout3.xml"/>"#));
    let whole = vec![("rId1".to_string(), 0i64, 0i64, 12192000i64, 6858000i64)];
    let r = template_parts::generate_slide_rels_for_sliced_images(1, 2, &whole);
    assert!(r.contains(r#"<Relationship Id="rId1" Type="http://schemas.openxmlformats.org/officeDocument/2006/relationships/image" Target="../media/image1.png"/>"#));
    assert!(r.contains(r#"Id="rId2" Type="http://schemas.openxmlformats.org/officeDocument/2006/relationships/slideLayout" Target="../slideLayouts/slideLayout2.xml""#));
    let moved = vec![("rId1".to_string(), 5i64, 0i64, 100i64, 100i64)];
    let r = template_parts::generate_slide_rels_for_sliced_images(1, 2, &moved);
    assert!(r.contains(r#"Target="../media/image101.png""#));
}

#[test]
fn text_is_escaped_for_xml() {
    assert_eq!(editable_parts::escape_xml_text(r#"a<b>&"c"'d'"#), "a&lt;b&gt;&amp;&quot;c&quot;&apos;d&apos;");
    assert_eq!(template_parts::escape_xml("&amp;"), "&amp;amp;");
    assert_eq!(template_parts::escape_xml("中文"), "中文");
}

#[test]
fn themes_differ_between_exports() {
    assert!(simple_parts::generate_theme().len() > editable_parts::generate_theme().len());
    assert!(editable_parts::generate_theme().contains("<a:theme"));
    assert_eq!(editable_parts::generate_slide_rels_with_background(7).matches("image7.png").count(), 1);
}

#[test]
fn page_type_from_position_and_title() {
    assert_eq!(determine_page_type(1, 5, "内容"), PageType::FrontCover);
    assert_eq!(determine_page_type(5, 5, "内容"), PageType::BackCover);
    assert_eq!(determine_page_type(2, 5, "Title Page"), PageType::FrontCover);
    assert_eq!(determine_page_type(3, 5, "谢谢观看"), PageType::BackCover);
    assert_eq!(determine_page_type(3, 5, "Q&A session"), PageType::BackCover);
    assert_eq!(determine_page_type(3, 5, "市场分析"), PageType::Content);
}

#[test]
fn layouts_are_found_by_page_type() {
    let layouts = vec![
        TemplateLayout { layout_index: 4, page_type: PageType::Content, fixed_regions: vec![FixedRegion { x: 1, y: 2, width: 3, height: 4 }] },
        TemplateLayout { layout_index: 7, page_type: PageType::Content, fixed_regions: Vec::new() },
    ];
    assert_eq!(get_layout_for_page_type(PageType::Content, &layouts), 4);
    assert_eq!(get_layout_for_page_type(PageType::BackCover, &layouts), 1);
    assert_eq!(get_fixed_regions(PageType::Content, &layouts).len(), 1);
    assert_eq!(get_fixed_regions(PageType::FrontCover, &layouts).len(), 0);
}

#[test]
fn text_boxes_over_fixed_regions_are_detected() {
    let regions = [FixedRegion { x: 0, y: 0, width: 1000, height: 1000 }];
    assert!(overlaps_fixed_regions(0, 0, 1000, 1000, &regions));
    assert!(!overlaps_fixed_regions(900, 900, 1000, 1000, &regions));
    assert!(!overlaps_fixed_regions(5000000, 0, 10, 10, &regions));
}

#[test]
fn slices_mostly_under_exclusions_are_dropped() {
    let regions = vec![
        ContentRegion { x: 0, y: 0, width: 10, height: 10 },
        ContentRegion { x: 20, y: 0, width: 10, height: 10 },
    ];
    let kept = filter_regions_by_exclusions(&regions, &[(0, 0, 8, 8)], 100, 100);
    assert_eq!(kept.len(), 1);
    assert_eq!(kept[0].x, 20);
    let kept = filter_regions_by_exclusions(&regions, &[(0, 0, 5, 10)], 100, 100);
    assert_eq!(kept.len(), 2);
}

#[test]
fn escaped_text_reads_back() {
    let e = editable_parts::escape_xml_text("a<b & 'c'");
    assert_eq!(e, "a&lt;b &amp; &apos;c&apos;");
    assert!(!e.contains('<') && !e.contains('\''));
    let back = e.replace("&lt;", "<").replace("&gt;", ">").replace("&quot;", "\"").replace("&apos;", "'").replace("&amp;", "&");
    assert_eq!(back, "a<b & 'c'");
}
