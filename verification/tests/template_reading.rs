use ppt_maker::template_pages::{FixedRegion, PageType, TemplateLayout};
use ppt_maker::template_xml::{
    analyze_layouts, default_fonts_from_nodes, layout_from_nodes, layouts_from_parsed, parse_fixed_element,
    read_default_fonts, read_slide_dimensions, read_theme_colors, slide_dimensions_from_nodes,
    theme_colors_from_nodes,
};
use ppt_maker::xml::{parse_xml_nodes, XmlNode};

fn node(depth: usize, name: &str, attrs: &[(&str, &str)]) -> XmlNode {
    XmlNode {
        element: true,
        depth,
        name: name.to_string(),
        attributes: attrs.iter().map(|(k, v)| (k.to_string(), v.to_string())).collect(),
    }
}

fn region(r: &FixedRegion) -> (i64, i64, i64, i64) {
    (r.x, r.y, r.width, r.height)
}

fn kinds(ls: &[TemplateLayout]) -> Vec<(u32, PageType)> {
    ls.iter().map(|l| (l.layout_index, l.page_type)).collect()
}

#[test]
fn slide_size_comes_from_the_first_size_node() {
    let nodes = vec![
        node(1, "p:presentation", &[]),
        node(2, "p:sldSz", &[("cx", "9144000"), ("cy", "wide")]),
        node(2, "p:sldSz", &[("cx", "1"), ("cy", "2")]),
    ];
    assert_eq!(slide_dimensions_from_nodes(&nodes), (9144000, 6858000));
    assert_eq!(slide_dimensions_from_nodes(&nodes[2..]), (1, 2));
    assert_eq!(slide_dimensions_from_nodes(&nodes[..1]), (12192000, 6858000));
}

#[test]
fn slide_size_defaults_when_the_part_does_not_parse() {
    assert_eq!(read_slide_dimensions("<p:presentation"), (12192000, 6858000));
    let xml = r#"<p:presentation xmlns:p="urn:p"><p:sldSz cx="100" cy="200"/></p:presentation>"#;
    assert_eq!(read_slide_dimensions(xml), (12192000, 6858000));
}

#[test]
fn parsed_nodes_keep_document_order_and_depth() {
    let nodes = parse_xml_nodes(r#"<a x="1"><b/><c y="2">t</c></a>"#).unwrap();
    let elements: Vec<(usize, String)> =
        nodes.iter().filter(|n| n.element).map(|n| (n.depth, n.name.clone())).collect();
    assert_eq!(elements, vec![(2, "a".to_string()), (3, "b".to_string()), (3, "c".to_string())]);
    assert_eq!(nodes[1].attributes, vec![("x".to_string(), "1".to_string())]);
    assert!(parse_xml_nodes("<a>").is_err());
}

#[test]
fn fonts_come_from_the_font_scheme() {
    let nodes = vec![
        node(1, "a:theme", &[]),
        node(2, "a:latin", &[("typeface", "Outside")]),
        node(2, "a:fontScheme", &[]),
        node(3, "a:majorFont", &[]),
        node(4, "a:latin", &[("typeface", "Arial")]),
        node(4, "a:ea", &[("typeface", "SimHei")]),
        node(3, "a:minorFont", &[]),
        node(4, "a:latin", &[("typeface", "Calibri")]),
        node(2, "a:latin", &[("typeface", "After")]),
    ];
    assert_eq!(default_fonts_from_nodes(&nodes), ("Calibri".to_string(), "SimHei".to_string()));
    assert_eq!(
        default_fonts_from_nodes(&nodes[..2]),
        ("Aptos Display".to_string(), "Microsoft YaHei".to_string())
    );
    assert_eq!(read_default_fonts(None), ("Aptos Display".to_string(), "Microsoft YaHei".to_string()));
    assert_eq!(
        read_default_fonts(Some("<a:theme")),
        ("Aptos Display".to_string(), "Microsoft YaHei".to_string())
    );
}

#[test]
fn theme_colors_are_keyed_by_slot() {
    let nodes = vec![
        node(1, "a:clrScheme", &[]),
        node(2, "a:dk1", &[]),
        node(3, "a:srgbClr", &[("val", "1f497d")]),
        node(2, "a:accent1", &[]),
        node(3, "a:srgbClr", &[("val", "aaaaaa")]),
        node(3, "a:sysClr", &[("val", "window"), ("lastClr", "bbbbbb")]),
        node(2, "a:lt1", &[]),
        node(3, "a:sysClr", &[("val", "window")]),
    ];
    assert_eq!(
        theme_colors_from_nodes(&nodes),
        vec![("dk1".to_string(), "1F497D".to_string()), ("accent1".to_string(), "BBBBBB".to_string())]
    );
    assert!(theme_colors_from_nodes(&nodes[1..]).is_empty());
    assert!(read_theme_colors(None).is_empty());
    assert!(read_theme_colors(Some("<x>")).is_empty());
}

fn shape(kind: &str, ph: Option<&str>, x: &str, cx: &str) -> Vec<XmlNode> {
    let mut v = vec![node(1, kind, &[])];
    if let Some(t) = ph {
        v.push(node(2, "p:nvSpPr", &[]));
        v.push(node(3, "p:ph", &[("type", t)]));
    }
    v.push(node(2, "a:xfrm", &[]));
    v.push(node(3, "a:off", &[("x", x), ("y", "7")]));
    v.push(node(3, "a:ext", &[("cx", cx), ("cy", "20000")]));
    v
}

#[test]
fn fixed_elements_are_footers_and_pictures() {
    let number = shape("p:sp", Some("sldNum"), "5", "30000");
    assert_eq!(parse_fixed_element(&number, 0).map(|r| region(&r)), Some((5, 7, 30000, 20000)));
    let body = shape("p:sp", Some("body"), "5", "30000");
    assert!(parse_fixed_element(&body, 0).is_none());
    let picture = shape("p:pic", None, "oops", "30000");
    assert_eq!(parse_fixed_element(&picture, 0).map(|r| region(&r)), Some((0, 7, 30000, 20000)));
    let plain = shape("p:sp", None, "5", "30000");
    assert!(parse_fixed_element(&plain, 0).is_none());
    let tiny = shape("p:pic", Some("dt"), "5", "9999");
    assert!(parse_fixed_element(&tiny, 0).is_none());
    let logo = shape("p:pic", Some("pic"), "5", "10000");
    assert_eq!(parse_fixed_element(&logo, 0).map(|r| region(&r)), Some((5, 7, 10000, 20000)));
}

#[test]
fn a_layout_takes_its_kind_from_its_names() {
    let mut nodes = vec![node(1, "p:sldLayout", &[]), node(2, "p:cNvPr", &[("name", "Closing Slide")])];
    nodes.extend(shape("p:sp", Some("ftr"), "1", "10000").into_iter().map(|mut n| {
        n.depth += 1;
        n
    }));
    let l = layout_from_nodes(4, &nodes);
    assert_eq!(l.layout_index, 4);
    assert_eq!(l.page_type, PageType::BackCover);
    assert_eq!(l.fixed_regions.iter().map(region).collect::<Vec<_>>(), vec![(1, 7, 10000, 20000)]);
    let cover = vec![node(1, "p:cNvPr", &[("name", "封面")])];
    assert_eq!(layout_from_nodes(1, &cover).page_type, PageType::FrontCover);
    let none = vec![node(1, "p:cNvPr", &[])];
    assert_eq!(layout_from_nodes(1, &none).page_type, PageType::Content);
}

#[test]
fn missing_layouts_fall_back_to_three_defaults() {
    let expected = vec![(1, PageType::FrontCover), (2, PageType::Content), (3, PageType::BackCover)];
    assert_eq!(kinds(&layouts_from_parsed(&[])), expected);
    assert_eq!(kinds(&analyze_layouts(&[])), expected);
    assert_eq!(kinds(&analyze_layouts(&[Some("<broken".to_string()), None])), expected);
}

#[test]
fn layouts_without_covers_are_assigned_by_position() {
    let content = vec![node(1, "p:cNvPr", &[("name", "Body")])];
    let parsed: Vec<Option<Vec<XmlNode>>> = vec![Some(content.clone()); 5];
    assert_eq!(
        kinds(&layouts_from_parsed(&parsed)),
        vec![
            (1, PageType::FrontCover),
            (2, PageType::Content),
            (3, PageType::BackCover),
            (4, PageType::Content),
            (5, PageType::Content)
        ]
    );
    let back = vec![node(1, "p:cNvPr", &[("name", "End")])];
    let parsed = vec![None, None, None, Some(back)];
    assert_eq!(
        kinds(&layouts_from_parsed(&parsed)),
        vec![(1, PageType::FrontCover), (2, PageType::Content), (3, PageType::BackCover), (4, PageType::BackCover)]
    );
}
