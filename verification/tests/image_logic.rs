use ppt_maker::color::{average_color, color_distance_int, color_to_hex, colors_are_similar, is_high_saturation, is_similar_color, is_within_distance};
use ppt_maker::ocr_kinds::{default_no_wrap, default_review_status, default_trace_level, default_units, is_special_symbol, region_policy, RegionPolicy, ShapeType, TextType};
use ppt_maker::line_detect::detect_straight_lines;
use ppt_maker::border_color::calculate_border_average_color;
use ppt_maker::splitter::{alpha_masks, crop_keep_mask, crop_pixels, crop_rect, element_assets, SplitResult, expand_component_to_visual_mask, split_order};
use ppt_maker::components::find_components;
use ppt_maker::reports::{merge_editability_reports, EditabilityReport};

#[test]
fn colors_in_hex() {
    assert_eq!(color_to_hex(&[0, 0, 0]), "000000");
    assert_eq!(color_to_hex(&[255, 16, 171]), "FF10AB");
}

#[test]
fn color_distances() {
    assert_eq!(color_distance_int(&[0, 0, 0], &[3, 4, 0]), 25);
    assert!(is_similar_color(&[10, 10, 10], &[39, 0, 10], 30));
    assert!(!is_similar_color(&[10, 10, 10], &[40, 10, 10], 30));
    assert!(is_within_distance(&[0, 0, 0], &[3, 4, 0], 6));
    assert!(!is_within_distance(&[0, 0, 0], &[3, 4, 0], 5));
    assert!(colors_are_similar(&[0, 0, 0], &[99, 0, 0]));
    assert!(!colors_are_similar(&[0, 0, 0], &[100, 0, 0]));
}

#[test]
fn saturation_and_averages() {
    assert!(is_high_saturation(&[200, 50, 50]));
    assert!(!is_high_saturation(&[9, 0, 0]));
    assert!(!is_high_saturation(&[10, 7, 7]));
    assert_eq!(average_color(&[]), [128, 128, 128]);
    assert_eq!(average_color(&[[0, 10, 255], [3, 11, 255]]), [1, 10, 255]);
}

#[test]
fn kinds_and_defaults() {
    assert_eq!(ShapeType::RoundedRectangle.as_str(), "RoundedRectangle");
    assert_eq!(ShapeType::Card.as_str(), "Card");
    assert_eq!(default_review_status(), "pending");
    assert_eq!(default_units(), "inches");
    assert_eq!(default_trace_level(), "line");
    assert!(default_no_wrap());
    assert!(is_special_symbol(" ● "));
    assert!(!is_special_symbol("●●"));
    assert!(!is_special_symbol("A"));
}

#[test]
fn region_policies_follow_text_type() {
    assert_eq!(region_policy(None, true, true, true), RegionPolicy::DarkTextOnLight);
    assert_eq!(region_policy(Some(TextType::DarkOnLight), true, false, false), RegionPolicy::CompositeBadge);
    assert_eq!(region_policy(Some(TextType::LightOnDark), false, true, false), RegionPolicy::LightTextOnDarkHeader);
    assert_eq!(region_policy(Some(TextType::LightOnDark), false, false, false), RegionPolicy::DarkTextOnLight);
    assert_eq!(region_policy(Some(TextType::Colored), false, false, true), RegionPolicy::ColoredLabel);
    assert_eq!(region_policy(Some(TextType::Gradient), false, false, false), RegionPolicy::ComplexVisualText);
}

fn image(width: usize, height: usize, ink: &[(usize, usize, [u8; 3])]) -> Vec<u8> {
    let mut px = vec![255u8; width * height * 4];
    for &(x, y, c) in ink {
        let i = (y * width + x) * 4;
        px[i] = c[0];
        px[i + 1] = c[1];
        px[i + 2] = c[2];
    }
    px
}

#[test]
fn horizontal_and_vertical_runs_are_found() {
    let mut ink = Vec::new();
    for x in 1..6 {
        ink.push((x, 1, [0, 0, 0]));
    }
    let px = image(8, 4, &ink);
    let runs = detect_straight_lines(&px, 8, 4, 3);
    assert_eq!(runs.len(), 1);
    assert!(!runs[0].vertical);
    assert_eq!((runs[0].at, runs[0].start, runs[0].end, runs[0].color), (1, 1, 6, [0, 0, 0]));
    assert!(detect_straight_lines(&px, 8, 4, 5).is_empty());
}

#[test]
fn a_color_change_splits_a_run() {
    let mut ink = Vec::new();
    for y in 0..4 {
        ink.push((2, y, [200, 0, 0]));
    }
    for y in 4..8 {
        ink.push((2, y, [0, 0, 200]));
    }
    let px = image(4, 8, &ink);
    let runs = detect_straight_lines(&px, 4, 8, 2);
    assert_eq!(runs.len(), 2);
    assert!(runs.iter().all(|r| r.vertical && r.at == 2));
    assert_eq!((runs[0].start, runs[0].end, runs[0].color), (0, 4, [200, 0, 0]));
    assert_eq!((runs[1].start, runs[1].end, runs[1].color), (4, 8, [0, 0, 200]));
}

#[test]
fn border_color_of_a_uniform_picture() {
    let mut px = vec![0u8; 10 * 10 * 4];
    for i in 0..100 {
        px[i * 4] = 10;
        px[i * 4 + 1] = 20;
        px[i * 4 + 2] = 30;
        px[i * 4 + 3] = 255;
    }
    assert_eq!(calculate_border_average_color(&px, 10, 10, 3, 3, 6, 6), [10, 20, 30, 255]);
}

#[test]
fn border_color_drops_outliers() {
    let mut px = vec![0u8; 10 * 10 * 4];
    for i in 0..100 {
        px[i * 4] = 100;
        px[i * 4 + 1] = 100;
        px[i * 4 + 2] = 100;
        px[i * 4 + 3] = 255;
    }
    // one black pixel right above the region
    px[(2 * 10 + 4) * 4] = 0;
    px[(2 * 10 + 4) * 4 + 1] = 0;
    px[(2 * 10 + 4) * 4 + 2] = 0;
    assert_eq!(calculate_border_average_color(&px, 10, 10, 3, 3, 6, 6), [100, 100, 100, 255]);
}

#[test]
fn assets_are_planned_in_reading_order() {
    let alpha: Vec<u8> = vec![
        0, 0, 0, 200, 200,
        0, 0, 0, 200, 200,
        250, 0, 0, 0, 0,
        250, 250, 0, 0, 30,
    ];
    let (visual, solid) = alpha_masks(&alpha, 10, 128);
    assert_eq!(visual[19], true);
    assert_eq!(solid[19], false);
    let comps = find_components(&solid, 5, 4, 4);
    assert_eq!(comps.len(), 2);
    let order = split_order(&comps, 3);
    assert_eq!(order.len(), 2);
    assert_eq!(comps[order[0]].top, 0);
    assert_eq!(comps[order[1]].left, 0);
    assert_eq!(split_order(&comps, 4), vec![0]);
    let first = &comps[order[0]];
    assert_eq!(crop_rect(first, 1, 5, 4), (2, 0, 3, 3));
    let grown = expand_component_to_visual_mask(first, &visual, 5, 4);
    assert_eq!(grown.len(), 9);
    let keep = crop_keep_mask(first, &grown, 2, 0, 3, 3);
    assert_eq!(keep.len(), 9);
}

#[test]
fn merged_report_sums_counts_and_numbers_issues() {
    let r1 = EditabilityReport { slide: 1, editable_text_bodies: 2, accepted_ocr_lines: 3, omitted_ocr_lines: 1, ocr_corrections: 0, native_shapes: 5, native_lines: 1, pictures: 1, issues: vec!["blur".to_string()], limitations: Vec::new() };
    let r2 = EditabilityReport { slide: 2, editable_text_bodies: 4, accepted_ocr_lines: 1, omitted_ocr_lines: 0, ocr_corrections: 2, native_shapes: 0, native_lines: 0, pictures: 0, issues: Vec::new(), limitations: vec!["font".to_string()] };
    let m = merge_editability_reports(&[r1, r2], true);
    assert_eq!((m.editable_text_bodies, m.accepted_ocr_lines, m.omitted_ocr_lines, m.ocr_corrections), (6, 4, 1, 2));
    assert_eq!((m.native_shapes, m.native_lines, m.pictures, m.slide), (0, 0, 0, 0));
    assert_eq!(m.issues, vec!["Slide 1: blur".to_string()]);
    assert_eq!(m.limitations, vec!["Slide 2: font".to_string()]);
    let empty = merge_editability_reports(&[], false);
    assert_eq!(empty.issues, vec!["No slides processed".to_string()]);
}

#[test]
fn asset_pixels_are_cropped_and_masked() {
    let mut px = Vec::new();
    for i in 0..12u8 {
        px.extend_from_slice(&[i, i, i, 255]);
    }
    let out = crop_pixels(&px, 4, 3, 1, 1, 2, 2, &[true, false, true, true]);
    assert_eq!(out, vec![5, 5, 5, 255, 6, 6, 6, 0, 9, 9, 9, 255, 10, 10, 10, 255]);
    assert!(crop_pixels(&px, 4, 3, 0, 0, 0, 3, &[]).is_empty());
}

#[test]
fn test_split_result_serialization() {
    let result = SplitResult {
        source_image: "test.png".to_string(),
        assets_dir: "assets".to_string(),
        image_width: 100,
        image_height: 100,
        alpha_threshold: 8,
        alpha_core_threshold: 48,
        min_area: 8,
        count: 0,
        assets: vec![],
    };
    let mut fields = serde_json::Map::new();
    fields.insert("source_image".to_string(), serde_json::Value::from(result.source_image.clone()));
    fields.insert("assets_dir".to_string(), serde_json::Value::from(result.assets_dir.clone()));
    fields.insert("image_width".to_string(), serde_json::Value::from(result.image_width));
    fields.insert("image_height".to_string(), serde_json::Value::from(result.image_height));
    fields.insert("alpha_threshold".to_string(), serde_json::Value::from(result.alpha_threshold));
    fields.insert("alpha_core_threshold".to_string(), serde_json::Value::from(result.alpha_core_threshold));
    fields.insert("min_area".to_string(), serde_json::Value::from(result.min_area));
    fields.insert("count".to_string(), serde_json::Value::from(result.count));
    fields.insert("assets".to_string(), serde_json::Value::Array(Vec::new()));
    let json = serde_json::to_string(&serde_json::Value::Object(fields)).unwrap();
    assert!(json.contains("test.png"));
}

#[test]
fn asset_records_are_numbered_and_named() {
    let alpha: Vec<u8> = vec![
        0, 0, 0, 200, 200,
        0, 0, 0, 200, 200,
        250, 0, 0, 0, 0,
        250, 250, 0, 0, 30,
    ];
    let (_, solid) = alpha_masks(&alpha, 10, 128);
    let comps = find_components(&solid, 5, 4, 4);
    let order = split_order(&comps, 3);
    let assets = element_assets(&comps, &order, 1, 5, 4);
    assert_eq!(assets.len(), 2);
    assert_eq!((assets[0].index, assets[0].file.as_str()), (1, "asset_001.png"));
    assert_eq!((assets[0].left, assets[0].top, assets[0].width, assets[0].height), (2, 0, 3, 3));
    assert_eq!(assets[0].area, 4);
    assert_eq!((assets[1].index, assets[1].file.as_str()), (2, "asset_002.png"));
}
