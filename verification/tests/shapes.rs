use ppt_maker::ocr_kinds::ShapeType;
use ppt_maker::shapes::{detect_rectangles, identify_cards, merge_overlapping_shapes, RectShape, Stroke};

fn picture(w: u32, h: u32) -> Vec<u8> {
    vec![0u8; (w * h * 4) as usize]
}

fn paint(p: &mut [u8], w: u32, x0: u32, y0: u32, bw: u32, bh: u32, c: [u8; 4]) {
    for y in y0..y0 + bh {
        for x in x0..x0 + bw {
            let i = ((y * w + x) * 4) as usize;
            p[i..i + 4].copy_from_slice(&c);
        }
    }
}

fn block(x: u32, y: u32, width: u32, height: u32) -> RectShape {
    RectShape {
        kind: ShapeType::Rectangle,
        x,
        y,
        width,
        height,
        fill: [1, 2, 3],
        corner_radius: 0,
        stroke: Stroke::Default,
        matching: 1,
        samples: 1,
    }
}

#[test]
fn detect_rectangles_finds_a_flat_block() {
    let mut p = picture(200, 200);
    paint(&mut p, 200, 20, 20, 60, 60, [30, 60, 200, 255]);
    let found = detect_rectangles(&p, 200, 200, 50, 1000);
    assert_eq!(found.len(), 1);
    let s = &found[0];
    assert_eq!((s.x, s.y, s.width, s.height), (20, 20, 60, 60));
    assert_eq!(s.fill, [30, 60, 200]);
    // The diagonal from the top-left corner stays in the block for all 20 steps.
    assert_eq!(s.corner_radius, 19);
    assert_eq!(s.kind, ShapeType::RoundedRectangle);
    assert_eq!(s.matching, s.samples);
    assert_eq!(s.samples, 15 * 15);
    match s.stroke {
        Stroke::Border { color, width_sum, width_count } => {
            assert_eq!(color, [0, 0, 0]);
            assert_eq!(width_count, 4);
            assert_eq!(width_sum, 36);
        }
        _ => panic!("expected a border"),
    }
}

#[test]
fn detect_rectangles_skips_small_blocks() {
    let mut p = picture(120, 120);
    paint(&mut p, 120, 10, 10, 40, 40, [200, 10, 10, 255]);
    assert!(detect_rectangles(&p, 120, 120, 50, 1000).is_empty());
    assert_eq!(detect_rectangles(&p, 120, 120, 30, 1000).len(), 1);
}

#[test]
fn detect_rectangles_skips_large_blocks() {
    let mut p = picture(120, 120);
    paint(&mut p, 120, 0, 0, 120, 120, [200, 10, 10, 255]);
    // Blocks started nearer the top-left corner are too large; the first one
    // that fits starts where 100 pixels are left to the right and below.
    let found = detect_rectangles(&p, 120, 120, 50, 100);
    assert_eq!(found.len(), 1);
    assert_eq!((found[0].x, found[0].y, found[0].width, found[0].height), (20, 20, 100, 100));
}

#[test]
fn detect_rectangles_tells_cards_apart() {
    let mut p = picture(200, 150);
    paint(&mut p, 200, 10, 10, 120, 80, [240, 240, 250, 255]);
    let found = detect_rectangles(&p, 200, 150, 50, 1000);
    assert_eq!(found.len(), 1);
    assert_eq!(found[0].kind, ShapeType::Card);
    assert_eq!((found[0].width, found[0].height), (120, 80));
}

#[test]
fn detect_rectangles_block_on_the_picture_edge_has_default_stroke() {
    let mut p = picture(60, 60);
    paint(&mut p, 60, 0, 0, 60, 60, [90, 90, 90, 255]);
    let found = detect_rectangles(&p, 60, 60, 50, 1000);
    assert_eq!(found.len(), 1);
    assert!(matches!(found[0].stroke, Stroke::Default));
}

#[test]
fn detect_rectangles_border_takes_the_surrounding_color() {
    // A green block on a grey frame, itself on a transparent picture.
    let mut p = picture(100, 100);
    paint(&mut p, 100, 10, 10, 80, 80, [100, 100, 100, 255]);
    paint(&mut p, 100, 20, 20, 60, 60, [10, 200, 10, 255]);
    let found = detect_rectangles(&p, 100, 100, 50, 1000);
    let green: Vec<&RectShape> = found.iter().filter(|s| s.fill == [10, 200, 10]).collect();
    assert_eq!(green.len(), 1);
    match green[0].stroke {
        Stroke::Border { color, width_sum, width_count } => {
            assert_eq!(color, [100, 100, 100]);
            assert_eq!((width_sum, width_count), (36, 4));
        }
        _ => panic!("expected a border"),
    }
}

#[test]
fn merge_overlapping_shapes_drops_contained_blocks() {
    let shapes = vec![block(0, 0, 100, 100), block(10, 10, 20, 20), block(200, 0, 50, 50)];
    let kept = merge_overlapping_shapes(&shapes);
    assert_eq!(kept.len(), 2);
    assert_eq!((kept[0].x, kept[1].x), (0, 200));
}

#[test]
fn identify_cards_needs_size_and_radius() {
    let mut a = block(0, 0, 101, 61);
    a.kind = ShapeType::RoundedRectangle;
    a.corner_radius = 5;
    let mut b = a;
    b.corner_radius = 4;
    let mut c = a;
    c.width = 100;
    let d = block(0, 0, 200, 200);
    let out = identify_cards(vec![a, b, c, d]);
    assert_eq!(out[0].kind, ShapeType::Card);
    assert_eq!(out[1].kind, ShapeType::RoundedRectangle);
    assert_eq!(out[2].kind, ShapeType::RoundedRectangle);
    assert_eq!(out[3].kind, ShapeType::Rectangle);
}
