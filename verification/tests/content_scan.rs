use ppt_maker::content_scan::{content_regions, found_regions, ScoreLevel};
use ppt_maker::template_pages::ContentRegion;

fn grid(cols: usize, rows: usize, cells: &[(usize, usize, ScoreLevel)]) -> Vec<ScoreLevel> {
    let mut v = vec![ScoreLevel::Below; cols * rows];
    for &(r, c, l) in cells {
        v[r * cols + c] = l;
    }
    v
}

fn rect(r: &ContentRegion) -> (u32, u32, u32, u32) {
    (r.x, r.y, r.width, r.height)
}

#[test]
fn content_regions_default_to_whole_picture_when_nothing_found() {
    let levels = grid(10, 10, &[]);
    let r = content_regions(300, 300, &levels);
    assert_eq!(r.len(), 1);
    assert_eq!(rect(&r[0]), (0, 0, 300, 300));
}

#[test]
fn content_regions_two_separate_blocks() {
    let mut cells = Vec::new();
    for r in 1..4 {
        for c in 1..4 {
            cells.push((r, c, ScoreLevel::Above));
        }
    }
    for r in 6..9 {
        for c in 6..9 {
            cells.push((r, c, ScoreLevel::AtThreshold));
        }
    }
    cells.push((6, 6, ScoreLevel::Above));
    let levels = grid(10, 10, &cells);
    let r = content_regions(300, 300, &levels);
    assert_eq!(r.len(), 2);
    assert_eq!(rect(&r[0]), (30, 30, 90, 90));
    assert_eq!(rect(&r[1]), (180, 180, 90, 90));
}

#[test]
fn content_regions_block_without_a_cell_above_threshold_is_not_found() {
    let mut cells = Vec::new();
    for r in 1..4 {
        for c in 1..4 {
            cells.push((r, c, ScoreLevel::AtThreshold));
        }
    }
    let levels = grid(10, 10, &cells);
    let found = found_regions(300, 300, &levels);
    assert!(found.is_empty());
    let r = content_regions(300, 300, &levels);
    assert_eq!(rect(&r[0]), (0, 0, 300, 300));
}

#[test]
fn content_regions_cannot_grow_through_cells_already_passed() {
    let mut cells = Vec::new();
    for c in 0..5 {
        cells.push((0, c, ScoreLevel::AtThreshold));
    }
    for r in 1..3 {
        for c in 0..2 {
            cells.push((r, c, ScoreLevel::Above));
        }
    }
    let levels = grid(5, 5, &cells);
    let r = content_regions(150, 150, &levels);
    assert_eq!(r.len(), 1);
    assert_eq!(rect(&r[0]), (0, 30, 60, 60));
}

#[test]
fn content_regions_single_cell_is_too_small() {
    let levels = grid(10, 10, &[(4, 4, ScoreLevel::Above)]);
    assert!(found_regions(300, 300, &levels).is_empty());
    let r = content_regions(300, 300, &levels);
    assert_eq!(rect(&r[0]), (0, 0, 300, 300));
}

#[test]
fn content_regions_near_whole_region_becomes_whole_picture() {
    let mut cells = Vec::new();
    for r in 0..3 {
        for c in 0..3 {
            cells.push((r, c, ScoreLevel::Above));
        }
    }
    let levels = grid(3, 3, &cells);
    let found = found_regions(90, 90, &levels);
    assert_eq!(found.len(), 1);
    assert_eq!(rect(&found[0]), (0, 0, 90, 90));
    let r = content_regions(90, 90, &levels);
    assert_eq!(rect(&r[0]), (0, 0, 90, 90));
}

#[test]
fn content_regions_cut_at_the_picture_edge() {
    // 100 x 100 pixels: four columns and rows, the last ten pixels wide.
    let mut cells = Vec::new();
    for r in 0..4 {
        for c in 1..4 {
            cells.push((r, c, ScoreLevel::Above));
        }
    }
    let levels = grid(4, 4, &cells);
    let found = found_regions(100, 100, &levels);
    assert_eq!(found.len(), 1);
    assert_eq!(rect(&found[0]), (30, 0, 70, 100));
    let r = content_regions(100, 100, &levels);
    assert_eq!(rect(&r[0]), (30, 0, 70, 100));
}

#[test]
fn content_regions_small_regions_are_dropped_by_area() {
    // 1200 x 1200 pixels: a region of 60 x 60 pixels is under 1/200 of it.
    let mut cells = Vec::new();
    for r in 0..2 {
        for c in 0..2 {
            cells.push((r, c, ScoreLevel::Above));
        }
    }
    for r in 10..20 {
        for c in 10..20 {
            cells.push((r, c, ScoreLevel::Above));
        }
    }
    let levels = grid(40, 40, &cells);
    let found = found_regions(1200, 1200, &levels);
    assert_eq!(found.len(), 2);
    let r = content_regions(1200, 1200, &levels);
    assert_eq!(r.len(), 1);
    assert_eq!(rect(&r[0]), (300, 300, 300, 300));
}
