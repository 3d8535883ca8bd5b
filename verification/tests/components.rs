use ppt_maker::components::{find_components, grow_mask_from_seed};
use ppt_maker::alpha::{AlphaComponent, find_alpha_components, process_alpha, should_remove_component, prune_artifacts};

#[test]
fn test_find_components_simple() {
    let mask = vec![
        true, true, true,
        true, true, true,
        true, true, true,
    ];

    let components = find_components(&mask, 3, 3, 4);
    assert_eq!(components.len(), 1);
    assert_eq!(components[0].area, 9);
    assert_eq!(components[0].left, 0);
    assert_eq!(components[0].top, 0);
    assert_eq!(components[0].right, 3);
    assert_eq!(components[0].bottom, 3);
}

#[test]
fn test_find_components_separate() {
    let mask = vec![
        true, false, true,
        false, false, false,
        true, false, true,
    ];

    let components = find_components(&mask, 3, 3, 4);
    assert_eq!(components.len(), 4);
}

#[test]
fn test_grow_mask_from_seed() {
    let candidate = vec![
        true, true, true,
        true, true, true,
        true, true, true,
    ];

    let seed = vec![
        true, false, false,
        false, false, false,
        false, false, false,
    ];

    let grown = grow_mask_from_seed(&candidate, &seed, 3, 3, 4);
    assert!(grown.iter().all(|&v| v));
}

#[test]
fn test_component_properties() {
    let component = AlphaComponent {
        pixels: vec![(0, 0), (0, 1), (1, 0), (1, 1)],
        area: 4,
        width: 2,
        height: 2,
        max_alpha: 255,
        anchor_area: 4,
    };

    assert_eq!(component.bbox_area(), 4);
    let fill_ratio = component.area as f64 / component.bbox_area() as f64;
    assert!((fill_ratio - 1.0).abs() < 0.001);
    assert_eq!(component.min_side(), 2);
    assert_eq!(component.max_side(), 2);
}

#[test]
fn diagonal_cells_join_with_eight_neighbours() {
    let mask = vec![
        true, false, false,
        false, true, false,
        false, false, true,
    ];
    assert_eq!(find_components(&mask, 3, 3, 4).len(), 3);
    let eight = find_components(&mask, 3, 3, 8);
    assert_eq!(eight.len(), 1);
    assert_eq!(eight[0].area, 3);
    assert_eq!(eight[0].width(), 3);
    assert_eq!(eight[0].height(), 3);
}

#[test]
fn components_come_in_reading_order() {
    let mask = vec![
        false, false, true, true,
        true, false, false, false,
        true, false, true, false,
    ];
    let comps = find_components(&mask, 4, 3, 4);
    assert_eq!(comps.len(), 3);
    assert_eq!((comps[0].top, comps[0].left, comps[0].area), (0, 2, 2));
    assert_eq!((comps[1].top, comps[1].left, comps[1].area), (1, 0, 2));
    assert_eq!((comps[2].top, comps[2].left, comps[2].area), (2, 2, 1));
}

#[test]
fn empty_grid_has_no_components() {
    assert!(find_components(&[], 0, 0, 4).is_empty());
}

#[test]
fn growth_stops_at_non_candidates() {
    let candidate = vec![
        true, false, true,
        true, false, true,
        true, true, false,
    ];
    let seed = vec![
        true, false, false,
        false, false, false,
        false, false, false,
    ];
    let grown = grow_mask_from_seed(&candidate, &seed, 3, 3, 4);
    assert_eq!(grown, vec![true, false, false, true, false, false, true, true, false]);
    let grown8 = grow_mask_from_seed(&candidate, &seed, 3, 3, 8);
    assert_eq!(grown8, vec![true, false, true, true, false, true, true, true, false]);
}

#[test]
fn small_thin_specks_are_removed() {
    let speck = AlphaComponent { pixels: vec![(0, 0)], area: 1, width: 1, height: 1, max_alpha: 40, anchor_area: 0 };
    assert!(should_remove_component(&speck));
    let anchored = AlphaComponent { pixels: vec![(0, 0)], area: 1, width: 1, height: 1, max_alpha: 40, anchor_area: 1 };
    assert!(!should_remove_component(&anchored));
    let big = AlphaComponent { pixels: Vec::new(), area: 500, width: 30, height: 30, max_alpha: 255, anchor_area: 0 };
    assert!(!should_remove_component(&big));
}

#[test]
fn pruning_clears_faint_specks_and_keeps_solid_shapes() {
    // 6x1 strip: a faint isolated pixel at x=0, then a solid block at x=3..6.
    let mut rgba = vec![0u8; 6 * 4];
    rgba[3] = 50;
    for x in 3..6 {
        rgba[x * 4 + 3] = 255;
    }
    prune_artifacts(&mut rgba, 6, 1);
    assert_eq!(rgba[3], 0);
    for x in 3..6 {
        assert_eq!(rgba[x * 4 + 3], 255);
    }
}

fn speckled_picture() -> Vec<u8> {
    // 12 x 12: a solid 6 x 6 square (alpha 255) and a faint 2 x 2 speck.
    let (w, h) = (12usize, 12usize);
    let mut rgba = vec![0u8; w * h * 4];
    for y in 1..7 {
        for x in 1..7 {
            rgba[(y * w + x) * 4 + 3] = 255;
        }
    }
    for y in 9..11 {
        for x in 9..11 {
            rgba[(y * w + x) * 4] = 7;
            rgba[(y * w + x) * 4 + 3] = 40;
        }
    }
    rgba
}

#[test]
fn growing_again_from_the_grown_mask_changes_nothing() {
    let (w, h) = (5usize, 4usize);
    let candidate = vec![
        true, true, false, true, true, //
        false, true, false, false, true, //
        true, true, false, true, true, //
        false, false, false, true, false,
    ];
    let mut seed = vec![false; w * h];
    seed[0] = true;
    let grown = grow_mask_from_seed(&candidate, &seed, w, h, 4);
    assert_eq!(grow_mask_from_seed(&candidate, &grown, w, h, 4), grown);
}

#[test]
fn cleaning_twice_changes_nothing_more() {
    let mut rgba = speckled_picture();
    let first = process_alpha(&mut rgba, 12, 12, 1, 160);
    assert_eq!(first.len(), 2);
    let after_first = rgba.clone();
    assert_eq!(after_first[(9 * 12 + 9) * 4 + 3], 0);
    let second = process_alpha(&mut rgba, 12, 12, 1, 160);
    assert_eq!(rgba, after_first);
    let kept: Vec<&AlphaComponent> = first.iter().filter(|c| !should_remove_component(c)).collect();
    assert_eq!(second.len(), kept.len());
    for (a, b) in second.iter().zip(kept.iter()) {
        assert_eq!(a.pixels, b.pixels);
        assert_eq!((a.area, a.width, a.height), (b.area, b.width, b.height));
        assert_eq!((a.max_alpha, a.anchor_area), (b.max_alpha, b.anchor_area));
    }
}

#[test]
fn pruning_is_the_cleanup_with_thresholds_1_and_160() {
    let mut a = speckled_picture();
    let mut b = a.clone();
    prune_artifacts(&mut a, 12, 12);
    process_alpha(&mut b, 12, 12, 1, 160);
    assert_eq!(a, b);
}

#[test]
fn region_pixels_come_in_breadth_first_order() {
    let rgba = vec![255u8; 3 * 3 * 4];
    let comps = find_alpha_components(&rgba, 3, 3, 0, 200);
    assert_eq!(comps.len(), 1);
    assert_eq!(
        comps[0].pixels,
        vec![(0, 0), (1, 0), (0, 1), (1, 1), (2, 0), (2, 1), (0, 2), (1, 2), (2, 2)]
    );
    assert_eq!(comps[0].anchor_area, 9);
}

#[test]
fn components_stay_inside_the_grid() {
    // 4 x 3 grid: an L shape touching the right and bottom edges.
    let mask = vec![
        false, false, false, true, //
        false, false, false, true, //
        false, true, true, true, //
    ];
    let comps = find_components(&mask, 4, 3, 8);
    assert_eq!(comps.len(), 1);
    let c = &comps[0];
    assert_eq!((c.left, c.top, c.right, c.bottom), (1, 0, 4, 3));
    assert!(c.right <= 4 && c.bottom <= 3);
    assert_eq!(c.area, 5);
    assert_eq!(c.mask.len(), c.width() * c.height());
    assert!(c.area <= c.mask.len());
}
