use ppt_maker::inpaint::{apply_region_policy, fill_region_with_color, paint_region, Brush, TextColors};
use ppt_maker::ocr_kinds::RegionPolicy;

fn picture(w: usize, h: usize, rgba: [u8; 4]) -> Vec<u8> {
    let mut v = Vec::new();
    for _ in 0..w * h {
        v.extend_from_slice(&rgba);
    }
    v
}

fn at(p: &[u8], w: usize, x: usize, y: usize) -> [u8; 4] {
    let i = 4 * (y * w + x);
    [p[i], p[i + 1], p[i + 2], p[i + 3]]
}

fn set(p: &mut [u8], w: usize, x: usize, y: usize, c: [u8; 4]) {
    let i = 4 * (y * w + x);
    p[i..i + 4].copy_from_slice(&c);
}

#[test]
fn filling_stays_inside_the_region_and_the_picture() {
    let mut p = picture(4, 3, [1, 2, 3, 4]);
    fill_region_with_color(&mut p, 4, 3, 1, 1, 9, 9, [9, 9, 9, 9]);
    for y in 0..3 {
        for x in 0..4 {
            let inside = x >= 1 && y >= 1;
            assert_eq!(at(&p, 4, x, y), if inside { [9, 9, 9, 9] } else { [1, 2, 3, 4] });
        }
    }
    let mut q = picture(2, 2, [5, 5, 5, 5]);
    fill_region_with_color(&mut q, 2, 2, 1, 1, 1, 2, [0, 0, 0, 0]);
    assert_eq!(q, picture(2, 2, [5, 5, 5, 5]));
}

#[test]
fn brushes_pick_pixels_by_color() {
    let mut p = picture(3, 1, [250, 250, 250, 255]);
    set(&mut p, 3, 0, 0, [200, 20, 20, 255]);
    set(&mut p, 3, 1, 0, [120, 110, 110, 255]);
    let mut near = p.clone();
    paint_region(&mut near, 3, 1, 0, 0, 3, 1, [0, 0, 0, 255], Brush::Near([205, 25, 25]));
    assert_eq!(at(&near, 3, 0, 0), [0, 0, 0, 255]);
    assert_eq!(at(&near, 3, 1, 0), [120, 110, 110, 255]);
    let mut sat = p.clone();
    paint_region(&mut sat, 3, 1, 0, 0, 3, 1, [1, 1, 1, 255], Brush::SaturatedNear([120, 110, 110]));
    assert_eq!(sat, p);
    paint_region(&mut sat, 3, 1, 0, 0, 3, 1, [1, 1, 1, 255], Brush::SaturatedNear([190, 30, 30]));
    assert_eq!(at(&sat, 3, 0, 0), [1, 1, 1, 255]);
    assert_eq!(at(&sat, 3, 2, 0), [250, 250, 250, 255]);
}

#[test]
fn dark_text_is_covered_with_the_surrounding_color() {
    let mut p = picture(12, 12, [240, 240, 240, 255]);
    for x in 4..8 {
        set(&mut p, 12, x, 5, [10, 10, 10, 255]);
    }
    apply_region_policy(&mut p, 12, 12, 3, 3, 9, 9, RegionPolicy::DarkTextOnLight, None);
    assert_eq!(p, picture(12, 12, [240, 240, 240, 255]));
}

#[test]
fn analysed_backgrounds_are_used_when_given() {
    let colors = TextColors { text: [255, 255, 255], background: [0, 0, 80] };
    let mut p = picture(10, 10, [0, 0, 90, 255]);
    set(&mut p, 10, 5, 5, [255, 255, 255, 255]);
    let mut header = p.clone();
    apply_region_policy(&mut header, 10, 10, 2, 2, 8, 8, RegionPolicy::LightTextOnDarkHeader, Some(colors));
    assert_eq!(at(&header, 10, 5, 5), [0, 0, 80, 255]);
    assert_eq!(at(&header, 10, 2, 2), [0, 0, 80, 255]);
    assert_eq!(at(&header, 10, 1, 1), [0, 0, 90, 255]);
    let mut visual = p.clone();
    apply_region_policy(&mut visual, 10, 10, 2, 2, 8, 8, RegionPolicy::ComplexVisualText, Some(colors));
    assert_eq!(at(&visual, 10, 5, 5), [0, 0, 80, 255]);
    assert_eq!(at(&visual, 10, 2, 2), [0, 0, 90, 255]);
    let mut plain = p.clone();
    apply_region_policy(&mut plain, 10, 10, 2, 2, 8, 8, RegionPolicy::LightTextOnDarkHeader, None);
    assert_eq!(at(&plain, 10, 5, 5), [0, 0, 90, 255]);
}
