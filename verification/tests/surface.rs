use aevrix::hb_graphics::surface::Surface;

#[test]
fn new_surface_is_transparent_black() {
    let s = Surface::new(3, 2);
    assert_eq!((s.size.w, s.size.h), (3, 2));
    assert_eq!(s.pixels.len(), 24);
    assert!(s.pixels.iter().all(|&b| b == 0));
}

#[test]
fn pixel_offsets_are_row_major() {
    let s = Surface::new(4, 3);
    assert_eq!(s.idx(0, 0), Some(0));
    assert_eq!(s.idx(3, 2), Some((2 * 4 + 3) * 4));
    assert_eq!(s.idx(4, 0), None);
    assert_eq!(s.idx(0, 3), None);
}

#[test]
fn rectangles_are_clipped_to_the_surface() {
    let s = Surface::new(10, 5);
    assert_eq!(s.fill_rect_span(2, 1, 3, 2), (2, 1, 5, 3));
    assert_eq!(s.fill_rect_span(-2, 1, 5, 10), (0, 1, 3, 5));
    assert_eq!(s.fill_rect_span(8, 4, 100, 100), (8, 4, 10, 5));
}

#[test]
fn rectangles_without_area_reach_nothing() {
    let s = Surface::new(10, 5);
    assert_eq!(s.fill_rect_span(1, 1, 0, 4), (0, 0, 0, 0));
    assert_eq!(s.fill_rect_span(1, 1, 4, -3), (0, 0, 0, 0));
    let (x0, _, x1, _) = s.fill_rect_span(20, 0, 4, 4);
    assert_eq!(x0, x1);
}

#[test]
fn a_span_ending_before_the_surface_reaches_its_far_edge() {
    // (x + w).min(width) is negative, and as u32 it exceeds the width.
    let s = Surface::new(4, 3);
    assert_eq!(s.fill_rect_span(-10, 0, 5, 1), (0, 0, 4, 1));
}

#[test]
fn glyph_coverage_skips_blank_and_offscreen_pixels() {
    let s = Surface::new(4, 4);
    let mask = [255u8, 0, 0, 128];
    assert_eq!(s.glyph_coverage(1, 1, 2, 2, &mask), vec![(20, 255), (40, 128)]);
    assert_eq!(s.glyph_coverage(3, 3, 2, 2, &mask), vec![(60, 255)]);
    assert_eq!(s.glyph_coverage(-1, -1, 2, 2, &mask), vec![(0, 128)]);
    assert!(s.glyph_coverage(4, 0, 2, 2, &mask).is_empty());
}
