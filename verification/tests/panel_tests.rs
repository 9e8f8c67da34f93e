//! Panel layout arithmetic and pixel helpers.

use witcher::config::{panel_opacity_alpha, ICON_SIZE};
use witcher::panel::{layout_size, swizzle_rgba_to_bgra};

#[test]
fn layout_grows_linearly_with_the_window_count() {
    // One item is the icon plus highlight padding on both sides:
    // 77 + 2 * 24 = 125; the panel adds 14 of padding per edge.
    assert_eq!(layout_size(1, ICON_SIZE), (153, 153));
    // Each further item adds its width plus 22 of spacing.
    assert_eq!(layout_size(2, ICON_SIZE), (300, 153));
    assert_eq!(layout_size(3, ICON_SIZE), (447, 153));
}

#[test]
fn empty_window_list_needs_no_panel() {
    assert_eq!(layout_size(0, ICON_SIZE), (0, 0));
}

#[test]
fn swizzle_swaps_red_and_blue_in_place() {
    let mut bytes = vec![1, 2, 3, 4, 5, 6, 7, 8];
    swizzle_rgba_to_bgra(&mut bytes);
    assert_eq!(bytes, vec![3, 2, 1, 4, 7, 6, 5, 8]);
}

#[test]
fn swizzle_leaves_trailing_bytes_untouched() {
    let mut bytes = vec![1, 2, 3, 4, 9, 9, 9];
    swizzle_rgba_to_bgra(&mut bytes);
    assert_eq!(bytes, vec![3, 2, 1, 4, 9, 9, 9]);
    let mut short = vec![1, 2, 3];
    swizzle_rgba_to_bgra(&mut short);
    assert_eq!(short, vec![1, 2, 3]);
}

#[test]
fn panel_is_fully_opaque_by_default() {
    assert_eq!(panel_opacity_alpha(), 255);
}
