//! Panel layout arithmetic and pixel-format helpers, consumed by the
//! presentation shell.

use vstd::prelude::*;

use crate::config::{HIGHLIGHT_PADDING, ICON_SPACING, PANEL_PADDING};

verus! {

/// Width and height of the selection panel for `count` items of
/// `icon_size` pixels: items (icon plus highlight padding) in a row,
/// spaced by [`ICON_SPACING`], inside [`PANEL_PADDING`]; an empty
/// list needs no panel at all.
pub open spec fn spec_layout_size(count: int, icon_size: int) -> (int, int) {
    if count == 0 {
        (0, 0)
    } else {
        let item = icon_size + 2 * HIGHLIGHT_PADDING;
        (
            2 * PANEL_PADDING + count * item + (count - 1) * ICON_SPACING,
            2 * PANEL_PADDING + item,
        )
    }
}

/// Pixel size of the selection panel.
pub fn layout_size(count: usize, icon_size: u32) -> (r: (u32, u32))
    requires
        count * ((icon_size + 2 * HIGHLIGHT_PADDING) + ICON_SPACING) + 2 * PANEL_PADDING
            <= u32::MAX,
    ensures
        r.0 == spec_layout_size(count as int, icon_size as int).0,
        r.1 == spec_layout_size(count as int, icon_size as int).1,
{
    if count == 0 {
        return (0, 0);
    }
    proof {
        assert(count * ((icon_size + 2 * HIGHLIGHT_PADDING) + ICON_SPACING) >= 1 * ((icon_size + 2
            * HIGHLIGHT_PADDING) + ICON_SPACING)) by (nonlinear_arith)
            requires
                count >= 1,
                icon_size >= 0,
        ;
        assert((count - 1) * ICON_SPACING <= count * ICON_SPACING) by (nonlinear_arith)
            requires
                count >= 1,
        ;
        assert(count * (icon_size + 2 * HIGHLIGHT_PADDING) + count * ICON_SPACING == count * ((
        icon_size + 2 * HIGHLIGHT_PADDING) + ICON_SPACING)) by (nonlinear_arith);
        assert(count <= u32::MAX) by (nonlinear_arith)
            requires
                count * ((icon_size + 2 * HIGHLIGHT_PADDING) + ICON_SPACING) + 2 * PANEL_PADDING
                    <= u32::MAX,
                count >= 1,
                icon_size >= 0,
        ;
    }
    let item: u32 = icon_size + 2 * HIGHLIGHT_PADDING;
    let n: u32 = count as u32;
    let width: u32 = 2 * PANEL_PADDING + n * item + (n - 1) * ICON_SPACING;
    let height: u32 = 2 * PANEL_PADDING + item;
    (width, height)
}

/// `s` with the red and blue channel of every complete 4-byte pixel
/// swapped: within a full pixel the first and third byte trade
/// places; the other bytes, and any trailing partial pixel, are
/// untouched.
pub open spec fn spec_swizzle(s: Seq<u8>) -> Seq<u8> {
    Seq::new(
        s.len(),
        |i: int|
            if i / 4 < s.len() as int / 4 {
                if i % 4 == 0 {
                    s[i + 2]
                } else if i % 4 == 2 {
                    s[i - 2]
                } else {
                    s[i]
                }
            } else {
                s[i]
            },
    )
}

/// Swap the red and blue channel of every complete 4-byte pixel,
/// turning RGBA into BGRA in place.
pub fn swizzle_rgba_to_bgra(bytes: &mut Vec<u8>)
    ensures
        final(bytes)@ == spec_swizzle(old(bytes)@),
{
    let ghost orig = bytes@;
    let pixels: usize = bytes.len() / 4;
    let mut p: usize = 0;
    while p < pixels
        invariant
            p <= pixels,
            pixels == orig.len() as int / 4,
            bytes@.len() == orig.len(),
            forall|i: int|
                #![trigger bytes@[i]]
                0 <= i < orig.len() ==> bytes@[i] == if i < 4 * p {
                    spec_swizzle(orig)[i]
                } else {
                    orig[i]
                },
        decreases pixels - p,
    {
        let total = bytes.len();
        proof {
            assert(4 * p + 3 < orig.len()) by (nonlinear_arith)
                requires
                    p < pixels,
                    pixels == orig.len() as int / 4,
            ;
            assert(orig.len() == total);
        }
        let i: usize = 4 * p;
        let r = bytes[i];
        let b = bytes[i + 2];
        bytes.set(i, b);
        bytes.set(i + 2, r);
        proof {
            assert((4 * p as int) % 4 == 0 && (4 * p as int) / 4 == p as int && (4 * p as int + 2)
                % 4 == 2 && (4 * p as int + 2) / 4 == p as int && (4 * p as int + 1) % 4 == 1 && (4
                * p as int + 1) / 4 == p as int && (4 * p as int + 3) % 4 == 3 && (4 * p as int + 3)
                / 4 == p as int) by (nonlinear_arith);
        }
        p = p + 1;
    }
    proof {
        assert(bytes@ =~= spec_swizzle(orig)) by {
            assert forall|i: int| 0 <= i < orig.len() implies bytes@[i] == spec_swizzle(orig)[i] by {
                if i < 4 * pixels {
                } else {
                    assert(i / 4 >= pixels) by (nonlinear_arith)
                        requires
                            i >= 4 * pixels,
                    ;
                }
            }
        }
    }
}

} // verus!
