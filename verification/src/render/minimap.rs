use vstd::prelude::*;
use crate::framebuffer::Framebuffer;

verus! {

/// Side of the minimap box, in pixels.
pub const BOX_SIZE: usize = 160;
/// Gap between the minimap and the top-right corner of the buffer.
pub const MARGIN: usize = 12;
pub const BACKGROUND_COLOR: u32 = 0x101018;
pub const BORDER_COLOR: u32 = 0xCCCCCC;
pub const PLAYER_COLOR: u32 = 0xFFFF00;

/// Left edge of the minimap on a buffer `width` pixels wide: flush with the
/// right margin, or 0 on a narrow buffer.
pub open spec fn box_left(width: int) -> int {
    if width >= 172 {
        width - 172
    } else {
        0
    }
}

/// Pixel `(a, b)` lies in the minimap box whose top-left corner is `(x0, y0)`.
pub open spec fn in_box(x0: int, y0: int, a: int, b: int) -> bool {
    x0 <= a < x0 + 160 && y0 <= b < y0 + 160
}

/// Pixel `(a, b)` lies on the one-pixel frame of that box.
pub open spec fn on_box_edge(x0: int, y0: int, a: int, b: int) -> bool {
    in_box(x0, y0, a, b) && (a == x0 || a == x0 + 159 || b == y0 || b == y0 + 159)
}

/// Fills the minimap's box in the top-right corner with its background
/// colour, and returns its top-left corner.
pub fn draw_minimap_background(framebuffer: &mut Framebuffer) -> (corner: (usize, usize))
    requires
        old(framebuffer).wf(),
    ensures
        corner == (box_left(old(framebuffer).width as int) as usize, MARGIN),
        final(framebuffer).current_color == BACKGROUND_COLOR,
        old(framebuffer).painted(
            &*final(framebuffer),
            |a: int, b: int| in_box(corner.0 as int, corner.1 as int, a, b),
            BACKGROUND_COLOR,
        ),
{
    let box_x = framebuffer.width.saturating_sub(BOX_SIZE + MARGIN);
    let box_y = MARGIN;
    let ghost o = *framebuffer;
    framebuffer.set_current_color(BACKGROUND_COLOR);
    proof {
        assert(box_x + 160 <= usize::MAX);
    }
    framebuffer.fill_rect(box_x, box_x + BOX_SIZE, box_y, box_y + BOX_SIZE);
    (box_x, box_y)
}

/// Draws the one-pixel frame of the minimap box whose top-left corner is
/// `(box_x, box_y)`.
pub fn draw_minimap_border(framebuffer: &mut Framebuffer, box_x: usize, box_y: usize)
    requires
        old(framebuffer).wf(),
        box_x + BOX_SIZE <= usize::MAX,
        box_y + BOX_SIZE <= usize::MAX,
    ensures
        final(framebuffer).current_color == BORDER_COLOR,
        old(framebuffer).painted(
            &*final(framebuffer),
            |a: int, b: int| on_box_edge(box_x as int, box_y as int, a, b),
            BORDER_COLOR,
        ),
{
    let ghost o = *framebuffer;
    framebuffer.set_current_color(BORDER_COLOR);
    let ghost s0 = *framebuffer;
    framebuffer.fill_rect(box_x, box_x + BOX_SIZE, box_y, box_y + 1);
    let ghost s1 = *framebuffer;
    framebuffer.fill_rect(box_x, box_x + BOX_SIZE, box_y + BOX_SIZE - 1, box_y + BOX_SIZE);
    let ghost s2 = *framebuffer;
    framebuffer.fill_rect(box_x, box_x + 1, box_y, box_y + BOX_SIZE);
    let ghost s3 = *framebuffer;
    framebuffer.fill_rect(box_x + BOX_SIZE - 1, box_x + BOX_SIZE, box_y, box_y + BOX_SIZE);
    proof {
        let x0 = box_x as int;
        let y0 = box_y as int;
        crate::framebuffer::lemma_painted_same_region(o, s0, |a: int, b: int| false, |a: int, b: int| false, BORDER_COLOR);
        crate::framebuffer::lemma_painted_compose(
            o,
            s0,
            s1,
            |a: int, b: int| false,
            |a: int, b: int| x0 <= a < x0 + 160 && y0 <= b < y0 + 1,
            |a: int, b: int| x0 <= a < x0 + 160 && b == y0,
            BORDER_COLOR,
        );
        crate::framebuffer::lemma_painted_compose(
            o,
            s1,
            s2,
            |a: int, b: int| x0 <= a < x0 + 160 && b == y0,
            |a: int, b: int| x0 <= a < x0 + 160 && y0 + 159 <= b < y0 + 160,
            |a: int, b: int| x0 <= a < x0 + 160 && (b == y0 || b == y0 + 159),
            BORDER_COLOR,
        );
        crate::framebuffer::lemma_painted_compose(
            o,
            s2,
            s3,
            |a: int, b: int| x0 <= a < x0 + 160 && (b == y0 || b == y0 + 159),
            |a: int, b: int| x0 <= a < x0 + 1 && y0 <= b < y0 + 160,
            |a: int, b: int| x0 <= a < x0 + 160 && (b == y0 || b == y0 + 159) || (a == x0 && y0 <= b < y0 + 160),
            BORDER_COLOR,
        );
        crate::framebuffer::lemma_painted_compose(
            o,
            s3,
            *framebuffer,
            |a: int, b: int| x0 <= a < x0 + 160 && (b == y0 || b == y0 + 159) || (a == x0 && y0 <= b < y0 + 160),
            |a: int, b: int| x0 + 159 <= a < x0 + 160 && y0 <= b < y0 + 160,
            |a: int, b: int| on_box_edge(x0, y0, a, b),
            BORDER_COLOR,
        );
    }
}

} // verus!
