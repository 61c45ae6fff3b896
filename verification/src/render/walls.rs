use vstd::prelude::*;
use crate::framebuffer::Framebuffer;

verus! {

pub const CEILING_COLOR: u32 = 0x404060;
pub const FLOOR_COLOR: u32 = 0x303030;

/// The plain colour of a wall material, used where it has no texture and on
/// the minimap; the goal is bright green.
pub open spec fn fallback(wall_type: char) -> u32 {
    if wall_type == '1' {
        0x888888
    } else if wall_type == '2' {
        0xAA4433
    } else if wall_type == '3' {
        0x8B5A2B
    } else if wall_type == '4' {
        0xB0B8C0
    } else if wall_type == 'g' || wall_type == 'G' {
        0x00FF00
    } else {
        0xFFDDDD
    }
}

/// The plain colour of a wall material (see `fallback`).
pub fn fallback_color(wall_type: char) -> (c: u32)
    ensures
        c == fallback(wall_type),
{
    match wall_type {
        '1' => 0x888888,
        '2' => 0xAA4433,
        '3' => 0x8B5A2B,
        '4' => 0xB0B8C0,
        'g' | 'G' => 0x00FF00,
        _ => 0xFFDDDD,
    }
}

/// Each wall material has a colour of its own, different from the goal's
/// and from the colour of an unknown cell.
pub proof fn lemma_material_colors_distinct()
    ensures
        forall|a: char, b: char|
            #![trigger fallback(a), fallback(b)]
            ('1' <= a <= '4' || a == 'g') && ('1' <= b <= '4' || b == 'g') && a != b ==> fallback(a)
                != fallback(b),
        forall|a: char| #![trigger fallback(a)] ('1' <= a <= '4' || a == 'g') ==> fallback(a) != 0xFFDDDD,
{
    assert forall|a: char, b: char|
        #![trigger fallback(a), fallback(b)]
        ('1' <= a <= '4' || a == 'g') && ('1' <= b <= '4' || b == 'g') && a != b implies fallback(a) != fallback(
            b,
        ) by {
        assert(a == '1' || a == '2' || a == '3' || a == '4' || a == 'g');
        assert(b == '1' || b == '2' || b == '3' || b == '4' || b == 'g');
    }
    assert forall|a: char| #![trigger fallback(a)] ('1' <= a <= '4' || a == 'g') implies fallback(a) != 0xFFDDDD by {
        assert(a == '1' || a == '2' || a == '3' || a == '4' || a == 'g');
    }
}

/// Paints the upper half of the view in the ceiling colour and the lower
/// half in the floor colour, the backdrop the walls are drawn over.
pub fn draw_ceiling_and_floor(framebuffer: &mut Framebuffer)
    requires
        old(framebuffer).wf(),
    ensures
        final(framebuffer).wf(),
        final(framebuffer).width == old(framebuffer).width,
        final(framebuffer).height == old(framebuffer).height,
        final(framebuffer).background_color == old(framebuffer).background_color,
        final(framebuffer).current_color == FLOOR_COLOR,
        forall|x: int, y: int|
            #![trigger final(framebuffer).pixel(x, y)]
            old(framebuffer).on_screen(x, y) ==> final(framebuffer).pixel(x, y) == if y < old(
                framebuffer,
            ).height / 2 {
                CEILING_COLOR
            } else {
                FLOOR_COLOR
            },
{
    let ghost o = *framebuffer;
    let width = framebuffer.width;
    let height = framebuffer.height;
    framebuffer.set_current_color(CEILING_COLOR);
    let ghost a = *framebuffer;
    framebuffer.fill_rect(0, width, 0, height / 2);
    let ghost b = *framebuffer;
    framebuffer.set_current_color(FLOOR_COLOR);
    let ghost c = *framebuffer;
    framebuffer.fill_rect(0, width, height / 2, height);
    proof {
        assert forall|x: int, y: int|
            #![trigger framebuffer.pixel(x, y)]
            o.on_screen(x, y) implies framebuffer.pixel(x, y) == if y < o.height / 2 {
                CEILING_COLOR
            } else {
                FLOOR_COLOR
            } by {
            assert(c.pixel(x, y) == b.pixel(x, y));
            assert(b.on_screen(x, y));
        }
    }
}

} // verus!
