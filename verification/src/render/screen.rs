use vstd::prelude::*;
use crate::framebuffer::Framebuffer;
use crate::state::{LEVEL_COUNT, level, level_name};

verus! {

/// First column of a divider of half-width `half_width` around `center_x`.
pub open spec fn divider_start(center_x: int, half_width: int) -> int {
    if center_x >= half_width {
        center_x - half_width
    } else {
        0
    }
}

/// Last column of such a divider on a buffer `width` pixels wide.
pub open spec fn divider_end(center_x: int, half_width: int, width: int) -> int {
    if center_x + half_width <= width - 1 {
        center_x + half_width
    } else {
        width - 1
    }
}

/// Draws a horizontal rule on row `y`, from `half_width` left of
/// `center_x` to `half_width` right of it, cut at the buffer's edges.
pub fn draw_divider(framebuffer: &mut Framebuffer, center_x: usize, y: usize, half_width: usize, color: u32)
    requires
        old(framebuffer).wf(),
        old(framebuffer).width > 0,
        center_x + half_width <= usize::MAX,
    ensures
        final(framebuffer).current_color == color,
        old(framebuffer).painted(
            &*final(framebuffer),
            |a: int, b: int|
                b == y && divider_start(center_x as int, half_width as int) <= a <= divider_end(
                    center_x as int,
                    half_width as int,
                    old(framebuffer).width as int,
                ),
            color,
        ),
{
    let ghost o = *framebuffer;
    framebuffer.set_current_color(color);
    let start = center_x.saturating_sub(half_width);
    let end = if center_x + half_width < framebuffer.width - 1 {
        center_x + half_width
    } else {
        framebuffer.width - 1
    };
    let mut x = start;
    proof {
        crate::framebuffer::lemma_painted_same_region(o, *framebuffer, |a: int, b: int| false, |a: int, b: int| b == y && start <= a < x, color);
    }
    while x <= end
        invariant
            start <= x,
            x <= end + 1 || x == start,
            end < framebuffer.width,
            framebuffer.width == o.width,
            framebuffer.current_color == color,
            o.painted(&*framebuffer, |a: int, b: int| b == y && start <= a < x, color),
        decreases end + 1 - x,
    {
        let ghost before = *framebuffer;
        framebuffer.point(x, y);
        proof {
            crate::framebuffer::lemma_painted_compose(
                o,
                before,
                *framebuffer,
                |a: int, b: int| b == y && start <= a < x,
                |a: int, b: int| a == x && b == y,
                |a: int, b: int| b == y && start <= a < x + 1,
                color,
            );
        }
        x = x + 1;
    }
    proof {
        crate::framebuffer::lemma_painted_same_region(
            o,
            *framebuffer,
            |a: int, b: int| b == y && start <= a < x,
            |a: int, b: int|
                b == y && divider_start(center_x as int, half_width as int) <= a <= divider_end(
                    center_x as int,
                    half_width as int,
                    o.width as int,
                ),
            color,
        );
    }
}

/// How level `index` appears on the menu: its name, between `> ` and ` <`
/// when it is the selected one.
pub open spec fn menu_text(index: int, selected: int) -> Seq<char> {
    if index == selected {
        "> "@ + level_name(index) + " <"@
    } else {
        level_name(index)
    }
}

/// How level `index` appears on the menu (see `menu_text`); `None` past
/// the last level.
pub fn menu_entry(index: usize, selected: usize) -> (s: Option<String>)
    ensures
        match s {
            Some(s) => index < LEVEL_COUNT && s@ == menu_text(index as int, selected as int),
            None => index >= LEVEL_COUNT,
        },
{
    match level(index) {
        Some(info) => {
            if index == selected {
                let mut s = String::from_str("> ");
                s.append(info.name);
                s.append(" <");
                Some(s)
            } else {
                Some(String::from_str(info.name))
            }
        },
        None => None,
    }
}

/// The heading of the end screens: the level's name, or `NIVEL` for an
/// index past the last level.
pub fn end_screen_title(level_index: usize) -> (s: &'static str)
    ensures
        s@ == if level_index < LEVEL_COUNT { level_name(level_index as int) } else { "NIVEL"@ },
{
    match level(level_index) {
        Some(info) => info.name,
        None => "NIVEL",
    }
}

} // verus!
