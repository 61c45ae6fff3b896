use raycasting::font::draw_text;
use raycasting::framebuffer::Framebuffer;
use raycasting::render::hud::{collisions_label, draw_collisions, format_clock, fps_label, push_decimal};
use raycasting::render::minimap::{draw_minimap_background, draw_minimap_border};
use raycasting::render::screen::{draw_divider, end_screen_title, menu_entry};
use raycasting::render::walls::{draw_ceiling_and_floor, fallback_color, CEILING_COLOR, FLOOR_COLOR};

#[test]
fn fallback_colors() {
    assert_eq!(fallback_color('1'), 0x888888);
    assert_eq!(fallback_color('2'), 0xAA4433);
    assert_eq!(fallback_color('3'), 0x8B5A2B);
    assert_eq!(fallback_color('4'), 0xB0B8C0);
    assert_eq!(fallback_color('g'), 0x00FF00);
    assert_eq!(fallback_color('G'), 0x00FF00);
    assert_eq!(fallback_color('x'), 0xFFDDDD);
}

#[test]
fn ceiling_above_floor_below() {
    let mut fb = Framebuffer::new(2, 5);
    draw_ceiling_and_floor(&mut fb);
    for y in 0..5 {
        let expected = if y < 2 { CEILING_COLOR } else { FLOOR_COLOR };
        assert_eq!(fb.buffer[y * 2], expected);
        assert_eq!(fb.buffer[y * 2 + 1], expected);
    }
}

#[test]
fn clock_format() {
    assert_eq!(format_clock(0), "00:00");
    assert_eq!(format_clock(59), "00:59");
    assert_eq!(format_clock(60), "01:00");
    assert_eq!(format_clock(125), "02:05");
    assert_eq!(format_clock(6000), "100:00");
}

#[test]
fn labels() {
    assert_eq!(collisions_label(0), "GOLPES 0");
    assert_eq!(collisions_label(1234), "GOLPES 1234");
    assert_eq!(collisions_label(u32::MAX), "GOLPES 4294967295");
    assert_eq!(fps_label(15), "FPS:15");
    assert_eq!(fps_label(-3), "FPS:-3");
    assert_eq!(fps_label(i32::MIN), "FPS:-2147483648");
    let mut s = String::from("x");
    push_decimal(&mut s, 907);
    assert_eq!(s, "x907");
}

#[test]
fn collisions_counter_is_drawn_like_its_text() {
    let mut a = Framebuffer::new(120, 60);
    let mut b = Framebuffer::new(120, 60);
    draw_collisions(&mut a, 42);
    draw_text(&mut b, 10, 46, "GOLPES 42", 0xFFAA55, 2);
    assert_eq!(a.buffer, b.buffer);
    assert!(a.buffer.iter().any(|&p| p == 0xFFAA55));
}

#[test]
fn divider_is_clipped() {
    let mut fb = Framebuffer::new(10, 3);
    draw_divider(&mut fb, 2, 1, 4, 5);
    for x in 0..10 {
        assert_eq!(fb.buffer[10 + x], if x <= 6 { 5 } else { 0 });
        assert_eq!(fb.buffer[x], 0);
    }
    let mut fb = Framebuffer::new(10, 3);
    draw_divider(&mut fb, 8, 0, 3, 5);
    for x in 0..10 {
        assert_eq!(fb.buffer[x], if x >= 5 { 5 } else { 0 });
    }
}

#[test]
fn menu_entries() {
    assert_eq!(menu_entry(0, 1).unwrap(), "NIVEL 1");
    assert_eq!(menu_entry(1, 1).unwrap(), "> NIVEL 2 <");
    assert_eq!(menu_entry(2, 1).unwrap(), "NIVEL 3");
    assert!(menu_entry(3, 3).is_none());
}

#[test]
fn end_screen_titles() {
    assert_eq!(end_screen_title(0), "NIVEL 1");
    assert_eq!(end_screen_title(2), "NIVEL 3");
    assert_eq!(end_screen_title(7), "NIVEL");
}

#[test]
fn minimap_box_in_the_top_right_corner() {
    let mut fb = Framebuffer::new(400, 200);
    let (x0, y0) = draw_minimap_background(&mut fb);
    assert_eq!((x0, y0), (228, 12));
    assert_eq!(fb.buffer[12 * 400 + 228], 0x101018);
    assert_eq!(fb.buffer[171 * 400 + 387], 0x101018);
    assert_eq!(fb.buffer[172 * 400 + 387], 0);
    assert_eq!(fb.buffer[12 * 400 + 388], 0);
    draw_minimap_border(&mut fb, x0, y0);
    assert_eq!(fb.buffer[12 * 400 + 300], 0xCCCCCC);
    assert_eq!(fb.buffer[171 * 400 + 300], 0xCCCCCC);
    assert_eq!(fb.buffer[100 * 400 + 228], 0xCCCCCC);
    assert_eq!(fb.buffer[100 * 400 + 387], 0xCCCCCC);
    assert_eq!(fb.buffer[100 * 400 + 300], 0x101018);
}

#[test]
fn minimap_on_a_narrow_buffer_starts_at_zero() {
    let mut fb = Framebuffer::new(100, 50);
    let (x0, y0) = draw_minimap_background(&mut fb);
    assert_eq!((x0, y0), (0, 12));
    assert_eq!(fb.buffer[12 * 100], 0x101018);
    assert_eq!(fb.buffer[11 * 100], 0);
}
