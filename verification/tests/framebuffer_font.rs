use raycasting::font::{draw_text, draw_text_centered};
use raycasting::framebuffer::Framebuffer;

fn lit(fb: &Framebuffer, x: usize, y: usize) -> bool {
    fb.buffer[y * fb.width + x] != 0
}

#[test]
fn new_buffer_is_black_with_white_pen() {
    let fb = Framebuffer::new(4, 3);
    assert_eq!(fb.width, 4);
    assert_eq!(fb.height, 3);
    assert_eq!(fb.buffer, vec![0u32; 12]);
    assert_eq!(fb.current_color, 0xFFFFFF);
    assert_eq!(fb.background_color, 0);
}

#[test]
fn point_inside_paints_one_pixel() {
    let mut fb = Framebuffer::new(4, 3);
    fb.set_current_color(0x123456);
    fb.point(2, 1);
    for y in 0..3 {
        for x in 0..4 {
            let expected = if x == 2 && y == 1 { 0x123456 } else { 0 };
            assert_eq!(fb.buffer[y * 4 + x], expected);
        }
    }
}

#[test]
fn point_outside_changes_nothing() {
    let mut fb = Framebuffer::new(4, 3);
    fb.point(4, 0);
    fb.point(0, 3);
    fb.point(usize::MAX, usize::MAX);
    assert_eq!(fb.buffer, vec![0u32; 12]);
}

#[test]
fn clear_uses_background() {
    let mut fb = Framebuffer::new(2, 2);
    fb.point(0, 0);
    fb.set_background_color(0x0000FF);
    fb.clear();
    assert_eq!(fb.buffer, vec![0x0000FFu32; 4]);
}

#[test]
fn fill_rect_is_clipped_to_the_buffer() {
    let mut fb = Framebuffer::new(3, 3);
    fb.set_current_color(7);
    fb.fill_rect(1, 10, 2, 10);
    assert_eq!(fb.buffer, vec![0, 0, 0, 0, 0, 0, 0, 7, 7]);
}

#[test]
fn draw_text_draws_the_glyph_of_one() {
    // '1' is .#. / ##. / .#. / .#. / ###
    let mut fb = Framebuffer::new(6, 7);
    draw_text(&mut fb, 1, 1, "1", 0xFF0000, 1);
    let expected = [".#.", "##.", ".#.", ".#.", "###"];
    for y in 0..7 {
        for x in 0..6 {
            let on = y >= 1 && y < 6 && x >= 1 && x < 4 && expected[y - 1].as_bytes()[x - 1] == b'#';
            assert_eq!(lit(&fb, x, y), on, "pixel ({x}, {y})");
            if on {
                assert_eq!(fb.buffer[y * 6 + x], 0xFF0000);
            }
        }
    }
    assert_eq!(fb.current_color, 0xFF0000);
}

#[test]
fn draw_text_scales_font_pixels() {
    let mut fb = Framebuffer::new(8, 12);
    draw_text(&mut fb, 0, 0, ":", 1, 2);
    // ':' lights the middle column of rows 1 and 3
    for y in 0..10 {
        for x in 0..6 {
            let on = (x == 2 || x == 3) && (y == 2 || y == 3 || y == 6 || y == 7);
            assert_eq!(lit(&fb, x, y), on, "pixel ({x}, {y})");
        }
    }
}

#[test]
fn draw_text_upper_cases_letters() {
    let mut upper = Framebuffer::new(20, 6);
    let mut lower = Framebuffer::new(20, 6);
    draw_text(&mut upper, 0, 0, "FPS", 9, 1);
    draw_text(&mut lower, 0, 0, "fps", 9, 1);
    assert_eq!(upper.buffer, lower.buffer);
    assert!(lit(&upper, 0, 0));
}

#[test]
fn unknown_characters_are_blank_but_take_room() {
    let mut fb = Framebuffer::new(12, 6);
    draw_text(&mut fb, 0, 0, "?1", 5, 1);
    for y in 0..5 {
        for x in 0..4 {
            assert!(!lit(&fb, x, y));
        }
    }
    // the '1' starts four columns to the right
    assert!(lit(&fb, 5, 0));
    assert!(lit(&fb, 4, 1));
}

#[test]
fn text_past_the_edge_is_cut() {
    let mut fb = Framebuffer::new(3, 3);
    draw_text(&mut fb, 1, 1, "8888", 3, 2);
    assert!(lit(&fb, 1, 1));
    assert!(!lit(&fb, 0, 0));
}

#[test]
fn centered_text_is_centered() {
    // one glyph at scale 1 is 3 wide: centred on 10 it starts at 9
    let mut fb = Framebuffer::new(20, 6);
    draw_text_centered(&mut fb, 10, 0, "8", 1, 1);
    assert!(!lit(&fb, 8, 0));
    assert!(lit(&fb, 9, 0));
    assert!(lit(&fb, 11, 0));
    assert!(!lit(&fb, 12, 0));
}

#[test]
fn centered_text_starts_at_zero_when_too_wide() {
    let mut a = Framebuffer::new(30, 6);
    let mut b = Framebuffer::new(30, 6);
    draw_text_centered(&mut a, 1, 0, "888", 1, 1);
    draw_text(&mut b, 0, 0, "888", 1, 1);
    assert_eq!(a.buffer, b.buffer);
}

fn glyph_pixels(c: char) -> Vec<bool> {
    let mut fb = Framebuffer::new(3, 5);
    let s = c.to_string();
    draw_text(&mut fb, 0, 0, &s, 1, 1);
    fb.buffer.iter().map(|&p| p != 0).collect()
}

#[test]
fn every_screen_character_is_visible() {
    let texts = [
        "GOLPES", "TIEMPO", "NIVEL", "COMPLETADO", "SELECCIONA", "RAYCASTING", "ENTER: MENU", "ESC: SALIR",
        "W/S: ELEGIR", "ENTER: JUGAR", "> <", "TIEMPO AGOTADO", "FPS:-12", "0123456789",
        "ABCDEFGHIJKLMNOPQRSTUVWXYZ",
    ];
    for t in texts {
        for c in t.chars().filter(|&c| c != ' ') {
            assert!(glyph_pixels(c).iter().any(|&on| on), "glyph of {c:?} is blank");
        }
    }
    assert!(glyph_pixels(' ').iter().all(|&on| !on));
}

#[test]
fn digit_glyphs_are_distinct() {
    let digits: Vec<Vec<bool>> = ('0'..='9').map(glyph_pixels).collect();
    for i in 0..10 {
        for j in 0..10 {
            if i != j {
                assert_ne!(digits[i], digits[j]);
            }
        }
    }
}

#[test]
fn glyph_of_g() {
    // ### / #.. / #.# / #.# / ###
    let expected = "####..#.##.####";
    let got: String = glyph_pixels('G').iter().map(|&on| if on { '#' } else { '.' }).collect();
    assert_eq!(got, expected);
}

#[test]
fn concatenation_draws_as_its_parts() {
    let mut a = Framebuffer::new(40, 12);
    let mut b = Framebuffer::new(40, 12);
    draw_text(&mut a, 1, 2, "AB12", 3, 2);
    draw_text(&mut b, 1, 2, "AB", 3, 2);
    draw_text(&mut b, 1 + 4 * 2 * 2, 2, "12", 3, 2);
    assert_eq!(a.buffer, b.buffer);
}
