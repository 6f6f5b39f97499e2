use mikan_kernel::console::Console;
use mikan_kernel::context::Context;
use mikan_kernel::fonts::FontTable;
use mikan_kernel::framebuffer::{FrameBufferConfig, PixelFormat};
use mikan_kernel::graphics::PixelColor;

const FG: PixelColor = PixelColor { r: 1, g: 2, b: 3 };
const BG: PixelColor = PixelColor { r: 9, g: 9, b: 9 };

fn screen() -> (FrameBufferConfig, Vec<u8>) {
    let cfg = FrameBufferConfig {
        pixels_per_scan_line: 640,
        horizontal_resolution: 640,
        vertical_resolution: 400,
        pixel_format: PixelFormat::BGRResv8BitPerColor,
    };
    (cfg, vec![0u8; 4 * 640 * 400])
}

/// A font whose every glyph sets only its top-left pixel, except the blank
/// glyph of the space, which sets nothing.
fn dot_font() -> Box<FontTable> {
    let mut font: Box<FontTable> = Box::new([[0u8; 16]; 256]);
    for g in font.iter_mut() {
        g[0] = 0x80;
    }
    font[b' ' as usize] = [0; 16];
    font
}

fn pixel(fb: &[u8], x: usize, y: usize) -> [u8; 3] {
    let i = 4 * (640 * y + x);
    [fb[i], fb[i + 1], fb[i + 2]]
}

const FG_BYTES: [u8; 3] = [3, 2, 1];
const BG_BYTES: [u8; 3] = [9, 9, 9];

#[test]
fn put_string_draws_at_successive_cells() {
    let (cfg, mut fb) = screen();
    let font = dot_font();
    let mut con = Console::new(FG, BG);
    con.put_string(&cfg, &mut fb, &font, "ab");
    assert_eq!(pixel(&fb, 0, 0), FG_BYTES);
    assert_eq!(pixel(&fb, 8, 0), FG_BYTES);
    assert_eq!(pixel(&fb, 16, 0), [0, 0, 0]);
}

#[test]
fn newline_moves_to_next_row() {
    let (cfg, mut fb) = screen();
    let font = dot_font();
    let mut con = Console::new(FG, BG);
    con.put_string(&cfg, &mut fb, &font, "a\nb");
    assert_eq!(pixel(&fb, 0, 0), FG_BYTES);
    assert_eq!(pixel(&fb, 8, 0), [0, 0, 0]);
    assert_eq!(pixel(&fb, 0, 16), FG_BYTES);
}

#[test]
fn characters_past_the_row_end_are_dropped() {
    let (cfg, mut fb) = screen();
    let font = dot_font();
    let mut con = Console::new(FG, BG);
    let line: String = std::iter::repeat('x').take(85).collect();
    con.put_string(&cfg, &mut fb, &font, &line);
    assert_eq!(pixel(&fb, 8 * 79, 0), FG_BYTES);
    // Nothing wrapped onto the next row.
    assert_eq!(pixel(&fb, 0, 16), [0, 0, 0]);
    // After a line break, writing resumes at column 0 of row 1.
    con.put_string(&cfg, &mut fb, &font, "\ny");
    assert_eq!(pixel(&fb, 0, 16), FG_BYTES);
}

#[test]
fn clear_sets_top_left_pixel_of_each_cell() {
    let (cfg, mut fb) = screen();
    let mut con = Console::new(FG, BG);
    con.clear(&cfg, &mut fb);
    assert_eq!(pixel(&fb, 0, 0), BG_BYTES);
    assert_eq!(pixel(&fb, 8 * 79, 16 * 24), BG_BYTES);
    assert_eq!(pixel(&fb, 1, 0), [0, 0, 0]);
    assert_eq!(pixel(&fb, 0, 1), [0, 0, 0]);
    let lit = (0..640 * 400).filter(|p| fb[4 * p] != 0).count();
    assert_eq!(lit, 25 * 80);
}

#[test]
fn newline_on_last_row_clears_and_redraws_one_row_higher() {
    let (cfg, mut fb) = screen();
    let font = dot_font();
    let mut con = Console::new(FG, BG);
    // Row 1 holds "q"; then move to the last row.
    con.put_string(&cfg, &mut fb, &font, "\nq");
    for _ in 0..23 {
        con.put_string(&cfg, &mut fb, &font, "\n");
    }
    con.put_string(&cfg, &mut fb, &font, "z\n");
    // Row 1's "q" is redrawn on row 0, the last row's "z" on row 23.
    assert_eq!(pixel(&fb, 0, 0), FG_BYTES);
    assert_eq!(pixel(&fb, 0, 16 * 23), FG_BYTES);
    // Blank cells were cleared to the background.
    assert_eq!(pixel(&fb, 8, 0), BG_BYTES);
    assert_eq!(pixel(&fb, 0, 16 * 24), BG_BYTES);
    // The cursor stays on the last row: the next character lands there.
    con.put_string(&cfg, &mut fb, &font, "w");
    assert_eq!(pixel(&fb, 0, 16 * 24), FG_BYTES);
}

#[test]
fn put_string_of_concatenation_equals_two_calls() {
    let (cfg, mut fb1) = screen();
    let mut fb2 = fb1.clone();
    let font = dot_font();
    let mut c1 = Console::new(FG, BG);
    let mut c2 = Console::new(FG, BG);
    c1.put_string(&cfg, &mut fb1, &font, "ab\ncd");
    c2.put_string(&cfg, &mut fb2, &font, "ab\n");
    c2.put_string(&cfg, &mut fb2, &font, "cd");
    assert!(fb1 == fb2);
    c1.put_string(&cfg, &mut fb1, &font, "e");
    c2.put_string(&cfg, &mut fb2, &font, "e");
    assert!(fb1 == fb2);
}

#[test]
fn empty_string_changes_nothing() {
    let (cfg, mut fb) = screen();
    let font = dot_font();
    let mut con = Console::new(FG, BG);
    con.put_string(&cfg, &mut fb, &font, "");
    assert!(fb.iter().all(|b| *b == 0));
}

#[test]
fn context_hands_back_its_frame_buffer() {
    let (cfg, _) = screen();
    let ctx = Context { fb_config: Some(cfg), console: Console::new(FG, BG) };
    assert_eq!(ctx.fb_config().pixels_per_scan_line, 640);
    assert_eq!(ctx.fb_config().vertical_resolution, 400);
}

#[test]
fn clear_works_on_buffer_just_holding_cell_corners() {
    let cfg = FrameBufferConfig {
        pixels_per_scan_line: 640,
        horizontal_resolution: 640,
        vertical_resolution: 390,
        pixel_format: PixelFormat::BGRResv8BitPerColor,
    };
    let mut fb = vec![0u8; 4 * 640 * 390];
    let mut con = Console::new(FG, BG);
    con.clear(&cfg, &mut fb);
    let i = 4 * (640 * 384 + 632);
    assert_eq!([fb[i], fb[i + 1], fb[i + 2]], BG_BYTES);
    let once = fb.clone();
    con.clear(&cfg, &mut fb);
    assert!(fb == once);
}

fn small_screen(w: u32, h: u32) -> (FrameBufferConfig, Vec<u8>) {
    let cfg = FrameBufferConfig {
        pixels_per_scan_line: w,
        horizontal_resolution: w,
        vertical_resolution: h,
        pixel_format: PixelFormat::BGRResv8BitPerColor,
    };
    (cfg, vec![0u8; (4 * w * h) as usize])
}

#[test]
fn put_string_on_small_buffer() {
    let (cfg, mut fb) = small_screen(320, 200);
    let font = dot_font();
    let mut con = Console::new(FG, BG);
    assert!(con.check_put_string(&cfg, &font, "ab"));
    con.put_string(&cfg, &mut fb, &font, "ab");
    let i = 4 * 8;
    assert_eq!([fb[i], fb[i + 1], fb[i + 2]], FG_BYTES);
    assert_eq!([fb[0], fb[1], fb[2]], FG_BYTES);
}

#[test]
fn check_put_string_refuses_glyph_past_buffer_end() {
    let (cfg, _) = small_screen(320, 200);
    let font = dot_font();
    let con = Console::new(FG, BG);
    // Row 13 starts at pixel row 208, past the 200 rows of the buffer.
    let mut text = String::new();
    for _ in 0..13 {
        text.push('\n');
    }
    assert!(con.check_put_string(&cfg, &font, &text));
    text.push('x');
    assert!(!con.check_put_string(&cfg, &font, &text));
    // A blank glyph draws nothing, so it fits anywhere.
    text.pop();
    text.push(' ');
    assert!(con.check_put_string(&cfg, &font, &text));
}

#[test]
fn check_put_string_refuses_scroll_on_small_buffer() {
    let (cfg, _) = small_screen(320, 200);
    let font = dot_font();
    let con = Console::new(FG, BG);
    let text: String = std::iter::repeat('\n').take(24).collect();
    assert!(con.check_put_string(&cfg, &font, &text));
    let text: String = std::iter::repeat('\n').take(25).collect();
    assert!(!con.check_put_string(&cfg, &font, &text));
    let (big, _) = screen();
    assert!(con.check_put_string(&big, &font, &text));
}

#[test]
fn line_breaks_below_last_row_draw_nothing_even_on_tiny_buffer() {
    let (cfg, mut fb) = small_screen(1, 1);
    let font = dot_font();
    let mut con = Console::new(FG, BG);
    assert!(con.check_put_string(&cfg, &font, "\n\n\n"));
    con.put_string(&cfg, &mut fb, &font, "\n\n\n");
    assert!(fb.iter().all(|b| *b == 0));
}
