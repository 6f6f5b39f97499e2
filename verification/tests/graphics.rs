use mikan_kernel::fonts::{ascii_map, font_from_text, FontTable};
use mikan_kernel::framebuffer::{FrameBufferConfig, PixelFormat};
use mikan_kernel::graphics::{write_ascii, write_pixel, PixelColor};

fn config(w: u32, h: u32, format: PixelFormat) -> FrameBufferConfig {
    FrameBufferConfig {
        pixels_per_scan_line: w,
        horizontal_resolution: w,
        vertical_resolution: h,
        pixel_format: format,
    }
}

const RED: PixelColor = PixelColor { r: 0xaa, g: 0xbb, b: 0xcc };

#[test]
fn write_pixel_rgb_order() {
    let cfg = config(4, 2, PixelFormat::RGBResv8BitPerColor);
    let mut fb = vec![0x11u8; 32];
    write_pixel(&cfg, &mut fb, 1, 1, RED);
    let base = 4 * (4 + 1);
    assert_eq!(&fb[base..base + 4], &[0xbb, 0xcc, 0xaa, 0x11]);
    for (i, b) in fb.iter().enumerate() {
        if i < base || i >= base + 3 {
            assert_eq!(*b, 0x11);
        }
    }
}

#[test]
fn write_pixel_bgr_order() {
    let cfg = config(4, 2, PixelFormat::BGRResv8BitPerColor);
    let mut fb = vec![0u8; 32];
    write_pixel(&cfg, &mut fb, 3, 0, RED);
    assert_eq!(&fb[12..16], &[0xcc, 0xbb, 0xaa, 0]);
}

#[test]
fn write_pixel_twice_is_once() {
    let cfg = config(4, 2, PixelFormat::BGRResv8BitPerColor);
    let mut once = vec![7u8; 32];
    write_pixel(&cfg, &mut once, 2, 1, RED);
    let mut twice = once.clone();
    write_pixel(&cfg, &mut twice, 2, 1, RED);
    assert_eq!(once, twice);
}

fn font_with(c: u8, rows: [u8; 16]) -> Box<FontTable> {
    let mut font: Box<FontTable> = Box::new([[0u8; 16]; 256]);
    font[c as usize] = rows;
    font
}

#[test]
fn ascii_map_takes_low_byte_of_code_point() {
    let mut font: Box<FontTable> = Box::new([[0u8; 16]; 256]);
    font[0x41][0] = 1;
    font[0xe9][0] = 2;
    assert_eq!(ascii_map(&font, 'A')[0], 1);
    assert_eq!(ascii_map(&font, '\u{e9}')[0], 2);
    assert_eq!(ascii_map(&font, '\u{141}')[0], 1);
}

#[test]
fn write_ascii_sets_only_glyph_bits() {
    let mut rows = [0u8; 16];
    rows[0] = 0b1000_0001;
    rows[15] = 0b0001_0000;
    let font = font_with(b'x', rows);
    let cfg = config(16, 20, PixelFormat::BGRResv8BitPerColor);
    let mut fb = vec![0u8; 4 * 16 * 20];
    write_ascii(&cfg, &mut fb, &font, 'x', 2, 1, RED);
    let lit: Vec<usize> = (0..16 * 20).filter(|p| fb[4 * p] != 0).collect();
    assert_eq!(lit, vec![16 * 1 + 2, 16 * 1 + 9, 16 * 16 + 5]);
    assert_eq!(&fb[4 * 18..4 * 18 + 4], &[0xcc, 0xbb, 0xaa, 0]);
}

#[test]
fn write_ascii_blank_glyph_changes_nothing() {
    let font = font_with(b'x', [0; 16]);
    let cfg = config(8, 16, PixelFormat::RGBResv8BitPerColor);
    let mut fb = vec![5u8; 4 * 8 * 16];
    write_ascii(&cfg, &mut fb, &font, ' ', 0, 0, RED);
    assert!(fb.iter().all(|b| *b == 5));
}

fn glyph_text(code: usize, rows: &[&str; 16]) -> String {
    let mut t = format!("STARTCHAR\nchar 0x{:02x}\n", code);
    for r in rows {
        t.push_str(r);
        t.push('\n');
    }
    t.push('\n');
    t
}

fn font_text() -> String {
    let blank = ["........"; 16];
    let mut t = String::new();
    for c in 0..256 {
        if c == 0x41 {
            let mut rows = blank;
            rows[0] = "*......*";
            rows[15] = "..**....";
            rows[3] = "********x";
            t.push_str(&glyph_text(c, &rows));
        } else {
            t.push_str(&glyph_text(c, &blank));
        }
    }
    t
}

#[test]
fn font_from_text_reads_star_rows() {
    let font = font_from_text(&font_text()).unwrap();
    assert_eq!(font[0x41][0], 0b1000_0001);
    assert_eq!(font[0x41][15], 0b0011_0000);
    assert_eq!(font[0x41][3], 0xff);
    assert_eq!(font[0x41][1], 0);
    assert_eq!(font[0x42], [0u8; 16]);
}

#[test]
fn font_from_text_needs_exactly_256_glyphs() {
    let t = font_text();
    let cut = t.rfind("STARTCHAR").unwrap();
    assert!(font_from_text(&t[..cut]).is_none());
    let more = format!("{}{}", t, glyph_text(0, &["........"; 16]));
    assert!(font_from_text(&more).is_none());
}

#[test]
fn font_from_text_refuses_short_row_and_truncated_glyph() {
    let mut t = font_text();
    t = t.replacen("........\n", "....\n", 1);
    assert!(font_from_text(&t).is_none());
    let t = font_text();
    let end = t.len() - 10;
    assert!(font_from_text(&t[..end]).is_none());
}

#[test]
fn font_from_text_header_needs_a_character_after_0x() {
    // "char 0x" at the end of a line is no header: its rows are skipped
    // lines, and the font then lacks a glyph.
    let t = font_text().replacen("char 0x00", "char 0x", 1);
    assert!(font_from_text(&t).is_none());
}
