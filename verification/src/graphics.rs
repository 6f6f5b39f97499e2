//! Pixels and glyphs drawn into the frame buffer.
use vstd::prelude::*;
use crate::framebuffer::{FrameBufferConfig, PixelFormat};
use crate::fonts::{FontTable, glyph_of, ascii_map};

verus! {

#[derive(Clone, Copy, Debug)]
pub struct PixelColor {
    pub r: u8,
    pub g: u8,
    pub b: u8,
}

/// The three bytes written for `color`, in buffer order: green, blue, red
/// for the RGB format, and blue, green, red for the BGR format.
pub open spec fn channels(format: PixelFormat, color: PixelColor) -> (u8, u8, u8) {
    match format {
        PixelFormat::RGBResv8BitPerColor => (color.g, color.b, color.r),
        PixelFormat::BGRResv8BitPerColor => (color.b, color.g, color.r),
    }
}

/// Byte `k` (0, 1 or 2) of a pixel's channels.
pub open spec fn channel(c: (u8, u8, u8), k: int) -> u8 {
    if k == 0 {
        c.0
    } else if k == 1 {
        c.1
    } else {
        c.2
    }
}

/// `fb` with every pixel in `covered` set to the channels `c`; the fourth,
/// reserved byte of each pixel and all other pixels are kept.
pub open spec fn fill(fb: Seq<u8>, covered: spec_fn(int) -> bool, c: (u8, u8, u8)) -> Seq<u8> {
    Seq::new(fb.len(), |i: int| if covered(i / 4) && i % 4 < 3 { channel(c, i % 4) } else { fb[i] })
}

/// Filling twice with one colour fills the union.
pub proof fn lemma_fill_union(
    fb: Seq<u8>,
    a: spec_fn(int) -> bool,
    b: spec_fn(int) -> bool,
    u: spec_fn(int) -> bool,
    c: (u8, u8, u8),
)
    requires
        forall|p: int| #[trigger] u(p) == (a(p) || b(p)),
    ensures
        fill(fill(fb, a, c), b, c) == fill(fb, u, c),
{
    assert(fill(fill(fb, a, c), b, c) =~= fill(fb, u, c));
}

/// Filling with an empty set changes nothing.
pub proof fn lemma_fill_empty(fb: Seq<u8>, a: spec_fn(int) -> bool, c: (u8, u8, u8))
    requires
        forall|p: int| !(#[trigger] a(p)),
    ensures
        fill(fb, a, c) == fb,
{
    assert(fill(fb, a, c) =~= fb);
}

/// The set holding one pixel.
pub open spec fn just(p: int) -> spec_fn(int) -> bool {
    |q: int| q == p
}

fn write_pixel_triple(config: &FrameBufferConfig, fb: &mut [u8], x: u32, y: u32, abc: (u8, u8, u8))
    requires
        config.describes(old(fb)@),
        config.pixel_fits(x as int, y as int),
    ensures
        final(fb)@ == fill(old(fb)@, just(config.pixel_index(x as int, y as int)), abc),
{
    let ghost p = config.pixel_index(x as int, y as int);
    assert(config.pixels_per_scan_line * y <= p);
    let pixel_pos = config.pixels_per_scan_line * y + x;
    let (c0, c1, c2) = abc;
    let base = 4 * pixel_pos as usize;
    fb[base] = c0;
    fb[base + 1] = c1;
    fb[base + 2] = c2;
    assert(fb@ =~= fill(old(fb)@, just(p), abc));
}

/// Sets the pixel at `(x, y)` to `color`.
pub fn write_pixel(config: &FrameBufferConfig, fb: &mut [u8], x: u32, y: u32, color: PixelColor)
    requires
        config.describes(old(fb)@),
        config.pixel_fits(x as int, y as int),
    ensures
        final(fb)@ == fill(
            old(fb)@,
            just(config.pixel_index(x as int, y as int)),
            channels(config.pixel_format, color),
        ),
        ({
            let b = 4 * config.pixel_index(x as int, y as int);
            &&& config.pixel_format == PixelFormat::BGRResv8BitPerColor ==> {
                &&& final(fb)@[b] == color.b
                &&& final(fb)@[b + 1] == color.g
                &&& final(fb)@[b + 2] == color.r
            }
            &&& config.pixel_format == PixelFormat::RGBResv8BitPerColor ==> {
                &&& final(fb)@[b] == color.g
                &&& final(fb)@[b + 1] == color.b
                &&& final(fb)@[b + 2] == color.r
            }
            &&& final(fb)@[b + 3] == old(fb)@[b + 3]
        }),
{
    let abc = match config.pixel_format {
        PixelFormat::RGBResv8BitPerColor => (color.g, color.b, color.r),
        PixelFormat::BGRResv8BitPerColor => (color.b, color.g, color.r),
    };
    write_pixel_triple(config, fb, x, y, abc);
}

/// Pixel `dx` (0 is leftmost) of a glyph row is set.
pub open spec fn glyph_bit(row: u8, dx: int) -> bool {
    row & (0x80u8 >> (dx as u8)) != 0
}

/// Pixel `(dx, dy)` of `glyph`, drawn with its top-left corner at `(x, y)`,
/// is set and lands on pixel `p` of the buffer.
pub open spec fn glyph_hit(
    config: FrameBufferConfig,
    glyph: Seq<u8>,
    x: int,
    y: int,
    dy: int,
    dx: int,
    p: int,
) -> bool {
    glyph_bit(glyph[dy], dx) && p == config.pixel_index(x + dx, y + dy)
}

/// The buffer pixels that the first `n` pixels of `glyph`, in row-major
/// order, set when it is drawn at `(x, y)`.
pub open spec fn glyph_pixels_upto(
    config: FrameBufferConfig,
    glyph: Seq<u8>,
    x: int,
    y: int,
    n: int,
) -> spec_fn(int) -> bool {
    |p: int|
        exists|dy: int, dx: int|
            0 <= dy < 16 && 0 <= dx < 8 && 8 * dy + dx < n && #[trigger] glyph_hit(
                config,
                glyph,
                x,
                y,
                dy,
                dx,
                p,
            )
}

/// The buffer pixels that `glyph` sets when it is drawn at `(x, y)`.
pub open spec fn glyph_pixels(config: FrameBufferConfig, glyph: Seq<u8>, x: int, y: int) -> spec_fn(int) -> bool {
    glyph_pixels_upto(config, glyph, x, y, 128)
}

/// Every pixel that `glyph` sets when drawn at `(x, y)` has coordinates
/// that fit in 32 bits and lies inside the buffer.
pub open spec fn glyph_fits(config: FrameBufferConfig, glyph: Seq<u8>, x: int, y: int) -> bool {
    forall|dy: int, dx: int|
        0 <= dy < 16 && 0 <= dx < 8 && #[trigger] glyph_bit(glyph[dy], dx) ==> {
            &&& x + dx <= u32::MAX
            &&& y + dy <= u32::MAX
            &&& config.pixel_fits(x + dx, y + dy)
        }
}

/// Every row of `glyph` is empty: drawing it writes no pixel.
pub open spec fn glyph_blank(glyph: Seq<u8>) -> bool {
    forall|dy: int| 0 <= dy < 16 ==> #[trigger] glyph[dy] == 0
}

/// Drawing `glyph` at `(x, y)` stays inside the buffer, and when it writes
/// any pixel the buffer's size fits 32-bit arithmetic.
pub open spec fn draw_fits(config: FrameBufferConfig, glyph: Seq<u8>, x: int, y: int) -> bool {
    &&& glyph_fits(config, glyph, x, y)
    &&& !glyph_blank(glyph) ==> config.size_fits()
}

/// Draws the glyph of `c` with its top-left corner at `(x, y)`: the pixels
/// of its set bits take `color`, all others are left as they were.
pub fn write_ascii(
    config: &FrameBufferConfig,
    fb: &mut [u8],
    font: &FontTable,
    c: char,
    x: u32,
    y: u32,
    color: PixelColor,
)
    requires
        config.holds(old(fb)@),
        draw_fits(*config, glyph_of(*font, c), x as int, y as int),
    ensures
        final(fb)@ == fill(
            old(fb)@,
            glyph_pixels(*config, glyph_of(*font, c), x as int, y as int),
            channels(config.pixel_format, color),
        ),
{
    let glyph = ascii_map(font, c);
    let ghost g = glyph@;
    let ghost ch = channels(config.pixel_format, color);
    proof {
        lemma_fill_empty(old(fb)@, glyph_pixels_upto(*config, g, x as int, y as int, 0), ch);
    }
    for dy in 0..16u32
        invariant
            config.holds(fb@),
            glyph@ == g,
            ch == channels(config.pixel_format, color),
            draw_fits(*config, g, x as int, y as int),
            fb@ == fill(old(fb)@, glyph_pixels_upto(*config, g, x as int, y as int, 8 * dy), ch),
    {
        let scan = glyph[dy as usize];
        for dx in 0..8u32
            invariant
                dy < 16,
                scan == g[dy as int],
                config.holds(fb@),
                glyph@ == g,
                ch == channels(config.pixel_format, color),
                draw_fits(*config, g, x as int, y as int),
                fb@ == fill(
                    old(fb)@,
                    glyph_pixels_upto(*config, g, x as int, y as int, 8 * dy + dx),
                    ch,
                ),
        {
            let ghost n = 8 * dy + dx;
            let ghost p0 = config.pixel_index(x + dx, y + dy);
            let ghost before = glyph_pixels_upto(*config, g, x as int, y as int, n);
            let ghost after = glyph_pixels_upto(*config, g, x as int, y as int, n + 1);
            let hit = (scan << dx) & 0x80 > 0;
            assert(hit == glyph_bit(scan, dx as int)) by (bit_vector)
                requires
                    dx < 8,
                    hit == ((scan << dx) & 0x80 > 0);
            if hit {
                assert(glyph_bit(g[dy as int], dx as int));
                assert(scan != 0) by (bit_vector)
                    requires
                        dx < 8,
                        scan & (0x80u8 >> (dx as u8)) != 0;
                assert(!glyph_blank(g));
                write_pixel(config, fb, x + dx, y + dy, color);
                proof {
                    assert forall|p: int| #[trigger] after(p) == (before(p) || just(p0)(p)) by {
                        if p == p0 {
                            assert(glyph_hit(*config, g, x as int, y as int, dy as int, dx as int, p));
                        }
                        if after(p) {
                            let (a, b) = choose|a: int, b: int|
                                0 <= a < 16 && 0 <= b < 8 && 8 * a + b < n + 1 && #[trigger] glyph_hit(
                                    *config, g, x as int, y as int, a, b, p);
                            if 8 * a + b == n {
                                assert(a == dy && b == dx);
                            }
                        }
                    }
                    lemma_fill_union(old(fb)@, before, just(p0), after, ch);
                }
            } else {
                proof {
                    assert forall|p: int| #[trigger] after(p) == before(p) by {
                        if after(p) {
                            let (a, b) = choose|a: int, b: int|
                                0 <= a < 16 && 0 <= b < 8 && 8 * a + b < n + 1 && #[trigger] glyph_hit(
                                    *config, g, x as int, y as int, a, b, p);
                            if 8 * a + b == n {
                                assert(a == dy && b == dx);
                            }
                        }
                    }
                    assert(fill(old(fb)@, after, ch) =~= fill(old(fb)@, before, ch));
                }
            }
        }
    }
}

/// Whether drawing `glyph` at `(x, y)` stays inside the buffer (see
/// `draw_fits`).
pub fn check_draw(config: &FrameBufferConfig, glyph: &[u8; 16], x: u32, y: u32) -> (r: bool)
    ensures
        r == draw_fits(*config, glyph@, x as int, y as int),
{
    let ghost g = glyph@;
    let mut blank = true;
    for dy in 0..16usize
        invariant
            glyph@ == g,
            blank == (forall|k: int| 0 <= k < dy ==> #[trigger] g[k] == 0),
    {
        if glyph[dy] != 0 {
            blank = false;
        }
    }
    if !blank && !config.check_size() {
        return false;
    }
    for dy in 0..16u32
        invariant
            glyph@ == g,
            forall|a: int, b: int|
                0 <= a < 16 && 0 <= b < 8 && 8 * a + b < 8 * dy && #[trigger] glyph_bit(g[a], b) ==> {
                    &&& x + b <= u32::MAX
                    &&& y + a <= u32::MAX
                    &&& config.pixel_fits(x + b, y + a)
                },
    {
        let row = glyph[dy as usize];
        for dx in 0..8u32
            invariant
                dy < 16,
                row == g[dy as int],
                glyph@ == g,
                forall|a: int, b: int|
                    0 <= a < 16 && 0 <= b < 8 && 8 * a + b < 8 * dy + dx && #[trigger] glyph_bit(g[a], b) ==> {
                        &&& x + b <= u32::MAX
                        &&& y + a <= u32::MAX
                        &&& config.pixel_fits(x + b, y + a)
                    },
        {
            let hit = row & (0x80u8 >> (dx as u8)) != 0;
            assert(hit == glyph_bit(row, dx as int));
            if hit {
                let xx = x as u64 + dx as u64;
                let yy = y as u64 + dy as u64;
                if xx > u32::MAX as u64 || yy > u32::MAX as u64 || !config.check_pixel(xx, yy) {
                    assert(glyph_bit(g[dy as int], dx as int));
                    return false;
                }
            }
            proof {
                assert forall|a: int, b: int|
                    0 <= a < 16 && 0 <= b < 8 && 8 * a + b < 8 * dy + dx + 1 && #[trigger] glyph_bit(g[a], b) implies {
                        &&& x + b <= u32::MAX
                        &&& y + a <= u32::MAX
                        &&& config.pixel_fits(x + b, y + a)
                    } by {
                    if 8 * a + b == 8 * dy + dx {
                        assert(a == dy && b == dx);
                    }
                }
            }
        }
    }
    true
}

} // verus!

verus! {

/// The bytes a colour takes depend on the pixel format alone, never on the
/// colour: blue, green, red in the BGR format, and green, blue, red in the
/// RGB format, for every colour.
pub proof fn lemma_pixel_bytes(color: PixelColor)
    ensures
        channel(channels(PixelFormat::BGRResv8BitPerColor, color), 0) == color.b,
        channel(channels(PixelFormat::BGRResv8BitPerColor, color), 1) == color.g,
        channel(channels(PixelFormat::BGRResv8BitPerColor, color), 2) == color.r,
        channel(channels(PixelFormat::RGBResv8BitPerColor, color), 0) == color.g,
        channel(channels(PixelFormat::RGBResv8BitPerColor, color), 1) == color.b,
        channel(channels(PixelFormat::RGBResv8BitPerColor, color), 2) == color.r,
{
}

/// Every covered pixel of a fill holds the colour's bytes in the format's
/// order, and its fourth byte is kept.
pub proof fn lemma_fill_pixel_bytes(
    fb: Seq<u8>,
    covered: spec_fn(int) -> bool,
    format: PixelFormat,
    color: PixelColor,
    p: int,
)
    requires
        covered(p),
        0 <= p,
        4 * p + 3 < fb.len(),
    ensures
        format == PixelFormat::BGRResv8BitPerColor ==> {
            &&& fill(fb, covered, channels(format, color))[4 * p] == color.b
            &&& fill(fb, covered, channels(format, color))[4 * p + 1] == color.g
            &&& fill(fb, covered, channels(format, color))[4 * p + 2] == color.r
        },
        format == PixelFormat::RGBResv8BitPerColor ==> {
            &&& fill(fb, covered, channels(format, color))[4 * p] == color.g
            &&& fill(fb, covered, channels(format, color))[4 * p + 1] == color.b
            &&& fill(fb, covered, channels(format, color))[4 * p + 2] == color.r
        },
        fill(fb, covered, channels(format, color))[4 * p + 3] == fb[4 * p + 3],
{
    assert((4 * p) / 4 == p && (4 * p) % 4 == 0);
    assert((4 * p + 1) / 4 == p && (4 * p + 1) % 4 == 1);
    assert((4 * p + 2) / 4 == p && (4 * p + 2) % 4 == 2);
    assert((4 * p + 3) / 4 == p && (4 * p + 3) % 4 == 3);
}

} // verus!
