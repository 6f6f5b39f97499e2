//! The frame buffer that the boot loader hands to the kernel.
use vstd::prelude::*;

verus! {

/// The byte order of a pixel's colour channels.
#[derive(Clone, Copy, Debug, PartialEq, Eq, Structural)]
pub enum PixelFormat {
    RGBResv8BitPerColor,
    BGRResv8BitPerColor,
}

/// The shape of the frame buffer: four bytes per pixel, rows of
/// `pixels_per_scan_line` pixels, `vertical_resolution` rows. The buffer's
/// memory itself is handed to the drawing functions as a byte slice.
#[derive(Clone, Copy, Debug)]
pub struct FrameBufferConfig {
    pub pixels_per_scan_line: u32,
    pub horizontal_resolution: u32,
    pub vertical_resolution: u32,
    pub pixel_format: PixelFormat,
}

impl FrameBufferConfig {
    /// The number of pixels the buffer holds.
    pub open spec fn pixel_count(self) -> int {
        self.pixels_per_scan_line * self.vertical_resolution
    }

    /// The buffer's size in bytes.
    pub open spec fn byte_size(self) -> int {
        4 * self.pixel_count()
    }

    /// The buffer's size fits the 32-bit arithmetic that addresses it; a
    /// pixel write computes that size.
    pub open spec fn size_fits(self) -> bool {
        self.byte_size() <= u32::MAX
    }

    /// `fb` is the whole buffer.
    pub open spec fn holds(self, fb: Seq<u8>) -> bool {
        fb.len() == self.byte_size()
    }

    /// `fb` is the whole buffer and its size fits 32-bit arithmetic.
    pub open spec fn describes(self, fb: Seq<u8>) -> bool {
        &&& self.size_fits()
        &&& self.holds(fb)
    }

    /// The index of the pixel at column `x` of row `y`.
    pub open spec fn pixel_index(self, x: int, y: int) -> int {
        self.pixels_per_scan_line * y + x
    }

    /// The pixel at `(x, y)` lies inside the buffer.
    pub open spec fn pixel_fits(self, x: int, y: int) -> bool {
        &&& 0 <= x
        &&& 0 <= y
        &&& self.pixel_index(x, y) < self.pixel_count()
    }

    /// Whether the buffer's size fits 32-bit arithmetic.
    pub fn check_size(&self) -> (r: bool)
        ensures
            r == self.size_fits(),
    {
        let w = self.pixels_per_scan_line as u128;
        let v = self.vertical_resolution as u128;
        assert(w * v <= 0xffff_ffff_ffff_ffff_u128) by (nonlinear_arith)
            requires w <= 0xffff_ffff, v <= 0xffff_ffff;
        let count = w * v;
        assert(self.byte_size() == 4 * count);
        4 * count <= u32::MAX as u128
    }

    /// Whether the pixel at `(x, y)` lies inside the buffer.
    pub fn check_pixel(&self, x: u64, y: u64) -> (r: bool)
        ensures
            r == self.pixel_fits(x as int, y as int),
    {
        let w = self.pixels_per_scan_line as u128;
        let v = self.vertical_resolution as u128;
        assert(w * (y as u128) <= 0xffff_ffff_ffff_ffff_ffff_ffff_u128) by (nonlinear_arith)
            requires w <= 0xffff_ffff, y <= 0xffff_ffff_ffff_ffff;
        assert(w * v <= 0xffff_ffff_ffff_ffff_u128) by (nonlinear_arith)
            requires w <= 0xffff_ffff, v <= 0xffff_ffff;
        w * (y as u128) + (x as u128) < w * v
    }
}

} // verus!
