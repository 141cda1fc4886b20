//! RGBA pixel buffers and the quarter turn between the two orientations.
use vstd::prelude::*;

verus! {

/// A row-major RGBA buffer, four bytes per pixel.
#[derive(Debug)]
pub struct Raster {
    pub width: u32,
    pub height: u32,
    pub pixels: Vec<u8>,
}

impl Raster {
    pub open spec fn wf(&self) -> bool {
        self.pixels@.len() == 4 * (self.width as int) * (self.height as int)
    }

    /// Channel `c` of pixel `(x, y)`.
    pub open spec fn channel(&self, x: int, y: int, c: int) -> u8 {
        self.pixels@[(y * self.width + x) * 4 + c]
    }
}

/// Relies on image::imageops::rotate90 (with RgbaImage::from_raw and into_raw):
/// a clockwise quarter turn, pixel `(x, y)` of a `width` x `height` image going
/// to `(height - 1 - y, x)` of a `height` x `width` image.
#[verifier::external_body]
fn rotate90_rgba(width: u32, height: u32, data: Vec<u8>) -> (r: Vec<u8>)
    requires
        data@.len() == 4 * (width as int) * (height as int),
    ensures
        r@.len() == data@.len(),
        forall|x: int, y: int, c: int|
            0 <= x < width && 0 <= y < height && 0 <= c < 4 ==> #[trigger] r@[(x * height + (
            height - 1 - y)) * 4 + c] == data@[(y * width + x) * 4 + c],
{
    let img = image::RgbaImage::from_raw(width, height, data).unwrap();
    image::imageops::rotate90(&img).into_raw()
}

/// Turns a pointy-top raster into the flat-top one: width and height swap, and
/// pixel `(x, y)` of the input becomes pixel `(height - 1 - y, x)` of the output.
pub fn rotate_to_flat(r: Raster) -> (out: Raster)
    requires
        r.wf(),
    ensures
        out.wf(),
        out.width == r.height,
        out.height == r.width,
        forall|x: int, y: int, c: int|
            0 <= x < r.width && 0 <= y < r.height && 0 <= c < 4 ==> #[trigger] out.channel(
                r.height - 1 - y,
                x,
                c,
            ) == r.channel(x, y, c),
{
    let w = r.width;
    let h = r.height;
    let pixels = rotate90_rgba(w, h, r.pixels);
    let out = Raster { width: h, height: w, pixels };
    assert(4 * (w as int) * (h as int) == 4 * (h as int) * (w as int)) by (nonlinear_arith);
    assert forall|x: int, y: int, c: int|
        0 <= x < w && 0 <= y < h && 0 <= c < 4 implies #[trigger] out.channel(h - 1 - y, x, c)
        == r.channel(x, y, c) by {
        assert((x * h + (h - 1 - y)) * 4 + c == (x * (h as int) + (h - 1 - y)) * 4 + c);
        assert(out.pixels@[(x * h + (h - 1 - y)) * 4 + c] == r.pixels@[(y * w + x) * 4 + c]);
    }
    out
}

} // verus!
