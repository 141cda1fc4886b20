//! The whole raster for a radius: size checks, the pixel pass and the orientation.
use vstd::prelude::*;
use vstd::arithmetic::div_mod::{lemma_fundamental_div_mod, lemma_mod_pos_bound};
use crate::geometry::{
    image_height, image_width, is_cut, is_inradius, lemma_bound_mul, lemma_is_cut_matches_lines,
    pixel_is_cut,
    scaled_inradius_sq, should_be_alpha, Point,
};
use crate::raster::{rotate_to_flat, Raster};

verus! {

/// The largest image side, in pixels, that the integer arithmetic is proved for.
pub const MAX_EXTENT: u64 = 32767;

/// The finest radius denominator the integer arithmetic is proved for.
pub const MAX_DEN: u32 = 10000;

#[derive(Debug, Clone, Copy, PartialEq, Eq, Structural)]
pub enum GeometryError {
    /// The hexagon is less than one pixel wide (this covers every radius `<= 0.5`).
    Degenerate,
    /// The image would be taller than `MAX_EXTENT` pixels.
    TooLarge,
}

/// The radius `num / den` gives a hexagon narrower than one pixel.
pub open spec fn is_degenerate(num: int, den: int) -> bool {
    scaled_inradius_sq(num, den) < den * den
}

pub open spec fn is_too_large(num: int, den: int) -> bool {
    (2 * num) / den > MAX_EXTENT
}

/// Channel `c` of pixel `(x, y)` of the pointy-top raster: the fill colour, with
/// alpha 0 in the four cut corners and 255 elsewhere.
pub open spec fn pointy_channel(num: int, den: int, fill: (u8, u8, u8), x: int, y: int, c: int) -> u8 {
    if c == 0 {
        fill.0
    } else if c == 1 {
        fill.1
    } else if c == 2 {
        fill.2
    } else if is_cut(scaled_inradius_sq(num, den), num, 2 * den * x, 2 * den * y) {
        0
    } else {
        255
    }
}

/// `o` is the pointy-top raster of radius `num / den`.
pub open spec fn is_pointy_raster(o: Raster, num: int, den: int, fill: (u8, u8, u8)) -> bool {
    let q = scaled_inradius_sq(num, den);
    &&& o.wf()
    &&& o.height as int == (2 * num) / den
    &&& (o.width * den) * (o.width * den) <= q < ((o.width + 1) * den) * ((o.width + 1) * den)
    &&& forall|x: int, y: int, c: int|
        0 <= x < o.width && 0 <= y < o.height && 0 <= c < 4 ==> #[trigger] o.channel(x, y, c)
            == pointy_channel(num, den, fill, x, y, c)
}

spec fn row_done(s: Seq<u8>, w: int, num: int, den: int, fill: (u8, u8, u8), x: int, y: int) -> bool {
    forall|c: int| 0 <= c < 4 ==> s[(y * w + x) * 4 + c] == pointy_channel(num, den, fill, x, y, c)
}

proof fn lemma_index_before(x: int, y: int, px: int, py: int, w: int)
    requires
        0 <= x,
        0 <= y,
        0 <= px,
        0 <= w,
        (0 <= y < py && x < w) || (y == py && x < px),
    ensures
        0 <= y * w + x < py * w + px,
{
    lemma_bound_mul_nn(y, w);
    if y < py {
        assert(y * w + w <= py * w) by (nonlinear_arith)
            requires
                y < py,
                w >= 0,
        ;
        lemma_bound_mul_nn(py - y - 1, w);
    }
}

proof fn lemma_sq_le(a: int, b: int)
    requires
        0 <= a,
        0 <= b,
        a * a <= b * b,
    ensures
        a <= b,
{
    if a > b {
        assert(a * a > b * b) by (nonlinear_arith)
            requires
                a > b,
                b >= 0,
        ;
    }
}

/// Rasterizes the pointy-top hexagon of radius `num / den`.
pub fn rasterize_pointy(num: u32, den: u32, fill: (u8, u8, u8)) -> (out: Result<Raster, GeometryError>)
    requires
        0 < den <= MAX_DEN,
    ensures
        out == Err::<Raster, GeometryError>(GeometryError::Degenerate) <==> is_degenerate(num as int, den as int),
        out == Err::<Raster, GeometryError>(GeometryError::TooLarge) <==> !is_degenerate(num as int, den as int)
            && is_too_large(num as int, den as int),
        out is Ok ==> is_pointy_raster(out->Ok_0, num as int, den as int, fill),
{
    let n: i128 = num as i128;
    let d: i128 = den as i128;
    proof {
        lemma_bound_mul(n as int, n as int, 0xFFFF_FFFF, 0xFFFF_FFFF);
        lemma_bound_mul(n as int, d as int, 0xFFFF_FFFF, 0xFFFF_FFFF);
        lemma_bound_mul(d as int, d as int, 0xFFFF_FFFF, 0xFFFF_FFFF);
        assert(4 * n * n == 4 * (n * n)) by (nonlinear_arith);
        assert(2 * n * d == 2 * (n * d)) by (nonlinear_arith);
    }
    let q: i128 = 4 * n * n - 2 * n * d;
    assert(q == scaled_inradius_sq(num as int, den as int));
    if q < d * d {
        return Err(GeometryError::Degenerate);
    }
    let h64 = image_height(num, den);
    if h64 > MAX_EXTENT {
        return Err(GeometryError::TooLarge);
    }
    proof {
        let k = (2 * num as int) / (den as int);
        lemma_fundamental_div_mod(2 * num as int, den as int);
        lemma_mod_pos_bound(2 * num as int, den as int);
        let m = (2 * num as int) % (den as int);
        assert(2 * num < 32768 * den) by (nonlinear_arith)
            requires
                k <= 32767,
                2 * num as int == den * k + m,
                m < den,
                den > 0,
        ;
        assert(q < 0x1000_0000_0000_0000) by (nonlinear_arith)
            requires
                q == 4 * n * n - 2 * n * d,
                0 <= n < 16384 * 10000,
                d > 0,
        ;
    }
    let w64 = image_width(q as u64, den as u64);
    proof {
        let k = (2 * num as int) / (den as int);
        lemma_fundamental_div_mod(2 * num as int, den as int);
        lemma_mod_pos_bound(2 * num as int, den as int);
        let m = (2 * num as int) % (den as int);
        assert(q <= (2 * n) * (2 * n)) by (nonlinear_arith)
            requires
                q == 4 * n * n - 2 * n * d,
                n >= 0,
                d > 0,
        ;
        lemma_bound_mul_nn(w64 as int, den as int);
        lemma_sq_le(w64 * den, 2 * n);
        assert(w64 <= k) by (nonlinear_arith)
            requires
                w64 * den <= 2 * n,
                2 * n == den * k + m,
                m < den,
                den > 0,
                w64 >= 0,
        ;
    }
    let w: u32 = w64 as u32;
    let h: u32 = h64 as u32;
    let mut pixels: Vec<u8> = Vec::new();
    let mut py: u32 = 0;
    while py < h
        invariant
            w as int <= h as int <= MAX_EXTENT,
            0 < den <= MAX_DEN,
            n == num,
            d == den,
            q == scaled_inradius_sq(num as int, den as int),
            0 <= q <= 0x1000_0000_0000_0000,
            0 <= n <= 16384 * 10000,
            py <= h,
            pixels@.len() == 4 * (py * w),
            forall|x: int, y: int|
                0 <= y < py && 0 <= x < w ==> #[trigger] row_done(pixels@, w as int, num as int, den as int, fill, x, y),
        decreases h - py,
    {
        let mut px: u32 = 0;
        while px < w
            invariant
                w as int <= h as int <= MAX_EXTENT,
                0 < den <= MAX_DEN,
                n == num,
                d == den,
                q == scaled_inradius_sq(num as int, den as int),
                0 <= q <= 0x1000_0000_0000_0000,
                0 <= n <= 16384 * 10000,
                py < h,
                px <= w,
                pixels@.len() == 4 * (py * w + px),
                forall|x: int, y: int|
                    (0 <= y < py && 0 <= x < w) || (y == py && 0 <= x < px) ==> #[trigger] row_done(pixels@, w as int, num as int, den as int, fill, x, y),
            decreases w - px,
        {
            proof {
                lemma_bound_mul(2 * den as int, px as int, 20000, 32767);
                lemma_bound_mul(2 * den as int, py as int, 20000, 32767);
            }
            let cut = pixel_is_cut(q, n, 2 * d * (px as i128), 2 * d * (py as i128));
            let alpha: u8 = if cut { 0 } else { 255 };
            let ghost old_pixels = pixels@;
            pixels.push(fill.0);
            pixels.push(fill.1);
            pixels.push(fill.2);
            pixels.push(alpha);
            proof {
                let base = 4 * (py * w + px);
                assert(old_pixels.len() == base);
                assert forall|x: int, y: int|
                    (0 <= y < py && 0 <= x < w) || (y == py && 0 <= x < px + 1) implies #[trigger] row_done(pixels@, w as int, num as int, den as int, fill, x, y) by {
                    if y == py && x == px {
                        assert((y * w + x) * 4 == base);
                    } else {
                        lemma_index_before(x, y, px as int, py as int, w as int);
                        assert(row_done(old_pixels, w as int, num as int, den as int, fill, x, y));
                        assert forall|c: int| 0 <= c < 4 implies #[trigger] pixels@[(y * w + x) * 4 + c] == old_pixels[(y * w + x) * 4 + c] by {
                            assert((y * w + x) * 4 + c < base);
                        }
                    }
                }
            }
            px = px + 1;
        }
        proof {
            assert(py * w + w == (py + 1) * w) by (nonlinear_arith);
        }
        py = py + 1;
    }
    let out = Raster { width: w, height: h, pixels };
    proof {
        assert(4 * (h * w) == 4 * (w as int) * (h as int)) by (nonlinear_arith);
        assert forall|x: int, y: int, c: int|
            0 <= x < w && 0 <= y < h && 0 <= c < 4 implies #[trigger] out.channel(x, y, c)
                == pointy_channel(num as int, den as int, fill, x, y, c) by {
            assert(row_done(out.pixels@, w as int, num as int, den as int, fill, x, y));
        }
    }
    Ok(out)
}

proof fn lemma_bound_mul_nn(a: int, b: int) by (nonlinear_arith)
    requires
        0 <= a,
        0 <= b,
    ensures
        0 <= a * b,
{
}

/// Rasterizes the hexagon of radius `num / den`, pointy-top, or flat-top when
/// `flat` is set: the flat one is the pointy one turned a quarter clockwise.
pub fn hexagon(num: u32, den: u32, flat: bool, fill: (u8, u8, u8)) -> (out: Result<Raster, GeometryError>)
    requires
        0 < den <= MAX_DEN,
    ensures
        out == Err::<Raster, GeometryError>(GeometryError::Degenerate) <==> is_degenerate(num as int, den as int),
        out == Err::<Raster, GeometryError>(GeometryError::TooLarge) <==> !is_degenerate(num as int, den as int)
            && is_too_large(num as int, den as int),
        out is Ok && !flat ==> is_pointy_raster(out->Ok_0, num as int, den as int, fill),
        out is Ok && flat ==> exists|p: Raster| #[trigger] is_pointy_raster(p, num as int, den as int, fill)
            && out->Ok_0.wf() && out->Ok_0.width == p.height && out->Ok_0.height == p.width
            && forall|x: int, y: int, c: int|
                0 <= x < p.width && 0 <= y < p.height && 0 <= c < 4 ==> #[trigger] out->Ok_0.channel(
                    p.height - 1 - y,
                    x,
                    c,
                ) == p.channel(x, y, c),
{
    match rasterize_pointy(num, den, fill) {
        Err(e) => Err(e),
        Ok(p) => {
            if flat {
                let ghost gp = p;
                let f = rotate_to_flat(p);
                assert(is_pointy_raster(gp, num as int, den as int, fill));
                Ok(f)
            } else {
                Ok(p)
            }
        },
    }
}

/// Every pixel of the pointy-top raster has the fill colour; it is transparent
/// exactly when its centre lies in one of the four corners cut off by the lines
/// through the hexagon's vertices, and fully opaque otherwise.
pub proof fn lemma_pointy_pixel(
    o: Raster,
    num: int,
    den: int,
    fill: (u8, u8, u8),
    x: int,
    y: int,
    i: real,
)
    requires
        is_pointy_raster(o, num, den, fill),
        num > 0,
        den > 0,
        0 <= x < o.width,
        0 <= y < o.height,
        i > 0 as real,
        is_inradius(num as real / den as real, i),
    ensures
        o.channel(x, y, 0) == fill.0,
        o.channel(x, y, 1) == fill.1,
        o.channel(x, y, 2) == fill.2,
        o.channel(x, y, 3) == (if should_be_alpha(
            num as real / den as real,
            i,
            Point::new(x as real, y as real),
        ) {
            0u8
        } else {
            255u8
        }),
{
    lemma_is_cut_matches_lines(num, den, x, y, i);
    assert(o.channel(x, y, 0) == pointy_channel(num, den, fill, x, y, 0));
    assert(o.channel(x, y, 1) == pointy_channel(num, den, fill, x, y, 1));
    assert(o.channel(x, y, 2) == pointy_channel(num, den, fill, x, y, 2));
    assert(o.channel(x, y, 3) == pointy_channel(num, den, fill, x, y, 3));
}

} // verus!
