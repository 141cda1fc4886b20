//! The hexagon's bounding rectangle and its four corner-cutting lines.
use vstd::prelude::*;
use vstd::arithmetic::div_mod::{lemma_fundamental_div_mod, lemma_mod_pos_bound};

verus! {

/// A point of the plane, in pixel space (origin top-left, `y` growing downward).
pub struct Point {
    pub x: real,
    pub y: real,
}

impl Point {
    pub open spec fn new(x: real, y: real) -> Point {
        Point { x, y }
    }
}

/// The straight line `y = slope * x + offset`.
pub struct FnLine {
    pub slope: real,
    pub offset: real,
}

impl FnLine {
    pub open spec fn new(slope: real, offset: real) -> FnLine {
        FnLine { slope, offset }
    }

    /// The line through two points with distinct `x`.
    pub open spec fn from_points(p1: Point, p2: Point) -> FnLine {
        let slope = (p2.y - p1.y) / (p2.x - p1.x);
        FnLine { slope, offset: p1.y - slope * p1.x }
    }

    pub open spec fn eval(self, x: real) -> real {
        self.slope * x + self.offset
    }

    /// A point on the line counts as below it.
    pub open spec fn below(self, p: Point) -> bool {
        p.y <= self.eval(p.x)
    }

    pub open spec fn above(self, p: Point) -> bool {
        !self.below(p)
    }
}

pub open spec fn diameter(r: real) -> real {
    2 as real * r
}

pub open spec fn side(r: real) -> real {
    diameter(r) / 2 as real
}

/// The square of the inradius: `radius^2 - side / 2`.
pub open spec fn inradius_sq(r: real) -> real {
    r * r - side(r) / 2 as real
}

/// `i` is the inradius of radius `r`: the non-negative square root of `inradius_sq(r)`.
pub open spec fn is_inradius(r: real, i: real) -> bool {
    i >= 0 as real && i * i == inradius_sq(r)
}

pub open spec fn corner_vertical(r: real, i: real) -> real {
    (2 as real * i - side(r)) / 2 as real
}

pub open spec fn corner_horizontal(i: real) -> real {
    i
}

pub open spec fn top_left(r: real, i: real) -> FnLine {
    FnLine::from_points(
        Point::new(0 as real, corner_vertical(r, i)),
        Point::new(corner_horizontal(i), 0 as real),
    )
}

pub open spec fn top_right(r: real, i: real) -> FnLine {
    FnLine::from_points(
        Point::new(corner_horizontal(i), 0 as real),
        Point::new(2 as real * i, corner_vertical(r, i)),
    )
}

pub open spec fn bottom_left(r: real, i: real) -> FnLine {
    FnLine::from_points(
        Point::new(0 as real, corner_vertical(r, i) + side(r)),
        Point::new(corner_horizontal(i), diameter(r)),
    )
}

pub open spec fn bottom_right(r: real, i: real) -> FnLine {
    FnLine::from_points(
        Point::new(corner_horizontal(i), diameter(r)),
        Point::new(2 as real * i, corner_vertical(r, i) + side(r)),
    )
}

/// The point lies in one of the four cut-away corners.
pub open spec fn should_be_alpha(r: real, i: real, p: Point) -> bool {
    top_left(r, i).below(p) || top_right(r, i).below(p) || bottom_left(r, i).above(p)
        || bottom_right(r, i).above(p)
}

/// Multiplying both sides by a positive factor keeps an inequality.
proof fn lemma_scale(a: real, b: real, k: real) by (nonlinear_arith)
    requires
        k > 0 as real,
    ensures
        (a <= b) == (k * a <= k * b),
        (a < b) == (k * a < k * b),
{
}

/// Comparing `i * a` with a non-negative `b`, where `i` is the square root of `d`.
proof fn lemma_root_cmp(i: real, d: real, a: real, b: real) by (nonlinear_arith)
    requires
        i >= 0 as real,
        i * i == d,
        b > 0 as real,
    ensures
        (i * a <= b) == (a <= 0 as real || d * (a * a) <= b * b),
        (i * a < b) == (a <= 0 as real || d * (a * a) < b * b),
        (b <= i * a) == (a > 0 as real && b * b <= d * (a * a)),
        (b < i * a) == (a > 0 as real && b * b < d * (a * a)),
{
    if a > 0 as real {
        assert(i * a >= 0 as real);
    }
}

/// A point exactly on a line is classified below it, never above it.
pub proof fn lemma_on_line_is_below(l: FnLine, x: real)
    ensures
        l.below(Point::new(x, l.eval(x))),
        !l.above(Point::new(x, l.eval(x))),
{
}

proof fn lemma_inradius_pos(r: real, i: real) by (nonlinear_arith)
    requires
        i > 0 as real,
        i * i == inradius_sq(r),
    ensures
        inradius_sq(r) > 0 as real,
{
}

proof fn lemma_nonneg_mul(a: real, b: real) by (nonlinear_arith)
    requires
        a >= 0 as real,
        b >= 0 as real,
    ensures
        a * b >= 0 as real,
{
}

/// The top-left corner test with the square root squared away.
pub proof fn lemma_top_left(r: real, i: real, x: real, y: real)
    requires
        r > 0 as real,
        i > 0 as real,
        is_inradius(r, i),
        x >= 0 as real,
        y >= 0 as real,
    ensures
        top_left(r, i).below(Point::new(x, y)) == (inradius_sq(r) * ((x + y + r / 2 as real) * (
        x + y + r / 2 as real)) <= (inradius_sq(r) + r * x / 2 as real) * (inradius_sq(r) + r * x
            / 2 as real)),
{
    let d = inradius_sq(r);
    let l = top_left(r, i);
    let cv = corner_vertical(r, i);
    lemma_inradius_pos(r, i);
    lemma_nonneg_mul(r, x);
    assert(cv == i - r / 2 as real);
    assert(l.slope == (0 as real - cv) / i);
    assert(l.offset == cv);
    assert(l.slope * i == 0 as real - cv) by (nonlinear_arith)
        requires
            l.slope == (0 as real - cv) / i,
            i > 0 as real,
    ;
    assert(i * l.eval(x) == d + r * x / 2 as real - i * (x + r / 2 as real)) by (nonlinear_arith)
        requires
            l.slope * i == 0 as real - cv,
            l.offset == cv,
            cv == i - r / 2 as real,
            i * i == d,
            l.eval(x) == l.slope * x + l.offset,
    ;
    lemma_scale(y, l.eval(x), i);
    assert((i * y <= i * l.eval(x)) == (i * (x + y + r / 2 as real) <= d + r * x / 2 as real))
        by (nonlinear_arith)
        requires
            i * l.eval(x) == d + r * x / 2 as real - i * (x + r / 2 as real),
    ;
    lemma_root_cmp(i, d, x + y + r / 2 as real, d + r * x / 2 as real);
}

/// `i` times the line through `p1` and `p2`, where `p2.x - p1.x == i`.
proof fn lemma_from_points_eval(p1: Point, p2: Point, i: real, x: real)
    requires
        p2.x - p1.x == i,
        i > 0 as real,
    ensures
        i * FnLine::from_points(p1, p2).eval(x) == (p2.y - p1.y) * (x - p1.x) + i * p1.y,
{
    let l = FnLine::from_points(p1, p2);
    let dy = p2.y - p1.y;
    assert(l.slope == dy / i);
    assert(l.slope * i == dy) by (nonlinear_arith)
        requires
            l.slope == dy / i,
            i > 0 as real,
    ;
    assert(i * l.eval(x) == dy * (x - p1.x) + i * p1.y) by (nonlinear_arith)
        requires
            l.slope * i == dy,
            l.offset == p1.y - l.slope * p1.x,
            l.eval(x) == l.slope * x + l.offset,
    ;
}

/// The top-right corner test with the square root squared away.
pub proof fn lemma_top_right(r: real, i: real, x: real, y: real)
    requires
        r > 0 as real,
        i > 0 as real,
        is_inradius(r, i),
        x >= 0 as real,
        y >= 0 as real,
    ensures
        top_right(r, i).below(Point::new(x, y)) == (x + r / 2 as real - y > 0 as real && (
        inradius_sq(r) + r * x / 2 as real) * (inradius_sq(r) + r * x / 2 as real) <= inradius_sq(
            r,
        ) * ((x + r / 2 as real - y) * (x + r / 2 as real - y))),
{
    let d = inradius_sq(r);
    let l = top_right(r, i);
    let cv = corner_vertical(r, i);
    lemma_inradius_pos(r, i);
    lemma_nonneg_mul(r, x);
    assert(cv == i - r / 2 as real);
    lemma_from_points_eval(Point::new(i, 0 as real), Point::new(2 as real * i, cv), i, x);
    let e = i * l.eval(x);
    assert(e == cv * (x - i));
    assert(e == i * (x + r / 2 as real) - d - r * x / 2 as real) by (nonlinear_arith)
        requires
            e == cv * (x - i),
            cv == i - r / 2 as real,
            i * i == d,
    ;
    lemma_scale(y, l.eval(x), i);
    assert((i * y <= e) == (d + r * x / 2 as real <= i * (x + r / 2 as real - y)))
        by (nonlinear_arith)
        requires
            e == i * (x + r / 2 as real) - d - r * x / 2 as real,
    ;
    lemma_root_cmp(i, d, x + r / 2 as real - y, d + r * x / 2 as real);
}

/// The bottom-left corner test with the square root squared away.
pub proof fn lemma_bottom_left(r: real, i: real, x: real, y: real)
    requires
        r > 0 as real,
        i > 0 as real,
        is_inradius(r, i),
        x >= 0 as real,
        y >= 0 as real,
    ensures
        bottom_left(r, i).above(Point::new(x, y)) == (x + y - r / 2 as real > 0 as real && (
        inradius_sq(r) + 3 as real * r * x / 2 as real) * (inradius_sq(r) + 3 as real * r * x
            / 2 as real) < inradius_sq(r) * ((x + y - r / 2 as real) * (x + y - r / 2 as real))),
{
    let d = inradius_sq(r);
    let l = bottom_left(r, i);
    let cv = corner_vertical(r, i);
    lemma_inradius_pos(r, i);
    lemma_nonneg_mul(r, x);
    assert(cv == i - r / 2 as real);
    lemma_from_points_eval(Point::new(0 as real, cv + r), Point::new(i, 2 as real * r), i, x);
    let e = i * l.eval(x);
    assert(e == (2 as real * r - (cv + r)) * x + i * (cv + r));
    assert(e == 3 as real * r * x / 2 as real - i * x + d + i * r / 2 as real) by (nonlinear_arith)
        requires
            e == (2 as real * r - (cv + r)) * x + i * (cv + r),
            cv == i - r / 2 as real,
            i * i == d,
    ;
    lemma_scale(y, l.eval(x), i);
    let b = d + 3 as real * r * x / 2 as real;
    assert(3 as real * r * x >= 0 as real) by (nonlinear_arith)
        requires
            r > 0 as real,
            x >= 0 as real,
    ;
    assert((i * y <= e) == !(b < i * (x + y - r / 2 as real))) by (nonlinear_arith)
        requires
            e == 3 as real * r * x / 2 as real - i * x + d + i * r / 2 as real,
            b == d + 3 as real * r * x / 2 as real,
    ;
    lemma_root_cmp(i, d, x + y - r / 2 as real, b);
}

/// The bottom-right corner test with the square root squared away.
pub proof fn lemma_bottom_right(r: real, i: real, x: real, y: real)
    requires
        r > 0 as real,
        i > 0 as real,
        is_inradius(r, i),
        x >= 0 as real,
        y >= 0 as real,
    ensures
        bottom_right(r, i).above(Point::new(x, y)) == (x + 7 as real * r / 2 as real - y <= 0 as real
            || inradius_sq(r) * ((x + 7 as real * r / 2 as real - y) * (x + 7 as real * r / 2 as real
            - y)) < (inradius_sq(r) + 3 as real * r * x / 2 as real) * (inradius_sq(r) + 3 as real
            * r * x / 2 as real)),
{
    let d = inradius_sq(r);
    let l = bottom_right(r, i);
    let cv = corner_vertical(r, i);
    lemma_inradius_pos(r, i);
    lemma_nonneg_mul(r, x);
    assert(cv == i - r / 2 as real);
    lemma_from_points_eval(Point::new(i, 2 as real * r), Point::new(2 as real * i, cv + r), i, x);
    let e = i * l.eval(x);
    assert(e == (cv + r - 2 as real * r) * (x - i) + i * (2 as real * r));
    assert(e == i * x - 3 as real * r * x / 2 as real + 7 as real * r * i / 2 as real - d)
        by (nonlinear_arith)
        requires
            e == (cv + r - 2 as real * r) * (x - i) + i * (2 as real * r),
            cv == i - r / 2 as real,
            i * i == d,
    ;
    lemma_scale(y, l.eval(x), i);
    let b = d + 3 as real * r * x / 2 as real;
    assert(3 as real * r * x >= 0 as real) by (nonlinear_arith)
        requires
            r > 0 as real,
            x >= 0 as real,
    ;
    assert((i * y <= e) == !(i * (x + 7 as real * r / 2 as real - y) < b)) by (nonlinear_arith)
        requires
            e == i * x - 3 as real * r * x / 2 as real + 7 as real * r * i / 2 as real - d,
            b == d + 3 as real * r * x / 2 as real,
    ;
    lemma_root_cmp(i, d, x + 7 as real * r / 2 as real - y, b);
}

/// The square of the inradius of radius `n / d`, scaled by `(2d)^2`: `4n^2 - 2nd`.
pub open spec fn scaled_inradius_sq(n: int, d: int) -> int {
    4 * n * n - 2 * n * d
}

/// Top-left corner cut, in units of `1 / (2d)`, for `q` the scaled inradius square
/// and `n` the scaled half radius.
pub open spec fn cut_top_left(q: int, n: int, x: int, y: int) -> bool {
    q * ((x + y + n) * (x + y + n)) <= (q + n * x) * (q + n * x)
}

pub open spec fn cut_top_right(q: int, n: int, x: int, y: int) -> bool {
    x + n - y > 0 && (q + n * x) * (q + n * x) <= q * ((x + n - y) * (x + n - y))
}

pub open spec fn cut_bottom_left(q: int, n: int, x: int, y: int) -> bool {
    x + y - n > 0 && (q + 3 * n * x) * (q + 3 * n * x) < q * ((x + y - n) * (x + y - n))
}

pub open spec fn cut_bottom_right(q: int, n: int, x: int, y: int) -> bool {
    x + 7 * n - y <= 0 || q * ((x + 7 * n - y) * (x + 7 * n - y)) < (q + 3 * n * x) * (q + 3
        * n * x)
}

pub open spec fn is_cut(q: int, n: int, x: int, y: int) -> bool {
    cut_top_left(q, n, x, y) || cut_top_right(q, n, x, y) || cut_bottom_left(q, n, x, y)
        || cut_bottom_right(q, n, x, y)
}

pub(crate) proof fn lemma_bound_mul(a: int, b: int, ma: int, mb: int) by (nonlinear_arith)
    requires
        0 <= a <= ma,
        0 <= b <= mb,
    ensures
        0 <= a * b <= ma * mb,
{
}

/// Decides `is_cut` exactly for scaled coordinates below `2^30` and `q` below `2^60`;
/// `lemma_is_cut_matches_lines` shows that this is the corner test of the four lines.
pub fn pixel_is_cut(q: i128, n: i128, x: i128, y: i128) -> (r: bool)
    requires
        0 <= q <= 0x1000_0000_0000_0000,
        0 <= n <= 0x4000_0000,
        0 <= x <= 0x4000_0000,
        0 <= y <= 0x4000_0000,
    ensures
        r == is_cut(q as int, n as int, x as int, y as int),
{
    proof {
        lemma_bound_mul(n as int, x as int, 0x4000_0000i128 as int, 0x4000_0000i128 as int);
    }
    let nx = n * x;
    let b1 = q + nx;
    let b3 = q + 3 * nx;
    proof {
        assert(3 * n * x == 3 * (n * x)) by (nonlinear_arith);
        lemma_bound_mul(b1 as int, b1 as int, 0x4000_0000_0000_0000i128 as int, 0x4000_0000_0000_0000i128 as int);
        lemma_bound_mul(b3 as int, b3 as int, 0x4000_0000_0000_0000i128 as int, 0x4000_0000_0000_0000i128 as int);
    }
    let s1 = b1 * b1;
    let s3 = b3 * b3;
    let a1 = x + y + n;
    let a2 = x + n - y;
    let a3 = x + y - n;
    let a4 = x + 7 * n - y;
    let a2abs = if a2 >= 0 { a2 } else { -a2 };
    let a3abs = if a3 >= 0 { a3 } else { -a3 };
    let a4abs = if a4 >= 0 { a4 } else { -a4 };
    proof {
        lemma_bound_mul(a1 as int, a1 as int, 0x2_0000_0000i128 as int, 0x2_0000_0000i128 as int);
        lemma_bound_mul(a2abs as int, a2abs as int, 0x2_0000_0000i128 as int, 0x2_0000_0000i128 as int);
        lemma_bound_mul(a3abs as int, a3abs as int, 0x2_0000_0000i128 as int, 0x2_0000_0000i128 as int);
        lemma_bound_mul(a4abs as int, a4abs as int, 0x2_0000_0000i128 as int, 0x2_0000_0000i128 as int);
        assert(a2 * a2 == a2abs * a2abs) by (nonlinear_arith)
            requires
                a2abs == a2 || a2abs == -a2,
        ;
        assert(a3 * a3 == a3abs * a3abs) by (nonlinear_arith)
            requires
                a3abs == a3 || a3abs == -a3,
        ;
        assert(a4 * a4 == a4abs * a4abs) by (nonlinear_arith)
            requires
                a4abs == a4 || a4abs == -a4,
        ;
    }
    let t1 = a1 * a1;
    let t2 = a2abs * a2abs;
    let t3 = a3abs * a3abs;
    let t4 = a4abs * a4abs;
    proof {
        lemma_bound_mul(q as int, t1 as int, 0x1000_0000_0000_0000i128 as int, 0x4_0000_0000_0000_0000i128 as int);
        lemma_bound_mul(q as int, t2 as int, 0x1000_0000_0000_0000i128 as int, 0x4_0000_0000_0000_0000i128 as int);
        lemma_bound_mul(q as int, t3 as int, 0x1000_0000_0000_0000i128 as int, 0x4_0000_0000_0000_0000i128 as int);
        lemma_bound_mul(q as int, t4 as int, 0x1000_0000_0000_0000i128 as int, 0x4_0000_0000_0000_0000i128 as int);
    }
    let tl = q * t1 <= s1;
    let tr = a2 > 0 && s1 <= q * t2;
    let bl = a3 > 0 && s3 < q * t3;
    let br = a4 <= 0 || q * t4 < s3;
    tl || tr || bl || br
}

/// Image height for radius `num / den`: `floor(2 * num / den)`.
pub fn image_height(num: u32, den: u32) -> (h: u64)
    requires
        den > 0,
    ensures
        h as int == (2 * num as int) / (den as int),
{
    (2 * (num as u64)) / (den as u64)
}

/// Image width for radius `num / den`, given `q = scaled_inradius_sq(num, den)`:
/// the largest `w` with `w * den <= sqrt(q)`, that is `floor(2 * inradius)`.
pub fn image_width(q: u64, den: u64) -> (w: u64)
    requires
        q < 0x1000_0000_0000_0000,
        0 < den < 0x10_0000,
    ensures
        (w * den) * (w * den) <= q < ((w + 1) * den) * ((w + 1) * den),
{
    let mut lo: u64 = 0;
    let mut hi: u64 = 0x8000_0000;
    proof {
        lemma_bound_mul(hi as int, den as int, 0x8000_0000, den as int);
        assert((hi * den) * (hi * den) >= hi * hi) by (nonlinear_arith)
            requires
                den >= 1,
                hi >= 0,
        ;
    }
    while lo + 1 < hi
        invariant
            lo < hi <= 0x8000_0000,
            0 < den < 0x10_0000,
            (lo * den) * (lo * den) <= q,
            q < (hi * den) * (hi * den),
        decreases hi - lo,
    {
        let mid = lo + (hi - lo) / 2;
        proof {
            lemma_bound_mul(mid as int, den as int, 0x8000_0000, 0x10_0000);
        }
        let md = (mid as u128) * (den as u128);
        proof {
            lemma_bound_mul(md as int, md as int, 0x8_0000_0000_0000u64 as int, 0x8_0000_0000_0000u64 as int);
        }
        if md * md <= q as u128 {
            lo = mid;
        } else {
            hi = mid;
        }
    }
    lo
}

proof fn lemma_cast_mul(a: int, b: int) by (nonlinear_arith)
    ensures
        (a * b) as real == (a as real) * (b as real),
{
}

/// An integer comparison of `q * s^2` with `b^2` is the real comparison of
/// `dd * a^2` with `bb^2`, when `q`, `s`, `b` are those reals scaled by `u^2`, `u`, `u^2`.
proof fn lemma_scaled_cmp(q: int, s: int, b: int, u: real, dd: real, a: real, bb: real)
    requires
        u > 0 as real,
        q as real == u * u * dd,
        s as real == u * a,
        b as real == u * u * bb,
    ensures
        (q * (s * s) <= b * b) == (dd * (a * a) <= bb * bb),
        (q * (s * s) < b * b) == (dd * (a * a) < bb * bb),
        (b * b <= q * (s * s)) == (bb * bb <= dd * (a * a)),
        (b * b < q * (s * s)) == (bb * bb < dd * (a * a)),
        (s > 0) == (a > 0 as real),
        (s <= 0) == (a <= 0 as real),
{
    lemma_cast_mul(s, s);
    lemma_cast_mul(q, s * s);
    lemma_cast_mul(b, b);
    let k = (u * u) * (u * u);
    assert(u * u > 0 as real) by (nonlinear_arith)
        requires
            u > 0 as real,
    ;
    assert(k > 0 as real) by (nonlinear_arith)
        requires
            u * u > 0 as real,
            k == (u * u) * (u * u),
    ;
    assert((q * (s * s)) as real == k * (dd * (a * a))) by (nonlinear_arith)
        requires
            (q * (s * s)) as real == (q as real) * ((s * s) as real),
            (s * s) as real == (s as real) * (s as real),
            q as real == u * u * dd,
            s as real == u * a,
            k == (u * u) * (u * u),
    ;
    assert((b * b) as real == k * (bb * bb)) by (nonlinear_arith)
        requires
            (b * b) as real == (b as real) * (b as real),
            b as real == u * u * bb,
            k == (u * u) * (u * u),
    ;
    lemma_scale(dd * (a * a), bb * bb, k);
    lemma_scale(bb * bb, dd * (a * a), k);
    assert((s > 0) == (a > 0 as real)) by (nonlinear_arith)
        requires
            s as real == u * a,
            u > 0 as real,
    ;
}

/// On the grid of pixel centres, the integer test `is_cut` (in units of
/// `1 / (2 * den)`) decides exactly whether the pixel lies in one of the four
/// corners cut away by the lines through the hexagon's vertices.
pub proof fn lemma_is_cut_matches_lines(num: int, den: int, px: int, py: int, i: real)
    requires
        num > 0,
        den > 0,
        px >= 0,
        py >= 0,
        i > 0 as real,
        is_inradius(num as real / den as real, i),
    ensures
        is_cut(scaled_inradius_sq(num, den), num, 2 * den * px, 2 * den * py) == should_be_alpha(
            num as real / den as real,
            i,
            Point::new(px as real, py as real),
        ),
{
    let r = num as real / den as real;
    let dd = inradius_sq(r);
    let x = px as real;
    let y = py as real;
    let u = 2 as real * (den as real);
    let q = scaled_inradius_sq(num, den);
    let xs = 2 * den * px;
    let ys = 2 * den * py;
    assert(r * (den as real) == num as real) by (nonlinear_arith)
        requires
            r == num as real / den as real,
            den as real > 0 as real,
    ;
    assert(r > 0 as real) by (nonlinear_arith)
        requires
            r * (den as real) == num as real,
            den as real > 0 as real,
            num as real > 0 as real,
    ;
    lemma_cast_mul(num, num);
    lemma_cast_mul(num, den);
    lemma_cast_mul(2 * den, px);
    lemma_cast_mul(2 * den, py);
    assert(q as real == u * u * dd) by (nonlinear_arith)
        requires
            q == 4 * num * num - 2 * num * den,
            (num * num) as real == (num as real) * (num as real),
            (num * den) as real == (num as real) * (den as real),
            r * (den as real) == num as real,
            dd == r * r - (2 as real * r / 2 as real) / 2 as real,
            u == 2 as real * (den as real),
    ;
    assert(xs as real == u * x);
    assert(ys as real == u * y);
    assert(num as real == u * (r / 2 as real)) by (nonlinear_arith)
        requires
            r * (den as real) == num as real,
            u == 2 as real * (den as real),
    ;
    lemma_cast_mul(num, xs);
    let b1 = q + num * xs;
    let b3 = q + 3 * num * xs;
    assert(3 * num * xs == 3 * (num * xs)) by (nonlinear_arith);
    assert(b1 as real == u * u * (dd + r * x / 2 as real)) by (nonlinear_arith)
        requires
            b1 as real == q as real + (num as real) * (xs as real),
            q as real == u * u * dd,
            xs as real == u * x,
            num as real == u * (r / 2 as real),
    ;
    assert(b3 as real == u * u * (dd + 3 as real * r * x / 2 as real)) by (nonlinear_arith)
        requires
            b3 as real == q as real + 3 as real * ((num as real) * (xs as real)),
            q as real == u * u * dd,
            xs as real == u * x,
            num as real == u * (r / 2 as real),
    ;
    assert(u > 0 as real);
    assert((xs + ys + num) as real == u * (x + y + r / 2 as real)) by (nonlinear_arith)
        requires
            xs as real == u * x,
            ys as real == u * y,
            num as real == u * (r / 2 as real),
    ;
    assert((xs + num - ys) as real == u * (x + r / 2 as real - y)) by (nonlinear_arith)
        requires
            xs as real == u * x,
            ys as real == u * y,
            num as real == u * (r / 2 as real),
    ;
    assert((xs + ys - num) as real == u * (x + y - r / 2 as real)) by (nonlinear_arith)
        requires
            xs as real == u * x,
            ys as real == u * y,
            num as real == u * (r / 2 as real),
    ;
    assert((xs + 7 * num - ys) as real == u * (x + 7 as real * r / 2 as real - y))
        by (nonlinear_arith)
        requires
            xs as real == u * x,
            ys as real == u * y,
            num as real == u * (r / 2 as real),
    ;
    lemma_scaled_cmp(q, xs + ys + num, b1, u, dd, x + y + r / 2 as real, dd + r * x / 2 as real);
    lemma_scaled_cmp(q, xs + num - ys, b1, u, dd, x + r / 2 as real - y, dd + r * x / 2 as real);
    lemma_scaled_cmp(
        q,
        xs + ys - num,
        b3,
        u,
        dd,
        x + y - r / 2 as real,
        dd + 3 as real * r * x / 2 as real,
    );
    lemma_scaled_cmp(
        q,
        xs + 7 * num - ys,
        b3,
        u,
        dd,
        x + 7 as real * r / 2 as real - y,
        dd + 3 as real * r * x / 2 as real,
    );
    lemma_top_left(r, i, x, y);
    lemma_top_right(r, i, x, y);
    lemma_bottom_left(r, i, x, y);
    lemma_bottom_right(r, i, x, y);
}

/// The image sides: `floor(2 * radius)` is `2 * num / den`, and `floor(2 * inradius)`
/// is the `w` that `image_width` returns.
pub proof fn lemma_dimensions(num: int, den: int, w: int, i: real)
    requires
        num > 0,
        den > 0,
        w >= 0,
        i > 0 as real,
        is_inradius(num as real / den as real, i),
        (w * den) * (w * den) <= scaled_inradius_sq(num, den) < ((w + 1) * den) * ((w + 1) * den),
    ensures
        (2 as real * (num as real / den as real)).floor() == (2 * num) / den,
        (2 as real * i).floor() == w,
{
    let r = num as real / den as real;
    let dr = den as real;
    let q = scaled_inradius_sq(num, den);
    assert(r * dr == num as real) by (nonlinear_arith)
        requires
            r == num as real / dr,
            dr > 0 as real,
    ;
    // height
    let k = (2 * num) / den;
    lemma_fundamental_div_mod(2 * num, den);
    lemma_mod_pos_bound(2 * num, den);
    let m = (2 * num) % den;
    lemma_cast_mul(den, k);
    assert(dr * (2 as real * r) == (2 * num) as real) by (nonlinear_arith)
        requires
            r * dr == num as real,
    ;
    assert(dr * (k as real) <= dr * (2 as real * r) && dr * (2 as real * r) < dr * ((k + 1) as real))
        by (nonlinear_arith)
        requires
            dr * (2 as real * r) == (2 * num) as real,
            (2 * num) as real == (den * k) as real + m as real,
            (den * k) as real == dr * (k as real),
            0 <= m < den,
            dr == den as real,
    ;
    lemma_scale(k as real, 2 as real * r, dr);
    lemma_scale(2 as real * r, (k + 1) as real, dr);
    let z = 2 as real * r;
    assert(z.floor() as real <= z && z < (z.floor() + 1) as real);
    // width
    let u = 2 as real * dr;
    lemma_cast_mul(num, num);
    lemma_cast_mul(num, den);
    assert(q as real == (u * i) * (u * i)) by (nonlinear_arith)
        requires
            q == 4 * num * num - 2 * num * den,
            (num * num) as real == (num as real) * (num as real),
            (num * den) as real == (num as real) * dr,
            r * dr == num as real,
            i * i == r * r - (2 as real * r / 2 as real) / 2 as real,
            u == 2 as real * dr,
    ;
    lemma_cast_mul(w, den);
    lemma_cast_mul(w * den, w * den);
    lemma_cast_mul(w + 1, den);
    lemma_cast_mul((w + 1) * den, (w + 1) * den);
    let a = (w as real) * dr;
    let b = ((w + 1) as real) * dr;
    let c = u * i;
    lemma_nonneg_mul(w as real, dr);
    lemma_nonneg_mul((w + 1) as real, dr);
    lemma_nonneg_mul(u, i);
    assert(a * a <= c * c && c * c < b * b);
    assert(a <= c) by (nonlinear_arith)
        requires
            a * a <= c * c,
            a >= 0 as real,
            c >= 0 as real,
    {
        if a > c {
            assert(a * a > c * c) by (nonlinear_arith)
                requires
                    a > c,
                    c >= 0 as real,
            ;
        }
    }
    assert(c < b) by (nonlinear_arith)
        requires
            c * c < b * b,
            b >= 0 as real,
            c >= 0 as real,
    {
        if c >= b {
            assert(c * c >= b * b) by (nonlinear_arith)
                requires
                    c >= b,
                    b >= 0 as real,
            ;
        }
    }
    assert(w as real <= 2 as real * i && 2 as real * i < (w + 1) as real) by (nonlinear_arith)
        requires
            a <= c,
            c < b,
            a == (w as real) * dr,
            b == ((w + 1) as real) * dr,
            c == 2 as real * dr * i,
            dr > 0 as real,
    ;
    let z2 = 2 as real * i;
    assert(z2.floor() as real <= z2 && z2 < (z2.floor() + 1) as real);
}

} // verus!
