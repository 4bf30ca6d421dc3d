use vstd::arithmetic::div_mod::{lemma_fundamental_div_mod, lemma_mod_bound};
use crate::rotation::RotationAngle;
use vstd::prelude::*;

verus! {

/// The largest pixel or point-unit extent the mapper accepts on either axis.
pub const MAX_EXTENT: u32 = 0xff_ffff;

/// The point-space size of an upright page, the rotation it was rendered
/// at (clockwise), and the pixel size of the resulting bitmap. Point space
/// has its origin at the page's bottom-left corner; pixel space has its
/// origin at the bitmap's top-left corner.
#[derive(Clone, Copy, Debug, PartialEq, Eq, Structural)]
pub struct PageGeometry {
    pub page_width: u32,
    pub page_height: u32,
    pub bitmap_width: u32,
    pub bitmap_height: u32,
    pub rotation: RotationAngle,
}

/// A rectangle in point space, measured from the page's bottom-left origin.
#[derive(Clone, Copy, Debug, PartialEq, Eq, Structural)]
pub struct PointRect {
    pub left: i32,
    pub bottom: i32,
    pub right: i32,
    pub top: i32,
}

/// An axis-aligned rectangle in the rendered bitmap's pixel space.
#[derive(Clone, Copy, Debug, PartialEq, Eq, Structural)]
pub struct TextBounds {
    pub x: i64,
    pub y: i64,
    pub width: i64,
    pub height: i64,
}

/// Left, bottom, right and top of a rectangle, as mathematical integers.
pub struct Sides {
    pub left: int,
    pub bottom: int,
    pub right: int,
    pub top: int,
}

impl PageGeometry {
    /// All four extents are positive and within the accepted range.
    pub open spec fn wf(&self) -> bool {
        &&& 0 < self.page_width <= MAX_EXTENT
        &&& 0 < self.page_height <= MAX_EXTENT
        &&& 0 < self.bitmap_width <= MAX_EXTENT
        &&& 0 < self.bitmap_height <= MAX_EXTENT
    }

    /// The width of the page as it lies after rotation.
    pub open spec fn placed_width(&self) -> int {
        if self.rotation.is_quarter() {
            self.page_height as int
        } else {
            self.page_width as int
        }
    }

    /// The height of the page as it lies after rotation.
    pub open spec fn placed_height(&self) -> int {
        if self.rotation.is_quarter() {
            self.page_width as int
        } else {
            self.page_height as int
        }
    }

    /// A rectangle of the upright page in the point space of the page as it
    /// lies after rotation (a quarter turn clockwise sends `(x, y)` to
    /// `(y, width − x)`).
    pub open spec fn turn(&self, r: PointRect) -> Sides {
        let w = self.page_width as int;
        let h = self.page_height as int;
        match self.rotation {
            RotationAngle::Rotate0 => Sides {
                left: r.left as int,
                bottom: r.bottom as int,
                right: r.right as int,
                top: r.top as int,
            },
            RotationAngle::Rotate90 => Sides { left: r.bottom as int, bottom: w - r.right, right: r.top as int, top: w - r.left },
            RotationAngle::Rotate180 => Sides { left: w - r.right, bottom: h - r.top, right: w - r.left, top: h - r.bottom },
            RotationAngle::Rotate270 => Sides { left: h - r.top, bottom: r.left as int, right: h - r.bottom, top: r.right as int },
        }
    }

    /// A point-space length along the placed page's x axis, scaled to pixels
    /// and rounded down.
    pub open spec fn scale_x(&self, d: int) -> int {
        (d * self.bitmap_width) / self.placed_width()
    }

    /// A point-space length along the placed page's y axis, scaled to pixels
    /// and rounded down.
    pub open spec fn scale_y(&self, d: int) -> int {
        (d * self.bitmap_height) / self.placed_height()
    }

    /// The pixel-space rectangle of a point-space rectangle of the upright page.
    pub open spec fn map_spec(&self, r: PointRect) -> TextBounds {
        let t = self.turn(r);
        TextBounds {
            x: self.scale_x(t.left) as i64,
            y: (self.bitmap_height - self.scale_y(t.top)) as i64,
            width: self.scale_x(t.right - t.left) as i64,
            height: self.scale_y(t.top - t.bottom) as i64,
        }
    }

    /// Maps a point-space rectangle of the upright page into the bitmap's
    /// pixel space: the rectangle is turned with the page, then
    /// `x = left·sx`, `y = bitmap_height − top·sy`, `width = (right − left)·sx`,
    /// `height = (top − bottom)·sy`, with `sx = bitmap_width / placed_width`
    /// and `sy = bitmap_height / placed_height`, each product rounded down.
    pub fn map_rect(&self, r: PointRect) -> (b: TextBounds)
        requires
            self.wf(),
        ensures
            b == self.map_spec(r),
    {
        let w = self.page_width as i64;
        let h = self.page_height as i64;
        let (left, bottom, right, top): (i64, i64, i64, i64) = match self.rotation {
            RotationAngle::Rotate0 => (r.left as i64, r.bottom as i64, r.right as i64, r.top as i64),
            RotationAngle::Rotate90 => (r.bottom as i64, w - r.right as i64, r.top as i64, w - r.left as i64),
            RotationAngle::Rotate180 => (w - r.right as i64, h - r.top as i64, w - r.left as i64, h - r.bottom as i64),
            RotationAngle::Rotate270 => (h - r.top as i64, r.left as i64, h - r.bottom as i64, r.right as i64),
        };
        let (pw, ph): (i64, i64) = match self.rotation {
            RotationAngle::Rotate90 | RotationAngle::Rotate270 => (h, w),
            _ => (w, h),
        };
        let bw = self.bitmap_width as i64;
        let bh = self.bitmap_height as i64;
        proof {
            let t = self.turn(r);
            assert(t.left == left && t.bottom == bottom && t.right == right && t.top == top);
            assert(pw == self.placed_width() && ph == self.placed_height());
            lemma_scale_bounds(bw as int, pw as int, left as int);
            lemma_scale_bounds(bh as int, ph as int, top as int);
            lemma_scale_bounds(bw as int, pw as int, right - left);
            lemma_scale_bounds(bh as int, ph as int, top - bottom);
        }
        let x = floor_div(left * bw, pw);
        let y = bh - floor_div(top * bh, ph);
        let width = floor_div((right - left) * bw, pw);
        let height = floor_div((top - bottom) * bh, ph);
        TextBounds { x, y, width, height }
    }
}

/// The products and quotients of the mapping stay inside `i64`.
proof fn lemma_scale_bounds(b: int, p: int, d: int)
    requires
        0 < b <= MAX_EXTENT,
        0 < p <= MAX_EXTENT,
        -0x1_0000_0000 <= d <= 0x1_0000_0000,
    ensures
        -0x100_0000_0000_0000 < d * b < 0x100_0000_0000_0000,
        d * b >= 0 ==> 0 <= (d * b) / p <= d * b,
        d * b < 0 ==> d * b <= (d * b) / p < 0,
{
    assert(-0x1_0000_0000 * MAX_EXTENT <= d * b <= 0x1_0000_0000 * MAX_EXTENT) by (nonlinear_arith)
        requires
            0 < b <= MAX_EXTENT,
            -0x1_0000_0000 <= d <= 0x1_0000_0000,
    ;
    lemma_floor_brackets(d * b, p);
    let q = (d * b) / p;
    assert(q * p + p == (q + 1) * p) by (nonlinear_arith);
    if d * b >= 0 {
        if q < 0 {
            assert((q + 1) * p <= 0) by (nonlinear_arith)
                requires
                    q + 1 <= 0,
                    p >= 1,
            ;
        }
        assert(q * p >= q) by (nonlinear_arith)
            requires
                q >= 0,
                p >= 1,
        ;
    } else {
        if q >= 0 {
            assert(q * p >= 0) by (nonlinear_arith)
                requires
                    q >= 0,
                    p >= 1,
            ;
        }
        assert((q + 1) * (p - 1) <= 0) by (nonlinear_arith)
            requires
                q + 1 <= 0,
                p >= 1,
        ;
        assert((q + 1) * (p - 1) == (q + 1) * p - q - 1) by (nonlinear_arith);
        assert(q * p <= q) by (nonlinear_arith)
            requires
                q < 0,
                p >= 1,
        ;
    }
}

/// Every field of a mapped rectangle lies well inside `i64`.
pub(crate) proof fn lemma_map_bounds(g: PageGeometry, r: PointRect)
    requires
        g.wf(),
    ensures
        -0x100_0000_0000_0000 < g.map_spec(r).x < 0x100_0000_0000_0000,
        -0x200_0000_0000_0000 < g.map_spec(r).y < 0x200_0000_0000_0000,
        -0x100_0000_0000_0000 < g.map_spec(r).width < 0x100_0000_0000_0000,
        -0x100_0000_0000_0000 < g.map_spec(r).height < 0x100_0000_0000_0000,
{
    let t = g.turn(r);
    let bw = g.bitmap_width as int;
    let bh = g.bitmap_height as int;
    lemma_scale_bounds(bw, g.placed_width(), t.left);
    lemma_scale_bounds(bh, g.placed_height(), t.top);
    lemma_scale_bounds(bw, g.placed_width(), t.right - t.left);
    lemma_scale_bounds(bh, g.placed_height(), t.top - t.bottom);
}

/// Division rounded towards negative infinity.
fn floor_div(n: i64, d: i64) -> (q: i64)
    requires
        d > 0,
        n > i64::MIN,
    ensures
        q == n / d,
{
    if n >= 0 {
        ((n as u64) / (d as u64)) as i64
    } else {
        let m = (-n) as u64;
        let dd = d as u64;
        let t = m / dd;
        let rem = m % dd;
        proof {
            lemma_floor_brackets(m as int, dd as int);
        }
        if rem == 0 {
            proof {
                assert(n == -(t * dd));
                assert(n == (-(t as int)) * d) by (nonlinear_arith)
                    requires n == -(t * dd), d == dd;
                lemma_unique_quotient(n as int, d as int, -(t as int), 0);
            }
            -(t as i64)
        } else {
            proof {
                assert(n == -(t * dd) - rem);
                assert(n == (-(t as int) - 1) * d + (d - rem)) by (nonlinear_arith)
                    requires n == -(t * dd) - rem, d == dd;
                lemma_unique_quotient(n as int, d as int, -(t as int) - 1, d - rem);
            }
            -(t as i64) - 1
        }
    }
}

/// A quotient and remainder in range are the ones division gives.
proof fn lemma_unique_quotient(n: int, d: int, q: int, r: int)
    requires
        d > 0,
        0 <= r < d,
        n == q * d + r,
    ensures
        n / d == q,
{
    lemma_floor_brackets(n, d);
    let q0 = n / d;
    let r0 = n % d;
    assert(q0 * d + r0 == q * d + r);
    if q0 > q {
        assert((q0 - q) * d >= d) by (nonlinear_arith)
            requires q0 - q >= 1, d > 0;
        assert((q0 - q) * d == q0 * d - q * d) by (nonlinear_arith);
    } else if q0 < q {
        assert((q - q0) * d >= d) by (nonlinear_arith)
            requires q - q0 >= 1, d > 0;
        assert((q - q0) * d == q * d - q0 * d) by (nonlinear_arith);
    }
}

/// Mapping a rectangle to pixels and back loses less than one pixel's worth
/// of point-space length on each coordinate: scaling a device value back by
/// the inverse factor gives the (turned) point-space input, rounded down to
/// a whole pixel. For an upright page the turned sides are the rectangle's
/// own.
pub proof fn lemma_mapping_round_trip(g: PageGeometry, r: PointRect)
    requires
        g.wf(),
    ensures
        ({
            let b = g.map_spec(r);
            let t = g.turn(r);
            let pw = g.placed_width();
            let ph = g.placed_height();
            let bw = g.bitmap_width as int;
            let bh = g.bitmap_height as int;
            &&& b.x * pw <= t.left * bw < b.x * pw + pw
            &&& (bh - b.y) * ph <= t.top * bh < (bh - b.y) * ph + ph
            &&& b.width * pw <= (t.right - t.left) * bw < b.width * pw + pw
            &&& b.height * ph <= (t.top - t.bottom) * bh < b.height * ph + ph
            &&& (b.x + b.width) * pw <= t.right * bw < (b.x + b.width) * pw + 2 * pw
            &&& (bh - b.y - b.height) * ph - ph < t.bottom * bh < (bh - b.y - b.height) * ph + ph
        }),
        g.rotation == RotationAngle::Rotate0 ==> g.turn(r) == (Sides {
            left: r.left as int,
            bottom: r.bottom as int,
            right: r.right as int,
            top: r.top as int,
        }),
{
    let t = g.turn(r);
    let pw = g.placed_width();
    let ph = g.placed_height();
    let bw = g.bitmap_width as int;
    let bh = g.bitmap_height as int;
    lemma_scale_bounds(bw, pw, t.left);
    lemma_scale_bounds(bh, ph, t.top);
    lemma_scale_bounds(bw, pw, t.right - t.left);
    lemma_scale_bounds(bh, ph, t.top - t.bottom);
    lemma_floor_brackets(t.left * bw, pw);
    lemma_floor_brackets(t.top * bh, ph);
    lemma_floor_brackets((t.right - t.left) * bw, pw);
    lemma_floor_brackets((t.top - t.bottom) * bh, ph);
    let b = g.map_spec(r);
    assert((t.right - t.left) * bw == t.right * bw - t.left * bw) by (nonlinear_arith);
    assert((t.top - t.bottom) * bh == t.top * bh - t.bottom * bh) by (nonlinear_arith);
    assert((b.x + b.width) * pw == b.x * pw + b.width * pw) by (nonlinear_arith);
    assert((bh - b.y - b.height) * ph == (bh - b.y) * ph - b.height * ph) by (nonlinear_arith);
}

/// On an upright page the mapping inverts with the page's own scales
/// `sx = bitmap_width / page_width` and `sy = bitmap_height / page_height`:
/// `x / sx` recovers `left`, `(x + width) / sx` recovers `right`,
/// `(bitmap_height − y) / sy` recovers `top` and
/// `(bitmap_height − y − height) / sy` recovers `bottom`, each to within the
/// point-space length of one or two pixels.
pub proof fn lemma_upright_round_trip(g: PageGeometry, r: PointRect)
    requires
        g.wf(),
        g.rotation == RotationAngle::Rotate0,
    ensures
        ({
            let b = g.map_spec(r);
            let pw = g.page_width as int;
            let ph = g.page_height as int;
            let bw = g.bitmap_width as int;
            let bh = g.bitmap_height as int;
            &&& b.x * pw <= r.left * bw < b.x * pw + pw
            &&& (b.x + b.width) * pw <= r.right * bw < (b.x + b.width) * pw + 2 * pw
            &&& (bh - b.y) * ph <= r.top * bh < (bh - b.y) * ph + ph
            &&& (bh - b.y - b.height) * ph - ph < r.bottom * bh < (bh - b.y - b.height) * ph + ph
        }),
{
    lemma_mapping_round_trip(g, r);
}

/// A rounded-down quotient brackets its dividend.
proof fn lemma_floor_brackets(n: int, d: int)
    requires
        d > 0,
    ensures
        (n / d) * d <= n < (n / d) * d + d,
        n == (n / d) * d + n % d,
        0 <= n % d < d,
{
    lemma_fundamental_div_mod(n, d);
    lemma_mod_bound(n, d);
    assert(d * (n / d) == (n / d) * d) by (nonlinear_arith);
}

} // verus!
