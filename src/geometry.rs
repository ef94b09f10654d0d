//! Rectangles, rational centre points and the proportional crop rectangle.
use vstd::prelude::*;
use vstd::arithmetic::div_mod::{lemma_div_is_ordered, lemma_div_multiples_vanish, lemma_div_pos_is_pos, lemma_fundamental_div_mod, lemma_mod_bound};

verus! {

/// An axis-aligned rectangle in pixel units.
#[derive(Clone, Copy, Debug, PartialEq, Eq, Structural)]
pub struct Rect {
    pub left: u32,
    pub top: u32,
    pub width: u32,
    pub height: u32,
}

/// A point with non-negative rational coordinates `x_num / den`, `y_num / den`.
#[derive(Clone, Copy, Debug, PartialEq, Eq, Structural)]
pub struct Center {
    pub x_num: u128,
    pub y_num: u128,
    pub den: u64,
}

impl Rect {
    pub open spec fn full_spec(width: u32, height: u32) -> Rect {
        Rect { left: 0, top: 0, width, height }
    }

    /// The rectangle `[0, width) x [0, height)`.
    pub fn full(width: u32, height: u32) -> (r: Rect)
        ensures
            r == Rect::full_spec(width, height),
    {
        Rect { left: 0, top: 0, width, height }
    }
}

/// The crop rectangle handed to callers.
#[derive(Clone, Copy, Debug, PartialEq, Eq, Structural)]
pub struct CropRect {
    pub left: u32,
    pub top: u32,
    pub width: u32,
    pub height: u32,
}

impl CropRect {
    pub fn left(&self) -> (r: u32)
        ensures
            r == self.left,
    {
        self.left
    }

    pub fn top(&self) -> (r: u32)
        ensures
            r == self.top,
    {
        self.top
    }

    pub fn width(&self) -> (r: u32)
        ensures
            r == self.width,
    {
        self.width
    }

    pub fn height(&self) -> (r: u32)
        ensures
            r == self.height,
    {
        self.height
    }
}

impl Center {
    /// Whether the proportional crop of a `width x height` image can be
    /// centred here: each coordinate lies in the image or below `2^31`, the
    /// range of the drawing crate's pixel coordinates.
    pub open spec fn admissible(self, width: int, height: int) -> bool {
        &&& self.den >= 1
        &&& (self.x_num <= width * self.den || self.x_num < 0x8000_0000 * self.den)
        &&& (self.y_num <= height * self.den || self.y_num < 0x8000_0000 * self.den)
    }

    /// Whether the point lies in the closed box `[0, width] x [0, height]`.
    pub open spec fn within(self, width: int, height: int) -> bool {
        &&& self.den >= 1
        &&& self.x_num <= width * self.den
        &&& self.y_num <= height * self.den
    }

    /// Whether the point lies in the half-open box `[0, width) x [0, height)`.
    pub open spec fn strictly_within(self, width: int, height: int) -> bool {
        &&& self.den >= 1
        &&& self.x_num < width * self.den
        &&& self.y_num < height * self.den
    }
}

/// `r` clamped into `[lo, hi]` (with `lo <= hi`).
pub open spec fn clamp(r: int, lo: int, hi: int) -> int {
    if r < lo {
        lo
    } else if r > hi {
        hi
    } else {
        r
    }
}

pub open spec fn min3(a: int, b: int, c: int) -> int {
    if a <= b && a <= c {
        a
    } else if b <= c {
        b
    } else {
        c
    }
}

/// The candidate extent of the crop along one axis, scaled by `100 * den`:
/// the smallest of `dim * rate / 100`, `2 * c` and `2 * (dim - c)`, where the
/// centre coordinate is `c = center_num / den`.
pub open spec fn crop_extent(dim: int, center_num: int, den: int, rate: int) -> int {
    min3(dim * rate * den, 200 * center_num, 200 * (dim * den - center_num))
}

/// `c - extent / 2`, truncated toward zero (it is never negative).
pub open spec fn crop_start(center_num: int, den: int, extent: int) -> int {
    (200 * center_num - extent) / (200 * den)
}

/// The truncated extent, at least one pixel.
pub open spec fn crop_length(den: int, extent: int) -> int {
    let l = extent / (100 * den);
    if l < 1 {
        1
    } else {
        l
    }
}

/// The crop rectangle centred on `c` that covers `width_rate` and
/// `height_rate` percent of the image where the image edges allow it.
pub open spec fn crop_rect(img_w: int, img_h: int, c: Center, width_rate: int, height_rate: int) -> (int, int, int, int) {
    let ew = crop_extent(img_w, c.x_num as int, c.den as int, clamp(width_rate, 0, 100));
    let eh = crop_extent(img_h, c.y_num as int, c.den as int, clamp(height_rate, 0, 100));
    (
        crop_start(c.x_num as int, c.den as int, ew),
        crop_start(c.y_num as int, c.den as int, eh),
        crop_length(c.den as int, ew),
        crop_length(c.den as int, eh),
    )
}

pub open spec fn rect_tuple(r: Rect) -> (int, int, int, int) {
    (r.left as int, r.top as int, r.width as int, r.height as int)
}

pub(crate) proof fn lemma_floor_mul(a: int, d: int)
    requires
        a >= 0,
        d > 0,
    ensures
        d * (a / d) <= a,
        a / d >= 0,
{
    lemma_fundamental_div_mod(a, d);
    lemma_mod_bound(a, d);
    lemma_div_pos_is_pos(a, d);
}

/// Bounds on one axis of the crop: start and length stay inside
/// `[0, dim]`, and the rectangle ends inside the image when the centre lies
/// strictly before `dim`.
proof fn lemma_axis(dim: int, center_num: int, den: int, rate: int)
    requires
        dim >= 0,
        den >= 1,
        0 <= rate <= 100,
        0 <= center_num <= dim * den,
    ensures
        0 <= crop_extent(dim, center_num, den, rate) <= 200 * center_num,
        crop_extent(dim, center_num, den, rate) <= 100 * dim * den,
        0 <= crop_start(center_num, den, crop_extent(dim, center_num, den, rate)) <= dim,
        1 <= crop_length(den, crop_extent(dim, center_num, den, rate)) <= dim || dim == 0,
        center_num < dim * den ==> crop_start(center_num, den, crop_extent(dim, center_num, den, rate))
            + crop_length(den, crop_extent(dim, center_num, den, rate)) <= dim,
        crop_start(center_num, den, crop_extent(dim, center_num, den, rate))
            + crop_length(den, crop_extent(dim, center_num, den, rate)) <= dim + 1,
{
    let e = crop_extent(dim, center_num, den, rate);
    assert(dim * rate * den <= 100 * dim * den) by (nonlinear_arith)
        requires dim >= 0, den >= 1, rate <= 100;
    assert(dim * rate * den >= 0) by (nonlinear_arith)
        requires dim >= 0, den >= 1, rate >= 0;
    let big_d = 200 * den;
    let s = crop_start(center_num, den, e);
    lemma_floor_mul(200 * center_num - e, big_d);
    assert(s <= dim) by (nonlinear_arith)
        requires big_d * s <= 200 * center_num - e, e >= 0, center_num <= dim * den,
            big_d == 200 * den, den >= 1;
    let q = e / (100 * den);
    lemma_floor_mul(e, 100 * den);
    assert(q <= dim) by (nonlinear_arith)
        requires (100 * den) * q <= e, e <= 100 * dim * den, den >= 1;
    if center_num == dim * den {
        assert(e == 0);
        assert(q == 0) by {
            lemma_div_pos_is_pos(e, 100 * den);
            assert(0int / (100 * den) == 0);
        }
    }
    if center_num < dim * den {
        if q >= 1 {
            assert(s + q <= dim) by (nonlinear_arith)
                requires
                    big_d * s <= 200 * center_num - e,
                    (100 * den) * q <= e,
                    e <= 200 * (dim * den - center_num),
                    big_d == 200 * den,
                    den >= 1,
            ;
        } else {
            assert(s < dim) by (nonlinear_arith)
                requires
                    big_d * s <= 200 * center_num - e,
                    e >= 0,
                    center_num < dim * den,
                    big_d == 200 * den,
                    den >= 1,
            ;
        }
    }
}

/// A percentage clamped into `[lo, 100]`.
pub fn clamp_rate(rate: i32, lo: u32) -> (r: u32)
    requires
        lo <= 100,
    ensures
        r == clamp(rate as int, lo as int, 100),
{
    if rate < lo as i32 {
        lo
    } else if rate > 100 {
        100
    } else {
        rate as u32
    }
}

/// `e / d < 0` for a negative `e` and a positive `d`.
proof fn lemma_negative_div(e: int, d: int)
    requires
        e < 0,
        d > 0,
    ensures
        e / d < 0,
{
    lemma_fundamental_div_mod(e, d);
    lemma_mod_bound(e, d);
    let q = e / d;
    assert(q < 0) by (nonlinear_arith)
        requires
            e == d * q + e % d,
            e % d >= 0,
            e < 0,
            d > 0,
    ;
}

fn axis(dim: u32, center_num: u128, den: u64, rate: u32) -> (r: (u32, u32))
    requires
        den >= 1,
        rate <= 100,
        center_num <= dim * den || center_num < 0x8000_0000 * den,
    ensures
        r.0 == crop_start(center_num as int, den as int, crop_extent(dim as int, center_num as int, den as int, rate as int)),
        r.1 == crop_length(den as int, crop_extent(dim as int, center_num as int, den as int, rate as int)),
{
    proof {
        assert(dim * den <= 0xffff_ffff * 0xffff_ffff_ffff_ffff) by (nonlinear_arith)
            requires dim <= 0xffff_ffff, den <= 0xffff_ffff_ffff_ffff;
        assert(dim * rate <= 0xffff_ffff * 100) by (nonlinear_arith)
            requires dim <= 0xffff_ffff, rate <= 100;
        assert(dim * rate * den <= 0xffff_ffff * 100 * 0xffff_ffff_ffff_ffff) by (nonlinear_arith)
            requires dim * rate <= 0xffff_ffff * 100, den <= 0xffff_ffff_ffff_ffff, dim * rate >= 0;
        assert(dim * rate * den >= 0) by (nonlinear_arith)
            requires dim >= 0, den >= 1, rate >= 0;
    }
    let d = dim as u128;
    let n = den as u128;
    let before = 200 * center_num;
    if center_num > d * n {
        // beyond the far edge: the extent `200 * (d * n - c)` is negative
        let ghost e = 200 * (d * n - center_num);
        proof {
            assert(crop_extent(dim as int, center_num as int, den as int, rate as int) == e);
            assert(200 * d * n == 200 * (d * n)) by (nonlinear_arith);
            lemma_negative_div(e, 100 * den);
            lemma_floor_mul(400 * center_num - 200 * d * n, 200 * den);
            let s = (400 * center_num - 200 * d * n) / (200 * den);
            assert(200 * center_num - e == 400 * center_num - 200 * d * n) by (nonlinear_arith)
                requires e == 200 * (d * n - center_num);
            assert(s < 0x1_0000_0000) by (nonlinear_arith)
                requires
                    (200 * den) * s <= 400 * center_num - 200 * d * n,
                    d * n >= 0,
                    center_num < 0x8000_0000 * den,
                    den >= 1,
            ;
        }
        let start = (2 * before - 200 * d * n) / (200 * n);
        return (start as u32, 1);
    }
    proof {
        lemma_axis(dim as int, center_num as int, den as int, rate as int);
    }
    let by_rate = d * (rate as u128) * n;
    let after = 200 * (d * n - center_num);
    let mut e = by_rate;
    if before < e {
        e = before;
    }
    if after < e {
        e = after;
    }
    let start = (before - e) / (200 * n);
    let len = e / (100 * n);
    let len = if len < 1 { 1 } else { len };
    (start as u32, len as u32)
}

/// The proportional crop rectangle: centred on `c`, at most `width_rate`
/// (`height_rate`) percent of the image width (height), and no wider than
/// twice the distance from the centre to the nearer edge. Rates are clamped
/// into `[0, 100]`; start and size are truncated toward zero, and each size
/// is at least one pixel. A centre beyond the image gives a one-pixel
/// side that starts past the far edge.
pub fn calculate_crop_area(img_w: u32, img_h: u32, c: Center, width_rate: i32, height_rate: i32) -> (r: Rect)
    requires
        c.admissible(img_w as int, img_h as int),
    ensures
        rect_tuple(r) == crop_rect(img_w as int, img_h as int, c, width_rate as int, height_rate as int),
        1 <= r.width,
        1 <= r.height,
        c.within(img_w as int, img_h as int) ==> {
            &&& r.left <= img_w
            &&& r.top <= img_h
            &&& (img_w >= 1 ==> r.width <= img_w)
            &&& (img_h >= 1 ==> r.height <= img_h)
            &&& r.left + r.width <= img_w + 1
            &&& r.top + r.height <= img_h + 1
        },
        c.x_num > img_w * c.den ==> r.left >= img_w,
        c.y_num > img_h * c.den ==> r.top >= img_h,
{
    proof {
        lemma_crop_facts(img_w as int, c.x_num as int, c.den as int, clamp(width_rate as int, 0, 100));
        lemma_crop_facts(img_h as int, c.y_num as int, c.den as int, clamp(height_rate as int, 0, 100));
    }
    let wr = clamp_rate(width_rate, 0);
    let hr = clamp_rate(height_rate, 0);
    let (left, width) = axis(img_w, c.x_num, c.den, wr);
    let (top, height) = axis(img_h, c.y_num, c.den, hr);
    Rect { left, top, width, height }
}

/// The bounds of one axis of the crop for a centre anywhere to the right of 0.
proof fn lemma_crop_facts(dim: int, center_num: int, den: int, rate: int)
    requires
        dim >= 0,
        den >= 1,
        0 <= rate <= 100,
        center_num >= 0,
    ensures
        crop_length(den, crop_extent(dim, center_num, den, rate)) >= 1,
        center_num <= dim * den ==> {
            &&& 0 <= crop_start(center_num, den, crop_extent(dim, center_num, den, rate)) <= dim
            &&& (dim >= 1 ==> crop_length(den, crop_extent(dim, center_num, den, rate)) <= dim)
            &&& crop_start(center_num, den, crop_extent(dim, center_num, den, rate))
                + crop_length(den, crop_extent(dim, center_num, den, rate)) <= dim + 1
        },
        center_num > dim * den ==> crop_start(center_num, den, crop_extent(dim, center_num, den, rate)) >= dim,
{
    if center_num <= dim * den {
        lemma_axis(dim, center_num, den, rate);
    } else {
        assert(dim * rate * den >= 0) by (nonlinear_arith)
            requires dim >= 0, den >= 1, rate >= 0;
        let e = 200 * (dim * den - center_num);
        assert(crop_extent(dim, center_num, den, rate) == e);
        let a = 400 * center_num - 200 * dim * den;
        assert(200 * center_num - e == a) by (nonlinear_arith)
            requires e == 200 * (dim * den - center_num), a == 400 * center_num - 200 * dim * den;
        assert(a >= 200 * den * dim) by (nonlinear_arith)
            requires center_num > dim * den, a == 400 * center_num - 200 * dim * den;
        lemma_div_is_ordered(200 * den * dim, a, 200 * den);
        lemma_div_multiples_vanish(dim, 200 * den);
        assert((200 * den) * dim == 200 * den * dim) by (nonlinear_arith);
    }
}

/// Every crop rectangle is at least one pixel in each direction, starts
/// inside the image, and ends inside it when the centre lies in the image
/// (`0 <= x < width`, `0 <= y < height`), for every pair of rates.
pub proof fn lemma_crop_inside_image(img_w: u32, img_h: u32, c: Center, width_rate: i32, height_rate: i32)
    requires
        c.strictly_within(img_w as int, img_h as int),
    ensures
        ({
            let (left, top, width, height) = crop_rect(img_w as int, img_h as int, c, width_rate as int, height_rate as int);
            &&& 0 <= left
            &&& 0 <= top
            &&& width >= 1
            &&& height >= 1
            &&& left + width <= img_w
            &&& top + height <= img_h
        }),
{
    lemma_axis(img_w as int, c.x_num as int, c.den as int, clamp(width_rate as int, 0, 100));
    lemma_axis(img_h as int, c.y_num as int, c.den as int, clamp(height_rate as int, 0, 100));
}

} // verus!
