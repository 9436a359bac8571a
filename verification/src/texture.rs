use vstd::prelude::*;
use crate::common::UNITS_PER_WORLD;
use crate::vec3::{Color, Point3, Vec3};

verus! {

/// A texture of one colour everywhere.
#[derive(Clone, Copy, Debug, PartialEq, Eq, Structural)]
pub struct SolidColor {
    pub albedo: Color,
}

impl SolidColor {
    pub fn new(albedo: Color) -> (r: SolidColor)
        ensures
            r.albedo == albedo,
    {
        SolidColor { albedo }
    }

    /// The colour with the given channels (fixed point).
    pub fn from_rgb(red: i32, green: i32, blue: i32) -> (r: SolidColor)
        ensures
            r.albedo == (Vec3 { e0: red, e1: green, e2: blue }),
    {
        SolidColor { albedo: Color::new(red, green, blue) }
    }

    /// The colour at surface coordinates `(u, v)` and point `p`: always the albedo.
    pub fn value(&self, u: i64, v: i64, p: &Point3) -> (r: Color)
        ensures
            r == self.albedo,
    {
        self.albedo
    }
}

/// The checker cell of a coordinate for squares of side `scale`:
/// `floor(c / scale)` (a negative side mirrors the pattern). A side of zero
/// scales by an infinite factor: the cell is the largest `i32` on the
/// positive side, the smallest on the negative side, and 0 at 0.
pub open spec fn checker_cell(c: int, scale: int) -> int {
    if scale > 0 {
        c / scale
    } else if scale < 0 {
        (-c) / (-scale)
    } else if c > 0 {
        i32::MAX as int
    } else if c < 0 {
        i32::MIN as int
    } else {
        0
    }
}

/// The cell for a side of zero.
fn infinite_cell(c: i32) -> (r: i128)
    ensures
        r == checker_cell(c as int, 0),
{
    if c > 0 {
        i32::MAX as i128
    } else if c < 0 {
        i32::MIN as i128
    } else {
        0
    }
}

/// Whether a 3D checker pattern of cubes of side `scale` is on an even cube
/// at `p`: the sum of the three cell indices is even.
pub open spec fn spec_checker_even(scale: int, p: Point3) -> bool {
    (checker_cell(p.e0 as int, scale) + checker_cell(p.e1 as int, scale) + checker_cell(
        p.e2 as int,
        scale,
    )) % 2 == 0
}

/// `floor(c / scale)` for a positive `scale`.
fn floor_div(c: i128, scale: i128) -> (r: i128)
    requires
        scale > 0,
        -0x8000_0000 <= c <= 0x8000_0000,
    ensures
        r == (c as int) / (scale as int),
        -0x1_0000_0000 <= r <= 0x1_0000_0000,
{
    let ci = c;
    let q: i128;
    if ci >= 0 {
        q = ci / scale;
        proof {
            assert(0 <= q <= ci) by (nonlinear_arith)
                requires
                    ci >= 0,
                    scale > 0,
                    q == ci / scale,
            ;
        }
    } else {
        // floor(c / s) = -ceil(-c / s)
        let m: i128 = -ci;
        let a: i128 = m / scale;
        let b: i128 = m % scale;
        proof {
            let ms = m as int;
            let ss = scale as int;
            vstd::arithmetic::div_mod::lemma_fundamental_div_mod(ms, ss);
            vstd::arithmetic::div_mod::lemma_mod_bound(ms, ss);
            assert(0 <= a <= ms) by (nonlinear_arith)
                requires
                    ms >= 1,
                    ss >= 1,
                    a == ms / ss,
            ;
            if b == 0 {
                assert(ci as int == (-(a as int)) * ss + 0) by (nonlinear_arith)
                    requires
                        ms == ss * a + b,
                        b == 0,
                        ci == -ms,
                ;
                vstd::arithmetic::div_mod::lemma_fundamental_div_mod_converse(ci as int, ss, -(a as int), 0);
            } else {
                assert(ci as int == (-(a as int) - 1) * ss + (ss - b)) by (nonlinear_arith)
                    requires
                        ms == ss * a + b,
                        ci == -ms,
                ;
                vstd::arithmetic::div_mod::lemma_fundamental_div_mod_converse(ci as int, ss, -(a as int) - 1, ss - b);
            }
        }
        if b == 0 {
            q = -a;
        } else {
            q = -a - 1;
        }
    }
    q
}

/// The checker cell parity of `p` for cubes of side `scale` (fixed point):
/// `true` on even cubes, which take the even texture.
pub fn checker_even(scale: i64, p: &Point3) -> (r: bool)
    ensures
        r == spec_checker_even(scale as int, *p),
{
    let s: i128 = if scale >= 0 { scale as i128 } else { -(scale as i128) };
    let x = if scale > 0 {
        floor_div(p.x() as i128, s)
    } else if scale < 0 {
        floor_div(-(p.x() as i128), s)
    } else {
        infinite_cell(p.x())
    };
    let y = if scale > 0 {
        floor_div(p.y() as i128, s)
    } else if scale < 0 {
        floor_div(-(p.y() as i128), s)
    } else {
        infinite_cell(p.y())
    };
    let z = if scale > 0 {
        floor_div(p.z() as i128, s)
    } else if scale < 0 {
        floor_div(-(p.z() as i128), s)
    } else {
        infinite_cell(p.z())
    };
    let sum: i128 = x + y + z;
    let rem: i128 = if sum >= 0 { sum % 2 } else { (-sum) % 2 };
    proof {
        if sum < 0 {
            vstd::arithmetic::div_mod::lemma_fundamental_div_mod(-(sum as int), 2);
            vstd::arithmetic::div_mod::lemma_fundamental_div_mod(sum as int, 2);
            vstd::arithmetic::div_mod::lemma_mod_bound(-(sum as int), 2);
            vstd::arithmetic::div_mod::lemma_mod_bound(sum as int, 2);
        }
    }
    rem == 0
}

} // verus!

verus! {

/// An image texture: `width * height` pixels, row by row from the top, three
/// bytes (red, green, blue) per pixel.
/// What `image` decodes an encoded image file to, as 8-bit RGB: its width,
/// its height and its pixels row by row, three bytes each; `None` when the
/// bytes do not decode.
pub uninterp spec fn decoded_rgb8(bytes: Seq<u8>) -> Option<(u32, u32, Seq<u8>)>;

/// Calls `image::load_from_memory` on the bytes (the format guessed from
/// their content), then `DynamicImage::into_rgb8`, `ImageBuffer::dimensions`
/// and `ImageBuffer::into_raw`. The contract claims only that the result is
/// `decoded_rgb8` of the bytes, a function of the bytes alone: what the
/// decoders compute is not stated.
#[verifier::external_body]
fn decode_rgb8(bytes: &[u8]) -> (r: Option<(u32, u32, Vec<u8>)>)
    ensures
        decoded_view(r) == decoded_rgb8(bytes@),
{
    match image::load_from_memory(bytes) {
        Ok(img) => {
            let rgb = img.into_rgb8();
            let (w, h) = rgb.dimensions();
            Some((w, h, rgb.into_raw()))
        },
        Err(_) => None,
    }
}

/// A decoded image with its pixels as a sequence.
pub open spec fn decoded_view(d: Option<(u32, u32, Vec<u8>)>) -> Option<(u32, u32, Seq<u8>)> {
    match d {
        Option::Some((w, h, px)) => Some((w, h, px@)),
        Option::None => None,
    }
}

/// The width, height and pixels of the texture over a decoded image: none
/// when there is no image or when the pixels are not three bytes for each
/// of the `width * height` pixels.
pub open spec fn texture_of(d: Option<(u32, u32, Seq<u8>)>) -> Option<(int, int, Seq<u8>)> {
    match d {
        Option::Some((w, h, px)) => if px.len() == 3 * w * h {
            Some((w as int, h as int, px))
        } else {
            None
        },
        Option::None => None,
    }
}

/// The width, height and pixels of a texture, if there is one.
pub open spec fn texture_view(t: Option<ImageTexture>) -> Option<(int, int, Seq<u8>)> {
    match t {
        Option::Some(t) => Some((t.spec_width(), t.spec_height(), t.spec_data())),
        Option::None => None,
    }
}

pub struct ImageTexture {
    width: u32,
    height: u32,
    data: Vec<u8>,
}

/// The pixel column (or row) for a texture coordinate `t` in `[0, UNITS_PER_WORLD]`
/// on an axis of `n` pixels: `floor(t * n)`, kept below `n`.
pub open spec fn pixel_index(t: int, n: int) -> int {
    let k = (t * n) / (UNITS_PER_WORLD as int);
    if k < n - 1 {
        k
    } else {
        n - 1
    }
}

/// A byte `b` of a pixel as a colour channel: `b / 255` in fixed point, rounded down.
pub open spec fn channel(b: int) -> int {
    (b * UNITS_PER_WORLD) / 255
}

impl ImageTexture {
    pub closed spec fn spec_width(self) -> int {
        self.width as int
    }

    pub closed spec fn spec_height(self) -> int {
        self.height as int
    }

    pub closed spec fn spec_data(self) -> Seq<u8> {
        self.data@
    }

    /// The texture over an image of `width * height` pixels given as
    /// `data` (row by row from the top, three bytes per pixel).
    pub fn new(width: u32, height: u32, data: Vec<u8>) -> (r: ImageTexture)
        requires
            data.len() == 3 * width * height,
        ensures
            r.spec_width() == width,
            r.spec_height() == height,
            r.spec_data() == data@,
    {
        ImageTexture { width, height, data }
    }

    /// The colour of the pixel in column `c` of row `j` (rows from the top).
    pub open spec fn pixel_color(self, c: int, j: int) -> Color {
        let base = 3 * (j * self.spec_width() + c);
        Vec3 {
            e0: channel(self.spec_data()[base] as int) as i32,
            e1: channel(self.spec_data()[base + 1] as int) as i32,
            e2: channel(self.spec_data()[base + 2] as int) as i32,
        }
    }

    /// The width of the image in pixels.
    pub fn width(&self) -> (r: u32)
        ensures
            r == self.spec_width(),
    {
        self.width
    }

    /// The height of the image in pixels.
    pub fn height(&self) -> (r: u32)
        ensures
            r == self.spec_height(),
    {
        self.height
    }

    /// The texture over a decoded image `(width, height, pixels)`: `None`
    /// when decoding failed, or when the pixels are not three bytes for each
    /// of the `width * height` pixels.
    pub fn from_decoded(decoded: Option<(u32, u32, Vec<u8>)>) -> (r: Option<ImageTexture>)
        ensures
            texture_view(r) == texture_of(decoded_view(decoded)),
    {
        match decoded {
            None => None,
            Some((width, height, data)) => {
                let n: u64 = data.len() as u64;
                assert(3 * width * height == 3 * (width * height)) by (nonlinear_arith);
                assert(width * height <= 0xffff_ffff * 0xffff_ffff) by (nonlinear_arith)
                    requires
                        width <= 0xffff_ffff,
                        height <= 0xffff_ffff,
                ;
                let wh: u128 = width as u128 * height as u128;
                let expected: u128 = 3 * wh;
                if n as u128 == expected {
                    Some(ImageTexture { width, height, data })
                } else {
                    None
                }
            },
        }
    }

    /// The texture over an encoded image file's bytes, decoded to 8-bit RGB:
    /// `None` when the bytes do not decode, or decode to pixels that are not
    /// three bytes per pixel.
    pub fn from_encoded(bytes: &[u8]) -> (r: Option<ImageTexture>)
        ensures
            texture_view(r) == texture_of(decoded_rgb8(bytes@)),
    {
        let decoded = decode_rgb8(bytes);
        Self::from_decoded(decoded)
    }

    /// The colour at texture coordinates `(u, v)` (fixed point, clamped to
    /// `[0, 1]`; `v` runs from the bottom of the image up): the colour of the
    /// pixel that holds the point. An image without rows gives cyan, as a
    /// debugging aid.
    pub fn value(&self, u: i64, v: i64, p: &Point3) -> (r: Color)
        requires
            self.spec_data().len() == 3 * self.spec_width() * self.spec_height(),
            self.spec_height() == 0 || self.spec_width() > 0,
        ensures
            self.spec_height() == 0 ==> r == (Vec3 { e0: 0, e1: UNITS_PER_WORLD as i32, e2: UNITS_PER_WORLD as i32 }),
            self.spec_height() > 0 ==> ({
                let s = UNITS_PER_WORLD as int;
                let uc = crate::common::spec_clamp(u as int, 0, s);
                let vc = s - crate::common::spec_clamp(v as int, 0, s);
                let i = pixel_index(uc, self.spec_width());
                let j = pixel_index(vc, self.spec_height());
                let base = 3 * (j * self.spec_width() + i);
                &&& r.e0 == channel(self.spec_data()[base] as int)
                &&& r.e1 == channel(self.spec_data()[base + 1] as int)
                &&& r.e2 == channel(self.spec_data()[base + 2] as int)
            }),
            self.spec_height() > 0 ==> ({
                let s = UNITS_PER_WORLD as int;
                let w = self.spec_width();
                let h = self.spec_height();
                let uc = crate::common::spec_clamp(u as int, 0, s);
                let vc = s - crate::common::spec_clamp(v as int, 0, s);
                forall|c: int, j: int|
                    0 <= c < w && 0 <= j < h && c * s <= uc * w && (uc * w < (c + 1) * s || c == w - 1) && j * s
                        <= vc * h && (vc * h < (j + 1) * s || j == h - 1) ==> r == #[trigger] self.pixel_color(c, j)
            }),
    {
        let s: i64 = UNITS_PER_WORLD;
        if self.height == 0 {
            return Color::new(0, s as i32, s as i32);
        }
        let uc = crate::common::clamp(u, 0, s);
        let vc = s - crate::common::clamp(v, 0, s);
        let w = self.width as i64;
        let h = self.height as i64;
        assert(0 <= uc * w <= s * w && 0 <= vc * h <= s * h) by (nonlinear_arith)
            requires
                0 <= uc <= s,
                0 <= vc <= s,
                w >= 0,
                h >= 0,
        ;
        let i0 = (uc * w) / s;
        let j0 = (vc * h) / s;
        let i = if i0 < w - 1 { i0 } else { w - 1 };
        let j = if j0 < h - 1 { j0 } else { h - 1 };
        proof {
            assert(0 <= i0 && 0 <= j0) by (nonlinear_arith)
                requires
                    0 <= uc * w,
                    0 <= vc * h,
                    s > 0,
                    i0 == (uc * w) / (s as int),
                    j0 == (vc * h) / (s as int),
            ;
            assert(0 <= j * w + i < w * h) by (nonlinear_arith)
                requires
                    0 <= i < w,
                    0 <= j < h,
            ;
            assert(self.data@.len() == 3 * w * h);
            assert(3 * (j * w + i) + 2 < 3 * w * h) by (nonlinear_arith)
                requires
                    0 <= j * w + i < w * h,
            ;
        }
        let iu = i as usize;
        let ju = j as usize;
        let wu = self.width as usize;
        let n = self.data.len();
        assert(ju as int == j && iu as int == i && wu as int == w);
        assert(3 * (ju * wu + iu) + 2 < self.data@.len());
        let base: usize = 3 * (ju * wu + iu);
        let r = self.data[base] as i64;
        let g = self.data[base + 1] as i64;
        let b = self.data[base + 2] as i64;
        let res = Color::new(((r * s) / 255) as i32, ((g * s) / 255) as i32, ((b * s) / 255) as i32);
        proof {
            let uci = uc as int;
            let vci = vc as int;
            assert forall|c: int, jj: int|
                0 <= c < w && 0 <= jj < h && c * s <= uci * w && (uci * w < (c + 1) * s || c == w - 1) && jj * s
                    <= vci * h && (vci * h < (jj + 1) * s || jj == h - 1) implies res == #[trigger] self.pixel_color(c, jj) by {
                lemma_pixel_index(uci, w as int, c);
                lemma_pixel_index(vci, h as int, jj);
            }
        }
        res
    }
}

} // verus!

verus! {

/// A byte becomes the largest colour channel (in fixed point) not above
/// `byte / 255` of a world unit: no byte gives 0 and a full byte gives one
/// world unit.
pub proof fn lemma_channel(b: int)
    requires
        0 <= b <= 255,
    ensures
        channel(b) * 255 <= b * UNITS_PER_WORLD < (channel(b) + 1) * 255,
        channel(0) == 0,
        channel(255) == UNITS_PER_WORLD,
        0 <= channel(b) <= UNITS_PER_WORLD,
{
    let s = UNITS_PER_WORLD as int;
    vstd::arithmetic::div_mod::lemma_fundamental_div_mod(b * s, 255);
    vstd::arithmetic::div_mod::lemma_mod_bound(b * s, 255);
    assert(0 <= b * s <= 255 * s) by (nonlinear_arith)
        requires
            0 <= b <= 255,
            s == 20000,
    ;
}

/// The pixel for a texture coordinate `t` (fixed point, in `[0, 1]`) on an
/// axis of `n` pixels is the one whose span `[c / n, (c + 1) / n)` holds `t`;
/// the far end `t = 1` falls in the last pixel.
pub proof fn lemma_pixel_index(t: int, n: int, c: int)
    requires
        n > 0,
        0 <= c < n,
        0 <= t,
        c * UNITS_PER_WORLD <= t * n,
        t * n < (c + 1) * UNITS_PER_WORLD || c == n - 1,
    ensures
        pixel_index(t, n) == c,
{
    let s = UNITS_PER_WORLD as int;
    let k = (t * n) / s;
    vstd::arithmetic::div_mod::lemma_fundamental_div_mod(t * n, s);
    vstd::arithmetic::div_mod::lemma_mod_bound(t * n, s);
    assert(k >= c) by (nonlinear_arith)
        requires
            t * n == s * k + (t * n) % s,
            0 <= (t * n) % s < s,
            c * s <= t * n,
            s > 0,
    ;
    if t * n < (c + 1) * s {
        assert(k <= c) by (nonlinear_arith)
            requires
                t * n == s * k + (t * n) % s,
                0 <= (t * n) % s < s,
                t * n < (c + 1) * s,
                s > 0,
        ;
    }
}

/// One step along a coordinate: the cell of `c + |scale|` is the cell of `c`
/// plus one (minus one for a negative side).
proof fn lemma_cell_step(c: int, scale: int)
    requires
        scale != 0,
    ensures
        scale > 0 ==> checker_cell(c + scale, scale) == checker_cell(c, scale) + 1,
        scale < 0 ==> checker_cell(c - scale, scale) == checker_cell(c, scale) - 1,
{
    if scale > 0 {
        vstd::arithmetic::div_mod::lemma_fundamental_div_mod(c, scale);
        vstd::arithmetic::div_mod::lemma_mod_bound(c, scale);
        assert(c + scale == (c / scale + 1) * scale + c % scale) by (nonlinear_arith)
            requires
                c == scale * (c / scale) + c % scale,
        ;
        vstd::arithmetic::div_mod::lemma_fundamental_div_mod_converse(c + scale, scale, c / scale + 1, c % scale);
    } else {
        let m = -scale;
        let d = -c;
        vstd::arithmetic::div_mod::lemma_fundamental_div_mod(d, m);
        vstd::arithmetic::div_mod::lemma_mod_bound(d, m);
        assert(d - m == (d / m - 1) * m + d % m) by (nonlinear_arith)
            requires
                d == m * (d / m) + d % m,
        ;
        vstd::arithmetic::div_mod::lemma_fundamental_div_mod_converse(d - m, m, d / m - 1, d % m);
        assert(-(c - scale) == d - m);
    }
}

proof fn lemma_parity_flip(a: int, b: int)
    requires
        b == a + 1 || b == a - 1,
    ensures
        (b % 2 == 0) != (a % 2 == 0),
{
    vstd::arithmetic::div_mod::lemma_fundamental_div_mod(a, 2);
    vstd::arithmetic::div_mod::lemma_mod_bound(a, 2);
    vstd::arithmetic::div_mod::lemma_fundamental_div_mod(b, 2);
    vstd::arithmetic::div_mod::lemma_mod_bound(b, 2);
}

/// Moving a point by one cube side along any one axis moves it to a cube of
/// the other colour: the colour follows the parity of the sum of the cell
/// indices on all three axes. (For a negative side the cubes are counted
/// the other way, and the step still changes the colour.)
pub proof fn lemma_checker_alternates_on_each_axis(scale: int, p: Point3, q: Point3, axis: int)
    requires
        scale != 0,
        0 <= axis < 3,
        q.e0 == p.e0 + (if axis == 0 { if scale > 0 { scale } else { -scale } } else { 0 }),
        q.e1 == p.e1 + (if axis == 1 { if scale > 0 { scale } else { -scale } } else { 0 }),
        q.e2 == p.e2 + (if axis == 2 { if scale > 0 { scale } else { -scale } } else { 0 }),
    ensures
        spec_checker_even(scale, q) != spec_checker_even(scale, p),
{
    lemma_cell_step(p.e0 as int, scale);
    lemma_cell_step(p.e1 as int, scale);
    lemma_cell_step(p.e2 as int, scale);
    let a = checker_cell(p.e0 as int, scale) + checker_cell(p.e1 as int, scale) + checker_cell(p.e2 as int, scale);
    let b = checker_cell(q.e0 as int, scale) + checker_cell(q.e1 as int, scale) + checker_cell(q.e2 as int, scale);
    lemma_parity_flip(a, b);
}

/// The checker pattern alternates: moving a point by one cube side along
/// the x axis swaps even and odd cubes.
pub proof fn lemma_checker_alternates(scale: int, p: Point3, q: Point3)
    requires
        scale > 0,
        q.e0 == p.e0 + scale,
        q.e1 == p.e1,
        q.e2 == p.e2,
    ensures
        spec_checker_even(scale, q) != spec_checker_even(scale, p),
{
    let c = p.e0 as int;
    vstd::arithmetic::div_mod::lemma_fundamental_div_mod(c, scale);
    vstd::arithmetic::div_mod::lemma_mod_bound(c, scale);
    assert(c + scale == (c / scale + 1) * scale + c % scale) by (nonlinear_arith)
        requires
            c == scale * (c / scale) + c % scale,
    ;
    vstd::arithmetic::div_mod::lemma_fundamental_div_mod_converse(c + scale, scale, c / scale + 1, c % scale);
    let a = checker_cell(p.e0 as int, scale) + checker_cell(p.e1 as int, scale) + checker_cell(p.e2 as int, scale);
    vstd::arithmetic::div_mod::lemma_fundamental_div_mod(a, 2);
    vstd::arithmetic::div_mod::lemma_mod_bound(a, 2);
    vstd::arithmetic::div_mod::lemma_fundamental_div_mod(a + 1, 2);
    vstd::arithmetic::div_mod::lemma_mod_bound(a + 1, 2);
}

} // verus!
