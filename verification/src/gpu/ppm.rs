use vstd::prelude::*;

verus! {

/// The pixel written at place `k` of a PPM image of `width * height` pixels
/// whose bytes `rgb` run row by row from the bottom: PPM runs from the top
/// row, so place `k` is column `k % width` of row `height - 1 - k / width`.
pub open spec fn ppm_pixel(width: int, height: int, rgb: Seq<u8>, k: int) -> (u8, u8, u8) {
    let j = height - 1 - k / width;
    let i = k % width;
    let idx = 3 * (j * width + i);
    (rgb[idx], rgb[idx + 1], rgb[idx + 2])
}

/// The pixels of an image in the order a PPM file lists them: the rows from
/// the top one down, each from left to right, one `(red, green, blue)` triple
/// per pixel. `rgb` holds the rows from the bottom one up, three bytes per
/// pixel.
pub fn ppm_pixels(width: u32, height: u32, rgb: &Vec<u8>) -> (r: Vec<(u8, u8, u8)>)
    requires
        3 * width * height <= rgb.len(),
        3 * width * height <= u32::MAX,
    ensures
        r.len() == width * height,
        forall|k: int| 0 <= k < r.len() ==> #[trigger] r@[k] == ppm_pixel(width as int, height as int, rgb@, k),
        forall|t: int, i: int|
            0 <= t < height && 0 <= i < width ==> #[trigger] r@[t * width + i] == (
                rgb@[3 * ((height - 1 - t) * width + i)],
                rgb@[3 * ((height - 1 - t) * width + i) + 1],
                rgb@[3 * ((height - 1 - t) * width + i) + 2],
            ),
{
    let mut r: Vec<(u8, u8, u8)> = Vec::new();
    let mut t: u32 = 0;
    while t < height
        invariant
            t <= height,
            3 * width * height <= rgb.len(),
            3 * width * height <= u32::MAX,
            r.len() == t * width,
            forall|k: int| 0 <= k < r.len() ==> #[trigger] r@[k] == ppm_pixel(width as int, height as int, rgb@, k),
        decreases height - t,
    {
        let j: u32 = height - 1 - t;
        let mut i: u32 = 0;
        while i < width
            invariant
                t < height,
                j == height - 1 - t,
                i <= width,
                3 * width * height <= rgb.len(),
                3 * width * height <= u32::MAX,
                r.len() == t * width + i,
                forall|k: int| 0 <= k < r.len() ==> #[trigger] r@[k] == ppm_pixel(width as int, height as int, rgb@, k),
            decreases width - i,
        {
            proof {
                assert(0 <= j * width + i < width * height) by (nonlinear_arith)
                    requires
                        0 <= j < height,
                        0 <= i < width,
                ;
                assert(3 * (j * width + i) + 2 < 3 * width * height) by (nonlinear_arith)
                    requires
                        0 <= j * width + i < width * height,
                ;
                let k = t * width + i;
                vstd::arithmetic::div_mod::lemma_fundamental_div_mod_converse(k, width as int, t as int, i as int);
            }
            let idx: usize = (3 * (j * width + i)) as usize;
            let px = (rgb[idx], rgb[idx + 1], rgb[idx + 2]);
            r.push(px);
            i = i + 1;
        }
        proof {
            assert(t * width + width == (t + 1) * width) by (nonlinear_arith);
        }
        t = t + 1;
    }
    proof {
        assert forall|t: int, i: int| 0 <= t < height && 0 <= i < width implies #[trigger] r@[t * width + i] == (
            rgb@[3 * ((height - 1 - t) * width + i)],
            rgb@[3 * ((height - 1 - t) * width + i) + 1],
            rgb@[3 * ((height - 1 - t) * width + i) + 2],
        ) by {
            lemma_ppm_rows_reversed(width as int, height as int, rgb@, t, i);
            assert(0 <= t * width + i < width * height) by (nonlinear_arith)
                requires
                    0 <= t < height,
                    0 <= i < width,
            ;
        }
    }
    r
}

/// A PPM file lists the buffer's rows in reverse order: the pixel it lists
/// at column `i` of its row `t` (counted from the top) is the pixel at
/// column `i` of the buffer's row `height - 1 - t` (counted from the
/// bottom); so its first row is the buffer's last one.
pub proof fn lemma_ppm_rows_reversed(width: int, height: int, rgb: Seq<u8>, t: int, i: int)
    requires
        0 <= t < height,
        0 <= i < width,
    ensures
        ppm_pixel(width, height, rgb, t * width + i) == (
            rgb[3 * ((height - 1 - t) * width + i)],
            rgb[3 * ((height - 1 - t) * width + i) + 1],
            rgb[3 * ((height - 1 - t) * width + i) + 2],
        ),
{
    vstd::arithmetic::div_mod::lemma_fundamental_div_mod_converse(t * width + i, width, t, i);
}

} // verus!
