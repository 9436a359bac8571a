use vstd::prelude::*;
use crate::common::{random_int, UNITS_PER_WORLD};
use crate::vec3::{unit_vector, Point3, Vec3};

verus! {

/// The number of lattice gradients and the length of each permutation table.
pub const POINT_COUNT: usize = 256;

/// `s` is a permutation of `0..n`: `n` entries, each below `n`, no two equal.
pub open spec fn is_permutation(s: Seq<usize>, n: int) -> bool {
    &&& s.len() == n
    &&& forall|i: int| 0 <= i < n ==> #[trigger] s[i] < n
    &&& forall|i: int, j: int| 0 <= i < n && 0 <= j < n && i != j ==> #[trigger] s[i] != #[trigger] s[j]
}

/// Perlin gradient noise: a random unit gradient per lattice cell, picked by
/// hashing the cell coordinates through three random permutations.
pub struct Perlin {
    randvec: Vec<Vec3>,
    perm_x: Vec<usize>,
    perm_y: Vec<usize>,
    perm_z: Vec<usize>,
}

impl Perlin {
    /// The tables are complete: `POINT_COUNT` gradients, none longer than one
    /// world unit on any axis, and three permutations of `0..POINT_COUNT`.
    pub closed spec fn wf(self) -> bool {
        &&& self.randvec@.len() == POINT_COUNT
        &&& forall|i: int| 0 <= i < POINT_COUNT ==> in_unit_cube(#[trigger] self.randvec@[i])
        &&& forall|i: int| 0 <= i < POINT_COUNT ==> is_gradient(#[trigger] self.randvec@[i])
        &&& is_permutation(self.perm_x@, POINT_COUNT as int)
        &&& is_permutation(self.perm_y@, POINT_COUNT as int)
        &&& is_permutation(self.perm_z@, POINT_COUNT as int)
    }

    pub closed spec fn gradients(self) -> Seq<Vec3> {
        self.randvec@
    }

    pub closed spec fn perm_x_table(self) -> Seq<usize> {
        self.perm_x@
    }

    pub closed spec fn perm_y_table(self) -> Seq<usize> {
        self.perm_y@
    }

    pub closed spec fn perm_z_table(self) -> Seq<usize> {
        self.perm_z@
    }

    /// The tables as seen from outside: complete, with permutations for the
    /// three hash tables.
    pub proof fn lemma_tables(self)
        requires
            self.wf(),
        ensures
            self.gradients().len() == POINT_COUNT,
            forall|i: int| 0 <= i < POINT_COUNT ==> in_unit_cube(#[trigger] self.gradients()[i]),
            forall|i: int| 0 <= i < POINT_COUNT ==> is_gradient(#[trigger] self.gradients()[i]),
            is_permutation(self.perm_x_table(), POINT_COUNT as int),
            is_permutation(self.perm_y_table(), POINT_COUNT as int),
            is_permutation(self.perm_z_table(), POINT_COUNT as int),
    {
    }

    /// Fresh noise: random unit gradients and three random permutations.
    pub fn new() -> (r: Perlin)
        ensures
            r.wf(),
            r.gradients().len() == POINT_COUNT,
            forall|i: int| 0 <= i < POINT_COUNT ==> is_gradient(#[trigger] r.gradients()[i]),
            is_permutation(r.perm_x_table(), POINT_COUNT as int),
            is_permutation(r.perm_y_table(), POINT_COUNT as int),
            is_permutation(r.perm_z_table(), POINT_COUNT as int),
    {
        let mut randvec: Vec<Vec3> = Vec::new();
        let mut i: usize = 0;
        while i < POINT_COUNT
            invariant
                i <= POINT_COUNT,
                randvec@.len() == i,
                forall|k: int| 0 <= k < i ==> in_unit_cube(#[trigger] randvec@[k]),
                forall|k: int| 0 <= k < i ==> is_gradient(#[trigger] randvec@[k]),
            decreases POINT_COUNT - i,
        {
            randvec.push(random_unit_gradient());
            i = i + 1;
        }
        Perlin {
            randvec,
            perm_x: Self::generate_perm(),
            perm_y: Self::generate_perm(),
            perm_z: Self::generate_perm(),
        }
    }

    /// A random permutation of `0..POINT_COUNT` (Fisher-Yates shuffle).
    fn generate_perm() -> (p: Vec<usize>)
        ensures
            is_permutation(p@, POINT_COUNT as int),
    {
        let mut p: Vec<usize> = Vec::new();
        let mut k: usize = 0;
        while k < POINT_COUNT
            invariant
                k <= POINT_COUNT,
                p@.len() == k,
                forall|j: int| 0 <= j < k ==> #[trigger] p@[j] == j,
            decreases POINT_COUNT - k,
        {
            p.push(k);
            k = k + 1;
        }
        let mut i: usize = POINT_COUNT - 1;
        while i >= 1
            invariant
                i < POINT_COUNT,
                is_permutation(p@, POINT_COUNT as int),
            decreases i,
        {
            let target = random_int(0, i as i32) as usize;
            let a = p[i];
            let b = p[target];
            p.set(i, b);
            p.set(target, a);
            i = i - 1;
        }
        p
    }
}

/// Each component of `v` is at most one world unit in magnitude.
pub open spec fn in_unit_cube(v: Vec3) -> bool {
    &&& -UNITS_PER_WORLD <= v.e0 <= UNITS_PER_WORLD
    &&& -UNITS_PER_WORLD <= v.e1 <= UNITS_PER_WORLD
    &&& -UNITS_PER_WORLD <= v.e2 <= UNITS_PER_WORLD
}

/// The gradient made from a draw `v`: `v` scaled to length one world unit,
/// or the x axis for the zero vector, which has no direction.
pub open spec fn gradient_of(v: Vec3) -> Vec3 {
    if v.e0 == 0 && v.e1 == 0 && v.e2 == 0 {
        Vec3 { e0: UNITS_PER_WORLD as i32, e1: 0, e2: 0 }
    } else {
        crate::vec3::spec_unit_vector(v)
    }
}

/// `g` is a gradient made from some draw in the cube of side two world units.
pub open spec fn is_gradient(g: Vec3) -> bool {
    exists|v: Vec3| in_unit_cube(v) && #[trigger] gradient_of(v) == g
}

/// A random direction: a vector drawn from the cube of side two world units,
/// scaled to length one (the all-zero draw, which has no direction, is
/// replaced by the x axis).
fn random_unit_gradient() -> (r: Vec3)
    ensures
        in_unit_cube(r),
        is_gradient(r),
{
    let unit = UNITS_PER_WORLD as i32;
    let v = Vec3::random_range(-unit, unit);
    if v.e0 == 0 && v.e1 == 0 && v.e2 == 0 {
        let r = Vec3::new(unit, 0, 0);
        assert(gradient_of(v) == r);
        r
    } else {
        assert(v.spec_length_squared() > 0) by (nonlinear_arith)
            requires
                v.e0 != 0 || v.e1 != 0 || v.e2 != 0,
                v.spec_length_squared() == v.e0 * v.e0 + v.e1 * v.e1 + v.e2 * v.e2,
        ;
        let r = unit_vector(v);
        assert(gradient_of(v) == r);
        r
    }
}

} // verus!

verus! {

/// The lattice cell of a coordinate: `floor(c / UNITS_PER_WORLD)`.
pub open spec fn cell(c: int) -> int {
    c / (UNITS_PER_WORLD as int)
}

/// The position of a coordinate inside its cell, in `[0, UNITS_PER_WORLD)`.
pub open spec fn frac(c: int) -> int {
    c % (UNITS_PER_WORLD as int)
}

/// The Hermite smoothing `u * u * (3 - 2 * u)` of a position in a cell, in fixed point.
pub open spec fn smooth(u: int) -> int {
    let s = UNITS_PER_WORLD as int;
    (u * u * (3 * s - 2 * u)) / (s * s)
}

/// The interpolation weight of the corner on side `d` (0 or 1) of an axis.
pub open spec fn side_weight(d: int, smoothed: int) -> int {
    if d == 1 {
        smoothed
    } else {
        UNITS_PER_WORLD - smoothed
    }
}

/// `g . (x, y, z)`.
pub open spec fn dot_with(g: Vec3, x: int, y: int, z: int) -> int {
    g.e0 * x + g.e1 * y + g.e2 * z
}

/// The contribution of the corner `(di, dj, dk)` with gradient `g` at the
/// position `(u, v, w)` in the cell: the three smoothed interpolation
/// weights times the gradient's ramp `g . ((u, v, w) - corner)`.
pub open spec fn interp_term(g: Vec3, di: int, dj: int, dk: int, u: int, v: int, w: int) -> int {
    let s = UNITS_PER_WORLD as int;
    side_weight(di, smooth(u)) * side_weight(dj, smooth(v)) * side_weight(dk, smooth(w)) * dot_with(
        g,
        u - di * s,
        v - dj * s,
        w - dk * s,
    )
}

/// The gradient of corner `(di, dj, dk)` in the table `c`.
pub open spec fn corner_of(c: [[[Vec3; 2]; 2]; 2], di: int, dj: int, dk: int) -> Vec3 {
    c@[di]@[dj]@[dk]
}

/// The sum of the first `n` corner contributions, corners taken in the
/// order `(0,0,0), (0,0,1), ..., (1,1,1)`.
pub open spec fn interp_partial(c: [[[Vec3; 2]; 2]; 2], u: int, v: int, w: int, n: int) -> int
    decreases n,
{
    if n <= 0 {
        0
    } else {
        let m = n - 1;
        interp_partial(c, u, v, w, m) + interp_term(corner_of(c, m / 4, (m / 2) % 2, m % 2), m / 4, (m / 2) % 2, m % 2, u, v, w)
    }
}

/// `a / b` rounded toward zero (for `b > 0`).
pub open spec fn div_toward_zero(a: int, b: int) -> int {
    if a < 0 {
        -((-a) / b)
    } else {
        a / b
    }
}

impl Perlin {
    /// The gradient of the lattice corner `(i, j, k)`: the permutation
    /// tables hash the corner (each coordinate taken modulo 256) to an index.
    pub open spec fn corner_gradient(self, i: int, j: int, k: int) -> Vec3 {
        self.gradients()[(self.perm_x_table()[i % 256] ^ self.perm_y_table()[j % 256]
            ^ self.perm_z_table()[k % 256]) as int]
    }

    /// The contribution of corner `(di, dj, dk)` of the cell of `p`.
    pub open spec fn corner_term(self, p: Point3, di: int, dj: int, dk: int) -> int {
        interp_term(
            self.corner_gradient(cell(p.e0 as int) + di, cell(p.e1 as int) + dj, cell(p.e2 as int) + dk),
            di,
            dj,
            dk,
            frac(p.e0 as int),
            frac(p.e1 as int),
            frac(p.e2 as int),
        )
    }

    /// The sum of the eight corner contributions, scaled by `UNITS_PER_WORLD^4`.
    pub open spec fn noise_sum(self, p: Point3) -> int {
        self.corner_term(p, 0, 0, 0) + self.corner_term(p, 0, 0, 1) + self.corner_term(p, 0, 1, 0)
            + self.corner_term(p, 0, 1, 1) + self.corner_term(p, 1, 0, 0) + self.corner_term(p, 1, 0, 1)
            + self.corner_term(p, 1, 1, 0) + self.corner_term(p, 1, 1, 1)
    }

    /// Perlin noise at `p`, in fixed point: the trilinear, Hermite-smoothed
    /// blend of the gradient ramps of the eight corners of `p`'s cell.
    pub open spec fn spec_noise(self, p: Point3) -> int {
        let s = UNITS_PER_WORLD as int;
        div_toward_zero(self.noise_sum(p), s * s * s * s)
    }
}

} // verus!

verus! {

/// A coordinate split into its cell, its position in the cell, and the
/// table indices (modulo 256) of its cell and the next one.
fn split_coord(c: i32) -> (r: (i64, i64, usize, usize))
    ensures
        r.0 == cell(c as int),
        r.1 == frac(c as int),
        0 <= r.1 < UNITS_PER_WORLD,
        r.2 == cell(c as int) % 256,
        r.3 == (cell(c as int) + 1) % 256,
        r.2 < 256,
        r.3 < 256,
{
    let s: i64 = UNITS_PER_WORLD;
    let shift: i64 = 0x2_0000;
    let shifted: i64 = c as i64 + s * shift;
    let q: i64 = shifted / s;
    let m: i64 = shifted % s;
    proof {
        let ci = c as int;
        let si = s as int;
        vstd::arithmetic::div_mod::lemma_fundamental_div_mod(ci, si);
        vstd::arithmetic::div_mod::lemma_mod_bound(ci, si);
        assert(shifted == (ci / si + shift) * si + ci % si) by (nonlinear_arith)
            requires
                ci == si * (ci / si) + ci % si,
                shifted == ci + si * shift,
        ;
        vstd::arithmetic::div_mod::lemma_fundamental_div_mod_converse(
            shifted as int,
            si,
            ci / si + shift,
            ci % si,
        );
        let k = cell(ci);
        vstd::arithmetic::div_mod::lemma_fundamental_div_mod(k, 256);
        vstd::arithmetic::div_mod::lemma_mod_bound(k, 256);
        vstd::arithmetic::div_mod::lemma_fundamental_div_mod_converse(
            k + shift,
            256,
            k / 256 + 512,
            k % 256,
        );
        vstd::arithmetic::div_mod::lemma_fundamental_div_mod(k + 1, 256);
        vstd::arithmetic::div_mod::lemma_mod_bound(k + 1, 256);
        vstd::arithmetic::div_mod::lemma_fundamental_div_mod_converse(
            k + 1 + shift,
            256,
            (k + 1) / 256 + 512,
            (k + 1) % 256,
        );
    }
    let i0: usize = (q % 256) as usize;
    let i1: usize = ((q + 1) % 256) as usize;
    (q - shift, m, i0, i1)
}

/// The Hermite smoothing of a position in a cell.
fn smooth_exec(u: i64) -> (r: i64)
    requires
        0 <= u < UNITS_PER_WORLD,
    ensures
        r == smooth(u as int),
        0 <= r <= UNITS_PER_WORLD,
{
    let s: i64 = UNITS_PER_WORLD;
    proof {
        let ui = u as int;
        let si = s as int;
        assert(0 <= ui * ui <= si * si) by (nonlinear_arith)
            requires
                0 <= ui < si,
        ;
        assert(0 <= ui * ui * (3 * si - 2 * ui) <= si * si * si) by (nonlinear_arith)
            requires
                0 <= ui < si,
                si == 20000,
        ;
    }
    let num: i64 = u * u * (3 * s - 2 * u);
    let r = num / (s * s);
    proof {
        let si = s as int;
        assert(r <= si) by (nonlinear_arith)
            requires
                0 <= num <= si * si * si,
                si == 20000,
                r == (num as int) / (si * si),
        ;
    }
    r
}

/// The contribution of one corner: its three weights times its gradient ramp.
fn corner_contribution(g: Vec3, wi: i64, wj: i64, wk: i64, x: i64, y: i64, z: i64) -> (t: i128)
    requires
        in_unit_cube(g),
        0 <= wi <= UNITS_PER_WORLD,
        0 <= wj <= UNITS_PER_WORLD,
        0 <= wk <= UNITS_PER_WORLD,
        -UNITS_PER_WORLD <= x <= UNITS_PER_WORLD,
        -UNITS_PER_WORLD <= y <= UNITS_PER_WORLD,
        -UNITS_PER_WORLD <= z <= UNITS_PER_WORLD,
    ensures
        t == wi * wj * wk * dot_with(g, x as int, y as int, z as int),
        -0x10_0000_0000_0000_0000_0000 <= t <= 0x10_0000_0000_0000_0000_0000,
{
    let ghost s = UNITS_PER_WORLD as int;
    proof {
        crate::aabb::lemma_mul_bound(g.e0 as int, x as int, s, s);
        crate::aabb::lemma_mul_bound(g.e1 as int, y as int, s, s);
        crate::aabb::lemma_mul_bound(g.e2 as int, z as int, s, s);
    }
    let d: i128 = g.e0 as i128 * x as i128 + g.e1 as i128 * y as i128 + g.e2 as i128 * z as i128;
    proof {
        assert(0 <= wi * wj <= s * s) by (nonlinear_arith)
            requires
                0 <= wi <= s,
                0 <= wj <= s,
        ;
        assert(0 <= wi * wj * wk <= s * s * s) by (nonlinear_arith)
            requires
                0 <= wi * wj <= s * s,
                0 <= wk <= s,
        ;
    }
    let w: i128 = wi as i128 * wj as i128 * wk as i128;
    proof {
        crate::aabb::lemma_mul_bound(w as int, d as int, s * s * s, 3 * s * s);
        assert(s * s * s * (3 * s * s) <= 0x10_0000_0000_0000_0000_0000) by (nonlinear_arith)
            requires
                s == 20000,
        ;
    }
    w * d
}

impl Perlin {
    /// The gradient at the lattice corner whose table indices are `ix`, `iy`, `iz`.
    fn lattice_gradient(&self, ix: usize, iy: usize, iz: usize) -> (g: Vec3)
        requires
            self.wf(),
            ix < 256 && iy < 256 && iz < 256,
        ensures
            g == self.gradients()[(self.perm_x_table()[ix as int] ^ self.perm_y_table()[iy as int]
                ^ self.perm_z_table()[iz as int]) as int],
            in_unit_cube(g),
    {
        let px = self.perm_x[ix];
        let py = self.perm_y[iy];
        let pz = self.perm_z[iz];
        assert(px ^ py ^ pz < 256) by (bit_vector)
            requires
                px < 256,
                py < 256,
                pz < 256,
        ;
        self.randvec[px ^ py ^ pz]
    }

    /// Perlin noise at `p` (fixed point).
    pub fn noise(&self, p: &Point3) -> (r: i64)
        requires
            self.wf(),
        ensures
            r == self.spec_noise(*p),
            -0x1_0000_0000_0000 < r < 0x1_0000_0000_0000,
    {
        let (_i, u, ix0, ix1) = split_coord(p.x());
        let (_j, v, iy0, iy1) = split_coord(p.y());
        let (_k, w, iz0, iz1) = split_coord(p.z());
        let c = [
            [
                [self.lattice_gradient(ix0, iy0, iz0), self.lattice_gradient(ix0, iy0, iz1)],
                [self.lattice_gradient(ix0, iy1, iz0), self.lattice_gradient(ix0, iy1, iz1)],
            ],
            [
                [self.lattice_gradient(ix1, iy0, iz0), self.lattice_gradient(ix1, iy0, iz1)],
                [self.lattice_gradient(ix1, iy1, iz0), self.lattice_gradient(ix1, iy1, iz1)],
            ],
        ];
        proof {
            assert forall|di: int, dj: int, dk: int| 0 <= di < 2 && 0 <= dj < 2 && 0 <= dk < 2 implies #[trigger] corner_of(c, di, dj, dk) == self.corner_gradient(cell(p.e0 as int) + di, cell(p.e1 as int) + dj, cell(p.e2 as int) + dk) && in_unit_cube(corner_of(c, di, dj, dk)) by {}
            reveal_with_fuel(interp_partial, 9);
            assert(interp_partial(c, u as int, v as int, w as int, 8) == self.noise_sum(*p)) by {
                assert(corner_of(c, 0, 0, 0) == self.corner_gradient(cell(p.e0 as int), cell(p.e1 as int), cell(p.e2 as int)));
                assert(corner_of(c, 0, 0, 1) == self.corner_gradient(cell(p.e0 as int), cell(p.e1 as int), cell(p.e2 as int) + 1));
                assert(corner_of(c, 0, 1, 0) == self.corner_gradient(cell(p.e0 as int), cell(p.e1 as int) + 1, cell(p.e2 as int)));
                assert(corner_of(c, 0, 1, 1) == self.corner_gradient(cell(p.e0 as int), cell(p.e1 as int) + 1, cell(p.e2 as int) + 1));
                assert(corner_of(c, 1, 0, 0) == self.corner_gradient(cell(p.e0 as int) + 1, cell(p.e1 as int), cell(p.e2 as int)));
                assert(corner_of(c, 1, 0, 1) == self.corner_gradient(cell(p.e0 as int) + 1, cell(p.e1 as int), cell(p.e2 as int) + 1));
                assert(corner_of(c, 1, 1, 0) == self.corner_gradient(cell(p.e0 as int) + 1, cell(p.e1 as int) + 1, cell(p.e2 as int)));
                assert(corner_of(c, 1, 1, 1) == self.corner_gradient(cell(p.e0 as int) + 1, cell(p.e1 as int) + 1, cell(p.e2 as int) + 1));
            }
        }
        self.perlin_interp(c, u, v, w)
    }

    /// The trilinear blend, with Hermite smoothing, of the gradient ramps of
    /// the eight corners `c` at the position `(u, v, w)` in the cell.
    fn perlin_interp(&self, c: [[[Vec3; 2]; 2]; 2], u: i64, v: i64, w: i64) -> (r: i64)
        requires
            0 <= u < UNITS_PER_WORLD,
            0 <= v < UNITS_PER_WORLD,
            0 <= w < UNITS_PER_WORLD,
            forall|di: int, dj: int, dk: int| 0 <= di < 2 && 0 <= dj < 2 && 0 <= dk < 2 ==> in_unit_cube(#[trigger] corner_of(c, di, dj, dk)),
        ensures
            ({
                let s = UNITS_PER_WORLD as int;
                r == div_toward_zero(interp_partial(c, u as int, v as int, w as int, 8), s * s * s * s)
            }),
            -0x1_0000_0000_0000 < r < 0x1_0000_0000_0000,
    {
        let s: i64 = UNITS_PER_WORLD;
        let uu = smooth_exec(u);
        let vv = smooth_exec(v);
        let ww = smooth_exec(w);
        let mut accum: i128 = 0;
        let mut corner: usize = 0;
        while corner < 8
            invariant
                corner <= 8,
                s == UNITS_PER_WORLD,
                0 <= u < s && 0 <= v < s && 0 <= w < s,
                uu == smooth(u as int) && vv == smooth(v as int) && ww == smooth(w as int),
                0 <= uu <= s && 0 <= vv <= s && 0 <= ww <= s,
                forall|di: int, dj: int, dk: int| 0 <= di < 2 && 0 <= dj < 2 && 0 <= dk < 2 ==> in_unit_cube(#[trigger] corner_of(c, di, dj, dk)),
                accum == interp_partial(c, u as int, v as int, w as int, corner as int),
                -0x10_0000_0000_0000_0000_0000 * corner <= accum <= 0x10_0000_0000_0000_0000_0000 * corner,
            decreases 8 - corner,
        {
            let i: usize = corner / 4;
            let j: usize = (corner / 2) % 2;
            let k: usize = corner % 2;
            let g = c[i][j][k];
            assert(g == corner_of(c, i as int, j as int, k as int));
            let wi = if i == 1 { uu } else { s - uu };
            let wj = if j == 1 { vv } else { s - vv };
            let wk = if k == 1 { ww } else { s - ww };
            let t = corner_contribution(g, wi, wj, wk, u - i as i64 * s, v - j as i64 * s, w - k as i64 * s);
            accum = accum + t;
            corner = corner + 1;
        }
        let s4: i128 = s as i128 * s as i128 * s as i128 * s as i128;
        let r: i128 = if accum < 0 { -((-accum) / s4) } else { accum / s4 };
        proof {
            let a = if accum < 0 { -(accum as int) } else { accum as int };
            let d = s4 as int;
            assert(d == 20000 * 20000 * 20000 * 20000);
            assert(d == (UNITS_PER_WORLD as int) * (UNITS_PER_WORLD as int) * (UNITS_PER_WORLD as int) * (UNITS_PER_WORLD as int));
            vstd::arithmetic::div_mod::lemma_fundamental_div_mod(a, d);
            vstd::arithmetic::div_mod::lemma_mod_bound(a, d);
            assert(0 <= a / d < 0x1_0000_0000_0000) by (nonlinear_arith)
                requires
                    0 <= a <= 0x100_0000_0000_0000_0000_0000,
                    d >= 0x200_0000_0000_0000,
                    a == d * (a / d) + a % d,
                    0 <= a % d < d,
            ;
            assert(r == div_toward_zero(accum as int, d));
        }
        r as i64
    }

}

} // verus!

verus! {

/// The gradient the tables hash the lattice corner `(i, j, k)` to: the x, y
/// and z permutations applied to `i`, `j` and `k` (each modulo 256), their
/// results xor-ed into an index of the gradient table.
pub open spec fn hashed_gradient(perlin: Perlin, i: int, j: int, k: int) -> Vec3 {
    perlin.gradients()[(perlin.perm_x_table()[i % 256] ^ perlin.perm_y_table()[j % 256]
        ^ perlin.perm_z_table()[k % 256]) as int]
}

proof fn lemma_coord_on_lattice(c: int, i: int, f: int)
    requires
        c == i * UNITS_PER_WORLD + f,
        0 <= f < UNITS_PER_WORLD,
    ensures
        cell(c) == i,
        frac(c) == f,
{
    vstd::arithmetic::div_mod::lemma_fundamental_div_mod_converse(c, UNITS_PER_WORLD as int, i, f);
}

proof fn lemma_quarter(d: int)
    ensures
        div_toward_zero(40_000_000_000_000_000 * d, 160_000_000_000_000_000) == div_toward_zero(d, 4),
{
    let m = 40_000_000_000_000_000int;
    if d >= 0 {
        vstd::arithmetic::div_mod::lemma_fundamental_div_mod(d, 4);
        vstd::arithmetic::div_mod::lemma_mod_bound(d, 4);
        assert(m * d == (d / 4) * (4 * m) + (d % 4) * m) by (nonlinear_arith)
            requires
                d == 4 * (d / 4) + d % 4,
        ;
        assert(0 <= (d % 4) * m < 4 * m) by (nonlinear_arith)
            requires
                0 <= d % 4 < 4,
                m > 0,
        ;
        vstd::arithmetic::div_mod::lemma_fundamental_div_mod_converse(m * d, 4 * m, d / 4, (d % 4) * m);
    } else {
        let e = -d;
        vstd::arithmetic::div_mod::lemma_fundamental_div_mod(e, 4);
        vstd::arithmetic::div_mod::lemma_mod_bound(e, 4);
        assert(m * e == (e / 4) * (4 * m) + (e % 4) * m) by (nonlinear_arith)
            requires
                e == 4 * (e / 4) + e % 4,
        ;
        assert(0 <= (e % 4) * m < 4 * m) by (nonlinear_arith)
            requires
                0 <= e % 4 < 4,
                m > 0,
        ;
        vstd::arithmetic::div_mod::lemma_fundamental_div_mod_converse(m * e, 4 * m, e / 4, (e % 4) * m);
        assert(-(m * d) == m * e) by (nonlinear_arith)
            requires
                e == -d,
        ;
    }
}

/// Halfway along a lattice edge in z, from corner `(i, j, k)` to corner
/// `(i, j, k + 1)`, the noise is a quarter of the difference of the z
/// components of the two corners' hashed gradients (rounded toward zero):
/// the two corners share the weight, and their ramps point along z.
pub proof fn lemma_noise_on_z_edge(perlin: Perlin, p: Point3, i: int, j: int, k: int)
    requires
        p.e0 == i * UNITS_PER_WORLD,
        p.e1 == j * UNITS_PER_WORLD,
        p.e2 == k * UNITS_PER_WORLD + UNITS_PER_WORLD / 2,
    ensures
        perlin.spec_noise(p) == div_toward_zero(
            hashed_gradient(perlin, i, j, k).e2 - hashed_gradient(perlin, i, j, k + 1).e2,
            4,
        ),
{
    lemma_coord_on_lattice(p.e0 as int, i, 0);
    lemma_coord_on_lattice(p.e1 as int, j, 0);
    lemma_coord_on_lattice(p.e2 as int, k, 10000);
    lemma_smooth_values();
    let g0 = hashed_gradient(perlin, i, j, k);
    let g1 = hashed_gradient(perlin, i, j, k + 1);
    lemma_edge_terms(perlin, p, i, j, k, 0, 0, 10000);
    assert(dot_with(g0, 0, 0, 10000) == g0.e2 * 10000);
    assert(dot_with(g1, 0, 0, -10000) == -g1.e2 * 10000);
    assert(perlin.corner_term(p, 0, 0, 0) == 20_000 * 20_000 * 10_000 * dot_with(g0, 0, 0, 10000));
    assert(perlin.corner_term(p, 0, 0, 1) == 20_000 * 20_000 * 10_000 * dot_with(g1, 0, 0, -10000));
    assert(perlin.corner_term(p, 0, 1, 0) == 0);
    assert(perlin.corner_term(p, 0, 1, 1) == 0);
    assert(perlin.corner_term(p, 1, 0, 0) == 0);
    assert(perlin.corner_term(p, 1, 0, 1) == 0);
    assert(perlin.corner_term(p, 1, 1, 0) == 0);
    assert(perlin.corner_term(p, 1, 1, 1) == 0);
    let d0 = dot_with(g0, 0, 0, 10000);
    let d1 = dot_with(g1, 0, 0, -10000);
    assert(20_000 * 20_000 * 10_000 * d0 + 20_000 * 20_000 * 10_000 * d1 == 40_000_000_000_000_000 * (g0.e2 - g1.e2))
        by (nonlinear_arith)
        requires
            d0 == g0.e2 * 10000,
            d1 == -g1.e2 * 10000,
    ;
    assert(perlin.noise_sum(p) == 40_000_000_000_000_000 * (g0.e2 - g1.e2));
    assert(20000int * 20000int * 20000int * 20000int == 160_000_000_000_000_000) by (nonlinear_arith);
    lemma_quarter(g0.e2 - g1.e2);
}

/// Halfway along a lattice edge in x, from corner `(i, j, k)` to corner
/// `(i + 1, j, k)`, the noise is a quarter of the difference of the x
/// components of the two corners' hashed gradients (rounded toward zero):
/// the two corners share the weight, and their ramps point along x.
pub proof fn lemma_noise_on_x_edge(perlin: Perlin, p: Point3, i: int, j: int, k: int)
    requires
        p.e0 == i * UNITS_PER_WORLD + UNITS_PER_WORLD / 2,
        p.e1 == j * UNITS_PER_WORLD,
        p.e2 == k * UNITS_PER_WORLD,
    ensures
        perlin.spec_noise(p) == div_toward_zero(
            hashed_gradient(perlin, i, j, k).e0 - hashed_gradient(perlin, i + 1, j, k).e0,
            4,
        ),
{
    lemma_coord_on_lattice(p.e0 as int, i, 10000);
    lemma_coord_on_lattice(p.e1 as int, j, 0);
    lemma_coord_on_lattice(p.e2 as int, k, 0);
    lemma_smooth_values();
    let g0 = hashed_gradient(perlin, i, j, k);
    let g1 = hashed_gradient(perlin, i + 1, j, k);
    lemma_edge_terms(perlin, p, i, j, k, 10000, 0, 0);
    assert(dot_with(g0, 10000, 0, 0) == g0.e0 * 10000);
    assert(dot_with(g1, -10000, 0, 0) == -g1.e0 * 10000);
    assert(perlin.corner_term(p, 0, 0, 0) == 20_000 * 20_000 * 10_000 * dot_with(g0, 10000, 0, 0));
    assert(perlin.corner_term(p, 1, 0, 0) == 20_000 * 20_000 * 10_000 * dot_with(g1, -10000, 0, 0));
    assert(perlin.corner_term(p, 0, 1, 0) == 0);
    assert(perlin.corner_term(p, 0, 1, 1) == 0);
    assert(perlin.corner_term(p, 0, 0, 1) == 0);
    assert(perlin.corner_term(p, 1, 0, 1) == 0);
    assert(perlin.corner_term(p, 1, 1, 0) == 0);
    assert(perlin.corner_term(p, 1, 1, 1) == 0);
    let d0 = dot_with(g0, 10000, 0, 0);
    let d1 = dot_with(g1, -10000, 0, 0);
    assert(20_000 * 20_000 * 10_000 * d0 + 20_000 * 20_000 * 10_000 * d1 == 40_000_000_000_000_000 * (g0.e0 - g1.e0))
        by (nonlinear_arith)
        requires
            d0 == g0.e0 * 10000,
            d1 == -g1.e0 * 10000,
    ;
    assert(perlin.noise_sum(p) == 40_000_000_000_000_000 * (g0.e0 - g1.e0));
    assert(20000int * 20000int * 20000int * 20000int == 160_000_000_000_000_000) by (nonlinear_arith);
    lemma_quarter(g0.e0 - g1.e0);
}

/// Halfway along a lattice edge in y, from corner `(i, j, k)` to corner
/// `(i, j + 1, k)`, the noise is a quarter of the difference of the y
/// components of the two corners' hashed gradients (rounded toward zero):
/// the two corners share the weight, and their ramps point along y.
pub proof fn lemma_noise_on_y_edge(perlin: Perlin, p: Point3, i: int, j: int, k: int)
    requires
        p.e0 == i * UNITS_PER_WORLD,
        p.e1 == j * UNITS_PER_WORLD + UNITS_PER_WORLD / 2,
        p.e2 == k * UNITS_PER_WORLD,
    ensures
        perlin.spec_noise(p) == div_toward_zero(
            hashed_gradient(perlin, i, j, k).e1 - hashed_gradient(perlin, i, j + 1, k).e1,
            4,
        ),
{
    lemma_coord_on_lattice(p.e0 as int, i, 0);
    lemma_coord_on_lattice(p.e1 as int, j, 10000);
    lemma_coord_on_lattice(p.e2 as int, k, 0);
    lemma_smooth_values();
    let g0 = hashed_gradient(perlin, i, j, k);
    let g1 = hashed_gradient(perlin, i, j + 1, k);
    lemma_edge_terms(perlin, p, i, j, k, 0, 10000, 0);
    assert(dot_with(g0, 0, 10000, 0) == g0.e1 * 10000);
    assert(dot_with(g1, 0, -10000, 0) == -g1.e1 * 10000);
    assert(perlin.corner_term(p, 0, 0, 0) == 20_000 * 20_000 * 10_000 * dot_with(g0, 0, 10000, 0));
    assert(perlin.corner_term(p, 0, 1, 0) == 20_000 * 20_000 * 10_000 * dot_with(g1, 0, -10000, 0));
    assert(perlin.corner_term(p, 0, 0, 1) == 0);
    assert(perlin.corner_term(p, 0, 1, 1) == 0);
    assert(perlin.corner_term(p, 1, 0, 0) == 0);
    assert(perlin.corner_term(p, 1, 0, 1) == 0);
    assert(perlin.corner_term(p, 1, 1, 0) == 0);
    assert(perlin.corner_term(p, 1, 1, 1) == 0);
    let d0 = dot_with(g0, 0, 10000, 0);
    let d1 = dot_with(g1, 0, -10000, 0);
    assert(20_000 * 20_000 * 10_000 * d0 + 20_000 * 20_000 * 10_000 * d1 == 40_000_000_000_000_000 * (g0.e1 - g1.e1))
        by (nonlinear_arith)
        requires
            d0 == g0.e1 * 10000,
            d1 == -g1.e1 * 10000,
    ;
    assert(perlin.noise_sum(p) == 40_000_000_000_000_000 * (g0.e1 - g1.e1));
    assert(20000int * 20000int * 20000int * 20000int == 160_000_000_000_000_000) by (nonlinear_arith);
    lemma_quarter(g0.e1 - g1.e1);
}

proof fn lemma_div_scaled(d: int, q: int, m: int)
    requires
        q > 0,
        m > 0,
    ensures
        div_toward_zero(m * d, q * m) == div_toward_zero(d, q),
{
    let e = if d >= 0 { d } else { -d };
    vstd::arithmetic::div_mod::lemma_fundamental_div_mod(e, q);
    vstd::arithmetic::div_mod::lemma_mod_bound(e, q);
    assert(m * e == (e / q) * (q * m) + (e % q) * m) by (nonlinear_arith)
        requires
            e == q * (e / q) + e % q,
    ;
    assert(0 <= (e % q) * m < q * m) by (nonlinear_arith)
        requires
            0 <= e % q < q,
            m > 0,
    ;
    vstd::arithmetic::div_mod::lemma_fundamental_div_mod_converse(m * e, q * m, e / q, (e % q) * m);
    if d < 0 {
        assert(-(m * d) == m * e) by (nonlinear_arith)
            requires
                e == -d,
        ;
    } else {
        assert(m * d == m * e);
    }
}

/// A quarter of the way along a lattice edge in z, from corner `(i, j, k)`
/// towards `(i, j, k + 1)`, the smoothing weighs the near corner `27/32` and
/// the far one `5/32` (`3t^2 - 2t^3` at `t = 1/4` is `5/32`), so the noise is
/// `(27 g0.z - 15 g1.z) / 128` of the two hashed gradients, rounded toward
/// zero: their ramps there are `1/4` and `-3/4`.
pub proof fn lemma_noise_at_quarter_z(perlin: Perlin, p: Point3, i: int, j: int, k: int)
    requires
        p.e0 == i * UNITS_PER_WORLD,
        p.e1 == j * UNITS_PER_WORLD,
        p.e2 == k * UNITS_PER_WORLD + UNITS_PER_WORLD / 4,
    ensures
        perlin.spec_noise(p) == div_toward_zero(
            27 * hashed_gradient(perlin, i, j, k).e2 - 15 * hashed_gradient(perlin, i, j, k + 1).e2,
            128,
        ),
{
    let s = UNITS_PER_WORLD as int;
    lemma_coord_on_lattice(p.e0 as int, i, 0);
    lemma_coord_on_lattice(p.e1 as int, j, 0);
    lemma_coord_on_lattice(p.e2 as int, k, 5000);
    lemma_smooth_values();
    assert(5000int * 5000int * (3 * s - 2 * 5000int) == 1_250_000_000_000) by (nonlinear_arith)
        requires
            s == 20000,
    ;
    assert(1_250_000_000_000int / (s * s) == 3125) by (nonlinear_arith)
        requires
            s == 20000,
    ;
    assert(smooth(5000) == 3125);
    let g0 = hashed_gradient(perlin, i, j, k);
    let g1 = hashed_gradient(perlin, i, j, k + 1);
    assert forall|di: int, dj: int, dk: int| 0 <= di < 2 && 0 <= dj < 2 && 0 <= dk < 2 && (di == 1 || dj == 1) implies #[trigger] perlin.corner_term(p, di, dj, dk) == 0 by {
        let g = perlin.corner_gradient(i + di, j + dj, k + dk);
        let a = side_weight(di, smooth(0));
        let b = side_weight(dj, smooth(0));
        let c = side_weight(dk, smooth(5000));
        let x = dot_with(g, 0 - di * s, 0 - dj * s, 5000 - dk * s);
        assert(a == 0 || b == 0);
        assert(a * b * c * x == 0) by (nonlinear_arith)
            requires
                a == 0 || b == 0,
        ;
    }
    assert(perlin.corner_gradient(i, j, k) == g0);
    assert(perlin.corner_gradient(i, j, k + 1) == g1);
    let d0 = dot_with(g0, 0, 0, 5000);
    let d1 = dot_with(g1, 0, 0, -15000);
    assert(d0 == g0.e2 * 5000);
    assert(d1 == g1.e2 * -15000);
    assert(perlin.corner_term(p, 0, 0, 0) == 20000 * 20000 * 16875 * d0);
    assert(perlin.corner_term(p, 0, 0, 1) == 20000 * 20000 * 3125 * d1);
    assert(perlin.corner_term(p, 0, 1, 0) == 0);
    assert(perlin.corner_term(p, 0, 1, 1) == 0);
    assert(perlin.corner_term(p, 1, 0, 0) == 0);
    assert(perlin.corner_term(p, 1, 0, 1) == 0);
    assert(perlin.corner_term(p, 1, 1, 0) == 0);
    assert(perlin.corner_term(p, 1, 1, 1) == 0);
    let m = 1_250_000_000_000_000int;
    assert(20000 * 20000 * 16875 * d0 + 20000 * 20000 * 3125 * d1 == m * (27 * g0.e2 - 15 * g1.e2)) by (nonlinear_arith)
        requires
            d0 == g0.e2 * 5000,
            d1 == g1.e2 * -15000,
            m == 1_250_000_000_000_000,
    ;
    assert(s * s * s * s == 128 * m) by (nonlinear_arith)
        requires
            s == 20000,
            m == 1_250_000_000_000_000,
    ;
    lemma_div_scaled(27 * g0.e2 - 15 * g1.e2, 128, m);
}

/// `smooth` at the start and in the middle of a cell.
proof fn lemma_smooth_values()
    ensures
        smooth(0) == 0,
        smooth(10000) == 10000,
{
    let s = UNITS_PER_WORLD as int;
    assert(0int * 0int * (3 * s - 2 * 0int) == 0);
    assert(0int / (s * s) == 0) by (nonlinear_arith)
        requires
            s == 20000,
    ;
    assert(10000int * 10000int * (3 * s - 2 * 10000int) == 4_000_000_000_000) by (nonlinear_arith)
        requires
            s == 20000,
    ;
    assert(4_000_000_000_000int / (s * s) == 10000) by (nonlinear_arith)
        requires
            s == 20000,
    ;
}

/// The eight corner terms at a point at lattice corner `(i, j, k)` moved by
/// `(u, v, w)`, each of `u`, `v`, `w` being 0 or half a cell, with only one
/// of them nonzero: the corners on the far side of an axis with no offset
/// weigh nothing, the others weigh `s * s * s/2` times their ramp.
proof fn lemma_edge_terms(perlin: Perlin, p: Point3, i: int, j: int, k: int, u: int, v: int, w: int)
    requires
        (u == 10000 && v == 0 && w == 0) || (u == 0 && v == 10000 && w == 0) || (u == 0 && v == 0 && w == 10000),
        p.e0 == i * UNITS_PER_WORLD + u,
        p.e1 == j * UNITS_PER_WORLD + v,
        p.e2 == k * UNITS_PER_WORLD + w,
    ensures
        forall|di: int, dj: int, dk: int|
            0 <= di < 2 && 0 <= dj < 2 && 0 <= dk < 2 ==> #[trigger] perlin.corner_term(p, di, dj, dk) == (if (u == 0
                && di == 1) || (v == 0 && dj == 1) || (w == 0 && dk == 1) {
                0
            } else {
                20_000 * 20_000 * 10_000 * dot_with(
                    hashed_gradient(perlin, i + di, j + dj, k + dk),
                    u - di * 20000,
                    v - dj * 20000,
                    w - dk * 20000,
                )
            }),
{
    lemma_coord_on_lattice(p.e0 as int, i, u);
    lemma_coord_on_lattice(p.e1 as int, j, v);
    lemma_coord_on_lattice(p.e2 as int, k, w);
    lemma_smooth_values();
    let s = UNITS_PER_WORLD as int;
    assert forall|di: int, dj: int, dk: int| 0 <= di < 2 && 0 <= dj < 2 && 0 <= dk < 2 implies #[trigger] perlin.corner_term(p, di, dj, dk) == (if (u == 0
        && di == 1) || (v == 0 && dj == 1) || (w == 0 && dk == 1) {
        0
    } else {
        20_000 * 20_000 * 10_000 * dot_with(
            hashed_gradient(perlin, i + di, j + dj, k + dk),
            u - di * 20000,
            v - dj * 20000,
            w - dk * 20000,
        )
    }) by {
        let g = hashed_gradient(perlin, i + di, j + dj, k + dk);
        assert(perlin.corner_gradient(i + di, j + dj, k + dk) == g);
        let a = side_weight(di, smooth(u));
        let b = side_weight(dj, smooth(v));
        let c = side_weight(dk, smooth(w));
        let x = dot_with(g, u - di * s, v - dj * s, w - dk * s);
        if (u == 0 && di == 1) || (v == 0 && dj == 1) || (w == 0 && dk == 1) {
            assert(a == 0 || b == 0 || c == 0);
            assert(a * b * c * x == 0) by (nonlinear_arith)
                requires
                    a == 0 || b == 0 || c == 0,
            ;
        } else {
            assert((a == 20000 || a == 10000) && (b == 20000 || b == 10000) && (c == 20000 || c == 10000));
            assert(a * b * c == 20_000 * 20_000 * 10_000) by (nonlinear_arith)
                requires
                    (a == 20000 || a == 10000) && (b == 20000 || b == 10000) && (c == 20000 || c == 10000),
                    (a == 10000 && b == 20000 && c == 20000) || (a == 20000 && b == 10000 && c == 20000) || (a == 20000
                        && b == 20000 && c == 10000),
            ;
        }
    }
}

/// Gradient noise vanishes on the lattice: at a point whose coordinates are
/// whole world units, the noise is zero whatever the tables hold.
pub proof fn lemma_noise_zero_on_lattice(perlin: Perlin, p: Point3)
    requires
        (p.e0 as int) % (UNITS_PER_WORLD as int) == 0,
        (p.e1 as int) % (UNITS_PER_WORLD as int) == 0,
        (p.e2 as int) % (UNITS_PER_WORLD as int) == 0,
    ensures
        perlin.spec_noise(p) == 0,
{
    let s = UNITS_PER_WORLD as int;
    lemma_smooth_values();
    vstd::arithmetic::div_mod::lemma_fundamental_div_mod(p.e0 as int, s);
    vstd::arithmetic::div_mod::lemma_fundamental_div_mod(p.e1 as int, s);
    vstd::arithmetic::div_mod::lemma_fundamental_div_mod(p.e2 as int, s);
    assert(frac(p.e0 as int) == 0 && frac(p.e1 as int) == 0 && frac(p.e2 as int) == 0);
    assert forall|di: int, dj: int, dk: int| 0 <= di < 2 && 0 <= dj < 2 && 0 <= dk < 2 implies #[trigger] perlin.corner_term(p, di, dj, dk) == 0 by {
        let g = perlin.corner_gradient(cell(p.e0 as int) + di, cell(p.e1 as int) + dj, cell(p.e2 as int) + dk);
        if di == 0 && dj == 0 && dk == 0 {
            assert(dot_with(g, 0, 0, 0) == 0);
            let a = side_weight(di, smooth(0));
            let b = side_weight(dj, smooth(0));
            let c = side_weight(dk, smooth(0));
            assert(a * b * c * 0 == 0) by (nonlinear_arith);
        } else {
            let a = side_weight(di, smooth(0));
            let b = side_weight(dj, smooth(0));
            let c = side_weight(dk, smooth(0));
            assert(a == 0 || b == 0 || c == 0);
            let x = dot_with(g, 0 - di * s, 0 - dj * s, 0 - dk * s);
            assert(a * b * c * x == 0) by (nonlinear_arith)
                requires
                    a == 0 || b == 0 || c == 0,
            ;
        }
    }
    assert(perlin.corner_term(p, 0, 0, 0) == 0);
    assert(perlin.corner_term(p, 0, 0, 1) == 0);
    assert(perlin.corner_term(p, 0, 1, 0) == 0);
    assert(perlin.corner_term(p, 0, 1, 1) == 0);
    assert(perlin.corner_term(p, 1, 0, 0) == 0);
    assert(perlin.corner_term(p, 1, 0, 1) == 0);
    assert(perlin.corner_term(p, 1, 1, 0) == 0);
    assert(perlin.corner_term(p, 1, 1, 1) == 0);
}

} // verus!

verus! {

/// `2^k`.
pub open spec fn two_pow(k: nat) -> int
    decreases k,
{
    if k == 0 {
        1
    } else {
        2 * two_pow((k - 1) as nat)
    }
}

/// `p` doubled `k` times.
pub open spec fn doubled(p: Point3, k: nat) -> Point3
    decreases k,
{
    if k == 0 {
        p
    } else {
        let q = doubled(p, (k - 1) as nat);
        Vec3 { e0: (2 * q.e0) as i32, e1: (2 * q.e1) as i32, e2: (2 * q.e2) as i32 }
    }
}

/// `p` fits in `i32` after being doubled `k` times.
pub open spec fn fits_doubled(p: Point3, k: nat) -> bool {
    &&& i32::MIN <= p.e0 * two_pow(k) <= i32::MAX
    &&& i32::MIN <= p.e1 * two_pow(k) <= i32::MAX
    &&& i32::MIN <= p.e2 * two_pow(k) <= i32::MAX
}

proof fn lemma_two_pow_pos(k: nat)
    ensures
        two_pow(k) >= 1,
    decreases k,
{
    if k > 0 {
        lemma_two_pow_pos((k - 1) as nat);
    }
}

proof fn lemma_two_pow_mono(j: nat, k: nat)
    requires
        j <= k,
    ensures
        two_pow(j) <= two_pow(k),
    decreases k,
{
    lemma_two_pow_pos(k);
    if j < k {
        lemma_two_pow_mono(j, (k - 1) as nat);
    }
}

/// Doubling `k` times, away from overflow, multiplies each coordinate by `2^k`.
proof fn lemma_doubled(p: Point3, k: nat, n: nat)
    requires
        k <= n,
        fits_doubled(p, n),
    ensures
        doubled(p, k).e0 == p.e0 * two_pow(k),
        doubled(p, k).e1 == p.e1 * two_pow(k),
        doubled(p, k).e2 == p.e2 * two_pow(k),
        fits_doubled(p, k),
    decreases k,
{
    lemma_two_pow_mono(k, n);
    lemma_two_pow_pos(k);
    let tn = two_pow(n);
    assert forall|c: int| #![trigger c * two_pow(k)] i32::MIN <= c * tn <= i32::MAX implies i32::MIN <= c * two_pow(k) <= i32::MAX by {
        assert(i32::MIN <= c * two_pow(k) <= i32::MAX) by (nonlinear_arith)
            requires
                i32::MIN <= c * tn <= i32::MAX,
                1 <= two_pow(k) <= tn,
        ;
    }
    if k > 0 {
        lemma_doubled(p, (k - 1) as nat, n);
        let t = two_pow((k - 1) as nat);
        lemma_two_pow_mono(k, n);
        lemma_two_pow_pos(k);
        let tn = two_pow(n);
        assert forall|c: int| #![trigger c * two_pow(k)] i32::MIN <= c * tn <= i32::MAX implies i32::MIN <= c * two_pow(k) <= i32::MAX by {
            assert(i32::MIN <= c * two_pow(k) <= i32::MAX) by (nonlinear_arith)
                requires
                    i32::MIN <= c * tn <= i32::MAX,
                    1 <= two_pow(k) <= tn,
            ;
        }
        assert(2 * (p.e0 * t) == p.e0 * two_pow(k)) by (nonlinear_arith)
            requires
                two_pow(k) == 2 * t,
        ;
        assert(2 * (p.e1 * t) == p.e1 * two_pow(k)) by (nonlinear_arith)
            requires
                two_pow(k) == 2 * t,
        ;
        assert(2 * (p.e2 * t) == p.e2 * two_pow(k)) by (nonlinear_arith)
            requires
                two_pow(k) == 2 * t,
        ;
    }
}

/// Doubling a point already brought into the first period stays in range.
pub open spec fn twice(q: Point3) -> Point3 {
    Vec3 { e0: (2 * q.e0) as i32, e1: (2 * q.e1) as i32, e2: (2 * q.e2) as i32 }
}

/// The point at which octave `k` of the turbulence samples the noise: `p`
/// doubled `k` times, brought back into the first period after each step
/// (the noise repeats with that period, see `lemma_octave_point`).
#[verifier::opaque]
pub open spec fn octave_point(p: Point3, k: nat) -> Point3
    decreases k,
{
    if k == 0 {
        reduced(p)
    } else {
        reduced(twice(octave_point(p, (k - 1) as nat)))
    }
}

impl Perlin {
    /// Octave `k` of the turbulence: the noise at `octave_point(p, k)`
    /// weighted by `2^-k`, rounded toward zero.
    pub open spec fn octave(self, p: Point3, k: nat) -> int {
        div_toward_zero(self.spec_noise(octave_point(p, k)), two_pow(k))
    }

    /// The sum of the first `k` octaves.
    #[verifier::opaque]
    pub open spec fn turbulence_sum(self, p: Point3, k: nat) -> int
        decreases k,
    {
        if k == 0 {
            0
        } else {
            self.turbulence_sum(p, (k - 1) as nat) + self.octave(p, (k - 1) as nat)
        }
    }

    /// Turbulence: the magnitude of the sum of `depth` octaves of noise,
    /// octave `k` sampled at `2^k p` and weighted by `2^-k`. No depth is
    /// refused: from octave 48 on every octave is zero, the noise staying
    /// below `2^48` units.
    /// One more octave: the sum grows by the octave at the current point,
    /// and the next point is the current one doubled and brought back.
    proof fn lemma_octave_step(self, p: Point3, k: nat)
        ensures
            self.turbulence_sum(p, k + 1) == self.turbulence_sum(p, k) + div_toward_zero(
                self.spec_noise(octave_point(p, k)),
                two_pow(k),
            ),
            octave_point(p, k + 1) == reduced(twice(octave_point(p, k))),
            two_pow(k + 1) == 2 * two_pow(k),
            self.turbulence_sum(p, 0) == 0,
            octave_point(p, 0) == reduced(p),
    {
        reveal(Perlin::turbulence_sum);
        reveal(octave_point);
    }

    pub fn turbulence(&self, p: &Point3, depth: usize) -> (r: i64)
        requires
            self.wf(),
        ensures
            ({
                let s = self.turbulence_sum(*p, depth as nat);
                r == if s < 0 { -s } else { s }
            }),
    {
        let mut accum: i64 = 0;
        let mut temp_p: Point3 = Vec3::new(reduce_coord(p.x()), reduce_coord(p.y()), reduce_coord(p.z()));
        let mut weight: i64 = 1;
        let mut k: usize = 0;
        proof {
            self.lemma_octave_step(*p, 0);
            assert(two_pow(0) == 1);
            assert(two_pow(48) == 0x1_0000_0000_0000) by {
                reveal_with_fuel(two_pow, 49);
            }
        }
        while k < depth
            invariant
                k <= depth,
                self.wf(),
                two_pow(48) == 0x1_0000_0000_0000,
                temp_p == octave_point(*p, k as nat),
                0 <= temp_p.e0 < 5_120_000,
                0 <= temp_p.e1 < 5_120_000,
                0 <= temp_p.e2 < 5_120_000,
                accum == self.turbulence_sum(*p, k as nat),
                -0x1_0000_0000_0000 * 48 <= accum <= 0x1_0000_0000_0000 * 48,
                k <= 48 ==> -0x1_0000_0000_0000 * k <= accum <= 0x1_0000_0000_0000 * k,
                k <= 48 ==> weight == two_pow(k as nat),
                k > 48 ==> weight == two_pow(48),
                1 <= weight <= 0x1_0000_0000_0000,
            decreases depth - k,
        {
            let n = self.noise(&temp_p);
            let ghost tk = two_pow(k as nat);
            proof {
                self.lemma_octave_step(*p, k as nat);
                assert(two_pow((k + 1) as nat) == 2 * tk);
                if k < 48 {
                    lemma_two_pow_mono((k + 1) as nat, 48);
                } else {
                    lemma_two_pow_mono(48, k as nat);
                }
            }
            let t: i64 = if k < 48 {
                if n >= 0 { n / weight } else { -((-n) / weight) }
            } else {
                0
            };
            proof {
                if k < 48 {
                    assert(t == div_toward_zero(n as int, tk));
                    assert(-0x1_0000_0000_0000 < t < 0x1_0000_0000_0000) by (nonlinear_arith)
                        requires
                            -0x1_0000_0000_0000 < n < 0x1_0000_0000_0000,
                            weight >= 1,
                            n >= 0 ==> t == n / weight,
                            n < 0 ==> t == -((-(n as int)) / (weight as int)),
                    ;
                } else {
                    if n >= 0 {
                        vstd::arithmetic::div_mod::lemma_basic_div(n as int, tk);
                    } else {
                        vstd::arithmetic::div_mod::lemma_basic_div(-n, tk);
                    }
                    assert(div_toward_zero(n as int, tk) == 0);
                }
            }
            accum = accum + t;
            let nx = reduce_coord(2 * temp_p.e0);
            let ny = reduce_coord(2 * temp_p.e1);
            let nz = reduce_coord(2 * temp_p.e2);
            proof {
                assert(twice(temp_p).e0 == 2 * temp_p.e0 && twice(temp_p).e1 == 2 * temp_p.e1 && twice(temp_p).e2 == 2 * temp_p.e2);
            }
            temp_p = Vec3::new(nx, ny, nz);
            if k < 48 {
                weight = 2 * weight;
            }
            k = k + 1;
        }
        if accum < 0 { -accum } else { accum }
    }
}

} // verus!

verus! {

/// The length of one period of the noise on each axis, in fixed point.
pub open spec fn period() -> int {
    POINT_COUNT * UNITS_PER_WORLD
}

/// A coordinate brought into the first period `[0, period())`.
pub open spec fn reduce(c: int) -> int {
    c % period()
}

/// A point brought into the first period on each axis.
pub open spec fn reduced(p: Point3) -> Point3 {
    Vec3 { e0: reduce(p.e0 as int) as i32, e1: reduce(p.e1 as int) as i32, e2: reduce(p.e2 as int) as i32 }
}

fn reduce_coord(c: i32) -> (r: i32)
    ensures
        r == reduce(c as int),
        0 <= r < 5_120_000,
{
    let per: i64 = 5_120_000;
    let shifted: i64 = c as i64 + per * 512;
    let r = shifted % per;
    proof {
        let ci = c as int;
        vstd::arithmetic::div_mod::lemma_fundamental_div_mod(ci, 5_120_000);
        vstd::arithmetic::div_mod::lemma_mod_bound(ci, 5_120_000);
        assert(shifted == (ci / 5_120_000 + 512) * 5_120_000 + ci % 5_120_000) by (nonlinear_arith)
            requires
                ci == 5_120_000 * (ci / 5_120_000) + ci % 5_120_000,
                shifted == ci + 5_120_000 * 512,
        ;
        vstd::arithmetic::div_mod::lemma_fundamental_div_mod_converse(
            shifted as int,
            5_120_000,
            ci / 5_120_000 + 512,
            ci % 5_120_000,
        );
    }
    r as i32
}

/// Moving a coordinate by whole periods moves its cell by whole multiples
/// of `POINT_COUNT` and keeps its place in the cell and its table indices.
proof fn lemma_coord_periodic(c: int, m: int, d: int)
    ensures
        frac(c + m * period()) == frac(c),
        (cell(c + m * period()) + d) % 256 == (cell(c) + d) % 256,
{
    let s = UNITS_PER_WORLD as int;
    vstd::arithmetic::div_mod::lemma_fundamental_div_mod(c, s);
    vstd::arithmetic::div_mod::lemma_mod_bound(c, s);
    assert(c + m * period() == (c / s + 256 * m) * s + c % s) by (nonlinear_arith)
        requires
            c == s * (c / s) + c % s,
            period() == 256 * s,
    ;
    vstd::arithmetic::div_mod::lemma_fundamental_div_mod_converse(c + m * period(), s, c / s + 256 * m, c % s);
    let k = c / s + d;
    vstd::arithmetic::div_mod::lemma_fundamental_div_mod(k, 256);
    vstd::arithmetic::div_mod::lemma_mod_bound(k, 256);
    assert(k + 256 * m == (k / 256 + m) * 256 + k % 256) by (nonlinear_arith)
        requires
            k == 256 * (k / 256) + k % 256,
    ;
    vstd::arithmetic::div_mod::lemma_fundamental_div_mod_converse(k + 256 * m, 256, k / 256 + m, k % 256);
}

/// The noise repeats every `POINT_COUNT` world units along each axis.
pub proof fn lemma_noise_periodic(perlin: Perlin, p: Point3, q: Point3, mx: int, my: int, mz: int)
    requires
        q.e0 == p.e0 + mx * period(),
        q.e1 == p.e1 + my * period(),
        q.e2 == p.e2 + mz * period(),
    ensures
        perlin.spec_noise(q) == perlin.spec_noise(p),
{
    assert forall|d: int| 0 <= d < 2 implies #[trigger] ((cell(q.e0 as int) + d) % 256) == (cell(p.e0 as int) + d) % 256
        && (cell(q.e1 as int) + d) % 256 == (cell(p.e1 as int) + d) % 256
        && (cell(q.e2 as int) + d) % 256 == (cell(p.e2 as int) + d) % 256 by {
        lemma_coord_periodic(p.e0 as int, mx, d);
        lemma_coord_periodic(p.e1 as int, my, d);
        lemma_coord_periodic(p.e2 as int, mz, d);
    }
    lemma_coord_periodic(p.e0 as int, mx, 0);
    lemma_coord_periodic(p.e1 as int, my, 0);
    lemma_coord_periodic(p.e2 as int, mz, 0);
    assert forall|di: int, dj: int, dk: int| 0 <= di < 2 && 0 <= dj < 2 && 0 <= dk < 2 implies #[trigger] perlin.corner_term(q, di, dj, dk) == perlin.corner_term(p, di, dj, dk) by {
        assert((cell(q.e0 as int) + di) % 256 == (cell(p.e0 as int) + di) % 256);
        assert((cell(q.e1 as int) + dj) % 256 == (cell(p.e1 as int) + dj) % 256);
        assert((cell(q.e2 as int) + dk) % 256 == (cell(p.e2 as int) + dk) % 256);
    }
    assert(perlin.corner_term(q, 0, 0, 0) == perlin.corner_term(p, 0, 0, 0));
    assert(perlin.corner_term(q, 0, 0, 1) == perlin.corner_term(p, 0, 0, 1));
    assert(perlin.corner_term(q, 0, 1, 0) == perlin.corner_term(p, 0, 1, 0));
    assert(perlin.corner_term(q, 0, 1, 1) == perlin.corner_term(p, 0, 1, 1));
    assert(perlin.corner_term(q, 1, 0, 0) == perlin.corner_term(p, 1, 0, 0));
    assert(perlin.corner_term(q, 1, 0, 1) == perlin.corner_term(p, 1, 0, 1));
    assert(perlin.corner_term(q, 1, 1, 0) == perlin.corner_term(p, 1, 1, 0));
    assert(perlin.corner_term(q, 1, 1, 1) == perlin.corner_term(p, 1, 1, 1));
}

proof fn lemma_reduce_shift(c: int, m: int)
    ensures
        reduce(c + m * period()) == reduce(c),
{
    let per = period();
    vstd::arithmetic::div_mod::lemma_fundamental_div_mod(c, per);
    vstd::arithmetic::div_mod::lemma_mod_bound(c, per);
    assert(c + m * per == (c / per + m) * per + c % per) by (nonlinear_arith)
        requires
            c == per * (c / per) + c % per,
    ;
    vstd::arithmetic::div_mod::lemma_fundamental_div_mod_converse(c + m * per, per, c / per + m, c % per);
}

proof fn lemma_octave_points_agree(p: Point3, q: Point3, k: nat)
    requires
        reduced(p) == reduced(q),
    ensures
        octave_point(p, k) == octave_point(q, k),
    decreases k,
{
    reveal(octave_point);
    if k > 0 {
        lemma_octave_points_agree(p, q, (k - 1) as nat);
    }
}

/// The turbulence repeats every `POINT_COUNT` world units along each axis.
pub proof fn lemma_turbulence_periodic(perlin: Perlin, p: Point3, q: Point3, mx: int, my: int, mz: int, depth: nat)
    requires
        q.e0 == p.e0 + mx * period(),
        q.e1 == p.e1 + my * period(),
        q.e2 == p.e2 + mz * period(),
    ensures
        perlin.turbulence_sum(q, depth) == perlin.turbulence_sum(p, depth),
    decreases depth,
{
    lemma_reduce_shift(p.e0 as int, mx);
    lemma_reduce_shift(p.e1 as int, my);
    lemma_reduce_shift(p.e2 as int, mz);
    assert(reduced(p) == reduced(q));
    reveal(Perlin::turbulence_sum);
    if depth > 0 {
        lemma_turbulence_periodic(perlin, p, q, mx, my, mz, (depth - 1) as nat);
        lemma_octave_points_agree(p, q, (depth - 1) as nat);
    }
}

/// Octave `k` samples the noise at `p` doubled `k` times (while that stays
/// within `i32`): the sampled point differs from it by whole periods.
pub proof fn lemma_octave_point(perlin: Perlin, p: Point3, k: nat)
    requires
        fits_doubled(p, k),
    ensures
        perlin.spec_noise(octave_point(p, k)) == perlin.spec_noise(doubled(p, k)),
{
    let m = lemma_octave_point_shift(p, k);
    lemma_noise_periodic(perlin, doubled(p, k), octave_point(p, k), m.0, m.1, m.2);
}

proof fn lemma_octave_point_shift(p: Point3, k: nat) -> (m: (int, int, int))
    requires
        fits_doubled(p, k),
    ensures
        octave_point(p, k).e0 == doubled(p, k).e0 + m.0 * period(),
        octave_point(p, k).e1 == doubled(p, k).e1 + m.1 * period(),
        octave_point(p, k).e2 == doubled(p, k).e2 + m.2 * period(),
        0 <= octave_point(p, k).e0 < 5_120_000,
        0 <= octave_point(p, k).e1 < 5_120_000,
        0 <= octave_point(p, k).e2 < 5_120_000,
    decreases k,
{
    reveal(octave_point);
    let o = octave_point(p, k);
    let per = period();
    if k == 0 {
        lemma_reduce_bounds(p);
        let mx = -(p.e0 as int / per);
        let my = -(p.e1 as int / per);
        let mz = -(p.e2 as int / per);
        (mx, my, mz)
    } else {
        let j = (k - 1) as nat;
        lemma_doubled(p, j, k);
        lemma_doubled(p, k, k);
        let a = lemma_octave_point_shift(p, j);
        let q = octave_point(p, j);
        let dq = doubled(p, j);
        let ax = a.0;
        let ay = a.1;
        let az = a.2;
        let w = twice(q);
        assert(w.e0 == 2 * q.e0 && w.e1 == 2 * q.e1 && w.e2 == 2 * q.e2);
        lemma_reduce_bounds(w);
        let t = two_pow(j);
        assert(two_pow(k) == 2 * t);
        assert(doubled(p, k).e0 == 2 * dq.e0 && doubled(p, k).e1 == 2 * dq.e1 && doubled(p, k).e2 == 2 * dq.e2) by (nonlinear_arith)
            requires
                doubled(p, k).e0 == p.e0 * two_pow(k),
                doubled(p, k).e1 == p.e1 * two_pow(k),
                doubled(p, k).e2 == p.e2 * two_pow(k),
                dq.e0 == p.e0 * t,
                dq.e1 == p.e1 * t,
                dq.e2 == p.e2 * t,
                two_pow(k) == 2 * t,
        ;
        let mx = 2 * ax - (w.e0 as int / per);
        let my = 2 * ay - (w.e1 as int / per);
        let mz = 2 * az - (w.e2 as int / per);
        assert(o == reduced(w));
        assert(o.e0 == doubled(p, k).e0 + mx * per) by (nonlinear_arith)
            requires
                o.e0 == w.e0 - (w.e0 as int / per) * per,
                w.e0 == 2 * q.e0,
                q.e0 == dq.e0 + ax * per,
                doubled(p, k).e0 == 2 * dq.e0,
                mx == 2 * ax - (w.e0 as int / per),
        ;
        assert(o.e1 == doubled(p, k).e1 + my * per) by (nonlinear_arith)
            requires
                o.e1 == w.e1 - (w.e1 as int / per) * per,
                w.e1 == 2 * q.e1,
                q.e1 == dq.e1 + ay * per,
                doubled(p, k).e1 == 2 * dq.e1,
                my == 2 * ay - (w.e1 as int / per),
        ;
        assert(o.e2 == doubled(p, k).e2 + mz * per) by (nonlinear_arith)
            requires
                o.e2 == w.e2 - (w.e2 as int / per) * per,
                w.e2 == 2 * q.e2,
                q.e2 == dq.e2 + az * per,
                doubled(p, k).e2 == 2 * dq.e2,
                mz == 2 * az - (w.e2 as int / per),
        ;
        (mx, my, mz)
    }
}

/// With no octave, or at a point of the lattice, the turbulence is zero.
pub proof fn lemma_turbulence_zero(perlin: Perlin, p: Point3, depth: nat)
    requires
        depth == 0 || ((p.e0 as int) % (UNITS_PER_WORLD as int) == 0 && (p.e1 as int) % (UNITS_PER_WORLD as int) == 0
            && (p.e2 as int) % (UNITS_PER_WORLD as int) == 0),
    ensures
        perlin.turbulence_sum(p, depth) == 0,
    decreases depth,
{
    reveal(Perlin::turbulence_sum);
    if depth > 0 {
        lemma_turbulence_zero(perlin, p, (depth - 1) as nat);
        let k = (depth - 1) as nat;
        lemma_octave_point_on_lattice(p, k);
        lemma_noise_zero_on_lattice(perlin, octave_point(p, k));
        assert(div_toward_zero(0, two_pow(k)) == 0) by {
            lemma_two_pow_pos(k);
        }
    }
}

proof fn lemma_octave_point_on_lattice(p: Point3, k: nat)
    requires
        (p.e0 as int) % (UNITS_PER_WORLD as int) == 0,
        (p.e1 as int) % (UNITS_PER_WORLD as int) == 0,
        (p.e2 as int) % (UNITS_PER_WORLD as int) == 0,
    ensures
        (octave_point(p, k).e0 as int) % (UNITS_PER_WORLD as int) == 0,
        (octave_point(p, k).e1 as int) % (UNITS_PER_WORLD as int) == 0,
        (octave_point(p, k).e2 as int) % (UNITS_PER_WORLD as int) == 0,
        0 <= octave_point(p, k).e0 < 5_120_000,
        0 <= octave_point(p, k).e1 < 5_120_000,
        0 <= octave_point(p, k).e2 < 5_120_000,
    decreases k,
{
    reveal(octave_point);
    let s = UNITS_PER_WORLD as int;
    let per = period();
    if k == 0 {
        lemma_reduce_bounds(p);
        lemma_lattice_reduce(p.e0 as int);
        lemma_lattice_reduce(p.e1 as int);
        lemma_lattice_reduce(p.e2 as int);
    } else {
        lemma_octave_point_on_lattice(p, (k - 1) as nat);
        let q = octave_point(p, (k - 1) as nat);
        let w = twice(q);
        assert(w.e0 == 2 * q.e0 && w.e1 == 2 * q.e1 && w.e2 == 2 * q.e2);
        lemma_reduce_bounds(w);
        lemma_lattice_double(q.e0 as int);
        lemma_lattice_double(q.e1 as int);
        lemma_lattice_double(q.e2 as int);
        lemma_lattice_reduce(w.e0 as int);
        lemma_lattice_reduce(w.e1 as int);
        lemma_lattice_reduce(w.e2 as int);
    }
}

proof fn lemma_lattice_double(c: int)
    requires
        c % (UNITS_PER_WORLD as int) == 0,
    ensures
        (2 * c) % (UNITS_PER_WORLD as int) == 0,
{
    let s = UNITS_PER_WORLD as int;
    vstd::arithmetic::div_mod::lemma_fundamental_div_mod(c, s);
    vstd::arithmetic::div_mod::lemma_fundamental_div_mod_converse(2 * c, s, 2 * (c / s), 0);
}

proof fn lemma_lattice_reduce(c: int)
    requires
        c % (UNITS_PER_WORLD as int) == 0,
    ensures
        reduce(c) % (UNITS_PER_WORLD as int) == 0,
{
    let s = UNITS_PER_WORLD as int;
    let per = period();
    vstd::arithmetic::div_mod::lemma_fundamental_div_mod(c, s);
    vstd::arithmetic::div_mod::lemma_fundamental_div_mod(c, per);
    let r = c - (c / per) * per;
    assert(r == reduce(c));
    assert(r == (c / s - (c / per) * 256) * s) by (nonlinear_arith)
        requires
            c == s * (c / s),
            r == c - (c / per) * per,
            per == 256 * s,
    ;
    vstd::arithmetic::div_mod::lemma_fundamental_div_mod_converse(r, s, c / s - (c / per) * 256, 0);
}

proof fn lemma_reduce_bounds(p: Point3)
    ensures
        0 <= reduced(p).e0 < 5_120_000,
        0 <= reduced(p).e1 < 5_120_000,
        0 <= reduced(p).e2 < 5_120_000,
        reduced(p).e0 == p.e0 - (p.e0 as int / period()) * period(),
        reduced(p).e1 == p.e1 - (p.e1 as int / period()) * period(),
        reduced(p).e2 == p.e2 - (p.e2 as int / period()) * period(),
{
    vstd::arithmetic::div_mod::lemma_fundamental_div_mod(p.e0 as int, period());
    vstd::arithmetic::div_mod::lemma_mod_bound(p.e0 as int, period());
    vstd::arithmetic::div_mod::lemma_fundamental_div_mod(p.e1 as int, period());
    vstd::arithmetic::div_mod::lemma_mod_bound(p.e1 as int, period());
    vstd::arithmetic::div_mod::lemma_fundamental_div_mod(p.e2 as int, period());
    vstd::arithmetic::div_mod::lemma_mod_bound(p.e2 as int, period());
}

} // verus!
