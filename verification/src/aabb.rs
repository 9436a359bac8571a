use vstd::prelude::*;
use crate::common::{MIN_EXTENT, UNITS_PER_WORLD};
use crate::interval::Interval;
use crate::ray::Ray;
use crate::vec3::{Point3, Vec3};

verus! {

/// An axis-aligned bounding box: one interval per axis.
#[derive(Clone, Copy, Debug, PartialEq, Eq, Structural)]
pub struct Aabb {
    pub x: Interval,
    pub y: Interval,
    pub z: Interval,
}

/// The interval spanned by two values, whichever order they come in.
pub open spec fn ordered_interval(a: int, b: int) -> Interval {
    if a <= b {
        Interval { min: a as i64, max: b as i64 }
    } else {
        Interval { min: b as i64, max: a as i64 }
    }
}

/// `iv`, padded by `MIN_EXTENT / 2` on each side when it is narrower than `MIN_EXTENT`.
pub open spec fn padded(iv: Interval) -> Interval {
    if iv.spec_size() < MIN_EXTENT {
        iv.spec_expand(MIN_EXTENT as int)
    } else {
        iv
    }
}

/// `p` lies strictly between `a` and `b`, whichever of the two is the larger.
pub open spec fn strictly_between(p: int, a: int, b: int) -> bool {
    (a < p && p < b) || (b < p && p < a)
}

/// On one axis, with faces at `iv.min` and `iv.max`, ray origin `o` and ray
/// direction `d`: at the rational ray parameter `p / q` (with `q > 0`; the
/// parameter `k` stands for `t = k / UNITS_PER_WORLD`) the ray lies strictly
/// between the two faces. Both sides are scaled by `q * UNITS_PER_WORLD`.
pub open spec fn inside_slab_at(iv: Interval, o: int, d: int, p: int, q: int) -> bool {
    let s = UNITS_PER_WORLD as int;
    strictly_between(o * s * q + p * d, iv.min * s * q, iv.max * s * q)
}

/// The rational `p / q` lies strictly between `ln / ld` and `hn / hd`
/// (all denominators positive).
spec fn between_bounds(ln: int, ld: int, hn: int, hd: int, p: int, q: int) -> bool {
    ln * q < p * ld && p * hd < hn * q
}

/// `a / b <= c / e < f / g` gives `a / b < f / g`.
proof fn lemma_rat_le_lt(a: int, b: int, c: int, e: int, f: int, g: int)
    requires
        b > 0,
        e > 0,
        g > 0,
        a * e <= c * b,
        c * g < f * e,
    ensures
        a * g < f * b,
{
    assert(a * e * g <= c * b * g) by (nonlinear_arith)
        requires
            a * e <= c * b,
            g > 0,
    ;
    assert(c * g * b < f * e * b) by (nonlinear_arith)
        requires
            c * g < f * e,
            b > 0,
    ;
    assert(a * e * g == e * (a * g)) by (nonlinear_arith);
    assert(c * b * g == c * g * b) by (nonlinear_arith);
    assert(f * e * b == e * (f * b)) by (nonlinear_arith);
    assert(a * g < f * b) by (nonlinear_arith)
        requires
            e * (a * g) < e * (f * b),
            e > 0,
    ;
}

/// `a / b < c / e <= f / g` gives `a / b < f / g`.
proof fn lemma_rat_lt_le(a: int, b: int, c: int, e: int, f: int, g: int)
    requires
        b > 0,
        e > 0,
        g > 0,
        a * e < c * b,
        c * g <= f * e,
    ensures
        a * g < f * b,
{
    assert(a * e * g < c * b * g) by (nonlinear_arith)
        requires
            a * e < c * b,
            g > 0,
    ;
    assert(c * g * b <= f * e * b) by (nonlinear_arith)
        requires
            c * g <= f * e,
            b > 0,
    ;
    assert(a * e * g == e * (a * g)) by (nonlinear_arith);
    assert(c * b * g == c * g * b) by (nonlinear_arith);
    assert(f * e * b == e * (f * b)) by (nonlinear_arith);
    assert(a * g < f * b) by (nonlinear_arith)
        requires
            e * (a * g) < e * (f * b),
            e > 0,
    ;
}

/// `x * q < y * q` with `q > 0` gives `x < y`.
proof fn lemma_cancel_lt(x: int, y: int, q: int)
    requires
        q > 0,
        x * q < y * q,
    ensures
        x < y,
{
    if x >= y {
        assert(x * q >= y * q) by (nonlinear_arith)
            requires
                x >= y,
                q > 0,
        ;
    }
}

/// Between two rationals `ln / ld < hn / hd` lies their midpoint.
proof fn lemma_midpoint(ln: int, ld: int, hn: int, hd: int)
    requires
        ld > 0,
        hd > 0,
        ln * hd < hn * ld,
    ensures
        2 * ld * hd > 0,
        between_bounds(ln, ld, hn, hd, ln * hd + hn * ld, 2 * ld * hd),
{
    let p = ln * hd + hn * ld;
    let q = 2 * ld * hd;
    assert(q > 0) by (nonlinear_arith)
        requires
            ld > 0,
            hd > 0,
            q == 2 * ld * hd,
    ;
    assert(ln * q < p * ld) by (nonlinear_arith)
        requires
            ld > 0,
            hd > 0,
            ln * hd < hn * ld,
            p == ln * hd + hn * ld,
            q == 2 * ld * hd,
    ;
    assert(p * hd < hn * q) by (nonlinear_arith)
        requires
            ld > 0,
            hd > 0,
            ln * hd < hn * ld,
            p == ln * hd + hn * ld,
            q == 2 * ld * hd,
    ;
}

/// On an axis the ray crosses (`d != 0`), being inside the slab at `p / q`
/// means lying strictly between the two face-crossing parameters `n0 / den`
/// and `n1 / den`, as computed by `Aabb::hit`.
proof fn lemma_slab_crossing(iv: Interval, o: int, d: int, p: int, q: int)
    requires
        q > 0,
        d != 0,
    ensures
        ({
            let s = UNITS_PER_WORLD as int;
            let n0 = if d > 0 { s * (iv.min - o) } else { s * (o - iv.min) };
            let n1 = if d > 0 { s * (iv.max - o) } else { s * (o - iv.max) };
            let den = if d > 0 { d } else { -d };
            inside_slab_at(iv, o, d, p, q) <==> ((n0 * q < p * den && p * den < n1 * q) || (n1 * q
                < p * den && p * den < n0 * q))
        }),
{
    let s = UNITS_PER_WORLD as int;
    let a = iv.min as int;
    let b = iv.max as int;
    assert(s * (a - o) * q == a * s * q - o * s * q) by (nonlinear_arith);
    assert(s * (b - o) * q == b * s * q - o * s * q) by (nonlinear_arith);
    assert(s * (o - a) * q == o * s * q - a * s * q) by (nonlinear_arith);
    assert(s * (o - b) * q == o * s * q - b * s * q) by (nonlinear_arith);
    assert(p * (-d) == -(p * d)) by (nonlinear_arith);
}

/// On an axis the ray runs parallel to (`d == 0`), the ray is inside the slab
/// at every parameter or at none, according to where its origin lies.
proof fn lemma_slab_parallel(iv: Interval, o: int, p: int, q: int)
    requires
        q > 0,
    ensures
        inside_slab_at(iv, o, 0, p, q) <==> strictly_between(o, iv.min as int, iv.max as int),
{
    let s = UNITS_PER_WORLD as int;
    let sq = s * q;
    assert(sq > 0) by (nonlinear_arith)
        requires
            s > 0,
            q > 0,
            sq == s * q,
    ;
    assert(o * s * q == o * sq && iv.min * s * q == iv.min * sq && iv.max * s * q == iv.max * sq)
        by (nonlinear_arith)
        requires
            sq == s * q,
    ;
    assert(p * 0 == 0);
    assert forall|x: int, y: int| #[trigger] (x * sq) < #[trigger] (y * sq) <==> x < y by {
        if x < y {
            assert(x * sq < y * sq) by (nonlinear_arith)
                requires
                    x < y,
                    sq > 0,
            ;
        } else {
            assert(x * sq >= y * sq) by (nonlinear_arith)
                requires
                    x >= y,
                    sq > 0,
            ;
        }
    }
}

/// `|a| <= ba` and `|b| <= bb` bound `|a * b|` by `ba * bb`.
pub(crate) proof fn lemma_mul_bound(a: int, b: int, ba: int, bb: int)
    requires
        -ba <= a <= ba,
        -bb <= b <= bb,
    ensures
        -(ba * bb) <= a * b <= ba * bb,
{
    assert(-(ba * bb) <= a * b <= ba * bb) by (nonlinear_arith)
        requires
            -ba <= a <= ba,
            -bb <= b <= bb,
    ;
}

impl Aabb {
    /// At the rational ray parameter `p / q` the ray lies strictly inside
    /// the box on every axis.
    pub open spec fn inside_at(self, r: Ray, p: int, q: int) -> bool {
        &&& inside_slab_at(self.x, r.orig.e0 as int, r.dir.e0 as int, p, q)
        &&& inside_slab_at(self.y, r.orig.e1 as int, r.dir.e1 as int, p, q)
        &&& inside_slab_at(self.z, r.orig.e2 as int, r.dir.e2 as int, p, q)
    }

    /// At the rational ray parameter `p / q`, strictly inside `ray_t`, the
    /// ray lies strictly inside the box.
    pub open spec fn hits_at(self, r: Ray, ray_t: Interval, p: int, q: int) -> bool {
        &&& q > 0
        &&& ray_t.min * q < p
        &&& p < ray_t.max * q
        &&& self.inside_at(r, p, q)
    }

    /// Some rational ray parameter strictly inside `ray_t` puts the ray
    /// strictly inside the box.
    pub open spec fn spec_hit(self, r: Ray, ray_t: Interval) -> bool {
        exists|p: int, q: int| #[trigger] self.hits_at(r, ray_t, p, q)
    }

    /// The ray at `p / q` is inside `ray_t` and inside the first `k` slabs.
    spec fn inside_first_slabs(self, r: Ray, ray_t: Interval, k: int, p: int, q: int) -> bool {
        &&& ray_t.min * q < p
        &&& p < ray_t.max * q
        &&& (k > 0 ==> inside_slab_at(self.x, r.orig.e0 as int, r.dir.e0 as int, p, q))
        &&& (k > 1 ==> inside_slab_at(self.y, r.orig.e1 as int, r.dir.e1 as int, p, q))
        &&& (k > 2 ==> inside_slab_at(self.z, r.orig.e2 as int, r.dir.e2 as int, p, q))
    }

    /// The slab test: whether the ray, at some parameter strictly inside
    /// `ray_t`, passes strictly inside the box. Computed exactly, with the
    /// face-crossing parameters held as rationals.
    pub fn hit(&self, r: &Ray, ray_t: Interval) -> (res: bool)
        ensures
            res == self.spec_hit(*r, ray_t),
    {
        let s: i128 = UNITS_PER_WORLD as i128;
        let mut lo_n: i128 = ray_t.min as i128;
        let mut lo_d: i128 = 1;
        let mut hi_n: i128 = ray_t.max as i128;
        let mut hi_d: i128 = 1;
        let mut axis: usize = 0;
        let ghost bn: int = 0x1_0000_0000_0000_0000_0000;
        let ghost bd: int = 0x8000_0000;
        while axis < 3
            invariant
                axis <= 3,
                s == UNITS_PER_WORLD,
                1 <= lo_d <= bd,
                1 <= hi_d <= bd,
                -bn <= lo_n <= bn,
                -bn <= hi_n <= bn,
                bn == 0x1_0000_0000_0000_0000_0000,
                bd == 0x8000_0000,
                axis > 0 ==> lo_n * hi_d < hi_n * lo_d,
                forall|p: int, q: int|
                    q > 0 ==> (#[trigger] self.inside_first_slabs(*r, ray_t, axis as int, p, q)
                        <==> between_bounds(
                        lo_n as int,
                        lo_d as int,
                        hi_n as int,
                        hi_d as int,
                        p,
                        q,
                    )),
            decreases 3 - axis,
        {
            let ax = self.axis_interval(axis);
            let o: i128 = r.origin().get_index(axis) as i128;
            let d: i128 = r.direction().get_index(axis) as i128;
            let ghost old_lo_n = lo_n as int;
            let ghost old_lo_d = lo_d as int;
            let ghost old_hi_n = hi_n as int;
            let ghost old_hi_d = hi_d as int;
            assert(ax == self.axis(axis as int));
            if d == 0 {
                let amin = ax.min as i128;
                let amax = ax.max as i128;
                if !((amin < o && o < amax) || (amax < o && o < amin)) {
                    proof {
                        assert forall|p: int, q: int| !#[trigger] self.hits_at(*r, ray_t, p, q) by {
                            if q > 0 {
                                lemma_slab_parallel(ax, o as int, p, q);
                            }
                        }
                    }
                    return false;
                }
                proof {
                    assert forall|p: int, q: int|
                        q > 0 implies (#[trigger] self.inside_first_slabs(
                        *r,
                        ray_t,
                        axis + 1,
                        p,
                        q,
                    ) <==> between_bounds(
                        lo_n as int,
                        lo_d as int,
                        hi_n as int,
                        hi_d as int,
                        p,
                        q,
                    )) by {
                        lemma_slab_parallel(ax, o as int, p, q);
                        assert(self.inside_first_slabs(*r, ray_t, axis as int, p, q)
                            <==> between_bounds(
                            lo_n as int,
                            lo_d as int,
                            hi_n as int,
                            hi_d as int,
                            p,
                            q,
                        ));
                    }
                }
            } else {
                let amin = ax.min as i128;
                let amax = ax.max as i128;
                let n0: i128;
                let n1: i128;
                let den: i128;
                if d > 0 {
                    n0 = s * (amin - o);
                    n1 = s * (amax - o);
                    den = d;
                } else {
                    n0 = s * (o - amin);
                    n1 = s * (o - amax);
                    den = -d;
                }
                proof {
                    lemma_mul_bound(n0 as int, lo_d as int, bn, bd);
                    lemma_mul_bound(lo_n as int, den as int, bn, bd);
                    lemma_mul_bound(n1 as int, lo_d as int, bn, bd);
                    lemma_mul_bound(n0 as int, hi_d as int, bn, bd);
                    lemma_mul_bound(hi_n as int, den as int, bn, bd);
                    lemma_mul_bound(n1 as int, hi_d as int, bn, bd);
                }
                if n0 < n1 {
                    if n0 * lo_d > lo_n * den {
                        lo_n = n0;
                        lo_d = den;
                    }
                    if n1 * hi_d < hi_n * den {
                        hi_n = n1;
                        hi_d = den;
                    }
                } else {
                    if n1 * lo_d > lo_n * den {
                        lo_n = n1;
                        lo_d = den;
                    }
                    if n0 * hi_d < hi_n * den {
                        hi_n = n0;
                        hi_d = den;
                    }
                }
                proof {
                    assert forall|p: int, q: int|
                        q > 0 implies (#[trigger] self.inside_first_slabs(
                        *r,
                        ray_t,
                        axis + 1,
                        p,
                        q,
                    ) <==> between_bounds(
                        lo_n as int,
                        lo_d as int,
                        hi_n as int,
                        hi_d as int,
                        p,
                        q,
                    )) by {
                        lemma_slab_crossing(ax, o as int, d as int, p, q);
                        assert(self.inside_first_slabs(*r, ray_t, axis as int, p, q)
                            <==> between_bounds(old_lo_n, old_lo_d, old_hi_n, old_hi_d, p, q));
                        let t0 = n0 as int;
                        let t1 = n1 as int;
                        let dn = den as int;
                        if t0 < t1 {
                            if t1 * q < p * dn && p * dn < t0 * q {
                                lemma_cancel_lt(t1, t0, q);
                            }
                            // the lower bound
                            if t0 * old_lo_d > old_lo_n * dn {
                                if t0 * q < p * dn {
                                    lemma_rat_le_lt(old_lo_n, old_lo_d, t0, dn, p, q);
                                }
                            } else {
                                if old_lo_n * q < p * old_lo_d {
                                    lemma_rat_le_lt(t0, dn, old_lo_n, old_lo_d, p, q);
                                }
                            }
                            // the upper bound
                            if t1 * old_hi_d < old_hi_n * dn {
                                if p * dn < t1 * q {
                                    lemma_rat_lt_le(p, q, t1, dn, old_hi_n, old_hi_d);
                                }
                            } else {
                                if p * old_hi_d < old_hi_n * q {
                                    lemma_rat_lt_le(p, q, old_hi_n, old_hi_d, t1, dn);
                                }
                            }
                        } else {
                            if t0 * q < p * dn && p * dn < t1 * q {
                                lemma_cancel_lt(t0, t1, q);
                            }
                            if t1 * old_lo_d > old_lo_n * dn {
                                if t1 * q < p * dn {
                                    lemma_rat_le_lt(old_lo_n, old_lo_d, t1, dn, p, q);
                                }
                            } else {
                                if old_lo_n * q < p * old_lo_d {
                                    lemma_rat_le_lt(t1, dn, old_lo_n, old_lo_d, p, q);
                                }
                            }
                            if t0 * old_hi_d < old_hi_n * dn {
                                if p * dn < t0 * q {
                                    lemma_rat_lt_le(p, q, t0, dn, old_hi_n, old_hi_d);
                                }
                            } else {
                                if p * old_hi_d < old_hi_n * q {
                                    lemma_rat_lt_le(p, q, old_hi_n, old_hi_d, t0, dn);
                                }
                            }
                        }
                    }
                }
            }
            proof {
                lemma_mul_bound(hi_n as int, lo_d as int, bn, bd);
                lemma_mul_bound(lo_n as int, hi_d as int, bn, bd);
            }
            if hi_n * lo_d <= lo_n * hi_d {
                proof {
                    assert forall|p: int, q: int| !#[trigger] self.hits_at(*r, ray_t, p, q) by {
                        if q > 0 && self.hits_at(*r, ray_t, p, q) {
                            assert(self.inside_first_slabs(*r, ray_t, axis + 1, p, q));
                            lemma_rat_lt_le(
                                lo_n as int,
                                lo_d as int,
                                p,
                                q,
                                hi_n as int,
                                hi_d as int,
                            );
                        }
                    }
                }
                return false;
            }
            axis = axis + 1;
        }
        proof {
            lemma_midpoint(lo_n as int, lo_d as int, hi_n as int, hi_d as int);
            let p = lo_n * hi_d + hi_n * lo_d;
            let q = 2 * lo_d * hi_d;
            assert(self.inside_first_slabs(*r, ray_t, 3, p, q));
            assert(self.hits_at(*r, ray_t, p, q));
        }
        true
    }

    /// The interval of axis `n` (0 = x, 1 = y, anything else = z).
    pub open spec fn axis(self, n: int) -> Interval {
        if n == 0 {
            self.x
        } else if n == 1 {
            self.y
        } else {
            self.z
        }
    }

    /// `self` with every axis narrower than `MIN_EXTENT` padded.
    pub open spec fn spec_padded(self) -> Aabb {
        Aabb { x: padded(self.x), y: padded(self.y), z: padded(self.z) }
    }

    /// The box tightly enclosing the boxes `a` and `b`.
    pub open spec fn spec_hull(a: Aabb, b: Aabb) -> Aabb {
        Aabb {
            x: Interval::spec_hull(a.x, b.x),
            y: Interval::spec_hull(a.y, b.y),
            z: Interval::spec_hull(a.z, b.z),
        }
    }

    /// The box of the three intervals, as given.
    pub fn new(x: Interval, y: Interval, z: Interval) -> (r: Aabb)
        ensures
            r == (Aabb { x, y, z }),
    {
        Aabb { x, y, z }
    }

    /// The box that holds nothing: every axis empty.
    pub open spec fn empty_value() -> Aabb {
        Aabb { x: Interval::empty_value(), y: Interval::empty_value(), z: Interval::empty_value() }
    }

    /// The box that holds nothing.
    pub fn empty() -> (r: Aabb)
        ensures
            r == Self::empty_value(),
    {
        Aabb { x: Interval::empty(), y: Interval::empty(), z: Interval::empty() }
    }

    /// The box of the three intervals, each padded to at least `MIN_EXTENT`.
    pub fn from_intervals(x: Interval, y: Interval, z: Interval) -> (r: Aabb)
        ensures
            r == (Aabb { x, y, z }).spec_padded(),
    {
        let mut a = Aabb { x, y, z };
        a.pad_to_minimums();
        a
    }

    /// The box with corners `a` and `b`, in any coordinate order, padded to at
    /// least `MIN_EXTENT` on each axis.
    pub fn from_points(a: Point3, b: Point3) -> (r: Aabb)
        ensures
            r == (Aabb {
                x: ordered_interval(a.e0 as int, b.e0 as int),
                y: ordered_interval(a.e1 as int, b.e1 as int),
                z: ordered_interval(a.e2 as int, b.e2 as int),
            }).spec_padded(),
    {
        let x = if a.x() <= b.x() {
            Interval::new(a.x() as i64, b.x() as i64)
        } else {
            Interval::new(b.x() as i64, a.x() as i64)
        };
        let y = if a.y() <= b.y() {
            Interval::new(a.y() as i64, b.y() as i64)
        } else {
            Interval::new(b.y() as i64, a.y() as i64)
        };
        let z = if a.z() <= b.z() {
            Interval::new(a.z() as i64, b.z() as i64)
        } else {
            Interval::new(b.z() as i64, a.z() as i64)
        };
        let mut bbox = Aabb { x, y, z };
        bbox.pad_to_minimums();
        bbox
    }

    /// The box tightly enclosing the two boxes.
    pub fn from_aabbs(box0: Aabb, box1: Aabb) -> (r: Aabb)
        ensures
            r == Self::spec_hull(box0, box1),
    {
        Aabb {
            x: Interval::from_intervals(box0.x, box1.x),
            y: Interval::from_intervals(box0.y, box1.y),
            z: Interval::from_intervals(box0.z, box1.z),
        }
    }

    /// Pads every axis narrower than `MIN_EXTENT`, so that no side is thinner than it.
    fn pad_to_minimums(&mut self)
        ensures
            *final(self) == old(self).spec_padded(),
    {
        let delta = MIN_EXTENT;
        if self.x.size() < delta as i128 {
            self.x = self.x.expand(delta);
        }
        if self.y.size() < delta as i128 {
            self.y = self.y.expand(delta);
        }
        if self.z.size() < delta as i128 {
            self.z = self.z.expand(delta);
        }
    }

    /// The interval of axis `n`: 0 = x, 1 = y, anything else = z.
    pub fn axis_interval(&self, n: usize) -> (r: Interval)
        ensures
            r == self.axis(n as int),
    {
        if n == 0 {
            self.x
        } else if n == 1 {
            self.y
        } else {
            self.z
        }
    }

    /// The index of the longest axis; ties go to the later axis.
    pub open spec fn spec_longest_axis(self) -> int {
        if self.x.spec_size() > self.y.spec_size() {
            if self.x.spec_size() > self.z.spec_size() {
                0
            } else {
                2
            }
        } else {
            if self.y.spec_size() > self.z.spec_size() {
                1
            } else {
                2
            }
        }
    }

    /// The index of the longest axis of the box.
    pub fn longest_axis(&self) -> (r: usize)
        ensures
            r == self.spec_longest_axis(),
            r < 3,
    {
        if self.x.size() > self.y.size() {
            if self.x.size() > self.z.size() {
                0
            } else {
                2
            }
        } else {
            if self.y.size() > self.z.size() {
                1
            } else {
                2
            }
        }
    }

    /// The box moved by `offset`, then padded to at least `MIN_EXTENT`.
    pub open spec fn moved_by(self, offset: Vec3) -> Aabb {
        (Aabb {
            x: self.x.spec_shift(offset.e0 as int),
            y: self.y.spec_shift(offset.e1 as int),
            z: self.z.spec_shift(offset.e2 as int),
        }).spec_padded()
    }

    /// The box moved by `offset`, then padded to at least `MIN_EXTENT`.
    pub fn add(self, offset: Vec3) -> (r: Aabb)
        ensures
            r == (Aabb {
                x: self.x.spec_shift(offset.e0 as int),
                y: self.y.spec_shift(offset.e1 as int),
                z: self.z.spec_shift(offset.e2 as int),
            }).spec_padded(),
            r == self.moved_by(offset),
    {
        Aabb::from_intervals(
            self.x.add(offset.x() as i64),
            self.y.add(offset.y() as i64),
            self.z.add(offset.z() as i64),
        )
    }
}

} // verus!

verus! {

/// `box + offset`: the box moved by `offset`, then padded.
impl core::ops::Add<Vec3> for Aabb {
    type Output = Aabb;

    fn add(self, offset: Vec3) -> (r: Aabb)
        ensures
            r == self.moved_by(offset),
    {
        Aabb::add(self, offset)
    }
}

impl vstd::std_specs::ops::AddSpecImpl<Vec3> for Aabb {
    open spec fn obeys_add_spec() -> bool {
        true
    }

    open spec fn add_req(self, rhs: Vec3) -> bool {
        true
    }

    open spec fn add_spec(self, rhs: Vec3) -> Aabb {
        self.moved_by(rhs)
    }
}

/// `offset + box`: the same box as `box + offset`.
impl core::ops::Add<Aabb> for Vec3 {
    type Output = Aabb;

    fn add(self, bbox: Aabb) -> (r: Aabb)
        ensures
            r == bbox.moved_by(self),
    {
        Aabb::add(bbox, self)
    }
}

impl vstd::std_specs::ops::AddSpecImpl<Aabb> for Vec3 {
    open spec fn obeys_add_spec() -> bool {
        true
    }

    open spec fn add_req(self, rhs: Aabb) -> bool {
        true
    }

    open spec fn add_spec(self, rhs: Aabb) -> Aabb {
        rhs.moved_by(self)
    }
}

impl Default for Aabb {
    /// The default box holds nothing: each axis is the default (empty) interval.
    fn default() -> (r: Aabb)
        ensures
            r == Aabb::empty_value(),
    {
        Aabb::empty()
    }
}

} // verus!

verus! {

impl Aabb {
    /// Every axis of `inner` lies within the same axis of `self`.
    pub open spec fn encloses(self, inner: Aabb) -> bool {
        &&& self.x.min <= inner.x.min && inner.x.max <= self.x.max
        &&& self.y.min <= inner.y.min && inner.y.max <= self.y.max
        &&& self.z.min <= inner.z.min && inner.z.max <= self.z.max
    }

    /// Every axis runs from its `min` up to its `max`.
    pub open spec fn is_ordered(self) -> bool {
        self.x.min <= self.x.max && self.y.min <= self.y.max && self.z.min <= self.z.max
    }

    /// The point (in world units) lies in the box, faces included.
    pub open spec fn holds_point(self, p: Point3) -> bool {
        self.x.spec_contains(p.e0 as int) && self.y.spec_contains(p.e1 as int)
            && self.z.spec_contains(p.e2 as int)
    }
}

/// The box of two boxes encloses each of them.
pub proof fn lemma_from_aabbs_encloses(a: Aabb, b: Aabb)
    ensures
        Aabb::spec_hull(a, b).encloses(a),
        Aabb::spec_hull(a, b).encloses(b),
        a.is_ordered() ==> Aabb::spec_hull(a, b).is_ordered(),
{
}

/// Joining boxes is commutative, associative and idempotent, and the empty
/// box is its identity.
pub proof fn lemma_from_aabbs_algebra(a: Aabb, b: Aabb, c: Aabb)
    ensures
        Aabb::spec_hull(a, b) == Aabb::spec_hull(b, a),
        Aabb::spec_hull(Aabb::spec_hull(a, b), c) == Aabb::spec_hull(a, Aabb::spec_hull(b, c)),
        Aabb::spec_hull(a, a) == a,
        Aabb::spec_hull(Aabb::empty_value(), a) == a,
{
}

/// Enclosure is reflexive and transitive.
pub proof fn lemma_encloses_order(a: Aabb, b: Aabb, c: Aabb)
    ensures
        a.encloses(a),
        a.encloses(b) && b.encloses(c) ==> a.encloses(c),
{
}

/// The box of two points holds both points, runs from min to max on every
/// axis, and is at least `MIN_EXTENT` thick on every axis.
pub proof fn lemma_from_points_holds(a: Point3, b: Point3)
    ensures
        ({
            let bx = (Aabb {
                x: ordered_interval(a.e0 as int, b.e0 as int),
                y: ordered_interval(a.e1 as int, b.e1 as int),
                z: ordered_interval(a.e2 as int, b.e2 as int),
            }).spec_padded();
            &&& bx.holds_point(a)
            &&& bx.holds_point(b)
            &&& bx.is_ordered()
            &&& bx.x.spec_size() >= MIN_EXTENT
            &&& bx.y.spec_size() >= MIN_EXTENT
            &&& bx.z.spec_size() >= MIN_EXTENT
        }),
{
}

/// Padding never shrinks a box, and leaves a box that is already thick
/// enough unchanged.
pub proof fn lemma_padding_encloses(b: Aabb)
    ensures
        b.spec_padded().encloses(b),
        b.x.spec_size() >= MIN_EXTENT && b.y.spec_size() >= MIN_EXTENT && b.z.spec_size()
            >= MIN_EXTENT ==> b.spec_padded() == b,
{
}

/// The longest axis is at least as long as each of the others.
pub proof fn lemma_longest_axis_is_longest(b: Aabb)
    ensures
        0 <= b.spec_longest_axis() < 3,
        b.axis(b.spec_longest_axis()).spec_size() >= b.x.spec_size(),
        b.axis(b.spec_longest_axis()).spec_size() >= b.y.spec_size(),
        b.axis(b.spec_longest_axis()).spec_size() >= b.z.spec_size(),
{
}

proof fn lemma_slab_widen(inner: Interval, outer: Interval, o: int, d: int, p: int, q: int)
    requires
        q > 0,
        inner.min <= inner.max,
        outer.min <= inner.min,
        inner.max <= outer.max,
        inside_slab_at(inner, o, d, p, q),
    ensures
        inside_slab_at(outer, o, d, p, q),
{
    let s = UNITS_PER_WORLD as int;
    assert(outer.min * s * q <= inner.min * s * q) by (nonlinear_arith)
        requires
            outer.min <= inner.min,
            s > 0,
            q > 0,
    ;
    assert(inner.max * s * q <= outer.max * s * q) by (nonlinear_arith)
        requires
            inner.max <= outer.max,
            s > 0,
            q > 0,
    ;
    assert(inner.min * s * q <= inner.max * s * q) by (nonlinear_arith)
        requires
            inner.min <= inner.max,
            s > 0,
            q > 0,
    ;
}

/// A ray that passes through a box also passes through every box that
/// encloses it (the box running from min to max on every axis).
pub proof fn lemma_hit_enclosing(inner: Aabb, outer: Aabb, r: Ray, ray_t: Interval)
    requires
        inner.is_ordered(),
        outer.encloses(inner),
        inner.spec_hit(r, ray_t),
    ensures
        outer.spec_hit(r, ray_t),
{
    let (p, q) = choose|p: int, q: int| #[trigger] inner.hits_at(r, ray_t, p, q);
    lemma_slab_widen(inner.x, outer.x, r.orig.e0 as int, r.dir.e0 as int, p, q);
    lemma_slab_widen(inner.y, outer.y, r.orig.e1 as int, r.dir.e1 as int, p, q);
    lemma_slab_widen(inner.z, outer.z, r.orig.e2 as int, r.dir.e2 as int, p, q);
    assert(outer.hits_at(r, ray_t, p, q));
}

/// Widening the range of ray parameters keeps every hit.
pub proof fn lemma_hit_wider_range(b: Aabb, r: Ray, ray_t: Interval, wider: Interval)
    requires
        wider.min <= ray_t.min,
        ray_t.max <= wider.max,
        b.spec_hit(r, ray_t),
    ensures
        b.spec_hit(r, wider),
{
    let (p, q) = choose|p: int, q: int| #[trigger] b.hits_at(r, ray_t, p, q);
    assert(wider.min * q <= ray_t.min * q) by (nonlinear_arith)
        requires
            wider.min <= ray_t.min,
            q > 0,
    ;
    assert(ray_t.max * q <= wider.max * q) by (nonlinear_arith)
        requires
            ray_t.max <= wider.max,
            q > 0,
    ;
    assert(b.hits_at(r, wider, p, q));
}

/// A ray that passes through either of two boxes passes through the box
/// that joins them (each box running from min to max on every axis).
pub proof fn lemma_hit_from_aabbs(a: Aabb, b: Aabb, r: Ray, ray_t: Interval)
    requires
        a.is_ordered(),
        b.is_ordered(),
        a.spec_hit(r, ray_t) || b.spec_hit(r, ray_t),
    ensures
        Aabb::spec_hull(a, b).spec_hit(r, ray_t),
{
    if a.spec_hit(r, ray_t) {
        lemma_hit_enclosing(a, Aabb::spec_hull(a, b), r, ray_t);
    } else {
        lemma_hit_enclosing(b, Aabb::spec_hull(a, b), r, ray_t);
    }
}

} // verus!

verus! {

proof fn lemma_slab_shift(iv: Interval, off: int, o: int, d: int, p: int, q: int)
    requires
        q > 0,
        i64::MIN <= iv.min + off <= i64::MAX,
        i64::MIN <= iv.max + off <= i64::MAX,
    ensures
        inside_slab_at(iv.spec_shift(off), o, d, p, q) <==> inside_slab_at(iv, o - off, d, p, q),
{
    let s = UNITS_PER_WORLD as int;
    assert((iv.min + off) * s * q == iv.min * s * q + off * s * q) by (nonlinear_arith);
    assert((iv.max + off) * s * q == iv.max * s * q + off * s * q) by (nonlinear_arith);
    assert((o - off) * s * q == o * s * q - off * s * q) by (nonlinear_arith);
}

/// Moving a box by `offset` and testing a ray against it is the same as
/// testing the ray moved back by `offset` against the unmoved box (for a box
/// at least `MIN_EXTENT` thick on every axis, away from the ends of the
/// integer ranges).
pub proof fn lemma_hit_translated(b: Aabb, offset: Vec3, r: Ray, ray_t: Interval)
    requires
        b.x.spec_size() >= MIN_EXTENT,
        b.y.spec_size() >= MIN_EXTENT,
        b.z.spec_size() >= MIN_EXTENT,
        i64::MIN <= b.x.min + offset.e0 && b.x.max + offset.e0 <= i64::MAX,
        i64::MIN <= b.y.min + offset.e1 && b.y.max + offset.e1 <= i64::MAX,
        i64::MIN <= b.z.min + offset.e2 && b.z.max + offset.e2 <= i64::MAX,
        i32::MIN <= r.orig.e0 - offset.e0 <= i32::MAX,
        i32::MIN <= r.orig.e1 - offset.e1 <= i32::MAX,
        i32::MIN <= r.orig.e2 - offset.e2 <= i32::MAX,
    ensures
        ({
            let moved = (Aabb {
                x: b.x.spec_shift(offset.e0 as int),
                y: b.y.spec_shift(offset.e1 as int),
                z: b.z.spec_shift(offset.e2 as int),
            }).spec_padded();
            let back = Ray {
                orig: Vec3 {
                    e0: (r.orig.e0 - offset.e0) as i32,
                    e1: (r.orig.e1 - offset.e1) as i32,
                    e2: (r.orig.e2 - offset.e2) as i32,
                },
                dir: r.dir,
                tm: r.tm,
            };
            moved.spec_hit(r, ray_t) == b.spec_hit(back, ray_t)
        }),
{
    let shifted = Aabb {
        x: b.x.spec_shift(offset.e0 as int),
        y: b.y.spec_shift(offset.e1 as int),
        z: b.z.spec_shift(offset.e2 as int),
    };
    assert(shifted.spec_padded() == shifted);
    let back = Ray {
        orig: Vec3 {
            e0: (r.orig.e0 - offset.e0) as i32,
            e1: (r.orig.e1 - offset.e1) as i32,
            e2: (r.orig.e2 - offset.e2) as i32,
        },
        dir: r.dir,
        tm: r.tm,
    };
    assert forall|p: int, q: int| shifted.hits_at(r, ray_t, p, q) <==> b.hits_at(back, ray_t, p, q) by {
        if q > 0 {
            lemma_slab_shift(b.x, offset.e0 as int, r.orig.e0 as int, r.dir.e0 as int, p, q);
            lemma_slab_shift(b.y, offset.e1 as int, r.orig.e1 as int, r.dir.e1 as int, p, q);
            lemma_slab_shift(b.z, offset.e2 as int, r.orig.e2 as int, r.dir.e2 as int, p, q);
        }
    }
    if shifted.spec_hit(r, ray_t) {
        let (p, q) = choose|p: int, q: int| #[trigger] shifted.hits_at(r, ray_t, p, q);
        assert(b.hits_at(back, ray_t, p, q));
    }
    if b.spec_hit(back, ray_t) {
        let (p, q) = choose|p: int, q: int| #[trigger] b.hits_at(back, ray_t, p, q);
        assert(shifted.hits_at(r, ray_t, p, q));
    }
}

} // verus!
