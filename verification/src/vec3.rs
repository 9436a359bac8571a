use vstd::prelude::*;
use crate::common::{random_int, UNITS_PER_WORLD};

verus! {

/// A three-component fixed-point vector: a position, a direction or a colour.
#[derive(Clone, Copy, Debug, PartialEq, Eq, Structural)]
pub struct Vec3 {
    pub e0: i32,
    pub e1: i32,
    pub e2: i32,
}

/// A point in space.
pub type Point3 = Vec3;

/// An RGB colour, one channel per component.
pub type Color = Vec3;

impl Vec3 {
    /// Component `n` (0 = x, 1 = y, anything else = z).
    pub open spec fn coord(self, n: int) -> int {
        if n == 0 {
            self.e0 as int
        } else if n == 1 {
            self.e1 as int
        } else {
            self.e2 as int
        }
    }

    pub fn new(e0: i32, e1: i32, e2: i32) -> (r: Vec3)
        ensures
            r.e0 == e0,
            r.e1 == e1,
            r.e2 == e2,
    {
        Vec3 { e0, e1, e2 }
    }

    /// The zero vector.
    pub fn zero() -> (r: Vec3)
        ensures
            r.e0 == 0 && r.e1 == 0 && r.e2 == 0,
    {
        Vec3 { e0: 0, e1: 0, e2: 0 }
    }

    pub fn x(&self) -> (r: i32)
        ensures
            r == self.e0,
    {
        self.e0
    }

    pub fn y(&self) -> (r: i32)
        ensures
            r == self.e1,
    {
        self.e1
    }

    pub fn z(&self) -> (r: i32)
        ensures
            r == self.e2,
    {
        self.e2
    }

    /// Component `n`, for `n` in `0..3`.
    pub fn get_index(&self, n: usize) -> (r: i32)
        requires
            n < 3,
        ensures
            r == self.coord(n as int),
    {
        if n == 0 {
            self.e0
        } else if n == 1 {
            self.e1
        } else {
            self.e2
        }
    }

    /// Replaces component `n`, for `n` in `0..3`, leaving the others.
    pub fn set_index(&mut self, n: usize, value: i32)
        requires
            n < 3,
        ensures
            final(self).coord(n as int) == value,
            forall|m: int| 0 <= m < 3 && m != n ==> #[trigger] final(self).coord(m) == old(self).coord(m),
    {
        if n == 0 {
            self.e0 = value;
        } else if n == 1 {
            self.e1 = value;
        } else {
            self.e2 = value;
        }
    }
}

/// `r` is the integer square root of `n`: the largest integer whose square is at most `n`.
pub open spec fn is_isqrt(n: int, r: int) -> bool {
    r >= 0 && r * r <= n && n < (r + 1) * (r + 1)
}

/// The integer square root of `n`, by bisection.
pub fn isqrt(n: u64) -> (r: u64)
    ensures
        is_isqrt(n as int, r as int),
        r < 0x1_0000_0000,
{
    let mut lo: u64 = 0;
    let mut hi: u64 = 0x1_0000_0000;
    assert(hi * hi > n) by (nonlinear_arith)
        requires
            hi == 0x1_0000_0000,
            n <= u64::MAX,
    ;
    while hi - lo > 1
        invariant
            lo < hi <= 0x1_0000_0000,
            lo * lo <= n,
            n < hi * hi,
        decreases hi - lo,
    {
        let mid: u64 = lo + (hi - lo) / 2;
        assert(mid * mid <= 0x1_0000_0000 * 0x1_0000_0000) by (nonlinear_arith)
            requires
                mid <= 0x1_0000_0000,
        ;
        let sq: u128 = mid as u128 * mid as u128;
        if sq <= n as u128 {
            lo = mid;
        } else {
            hi = mid;
        }
    }
    assert(hi == lo + 1);
    lo
}

/// `|v|` of a component, as a natural number.
pub open spec fn abs(v: int) -> nat {
    if v < 0 {
        (-v) as nat
    } else {
        v as nat
    }
}

impl Vec3 {
    pub open spec fn spec_length_squared(self) -> int {
        self.e0 * self.e0 + self.e1 * self.e1 + self.e2 * self.e2
    }

    /// `x*x + y*y + z*z`.
    pub fn length_squared(&self) -> (r: u64)
        ensures
            r == self.spec_length_squared(),
    {
        let a = self.e0 as i64;
        let b = self.e1 as i64;
        let c = self.e2 as i64;
        assert(a * a <= 0x4000_0000_0000_0000 && b * b <= 0x4000_0000_0000_0000 && c * c <= 0x4000_0000_0000_0000)
            by (nonlinear_arith)
            requires
                -0x8000_0000 <= a <= 0x8000_0000,
                -0x8000_0000 <= b <= 0x8000_0000,
                -0x8000_0000 <= c <= 0x8000_0000,
        ;
        assert(a * a >= 0 && b * b >= 0 && c * c >= 0) by (nonlinear_arith);
        (a * a) as u64 + (b * b) as u64 + (c * c) as u64
    }

    /// The length of the vector, rounded down to an integer.
    pub fn length(&self) -> (r: u64)
        ensures
            is_isqrt(self.spec_length_squared(), r as int),
    {
        isqrt(self.length_squared())
    }

    /// A vector whose components are each drawn uniformly from `[min, max]`
    /// (from `(max, min]` for a reversed range).
    pub fn random_range(min: i32, max: i32) -> (r: Vec3)
        ensures
            min <= max ==> min <= r.e0 <= max && min <= r.e1 <= max && min <= r.e2 <= max,
            min > max ==> max < r.e0 <= min && max < r.e1 <= min && max < r.e2 <= min,
    {
        let e0 = random_int(min, max);
        let e1 = random_int(min, max);
        let e2 = random_int(min, max);
        Vec3 { e0, e1, e2 }
    }
}

/// The length of `v` in units of `1 / UNITS_PER_WORLD` of its own units,
/// rounded down: `floor(|v| * UNITS_PER_WORLD)`.
pub open spec fn scaled_length(v: Vec3) -> int {
    choose|len: int| #[trigger] is_isqrt(v.spec_length_squared() * UNITS_PER_WORLD * UNITS_PER_WORLD, len)
}

/// One component of `unit_vector`: `v * UNITS_PER_WORLD / |v|`, taken as
/// `v * UNITS_PER_WORLD^2 / len` for the scaled length `len`, rounded
/// toward zero.
pub open spec fn unit_component(v: int, len: int) -> int {
    let s = UNITS_PER_WORLD as int;
    if v < 0 {
        -((abs(v) * s * s) / len)
    } else {
        (abs(v) * s * s) / len
    }
}

/// The integer square root of a wide `n` (below `2^96`), by bisection.
fn isqrt_wide(n: u128) -> (r: u128)
    requires
        n < 0x1_0000_0000_0000_0000_0000_0000,
    ensures
        is_isqrt(n as int, r as int),
        r < 0x1_0000_0000_0000,
{
    let mut lo: u128 = 0;
    let mut hi: u128 = 0x1_0000_0000_0000;
    assert(hi * hi == 0x1_0000_0000_0000_0000_0000_0000) by (nonlinear_arith)
        requires
            hi == 0x1_0000_0000_0000,
    ;
    while hi - lo > 1
        invariant
            lo < hi <= 0x1_0000_0000_0000,
            lo * lo <= n,
            n < hi * hi,
        decreases hi - lo,
    {
        let mid: u128 = lo + (hi - lo) / 2;
        assert(mid * mid <= 0x1_0000_0000_0000 * 0x1_0000_0000_0000) by (nonlinear_arith)
            requires
                mid <= 0x1_0000_0000_0000,
        ;
        if mid * mid <= n {
            lo = mid;
        } else {
            hi = mid;
        }
    }
    assert(hi == lo + 1);
    lo
}

fn scale_component(v: i32, len: u128) -> (r: i32)
    requires
        len > 0,
        abs(v as int) * UNITS_PER_WORLD <= len,
    ensures
        r == unit_component(v as int, len as int),
        -UNITS_PER_WORLD <= r <= UNITS_PER_WORLD,
{
    let m: u128 = if v < 0 { (-(v as i64)) as u128 } else { v as u128 };
    let s: u128 = UNITS_PER_WORLD as u128;
    assert(m * s * s <= 0x8000_0000 * 20000 * 20000) by (nonlinear_arith)
        requires
            m <= 0x8000_0000,
            s == 20000,
    ;
    let scaled: u128 = m * s * s;
    let q: u128 = scaled / len;
    assert(q <= s) by (nonlinear_arith)
        requires
            m * s <= len,
            len > 0,
            scaled == m * s * s,
            q == scaled / len,
    ;
    if v < 0 {
        -(q as i32)
    } else {
        q as i32
    }
}

/// `v` scaled to length one world unit, each component rounded toward zero
/// (meaningful for a vector other than zero).
pub open spec fn spec_unit_vector(v: Vec3) -> Vec3 {
    let len = scaled_length(v);
    Vec3 {
        e0: unit_component(v.e0 as int, len) as i32,
        e1: unit_component(v.e1 as int, len) as i32,
        e2: unit_component(v.e2 as int, len) as i32,
    }
}

/// The vector scaled to length `UNITS_PER_WORLD` (one world unit), each
/// component rounded toward zero. The zero vector has no direction.
pub fn unit_vector(v: Vec3) -> (r: Vec3)
    requires
        v.spec_length_squared() > 0,
    ensures
        r == spec_unit_vector(v),
        r.e0 == unit_component(v.e0 as int, scaled_length(v)),
        r.e1 == unit_component(v.e1 as int, scaled_length(v)),
        r.e2 == unit_component(v.e2 as int, scaled_length(v)),
        -UNITS_PER_WORLD <= r.e0 <= UNITS_PER_WORLD,
        -UNITS_PER_WORLD <= r.e1 <= UNITS_PER_WORLD,
        -UNITS_PER_WORLD <= r.e2 <= UNITS_PER_WORLD,
{
    let ls = v.length_squared();
    let su: u128 = (UNITS_PER_WORLD * UNITS_PER_WORLD) as u128;
    assert(ls as u128 * su < 0x1_0000_0000_0000_0000_0000_0000) by (nonlinear_arith)
        requires
            ls <= u64::MAX,
            su == 400_000_000,
    ;
    let len = isqrt_wide(ls as u128 * su);
    proof {
        let n = v.spec_length_squared() * UNITS_PER_WORLD * UNITS_PER_WORLD;
        assert(ls as u128 * su == n) by (nonlinear_arith)
            requires
                ls == v.spec_length_squared(),
                su == 400_000_000,
                n == v.spec_length_squared() * 20000 * 20000,
        ;
        lemma_isqrt_unique(n, len as int);
        lemma_component_below_length(v, len as int);
    }
    Vec3 { e0: scale_component(v.e0, len), e1: scale_component(v.e1, len), e2: scale_component(v.e2, len) }
}

/// The integer square root is unique.
pub proof fn lemma_isqrt_unique(n: int, r: int)
    requires
        is_isqrt(n, r),
    ensures
        forall|s: int| #[trigger] is_isqrt(n, s) ==> s == r,
        (choose|len: int| is_isqrt(n, len)) == r,
{
    assert forall|s: int| #[trigger] is_isqrt(n, s) implies s == r by {
        if s < r {
            assert((s + 1) * (s + 1) <= r * r) by (nonlinear_arith)
                requires
                    0 <= s < r,
            ;
        } else if s > r {
            assert((r + 1) * (r + 1) <= s * s) by (nonlinear_arith)
                requires
                    0 <= r < s,
            ;
        }
    }
}

proof fn lemma_component_below_length(v: Vec3, len: int)
    requires
        is_isqrt(v.spec_length_squared() * UNITS_PER_WORLD * UNITS_PER_WORLD, len),
        v.spec_length_squared() > 0,
    ensures
        len > 0,
        abs(v.e0 as int) * UNITS_PER_WORLD <= len,
        abs(v.e1 as int) * UNITS_PER_WORLD <= len,
        abs(v.e2 as int) * UNITS_PER_WORLD <= len,
{
    let s = UNITS_PER_WORLD as int;
    let n = v.spec_length_squared() * s * s;
    assert(v.e0 * v.e0 >= 0 && v.e1 * v.e1 >= 0 && v.e2 * v.e2 >= 0) by (nonlinear_arith);
    assert((v.e0 * s) * (v.e0 * s) <= n && (v.e1 * s) * (v.e1 * s) <= n && (v.e2 * s) * (v.e2 * s) <= n && n >= s * s)
        by (nonlinear_arith)
        requires
            n == (v.e0 * v.e0 + v.e1 * v.e1 + v.e2 * v.e2) * s * s,
            v.e0 * v.e0 >= 0,
            v.e1 * v.e1 >= 0,
            v.e2 * v.e2 >= 0,
            v.e0 * v.e0 + v.e1 * v.e1 + v.e2 * v.e2 >= 1,
            s == 20000,
    ;
    assert(abs(v.e0 * s) == abs(v.e0 as int) * s && abs(v.e1 * s) == abs(v.e1 as int) * s && abs(v.e2 * s) == abs(v.e2 as int) * s);
    assert forall|c: int| #![trigger abs(c)] c * c <= n implies abs(c) <= len by {
        if abs(c) > len {
            assert((len + 1) * (len + 1) <= c * c) by (nonlinear_arith)
                requires
                    abs(c) >= len + 1,
                    len >= 0,
                    abs(c) == (if c < 0 { -c } else { c }),
            ;
        }
    }
    if len == 0 {
        assert((len + 1) * (len + 1) == 1) by (nonlinear_arith)
            requires
                len == 0,
        ;
    }
    assert(abs(v.e0 * s) <= len);
    assert(abs(v.e1 * s) <= len);
    assert(abs(v.e2 * s) <= len);
}

} // verus!
