use vstd::prelude::*;
use crate::common::{MIN_EXTENT, UNITS_PER_WORLD};
use crate::vec3::{Color, Point3};

verus! {

pub const TEX_SOLID: u32 = 0;
pub const TEX_CHECKER: u32 = 1;

pub const MAT_LAMBERTIAN: u32 = 0;
pub const MAT_METAL: u32 = 1;
pub const MAT_DIELECTRIC: u32 = 2;

/// A vector as the GPU scene holds it (fixed point).
#[derive(Clone, Copy, Debug, PartialEq, Eq, Structural)]
pub struct GpuVec3 {
    pub x: i64,
    pub y: i64,
    pub z: i64,
}

impl Default for GpuVec3 {
    /// The zero vector.
    fn default() -> (r: GpuVec3)
        ensures
            r == (GpuVec3 { x: 0, y: 0, z: 0 }),
    {
        GpuVec3 { x: 0, y: 0, z: 0 }
    }
}

/// A box by its two extreme corners.
#[derive(Clone, Copy, Debug, PartialEq, Eq, Structural)]
pub struct GpuAabb {
    pub min: GpuVec3,
    pub max: GpuVec3,
}

/// A sphere, possibly moving from `center0` to `center1`.
#[derive(Clone, Copy, Debug, PartialEq, Eq, Structural)]
pub struct GpuSphere {
    pub center0: GpuVec3,
    pub center1: GpuVec3,
    pub radius: i64,
    pub mat_idx: u32,
    pub is_moving: u32,
    pub _pad: u32,
}

/// A material: its kind, its texture, and the fuzz (metal) or index of
/// refraction (dielectric).
#[derive(Clone, Copy, Debug, PartialEq, Eq, Structural)]
pub struct GpuMaterial {
    pub kind: u32,
    pub tex_idx: u32,
    pub fuzz: i64,
    pub ior: i64,
}

/// A texture: a solid colour, or a checker of two solid textures.
#[derive(Clone, Copy, Debug, PartialEq, Eq, Structural)]
pub struct GpuTexture {
    pub kind: u32,
    pub color: GpuVec3,
    pub inv_scale: i64,
    pub tex_a: u32,
    pub tex_b: u32,
}

/// A node of the flattened hierarchy: a leaf (`leaf_idx` is a sphere) or an
/// inner node (`leaf_idx == -1`, children at `left` and `right`).
#[derive(Clone, Copy, Debug, PartialEq, Eq, Structural)]
pub struct GpuBvhNode {
    pub bbox: GpuAabb,
    pub left: u32,
    pub right: u32,
    pub leaf_idx: i32,
    pub _pad: u32,
}

/// A point as the GPU scene holds it.
pub open spec fn spec_to_gpu(v: Point3) -> GpuVec3 {
    GpuVec3 { x: v.e0 as i64, y: v.e1 as i64, z: v.e2 as i64 }
}

fn to_gpu(v: Point3) -> (r: GpuVec3)
    ensures
        r == spec_to_gpu(v),
{
    GpuVec3 { x: v.x() as i64, y: v.y() as i64, z: v.z() as i64 }
}

} // verus!

verus! {

/// Coordinates stay well inside the `i64` range (below `2^40` in magnitude).
pub open spec fn small(v: GpuVec3) -> bool {
    &&& -0x100_0000_0000 <= v.x <= 0x100_0000_0000
    &&& -0x100_0000_0000 <= v.y <= 0x100_0000_0000
    &&& -0x100_0000_0000 <= v.z <= 0x100_0000_0000
}

/// Both corners of the box are `small`.
pub open spec fn small_box(b: GpuAabb) -> bool {
    small(b.min) && small(b.max)
}

pub open spec fn spec_add(a: GpuVec3, b: GpuVec3) -> GpuVec3 {
    GpuVec3 { x: (a.x + b.x) as i64, y: (a.y + b.y) as i64, z: (a.z + b.z) as i64 }
}

pub open spec fn spec_sub(a: GpuVec3, b: GpuVec3) -> GpuVec3 {
    GpuVec3 { x: (a.x - b.x) as i64, y: (a.y - b.y) as i64, z: (a.z - b.z) as i64 }
}

pub open spec fn min_i64(a: i64, b: i64) -> i64 {
    if a <= b {
        a
    } else {
        b
    }
}

pub open spec fn max_i64(a: i64, b: i64) -> i64 {
    if a >= b {
        a
    } else {
        b
    }
}

pub open spec fn spec_componentwise_min(a: GpuVec3, b: GpuVec3) -> GpuVec3 {
    GpuVec3 { x: min_i64(a.x, b.x), y: min_i64(a.y, b.y), z: min_i64(a.z, b.z) }
}

pub open spec fn spec_componentwise_max(a: GpuVec3, b: GpuVec3) -> GpuVec3 {
    GpuVec3 { x: max_i64(a.x, b.x), y: max_i64(a.y, b.y), z: max_i64(a.z, b.z) }
}

fn add(a: GpuVec3, b: GpuVec3) -> (r: GpuVec3)
    requires
        small(a),
        small(b),
    ensures
        r == spec_add(a, b),
{
    GpuVec3 { x: a.x + b.x, y: a.y + b.y, z: a.z + b.z }
}

fn sub(a: GpuVec3, b: GpuVec3) -> (r: GpuVec3)
    requires
        small(a),
        small(b),
    ensures
        r == spec_sub(a, b),
{
    GpuVec3 { x: a.x - b.x, y: a.y - b.y, z: a.z - b.z }
}

fn componentwise_min(a: GpuVec3, b: GpuVec3) -> (r: GpuVec3)
    ensures
        r == spec_componentwise_min(a, b),
{
    GpuVec3 {
        x: if a.x <= b.x { a.x } else { b.x },
        y: if a.y <= b.y { a.y } else { b.y },
        z: if a.z <= b.z { a.z } else { b.z },
    }
}

fn componentwise_max(a: GpuVec3, b: GpuVec3) -> (r: GpuVec3)
    ensures
        r == spec_componentwise_max(a, b),
{
    GpuVec3 {
        x: if a.x >= b.x { a.x } else { b.x },
        y: if a.y >= b.y { a.y } else { b.y },
        z: if a.z >= b.z { a.z } else { b.z },
    }
}

/// One axis `(lo, hi)` padded by `MIN_EXTENT / 2` on each side when narrower than `MIN_EXTENT`.
pub open spec fn pad_axis(lo: i64, hi: i64) -> (i64, i64) {
    if hi - lo < MIN_EXTENT {
        ((lo - MIN_EXTENT / 2) as i64, (hi + MIN_EXTENT / 2) as i64)
    } else {
        (lo, hi)
    }
}

/// The box with every axis narrower than `MIN_EXTENT` padded.
pub open spec fn spec_pad_aabb(bb: GpuAabb) -> GpuAabb {
    GpuAabb {
        min: GpuVec3 {
            x: pad_axis(bb.min.x, bb.max.x).0,
            y: pad_axis(bb.min.y, bb.max.y).0,
            z: pad_axis(bb.min.z, bb.max.z).0,
        },
        max: GpuVec3 {
            x: pad_axis(bb.min.x, bb.max.x).1,
            y: pad_axis(bb.min.y, bb.max.y).1,
            z: pad_axis(bb.min.z, bb.max.z).1,
        },
    }
}

fn pad_axis_exec(lo: i64, hi: i64) -> (r: (i64, i64))
    requires
        -0x1000_0000_0000 <= lo <= 0x1000_0000_0000,
        -0x1000_0000_0000 <= hi <= 0x1000_0000_0000,
    ensures
        r == pad_axis(lo, hi),
{
    if hi - lo < MIN_EXTENT {
        let half = MIN_EXTENT / 2;
        (lo - half, hi + half)
    } else {
        (lo, hi)
    }
}

/// Pads every axis of the box narrower than `MIN_EXTENT`.
fn pad_aabb(bb: GpuAabb) -> (r: GpuAabb)
    requires
        small_box(bb),
    ensures
        r == spec_pad_aabb(bb),
{
    let (x0, x1) = pad_axis_exec(bb.min.x, bb.max.x);
    let (y0, y1) = pad_axis_exec(bb.min.y, bb.max.y);
    let (z0, z1) = pad_axis_exec(bb.min.z, bb.max.z);
    GpuAabb { min: GpuVec3 { x: x0, y: y0, z: z0 }, max: GpuVec3 { x: x1, y: y1, z: z1 } }
}

/// The smallest box enclosing both boxes.
pub open spec fn spec_aabb_union(a: GpuAabb, b: GpuAabb) -> GpuAabb {
    GpuAabb {
        min: spec_componentwise_min(a.min, b.min),
        max: spec_componentwise_max(a.max, b.max),
    }
}

fn aabb_union(a: GpuAabb, b: GpuAabb) -> (r: GpuAabb)
    ensures
        r == spec_aabb_union(a, b),
{
    GpuAabb { min: componentwise_min(a.min, b.min), max: componentwise_max(a.max, b.max) }
}

/// A sphere is held in range: centres within the `i32` range, radius too.
pub open spec fn sphere_in_range(s: GpuSphere) -> bool {
    &&& i32::MIN <= s.center0.x <= i32::MAX && i32::MIN <= s.center0.y <= i32::MAX && i32::MIN
        <= s.center0.z <= i32::MAX
    &&& i32::MIN <= s.center1.x <= i32::MAX && i32::MIN <= s.center1.y <= i32::MAX && i32::MIN
        <= s.center1.z <= i32::MAX
    &&& i32::MIN <= s.radius <= i32::MAX
}

/// The box of a sphere (of both its positions, for a moving one), padded.
pub open spec fn spec_sphere_aabb(s: GpuSphere) -> GpuAabb {
    let r = GpuVec3 { x: s.radius, y: s.radius, z: s.radius };
    let a0 = GpuAabb { min: spec_sub(s.center0, r), max: spec_add(s.center0, r) };
    let bb = if s.is_moving == 0 {
        a0
    } else {
        let a1 = GpuAabb { min: spec_sub(s.center1, r), max: spec_add(s.center1, r) };
        GpuAabb {
            min: spec_componentwise_min(a0.min, a1.min),
            max: spec_componentwise_max(a0.max, a1.max),
        }
    };
    spec_pad_aabb(bb)
}

fn sphere_aabb(s: &GpuSphere) -> (r: GpuAabb)
    requires
        sphere_in_range(*s),
    ensures
        r == spec_sphere_aabb(*s),
        small_box(r),
{
    let r = GpuVec3 { x: s.radius, y: s.radius, z: s.radius };
    let a0 = GpuAabb { min: self::sub(s.center0, r), max: self::add(s.center0, r) };
    let bb = if s.is_moving == 0 {
        a0
    } else {
        let a1 = GpuAabb { min: self::sub(s.center1, r), max: self::add(s.center1, r) };
        GpuAabb { min: componentwise_min(a0.min, a1.min), max: componentwise_max(a0.max, a1.max) }
    };
    pad_aabb(bb)
}

/// The index of the longest axis of the box; ties go to the later axis.
pub open spec fn spec_longest_axis(bb: GpuAabb) -> int {
    let sx = bb.max.x - bb.min.x;
    let sy = bb.max.y - bb.min.y;
    let sz = bb.max.z - bb.min.z;
    if sx > sy {
        if sx > sz {
            0
        } else {
            2
        }
    } else {
        if sy > sz {
            1
        } else {
            2
        }
    }
}

fn longest_axis(bb: &GpuAabb) -> (r: usize)
    requires
        small_box(*bb),
    ensures
        r == spec_longest_axis(*bb),
        r < 3,
{
    let sx = bb.max.x - bb.min.x;
    let sy = bb.max.y - bb.min.y;
    let sz = bb.max.z - bb.min.z;
    if sx > sy {
        if sx > sz {
            0
        } else {
            2
        }
    } else {
        if sy > sz {
            1
        } else {
            2
        }
    }
}

/// The low end of the box on axis `axis` (0 = x, 1 = y, anything else = z).
pub open spec fn spec_axis_min(bb: GpuAabb, axis: int) -> i64 {
    if axis == 0 {
        bb.min.x
    } else if axis == 1 {
        bb.min.y
    } else {
        bb.min.z
    }
}

fn axis_min(bb: &GpuAabb, axis: usize) -> (r: i64)
    ensures
        r == spec_axis_min(*bb, axis as int),
{
    if axis == 0 {
        bb.min.x
    } else if axis == 1 {
        bb.min.y
    } else {
        bb.min.z
    }
}

/// The box of a sphere holds the sphere wherever it is: on every axis it
/// runs from at most `center0 - radius` to at least `center0 + radius`, and,
/// for a moving sphere, likewise around `center1`. It is no larger than
/// needed: each face lies within `MIN_EXTENT / 2` of the outermost of those
/// faces.
pub proof fn lemma_sphere_box_holds_sphere(s: GpuSphere)
    requires
        sphere_in_range(s),
    ensures
        ({
            let b = spec_sphere_aabb(s);
            let r = s.radius as int;
            let h = MIN_EXTENT / 2;
            &&& b.min.x <= s.center0.x - r && s.center0.x + r <= b.max.x
            &&& b.min.y <= s.center0.y - r && s.center0.y + r <= b.max.y
            &&& b.min.z <= s.center0.z - r && s.center0.z + r <= b.max.z
            &&& s.is_moving != 0 ==> {
                &&& b.min.x <= s.center1.x - r && s.center1.x + r <= b.max.x
                &&& b.min.y <= s.center1.y - r && s.center1.y + r <= b.max.y
                &&& b.min.z <= s.center1.z - r && s.center1.z + r <= b.max.z
            }
            &&& s.is_moving == 0 ==> {
                &&& b.min.x >= s.center0.x - r - h && b.max.x <= s.center0.x + r + h
                &&& b.min.y >= s.center0.y - r - h && b.max.y <= s.center0.y + r + h
                &&& b.min.z >= s.center0.z - r - h && b.max.z <= s.center0.z + r + h
            }
            &&& s.is_moving != 0 ==> {
                &&& (b.min.x >= s.center0.x - r - h || b.min.x >= s.center1.x - r - h)
                &&& (b.max.x <= s.center0.x + r + h || b.max.x <= s.center1.x + r + h)
                &&& (b.min.y >= s.center0.y - r - h || b.min.y >= s.center1.y - r - h)
                &&& (b.max.y <= s.center0.y + r + h || b.max.y <= s.center1.y + r + h)
                &&& (b.min.z >= s.center0.z - r - h || b.min.z >= s.center1.z - r - h)
                &&& (b.max.z <= s.center0.z + r + h || b.max.z <= s.center1.z + r + h)
            }
        }),
{
}

/// The padded box of a box (away from the ends of the `i64` range) encloses it.
pub proof fn lemma_pad_encloses(bb: GpuAabb)
    requires
        small_box(bb),
    ensures
        spec_pad_aabb(bb).min.x <= bb.min.x && bb.max.x <= spec_pad_aabb(bb).max.x,
        spec_pad_aabb(bb).min.y <= bb.min.y && bb.max.y <= spec_pad_aabb(bb).max.y,
        spec_pad_aabb(bb).min.z <= bb.min.z && bb.max.z <= spec_pad_aabb(bb).max.z,
{
}

} // verus!

verus! {

broadcast use vstd::seq_lib::group_to_multiset_ensures;

/// The sort key of sphere `idx` along `axis`: the low end of its box there.
pub open spec fn sphere_key(spheres: Seq<GpuSphere>, idx: usize, axis: int) -> int {
    spec_axis_min(spec_sphere_aabb(spheres[idx as int]), axis) as int
}

/// Some position of `[start, end)` is mapped by `perm` to `c`.
pub open spec fn in_image(perm: Seq<int>, start: int, end: int, c: int) -> bool {
    exists|a: int| start <= a < end && #[trigger] perm[a] == c
}

/// `perm` maps each position of `new[start..end)` to the position of
/// `old[start..end)` it came from, one to one and onto, and keeps indices of
/// equal key in their old relative order.
pub open spec fn stable_index_rearrangement(
    spheres: Seq<GpuSphere>,
    old: Seq<usize>,
    new: Seq<usize>,
    start: int,
    end: int,
    axis: int,
    perm: Seq<int>,
) -> bool {
    &&& perm.len() == new.len()
    &&& forall|a: int| start <= a < end ==> start <= #[trigger] perm[a] < end && new[a] == old[perm[a]]
    &&& forall|a: int, b: int| start <= a < end && start <= b < end && a != b ==> #[trigger] perm[a] != #[trigger] perm[b]
    &&& forall|c: int| start <= c < end ==> #[trigger] in_image(perm, start, end, c)
    &&& forall|a: int, b: int|
        start <= a < b < end && sphere_key(spheres, new[a], axis) == sphere_key(spheres, new[b], axis) ==> #[trigger] perm[a] < #[trigger] perm[b]
}

/// The key of the sphere at `indices[i]`.
fn key_at(spheres: &Vec<GpuSphere>, indices: &Vec<usize>, i: usize, axis: usize) -> (k: i64)
    requires
        i < indices.len(),
        indices[i as int] < spheres.len(),
        sphere_in_range(spheres[indices[i as int] as int]),
    ensures
        k == sphere_key(spheres@, indices[i as int], axis as int),
{
    axis_min(&sphere_aabb(&spheres[indices[i]]), axis)
}

/// Sorts `indices[start..end)` by the low end of the spheres' boxes along
/// `axis`, keeping indices of equal key in order (a stable insertion sort).
fn sort_indices(spheres: &Vec<GpuSphere>, indices: &mut Vec<usize>, start: usize, end: usize, axis: usize)
    requires
        start <= end <= old(indices).len(),
        forall|i: int| 0 <= i < old(indices).len() ==> #[trigger] old(indices)[i] < spheres.len(),
        forall|i: int| 0 <= i < spheres.len() ==> sphere_in_range(#[trigger] spheres[i]),
    ensures
        final(indices).len() == old(indices).len(),
        forall|i: int| 0 <= i < start || end <= i < old(indices).len() ==> #[trigger] final(indices)@[i] == old(indices)@[i],
        final(indices)@.to_multiset() == old(indices)@.to_multiset(),
        forall|i: int| 0 <= i < final(indices).len() ==> #[trigger] final(indices)[i] < spheres.len(),
        forall|a: int, b: int|
            start <= a < b < end ==> sphere_key(spheres@, #[trigger] final(indices)@[a], axis as int)
                <= sphere_key(spheres@, #[trigger] final(indices)@[b], axis as int),
        exists|perm: Seq<int>| stable_index_rearrangement(spheres@, old(indices)@, final(indices)@, start as int, end as int, axis as int, perm),
{
    let ghost orig = indices@;
    let ghost sp = spheres@;
    let ghost ax = axis as int;
    let ghost mut perm: Seq<int> = Seq::new(indices@.len(), |a: int| a);
    let ghost mut inv: Seq<int> = Seq::new(indices@.len(), |a: int| a);
    if end - start < 2 {
        assert(stable_index_rearrangement(sp, orig, indices@, start as int, end as int, ax, perm)) by {
            assert forall|c: int| start <= c < end implies #[trigger] in_image(perm, start as int, end as int, c) by {
                assert(perm[c] == c);
            }
        }
        return;
    }
    let mut i: usize = start + 1;
    while i < end
        invariant
            start < i <= end,
            end <= indices.len(),
            indices.len() == orig.len(),
            perm.len() == orig.len(),
            inv.len() == orig.len(),
            sp == spheres@,
            ax == axis,
            forall|k: int| 0 <= k < spheres.len() ==> sphere_in_range(#[trigger] spheres[k]),
            forall|k: int| 0 <= k < indices.len() ==> #[trigger] indices[k] < spheres.len(),
            forall|k: int| 0 <= k < start || end <= k < orig.len() ==> #[trigger] indices@[k] == orig[k],
            indices@.to_multiset() == orig.to_multiset(),
            forall|a: int, b: int|
                start <= a < b < i ==> sphere_key(sp, #[trigger] indices@[a], ax) <= sphere_key(sp, #[trigger] indices@[b], ax),
            forall|a: int| start <= a < end ==> start <= #[trigger] perm[a] < end && indices@[a] == orig[perm[a]],
            forall|c: int| start <= c < end ==> start <= #[trigger] inv[c] < end && perm[inv[c]] == c,
            forall|a: int| start <= a < end ==> #[trigger] inv[perm[a]] == a,
            forall|a: int, b: int|
                start <= a < b < end && sphere_key(sp, indices@[a], ax) == sphere_key(sp, indices@[b], ax) ==> #[trigger] perm[a] < #[trigger] perm[b],
        decreases end - i,
    {
        let mut j: usize = i;
        while j > start && key_at(spheres, indices, j, axis) < key_at(spheres, indices, j - 1, axis)
            invariant
                start <= j <= i < end,
                end <= indices.len(),
                indices.len() == orig.len(),
                perm.len() == orig.len(),
                inv.len() == orig.len(),
                sp == spheres@,
                ax == axis,
                forall|k: int| 0 <= k < spheres.len() ==> sphere_in_range(#[trigger] spheres[k]),
                forall|k: int| 0 <= k < indices.len() ==> #[trigger] indices[k] < spheres.len(),
                forall|k: int| 0 <= k < start || end <= k < orig.len() ==> #[trigger] indices@[k] == orig[k],
                indices@.to_multiset() == orig.to_multiset(),
                forall|a: int, b: int|
                    start <= a < b <= i && a != j && b != j ==> sphere_key(sp, #[trigger] indices@[a], ax) <= sphere_key(sp, #[trigger] indices@[b], ax),
                forall|b: int| j < b <= i ==> sphere_key(sp, indices@[j as int], ax) < sphere_key(sp, #[trigger] indices@[b], ax),
                forall|a: int| start <= a < end ==> start <= #[trigger] perm[a] < end && indices@[a] == orig[perm[a]],
                forall|c: int| start <= c < end ==> start <= #[trigger] inv[c] < end && perm[inv[c]] == c,
                forall|a: int| start <= a < end ==> #[trigger] inv[perm[a]] == a,
                forall|a: int, b: int|
                    start <= a < b < end && sphere_key(sp, indices@[a], ax) == sphere_key(sp, indices@[b], ax) ==> #[trigger] perm[a] < #[trigger] perm[b],
            decreases j,
        {
            let lower = indices[j - 1];
            let upper = indices[j];
            let ghost before = indices@;
            let ghost pa = perm[j - 1];
            let ghost pb = perm[j as int];
            indices.set(j - 1, upper);
            indices.set(j, lower);
            proof {
                assert(indices@ == before.update(j - 1, upper).update(j as int, lower));
                assert(before.update(j - 1, upper).to_multiset() == before.to_multiset().insert(upper).remove(lower));
                assert(indices@.to_multiset() == before.update(j - 1, upper).to_multiset().insert(lower).remove(upper));
                broadcast use vstd::multiset::group_multiset_axioms;
                assert(indices@.to_multiset() =~= orig.to_multiset());
                perm = perm.update(j - 1, pb).update(j as int, pa);
                inv = inv.update(pb, j - 1).update(pa, j as int);
            }
            j = j - 1;
        }
        i = i + 1;
    }
    proof {
        assert(stable_index_rearrangement(sp, orig, indices@, start as int, end as int, ax, perm)) by {
            assert forall|c: int| start <= c < end implies #[trigger] in_image(perm, start as int, end as int, c) by {
                assert(perm[inv[c]] == c);
            }
        }
    }
}

} // verus!

verus! {

/// The sphere indices at positions `[start, end)` of `s`.
pub open spec fn index_set(s: Seq<usize>, start: int, end: int) -> Set<int> {
    Set::new(|x: int| exists|i: int| start <= i < end && #[trigger] s[i] as int == x)
}

/// Node `i` of `nodes` is consistent, all its children lying at or after
/// `base`: a leaf holds a sphere of `spheres` and that sphere's box; an
/// inner node has its two children before it and the box that joins theirs.
pub open spec fn node_ok(spheres: Seq<GpuSphere>, nodes: Seq<GpuBvhNode>, i: int, base: int) -> bool {
    let n = nodes[i];
    if n.leaf_idx >= 0 {
        &&& n.leaf_idx < spheres.len()
        &&& n.bbox == spec_sphere_aabb(spheres[n.leaf_idx as int])
    } else {
        &&& n.leaf_idx == -1
        &&& base <= n.left < i
        &&& base <= n.right < i
        &&& n.bbox == spec_aabb_union(nodes[n.left as int].bbox, nodes[n.right as int].bbox)
    }
}

/// The spheres at the leaves under node `i`.
pub open spec fn subtree_leaves(nodes: Seq<GpuBvhNode>, i: int) -> Set<int>
    decreases i,
{
    if 0 <= i < nodes.len() {
        let n = nodes[i];
        if n.leaf_idx >= 0 {
            Set::empty().insert(n.leaf_idx as int)
        } else if 0 <= n.left < i && 0 <= n.right < i {
            subtree_leaves(nodes, n.left as int).union(subtree_leaves(nodes, n.right as int))
        } else {
            Set::empty()
        }
    } else {
        Set::empty()
    }
}

/// Appending nodes changes no subtree below the old end.
proof fn lemma_subtree_prefix(a: Seq<GpuBvhNode>, b: Seq<GpuBvhNode>, m: int, i: int)
    requires
        m <= a.len(),
        m <= b.len(),
        forall|k: int| 0 <= k < m ==> #[trigger] a[k] == b[k],
        0 <= i < m,
    ensures
        subtree_leaves(a, i) == subtree_leaves(b, i),
    decreases i,
{
    let n = a[i];
    assert(b[i] == n);
    if n.leaf_idx < 0 && 0 <= n.left < i && 0 <= n.right < i {
        lemma_subtree_prefix(a, b, m, n.left as int);
        lemma_subtree_prefix(a, b, m, n.right as int);
    }
}

proof fn lemma_index_set_split(s: Seq<usize>, a: int, b: int, c: int)
    requires
        a <= b <= c,
    ensures
        index_set(s, a, c) == index_set(s, a, b).union(index_set(s, b, c)),
{
    assert(index_set(s, a, c) =~= index_set(s, a, b).union(index_set(s, b, c)));
}

proof fn lemma_index_set_same(s1: Seq<usize>, s2: Seq<usize>, a: int, b: int)
    requires
        forall|i: int| a <= i < b ==> #[trigger] s1[i] == s2[i],
    ensures
        index_set(s1, a, b) == index_set(s2, a, b),
{
    assert forall|x: int| index_set(s1, a, b).contains(x) implies index_set(s2, a, b).contains(x) by {
        let i = choose|i: int| a <= i < b && #[trigger] s1[i] as int == x;
        assert(s2[i] as int == x);
    }
    assert forall|x: int| index_set(s2, a, b).contains(x) implies index_set(s1, a, b).contains(x) by {
        let i = choose|i: int| a <= i < b && #[trigger] s2[i] as int == x;
        assert(s1[i] as int == x);
    }
    assert(index_set(s1, a, b) =~= index_set(s2, a, b));
}

proof fn lemma_rearranged_index_set(
    spheres: Seq<GpuSphere>,
    old: Seq<usize>,
    new: Seq<usize>,
    start: int,
    end: int,
    axis: int,
    perm: Seq<int>,
)
    requires
        stable_index_rearrangement(spheres, old, new, start, end, axis, perm),
    ensures
        index_set(new, start, end) == index_set(old, start, end),
{
    assert forall|x: int| index_set(new, start, end).contains(x) implies index_set(old, start, end).contains(x) by {
        let i = choose|i: int| start <= i < end && #[trigger] new[i] as int == x;
        assert(old[perm[i]] as int == x);
    }
    assert forall|x: int| index_set(old, start, end).contains(x) implies index_set(new, start, end).contains(x) by {
        let c = choose|i: int| start <= i < end && #[trigger] old[i] as int == x;
        assert(in_image(perm, start, end, c));
        let a = choose|a: int| start <= a < end && #[trigger] perm[a] == c;
        assert(new[a] as int == x);
    }
    assert(index_set(new, start, end) =~= index_set(old, start, end));
}

/// The high end of the box on axis `axis` (0 = x, 1 = y, anything else = z).
pub open spec fn spec_axis_max(bb: GpuAabb, axis: int) -> i64 {
    if axis == 0 {
        bb.max.x
    } else if axis == 1 {
        bb.max.y
    } else {
        bb.max.z
    }
}

/// `b` is the smallest box around the boxes of the spheres `leaves`: it
/// encloses each, and each of its six faces is a face of one of them.
pub open spec fn gpu_tight(spheres: Seq<GpuSphere>, b: GpuAabb, leaves: Set<int>) -> bool {
    &&& forall|x: int| #[trigger] leaves.contains(x) ==> gpu_encloses(b, spec_sphere_aabb(spheres[x]))
    &&& gpu_faces(spheres, b, leaves, 0)
    &&& gpu_faces(spheres, b, leaves, 1)
    &&& gpu_faces(spheres, b, leaves, 2)
}

/// On axis `n`, the low and the high face of `b` are faces of boxes of
/// spheres of `leaves`.
pub open spec fn gpu_faces(spheres: Seq<GpuSphere>, b: GpuAabb, leaves: Set<int>, n: int) -> bool {
    &&& exists|x: int| #[trigger] leaves.contains(x) && spec_axis_min(spec_sphere_aabb(spheres[x]), n) == spec_axis_min(b, n)
    &&& exists|x: int| #[trigger] leaves.contains(x) && spec_axis_max(spec_sphere_aabb(spheres[x]), n) == spec_axis_max(b, n)
}

/// An inner node `k` splits its spheres along the longest axis of its box:
/// no sphere under the left child starts after one under the right child.
#[verifier::opaque]
pub open spec fn split_ok(spheres: Seq<GpuSphere>, nodes: Seq<GpuBvhNode>, k: int) -> bool {
    let n = nodes[k];
    n.leaf_idx < 0 ==> forall|a: int, b: int|
        #[trigger] subtree_leaves(nodes, n.left as int).contains(a) && #[trigger] subtree_leaves(nodes, n.right as int).contains(b)
            ==> sphere_key(spheres, a as usize, spec_longest_axis(n.bbox)) <= sphere_key(spheres, b as usize, spec_longest_axis(n.bbox))
}

/// The box of the spheres `s[start..end)` (at least one), joined one after
/// the other.
pub open spec fn gpu_span_hull(spheres: Seq<GpuSphere>, s: Seq<usize>, start: int, end: int) -> GpuAabb
    decreases end - start,
{
    if end <= start + 1 {
        spec_sphere_aabb(spheres[s[start] as int])
    } else {
        spec_aabb_union(gpu_span_hull(spheres, s, start, end - 1), spec_sphere_aabb(spheres[s[end - 1] as int]))
    }
}

proof fn lemma_gpu_tight_single(spheres: Seq<GpuSphere>, x: int)
    ensures
        gpu_tight(spheres, spec_sphere_aabb(spheres[x]), Set::empty().insert(x)),
{
    let s = Set::empty().insert(x);
    assert(s.contains(x));
}

proof fn lemma_gpu_faces_union(spheres: Seq<GpuSphere>, a: GpuAabb, sa: Set<int>, b: GpuAabb, sb: Set<int>, n: int)
    requires
        0 <= n < 3,
        gpu_faces(spheres, a, sa, n),
        gpu_faces(spheres, b, sb, n),
    ensures
        gpu_faces(spheres, spec_aabb_union(a, b), sa.union(sb), n),
{
    let h = spec_aabb_union(a, b);
    let u = sa.union(sb);
    if spec_axis_min(a, n) <= spec_axis_min(b, n) {
        let w = choose|w: int| #[trigger] sa.contains(w) && spec_axis_min(spec_sphere_aabb(spheres[w]), n) == spec_axis_min(a, n);
        assert(u.contains(w) && spec_axis_min(spec_sphere_aabb(spheres[w]), n) == spec_axis_min(h, n));
    } else {
        let w = choose|w: int| #[trigger] sb.contains(w) && spec_axis_min(spec_sphere_aabb(spheres[w]), n) == spec_axis_min(b, n);
        assert(u.contains(w) && spec_axis_min(spec_sphere_aabb(spheres[w]), n) == spec_axis_min(h, n));
    }
    if spec_axis_max(a, n) >= spec_axis_max(b, n) {
        let w = choose|w: int| #[trigger] sa.contains(w) && spec_axis_max(spec_sphere_aabb(spheres[w]), n) == spec_axis_max(a, n);
        assert(u.contains(w) && spec_axis_max(spec_sphere_aabb(spheres[w]), n) == spec_axis_max(h, n));
    } else {
        let w = choose|w: int| #[trigger] sb.contains(w) && spec_axis_max(spec_sphere_aabb(spheres[w]), n) == spec_axis_max(b, n);
        assert(u.contains(w) && spec_axis_max(spec_sphere_aabb(spheres[w]), n) == spec_axis_max(h, n));
    }
}

proof fn lemma_gpu_tight_union(spheres: Seq<GpuSphere>, a: GpuAabb, sa: Set<int>, b: GpuAabb, sb: Set<int>)
    requires
        gpu_tight(spheres, a, sa),
        gpu_tight(spheres, b, sb),
    ensures
        gpu_tight(spheres, spec_aabb_union(a, b), sa.union(sb)),
{
    let h = spec_aabb_union(a, b);
    let u = sa.union(sb);
    assert forall|x: int| #[trigger] u.contains(x) implies gpu_encloses(h, spec_sphere_aabb(spheres[x])) by {
        if sa.contains(x) {
            assert(gpu_encloses(a, spec_sphere_aabb(spheres[x])));
        } else {
            assert(gpu_encloses(b, spec_sphere_aabb(spheres[x])));
        }
    }
    lemma_gpu_faces_union(spheres, a, sa, b, sb, 0);
    lemma_gpu_faces_union(spheres, a, sa, b, sb, 1);
    lemma_gpu_faces_union(spheres, a, sa, b, sb, 2);
}

proof fn lemma_gpu_faces_unique(spheres: Seq<GpuSphere>, a: GpuAabb, b: GpuAabb, s: Set<int>, n: int)
    requires
        0 <= n < 3,
        gpu_tight(spheres, a, s),
        gpu_tight(spheres, b, s),
    ensures
        spec_axis_min(a, n) == spec_axis_min(b, n),
        spec_axis_max(a, n) == spec_axis_max(b, n),
{
    assert(gpu_faces(spheres, a, s, n) && gpu_faces(spheres, b, s, n));
    let wa = choose|w: int| #[trigger] s.contains(w) && spec_axis_min(spec_sphere_aabb(spheres[w]), n) == spec_axis_min(a, n);
    let wb = choose|w: int| #[trigger] s.contains(w) && spec_axis_min(spec_sphere_aabb(spheres[w]), n) == spec_axis_min(b, n);
    assert(gpu_encloses(b, spec_sphere_aabb(spheres[wa])));
    assert(gpu_encloses(a, spec_sphere_aabb(spheres[wb])));
    let va = choose|w: int| #[trigger] s.contains(w) && spec_axis_max(spec_sphere_aabb(spheres[w]), n) == spec_axis_max(a, n);
    let vb = choose|w: int| #[trigger] s.contains(w) && spec_axis_max(spec_sphere_aabb(spheres[w]), n) == spec_axis_max(b, n);
    assert(gpu_encloses(b, spec_sphere_aabb(spheres[va])));
    assert(gpu_encloses(a, spec_sphere_aabb(spheres[vb])));
}

/// Two boxes that are each the smallest box around the same spheres are the same box.
proof fn lemma_gpu_tight_unique(spheres: Seq<GpuSphere>, a: GpuAabb, b: GpuAabb, s: Set<int>)
    requires
        gpu_tight(spheres, a, s),
        gpu_tight(spheres, b, s),
    ensures
        a == b,
{
    lemma_gpu_faces_unique(spheres, a, b, s, 0);
    lemma_gpu_faces_unique(spheres, a, b, s, 1);
    lemma_gpu_faces_unique(spheres, a, b, s, 2);
    assert(a.min == b.min);
    assert(a.max == b.max);
}

proof fn lemma_gpu_span_hull_tight(spheres: Seq<GpuSphere>, s: Seq<usize>, start: int, end: int)
    requires
        0 <= start < end <= s.len(),
    ensures
        gpu_tight(spheres, gpu_span_hull(spheres, s, start, end), index_set(s, start, end)),
    decreases end - start,
{
    lemma_gpu_tight_single(spheres, s[end - 1] as int);
    assert(index_set(s, end - 1, end) =~= Set::empty().insert(s[end - 1] as int));
    if end - 1 == start {
    } else {
        lemma_gpu_span_hull_tight(spheres, s, start, end - 1);
        lemma_index_set_split(s, start, end - 1, end);
        lemma_gpu_tight_union(
            spheres,
            gpu_span_hull(spheres, s, start, end - 1),
            index_set(s, start, end - 1),
            spec_sphere_aabb(spheres[s[end - 1] as int]),
            index_set(s, end - 1, end),
        );
    }
}

/// In a run of consistent nodes from `base` on, the box of each node is the
/// smallest box around the spheres at the leaves under it.
proof fn lemma_gpu_node_tight(spheres: Seq<GpuSphere>, nodes: Seq<GpuBvhNode>, base: int, k: int)
    requires
        0 <= base <= k < nodes.len(),
        forall|j: int| base <= j < nodes.len() ==> #[trigger] node_ok(spheres, nodes, j, base),
    ensures
        gpu_tight(spheres, nodes[k].bbox, subtree_leaves(nodes, k)),
    decreases k,
{
    let n = nodes[k];
    assert(node_ok(spheres, nodes, k, base));
    if n.leaf_idx >= 0 {
        lemma_gpu_tight_single(spheres, n.leaf_idx as int);
    } else {
        lemma_gpu_node_tight(spheres, nodes, base, n.left as int);
        lemma_gpu_node_tight(spheres, nodes, base, n.right as int);
        lemma_gpu_tight_union(
            spheres,
            nodes[n.left as int].bbox,
            subtree_leaves(nodes, n.left as int),
            nodes[n.right as int].bbox,
            subtree_leaves(nodes, n.right as int),
        );
    }
}

/// `new[start..end)` is `old[start..end)` sorted by key along `axis`, indices
/// of equal key keeping their old order.
pub open spec fn is_stable_sort(spheres: Seq<GpuSphere>, old: Seq<usize>, new: Seq<usize>, start: int, end: int, axis: int) -> bool {
    &&& new.len() == old.len()
    &&& forall|a: int, b: int|
        start <= a < b < end ==> sphere_key(spheres, #[trigger] new[a], axis) <= sphere_key(spheres, #[trigger] new[b], axis)
    &&& exists|perm: Seq<int>| stable_index_rearrangement(spheres, old, new, start, end, axis, perm)
}

/// The leaf node of sphere `x`.
pub open spec fn leaf_node(spheres: Seq<GpuSphere>, x: usize) -> GpuBvhNode {
    GpuBvhNode { bbox: spec_sphere_aabb(spheres[x as int]), left: 0, right: 0, leaf_idx: x as i32, _pad: 0 }
}

/// The inner node over the nodes at `left` and `right`.
pub open spec fn inner_node(nodes: Seq<GpuBvhNode>, left: int, right: int) -> GpuBvhNode {
    GpuBvhNode {
        bbox: spec_aabb_union(nodes[left].bbox, nodes[right].bbox),
        left: left as u32,
        right: right as u32,
        leaf_idx: -1i32,
        _pad: 0,
    }
}

/// `nodes[base .. base + 2k - 1)`, for `k = end - start`, is the hierarchy
/// built over the spheres `input[start..end)`, and `out[start..end)` is the
/// order in which it leaves them. One sphere gives its leaf. More spheres are
/// stably sorted along the longest axis of their box; the first `k / 2` of
/// them are built at `base`, the others right after, and their parent comes
/// last, at `base + 2k - 2`, its children being the two roots.
#[verifier::opaque]
pub open spec fn built(
    spheres: Seq<GpuSphere>,
    input: Seq<usize>,
    start: int,
    end: int,
    nodes: Seq<GpuBvhNode>,
    base: int,
    out: Seq<usize>,
) -> bool
    decreases end - start,
{
    if end - start == 1 {
        &&& out[start] == input[start]
        &&& nodes[base] == leaf_node(spheres, input[start])
    } else if end - start >= 2 {
        let k = end - start;
        let h = k / 2;
        let axis = spec_longest_axis(gpu_span_hull(spheres, input, start, end));
        &&& exists|sorted: Seq<usize>|
            #[trigger] is_stable_sort(spheres, input, sorted, start, end, axis)
                && built(spheres, sorted, start, start + h, nodes, base, out)
                && built(spheres, sorted, start + h, end, nodes, base + 2 * h - 1, out)
        &&& nodes[base + 2 * k - 2] == inner_node(nodes, base + 2 * h - 2, base + 2 * k - 3)
    } else {
        false
    }
}

/// The spheres `0, 1, .., n - 1` in order.
pub open spec fn sphere_order(n: nat) -> Seq<usize> {
    Seq::new(n, |i: int| i as usize)
}

/// One sphere gives its leaf.
proof fn lemma_built_leaf(
    spheres: Seq<GpuSphere>,
    input: Seq<usize>,
    start: int,
    nodes: Seq<GpuBvhNode>,
    base: int,
    out: Seq<usize>,
)
    requires
        out[start] == input[start],
        nodes[base] == leaf_node(spheres, input[start]),
    ensures
        built(spheres, input, start, start + 1, nodes, base, out),
{
    reveal(built);
}

/// More spheres: the halves of the stably sorted span, then their parent.
proof fn lemma_built_join(
    spheres: Seq<GpuSphere>,
    input: Seq<usize>,
    sorted: Seq<usize>,
    start: int,
    end: int,
    nodes: Seq<GpuBvhNode>,
    base: int,
    out: Seq<usize>,
)
    requires
        end - start >= 2,
        is_stable_sort(spheres, input, sorted, start, end, spec_longest_axis(gpu_span_hull(spheres, input, start, end))),
        built(spheres, sorted, start, start + (end - start) / 2, nodes, base, out),
        built(spheres, sorted, start + (end - start) / 2, end, nodes, base + 2 * ((end - start) / 2) - 1, out),
        nodes[base + 2 * (end - start) - 2] == inner_node(
            nodes,
            base + 2 * ((end - start) / 2) - 2,
            base + 2 * (end - start) - 3,
        ),
    ensures
        built(spheres, input, start, end, nodes, base, out),
{
    reveal(built);
}

/// Two stable rearrangements into sorted order agree on `[start, a)`.
proof fn lemma_stable_prefix(
    spheres: Seq<GpuSphere>,
    old: Seq<usize>,
    n1: Seq<usize>,
    n2: Seq<usize>,
    start: int,
    end: int,
    axis: int,
    p1: Seq<int>,
    p2: Seq<int>,
    a: int,
)
    requires
        start <= a <= end,
        stable_index_rearrangement(spheres, old, n1, start, end, axis, p1),
        stable_index_rearrangement(spheres, old, n2, start, end, axis, p2),
        forall|x: int, y: int| start <= x < y < end ==> sphere_key(spheres, #[trigger] n1[x], axis) <= sphere_key(spheres, #[trigger] n1[y], axis),
        forall|x: int, y: int| start <= x < y < end ==> sphere_key(spheres, #[trigger] n2[x], axis) <= sphere_key(spheres, #[trigger] n2[y], axis),
    ensures
        forall|x: int| start <= x < a ==> #[trigger] p1[x] == p2[x],
    decreases a - start,
{
    if a > start {
        let b = a - 1;
        lemma_stable_prefix(spheres, old, n1, n2, start, end, axis, p1, p2, b);
        let c1 = p1[b];
        let c2 = p2[b];
        if c1 != c2 {
            assert(in_image(p1, start, end, c2));
            let a1 = choose|x: int| start <= x < end && #[trigger] p1[x] == c2;
            assert(in_image(p2, start, end, c1));
            let a2 = choose|x: int| start <= x < end && #[trigger] p2[x] == c1;
            if a1 < b {
                assert(p2[a1] == c2);
            }
            if a2 < b {
                assert(p1[a2] == c1);
            }
            assert(a1 > b);
            assert(a2 > b);
            assert(n1[b] == old[c1] && n1[a1] == old[c2]);
            assert(n2[b] == old[c2] && n2[a2] == old[c1]);
            assert(sphere_key(spheres, n1[b], axis) <= sphere_key(spheres, n1[a1], axis));
            assert(sphere_key(spheres, n2[b], axis) <= sphere_key(spheres, n2[a2], axis));
            assert(p1[b] < p1[a1]);
            assert(p2[b] < p2[a2]);
        }
    }
}

/// A stable sort is unique: two stable sorts of the same span agree on it.
pub proof fn lemma_stable_sort_unique(
    spheres: Seq<GpuSphere>,
    old: Seq<usize>,
    n1: Seq<usize>,
    n2: Seq<usize>,
    start: int,
    end: int,
    axis: int,
)
    requires
        start <= end,
        is_stable_sort(spheres, old, n1, start, end, axis),
        is_stable_sort(spheres, old, n2, start, end, axis),
    ensures
        forall|x: int| start <= x < end ==> #[trigger] n1[x] == n2[x],
{
    let p1 = choose|perm: Seq<int>| stable_index_rearrangement(spheres, old, n1, start, end, axis, perm);
    let p2 = choose|perm: Seq<int>| stable_index_rearrangement(spheres, old, n2, start, end, axis, perm);
    lemma_stable_prefix(spheres, old, n1, n2, start, end, axis, p1, p2, end);
    assert forall|x: int| start <= x < end implies #[trigger] n1[x] == n2[x] by {
        assert(p1[x] == p2[x]);
    }
}

/// The hierarchy built over a span is determined by the span: two layouts
/// built over the same spheres agree on every node and on the order of the
/// spheres.
pub proof fn lemma_built_unique(
    spheres: Seq<GpuSphere>,
    input: Seq<usize>,
    start: int,
    end: int,
    n1: Seq<GpuBvhNode>,
    n2: Seq<GpuBvhNode>,
    base: int,
    o1: Seq<usize>,
    o2: Seq<usize>,
)
    requires
        start < end,
        built(spheres, input, start, end, n1, base, o1),
        built(spheres, input, start, end, n2, base, o2),
    ensures
        forall|j: int| base <= j < base + 2 * (end - start) - 1 ==> #[trigger] n1[j] == n2[j],
        forall|i: int| start <= i < end ==> #[trigger] o1[i] == o2[i],
    decreases end - start,
{
    reveal(built);
    let k = end - start;
    if k >= 2 {
        let h = k / 2;
        let mid = start + h;
        let axis = spec_longest_axis(gpu_span_hull(spheres, input, start, end));
        let s1 = choose|sorted: Seq<usize>|
            #[trigger] is_stable_sort(spheres, input, sorted, start, end, axis)
                && built(spheres, sorted, start, mid, n1, base, o1)
                && built(spheres, sorted, mid, end, n1, base + 2 * h - 1, o1);
        let s2 = choose|sorted: Seq<usize>|
            #[trigger] is_stable_sort(spheres, input, sorted, start, end, axis)
                && built(spheres, sorted, start, mid, n2, base, o2)
                && built(spheres, sorted, mid, end, n2, base + 2 * h - 1, o2);
        lemma_stable_sort_unique(spheres, input, s2, s1, start, end, axis);
        lemma_built_frame(spheres, s2, s1, start, mid, n2, n2, base, o2, o2);
        lemma_built_frame(spheres, s2, s1, mid, end, n2, n2, base + 2 * h - 1, o2, o2);
        lemma_built_unique(spheres, s1, start, mid, n1, n2, base, o1, o2);
        lemma_built_unique(spheres, s1, mid, end, n1, n2, base + 2 * h - 1, o1, o2);
        let l = base + 2 * h - 2;
        let r = base + 2 * k - 3;
        assert(n1[l] == n2[l]);
        assert(n1[r] == n2[r]);
        assert(n1[base + 2 * k - 2] == n2[base + 2 * k - 2]);
    }
}

/// The spheres at the leaves among `nodes[lo..hi)`, in node order.
pub open spec fn leaf_order(nodes: Seq<GpuBvhNode>, lo: int, hi: int) -> Seq<usize>
    decreases hi - lo,
{
    if hi <= lo {
        Seq::empty()
    } else if nodes[hi - 1].leaf_idx >= 0 {
        leaf_order(nodes, lo, hi - 1).push(nodes[hi - 1].leaf_idx as usize)
    } else {
        leaf_order(nodes, lo, hi - 1)
    }
}

proof fn lemma_leaf_order_split(nodes: Seq<GpuBvhNode>, a: int, b: int, c: int)
    requires
        a <= b <= c,
    ensures
        leaf_order(nodes, a, c) == leaf_order(nodes, a, b) + leaf_order(nodes, b, c),
    decreases c - b,
{
    if c > b {
        lemma_leaf_order_split(nodes, a, b, c - 1);
        if nodes[c - 1].leaf_idx >= 0 {
            assert(leaf_order(nodes, a, b) + leaf_order(nodes, b, c - 1).push(nodes[c - 1].leaf_idx as usize)
                =~= (leaf_order(nodes, a, b) + leaf_order(nodes, b, c - 1)).push(nodes[c - 1].leaf_idx as usize));
        }
    } else {
        assert(leaf_order(nodes, a, b) + Seq::<usize>::empty() =~= leaf_order(nodes, a, b));
    }
}

/// The nodes of a span built over `k` spheres hold, in node order, exactly
/// one leaf for each of them, in the order the span leaves them.
#[verifier::spinoff_prover]
#[verifier::rlimit(30)]
pub proof fn lemma_built_leaves(
    spheres: Seq<GpuSphere>,
    input: Seq<usize>,
    start: int,
    end: int,
    nodes: Seq<GpuBvhNode>,
    base: int,
    out: Seq<usize>,
)
    requires
        0 <= start < end <= input.len(),
        end <= out.len(),
        built(spheres, input, start, end, nodes, base, out),
        forall|i: int| start <= i < end ==> #[trigger] input[i] <= i32::MAX,
    ensures
        leaf_order(nodes, base, base + 2 * (end - start) - 1) == out.subrange(start, end),
    decreases end - start,
{
    reveal(built);
    let k = end - start;
    if k == 1 {
        assert(input[start] <= i32::MAX);
        assert(leaf_order(nodes, base, base) =~= Seq::<usize>::empty());
        assert(out.subrange(start, end) =~= seq![input[start]]);
    } else {
        let h = k / 2;
        let mid = start + h;
        let axis = spec_longest_axis(gpu_span_hull(spheres, input, start, end));
        let sorted = choose|sorted: Seq<usize>|
            #[trigger] is_stable_sort(spheres, input, sorted, start, end, axis)
                && built(spheres, sorted, start, mid, nodes, base, out)
                && built(spheres, sorted, mid, end, nodes, base + 2 * h - 1, out);
        let perm = choose|perm: Seq<int>| stable_index_rearrangement(spheres, input, sorted, start, end, axis, perm);
        assert forall|i: int| start <= i < end implies #[trigger] sorted[i] <= i32::MAX by {
            assert(input[perm[i]] <= i32::MAX);
        }
        lemma_built_leaves(spheres, sorted, start, mid, nodes, base, out);
        lemma_built_leaves(spheres, sorted, mid, end, nodes, base + 2 * h - 1, out);
        lemma_leaf_order_split(nodes, base, base + 2 * h - 1, base + 2 * k - 2);
        assert(nodes[base + 2 * k - 2].leaf_idx < 0);
        assert(out.subrange(start, end) =~= out.subrange(start, mid) + out.subrange(mid, end));
    }
}

/// The box of a span reads only the span.
proof fn lemma_span_hull_frame(spheres: Seq<GpuSphere>, a: Seq<usize>, b: Seq<usize>, start: int, end: int)
    requires
        forall|i: int| start <= i < end ==> #[trigger] a[i] == b[i],
        start < end,
    ensures
        gpu_span_hull(spheres, a, start, end) == gpu_span_hull(spheres, b, start, end),
    decreases end - start,
{
    assert(a[end - 1] == b[end - 1]);
    assert(a[start] == b[start]);
    if end > start + 1 {
        lemma_span_hull_frame(spheres, a, b, start, end - 1);
    }
}

/// The layout of a built span reads only the span of the input and of the
/// output, and only its own stretch of nodes.
proof fn lemma_built_frame(
    spheres: Seq<GpuSphere>,
    in1: Seq<usize>,
    in2: Seq<usize>,
    start: int,
    end: int,
    n1: Seq<GpuBvhNode>,
    n2: Seq<GpuBvhNode>,
    base: int,
    o1: Seq<usize>,
    o2: Seq<usize>,
)
    requires
        built(spheres, in1, start, end, n1, base, o1),
        start < end,
        in1.len() == in2.len(),
        forall|i: int| start <= i < end ==> #[trigger] in1[i] == in2[i],
        forall|i: int| start <= i < end ==> #[trigger] o1[i] == o2[i],
        forall|j: int| base <= j < base + 2 * (end - start) - 1 ==> #[trigger] n1[j] == n2[j],
    ensures
        built(spheres, in2, start, end, n2, base, o2),
    decreases end - start,
{
    reveal(built);
    let k = end - start;
    if k == 1 {
        assert(in1[start] == in2[start]);
        assert(o1[start] == o2[start]);
        assert(n1[base] == n2[base]);
    } else {
        let h = k / 2;
        lemma_span_hull_frame(spheres, in1, in2, start, end);
        let axis = spec_longest_axis(gpu_span_hull(spheres, in1, start, end));
        let sorted = choose|sorted: Seq<usize>|
            #[trigger] is_stable_sort(spheres, in1, sorted, start, end, axis)
                && built(spheres, sorted, start, start + h, n1, base, o1)
                && built(spheres, sorted, start + h, end, n1, base + 2 * h - 1, o1);
        lemma_built_frame(spheres, sorted, sorted, start, start + h, n1, n2, base, o1, o2);
        lemma_built_frame(spheres, sorted, sorted, start + h, end, n1, n2, base + 2 * h - 1, o1, o2);
        assert(is_stable_sort(spheres, in2, sorted, start, end, axis)) by {
            let perm = choose|perm: Seq<int>| stable_index_rearrangement(spheres, in1, sorted, start, end, axis, perm);
            assert(stable_index_rearrangement(spheres, in2, sorted, start, end, axis, perm)) by {
                assert forall|a: int| start <= a < end implies start <= #[trigger] perm[a] < end && sorted[a] == in2[perm[a]] by {
                    assert(in1[perm[a]] == in2[perm[a]]);
                }
            }
        }
        assert(n1[base + 2 * k - 2] == n2[base + 2 * k - 2]);
        assert(n1[base + 2 * h - 2] == n2[base + 2 * h - 2]);
        assert(n1[base + 2 * k - 3] == n2[base + 2 * k - 3]);
    }
}

/// A node whose children hold the two halves of a span sorted along the
/// longest axis of the node's box splits along that axis.
proof fn lemma_root_split(
    spheres: Seq<GpuSphere>,
    nodes: Seq<GpuBvhNode>,
    k: int,
    sorted: Seq<usize>,
    start: int,
    mid: int,
    end: int,
    axis: int,
)
    requires
        0 <= k < nodes.len(),
        nodes[k].leaf_idx < 0,
        subtree_leaves(nodes, nodes[k].left as int) == index_set(sorted, start, mid),
        subtree_leaves(nodes, nodes[k].right as int) == index_set(sorted, mid, end),
        spec_longest_axis(nodes[k].bbox) == axis,
        forall|a: int, b: int|
            start <= a < b < end ==> sphere_key(spheres, #[trigger] sorted[a], axis) <= sphere_key(spheres, #[trigger] sorted[b], axis),
    ensures
        split_ok(spheres, nodes, k),
{
    reveal(split_ok);
    let n = nodes[k];
    assert forall|a: int, b: int|
        #[trigger] subtree_leaves(nodes, n.left as int).contains(a) && #[trigger] subtree_leaves(nodes, n.right as int).contains(b)
        implies sphere_key(spheres, a as usize, axis) <= sphere_key(spheres, b as usize, axis) by {
        let ia = choose|i: int| start <= i < mid && #[trigger] sorted[i] as int == a;
        let ib = choose|i: int| mid <= i < end && #[trigger] sorted[i] as int == b;
        assert(sphere_key(spheres, sorted[ia], axis) <= sphere_key(spheres, sorted[ib], axis));
    }
}

/// Appending nodes keeps the split of a node below the old end.
proof fn lemma_split_kept(spheres: Seq<GpuSphere>, a: Seq<GpuBvhNode>, b: Seq<GpuBvhNode>, base: int, k: int)
    requires
        0 <= base <= k < a.len() <= b.len(),
        forall|j: int| 0 <= j < a.len() ==> #[trigger] b[j] == a[j],
        node_ok(spheres, a, k, base),
        split_ok(spheres, a, k),
    ensures
        split_ok(spheres, b, k),
{
    reveal(split_ok);
    let n = a[k];
    if n.leaf_idx < 0 {
        lemma_subtree_prefix(a, b, a.len() as int, n.left as int);
        lemma_subtree_prefix(a, b, a.len() as int, n.right as int);
    }
}

/// Builds the hierarchy over the spheres `indices[start..end)` onto the end
/// of `nodes` (children before parents) and returns the index of its root:
/// a span of one sphere becomes a leaf; a longer span is sorted along the
/// longest axis of its box and split into two halves. Reorders the span.
#[verifier::spinoff_prover]
#[verifier::rlimit(40)]
fn build_bvh(
    spheres: &Vec<GpuSphere>,
    indices: &mut Vec<usize>,
    start: usize,
    end: usize,
    nodes: &mut Vec<GpuBvhNode>,
) -> (idx: u32)
    requires
        start < end <= old(indices).len(),
        forall|i: int| 0 <= i < old(indices).len() ==> #[trigger] old(indices)[i] < spheres.len(),
        forall|k: int| 0 <= k < spheres.len() ==> sphere_in_range(#[trigger] spheres[k]),
        spheres.len() <= i32::MAX,
        old(nodes).len() + 2 * (end - start) <= u32::MAX,
    ensures
        final(indices).len() == old(indices).len(),
        forall|i: int| 0 <= i < start || end <= i < old(indices).len() ==> #[trigger] final(indices)@[i] == old(indices)@[i],
        final(indices)@.to_multiset() == old(indices)@.to_multiset(),
        forall|i: int| 0 <= i < final(indices).len() ==> #[trigger] final(indices)[i] < spheres.len(),
        index_set(final(indices)@, start as int, end as int) == index_set(old(indices)@, start as int, end as int),
        final(nodes).len() == old(nodes).len() + 2 * (end - start) - 1,
        forall|k: int| 0 <= k < old(nodes).len() ==> #[trigger] final(nodes)@[k] == old(nodes)@[k],
        idx == final(nodes).len() - 1,
        forall|k: int| old(nodes).len() <= k < final(nodes).len() ==> #[trigger] node_ok(spheres@, final(nodes)@, k, old(nodes).len() as int),
        subtree_leaves(final(nodes)@, idx as int) == index_set(old(indices)@, start as int, end as int),
        forall|k: int| old(nodes).len() <= k < final(nodes).len() ==> #[trigger] split_ok(spheres@, final(nodes)@, k),
        built(spheres@, old(indices)@, start as int, end as int, final(nodes)@, old(nodes).len() as int, final(indices)@),
        final(indices)@.subrange(start as int, end as int).to_multiset()
            == old(indices)@.subrange(start as int, end as int).to_multiset(),
    decreases end - start,
{
    let ghost orig = indices@;
    let ghost base = nodes@;
    let span = end - start;
    let mut bbox = sphere_aabb(&spheres[indices[start]]);
    let mut i: usize = start + 1;
    while i < end
        invariant
            start < i <= end,
            end <= indices.len(),
            indices@ == orig,
            forall|k: int| 0 <= k < indices.len() ==> #[trigger] indices[k] < spheres.len(),
            forall|k: int| 0 <= k < spheres.len() ==> sphere_in_range(#[trigger] spheres[k]),
            small_box(bbox),
            bbox == gpu_span_hull(spheres@, orig, start as int, i as int),
        decreases end - i,
    {
        bbox = aabb_union(bbox, sphere_aabb(&spheres[indices[i]]));
        i = i + 1;
    }
    if span == 1 {
        let idx = nodes.len() as u32;
        let leaf = indices[start];
        nodes.push(
            GpuBvhNode {
                bbox: sphere_aabb(&spheres[leaf]),
                left: 0,
                right: 0,
                leaf_idx: leaf as i32,
                _pad: 0,
            },
        );
        proof {
            assert(index_set(orig, start as int, end as int) =~= Set::empty().insert(leaf as int));
            assert(nodes@[idx as int].leaf_idx == leaf);
            assert(split_ok(spheres@, nodes@, idx as int)) by {
                reveal(split_ok);
            }
            lemma_built_leaf(spheres@, orig, start as int, nodes@, base.len() as int, indices@);
        }
        return idx;
    }
    let axis = longest_axis(&bbox);
    sort_indices(spheres, indices, start, end, axis);
    let ghost sorted = indices@;
    proof {
        let perm = choose|perm: Seq<int>| stable_index_rearrangement(spheres@, orig, sorted, start as int, end as int, axis as int, perm);
        lemma_rearranged_index_set(spheres@, orig, sorted, start as int, end as int, axis as int, perm);
    }
    let mid = start + span / 2;
    let left = build_bvh(spheres, indices, start, mid, nodes);
    let ghost after_left = nodes@;
    let ghost idx_after_left = indices@;
    let right = build_bvh(spheres, indices, mid, end, nodes);
    let ghost after_right = nodes@;
    let merged = aabb_union(nodes[left as usize].bbox, nodes[right as usize].bbox);
    let idx = nodes.len() as u32;
    nodes.push(GpuBvhNode { bbox: merged, left, right, leaf_idx: -1, _pad: 0 });
    proof {
        let fin = nodes@;
        assert forall|k: int| 0 <= k < after_right.len() implies #[trigger] fin[k] == after_right[k] by {}
        assert forall|k: int| 0 <= k < after_left.len() implies #[trigger] after_right[k] == after_left[k] by {}
        // consistency of every node added
        assert forall|k: int| base.len() <= k < fin.len() implies #[trigger] node_ok(spheres@, fin, k, base.len() as int) by {
            if k < after_left.len() {
                assert(node_ok(spheres@, after_left, k, base.len() as int));
                let n = after_left[k];
                if n.leaf_idx < 0 {
                    assert(fin[n.left as int] == after_left[n.left as int]);
                    assert(fin[n.right as int] == after_left[n.right as int]);
                }
            } else if k < after_right.len() {
                assert(node_ok(spheres@, after_right, k, after_left.len() as int));
                let n = after_right[k];
                if n.leaf_idx < 0 {
                    assert(fin[n.left as int] == after_right[n.left as int]);
                    assert(fin[n.right as int] == after_right[n.right as int]);
                }
            }
        }
        // the leaves
        lemma_subtree_prefix(after_left, fin, after_left.len() as int, left as int);
        lemma_subtree_prefix(after_right, fin, after_right.len() as int, right as int);
        lemma_index_set_same(indices@, idx_after_left, start as int, mid as int);
        lemma_index_set_same(idx_after_left, sorted, mid as int, end as int);
        lemma_index_set_split(indices@, start as int, mid as int, end as int);
        lemma_index_set_split(sorted, start as int, mid as int, end as int);
        assert(subtree_leaves(fin, idx as int) == subtree_leaves(fin, left as int).union(subtree_leaves(fin, right as int)));
        // the box joined from the children is the box of the span, so the
        // split is along its longest axis
        assert(merged == bbox) by {
            lemma_gpu_node_tight(spheres@, fin, base.len() as int, idx as int);
            lemma_gpu_span_hull_tight(spheres@, orig, start as int, end as int);
            lemma_gpu_tight_unique(spheres@, merged, bbox, index_set(orig, start as int, end as int));
        }
        assert forall|k: int| base.len() <= k < fin.len() implies #[trigger] split_ok(spheres@, fin, k) by {
            if k < after_left.len() {
                lemma_split_kept(spheres@, after_left, fin, base.len() as int, k);
            } else if k < after_right.len() {
                lemma_split_kept(spheres@, after_right, fin, after_left.len() as int, k);
            } else {
                lemma_root_split(spheres@, fin, idx as int, sorted, start as int, mid as int, end as int, axis as int);
            }
        }
        // the layout: the two halves of the sorted span, then their parent
        lemma_built_frame(
            spheres@, sorted, sorted, start as int, mid as int, after_left, fin, base.len() as int,
            idx_after_left, indices@,
        );
        lemma_built_frame(
            spheres@, idx_after_left, sorted, mid as int, end as int, after_right, fin,
            after_left.len() as int, indices@, indices@,
        );
        assert(is_stable_sort(spheres@, orig, sorted, start as int, end as int, axis as int));
        assert(fin[idx as int] == inner_node(fin, left as int, right as int));
        lemma_built_join(spheres@, orig, sorted, start as int, end as int, fin, base.len() as int, indices@);
        crate::bvh::lemma_span_multiset_kept(orig, indices@, start as int, end as int);
    }
    idx
}

} // verus!

verus! {

/// A scene ready for the GPU: spheres, materials, textures, and the flat
/// hierarchy over the spheres with its root.
pub struct GpuScene {
    pub spheres: Vec<GpuSphere>,
    pub materials: Vec<GpuMaterial>,
    pub textures: Vec<GpuTexture>,
    pub bvh: Vec<GpuBvhNode>,
    pub bvh_root: u32,
}

impl GpuScene {
    /// The flat hierarchy is consistent: every node is (children before
    /// parents, leaves holding spheres of the scene, boxes joining), the root
    /// is the last node, and the leaves under the root are all the spheres.
    pub open spec fn bvh_wf(self) -> bool {
        &&& self.bvh@.len() >= 1
        &&& self.bvh_root == self.bvh@.len() - 1
        &&& forall|k: int| 0 <= k < self.bvh@.len() ==> #[trigger] node_ok(self.spheres@, self.bvh@, k, 0)
        &&& subtree_leaves(self.bvh@, self.bvh_root as int) == Set::new(|x: int| 0 <= x < self.spheres@.len())
        &&& forall|k: int| 0 <= k < self.bvh@.len() ==> #[trigger] split_ok(self.spheres@, self.bvh@, k)
    }
}

/// Collects the spheres, materials and textures of a scene for the GPU.
pub struct GpuSceneBuilder {
    spheres: Vec<GpuSphere>,
    materials: Vec<GpuMaterial>,
    textures: Vec<GpuTexture>,
}

/// The fixed-point reciprocal of a checker scale: `1 / scale`, rounded
/// toward zero; a zero scale gives the stand-in for infinity.
pub open spec fn spec_inv_scale(scale: int) -> i64 {
    let s = UNITS_PER_WORLD as int;
    if scale == 0 {
        i64::MAX
    } else if scale > 0 {
        ((s * s) / scale) as i64
    } else {
        (-((s * s) / (-scale))) as i64
    }
}

impl GpuSceneBuilder {
    /// Every sphere added is in range (centres and radius within `i32`).
    pub closed spec fn wf(self) -> bool {
        forall|k: int| 0 <= k < self.spheres@.len() ==> sphere_in_range(#[trigger] self.spheres@[k])
    }

    pub closed spec fn spec_spheres(self) -> Seq<GpuSphere> {
        self.spheres@
    }

    pub closed spec fn spec_materials(self) -> Seq<GpuMaterial> {
        self.materials@
    }

    pub closed spec fn spec_textures(self) -> Seq<GpuTexture> {
        self.textures@
    }

    /// An empty scene.
    pub fn new() -> (r: GpuSceneBuilder)
        ensures
            r.wf(),
            r.spec_spheres().len() == 0,
            r.spec_materials().len() == 0,
            r.spec_textures().len() == 0,
    {
        GpuSceneBuilder { spheres: Vec::new(), materials: Vec::new(), textures: Vec::new() }
    }

    /// The number of spheres added so far.
    pub fn sphere_count(&self) -> (r: usize)
        ensures
            r == self.spec_spheres().len(),
    {
        self.spheres.len()
    }

    /// Adds a solid-colour texture and returns its index.
    pub fn add_solid_texture(&mut self, c: Color) -> (idx: u32)
        requires
            old(self).wf(),
        ensures
            final(self).wf(),
            idx == old(self).spec_textures().len() as u32,
            final(self).spec_textures() == old(self).spec_textures().push(
                GpuTexture { kind: TEX_SOLID, color: spec_to_gpu(c), inv_scale: 0, tex_a: 0, tex_b: 0 },
            ),
            final(self).spec_spheres() == old(self).spec_spheres(),
            final(self).spec_materials() == old(self).spec_materials(),
    {
        let idx = self.textures.len() as u32;
        self.textures.push(GpuTexture { kind: TEX_SOLID, color: to_gpu(c), inv_scale: 0, tex_a: 0, tex_b: 0 });
        idx
    }

    /// Adds a checker texture of the two solid textures `even` and `odd`
    /// with cubes of side `scale`, and returns its index.
    pub fn add_checker_texture(&mut self, scale: i64, even: u32, odd: u32) -> (idx: u32)
        requires
            old(self).wf(),
            even < old(self).spec_textures().len(),
            odd < old(self).spec_textures().len(),
            old(self).spec_textures()[even as int].kind == TEX_SOLID,
            old(self).spec_textures()[odd as int].kind == TEX_SOLID,
        ensures
            final(self).wf(),
            idx == old(self).spec_textures().len() as u32,
            final(self).spec_textures() == old(self).spec_textures().push(
                GpuTexture {
                    kind: TEX_CHECKER,
                    color: GpuVec3 { x: 0, y: 0, z: 0 },
                    inv_scale: spec_inv_scale(scale as int),
                    tex_a: even,
                    tex_b: odd,
                },
            ),
            final(self).spec_spheres() == old(self).spec_spheres(),
            final(self).spec_materials() == old(self).spec_materials(),
    {
        let s: i64 = UNITS_PER_WORLD;
        let inv_scale: i64 = if scale == 0 {
            i64::MAX
        } else if scale > 0 {
            (s * s) / scale
        } else if scale == i64::MIN {
            0
        } else {
            -((s * s) / (-scale))
        };
        proof {
            if scale == i64::MIN {
                assert((s * s) / (-(scale as int)) == 0) by (nonlinear_arith)
                    requires
                        s == 20000,
                        scale == i64::MIN,
                ;
            }
        }
        let idx = self.textures.len() as u32;
        self.textures.push(
            GpuTexture { kind: TEX_CHECKER, color: GpuVec3::default(), inv_scale, tex_a: even, tex_b: odd },
        );
        idx
    }

    /// Adds a checker texture of two solid colours and returns its index
    /// (the two solid textures are added first).
    pub fn add_checker_colors(&mut self, scale: i64, c1: Color, c2: Color) -> (idx: u32)
        requires
            old(self).wf(),
            old(self).spec_textures().len() + 2 <= u32::MAX,
        ensures
            final(self).wf(),
            idx == old(self).spec_textures().len() + 2,
            final(self).spec_textures().len() == old(self).spec_textures().len() + 3,
            final(self).spec_textures().subrange(0, old(self).spec_textures().len() as int) == old(self).spec_textures(),
            final(self).spec_textures()[idx as int - 2] == (GpuTexture { kind: TEX_SOLID, color: spec_to_gpu(c1), inv_scale: 0, tex_a: 0, tex_b: 0 }),
            final(self).spec_textures()[idx as int - 1] == (GpuTexture { kind: TEX_SOLID, color: spec_to_gpu(c2), inv_scale: 0, tex_a: 0, tex_b: 0 }),
            final(self).spec_textures()[idx as int] == (GpuTexture {
                kind: TEX_CHECKER,
                color: GpuVec3 { x: 0, y: 0, z: 0 },
                inv_scale: spec_inv_scale(scale as int),
                tex_a: (idx - 2) as u32,
                tex_b: (idx - 1) as u32,
            }),
            final(self).spec_spheres() == old(self).spec_spheres(),
            final(self).spec_materials() == old(self).spec_materials(),
    {
        let a = self.add_solid_texture(c1);
        let b = self.add_solid_texture(c2);
        let r = self.add_checker_texture(scale, a, b);
        proof {
            assert(final(self).spec_textures().subrange(0, old(self).spec_textures().len() as int) =~= old(self).spec_textures());
        }
        r
    }

    /// Adds a Lambertian material over texture `tex_idx` and returns its index.
    pub fn add_lambertian(&mut self, tex_idx: u32) -> (idx: u32)
        requires
            old(self).wf(),
        ensures
            final(self).wf(),
            idx == old(self).spec_materials().len() as u32,
            final(self).spec_materials() == old(self).spec_materials().push(
                GpuMaterial { kind: MAT_LAMBERTIAN, tex_idx, fuzz: 0, ior: 0 },
            ),
            final(self).spec_spheres() == old(self).spec_spheres(),
            final(self).spec_textures() == old(self).spec_textures(),
    {
        let idx = self.materials.len() as u32;
        self.materials.push(GpuMaterial { kind: MAT_LAMBERTIAN, tex_idx, fuzz: 0, ior: 0 });
        idx
    }

    /// Adds a Lambertian material of a solid colour (its texture added
    /// first) and returns its index.
    pub fn add_lambertian_color(&mut self, albedo: Color) -> (idx: u32)
        requires
            old(self).wf(),
        ensures
            final(self).wf(),
            idx == old(self).spec_materials().len() as u32,
            final(self).spec_textures() == old(self).spec_textures().push(
                GpuTexture { kind: TEX_SOLID, color: spec_to_gpu(albedo), inv_scale: 0, tex_a: 0, tex_b: 0 },
            ),
            final(self).spec_materials() == old(self).spec_materials().push(
                GpuMaterial {
                    kind: MAT_LAMBERTIAN,
                    tex_idx: old(self).spec_textures().len() as u32,
                    fuzz: 0,
                    ior: 0,
                },
            ),
            final(self).spec_spheres() == old(self).spec_spheres(),
    {
        let t = self.add_solid_texture(albedo);
        self.add_lambertian(t)
    }

    /// Adds a metal of a solid colour (its texture added first) with the
    /// fuzz capped at one world unit, and returns its index.
    pub fn add_metal(&mut self, albedo: Color, fuzz: i64) -> (idx: u32)
        requires
            old(self).wf(),
        ensures
            final(self).wf(),
            idx == old(self).spec_materials().len() as u32,
            final(self).spec_textures() == old(self).spec_textures().push(
                GpuTexture { kind: TEX_SOLID, color: spec_to_gpu(albedo), inv_scale: 0, tex_a: 0, tex_b: 0 },
            ),
            final(self).spec_materials() == old(self).spec_materials().push(
                GpuMaterial {
                    kind: MAT_METAL,
                    tex_idx: old(self).spec_textures().len() as u32,
                    fuzz: if fuzz <= UNITS_PER_WORLD { fuzz } else { UNITS_PER_WORLD },
                    ior: 0,
                },
            ),
            final(self).spec_spheres() == old(self).spec_spheres(),
    {
        let t = self.add_solid_texture(albedo);
        let idx = self.materials.len() as u32;
        let capped = if fuzz <= UNITS_PER_WORLD { fuzz } else { UNITS_PER_WORLD };
        self.materials.push(GpuMaterial { kind: MAT_METAL, tex_idx: t, fuzz: capped, ior: 0 });
        idx
    }

    /// Adds a dielectric of index of refraction `ior` and returns its index.
    pub fn add_dielectric(&mut self, ior: i64) -> (idx: u32)
        requires
            old(self).wf(),
        ensures
            final(self).wf(),
            idx == old(self).spec_materials().len() as u32,
            final(self).spec_materials() == old(self).spec_materials().push(
                GpuMaterial { kind: MAT_DIELECTRIC, tex_idx: 0, fuzz: 0, ior },
            ),
            final(self).spec_spheres() == old(self).spec_spheres(),
            final(self).spec_textures() == old(self).spec_textures(),
    {
        let idx = self.materials.len() as u32;
        self.materials.push(GpuMaterial { kind: MAT_DIELECTRIC, tex_idx: 0, fuzz: 0, ior });
        idx
    }

    /// Adds a still sphere.
    pub fn add_sphere(&mut self, c: Point3, r: i32, mat: u32)
        requires
            old(self).wf(),
        ensures
            final(self).wf(),
            final(self).spec_spheres() == old(self).spec_spheres().push(
                GpuSphere {
                    center0: spec_to_gpu(c),
                    center1: GpuVec3 { x: 0, y: 0, z: 0 },
                    radius: r as i64,
                    mat_idx: mat,
                    is_moving: 0,
                    _pad: 0,
                },
            ),
            final(self).spec_materials() == old(self).spec_materials(),
            final(self).spec_textures() == old(self).spec_textures(),
    {
        self.spheres.push(
            GpuSphere {
                center0: to_gpu(c),
                center1: GpuVec3::default(),
                radius: r as i64,
                mat_idx: mat,
                is_moving: 0,
                _pad: 0,
            },
        );
    }

    /// Adds a sphere moving from `c0` to `c1`.
    pub fn add_moving_sphere(&mut self, c0: Point3, c1: Point3, r: i32, mat: u32)
        requires
            old(self).wf(),
        ensures
            final(self).wf(),
            final(self).spec_spheres() == old(self).spec_spheres().push(
                GpuSphere {
                    center0: spec_to_gpu(c0),
                    center1: spec_to_gpu(c1),
                    radius: r as i64,
                    mat_idx: mat,
                    is_moving: 1,
                    _pad: 0,
                },
            ),
            final(self).spec_materials() == old(self).spec_materials(),
            final(self).spec_textures() == old(self).spec_textures(),
    {
        self.spheres.push(
            GpuSphere {
                center0: to_gpu(c0),
                center1: to_gpu(c1),
                radius: r as i64,
                mat_idx: mat,
                is_moving: 1,
                _pad: 0,
            },
        );
    }

    /// The scene with its hierarchy built over all the spheres (at least
    /// one, and few enough to be indexed by an `i32`).
    pub fn build(self) -> (scene: GpuScene)
        requires
            self.wf(),
            0 < self.spec_spheres().len() <= i32::MAX,
        ensures
            scene.spheres@ == self.spec_spheres(),
            scene.materials@ == self.spec_materials(),
            scene.textures@ == self.spec_textures(),
            scene.bvh@.len() == 2 * self.spec_spheres().len() - 1,
            scene.bvh_wf(),
            exists|order: Seq<usize>|
                #[trigger] built(
                    self.spec_spheres(),
                    sphere_order(self.spec_spheres().len()),
                    0,
                    self.spec_spheres().len() as int,
                    scene.bvh@,
                    0,
                    order,
                ) && order.subrange(0, self.spec_spheres().len() as int).to_multiset()
                    == sphere_order(self.spec_spheres().len()).to_multiset(),
            leaf_order(scene.bvh@, 0, scene.bvh@.len() as int).to_multiset()
                == sphere_order(self.spec_spheres().len()).to_multiset(),
    {
        let n = self.spheres.len();
        let mut indices: Vec<usize> = Vec::new();
        let mut k: usize = 0;
        while k < n
            invariant
                k <= n,
                indices@.len() == k,
                forall|j: int| 0 <= j < k ==> #[trigger] indices@[j] == j,
            decreases n - k,
        {
            indices.push(k);
            k = k + 1;
        }
        let mut nodes: Vec<GpuBvhNode> = Vec::new();
        let ghost ids = indices@;
        let root = build_bvh(&self.spheres, &mut indices, 0, n, &mut nodes);
        proof {
            assert(ids =~= sphere_order(n as nat));
            assert(ids.subrange(0, n as int) =~= ids);
            assert(index_set(ids, 0, n as int) =~= Set::new(|x: int| 0 <= x < n)) by {
                assert forall|x: int| 0 <= x < n implies index_set(ids, 0, n as int).contains(x) by {
                    assert(ids[x] as int == x);
                }
            }
            assert forall|i: int| 0 <= i < n implies #[trigger] ids[i] <= i32::MAX by {}
            lemma_built_leaves(self.spheres@, ids, 0, n as int, nodes@, 0, indices@);
        }
        let GpuSceneBuilder { spheres, materials, textures } = self;
        GpuScene { spheres, materials, textures, bvh: nodes, bvh_root: root }
    }
}

} // verus!

verus! {

/// Every axis of `inner` lies within the same axis of `outer`.
pub open spec fn gpu_encloses(outer: GpuAabb, inner: GpuAabb) -> bool {
    &&& outer.min.x <= inner.min.x && inner.max.x <= outer.max.x
    &&& outer.min.y <= inner.min.y && inner.max.y <= outer.max.y
    &&& outer.min.z <= inner.min.z && inner.max.z <= outer.max.z
}

/// In a consistent flat hierarchy, the box of every node is the smallest box
/// around the boxes of the spheres at the leaves under it.
pub proof fn lemma_node_tight(scene: GpuScene, k: int)
    requires
        scene.bvh_wf(),
        0 <= k < scene.bvh@.len(),
    ensures
        gpu_tight(scene.spheres@, scene.bvh@[k].bbox, subtree_leaves(scene.bvh@, k)),
{
    lemma_gpu_node_tight(scene.spheres@, scene.bvh@, 0, k);
}

/// In a consistent flat hierarchy, every inner node splits its spheres along
/// the longest axis of its box: no sphere under the left child starts, on
/// that axis, after a sphere under the right child.
pub proof fn lemma_node_split(scene: GpuScene, k: int, a: int, b: int)
    requires
        scene.bvh_wf(),
        0 <= k < scene.bvh@.len(),
        scene.bvh@[k].leaf_idx < 0,
        subtree_leaves(scene.bvh@, scene.bvh@[k].left as int).contains(a),
        subtree_leaves(scene.bvh@, scene.bvh@[k].right as int).contains(b),
    ensures
        sphere_key(scene.spheres@, a as usize, spec_longest_axis(scene.bvh@[k].bbox))
            <= sphere_key(scene.spheres@, b as usize, spec_longest_axis(scene.bvh@[k].bbox)),
{
    assert(split_ok(scene.spheres@, scene.bvh@, k));
    reveal(split_ok);
}

/// In a consistent flat hierarchy, the box of every node encloses the box
/// of every sphere at a leaf under it, so a traversal that skips the nodes
/// whose box a ray misses never skips a sphere whose box the ray meets.
pub proof fn lemma_node_encloses_leaves(scene: GpuScene, k: int, x: int)
    requires
        scene.bvh_wf(),
        0 <= k < scene.bvh@.len(),
        subtree_leaves(scene.bvh@, k).contains(x),
    ensures
        0 <= x < scene.spheres@.len(),
        gpu_encloses(scene.bvh@[k].bbox, spec_sphere_aabb(scene.spheres@[x])),
    decreases k,
{
    let n = scene.bvh@[k];
    assert(node_ok(scene.spheres@, scene.bvh@, k, 0));
    if n.leaf_idx < 0 {
        if subtree_leaves(scene.bvh@, n.left as int).contains(x) {
            lemma_node_encloses_leaves(scene, n.left as int, x);
        } else {
            lemma_node_encloses_leaves(scene, n.right as int, x);
        }
    }
}

} // verus!
