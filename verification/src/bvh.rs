use vstd::prelude::*;
use crate::aabb::Aabb;

verus! {

broadcast use vstd::seq_lib::group_to_multiset_ensures;

/// An object handed to the hierarchy: the caller's identity for it and its
/// bounding box.
#[derive(Clone, Copy, Debug, PartialEq, Eq, Structural)]
pub struct BvhItem {
    pub id: usize,
    pub bbox: Aabb,
}

/// The sort key of an item along an axis: the low end of its box on that axis.
pub open spec fn key(it: BvhItem, axis: int) -> int {
    it.bbox.axis(axis).min as int
}

/// `s[start..end)` is in non-decreasing order of `key` along `axis`.
pub open spec fn sorted_span(s: Seq<BvhItem>, start: int, end: int, axis: int) -> bool {
    forall|a: int, b: int| start <= a < b < end ==> key(#[trigger] s[a], axis) <= key(#[trigger] s[b], axis)
}

/// Some position of `[start, end)` is mapped by `perm` to `c`.
pub open spec fn in_image(perm: Seq<int>, start: int, end: int, c: int) -> bool {
    exists|a: int| start <= a < end && #[trigger] perm[a] == c
}

/// `perm` maps each position of `new[start..end)` to the position of
/// `old[start..end)` it came from, one to one and onto, and keeps items of
/// equal key in their old relative order.
pub open spec fn stable_rearrangement(
    old: Seq<BvhItem>,
    new: Seq<BvhItem>,
    start: int,
    end: int,
    axis: int,
    perm: Seq<int>,
) -> bool {
    &&& perm.len() == new.len()
    &&& forall|a: int| start <= a < end ==> start <= #[trigger] perm[a] < end && new[a] == old[perm[a]]
    &&& forall|a: int, b: int| start <= a < end && start <= b < end && a != b ==> #[trigger] perm[a] != #[trigger] perm[b]
    &&& forall|c: int| start <= c < end ==> #[trigger] in_image(perm, start, end, c)
    &&& forall|a: int, b: int|
        start <= a < b < end && key(new[a], axis) == key(new[b], axis) ==> #[trigger] perm[a] < #[trigger] perm[b]
}

/// `new[start..end)` is `old[start..end)` sorted by `key` along `axis`,
/// items of equal key keeping their old order.
pub open spec fn is_stable_sorted_span(old: Seq<BvhItem>, new: Seq<BvhItem>, start: int, end: int, axis: int) -> bool {
    &&& new.len() == old.len()
    &&& sorted_span(new, start, end, axis)
    &&& exists|perm: Seq<int>| stable_rearrangement(old, new, start, end, axis, perm)
}

/// Whether `a` goes before `b` along `axis`: the comparison of the
/// low ends of the two boxes, `Less` exactly when `a`'s is smaller.
fn box_compare_less(a: &BvhItem, b: &BvhItem, axis: usize) -> (r: bool)
    ensures
        r == (key(*a, axis as int) < key(*b, axis as int)),
{
    a.bbox.axis_interval(axis).min < b.bbox.axis_interval(axis).min
}

/// Sorts `objects[start..end)` by the low end of the boxes along `axis`,
/// keeping items of equal key in order (a stable insertion sort).
fn sort_span(objects: &mut Vec<BvhItem>, start: usize, end: usize, axis: usize)
    requires
        start <= end <= old(objects).len(),
    ensures
        final(objects).len() == old(objects).len(),
        forall|i: int| 0 <= i < start || end <= i < old(objects).len() ==> #[trigger] final(objects)@[i] == old(objects)@[i],
        final(objects)@.to_multiset() == old(objects)@.to_multiset(),
        sorted_span(final(objects)@, start as int, end as int, axis as int),
        exists|perm: Seq<int>| stable_rearrangement(old(objects)@, final(objects)@, start as int, end as int, axis as int, perm),
{
    let ghost orig = objects@;
    let ghost mut perm: Seq<int> = Seq::new(objects@.len(), |a: int| a);
    let ghost mut inv: Seq<int> = Seq::new(objects@.len(), |a: int| a);
    if end - start < 2 {
        assert(stable_rearrangement(orig, objects@, start as int, end as int, axis as int, perm)) by {
            assert forall|c: int| start <= c < end implies #[trigger] in_image(perm, start as int, end as int, c) by {
                assert(perm[c] == c);
            }
        }
        return;
    }
    let mut i: usize = start + 1;
    while i < end
        invariant
            start < i <= end,
            end <= objects.len(),
            objects.len() == orig.len(),
            perm.len() == orig.len(),
            inv.len() == orig.len(),
            forall|k: int| 0 <= k < start || end <= k < orig.len() ==> #[trigger] objects@[k] == orig[k],
            objects@.to_multiset() == orig.to_multiset(),
            sorted_span(objects@, start as int, i as int, axis as int),
            forall|a: int| start <= a < end ==> start <= #[trigger] perm[a] < end && objects@[a] == orig[perm[a]],
            forall|c: int| start <= c < end ==> start <= #[trigger] inv[c] < end && perm[inv[c]] == c,
            forall|a: int| start <= a < end ==> #[trigger] inv[perm[a]] == a,
            forall|a: int, b: int|
                start <= a < b < end && key(objects@[a], axis as int) == key(objects@[b], axis as int) ==> #[trigger] perm[a] < #[trigger] perm[b],
        decreases end - i,
    {
        let mut j: usize = i;
        while j > start && box_compare_less(&objects[j], &objects[j - 1], axis)
            invariant
                start <= j <= i < end,
                end <= objects.len(),
                objects.len() == orig.len(),
                perm.len() == orig.len(),
                inv.len() == orig.len(),
                forall|k: int| 0 <= k < start || end <= k < orig.len() ==> #[trigger] objects@[k] == orig[k],
                objects@.to_multiset() == orig.to_multiset(),
                // [start, j) and (j, i] are sorted, and everything before j is at most everything after j
                forall|a: int, b: int|
                    start <= a < b <= i && a != j && b != j ==> key(#[trigger] objects@[a], axis as int) <= key(#[trigger] objects@[b], axis as int),
                // the element moving down is strictly below those it has passed
                forall|b: int| j < b <= i ==> key(objects@[j as int], axis as int) < key(#[trigger] objects@[b], axis as int),
                forall|a: int| start <= a < end ==> start <= #[trigger] perm[a] < end && objects@[a] == orig[perm[a]],
                forall|c: int| start <= c < end ==> start <= #[trigger] inv[c] < end && perm[inv[c]] == c,
                forall|a: int| start <= a < end ==> #[trigger] inv[perm[a]] == a,
                forall|a: int, b: int|
                    start <= a < b < end && key(objects@[a], axis as int) == key(objects@[b], axis as int) ==> #[trigger] perm[a] < #[trigger] perm[b],
            decreases j,
        {
            let lower = objects[j - 1];
            let upper = objects[j];
            let ghost before = objects@;
            let ghost pa = perm[j - 1];
            let ghost pb = perm[j as int];
            objects.set(j - 1, upper);
            objects.set(j, lower);
            proof {
                assert(objects@ == before.update(j - 1, upper).update(j as int, lower));
                assert(before.update(j - 1, upper).to_multiset() == before.to_multiset().insert(upper).remove(lower));
                assert(objects@.to_multiset() == before.update(j - 1, upper).to_multiset().insert(lower).remove(upper));
                broadcast use vstd::multiset::group_multiset_axioms;
                assert(objects@.to_multiset() =~= orig.to_multiset());
                perm = perm.update(j - 1, pb).update(j as int, pa);
                inv = inv.update(pb, j - 1).update(pa, j as int);
            }
            j = j - 1;
        }
        i = i + 1;
    }
    proof {
        assert(stable_rearrangement(orig, objects@, start as int, end as int, axis as int, perm)) by {
            assert forall|c: int| start <= c < end implies #[trigger] in_image(perm, start as int, end as int, c) by {
                assert(perm[inv[c]] == c);
            }
        }
    }
}

} // verus!

verus! {

/// The items at positions `[start, end)` of `s`.
pub open spec fn span_set(s: Seq<BvhItem>, start: int, end: int) -> Set<BvhItem> {
    Set::new(|x: BvhItem| exists|i: int| start <= i < end && #[trigger] s[i] == x)
}

/// The box of the items at positions `[start, end)`, joined one after the
/// other onto the empty box.
pub open spec fn span_hull(s: Seq<BvhItem>, start: int, end: int) -> Aabb
    decreases end - start,
{
    if end <= start {
        Aabb::empty_value()
    } else {
        Aabb::spec_hull(span_hull(s, start, end - 1), s[end - 1].bbox)
    }
}

/// `b` is the smallest box enclosing the boxes of all the items of `items`:
/// it encloses each, and each of its six faces is a face of one of them.
pub open spec fn tight_hull(b: Aabb, items: Set<BvhItem>) -> bool {
    &&& forall|it: BvhItem| #[trigger] items.contains(it) ==> b.encloses(it.bbox)
    &&& faces_attained(b, items, 0)
    &&& faces_attained(b, items, 1)
    &&& faces_attained(b, items, 2)
}

/// On axis `n`, the low face of `b` is the low face of an item's box, and
/// the high face of `b` the high face of an item's box.
pub open spec fn faces_attained(b: Aabb, items: Set<BvhItem>, n: int) -> bool {
    &&& exists|it: BvhItem| #[trigger] items.contains(it) && it.bbox.axis(n).min == b.axis(n).min
    &&& exists|it: BvhItem| #[trigger] items.contains(it) && it.bbox.axis(n).max == b.axis(n).max
}

/// A child of a hierarchy node: one object, or a further node.
pub enum BvhChild {
    Leaf(BvhItem),
    Node(Box<BvhNode>),
}

/// A node of a bounding-volume hierarchy: two children and the box that
/// joins theirs.
pub struct BvhNode {
    pub left: BvhChild,
    pub right: BvhChild,
    pub bbox: Aabb,
}

impl BvhChild {
    /// The box of the child.
    pub open spec fn box_of(self) -> Aabb {
        match self {
            BvhChild::Leaf(it) => it.bbox,
            BvhChild::Node(n) => n.bbox,
        }
    }

    pub open spec fn wf(self) -> bool
        decreases self,
    {
        match self {
            BvhChild::Leaf(_) => true,
            BvhChild::Node(n) => n.wf(),
        }
    }

    /// The objects held under this child.
    pub open spec fn items(self) -> Set<BvhItem>
        decreases self,
    {
        match self {
            BvhChild::Leaf(it) => Set::empty().insert(it),
            BvhChild::Node(n) => n.items(),
        }
    }

    pub open spec fn split_ordered(self) -> bool
        decreases self,
    {
        match self {
            BvhChild::Leaf(_) => true,
            BvhChild::Node(n) => n.split_ordered(),
        }
    }

    /// The child is a node built over `m` objects.
    pub open spec fn node_over(self, m: nat) -> bool
        decreases self,
    {
        match self {
            BvhChild::Leaf(_) => false,
            BvhChild::Node(n) => n.shaped(m),
        }
    }

    /// The objects of the child from left to right, for a child built over
    /// `m` objects.
    pub open spec fn held(self, m: nat) -> Seq<BvhItem>
        decreases self,
    {
        match self {
            BvhChild::Leaf(it) => seq![it],
            BvhChild::Node(n) => n.held(m),
        }
    }

    /// The box of the child.
    pub fn bounding_box(&self) -> (r: Aabb)
        ensures
            r == self.box_of(),
    {
        match self {
            BvhChild::Leaf(it) => it.bbox,
            BvhChild::Node(n) => n.bbox,
        }
    }
}

impl BvhNode {
    /// Every node's box joins its two children's boxes.
    pub open spec fn wf(self) -> bool
        decreases self,
    {
        &&& self.bbox == Aabb::spec_hull(self.left.box_of(), self.right.box_of())
        &&& self.left.wf()
        &&& self.right.wf()
    }

    /// The objects held under this node.
    pub open spec fn items(self) -> Set<BvhItem>
        decreases self,
    {
        self.left.items().union(self.right.items())
    }

    /// At every node, along the longest axis of the node's box, no object on
    /// the left starts after an object on the right.
    pub open spec fn split_ordered(self) -> bool
        decreases self,
    {
        &&& forall|a: BvhItem, b: BvhItem|
            #[trigger] self.left.items().contains(a) && #[trigger] self.right.items().contains(b)
                ==> key(a, self.bbox.spec_longest_axis()) <= key(b, self.bbox.spec_longest_axis())
        &&& self.left.split_ordered()
        &&& self.right.split_ordered()
    }

    /// The node is built over `n` objects: over one, both children are the
    /// same leaf; over two, each child is a leaf; over more, the left child is
    /// a node over the first `n / 2` and the right child a node over the
    /// other `n - n / 2`.
    pub open spec fn shaped(self, n: nat) -> bool
        decreases self,
    {
        if n == 1 {
            self.left is Leaf && self.right == self.left
        } else if n == 2 {
            self.left is Leaf && self.right is Leaf
        } else if n >= 3 {
            self.left.node_over(n / 2) && self.right.node_over((n - n / 2) as nat)
        } else {
            false
        }
    }

    /// The objects of a node built over `n` objects, from left to right, each
    /// counted once.
    pub open spec fn held(self, n: nat) -> Seq<BvhItem>
        decreases self,
    {
        if n <= 1 {
            self.left.held(1)
        } else {
            self.left.held(n / 2) + self.right.held((n - n / 2) as nat)
        }
    }

    /// The node is the hierarchy built over `input[start..end)`, and
    /// `out[start..end)` is the order in which it leaves those objects. Its
    /// box joins its children's. One object fills both children with its
    /// leaf; two objects become two leaves, the first on the left exactly
    /// when its low end is the smaller along the longest axis of their box;
    /// more objects are stably sorted along that axis and split into nodes
    /// over the first `k / 2` and over the rest.
    #[verifier::opaque]
    pub open spec fn built_over(self, input: Seq<BvhItem>, start: int, end: int, out: Seq<BvhItem>) -> bool
        decreases end - start,
    {
        let k = end - start;
        let axis = span_hull(input, start, end).spec_longest_axis();
        &&& self.bbox == Aabb::spec_hull(self.left.box_of(), self.right.box_of())
        &&& if k == 1 {
            &&& self.left == BvhChild::Leaf(input[start])
            &&& self.right == self.left
            &&& out[start] == input[start]
        } else if k == 2 {
            &&& out[start] == input[start]
            &&& out[start + 1] == input[start + 1]
            &&& if key(input[start], axis) < key(input[start + 1], axis) {
                self.left == BvhChild::Leaf(input[start]) && self.right == BvhChild::Leaf(input[start + 1])
            } else {
                self.left == BvhChild::Leaf(input[start + 1]) && self.right == BvhChild::Leaf(input[start])
            }
        } else if k >= 3 {
            exists|sorted: Seq<BvhItem>|
                #[trigger] is_stable_sorted_span(input, sorted, start, end, axis) && (match self.left {
                    BvhChild::Node(l) => l.built_over(sorted, start, start + k / 2, out),
                    BvhChild::Leaf(_) => false,
                }) && (match self.right {
                    BvhChild::Node(r) => r.built_over(sorted, start + k / 2, end, out),
                    BvhChild::Leaf(_) => false,
                })
        } else {
            false
        }
    }

    /// The box of the node.
    pub fn bounding_box(&self) -> (r: Aabb)
        ensures
            r == self.bbox,
    {
        self.bbox
    }
}

} // verus!

verus! {

proof fn lemma_tight_single(it: BvhItem)
    ensures
        tight_hull(it.bbox, Set::empty().insert(it)),
{
    let s = Set::empty().insert(it);
    assert(s.contains(it));
}

proof fn lemma_tight_union(a: Aabb, sa: Set<BvhItem>, b: Aabb, sb: Set<BvhItem>)
    requires
        tight_hull(a, sa),
        tight_hull(b, sb),
    ensures
        tight_hull(Aabb::spec_hull(a, b), sa.union(sb)),
{
    let h = Aabb::spec_hull(a, b);
    let u = sa.union(sb);
    assert forall|it: BvhItem| #[trigger] u.contains(it) implies h.encloses(it.bbox) by {
        if sa.contains(it) {
            assert(a.encloses(it.bbox));
        } else {
            assert(b.encloses(it.bbox));
        }
    }
    lemma_faces_union(a, sa, b, sb, 0);
    lemma_faces_union(a, sa, b, sb, 1);
    lemma_faces_union(a, sa, b, sb, 2);
}

proof fn lemma_faces_union(a: Aabb, sa: Set<BvhItem>, b: Aabb, sb: Set<BvhItem>, n: int)
    requires
        faces_attained(a, sa, n),
        faces_attained(b, sb, n),
    ensures
        faces_attained(Aabb::spec_hull(a, b), sa.union(sb), n),
{
    let h = Aabb::spec_hull(a, b);
    let u = sa.union(sb);
    if a.axis(n).min <= b.axis(n).min {
        let w = choose|w: BvhItem| #[trigger] sa.contains(w) && w.bbox.axis(n).min == a.axis(n).min;
        assert(u.contains(w) && w.bbox.axis(n).min == h.axis(n).min);
    } else {
        let w = choose|w: BvhItem| #[trigger] sb.contains(w) && w.bbox.axis(n).min == b.axis(n).min;
        assert(u.contains(w) && w.bbox.axis(n).min == h.axis(n).min);
    }
    if a.axis(n).max >= b.axis(n).max {
        let w = choose|w: BvhItem| #[trigger] sa.contains(w) && w.bbox.axis(n).max == a.axis(n).max;
        assert(u.contains(w) && w.bbox.axis(n).max == h.axis(n).max);
    } else {
        let w = choose|w: BvhItem| #[trigger] sb.contains(w) && w.bbox.axis(n).max == b.axis(n).max;
        assert(u.contains(w) && w.bbox.axis(n).max == h.axis(n).max);
    }
}

/// Two boxes that are each the tightest box around the same items are the same box.
proof fn lemma_tight_unique(a: Aabb, b: Aabb, s: Set<BvhItem>)
    requires
        tight_hull(a, s),
        tight_hull(b, s),
    ensures
        a == b,
{
    lemma_faces_unique(a, b, s, 0);
    lemma_faces_unique(a, b, s, 1);
    lemma_faces_unique(a, b, s, 2);
    assert(a.axis(0) == b.axis(0));
    assert(a.axis(1) == b.axis(1));
    assert(a.axis(2) == b.axis(2));
}

proof fn lemma_faces_unique(a: Aabb, b: Aabb, s: Set<BvhItem>, n: int)
    requires
        0 <= n < 3,
        tight_hull(a, s),
        tight_hull(b, s),
    ensures
        a.axis(n).min == b.axis(n).min,
        a.axis(n).max == b.axis(n).max,
{
    assert(faces_attained(a, s, n) && faces_attained(b, s, n));
    let wa = choose|w: BvhItem| #[trigger] s.contains(w) && w.bbox.axis(n).min == a.axis(n).min;
    let wb = choose|w: BvhItem| #[trigger] s.contains(w) && w.bbox.axis(n).min == b.axis(n).min;
    assert(b.encloses(wa.bbox));
    assert(a.encloses(wb.bbox));
    let va = choose|w: BvhItem| #[trigger] s.contains(w) && w.bbox.axis(n).max == a.axis(n).max;
    let vb = choose|w: BvhItem| #[trigger] s.contains(w) && w.bbox.axis(n).max == b.axis(n).max;
    assert(b.encloses(va.bbox));
    assert(a.encloses(vb.bbox));
}

proof fn lemma_span_set_split(s: Seq<BvhItem>, a: int, b: int, c: int)
    requires
        a <= b <= c,
    ensures
        span_set(s, a, c) == span_set(s, a, b).union(span_set(s, b, c)),
{
    assert(span_set(s, a, c) =~= span_set(s, a, b).union(span_set(s, b, c)));
}

proof fn lemma_span_set_last(s: Seq<BvhItem>, a: int, c: int)
    requires
        0 <= a < c <= s.len(),
    ensures
        span_set(s, a, c) == span_set(s, a, c - 1).union(Set::empty().insert(s[c - 1])),
{
    assert(span_set(s, a, c) =~= span_set(s, a, c - 1).union(Set::empty().insert(s[c - 1])));
}

proof fn lemma_span_set_same(s1: Seq<BvhItem>, s2: Seq<BvhItem>, a: int, b: int)
    requires
        forall|i: int| a <= i < b ==> #[trigger] s1[i] == s2[i],
    ensures
        span_set(s1, a, b) == span_set(s2, a, b),
{
    assert forall|x: BvhItem| span_set(s1, a, b).contains(x) implies span_set(s2, a, b).contains(x) by {
        let i = choose|i: int| a <= i < b && #[trigger] s1[i] == x;
        assert(s2[i] == x);
    }
    assert forall|x: BvhItem| span_set(s2, a, b).contains(x) implies span_set(s1, a, b).contains(x) by {
        let i = choose|i: int| a <= i < b && #[trigger] s2[i] == x;
        assert(s1[i] == x);
    }
    assert(span_set(s1, a, b) =~= span_set(s2, a, b));
}

proof fn lemma_span_hull_tight(s: Seq<BvhItem>, start: int, end: int)
    requires
        0 <= start < end <= s.len(),
    ensures
        tight_hull(span_hull(s, start, end), span_set(s, start, end)),
    decreases end - start,
{
    lemma_span_set_last(s, start, end);
    lemma_tight_single(s[end - 1]);
    if end - 1 == start {
        assert(span_set(s, start, end - 1) =~= Set::empty());
        assert(span_set(s, start, end) =~= Set::empty().insert(s[end - 1]));
        assert(span_set(s, start, end - 1).union(Set::empty().insert(s[end - 1])) =~= Set::empty().insert(s[end - 1]));
        assert(span_hull(s, start, start) == Aabb::empty_value());
        assert(Aabb::spec_hull(Aabb::empty_value(), s[end - 1].bbox) == s[end - 1].bbox);
        assert(span_hull(s, start, end) == s[end - 1].bbox);
    } else {
        lemma_span_hull_tight(s, start, end - 1);
        lemma_tight_union(
            span_hull(s, start, end - 1),
            span_set(s, start, end - 1),
            s[end - 1].bbox,
            Set::empty().insert(s[end - 1]),
        );
        assert(span_hull(s, start, end) == Aabb::spec_hull(span_hull(s, start, end - 1), s[end - 1].bbox));
    }
}

/// The multiset of `s[a..c)` is that of `s[a..b)` and `s[b..c)` together.
pub(crate) proof fn lemma_subrange_multiset_split<A>(s: Seq<A>, a: int, b: int, c: int)
    requires
        0 <= a <= b <= c <= s.len(),
    ensures
        s.subrange(a, c).to_multiset() == s.subrange(a, b).to_multiset().add(s.subrange(b, c).to_multiset()),
{
    assert(s.subrange(a, c) =~= s.subrange(a, b) + s.subrange(b, c));
    vstd::seq_lib::lemma_multiset_commutative(s.subrange(a, b), s.subrange(b, c));
}

/// Rearranging a sequence so that nothing outside `[start, end)` moves keeps
/// the multiset of `[start, end)`.
pub(crate) proof fn lemma_span_multiset_kept<A>(old: Seq<A>, new: Seq<A>, start: int, end: int)
    requires
        0 <= start <= end <= old.len(),
        new.len() == old.len(),
        forall|i: int| 0 <= i < start || end <= i < old.len() ==> #[trigger] new[i] == old[i],
        new.to_multiset() == old.to_multiset(),
    ensures
        new.subrange(start, end).to_multiset() == old.subrange(start, end).to_multiset(),
{
    broadcast use vstd::multiset::group_multiset_axioms;
    let n = old.len() as int;
    lemma_subrange_multiset_split(old, 0, start, n);
    lemma_subrange_multiset_split(old, start, end, n);
    lemma_subrange_multiset_split(new, 0, start, n);
    lemma_subrange_multiset_split(new, start, end, n);
    assert(old.subrange(0, n) =~= old);
    assert(new.subrange(0, n) =~= new);
    assert(new.subrange(0, start) =~= old.subrange(0, start));
    assert(new.subrange(end, n) =~= old.subrange(end, n));
    let mo = old.subrange(start, end).to_multiset();
    let mn = new.subrange(start, end).to_multiset();
    assert forall|x: A| #[trigger] mn.count(x) == mo.count(x) by {
        assert(old.to_multiset().count(x) == new.to_multiset().count(x));
        assert(old.to_multiset().count(x) == old.subrange(0, start).to_multiset().count(x) + old.subrange(start, n).to_multiset().count(x));
        assert(new.to_multiset().count(x) == new.subrange(0, start).to_multiset().count(x) + new.subrange(start, n).to_multiset().count(x));
        assert(new.subrange(0, start).to_multiset().count(x) == old.subrange(0, start).to_multiset().count(x));
        assert(new.subrange(end, n).to_multiset().count(x) == old.subrange(end, n).to_multiset().count(x));
        assert(old.subrange(start, n).to_multiset().count(x) == mo.count(x) + old.subrange(end, n).to_multiset().count(x));
        assert(new.subrange(start, n).to_multiset().count(x) == mn.count(x) + new.subrange(end, n).to_multiset().count(x));
    }
    assert(mn =~= mo);
}

/// A stable rearrangement of a span holds the same items.
proof fn lemma_rearrangement_same_set(
    old: Seq<BvhItem>,
    new: Seq<BvhItem>,
    start: int,
    end: int,
    axis: int,
    perm: Seq<int>,
)
    requires
        stable_rearrangement(old, new, start, end, axis, perm),
    ensures
        span_set(new, start, end) == span_set(old, start, end),
{
    assert forall|x: BvhItem| span_set(new, start, end).contains(x) implies span_set(old, start, end).contains(x) by {
        let i = choose|i: int| start <= i < end && #[trigger] new[i] == x;
        assert(old[perm[i]] == x);
    }
    assert forall|x: BvhItem| span_set(old, start, end).contains(x) implies span_set(new, start, end).contains(x) by {
        let c = choose|i: int| start <= i < end && #[trigger] old[i] == x;
        assert(in_image(perm, start, end, c));
        let a = choose|a: int| start <= a < end && #[trigger] perm[a] == c;
        assert(new[a] == x);
    }
    assert(span_set(new, start, end) =~= span_set(old, start, end));
}

/// The box of a span reads only the span.
proof fn lemma_span_hull_frame(a: Seq<BvhItem>, b: Seq<BvhItem>, start: int, end: int)
    requires
        forall|i: int| start <= i < end ==> #[trigger] a[i] == b[i],
    ensures
        span_hull(a, start, end) == span_hull(b, start, end),
    decreases end - start,
{
    if end > start {
        assert(a[end - 1] == b[end - 1]);
        lemma_span_hull_frame(a, b, start, end - 1);
    }
}

/// Two stable rearrangements into sorted order agree on `[start, a)`.
proof fn lemma_stable_prefix(
    old: Seq<BvhItem>,
    n1: Seq<BvhItem>,
    n2: Seq<BvhItem>,
    start: int,
    end: int,
    axis: int,
    p1: Seq<int>,
    p2: Seq<int>,
    a: int,
)
    requires
        start <= a <= end,
        stable_rearrangement(old, n1, start, end, axis, p1),
        stable_rearrangement(old, n2, start, end, axis, p2),
        sorted_span(n1, start, end, axis),
        sorted_span(n2, start, end, axis),
    ensures
        forall|x: int| start <= x < a ==> #[trigger] p1[x] == p2[x],
    decreases a - start,
{
    if a > start {
        let b = a - 1;
        lemma_stable_prefix(old, n1, n2, start, end, axis, p1, p2, b);
        let c1 = p1[b];
        let c2 = p2[b];
        if c1 != c2 {
            assert(in_image(p1, start, end, c2));
            let a1 = choose|x: int| start <= x < end && #[trigger] p1[x] == c2;
            assert(in_image(p2, start, end, c1));
            let a2 = choose|x: int| start <= x < end && #[trigger] p2[x] == c1;
            if a1 < b {
                assert(p2[a1] == c2);
            }
            if a2 < b {
                assert(p1[a2] == c1);
            }
            assert(a1 > b);
            assert(a2 > b);
            assert(n1[b] == old[c1] && n1[a1] == old[c2]);
            assert(n2[b] == old[c2] && n2[a2] == old[c1]);
            assert(key(n1[b], axis) <= key(n1[a1], axis));
            assert(key(n2[b], axis) <= key(n2[a2], axis));
            assert(p1[b] < p1[a1]);
            assert(p2[b] < p2[a2]);
        }
    }
}

/// A stable sort is unique: two stable sorts of the same span agree on it.
pub proof fn lemma_stable_sort_unique(old: Seq<BvhItem>, n1: Seq<BvhItem>, n2: Seq<BvhItem>, start: int, end: int, axis: int)
    requires
        start <= end,
        is_stable_sorted_span(old, n1, start, end, axis),
        is_stable_sorted_span(old, n2, start, end, axis),
    ensures
        forall|x: int| start <= x < end ==> #[trigger] n1[x] == n2[x],
{
    let p1 = choose|perm: Seq<int>| stable_rearrangement(old, n1, start, end, axis, perm);
    let p2 = choose|perm: Seq<int>| stable_rearrangement(old, n2, start, end, axis, perm);
    lemma_stable_prefix(old, n1, n2, start, end, axis, p1, p2, end);
    assert forall|x: int| start <= x < end implies #[trigger] n1[x] == n2[x] by {
        assert(p1[x] == p2[x]);
    }
}

/// Changing the input and the output outside the span changes nothing.
proof fn lemma_built_over_frame(
    node: BvhNode,
    in1: Seq<BvhItem>,
    in2: Seq<BvhItem>,
    start: int,
    end: int,
    o1: Seq<BvhItem>,
    o2: Seq<BvhItem>,
)
    requires
        node.built_over(in1, start, end, o1),
        in1.len() == in2.len(),
        forall|i: int| start <= i < end ==> #[trigger] in1[i] == in2[i],
        forall|i: int| start <= i < end ==> #[trigger] o1[i] == o2[i],
    ensures
        node.built_over(in2, start, end, o2),
    decreases end - start,
{
    reveal(BvhNode::built_over);
    lemma_span_hull_frame(in1, in2, start, end);
    let k = end - start;
    let axis = span_hull(in1, start, end).spec_longest_axis();
    if k == 1 {
        assert(in1[start] == in2[start] && o1[start] == o2[start]);
    } else if k == 2 {
        assert(in1[start] == in2[start] && o1[start] == o2[start]);
        assert(in1[start + 1] == in2[start + 1] && o1[start + 1] == o2[start + 1]);
    } else {
        let sorted = choose|sorted: Seq<BvhItem>|
            #[trigger] is_stable_sorted_span(in1, sorted, start, end, axis) && (match node.left {
                BvhChild::Node(l) => l.built_over(sorted, start, start + k / 2, o1),
                BvhChild::Leaf(_) => false,
            }) && (match node.right {
                BvhChild::Node(r) => r.built_over(sorted, start + k / 2, end, o1),
                BvhChild::Leaf(_) => false,
            });
        let l = *node.left->Node_0;
        let r = *node.right->Node_0;
        lemma_built_over_frame(l, sorted, sorted, start, start + k / 2, o1, o2);
        lemma_built_over_frame(r, sorted, sorted, start + k / 2, end, o1, o2);
        assert(is_stable_sorted_span(in2, sorted, start, end, axis)) by {
            let perm = choose|perm: Seq<int>| stable_rearrangement(in1, sorted, start, end, axis, perm);
            assert(stable_rearrangement(in2, sorted, start, end, axis, perm)) by {
                assert forall|a: int| start <= a < end implies start <= #[trigger] perm[a] < end && sorted[a] == in2[perm[a]] by {
                    assert(in1[perm[a]] == in2[perm[a]]);
                }
            }
        }
    }
}

proof fn lemma_built_over_one(node: BvhNode, input: Seq<BvhItem>, start: int, out: Seq<BvhItem>)
    requires
        node.bbox == Aabb::spec_hull(node.left.box_of(), node.right.box_of()),
        node.left == BvhChild::Leaf(input[start]),
        node.right == node.left,
        out[start] == input[start],
    ensures
        node.built_over(input, start, start + 1, out),
{
    reveal(BvhNode::built_over);
}

proof fn lemma_built_over_two(node: BvhNode, input: Seq<BvhItem>, start: int, out: Seq<BvhItem>)
    requires
        node.bbox == Aabb::spec_hull(node.left.box_of(), node.right.box_of()),
        out[start] == input[start],
        out[start + 1] == input[start + 1],
        ({
            let axis = span_hull(input, start, start + 2).spec_longest_axis();
            if key(input[start], axis) < key(input[start + 1], axis) {
                node.left == BvhChild::Leaf(input[start]) && node.right == BvhChild::Leaf(input[start + 1])
            } else {
                node.left == BvhChild::Leaf(input[start + 1]) && node.right == BvhChild::Leaf(input[start])
            }
        }),
    ensures
        node.built_over(input, start, start + 2, out),
{
    reveal(BvhNode::built_over);
}

proof fn lemma_built_over_join(
    node: BvhNode,
    l: BvhNode,
    r: BvhNode,
    input: Seq<BvhItem>,
    sorted: Seq<BvhItem>,
    start: int,
    end: int,
    out: Seq<BvhItem>,
)
    requires
        end - start >= 3,
        node.bbox == Aabb::spec_hull(node.left.box_of(), node.right.box_of()),
        node.left == BvhChild::Node(Box::new(l)),
        node.right == BvhChild::Node(Box::new(r)),
        is_stable_sorted_span(input, sorted, start, end, span_hull(input, start, end).spec_longest_axis()),
        l.built_over(sorted, start, start + (end - start) / 2, out),
        r.built_over(sorted, start + (end - start) / 2, end, out),
    ensures
        node.built_over(input, start, end, out),
{
    reveal(BvhNode::built_over);
}

/// The hierarchy built over a span is determined by it: two nodes built over
/// the same objects are the same node, and leave the objects in the same order.
pub proof fn lemma_built_over_unique(
    n1: BvhNode,
    n2: BvhNode,
    input: Seq<BvhItem>,
    start: int,
    end: int,
    o1: Seq<BvhItem>,
    o2: Seq<BvhItem>,
)
    requires
        n1.built_over(input, start, end, o1),
        n2.built_over(input, start, end, o2),
    ensures
        n1 == n2,
        forall|i: int| start <= i < end ==> #[trigger] o1[i] == o2[i],
    decreases end - start,
{
    reveal(BvhNode::built_over);
    let k = end - start;
    let axis = span_hull(input, start, end).spec_longest_axis();
    if k >= 3 {
        let s1 = choose|sorted: Seq<BvhItem>|
            #[trigger] is_stable_sorted_span(input, sorted, start, end, axis) && (match n1.left {
                BvhChild::Node(l) => l.built_over(sorted, start, start + k / 2, o1),
                BvhChild::Leaf(_) => false,
            }) && (match n1.right {
                BvhChild::Node(r) => r.built_over(sorted, start + k / 2, end, o1),
                BvhChild::Leaf(_) => false,
            });
        let s2 = choose|sorted: Seq<BvhItem>|
            #[trigger] is_stable_sorted_span(input, sorted, start, end, axis) && (match n2.left {
                BvhChild::Node(l) => l.built_over(sorted, start, start + k / 2, o2),
                BvhChild::Leaf(_) => false,
            }) && (match n2.right {
                BvhChild::Node(r) => r.built_over(sorted, start + k / 2, end, o2),
                BvhChild::Leaf(_) => false,
            });
        lemma_stable_sort_unique(input, s2, s1, start, end, axis);
        let l1 = *n1.left->Node_0;
        let r1 = *n1.right->Node_0;
        let l2 = *n2.left->Node_0;
        let r2 = *n2.right->Node_0;
        lemma_built_over_frame(l2, s2, s1, start, start + k / 2, o2, o2);
        lemma_built_over_frame(r2, s2, s1, start + k / 2, end, o2, o2);
        lemma_built_over_unique(l1, l2, s1, start, start + k / 2, o1, o2);
        lemma_built_over_unique(r1, r2, s1, start + k / 2, end, o1, o2);
        assert(n1.left == n2.left);
        assert(n1.right == n2.right);
    }
}

impl BvhChild {
    /// The box of a well-formed child is the tightest box around its objects.
    pub proof fn lemma_tight(self)
        requires
            self.wf(),
        ensures
            tight_hull(self.box_of(), self.items()),
        decreases self,
    {
        match self {
            BvhChild::Leaf(it) => {
                lemma_tight_single(it);
            },
            BvhChild::Node(n) => {
                n.lemma_tight();
            },
        }
    }
}

impl BvhNode {
    /// The box of a well-formed node is the tightest box around its objects.
    pub proof fn lemma_tight(self)
        requires
            self.wf(),
        ensures
            tight_hull(self.bbox, self.items()),
        decreases self,
    {
        self.left.lemma_tight();
        self.right.lemma_tight();
        lemma_tight_union(self.left.box_of(), self.left.items(), self.right.box_of(), self.right.items());
    }

    /// Builds the hierarchy over `objects[start..end)`: splits the span in
    /// two halves after sorting it along the longest axis of its box (two
    /// objects are put in order of their low ends; a single object fills both
    /// children). Reorders the span.
    #[verifier::spinoff_prover]
    #[verifier::rlimit(50)]
    pub fn internal_new(objects: &mut Vec<BvhItem>, start: usize, end: usize) -> (r: BvhNode)
        requires
            start < end <= old(objects).len(),
        ensures
            final(objects).len() == old(objects).len(),
            forall|i: int| 0 <= i < start || end <= i < old(objects).len() ==> #[trigger] final(objects)@[i] == old(objects)@[i],
            final(objects)@.to_multiset() == old(objects)@.to_multiset(),
            span_set(final(objects)@, start as int, end as int) == span_set(old(objects)@, start as int, end as int),
            r.wf(),
            r.items() == span_set(old(objects)@, start as int, end as int),
            r.bbox == span_hull(old(objects)@, start as int, end as int),
            r.split_ordered(),
            r.built_over(old(objects)@, start as int, end as int, final(objects)@),
            final(objects)@.subrange(start as int, end as int).to_multiset()
                == old(objects)@.subrange(start as int, end as int).to_multiset(),
            r.shaped((end - start) as nat),
            r.held((end - start) as nat).to_multiset() == old(objects)@.subrange(start as int, end as int).to_multiset(),
            end - start == 2 ==> r.held(2) == (if key(old(objects)@[start as int], r.bbox.spec_longest_axis())
                < key(old(objects)@[start + 1], r.bbox.spec_longest_axis()) {
                seq![old(objects)@[start as int], old(objects)@[start + 1]]
            } else {
                seq![old(objects)@[start + 1], old(objects)@[start as int]]
            }),
        decreases end - start,
    {
        let ghost orig = objects@;
        // Build the bounding box of the span of source objects.
        let mut bbox = Aabb::empty();
        let mut i: usize = start;
        while i < end
            invariant
                start <= i <= end,
                end <= objects.len(),
                objects@ == orig,
                bbox == span_hull(orig, start as int, i as int),
            decreases end - i,
        {
            bbox = Aabb::from_aabbs(bbox, objects[i].bbox);
            i = i + 1;
        }
        proof {
            lemma_span_hull_tight(orig, start as int, end as int);
        }
        let axis = bbox.longest_axis();
        let object_span = end - start;
        let left: BvhChild;
        let right: BvhChild;
        let ghost mut parts: Option<(BvhNode, BvhNode, Seq<BvhItem>)> = None;
        if object_span == 1 {
            left = BvhChild::Leaf(objects[start]);
            right = BvhChild::Leaf(objects[start]);
            proof {
                assert(span_set(orig, start as int, end as int) =~= Set::empty().insert(orig[start as int]));
                assert(orig.subrange(start as int, end as int) =~= seq![orig[start as int]]);
            }
        } else if object_span == 2 {
            let a = objects[start];
            let b = objects[start + 1];
            if box_compare_less(&a, &b, axis) {
                left = BvhChild::Leaf(a);
                right = BvhChild::Leaf(b);
            } else {
                left = BvhChild::Leaf(b);
                right = BvhChild::Leaf(a);
            }
            proof {
                assert(span_set(orig, start as int, end as int) =~= Set::empty().insert(a).insert(b));
                assert(left.items().union(right.items()) =~= Set::empty().insert(a).insert(b));
                assert(orig.subrange(start as int, end as int) =~= seq![a] + seq![b]);
                assert(seq![a, b] =~= seq![a] + seq![b]);
                assert(seq![b, a] =~= seq![b] + seq![a]);
                vstd::seq_lib::lemma_seq_union_to_multiset_commutative(seq![a], seq![b]);
            }
        } else {
            sort_span(objects, start, end, axis);
            let ghost sorted = objects@;
            proof {
                let perm = choose|perm: Seq<int>| stable_rearrangement(orig, sorted, start as int, end as int, axis as int, perm);
                lemma_rearrangement_same_set(orig, sorted, start as int, end as int, axis as int, perm);
            }
            proof {
                lemma_span_multiset_kept(orig, sorted, start as int, end as int);
            }
            let mid = start + object_span / 2;
            let l = BvhNode::internal_new(objects, start, mid);
            let ghost after_left = objects@;
            let r = BvhNode::internal_new(objects, mid, end);
            proof {
                let fin = objects@;
                assert(fin.subrange(start as int, mid as int) =~= after_left.subrange(start as int, mid as int));
                assert(after_left.subrange(mid as int, end as int) =~= sorted.subrange(mid as int, end as int));
                lemma_subrange_multiset_split(fin, start as int, mid as int, end as int);
                lemma_subrange_multiset_split(sorted, start as int, mid as int, end as int);
                vstd::seq_lib::lemma_multiset_commutative(
                    l.held((mid - start) as nat),
                    r.held((end - mid) as nat),
                );
                lemma_span_set_same(objects@, after_left, start as int, mid as int);
                lemma_span_set_same(after_left, sorted, mid as int, end as int);
                lemma_span_set_split(objects@, start as int, mid as int, end as int);
                lemma_span_set_split(sorted, start as int, mid as int, end as int);
                assert forall|a: BvhItem, b: BvhItem|
                    #[trigger] l.items().contains(a) && #[trigger] r.items().contains(b) implies key(a, axis as int) <= key(b, axis as int) by {
                    let ia = choose|i: int| start <= i < mid && #[trigger] sorted[i] == a;
                    let ib = choose|i: int| mid <= i < end && #[trigger] sorted[i] == b;
                }
                lemma_built_over_frame(l, sorted, sorted, start as int, mid as int, after_left, fin);
                lemma_built_over_frame(r, after_left, sorted, mid as int, end as int, fin, fin);
                parts = Some((l, r, sorted));
            }
            left = BvhChild::Node(Box::new(l));
            right = BvhChild::Node(Box::new(r));
        }
        let bbox = Aabb::from_aabbs(left.bounding_box(), right.bounding_box());
        let node = BvhNode { left, right, bbox };
        proof {
            node.lemma_tight();
            lemma_tight_unique(node.bbox, span_hull(orig, start as int, end as int), span_set(orig, start as int, end as int));
            if object_span == 1 {
                lemma_built_over_one(node, orig, start as int, objects@);
            } else if object_span == 2 {
                lemma_built_over_two(node, orig, start as int, objects@);
            } else {
                let (gl, gr, gs) = parts->Some_0;
                lemma_built_over_join(node, gl, gr, orig, gs, start as int, end as int, objects@);
            }
        }
        node
    }

    /// Builds the hierarchy over all the objects (at least one).
    pub fn new(objects: Vec<BvhItem>) -> (r: BvhNode)
        requires
            objects.len() >= 1,
        ensures
            r.wf(),
            r.items() == span_set(objects@, 0, objects.len() as int),
            r.bbox == span_hull(objects@, 0, objects.len() as int),
            r.split_ordered(),
            r.shaped(objects.len() as nat),
            r.held(objects.len() as nat).to_multiset() == objects@.to_multiset(),
            exists|out: Seq<BvhItem>| #[trigger] r.built_over(objects@, 0, objects.len() as int, out),
    {
        let mut objects = objects;
        let l = objects.len();
        proof {
            assert(objects@.subrange(0, l as int) =~= objects@);
        }
        BvhNode::internal_new(&mut objects, 0, l)
    }
}

} // verus!

verus! {

/// The box of a well-formed node encloses the box of every object under it.
pub proof fn lemma_node_encloses_items(node: BvhNode, it: BvhItem)
    requires
        node.wf(),
        node.items().contains(it),
    ensures
        node.bbox.encloses(it.bbox),
{
    node.lemma_tight();
}

/// Pruning by boxes loses no hit: a ray that passes through the box of an
/// object under a well-formed node (a box running from min to max on every
/// axis) passes through the node's box, so a traversal that skips the nodes
/// whose box the ray misses still reaches that object.
pub proof fn lemma_hit_reaches_node(node: BvhNode, it: BvhItem, r: crate::ray::Ray, ray_t: crate::interval::Interval)
    requires
        node.wf(),
        node.items().contains(it),
        it.bbox.is_ordered(),
        it.bbox.spec_hit(r, ray_t),
    ensures
        node.bbox.spec_hit(r, ray_t),
{
    node.lemma_tight();
    crate::aabb::lemma_hit_enclosing(it.bbox, node.bbox, r, ray_t);
}

/// A node built over `n` objects holds `n` objects from left to right, and
/// they are the objects under it.
pub proof fn lemma_held_items(node: BvhNode, n: nat)
    requires
        node.shaped(n),
    ensures
        node.held(n).len() == n,
        node.held(n).to_set() == node.items(),
    decreases node,
{
    if n == 1 {
        let it = node.left->Leaf_0;
        assert(node.held(n) =~= seq![it]);
        assert(seq![it].to_set() =~= Set::empty().insert(it)) by {
            assert(seq![it][0] == it);
        }
        assert(node.items() =~= Set::empty().insert(it));
    } else if n == 2 {
        let a = node.left->Leaf_0;
        let b = node.right->Leaf_0;
        assert(node.held(n) =~= seq![a, b]);
        assert(seq![a, b].to_set() =~= Set::empty().insert(a).insert(b)) by {
            assert(seq![a, b][0] == a);
            assert(seq![a, b][1] == b);
        }
        assert(node.items() =~= Set::empty().insert(a).insert(b));
    } else {
        let l = *node.left->Node_0;
        let r = *node.right->Node_0;
        let nl = n / 2;
        let nr = (n - n / 2) as nat;
        lemma_held_items(l, nl);
        lemma_held_items(r, nr);
        let hl = l.held(nl);
        let hr = r.held(nr);
        assert(node.held(n) == hl + hr);
        assert forall|x: BvhItem| (hl + hr).to_set().contains(x) == node.items().contains(x) by {
            if (hl + hr).contains(x) {
                let i = choose|i: int| 0 <= i < (hl + hr).len() && (hl + hr)[i] == x;
                if i < hl.len() {
                    assert(hl[i] == x);
                    assert(hl.to_set().contains(x));
                } else {
                    assert(hr[i - hl.len()] == x);
                    assert(hr.to_set().contains(x));
                }
            }
            if hl.to_set().contains(x) {
                let i = choose|i: int| 0 <= i < hl.len() && hl[i] == x;
                assert((hl + hr)[i] == x);
            }
            if hr.to_set().contains(x) {
                let i = choose|i: int| 0 <= i < hr.len() && hr[i] == x;
                assert((hl + hr)[i + hl.len()] == x);
            }
        }
        assert((hl + hr).to_set() =~= node.items());
    }
}

/// The objects under a node are those under its left child and those under
/// its right child; the children of a well-formed node are well formed.
pub proof fn lemma_children(node: BvhNode)
    ensures
        node.items() == node.left.items().union(node.right.items()),
        node.wf() ==> node.left.wf() && node.right.wf(),
        node.wf() ==> node.bbox.encloses(node.left.box_of()) && node.bbox.encloses(node.right.box_of()),
{
    crate::aabb::lemma_from_aabbs_encloses(node.left.box_of(), node.right.box_of());
}

} // verus!
