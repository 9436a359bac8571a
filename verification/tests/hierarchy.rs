use code_for_next_week_in_rust::aabb::Aabb;
use code_for_next_week_in_rust::bvh::{BvhChild, BvhItem, BvhNode};
use code_for_next_week_in_rust::interval::Interval;
use code_for_next_week_in_rust::ray::Ray;
use code_for_next_week_in_rust::vec3::Vec3;

fn item(id: usize, x0: i64, x1: i64) -> BvhItem {
    BvhItem { id, bbox: Aabb::new(Interval::new(x0, x1), Interval::new(0, 1), Interval::new(0, 1)) }
}

fn leaf_ids(c: &BvhChild, out: &mut Vec<usize>) {
    match c {
        BvhChild::Leaf(it) => out.push(it.id),
        BvhChild::Node(n) => {
            leaf_ids(&n.left, out);
            leaf_ids(&n.right, out);
        }
    }
}

fn node_ids(n: &BvhNode) -> Vec<usize> {
    let mut out = Vec::new();
    leaf_ids(&n.left, &mut out);
    leaf_ids(&n.right, &mut out);
    out
}

fn check_wf(n: &BvhNode) {
    assert_eq!(n.bbox, Aabb::from_aabbs(n.left.bounding_box(), n.right.bounding_box()));
    for c in [&n.left, &n.right] {
        if let BvhChild::Node(m) = c {
            check_wf(m);
        }
    }
}

#[test]
fn bvh_single_object_fills_both_children() {
    let node = BvhNode::new(vec![item(7, 0, 1)]);
    assert_eq!(node_ids(&node), vec![7, 7]);
    assert_eq!(node.bounding_box(), item(7, 0, 1).bbox);
}

#[test]
fn bvh_two_objects_in_order_of_low_end() {
    let node = BvhNode::new(vec![item(0, 50, 60), item(1, 0, 10)]);
    assert_eq!(node_ids(&node), vec![1, 0]);
    let node = BvhNode::new(vec![item(0, 0, 10), item(1, 50, 60)]);
    assert_eq!(node_ids(&node), vec![0, 1]);
}

#[test]
fn bvh_equal_keys_keep_stable_order_then_swap_pairs() {
    // four equal boxes: the stable sort keeps 0,1,2,3; each pair of equal
    // keys is not "less", so the pair comes out swapped
    let items = vec![item(0, 0, 10), item(1, 0, 10), item(2, 0, 10), item(3, 0, 10)];
    let node = BvhNode::new(items);
    assert_eq!(node_ids(&node), vec![1, 0, 3, 2]);
}

#[test]
fn bvh_splits_sorted_halves() {
    let items = vec![item(0, 40, 41), item(1, 10, 11), item(2, 30, 31), item(3, 0, 1), item(4, 20, 21)];
    let node = BvhNode::new(items);
    // sorted by x: 3,1,4,2,0; left half (2 objects) 3,1; right half 4 | 2,0
    assert_eq!(node_ids(&node), vec![3, 1, 4, 4, 2, 0]);
    assert_eq!(node.bbox.x, Interval::new(0, 41));
    check_wf(&node);
}

#[test]
fn bvh_internal_new_reorders_only_its_span() {
    let mut items = vec![item(0, 90, 91), item(1, 40, 41), item(2, 10, 11), item(3, 30, 31), item(4, 5, 6)];
    let node = BvhNode::internal_new(&mut items, 1, 4);
    let mut ids = node_ids(&node);
    ids.sort();
    ids.dedup();
    assert_eq!(ids, vec![1, 2, 3]);
    assert_eq!(items[0].id, 0);
    assert_eq!(items[4].id, 4);
    let mut mid: Vec<usize> = items[1..4].iter().map(|i| i.id).collect();
    mid.sort();
    assert_eq!(mid, vec![1, 2, 3]);
    assert_eq!(node.bbox.x, Interval::new(10, 41));
}

#[test]
fn bvh_node_box_encloses_every_object_and_prunes_nothing_hit() {
    let mut items = Vec::new();
    for k in 0..12usize {
        let lo = (k as i64 * 37) % 200;
        items.push(BvhItem {
            id: k,
            bbox: Aabb::new(
                Interval::new(lo, lo + 5),
                Interval::new((k as i64 * 11) % 50, (k as i64 * 11) % 50 + 8),
                Interval::new(0, 3 + k as i64),
            ),
        });
    }
    let node = BvhNode::new(items.clone());
    check_wf(&node);
    let mut ids = node_ids(&node);
    ids.sort();
    ids.dedup();
    assert_eq!(ids, (0..12).collect::<Vec<_>>());
    let r = Ray::new(Vec3::new(-10, 3, 1), Vec3::new(2, 0, 0), 0);
    let range = Interval::universe();
    for it in &items {
        let b = node.bbox;
        assert!(b.x.min <= it.bbox.x.min && it.bbox.x.max <= b.x.max);
        assert!(b.y.min <= it.bbox.y.min && it.bbox.y.max <= b.y.max);
        assert!(b.z.min <= it.bbox.z.min && it.bbox.z.max <= b.z.max);
        if it.bbox.hit(&r, range) {
            assert!(b.hit(&r, range));
        }
    }
}

fn held_count(n: &BvhNode, k: usize) -> usize {
    if k == 1 {
        assert!(matches!(n.left, BvhChild::Leaf(_)));
        assert_eq!(node_ids(n).len(), 2);
        return 1;
    }
    if k == 2 {
        assert!(matches!(n.left, BvhChild::Leaf(_)) && matches!(n.right, BvhChild::Leaf(_)));
        return 2;
    }
    let (l, r) = match (&n.left, &n.right) {
        (BvhChild::Node(l), BvhChild::Node(r)) => (l, r),
        _ => panic!("a node over more than two objects has two nodes below it"),
    };
    held_count(l, k / 2) + held_count(r, k - k / 2)
}

#[test]
fn bvh_node_over_n_objects_holds_n() {
    for n in 1..20usize {
        let items: Vec<BvhItem> = (0..n).map(|k| item(k, (k as i64 * 13) % 17, (k as i64 * 13) % 17 + 2)).collect();
        let node = BvhNode::new(items);
        assert_eq!(held_count(&node, n), n);
    }
}
