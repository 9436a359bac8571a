use code_for_next_week_in_rust::common::UNITS_PER_WORLD;
use code_for_next_week_in_rust::gpu::scene::{
    GpuSceneBuilder, GpuVec3, MAT_DIELECTRIC, MAT_LAMBERTIAN, MAT_METAL, TEX_CHECKER, TEX_SOLID,
};
use code_for_next_week_in_rust::vec3::Vec3;

#[test]
fn builder_hands_out_indices_in_order() {
    let mut b = GpuSceneBuilder::new();
    assert_eq!(b.add_solid_texture(Vec3::new(1, 2, 3)), 0);
    assert_eq!(b.add_solid_texture(Vec3::new(4, 5, 6)), 1);
    assert_eq!(b.add_checker_texture(UNITS_PER_WORLD, 0, 1), 2);
    assert_eq!(b.add_checker_colors(2 * UNITS_PER_WORLD, Vec3::zero(), Vec3::zero()), 5);
    assert_eq!(b.add_lambertian(2), 0);
    assert_eq!(b.add_lambertian_color(Vec3::new(7, 7, 7)), 1);
    assert_eq!(b.add_metal(Vec3::new(1, 1, 1), 3 * UNITS_PER_WORLD), 2);
    assert_eq!(b.add_dielectric(30000), 3);
    b.add_sphere(Vec3::new(0, 0, 0), 100, 0);
    assert_eq!(b.sphere_count(), 1);
    let scene = b.build();
    assert_eq!(scene.textures.len(), 8);
    assert_eq!(scene.textures[2].kind, TEX_CHECKER);
    assert_eq!(scene.textures[2].inv_scale, UNITS_PER_WORLD);
    assert_eq!((scene.textures[2].tex_a, scene.textures[2].tex_b), (0, 1));
    assert_eq!(scene.textures[5].inv_scale, UNITS_PER_WORLD / 2);
    assert_eq!((scene.textures[5].tex_a, scene.textures[5].tex_b), (3, 4));
    assert_eq!(scene.textures[0].kind, TEX_SOLID);
    assert_eq!(scene.textures[0].color, GpuVec3 { x: 1, y: 2, z: 3 });
    assert_eq!(scene.materials[0].kind, MAT_LAMBERTIAN);
    assert_eq!(scene.materials[1].tex_idx, 6);
    assert_eq!(scene.materials[2].kind, MAT_METAL);
    assert_eq!(scene.materials[2].fuzz, UNITS_PER_WORLD);
    assert_eq!(scene.materials[3].kind, MAT_DIELECTRIC);
    assert_eq!(scene.materials[3].ior, 30000);
}

#[test]
fn builder_checker_of_zero_scale_is_infinite() {
    let mut b = GpuSceneBuilder::new();
    b.add_solid_texture(Vec3::zero());
    let t = b.add_checker_texture(0, 0, 0);
    b.add_sphere(Vec3::zero(), 1, 0);
    let scene = b.build();
    assert_eq!(scene.textures[t as usize].inv_scale, i64::MAX);
}

#[test]
fn build_flattens_a_consistent_hierarchy() {
    let mut b = GpuSceneBuilder::new();
    let m = b.add_lambertian_color(Vec3::new(1, 1, 1));
    for k in 0..7i32 {
        if k % 2 == 0 {
            b.add_sphere(Vec3::new(k * 1000, (k * 37) % 200, -k * 50), 100 + k, m);
        } else {
            b.add_moving_sphere(Vec3::new(-k * 900, 0, k), Vec3::new(-k * 900, 500, k), 50, m);
        }
    }
    let scene = b.build();
    let n = scene.spheres.len();
    assert_eq!(scene.bvh.len(), 2 * n - 1);
    assert_eq!(scene.bvh_root as usize, scene.bvh.len() - 1);
    let mut seen = vec![0usize; n];
    for (k, node) in scene.bvh.iter().enumerate() {
        if node.leaf_idx >= 0 {
            seen[node.leaf_idx as usize] += 1;
        } else {
            assert_eq!(node.leaf_idx, -1);
            assert!((node.left as usize) < k && (node.right as usize) < k);
            let l = scene.bvh[node.left as usize].bbox;
            let r = scene.bvh[node.right as usize].bbox;
            assert_eq!(node.bbox.min.x, l.min.x.min(r.min.x));
            assert_eq!(node.bbox.max.y, l.max.y.max(r.max.y));
        }
    }
    assert!(seen.iter().all(|&c| c == 1));
}

#[test]
fn sphere_boxes_are_padded_and_cover_motion() {
    let mut b = GpuSceneBuilder::new();
    b.add_sphere(Vec3::new(10, 20, 30), 0, 0);
    b.add_moving_sphere(Vec3::new(0, 0, 0), Vec3::new(100, 0, 0), 5, 0);
    let scene = b.build();
    for node in &scene.bvh {
        if node.leaf_idx == 0 {
            assert_eq!(node.bbox.min, GpuVec3 { x: 9, y: 19, z: 29 });
            assert_eq!(node.bbox.max, GpuVec3 { x: 11, y: 21, z: 31 });
        }
        if node.leaf_idx == 1 {
            assert_eq!(node.bbox.min, GpuVec3 { x: -5, y: -5, z: -5 });
            assert_eq!(node.bbox.max, GpuVec3 { x: 105, y: 5, z: 5 });
        }
    }
}

#[test]
fn build_splits_along_the_longest_axis() {
    let mut b = GpuSceneBuilder::new();
    let m = b.add_lambertian_color(Vec3::new(1, 1, 1));
    // spread along x, given out of order
    for x in [4000, 0, 3000, 1000, 2000] {
        b.add_sphere(Vec3::new(x, 0, 0), 10, m);
    }
    let scene = b.build();
    let root = &scene.bvh[scene.bvh_root as usize];
    assert_eq!(root.leaf_idx, -1);
    assert_eq!(root.bbox.min.x, -10);
    assert_eq!(root.bbox.max.x, 4010);
    fn leaves(nodes: &[code_for_next_week_in_rust::gpu::scene::GpuBvhNode], k: usize, out: &mut Vec<usize>) {
        let n = &nodes[k];
        if n.leaf_idx >= 0 {
            out.push(n.leaf_idx as usize);
        } else {
            leaves(nodes, n.left as usize, out);
            leaves(nodes, n.right as usize, out);
        }
    }
    let mut l = Vec::new();
    leaves(&scene.bvh, root.left as usize, &mut l);
    let mut r = Vec::new();
    leaves(&scene.bvh, root.right as usize, &mut r);
    l.sort();
    r.sort();
    // the two spheres lowest on x go left (x = 0 and x = 1000), the other three right
    assert_eq!(l, vec![1, 3]);
    assert_eq!(r, vec![0, 2, 4]);
}

#[test]
fn build_lays_out_left_subtree_right_subtree_then_parent() {
    let mut b = GpuSceneBuilder::new();
    let u = UNITS_PER_WORLD as i32;
    b.add_sphere(Vec3::new(10 * u, 0, 0), u, 0);
    b.add_sphere(Vec3::new(0, 0, 0), u, 0);
    let scene = b.build();
    assert_eq!(scene.bvh.len(), 3);
    assert_eq!(scene.bvh[0].leaf_idx, 1);
    assert_eq!(scene.bvh[1].leaf_idx, 0);
    assert_eq!(scene.bvh[2].leaf_idx, -1);
    assert_eq!((scene.bvh[2].left, scene.bvh[2].right), (0, 1));
    assert_eq!(scene.bvh[2].bbox.min, GpuVec3 { x: -u as i64, y: -u as i64, z: -u as i64 });
    assert_eq!(scene.bvh[2].bbox.max, GpuVec3 { x: 11 * u as i64, y: u as i64, z: u as i64 });
    assert_eq!(scene.bvh_root, 2);
}

#[test]
fn build_equal_keys_keep_their_order() {
    let mut b = GpuSceneBuilder::new();
    // three spheres with the same box: the stable sort keeps 0, 1, 2; the
    // first half holds sphere 0, the second spheres 1 and 2
    for _ in 0..3 {
        b.add_sphere(Vec3::new(0, 0, 0), 100, 0);
    }
    let scene = b.build();
    let leaves: Vec<i32> = scene.bvh.iter().filter(|n| n.leaf_idx >= 0).map(|n| n.leaf_idx).collect();
    assert_eq!(leaves, vec![0, 1, 2]);
    assert_eq!((scene.bvh[3].left, scene.bvh[3].right), (1, 2));
    assert_eq!((scene.bvh[4].left, scene.bvh[4].right), (0, 3));
}
