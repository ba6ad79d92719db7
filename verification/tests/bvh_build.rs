use flat_bvh::aabb::Vec3i;
use flat_bvh::bvh::{BVHElement, BuildError, Leaf, BVH};
use flat_bvh::geometry::Sphere;

// Coordinates are fixed-point with two units per world unit, so the world
// value 1.5 becomes 3.
fn sphere_at(x: i32, y: i32, z: i32, radius: i32, mat: u32) -> Sphere {
    Sphere::new(Vec3i::new(x, y, z), radius, mat)
}

fn root_node(bvh: &BVH) -> (Vec3i, Vec3i, u32) {
    match &bvh.nodes[0] {
        BVHElement::Node(n) => (n.bb_min, n.bb_max, n.esc_index),
        BVHElement::Leaf(_) => panic!("root of a multi-element hierarchy must be a node"),
    }
}

#[test]
fn five_unit_spheres_scenario() {
    // world centers (1.5,0,0), (-1.5,0,0), (1.5,1.5,0), (1.5,3,0), (-1.5,1.5,0),
    // radius 1, at scale 2
    let spheres = vec![
        sphere_at(3, 0, 0, 2, 1),
        sphere_at(-3, 0, 0, 2, 1),
        sphere_at(3, 3, 0, 2, 1),
        sphere_at(3, 6, 0, 2, 1),
        sphere_at(-3, 3, 0, 2, 1),
    ];
    let bvh = BVH::from_spheres(&spheres).unwrap();
    assert_eq!(bvh.nodes.len(), 9);
    let (bb_min, bb_max, _) = root_node(&bvh);
    // world spans at least x in [-2.5, 2.5], y in [-1, 4], z in [-1, 1]
    assert!(bb_min.x <= -5 && bb_max.x >= 5);
    assert!(bb_min.y <= -2 && bb_max.y >= 8);
    assert!(bb_min.z <= -2 && bb_max.z >= 2);
    // here the root box is exactly the union of the five spheres' bounds
    assert_eq!(bb_min, Vec3i::new(-5, -2, -2));
    assert_eq!(bb_max, Vec3i::new(5, 8, 2));
}

#[test]
fn single_primitive_is_a_lone_leaf_with_sentinel() {
    let spheres = vec![sphere_at(10, -4, 7, 3, 2)];
    let bvh = BVH::from_spheres(&spheres).unwrap();
    assert_eq!(bvh.nodes.len(), 1);
    match &bvh.nodes[0] {
        BVHElement::Leaf(Leaf::S(s)) => {
            assert_eq!(s.center, Vec3i::new(10, -4, 7));
            assert_eq!(s.radius, 3);
            assert_eq!(s.mat_index, 2);
            assert_eq!(s.esc_index, 0xFFFF_FFFF);
        }
        BVHElement::Node(_) => panic!("a one-primitive hierarchy must be a single leaf"),
    }
    // the stackless walk visits that one leaf and stops at the sentinel
    assert_eq!(bvh.traverse_leaves(), vec![0]);
}

#[test]
fn node_count_is_2n_minus_1() {
    for n in 1..=33i32 {
        let mut spheres = Vec::new();
        for i in 0..n {
            spheres.push(sphere_at(i * 7, -i, i * i, 1, 1));
        }
        let bvh = BVH::from_spheres(&spheres).unwrap();
        assert_eq!(bvh.nodes.len(), (2 * n - 1) as usize);
        let leaves = bvh
            .nodes
            .iter()
            .filter(|e| matches!(e, BVHElement::Leaf(_)))
            .count();
        assert_eq!(leaves, n as usize);
    }
}

#[test]
fn traversal_visits_every_leaf_exactly_once() {
    let mut spheres = Vec::new();
    for i in 0..7i32 {
        spheres.push(sphere_at(5 - i, 2 * i, -i, 1, (i + 1) as u32));
    }
    let bvh = BVH::from_spheres(&spheres).unwrap();
    let visited = bvh.traverse_leaves();
    assert_eq!(visited.len(), 7);
    for w in visited.windows(2) {
        assert!(w[0] < w[1]);
    }
    let mut seen_mats = Vec::new();
    for &p in &visited {
        match &bvh.nodes[p as usize] {
            BVHElement::Leaf(Leaf::S(s)) => seen_mats.push(s.mat_index),
            BVHElement::Node(_) => panic!("traversal visited an internal node as a leaf"),
        }
    }
    seen_mats.sort();
    assert_eq!(seen_mats, vec![1, 2, 3, 4, 5, 6, 7]);
    // and it visited every position that holds a leaf
    let leaf_positions: Vec<u32> = (0..bvh.nodes.len() as u32)
        .filter(|&p| matches!(bvh.nodes[p as usize], BVHElement::Leaf(_)))
        .collect();
    let mut visited_sorted = visited.clone();
    visited_sorted.sort();
    assert_eq!(visited_sorted, leaf_positions);
}

#[test]
fn escape_links_jump_forward_or_end() {
    let mut spheres = Vec::new();
    for i in 0..12i32 {
        spheres.push(sphere_at(i * 3, (i % 4) * 5, -i, 1, 1));
    }
    let bvh = BVH::from_spheres(&spheres).unwrap();
    let n = bvh.nodes.len() as u32;
    for (p, e) in bvh.nodes.iter().enumerate() {
        let esc = match e {
            BVHElement::Node(node) => node.esc_index,
            BVHElement::Leaf(Leaf::S(s)) => s.esc_index,
        };
        assert!(esc == 0xFFFF_FFFF || (esc > p as u32 && esc < n));
    }
}

#[test]
fn identical_centroids_still_build_a_balanced_hierarchy() {
    // every sphere shares one centroid; the median split is positional, so
    // the build still terminates with a full, balanced hierarchy
    let spheres = vec![sphere_at(7, 7, 7, 2, 1); 16];
    let bvh = BVH::from_spheres(&spheres).unwrap();
    assert_eq!(bvh.nodes.len(), 31);
    let visited = bvh.traverse_leaves();
    assert_eq!(visited.len(), 16);
    let (bb_min, bb_max, _) = root_node(&bvh);
    assert_eq!(bb_min, Vec3i::new(5, 5, 5));
    assert_eq!(bb_max, Vec3i::new(9, 9, 9));
}

#[test]
fn empty_input_is_rejected() {
    let spheres: Vec<Sphere> = Vec::new();
    match BVH::from_spheres(&spheres) {
        Err(e) => assert_eq!(e, BuildError::EmptyInput),
        Ok(_) => panic!("an empty sphere list must be rejected"),
    }
    let leaves: Vec<Leaf> = Vec::new();
    match BVH::new(&leaves) {
        Err(e) => assert_eq!(e, BuildError::EmptyInput),
        Ok(_) => panic!("an empty leaf list must be rejected"),
    }
}

#[test]
fn from_spheres_matches_new_on_wrapped_leaves() {
    let spheres = vec![
        sphere_at(0, 0, 0, 1, 1),
        sphere_at(9, 9, 9, 1, 2),
        sphere_at(-4, 2, 6, 2, 3),
    ];
    let leaves: Vec<Leaf> = spheres.iter().map(|s| Leaf::S(*s)).collect();
    let a = BVH::from_spheres(&spheres).unwrap();
    let b = BVH::new(&leaves).unwrap();
    assert_eq!(a.nodes, b.nodes);
}
