use flat_bvh::aabb::Vec3i;
use flat_bvh::bvh::{BVHElement, Leaf, BVH};
use flat_bvh::geometry::Sphere;

struct State {
    a: u32,
}

fn xorshift32(state: &mut State) -> u32 {
    let mut x = state.a;
    x ^= x << 13;
    x ^= x >> 17;
    x ^= x << 5;
    state.a = x;
    x
}

fn randf(state: &mut State) -> f32 {
    (xorshift32(state) as f32) / (u32::MAX as f32)
}

fn rng(state: &mut State, r: f32) -> f32 {
    randf(state) * r
}

// world units to fixed point, 65536 units per world unit
fn fix(x: f32) -> i32 {
    (x * 65536.0) as i32
}

fn esc_of(e: &BVHElement) -> u32 {
    match e {
        BVHElement::Node(n) => n.esc_index,
        BVHElement::Leaf(Leaf::S(s)) => s.esc_index,
    }
}

// depth of the subtree stored in positions start..end of the flat array
fn flat_depth(nodes: &[BVHElement], start: usize, end: usize) -> usize {
    match &nodes[start] {
        BVHElement::Leaf(_) => 1,
        BVHElement::Node(_) => {
            // the left child starts right after the node; skipping the whole
            // left subtree lands on the right subtree's first element
            let rs = esc_of(&nodes[start + 1]) as usize;
            let ld = flat_depth(nodes, start + 1, rs);
            let rd = flat_depth(nodes, rs, end);
            1 + if ld >= rd { ld } else { rd }
        }
    }
}

#[test]
fn test() {
    let mut s = State { a: 35924 };
    let mut objects = Vec::with_capacity(1_000_000);
    for _ in 0..1_000_000 {
        objects.push(Leaf::S(Sphere {
            center: Vec3i::new(
                fix(rng(&mut s, 100.0)),
                fix(rng(&mut s, 100.0)),
                fix(rng(&mut s, 100.0)),
            ),
            radius: 65536,
            mat_index: 1,
            esc_index: 0,
        }))
    }
    println!("Made spheres");

    let bvh = BVH::new(objects.as_slice()).unwrap();
    println!("{:?}", bvh.nodes.len());
    assert_eq!(bvh.nodes.len(), 2 * 1_000_000 - 1);
    // a balanced median split keeps a million primitives within 21 levels
    let depth = flat_depth(&bvh.nodes, 0, bvh.nodes.len());
    assert!(depth <= 21);
}
