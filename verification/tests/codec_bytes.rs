use flat_bvh::aabb::Vec3i;
use flat_bvh::bvh::{BVHElement, Leaf, Node, BVH};
use flat_bvh::codec::{decode_elements, encode_elements};
use flat_bvh::geometry::Sphere;
use flat_bvh::traits::AsBytes;

fn sphere_at(x: i32, y: i32, z: i32, radius: i32, mat: u32) -> Sphere {
    Sphere::new(Vec3i::new(x, y, z), radius, mat)
}

#[test]
fn leaf_record_layout_is_exact() {
    let s = Sphere {
        center: Vec3i::new(1, 2, -1),
        radius: 258,
        mat_index: 7,
        esc_index: 0xFFFF_FFFF,
    };
    let elems = vec![BVHElement::Leaf(Leaf::S(s))];
    let bytes = encode_elements(&elems);
    assert_eq!(bytes.len(), 32);
    // center at offsets 0, 4, 8, little endian, two's complement
    assert_eq!(&bytes[0..4], &[1, 0, 0, 0][..]);
    assert_eq!(&bytes[4..8], &[2, 0, 0, 0][..]);
    assert_eq!(&bytes[8..12], &[0xFF, 0xFF, 0xFF, 0xFF][..]);
    // radius at offset 12 (258 = 0x102), material index at 16
    assert_eq!(&bytes[12..16], &[2, 1, 0, 0][..]);
    assert_eq!(&bytes[16..20], &[7, 0, 0, 0][..]);
    // reserved padding at 20..28
    assert_eq!(&bytes[20..28], &[0, 0, 0, 0, 0, 0, 0, 0][..]);
    // escape index at 28
    assert_eq!(&bytes[28..32], &[0xFF, 0xFF, 0xFF, 0xFF][..]);
}

#[test]
fn node_record_layout_is_exact() {
    let n = Node {
        bb_min: Vec3i::new(-2, 5, 0),
        bb_max: Vec3i::new(300, 6, 1),
        esc_index: 9,
    };
    let elems = vec![BVHElement::Node(n)];
    let bytes = encode_elements(&elems);
    assert_eq!(bytes.len(), 32);
    assert_eq!(&bytes[0..4], &[0xFE, 0xFF, 0xFF, 0xFF][..]);
    assert_eq!(&bytes[4..8], &[5, 0, 0, 0][..]);
    assert_eq!(&bytes[8..12], &[0, 0, 0, 0][..]);
    // the internal-node sentinel tag sits at offset 12
    assert_eq!(&bytes[12..16], &[0xFF, 0xFF, 0xFF, 0xFF][..]);
    // max corner at 16, 20, 24 (300 = 0x12C)
    assert_eq!(&bytes[16..20], &[0x2C, 1, 0, 0][..]);
    assert_eq!(&bytes[20..24], &[6, 0, 0, 0][..]);
    assert_eq!(&bytes[24..28], &[1, 0, 0, 0][..]);
    assert_eq!(&bytes[28..32], &[9, 0, 0, 0][..]);
}

#[test]
fn hierarchy_roundtrips_through_bytes() {
    let spheres = vec![
        sphere_at(-1000, 250, 3, 12, 1),
        sphere_at(500, -77, -3, 5, 2),
        sphere_at(0, 0, 0, 1, 3),
        sphere_at(123456, -654321, 42, 999, 4),
        sphere_at(-5, -5, -5, 2, 5),
    ];
    let bvh = BVH::from_spheres(&spheres).unwrap();
    let bytes = bvh.as_bytes();
    assert_eq!(bytes.len(), 32 * bvh.nodes.len());
    let decoded = decode_elements(&bytes).unwrap();
    assert_eq!(decoded, bvh.nodes);
}

#[test]
fn misaligned_byte_length_is_rejected() {
    let bytes = vec![0u8; 33];
    assert!(decode_elements(&bytes).is_none());
    let bytes = vec![0u8; 31];
    assert!(decode_elements(&bytes).is_none());
    let bytes: Vec<u8> = Vec::new();
    let decoded = decode_elements(&bytes).unwrap();
    assert_eq!(decoded.len(), 0);
}

#[test]
fn bvh_bytes_size_reports_the_encoded_length() {
    let spheres = vec![
        sphere_at(0, 0, 0, 1, 1),
        sphere_at(4, 0, 0, 1, 2),
        sphere_at(0, 4, 0, 1, 3),
    ];
    let bvh = BVH::from_spheres(&spheres).unwrap();
    // 3 primitives make 5 elements of 32 bytes each
    assert_eq!(bvh.bytes_size(), 160);
    assert_eq!(bvh.bytes_size(), bvh.as_bytes().len());
}
