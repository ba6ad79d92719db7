use flat_bvh::aabb::Vec3i;
use flat_bvh::geometry::Sphere;
use flat_bvh::material::Material;
use flat_bvh::traits::{AsBytes, Buffer};

#[test]
fn sphere_buffer_layout_is_exact() {
    let spheres = vec![Sphere::new(Vec3i::new(4, -1, 0), 2, 3)];
    let bytes = spheres.as_bytes();
    assert_eq!(bytes.len(), 16 + 44);
    // header: element count then three words of padding
    assert_eq!(&bytes[0..4], &[1, 0, 0, 0][..]);
    assert_eq!(&bytes[4..16], &[0u8; 12][..]);
    // the record itself: center, radius, material, reserved, escape
    assert_eq!(&bytes[16..20], &[4, 0, 0, 0][..]);
    assert_eq!(&bytes[20..24], &[0xFF, 0xFF, 0xFF, 0xFF][..]);
    assert_eq!(&bytes[24..28], &[0, 0, 0, 0][..]);
    assert_eq!(&bytes[28..32], &[2, 0, 0, 0][..]);
    assert_eq!(&bytes[32..36], &[3, 0, 0, 0][..]);
    assert_eq!(&bytes[36..44], &[0u8; 8][..]);
    assert_eq!(&bytes[44..48], &[0, 0, 0, 0][..]);
    // per-entry uniform padding
    assert_eq!(&bytes[48..60], &[0u8; 12][..]);
}

#[test]
fn sphere_bytes_size_matches_layout() {
    let mut spheres = Vec::new();
    for i in 0..5i32 {
        spheres.push(Sphere::new(Vec3i::new(i, i, i), 1, 1));
    }
    assert_eq!(spheres.bytes_size(), 44 * 5 + 16);
    assert_eq!(spheres.as_bytes().len(), 44 * 5 + 16);
}

#[test]
fn material_buffer_layout_is_exact() {
    let materials = vec![
        Material::new([10, 20, 30], 2, false),
        Material::new([1, 1, 1], 0, true),
    ];
    let bytes = materials.to_buffer();
    assert_eq!(bytes.len(), 16 + 2 * 32);
    assert_eq!(&bytes[0..4], &[2, 0, 0, 0][..]);
    assert_eq!(&bytes[4..16], &[0u8; 12][..]);
    // first material
    assert_eq!(&bytes[16..20], &[10, 0, 0, 0][..]);
    assert_eq!(&bytes[20..24], &[20, 0, 0, 0][..]);
    assert_eq!(&bytes[24..28], &[30, 0, 0, 0][..]);
    assert_eq!(&bytes[28..32], &[2, 0, 0, 0][..]);
    assert_eq!(&bytes[32..36], &[0, 0, 0, 0][..]);
    assert_eq!(&bytes[36..48], &[0u8; 12][..]);
    // second material: the light flag becomes the word 1
    assert_eq!(&bytes[48..52], &[1, 0, 0, 0][..]);
    assert_eq!(&bytes[60..64], &[0, 0, 0, 0][..]);
    assert_eq!(&bytes[64..68], &[1, 0, 0, 0][..]);
}

#[test]
fn material_buffer_size_matches_layout() {
    let materials = vec![Material::new([0, 0, 0], 0, false); 3];
    assert_eq!(materials.buffer_size(), 32 * 3 + 16);
    assert_eq!(materials.to_buffer().len(), 32 * 3 + 16);
}
