//! The concrete bounded primitive: a sphere with a fixed-size record layout
//! that matches the encoded form byte for byte.

use vstd::prelude::*;
use crate::aabb::{AABB, Bounded, Vec3i};
use crate::bvh::{BVHElement, Leaf};
use crate::codec::{enc_elem, le4, push_record, push_u32_le};
use crate::traits::AsBytes;
use crate::NODE_TAG;

verus! {

/// A sphere record. `esc_index` is meaningful only inside a flattened
/// hierarchy, where it is stamped during flattening; a free-standing sphere
/// carries 0 there. `mat_index` must never equal the internal-node sentinel,
/// since the encoded layout discriminates records by field value alone.
#[verifier::ext_equal]
#[derive(Clone, Copy, Debug, PartialEq, Eq, Structural)]
pub struct Sphere {
    pub center: Vec3i,
    pub radius: i32,
    pub mat_index: u32,
    pub esc_index: u32,
}

/// A sphere is well formed when its radius is non-negative, its bounding box
/// fits in coordinate range on every axis, and its material index is not the
/// internal-node sentinel.
pub open spec fn sphere_wf(s: Sphere) -> bool {
    &&& s.radius >= 0
    &&& i32::MIN <= s.center.x - s.radius
    &&& s.center.x + s.radius <= i32::MAX
    &&& i32::MIN <= s.center.y - s.radius
    &&& s.center.y + s.radius <= i32::MAX
    &&& i32::MIN <= s.center.z - s.radius
    &&& s.center.z + s.radius <= i32::MAX
    &&& s.mat_index != NODE_TAG
}

/// The box spanning `center - radius` to `center + radius` on every axis.
pub open spec fn sphere_bounds(s: Sphere) -> AABB {
    AABB {
        min: Vec3i {
            x: (s.center.x - s.radius) as i32,
            y: (s.center.y - s.radius) as i32,
            z: (s.center.z - s.radius) as i32,
        },
        max: Vec3i {
            x: (s.center.x + s.radius) as i32,
            y: (s.center.y + s.radius) as i32,
            z: (s.center.z + s.radius) as i32,
        },
    }
}

impl Sphere {
    pub fn new(center: Vec3i, radius: i32, mat_index: u32) -> (s: Sphere)
        requires
            radius >= 0,
            i32::MIN <= center.x - radius,
            center.x + radius <= i32::MAX,
            i32::MIN <= center.y - radius,
            center.y + radius <= i32::MAX,
            i32::MIN <= center.z - radius,
            center.z + radius <= i32::MAX,
            mat_index != NODE_TAG,
        ensures
            s == (Sphere { center, radius, mat_index, esc_index: 0 }),
            sphere_wf(s),
    {
        Sphere { center, radius, mat_index, esc_index: 0 }
    }
}

/// The 44-byte uniform-buffer entry of one sphere: its 32-byte record (the
/// same layout a hierarchy leaf is encoded with) plus three words of padding
/// to the uniform stride.
pub open spec fn sphere_entry(s: Sphere) -> Seq<u8> {
    enc_elem(BVHElement::Leaf(Leaf::S(s))) + le4(0) + le4(0) + le4(0)
}

/// The entries of all spheres, in order.
pub open spec fn sphere_entries(s: Seq<Sphere>) -> Seq<u8>
    decreases s.len(),
{
    if s.len() == 0 {
        Seq::empty()
    } else {
        sphere_entries(s.drop_last()) + sphere_entry(s.last())
    }
}

/// The whole sphere buffer: a length word, three words of header padding,
/// then the entries.
pub open spec fn sphere_buffer(s: Seq<Sphere>) -> Seq<u8> {
    le4(s.len() as u32) + le4(0) + le4(0) + le4(0) + sphere_entries(s)
}

impl AsBytes for Vec<Sphere> {
    open spec fn bytes_wf(&self) -> bool {
        self@.len() <= 0xFFFF_FFFF && 44 * self@.len() + 16 <= usize::MAX
    }

    open spec fn bytes_spec(&self) -> Seq<u8> {
        sphere_buffer(self@)
    }

    open spec fn bytes_size_spec(&self) -> int {
        44 * self@.len() as int + 16
    }

    fn as_bytes(&self) -> (r: Vec<u8>) {
        let mut out: Vec<u8> = Vec::new();
        push_u32_le(&mut out, self.len() as u32);
        push_u32_le(&mut out, 0);
        push_u32_le(&mut out, 0);
        push_u32_le(&mut out, 0);
        let ghost header = out@;
        let mut k: usize = 0;
        while k < self.len()
            invariant
                k <= self@.len(),
                header == le4(self@.len() as u32) + le4(0) + le4(0) + le4(0),
                out@ == header + sphere_entries(self@.take(k as int)),
            decreases self@.len() - k,
        {
            let ghost snap = out@;
            push_record(&mut out, &BVHElement::Leaf(Leaf::S(self[k])));
            push_u32_le(&mut out, 0);
            push_u32_le(&mut out, 0);
            push_u32_le(&mut out, 0);
            proof {
                assert(out@ =~= snap + sphere_entry(self@[k as int]));
                assert(self@.take(k + 1).drop_last() =~= self@.take(k as int));
                assert(self@.take(k + 1).last() == self@[k as int]);
                assert(out@ =~= header + sphere_entries(self@.take(k + 1)));
            }
            k = k + 1;
        }
        proof {
            assert(self@.take(self@.len() as int) =~= self@);
        }
        out
    }

    fn bytes_size(&self) -> (n: usize) {
        44 * self.len() + 16
    }
}

impl Bounded for Sphere {
    open spec fn wf_bounds(&self) -> bool {
        sphere_wf(*self)
    }

    open spec fn bounds_spec(&self) -> AABB {
        sphere_bounds(*self)
    }

    fn get_bounds(&self) -> (r: AABB)
    {
        AABB {
            min: Vec3i {
                x: self.center.x - self.radius,
                y: self.center.y - self.radius,
                z: self.center.z - self.radius,
            },
            max: Vec3i {
                x: self.center.x + self.radius,
                y: self.center.y + self.radius,
                z: self.center.z + self.radius,
            },
        }
    }
}

} // verus!
