//! Surface material records and their uniform-buffer layout. The albedo
//! components are carried as raw 32-bit words (the caller's colour encoding);
//! this core only lays them out, it never interprets them.

use vstd::prelude::*;
use crate::codec::{le4, push_u32_le};
use crate::traits::Buffer;

verus! {

/// One material: three raw albedo words, a shading-model flag, and whether
/// the surface emits light.
#[derive(Clone, Copy, Debug)]
pub struct Material {
    pub albedo: [u32; 3],
    pub type_flag: u32,
    pub is_light: bool,
}

impl Material {
    pub fn new(albedo: [u32; 3], type_flag: u32, is_light: bool) -> (m: Material)
        ensures
            m.albedo == albedo,
            m.type_flag == type_flag,
            m.is_light == is_light,
    {
        Material { albedo, type_flag, is_light }
    }
}

/// The 32-byte record of one material: albedo, flag, light word, then three
/// words of padding to the uniform stride.
pub open spec fn material_record(m: Material) -> Seq<u8> {
    le4(m.albedo[0]) + le4(m.albedo[1]) + le4(m.albedo[2]) + le4(m.type_flag) + le4(
        if m.is_light {
            1u32
        } else {
            0u32
        },
    ) + le4(0) + le4(0) + le4(0)
}

/// The records of all materials, in order.
pub open spec fn material_records(s: Seq<Material>) -> Seq<u8>
    decreases s.len(),
{
    if s.len() == 0 {
        Seq::empty()
    } else {
        material_records(s.drop_last()) + material_record(s.last())
    }
}

/// The whole uniform buffer: a length word, three words of header padding,
/// then the records.
pub open spec fn material_buffer(s: Seq<Material>) -> Seq<u8> {
    le4(s.len() as u32) + le4(0) + le4(0) + le4(0) + material_records(s)
}

impl Buffer for Vec<Material> {
    open spec fn buffer_wf(&self) -> bool {
        self@.len() <= 0xFFFF_FFFF && 32 * self@.len() + 16 <= usize::MAX
    }

    open spec fn buffer_spec(&self) -> Seq<u8> {
        material_buffer(self@)
    }

    open spec fn buffer_size_spec(&self) -> int {
        32 * self@.len() as int + 16
    }

    fn to_buffer(&self) -> (r: Vec<u8>) {
        let mut out: Vec<u8> = Vec::new();
        push_u32_le(&mut out, self.len() as u32);
        push_u32_le(&mut out, 0);
        push_u32_le(&mut out, 0);
        push_u32_le(&mut out, 0);
        let ghost header = out@;
        let mut k: usize = 0;
        while k < self.len()
            invariant
                k <= self@.len(),
                header == le4(self@.len() as u32) + le4(0) + le4(0) + le4(0),
                out@ == header + material_records(self@.take(k as int)),
            decreases self@.len() - k,
        {
            let ghost snap = out@;
            let m = &self[k];
            push_u32_le(&mut out, m.albedo[0]);
            push_u32_le(&mut out, m.albedo[1]);
            push_u32_le(&mut out, m.albedo[2]);
            push_u32_le(&mut out, m.type_flag);
            push_u32_le(&mut out, if m.is_light { 1 } else { 0 });
            push_u32_le(&mut out, 0);
            push_u32_le(&mut out, 0);
            push_u32_le(&mut out, 0);
            proof {
                assert(out@ =~= snap + material_record(self@[k as int]));
                assert(self@.take(k + 1).drop_last() =~= self@.take(k as int));
                assert(self@.take(k + 1).last() == self@[k as int]);
                assert(out@ =~= header + material_records(self@.take(k + 1)));
            }
            k = k + 1;
        }
        proof {
            assert(self@.take(self@.len() as int) =~= self@);
        }
        out
    }

    fn buffer_size(&self) -> (n: usize) {
        32 * self.len() + 16
    }
}

} // verus!
