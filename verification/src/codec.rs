//! The fixed-stride binary codec: every hierarchy element becomes one
//! 32-byte little-endian record, internal nodes and leaves distinguished
//! purely by the value of the word at byte offset 12 (the internal-node
//! sentinel versus a non-negative leaf radius). Decoding is verified to be a
//! bit-exact inverse of encoding.

use vstd::prelude::*;
use crate::aabb::Vec3i;
use crate::bvh::{BVHElement, Leaf, Node, leaf_sphere};
use crate::geometry::Sphere;
use crate::NODE_TAG;

verus! {

/// The `u32` bit pattern of an `i32`, i.e. its two's-complement value.
pub open spec fn bits_of_i32(x: i32) -> u32 {
    if x >= 0 {
        x as u32
    } else {
        (x + 0x1_0000_0000int) as u32
    }
}

/// The `i32` whose two's-complement bit pattern is `u`.
pub open spec fn i32_of_bits(u: u32) -> i32 {
    if u < 0x8000_0000 {
        u as i32
    } else {
        (u - 0x1_0000_0000int) as i32
    }
}

/// The two conversions invert each other.
pub proof fn lemma_bits_roundtrip(x: i32)
    ensures
        i32_of_bits(bits_of_i32(x)) == x,
        bits_of_i32(i32_of_bits(bits_of_i32(x))) == bits_of_i32(x),
{
}

fn bits_of_i32_exec(x: i32) -> (r: u32)
    ensures
        r == bits_of_i32(x),
{
    if x >= 0 {
        x as u32
    } else {
        (x as i64 + 0x1_0000_0000i64) as u32
    }
}

fn i32_of_bits_exec(u: u32) -> (r: i32)
    ensures
        r == i32_of_bits(u),
{
    if u < 0x8000_0000 {
        u as i32
    } else {
        (u as i64 - 0x1_0000_0000i64) as i32
    }
}

/// The four little-endian bytes of a word.
pub open spec fn le4(x: u32) -> Seq<u8> {
    seq![
        (x & 0xff) as u8,
        ((x >> 8) & 0xff) as u8,
        ((x >> 16) & 0xff) as u8,
        ((x >> 24) & 0xff) as u8,
    ]
}

/// The word assembled from four little-endian bytes.
pub open spec fn word_of_bytes(b0: u8, b1: u8, b2: u8, b3: u8) -> u32 {
    (b0 as u32) | ((b1 as u32) << 8) | ((b2 as u32) << 16) | ((b3 as u32) << 24)
}

/// The word read at byte offset `off`.
pub open spec fn rd32(b: Seq<u8>, off: int) -> u32 {
    word_of_bytes(b[off], b[off + 1], b[off + 2], b[off + 3])
}

/// Splitting a word into little-endian bytes and reassembling them is the
/// identity.
pub proof fn lemma_le4_roundtrip(x: u32)
    ensures
        word_of_bytes(le4(x)[0], le4(x)[1], le4(x)[2], le4(x)[3]) == x,
{
    assert(word_of_bytes(
        (x & 0xff) as u8,
        ((x >> 8) & 0xff) as u8,
        ((x >> 16) & 0xff) as u8,
        ((x >> 24) & 0xff) as u8,
    ) == x) by (bit_vector);
}

/// Append the four little-endian bytes of `x`.
pub(crate) fn push_u32_le(out: &mut Vec<u8>, x: u32)
    ensures
        final(out)@ == old(out)@ + le4(x),
{
    proof {
        assert((x & 0xff) < 256 && ((x >> 8) & 0xff) < 256 && ((x >> 16) & 0xff) < 256 && ((x
            >> 24) & 0xff) < 256) by (bit_vector);
    }
    out.push((x & 0xff) as u8);
    out.push(((x >> 8) & 0xff) as u8);
    out.push(((x >> 16) & 0xff) as u8);
    out.push(((x >> 24) & 0xff) as u8);
    proof {
        assert(out@ =~= old(out)@ + le4(x));
    }
}

/// Read the word at byte offset `off`.
fn read_u32_le(bytes: &[u8], off: usize) -> (r: u32)
    requires
        off + 4 <= bytes@.len(),
    ensures
        r == rd32(bytes@, off as int),
{
    (bytes[off] as u32) | ((bytes[off + 1] as u32) << 8) | ((bytes[off + 2] as u32) << 16) | ((
    bytes[off + 3] as u32) << 24)
}

/// The eight words of an element's record, in layout order. An internal node
/// is min corner, sentinel tag, max corner, escape index; a leaf is center,
/// radius, material index, two reserved words, escape index.
pub open spec fn elem_words(e: BVHElement) -> Seq<u32> {
    match e {
        BVHElement::Node(n) => seq![
            bits_of_i32(n.bb_min.x),
            bits_of_i32(n.bb_min.y),
            bits_of_i32(n.bb_min.z),
            NODE_TAG,
            bits_of_i32(n.bb_max.x),
            bits_of_i32(n.bb_max.y),
            bits_of_i32(n.bb_max.z),
            n.esc_index,
        ],
        BVHElement::Leaf(l) => {
            let s = leaf_sphere(l);
            seq![
                bits_of_i32(s.center.x),
                bits_of_i32(s.center.y),
                bits_of_i32(s.center.z),
                bits_of_i32(s.radius),
                s.mat_index,
                0u32,
                0u32,
                s.esc_index,
            ]
        },
    }
}

/// The 32-byte record of one element.
pub open spec fn enc_elem(e: BVHElement) -> Seq<u8> {
    let w = elem_words(e);
    le4(w[0]) + le4(w[1]) + le4(w[2]) + le4(w[3]) + le4(w[4]) + le4(w[5]) + le4(w[6]) + le4(w[7])
}

/// The whole encoded array: the records of all elements, in order.
pub open spec fn enc_all(s: Seq<BVHElement>) -> Seq<u8>
    decreases s.len(),
{
    if s.len() == 0 {
        Seq::empty()
    } else {
        enc_all(s.drop_last()) + enc_elem(s.last())
    }
}

/// The element a 32-byte record decodes to: an internal node when the word
/// at offset 12 is the sentinel, otherwise a leaf.
pub open spec fn dec_elem(b: Seq<u8>) -> BVHElement
    recommends
        b.len() == 32,
{
    if rd32(b, 12) == NODE_TAG {
        BVHElement::Node(
            Node {
                bb_min: Vec3i {
                    x: i32_of_bits(rd32(b, 0)),
                    y: i32_of_bits(rd32(b, 4)),
                    z: i32_of_bits(rd32(b, 8)),
                },
                bb_max: Vec3i {
                    x: i32_of_bits(rd32(b, 16)),
                    y: i32_of_bits(rd32(b, 20)),
                    z: i32_of_bits(rd32(b, 24)),
                },
                esc_index: rd32(b, 28),
            },
        )
    } else {
        BVHElement::Leaf(
            Leaf::S(
                Sphere {
                    center: Vec3i {
                        x: i32_of_bits(rd32(b, 0)),
                        y: i32_of_bits(rd32(b, 4)),
                        z: i32_of_bits(rd32(b, 8)),
                    },
                    radius: i32_of_bits(rd32(b, 12)),
                    mat_index: rd32(b, 16),
                    esc_index: rd32(b, 28),
                },
            ),
        )
    }
}

/// The elements decoded from a byte sequence, 32 bytes at a time.
pub open spec fn dec_all(b: Seq<u8>) -> Seq<BVHElement>
    decreases b.len(),
{
    if b.len() < 32 {
        Seq::empty()
    } else {
        dec_all(b.take(b.len() - 32)).push(dec_elem(b.skip(b.len() - 32)))
    }
}

/// An element whose record decodes back to itself: every internal node, and
/// every leaf with a non-negative radius (so the word at offset 12 can never
/// collide with the sentinel).
pub open spec fn elem_encodable(e: BVHElement) -> bool {
    match e {
        BVHElement::Node(_) => true,
        BVHElement::Leaf(l) => leaf_sphere(l).radius >= 0,
    }
}

/// Each word of a record reads back from its byte offset.
proof fn lemma_enc_elem_words(e: BVHElement)
    ensures
        enc_elem(e).len() == 32,
        forall|i: int| 0 <= i < 8 ==> rd32(enc_elem(e), 4 * i) == elem_words(e)[i],
{
    let w = elem_words(e);
    let b = enc_elem(e);
    assert forall|i: int| 0 <= i < 8 implies rd32(b, 4 * i) == w[i] by {
        lemma_le4_roundtrip(w[i]);
        assert(b[4 * i] == le4(w[i])[0]);
        assert(b[4 * i + 1] == le4(w[i])[1]);
        assert(b[4 * i + 2] == le4(w[i])[2]);
        assert(b[4 * i + 3] == le4(w[i])[3]);
    }
}

/// Decoding inverts encoding on any encodable element.
pub proof fn lemma_elem_roundtrip(e: BVHElement)
    requires
        elem_encodable(e),
    ensures
        enc_elem(e).len() == 32,
        dec_elem(enc_elem(e)) == e,
{
    lemma_enc_elem_words(e);
    let b = enc_elem(e);
    let w = elem_words(e);
    assert(rd32(b, 12) == w[3]);
    match e {
        BVHElement::Node(n) => {
            lemma_bits_roundtrip(n.bb_min.x);
            lemma_bits_roundtrip(n.bb_min.y);
            lemma_bits_roundtrip(n.bb_min.z);
            lemma_bits_roundtrip(n.bb_max.x);
            lemma_bits_roundtrip(n.bb_max.y);
            lemma_bits_roundtrip(n.bb_max.z);
            assert(rd32(b, 0) == w[0]);
            assert(rd32(b, 4) == w[1]);
            assert(rd32(b, 8) == w[2]);
            assert(rd32(b, 16) == w[4]);
            assert(rd32(b, 20) == w[5]);
            assert(rd32(b, 24) == w[6]);
            assert(rd32(b, 28) == w[7]);
            assert(dec_elem(b) =~= e);
        },
        BVHElement::Leaf(l) => {
            let s = leaf_sphere(l);
            assert(w[3] == bits_of_i32(s.radius));
            assert(bits_of_i32(s.radius) != NODE_TAG);
            lemma_bits_roundtrip(s.center.x);
            lemma_bits_roundtrip(s.center.y);
            lemma_bits_roundtrip(s.center.z);
            lemma_bits_roundtrip(s.radius);
            assert(rd32(b, 0) == w[0]);
            assert(rd32(b, 4) == w[1]);
            assert(rd32(b, 8) == w[2]);
            assert(rd32(b, 16) == w[4]);
            assert(rd32(b, 28) == w[7]);
            assert(dec_elem(b) =~= e);
        },
    }
}

/// Decoding inverts encoding on any sequence of encodable elements, and the
/// encoding is exactly 32 bytes per element.
pub proof fn lemma_codec_roundtrip(elems: Seq<BVHElement>)
    requires
        forall|k: int| 0 <= k < elems.len() ==> elem_encodable(#[trigger] elems[k]),
    ensures
        enc_all(elems).len() == 32 * elems.len(),
        dec_all(enc_all(elems)) == elems,
    decreases elems.len(),
{
    if elems.len() == 0 {
        assert(dec_all(enc_all(elems)) =~= elems);
    } else {
        let front = elems.drop_last();
        let last = elems.last();
        lemma_codec_roundtrip(front);
        lemma_elem_roundtrip(last);
        let b = enc_all(elems);
        assert(b.len() == 32 * elems.len());
        assert(b.take(b.len() - 32) =~= enc_all(front));
        assert(b.skip(b.len() - 32) =~= enc_elem(last));
        assert(dec_all(b) == dec_all(enc_all(front)).push(dec_elem(enc_elem(last))));
        assert(dec_all(b) =~= elems);
    }
}

/// Append the 32-byte record of one element.
pub(crate) fn push_record(out: &mut Vec<u8>, e: &BVHElement)
    ensures
        final(out)@ == old(out)@ + enc_elem(*e),
{
    let ghost snap = out@;
    let w0: u32;
    let w1: u32;
    let w2: u32;
    let w3: u32;
    let w4: u32;
    let w5: u32;
    let w6: u32;
    let w7: u32;
    match e {
        BVHElement::Node(n) => {
            w0 = bits_of_i32_exec(n.bb_min.x);
            w1 = bits_of_i32_exec(n.bb_min.y);
            w2 = bits_of_i32_exec(n.bb_min.z);
            w3 = NODE_TAG;
            w4 = bits_of_i32_exec(n.bb_max.x);
            w5 = bits_of_i32_exec(n.bb_max.y);
            w6 = bits_of_i32_exec(n.bb_max.z);
            w7 = n.esc_index;
        },
        BVHElement::Leaf(l) => {
            let s = match l {
                Leaf::S(s) => s,
            };
            w0 = bits_of_i32_exec(s.center.x);
            w1 = bits_of_i32_exec(s.center.y);
            w2 = bits_of_i32_exec(s.center.z);
            w3 = bits_of_i32_exec(s.radius);
            w4 = s.mat_index;
            w5 = 0;
            w6 = 0;
            w7 = s.esc_index;
        },
    }
    proof {
        assert(seq![w0, w1, w2, w3, w4, w5, w6, w7] =~= elem_words(*e));
    }
    push_u32_le(out, w0);
    push_u32_le(out, w1);
    push_u32_le(out, w2);
    push_u32_le(out, w3);
    push_u32_le(out, w4);
    push_u32_le(out, w5);
    push_u32_le(out, w6);
    push_u32_le(out, w7);
    proof {
        assert(out@ =~= snap + enc_elem(*e));
    }
}

/// Encode a sequence of hierarchy elements into their flat byte form.
pub fn encode_elements(elems: &[BVHElement]) -> (r: Vec<u8>)
    ensures
        r@ == enc_all(elems@),
{
    let mut out: Vec<u8> = Vec::new();
    let mut k: usize = 0;
    while k < elems.len()
        invariant
            k <= elems@.len(),
            out@ == enc_all(elems@.take(k as int)),
        decreases elems@.len() - k,
    {
        push_record(&mut out, &elems[k]);
        proof {
            assert(elems@.take(k + 1).drop_last() =~= elems@.take(k as int));
            assert(elems@.take(k + 1).last() == elems@[k as int]);
            assert(out@ =~= enc_all(elems@.take(k + 1)));
        }
        k = k + 1;
    }
    proof {
        assert(elems@.take(elems@.len() as int) =~= elems@);
    }
    out
}

/// Decode a flat byte sequence back into hierarchy elements. Returns `None`
/// exactly when the length is not a whole number of 32-byte records.
pub fn decode_elements(bytes: &[u8]) -> (r: Option<Vec<BVHElement>>)
    ensures
        r is Some <==> bytes@.len() % 32 == 0,
        r matches Some(v) ==> v@ == dec_all(bytes@),
{
    if bytes.len() % 32 != 0 {
        return None;
    }
    let mut out: Vec<BVHElement> = Vec::new();
    let mut off: usize = 0;
    while off < bytes.len()
        invariant
            off <= bytes@.len(),
            off % 32 == 0,
            bytes@.len() % 32 == 0,
            out@ == dec_all(bytes@.take(off as int)),
        decreases bytes@.len() - off,
    {
        assert(off + 32 <= bytes@.len());
        let w0 = read_u32_le(bytes, off);
        let w1 = read_u32_le(bytes, off + 4);
        let w2 = read_u32_le(bytes, off + 8);
        let w3 = read_u32_le(bytes, off + 12);
        let w4 = read_u32_le(bytes, off + 16);
        let w7 = read_u32_le(bytes, off + 28);
        let ghost chunk = bytes@.subrange(off as int, off as int + 32);
        proof {
            assert forall|j: int| 0 <= j < 32 implies #[trigger] chunk[j] == bytes@[off + j] by {}
            assert(rd32(chunk, 0) == w0);
            assert(rd32(chunk, 4) == w1);
            assert(rd32(chunk, 8) == w2);
            assert(rd32(chunk, 12) == w3);
            assert(rd32(chunk, 16) == w4);
            assert(rd32(chunk, 28) == w7);
        }
        let e: BVHElement;
        if w3 == NODE_TAG {
            let w5 = read_u32_le(bytes, off + 20);
            let w6 = read_u32_le(bytes, off + 24);
            proof {
                assert(rd32(chunk, 20) == w5);
                assert(rd32(chunk, 24) == w6);
            }
            e = BVHElement::Node(
                Node {
                    bb_min: Vec3i {
                        x: i32_of_bits_exec(w0),
                        y: i32_of_bits_exec(w1),
                        z: i32_of_bits_exec(w2),
                    },
                    bb_max: Vec3i {
                        x: i32_of_bits_exec(w4),
                        y: i32_of_bits_exec(w5),
                        z: i32_of_bits_exec(w6),
                    },
                    esc_index: w7,
                },
            );
        } else {
            e = BVHElement::Leaf(
                Leaf::S(
                    Sphere {
                        center: Vec3i {
                            x: i32_of_bits_exec(w0),
                            y: i32_of_bits_exec(w1),
                            z: i32_of_bits_exec(w2),
                        },
                        radius: i32_of_bits_exec(w3),
                        mat_index: w4,
                        esc_index: w7,
                    },
                ),
            );
        }
        proof {
            assert(e == dec_elem(chunk));
        }
        out.push(e);
        proof {
            let b2 = bytes@.take(off + 32);
            assert(b2.len() == off + 32);
            assert(b2.take(off as int) =~= bytes@.take(off as int));
            assert(b2.skip(off as int) =~= chunk);
            assert(out@ =~= dec_all(bytes@.take(off + 32)));
        }
        off = off + 32;
    }
    proof {
        assert(bytes@.take(bytes@.len() as int) =~= bytes@);
    }
    Some(out)
}

} // verus!
