//! The bounding volume hierarchy: a recursive builder that partitions the
//! primitive set by median centroid along the dominant axis, and a flattener
//! that lays the tree out in preorder with escape links for stackless
//! traversal.

use vstd::prelude::*;
use vstd::seq_lib::{group_to_multiset_ensures, lemma_multiset_commutative};
use crate::aabb::{
    AABB, Axis, Bounded, Vec3i, aabb_contains, aabb_union, aabb_wf, centroid2_along,
    spec_largest_axis, union_all, lemma_union_all_append, lemma_union_all_same_members,
    lemma_union_all_upper, lemma_union_contains,
};
use crate::codec::{dec_all, elem_encodable, enc_all, encode_elements, lemma_codec_roundtrip};
use crate::geometry::{Sphere, sphere_bounds, sphere_wf};
use crate::sorting::{
    lemma_map_values_multiset, lemma_pair_order_total, pair_order, sort_pairs,
};
use crate::traits::AsBytes;
use crate::{ESCAPE_END, MAX_PRIMITIVES};

verus! {

/// A hierarchy leaf: exactly one primitive, copied into the array.
#[derive(Clone, Copy, Debug, PartialEq, Eq, Structural)]
pub enum Leaf {
    S(Sphere),
}

/// An internal hierarchy node: the bounds of its whole subtree plus the index
/// to jump to when the subtree is skipped. The encoded type-tag word is not
/// stored here; it is supplied by the codec.
#[verifier::ext_equal]
#[derive(Clone, Copy, Debug, PartialEq, Eq, Structural)]
pub struct Node {
    pub bb_min: Vec3i,
    pub bb_max: Vec3i,
    pub esc_index: u32,
}

/// One 32-byte-encodable element of the flattened hierarchy.
#[derive(Clone, Copy, Debug, PartialEq, Eq, Structural)]
pub enum BVHElement {
    Node(Node),
    Leaf(Leaf),
}

/// The primitive held by a leaf.
pub open spec fn leaf_sphere(l: Leaf) -> Sphere {
    match l {
        Leaf::S(s) => s,
    }
}

/// A leaf is well formed when its sphere is.
pub open spec fn leaf_wf(l: Leaf) -> bool {
    sphere_wf(leaf_sphere(l))
}

/// The bounding box a leaf reports: its sphere's bounds.
pub open spec fn leaf_bounds(l: Leaf) -> AABB {
    sphere_bounds(leaf_sphere(l))
}

/// The array element emitted for leaf `l` with escape index `esc`.
pub open spec fn leaf_element(l: Leaf, esc: u32) -> BVHElement {
    BVHElement::Leaf(Leaf::S(Sphere { esc_index: esc, ..leaf_sphere(l) }))
}

/// The escape index recorded in an element.
pub open spec fn elem_esc(e: BVHElement) -> u32 {
    match e {
        BVHElement::Node(n) => n.esc_index,
        BVHElement::Leaf(l) => leaf_sphere(l).esc_index,
    }
}

/// Whether an element is a leaf.
pub open spec fn elem_is_leaf(e: BVHElement) -> bool {
    match e {
        BVHElement::Node(_) => false,
        BVHElement::Leaf(_) => true,
    }
}

impl Bounded for Leaf {
    open spec fn wf_bounds(&self) -> bool {
        leaf_wf(*self)
    }

    open spec fn bounds_spec(&self) -> AABB {
        leaf_bounds(*self)
    }

    fn get_bounds(&self) -> (r: AABB) {
        match self {
            Leaf::S(s) => s.get_bounds(),
        }
    }
}

impl Bounded for BVHElement {
    open spec fn wf_bounds(&self) -> bool {
        match *self {
            BVHElement::Node(n) => aabb_wf(AABB { min: n.bb_min, max: n.bb_max }),
            BVHElement::Leaf(l) => leaf_wf(l),
        }
    }

    open spec fn bounds_spec(&self) -> AABB {
        match *self {
            BVHElement::Node(n) => AABB { min: n.bb_min, max: n.bb_max },
            BVHElement::Leaf(l) => leaf_bounds(l),
        }
    }

    fn get_bounds(&self) -> (r: AABB) {
        match self {
            BVHElement::Node(n) => AABB { min: n.bb_min, max: n.bb_max },
            BVHElement::Leaf(l) => l.get_bounds(),
        }
    }
}

impl Leaf {
    /// The array element for this leaf, stamped with its escape index.
    fn as_element(&self, esc_index: u32) -> (e: BVHElement)
        ensures
            e == leaf_element(*self, esc_index),
    {
        match self {
            Leaf::S(s) => BVHElement::Leaf(
                Leaf::S(Sphere { esc_index, ..*s }),
            ),
        }
    }
}

impl BVHElement {
    /// The escape index recorded in this element.
    fn get_esc_index(&self) -> (r: u32)
        ensures
            r == elem_esc(*self),
    {
        match self {
            BVHElement::Node(n) => n.esc_index,
            BVHElement::Leaf(l) => match l {
                Leaf::S(s) => s.esc_index,
            },
        }
    }
}

/// The in-memory shape of a hierarchy before flattening: a proper binary tree
/// whose internal nodes carry the union of their children's bounds.
pub enum Tree {
    Leaf(Leaf),
    Node(AABB, Box<Tree>, Box<Tree>),
}

impl Tree {
    /// Number of array elements the subtree flattens to.
    pub open spec fn size(self) -> nat
        decreases self,
    {
        match self {
            Tree::Leaf(_) => 1,
            Tree::Node(_, l, r) => 1 + l.size() + r.size(),
        }
    }

    /// Number of leaves (primitives) in the subtree.
    pub open spec fn nleaves(self) -> nat
        decreases self,
    {
        match self {
            Tree::Leaf(_) => 1,
            Tree::Node(_, l, r) => l.nleaves() + r.nleaves(),
        }
    }

    /// Number of levels, counting a lone leaf as depth 1.
    pub open spec fn depth(self) -> nat
        decreases self,
    {
        match self {
            Tree::Leaf(_) => 1,
            Tree::Node(_, l, r) => 1 + if l.depth() >= r.depth() {
                l.depth()
            } else {
                r.depth()
            },
        }
    }

    /// The leaves of the subtree, left to right.
    pub open spec fn leaves(self) -> Seq<Leaf>
        decreases self,
    {
        match self {
            Tree::Leaf(l) => seq![l],
            Tree::Node(_, l, r) => l.leaves() + r.leaves(),
        }
    }

    /// The bounding box of the subtree.
    pub open spec fn bounds(self) -> AABB {
        match self {
            Tree::Leaf(l) => leaf_bounds(l),
            Tree::Node(bb, _, _) => bb,
        }
    }

    /// Structural well-formedness: every leaf's primitive is well formed and
    /// every internal node's box is exactly the union of its children's.
    pub open spec fn wf(self) -> bool
        decreases self,
    {
        match self {
            Tree::Leaf(l) => leaf_wf(l),
            Tree::Node(bb, l, r) => l.wf() && r.wf() && bb == aabb_union(
                l.bounds(),
                r.bounds(),
            ),
        }
    }

    /// The split is balanced at every node: the left side holds the ceiling
    /// half of the leaves.
    pub open spec fn balanced(self) -> bool
        decreases self,
    {
        match self {
            Tree::Leaf(_) => true,
            Tree::Node(_, l, r) => l.balanced() && r.balanced() && l.nleaves() == (
            l.nleaves() + r.nleaves() + 1) / 2,
        }
    }

    /// The preorder flattening of the subtree when its first element lands at
    /// array position `base` and skipping the whole subtree jumps to `esc`:
    /// the subtree's root element first, then the whole left subtree, then the
    /// whole right subtree. The left subtree's escape lands on the right
    /// subtree's first element; the right subtree inherits `esc`.
    pub open spec fn flat(self, base: int, esc: u32) -> Seq<BVHElement>
        decreases self,
    {
        match self {
            Tree::Leaf(l) => seq![leaf_element(l, esc)],
            Tree::Node(bb, l, r) => seq![
                BVHElement::Node(Node { bb_min: bb.min, bb_max: bb.max, esc_index: esc }),
            ] + l.flat(base + 1, (base + 1 + l.size()) as u32) + r.flat(
                base + 1 + l.size(),
                esc,
            ),
        }
    }

    /// The array positions of the subtree's leaves, left to right, when the
    /// subtree starts at `base`.
    pub open spec fn leaf_positions(self, base: int) -> Seq<u32>
        decreases self,
    {
        match self {
            Tree::Leaf(_) => seq![base as u32],
            Tree::Node(_, l, r) => l.leaf_positions(base + 1) + r.leaf_positions(
                base + 1 + l.size(),
            ),
        }
    }
}

/// The primitives an index sequence selects from the primitive array.
pub open spec fn sel(objects: Seq<Leaf>, idx: Seq<usize>) -> Seq<Leaf> {
    idx.map_values(|i: usize| objects[i as int])
}

/// The bounding boxes of a sequence of leaves.
pub open spec fn bounds_of(s: Seq<Leaf>) -> Seq<AABB> {
    s.map_values(|l: Leaf| leaf_bounds(l))
}

/// Every entry of `idx` is a valid position in `objects`.
pub open spec fn valid_indices(objects: Seq<Leaf>, idx: Seq<usize>) -> bool {
    forall|k: int| 0 <= k < idx.len() ==> (#[trigger] idx[k]) < objects.len()
}

/// Every primitive in the array is well formed.
pub open spec fn leaves_wf(objects: Seq<Leaf>) -> bool {
    forall|k: int| 0 <= k < objects.len() ==> leaf_wf(#[trigger] objects[k])
}

/// The sort-key pairs of an index sequence along an axis: twice the centroid
/// coordinate of each indexed primitive, paired with the index itself.
pub open spec fn keyed_indices(objects: Seq<Leaf>, axis: Axis, idx: Seq<usize>) -> Seq<
    (i64, usize),
> {
    idx.map_values(
        |i: usize| (centroid2_along(leaf_bounds(objects[i as int]), axis) as i64, i),
    )
}

/// The index sequence reordered by centroid coordinate along `axis`, ties
/// resolved by original index.
pub open spec fn spec_sorted_indices(objects: Seq<Leaf>, axis: Axis, idx: Seq<usize>) -> Seq<
    usize,
> {
    keyed_indices(objects, axis, idx).sort_by(pair_order()).map_values(|p: (i64, usize)| p.1)
}

/// The hierarchy the builder constructs over the primitives `idx` selects:
/// a single leaf, or the union box over a median-of-centroid split along the
/// dominant axis, the left side taking the ceiling half.
pub open spec fn spec_build(objects: Seq<Leaf>, idx: Seq<usize>) -> Tree
    decreases idx.len(),
    via spec_build_decreases
{
    if idx.len() <= 1 {
        Tree::Leaf(objects[idx[0] as int])
    } else {
        let bb = union_all(bounds_of(sel(objects, idx)));
        let axis = spec_largest_axis(bb);
        let sorted = spec_sorted_indices(objects, axis, idx);
        let mid = ((idx.len() + 1) / 2) as int;
        Tree::Node(
            bb,
            Box::new(spec_build(objects, sorted.take(mid))),
            Box::new(spec_build(objects, sorted.skip(mid))),
        )
    }
}

#[via_fn]
proof fn spec_build_decreases(objects: Seq<Leaf>, idx: Seq<usize>) {
    broadcast use group_to_multiset_ensures;

    if idx.len() > 1 {
        let bb = union_all(bounds_of(sel(objects, idx)));
        let axis = spec_largest_axis(bb);
        let keyed = keyed_indices(objects, axis, idx);
        lemma_pair_order_total();
        keyed.lemma_sort_by_ensures(pair_order());
        assert(keyed.to_multiset().len() == keyed.len());
        assert(keyed.sort_by(pair_order()).to_multiset().len() == keyed.sort_by(
            pair_order(),
        ).len());
        assert(spec_sorted_indices(objects, axis, idx).len() == idx.len());
    }
}

/// Multiset-equal index sequences select multiset-equal primitives.
proof fn lemma_sel_multiset(objects: Seq<Leaf>, a: Seq<usize>, b: Seq<usize>)
    requires
        a.to_multiset() == b.to_multiset(),
    ensures
        sel(objects, a).to_multiset() == sel(objects, b).to_multiset(),
{
    let f = |i: usize| objects[i as int];
    lemma_map_values_multiset(a, b, f);
    assert(sel(objects, a) =~= a.map_values(f));
    assert(sel(objects, b) =~= b.map_values(f));
}

/// Multiset-equal leaf sequences have multiset-equal bounds sequences.
proof fn lemma_bounds_of_multiset(a: Seq<Leaf>, b: Seq<Leaf>)
    requires
        a.to_multiset() == b.to_multiset(),
    ensures
        bounds_of(a).to_multiset() == bounds_of(b).to_multiset(),
{
    let f = |l: Leaf| leaf_bounds(l);
    lemma_map_values_multiset(a, b, f);
    assert(bounds_of(a) =~= a.map_values(f));
    assert(bounds_of(b) =~= b.map_values(f));
}

/// The centroid sort key of a leaf along an axis: twice the centroid
/// coordinate, which fits easily in an `i64`.
fn centroid2_key(l: &Leaf, axis: Axis) -> (k: i64)
    requires
        leaf_wf(*l),
    ensures
        k == centroid2_along(leaf_bounds(*l), axis),
{
    let b = l.get_bounds();
    match axis {
        Axis::X => b.min.x as i64 + b.max.x as i64,
        Axis::Y => b.min.y as i64 + b.max.y as i64,
        Axis::Z => b.min.z as i64 + b.max.z as i64,
    }
}

/// Copy out the first `mid` entries and the rest of an index vector.
fn split_indices(v: &Vec<usize>, mid: usize) -> (r: (Vec<usize>, Vec<usize>))
    requires
        mid <= v@.len(),
    ensures
        r.0@ == v@.take(mid as int),
        r.1@ == v@.subrange(mid as int, v@.len() as int),
{
    let mut a: Vec<usize> = Vec::new();
    let mut k: usize = 0;
    while k < mid
        invariant
            k <= mid <= v@.len(),
            a@ == v@.take(k as int),
        decreases mid - k,
    {
        a.push(v[k]);
        proof {
            assert(a@ =~= v@.take(k + 1));
        }
        k = k + 1;
    }
    let mut b: Vec<usize> = Vec::new();
    while k < v.len()
        invariant
            mid <= k <= v@.len(),
            a@ == v@.take(mid as int),
            b@ == v@.subrange(mid as int, k as int),
        decreases v@.len() - k,
    {
        b.push(v[k]);
        proof {
            assert(b@ =~= v@.subrange(mid as int, k + 1));
        }
        k = k + 1;
    }
    (a, b)
}

/// Build the subtree over the primitives that `idx` selects: compute the
/// union of their bounds, sort the indices by centroid along the dominant
/// axis (ties by original index), split at the median, and recurse.
#[verifier::rlimit(60)]
fn build_tree(objects: &[Leaf], idx: Vec<usize>) -> (t: Tree)
    requires
        1 <= idx@.len() <= MAX_PRIMITIVES,
        valid_indices(objects@, idx@),
        leaves_wf(objects@),
    ensures
        t.wf(),
        t.nleaves() == idx@.len(),
        t.size() == 2 * idx@.len() - 1,
        t.balanced(),
        t.leaves().to_multiset() == sel(objects@, idx@).to_multiset(),
        t.bounds() == union_all(bounds_of(sel(objects@, idx@))),
        t == spec_build(objects@, idx@),
    decreases idx@.len(),
{
    proof {
        broadcast use group_to_multiset_ensures;
    }
    if idx.len() == 1 {
        let l = objects[idx[0]];
        let t = Tree::Leaf(l);
        proof {
            assert(sel(objects@, idx@) =~= seq![l]);
            assert(t.leaves() =~= seq![l]);
            assert(bounds_of(seq![l]) =~= seq![leaf_bounds(l)]);
            assert(union_all(seq![leaf_bounds(l)]) == leaf_bounds(l));
            assert(t == spec_build(objects@, idx@));
        }
        return t;
    }
    let ghost selected = sel(objects@, idx@);
    let ghost boxes = bounds_of(selected);

    // union bounding box of all selected primitives
    let mut acc = objects[idx[0]].get_bounds();
    proof {
        assert(boxes.take(1) =~= seq![leaf_bounds(objects@[idx@[0] as int])]);
        assert(union_all(boxes.take(1)) == acc);
    }
    let mut k: usize = 1;
    while k < idx.len()
        invariant
            1 <= k <= idx@.len() <= MAX_PRIMITIVES,
            valid_indices(objects@, idx@),
            leaves_wf(objects@),
            boxes == bounds_of(sel(objects@, idx@)),
            boxes.len() == idx@.len(),
            acc == union_all(boxes.take(k as int)),
        decreases idx@.len() - k,
    {
        let b = objects[idx[k]].get_bounds();
        proof {
            assert(boxes[k as int] == leaf_bounds(objects@[idx@[k as int] as int]));
            assert(boxes.take(k + 1).drop_last() =~= boxes.take(k as int));
            assert(boxes.take(k + 1).last() == boxes[k as int]);
        }
        acc.extend(&b);
        k = k + 1;
    }
    proof {
        assert(boxes.take(idx@.len() as int) =~= boxes);
    }
    let axis = acc.largest_axis();

    // sort the index set by centroid along the dominant axis
    let mut pairs: Vec<(i64, usize)> = Vec::new();
    let mut k: usize = 0;
    while k < idx.len()
        invariant
            k <= idx@.len(),
            valid_indices(objects@, idx@),
            leaves_wf(objects@),
            pairs@.len() == k,
            forall|p: int|
                0 <= p < k ==> #[trigger] pairs@[p] == (
                centroid2_along(leaf_bounds(objects@[idx@[p] as int]), axis) as i64,
                idx@[p],
            ),
        decreases idx@.len() - k,
    {
        let key = centroid2_key(&objects[idx[k]], axis);
        pairs.push((key, idx[k]));
        k = k + 1;
    }
    let sorted = sort_pairs(pairs);
    let ghost pairs_snap = pairs@;
    let mut sidx: Vec<usize> = Vec::new();
    let mut k: usize = 0;
    while k < sorted.len()
        invariant
            k <= sorted@.len(),
            sidx@ == sorted@.take(k as int).map_values(|p: (i64, usize)| p.1),
        decreases sorted@.len() - k,
    {
        sidx.push(sorted[k].1);
        proof {
            assert(sidx@ =~= sorted@.take(k + 1).map_values(|p: (i64, usize)| p.1));
        }
        k = k + 1;
    }
    proof {
        let snd = |p: (i64, usize)| p.1;
        assert(sorted@.take(sorted@.len() as int) =~= sorted@);
        assert(sidx@ =~= sorted@.map_values(snd));
        lemma_map_values_multiset(sorted@, pairs_snap, snd);
        assert(pairs_snap.map_values(snd) =~= idx@);
        assert(sidx@.to_multiset() == idx@.to_multiset());
        assert forall|p: int| 0 <= p < sidx@.len() implies (#[trigger] sidx@[p])
            < objects@.len() by {
            assert(sidx@.contains(sidx@[p]));
            assert(sidx@.to_multiset().contains(sidx@[p]));
            assert(idx@.to_multiset().contains(sidx@[p]));
            assert(idx@.contains(sidx@[p]));
            let j = choose|j: int| 0 <= j < idx@.len() && idx@[j] == sidx@[p];
            assert(idx@[j] < objects@.len());
        }
    }

    // median split: the left half takes the ceiling half of the primitives
    let mid = (sidx.len() + 1) / 2;
    let (li, ri) = split_indices(&sidx, mid);
    let ghost lsel = sel(objects@, li@);
    let ghost rsel = sel(objects@, ri@);
    let lt = build_tree(objects, li);
    let rt = build_tree(objects, ri);
    let t = Tree::Node(acc, Box::new(lt), Box::new(rt));
    proof {
        let ssel = sel(objects@, sidx@);
        assert(lsel + rsel =~= ssel);
        assert(t.leaves() == lt.leaves() + rt.leaves());
        lemma_multiset_commutative(lt.leaves(), rt.leaves());
        lemma_multiset_commutative(lsel, rsel);
        lemma_sel_multiset(objects@, sidx@, idx@);
        assert(t.leaves().to_multiset() == selected.to_multiset());

        // the node's box is the union of its children's boxes
        lemma_union_all_append(bounds_of(lsel), bounds_of(rsel));
        assert(bounds_of(lsel) + bounds_of(rsel) =~= bounds_of(ssel));
        assert(union_all(bounds_of(ssel)) == aabb_union(lt.bounds(), rt.bounds()));
        lemma_bounds_of_multiset(ssel, selected);
        assert forall|x: AABB|
            bounds_of(ssel).contains(x) <==> bounds_of(selected).contains(x) by {
            if bounds_of(ssel).contains(x) {
                assert(bounds_of(ssel).to_multiset().contains(x));
                assert(bounds_of(selected).to_multiset().contains(x));
            }
            if bounds_of(selected).contains(x) {
                assert(bounds_of(selected).to_multiset().contains(x));
                assert(bounds_of(ssel).to_multiset().contains(x));
            }
        }
        lemma_union_all_same_members(bounds_of(ssel), bounds_of(selected));
        assert(acc == aabb_union(lt.bounds(), rt.bounds()));

        // the exec steps mirror spec_build's definition exactly
        assert(axis == spec_largest_axis(union_all(bounds_of(selected))));
        let keyed = keyed_indices(objects@, axis, idx@);
        assert(pairs_snap =~= keyed);
        assert(sorted@ == keyed.sort_by(pair_order()));
        let sb = spec_sorted_indices(objects@, axis, idx@);
        assert(sidx@ =~= sb);
        assert(li@ =~= sb.take(mid as int));
        assert(ri@ =~= sb.skip(mid as int));
        assert(lt == spec_build(objects@, sb.take(mid as int)));
        assert(rt == spec_build(objects@, sb.skip(mid as int)));
        assert(t == spec_build(objects@, idx@));
    }
    t
}

/// Number of elements the subtree will flatten to.
fn tree_count(t: &Tree) -> (n: usize)
    requires
        t.size() <= 0x7FFF_FFFF,
    ensures
        n == t.size(),
    decreases *t,
{
    match t {
        Tree::Leaf(_) => 1,
        Tree::Node(_, l, r) => 1 + tree_count(l) + tree_count(r),
    }
}

/// Append the preorder flattening of `t` to `out`, stamping `esc` as the
/// escape index of the subtree's root element.
fn flatten_into(t: &Tree, esc: u32, out: &mut Vec<BVHElement>)
    requires
        old(out)@.len() + t.size() <= 0x7FFF_FFFF,
    ensures
        final(out)@ == old(out)@ + t.flat(old(out)@.len() as int, esc),
    decreases *t,
{
    match t {
        Tree::Leaf(lf) => {
            out.push(lf.as_element(esc));
            proof {
                assert(out@ =~= old(out)@ + t.flat(old(out)@.len() as int, esc));
            }
        },
        Tree::Node(bb, l, r) => {
            proof {
                lemma_flat_len(
                    **l,
                    old(out)@.len() as int + 1,
                    (old(out)@.len() + 1 + l.size()) as u32,
                );
                lemma_flat_len(**r, old(out)@.len() as int + 1 + l.size() as int, esc);
            }
            let base = out.len();
            let lsize = tree_count(l);
            out.push(BVHElement::Node(Node { bb_min: bb.min, bb_max: bb.max, esc_index: esc }));
            flatten_into(l, (base + 1 + lsize) as u32, out);
            flatten_into(r, esc, out);
            proof {
                assert(out@ =~= old(out)@ + t.flat(old(out)@.len() as int, esc));
            }
        },
    }
}

/// The errors the hierarchy builder reports.
#[derive(Clone, Copy, Debug, PartialEq, Eq, Structural)]
pub enum BuildError {
    /// The builder was handed zero primitives.
    EmptyInput,
}

/// A flattened bounding volume hierarchy: `2n - 1` elements in preorder for
/// `n` primitives, each carrying the escape index a stackless traversal jumps
/// to when it skips the element's subtree. `shape` is the ghost record of the
/// tree the array was flattened from; every structural fact about the array
/// is stated through it.
pub struct BVH {
    pub nodes: Vec<BVHElement>,
    pub shape: Ghost<Tree>,
}

/// `Leaf` wrappers around a sequence of spheres.
pub open spec fn wrap_spheres(s: Seq<Sphere>) -> Seq<Leaf> {
    s.map_values(|sp: Sphere| Leaf::S(sp))
}

/// The index sequence `0, 1, ..., n - 1`.
pub open spec fn identity_indices(n: nat) -> Seq<usize> {
    Seq::new(n, |i: int| i as usize)
}

impl BVH {
    /// The array is exactly the flattening of a well-formed shape tree, with
    /// the root's escape normalized to the end-of-traversal sentinel.
    pub open spec fn wf(self) -> bool {
        &&& self.shape@.wf()
        &&& 1 <= self.shape@.size() <= 0x7FFF_FFFF
        &&& self.nodes@ == self.shape@.flat(0, ESCAPE_END)
    }

    /// Build a hierarchy over one leaf per sphere.
    pub fn from_spheres(objects: &[Sphere]) -> (r: Result<BVH, BuildError>)
        requires
            objects@.len() <= MAX_PRIMITIVES,
            forall|k: int| 0 <= k < objects@.len() ==> sphere_wf(#[trigger] objects@[k]),
        ensures
            objects@.len() == 0 <==> r is Err,
            r is Err ==> r == Err::<BVH, BuildError>(BuildError::EmptyInput),
            r matches Ok(bvh) ==> {
                &&& bvh.wf()
                &&& bvh.shape@.nleaves() == objects@.len()
                &&& bvh.shape@.balanced()
                &&& bvh.nodes@.len() == 2 * objects@.len() - 1
                &&& bvh.shape@.leaves().to_multiset() == wrap_spheres(objects@).to_multiset()
                &&& bvh.shape@.bounds() == union_all(bounds_of(wrap_spheres(objects@)))
                &&& bvh.shape@ == spec_build(
                    wrap_spheres(objects@),
                    identity_indices(objects@.len()),
                )
            },
    {
        let mut leaves: Vec<Leaf> = Vec::new();
        let mut k: usize = 0;
        while k < objects.len()
            invariant
                k <= objects@.len(),
                leaves@ == wrap_spheres(objects@.take(k as int)),
                forall|j: int| 0 <= j < objects@.len() ==> sphere_wf(#[trigger] objects@[j]),
            decreases objects@.len() - k,
        {
            leaves.push(Leaf::S(objects[k]));
            proof {
                assert(leaves@ =~= wrap_spheres(objects@.take(k + 1)));
            }
            k = k + 1;
        }
        proof {
            assert(leaves@ =~= wrap_spheres(objects@));
            assert forall|j: int| 0 <= j < leaves@.len() implies leaf_wf(
                #[trigger] leaves@[j],
            ) by {
                assert(leaves@[j] == Leaf::S(objects@[j]));
            }
        }
        Self::new(leaves.as_slice())
    }

    /// Build a hierarchy over the given leaves. Rejects an empty input;
    /// otherwise returns a well-formed flattened hierarchy of exactly
    /// `2n - 1` elements whose root box is the union of every primitive's
    /// bounds and whose leaves are exactly the input primitives.
    pub fn new(objects: &[Leaf]) -> (r: Result<BVH, BuildError>)
        requires
            objects@.len() <= MAX_PRIMITIVES,
            leaves_wf(objects@),
        ensures
            objects@.len() == 0 <==> r is Err,
            r is Err ==> r == Err::<BVH, BuildError>(BuildError::EmptyInput),
            r matches Ok(bvh) ==> {
                &&& bvh.wf()
                &&& bvh.shape@.nleaves() == objects@.len()
                &&& bvh.shape@.balanced()
                &&& bvh.nodes@.len() == 2 * objects@.len() - 1
                &&& bvh.shape@.leaves().to_multiset() == objects@.to_multiset()
                &&& bvh.shape@.bounds() == union_all(bounds_of(objects@))
                &&& bvh.shape@ == spec_build(objects@, identity_indices(objects@.len()))
            },
    {
        if objects.len() == 0 {
            return Err(BuildError::EmptyInput);
        }
        let mut idx: Vec<usize> = Vec::new();
        let mut k: usize = 0;
        while k < objects.len()
            invariant
                k <= objects@.len(),
                idx@.len() == k,
                forall|j: int| 0 <= j < k ==> #[trigger] idx@[j] == j,
            decreases objects@.len() - k,
        {
            idx.push(k);
            k = k + 1;
        }
        proof {
            assert(sel(objects@, idx@) =~= objects@);
            assert(idx@ =~= identity_indices(objects@.len()));
        }
        let t = build_tree(objects, idx);
        let mut nodes: Vec<BVHElement> = Vec::new();
        flatten_into(&t, ESCAPE_END, &mut nodes);
        proof {
            lemma_flat_len(t, 0, ESCAPE_END);
            assert(nodes@ =~= t.flat(0, ESCAPE_END));
        }
        Ok(BVH { nodes, shape: Ghost(t) })
    }
}

impl BVH {
    /// Walk the array as the external tracer would when every node test
    /// succeeds: descend into each internal node, visit each leaf and then
    /// jump to its escape index, until the end-of-traversal sentinel.
    /// Returns the visited leaf positions; by `lemma_stackless_traversal`
    /// these are exactly the leaf elements, each seen once, in array order.
    pub fn traverse_leaves(&self) -> (r: Vec<u32>)
        requires
            self.wf(),
        ensures
            Some(r@) == trav(self.nodes@, 0, self.nodes@.len() as nat),
    {
        proof {
            lemma_stackless_traversal(*self);
        }
        let ghost full = trav(self.nodes@, 0, self.nodes@.len() as nat)->Some_0;
        let mut out: Vec<u32> = Vec::new();
        let mut pos: u32 = 0;
        let ghost mut fuel: nat = self.nodes@.len() as nat;
        while pos != ESCAPE_END
            invariant
                self.wf(),
                trav(self.nodes@, 0, self.nodes@.len() as nat) == Some(full),
                ({
                    let cur = trav(self.nodes@, pos, fuel);
                    cur matches Some(rest) && out@ + rest == full
                }),
            decreases fuel,
        {
            let ghost rest = trav(self.nodes@, pos, fuel)->Some_0;
            assert(pos < self.nodes@.len());
            assert(fuel > 0);
            let e = &self.nodes[pos as usize];
            match e {
                BVHElement::Leaf(_) => {
                    out.push(pos);
                    let next = e.get_esc_index();
                    proof {
                        assert(trav(self.nodes@, next, (fuel - 1) as nat) matches Some(r2)
                            && rest == seq![pos] + r2);
                        assert(out@ + trav(self.nodes@, next, (fuel - 1) as nat)->Some_0
                            =~= full);
                    }
                    pos = next;
                },
                BVHElement::Node(_) => {
                    proof {
                        assert(trav(self.nodes@, (pos + 1) as u32, (fuel - 1) as nat) == trav(
                            self.nodes@,
                            pos,
                            fuel,
                        ));
                    }
                    pos = pos + 1;
                },
            }
            proof {
                fuel = (fuel - 1) as nat;
            }
        }
        proof {
            assert(trav(self.nodes@, pos, fuel) == Some(Seq::<u32>::empty()));
            assert(out@ + Seq::<u32>::empty() =~= out@);
        }
        out
    }
}

impl AsBytes for BVH {
    open spec fn bytes_wf(&self) -> bool {
        32 * self.nodes@.len() <= usize::MAX
    }

    open spec fn bytes_spec(&self) -> Seq<u8> {
        enc_all(self.nodes@)
    }

    open spec fn bytes_size_spec(&self) -> int {
        32 * self.nodes@.len() as int
    }

    fn as_bytes(&self) -> (r: Vec<u8>) {
        encode_elements(self.nodes.as_slice())
    }

    // the total encoded length: 32 bytes per element
    fn bytes_size(&self) -> (n: usize) {
        32 * self.nodes.len()
    }
}

/// Every element of a well-formed subtree's flattening survives the byte
/// codec: internal nodes always do, and leaves carry non-negative radii.
proof fn lemma_flat_encodable(t: Tree, base: int, esc: u32)
    requires
        t.wf(),
    ensures
        forall|q: int|
            0 <= q < t.flat(base, esc).len() ==> elem_encodable(#[trigger] t.flat(base, esc)[q]),
    decreases t,
{
    lemma_flat_len(t, base, esc);
    match t {
        Tree::Leaf(l) => {
            assert(t.flat(base, esc)[0] == leaf_element(l, esc));
        },
        Tree::Node(_, l, r) => {
            let lsz = l.size() as int;
            let escl = (base + 1 + lsz) as u32;
            lemma_flat_len(*l, base + 1, escl);
            lemma_flat_len(*r, base + 1 + lsz, esc);
            lemma_flat_encodable(*l, base + 1, escl);
            lemma_flat_encodable(*r, base + 1 + lsz, esc);
            assert forall|q: int| 0 <= q < t.flat(base, esc).len() implies elem_encodable(
                #[trigger] t.flat(base, esc)[q],
            ) by {
                if q == 0 {
                } else if q < 1 + lsz {
                    assert(t.flat(base, esc)[q] == l.flat(base + 1, escl)[q - 1]);
                } else {
                    assert(t.flat(base, esc)[q] == r.flat(base + 1 + lsz, esc)[q - 1 - lsz]);
                }
            }
        },
    }
}

/// Round trip: encoding a well-formed hierarchy to bytes and decoding the
/// bytes reproduces the element array bit for bit, at 32 bytes per element.
pub proof fn lemma_hierarchy_roundtrip(bvh: BVH)
    requires
        bvh.wf(),
    ensures
        enc_all(bvh.nodes@).len() == 32 * bvh.nodes@.len(),
        dec_all(enc_all(bvh.nodes@)) == bvh.nodes@,
{
    lemma_flat_encodable(bvh.shape@, 0, ESCAPE_END);
    lemma_codec_roundtrip(bvh.nodes@);
}

/// Two raised to `k`.
pub open spec fn pow2(k: nat) -> nat
    decreases k,
{
    if k == 0 {
        1
    } else {
        2 * pow2((k - 1) as nat)
    }
}

/// A balanced median split keeps the tree logarithmically shallow: with at
/// most `2^k` primitives the depth is at most `k + 1` levels.
pub proof fn lemma_depth_bound(t: Tree, k: nat)
    requires
        t.balanced(),
        t.nleaves() <= pow2(k),
    ensures
        t.depth() <= k + 1,
    decreases t,
{
    match t {
        Tree::Leaf(_) => {},
        Tree::Node(_, l, r) => {
            lemma_tree_pos(*l);
            lemma_tree_pos(*r);
            let n = l.nleaves() + r.nleaves();
            assert(n >= 2);
            if k == 0 {
                assert(pow2(0) == 1);
                assert(false);
            }
            let k1 = (k - 1) as nat;
            assert(pow2(k) == 2 * pow2(k1));
            assert(l.nleaves() == (n + 1) / 2);
            assert(l.nleaves() <= pow2(k1));
            assert(r.nleaves() <= pow2(k1));
            lemma_depth_bound(*l, k1);
            lemma_depth_bound(*r, k1);
        },
    }
}

/// The concrete balance bound: a million primitives fit in `2^20`, so the
/// tree is at most 21 levels deep.
pub proof fn lemma_depth_million(t: Tree)
    requires
        t.balanced(),
        t.nleaves() <= 1048576,
    ensures
        t.depth() <= 21,
{
    reveal_with_fuel(pow2, 21);
    assert(pow2(20) == 1048576);
    lemma_depth_bound(t, 20);
}

/// The root box of a built hierarchy contains every primitive's bounds: it
/// is the fold of `union`, which is an upper bound of every member.
pub proof fn lemma_root_contains_primitives(objects: Seq<Leaf>, root: AABB, k: int)
    requires
        root == union_all(bounds_of(objects)),
        0 <= k < objects.len(),
    ensures
        aabb_contains(root, leaf_bounds(objects[k])),
{
    lemma_union_all_upper(bounds_of(objects), k);
}

/// The first array element of a well-formed hierarchy reports the bounds of
/// the whole shape tree.
pub proof fn lemma_root_element_bounds(bvh: BVH)
    requires
        bvh.wf(),
    ensures
        bvh.nodes@.len() >= 1,
        bvh.nodes@[0].bounds_spec() == bvh.shape@.bounds(),
{
    let t = bvh.shape@;
    lemma_flat_len(t, 0, ESCAPE_END);
    match t {
        Tree::Leaf(l) => {
            assert(bvh.nodes@[0] == leaf_element(l, ESCAPE_END));
        },
        Tree::Node(_, _, _) => {
            assert(bvh.nodes@[0] == t.flat(0, ESCAPE_END)[0]);
        },
    }
}

/// Hierarchical containment: an internal node's box is the union of its
/// children's boxes, so it contains both of them; well-formedness is
/// recursive, so the same holds at every depth.
pub proof fn lemma_node_contains_children(t: Tree)
    requires
        t.wf(),
    ensures
        t matches Tree::Node(bb, l, r) ==> {
            &&& aabb_contains(bb, l.bounds())
            &&& aabb_contains(bb, r.bounds())
            &&& l.wf()
            &&& r.wf()
        },
{
    match t {
        Tree::Leaf(_) => {},
        Tree::Node(_, l, r) => {
            lemma_union_contains(l.bounds(), r.bounds());
        },
    }
}

/// A hierarchy of one element is a single leaf whose escape index is the
/// end-of-traversal sentinel.
pub proof fn lemma_single_leaf(bvh: BVH)
    requires
        bvh.wf(),
        bvh.nodes@.len() == 1,
    ensures
        elem_is_leaf(bvh.nodes@[0]),
        elem_esc(bvh.nodes@[0]) == ESCAPE_END,
{
    let t = bvh.shape@;
    lemma_flat_len(t, 0, ESCAPE_END);
    match t {
        Tree::Leaf(l) => {
            assert(bvh.nodes@[0] == leaf_element(l, ESCAPE_END));
        },
        Tree::Node(_, l, r) => {
            lemma_tree_pos(*l);
            lemma_tree_pos(*r);
            assert(false);
        },
    }
}

/// The flattening of a subtree has exactly one element per tree node.
pub proof fn lemma_flat_len(t: Tree, base: int, esc: u32)
    ensures
        t.flat(base, esc).len() == t.size(),
    decreases t,
{
    match t {
        Tree::Leaf(_) => {},
        Tree::Node(_, l, r) => {
            lemma_flat_len(*l, base + 1, (base + 1 + l.size()) as u32);
            lemma_flat_len(*r, base + 1 + l.size() as int, esc);
        },
    }
}

/// Every subtree holds at least one element and one leaf.
pub proof fn lemma_tree_pos(t: Tree)
    ensures
        t.size() >= 1,
        t.nleaves() >= 1,
        t.size() == 2 * t.nleaves() - 1,
    decreases t,
{
    match t {
        Tree::Leaf(_) => {},
        Tree::Node(_, l, r) => {
            lemma_tree_pos(*l);
            lemma_tree_pos(*r);
        },
    }
}

/// The stackless traversal of the flattened array, always descending into
/// internal nodes: starting at `pos`, an internal node is followed by its
/// first child at `pos + 1`, a leaf is visited and then skipped via its
/// escape index, and the end-of-traversal sentinel stops the walk. Returns
/// the positions of the visited leaves, or `None` if the walk runs out of
/// fuel or leaves the array.
pub open spec fn trav(nodes: Seq<BVHElement>, pos: u32, fuel: nat) -> Option<Seq<u32>>
    decreases fuel,
{
    if pos == ESCAPE_END {
        Some(Seq::empty())
    } else if pos >= nodes.len() {
        None
    } else if fuel == 0 {
        None
    } else {
        match nodes[pos as int] {
            BVHElement::Leaf(_) => match trav(
                nodes,
                elem_esc(nodes[pos as int]),
                (fuel - 1) as nat,
            ) {
                Some(rest) => Some(seq![pos] + rest),
                None => None,
            },
            BVHElement::Node(_) => trav(nodes, (pos + 1) as u32, (fuel - 1) as nat),
        }
    }
}

/// Walking a flattened subtree visits exactly its leaves, in order, consuming
/// one unit of fuel per element, and then continues wherever the subtree's
/// escape index points.
proof fn lemma_trav_subtree(t: Tree, nodes: Seq<BVHElement>, base: int, esc: u32, fuel: nat)
    requires
        0 <= base,
        base + t.size() <= nodes.len(),
        nodes.len() <= 0x7FFF_FFFF,
        nodes.subrange(base, base + t.size() as int) == t.flat(base, esc),
        fuel >= t.size(),
    ensures
        trav(nodes, base as u32, fuel) == (match trav(nodes, esc, (fuel - t.size()) as nat) {
            Some(rest) => Some(t.leaf_positions(base) + rest),
            None => None::<Seq<u32>>,
        }),
    decreases t,
{
    lemma_tree_pos(t);
    match t {
        Tree::Leaf(l) => {
            assert(nodes[base] == t.flat(base, esc)[0]);
            assert(nodes[base] == leaf_element(l, esc));
            assert(elem_esc(nodes[base]) == esc);
            assert(base as u32 as int == base);
            assert(t.leaf_positions(base) == seq![base as u32]);
        },
        Tree::Node(_, l, r) => {
            lemma_tree_pos(*l);
            lemma_tree_pos(*r);
            let lsz = l.size() as int;
            let rsz = r.size() as int;
            let escl = (base + 1 + lsz) as u32;
            lemma_flat_len(*l, base + 1, escl);
            lemma_flat_len(*r, base + 1 + lsz, esc);
            assert(nodes[base] == t.flat(base, esc)[0]);
            assert(nodes[base] is Node);
            assert forall|p: int| 0 <= p < lsz implies nodes[base + 1 + p] == #[trigger] l.flat(
                base + 1,
                escl,
            )[p] by {
                assert(nodes[base + 1 + p] == t.flat(base, esc)[1 + p]);
            }
            assert(nodes.subrange(base + 1, base + 1 + lsz) =~= l.flat(base + 1, escl));
            assert forall|p: int| 0 <= p < rsz implies nodes[base + 1 + lsz + p] == #[trigger] r
                .flat(base + 1 + lsz, esc)[p] by {
                assert(nodes[base + 1 + lsz + p] == t.flat(base, esc)[1 + lsz + p]);
            }
            assert(nodes.subrange(base + 1 + lsz, base + 1 + lsz + rsz) =~= r.flat(
                base + 1 + lsz,
                esc,
            ));
            lemma_trav_subtree(*l, nodes, base + 1, escl, (fuel - 1) as nat);
            lemma_trav_subtree(*r, nodes, base + 1 + lsz, esc, (fuel - 1 - lsz) as nat);
            assert(base as u32 != ESCAPE_END);
            assert((base as u32 + 1) as u32 == (base + 1) as u32);
            assert(trav(nodes, base as u32, fuel) == trav(nodes, (base + 1) as u32, (fuel - 1) as nat));
            assert(escl as int == base + 1 + lsz);
            let tail = trav(nodes, esc, (fuel - t.size()) as nat);
            assert((fuel - 1 - lsz - rsz) as nat == (fuel - t.size()) as nat);
            match tail {
                Some(rest) => {
                    assert(trav(nodes, escl, (fuel - 1 - lsz) as nat) == Some(
                        r.leaf_positions(base + 1 + lsz) + rest,
                    ));
                    assert(trav(nodes, (base + 1) as u32, (fuel - 1) as nat) == Some(
                        l.leaf_positions(base + 1) + (r.leaf_positions(base + 1 + lsz) + rest),
                    ));
                    assert(l.leaf_positions(base + 1) + (r.leaf_positions(base + 1 + lsz) + rest)
                        =~= t.leaf_positions(base) + rest);
                },
                None => {
                    assert(trav(nodes, escl, (fuel - 1 - lsz) as nat) is None);
                    assert(trav(nodes, (base + 1) as u32, (fuel - 1) as nat) is None);
                },
            }
        },
    }
}

/// The leaf positions of a subtree starting at `base`: as many as there are
/// leaves, strictly increasing, inside the subtree's range, and marking
/// exactly the positions whose flattened element is a leaf.
proof fn lemma_leaf_positions(t: Tree, base: int, esc: u32)
    requires
        0 <= base,
        base + t.size() <= 0x7FFF_FFFF,
    ensures
        t.leaf_positions(base).len() == t.nleaves(),
        forall|k: int|
            0 <= k < t.leaf_positions(base).len() ==> base <= #[trigger] t.leaf_positions(base)[k]
                < base + t.size(),
        forall|k1: int, k2: int|
            0 <= k1 < k2 < t.leaf_positions(base).len() ==> #[trigger] t.leaf_positions(base)[k1]
                < #[trigger] t.leaf_positions(base)[k2],
        forall|q: int|
            0 <= q < t.size() ==> (elem_is_leaf(#[trigger] t.flat(base, esc)[q]) <==> t
                .leaf_positions(base).contains((base + q) as u32)),
    decreases t,
{
    lemma_tree_pos(t);
    lemma_flat_len(t, base, esc);
    match t {
        Tree::Leaf(_) => {
            assert(t.leaf_positions(base) == seq![base as u32]);
            assert(t.leaf_positions(base)[0] == base as u32);
            assert forall|q: int|
                0 <= q < t.size() implies (elem_is_leaf(#[trigger] t.flat(base, esc)[q]) <==> t
                .leaf_positions(base).contains((base + q) as u32)) by {
                assert(q == 0);
                assert(t.leaf_positions(base).contains(base as u32));
            }
        },
        Tree::Node(_, l, r) => {
            lemma_tree_pos(*l);
            lemma_tree_pos(*r);
            let lsz = l.size() as int;
            let rsz = r.size() as int;
            let escl = (base + 1 + lsz) as u32;
            lemma_flat_len(*l, base + 1, escl);
            lemma_flat_len(*r, base + 1 + lsz, esc);
            lemma_leaf_positions(*l, base + 1, escl);
            lemma_leaf_positions(*r, base + 1 + lsz, esc);
            let lp = t.leaf_positions(base);
            let lpl = l.leaf_positions(base + 1);
            let lpr = r.leaf_positions(base + 1 + lsz);
            assert(lp == lpl + lpr);
            assert forall|q: int|
                0 <= q < t.size() implies (elem_is_leaf(#[trigger] t.flat(base, esc)[q]) <==> lp
                .contains((base + q) as u32)) by {
                let p = base + q;
                if q == 0 {
                    assert(!elem_is_leaf(t.flat(base, esc)[0]));
                    if lp.contains(p as u32) {
                        let k = choose|k: int| 0 <= k < lp.len() && lp[k] == p as u32;
                        if k < lpl.len() {
                            assert(lpl[k] == p as u32);
                            assert(base + 1 <= lpl[k]);
                        } else {
                            assert(lpr[k - lpl.len()] == p as u32);
                            assert(base + 1 + lsz <= lpr[k - lpl.len()]);
                        }
                    }
                } else if q < 1 + lsz {
                    assert(t.flat(base, esc)[q] == l.flat(base + 1, escl)[q - 1]);
                    assert(elem_is_leaf(l.flat(base + 1, escl)[q - 1]) <==> lpl.contains(
                        ((base + 1) + (q - 1)) as u32,
                    ));
                    assert(((base + 1) + (q - 1)) as u32 == p as u32);
                    if lpl.contains(p as u32) {
                        let k = choose|k: int| 0 <= k < lpl.len() && lpl[k] == p as u32;
                        assert(lp[k] == p as u32);
                        assert(lp.contains(p as u32));
                    }
                    if lp.contains(p as u32) {
                        let k = choose|k: int| 0 <= k < lp.len() && lp[k] == p as u32;
                        if k >= lpl.len() {
                            assert(lpr[k - lpl.len()] == p as u32);
                            assert(base + 1 + lsz <= lpr[k - lpl.len()]);
                        } else {
                            assert(lpl[k] == p as u32);
                            assert(lpl.contains(p as u32));
                        }
                    }
                } else {
                    assert(t.flat(base, esc)[q] == r.flat(base + 1 + lsz, esc)[q - 1 - lsz]);
                    assert(elem_is_leaf(r.flat(base + 1 + lsz, esc)[q - 1 - lsz]) <==> lpr
                        .contains(((base + 1 + lsz) + (q - 1 - lsz)) as u32));
                    assert(((base + 1 + lsz) + (q - 1 - lsz)) as u32 == p as u32);
                    if lpr.contains(p as u32) {
                        let k = choose|k: int| 0 <= k < lpr.len() && lpr[k] == p as u32;
                        assert(lp[lpl.len() + k] == p as u32);
                        assert(lp.contains(p as u32));
                    }
                    if lp.contains(p as u32) {
                        let k = choose|k: int| 0 <= k < lp.len() && lp[k] == p as u32;
                        if k < lpl.len() {
                            assert(lpl[k] == p as u32);
                            assert(lpl[k] < base + 1 + lsz);
                        } else {
                            assert(lpr[k - lpl.len()] == p as u32);
                            assert(lpr.contains(p as u32));
                        }
                    }
                }
            }
        },
    }
}

/// Walking the whole array with the stackless traversal terminates at the
/// sentinel and visits every leaf exactly once: the visited positions are
/// strictly increasing and are exactly the positions holding leaf elements,
/// one per primitive.
pub proof fn lemma_stackless_traversal(bvh: BVH)
    requires
        bvh.wf(),
    ensures
        ({
            let r = trav(bvh.nodes@, 0, bvh.nodes@.len() as nat);
            r matches Some(s) && {
                &&& s.len() == bvh.shape@.nleaves()
                &&& (forall|k1: int, k2: int|
                    0 <= k1 < k2 < s.len() ==> #[trigger] s[k1] < #[trigger] s[k2])
                &&& (forall|p: int|
                    0 <= p < bvh.nodes@.len() ==> (elem_is_leaf(#[trigger] bvh.nodes@[p]) <==> s
                        .contains(p as u32)))
            }
        }),
{
    let t = bvh.shape@;
    let nodes = bvh.nodes@;
    lemma_flat_len(t, 0, ESCAPE_END);
    lemma_tree_pos(t);
    assert(nodes.subrange(0, t.size() as int) =~= nodes);
    lemma_trav_subtree(t, nodes, 0, ESCAPE_END, t.size());
    assert(trav(nodes, ESCAPE_END, (t.size() - t.size()) as nat) == Some(Seq::<u32>::empty()));
    lemma_leaf_positions(t, 0, ESCAPE_END);
    assert(t.leaf_positions(0) + Seq::<u32>::empty() =~= t.leaf_positions(0));
    assert(trav(nodes, 0, t.size()) == Some(t.leaf_positions(0)));
    let s = t.leaf_positions(0);
    assert forall|p: int| 0 <= p < nodes.len() implies (elem_is_leaf(#[trigger] nodes[p]) <==> s
        .contains(p as u32)) by {
        assert(nodes[p] == t.flat(0, ESCAPE_END)[p]);
        assert(elem_is_leaf(t.flat(0, ESCAPE_END)[p]) <==> s.contains((0 + p) as u32));
        assert((0 + p) as u32 == p as u32);
    }
}

} // verus!
