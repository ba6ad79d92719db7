//! A verified stable merge sort over `(key, index)` pairs, used by the
//! hierarchy builder to order primitives by centroid coordinate along the
//! dominant axis, with ties resolved by original primitive index.

use vstd::prelude::*;
use vstd::multiset::Multiset;
use vstd::relations::{sorted_by, total_ordering};
use vstd::seq_lib::{group_to_multiset_ensures, lemma_multiset_commutative, lemma_sorted_unique};

verus! {

/// Lexicographic order on `(key, original index)` pairs: a total order, so
/// the sorted permutation of any pair sequence is unique, and with distinct
/// indices there are no genuine ties at all.
pub open spec fn pair_le(a: (i64, usize), b: (i64, usize)) -> bool {
    a.0 < b.0 || (a.0 == b.0 && a.1 <= b.1)
}

/// `pair_le` as a first-class relation.
pub open spec fn pair_order() -> spec_fn((i64, usize), (i64, usize)) -> bool {
    |a: (i64, usize), b: (i64, usize)| pair_le(a, b)
}

/// The sequence is ordered by `pair_le`.
pub open spec fn pairs_sorted(s: Seq<(i64, usize)>) -> bool {
    forall|i: int, j: int| 0 <= i < j < s.len() ==> #[trigger] pair_le(s[i], s[j])
}

/// `pair_le` is a total ordering.
pub proof fn lemma_pair_order_total()
    ensures
        total_ordering(pair_order()),
{
    let r = pair_order();
    assert forall|a: (i64, usize)| #[trigger] r(a, a) by {
        assert(pair_le(a, a));
    }
    assert forall|a: (i64, usize), b: (i64, usize)| #[trigger] r(a, b) && #[trigger] r(b, a)
        implies a == b by {
        assert(pair_le(a, b) && pair_le(b, a));
    }
    assert forall|a: (i64, usize), b: (i64, usize), c: (i64, usize)|
        #[trigger] r(a, b) && #[trigger] r(b, c) implies r(a, c) by {
        assert(pair_le(a, b) && pair_le(b, c));
        assert(pair_le(a, c));
    }
    assert forall|a: (i64, usize), b: (i64, usize)| #[trigger] r(a, b) || #[trigger] r(b, a) by {
        assert(pair_le(a, b) || pair_le(b, a));
    }
}

fn pair_le_exec(a: (i64, usize), b: (i64, usize)) -> (r: bool)
    ensures
        r == pair_le(a, b),
{
    a.0 < b.0 || (a.0 == b.0 && a.1 <= b.1)
}

/// Stable merge sort. The result is the unique permutation of the input that
/// is sorted by `pair_le`, which is to say the specification-level sort.
pub fn sort_pairs(v: Vec<(i64, usize)>) -> (r: Vec<(i64, usize)>)
    ensures
        r@.to_multiset() == v@.to_multiset(),
        pairs_sorted(r@),
        r@.len() == v@.len(),
        r@ == v@.sort_by(pair_order()),
    decreases v@.len(),
{
    proof {
        broadcast use group_to_multiset_ensures;
    }
    if v.len() <= 1 {
        proof {
            lemma_result_is_sort_by(v@, v@);
        }
        return v;
    }
    let mid = v.len() / 2;
    let mut left: Vec<(i64, usize)> = Vec::new();
    let mut right: Vec<(i64, usize)> = Vec::new();
    let mut k: usize = 0;
    while k < mid
        invariant
            k <= mid <= v@.len(),
            left@ == v@.take(k as int),
        decreases mid - k,
    {
        left.push(v[k]);
        proof {
            assert(left@ =~= v@.take(k + 1));
        }
        k = k + 1;
    }
    while k < v.len()
        invariant
            mid <= k <= v@.len(),
            right@ == v@.subrange(mid as int, k as int),
        decreases v@.len() - k,
    {
        right.push(v[k]);
        proof {
            assert(right@ =~= v@.subrange(mid as int, k + 1));
        }
        k = k + 1;
    }
    proof {
        assert(v@ =~= left@ + right@);
        lemma_multiset_commutative(left@, right@);
    }
    let ls = sort_pairs(left);
    let rs = sort_pairs(right);
    let m = merge_pairs(ls, rs);
    proof {
        lemma_result_is_sort_by(m@, v@);
    }
    m
}

/// A sorted permutation of `v` is the sorted version of `v`: sorted
/// permutations under a total order are unique.
proof fn lemma_result_is_sort_by(r: Seq<(i64, usize)>, v: Seq<(i64, usize)>)
    requires
        pairs_sorted(r),
        r.to_multiset() == v.to_multiset(),
    ensures
        r == v.sort_by(pair_order()),
{
    lemma_pair_order_total();
    v.lemma_sort_by_ensures(pair_order());
    assert(sorted_by(r, pair_order())) by {
        assert forall|i: int, j: int| 0 <= i < j < r.len() implies #[trigger] pair_order()(
            r[i],
            r[j],
        ) by {
            assert(pair_le(r[i], r[j]));
        }
    }
    assert(r.to_multiset() == v.sort_by(pair_order()).to_multiset());
    lemma_sorted_unique(r, v.sort_by(pair_order()), pair_order());
}

/// Merge two sorted runs into one sorted run with the combined contents.
fn merge_pairs(a: Vec<(i64, usize)>, b: Vec<(i64, usize)>) -> (r: Vec<(i64, usize)>)
    requires
        pairs_sorted(a@),
        pairs_sorted(b@),
    ensures
        r@.to_multiset() == a@.to_multiset().add(b@.to_multiset()),
        pairs_sorted(r@),
        r@.len() == a@.len() + b@.len(),
{
    proof {
        broadcast use group_to_multiset_ensures;

        assert(a@.skip(0) =~= a@);
        assert(b@.skip(0) =~= b@);
    }
    let mut out: Vec<(i64, usize)> = Vec::new();
    let mut i: usize = 0;
    let mut j: usize = 0;
    while i < a.len() || j < b.len()
        invariant
            i <= a@.len(),
            j <= b@.len(),
            out@.len() == i + j,
            pairs_sorted(out@),
            out@.to_multiset().add(a@.skip(i as int).to_multiset()).add(
                b@.skip(j as int).to_multiset(),
            ) == a@.to_multiset().add(b@.to_multiset()),
            forall|p: int, q: int|
                0 <= p < out@.len() && i <= q < a@.len() ==> #[trigger] pair_le(out@[p], a@[q]),
            forall|p: int, q: int|
                0 <= p < out@.len() && j <= q < b@.len() ==> #[trigger] pair_le(out@[p], b@[q]),
            pairs_sorted(a@),
            pairs_sorted(b@),
        decreases a@.len() - i + b@.len() - j,
    {
        proof {
            broadcast use group_to_multiset_ensures;
        }
        let take_a = if i < a.len() && j < b.len() {
            pair_le_exec(a[i], b[j])
        } else {
            i < a.len()
        };
        if take_a {
            let x = a[i];
            proof {
                assert(a@.skip(i as int)[0] == x);
                assert(a@.skip(i as int).remove(0) =~= a@.skip(i + 1));
                assert(a@.skip(i + 1).to_multiset() == a@.skip(i as int).to_multiset().remove(x));
                assert(a@.skip(i as int).to_multiset().contains(x));
                assert(out@.push(x).to_multiset().add(a@.skip(i + 1).to_multiset()).add(
                    b@.skip(j as int).to_multiset(),
                ) =~= out@.to_multiset().add(a@.skip(i as int).to_multiset()).add(
                    b@.skip(j as int).to_multiset(),
                ));
                // everything still to the right of x in either run is at least x
                assert forall|q: int| i + 1 <= q < a@.len() implies #[trigger] pair_le(
                    x,
                    a@[q],
                ) by {
                    assert(pair_le(a@[i as int], a@[q]));
                }
                if j < b@.len() {
                    assert(pair_le(x, b@[j as int]));
                    assert forall|q: int| j <= q < b@.len() implies #[trigger] pair_le(
                        x,
                        b@[q],
                    ) by {
                        if q > j {
                            assert(pair_le(b@[j as int], b@[q]));
                        }
                    }
                }
            }
            out.push(x);
            i = i + 1;
        } else {
            let x = b[j];
            proof {
                assert(j < b@.len());
                assert(b@.skip(j as int)[0] == x);
                assert(b@.skip(j as int).remove(0) =~= b@.skip(j + 1));
                assert(b@.skip(j + 1).to_multiset() == b@.skip(j as int).to_multiset().remove(x));
                assert(b@.skip(j as int).to_multiset().contains(x));
                assert(out@.push(x).to_multiset().add(a@.skip(i as int).to_multiset()).add(
                    b@.skip(j + 1).to_multiset(),
                ) =~= out@.to_multiset().add(a@.skip(i as int).to_multiset()).add(
                    b@.skip(j as int).to_multiset(),
                ));
                assert forall|q: int| j + 1 <= q < b@.len() implies #[trigger] pair_le(
                    x,
                    b@[q],
                ) by {
                    assert(pair_le(b@[j as int], b@[q]));
                }
                if i < a@.len() {
                    // `take_a` was false, so x comes no later than a[i] in the order
                    assert(pair_le(x, a@[i as int]));
                    assert forall|q: int| i <= q < a@.len() implies #[trigger] pair_le(
                        x,
                        a@[q],
                    ) by {
                        if q > i {
                            assert(pair_le(a@[i as int], a@[q]));
                        }
                    }
                }
            }
            out.push(x);
            j = j + 1;
        }
    }
    proof {
        assert(a@.skip(a@.len() as int) =~= Seq::<(i64, usize)>::empty());
        assert(b@.skip(b@.len() as int) =~= Seq::<(i64, usize)>::empty());
        assert(Seq::<(i64, usize)>::empty().to_multiset().len() == 0);
        assert(Seq::<(i64, usize)>::empty().to_multiset() =~= Multiset::<(i64, usize)>::empty());
        assert(out@.to_multiset().add(Multiset::<(i64, usize)>::empty()).add(
            Multiset::<(i64, usize)>::empty(),
        ) =~= out@.to_multiset());
    }
    out
}

/// Multiset-equal sequences stay multiset-equal after mapping each element
/// through the same function.
pub proof fn lemma_map_values_multiset<A, B>(a: Seq<A>, b: Seq<A>, f: spec_fn(A) -> B)
    requires
        a.to_multiset() == b.to_multiset(),
    ensures
        a.map_values(f).to_multiset() == b.map_values(f).to_multiset(),
    decreases a.len(),
{
    broadcast use group_to_multiset_ensures;

    if a.len() == 0 {
        assert(a.to_multiset().len() == a.len());
        assert(b.to_multiset().len() == b.len());
        assert(b.len() == 0);
        assert(a.map_values(f) =~= Seq::<B>::empty());
        assert(b.map_values(f) =~= Seq::<B>::empty());
    } else {
        let x = a[0];
        assert(a.to_multiset().contains(x));
        assert(b.to_multiset().contains(x));
        assert(b.contains(x));
        let k = choose|k: int| 0 <= k < b.len() && b[k] == x;
        let a1 = a.remove(0);
        let b1 = b.remove(k);
        assert(a1.to_multiset() == a.to_multiset().remove(x));
        assert(b1.to_multiset() == b.to_multiset().remove(x));
        lemma_map_values_multiset(a1, b1, f);
        assert(a1.map_values(f) =~= a.map_values(f).remove(0));
        assert(b1.map_values(f) =~= b.map_values(f).remove(k));
        assert(a.map_values(f).remove(0).to_multiset() == a.map_values(f).to_multiset().remove(
            f(x),
        ));
        assert(b.map_values(f)[k] == f(x));
        assert(b.map_values(f).remove(k).to_multiset() == b.map_values(f).to_multiset().remove(
            f(x),
        ));
        assert(a.map_values(f)[0] == f(x));
        assert(a.map_values(f).to_multiset().contains(f(x)));
        assert(b.map_values(f).to_multiset().contains(f(x)));
        assert(a.map_values(f).to_multiset() =~= b.map_values(f).to_multiset()) by {
            let ma = a.map_values(f).to_multiset();
            let mb = b.map_values(f).to_multiset();
            assert(ma.remove(f(x)) == mb.remove(f(x)));
            assert forall|y: B| true implies ma.count(y) == mb.count(y) by {
                if y == f(x) {
                    assert(ma.remove(f(x)).count(y) + 1 == ma.count(y));
                    assert(mb.remove(f(x)).count(y) + 1 == mb.count(y));
                } else {
                    assert(ma.remove(f(x)).count(y) == ma.count(y));
                    assert(mb.remove(f(x)).count(y) == mb.count(y));
                }
            }
        }
    }
}

} // verus!
