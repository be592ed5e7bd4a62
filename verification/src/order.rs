//! Total orders on plain tuples, and a merge sort that is proved against them.

use vstd::prelude::*;
use vstd::relations::{sorted_by, total_ordering};
use vstd::seq_lib::*;

verus! {

/// A type whose values are totally ordered by `ord_le`.
pub trait TotalOrder: Sized {
    /// The order itself: `self` comes no later than `other`.
    spec fn ord_le(self, other: Self) -> bool;

    proof fn ord_total(a: Self, b: Self)
        ensures
            a.ord_le(b) || b.ord_le(a),
    ;

    proof fn ord_transitive(a: Self, b: Self, c: Self)
        requires
            a.ord_le(b),
            b.ord_le(c),
        ensures
            a.ord_le(c),
    ;

    proof fn ord_antisymmetric(a: Self, b: Self)
        requires
            a.ord_le(b),
            b.ord_le(a),
        ensures
            a == b,
    ;

    /// Decides the order at run time.
    fn no_later(&self, other: &Self) -> (r: bool)
        ensures
            r == self.ord_le(*other),
    ;
}

/// Edges in lexicographic order: by source, then by destination.
impl TotalOrder for (u32, u32) {
    open spec fn ord_le(self, other: Self) -> bool {
        self.0 < other.0 || (self.0 == other.0 && self.1 <= other.1)
    }

    proof fn ord_total(a: Self, b: Self) {
    }

    proof fn ord_transitive(a: Self, b: Self, c: Self) {
    }

    proof fn ord_antisymmetric(a: Self, b: Self) {
    }

    fn no_later(&self, other: &Self) -> (r: bool) {
        self.0 < other.0 || (self.0 == other.0 && self.1 <= other.1)
    }
}

/// `(weight, id)` pairs in lexicographic order: by weight, then by id.
impl TotalOrder for (u128, u32) {
    open spec fn ord_le(self, other: Self) -> bool {
        self.0 < other.0 || (self.0 == other.0 && self.1 <= other.1)
    }

    proof fn ord_total(a: Self, b: Self) {
    }

    proof fn ord_transitive(a: Self, b: Self, c: Self) {
    }

    proof fn ord_antisymmetric(a: Self, b: Self) {
    }

    fn no_later(&self, other: &Self) -> (r: bool) {
        self.0 < other.0 || (self.0 == other.0 && self.1 <= other.1)
    }
}

/// Every element comes no later than each element after it.
pub open spec fn ascending<T: TotalOrder + Copy>(s: Seq<T>) -> bool {
    forall|i: int, j: int| 0 <= i <= j < s.len() ==> (#[trigger] s[i]).ord_le(#[trigger] s[j])
}

/// Merges two ascending vectors into one.
fn merge<T: TotalOrder + Copy>(a: &Vec<T>, b: &Vec<T>) -> (out: Vec<T>)
    requires
        ascending(a@),
        ascending(b@),
    ensures
        ascending(out@),
        out@.to_multiset() == a@.to_multiset().add(b@.to_multiset()),
{
    let mut out: Vec<T> = Vec::new();
    let mut i: usize = 0;
    let mut j: usize = 0;
    proof {
        assert(a@.take(0) =~= Seq::<T>::empty());
        assert(b@.take(0) =~= Seq::<T>::empty());
        broadcast use group_to_multiset_ensures;
        assert(out@.to_multiset() =~= a@.take(0).to_multiset().add(b@.take(0).to_multiset()));
    }
    while i < a.len() || j < b.len()
        invariant
            i <= a.len(),
            j <= b.len(),
            ascending(a@),
            ascending(b@),
            ascending(out@),
            out@.to_multiset() == a@.take(i as int).to_multiset().add(
                b@.take(j as int).to_multiset(),
            ),
            forall|k: int| 0 <= k < out.len() && i < a.len() ==> (#[trigger] out[k]).ord_le(a[i as int]),
            forall|k: int| 0 <= k < out.len() && j < b.len() ==> (#[trigger] out[k]).ord_le(b[j as int]),
        decreases a.len() - i + b.len() - j,
    {
        let left = if i == a.len() {
            false
        } else if j == b.len() {
            true
        } else {
            a[i].no_later(&b[j])
        };
        let ghost prev = out@;
        if left {
            let x = a[i];
            out.push(x);
            proof {
                assert(a@.take(i + 1) =~= a@.take(i as int).push(x));
                broadcast use group_to_multiset_ensures;
                assert(out@.to_multiset() =~= a@.take(i + 1).to_multiset().add(
                    b@.take(j as int).to_multiset(),
                ));
                T::ord_total(x, x);
                assert forall|p: int, q: int| 0 <= p <= q < out.len() implies (#[trigger] out[p]).ord_le(
                    #[trigger] out[q],
                ) by {
                    if q < prev.len() {
                        assert(prev[p].ord_le(prev[q]));
                    } else if p < prev.len() {
                        assert(prev[p].ord_le(a[i as int]));
                    }
                }
                assert forall|k: int| 0 <= k < out.len() && i + 1 < a.len() implies (#[trigger] out[k]).ord_le(
                    a[i + 1],
                ) by {
                    assert(a@[i as int].ord_le(a@[i + 1]));
                    if k < prev.len() {
                        assert(prev[k].ord_le(a[i as int]));
                        T::ord_transitive(out[k], x, a[i + 1]);
                    }
                }
                assert forall|k: int| 0 <= k < out.len() && j < b.len() implies (#[trigger] out[k]).ord_le(
                    b[j as int],
                ) by {
                    if k < prev.len() {
                        assert(prev[k].ord_le(b[j as int]));
                    }
                }
            }
            i += 1;
        } else {
            let y = b[j];
            out.push(y);
            proof {
                assert(b@.take(j + 1) =~= b@.take(j as int).push(y));
                broadcast use group_to_multiset_ensures;
                assert(out@.to_multiset() =~= a@.take(i as int).to_multiset().add(
                    b@.take(j + 1).to_multiset(),
                ));
                T::ord_total(y, y);
                if i < a.len() {
                    T::ord_total(a[i as int], y);
                }
                assert forall|p: int, q: int| 0 <= p <= q < out.len() implies (#[trigger] out[p]).ord_le(
                    #[trigger] out[q],
                ) by {
                    if q < prev.len() {
                        assert(prev[p].ord_le(prev[q]));
                    } else if p < prev.len() {
                        assert(prev[p].ord_le(b[j as int]));
                    }
                }
                assert forall|k: int| 0 <= k < out.len() && j + 1 < b.len() implies (#[trigger] out[k]).ord_le(
                    b[j + 1],
                ) by {
                    assert(b@[j as int].ord_le(b@[j + 1]));
                    if k < prev.len() {
                        assert(prev[k].ord_le(b[j as int]));
                        T::ord_transitive(out[k], y, b[j + 1]);
                    }
                }
                assert forall|k: int| 0 <= k < out.len() && i < a.len() implies (#[trigger] out[k]).ord_le(
                    a[i as int],
                ) by {
                    if k < prev.len() {
                        assert(prev[k].ord_le(a[i as int]));
                    }
                }
            }
            j += 1;
        }
    }
    proof {
        assert(a@.take(i as int) =~= a@);
        assert(b@.take(j as int) =~= b@);
    }
    out
}

/// Sorts `v[lo..hi]` into a fresh vector.
fn sort_range<T: TotalOrder + Copy>(v: &Vec<T>, lo: usize, hi: usize) -> (out: Vec<T>)
    requires
        lo <= hi <= v.len(),
    ensures
        ascending(out@),
        out@.to_multiset() == v@.subrange(lo as int, hi as int).to_multiset(),
    decreases hi - lo,
{
    if hi - lo <= 1 {
        let mut out: Vec<T> = Vec::new();
        if hi - lo == 1 {
            out.push(v[lo]);
        }
        proof {
            assert(out@ =~= v@.subrange(lo as int, hi as int));
            if out.len() == 1 {
                T::ord_total(out[0], out[0]);
            }
        }
        out
    } else {
        let mid = lo + (hi - lo) / 2;
        let left = sort_range(v, lo, mid);
        let right = sort_range(v, mid, hi);
        proof {
            let l = v@.subrange(lo as int, mid as int);
            let r = v@.subrange(mid as int, hi as int);
            assert(v@.subrange(lo as int, hi as int) =~= l + r);
            lemma_multiset_commutative(l, r);
        }
        merge(&left, &right)
    }
}

/// Two ascending sequences that hold the same elements equally often are
/// equal: there is only one way to sort.
pub proof fn lemma_ascending_unique<T: TotalOrder + Copy>(a: Seq<T>, b: Seq<T>)
    requires
        ascending(a),
        ascending(b),
        a.to_multiset() == b.to_multiset(),
    ensures
        a == b,
{
    let leq = |x: T, y: T| x.ord_le(y);
    assert(total_ordering(leq)) by {
        assert forall|x: T| #[trigger] leq(x, x) by {
            T::ord_total(x, x);
        }
        assert forall|x: T, y: T| #[trigger] leq(x, y) && #[trigger] leq(y, x) implies x == y by {
            T::ord_antisymmetric(x, y);
        }
        assert forall|x: T, y: T, z: T| #[trigger] leq(x, y) && #[trigger] leq(y, z) implies leq(
            x,
            z,
        ) by {
            T::ord_transitive(x, y, z);
        }
        assert forall|x: T, y: T| #[trigger] leq(x, y) || #[trigger] leq(y, x) by {
            T::ord_total(x, y);
        }
    }
    assert(sorted_by(a, leq)) by {
        assert forall|i: int, j: int| 0 <= i < j < a.len() implies #[trigger] leq(a[i], a[j]) by {
            assert(a[i].ord_le(a[j]));
        }
    }
    assert(sorted_by(b, leq)) by {
        assert forall|i: int, j: int| 0 <= i < j < b.len() implies #[trigger] leq(b[i], b[j]) by {
            assert(b[i].ord_le(b[j]));
        }
    }
    lemma_sorted_unique(a, b, leq);
}

/// Sorts `v` in ascending order.
///
/// The result holds exactly the elements of the input, each as often as
/// before. By [`lemma_ascending_unique`] there is only one such sequence.
pub fn sort<T: TotalOrder + Copy>(v: &mut Vec<T>)
    ensures
        ascending(final(v)@),
        final(v)@.to_multiset() == old(v)@.to_multiset(),
{
    let out = sort_range(v, 0, v.len());
    proof {
        assert(v@.subrange(0, v.len() as int) =~= v@);
    }
    *v = out;
}

} // verus!
