//! The in-place transforms of the edge buffer that keep the node ids.

use vstd::prelude::*;
use vstd::seq_lib::*;
use crate::edges::{Edge, canonical, edge_le, flipped, is_loop, sorted};
use crate::order::{ascending, lemma_ascending_unique, TotalOrder};

verus! {

/// Sorts the buffer in ascending order by `(source, destination)`.
///
/// The result holds the same edges, each as often as before. By
/// [`lemma_sorted_is_unique`] there is only one such buffer.
pub fn sort(graph: &mut Vec<Edge>)
    ensures
        sorted(final(graph)@),
        final(graph)@.to_multiset() == old(graph)@.to_multiset(),
{
    crate::order::sort(graph);
    proof {
        assert forall|i: int, j: int| 0 <= i <= j < graph@.len() implies edge_le(
            graph@[i],
            graph@[j],
        ) by {
            assert(ascending(graph@));
        }
    }
}

/// Two sorted buffers that hold the same edges equally often are equal: the
/// contract of [`sort`] leaves one result only.
pub proof fn lemma_sorted_is_unique(a: Seq<Edge>, b: Seq<Edge>)
    requires
        sorted(a),
        sorted(b),
        a.to_multiset() == b.to_multiset(),
    ensures
        a == b,
{
    assert(ascending(a)) by {
        assert forall|i: int, j: int| 0 <= i <= j < a.len() implies (#[trigger] a[i]).ord_le(
            #[trigger] a[j],
        ) by {
            assert(edge_le(a[i], a[j]));
        }
    }
    assert(ascending(b)) by {
        assert forall|i: int, j: int| 0 <= i <= j < b.len() implies (#[trigger] b[i]).ord_le(
            #[trigger] b[j],
        ) by {
            assert(edge_le(b[i], b[j]));
        }
    }
    lemma_ascending_unique(a, b);
}

/// The buffer with every edge that repeats its predecessor left out.
pub open spec fn deduped(g: Seq<Edge>) -> Seq<Edge>
    decreases g.len(),
{
    if g.len() == 0 {
        g
    } else if g.len() >= 2 && g[g.len() - 2] == g.last() {
        deduped(g.drop_last())
    } else {
        deduped(g.drop_last()).push(g.last())
    }
}

/// The last edge to survive is the last edge of the buffer.
proof fn lemma_deduped_last(g: Seq<Edge>)
    ensures
        deduped(g).len() <= g.len(),
        g.len() > 0 ==> deduped(g).len() > 0 && deduped(g).last() == g.last(),
    decreases g.len(),
{
    if g.len() > 0 {
        lemma_deduped_last(g.drop_last());
    }
}

/// Removes every edge that equals the edge just before it, so that each run
/// of equal adjacent edges shrinks to its first edge.
pub fn dedup(graph: &mut Vec<Edge>)
    ensures
        final(graph)@ == deduped(old(graph)@),
{
    let ghost g = graph@;
    let n = graph.len();
    let mut kept: usize = 0;
    let mut next: usize = 0;
    proof {
        assert(g.take(0) =~= Seq::<Edge>::empty());
        assert(graph@.take(0) =~= Seq::<Edge>::empty());
    }
    while next < n
        invariant
            n == g.len(),
            graph@.len() == n,
            kept <= next <= n,
            graph@.take(kept as int) == deduped(g.take(next as int)),
            forall|j: int| next <= j < n ==> graph@[j] == g[j],
        decreases n - next,
    {
        let e = graph[next];
        let ghost prefix = g.take(next as int);
        proof {
            lemma_deduped_last(prefix);
            assert(g.take(next + 1).drop_last() =~= prefix);
            assert(g.take(next + 1).last() == e);
            if next > 0 {
                assert(graph@.take(kept as int).last() == graph@[kept - 1]);
                assert(prefix.last() == g[next - 1]);
                assert(g.take(next + 1)[next - 1] == g[next - 1]);
            }
        }
        let repeat = kept > 0 && graph[kept - 1].0 == e.0 && graph[kept - 1].1 == e.1;
        if !repeat {
            let ghost before = graph@;
            graph[kept] = e;
            proof {
                assert(graph@.take(kept + 1) =~= before.take(kept as int).push(e));
            }
            kept += 1;
        }
        next += 1;
    }
    graph.truncate(kept);
    proof {
        assert(g.take(n as int) =~= g);
    }
}

/// After `dedup` no edge equals the edge just before it, whatever the buffer.
pub proof fn lemma_dedup_leaves_no_repeats(g: Seq<Edge>)
    ensures
        forall|i: int|
            0 <= i < deduped(g).len() - 1 ==> (#[trigger] deduped(g)[i]) != deduped(g)[i + 1],
    decreases g.len(),
{
    if g.len() > 0 {
        lemma_dedup_leaves_no_repeats(g.drop_last());
        lemma_deduped_last(g.drop_last());
    }
}

/// A buffer in which no edge equals the edge just before it is left as it is.
proof fn lemma_dedup_without_repeats(g: Seq<Edge>)
    requires
        forall|i: int| 0 <= i < g.len() - 1 ==> (#[trigger] g[i]) != g[i + 1],
    ensures
        deduped(g) == g,
    decreases g.len(),
{
    if g.len() > 0 {
        let rest = g.drop_last();
        assert forall|i: int| 0 <= i < rest.len() - 1 implies (#[trigger] rest[i]) != rest[i + 1] by {
            assert(g[i] != g[i + 1]);
        }
        lemma_dedup_without_repeats(rest);
        if g.len() >= 2 {
            assert(g[g.len() - 2] != g[g.len() - 2 + 1]);
        }
        assert(g =~= rest.push(g.last()));
    }
}

/// A second `dedup` changes nothing.
pub proof fn lemma_dedup_idempotent(g: Seq<Edge>)
    ensures
        deduped(deduped(g)) == deduped(g),
{
    lemma_dedup_leaves_no_repeats(g);
    lemma_dedup_without_repeats(deduped(g));
}

/// In a sorted buffer, `dedup` leaves every edge of the buffer exactly once,
/// and the result is still sorted.
pub proof fn lemma_dedup_of_sorted(g: Seq<Edge>)
    requires
        sorted(g),
    ensures
        deduped(g).no_duplicates(),
        sorted(deduped(g)),
        forall|e: Edge| #![trigger g.contains(e)] deduped(g).contains(e) <==> g.contains(e),
    decreases g.len(),
{
    if g.len() == 0 {
    } else {
        let rest = g.drop_last();
        let last = g.last();
        let n = g.len() as int;
        assert(sorted(rest)) by {
            assert forall|i: int, j: int| 0 <= i <= j < rest.len() implies edge_le(
                rest[i],
                rest[j],
            ) by {
                assert(edge_le(g[i], g[j]));
            }
        }
        lemma_dedup_of_sorted(rest);
        lemma_deduped_last(rest);
        let d = deduped(rest);
        let out = deduped(g);
        assert forall|e: Edge| rest.contains(e) implies edge_le(e, last) by {
            let i = choose|i: int| 0 <= i < rest.len() && rest[i] == e;
            assert(edge_le(g[i], g[n - 1]));
        }
        if n >= 2 && g[n - 2] == last {
            assert forall|e: Edge| #![trigger g.contains(e)] out.contains(e) <==> g.contains(e) by {
                if g.contains(e) {
                    let i = choose|i: int| 0 <= i < g.len() && g[i] == e;
                    if i < n - 1 {
                        assert(rest[i] == e);
                    } else {
                        assert(rest[n - 2] == e);
                    }
                    assert(rest.contains(e));
                }
                if out.contains(e) {
                    assert(rest.contains(e));
                    let i = choose|i: int| 0 <= i < rest.len() && rest[i] == e;
                    assert(g[i] == e);
                }
            }
        } else {
            assert(out == d.push(last));
            assert(!rest.contains(last)) by {
                if rest.contains(last) {
                    let i = choose|i: int| 0 <= i < rest.len() && rest[i] == last;
                    assert(edge_le(g[i], g[n - 2]));
                    assert(edge_le(g[n - 2], g[n - 1]));
                }
            }
            assert(!d.contains(last)) by {
                assert(d.contains(last) <==> rest.contains(last));
            }
            assert forall|i: int, j: int|
                0 <= i < out.len() && 0 <= j < out.len() && i != j implies out[i] != out[j] by {
                if i < d.len() && j < d.len() {
                    assert(d[i] != d[j]);
                } else if i < d.len() {
                    assert(d.contains(d[i]));
                } else {
                    assert(d.contains(d[j]));
                }
            }
            assert forall|i: int, j: int| 0 <= i <= j < out.len() implies edge_le(out[i], out[j]) by {
                if j < d.len() {
                    assert(edge_le(d[i], d[j]));
                } else if i < d.len() {
                    assert(d.contains(d[i]));
                    assert(rest.contains(d[i]));
                }
            }
            assert forall|e: Edge| #![trigger g.contains(e)] out.contains(e) <==> g.contains(e) by {
                if g.contains(e) {
                    let i = choose|i: int| 0 <= i < g.len() && g[i] == e;
                    if i < n - 1 {
                        assert(rest[i] == e);
                        assert(rest.contains(e));
                        assert(d.contains(e));
                        let m = choose|m: int| 0 <= m < d.len() && d[m] == e;
                        assert(out[m] == e);
                    } else {
                        assert(out[d.len() as int] == e);
                    }
                }
                if out.contains(e) {
                    let m = choose|m: int| 0 <= m < out.len() && out[m] == e;
                    if m < d.len() {
                        assert(d[m] == e);
                        assert(d.contains(e));
                        assert(rest.contains(e));
                        let i = choose|i: int| 0 <= i < rest.len() && rest[i] == e;
                        assert(g[i] == e);
                    } else {
                        assert(g[n - 1] == e);
                    }
                }
            }
        }
    }
}

/// The buffer with its self-loops left out.
pub open spec fn without_loops(g: Seq<Edge>) -> Seq<Edge>
    decreases g.len(),
{
    if g.len() == 0 {
        g
    } else if is_loop(g.last()) {
        without_loops(g.drop_last())
    } else {
        without_loops(g.drop_last()).push(g.last())
    }
}

/// The positions of the edges that are no self-loops, in ascending order.
pub open spec fn loop_free_positions(g: Seq<Edge>) -> Seq<int>
    decreases g.len(),
{
    if g.len() == 0 {
        Seq::empty()
    } else if is_loop(g.last()) {
        loop_free_positions(g.drop_last())
    } else {
        loop_free_positions(g.drop_last()).push(g.len() - 1)
    }
}

/// Removes every edge whose source equals its destination. The other edges
/// stay, in their order.
pub fn deloop(graph: &mut Vec<Edge>)
    ensures
        final(graph)@ == without_loops(old(graph)@),
{
    let ghost g = graph@;
    let n = graph.len();
    let mut kept: usize = 0;
    let mut next: usize = 0;
    proof {
        assert(g.take(0) =~= Seq::<Edge>::empty());
        assert(graph@.take(0) =~= Seq::<Edge>::empty());
    }
    while next < n
        invariant
            n == g.len(),
            graph@.len() == n,
            kept <= next <= n,
            graph@.take(kept as int) == without_loops(g.take(next as int)),
            forall|j: int| next <= j < n ==> graph@[j] == g[j],
        decreases n - next,
    {
        let e = graph[next];
        proof {
            assert(g.take(next + 1).drop_last() =~= g.take(next as int));
            assert(g.take(next + 1).last() == e);
        }
        if e.0 != e.1 {
            let ghost before = graph@;
            graph[kept] = e;
            proof {
                assert(graph@.take(kept + 1) =~= before.take(kept as int).push(e));
            }
            kept += 1;
        }
        next += 1;
    }
    graph.truncate(kept);
    proof {
        assert(g.take(n as int) =~= g);
    }
}

/// `deloop` removes the self-loops and nothing else, and keeps the order of
/// what stays: the result reads off the buffer at the positions of its edges
/// that are no self-loops, taken in ascending order.
pub proof fn lemma_deloop_keeps_the_rest(g: Seq<Edge>)
    ensures
        without_loops(g).len() == loop_free_positions(g).len(),
        forall|i: int|
            0 <= i < without_loops(g).len() ==> 0 <= #[trigger] loop_free_positions(g)[i] < g.len()
                && without_loops(g)[i] == g[loop_free_positions(g)[i]],
        forall|i: int, j: int|
            0 <= i < j < loop_free_positions(g).len() ==> loop_free_positions(g)[i]
                < loop_free_positions(g)[j],
        forall|k: int|
            0 <= k < g.len() ==> (!is_loop(g[k]) <==> #[trigger] loop_free_positions(g).contains(k)),
        forall|i: int| 0 <= i < without_loops(g).len() ==> !is_loop(#[trigger] without_loops(g)[i]),
    decreases g.len(),
{
    if g.len() > 0 {
        let rest = g.drop_last();
        lemma_deloop_keeps_the_rest(rest);
        let p = loop_free_positions(rest);
        let q = loop_free_positions(g);
        let last = g.len() - 1;
        assert forall|k: int| 0 <= k < g.len() implies (!is_loop(g[k]) <==> #[trigger] q.contains(
            k,
        )) by {
            if k < last {
                assert(rest[k] == g[k]);
                if p.contains(k) {
                    let i = choose|i: int| 0 <= i < p.len() && p[i] == k;
                    assert(q[i] == k);
                }
                if q.contains(k) {
                    let i = choose|i: int| 0 <= i < q.len() && q[i] == k;
                    assert(p[i] == k);
                    assert(p.contains(k));
                }
            } else {
                if !is_loop(g[k]) {
                    assert(q[p.len() as int] == k);
                }
                if q.contains(k) && is_loop(g[k]) {
                    let i = choose|i: int| 0 <= i < q.len() && q[i] == k;
                    assert(p[i] < rest.len());
                }
            }
        }
        assert forall|i: int| 0 <= i < without_loops(g).len() implies 0 <= #[trigger] q[i] < g.len()
            && without_loops(g)[i] == g[q[i]] by {
            if i < p.len() {
                assert(0 <= p[i] < rest.len());
                assert(without_loops(rest)[i] == rest[p[i]]);
            }
        }
        assert forall|i: int, j: int| 0 <= i < j < q.len() implies q[i] < q[j] by {
            if j < p.len() {
                assert(p[i] < p[j]);
            } else {
                assert(0 <= p[i] < rest.len());
            }
        }
    }
}

/// A buffer without self-loops is left as it is, so a second `deloop`
/// changes nothing.
pub proof fn lemma_deloop_idempotent(g: Seq<Edge>)
    ensures
        (forall|i: int| 0 <= i < g.len() ==> !is_loop(#[trigger] g[i])) ==> without_loops(g) == g,
        without_loops(without_loops(g)) == without_loops(g),
    decreases g.len(),
{
    if g.len() > 0 {
        let rest = g.drop_last();
        lemma_deloop_idempotent(rest);
        if forall|i: int| 0 <= i < g.len() ==> !is_loop(#[trigger] g[i]) {
            assert forall|i: int| 0 <= i < rest.len() implies !is_loop(#[trigger] rest[i]) by {
                assert(rest[i] == g[i]);
            }
            assert(!is_loop(g[g.len() - 1]));
            assert(g =~= rest.push(g.last()));
        }
        if !is_loop(g.last()) {
            let kept = without_loops(rest);
            assert(without_loops(g).drop_last() =~= kept);
            assert(without_loops(g).last() == g.last());
        }
    }
}

/// The buffer with every edge oriented from its smaller endpoint to its
/// larger one.
pub open spec fn undirected(g: Seq<Edge>) -> Seq<Edge> {
    Seq::new(g.len(), |k: int| canonical(g[k]))
}

/// Re-orients every edge to point from its smaller endpoint to its larger one.
pub fn undirect(graph: &mut Vec<Edge>)
    ensures
        final(graph)@ == undirected(old(graph)@),
{
    let ghost g = graph@;
    let mut k: usize = 0;
    while k < graph.len()
        invariant
            graph@.len() == g.len(),
            k <= graph@.len(),
            forall|j: int| 0 <= j < k ==> graph@[j] == canonical(g[j]),
            forall|j: int| k <= j < g.len() ==> graph@[j] == g[j],
        decreases graph@.len() - k,
    {
        let (s, d) = graph[k];
        if s > d {
            graph[k] = (d, s);
        }
        k += 1;
    }
    proof {
        assert(graph@ =~= undirected(g));
    }
}

/// `undirect` leaves every edge with source no larger than destination, and
/// a second application changes nothing.
pub proof fn lemma_undirect_idempotent(g: Seq<Edge>)
    ensures
        undirected(undirected(g)) == undirected(g),
        forall|k: int| 0 <= k < g.len() ==> (#[trigger] undirected(g)[k]).0 <= undirected(g)[k].1,
{
    assert(undirected(undirected(g)) =~= undirected(g));
}

/// Every edge of the buffer with its endpoints exchanged, in the buffer's
/// order.
pub open spec fn reversed(g: Seq<Edge>) -> Seq<Edge> {
    Seq::new(g.len(), |k: int| flipped(g[k]))
}

/// The buffer followed by its reversed edges.
pub open spec fn symmetrized(g: Seq<Edge>) -> Seq<Edge> {
    g + reversed(g)
}

/// Appends, for every edge `(x, y)` of the buffer, the edge `(y, x)`.
pub fn symmetrize(graph: &mut Vec<Edge>)
    ensures
        final(graph)@ == symmetrized(old(graph)@),
{
    let ghost g = graph@;
    let count = graph.len();
    let mut index: usize = 0;
    while index < count
        invariant
            count == g.len(),
            index <= count,
            graph@.len() == count + index,
            forall|j: int| 0 <= j < count ==> graph@[j] == g[j],
            forall|j: int| 0 <= j < index ==> graph@[count + j] == flipped(g[j]),
        decreases count - index,
    {
        let (x, y) = graph[index];
        graph.push((y, x));
        index += 1;
    }
    proof {
        assert(graph@ =~= symmetrized(g));
    }
}

/// `symmetrize` yields the edges together with the reversed edges, as a
/// multiset union: an edge occurs in the result as often as it and its
/// reversal occur in the buffer.
pub proof fn lemma_symmetrize_is_union(g: Seq<Edge>)
    ensures
        symmetrized(g).len() == 2 * g.len(),
        symmetrized(g).to_multiset() == g.to_multiset().add(reversed(g).to_multiset()),
        forall|e: Edge| #[trigger]
            reversed(g).to_multiset().count(e) == g.to_multiset().count(flipped(e)),
        forall|e: Edge| #[trigger]
            symmetrized(g).to_multiset().count(e) == g.to_multiset().count(e)
                + g.to_multiset().count(flipped(e)),
{
    lemma_multiset_commutative(g, reversed(g));
    lemma_reversed_counts(g);
}

/// `symmetrize`, then `sort`, then `dedup` gives the symmetric closure without
/// repetitions: the result holds an edge once if the buffer holds it or its
/// reversal, and not at all otherwise.
pub proof fn lemma_symmetric_closure(g: Seq<Edge>, s: Seq<Edge>)
    requires
        sorted(s),
        s.to_multiset() == symmetrized(g).to_multiset(),
    ensures
        sorted(deduped(s)),
        deduped(s).no_duplicates(),
        forall|e: Edge|
            #![trigger deduped(s).contains(e)]
            deduped(s).contains(e) <==> (g.contains(e) || g.contains(flipped(e))),
{
    broadcast use group_to_multiset_ensures;

    lemma_dedup_of_sorted(s);
    lemma_symmetrize_is_union(g);
    assert forall|e: Edge| #![trigger deduped(s).contains(e)] deduped(s).contains(e) <==> (g.contains(e)
        || g.contains(flipped(e))) by {
        assert(deduped(s).contains(e) <==> s.contains(e));
        assert(s.contains(e) <==> s.to_multiset().count(e) > 0);
        assert(symmetrized(g).to_multiset().count(e) == g.to_multiset().count(e)
            + g.to_multiset().count(flipped(e)));
        assert(g.contains(e) <==> g.to_multiset().count(e) > 0);
        assert(g.contains(flipped(e)) <==> g.to_multiset().count(flipped(e)) > 0);
    }
}

proof fn lemma_reversed_counts(g: Seq<Edge>)
    ensures
        forall|e: Edge| #[trigger]
            reversed(g).to_multiset().count(e) == g.to_multiset().count(flipped(e)),
    decreases g.len(),
{
    broadcast use group_to_multiset_ensures;

    if g.len() == 0 {
        assert(reversed(g) =~= Seq::<Edge>::empty());
        assert forall|e: Edge| #[trigger]
            reversed(g).to_multiset().count(e) == g.to_multiset().count(flipped(e)) by {
            assert(!reversed(g).contains(e));
            assert(!g.contains(flipped(e)));
        }
    } else {
        let rest = g.drop_last();
        lemma_reversed_counts(rest);
        assert(g =~= rest.push(g.last()));
        assert(reversed(g) =~= reversed(rest).push(flipped(g.last())));
        assert forall|e: Edge| #[trigger]
            reversed(g).to_multiset().count(e) == g.to_multiset().count(flipped(e)) by {
            assert(reversed(rest).to_multiset().count(e) == rest.to_multiset().count(flipped(e)));
            assert(rest.push(g.last()).to_multiset() =~= rest.to_multiset().insert(g.last()));
            assert(reversed(rest).push(flipped(g.last())).to_multiset() =~= reversed(
                rest,
            ).to_multiset().insert(flipped(g.last())));
        }
    }
}

} // verus!
