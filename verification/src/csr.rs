//! The compressed-sparse-row layout of an edge buffer.

use vstd::prelude::*;
use crate::edges::{Edge, edge_le, grow_to, node_count, sorted};
use crate::edges::{lemma_node_count_bounds, lemma_push_edge};

verus! {

/// The number of edges whose source is below `k`.
pub open spec fn sources_below(g: Seq<Edge>, k: int) -> nat
    decreases g.len(),
{
    if g.len() == 0 {
        0
    } else {
        sources_below(g.drop_last(), k) + (if g.last().0 < k {
            1nat
        } else {
            0nat
        })
    }
}

/// The number of edges whose source is `x`.
pub open spec fn out_degree(g: Seq<Edge>, x: int) -> nat
    decreases g.len(),
{
    if g.len() == 0 {
        0
    } else {
        out_degree(g.drop_last(), x) + (if g.last().0 == x {
            1nat
        } else {
            0nat
        })
    }
}

/// The destinations of the edges whose source is `x`, in buffer order.
pub open spec fn neighbours(g: Seq<Edge>, x: int) -> Seq<u32>
    decreases g.len(),
{
    if g.len() == 0 {
        Seq::empty()
    } else if g.last().0 == x {
        neighbours(g.drop_last(), x).push(g.last().1)
    } else {
        neighbours(g.drop_last(), x)
    }
}

/// The offsets array: entry `k` is the number of edges whose source is below
/// `k`, for `k` from zero to `node_count(g)` inclusive.
pub open spec fn offsets_of(g: Seq<Edge>) -> Seq<u64> {
    Seq::new(node_count(g) + 1, |k: int| sources_below(g, k) as u64)
}

/// The targets array: the destinations of the edges, in buffer order.
pub open spec fn targets_of(g: Seq<Edge>) -> Seq<u32> {
    Seq::new(g.len(), |i: int| g[i].1)
}

/// How the counts of sources relate to each other and to the buffer.
pub proof fn lemma_sources_below(g: Seq<Edge>, k: int)
    ensures
        sources_below(g, k) <= g.len(),
        out_degree(g, k) <= g.len(),
        sources_below(g, k + 1) == sources_below(g, k) + out_degree(g, k),
        k <= 0 ==> sources_below(g, k) == 0,
        k >= node_count(g) ==> sources_below(g, k) == g.len() && out_degree(g, k) == 0,
    decreases g.len(),
{
    if g.len() > 0 {
        lemma_sources_below(g.drop_last(), k);
        lemma_node_count_bounds(g);
        assert(g[g.len() - 1].0 < node_count(g));
    }
}

/// Lays the buffer out in compressed-sparse-row form.
///
/// The first vector is the offsets array, of length `node_count + 1`: entry
/// `k` counts the edges whose source is below `k`. The second is the targets
/// array: the destinations in buffer order. For a sorted buffer the slice of
/// targets between two consecutive offsets is the edge list of that node;
/// see [`lemma_edge_lists`].
pub fn _extract_fragment(graph: &Vec<Edge>) -> (csr: (Vec<u64>, Vec<u32>))
    ensures
        csr.0@ == offsets_of(graph@),
        csr.1@ == targets_of(graph@),
{
    let mut nodes: Vec<u64> = Vec::new();
    let mut edges: Vec<u32> = Vec::new();
    let mut k: usize = 0;
    proof {
        assert(graph@.take(0) =~= Seq::<Edge>::empty());
    }
    while k < graph.len()
        invariant
            k <= graph.len(),
            nodes.len() == node_count(graph@.take(k as int)),
            forall|x: int|
                0 <= x < nodes.len() ==> #[trigger] nodes[x] == out_degree(graph@.take(k as int), x),
            edges@ == targets_of(graph@.take(k as int)),
        decreases graph.len() - k,
    {
        let (src, dst) = graph[k];
        let ghost before = graph@.take(k as int);
        proof {
            lemma_push_edge(before, (src, dst));
            assert(graph@.take(k + 1) =~= before.push((src, dst)));
            assert(graph@.take(k + 1).drop_last() =~= before);
            assert forall|x: int| x >= node_count(before) implies out_degree(before, x) == 0 by {
                lemma_sources_below(before, x);
            }
            lemma_sources_below(before, src as int);
        }
        grow_to(&mut nodes, src as usize, 0);
        grow_to(&mut nodes, dst as usize, 0);
        assert(forall|x: int| 0 <= x < nodes.len() ==> #[trigger] nodes[x] == out_degree(before, x));
        nodes[src as usize] = nodes[src as usize] + 1;
        edges.push(dst);
        proof {
            assert(edges@ =~= targets_of(graph@.take(k + 1)));
        }
        k += 1;
    }
    proof {
        assert(graph@.take(k as int) =~= graph@);
        lemma_sources_below(graph@, 0);
    }
    let n = nodes.len();
    let mut total: u64 = 0;
    let mut x: usize = 0;
    while x < n
        invariant
            x <= n,
            n == nodes.len(),
            n == node_count(graph@),
            total == sources_below(graph@, x as int),
            forall|y: int| 0 <= y < x ==> #[trigger] nodes[y] == sources_below(graph@, y),
            forall|y: int| x <= y < n ==> #[trigger] nodes[y] == out_degree(graph@, y),
        decreases n - x,
    {
        proof {
            lemma_sources_below(graph@, x as int);
            lemma_sources_below(graph@, x + 1);
            assert(total + nodes[x as int] == sources_below(graph@, x + 1) <= graph.len());
        }
        let count = nodes[x];
        nodes[x] = total;
        total = total + count;
        x += 1;
    }
    nodes.push(total);
    proof {
        assert forall|y: int| 0 <= y < nodes.len() implies nodes@[y] == offsets_of(graph@)[y] by {
            lemma_sources_below(graph@, y);
        }
        assert(nodes@ =~= offsets_of(graph@));
    }
    (nodes, edges)
}

/// The shape of the offsets array, for every buffer: it has one entry more
/// than there are nodes, starts at zero, never decreases, grows from one
/// entry to the next by that node's out-degree, and ends at the number of
/// targets.
pub proof fn lemma_offsets_shape(g: Seq<Edge>)
    requires
        g.len() <= u64::MAX,
    ensures
        offsets_of(g).len() == node_count(g) + 1,
        targets_of(g).len() == g.len(),
        offsets_of(g)[0] == 0,
        offsets_of(g).last() == g.len(),
        forall|i: int, j: int|
            0 <= i <= j < offsets_of(g).len() ==> offsets_of(g)[i] <= offsets_of(g)[j],
        forall|i: int|
            0 <= i < node_count(g) ==> #[trigger] offsets_of(g)[i + 1] - offsets_of(g)[i]
                == out_degree(g, i),
        g.len() == 0 ==> offsets_of(g) == seq![0u64] && targets_of(g) == Seq::<u32>::empty(),
{
    lemma_sources_below(g, 0);
    lemma_sources_below(g, node_count(g) as int);
    assert forall|i: int| 0 <= i < offsets_of(g).len() implies #[trigger] offsets_of(g)[i]
        == sources_below(g, i) by {
        lemma_sources_below(g, i);
    }
    assert forall|i: int, j: int| 0 <= i <= j < offsets_of(g).len() implies offsets_of(g)[i]
        <= offsets_of(g)[j] by {
        lemma_sources_below_monotone(g, i, j);
    }
    assert forall|i: int| 0 <= i < node_count(g) implies #[trigger] offsets_of(g)[i + 1]
        - offsets_of(g)[i] == out_degree(g, i) by {
        lemma_sources_below(g, i);
    }
    if g.len() == 0 {
        assert(offsets_of(g) =~= seq![0u64]);
        assert(targets_of(g) =~= Seq::<u32>::empty());
    }
}

proof fn lemma_sources_below_monotone(g: Seq<Edge>, i: int, j: int)
    requires
        i <= j,
    ensures
        sources_below(g, i) <= sources_below(g, j),
    decreases g.len(),
{
    if g.len() > 0 {
        lemma_sources_below_monotone(g.drop_last(), i, j);
    }
}

/// In a sorted buffer the edges whose source is below `x` come first.
proof fn lemma_sorted_prefix(g: Seq<Edge>, x: int)
    requires
        sorted(g),
    ensures
        forall|i: int| 0 <= i < g.len() ==> ((#[trigger] g[i]).0 < x <==> i < sources_below(g, x)),
    decreases g.len(),
{
    if g.len() > 0 {
        let rest = g.drop_last();
        let last = g.len() - 1;
        assert(sorted(rest)) by {
            assert forall|i: int, j: int| 0 <= i <= j < rest.len() implies edge_le(
                rest[i],
                rest[j],
            ) by {
                assert(edge_le(g[i], g[j]));
            }
        }
        lemma_sorted_prefix(rest, x);
        lemma_sources_below(rest, x);
        assert forall|i: int| 0 <= i < g.len() implies ((#[trigger] g[i]).0 < x <==> i
            < sources_below(g, x)) by {
            if i < last {
                assert(rest[i] == g[i]);
                assert(edge_le(g[i], g[last]));
            }
            if g[last].0 < x && last > 0 {
                assert(edge_le(g[last - 1], g[last]));
                assert(rest[last - 1] == g[last - 1]);
            }
        }
    }
}

/// For a sorted buffer, the targets between two consecutive offsets are the
/// destinations of that node's edges, in ascending order.
pub proof fn lemma_edge_lists(g: Seq<Edge>, x: int)
    requires
        sorted(g),
        g.len() <= u64::MAX,
        0 <= x < node_count(g),
    ensures
        0 <= offsets_of(g)[x] <= offsets_of(g)[x + 1] <= targets_of(g).len(),
        targets_of(g).subrange(offsets_of(g)[x] as int, offsets_of(g)[x + 1] as int) == neighbours(
            g,
            x,
        ),
        forall|i: int, j: int|
            0 <= i <= j < neighbours(g, x).len() ==> neighbours(g, x)[i] <= neighbours(g, x)[j],
{
    lemma_sources_below(g, x);
    lemma_sources_below(g, x + 1);
    lemma_neighbours_slice(g, x);
    let lo = sources_below(g, x) as int;
    let hi = sources_below(g, x + 1) as int;
    lemma_sorted_prefix(g, x);
    lemma_sorted_prefix(g, x + 1);
    assert forall|i: int, j: int| 0 <= i <= j < neighbours(g, x).len() implies neighbours(g, x)[i]
        <= neighbours(g, x)[j] by {
        let s = targets_of(g).subrange(lo, hi);
        assert(s[i] == g[lo + i].1 && s[j] == g[lo + j].1);
        assert(edge_le(g[lo + i], g[lo + j]));
        assert(g[lo + i].0 == x && g[lo + j].0 == x);
    }
}

proof fn lemma_neighbours_slice(g: Seq<Edge>, x: int)
    requires
        sorted(g),
    ensures
        sources_below(g, x) <= sources_below(g, x + 1) <= g.len(),
        neighbours(g, x) == targets_of(g).subrange(
            sources_below(g, x) as int,
            sources_below(g, x + 1) as int,
        ),
    decreases g.len(),
{
    lemma_sources_below(g, x);
    lemma_sources_below(g, x + 1);
    if g.len() == 0 {
        assert(neighbours(g, x) =~= targets_of(g).subrange(0, 0));
    } else {
        let rest = g.drop_last();
        let last = g.len() - 1;
        assert(sorted(rest)) by {
            assert forall|i: int, j: int| 0 <= i <= j < rest.len() implies edge_le(
                rest[i],
                rest[j],
            ) by {
                assert(edge_le(g[i], g[j]));
            }
        }
        lemma_neighbours_slice(rest, x);
        lemma_sources_below(rest, x);
        lemma_sources_below(rest, x + 1);
        lemma_sorted_prefix(g, x);
        lemma_sorted_prefix(g, x + 1);
        let lo = sources_below(g, x) as int;
        let hi = sources_below(g, x + 1) as int;
        let lo0 = sources_below(rest, x) as int;
        let hi0 = sources_below(rest, x + 1) as int;
        let t = targets_of(g);
        let t0 = targets_of(rest);
        assert(t0 =~= t.subrange(0, last));
        if g[last].0 == x {
            assert(hi == last + 1);
            assert(hi0 == last) by {
                if hi0 < last {
                    assert(edge_le(g[last - 1], g[last]));
                    assert(!(g[last - 1].0 < x + 1));
                }
            }
            assert(t.subrange(lo, hi) =~= t0.subrange(lo0, hi0).push(g[last].1));
        } else if g[last].0 < x {
            assert(lo == last + 1 && hi == last + 1);
            assert(lo0 == last && hi0 == last);
            assert(t.subrange(lo, hi) =~= t0.subrange(lo0, hi0));
        } else {
            assert(t.subrange(lo, hi) =~= t0.subrange(lo0, hi0));
        }
    }
}

} // verus!
