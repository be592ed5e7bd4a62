//! The edge buffer and the vocabulary in which every contract speaks of it.

use vstd::prelude::*;

verus! {

/// A directed edge: `(source, destination)`.
pub type Edge = (u32, u32);

/// Whether the edge at position `k` of `g` has `x` as an endpoint.
pub open spec fn touches(g: Seq<Edge>, k: int, x: u32) -> bool {
    0 <= k < g.len() && (g[k].0 == x || g[k].1 == x)
}

/// Whether `x` is an endpoint of some edge of `g`.
pub open spec fn has_node(g: Seq<Edge>, x: u32) -> bool {
    exists|k: int| touches(g, k, x)
}

/// The number of ids the graph spans: one more than the largest id that
/// occurs as an endpoint, and zero for the empty buffer.
pub open spec fn node_count(g: Seq<Edge>) -> nat
    decreases g.len(),
{
    if g.len() == 0 {
        0
    } else {
        let rest = node_count(g.drop_last());
        let s = g.last().0 as nat + 1;
        let d = g.last().1 as nat + 1;
        if rest >= s && rest >= d {
            rest
        } else if s >= d {
            s
        } else {
            d
        }
    }
}

/// How often `x` occurs as an endpoint; a self-loop on `x` counts twice.
pub open spec fn degree(g: Seq<Edge>, x: u32) -> nat
    decreases g.len(),
{
    if g.len() == 0 {
        0
    } else {
        degree(g.drop_last(), x) + (if g.last().0 == x {
            1nat
        } else {
            0nat
        }) + (if g.last().1 == x {
            1nat
        } else {
            0nat
        })
    }
}

/// Lexicographic order on edges: by source, then by destination.
pub open spec fn edge_le(a: Edge, b: Edge) -> bool {
    a.0 < b.0 || (a.0 == b.0 && a.1 <= b.1)
}

/// The buffer is in ascending order by `(source, destination)`.
pub open spec fn sorted(g: Seq<Edge>) -> bool {
    forall|i: int, j: int| 0 <= i <= j < g.len() ==> edge_le(g[i], g[j])
}

/// Whether the edge is a self-loop.
pub open spec fn is_loop(e: Edge) -> bool {
    e.0 == e.1
}

/// The edge with its endpoints exchanged.
pub open spec fn flipped(e: Edge) -> Edge {
    (e.1, e.0)
}

/// The edge oriented from its smaller endpoint to its larger one.
pub open spec fn canonical(e: Edge) -> Edge {
    if e.0 > e.1 {
        flipped(e)
    } else {
        e
    }
}

/// Every endpoint of `g` lies below `node_count(g)`.
pub proof fn lemma_node_count_bounds(g: Seq<Edge>)
    ensures
        node_count(g) <= 0x1_0000_0000,
        forall|k: int| 0 <= k < g.len() ==> (#[trigger] g[k]).0 < node_count(g) && g[k].1 < node_count(g),
        g.len() > 0 ==> has_node(g, (node_count(g) - 1) as u32),
        g.len() == 0 ==> node_count(g) == 0,
    decreases g.len(),
{
    if g.len() > 0 {
        let rest = g.drop_last();
        lemma_node_count_bounds(rest);
        let last = g.len() - 1;
        assert forall|k: int| 0 <= k < g.len() implies (#[trigger] g[k]).0 < node_count(g)
            && g[k].1 < node_count(g) by {
            if k < last {
                assert(rest[k] == g[k]);
            }
        }
        let top = (node_count(g) - 1) as u32;
        if node_count(g) == node_count(rest) && rest.len() > 0 {
            let k = choose|k: int| touches(rest, k, top);
            assert(g[k] == rest[k]);
            assert(touches(g, k, top));
        } else {
            assert(touches(g, last, top));
        }
    }
}

/// A node has positive degree exactly when it is an endpoint of some edge.
pub proof fn lemma_degree_positive(g: Seq<Edge>, x: u32)
    ensures
        degree(g, x) > 0 <==> has_node(g, x),
        degree(g, x) <= 2 * g.len(),
    decreases g.len(),
{
    if g.len() > 0 {
        let rest = g.drop_last();
        lemma_degree_positive(rest, x);
        let last = g.len() - 1;
        if has_node(rest, x) {
            let k = choose|k: int| touches(rest, k, x);
            assert(g[k] == rest[k]);
            assert(touches(g, k, x));
        }
        if g[last].0 == x || g[last].1 == x {
            assert(touches(g, last, x));
        }
        if has_node(g, x) {
            let k = choose|k: int| touches(g, k, x);
            if k < last {
                assert(rest[k] == g[k]);
                assert(touches(rest, k, x));
            }
        }
    }
}

/// What appending one edge does to the node count, the node set and the
/// degrees.
pub proof fn lemma_push_edge(g: Seq<Edge>, e: Edge)
    ensures
        node_count(g.push(e)) >= node_count(g),
        node_count(g.push(e)) > e.0,
        node_count(g.push(e)) > e.1,
        node_count(g.push(e)) == node_count(g) || node_count(g.push(e)) == e.0 + 1 || node_count(
            g.push(e),
        ) == e.1 + 1,
        forall|x: u32|
            #![trigger has_node(g.push(e), x)]
            #![trigger has_node(g, x)]
            has_node(g.push(e), x) <==> (has_node(g, x) || e.0 == x || e.1 == x),
        forall|x: u32|
            #![trigger degree(g.push(e), x)]
            #![trigger degree(g, x)]
            degree(g.push(e), x) == degree(g, x) + (if e.0 == x {
                1nat
            } else {
                0nat
            }) + (if e.1 == x {
                1nat
            } else {
                0nat
            }),
{
    let h = g.push(e);
    assert(h.drop_last() =~= g);
    assert(h.last() == e);
    assert forall|x: u32| has_node(h, x) <==> (has_node(g, x) || e.0 == x || e.1 == x) by {
        if has_node(g, x) {
            let k = choose|k: int| touches(g, k, x);
            assert(h[k] == g[k]);
            assert(touches(h, k, x));
        }
        if e.0 == x || e.1 == x {
            assert(touches(h, g.len() as int, x));
        }
        if has_node(h, x) {
            let k = choose|k: int| touches(h, k, x);
            if k < g.len() {
                assert(h[k] == g[k]);
                assert(touches(g, k, x));
            }
        }
    }
}

/// Appends `fill` until index `index` exists.
pub(crate) fn grow_to<T: Copy>(v: &mut Vec<T>, index: usize, fill: T)
    ensures
        final(v)@.len() == (if old(v)@.len() > index {
            old(v)@.len() as int
        } else {
            index + 1
        }),
        forall|i: int| 0 <= i < old(v)@.len() ==> final(v)@[i] == old(v)@[i],
        forall|i: int| old(v)@.len() <= i < final(v)@.len() ==> final(v)@[i] == fill,
{
    while v.len() <= index
        invariant
            v@.len() >= old(v)@.len(),
            v@.len() <= index + 1 || v@.len() == old(v)@.len(),
            forall|i: int| 0 <= i < old(v)@.len() ==> v@[i] == old(v)@[i],
            forall|i: int| old(v)@.len() <= i < v@.len() ==> v@[i] == fill,
        decreases index + 1 - v.len(),
    {
        v.push(fill);
    }
}

} // verus!
