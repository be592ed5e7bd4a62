//! Renumbering of node ids by rank: by undirected degree, or by random keys.

use vstd::prelude::*;
use vstd::seq_lib::*;
use crate::edges::{Edge, canonical, degree, grow_to, has_node, node_count, touches};
use crate::edges::{lemma_degree_positive, lemma_node_count_bounds, lemma_push_edge};
use crate::order::{ascending, sort, TotalOrder};
use rand::Rng;

verus! {

/// The weight that `weights` gives to id `x`; ids beyond the table weigh
/// nothing.
pub open spec fn weight_of(weights: Seq<u128>, x: u32) -> int {
    if (x as int) < weights.len() {
        weights[x as int] as int
    } else {
        0
    }
}

/// Whether `a` is ranked strictly before `b`: lighter first, and among equal
/// weights the smaller id first.
pub open spec fn ranks_before(weights: Seq<u128>, a: u32, b: u32) -> bool {
    weight_of(weights, a) < weight_of(weights, b) || (weight_of(weights, a) == weight_of(
        weights,
        b,
    ) && a < b)
}

/// `order` is strictly ascending by rank.
pub open spec fn strictly_ranked(weights: Seq<u128>, order: Seq<u32>) -> bool {
    forall|i: int, j: int| 0 <= i < j < order.len() ==> ranks_before(weights, order[i], order[j])
}

/// `order` lists every node of `g` exactly once, in ascending rank.
pub open spec fn is_ranking(g: Seq<Edge>, weights: Seq<u128>, order: Seq<u32>) -> bool {
    &&& forall|x: u32|
        #![trigger order.contains(x)]
        #![trigger has_node(g, x)]
        order.contains(x) <==> has_node(g, x)
    &&& strictly_ranked(weights, order)
}

/// The ranking of the nodes of `g` under `weights`. There is exactly one; see
/// [`lemma_ranking`].
pub open spec fn ranking(g: Seq<Edge>, weights: Seq<u128>) -> Seq<u32> {
    choose|order: Seq<u32>| is_ranking(g, weights, order)
}

/// The position of `x` in `order`, which is its new id; ids that `order`
/// does not list are sent to zero.
pub open spec fn position(order: Seq<u32>, x: u32) -> u32 {
    if order.contains(x) {
        order.index_of(x) as u32
    } else {
        0
    }
}

/// The edge with both endpoints replaced by their positions in `order`.
pub open spec fn relabel(order: Seq<u32>, e: Edge) -> Edge {
    (position(order, e.0), position(order, e.1))
}

/// The degree of every id below `node_count(g)`.
pub open spec fn degree_table(g: Seq<Edge>) -> Seq<u128> {
    Seq::new(node_count(g), |x: int| degree(g, x as u32) as u128)
}

/// The buffer after renumbering by ascending degree: each edge is relabelled
/// and then oriented from its smaller new id to its larger one.
pub open spec fn reordered(g: Seq<Edge>) -> Seq<Edge> {
    Seq::new(g.len(), |k: int| canonical(relabel(ranking(g, degree_table(g)), g[k])))
}

/// The buffer after renumbering by ascending key, `keys[x]` being the key of
/// id `x`. Orientation is kept.
pub open spec fn randomized(g: Seq<Edge>, keys: Seq<u128>) -> Seq<Edge> {
    Seq::new(g.len(), |k: int| relabel(ranking(g, keys), g[k]))
}

/// The set of ids that occur in `g`.
pub open spec fn nodes(g: Seq<Edge>) -> Set<u32> {
    Set::new(|x: u32| has_node(g, x))
}

proof fn lemma_ranks_total(weights: Seq<u128>, a: u32, b: u32)
    ensures
        a != b ==> ranks_before(weights, a, b) || ranks_before(weights, b, a),
        !(ranks_before(weights, a, b) && ranks_before(weights, b, a)),
        !ranks_before(weights, a, a),
{
}

/// A strictly ranked sequence lists no id twice.
proof fn lemma_ranked_distinct(weights: Seq<u128>, order: Seq<u32>)
    requires
        strictly_ranked(weights, order),
    ensures
        order.no_duplicates(),
{
    assert forall|i: int, j: int|
        0 <= i < order.len() && 0 <= j < order.len() && i != j implies order[i] != order[j] by {
        if i < j {
            assert(ranks_before(weights, order[i], order[j]));
        } else {
            assert(ranks_before(weights, order[j], order[i]));
        }
    }
}

/// Two strictly ranked sequences with the same elements are equal.
proof fn lemma_strictly_ranked_unique(weights: Seq<u128>, a: Seq<u32>, b: Seq<u32>)
    requires
        strictly_ranked(weights, a),
        strictly_ranked(weights, b),
        forall|x: u32| a.contains(x) <==> b.contains(x),
    ensures
        a == b,
    decreases a.len(),
{
    if a.len() == 0 {
        if b.len() > 0 {
            assert(b.contains(b[0]));
        }
        assert(a =~= b);
    } else {
        assert(a.contains(a.last()));
        assert(b.contains(a.last()));
        assert(b.len() > 0);
        assert(b.contains(b.last()));
        assert(a.contains(b.last()));
        let i = choose|i: int| 0 <= i < b.len() && b[i] == a.last();
        let j = choose|j: int| 0 <= j < a.len() && a[j] == b.last();
        assert(a.last() == b.last()) by {
            if i < b.len() - 1 {
                assert(ranks_before(weights, b[i], b[b.len() - 1]));
                if j < a.len() - 1 {
                    assert(ranks_before(weights, a[j], a[a.len() - 1]));
                }
            }
        }
        let a0 = a.drop_last();
        let b0 = b.drop_last();
        assert forall|x: u32| a0.contains(x) <==> b0.contains(x) by {
            if a0.contains(x) {
                let k = choose|k: int| 0 <= k < a0.len() && a0[k] == x;
                assert(a[k] == x);
                assert(ranks_before(weights, a[k], a[a.len() - 1]));
                assert(a.contains(x));
                let m = choose|m: int| 0 <= m < b.len() && b[m] == x;
                assert(m < b.len() - 1);
                assert(b0[m] == x);
            }
            if b0.contains(x) {
                let k = choose|k: int| 0 <= k < b0.len() && b0[k] == x;
                assert(b[k] == x);
                assert(ranks_before(weights, b[k], b[b.len() - 1]));
                assert(b.contains(x));
                let m = choose|m: int| 0 <= m < a.len() && a[m] == x;
                assert(m < a.len() - 1);
                assert(a0[m] == x);
            }
        }
        lemma_strictly_ranked_unique(weights, a0, b0);
        assert(a =~= a0.push(a.last()));
        assert(b =~= b0.push(b.last()));
    }
}

/// `order` with `x` put in at its rank.
spec fn insert_ranked(weights: Seq<u128>, order: Seq<u32>, x: u32) -> Seq<u32>
    decreases order.len(),
{
    if order.len() == 0 {
        seq![x]
    } else if ranks_before(weights, order.last(), x) {
        order.push(x)
    } else {
        insert_ranked(weights, order.drop_last(), x).push(order.last())
    }
}

proof fn lemma_insert_ranked(weights: Seq<u128>, order: Seq<u32>, x: u32)
    requires
        strictly_ranked(weights, order),
        !order.contains(x),
    ensures
        strictly_ranked(weights, insert_ranked(weights, order, x)),
        insert_ranked(weights, order, x).len() == order.len() + 1,
        forall|y: u32|
            #![trigger insert_ranked(weights, order, x).contains(y)]
            #![trigger order.contains(y)]
            insert_ranked(weights, order, x).contains(y) <==> (order.contains(y) || y == x),
    decreases order.len(),
{
    let out = insert_ranked(weights, order, x);
    if order.len() == 0 {
        assert(out[0] == x);
        assert forall|y: u32| out.contains(y) <==> (order.contains(y) || y == x) by {
            if out.contains(y) {
                let k = choose|k: int| 0 <= k < out.len() && out[k] == y;
            }
        }
    } else if ranks_before(weights, order.last(), x) {
        let n = order.len() as int;
        assert(out[n] == x);
        assert forall|i: int, j: int| 0 <= i < j < out.len() implies ranks_before(
            weights,
            out[i],
            out[j],
        ) by {
            if j < n {
                assert(ranks_before(weights, order[i], order[j]));
            } else if i < n - 1 {
                assert(ranks_before(weights, order[i], order[n - 1]));
            }
        }
        assert forall|y: u32| out.contains(y) <==> (order.contains(y) || y == x) by {
            if out.contains(y) {
                let k = choose|k: int| 0 <= k < out.len() && out[k] == y;
                if k < n {
                    assert(order[k] == y);
                }
            }
            if order.contains(y) {
                let k = choose|k: int| 0 <= k < order.len() && order[k] == y;
                assert(out[k] == y);
            }
        }
    } else {
        let rest = order.drop_last();
        let last = order.last();
        let n = order.len() as int;
        assert(strictly_ranked(weights, rest)) by {
            assert forall|i: int, j: int| 0 <= i < j < rest.len() implies ranks_before(
                weights,
                rest[i],
                rest[j],
            ) by {
                assert(ranks_before(weights, order[i], order[j]));
            }
        }
        assert(!rest.contains(x)) by {
            if rest.contains(x) {
                let k = choose|k: int| 0 <= k < rest.len() && rest[k] == x;
                assert(order[k] == x);
            }
        }
        lemma_insert_ranked(weights, rest, x);
        let mid = insert_ranked(weights, rest, x);
        assert(order.contains(last));
        assert(last != x);
        lemma_ranks_total(weights, last, x);
        assert(out == mid.push(last));
        assert forall|i: int, j: int| 0 <= i < j < out.len() implies ranks_before(
            weights,
            out[i],
            out[j],
        ) by {
            if j < mid.len() {
                assert(ranks_before(weights, mid[i], mid[j]));
            } else {
                assert(mid.contains(mid[i]));
                if mid[i] != x {
                    assert(rest.contains(mid[i]));
                    let k = choose|k: int| 0 <= k < rest.len() && rest[k] == mid[i];
                    assert(ranks_before(weights, order[k], order[n - 1]));
                }
            }
        }
        assert forall|y: u32| out.contains(y) <==> (order.contains(y) || y == x) by {
            if out.contains(y) {
                let k = choose|k: int| 0 <= k < out.len() && out[k] == y;
                if k < mid.len() {
                    assert(mid[k] == y);
                    assert(mid.contains(y));
                    if y != x {
                        assert(rest.contains(y));
                        let m = choose|m: int| 0 <= m < rest.len() && rest[m] == y;
                        assert(order[m] == y);
                    }
                }
            }
            if order.contains(y) {
                let k = choose|k: int| 0 <= k < order.len() && order[k] == y;
                if k < n - 1 {
                    assert(rest[k] == y);
                    assert(rest.contains(y));
                    let m = choose|m: int| 0 <= m < mid.len() && mid[m] == y;
                    assert(out[m] == y);
                } else {
                    assert(out[mid.len() as int] == y);
                }
            }
            if y == x {
                assert(mid.contains(x));
                let m = choose|m: int| 0 <= m < mid.len() && mid[m] == x;
                assert(out[m] == x);
            }
        }
    }
}

/// The nodes below `bound`, in ascending rank.
spec fn ranking_below(g: Seq<Edge>, weights: Seq<u128>, bound: nat) -> Seq<u32>
    decreases bound,
{
    if bound == 0 {
        Seq::empty()
    } else {
        let rest = ranking_below(g, weights, (bound - 1) as nat);
        if bound <= 0x1_0000_0000 && has_node(g, (bound - 1) as u32) {
            insert_ranked(weights, rest, (bound - 1) as u32)
        } else {
            rest
        }
    }
}

proof fn lemma_ranking_below(g: Seq<Edge>, weights: Seq<u128>, bound: nat)
    ensures
        strictly_ranked(weights, ranking_below(g, weights, bound)),
        ranking_below(g, weights, bound).len() <= bound,
        forall|x: u32|
            #![trigger ranking_below(g, weights, bound).contains(x)]
            #![trigger has_node(g, x)]
            ranking_below(g, weights, bound).contains(x) <==> (has_node(g, x) && (x as int) < bound),
    decreases bound,
{
    if bound == 0 {
    } else {
        let rest = ranking_below(g, weights, (bound - 1) as nat);
        lemma_ranking_below(g, weights, (bound - 1) as nat);
        let out = ranking_below(g, weights, bound);
        if bound <= 0x1_0000_0000 && has_node(g, (bound - 1) as u32) {
            let top = (bound - 1) as u32;
            assert(!rest.contains(top));
            lemma_insert_ranked(weights, rest, top);
            assert forall|x: u32| out.contains(x) <==> (has_node(g, x) && (x as int) < bound) by {
                assert(insert_ranked(weights, rest, top).contains(x) <==> (rest.contains(x) || x
                    == top));
            }
        } else {
            assert forall|x: u32| out.contains(x) <==> (has_node(g, x) && (x as int) < bound) by {
                assert(rest.contains(x) <==> (has_node(g, x) && (x as int) < bound - 1));
            }
        }
    }
}

/// Every buffer has exactly one ranking under every weight table, and
/// `ranking` is it.
pub proof fn lemma_ranking(g: Seq<Edge>, weights: Seq<u128>, order: Seq<u32>)
    ensures
        is_ranking(g, weights, ranking(g, weights)),
        is_ranking(g, weights, order) ==> order == ranking(g, weights),
        ranking(g, weights).len() <= 0x1_0000_0000,
{
    lemma_ranking_below(g, weights, 0x1_0000_0000);
    let witness = ranking_below(g, weights, 0x1_0000_0000);
    assert(is_ranking(g, weights, witness));
    lemma_strictly_ranked_unique(weights, witness, ranking(g, weights));
    if is_ranking(g, weights, order) {
        lemma_strictly_ranked_unique(weights, order, ranking(g, weights));
    }
}

/// In a ranking, `position` inverts indexing.
pub proof fn lemma_position(weights: Seq<u128>, order: Seq<u32>, i: int)
    requires
        strictly_ranked(weights, order),
        0 <= i < order.len(),
        order.len() <= 0x1_0000_0000,
    ensures
        position(order, order[i]) == i,
{
    assert(order.contains(order[i]));
    let j = order.index_of(order[i]);
    if j < i {
        assert(ranks_before(weights, order[j], order[i]));
    } else if i < j {
        assert(ranks_before(weights, order[i], order[j]));
    }
}

/// The new ids are dense and follow the ranks.
///
/// With `m` the number of nodes of `g`: the ranking has length `m`; every node
/// gets a new id below `m`, and every id below `m` is the new id of exactly
/// one node; and of two nodes, the one ranked first gets the smaller new id.
pub proof fn lemma_ranking_dense(g: Seq<Edge>, weights: Seq<u128>)
    ensures
        nodes(g).finite(),
        ranking(g, weights).len() == nodes(g).len(),
        forall|x: u32|
            #![trigger has_node(g, x)]
            has_node(g, x) ==> (position(ranking(g, weights), x) as int) < nodes(g).len()
                && ranking(g, weights)[position(ranking(g, weights), x) as int] == x,
        forall|i: int|
            #![trigger ranking(g, weights)[i]]
            0 <= i < nodes(g).len() ==> has_node(g, ranking(g, weights)[i]) && position(
                ranking(g, weights),
                ranking(g, weights)[i],
            ) == i,
        forall|u: u32, v: u32|
            #![trigger has_node(g, u), has_node(g, v)]
            has_node(g, u) && has_node(g, v) ==> (ranks_before(weights, u, v) <==> position(
                ranking(g, weights),
                u,
            ) < position(ranking(g, weights), v)),
{
    broadcast use seq_to_set_is_finite;

    let order = ranking(g, weights);
    lemma_ranking(g, weights, order);
    lemma_ranked_distinct(weights, order);
    assert(order.to_set() =~= nodes(g));
    order.unique_seq_to_set();
    assert forall|x: u32| #![trigger has_node(g, x)] has_node(g, x) implies (position(order, x) as int)
        < nodes(g).len() && order[position(order, x) as int] == x by {
        assert(order.contains(x));
        let j = choose|j: int| 0 <= j < order.len() && order[j] == x;
        lemma_position(weights, order, j);
    }
    assert forall|i: int| #![trigger order[i]] 0 <= i < nodes(g).len() implies has_node(g, order[i])
        && position(order, order[i]) == i by {
        assert(order.contains(order[i]));
        lemma_position(weights, order, i);
    }
    assert forall|u: u32, v: u32|
        #![trigger has_node(g, u), has_node(g, v)]
        has_node(g, u) && has_node(g, v) implies (ranks_before(weights, u, v) <==> position(order, u)
            < position(order, v)) by {
        let i = position(order, u) as int;
        let j = position(order, v) as int;
        assert(order[i] == u && order[j] == v);
        if i < j {
            assert(ranks_before(weights, order[i], order[j]));
        } else if j < i {
            assert(ranks_before(weights, order[j], order[i]));
        }
    }
}

/// What `reorder` promises of the new ids.
///
/// With `m` the number of ids of positive degree: every such id gets a new id
/// below `m`, distinct ids get distinct new ids, and every id below `m` is
/// taken. Of two such ids, the one of smaller degree gets the smaller new id,
/// and among equal degrees the smaller old id does. Every edge of the result
/// runs from its smaller endpoint to its larger one, both below `m`.
pub proof fn lemma_reorder_by_degree(g: Seq<Edge>)
    requires
        g.len() <= usize::MAX,
    ensures
        Set::new(|x: u32| degree(g, x) > 0) == nodes(g),
        nodes(g).finite(),
        ranking(g, degree_table(g)).len() == nodes(g).len(),
        forall|x: u32|
            #![trigger degree(g, x)]
            degree(g, x) > 0 ==> (position(ranking(g, degree_table(g)), x) as int) < nodes(g).len(),
        forall|i: int|
            #![trigger ranking(g, degree_table(g))[i]]
            0 <= i < nodes(g).len() ==> degree(g, ranking(g, degree_table(g))[i]) > 0 && position(
                ranking(g, degree_table(g)),
                ranking(g, degree_table(g))[i],
            ) == i,
        forall|u: u32, v: u32|
            #![trigger degree(g, u), degree(g, v)]
            0 < degree(g, u) < degree(g, v) ==> position(ranking(g, degree_table(g)), u) < position(
                ranking(g, degree_table(g)),
                v,
            ),
        forall|u: u32, v: u32|
            #![trigger degree(g, u), degree(g, v)]
            0 < degree(g, u) == degree(g, v) && u < v ==> position(ranking(g, degree_table(g)), u)
                < position(ranking(g, degree_table(g)), v),
        forall|u: u32, v: u32|
            #![trigger degree(g, u), degree(g, v)]
            0 < degree(g, u) && 0 < degree(g, v) && u != v ==> position(
                ranking(g, degree_table(g)),
                u,
            ) != position(ranking(g, degree_table(g)), v),
        forall|k: int|
            #![trigger reordered(g)[k]]
            0 <= k < g.len() ==> reordered(g)[k].0 <= reordered(g)[k].1 && (reordered(g)[k].1 as int)
                < nodes(g).len(),
{
    let table = degree_table(g);
    let order = ranking(g, table);
    lemma_ranking_dense(g, table);
    lemma_node_count_bounds(g);
    assert forall|x: u32| degree(g, x) > 0 <==> has_node(g, x) by {
        lemma_degree_positive(g, x);
    }
    assert(Set::new(|x: u32| degree(g, x) > 0) =~= nodes(g));
    assert forall|x: u32| has_node(g, x) implies weight_of(table, x) == degree(g, x) by {
        lemma_degree_positive(g, x);
        let k = choose|k: int| touches(g, k, x);
        assert(g[k].0 < node_count(g) && g[k].1 < node_count(g));
    }
    assert forall|u: u32, v: u32|
        #![trigger degree(g, u), degree(g, v)]
        0 < degree(g, u) && 0 < degree(g, v) && u != v implies position(order, u) != position(
            order,
            v,
        ) by {
        assert(has_node(g, u) && has_node(g, v));
    }
    assert forall|u: u32, v: u32|
        #![trigger degree(g, u), degree(g, v)]
        0 < degree(g, u) < degree(g, v) implies position(order, u) < position(order, v) by {
        assert(has_node(g, u) && has_node(g, v));
        assert(ranks_before(table, u, v));
    }
    assert forall|u: u32, v: u32|
        #![trigger degree(g, u), degree(g, v)]
        0 < degree(g, u) == degree(g, v) && u < v implies position(order, u) < position(order, v) by {
        assert(has_node(g, u) && has_node(g, v));
        assert(ranks_before(table, u, v));
    }
    assert forall|i: int| #![trigger order[i]] 0 <= i < nodes(g).len() implies degree(g, order[i]) > 0
        && position(order, order[i]) == i by {
        assert(has_node(g, order[i]));
    }
    assert forall|x: u32| #![trigger degree(g, x)] degree(g, x) > 0 implies (position(order, x) as int)
        < nodes(g).len() by {
        assert(has_node(g, x));
    }
    assert forall|k: int| #![trigger reordered(g)[k]] 0 <= k < g.len() implies reordered(g)[k].0
        <= reordered(g)[k].1 && (reordered(g)[k].1 as int) < nodes(g).len() by {
        assert(touches(g, k, g[k].0) && touches(g, k, g[k].1));
        assert(has_node(g, g[k].0) && has_node(g, g[k].1));
    }
}

/// What `randomize` promises of the new ids, whatever the keys: the nodes are
/// mapped one-to-one onto the ids below their number, and every edge keeps
/// its orientation under this map.
pub proof fn lemma_randomize_permutes(g: Seq<Edge>, keys: Seq<u128>)
    ensures
        nodes(g).finite(),
        randomized(g, keys).len() == g.len(),
        forall|x: u32|
            #![trigger has_node(g, x)]
            has_node(g, x) ==> (position(ranking(g, keys), x) as int) < nodes(g).len(),
        forall|u: u32, v: u32|
            #![trigger has_node(g, u), has_node(g, v)]
            has_node(g, u) && has_node(g, v) && u != v ==> position(ranking(g, keys), u)
                != position(ranking(g, keys), v),
        forall|i: int|
            #![trigger ranking(g, keys)[i]]
            0 <= i < nodes(g).len() ==> has_node(g, ranking(g, keys)[i]) && position(
                ranking(g, keys),
                ranking(g, keys)[i],
            ) == i,
        forall|k: int|
            #![trigger randomized(g, keys)[k]]
            0 <= k < g.len() ==> randomized(g, keys)[k] == (
                position(ranking(g, keys), g[k].0),
                position(ranking(g, keys), g[k].1),
            ),
{
    lemma_ranking_dense(g, keys);
}

/// Relabelling by a list without repetitions keeps every degree: a node has
/// as many endpoints after as before, whether or not the edges are oriented
/// afterwards.
proof fn lemma_relabel_degree(order: Seq<u32>, h: Seq<Edge>, x: u32)
    requires
        order.no_duplicates(),
        order.len() <= 0x1_0000_0000,
        forall|k: int| 0 <= k < h.len() ==> order.contains((#[trigger] h[k]).0) && order.contains(h[k].1),
        order.contains(x),
    ensures
        degree(Seq::new(h.len(), |k: int| relabel(order, h[k])), position(order, x)) == degree(h, x),
        degree(Seq::new(h.len(), |k: int| canonical(relabel(order, h[k]))), position(order, x))
            == degree(h, x),
    decreases h.len(),
{
    let plain = Seq::new(h.len(), |k: int| relabel(order, h[k]));
    let oriented = Seq::new(h.len(), |k: int| canonical(relabel(order, h[k])));
    if h.len() > 0 {
        let rest = h.drop_last();
        let e = h.last();
        assert(order.contains(e.0) && order.contains(e.1)) by {
            assert(h[h.len() - 1] == e);
        }
        assert forall|k: int| 0 <= k < rest.len() implies order.contains((#[trigger] rest[k]).0)
            && order.contains(rest[k].1) by {
            assert(h[k] == rest[k]);
        }
        lemma_relabel_degree(order, rest, x);
        assert(plain.drop_last() =~= Seq::new(rest.len(), |k: int| relabel(order, rest[k])));
        assert(oriented.drop_last() =~= Seq::new(
            rest.len(),
            |k: int| canonical(relabel(order, rest[k])),
        ));
        assert(plain.last() == relabel(order, e));
        assert(oriented.last() == canonical(relabel(order, e)));
        let px = order.index_of(x);
        let p0 = order.index_of(e.0);
        let p1 = order.index_of(e.1);
        assert(order[px] == x && order[p0] == e.0 && order[p1] == e.1);
    }
}

/// `randomize` keeps the degree of every node, whatever the keys.
pub proof fn lemma_randomize_keeps_degrees(g: Seq<Edge>, keys: Seq<u128>, x: u32)
    requires
        has_node(g, x),
    ensures
        degree(randomized(g, keys), position(ranking(g, keys), x)) == degree(g, x),
{
    let order = ranking(g, keys);
    lemma_ranking(g, keys, order);
    lemma_ranking_dense(g, keys);
    lemma_ranked_distinct(keys, order);
    assert forall|k: int| 0 <= k < g.len() implies order.contains((#[trigger] g[k]).0)
        && order.contains(g[k].1) by {
        assert(touches(g, k, g[k].0) && touches(g, k, g[k].1));
        assert(has_node(g, g[k].0) && has_node(g, g[k].1));
    }
    lemma_relabel_degree(order, g, x);
    assert(randomized(g, keys) =~= Seq::new(g.len(), |k: int| relabel(order, g[k])));
}

/// `reorder` keeps the degree of every node, and in its result the degrees
/// never decrease from one id to the next.
pub proof fn lemma_reorder_sorts_degrees(g: Seq<Edge>)
    requires
        g.len() <= usize::MAX,
    ensures
        forall|x: u32|
            #![trigger has_node(g, x)]
            has_node(g, x) ==> degree(reordered(g), position(ranking(g, degree_table(g)), x))
                == degree(g, x),
        forall|a: u32, b: u32|
            #![trigger degree(reordered(g), a), degree(reordered(g), b)]
            a <= b && (b as int) < nodes(g).len() ==> 0 < degree(reordered(g), a) <= degree(
                reordered(g),
                b,
            ),
{
    let table = degree_table(g);
    let order = ranking(g, table);
    lemma_ranking(g, table, order);
    lemma_ranking_dense(g, table);
    lemma_node_count_bounds(g);
    lemma_ranked_distinct(table, order);
    assert forall|k: int| 0 <= k < g.len() implies order.contains((#[trigger] g[k]).0)
        && order.contains(g[k].1) by {
        assert(touches(g, k, g[k].0) && touches(g, k, g[k].1));
        assert(has_node(g, g[k].0) && has_node(g, g[k].1));
    }
    assert(reordered(g) =~= Seq::new(g.len(), |k: int| canonical(relabel(order, g[k]))));
    assert forall|x: u32| #![trigger has_node(g, x)] has_node(g, x) implies degree(
        reordered(g),
        position(order, x),
    ) == degree(g, x) by {
        lemma_relabel_degree(order, g, x);
    }
    assert forall|x: u32| has_node(g, x) implies weight_of(table, x) == degree(g, x) && degree(g, x)
        > 0 by {
        lemma_degree_positive(g, x);
        let k = choose|k: int| touches(g, k, x);
        assert(g[k].0 < node_count(g) && g[k].1 < node_count(g));
    }
    assert forall|a: u32, b: u32|
        #![trigger degree(reordered(g), a), degree(reordered(g), b)]
        a <= b && (b as int) < nodes(g).len() implies 0 < degree(reordered(g), a) <= degree(
            reordered(g),
            b,
        ) by {
        let u = order[a as int];
        let v = order[b as int];
        assert(has_node(g, u) && has_node(g, v));
        assert(position(order, u) == a && position(order, v) == b);
        if a < b {
            assert(ranks_before(table, order[a as int], order[b as int]));
        }
    }
}

/// Marks the ids that occur in the buffer.
fn mark_nodes(graph: &Vec<Edge>) -> (present: Vec<bool>)
    ensures
        present.len() == node_count(graph@),
        forall|x: u32|
            #![trigger has_node(graph@, x)]
            has_node(graph@, x) <==> ((x as int) < present.len() && present[x as int]),
{
    let mut present: Vec<bool> = Vec::new();
    let mut k: usize = 0;
    proof {
        assert(graph@.take(0) =~= Seq::<Edge>::empty());
        assert forall|x: u32| !has_node(graph@.take(0), x) by {
            if has_node(graph@.take(0), x) {
                let i = choose|i: int| touches(graph@.take(0), i, x);
            }
        }
    }
    while k < graph.len()
        invariant
            k <= graph.len(),
            present.len() == node_count(graph@.take(k as int)),
            forall|x: u32|
                #![trigger has_node(graph@.take(k as int), x)]
                has_node(graph@.take(k as int), x) <==> ((x as int) < present.len()
                    && present[x as int]),
        decreases graph.len() - k,
    {
        let (s, d) = graph[k];
        let ghost before = graph@.take(k as int);
        let ghost marks = present@;
        proof {
            lemma_push_edge(before, (s, d));
            assert(graph@.take(k + 1) =~= before.push((s, d)));
        }
        grow_to(&mut present, s as usize, false);
        grow_to(&mut present, d as usize, false);
        present[s as usize] = true;
        present[d as usize] = true;
        proof {
            assert forall|x: u32|
                has_node(graph@.take(k + 1), x) <==> ((x as int) < present.len()
                    && present[x as int]) by {
                assert(has_node(before, x) <==> ((x as int) < marks.len() && marks[x as int]));
                assert(has_node(before.push((s, d)), x) <==> (has_node(before, x) || s == x || d
                    == x));
            }
        }
        k += 1;
    }
    proof {
        assert(graph@.take(k as int) =~= graph@);
        assert forall|x: u32|
            has_node(graph@, x) <==> ((x as int) < present.len() && present[x as int]) by {
            assert(has_node(graph@.take(k as int), x) <==> ((x as int) < present.len()
                && present[x as int]));
        }
    }
    present
}

/// Counts, for every id, how often it occurs as an endpoint.
fn count_degrees(graph: &Vec<Edge>) -> (degrees: Vec<u128>)
    ensures
        degrees@ == degree_table(graph@),
{
    let mut degrees: Vec<u128> = Vec::new();
    let mut k: usize = 0;
    proof {
        assert(graph@.take(0) =~= Seq::<Edge>::empty());
    }
    while k < graph.len()
        invariant
            k <= graph.len(),
            degrees.len() == node_count(graph@.take(k as int)),
            forall|x: u32|
                #![trigger degree(graph@.take(k as int), x)]
                (x as int) < degrees.len() ==> degrees[x as int] == degree(
                    graph@.take(k as int),
                    x,
                ),
        decreases graph.len() - k,
    {
        let (s, d) = graph[k];
        let ghost before = graph@.take(k as int);
        proof {
            lemma_push_edge(before, (s, d));
            lemma_node_count_bounds(before);
            assert(graph@.take(k + 1) =~= before.push((s, d)));
            assert forall|x: u32| (x as int) >= node_count(before) implies #[trigger] degree(
                before,
                x,
            ) == 0 by {
                lemma_degree_positive(before, x);
                if has_node(before, x) {
                    let i = choose|i: int| touches(before, i, x);
                }
            }
            assert forall|x: u32| #[trigger] degree(before, x) <= 2 * k by {
                lemma_degree_positive(before, x);
            }
        }
        grow_to(&mut degrees, s as usize, 0);
        grow_to(&mut degrees, d as usize, 0);
        proof {
            assert forall|x: u32| (x as int) < degrees.len() implies degrees[x as int]
                == #[trigger] degree(before, x) by {
                if (x as int) >= node_count(before) {
                    assert(degree(before, x) == 0);
                }
            }
            assert(degrees[s as int] == degree(before, s) <= 2 * k);
            assert(degrees[d as int] == degree(before, d) <= 2 * k);
        }
        degrees[s as usize] = degrees[s as usize] + 1;
        degrees[d as usize] = degrees[d as usize] + 1;
        k += 1;
    }
    proof {
        assert(graph@.take(k as int) =~= graph@);
        lemma_node_count_bounds(graph@);
        assert forall|x: int| 0 <= x < degrees.len() implies degrees@[x] == degree_table(
            graph@,
        )[x] by {
            assert(degrees[(x as u32) as int] == degree(graph@, x as u32));
        }
        assert(degrees@ =~= degree_table(graph@));
    }
    degrees
}

/// Whether some pair of `pairs` carries the id `y`.
spec fn lists(pairs: Seq<(u128, u32)>, y: u32) -> bool {
    exists|i: int| 0 <= i < pairs.len() && (#[trigger] pairs[i]).1 == y
}

/// The ids of `pairs`, in order.
spec fn ids_of(pairs: Seq<(u128, u32)>) -> Seq<u32> {
    Seq::new(pairs.len(), |i: int| pairs[i].1)
}

/// Computes the rename table: `rename[x]` is the rank of node `x` among the
/// nodes of the buffer under `weights`.
fn rank_nodes(graph: &Vec<Edge>, present: &Vec<bool>, weights: &Vec<u128>) -> (rename: Vec<u32>)
    requires
        present.len() == node_count(graph@),
        forall|x: u32|
            #![trigger has_node(graph@, x)]
            has_node(graph@, x) <==> ((x as int) < present.len() && present[x as int]),
    ensures
        rename.len() == present.len(),
        forall|x: u32|
            #![trigger has_node(graph@, x)]
            has_node(graph@, x) ==> rename[x as int] == position(ranking(graph@, weights@), x),
{
    proof {
        lemma_node_count_bounds(graph@);
    }
    let n = present.len();
    let mut pairs: Vec<(u128, u32)> = Vec::new();
    let mut x: usize = 0;
    while x < n
        invariant
            x <= n,
            n == present.len(),
            n <= 0x1_0000_0000,
            pairs.len() <= x,
            forall|i: int|
                0 <= i < pairs.len() ==> ((#[trigger] pairs[i]).1 as int) < x && present[pairs[i].1 as int]
                    && pairs[i].0 == weight_of(weights@, pairs[i].1),
            forall|i: int, j: int| 0 <= i < j < pairs.len() ==> pairs[i].1 < pairs[j].1,
            forall|y: u32|
                #![trigger lists(pairs@, y)]
                (y as int) < x && present[y as int] ==> lists(pairs@, y),
        decreases n - x,
    {
        if present[x] {
            let w: u128 = if x < weights.len() {
                weights[x]
            } else {
                0
            };
            let ghost before = pairs@;
            pairs.push((w, x as u32));
            proof {
                assert forall|y: u32| (y as int) < x + 1 && present[y as int] implies lists(
                    pairs@,
                    y,
                ) by {
                    if (y as int) < x {
                        assert(lists(before, y));
                        let i = choose|i: int| 0 <= i < before.len() && (#[trigger] before[i]).1 == y;
                        assert(pairs@[i].1 == y);
                    } else {
                        assert(pairs@[before.len() as int].1 == y);
                    }
                }
            }
        }
        x += 1;
    }
    let ghost unsorted = pairs@;
    sort(&mut pairs);
    let ghost order = ids_of(pairs@);
    proof {
        broadcast use group_to_multiset_ensures;
        assert(unsorted.no_duplicates());
        unsorted.lemma_multiset_has_no_duplicates();
        pairs@.lemma_multiset_has_no_duplicates_conv();
        assert(pairs@.len() == unsorted.len()) by {
            assert(pairs@.to_multiset().len() == pairs@.len());
            assert(unsorted.to_multiset().len() == unsorted.len());
        }
        assert forall|p: (u128, u32)| pairs@.contains(p) <==> unsorted.contains(p) by {
            assert(pairs@.to_multiset().count(p) == unsorted.to_multiset().count(p));
        }
        assert forall|i: int| 0 <= i < pairs.len() implies (#[trigger] pairs[i]).0 == weight_of(
            weights@,
            pairs[i].1,
        ) && present[pairs[i].1 as int] && (pairs[i].1 as int) < n by {
            assert(pairs@.contains(pairs[i]));
            assert(unsorted.contains(pairs[i]));
            let j = choose|j: int| 0 <= j < unsorted.len() && unsorted[j] == pairs[i];
            assert(unsorted[j].0 == weight_of(weights@, unsorted[j].1));
        }
        assert forall|i: int, j: int| 0 <= i < j < order.len() implies ranks_before(
            weights@,
            order[i],
            order[j],
        ) by {
            assert(pairs[i].ord_le(pairs[j]));
            assert(pairs[i] != pairs[j]);
        }
        assert forall|y: u32| order.contains(y) <==> has_node(graph@, y) by {
            if order.contains(y) {
                let i = choose|i: int| 0 <= i < order.len() && order[i] == y;
                assert(pairs[i].1 == y);
            }
            if has_node(graph@, y) {
                assert(lists(unsorted, y));
                let i = choose|i: int| 0 <= i < unsorted.len() && (#[trigger] unsorted[i]).1 == y;
                assert(unsorted.contains(unsorted[i]));
                assert(pairs@.contains(unsorted[i]));
                let j = choose|j: int| 0 <= j < pairs.len() && pairs[j] == unsorted[i];
                assert(order[j] == y);
            }
        }
        lemma_ranking(graph@, weights@, order);
    }
    let mut rename: Vec<u32> = Vec::new();
    if n > 0 {
        grow_to(&mut rename, n - 1, 0);
    }
    let mut i: usize = 0;
    while i < pairs.len()
        invariant
            i <= pairs.len(),
            pairs.len() <= n,
            n <= 0x1_0000_0000,
            rename.len() == n,
            order == ids_of(pairs@),
            strictly_ranked(weights@, order),
            forall|j: int| 0 <= j < pairs.len() ==> ((#[trigger] pairs[j]).1 as int) < n,
            forall|j: int| 0 <= j < i ==> rename[order[j] as int] == j,
        decreases pairs.len() - i,
    {
        let id = pairs[i].1;
        proof {
            assert forall|j: int| 0 <= j < i implies order[j] != id by {
                assert(ranks_before(weights@, order[j], order[i as int]));
            }
        }
        rename[id as usize] = i as u32;
        i += 1;
    }
    proof {
        assert forall|y: u32| has_node(graph@, y) implies rename[y as int] == position(
            order,
            y,
        ) by {
            assert(order.contains(y));
            let j = choose|j: int| 0 <= j < order.len() && order[j] == y;
            lemma_position(weights@, order, j);
        }
    }
    rename
}

/// Renumbers the nodes by ascending undirected degree.
///
/// Nodes are ranked by `(degree, old id)`; a node's new id is its rank, so the
/// new ids are dense from zero. Every edge is then oriented from its smaller
/// new id to its larger one.
pub fn reorder(graph: &mut Vec<Edge>)
    ensures
        final(graph)@ == reordered(old(graph)@),
{
    let present = mark_nodes(graph);
    let degrees = count_degrees(graph);
    let rename = rank_nodes(graph, &present, &degrees);
    let ghost g = graph@;
    let ghost order = ranking(g, degree_table(g));
    proof {
        lemma_node_count_bounds(g);
    }
    let mut k: usize = 0;
    while k < graph.len()
        invariant
            graph@.len() == g.len(),
            k <= graph@.len(),
            rename.len() == node_count(g),
            forall|x: u32|
                #![trigger has_node(g, x)]
                has_node(g, x) ==> rename[x as int] == position(order, x),
            forall|j: int| 0 <= j < g.len() ==> (#[trigger] g[j]).0 < node_count(g) && g[j].1 < node_count(g),
            forall|j: int| 0 <= j < k ==> graph@[j] == canonical(relabel(order, g[j])),
            forall|j: int| k <= j < g.len() ==> graph@[j] == g[j],
        decreases graph@.len() - k,
    {
        let (s, d) = graph[k];
        proof {
            assert(touches(g, k as int, s));
            assert(touches(g, k as int, d));
            assert(has_node(g, s) && has_node(g, d));
        }
        let ns = rename[s as usize];
        let nd = rename[d as usize];
        graph[k] = if ns > nd {
            (nd, ns)
        } else {
            (ns, nd)
        };
        k += 1;
    }
    proof {
        assert(graph@ =~= reordered(g));
    }
}

/// Renumbers the nodes by ascending key, where `keys[x]` is the key of id `x`
/// and an id beyond the table has key zero.
///
/// Nodes are ranked by `(key, old id)`; a node's new id is its rank. The
/// orientation of every edge is kept.
pub fn randomize_with(graph: &mut Vec<Edge>, keys: &Vec<u128>)
    ensures
        final(graph)@ == randomized(old(graph)@, keys@),
{
    let present = mark_nodes(graph);
    let rename = rank_nodes(graph, &present, keys);
    let ghost g = graph@;
    let ghost order = ranking(g, keys@);
    proof {
        lemma_node_count_bounds(g);
    }
    let mut k: usize = 0;
    while k < graph.len()
        invariant
            graph@.len() == g.len(),
            k <= graph@.len(),
            rename.len() == node_count(g),
            forall|x: u32|
                #![trigger has_node(g, x)]
                has_node(g, x) ==> rename[x as int] == position(order, x),
            forall|j: int| 0 <= j < g.len() ==> (#[trigger] g[j]).0 < node_count(g) && g[j].1 < node_count(g),
            forall|j: int| 0 <= j < k ==> graph@[j] == relabel(order, g[j]),
            forall|j: int| k <= j < g.len() ==> graph@[j] == g[j],
        decreases graph@.len() - k,
    {
        let (s, d) = graph[k];
        proof {
            assert(touches(g, k as int, s));
            assert(touches(g, k as int, d));
            assert(has_node(g, s) && has_node(g, d));
        }
        graph[k] = (rename[s as usize], rename[d as usize]);
        k += 1;
    }
    proof {
        assert(graph@ =~= randomized(g, keys@));
    }
}

/// The type `rand::rngs::ThreadRng`, the thread-local generator of the `rand`
/// crate. It is only carried from `rand::thread_rng` to `rand::Rng::gen`;
/// nothing is known of its state.
#[verifier::external_type_specification]
#[verifier::external_body]
pub struct ExThreadRng(rand::rngs::ThreadRng);

/// What is taken on trust of `rand::thread_rng`: that it may be called. It
/// hands out the generator of the calling thread, of which nothing is
/// claimed.
pub assume_specification[ rand::thread_rng ]() -> (rng: rand::rngs::ThreadRng);

/// Draws one key with `rand::Rng::gen`. The body is not verified, and nothing
/// is claimed of the key: what calls this is proved for every key that may
/// come back.
#[verifier::external_body]
fn next_key(rng: &mut rand::rngs::ThreadRng) -> (key: u128) {
    rng.gen::<u128>()
}

/// Draws one key for every node of the buffer, in the order in which the
/// nodes first appear.
///
/// The table has one entry for every id below the node count. The entry of a
/// node is the key drawn for it, of which nothing is known; the entry of an id
/// that does not occur is zero, and no key is drawn for it.
fn draw_keys(graph: &Vec<Edge>, rng: &mut rand::rngs::ThreadRng) -> (keys: Vec<u128>)
    ensures
        keys@.len() == node_count(graph@),
        forall|x: u32|
            #![trigger has_node(graph@, x)]
            (x as int) < keys@.len() && !has_node(graph@, x) ==> keys@[x as int] == 0,
{
    let mut keys: Vec<u128> = Vec::new();
    let mut drawn: Vec<bool> = Vec::new();
    let mut k: usize = 0;
    proof {
        assert(graph@.take(0) =~= Seq::<Edge>::empty());
        assert forall|x: u32| !has_node(graph@.take(0), x) by {
            if has_node(graph@.take(0), x) {
                let i = choose|i: int| touches(graph@.take(0), i, x);
            }
        }
    }
    while k < graph.len()
        invariant
            k <= graph.len(),
            keys.len() == drawn.len(),
            keys.len() == node_count(graph@.take(k as int)),
            forall|x: u32|
                #![trigger has_node(graph@.take(k as int), x)]
                has_node(graph@.take(k as int), x) <==> ((x as int) < drawn.len()
                    && drawn[x as int]),
            forall|i: int| 0 <= i < keys.len() && !drawn[i] ==> #[trigger] keys[i] == 0,
        decreases graph.len() - k,
    {
        let (s, d) = graph[k];
        let ghost before = graph@.take(k as int);
        let ghost marks = drawn@;
        proof {
            lemma_push_edge(before, (s, d));
            assert(graph@.take(k + 1) =~= before.push((s, d)));
        }
        grow_to(&mut keys, s as usize, 0);
        grow_to(&mut drawn, s as usize, false);
        grow_to(&mut keys, d as usize, 0);
        grow_to(&mut drawn, d as usize, false);
        if !drawn[s as usize] {
            keys[s as usize] = next_key(rng);
            drawn[s as usize] = true;
        }
        if !drawn[d as usize] {
            keys[d as usize] = next_key(rng);
            drawn[d as usize] = true;
        }
        proof {
            assert forall|x: u32|
                has_node(graph@.take(k + 1), x) <==> ((x as int) < drawn.len()
                    && drawn[x as int]) by {
                assert(has_node(before, x) <==> ((x as int) < marks.len() && marks[x as int]));
                assert(has_node(before.push((s, d)), x) <==> (has_node(before, x) || s == x || d
                    == x));
            }
        }
        k += 1;
    }
    proof {
        assert(graph@.take(k as int) =~= graph@);
        assert forall|x: u32|
            #![trigger has_node(graph@, x)]
            (x as int) < keys@.len() && !has_node(graph@, x) implies keys@[x as int] == 0 by {
            assert(has_node(graph@.take(k as int), x) <==> ((x as int) < drawn.len()
                && drawn[x as int]));
        }
    }
    keys
}

/// Renumbers the nodes in a random order.
///
/// One random key is drawn per node and the nodes are renumbered by
/// [`randomize_with`]. Which keys come back is left open, so the result is
/// stated for some key table.
pub fn randomize(graph: &mut Vec<Edge>)
    ensures
        exists|keys: Seq<u128>| final(graph)@ == randomized(old(graph)@, keys),
{
    let mut rng = rand::thread_rng();
    let keys = draw_keys(graph, &mut rng);
    randomize_with(graph, &keys);
}

} // verus!
