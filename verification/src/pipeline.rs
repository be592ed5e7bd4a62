//! The ingest pipeline: read, transform, sort, lay out, encode.

use vstd::prelude::*;
use crate::csr::{_extract_fragment, offsets_of, targets_of, lemma_offsets_shape};
use crate::edges::{Edge, node_count, sorted};
use crate::format::{encode_offsets, encode_targets, lemma_decode_encode};
use crate::format::{offsets_bytes, offsets_from, targets_bytes, targets_from, well_formed};
use crate::reader::{ReadError, edges_of, interned, lines_of, read_edges, read_strings};
use crate::renumber::{randomize, randomized, reorder, reordered};
use crate::transforms::{dedup, deduped, deloop, symmetrize, symmetrized, undirect, undirected};
use crate::transforms::without_loops;

verus! {

/// One step of the pipeline.
#[derive(Clone, Copy, Debug, PartialEq, Eq, Structural)]
pub enum Transform {
    Sort,
    Dedup,
    Deloop,
    Reorder,
    Undirect,
    Randomize,
    Symmetrize,
}

/// The transform that goes by the given name, if there is one.
pub open spec fn transform_named(name: Seq<char>) -> Option<Transform> {
    if name == "sort"@ {
        Some(Transform::Sort)
    } else if name == "dedup"@ {
        Some(Transform::Dedup)
    } else if name == "deloop"@ {
        Some(Transform::Deloop)
    } else if name == "reorder"@ {
        Some(Transform::Reorder)
    } else if name == "undirect"@ {
        Some(Transform::Undirect)
    } else if name == "randomize"@ {
        Some(Transform::Randomize)
    } else if name == "symmetrize"@ {
        Some(Transform::Symmetrize)
    } else {
        None
    }
}

/// Whether the two strings hold the same characters.
pub fn same_text(a: &str, b: &str) -> (r: bool)
    ensures
        r == (a@ == b@),
{
    a.to_owned() == b.to_owned()
}

/// Reads the name of a transform.
pub fn parse_transform(name: &str) -> (transform: Option<Transform>)
    ensures
        transform == transform_named(name@),
{
    if same_text(name, "sort") {
        Some(Transform::Sort)
    } else if same_text(name, "dedup") {
        Some(Transform::Dedup)
    } else if same_text(name, "deloop") {
        Some(Transform::Deloop)
    } else if same_text(name, "reorder") {
        Some(Transform::Reorder)
    } else if same_text(name, "undirect") {
        Some(Transform::Undirect)
    } else if same_text(name, "randomize") {
        Some(Transform::Randomize)
    } else if same_text(name, "symmetrize") {
        Some(Transform::Symmetrize)
    } else {
        None
    }
}

/// Whether `after` is a buffer that the transform may make of `before`.
/// Every transform but `Randomize` allows one buffer only.
pub open spec fn applied(transform: Transform, before: Seq<Edge>, after: Seq<Edge>) -> bool {
    match transform {
        Transform::Sort => sorted(after) && after.to_multiset() == before.to_multiset(),
        Transform::Dedup => after == deduped(before),
        Transform::Deloop => after == without_loops(before),
        Transform::Reorder => after == reordered(before),
        Transform::Undirect => after == undirected(before),
        Transform::Randomize => exists|keys: Seq<u128>| after == randomized(before, keys),
        Transform::Symmetrize => after == symmetrized(before),
    }
}

/// Whether `after` is a buffer that the transforms, applied from left to
/// right, may make of `before`.
pub open spec fn applied_all(transforms: Seq<Transform>, before: Seq<Edge>, after: Seq<Edge>) -> bool
    decreases transforms.len(),
{
    if transforms.len() == 0 {
        after == before
    } else {
        exists|mid: Seq<Edge>|
            applied_all(transforms.drop_last(), before, mid) && applied(
                transforms.last(),
                mid,
                after,
            )
    }
}

/// Whether `last` is a buffer that the pipeline may hand to the layout: the
/// transforms were applied and then the buffer was sorted.
pub open spec fn prepared(transforms: Seq<Transform>, edges: Seq<Edge>, last: Seq<Edge>) -> bool {
    exists|mid: Seq<Edge>|
        applied_all(transforms, edges, mid) && applied(Transform::Sort, mid, last)
}

/// Applies one transform to the buffer.
pub fn apply(transform: Transform, graph: &mut Vec<Edge>)
    ensures
        applied(transform, old(graph)@, final(graph)@),
{
    match transform {
        Transform::Sort => crate::transforms::sort(graph),
        Transform::Dedup => dedup(graph),
        Transform::Deloop => deloop(graph),
        Transform::Reorder => reorder(graph),
        Transform::Undirect => undirect(graph),
        Transform::Randomize => randomize(graph),
        Transform::Symmetrize => symmetrize(graph),
    }
}

/// Applies the transforms to the buffer, from left to right.
pub fn apply_all(transforms: &Vec<Transform>, graph: &mut Vec<Edge>)
    ensures
        applied_all(transforms@, old(graph)@, final(graph)@),
{
    let ghost start = graph@;
    let mut k: usize = 0;
    proof {
        assert(transforms@.take(0) =~= Seq::<Transform>::empty());
    }
    while k < transforms.len()
        invariant
            k <= transforms.len(),
            applied_all(transforms@.take(k as int), start, graph@),
        decreases transforms.len() - k,
    {
        let ghost mid = graph@;
        apply(transforms[k], graph);
        proof {
            let done = transforms@.take(k + 1);
            assert(done.drop_last() =~= transforms@.take(k as int));
            assert(done.last() == transforms@[k as int]);
            assert(applied_all(done.drop_last(), start, mid) && applied(done.last(), mid, graph@));
        }
        k += 1;
    }
    proof {
        assert(transforms@.take(k as int) =~= transforms@);
    }
}

/// Runs the transforms, sorts, and lays the buffer out in
/// compressed-sparse-row form: the offsets array and the targets array of
/// the sorted buffer.
pub fn build(graph: Vec<Edge>, transforms: &Vec<Transform>) -> (csr: (Vec<u64>, Vec<u32>))
    ensures
        exists|last: Seq<Edge>|
            prepared(transforms@, graph@, last) && csr.0@ == offsets_of(last) && csr.1@
                == targets_of(last),
        well_formed(csr.0@, csr.1@),
{
    let mut graph = graph;
    let ghost start = graph@;
    apply_all(transforms, &mut graph);
    let ghost mid = graph@;
    crate::transforms::sort(&mut graph);
    let csr = _extract_fragment(&graph);
    proof {
        assert(graph.len() <= usize::MAX);
        assert(applied_all(transforms@, start, mid) && applied(Transform::Sort, mid, graph@));
        assert(prepared(transforms@, start, graph@));
        lemma_offsets_shape(graph@);
    }
    csr
}

/// The contents of the two output files.
pub struct Files {
    /// The offsets file: 64-bit entries, lowest byte first.
    pub offsets: Vec<u8>,
    /// The targets file: 32-bit entries, lowest byte first.
    pub targets: Vec<u8>,
}

/// The edges that the text holds, read in the mode asked for.
pub open spec fn parsed(text: Seq<char>, separator: Option<char>, strings: bool) -> Result<
    Seq<Edge>,
    ReadError,
> {
    if strings {
        match interned(lines_of(text), separator) {
            Ok(state) => Ok(state.edges),
            Err(e) => Err(e),
        }
    } else {
        edges_of(lines_of(text), separator)
    }
}

/// Whether the two byte strings are files that the pipeline may write for the
/// given edges: the encoded layout of a buffer that the transforms and the
/// last sort may leave.
pub open spec fn written(
    transforms: Seq<Transform>,
    edges: Seq<Edge>,
    offsets: Seq<u8>,
    targets: Seq<u8>,
) -> bool {
    exists|last: Seq<Edge>|
        prepared(transforms, edges, last) && offsets == offsets_bytes(offsets_of(last)) && targets
            == targets_bytes(targets_of(last)) && offsets.len() == 8 * (node_count(last) + 1)
}

/// Turns a text of edges into the contents of the two output files.
///
/// The text is read in integer mode, or in strings mode if `strings` is set;
/// the transforms are applied in order; the buffer is sorted; and the sorted
/// buffer is laid out and encoded. A fault in the text is the only way to
/// fail. Whatever the text and the transforms, the offsets file has eight
/// bytes per node and eight more, and its entries start at zero, never
/// decrease, and end at the number of entries of the targets file.
pub fn ingest(text: &str, separator: Option<char>, strings: bool, transforms: &Vec<Transform>) -> (result:
    Result<Files, ReadError>)
    ensures
        parsed(text@, separator, strings) matches Err(e) ==> (result matches Err(x) && x == e),
        parsed(text@, separator, strings) matches Ok(edges) ==> (result matches Ok(files)
            && written(transforms@, edges, files.offsets@, files.targets@)),
        result matches Ok(files) ==> (files.offsets@.len() % 8 == 0 && files.targets@.len() % 4 == 0
            && well_formed(offsets_from(files.offsets@), targets_from(files.targets@))),
{
    let read = if strings {
        read_strings(text, separator)
    } else {
        read_edges(text, separator)
    };
    match read {
        Err(e) => Err(e),
        Ok(graph) => {
            let ghost edges = graph@;
            proof {
                assert(parsed(text@, separator, strings) == Ok::<Seq<Edge>, ReadError>(edges));
            }
            let csr = build(graph, transforms);
            let files = Files { offsets: encode_offsets(&csr.0), targets: encode_targets(&csr.1) };
            proof {
                lemma_decode_encode(csr.0@, csr.1@);
                let last = choose|last: Seq<Edge>|
                    prepared(transforms@, edges, last) && csr.0@ == offsets_of(last) && csr.1@
                        == targets_of(last);
                assert(prepared(transforms@, edges, last) && files.offsets@ == offsets_bytes(
                    offsets_of(last),
                ) && files.targets@ == targets_bytes(targets_of(last)) && files.offsets@.len() == 8
                    * (node_count(last) + 1));
                assert(written(transforms@, edges, files.offsets@, files.targets@));
            }
            Ok(files)
        },
    }
}

} // verus!
