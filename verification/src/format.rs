//! The two-file binary format: little-endian arrays without header.
//!
//! The offsets file holds 64-bit entries, the targets file 32-bit entries.
//! This module turns the arrays into bytes, cuts a byte stream into bounded
//! chunks for writing, and reads the arrays back.

use vstd::prelude::*;
use vstd::string::StringExecFns;
use crate::edges::{Edge, node_count, sorted};
use crate::csr::{neighbours, offsets_of, targets_of, lemma_edge_lists, lemma_offsets_shape};

verus! {

/// The path of the offsets file: the prefix followed by `.offsets`.
pub fn offsets_path(prefix: &str) -> (path: String)
    ensures
        path@ == prefix@ + ".offsets"@,
{
    String::from_str(prefix).concat(".offsets")
}

/// The path of the targets file: the prefix followed by `.targets`.
pub fn targets_path(prefix: &str) -> (path: String)
    ensures
        path@ == prefix@ + ".targets"@,
{
    String::from_str(prefix).concat(".targets")
}

/// No single write of the targets file is longer than this many bytes.
pub const CHUNK_BYTES: usize = 1_000_000;

/// `x` with its `j` lowest bytes shifted out.
pub open spec fn shifted(x: nat, j: nat) -> nat
    decreases j,
{
    if j == 0 {
        x
    } else {
        shifted(x, (j - 1) as nat) / 256
    }
}

/// The `j`-th byte of `x`, the lowest byte being byte zero.
pub open spec fn le_byte(x: nat, j: nat) -> u8 {
    (shifted(x, j) % 256) as u8
}

/// The number that `width` bytes stand for in little-endian order, read from
/// position `at`.
pub open spec fn le_word(bytes: Seq<u8>, at: int, width: nat) -> nat
    decreases width,
{
    if width == 0 {
        0
    } else {
        bytes[at] as nat + 256 * le_word(bytes, at + 1, (width - 1) as nat)
    }
}

/// 256 to the power `n`.
pub open spec fn pow256(n: nat) -> nat
    decreases n,
{
    if n == 0 {
        1
    } else {
        256 * pow256((n - 1) as nat)
    }
}

/// The bytes of the offsets file: bytes `8 * k` to `8 * k + 7` hold entry `k`,
/// lowest byte first.
pub open spec fn offsets_bytes(offsets: Seq<u64>) -> Seq<u8> {
    Seq::new(8 * offsets.len(), |i: int| le_byte(offsets[i / 8] as nat, (i % 8) as nat))
}

/// The bytes of the targets file: bytes `4 * k` to `4 * k + 3` hold entry `k`,
/// lowest byte first.
pub open spec fn targets_bytes(targets: Seq<u32>) -> Seq<u8> {
    Seq::new(4 * targets.len(), |i: int| le_byte(targets[i / 4] as nat, (i % 4) as nat))
}

/// The entries that an offsets file holds. Bytes after the last whole entry
/// are not read.
pub open spec fn offsets_from(bytes: Seq<u8>) -> Seq<u64> {
    Seq::new((bytes.len() / 8) as nat, |k: int| le_word(bytes, 8 * k, 8) as u64)
}

/// The entries that a targets file holds. Bytes after the last whole entry
/// are not read.
pub open spec fn targets_from(bytes: Seq<u8>) -> Seq<u32> {
    Seq::new((bytes.len() / 4) as nat, |k: int| le_word(bytes, 4 * k, 4) as u32)
}

proof fn lemma_pow256(n: nat)
    ensures
        pow256(n) >= 1,
        n <= 8 ==> pow256(n) <= 0x1_0000_0000_0000_0000,
        n <= 4 ==> pow256(n) <= 0x1_0000_0000,
        pow256(4) == 0x1_0000_0000,
        pow256(8) == 0x1_0000_0000_0000_0000,
    decreases n,
{
    reveal_with_fuel(pow256, 9);
    if n > 0 {
        lemma_pow256((n - 1) as nat);
    }
}

proof fn lemma_le_word_bound(bytes: Seq<u8>, at: int, width: nat)
    ensures
        le_word(bytes, at, width) < pow256(width),
    decreases width,
{
    if width > 0 {
        lemma_le_word_bound(bytes, at + 1, (width - 1) as nat);
    }
}

proof fn lemma_shifted_step(x: nat, j: nat)
    ensures
        shifted(x / 256, j) == shifted(x, j + 1),
    decreases j,
{
    reveal_with_fuel(shifted, 2);
    if j > 0 {
        lemma_shifted_step(x, (j - 1) as nat);
    }
}

/// Reading back the bytes of a number gives the number.
proof fn lemma_le_word_of_bytes(bytes: Seq<u8>, at: int, width: nat, x: nat)
    requires
        x < pow256(width),
        forall|j: int| 0 <= j < width ==> #[trigger] bytes[at + j] == le_byte(x, j as nat),
    ensures
        le_word(bytes, at, width) == x,
    decreases width,
{
    if width > 0 {
        assert forall|j: int| 0 <= j < width - 1 implies #[trigger] bytes[at + 1 + j] == le_byte(
            x / 256,
            j as nat,
        ) by {
            lemma_shifted_step(x, j as nat);
            assert(bytes[at + (j + 1)] == le_byte(x, (j + 1) as nat));
        }
        lemma_le_word_of_bytes(bytes, at + 1, (width - 1) as nat, x / 256);
        assert(bytes[at + 0] == le_byte(x, 0));
    }
}

/// Appends the `width` lowest bytes of `value`, lowest first.
fn push_le(out: &mut Vec<u8>, value: u64, width: usize)
    requires
        width <= 8,
    ensures
        final(out)@.len() == old(out)@.len() + width,
        forall|i: int| 0 <= i < old(out)@.len() ==> final(out)@[i] == old(out)@[i],
        forall|j: int|
            0 <= j < width ==> #[trigger] final(out)@[old(out)@.len() + j] == le_byte(
                value as nat,
                j as nat,
            ),
{
    let mut rest = value;
    let mut j: usize = 0;
    while j < width
        invariant
            j <= width,
            rest == shifted(value as nat, j as nat),
            out@.len() == old(out)@.len() + j,
            forall|i: int| 0 <= i < old(out)@.len() ==> out@[i] == old(out)@[i],
            forall|i: int|
                0 <= i < j ==> #[trigger] out@[old(out)@.len() + i] == le_byte(
                    value as nat,
                    i as nat,
                ),
        decreases width - j,
    {
        out.push((rest % 256) as u8);
        rest = rest / 256;
        j += 1;
    }
}

/// The bytes of the offsets file for the given offsets array.
pub fn encode_offsets(offsets: &Vec<u64>) -> (bytes: Vec<u8>)
    ensures
        bytes@ == offsets_bytes(offsets@),
{
    let mut bytes: Vec<u8> = Vec::new();
    let mut k: usize = 0;
    while k < offsets.len()
        invariant
            k <= offsets.len(),
            bytes@.len() == 8 * k,
            forall|i: int|
                0 <= i < bytes@.len() ==> #[trigger] bytes@[i] == le_byte(
                    offsets@[i / 8] as nat,
                    (i % 8) as nat,
                ),
        decreases offsets.len() - k,
    {
        let ghost before = bytes@;
        push_le(&mut bytes, offsets[k], 8);
        proof {
            assert forall|i: int| 0 <= i < bytes@.len() implies #[trigger] bytes@[i] == le_byte(
                offsets@[i / 8] as nat,
                (i % 8) as nat,
            ) by {
                if i >= before.len() {
                    let j = i - before.len();
                    assert(bytes@[before.len() + j] == le_byte(offsets@[k as int] as nat, j as nat));
                }
            }
        }
        k += 1;
    }
    proof {
        assert(bytes@ =~= offsets_bytes(offsets@));
    }
    bytes
}

/// The bytes of the targets file for the given targets array.
pub fn encode_targets(targets: &Vec<u32>) -> (bytes: Vec<u8>)
    ensures
        bytes@ == targets_bytes(targets@),
{
    let mut bytes: Vec<u8> = Vec::new();
    let mut k: usize = 0;
    while k < targets.len()
        invariant
            k <= targets.len(),
            bytes@.len() == 4 * k,
            forall|i: int|
                0 <= i < bytes@.len() ==> #[trigger] bytes@[i] == le_byte(
                    targets@[i / 4] as nat,
                    (i % 4) as nat,
                ),
        decreases targets.len() - k,
    {
        let ghost before = bytes@;
        push_le(&mut bytes, targets[k] as u64, 4);
        proof {
            assert forall|i: int| 0 <= i < bytes@.len() implies #[trigger] bytes@[i] == le_byte(
                targets@[i / 4] as nat,
                (i % 4) as nat,
            ) by {
                if i >= before.len() {
                    let j = i - before.len();
                    assert(bytes@[before.len() + j] == le_byte(targets@[k as int] as nat, j as nat));
                }
            }
        }
        k += 1;
    }
    proof {
        assert(bytes@ =~= targets_bytes(targets@));
    }
    bytes
}

/// Where to cut a stream of `len` bytes: every chunk but the last has
/// `CHUNK_BYTES` bytes, and the last has what is left.
pub open spec fn chunk_cuts(len: nat) -> Seq<usize> {
    Seq::new(
        ((len + CHUNK_BYTES - 1) / (CHUNK_BYTES as int) + 1) as nat,
        |i: int|
            if i * CHUNK_BYTES < len {
                (i * CHUNK_BYTES) as usize
            } else {
                len as usize
            },
    )
}

/// The positions at which to cut `len` bytes into writes of at most
/// `CHUNK_BYTES` bytes each: chunk `i` runs from cut `i` to cut `i + 1`.
pub fn chunk_bounds(len: usize) -> (cuts: Vec<usize>)
    ensures
        cuts@ == chunk_cuts(len as nat),
        cuts@.len() >= 1,
        cuts@[0] == 0,
        cuts@.last() == len,
        forall|i: int|
            0 <= i < cuts@.len() - 1 ==> (#[trigger] cuts@[i]) < cuts@[i + 1] <= cuts@[i]
                + CHUNK_BYTES,
{
    let mut cuts: Vec<usize> = Vec::new();
    cuts.push(0);
    let mut at: usize = 0;
    while at < len
        invariant
            at <= len,
            cuts@.len() >= 1,
            cuts@.last() == at,
            at < len ==> at == (cuts@.len() - 1) * CHUNK_BYTES,
            at == len ==> cuts@.len() == (len + CHUNK_BYTES - 1) / (CHUNK_BYTES as int) + 1,
            forall|i: int|
                0 <= i < cuts@.len() ==> #[trigger] cuts@[i] == (if i * CHUNK_BYTES < len {
                    (i * CHUNK_BYTES) as usize
                } else {
                    len
                }),
        decreases len - at,
    {
        let step = if len - at < CHUNK_BYTES {
            len - at
        } else {
            CHUNK_BYTES
        };
        at = at + step;
        cuts.push(at);
    }
    proof {
        assert(cuts@ =~= chunk_cuts(len as nat));
    }
    cuts
}

/// Reads `width` bytes at `at` as a little-endian number.
fn read_le(bytes: &[u8], at: usize, width: usize) -> (value: u64)
    requires
        width <= 8,
        at + width <= bytes@.len(),
    ensures
        value == le_word(bytes@, at as int, width as nat),
{
    let total = bytes.len();
    let mut value: u64 = 0;
    let mut j: usize = width;
    while j > 0
        invariant
            j <= width <= 8,
            at + width <= total == bytes@.len(),
            value == le_word(bytes@, at + j, (width - j) as nat),
        decreases j,
    {
        proof {
            lemma_le_word_bound(bytes@, at + j, (width - j) as nat);
            lemma_pow256((width - j) as nat);
            lemma_pow256((width - j + 1) as nat);
        }
        j -= 1;
        value = value * 256 + bytes[at + j] as u64;
    }
    value
}

/// The entries of an offsets file.
pub fn decode_offsets(bytes: &[u8]) -> (offsets: Vec<u64>)
    ensures
        offsets@ == offsets_from(bytes@),
{
    let count = bytes.len() / 8;
    let mut offsets: Vec<u64> = Vec::new();
    let mut k: usize = 0;
    while k < count
        invariant
            k <= count,
            count == bytes@.len() / 8,
            count * 8 <= usize::MAX,
            offsets@.len() == k,
            forall|i: int| 0 <= i < k ==> #[trigger] offsets@[i] == le_word(bytes@, 8 * i, 8),
        decreases count - k,
    {
        let value = read_le(bytes, 8 * k, 8);
        offsets.push(value);
        k += 1;
    }
    proof {
        assert(offsets@ =~= offsets_from(bytes@));
    }
    offsets
}

/// The entries of a targets file.
pub fn decode_targets(bytes: &[u8]) -> (targets: Vec<u32>)
    ensures
        targets@ == targets_from(bytes@),
{
    let count = bytes.len() / 4;
    let mut targets: Vec<u32> = Vec::new();
    let mut k: usize = 0;
    while k < count
        invariant
            k <= count,
            count == bytes@.len() / 4,
            count * 4 <= usize::MAX,
            targets@.len() == k,
            forall|i: int| 0 <= i < k ==> #[trigger] targets@[i] == le_word(bytes@, 4 * i, 4),
        decreases count - k,
    {
        let value = read_le(bytes, 4 * k, 4);
        proof {
            lemma_le_word_bound(bytes@, 4 * k, 4);
            lemma_pow256(4);
        }
        targets.push(value as u32);
        k += 1;
    }
    proof {
        assert(targets@ =~= targets_from(bytes@));
    }
    targets
}

/// Decoding the bytes of an array gives the array back.
pub proof fn lemma_decode_encode(offsets: Seq<u64>, targets: Seq<u32>)
    ensures
        offsets_bytes(offsets).len() == 8 * offsets.len(),
        targets_bytes(targets).len() == 4 * targets.len(),
        offsets_from(offsets_bytes(offsets)) == offsets,
        targets_from(targets_bytes(targets)) == targets,
{
    let ob = offsets_bytes(offsets);
    let tb = targets_bytes(targets);
    lemma_pow256(8);
    assert forall|k: int| 0 <= k < offsets.len() implies le_word(ob, 8 * k, 8) == offsets[k] by {
        assert forall|j: int| 0 <= j < 8 implies #[trigger] ob[8 * k + j] == le_byte(
            offsets[k] as nat,
            j as nat,
        ) by {
            assert((8 * k + j) / 8 == k && (8 * k + j) % 8 == j);
        }
        lemma_le_word_of_bytes(ob, 8 * k, 8, offsets[k] as nat);
    }
    assert(offsets_from(ob) =~= offsets);
    assert forall|k: int| 0 <= k < targets.len() implies le_word(tb, 4 * k, 4) == targets[k] by {
        assert forall|j: int| 0 <= j < 4 implies #[trigger] tb[4 * k + j] == le_byte(
            targets[k] as nat,
            j as nat,
        ) by {
            assert((4 * k + j) / 4 == k && (4 * k + j) % 4 == j);
        }
        lemma_le_word_of_bytes(tb, 4 * k, 4, targets[k] as nat);
    }
    assert(targets_from(tb) =~= targets);
}

/// What a reader may rely on: there is at least one offset, the first is
/// zero, the offsets never decrease, and the last is the number of targets.
pub open spec fn well_formed(offsets: Seq<u64>, targets: Seq<u32>) -> bool {
    &&& offsets.len() >= 1
    &&& offsets[0] == 0
    &&& forall|i: int, j: int| 0 <= i <= j < offsets.len() ==> offsets[i] <= offsets[j]
    &&& offsets.last() == targets.len()
}

/// The edge list of `node`: the targets between its offset and the next. A
/// node beyond the graph has no edges.
pub open spec fn edge_list(offsets: Seq<u64>, targets: Seq<u32>, node: int) -> Seq<u32> {
    if 0 <= node < offsets.len() - 1 {
        targets.subrange(offsets[node] as int, offsets[node + 1] as int)
    } else {
        Seq::empty()
    }
}

/// A graph in compressed-sparse-row form, as a reader sees it.
pub struct GraphView {
    offsets: Vec<u64>,
    targets: Vec<u32>,
}

impl GraphView {
    #[verifier::type_invariant]
    spec fn inv(self) -> bool {
        well_formed(self.offsets@, self.targets@)
    }

    /// The offsets array.
    pub closed spec fn offsets(self) -> Seq<u64> {
        self.offsets@
    }

    /// The targets array.
    pub closed spec fn targets(self) -> Seq<u32> {
        self.targets@
    }

    /// Takes the two arrays as a graph, if they are well formed.
    pub fn new(offsets: Vec<u64>, targets: Vec<u32>) -> (view: Option<GraphView>)
        ensures
            view is Some <==> well_formed(offsets@, targets@),
            view matches Some(v) ==> v.offsets() == offsets@ && v.targets() == targets@,
    {
        if offsets.len() == 0 || offsets[0] != 0 {
            return None;
        }
        let mut k: usize = 1;
        while k < offsets.len()
            invariant
                1 <= k <= offsets.len(),
                forall|i: int, j: int| 0 <= i <= j < k ==> offsets@[i] <= offsets@[j],
            decreases offsets.len() - k,
        {
            if offsets[k - 1] > offsets[k] {
                return None;
            }
            k += 1;
        }
        if offsets[offsets.len() - 1] != targets.len() as u64 {
            return None;
        }
        Some(GraphView { offsets, targets })
    }

    /// Reads a graph from the contents of its two files.
    pub fn from_bytes(offsets: &[u8], targets: &[u8]) -> (view: Option<GraphView>)
        ensures
            view is Some <==> well_formed(offsets_from(offsets@), targets_from(targets@)),
            view matches Some(v) ==> v.offsets() == offsets_from(offsets@) && v.targets()
                == targets_from(targets@),
    {
        GraphView::new(decode_offsets(offsets), decode_targets(targets))
    }

    /// The number of nodes: one less than the number of offsets.
    pub fn nodes(&self) -> (n: usize)
        ensures
            n == self.offsets().len() - 1,
    {
        proof {
            use_type_invariant(self);
        }
        self.offsets.len() - 1
    }

    /// The number of edges.
    pub fn edge_count(&self) -> (n: usize)
        ensures
            n == self.targets().len(),
    {
        self.targets.len()
    }

    /// The edge list of `node`.
    pub fn edges(&self, node: usize) -> (list: &[u32])
        ensures
            list@ == edge_list(self.offsets(), self.targets(), node as int),
    {
        proof {
            use_type_invariant(self);
        }
        if node < self.offsets.len() - 1 {
            proof {
                assert(self.offsets@[node as int] <= self.offsets@[node + 1]);
                assert(self.offsets@[node + 1] <= self.offsets@[self.offsets@.len() - 1]);
                assert(self.offsets@.last() == self.targets.len());
            }
            let start = self.offsets[node] as usize;
            let limit = self.offsets[node + 1] as usize;
            let all: &[u32] = self.targets.as_slice();
            &all[start..limit]
        } else {
            let all: &[u32] = self.targets.as_slice();
            &all[0..0]
        }
    }
}

/// The offsets file of every buffer has `8 * (n + 1)` bytes for `n` nodes,
/// and its entries start at zero, never decrease, and end at the number of
/// entries of the targets file.
pub proof fn lemma_files_shape(g: Seq<Edge>)
    requires
        g.len() <= usize::MAX,
    ensures
        offsets_bytes(offsets_of(g)).len() == (node_count(g) + 1) * 8,
        targets_bytes(targets_of(g)).len() == g.len() * 4,
        offsets_from(offsets_bytes(offsets_of(g))) == offsets_of(g),
        targets_from(targets_bytes(targets_of(g))) == targets_of(g),
        well_formed(offsets_of(g), targets_of(g)),
        offsets_of(g).last() == targets_bytes(targets_of(g)).len() / 4,
{
    lemma_offsets_shape(g);
    lemma_decode_encode(offsets_of(g), targets_of(g));
}

/// Writing a sorted buffer and reading the files back gives, for every node,
/// the destinations of its edges in ascending order.
pub proof fn lemma_round_trip(g: Seq<Edge>, x: int)
    requires
        sorted(g),
        g.len() <= usize::MAX,
        0 <= x < node_count(g),
    ensures
        offsets_bytes(offsets_of(g)).len() / 8 - 1 == node_count(g),
        edge_list(
            offsets_from(offsets_bytes(offsets_of(g))),
            targets_from(targets_bytes(targets_of(g))),
            x,
        ) == neighbours(g, x),
        forall|i: int, j: int|
            0 <= i <= j < neighbours(g, x).len() ==> neighbours(g, x)[i] <= neighbours(g, x)[j],
{
    lemma_files_shape(g);
    lemma_edge_lists(g, x);
}

} // verus!
