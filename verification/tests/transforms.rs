use graph_ingest::csr::_extract_fragment;
use graph_ingest::transforms::{dedup, deloop, sort, symmetrize, undirect};

#[test]
fn sort_orders_by_source_then_destination() {
    let mut graph = vec![(2, 1), (0, 5), (2, 0), (0, 1), (1, 9), (0, 5)];
    sort(&mut graph);
    assert_eq!(graph, vec![(0, 1), (0, 5), (0, 5), (1, 9), (2, 0), (2, 1)]);
}

#[test]
fn sort_agrees_with_the_standard_sort() {
    let mut graph: Vec<(u32, u32)> = Vec::new();
    let mut state: u64 = 12345;
    for _ in 0..2000 {
        state = state.wrapping_mul(6364136223846793005).wrapping_add(1442695040888963407);
        let src = ((state >> 33) % 50) as u32;
        state = state.wrapping_mul(6364136223846793005).wrapping_add(1442695040888963407);
        let dst = ((state >> 33) % 50) as u32;
        graph.push((src, dst));
    }
    let mut expected = graph.clone();
    expected.sort_unstable();
    sort(&mut graph);
    assert_eq!(graph, expected);
}

#[test]
fn sort_of_empty_and_single() {
    let mut empty: Vec<(u32, u32)> = vec![];
    sort(&mut empty);
    assert_eq!(empty, vec![]);
    let mut single = vec![(4294967295, 0)];
    sort(&mut single);
    assert_eq!(single, vec![(4294967295, 0)]);
}

#[test]
fn dedup_removes_adjacent_repeats_only() {
    let mut graph = vec![(0, 1), (0, 1), (2, 3), (0, 1), (0, 1), (0, 1), (2, 3)];
    dedup(&mut graph);
    assert_eq!(graph, vec![(0, 1), (2, 3), (0, 1), (2, 3)]);
}

#[test]
fn dedup_after_sort_leaves_no_duplicates() {
    let mut graph = vec![(3, 1), (0, 0), (3, 1), (1, 2), (0, 0), (3, 1), (1, 2), (1, 3)];
    sort(&mut graph);
    dedup(&mut graph);
    assert_eq!(graph, vec![(0, 0), (1, 2), (1, 3), (3, 1)]);
    for i in 0..graph.len() {
        for j in 0..graph.len() {
            assert!(i == j || graph[i] != graph[j]);
        }
    }
}

#[test]
fn dedup_of_empty() {
    let mut graph: Vec<(u32, u32)> = vec![];
    dedup(&mut graph);
    assert!(graph.is_empty());
}

#[test]
fn deloop_removes_the_loops_and_nothing_else() {
    let mut graph = vec![(5, 5), (3, 1), (0, 0), (1, 3), (3, 1), (9, 9), (2, 0)];
    deloop(&mut graph);
    assert_eq!(graph, vec![(3, 1), (1, 3), (3, 1), (2, 0)]);
}

#[test]
fn deloop_of_loops_only() {
    let mut graph = vec![(5, 5), (0, 0)];
    deloop(&mut graph);
    assert!(graph.is_empty());
}

#[test]
fn undirect_points_from_small_to_large() {
    let mut graph = vec![(3, 1), (1, 3), (2, 2), (9, 0)];
    undirect(&mut graph);
    assert_eq!(graph, vec![(1, 3), (1, 3), (2, 2), (0, 9)]);
    assert!(graph.iter().all(|edge| edge.0 <= edge.1));
}

#[test]
fn undirect_twice_is_undirect_once() {
    let mut once = vec![(3, 1), (1, 3), (2, 2), (9, 0), (4, 8)];
    undirect(&mut once);
    let mut twice = once.clone();
    undirect(&mut twice);
    assert_eq!(once, twice);
}

#[test]
fn symmetrize_appends_the_reversed_edges() {
    let mut graph = vec![(0, 1), (1, 2), (3, 3)];
    symmetrize(&mut graph);
    assert_eq!(graph, vec![(0, 1), (1, 2), (3, 3), (1, 0), (2, 1), (3, 3)]);
}

#[test]
fn symmetrize_doubles_the_length() {
    let mut graph = vec![(7, 1), (7, 1), (1, 7)];
    symmetrize(&mut graph);
    assert_eq!(graph.len(), 6);
    let forward = graph.iter().filter(|edge| **edge == (7, 1)).count();
    let backward = graph.iter().filter(|edge| **edge == (1, 7)).count();
    assert_eq!(forward, 3);
    assert_eq!(backward, 3);
}

#[test]
fn layout_of_the_empty_buffer() {
    let (offsets, targets) = _extract_fragment(&vec![]);
    assert_eq!(offsets, vec![0]);
    assert_eq!(targets, Vec::<u32>::new());
}

#[test]
fn layout_counts_sources_below_each_node() {
    let (offsets, targets) = _extract_fragment(&vec![(0, 1), (0, 2), (1, 2)]);
    assert_eq!(offsets, vec![0, 2, 3, 3]);
    assert_eq!(targets, vec![1, 2, 2]);
}

#[test]
fn layout_spans_the_largest_destination() {
    let (offsets, targets) = _extract_fragment(&vec![(1, 6)]);
    assert_eq!(offsets, vec![0, 0, 1, 1, 1, 1, 1, 1]);
    assert_eq!(targets, vec![6]);
}

#[test]
fn layout_keeps_nodes_without_edges() {
    let (offsets, targets) = _extract_fragment(&vec![(0, 0), (3, 1), (3, 2)]);
    assert_eq!(offsets, vec![0, 1, 1, 1, 3]);
    assert_eq!(targets, vec![0, 1, 2]);
}

#[test]
fn dedup_twice_is_dedup_once() {
    let mut once = vec![(0, 1), (0, 1), (2, 3), (0, 1), (0, 1), (2, 3), (2, 3)];
    dedup(&mut once);
    let mut twice = once.clone();
    dedup(&mut twice);
    assert_eq!(once, twice);
}

#[test]
fn deloop_twice_is_deloop_once() {
    let mut once = vec![(5, 5), (3, 1), (0, 0), (1, 3)];
    deloop(&mut once);
    let mut twice = once.clone();
    deloop(&mut twice);
    assert_eq!(once, twice);
}

#[test]
fn symmetric_closure_without_repetitions() {
    let mut graph = vec![(0, 1), (1, 0), (2, 2), (1, 2), (0, 1)];
    symmetrize(&mut graph);
    sort(&mut graph);
    dedup(&mut graph);
    assert_eq!(graph, vec![(0, 1), (1, 0), (1, 2), (2, 1), (2, 2)]);
}
