use graph_ingest::renumber::{randomize, randomize_with, reorder};

fn degrees_of(graph: &Vec<(u32, u32)>) -> Vec<usize> {
    let size = graph.iter().map(|edge| edge.0.max(edge.1) as usize + 1).max().unwrap_or(0);
    let mut degrees = vec![0; size];
    for edge in graph.iter() {
        degrees[edge.0 as usize] += 1;
        degrees[edge.1 as usize] += 1;
    }
    degrees
}

#[test]
fn reorder_ranks_by_degree_then_id() {
    let mut graph = vec![(0, 1), (1, 2), (1, 3)];
    reorder(&mut graph);
    assert_eq!(graph, vec![(0, 3), (1, 3), (2, 3)]);
}

#[test]
fn reorder_compacts_the_id_space() {
    let mut graph = vec![(50, 70)];
    reorder(&mut graph);
    assert_eq!(graph, vec![(0, 1)]);
}

#[test]
fn reorder_counts_a_loop_twice() {
    let mut graph = vec![(4, 4), (4, 2), (7, 9), (9, 7)];
    reorder(&mut graph);
    assert_eq!(graph, vec![(3, 3), (0, 3), (1, 2), (1, 2)]);
}

#[test]
fn reorder_orients_every_edge() {
    let mut graph = vec![(9, 1), (1, 9), (9, 3), (9, 4), (3, 4)];
    reorder(&mut graph);
    assert!(graph.iter().all(|edge| edge.0 <= edge.1));
    assert_eq!(graph, vec![(0, 3), (0, 3), (1, 3), (2, 3), (1, 2)]);
}

#[test]
fn reorder_of_empty() {
    let mut graph: Vec<(u32, u32)> = vec![];
    reorder(&mut graph);
    assert!(graph.is_empty());
}

#[test]
fn reorder_gives_smaller_ids_to_smaller_degrees() {
    let input = vec![(8, 2), (8, 3), (8, 5), (2, 3), (5, 5), (11, 8), (2, 11)];
    let before = degrees_of(&input);
    let mut graph = input.clone();
    reorder(&mut graph);
    let after = degrees_of(&graph);
    let nodes = before.iter().filter(|degree| **degree > 0).count();
    assert_eq!(after.len(), nodes);
    assert!(after.iter().all(|degree| *degree > 0));
    assert!(after.windows(2).all(|pair| pair[0] <= pair[1]));
    let mut sorted: Vec<usize> = before.into_iter().filter(|degree| *degree > 0).collect();
    sorted.sort();
    assert_eq!(after, sorted);
}

#[test]
fn randomize_with_ranks_by_key_then_id() {
    let mut graph = vec![(0, 1), (1, 2)];
    randomize_with(&mut graph, &vec![5, 3, 9]);
    assert_eq!(graph, vec![(1, 0), (0, 2)]);
}

#[test]
fn randomize_with_breaks_ties_by_id() {
    let mut graph = vec![(3, 0), (2, 3), (0, 2)];
    randomize_with(&mut graph, &vec![7, 7, 7, 7]);
    assert_eq!(graph, vec![(2, 0), (1, 2), (0, 1)]);
}

#[test]
fn randomize_with_gives_missing_keys_zero() {
    let mut graph = vec![(0, 1), (1, 2)];
    randomize_with(&mut graph, &vec![4]);
    assert_eq!(graph, vec![(2, 0), (0, 1)]);
}

#[test]
fn randomize_with_keeps_orientation() {
    let mut graph = vec![(5, 1)];
    randomize_with(&mut graph, &vec![0, 2, 0, 0, 0, 1]);
    assert_eq!(graph, vec![(0, 1)]);
    let mut other = vec![(5, 1)];
    randomize_with(&mut other, &vec![0, 1, 0, 0, 0, 2]);
    assert_eq!(other, vec![(1, 0)]);
}

#[test]
fn randomize_permutes_the_nodes() {
    let input = vec![(10, 20), (20, 30), (20, 40), (40, 40)];
    let mut graph = input.clone();
    randomize(&mut graph);
    assert_eq!(graph.len(), input.len());
    let mut ids: Vec<u32> = graph.iter().flat_map(|edge| vec![edge.0, edge.1]).collect();
    ids.sort();
    ids.dedup();
    assert_eq!(ids, vec![0, 1, 2, 3]);
    for i in 0..input.len() {
        for j in 0..input.len() {
            assert_eq!(input[i].0 == input[j].0, graph[i].0 == graph[j].0);
            assert_eq!(input[i].0 == input[j].1, graph[i].0 == graph[j].1);
            assert_eq!(input[i].1 == input[j].1, graph[i].1 == graph[j].1);
        }
    }
    let mut before = degrees_of(&input);
    before.retain(|degree| *degree > 0);
    before.sort();
    let mut after = degrees_of(&graph);
    after.sort();
    assert_eq!(before, after);
}

#[test]
fn randomize_of_empty() {
    let mut graph: Vec<(u32, u32)> = vec![];
    randomize(&mut graph);
    assert!(graph.is_empty());
}
