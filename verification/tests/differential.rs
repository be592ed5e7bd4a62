use graph_ingest::csr::_extract_fragment;
use graph_ingest::format::{decode_offsets, decode_targets, encode_offsets, encode_targets};
use graph_ingest::format::GraphView;
use graph_ingest::reader::{read_edges, read_strings};
use graph_ingest::renumber::{randomize_with, reorder};
use graph_ingest::transforms::{dedup, deloop, sort, symmetrize, undirect};

fn next_of(state: &mut u64) -> u64 {
    *state = state.wrapping_mul(6364136223846793005).wrapping_add(1442695040888963407);
    *state >> 33
}

fn graph_of(seed: u64, edges: usize, ids: u64) -> Vec<(u32, u32)> {
    let mut state = seed;
    let mut graph = Vec::new();
    for _ in 0..edges {
        let src = (next_of(&mut state) % ids) as u32;
        let dst = (next_of(&mut state) % ids) as u32;
        graph.push((src, dst));
    }
    graph
}

#[test]
fn dedup_agrees_with_the_standard_dedup() {
    for seed in 0..40 {
        let mut graph = graph_of(seed, 300, 3);
        let mut expected = graph.clone();
        expected.dedup();
        dedup(&mut graph);
        assert_eq!(graph, expected);
    }
}

#[test]
fn deloop_agrees_with_the_standard_retain() {
    for seed in 0..40 {
        let mut graph = graph_of(seed, 300, 4);
        let mut expected = graph.clone();
        expected.retain(|edge| edge.0 != edge.1);
        deloop(&mut graph);
        assert_eq!(graph, expected);
    }
}

#[test]
fn undirect_agrees_with_min_and_max() {
    for seed in 0..20 {
        let mut graph = graph_of(seed, 200, 50);
        let expected: Vec<(u32, u32)> =
            graph.iter().map(|edge| (edge.0.min(edge.1), edge.0.max(edge.1))).collect();
        undirect(&mut graph);
        assert_eq!(graph, expected);
    }
}

#[test]
fn symmetrize_agrees_with_appending_the_swapped_edges() {
    for seed in 0..20 {
        let mut graph = graph_of(seed, 100, 50);
        let mut expected = graph.clone();
        expected.extend(graph.iter().map(|edge| (edge.1, edge.0)));
        symmetrize(&mut graph);
        assert_eq!(graph, expected);
    }
}

#[test]
fn layout_agrees_with_counting() {
    for seed in 0..40 {
        let mut graph = graph_of(seed, (seed as usize) * 7, 1 + seed % 30);
        sort(&mut graph);
        let (offsets, targets) = _extract_fragment(&graph);
        let nodes = graph.iter().map(|edge| edge.0.max(edge.1) as usize + 1).max().unwrap_or(0);
        assert_eq!(offsets.len(), nodes + 1);
        for node in 0..=nodes {
            let below = graph.iter().filter(|edge| (edge.0 as usize) < node).count();
            assert_eq!(offsets[node], below as u64);
        }
        let wanted: Vec<u32> = graph.iter().map(|edge| edge.1).collect();
        assert_eq!(targets, wanted);
        let view = GraphView::new(offsets, targets).expect("well formed");
        for node in 0..nodes {
            let list: Vec<u32> = graph
                .iter()
                .filter(|edge| edge.0 as usize == node)
                .map(|edge| edge.1)
                .collect();
            assert_eq!(view.edges(node).to_vec(), list);
        }
    }
}

#[test]
fn reorder_agrees_with_sorting_degree_pairs() {
    for seed in 0..40 {
        let input = graph_of(seed, 5 + (seed as usize) * 3, 2 + seed % 25);
        let size = input.iter().map(|edge| edge.0.max(edge.1) as usize + 1).max().unwrap();
        let mut degrees = vec![0u64; size];
        for edge in input.iter() {
            degrees[edge.0 as usize] += 1;
            degrees[edge.1 as usize] += 1;
        }
        let mut pairs: Vec<(u64, u32)> = degrees
            .iter()
            .enumerate()
            .filter(|(_, degree)| **degree > 0)
            .map(|(id, degree)| (*degree, id as u32))
            .collect();
        pairs.sort();
        let mut rename = vec![0u32; size];
        for (rank, pair) in pairs.iter().enumerate() {
            rename[pair.1 as usize] = rank as u32;
        }
        let expected: Vec<(u32, u32)> = input
            .iter()
            .map(|edge| {
                let src = rename[edge.0 as usize];
                let dst = rename[edge.1 as usize];
                (src.min(dst), src.max(dst))
            })
            .collect();
        let mut graph = input.clone();
        reorder(&mut graph);
        assert_eq!(graph, expected);
    }
}

#[test]
fn randomize_with_agrees_with_sorting_key_pairs() {
    for seed in 0..40 {
        let input = graph_of(seed, 5 + (seed as usize) * 3, 2 + seed % 25);
        let size = input.iter().map(|edge| edge.0.max(edge.1) as usize + 1).max().unwrap();
        let mut state = seed + 1000;
        let keys: Vec<u128> = (0..size).map(|_| (next_of(&mut state) % 8) as u128).collect();
        let mut present = vec![false; size];
        for edge in input.iter() {
            present[edge.0 as usize] = true;
            present[edge.1 as usize] = true;
        }
        let mut pairs: Vec<(u128, u32)> =
            (0..size).filter(|id| present[*id]).map(|id| (keys[id], id as u32)).collect();
        pairs.sort();
        let mut rename = vec![0u32; size];
        for (rank, pair) in pairs.iter().enumerate() {
            rename[pair.1 as usize] = rank as u32;
        }
        let expected: Vec<(u32, u32)> = input
            .iter()
            .map(|edge| (rename[edge.0 as usize], rename[edge.1 as usize]))
            .collect();
        let mut graph = input.clone();
        randomize_with(&mut graph, &keys);
        assert_eq!(graph, expected);
    }
}

#[test]
fn bytes_agree_with_the_standard_encoding_and_back() {
    let mut state = 99;
    for _ in 0..50 {
        let count = (next_of(&mut state) % 20) as usize;
        let offsets: Vec<u64> = (0..count)
            .map(|_| (next_of(&mut state) << 31) ^ next_of(&mut state) ^ (next_of(&mut state) << 62))
            .collect();
        let targets: Vec<u32> =
            (0..count).map(|_| (next_of(&mut state) ^ (next_of(&mut state) << 20)) as u32).collect();
        let offset_bytes: Vec<u8> = offsets.iter().flat_map(|value| value.to_le_bytes()).collect();
        let target_bytes: Vec<u8> = targets.iter().flat_map(|value| value.to_le_bytes()).collect();
        assert_eq!(encode_offsets(&offsets), offset_bytes);
        assert_eq!(encode_targets(&targets), target_bytes);
        assert_eq!(decode_offsets(&offset_bytes), offsets);
        assert_eq!(decode_targets(&target_bytes), targets);
    }
}

#[test]
fn reading_agrees_with_the_standard_splitters() {
    let mut state = 7;
    for _ in 0..30 {
        let mut text = String::new();
        let mut expected = Vec::new();
        let lines = next_of(&mut state) % 40;
        for _ in 0..lines {
            match next_of(&mut state) % 6 {
                0 => text.push_str("# note\n"),
                1 => text.push('\n'),
                2 => text.push_str("% 1 2\r\n"),
                _ => {
                    let src = (next_of(&mut state) % 1000) as u32;
                    let dst = (next_of(&mut state) % 1000) as u32;
                    let gap = if next_of(&mut state) % 2 == 0 { " " } else { " \t  " };
                    let tail = if next_of(&mut state) % 3 == 0 { " extra 9" } else { "" };
                    let end = if next_of(&mut state) % 2 == 0 { "\n" } else { "\r\n" };
                    text.push_str(&format!("{}{}{}{}{}", src, gap, dst, tail, end));
                    expected.push((src, dst));
                }
            }
        }
        assert_eq!(read_edges(&text, None), Ok(expected));
    }
}

#[test]
fn interning_agrees_with_a_first_seen_list() {
    let mut state = 21;
    for _ in 0..30 {
        let mut text = String::new();
        let mut seen: Vec<String> = Vec::new();
        let mut expected = Vec::new();
        let lines = next_of(&mut state) % 40;
        for _ in 0..lines {
            let mut ids = Vec::new();
            let mut words = Vec::new();
            for _ in 0..2 {
                let word = format!("w{}", next_of(&mut state) % 12);
                let id = match seen.iter().position(|known| *known == word) {
                    Some(id) => id,
                    None => {
                        seen.push(word.clone());
                        seen.len() - 1
                    }
                };
                ids.push(id as u32);
                words.push(word);
            }
            text.push_str(&format!("{};{}\n", words[0], words[1]));
            expected.push((ids[0], ids[1]));
        }
        assert_eq!(read_strings(&text, Some(';')), Ok(expected));
    }
}
