use graph_ingest::format::{decode_offsets, decode_targets, GraphView};
use graph_ingest::pipeline::{build, ingest, Transform};
use graph_ingest::reader::{read_edges, read_strings};

fn arrays_of(
    text: &str,
    separator: Option<char>,
    strings: bool,
    transforms: Vec<Transform>,
) -> (Vec<u64>, Vec<u32>) {
    let files = ingest(text, separator, strings, &transforms).expect("the text is well formed");
    (decode_offsets(&files.offsets), decode_targets(&files.targets))
}

#[test]
fn sort_only() {
    let (offsets, targets) = arrays_of("0 1\n1 2\n0 2\n", None, false, vec![Transform::Sort]);
    assert_eq!(offsets, vec![0, 2, 3, 3]);
    assert_eq!(targets, vec![1, 2, 2]);
}

#[test]
fn dedup_then_deloop_on_sorted_input() {
    let (offsets, targets) = arrays_of(
        "0 0\n0 1\n0 1\n2 3\n",
        None,
        false,
        vec![Transform::Dedup, Transform::Deloop],
    );
    assert_eq!(offsets, vec![0, 1, 1, 2, 2]);
    assert_eq!(targets, vec![1, 3]);
    assert_eq!(targets[offsets[0] as usize..offsets[1] as usize].to_vec(), vec![1]);
    assert_eq!(targets[offsets[2] as usize..offsets[3] as usize].to_vec(), vec![3]);
}

#[test]
fn undirect_sort_dedup() {
    let (offsets, targets) = arrays_of(
        "3 1\n1 3\n2 3\n",
        None,
        false,
        vec![Transform::Undirect, Transform::Sort, Transform::Dedup],
    );
    assert_eq!(offsets, vec![0, 0, 1, 2, 2]);
    assert_eq!(targets, vec![3, 3]);
}

#[test]
fn symmetrize_sort_dedup() {
    let (offsets, targets) = arrays_of(
        "0 1\n1 2\n",
        None,
        false,
        vec![Transform::Symmetrize, Transform::Sort, Transform::Dedup],
    );
    assert_eq!(offsets, vec![0, 1, 3, 4]);
    assert_eq!(targets, vec![1, 0, 2, 1]);
}

#[test]
fn strings_mode_without_transforms() {
    let text = "alice bob\nbob carol\nalice carol\n";
    assert_eq!(read_strings(text, None), Ok(vec![(0, 1), (1, 2), (0, 2)]));
    let (offsets, targets) = arrays_of(text, None, true, vec![]);
    assert_eq!(offsets, vec![0, 2, 3, 3]);
    assert_eq!(targets, vec![1, 2, 2]);
}

#[test]
fn deloop_leaves_the_empty_graph() {
    let (offsets, targets) = arrays_of("5 5\n", None, false, vec![Transform::Deloop]);
    assert_eq!(offsets, vec![0]);
    assert_eq!(targets, Vec::<u32>::new());
}

#[test]
fn files_are_little_endian() {
    let files = ingest("0 1\n1 2\n0 2\n", None, false, &vec![Transform::Sort]).unwrap();
    assert_eq!(
        files.offsets,
        vec![
            0, 0, 0, 0, 0, 0, 0, 0, 2, 0, 0, 0, 0, 0, 0, 0, 3, 0, 0, 0, 0, 0, 0, 0, 3, 0, 0, 0, 0,
            0, 0, 0
        ]
    );
    assert_eq!(files.targets, vec![1, 0, 0, 0, 2, 0, 0, 0, 2, 0, 0, 0]);
}

#[test]
fn final_sort_is_always_applied() {
    let (offsets, targets) = arrays_of("2 0\n0 1\n1 0\n0 0\n", None, false, vec![]);
    assert_eq!(offsets, vec![0, 2, 3, 4]);
    assert_eq!(targets, vec![0, 1, 0, 0]);
}

#[test]
fn final_sort_does_not_dedup() {
    let (offsets, targets) = arrays_of("0 1\n0 1\n", None, false, vec![Transform::Symmetrize]);
    assert_eq!(offsets, vec![0, 2, 4]);
    assert_eq!(targets, vec![1, 1, 0, 0]);
}

#[test]
fn offsets_file_has_the_promised_shape() {
    let texts = ["", "7 3\n", "0 1\n1 2\n0 2\n", "4 4\n4 4\n1 9\n", "3 1\n1 3\n2 3\n"];
    let pipelines = [
        vec![],
        vec![Transform::Symmetrize],
        vec![Transform::Reorder],
        vec![Transform::Randomize, Transform::Dedup],
        vec![Transform::Undirect, Transform::Sort, Transform::Dedup, Transform::Deloop],
    ];
    for text in texts.iter() {
        for transforms in pipelines.iter() {
            let files = ingest(text, None, false, transforms).unwrap();
            let offsets = decode_offsets(&files.offsets);
            let targets = decode_targets(&files.targets);
            assert_eq!(files.offsets.len(), offsets.len() * 8);
            assert!(offsets.len() >= 1);
            assert_eq!(offsets[0], 0);
            assert!(offsets.windows(2).all(|pair| pair[0] <= pair[1]));
            assert_eq!(*offsets.last().unwrap() as usize, files.targets.len() / 4);
            assert_eq!(targets.len(), files.targets.len() / 4);
        }
    }
}

#[test]
fn reading_back_gives_the_sorted_edge_lists() {
    let text = "2 9\n0 4\n2 1\n0 4\n7 7\n2 5\n";
    let mut expected = read_edges(text, None).unwrap();
    expected.sort();
    let files = ingest(text, None, false, &vec![]).unwrap();
    let view = GraphView::from_bytes(&files.offsets, &files.targets).expect("well formed");
    assert_eq!(view.nodes(), 10);
    assert_eq!(view.edge_count(), 6);
    for node in 0..view.nodes() {
        let wanted: Vec<u32> = expected
            .iter()
            .filter(|edge| edge.0 as usize == node)
            .map(|edge| edge.1)
            .collect();
        assert_eq!(view.edges(node).to_vec(), wanted);
    }
    assert_eq!(view.edges(0).to_vec(), vec![4, 4]);
    assert_eq!(view.edges(2).to_vec(), vec![1, 5, 9]);
    assert_eq!(view.edges(7).to_vec(), vec![7]);
    assert_eq!(view.edges(10).to_vec(), Vec::<u32>::new());
}

#[test]
fn build_sorts_before_the_layout() {
    let (offsets, targets) = build(vec![(1, 2), (0, 2), (0, 1)], &vec![]);
    assert_eq!(offsets, vec![0, 2, 3, 3]);
    assert_eq!(targets, vec![1, 2, 2]);
}

#[test]
fn a_fault_in_the_text_stops_the_pipeline() {
    let result = ingest("0 1\nx 2\n", None, false, &vec![Transform::Sort]);
    assert!(result.is_err());
    let error = result.err().unwrap();
    assert_eq!(error.line, 2);
    assert_eq!(error.fault, graph_ingest::text::LineFault::MalformedSrc);
}
