use graph_ingest::cli::{parse_command, ArgError, ArgFault};
use graph_ingest::pipeline::{apply, apply_all, parse_transform, same_text, Transform};

fn words(line: &str) -> Vec<String> {
    line.split(' ').filter(|word| !word.is_empty()).map(|word| word.to_string()).collect()
}

#[test]
fn transforms_go_by_their_names() {
    assert_eq!(parse_transform("sort"), Some(Transform::Sort));
    assert_eq!(parse_transform("dedup"), Some(Transform::Dedup));
    assert_eq!(parse_transform("deloop"), Some(Transform::Deloop));
    assert_eq!(parse_transform("reorder"), Some(Transform::Reorder));
    assert_eq!(parse_transform("undirect"), Some(Transform::Undirect));
    assert_eq!(parse_transform("randomize"), Some(Transform::Randomize));
    assert_eq!(parse_transform("symmetrize"), Some(Transform::Symmetrize));
}

#[test]
fn other_words_name_no_transform() {
    assert_eq!(parse_transform(""), None);
    assert_eq!(parse_transform("Sort"), None);
    assert_eq!(parse_transform("sort "), None);
    assert_eq!(parse_transform("sorted"), None);
    assert_eq!(parse_transform("strings"), None);
    assert_eq!(parse_transform("separator"), None);
}

#[test]
fn texts_are_compared_by_their_characters() {
    assert!(same_text("", ""));
    assert!(same_text("abc", "abc"));
    assert!(!same_text("abc", "abd"));
    assert!(!same_text("abc", "ab"));
}

#[test]
fn source_and_target_alone() {
    let command = parse_command(&words("in.txt out")).ok().unwrap();
    assert_eq!(command.source, "in.txt");
    assert_eq!(command.target, "out");
    assert_eq!(command.separator, None);
    assert!(!command.strings);
    assert_eq!(command.transforms, vec![]);
}

#[test]
fn every_part_of_the_command() {
    let command =
        parse_command(&words("in out separator , strings undirect sort dedup")).ok().unwrap();
    assert_eq!(command.source, "in");
    assert_eq!(command.target, "out");
    assert_eq!(command.separator, Some(','));
    assert!(command.strings);
    assert_eq!(command.transforms, vec![Transform::Undirect, Transform::Sort, Transform::Dedup]);
}

#[test]
fn strings_without_separator() {
    let command = parse_command(&words("in out strings reorder")).ok().unwrap();
    assert_eq!(command.separator, None);
    assert!(command.strings);
    assert_eq!(command.transforms, vec![Transform::Reorder]);
}

#[test]
fn separator_takes_the_first_character() {
    let command = parse_command(&words("in out separator ;: sort")).ok().unwrap();
    assert_eq!(command.separator, Some(';'));
    assert!(!command.strings);
    assert_eq!(command.transforms, vec![Transform::Sort]);
    let command = parse_command(&words("in out separator é")).ok().unwrap();
    assert_eq!(command.separator, Some('é'));
}

#[test]
fn missing_paths_are_faults() {
    assert_eq!(
        parse_command(&vec![]).err(),
        Some(ArgError { fault: ArgFault::MissingSource, index: 0 })
    );
    assert_eq!(
        parse_command(&words("in")).err(),
        Some(ArgError { fault: ArgFault::MissingTarget, index: 1 })
    );
}

#[test]
fn separator_needs_a_character() {
    assert_eq!(
        parse_command(&words("in out separator")).err(),
        Some(ArgError { fault: ArgFault::MalformedSeparator, index: 3 })
    );
    let mut args = words("in out separator");
    args.push(String::new());
    args.push("sort".to_string());
    assert_eq!(
        parse_command(&args).err(),
        Some(ArgError { fault: ArgFault::MalformedSeparator, index: 3 })
    );
}

#[test]
fn the_first_unknown_transform_is_named() {
    assert_eq!(
        parse_command(&words("in out sort shuffle dedup nope")).err(),
        Some(ArgError { fault: ArgFault::UnknownTransform, index: 3 })
    );
    assert_eq!(
        parse_command(&words("in out sort strings")).err(),
        Some(ArgError { fault: ArgFault::UnknownTransform, index: 3 })
    );
    assert_eq!(
        parse_command(&words("in out strings separator ,")).err(),
        Some(ArgError { fault: ArgFault::UnknownTransform, index: 3 })
    );
    assert_eq!(
        parse_command(&words("in out separator , strings strings")).err(),
        Some(ArgError { fault: ArgFault::UnknownTransform, index: 5 })
    );
}

#[test]
fn one_transform_at_a_time() {
    let mut graph = vec![(3, 1), (1, 3), (2, 2)];
    apply(Transform::Undirect, &mut graph);
    assert_eq!(graph, vec![(1, 3), (1, 3), (2, 2)]);
    apply(Transform::Dedup, &mut graph);
    assert_eq!(graph, vec![(1, 3), (2, 2)]);
    apply(Transform::Deloop, &mut graph);
    assert_eq!(graph, vec![(1, 3)]);
    apply(Transform::Symmetrize, &mut graph);
    assert_eq!(graph, vec![(1, 3), (3, 1)]);
    apply(Transform::Reorder, &mut graph);
    assert_eq!(graph, vec![(0, 1), (0, 1)]);
    apply(Transform::Randomize, &mut graph);
    assert!(graph == vec![(0, 1), (0, 1)] || graph == vec![(1, 0), (1, 0)]);
    apply(Transform::Sort, &mut graph);
    assert_eq!(graph[0], graph[1]);
}

#[test]
fn transforms_run_from_left_to_right() {
    let mut graph = vec![(0, 1), (0, 1)];
    apply_all(&vec![Transform::Symmetrize, Transform::Dedup], &mut graph);
    assert_eq!(graph, vec![(0, 1), (1, 0)]);
    let mut graph = vec![(0, 1), (0, 1)];
    apply_all(&vec![Transform::Dedup, Transform::Symmetrize], &mut graph);
    assert_eq!(graph, vec![(0, 1), (1, 0)]);
    let mut graph = vec![(0, 1), (1, 0), (0, 1)];
    apply_all(&vec![Transform::Dedup, Transform::Undirect], &mut graph);
    assert_eq!(graph, vec![(0, 1), (0, 1), (0, 1)]);
    let mut graph = vec![(0, 1), (1, 0), (0, 1)];
    apply_all(&vec![Transform::Undirect, Transform::Dedup], &mut graph);
    assert_eq!(graph, vec![(0, 1)]);
}
