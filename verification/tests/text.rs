use graph_ingest::reader::{read_edges, read_strings, Interner, ReadError};
use graph_ingest::text::{chars_of, is_whitespace, parse_field, parse_line, split_line};
use graph_ingest::text::{Fields, LineFault, Record};

fn id_of(field: &str) -> Option<u32> {
    let chars = chars_of(field);
    parse_field(&chars, 0, chars.len())
}

#[test]
fn line_of_two_integers() {
    assert_eq!(parse_line("0 1", None), Record::Edge(0, 1));
    assert_eq!(parse_line("12\t34", None), Record::Edge(12, 34));
    assert_eq!(parse_line("  7   8  ", None), Record::Edge(7, 8));
}

#[test]
fn surplus_fields_are_ignored() {
    assert_eq!(parse_line("1 2 3 four", None), Record::Edge(1, 2));
    assert_eq!(parse_line("1,2,x,y", Some(',')), Record::Edge(1, 2));
}

#[test]
fn comments_and_empty_lines_are_skipped() {
    assert_eq!(parse_line("", None), Record::Skip);
    assert_eq!(parse_line("# 1 2", None), Record::Skip);
    assert_eq!(parse_line("%1 2", None), Record::Skip);
    assert_eq!(parse_line("#", Some(',')), Record::Skip);
    assert_eq!(parse_line(" # 1 2", None), Record::Bad(LineFault::MalformedSrc));
}

#[test]
fn line_with_separator() {
    assert_eq!(parse_line("3,4", Some(',')), Record::Edge(3, 4));
    assert_eq!(parse_line("3;4;5", Some(';')), Record::Edge(3, 4));
    assert_eq!(parse_line("3 4", Some(',')), Record::Bad(LineFault::MalformedSrc));
    assert_eq!(parse_line("3, 4", Some(',')), Record::Bad(LineFault::MalformedDst));
    assert_eq!(parse_line("3,,4", Some(',')), Record::Bad(LineFault::MalformedDst));
    assert_eq!(parse_line(",3", Some(',')), Record::Bad(LineFault::MalformedSrc));
}

#[test]
fn faults_are_found_from_left_to_right() {
    assert_eq!(parse_line("   ", None), Record::Bad(LineFault::MissingSrc));
    assert_eq!(parse_line("x", None), Record::Bad(LineFault::MalformedSrc));
    assert_eq!(parse_line("x y", None), Record::Bad(LineFault::MalformedSrc));
    assert_eq!(parse_line("5", None), Record::Bad(LineFault::MissingDst));
    assert_eq!(parse_line("5 ", None), Record::Bad(LineFault::MissingDst));
    assert_eq!(parse_line("5", Some(',')), Record::Bad(LineFault::MissingDst));
    assert_eq!(parse_line("5 y", None), Record::Bad(LineFault::MalformedDst));
    assert_eq!(parse_line("5 -1", None), Record::Bad(LineFault::MalformedDst));
}

#[test]
fn ids_fill_thirty_two_bits() {
    assert_eq!(id_of("0"), Some(0));
    assert_eq!(id_of("007"), Some(7));
    assert_eq!(id_of("+15"), Some(15));
    assert_eq!(id_of("4294967295"), Some(4294967295));
    assert_eq!(id_of("4294967296"), None);
    assert_eq!(id_of("99999999999999999999999999"), None);
    assert_eq!(id_of("00000000000000000000000001"), Some(1));
    assert_eq!(id_of(""), None);
    assert_eq!(id_of("+"), None);
    assert_eq!(id_of("++1"), None);
    assert_eq!(id_of("-0"), None);
    assert_eq!(id_of("1a"), None);
    assert_eq!(id_of("1.0"), None);
    assert_eq!(id_of("٣"), None);
}

#[test]
fn ids_agree_with_the_standard_parser() {
    let fields = [
        "0", "1", "+1", "-1", "10", "4294967295", "4294967296", "42949672950", "", "+", " 1", "1 ",
        "0x10", "1e3", "000", "+000123", "12345678901", "1_000",
    ];
    for field in fields.iter() {
        assert_eq!(id_of(field), field.parse::<u32>().ok());
    }
}

#[test]
fn a_field_inside_a_line() {
    let chars = chars_of("ab 123 cd");
    assert_eq!(parse_field(&chars, 3, 6), Some(123));
    assert_eq!(parse_field(&chars, 3, 5), Some(12));
    assert_eq!(parse_field(&chars, 4, 4), None);
    assert_eq!(parse_field(&chars, 0, 2), None);
}

#[test]
fn white_space_is_what_the_standard_says() {
    let mut code: u32 = 0;
    while code < 0x3100 {
        if let Some(c) = char::from_u32(code) {
            assert_eq!(is_whitespace(c), c.is_whitespace());
        }
        code += 1;
    }
    assert!(!is_whitespace('\u{feff}'));
    assert!(!is_whitespace('\u{10ffff}'));
}

#[test]
fn fields_are_found_by_position() {
    assert_eq!(split_line(&chars_of("10 20"), None), Fields::Two(0, 2, 3, 5));
    assert_eq!(split_line(&chars_of("  10\u{a0}\t20 30"), None), Fields::Two(2, 4, 6, 8));
    assert_eq!(split_line(&chars_of("10"), None), Fields::One(0, 2));
    assert_eq!(split_line(&chars_of(" \t "), None), Fields::Zero);
    assert_eq!(split_line(&chars_of(""), None), Fields::Skipped);
    assert_eq!(split_line(&chars_of("%"), None), Fields::Skipped);
    assert_eq!(split_line(&chars_of("a,b,c"), Some(',')), Fields::Two(0, 1, 2, 3));
    assert_eq!(split_line(&chars_of(",,"), Some(',')), Fields::Two(0, 0, 1, 1));
    assert_eq!(split_line(&chars_of("a b"), Some(',')), Fields::One(0, 3));
    assert_eq!(split_line(&chars_of("a,"), Some(',')), Fields::Two(0, 1, 2, 2));
}

#[test]
fn text_of_integer_edges() {
    assert_eq!(read_edges("0 1\n1 2\n0 2\n", None), Ok(vec![(0, 1), (1, 2), (0, 2)]));
    assert_eq!(read_edges("0 1\n1 2\n0 2", None), Ok(vec![(0, 1), (1, 2), (0, 2)]));
    assert_eq!(read_edges("", None), Ok(vec![]));
    assert_eq!(read_edges("\n\n", None), Ok(vec![]));
}

#[test]
fn text_with_comments_and_blank_lines() {
    let text = "# a graph\n% by hand\n\n5 6\n\n# more\n6 5\n";
    assert_eq!(read_edges(text, None), Ok(vec![(5, 6), (6, 5)]));
}

#[test]
fn text_with_carriage_returns() {
    assert_eq!(read_edges("1,2\r\n3,4\r\n", Some(',')), Ok(vec![(1, 2), (3, 4)]));
    assert_eq!(read_edges("1 2\r\n\r\n3 4", None), Ok(vec![(1, 2), (3, 4)]));
    assert_eq!(
        read_edges("1,2\r", Some(',')),
        Err(ReadError { line: 1, fault: LineFault::MalformedDst })
    );
}

#[test]
fn text_agrees_with_the_standard_line_splitter() {
    let text = "1 2\n\n3 4\r\n# c\n5 6\n\r\n7 8";
    let mut expected = Vec::new();
    for line in text.lines() {
        match parse_line(line, None) {
            Record::Edge(src, dst) => expected.push((src, dst)),
            Record::Skip => {}
            Record::Bad(_) => unreachable!(),
        }
    }
    assert_eq!(read_edges(text, None), Ok(expected));
}

#[test]
fn the_first_fault_comes_with_its_line() {
    assert_eq!(
        read_edges("0 1\n# c\n\n2\n3 x\n", None),
        Err(ReadError { line: 4, fault: LineFault::MissingDst })
    );
    assert_eq!(
        read_edges("0 1\nx 2\n", None),
        Err(ReadError { line: 2, fault: LineFault::MalformedSrc })
    );
    assert_eq!(
        read_edges("0 1\n1 2\n \n", None),
        Err(ReadError { line: 3, fault: LineFault::MissingSrc })
    );
    assert_eq!(
        read_edges("0 4294967296", None),
        Err(ReadError { line: 1, fault: LineFault::MalformedDst })
    );
}

#[test]
fn tokens_get_ids_in_order_of_first_appearance() {
    let text = "alice bob\nbob carol\nalice carol\n";
    assert_eq!(read_strings(text, None), Ok(vec![(0, 1), (1, 2), (0, 2)]));
    let text = "carol bob\nbob alice\ncarol alice\n";
    assert_eq!(read_strings(text, None), Ok(vec![(0, 1), (1, 2), (0, 2)]));
}

#[test]
fn tokens_are_taken_as_they_stand() {
    assert_eq!(read_strings("1 01\n01 1\n+1 1\n", None), Ok(vec![(0, 1), (1, 0), (2, 0)]));
    assert_eq!(read_strings("a,b\n a,b\n,\n", Some(',')), Ok(vec![(0, 1), (2, 1), (3, 3)]));
    assert_eq!(read_strings("x x\n", None), Ok(vec![(0, 0)]));
}

#[test]
fn tokens_in_a_later_line_get_larger_ids() {
    let text = "n1 n2\nn3 n1\nn4 n5\nn2 n6\n";
    let edges = read_strings(text, None).unwrap();
    assert_eq!(edges, vec![(0, 1), (2, 0), (3, 4), (1, 5)]);
}

#[test]
fn token_lines_need_two_fields() {
    assert_eq!(
        read_strings("a b\nc\n", None),
        Err(ReadError { line: 2, fault: LineFault::MissingDst })
    );
    assert_eq!(
        read_strings("a b\n\n# c\n  \n", None),
        Err(ReadError { line: 4, fault: LineFault::MissingSrc })
    );
    assert_eq!(read_strings("a b\n\n# c\n", None), Ok(vec![(0, 1)]));
}

#[test]
fn interner_counts_from_zero() {
    let mut table = Interner::new();
    assert_eq!(table.len(), 0);
    assert_eq!(table.intern("alice"), Some(0));
    assert_eq!(table.intern("bob"), Some(1));
    assert_eq!(table.intern("alice"), Some(0));
    assert_eq!(table.intern(""), Some(2));
    assert_eq!(table.intern("bob"), Some(1));
    assert_eq!(table.len(), 3);
}

#[test]
fn positions_outside_the_line_hold_no_id() {
    let chars = chars_of("123");
    assert_eq!(parse_field(&chars, 0, 4), None);
    assert_eq!(parse_field(&chars, 2, 1), None);
    assert_eq!(parse_field(&chars, 0, 3), Some(123));
}
