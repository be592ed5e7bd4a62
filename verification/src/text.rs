//! The grammar of one input line: comments, fields, and decimal numbers.

use vstd::prelude::*;

verus! {

/// Whether `c` is white space: the characters with the Unicode property
/// `White_Space`.
pub open spec fn is_space(c: char) -> bool {
    let n = c as u32;
    ||| 0x09 <= n <= 0x0d
    ||| n == 0x20
    ||| n == 0x85
    ||| n == 0xa0
    ||| n == 0x1680
    ||| 0x2000 <= n <= 0x200a
    ||| n == 0x2028
    ||| n == 0x2029
    ||| n == 0x202f
    ||| n == 0x205f
    ||| n == 0x3000
}

/// Whether `c` ends a field: it is the separator, or white space where no
/// separator is set.
pub open spec fn is_break(separator: Option<char>, c: char) -> bool {
    match separator {
        Some(s) => c == s,
        None => is_space(c),
    }
}

/// Whether the line is left out: it is empty, or a comment, which starts with
/// `#` or `%`.
pub open spec fn is_skipped(line: Seq<char>) -> bool {
    line.len() == 0 || line[0] == '#' || line[0] == '%'
}

/// The first position at or after `from` that holds a break, or the length of
/// the line where there is none.
pub open spec fn next_break(line: Seq<char>, separator: Option<char>, from: int) -> int
    decreases line.len() - from,
{
    if from >= line.len() {
        line.len() as int
    } else if is_break(separator, line[from]) {
        from
    } else {
        next_break(line, separator, from + 1)
    }
}

/// The first position at or after `from` that holds no break, or the length
/// of the line where there is none.
pub open spec fn next_field(line: Seq<char>, separator: Option<char>, from: int) -> int
    decreases line.len() - from,
{
    if from >= line.len() {
        line.len() as int
    } else if !is_break(separator, line[from]) {
        from
    } else {
        next_field(line, separator, from + 1)
    }
}

/// Where the first field starts. With a separator it starts the line; without
/// one, leading white space is passed over.
pub open spec fn first_start(line: Seq<char>, separator: Option<char>) -> int {
    match separator {
        Some(_) => 0,
        None => next_field(line, separator, 0),
    }
}

/// Where the first field ends.
pub open spec fn first_end(line: Seq<char>, separator: Option<char>) -> int {
    next_break(line, separator, first_start(line, separator))
}

/// Whether the line has a first field. With a separator every line has one,
/// which may be empty.
pub open spec fn has_first(line: Seq<char>, separator: Option<char>) -> bool {
    separator is Some || first_start(line, separator) < line.len()
}

/// Where the second field starts: behind the separator that ends the first,
/// or behind the white space that follows the first.
pub open spec fn second_start(line: Seq<char>, separator: Option<char>) -> int {
    match separator {
        Some(_) => first_end(line, separator) + 1,
        None => next_field(line, separator, first_end(line, separator)),
    }
}

/// Where the second field ends.
pub open spec fn second_end(line: Seq<char>, separator: Option<char>) -> int {
    next_break(line, separator, second_start(line, separator))
}

/// Whether the line has a second field.
pub open spec fn has_second(line: Seq<char>, separator: Option<char>) -> bool {
    has_first(line, separator) && match separator {
        Some(_) => first_end(line, separator) < line.len(),
        None => second_start(line, separator) < line.len(),
    }
}

/// The first field of the line.
pub open spec fn first_field(line: Seq<char>, separator: Option<char>) -> Seq<char> {
    line.subrange(first_start(line, separator), first_end(line, separator))
}

/// The second field of the line.
pub open spec fn second_field(line: Seq<char>, separator: Option<char>) -> Seq<char> {
    line.subrange(second_start(line, separator), second_end(line, separator))
}

/// Whether `c` is one of the digits `0` to `9`.
pub open spec fn is_digit(c: char) -> bool {
    48 <= c as u32 <= 57
}

/// The value of the digit `c`.
pub open spec fn digit_value(c: char) -> nat {
    if is_digit(c) {
        (c as u32 - 48) as nat
    } else {
        0
    }
}

/// The number that a string of digits denotes in base ten.
pub open spec fn digits_value(s: Seq<char>) -> nat
    decreases s.len(),
{
    if s.len() == 0 {
        0
    } else {
        10 * digits_value(s.drop_last()) + digit_value(s.last())
    }
}

/// Whether every character of `s` is a digit.
pub open spec fn all_digits(s: Seq<char>) -> bool {
    forall|i: int| 0 <= i < s.len() ==> is_digit(#[trigger] s[i])
}

/// The field without a leading plus sign.
pub open spec fn unsigned_part(field: Seq<char>) -> Seq<char> {
    if field.len() > 0 && field[0] == '+' {
        field.drop_first()
    } else {
        field
    }
}

/// The node id that a field denotes: one or more decimal digits, with an
/// optional plus sign in front, whose value fits in 32 bits.
pub open spec fn parse_id(field: Seq<char>) -> Option<u32> {
    let digits = unsigned_part(field);
    if digits.len() > 0 && all_digits(digits) && digits_value(digits) <= u32::MAX {
        Some(digits_value(digits) as u32)
    } else {
        None
    }
}

/// What is wrong with a line.
#[derive(Clone, Copy, Debug, PartialEq, Eq, Structural)]
pub enum LineFault {
    /// The line has no field.
    MissingSrc,
    /// The first field is no node id.
    MalformedSrc,
    /// The line has one field only.
    MissingDst,
    /// The second field is no node id.
    MalformedDst,
    /// The line brings a new token when every 32-bit id is taken.
    TooManyTokens,
}

/// What a line of integers holds.
#[derive(Clone, Copy, Debug, PartialEq, Eq, Structural)]
pub enum Record {
    /// Nothing: the line is empty or a comment.
    Skip,
    /// One edge.
    Edge(u32, u32),
    /// A fault.
    Bad(LineFault),
}

/// The record that a line of integers holds. The checks are made from left
/// to right, so the first fault is the one that comes back.
pub open spec fn record_of(line: Seq<char>, separator: Option<char>) -> Record {
    if is_skipped(line) {
        Record::Skip
    } else if !has_first(line, separator) {
        Record::Bad(LineFault::MissingSrc)
    } else if parse_id(first_field(line, separator)) is None {
        Record::Bad(LineFault::MalformedSrc)
    } else if !has_second(line, separator) {
        Record::Bad(LineFault::MissingDst)
    } else if parse_id(second_field(line, separator)) is None {
        Record::Bad(LineFault::MalformedDst)
    } else {
        Record::Edge(
            parse_id(first_field(line, separator))->0,
            parse_id(second_field(line, separator))->0,
        )
    }
}

/// The bounds of the first two fields of a line, as far as it has them.
#[derive(Clone, Copy, Debug, PartialEq, Eq, Structural)]
pub enum Fields {
    /// The line is empty or a comment.
    Skipped,
    /// The line has no field.
    Zero,
    /// The line has one field, at the given positions.
    One(usize, usize),
    /// The line has two fields or more; the first two are at the given
    /// positions.
    Two(usize, usize, usize, usize),
}

/// The bounds of the first two fields of the line.
pub open spec fn fields_of(line: Seq<char>, separator: Option<char>) -> Fields {
    if is_skipped(line) {
        Fields::Skipped
    } else if !has_first(line, separator) {
        Fields::Zero
    } else if !has_second(line, separator) {
        Fields::One(first_start(line, separator) as usize, first_end(line, separator) as usize)
    } else {
        Fields::Two(
            first_start(line, separator) as usize,
            first_end(line, separator) as usize,
            second_start(line, separator) as usize,
            second_end(line, separator) as usize,
        )
    }
}

/// The characters of a string.
pub fn chars_of(s: &str) -> (chars: Vec<char>)
    ensures
        chars@ == s@,
{
    let mut chars: Vec<char> = Vec::new();
    for c in it: s.chars()
        invariant
            it.seq() == s@,
            chars@ == it.seq().take(it.index() as int),
    {
        chars.push(c);
    }
    assert(chars@ =~= s@);
    chars
}

/// Decides whether `c` is white space.
pub fn is_whitespace(c: char) -> (r: bool)
    ensures
        r == is_space(c),
{
    let n = c as u32;
    (0x09 <= n && n <= 0x0d) || n == 0x20 || n == 0x85 || n == 0xa0 || n == 0x1680 || (0x2000 <= n
        && n <= 0x200a) || n == 0x2028 || n == 0x2029 || n == 0x202f || n == 0x205f || n == 0x3000
}

fn breaks(separator: Option<char>, c: char) -> (r: bool)
    ensures
        r == is_break(separator, c),
{
    match separator {
        Some(s) => c == s,
        None => is_whitespace(c),
    }
}

fn scan_break(line: &Vec<char>, separator: Option<char>, from: usize) -> (at: usize)
    requires
        from <= line.len(),
    ensures
        at == next_break(line@, separator, from as int),
        from <= at <= line.len(),
{
    let mut at = from;
    while at < line.len() && !breaks(separator, line[at])
        invariant
            from <= at <= line.len(),
            next_break(line@, separator, at as int) == next_break(line@, separator, from as int),
        decreases line.len() - at,
    {
        at += 1;
    }
    at
}

fn scan_field(line: &Vec<char>, separator: Option<char>, from: usize) -> (at: usize)
    requires
        from <= line.len(),
    ensures
        at == next_field(line@, separator, from as int),
        from <= at <= line.len(),
{
    let mut at = from;
    while at < line.len() && breaks(separator, line[at])
        invariant
            from <= at <= line.len(),
            next_field(line@, separator, at as int) == next_field(line@, separator, from as int),
        decreases line.len() - at,
    {
        at += 1;
    }
    at
}

/// Finds the first two fields of a line.
pub fn split_line(line: &Vec<char>, separator: Option<char>) -> (fields: Fields)
    ensures
        fields == fields_of(line@, separator),
        match fields {
            Fields::Skipped | Fields::Zero => true,
            Fields::One(a, b) => a <= b <= line.len() && a == first_start(line@, separator) && b
                == first_end(line@, separator),
            Fields::Two(a, b, c, d) => a <= b <= c <= d <= line.len() && a == first_start(
                line@,
                separator,
            ) && b == first_end(line@, separator) && c == second_start(line@, separator) && d
                == second_end(line@, separator),
        },
{
    if line.len() == 0 || line[0] == '#' || line[0] == '%' {
        return Fields::Skipped;
    }
    let a = match separator {
        Some(_) => 0,
        None => scan_field(line, separator, 0),
    };
    if separator.is_none() && a == line.len() {
        return Fields::Zero;
    }
    let b = scan_break(line, separator, a);
    let c = match separator {
        Some(_) => {
            if b == line.len() {
                return Fields::One(a, b);
            }
            b + 1
        },
        None => {
            let c = scan_field(line, separator, b);
            if c == line.len() {
                return Fields::One(a, b);
            }
            c
        },
    };
    let d = scan_break(line, separator, c);
    Fields::Two(a, b, c, d)
}

proof fn lemma_digits_grow(s: Seq<char>, k: int)
    requires
        0 <= k <= s.len(),
    ensures
        digits_value(s.take(k)) <= digits_value(s),
    decreases s.len(),
{
    if k < s.len() {
        assert(s.drop_last().take(k) =~= s.take(k));
        lemma_digits_grow(s.drop_last(), k);
    } else {
        assert(s.take(k) =~= s);
    }
}

/// Reads the node id in `line[from..to]`. Positions that do not lie in the
/// line hold no id.
pub fn parse_field(line: &Vec<char>, from: usize, to: usize) -> (id: Option<u32>)
    ensures
        from <= to <= line.len() ==> id == parse_id(line@.subrange(from as int, to as int)),
        !(from <= to <= line.len()) ==> id is None,
{
    if from > to || to > line.len() {
        return None;
    }
    let ghost field = line@.subrange(from as int, to as int);
    let start = if from < to && line[from] == '+' {
        from + 1
    } else {
        from
    };
    let ghost digits = line@.subrange(start as int, to as int);
    proof {
        assert(digits =~= unsigned_part(field));
    }
    if start == to {
        return None;
    }
    let mut value: u64 = 0;
    let mut at = start;
    proof {
        assert(digits.take(0) =~= Seq::<char>::empty());
    }
    while at < to
        invariant
            start <= at <= to <= line.len(),
            digits == line@.subrange(start as int, to as int),
            digits == unsigned_part(line@.subrange(from as int, to as int)),
            digits.len() > 0,
            all_digits(digits.take(at - start)),
            value == digits_value(digits.take(at - start)),
            value <= u32::MAX,
        decreases to - at,
    {
        let c = line[at] as u32;
        if c < 48 || c > 57 {
            proof {
                assert(!is_digit(digits[at - start]));
            }
            return None;
        }
        proof {
            let longer = digits.take(at - start + 1);
            assert(longer.drop_last() =~= digits.take(at - start));
            assert(longer.last() == line@[at as int]);
            assert forall|i: int| 0 <= i < longer.len() implies is_digit(#[trigger] longer[i]) by {
                if i < at - start {
                    assert(digits.take(at - start)[i] == longer[i]);
                }
            }
        }
        value = value * 10 + (c - 48) as u64;
        if value > 0xffff_ffff {
            proof {
                lemma_digits_grow(digits, at - start + 1);
            }
            return None;
        }
        at += 1;
    }
    proof {
        assert(digits.take(at - start) =~= digits);
    }
    Some(value as u32)
}

/// Reads one line of integers.
pub fn parse_chars(line: &Vec<char>, separator: Option<char>) -> (record: Record)
    ensures
        record == record_of(line@, separator),
{
    match split_line(line, separator) {
        Fields::Skipped => Record::Skip,
        Fields::Zero => Record::Bad(LineFault::MissingSrc),
        Fields::One(a, b) => match parse_field(line, a, b) {
            None => Record::Bad(LineFault::MalformedSrc),
            Some(_) => Record::Bad(LineFault::MissingDst),
        },
        Fields::Two(a, b, c, d) => match parse_field(line, a, b) {
            None => Record::Bad(LineFault::MalformedSrc),
            Some(src) => match parse_field(line, c, d) {
                None => Record::Bad(LineFault::MalformedDst),
                Some(dst) => Record::Edge(src, dst),
            },
        },
    }
}

/// Reads one line of integers: the edge it holds, or that it is to be left
/// out, or what is wrong with it.
pub fn parse_line(line: &str, separator: Option<char>) -> (record: Record)
    ensures
        record == record_of(line@, separator),
{
    let chars = chars_of(line);
    parse_chars(&chars, separator)
}

} // verus!
