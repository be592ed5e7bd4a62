//! Reading a text of edges, line by line, into an edge buffer.
//!
//! In integer mode the two fields of a line are node ids. In strings mode
//! they are arbitrary tokens, which are given ids in the order in which they
//! first appear.

use vstd::prelude::*;
use vstd::hash_map::StringHashMap;
use crate::edges::Edge;
use crate::text::{Fields, LineFault, Record};
use crate::text::{first_field, has_first, has_second, is_skipped, record_of, second_field};
use crate::text::{parse_chars, split_line};

verus! {

/// A fault in the input, with the number of the line that holds it. Lines
/// are counted from one.
#[derive(Clone, Copy, Debug, PartialEq, Eq, Structural)]
pub struct ReadError {
    pub line: usize,
    pub fault: LineFault,
}

/// The line without the carriage return that may end it.
pub open spec fn without_cr(line: Seq<char>) -> Seq<char> {
    if line.len() > 0 && line.last() == '\r' {
        line.drop_last()
    } else {
        line
    }
}

/// What follows the last line feed of the text: the line that is not
/// terminated yet.
pub open spec fn pending_line(text: Seq<char>) -> Seq<char>
    decreases text.len(),
{
    if text.len() == 0 || text.last() == '\n' {
        Seq::empty()
    } else {
        pending_line(text.drop_last()).push(text.last())
    }
}

/// The lines of the text that end in a line feed, without the line feed and
/// without a carriage return before it.
pub open spec fn complete_lines(text: Seq<char>) -> Seq<Seq<char>>
    decreases text.len(),
{
    if text.len() == 0 {
        Seq::empty()
    } else if text.last() == '\n' {
        complete_lines(text.drop_last()).push(without_cr(pending_line(text.drop_last())))
    } else {
        complete_lines(text.drop_last())
    }
}

/// The lines of the text. A last line without a line feed counts if it is
/// not empty.
pub open spec fn lines_of(text: Seq<char>) -> Seq<Seq<char>> {
    if pending_line(text).len() > 0 {
        complete_lines(text).push(pending_line(text))
    } else {
        complete_lines(text)
    }
}

/// The edges that lines of integers hold, or the first fault among them.
pub open spec fn edges_of(lines: Seq<Seq<char>>, separator: Option<char>) -> Result<
    Seq<Edge>,
    ReadError,
>
    decreases lines.len(),
{
    if lines.len() == 0 {
        Ok(Seq::empty())
    } else {
        match edges_of(lines.drop_last(), separator) {
            Err(e) => Err(e),
            Ok(edges) => match record_of(lines.last(), separator) {
                Record::Skip => Ok(edges),
                Record::Edge(src, dst) => Ok(edges.push((src, dst))),
                Record::Bad(fault) => Err(ReadError { line: lines.len() as usize, fault }),
            },
        }
    }
}

/// The token list after `token` was looked up: a new token goes to the end.
pub open spec fn intern(names: Seq<Seq<char>>, token: Seq<char>) -> Seq<Seq<char>> {
    if names.contains(token) {
        names
    } else {
        names.push(token)
    }
}

/// The tokens seen so far, each once and in the order of first appearance,
/// and the edges read so far. The id of a token is its position in the list.
pub struct Interned {
    pub names: Seq<Seq<char>>,
    pub edges: Seq<Edge>,
}

/// The number of ids there are.
pub open spec fn id_space() -> nat {
    0x1_0000_0000
}

/// What one line of tokens adds. The source token is looked up before the
/// line is asked for a destination.
pub open spec fn intern_line(
    state: Interned,
    line: Seq<char>,
    separator: Option<char>,
    number: nat,
) -> Result<Interned, ReadError> {
    let with_src = intern(state.names, first_field(line, separator));
    let with_dst = intern(with_src, second_field(line, separator));
    if is_skipped(line) {
        Ok(state)
    } else if !has_first(line, separator) {
        Err(ReadError { line: number as usize, fault: LineFault::MissingSrc })
    } else if with_src.len() > id_space() {
        Err(ReadError { line: number as usize, fault: LineFault::TooManyTokens })
    } else if !has_second(line, separator) {
        Err(ReadError { line: number as usize, fault: LineFault::MissingDst })
    } else if with_dst.len() > id_space() {
        Err(ReadError { line: number as usize, fault: LineFault::TooManyTokens })
    } else {
        Ok(
            Interned {
                names: with_dst,
                edges: state.edges.push(
                    (
                        with_dst.index_of(first_field(line, separator)) as u32,
                        with_dst.index_of(second_field(line, separator)) as u32,
                    ),
                ),
            },
        )
    }
}

/// The tokens and edges that lines of tokens hold, or the first fault among
/// them.
pub open spec fn interned(lines: Seq<Seq<char>>, separator: Option<char>) -> Result<
    Interned,
    ReadError,
>
    decreases lines.len(),
{
    if lines.len() == 0 {
        Ok(Interned { names: Seq::empty(), edges: Seq::empty() })
    } else {
        match interned(lines.drop_last(), separator) {
            Err(e) => Err(e),
            Ok(state) => intern_line(state, lines.last(), separator, lines.len()),
        }
    }
}

/// The token list after the given lines, and the empty list where they hold
/// a fault.
pub open spec fn names_after(lines: Seq<Seq<char>>, separator: Option<char>) -> Seq<Seq<char>> {
    match interned(lines, separator) {
        Ok(state) => state.names,
        Err(_) => Seq::empty(),
    }
}

/// Looking a token up keeps the list free of repetitions, keeps every token
/// at its position, and leaves the token listed.
pub proof fn lemma_intern_extends(names: Seq<Seq<char>>, token: Seq<char>)
    requires
        names.no_duplicates(),
    ensures
        intern(names, token).no_duplicates(),
        intern(names, token).contains(token),
        names.len() <= intern(names, token).len() <= names.len() + 1,
        intern(names, token).take(names.len() as int) == names,
{
    let grown = intern(names, token);
    if !names.contains(token) {
        assert(grown[names.len() as int] == token);
        assert forall|i: int, j: int|
            0 <= i < grown.len() && 0 <= j < grown.len() && i != j implies grown[i] != grown[j] by {
            if i < names.len() {
                assert(names.contains(names[i]));
            }
            if j < names.len() {
                assert(names.contains(names[j]));
            }
        }
    }
    assert(grown.take(names.len() as int) =~= names);
}

/// Tokens get their ids in file order.
///
/// The token list after the first `i` lines starts the token list after the
/// first `j` lines, for `i <= j`: a token keeps the id it got when it was
/// first seen, and a token that is first seen in a later line gets a larger
/// id than every token seen before.
pub proof fn lemma_ids_follow_file_order(
    lines: Seq<Seq<char>>,
    separator: Option<char>,
    i: int,
    j: int,
)
    requires
        0 <= i <= j <= lines.len(),
        interned(lines.take(j), separator) is Ok,
    ensures
        interned(lines.take(i), separator) is Ok,
        names_after(lines.take(j), separator).no_duplicates(),
        names_after(lines.take(i), separator).len() <= names_after(lines.take(j), separator).len(),
        names_after(lines.take(j), separator).take(
            names_after(lines.take(i), separator).len() as int,
        ) == names_after(lines.take(i), separator),
        forall|a: Seq<char>|
            #![trigger names_after(lines.take(i), separator).contains(a)]
            names_after(lines.take(i), separator).contains(a) ==> names_after(
                lines.take(j),
                separator,
            ).index_of(a) == names_after(lines.take(i), separator).index_of(a),
        forall|a: Seq<char>, b: Seq<char>|
            #![trigger names_after(lines.take(i), separator).contains(a), names_after(lines.take(j), separator).contains(b)]
            names_after(lines.take(i), separator).contains(a) && names_after(
                lines.take(j),
                separator,
            ).contains(b) && !names_after(lines.take(i), separator).contains(b) ==> names_after(
                lines.take(j),
                separator,
            ).index_of(a) < names_after(lines.take(j), separator).index_of(b),
    decreases j,
{
    let early = names_after(lines.take(i), separator);
    let late = names_after(lines.take(j), separator);
    lemma_names_well_formed(lines.take(j), separator);
    if i < j {
        let shorter = lines.take(j - 1);
        assert(lines.take(j).drop_last() =~= shorter);
        let line = lines.take(j).last();
        let prev = interned(shorter, separator)->Ok_0;
        lemma_ids_follow_file_order(lines, separator, i, j - 1);
        let with_src = intern(prev.names, first_field(line, separator));
        lemma_intern_extends(prev.names, first_field(line, separator));
        lemma_intern_extends(with_src, second_field(line, separator));
        assert(late.take(prev.names.len() as int) =~= prev.names) by {
            if !is_skipped(line) {
                assert(late.take(with_src.len() as int) == with_src);
                assert(late.take(prev.names.len() as int) =~= with_src.take(
                    prev.names.len() as int,
                ));
            }
        }
        assert(late.take(early.len() as int) =~= prev.names.take(early.len() as int));
    } else {
        assert(late.take(early.len() as int) =~= early);
    }
    assert forall|a: Seq<char>|
        #![trigger early.contains(a)]
        early.contains(a) implies late.index_of(a) == early.index_of(a) by {
        let k = early.index_of(a);
        assert(late.take(early.len() as int)[k] == a);
        assert(late[k] == a);
        assert(late.contains(a));
        let m = late.index_of(a);
        assert(late[m] == a);
    }
    assert forall|a: Seq<char>, b: Seq<char>|
        #![trigger early.contains(a), late.contains(b)]
        early.contains(a) && late.contains(b) && !early.contains(b) implies late.index_of(a)
            < late.index_of(b) by {
        let m = late.index_of(b);
        assert(late[m] == b);
        if m < early.len() {
            assert(late.take(early.len() as int)[m] == b);
            assert(early[m] == b);
        }
    }
}

/// After lines without a fault no token is listed twice, and there are no
/// more tokens than ids.
pub proof fn lemma_names_well_formed(lines: Seq<Seq<char>>, separator: Option<char>)
    requires
        interned(lines, separator) is Ok,
    ensures
        names_after(lines, separator).no_duplicates(),
        names_after(lines, separator).len() <= id_space(),
    decreases lines.len(),
{
    if lines.len() > 0 {
        let prev = interned(lines.drop_last(), separator)->Ok_0;
        lemma_names_well_formed(lines.drop_last(), separator);
        let line = lines.last();
        let with_src = intern(prev.names, first_field(line, separator));
        lemma_intern_extends(prev.names, first_field(line, separator));
        lemma_intern_extends(with_src, second_field(line, separator));
    }
}

/// Whether the running state of a read stands for `expected`.
spec fn stands_for(edges: Seq<Edge>, fault: Option<ReadError>, expected: Result<
    Seq<Edge>,
    ReadError,
>) -> bool {
    match fault {
        Some(e) => expected == Err::<Seq<Edge>, ReadError>(e),
        None => expected == Ok::<Seq<Edge>, ReadError>(edges),
    }
}

/// Takes one more line of integers into the running state.
fn take_line(
    edges: &mut Vec<Edge>,
    fault: &mut Option<ReadError>,
    line: &Vec<char>,
    separator: Option<char>,
    number: usize,
    Ghost(before): Ghost<Seq<Seq<char>>>,
)
    requires
        number == before.len() + 1,
        stands_for(old(edges)@, *old(fault), edges_of(before, separator)),
    ensures
        stands_for(final(edges)@, *final(fault), edges_of(before.push(line@), separator)),
{
    proof {
        assert(before.push(line@).drop_last() =~= before);
    }
    if fault.is_none() {
        match parse_chars(line, separator) {
            Record::Skip => {},
            Record::Edge(src, dst) => {
                edges.push((src, dst));
            },
            Record::Bad(what) => {
                *fault = Some(ReadError { line: number, fault: what });
            },
        }
    }
}

/// Reads a text of integer edges.
///
/// Every line that is neither empty nor a comment gives one edge: its first
/// two fields, read as node ids. The edges come in file order. The first
/// line that does not give an edge makes the whole read fail, with the number
/// of that line and what is wrong with it.
pub fn read_edges(text: &str, separator: Option<char>) -> (result: Result<Vec<Edge>, ReadError>)
    ensures
        match edges_of(lines_of(text@), separator) {
            Ok(edges) => (result matches Ok(v) && v@ == edges),
            Err(e) => (result matches Err(x) && x == e),
        },
{
    let total = text.unicode_len();
    let mut edges: Vec<Edge> = Vec::new();
    let mut fault: Option<ReadError> = None;
    let mut line: Vec<char> = Vec::new();
    let mut count: usize = 0;
    let ghost mut seen: Seq<char> = Seq::empty();
    for c in it: text.chars()
        invariant
            it.seq() == text@,
            total == text@.len(),
            seen == it.seq().take(it.index() as int),
            count == complete_lines(seen).len(),
            count + line@.len() <= it.index(),
            line@ == pending_line(seen),
            stands_for(edges@, fault, edges_of(complete_lines(seen), separator)),
    {
        proof {
            assert(it.seq().take(it.index() + 1) =~= seen.push(c));
            assert(seen.push(c).drop_last() =~= seen);
            seen = seen.push(c);
        }
        if c == '\n' {
            if line.len() > 0 && line[line.len() - 1] == '\r' {
                line.pop();
            }
            count += 1;
            take_line(
                &mut edges,
                &mut fault,
                &line,
                separator,
                count,
                Ghost(complete_lines(seen.drop_last())),
            );
            line.clear();
        } else {
            line.push(c);
        }
    }
    proof {
        assert(seen =~= text@);
    }
    if line.len() > 0 {
        count += 1;
        take_line(&mut edges, &mut fault, &line, separator, count, Ghost(complete_lines(seen)));
    }
    match fault {
        Some(e) => Err(e),
        None => Ok(edges),
    }
}

/// What is taken on trust of `String::push` of the standard library, which
/// comes without a specification: afterwards the string is what it was, with
/// the character appended. This is what its documentation says; it is not
/// proved here.
pub assume_specification[ String::push ](s: &mut String, c: char)
    ensures
        final(s)@ == old(s)@.push(c),
;

/// The characters `line[from..to]` as a string.
fn string_of(line: &Vec<char>, from: usize, to: usize) -> (s: String)
    requires
        from <= to <= line.len(),
    ensures
        s@ == line@.subrange(from as int, to as int),
{
    let mut s = String::new();
    let mut at = from;
    while at < to
        invariant
            from <= at <= to <= line.len(),
            s@ == line@.subrange(from as int, at as int),
        decreases to - at,
    {
        s.push(line[at]);
        proof {
            assert(line@.subrange(from as int, at + 1) =~= line@.subrange(
                from as int,
                at as int,
            ).push(line@[at as int]));
        }
        at += 1;
    }
    s
}

/// A table that gives every token an id: the number of tokens that were seen
/// before it was first seen.
pub struct Interner {
    table: StringHashMap<u32>,
    count: u64,
    names: Ghost<Seq<Seq<char>>>,
}

impl Interner {
    /// The table is consistent: it is what `new` and `intern` make.
    pub closed spec fn wf(self) -> bool {
        &&& self.count == self.names@.len()
        &&& self.count <= id_space()
        &&& self.names@.no_duplicates()
        &&& forall|t: Seq<char>| #[trigger] self.table@.contains_key(t) <==> self.names@.contains(t)
        &&& forall|i: int|
            0 <= i < self.names@.len() ==> self.table@[#[trigger] self.names@[i]] == i
    }

    /// The tokens seen so far, in the order of first appearance.
    pub closed spec fn names(self) -> Seq<Seq<char>> {
        self.names@
    }

    /// A table that has seen no token.
    pub fn new() -> (table: Interner)
        ensures
            table.wf(),
            table.names() == Seq::<Seq<char>>::empty(),
    {
        Interner { table: StringHashMap::new(), count: 0, names: Ghost(Seq::empty()) }
    }

    /// The number of tokens seen so far. No token is listed twice, and there
    /// are no more tokens than ids.
    pub fn len(&self) -> (n: u64)
        requires
            self.wf(),
        ensures
            n == self.names().len(),
            n <= id_space(),
            self.names().no_duplicates(),
    {
        self.count
    }

    /// Looks the token up, and gives it the next id if it is new.
    ///
    /// Returns the id of the token, or `None` if the token is new and no id
    /// is left; the table is then unchanged.
    pub fn intern(&mut self, token: &str) -> (id: Option<u32>)
        requires
            old(self).wf(),
        ensures
            final(self).wf(),
            final(self).names().no_duplicates(),
            final(self).names().len() <= id_space(),
            intern(old(self).names(), token@).len() <= id_space() ==> final(self).names() == intern(
                old(self).names(),
                token@,
            ) && id == Some(final(self).names().index_of(token@) as u32),
            intern(old(self).names(), token@).len() > id_space() ==> final(self).names() == old(
                self,
            ).names() && id is None,
    {
        let ghost names = self.names@;
        let found = match self.table.get(token) {
            Some(id) => Some(*id),
            None => None,
        };
        match found {
            Some(id) => {
                proof {
                    assert(names.contains(token@));
                    let i = names.index_of(token@);
                    assert(names[i] == token@);
                }
                Some(id)
            },
            None => {
                if self.count >= 0x1_0000_0000 {
                    None
                } else {
                    let id = self.count as u32;
                    self.table.insert(token.to_owned(), id);
                    self.count = self.count + 1;
                    self.names = Ghost(names.push(token@));
                    proof {
                        let grown = names.push(token@);
                        assert(grown[names.len() as int] == token@);
                        assert(grown.contains(token@));
                        assert forall|t: Seq<char>| #[trigger]
                            self.table@.contains_key(t) <==> grown.contains(t) by {
                            if names.contains(t) {
                                let i = names.index_of(t);
                                assert(grown[i] == t);
                            }
                            if grown.contains(t) && t != token@ {
                                let i = grown.index_of(t);
                                assert(names[i] == t);
                            }
                        }
                        assert forall|i: int, j: int|
                            0 <= i < grown.len() && 0 <= j < grown.len() && i != j implies grown[i]
                            != grown[j] by {
                            if i < names.len() {
                                assert(names.contains(names[i]));
                            }
                            if j < names.len() {
                                assert(names.contains(names[j]));
                            }
                        }
                        let k = grown.index_of(token@);
                        assert(grown[k] == token@);
                        assert(k == names.len());
                    }
                    Some(id)
                }
            },
        }
    }
}

/// Whether the running state of a read of tokens stands for `expected`.
spec fn stands_for_tokens(
    names: Seq<Seq<char>>,
    edges: Seq<Edge>,
    fault: Option<ReadError>,
    expected: Result<Interned, ReadError>,
) -> bool {
    match fault {
        Some(e) => expected == Err::<Interned, ReadError>(e),
        None => expected == Ok::<Interned, ReadError>(Interned { names, edges }),
    }
}

/// Takes one more line of tokens into the running state.
fn take_token_line(
    table: &mut Interner,
    edges: &mut Vec<Edge>,
    fault: &mut Option<ReadError>,
    line: &Vec<char>,
    separator: Option<char>,
    number: usize,
    Ghost(before): Ghost<Seq<Seq<char>>>,
)
    requires
        number == before.len() + 1,
        old(table).wf(),
        stands_for_tokens(
            old(table).names(),
            old(edges)@,
            *old(fault),
            interned(before, separator),
        ),
    ensures
        final(table).wf(),
        stands_for_tokens(
            final(table).names(),
            final(edges)@,
            *final(fault),
            interned(before.push(line@), separator),
        ),
{
    proof {
        assert(before.push(line@).drop_last() =~= before);
    }
    if fault.is_some() {
        return ;
    }
    let ghost names = table.names();
    match split_line(line, separator) {
        Fields::Skipped => {},
        Fields::Zero => {
            *fault = Some(ReadError { line: number, fault: LineFault::MissingSrc });
        },
        Fields::One(a, b) => {
            let src = string_of(line, a, b);
            match table.intern(src.as_str()) {
                None => {
                    *fault = Some(ReadError { line: number, fault: LineFault::TooManyTokens });
                },
                Some(_) => {
                    *fault = Some(ReadError { line: number, fault: LineFault::MissingDst });
                },
            }
        },
        Fields::Two(a, b, c, d) => {
            let src = string_of(line, a, b);
            match table.intern(src.as_str()) {
                None => {
                    *fault = Some(ReadError { line: number, fault: LineFault::TooManyTokens });
                },
                Some(s) => {
                    let ghost with_src = table.names();
                    let dst = string_of(line, c, d);
                    match table.intern(dst.as_str()) {
                        None => {
                            *fault = Some(
                                ReadError { line: number, fault: LineFault::TooManyTokens },
                            );
                        },
                        Some(t) => {
                            proof {
                                let with_dst = table.names();
                                assert(with_src == intern(names, src@));
                                if !names.contains(src@) {
                                    assert(with_src[names.len() as int] == src@);
                                }
                                assert(with_src.contains(src@));
                                let i = with_src.index_of(src@);
                                assert(with_dst[i] == src@);
                                let j = with_dst.index_of(src@);
                                assert(with_dst.contains(src@));
                                assert(i == j);
                            }
                            edges.push((s, t));
                        },
                    }
                },
            }
        },
    }
}

/// Reads a text of edges between tokens.
///
/// Every line that is neither empty nor a comment gives one edge between its
/// first two fields. A field is taken as it stands; its id is the number of
/// distinct tokens that came before its first appearance, source before
/// destination within a line. The first line with fewer than two fields makes
/// the whole read fail, and so does a new token when all ids are taken.
pub fn read_strings(text: &str, separator: Option<char>) -> (result: Result<Vec<Edge>, ReadError>)
    ensures
        match interned(lines_of(text@), separator) {
            Ok(state) => (result matches Ok(v) && v@ == state.edges),
            Err(e) => (result matches Err(x) && x == e),
        },
{
    let total = text.unicode_len();
    let mut table = Interner::new();
    let mut edges: Vec<Edge> = Vec::new();
    let mut fault: Option<ReadError> = None;
    let mut line: Vec<char> = Vec::new();
    let mut count: usize = 0;
    let ghost mut seen: Seq<char> = Seq::empty();
    for c in it: text.chars()
        invariant
            it.seq() == text@,
            total == text@.len(),
            seen == it.seq().take(it.index() as int),
            count == complete_lines(seen).len(),
            count + line@.len() <= it.index(),
            line@ == pending_line(seen),
            table.wf(),
            stands_for_tokens(
                table.names(),
                edges@,
                fault,
                interned(complete_lines(seen), separator),
            ),
    {
        proof {
            assert(it.seq().take(it.index() + 1) =~= seen.push(c));
            assert(seen.push(c).drop_last() =~= seen);
            seen = seen.push(c);
        }
        if c == '\n' {
            if line.len() > 0 && line[line.len() - 1] == '\r' {
                line.pop();
            }
            count += 1;
            take_token_line(
                &mut table,
                &mut edges,
                &mut fault,
                &line,
                separator,
                count,
                Ghost(complete_lines(seen.drop_last())),
            );
            line.clear();
        } else {
            line.push(c);
        }
    }
    proof {
        assert(seen =~= text@);
    }
    if line.len() > 0 {
        count += 1;
        take_token_line(
            &mut table,
            &mut edges,
            &mut fault,
            &line,
            separator,
            count,
            Ghost(complete_lines(seen)),
        );
    }
    match fault {
        Some(e) => Err(e),
        None => Ok(edges),
    }
}

} // verus!
