//! The command surface of the ingest tool:
//! `<source> <target-prefix> [separator <char>] [strings] [<transform> ...]`.

use vstd::prelude::*;
use vstd::string::StrSliceExecFns;
use crate::pipeline::{Transform, parse_transform, same_text, transform_named};

verus! {

/// What the arguments ask for.
pub struct Command {
    /// The path of the text to read.
    pub source: String,
    /// The prefix of the two files to write.
    pub target: String,
    /// The field separator; without one, fields are parted by white space.
    pub separator: Option<char>,
    /// Whether the fields are tokens rather than node ids.
    pub strings: bool,
    /// The transforms to apply, in order.
    pub transforms: Vec<Transform>,
}

/// What is wrong with the arguments.
#[derive(Clone, Copy, Debug, PartialEq, Eq, Structural)]
pub enum ArgFault {
    /// There is no source path.
    MissingSource,
    /// There is no target prefix.
    MissingTarget,
    /// The word `separator` is not followed by a character.
    MalformedSeparator,
    /// A word that should name a transform names none.
    UnknownTransform,
}

/// A fault in the arguments, with the position of the argument that is
/// missing or wrong. Positions are counted from zero.
#[derive(Clone, Copy, Debug, PartialEq, Eq, Structural)]
pub struct ArgError {
    pub fault: ArgFault,
    pub index: usize,
}

/// Whether the third argument is the word `separator`.
pub open spec fn separator_given(args: Seq<String>) -> bool {
    args.len() > 2 && args[2]@ == "separator"@
}

/// Where the word `strings` may stand.
pub open spec fn mode_index(args: Seq<String>) -> int {
    if separator_given(args) {
        4
    } else {
        2
    }
}

/// Whether the word `strings` stands where it may.
pub open spec fn strings_given(args: Seq<String>) -> bool {
    args.len() > mode_index(args) && args[mode_index(args)]@ == "strings"@
}

/// Where the transforms start.
pub open spec fn transforms_index(args: Seq<String>) -> int {
    if strings_given(args) {
        mode_index(args) + 1
    } else {
        mode_index(args)
    }
}

/// The first position at or after `from` whose argument names no transform,
/// or the number of arguments where every one names a transform.
pub open spec fn first_unknown(args: Seq<String>, from: int) -> int
    decreases args.len() - from,
{
    if from >= args.len() {
        args.len() as int
    } else if from >= 0 && transform_named(args[from]@) is None {
        from
    } else {
        first_unknown(args, from + 1)
    }
}

/// The first fault of the arguments, if they have one. The arguments are
/// checked from left to right.
pub open spec fn command_fault(args: Seq<String>) -> Option<ArgError> {
    if args.len() < 1 {
        Some(ArgError { fault: ArgFault::MissingSource, index: 0 })
    } else if args.len() < 2 {
        Some(ArgError { fault: ArgFault::MissingTarget, index: 1 })
    } else if separator_given(args) && (args.len() < 4 || args[3]@.len() == 0) {
        Some(ArgError { fault: ArgFault::MalformedSeparator, index: 3 })
    } else if first_unknown(args, transforms_index(args)) < args.len() {
        Some(
            ArgError {
                fault: ArgFault::UnknownTransform,
                index: first_unknown(args, transforms_index(args)) as usize,
            },
        )
    } else {
        None
    }
}

/// Whether `command` is what the arguments ask for.
pub open spec fn asks_for(args: Seq<String>, command: Command) -> bool {
    &&& args.len() >= 2
    &&& command.source@ == args[0]@
    &&& command.target@ == args[1]@
    &&& command.separator == (if separator_given(args) {
        Some(args[3]@[0])
    } else {
        None
    })
    &&& command.strings == strings_given(args)
    &&& command.transforms@.len() == args.len() - transforms_index(args)
    &&& forall|k: int|
        0 <= k < command.transforms@.len() ==> transform_named(args[transforms_index(args) + k]@)
            == Some(#[trigger] command.transforms@[k])
}

/// Reads the arguments of the ingest tool, the name of the program left out.
///
/// The source path and the target prefix come first. The pair `separator
/// <char>`, if there is one, comes third and fourth; of a longer fourth
/// argument the first character is taken. The word `strings`, if it is there,
/// comes next. Every further argument names a transform.
pub fn parse_command(args: &Vec<String>) -> (result: Result<Command, ArgError>)
    ensures
        command_fault(args@) matches Some(e) ==> (result matches Err(x) && x == e),
        command_fault(args@) is None ==> (result matches Ok(command) && asks_for(args@, command)),
{
    if args.len() < 1 {
        return Err(ArgError { fault: ArgFault::MissingSource, index: 0 });
    }
    if args.len() < 2 {
        return Err(ArgError { fault: ArgFault::MissingTarget, index: 1 });
    }
    let mut next: usize = 2;
    let mut separator: Option<char> = None;
    if args.len() > 2 && same_text(args[2].as_str(), "separator") {
        if args.len() < 4 || args[3].as_str().unicode_len() == 0 {
            return Err(ArgError { fault: ArgFault::MalformedSeparator, index: 3 });
        }
        separator = Some(args[3].as_str().get_char(0));
        next = 4;
    }
    let mut strings = false;
    if args.len() > next && same_text(args[next].as_str(), "strings") {
        strings = true;
        next = next + 1;
    }
    let start = next;
    let mut transforms: Vec<Transform> = Vec::new();
    while next < args.len()
        invariant
            args.len() >= 2,
            !(separator_given(args@) && (args.len() < 4 || args@[3]@.len() == 0)),
            start == transforms_index(args@),
            start <= next <= args.len(),
            transforms@.len() == next - start,
            first_unknown(args@, next as int) == first_unknown(args@, start as int),
            forall|k: int|
                0 <= k < transforms@.len() ==> transform_named(args@[start + k]@) == Some(
                    #[trigger] transforms@[k],
                ),
        decreases args.len() - next,
    {
        match parse_transform(args[next].as_str()) {
            None => {
                return Err(ArgError { fault: ArgFault::UnknownTransform, index: next });
            },
            Some(transform) => {
                transforms.push(transform);
            },
        }
        next += 1;
    }
    Ok(Command { source: args[0].clone(), target: args[1].clone(), separator, strings, transforms })
}

} // verus!
