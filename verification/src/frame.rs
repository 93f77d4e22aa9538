//! Framing: which family a frame belongs to, whether it has the family's
//! length and terminators, where its body lies, and which command the
//! body's first character selects.

use vstd::prelude::*;
use vstd::string::StrSliceExecFns;
use crate::error::{DecodeError, Failure};
use crate::model::{Command, CommandView, Family, FamilyView, SpecFile};
use crate::text::{count_trailing, lemma_trailing_run_bounded, starts_with, trailing_run};

verus! {

/// The most terminators a frame may end in.
pub const MAX_TERMINATORS: usize = 3;

/// Whether the frame begins with the family's start marker. A family
/// without a start marker opens no frame.
pub open spec fn opens(frame: Seq<char>, f: FamilyView) -> bool {
    f.start.len() > 0 && f.start.is_prefix_of(frame)
}

/// The first family at or after position `i` that opens the frame.
pub open spec fn family_from(frame: Seq<char>, families: Seq<FamilyView>, i: int) -> Option<int>
    decreases families.len() - i,
{
    if i < 0 || i >= families.len() {
        None
    } else if opens(frame, families[i]) {
        Some(i)
    } else {
        family_from(frame, families, i + 1)
    }
}

/// The family of a frame: the first, in the grammar's order, that opens it.
pub open spec fn family_of(frame: Seq<char>, families: Seq<FamilyView>) -> Option<int> {
    family_from(frame, families, 0)
}

/// The family found opens the frame and none before it does; where none
/// is found, none opens it.
pub proof fn lemma_family_from(frame: Seq<char>, families: Seq<FamilyView>, i: int)
    requires
        0 <= i,
    ensures
        match family_from(frame, families, i) {
            Some(k) => i <= k < families.len() && opens(frame, families[k]) && forall|j: int|
                i <= j < k ==> !opens(frame, #[trigger] families[j]),
            None => forall|j: int| i <= j < families.len() ==> !opens(frame, #[trigger] families[j]),
        },
    decreases families.len() - i,
{
    if i < families.len() && !opens(frame, families[i]) {
        lemma_family_from(frame, families, i + 1);
    }
}

/// A position in a list, as the contracts count it.
pub open spec fn position(r: Option<usize>) -> Option<int> {
    match r {
        Some(i) => Some(i as int),
        None => None,
    }
}

/// Finds the family of a frame: the position of the first family whose start
/// marker is not empty and begins the frame.
pub fn find_family(frame: &str, spec: &SpecFile) -> (r: Option<usize>)
    ensures
        position(r) == family_of(frame@, spec@.families),
        r matches Some(i) ==> i < spec.families.len(),
{
    let mut i: usize = 0;
    while i < spec.families.len()
        invariant
            i <= spec.families.len(),
            family_of(frame@, spec@.families) == family_from(frame@, spec@.families, i as int),
        decreases spec.families.len() - i,
    {
        let f = &spec.families[i];
        assert(spec@.families[i as int] == f@);
        if !f.start.as_str().is_empty() && starts_with(frame, f.start.as_str()) {
            return Some(i);
        }
        i = i + 1;
    }
    None
}

/// The message of the failure for a family without a terminator.
pub open spec fn empty_terminator_message() -> Seq<char> {
    "Family terminator is empty in spec."@
}

/// The message of the failure for a frame in which start marker and
/// terminators leave nothing between them.
pub open spec fn no_letter_message() -> Seq<char> {
    "Family frame length leaves no room for a command letter."@
}

/// The body of a frame of the given family: what lies between the start
/// marker and the run of terminators at the end. It is never empty: its
/// first character is the command letter.
///
/// A family without a terminator is a malformed grammar. The frame must
/// have the family's length, and must end in one to three terminators; the
/// first character of the family's terminator text is the terminator. Where
/// start marker and terminators leave nothing between them, or reach into
/// each other, the family's length is too small for such a frame, which is
/// reported as a malformed grammar as well.
pub open spec fn frame_body(frame: Seq<char>, fam: FamilyView) -> Result<Seq<char>, Failure> {
    if fam.terminator.len() == 0 {
        Err(Failure::InvalidSpec(empty_terminator_message()))
    } else if frame.len() != fam.frame_len {
        Err(Failure::BadLength { expected: fam.frame_len, got: frame.len() })
    } else {
        let run = trailing_run(frame, fam.terminator[0]);
        if run < 1 || run > MAX_TERMINATORS {
            Err(Failure::BadTerminators(run))
        } else if fam.start.len() + run < frame.len() {
            Ok(frame.subrange(fam.start.len() as int, frame.len() - run))
        } else {
            Err(Failure::InvalidSpec(no_letter_message()))
        }
    }
}

/// Whether a result is the expected one: the text with the expected
/// characters, or the error that states the expected failure.
pub open spec fn gives_text(r: Result<&str, DecodeError>, expected: Result<Seq<char>, Failure>) -> bool {
    match expected {
        Ok(t) => r matches Ok(s) && s@ == t,
        Err(f) => r matches Err(e) && e@ == f,
    }
}

/// Checks a frame against its family and gives the frame's body.
pub fn validate<'a>(frame: &'a str, family: &Family) -> (r: Result<&'a str, DecodeError>)
    ensures
        gives_text(r, frame_body(frame@, family@)),
{
    if family.terminator.as_str().is_empty() {
        return Err(DecodeError::InvalidSpec("Family terminator is empty in spec.".to_string()));
    }
    let len = frame.unicode_len();
    if len != family.frame_len as usize {
        return Err(DecodeError::BadLength { expected: family.frame_len, got: len });
    }
    let terminator = family.terminator.as_str().get_char(0);
    let run = count_trailing(frame, terminator);
    proof {
        lemma_trailing_run_bounded(frame@, terminator);
    }
    if run < 1 || run > MAX_TERMINATORS {
        return Err(DecodeError::BadTerminators(run));
    }
    let start = family.start.as_str().unicode_len();
    if start < len - run {
        Ok(frame.substring_char(start, len - run))
    } else {
        Err(
            DecodeError::InvalidSpec(
                "Family frame length leaves no room for a command letter.".to_string(),
            ),
        )
    }
}

/// Whether the command is the one for the letter: its letter text begins
/// with it.
pub open spec fn carries(c: CommandView, letter: char) -> bool {
    c.letter.len() > 0 && c.letter[0] == letter
}

/// The first command at or after position `i` that carries the letter.
pub open spec fn command_from(letter: char, commands: Seq<CommandView>, i: int) -> Option<int>
    decreases commands.len() - i,
{
    if i < 0 || i >= commands.len() {
        None
    } else if carries(commands[i], letter) {
        Some(i)
    } else {
        command_from(letter, commands, i + 1)
    }
}

/// The command of a letter: the first, in the family's order, that carries it.
pub open spec fn command_of(letter: char, commands: Seq<CommandView>) -> Option<int> {
    command_from(letter, commands, 0)
}

/// The command found carries the letter and none before it does; where
/// none is found, none carries it.
pub proof fn lemma_command_from(letter: char, commands: Seq<CommandView>, i: int)
    requires
        0 <= i,
    ensures
        match command_from(letter, commands, i) {
            Some(k) => i <= k < commands.len() && carries(commands[k], letter) && forall|j: int|
                i <= j < k ==> !carries(#[trigger] commands[j], letter),
            None => forall|j: int| i <= j < commands.len() ==> !carries(#[trigger] commands[j], letter),
        },
    decreases commands.len() - i,
{
    if i < commands.len() && !carries(commands[i], letter) {
        lemma_command_from(letter, commands, i + 1);
    }
}

/// Finds the command of a letter in a family.
pub fn find_command(letter: char, family: &Family) -> (r: Option<usize>)
    ensures
        position(r) == command_of(letter, family@.commands),
        r matches Some(i) ==> i < family.commands.len(),
{
    let mut i: usize = 0;
    while i < family.commands.len()
        invariant
            i <= family.commands.len(),
            command_of(letter, family@.commands) == command_from(
                letter,
                family@.commands,
                i as int,
            ),
        decreases family.commands.len() - i,
    {
        let c: &Command = &family.commands[i];
        assert(family@.commands[i as int] == c@);
        if !c.letter.as_str().is_empty() && c.letter.as_str().get_char(0) == letter {
            return Some(i);
        }
        i = i + 1;
    }
    None
}

} // verus!
