//! The rules for changing a grammar: what a family must have, and how
//! families and commands are added, replaced and removed without two
//! families sharing a start marker or two commands of a family a letter.
//!
//! Every operation either succeeds and changes the grammar as stated, or
//! fails with a message and leaves the grammar as it was.

use vstd::prelude::*;
use vstd::string::StringExecFns;
use crate::frame::position;
use crate::model::{Command, CommandView, Family, FamilyView, SpecFile, SpecFileView};
use crate::text::{blank, is_blank, same_text};

verus! {

/// Whether a result is the expected one: success, or the failure with the
/// expected message.
pub open spec fn reports(r: Result<(), String>, fault: Option<Seq<char>>) -> bool {
    match fault {
        None => r is Ok,
        Some(m) => r matches Err(e) && e@ == m,
    }
}

/// What is wrong with a family, if anything: a blank name, a blank start
/// marker, a blank terminator, or a terminator equal to the start marker;
/// the first of these that holds.
pub open spec fn family_fault(f: FamilyView) -> Option<Seq<char>> {
    if blank(f.name) {
        Some("Family name cannot be empty."@)
    } else if blank(f.start) {
        Some("Family start character cannot be empty."@)
    } else if blank(f.terminator) {
        Some("Family terminator cannot be empty."@)
    } else if f.start == f.terminator {
        Some("Family start and terminator cannot be the same."@)
    } else {
        None
    }
}

/// Checks that a family has a name, a start marker and a terminator, none
/// of them blank, and that the last two differ.
pub fn validate_family_properties(fam: &Family) -> (r: Result<(), String>)
    ensures
        reports(r, family_fault(fam@)),
{
    if is_blank(fam.name.as_str()) {
        return Err("Family name cannot be empty.".to_string());
    }
    if is_blank(fam.start.as_str()) {
        return Err("Family start character cannot be empty.".to_string());
    }
    if is_blank(fam.terminator.as_str()) {
        return Err("Family terminator cannot be empty.".to_string());
    }
    if fam.start == fam.terminator {
        return Err("Family start and terminator cannot be the same.".to_string());
    }
    Ok(())
}

/// The message for a grammar that could not be loaded for `reason`.
pub open spec fn load_failure(reason: Seq<char>) -> Seq<char> {
    "Failed to load spec: "@ + reason
}

/// Takes a freshly loaded grammar into use.
///
/// `loaded` is what reading the grammar from its default place gave. A
/// grammar that was read replaces the one in use; a failure to read leaves
/// the one in use as it was and is reported.
pub fn reload_spec_from_default_path(live: &mut SpecFile, loaded: Result<SpecFile, String>) -> (r:
    Result<(), String>)
    ensures
        loaded matches Ok(s) ==> r is Ok && *final(live) == s,
        loaded matches Err(e) ==> *final(live) == *old(live) && reports(
            r,
            Some(load_failure(e@)),
        ),
{
    match loaded {
        Ok(s) => {
            *live = s;
            Ok(())
        },
        Err(e) => Err("Failed to load spec: ".to_string().concat(e.as_str())),
    }
}

/// The first family at or after position `i` with the start marker.
pub open spec fn start_from(families: Seq<FamilyView>, start: Seq<char>, i: int) -> Option<int>
    decreases families.len() - i,
{
    if i < 0 || i >= families.len() {
        None
    } else if families[i].start == start {
        Some(i)
    } else {
        start_from(families, start, i + 1)
    }
}

/// The family found has the start marker and none before it has; where
/// none is found, none has it.
pub proof fn lemma_start_from(families: Seq<FamilyView>, start: Seq<char>, i: int)
    requires
        0 <= i,
    ensures
        match start_from(families, start, i) {
            Some(k) => i <= k < families.len() && families[k].start == start && forall|j: int|
                i <= j < k ==> (#[trigger] families[j]).start != start,
            None => forall|j: int| i <= j < families.len() ==> (#[trigger] families[j]).start != start,
        },
    decreases families.len() - i,
{
    if i < families.len() && families[i].start != start {
        lemma_start_from(families, start, i + 1);
    }
}

/// The first command at or after position `i` with the letter text.
pub open spec fn letter_from(commands: Seq<CommandView>, letter: Seq<char>, i: int) -> Option<int>
    decreases commands.len() - i,
{
    if i < 0 || i >= commands.len() {
        None
    } else if commands[i].letter == letter {
        Some(i)
    } else {
        letter_from(commands, letter, i + 1)
    }
}

/// The command found has the letter text and none before it has; where
/// none is found, none has it.
pub proof fn lemma_letter_from(commands: Seq<CommandView>, letter: Seq<char>, i: int)
    requires
        0 <= i,
    ensures
        match letter_from(commands, letter, i) {
            Some(k) => i <= k < commands.len() && commands[k].letter == letter && forall|j: int|
                i <= j < k ==> (#[trigger] commands[j]).letter != letter,
            None => forall|j: int| i <= j < commands.len() ==> (#[trigger] commands[j]).letter != letter,
        },
    decreases commands.len() - i,
{
    if i < commands.len() && commands[i].letter != letter {
        lemma_letter_from(commands, letter, i + 1);
    }
}

/// No two families of the grammar share a start marker.
pub open spec fn starts_distinct(families: Seq<FamilyView>) -> bool {
    forall|i: int, j: int|
        0 <= i < j < families.len() ==> (#[trigger] families[i]).start != (
        #[trigger] families[j]).start
}

/// No two commands of the family share a letter text.
pub open spec fn letters_distinct(commands: Seq<CommandView>) -> bool {
    forall|i: int, j: int|
        0 <= i < j < commands.len() ==> (#[trigger] commands[i]).letter != (
        #[trigger] commands[j]).letter
}

/// Finds the first family with the start marker.
pub fn find_start(families: &Vec<Family>, start: &str) -> (r: Option<usize>)
    ensures
        position(r) == start_from(families@.map_values(|f: Family| f@), start@, 0),
        r matches Some(i) ==> i < families.len(),
{
    let ghost views = families@.map_values(|f: Family| f@);
    let mut i: usize = 0;
    while i < families.len()
        invariant
            i <= families.len(),
            views == families@.map_values(|f: Family| f@),
            start_from(views, start@, 0) == start_from(views, start@, i as int),
        decreases families.len() - i,
    {
        assert(views[i as int] == families[i as int]@);
        if same_text(families[i].start.as_str(), start) {
            return Some(i);
        }
        i = i + 1;
    }
    None
}

/// Finds the first command with the letter text.
pub fn find_letter(commands: &Vec<Command>, letter: &str) -> (r: Option<usize>)
    ensures
        position(r) == letter_from(commands@.map_values(|c: Command| c@), letter@, 0),
        r matches Some(i) ==> i < commands.len(),
{
    let ghost views = commands@.map_values(|c: Command| c@);
    let mut i: usize = 0;
    while i < commands.len()
        invariant
            i <= commands.len(),
            views == commands@.map_values(|c: Command| c@),
            letter_from(views, letter@, 0) == letter_from(views, letter@, i as int),
        decreases commands.len() - i,
    {
        assert(views[i as int] == commands[i as int]@);
        if same_text(commands[i].letter.as_str(), letter) {
            return Some(i);
        }
        i = i + 1;
    }
    None
}

/// Why a family cannot be added, if it cannot: it is faulty itself, or its
/// start marker is taken.
pub open spec fn create_family_fault(spec: SpecFileView, fam: FamilyView) -> Option<Seq<char>> {
    if family_fault(fam) is Some {
        family_fault(fam)
    } else if start_from(spec.families, fam.start, 0) is Some {
        Some("A family with that start character already exists"@)
    } else {
        None
    }
}

/// Adds a family at the end of the grammar.
pub fn create_family(spec: &mut SpecFile, fam: Family) -> (r: Result<(), String>)
    ensures
        reports(r, create_family_fault(old(spec)@, fam@)),
        r is Err ==> final(spec)@ == old(spec)@,
        r is Ok ==> final(spec)@.families == old(spec)@.families.push(fam@),
        r is Ok && starts_distinct(old(spec)@.families) ==> starts_distinct(final(spec)@.families),
{
    match validate_family_properties(&fam) {
        Err(e) => {
            return Err(e);
        },
        Ok(_) => {},
    }
    if find_start(&spec.families, fam.start.as_str()).is_some() {
        return Err("A family with that start character already exists".to_string());
    }
    proof {
        lemma_start_from(spec@.families, fam@.start, 0);
    }
    spec.families.push(fam);
    proof {
        assert(spec@.families =~= old(spec)@.families.push(fam@));
    }
    Ok(())
}

/// Why a family cannot be replaced, if it cannot: the new one is faulty,
/// its start marker differs from the old one and is taken, or no family has
/// the old start marker.
pub open spec fn update_family_fault(spec: SpecFileView, original_start: Seq<char>, fam: FamilyView) -> Option<
    Seq<char>,
> {
    if family_fault(fam) is Some {
        family_fault(fam)
    } else if original_start != fam.start && start_from(spec.families, fam.start, 0) is Some {
        Some("Another family with the new start character already exists."@)
    } else if start_from(spec.families, original_start, 0) is None {
        Some("Family to update not found (using original start char)."@)
    } else {
        None
    }
}

/// Puts a family in the place of the first one with the start marker
/// `original_start`.
pub fn update_family(spec: &mut SpecFile, original_start: &str, fam: Family) -> (r: Result<
    (),
    String,
>)
    ensures
        reports(r, update_family_fault(old(spec)@, original_start@, fam@)),
        r is Err ==> final(spec)@ == old(spec)@,
        r is Ok ==> final(spec)@.families == old(spec)@.families.update(
            start_from(old(spec)@.families, original_start@, 0)->0,
            fam@,
        ),
        r is Ok && starts_distinct(old(spec)@.families) ==> starts_distinct(final(spec)@.families),
{
    match validate_family_properties(&fam) {
        Err(e) => {
            return Err(e);
        },
        Ok(_) => {},
    }
    if !same_text(original_start, fam.start.as_str()) && find_start(
        &spec.families,
        fam.start.as_str(),
    ).is_some() {
        return Err("Another family with the new start character already exists.".to_string());
    }
    let i = match find_start(&spec.families, original_start) {
        Some(i) => i,
        None => {
            return Err("Family to update not found (using original start char).".to_string());
        },
    };
    proof {
        lemma_start_from(spec@.families, fam@.start, 0);
        lemma_start_from(spec@.families, original_start@, 0);
    }
    spec.families.set(i, fam);
    proof {
        assert(spec@.families =~= old(spec)@.families.update(i as int, fam@));
    }
    Ok(())
}

/// The families of a list, in order, but those with the start marker.
pub open spec fn without_start(families: Seq<FamilyView>, start: Seq<char>) -> Seq<FamilyView>
    decreases families.len(),
{
    if families.len() == 0 {
        families
    } else if families.last().start != start {
        without_start(families.drop_last(), start).push(families.last())
    } else {
        without_start(families.drop_last(), start)
    }
}

/// Removes every family with the start marker; fails where there is none.
pub fn delete_family(spec: &mut SpecFile, start: &str) -> (r: Result<(), String>)
    ensures
        reports(
            r,
            if start_from(old(spec)@.families, start@, 0) is None {
                Some("Family not found"@)
            } else {
                None
            },
        ),
        r is Err ==> final(spec)@ == old(spec)@,
        r is Ok ==> final(spec)@.families == without_start(old(spec)@.families, start@),
        r is Ok && starts_distinct(old(spec)@.families) ==> starts_distinct(final(spec)@.families),
{
    if find_start(&spec.families, start).is_none() {
        return Err("Family not found".to_string());
    }
    let ghost orig = spec@.families;
    let ghost mut done: int = 0;
    let mut i: usize = 0;
    proof {
        assert(without_start(orig.take(0), start@) =~= Seq::<FamilyView>::empty());
        assert(spec@.families =~= without_start(orig.take(0), start@) + orig.skip(0));
    }
    while i < spec.families.len()
        invariant
            0 <= done <= orig.len(),
            i == without_start(orig.take(done), start@).len(),
            spec@.families == without_start(orig.take(done), start@) + orig.skip(done),
        decreases orig.len() - done,
    {
        let ghost kept = without_start(orig.take(done), start@);
        proof {
            assert(spec@.families[i as int] == spec.families[i as int]@);
            assert(spec@.families[i as int] == orig[done]);
            assert(orig.take(done + 1).drop_last() =~= orig.take(done));
            assert(orig.take(done + 1).last() == orig[done]);
        }
        if same_text(spec.families[i].start.as_str(), start) {
            let ghost before = spec@.families;
            spec.families.remove(i);
            proof {
                assert(spec@.families =~= before.remove(i as int));
                assert(before.remove(i as int) =~= kept + orig.skip(done + 1));
            }
        } else {
            proof {
                assert(spec@.families =~= kept.push(orig[done]) + orig.skip(done + 1));
            }
            i = i + 1;
        }
        proof {
            done = done + 1;
        }
    }
    proof {
        assert(orig.take(orig.len() as int) =~= orig);
        assert(spec@.families =~= without_start(orig, start@));
        if starts_distinct(orig) {
            lemma_without_start_distinct(orig, start@);
        }
    }
    Ok(())
}

/// What is left of a list of families after a removal by start marker
/// holds families of the list only, and no start marker twice where the
/// list held none twice.
pub proof fn lemma_without_start_distinct(families: Seq<FamilyView>, start: Seq<char>)
    requires
        starts_distinct(families),
    ensures
        starts_distinct(without_start(families, start)),
        forall|i: int|
            0 <= i < without_start(families, start).len() ==> exists|j: int|
                0 <= j < families.len() && families[j] == #[trigger] without_start(
                    families,
                    start,
                )[i],
    decreases families.len(),
{
    if families.len() > 0 {
        let front = families.drop_last();
        lemma_without_start_distinct(front, start);
        let kept = without_start(front, start);
        let all = without_start(families, start);
        assert forall|i: int| 0 <= i < all.len() implies exists|j: int|
            0 <= j < families.len() && families[j] == #[trigger] all[i] by {
            if i < kept.len() {
                let j = choose|j: int| 0 <= j < front.len() && front[j] == kept[i];
                assert(families[j] == all[i]);
            } else {
                assert(families[families.len() - 1] == all[i]);
            }
        }
        assert forall|a: int, b: int| 0 <= a < b < all.len() implies (#[trigger] all[a]).start != (
        #[trigger] all[b]).start by {
            if b >= kept.len() {
                let j = choose|j: int| 0 <= j < front.len() && front[j] == kept[a];
                assert(families[j].start != families[families.len() - 1].start);
            }
        }
    }
}

/// Whether a result is the expected one: the commands with the expected
/// views, or the failure with the expected message.
pub open spec fn gives_commands(r: Result<&Vec<Command>, String>, expected: Result<
    Seq<CommandView>,
    Seq<char>,
>) -> bool {
    match expected {
        Ok(c) => r matches Ok(v) && v@.map_values(|c: Command| c@) == c,
        Err(m) => r matches Err(e) && e@ == m,
    }
}

/// The commands of the first family with the start marker.
pub fn get_commands<'a>(spec: &'a SpecFile, family_start: &str) -> (r: Result<
    &'a Vec<Command>,
    String,
>)
    ensures
        gives_commands(
            r,
            match start_from(spec@.families, family_start@, 0) {
                Some(i) => Ok(spec@.families[i].commands),
                None => Err("Family not found"@),
            },
        ),
{
    match find_start(&spec.families, family_start) {
        Some(i) => {
            assert(spec@.families[i as int] == spec.families[i as int]@);
            Ok(&spec.families[i].commands)
        },
        None => Err("Family not found".to_string()),
    }
}

/// The grammar with other commands in its family at position `i`.
pub open spec fn with_commands(spec: SpecFileView, i: int, commands: Seq<CommandView>) -> SpecFileView {
    SpecFileView { families: spec.families.update(i, FamilyView { commands, ..spec.families[i] }) }
}

/// Why a command cannot be added to the first family with the start
/// marker, if it cannot: there is no such family, the command's letter is
/// blank, or the family has a command with that letter.
pub open spec fn append_command_fault(spec: SpecFileView, family_start: Seq<char>, cmd: CommandView) -> Option<
    Seq<char>,
> {
    match start_from(spec.families, family_start, 0) {
        None => Some("Family not found"@),
        Some(i) => if blank(cmd.letter) {
            Some("Command letter cannot be empty."@)
        } else if letter_from(spec.families[i].commands, cmd.letter, 0) is Some {
            Some("Command letter already present in this family"@)
        } else {
            None
        },
    }
}

/// Adds a command at the end of the first family with the start marker.
pub fn append_command(spec: &mut SpecFile, family_start: &str, cmd: Command) -> (r: Result<
    (),
    String,
>)
    ensures
        reports(r, append_command_fault(old(spec)@, family_start@, cmd@)),
        r is Err ==> final(spec)@ == old(spec)@,
        r is Ok ==> final(spec)@ == with_commands(
            old(spec)@,
            start_from(old(spec)@.families, family_start@, 0)->0,
            old(spec)@.families[start_from(
                old(spec)@.families,
                family_start@,
                0,
            )->0].commands.push(cmd@),
        ),
        r is Ok && letters_distinct(
            old(spec)@.families[start_from(old(spec)@.families, family_start@, 0)->0].commands,
        ) ==> letters_distinct(
            final(spec)@.families[start_from(old(spec)@.families, family_start@, 0)->0].commands,
        ),
{
    let i = match find_start(&spec.families, family_start) {
        Some(i) => i,
        None => {
            return Err("Family not found".to_string());
        },
    };
    assert(spec@.families[i as int] == spec.families[i as int]@);
    if is_blank(cmd.letter.as_str()) {
        return Err("Command letter cannot be empty.".to_string());
    }
    if find_letter(&spec.families[i].commands, cmd.letter.as_str()).is_some() {
        return Err("Command letter already present in this family".to_string());
    }
    proof {
        lemma_letter_from(spec@.families[i as int].commands, cmd@.letter, 0);
    }
    let fam = &mut spec.families[i];
    fam.commands.push(cmd);
    proof {
        assert(spec.families[i as int]@.commands =~= old(spec)@.families[i as int].commands.push(
            cmd@,
        ));
        assert(spec@.families =~= with_commands(
            old(spec)@,
            i as int,
            old(spec)@.families[i as int].commands.push(cmd@),
        ).families);
    }
    Ok(())
}

/// Why a command of the first family with the start marker cannot be
/// replaced, if it cannot: there is no such family, the new command's letter
/// is blank, the letter differs from the old one and is taken, or the family
/// has no command with the old letter.
pub open spec fn update_command_fault(
    spec: SpecFileView,
    family_start: Seq<char>,
    original_letter: Seq<char>,
    cmd: CommandView,
) -> Option<Seq<char>> {
    match start_from(spec.families, family_start, 0) {
        None => Some("Family not found"@),
        Some(i) => if blank(cmd.letter) {
            Some("Command letter cannot be empty."@)
        } else if original_letter != cmd.letter && letter_from(
            spec.families[i].commands,
            cmd.letter,
            0,
        ) is Some {
            Some("Another command with that letter already exists in this family."@)
        } else if letter_from(spec.families[i].commands, original_letter, 0) is None {
            Some("Command to update not found (using original letter)."@)
        } else {
            None
        },
    }
}

/// Puts a command in the place of the first one with the letter
/// `original_letter`, in the first family with the start marker.
pub fn update_command(
    spec: &mut SpecFile,
    family_start: &str,
    original_letter: &str,
    cmd: Command,
) -> (r: Result<(), String>)
    ensures
        reports(r, update_command_fault(old(spec)@, family_start@, original_letter@, cmd@)),
        r is Err ==> final(spec)@ == old(spec)@,
        r is Ok ==> final(spec)@ == with_commands(
            old(spec)@,
            start_from(old(spec)@.families, family_start@, 0)->0,
            old(spec)@.families[start_from(
                old(spec)@.families,
                family_start@,
                0,
            )->0].commands.update(
                letter_from(
                    old(spec)@.families[start_from(
                        old(spec)@.families,
                        family_start@,
                        0,
                    )->0].commands,
                    original_letter@,
                    0,
                )->0,
                cmd@,
            ),
        ),
        r is Ok && letters_distinct(
            old(spec)@.families[start_from(old(spec)@.families, family_start@, 0)->0].commands,
        ) ==> letters_distinct(
            final(spec)@.families[start_from(old(spec)@.families, family_start@, 0)->0].commands,
        ),
{
    let i = match find_start(&spec.families, family_start) {
        Some(i) => i,
        None => {
            return Err("Family not found".to_string());
        },
    };
    assert(spec@.families[i as int] == spec.families[i as int]@);
    if is_blank(cmd.letter.as_str()) {
        return Err("Command letter cannot be empty.".to_string());
    }
    if !same_text(original_letter, cmd.letter.as_str()) && find_letter(
        &spec.families[i].commands,
        cmd.letter.as_str(),
    ).is_some() {
        return Err("Another command with that letter already exists in this family.".to_string());
    }
    let k = match find_letter(&spec.families[i].commands, original_letter) {
        Some(k) => k,
        None => {
            return Err("Command to update not found (using original letter).".to_string());
        },
    };
    proof {
        lemma_letter_from(spec@.families[i as int].commands, cmd@.letter, 0);
        lemma_letter_from(spec@.families[i as int].commands, original_letter@, 0);
    }
    let fam = &mut spec.families[i];
    fam.commands.set(k, cmd);
    proof {
        assert(spec.families[i as int]@.commands =~= old(spec)@.families[i as int].commands.update(
            k as int,
            cmd@,
        ));
        assert(spec@.families =~= with_commands(
            old(spec)@,
            i as int,
            old(spec)@.families[i as int].commands.update(k as int, cmd@),
        ).families);
    }
    Ok(())
}

/// The commands of a list, in order, but those with the letter text.
pub open spec fn without_letter(commands: Seq<CommandView>, letter: Seq<char>) -> Seq<CommandView>
    decreases commands.len(),
{
    if commands.len() == 0 {
        commands
    } else if commands.last().letter != letter {
        without_letter(commands.drop_last(), letter).push(commands.last())
    } else {
        without_letter(commands.drop_last(), letter)
    }
}

/// What is left of a list of commands after a removal by letter holds
/// commands of the list only, and no letter twice where the list held none
/// twice.
pub proof fn lemma_without_letter_distinct(commands: Seq<CommandView>, letter: Seq<char>)
    requires
        letters_distinct(commands),
    ensures
        letters_distinct(without_letter(commands, letter)),
        forall|i: int|
            0 <= i < without_letter(commands, letter).len() ==> exists|j: int|
                0 <= j < commands.len() && commands[j] == #[trigger] without_letter(
                    commands,
                    letter,
                )[i],
    decreases commands.len(),
{
    if commands.len() > 0 {
        let front = commands.drop_last();
        lemma_without_letter_distinct(front, letter);
        let kept = without_letter(front, letter);
        let all = without_letter(commands, letter);
        assert forall|i: int| 0 <= i < all.len() implies exists|j: int|
            0 <= j < commands.len() && commands[j] == #[trigger] all[i] by {
            if i < kept.len() {
                let j = choose|j: int| 0 <= j < front.len() && front[j] == kept[i];
                assert(commands[j] == all[i]);
            } else {
                assert(commands[commands.len() - 1] == all[i]);
            }
        }
        assert forall|a: int, b: int| 0 <= a < b < all.len() implies (#[trigger] all[a]).letter
            != (#[trigger] all[b]).letter by {
            if b >= kept.len() {
                let j = choose|j: int| 0 <= j < front.len() && front[j] == kept[a];
                assert(commands[j].letter != commands[commands.len() - 1].letter);
            }
        }
    }
}

/// Why no command can be removed from the first family with the start
/// marker, if none can: there is no such family, or it has no command with
/// the letter.
pub open spec fn delete_command_fault(spec: SpecFileView, family_start: Seq<char>, letter: Seq<char>) -> Option<
    Seq<char>,
> {
    match start_from(spec.families, family_start, 0) {
        None => Some("Family not found"@),
        Some(i) => if letter_from(spec.families[i].commands, letter, 0) is None {
            Some("Command not found"@)
        } else {
            None
        },
    }
}

/// Removes every command with the letter from the first family with the
/// start marker; fails where there is none.
pub fn delete_command(spec: &mut SpecFile, family_start: &str, letter: &str) -> (r: Result<
    (),
    String,
>)
    ensures
        reports(r, delete_command_fault(old(spec)@, family_start@, letter@)),
        r is Err ==> final(spec)@ == old(spec)@,
        r is Ok ==> final(spec)@ == with_commands(
            old(spec)@,
            start_from(old(spec)@.families, family_start@, 0)->0,
            without_letter(
                old(spec)@.families[start_from(
                    old(spec)@.families,
                    family_start@,
                    0,
                )->0].commands,
                letter@,
            ),
        ),
        r is Ok && letters_distinct(
            old(spec)@.families[start_from(old(spec)@.families, family_start@, 0)->0].commands,
        ) ==> letters_distinct(
            final(spec)@.families[start_from(old(spec)@.families, family_start@, 0)->0].commands,
        ),
{
    let at = match find_start(&spec.families, family_start) {
        Some(i) => i,
        None => {
            return Err("Family not found".to_string());
        },
    };
    assert(spec@.families[at as int] == spec.families[at as int]@);
    if find_letter(&spec.families[at].commands, letter).is_none() {
        return Err("Command not found".to_string());
    }
    let ghost orig = spec@.families[at as int].commands;
    let fam = &mut spec.families[at];
    remove_letter(&mut fam.commands, letter);
    proof {
        assert(spec@.families =~= with_commands(
            old(spec)@,
            at as int,
            without_letter(orig, letter@),
        ).families);
        if letters_distinct(orig) {
            lemma_without_letter_distinct(orig, letter@);
        }
    }
    Ok(())
}

/// Removes every command with the letter text from a list.
pub fn remove_letter(commands: &mut Vec<Command>, letter: &str)
    ensures
        final(commands)@.map_values(|c: Command| c@) == without_letter(
            old(commands)@.map_values(|c: Command| c@),
            letter@,
        ),
{
    let ghost orig = commands@.map_values(|c: Command| c@);
    let ghost mut done: int = 0;
    let mut i: usize = 0;
    proof {
        assert(without_letter(orig.take(0), letter@) =~= Seq::<CommandView>::empty());
        assert(orig =~= without_letter(orig.take(0), letter@) + orig.skip(0));
    }
    while i < commands.len()
        invariant
            0 <= done <= orig.len(),
            i == without_letter(orig.take(done), letter@).len(),
            commands@.map_values(|c: Command| c@) == without_letter(orig.take(done), letter@)
                + orig.skip(done),
        decreases orig.len() - done,
    {
        let ghost kept = without_letter(orig.take(done), letter@);
        let ghost views = commands@.map_values(|c: Command| c@);
        proof {
            assert(views[i as int] == commands[i as int]@);
            assert(views[i as int] == orig[done]);
            assert(orig.take(done + 1).drop_last() =~= orig.take(done));
            assert(orig.take(done + 1).last() == orig[done]);
        }
        if same_text(commands[i].letter.as_str(), letter) {
            commands.remove(i);
            proof {
                assert(commands@.map_values(|c: Command| c@) =~= views.remove(i as int));
                assert(views.remove(i as int) =~= kept + orig.skip(done + 1));
            }
        } else {
            proof {
                assert(views =~= kept.push(orig[done]) + orig.skip(done + 1));
            }
            i = i + 1;
        }
        proof {
            done = done + 1;
        }
    }
    proof {
        assert(orig.take(orig.len() as int) =~= orig);
        assert(commands@.map_values(|c: Command| c@) =~= without_letter(orig, letter@));
    }
}

} // verus!
