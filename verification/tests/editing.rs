use frame_decoder::edit::{
    append_command, create_family, delete_command, delete_family, find_letter, find_start,
    get_commands, reload_spec_from_default_path, remove_letter, update_command, update_family,
    validate_family_properties,
};
use frame_decoder::{Command, Family, Field, Group, Item, SpecFile, Switch, Variant};

fn command(letter: &str) -> Command {
    Command { letter: letter.to_string(), description: None, items: vec![] }
}

fn family(name: &str, start: &str, terminator: &str, letters: &[&str]) -> Family {
    Family {
        name: name.to_string(),
        description: None,
        start: start.to_string(),
        terminator: terminator.to_string(),
        frame_len: 10,
        commands: letters.iter().map(|l| command(l)).collect(),
    }
}

fn starts(spec: &SpecFile) -> Vec<String> {
    spec.families.iter().map(|f| f.start.clone()).collect()
}

fn letters(spec: &SpecFile, at: usize) -> Vec<String> {
    spec.families[at].commands.iter().map(|c| c.letter.clone()).collect()
}

fn two() -> SpecFile {
    SpecFile {
        families: vec![family("one", "<", ">", &["A", "B"]), family("two", "[", "]", &["A"])],
    }
}

#[test]
fn family_must_have_name_start_and_terminator() {
    assert_eq!(validate_family_properties(&family("n", "<", ">", &[])), Ok(()));
    assert_eq!(
        validate_family_properties(&family("  ", "", "", &[])),
        Err("Family name cannot be empty.".to_string())
    );
    assert_eq!(
        validate_family_properties(&family("n", " \t", "", &[])),
        Err("Family start character cannot be empty.".to_string())
    );
    assert_eq!(
        validate_family_properties(&family("n", "<", "\u{a0}", &[])),
        Err("Family terminator cannot be empty.".to_string())
    );
    assert_eq!(
        validate_family_properties(&family("n", "<", "<", &[])),
        Err("Family start and terminator cannot be the same.".to_string())
    );
    assert_eq!(validate_family_properties(&family("n", "<", " <", &[])), Ok(()));
}

#[test]
fn reload_replaces_or_reports() {
    let mut live = two();
    let r = reload_spec_from_default_path(&mut live, Err("no such file".to_string()));
    assert_eq!(r, Err("Failed to load spec: no such file".to_string()));
    assert_eq!(starts(&live), ["<", "["]);
    let r = reload_spec_from_default_path(&mut live, Ok(SpecFile { families: vec![family("x", "{", "}", &[])] }));
    assert_eq!(r, Ok(()));
    assert_eq!(starts(&live), ["{"]);
}

#[test]
fn create_family_adds_at_the_end() {
    let mut spec = two();
    assert_eq!(create_family(&mut spec, family("three", "{", "}", &[])), Ok(()));
    assert_eq!(starts(&spec), ["<", "[", "{"]);
    assert_eq!(
        create_family(&mut spec, family("again", "[", "}", &[])),
        Err("A family with that start character already exists".to_string())
    );
    assert_eq!(
        create_family(&mut spec, family("", "[", "}", &[])),
        Err("Family name cannot be empty.".to_string())
    );
    assert_eq!(starts(&spec), ["<", "[", "{"]);
}

#[test]
fn update_family_replaces_in_place() {
    let mut spec = two();
    assert_eq!(update_family(&mut spec, "<", family("renamed", "<", "!", &[])), Ok(()));
    assert_eq!(spec.families[0].name, "renamed");
    assert_eq!(spec.families[0].terminator, "!");
    assert_eq!(update_family(&mut spec, "<", family("moved", "{", "}", &[])), Ok(()));
    assert_eq!(starts(&spec), ["{", "["]);
    assert_eq!(
        update_family(&mut spec, "{", family("clash", "[", "}", &[])),
        Err("Another family with the new start character already exists.".to_string())
    );
    assert_eq!(
        update_family(&mut spec, "<", family("gone", "<", ">", &[])),
        Err("Family to update not found (using original start char).".to_string())
    );
    assert_eq!(
        update_family(&mut spec, "{", family("bad", "{", "{", &[])),
        Err("Family start and terminator cannot be the same.".to_string())
    );
    assert_eq!(starts(&spec), ["{", "["]);
    assert_eq!(spec.families[0].name, "moved");
}

#[test]
fn delete_family_removes_every_match() {
    let mut spec = two();
    spec.families.push(family("dup", "<", ">", &[]));
    spec.families.push(family("last", "{", "}", &[]));
    assert_eq!(delete_family(&mut spec, "<"), Ok(()));
    assert_eq!(starts(&spec), ["[", "{"]);
    assert_eq!(delete_family(&mut spec, "<"), Err("Family not found".to_string()));
    assert_eq!(starts(&spec), ["[", "{"]);
    assert_eq!(delete_family(&mut spec, "{"), Ok(()));
    assert_eq!(delete_family(&mut spec, "["), Ok(()));
    assert!(spec.families.is_empty());
    assert_eq!(delete_family(&mut spec, "["), Err("Family not found".to_string()));
}

#[test]
fn get_commands_of_a_family() {
    let spec = two();
    assert_eq!(get_commands(&spec, "<").unwrap().len(), 2);
    assert_eq!(get_commands(&spec, "[").unwrap()[0].letter, "A");
    assert_eq!(get_commands(&spec, "?").unwrap_err(), "Family not found");
}

#[test]
fn append_command_adds_at_the_end() {
    let mut spec = two();
    assert_eq!(append_command(&mut spec, "[", command("C")), Ok(()));
    assert_eq!(letters(&spec, 1), ["A", "C"]);
    assert_eq!(letters(&spec, 0), ["A", "B"]);
    assert_eq!(append_command(&mut spec, "?", command("C")), Err("Family not found".to_string()));
    assert_eq!(
        append_command(&mut spec, "?", command(" ")),
        Err("Family not found".to_string())
    );
    assert_eq!(
        append_command(&mut spec, "[", command(" ")),
        Err("Command letter cannot be empty.".to_string())
    );
    assert_eq!(
        append_command(&mut spec, "[", command("A")),
        Err("Command letter already present in this family".to_string())
    );
    assert_eq!(letters(&spec, 1), ["A", "C"]);
}

#[test]
fn update_command_replaces_in_place() {
    let mut spec = two();
    let mut described = command("A");
    described.description = Some("new".to_string());
    assert_eq!(update_command(&mut spec, "<", "A", described), Ok(()));
    assert_eq!(spec.families[0].commands[0].description.as_deref(), Some("new"));
    assert_eq!(update_command(&mut spec, "<", "A", command("Z")), Ok(()));
    assert_eq!(letters(&spec, 0), ["Z", "B"]);
    assert_eq!(
        update_command(&mut spec, "<", "Z", command("B")),
        Err("Another command with that letter already exists in this family.".to_string())
    );
    assert_eq!(
        update_command(&mut spec, "<", "A", command("Q")),
        Err("Command to update not found (using original letter).".to_string())
    );
    assert_eq!(
        update_command(&mut spec, "<", "Z", command("")),
        Err("Command letter cannot be empty.".to_string())
    );
    assert_eq!(
        update_command(&mut spec, "?", "Z", command("Z")),
        Err("Family not found".to_string())
    );
    assert_eq!(letters(&spec, 0), ["Z", "B"]);
    assert_eq!(letters(&spec, 1), ["A"]);
}

#[test]
fn delete_command_removes_every_match() {
    let mut spec = two();
    spec.families[0].commands.push(command("A"));
    spec.families[0].commands.push(command("C"));
    assert_eq!(delete_command(&mut spec, "<", "A"), Ok(()));
    assert_eq!(letters(&spec, 0), ["B", "C"]);
    assert_eq!(letters(&spec, 1), ["A"]);
    assert_eq!(delete_command(&mut spec, "<", "A"), Err("Command not found".to_string()));
    assert_eq!(delete_command(&mut spec, "?", "A"), Err("Family not found".to_string()));
    assert_eq!(letters(&spec, 0), ["B", "C"]);
}

#[test]
fn remove_letter_keeps_the_order() {
    let mut commands: Vec<Command> = ["A", "B", "A", "A", "C", "A"].iter().map(|l| command(l)).collect();
    remove_letter(&mut commands, "A");
    let left: Vec<&str> = commands.iter().map(|c| c.letter.as_str()).collect();
    assert_eq!(left, ["B", "C"]);
    remove_letter(&mut commands, "x");
    assert_eq!(commands.len(), 2);
}

#[test]
fn finds_the_first_match() {
    let spec = SpecFile {
        families: vec![family("a", "<", ">", &["A", "B", "A"]), family("b", "<", "]", &[])],
    };
    assert_eq!(find_start(&spec.families, "<"), Some(0));
    assert_eq!(find_start(&spec.families, "["), None);
    assert_eq!(find_letter(&spec.families[0].commands, "A"), Some(0));
    assert_eq!(find_letter(&spec.families[0].commands, "B"), Some(1));
    assert_eq!(find_letter(&spec.families[0].commands, "a"), None);
}

#[test]
fn well_formed_grammars_have_radixes_with_digits() {
    let field = |base: u8| Field {
        name: "X".to_string(),
        len: 1,
        base,
        typ: "u8".to_string(),
        description: None,
    };
    for base in 0u8..=255 {
        assert_eq!(field(base).is_wf(), (2..=36).contains(&base));
    }
    let group = |base: u8| Group { name: "G".to_string(), fields: vec![field(10), field(base)] };
    let variant = |base: u8| Variant { description: None, groups: vec![group(16), group(base)] };
    let nested = |case: u8, default: u8, plain: u8| SpecFile {
        families: vec![
            family("empty", "<", ">", &["A"]),
            Family {
                commands: vec![Command {
                    letter: "B".to_string(),
                    description: None,
                    items: vec![
                        Item::Group(group(plain)),
                        Item::Switch(Switch {
                            switch: "X".to_string(),
                            cases: vec![
                                ("0x0000".to_string(), variant(2)),
                                ("0x0001".to_string(), variant(case)),
                            ],
                            default: Some(variant(default)),
                        }),
                    ],
                }],
                ..family("full", "[", "]", &[])
            },
        ],
    };
    assert!(nested(36, 2, 10).is_wf());
    assert!(!nested(37, 2, 10).is_wf());
    assert!(!nested(36, 1, 10).is_wf());
    assert!(!nested(36, 2, 0).is_wf());
    assert!(SpecFile { families: vec![] }.is_wf());
}

#[test]
fn well_formed_switches_hold_no_key_twice() {
    let variant = || Variant { description: None, groups: vec![] };
    let switch = |keys: &[&str]| Switch {
        switch: "X".to_string(),
        cases: keys.iter().map(|k| (k.to_string(), variant())).collect(),
        default: None,
    };
    assert!(switch(&[]).is_wf());
    assert!(switch(&["0x0001"]).is_wf());
    assert!(switch(&["0x0001", "0x0002", "0x0003"]).has_distinct_keys());
    assert!(switch(&["0x0001", "0x0002", "0x0003"]).is_wf());
    assert!(!switch(&["0x0001", "0x0002", "0x0001"]).has_distinct_keys());
    assert!(!switch(&["0x0001", "0x0002", "0x0002"]).is_wf());
    assert!(!switch(&["a", "a"]).is_wf());
    assert!(switch(&["a", "A"]).is_wf());
}
