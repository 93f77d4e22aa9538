use frame_decoder::batch::{batch_decode, decode_frame, frames_in};
use frame_decoder::decode;
use frame_decoder::{Command, DecodeError, Family, Field, Group, Item, SpecFile};

fn grammar(frame_len: u32) -> SpecFile {
    SpecFile {
        families: vec![Family {
            name: "F".to_string(),
            description: None,
            start: "<".to_string(),
            terminator: ">".to_string(),
            frame_len,
            commands: vec![Command {
                letter: "A".to_string(),
                description: None,
                items: vec![Item::Group(Group {
                    name: "G".to_string(),
                    fields: vec![Field {
                        name: "X".to_string(),
                        len: 2,
                        base: 10,
                        typ: "u8".to_string(),
                        description: None,
                    }],
                })],
            }],
        }],
    }
}

#[test]
fn frames_are_the_trimmed_lines() {
    assert!(frames_in("").is_empty());
    assert!(frames_in("\n").is_empty());
    assert!(frames_in("  \n\t\r\n \n").is_empty());
    assert_eq!(frames_in("<A1>"), ["<A1>"]);
    assert_eq!(frames_in("<A1>\n"), ["<A1>"]);
    assert_eq!(frames_in("<A1>\r\n<B2>\r\n"), ["<A1>", "<B2>"]);
    assert_eq!(frames_in("  <A1 2>  \n\n\n<B2>\tx\n   \n<C3>"), ["<A1 2>", "<B2>\tx", "<C3>"]);
    assert_eq!(frames_in("\n\n<A1>"), ["<A1>"]);
    assert_eq!(frames_in(" <A20481 0           >>> \n"), ["<A20481 0           >>>"]);
}

#[test]
fn frames_agree_with_lines_and_trim() {
    let pieces = ["", "a", " ", "\n", "\r\n", "b c", "\r", "\t"];
    for w in pieces {
        for x in pieces {
            for y in pieces {
                for z in pieces {
                    let text = format!("{}{}{}{}", w, x, y, z);
                    let expected: Vec<&str> =
                        text.lines().map(|l| l.trim()).filter(|l| !l.is_empty()).collect();
                    assert_eq!(frames_in(&text), expected, "{:?}", text);
                }
            }
        }
    }
}

fn scenario_grammar() -> SpecFile {
    let field = |name: &str, len: u32, typ: &str, description: Option<&str>| Field {
        name: name.to_string(),
        len,
        base: 10,
        typ: typ.to_string(),
        description: description.map(|d| d.to_string()),
    };
    SpecFile {
        families: vec![Family {
            name: "F".to_string(),
            description: None,
            start: "<".to_string(),
            terminator: ">".to_string(),
            frame_len: 23,
            commands: vec![Command {
                letter: "A".to_string(),
                description: None,
                items: vec![Item::Group(Group {
                    name: "Header".to_string(),
                    fields: vec![
                        field("Opcode", 4, "u16", Some("Operation selector")),
                        field("Flag", 1, "bool", None),
                    ],
                })],
            }],
        }],
    }
}

#[test]
fn frame_with_spaces_inside_is_kept_whole() {
    let spec = scenario_grammar();
    for line in ["<A20481 0           >>>", "  <A20481 0           >>>  ", "\t<A20481 0           >>>\r"] {
        let out = decode_frame(line, &spec).unwrap().unwrap();
        assert_eq!(out["raw"].as_str(), Some("<A20481 0           >>>"));
        assert_eq!(out["Header"]["Opcode"]["value"].as_u64(), Some(2048));
        assert_eq!(out["Header"]["Flag"]["value"].as_bool(), Some(true));
    }
    let results = batch_decode("<A20481 0           >>>\r\n\r\n  <A00070 1           >>> \n", &spec);
    assert_eq!(results.len(), 2);
    assert_eq!(results[0].as_ref().unwrap()["Header"]["Opcode"]["value"].as_u64(), Some(2048));
    assert_eq!(results[1].as_ref().unwrap()["Header"]["Opcode"]["value"].as_u64(), Some(7));
    assert_eq!(results[1].as_ref().unwrap()["raw"].as_str(), Some("<A00070 1           >>>"));
}

#[test]
fn blank_line_holds_no_frame() {
    let spec = grammar(5);
    assert!(decode_frame("", &spec).is_none());
    assert!(decode_frame("   \t", &spec).is_none());
    let out = decode_frame("  <A42>  ", &spec).unwrap().unwrap();
    assert_eq!(out["G"]["X"]["value"].as_u64(), Some(42));
    assert_eq!(out["raw"].as_str(), Some("<A42>"));
    let err = decode_frame("<A42> x", &spec).unwrap().unwrap_err();
    assert!(matches!(err, DecodeError::BadLength { expected: 5, got: 7 }));
}

#[test]
fn one_failure_does_not_end_the_batch() {
    let spec = grammar(5);
    let results = batch_decode("<A01>\n\n  oops\n<Azz>\n<A9>\n <A77> \n", &spec);
    assert_eq!(results.len(), 5);
    assert_eq!(results[0].as_ref().unwrap()["G"]["X"]["value"].as_u64(), Some(1));
    assert!(matches!(results[1], Err(DecodeError::UnknownFamily)));
    assert!(matches!(results[2], Err(DecodeError::ParseInt { .. })));
    assert!(matches!(results[3], Err(DecodeError::BadLength { expected: 5, got: 4 })));
    assert_eq!(results[4].as_ref().unwrap()["G"]["X"]["value"].as_u64(), Some(77));
    assert!(batch_decode("", &spec).is_empty());
}

#[test]
fn frame_without_room_for_a_letter_is_an_error() {
    let spec = grammar(3);
    let message = "Family frame length leaves no room for a command letter.";
    match decode("<>>", &spec).unwrap_err() {
        DecodeError::InvalidSpec(m) => assert_eq!(m, message),
        other => panic!("unexpected {:?}", other),
    }
    match decode_frame(" <>> ", &spec).unwrap().unwrap_err() {
        DecodeError::InvalidSpec(m) => assert_eq!(m, message),
        other => panic!("unexpected {:?}", other),
    }
    let results = batch_decode("<A>\n<>>\n<B>", &spec);
    assert_eq!(results.len(), 3);
    assert!(matches!(results[0], Err(DecodeError::InputTooShort { needed: 2, got: 0, .. })));
    assert!(matches!(results[1], Err(DecodeError::InvalidSpec(_))));
    assert!(matches!(results[2], Err(DecodeError::UnknownCommand('B'))));
    // The same frame twice gives the same failure.
    assert_eq!(format!("{:?}", decode("<>>", &spec)), format!("{:?}", decode("<>>", &spec)));
}

#[test]
fn radix_without_digits_is_an_error_where_the_field_is_reached() {
    let mut spec = grammar(6);
    spec.families[0].commands[0].items.push(Item::Group(Group {
        name: "H".to_string(),
        fields: vec![Field {
            name: "Y".to_string(),
            len: 1,
            base: 1,
            typ: "u8".to_string(),
            description: None,
        }],
    }));
    assert!(!spec.is_wf());
    match decode("<A420>", &spec).unwrap_err() {
        DecodeError::InvalidSpec(m) => assert_eq!(m, "Field base must be between 2 and 36."),
        other => panic!("unexpected {:?}", other),
    }
    // A failure before the field comes first, and so does too short an input.
    assert!(matches!(decode("<Azz0>", &spec).unwrap_err(), DecodeError::ParseInt { .. }));
    spec.families[0].frame_len = 5;
    assert!(matches!(
        decode("<A42>", &spec).unwrap_err(),
        DecodeError::InputTooShort { needed: 1, got: 0, .. }
    ));
}
