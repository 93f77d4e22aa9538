use frame_decoder::{
    decode, Command, DecodeError, Family, Field, Group, Item, SpecFile, Switch, Variant,
};

fn field(name: &str, len: u32, base: u8, typ: &str, description: Option<&str>) -> Field {
    Field {
        name: name.to_string(),
        len,
        base,
        typ: typ.to_string(),
        description: description.map(|d| d.to_string()),
    }
}

fn value_group(name: &str) -> Group {
    Group { name: name.to_string(), fields: vec![field("Value", 2, 10, "u8", None)] }
}

fn sample() -> SpecFile {
    let header = Group {
        name: "Header".to_string(),
        fields: vec![
            field("Opcode", 4, 10, "u16", Some("Operation selector")),
            field("Flag", 1, 10, "bool", None),
        ],
    };
    let selector = Group {
        name: "Selector".to_string(),
        fields: vec![field("SwitchField", 2, 16, "u8", None)],
    };
    let switch = Switch {
        switch: "SwitchField".to_string(),
        cases: vec![(
            "0x0001".to_string(),
            Variant { description: Some("Case 1".to_string()), groups: vec![value_group("Case1Group")] },
        )],
        default: Some(Variant {
            description: Some("Default case".to_string()),
            groups: vec![value_group("DefaultGroup")],
        }),
    };
    SpecFile {
        families: vec![Family {
            name: "Angle".to_string(),
            description: None,
            start: "<".to_string(),
            terminator: ">".to_string(),
            frame_len: 23,
            commands: vec![
                Command {
                    letter: "A".to_string(),
                    description: Some("Alpha".to_string()),
                    items: vec![Item::Group(header)],
                },
                Command {
                    letter: "B".to_string(),
                    description: None,
                    items: vec![Item::Group(selector), Item::Switch(switch)],
                },
            ],
        }],
    }
}

#[test]
fn decodes_header_fields() {
    let out = decode("<A20481 0           >>>", &sample()).unwrap();
    assert_eq!(out["Header"]["Opcode"]["value"].as_u64(), Some(2048));
    assert_eq!(out["Header"]["Opcode"]["hex"].as_str(), Some("2048"));
    assert_eq!(out["Header"]["Opcode"]["description"].as_str(), Some("Operation selector"));
    assert_eq!(out["Header"]["Flag"]["value"].as_bool(), Some(true));
    assert_eq!(out["Header"]["Flag"]["hex"].as_str(), Some("1"));
    assert!(out["Header"]["Flag"].get("description").is_none());
    assert_eq!(out["cmd"].as_str(), Some("A"));
    assert_eq!(out["description"].as_str(), Some("Alpha"));
    assert_eq!(out["raw"].as_str(), Some("<A20481 0           >>>"));
    assert!(out.get("variant_description").is_none());
}

#[test]
fn rejects_frame_of_wrong_length() {
    let err = decode("<A20481 0>", &sample()).unwrap_err();
    assert!(matches!(err, DecodeError::BadLength { expected: 23, got: 10 }));
}

#[test]
fn rejects_unknown_start_marker() {
    let err = decode("[A20481 0           >>>", &sample()).unwrap_err();
    assert!(matches!(err, DecodeError::UnknownFamily));
}

#[test]
fn rejects_terminator_run_out_of_range() {
    let err = decode("<A20481 0       >>>>>>>", &sample()).unwrap_err();
    assert!(matches!(err, DecodeError::BadTerminators(7)));
    let err = decode("<A20481 0           >> ", &sample()).unwrap_err();
    assert!(matches!(err, DecodeError::BadTerminators(0)));
}

#[test]
fn switch_takes_matching_case() {
    let out = decode("<B0199              >>>", &sample()).unwrap();
    assert_eq!(out["Selector"]["SwitchField"]["hex"].as_str(), Some("01"));
    assert_eq!(out["variant_description"].as_str(), Some("Case 1"));
    assert_eq!(out["Case1Group"]["Value"]["value"].as_u64(), Some(99));
    assert!(out.get("DefaultGroup").is_none());
    assert_eq!(out["description"].as_str(), Some(""));
}

#[test]
fn switch_falls_back_to_default() {
    let out = decode("<B0288              >>>", &sample()).unwrap();
    assert_eq!(out["Selector"]["SwitchField"]["hex"].as_str(), Some("02"));
    assert_eq!(out["variant_description"].as_str(), Some("Default case"));
    assert_eq!(out["DefaultGroup"]["Value"]["value"].as_u64(), Some(88));
    assert!(out.get("Case1Group").is_none());
}
