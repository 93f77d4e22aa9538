use frame_decoder::text::{
    clean_frame, count_trailing, is_blank, same_text, starts_with, white_space,
};

#[test]
fn white_space_is_what_the_standard_library_says() {
    let mut code: u32 = 0;
    while code <= 0x10FFFF {
        if let Some(c) = char::from_u32(code) {
            assert_eq!(white_space(c), c.is_whitespace(), "U+{:04X}", code);
        }
        code += 1;
    }
}

#[test]
fn blank_texts() {
    assert!(is_blank(""));
    assert!(is_blank(" "));
    assert!(is_blank(" \t\r\n\u{3000}\u{a0}"));
    assert!(!is_blank("a"));
    assert!(!is_blank("  a  "));
    assert!(!is_blank("\u{200b}"));
    for s in ["", " ", "x", " x", "x ", "\t\n", "\u{2003}", "_", "\u{feff}"] {
        assert_eq!(is_blank(s), s.trim().is_empty(), "{:?}", s);
    }
}

#[test]
fn clean_frame_trims_the_line() {
    assert_eq!(clean_frame(""), "");
    assert_eq!(clean_frame("   "), "");
    assert_eq!(clean_frame("<A1>"), "<A1>");
    assert_eq!(clean_frame("  <A1>  "), "<A1>");
    assert_eq!(clean_frame("<A1> <B2>"), "<A1> <B2>");
    assert_eq!(clean_frame("\t<A1>\r\n"), "<A1>");
    assert_eq!(clean_frame("\u{3000}é\u{a0}x \u{2028}"), "é\u{a0}x");
    assert_eq!(clean_frame("a"), "a");
    assert_eq!(clean_frame(" a"), "a");
    assert_eq!(clean_frame("a "), "a");
    assert_eq!(clean_frame("  <A20481 0           >>>  "), "<A20481 0           >>>");
    assert_eq!(clean_frame("  <A20481 0           >>>  ").chars().count(), 23);
}

#[test]
fn clean_frame_agrees_with_trim() {
    let pieces = ["", " ", "a", "bc", "\t", "\n", "é", "\u{2028}", "<A 1>"];
    for x in pieces {
        for y in pieces {
            for z in pieces {
                let line = format!("{}{}{}", x, y, z);
                assert_eq!(clean_frame(&line), line.trim(), "{:?}", line);
            }
        }
    }
}

#[test]
fn starts_with_compares_by_characters() {
    assert!(starts_with("<A>", "<"));
    assert!(starts_with("<A>", ""));
    assert!(starts_with("<A>", "<A>"));
    assert!(!starts_with("<A>", "<A>>"));
    assert!(!starts_with("<A>", "A"));
    assert!(starts_with("«A»", "«"));
    assert!(!starts_with("", "<"));
    assert!(starts_with("", ""));
    for s in ["", "a", "ab", "ba", "é", "éa"] {
        for p in ["", "a", "ab", "b", "é"] {
            assert_eq!(starts_with(s, p), s.starts_with(p), "{:?} {:?}", s, p);
        }
    }
}

#[test]
fn same_text_is_equality() {
    assert!(same_text("", ""));
    assert!(same_text("u8", "u8"));
    assert!(!same_text("u8", "u16"));
    assert!(!same_text("u8", "U8"));
    assert!(!same_text("u8", "u8 "));
}

#[test]
fn count_trailing_counts_the_last_run() {
    assert_eq!(count_trailing("", '>'), 0);
    assert_eq!(count_trailing("<A>", '>'), 1);
    assert_eq!(count_trailing("<A>>>", '>'), 3);
    assert_eq!(count_trailing("<A>> ", '>'), 0);
    assert_eq!(count_trailing(">>>>", '>'), 4);
    assert_eq!(count_trailing(">>a>>", '>'), 2);
    assert_eq!(count_trailing("a»»", '»'), 2);
    assert_eq!(count_trailing("a>>", '<'), 0);
}
