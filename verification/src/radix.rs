//! Numbers as frames write them: digits in a field's radix, their typed
//! values, and the case keys that switches are looked up by.

use vstd::prelude::*;
use crate::error::{result_view, DecodeError, Failure, ParseKind};
use crate::json::{json_bool, json_number, Json};
use crate::text::{push_char, same_text};

verus! {

/// The value of a digit: `0`-`9`, then `a`-`z` or `A`-`Z` for ten and up.
pub open spec fn digit_of(c: char) -> Option<nat> {
    if '0' <= c && c <= '9' {
        Some((c as nat - '0' as nat) as nat)
    } else if 'a' <= c && c <= 'z' {
        Some((c as nat - 'a' as nat + 10) as nat)
    } else if 'A' <= c && c <= 'Z' {
        Some((c as nat - 'A' as nat + 10) as nat)
    } else {
        None
    }
}

/// Whether `c` is a digit of the radix.
pub open spec fn is_digit(c: char, radix: nat) -> bool {
    digit_of(c) matches Some(d) && d < radix
}

/// Whether `s` holds digits of the radix and nothing else.
pub open spec fn all_digits(s: Seq<char>, radix: nat) -> bool {
    forall|i: int| 0 <= i < s.len() ==> is_digit(#[trigger] s[i], radix)
}

/// The number that the digits write, most significant first.
pub open spec fn digits_number(s: Seq<char>, radix: nat) -> nat
    decreases s.len(),
{
    if s.len() == 0 {
        0
    } else {
        digits_number(s.drop_last(), radix) * radix + digit_of(s.last()).unwrap()
    }
}

/// The text without the one `+` that may lead it.
pub open spec fn unsigned_part(s: Seq<char>) -> Seq<char> {
    if s.len() > 0 && s[0] == '+' {
        s.drop_first()
    } else {
        s
    }
}

/// The number that `s` writes in the radix, where it writes one that fits
/// 32 bits: an optional `+`, then at least one digit and only digits.
pub open spec fn parsed_u32(s: Seq<char>, radix: nat) -> Option<nat> {
    let d = unsigned_part(s);
    if d.len() > 0 && all_digits(d, radix) && digits_number(d, radix) <= u32::MAX {
        Some(digits_number(d, radix))
    } else {
        None
    }
}

/// The kind of the error with which `u32::from_str_radix` fails on a text
/// that is no number in the radix.
pub uninterp spec fn parse_failure(s: Seq<char>, radix: nat) -> ParseKind;

/// `u32::from_str_radix`: succeeds exactly on an optional `+` followed by
/// one or more digits of the radix whose number fits 32 bits, and gives that
/// number. Letters count as digits in either case. Where it fails, the
/// error comes back together with its kind, which depends on the text and
/// the radix alone. The radix must lie between 2 and 36, outside of which
/// the standard library panics.
#[verifier::external_body]
pub(crate) fn parse_u32(s: &str, radix: u32) -> (r: Result<
    u32,
    (ParseKind, core::num::ParseIntError),
>)
    requires
        2 <= radix <= 36,
    ensures
        r is Ok <==> parsed_u32(s@, radix as nat) is Some,
        r matches Ok(n) ==> parsed_u32(s@, radix as nat) == Some(n as nat),
        r matches Err(e) ==> e.0 == parse_failure(s@, radix as nat),
{
    match u32::from_str_radix(s, radix) {
        Ok(n) => Ok(n),
        Err(source) => {
            let kind = match source.kind() {
                core::num::IntErrorKind::Empty => ParseKind::Empty,
                core::num::IntErrorKind::InvalidDigit => ParseKind::InvalidDigit,
                core::num::IntErrorKind::PosOverflow => ParseKind::PosOverflow,
                core::num::IntErrorKind::NegOverflow => ParseKind::NegOverflow,
                core::num::IntErrorKind::Zero => ParseKind::Zero,
                _ => ParseKind::Other,
            };
            Err((kind, source))
        },
    }
}

/// The typed value of a parsed number: a truth value for `bool`, the number
/// cut to its low 8, 16 or 24 bits for `u8`, `u16` and `u24`, and the number
/// itself for `u32` and for every other tag.
pub open spec fn typed_value(n: nat, typ: Seq<char>) -> Json {
    if typ == "bool"@ {
        Json::Bool(n != 0)
    } else if typ == "u8"@ {
        Json::Number((n % 0x100) as int)
    } else if typ == "u16"@ {
        Json::Number((n % 0x1_0000) as int)
    } else if typ == "u24"@ {
        Json::Number((n % 0x100_0000) as int)
    } else {
        Json::Number(n as int)
    }
}

/// The message of the failure for a field whose radix has no digits.
pub open spec fn bad_radix_message() -> Seq<char> {
    "Field base must be between 2 and 36."@
}

/// What a field's slice decodes to. A radix below 2 or above 36 is a
/// malformed grammar; a slice that is no number in the radix is a failure
/// to parse, of the kind that the standard library gives it.
pub open spec fn field_value(slice: Seq<char>, base: nat, typ: Seq<char>) -> Result<Json, Failure> {
    if base < 2 || base > 36 {
        Err(Failure::InvalidSpec(bad_radix_message()))
    } else {
        match parsed_u32(slice, base) {
            Some(n) => Ok(typed_value(n, typ)),
            None => Err(Failure::ParseInt(parse_failure(slice, base))),
        }
    }
}

/// Reads one slice as a number in `base` and gives its value as `typ` says.
pub fn slice_val(slice: &str, base: u8, typ: &str) -> (r: Result<serde_json::Value, DecodeError>)
    ensures
        result_view(r) == field_value(slice@, base as nat, typ@),
{
    if base < 2 || base > 36 {
        return Err(DecodeError::InvalidSpec("Field base must be between 2 and 36.".to_string()));
    }
    let n = match parse_u32(slice, base as u32) {
        Ok(n) => n,
        Err((kind, source)) => {
            return Err(DecodeError::ParseInt { kind, source });
        },
    };
    if same_text(typ, "bool") {
        Ok(json_bool(n != 0))
    } else if same_text(typ, "u8") {
        Ok(json_number(n % 0x100))
    } else if same_text(typ, "u16") {
        Ok(json_number(n % 0x1_0000))
    } else if same_text(typ, "u24") {
        Ok(json_number(n % 0x100_0000))
    } else {
        Ok(json_number(n))
    }
}

/// The upper-case hexadecimal digit for a value below sixteen.
pub open spec fn hex_digit(d: nat) -> char {
    if d < 10 {
        ('0' as nat + d) as char
    } else {
        ('A' as nat + d - 10) as char
    }
}

/// How many hexadecimal digits `v` takes, at least one.
pub open spec fn hex_width(v: nat) -> nat
    decreases v,
{
    if v < 16 {
        1
    } else {
        1 + hex_width(v / 16)
    }
}

/// The low `width` hexadecimal digits of `v`, most significant first.
pub open spec fn hex_text(v: nat, width: nat) -> Seq<char>
    decreases width,
{
    if width == 0 {
        Seq::empty()
    } else {
        hex_text(v / 16, (width - 1) as nat).push(hex_digit(v % 16))
    }
}

/// The case key of a discriminant: `0x`, then the value in upper-case
/// hexadecimal, filled with zeros on the left to four digits.
pub open spec fn case_key_text(v: nat) -> Seq<char> {
    let w = hex_width(v);
    seq!['0', 'x'] + hex_text(v, if w < 4 { 4 } else { w })
}

fn hex_digit_char(d: u8) -> (c: char)
    requires
        d < 16,
    ensures
        c == hex_digit(d as nat),
{
    if d < 10 {
        (d + 48) as char
    } else {
        (d + 55) as char
    }
}

fn count_hex_digits(v: u64) -> (w: usize)
    ensures
        w == hex_width(v as nat),
        w <= 16,
    decreases v,
{
    if v < 16 {
        1
    } else {
        let w = count_hex_digits(v / 16);
        proof {
            lemma_hex_width_bound(v as nat);
        }
        w + 1
    }
}

proof fn lemma_hex_width_bound(v: nat)
    requires
        v <= u64::MAX,
    ensures
        hex_width(v) <= 16,
{
    reveal_with_fuel(hex_width, 17);
}

fn push_hex(s: &mut String, v: u64, width: usize)
    ensures
        final(s)@ == old(s)@ + hex_text(v as nat, width as nat),
    decreases width,
{
    if width > 0 {
        push_hex(s, v / 16, width - 1);
        push_char(s, hex_digit_char((v % 16) as u8));
        assert(s@ =~= old(s)@ + hex_text(v as nat, width as nat));
    } else {
        assert(s@ =~= old(s)@ + hex_text(v as nat, width as nat));
    }
}

/// The case key that a switch looks its cases up by.
pub fn case_key(disc: u64) -> (key: String)
    ensures
        key@ == case_key_text(disc as nat),
{
    let w = count_hex_digits(disc);
    let mut key = String::new();
    push_char(&mut key, '0');
    push_char(&mut key, 'x');
    push_hex(&mut key, disc, if w < 4 { 4 } else { w });
    assert(key@ =~= case_key_text(disc as nat));
    key
}

} // verus!
