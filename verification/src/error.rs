//! Why a frame could not be decoded.

use vstd::prelude::*;
use crate::json::{json_view, Json};

verus! {

/// `core::num::ParseIntError`, made known so that an error can carry it.
/// Nothing is known of what is inside.
#[verifier::external_type_specification]
#[verifier::external_body]
pub struct ExParseIntError(core::num::ParseIntError);

/// Why a text is no number, as the standard library tells its parse
/// failures apart: an empty text, a character that is no digit, a number
/// too large or too small for its type, a zero where none may stand, or a
/// reason that the standard library has added since.
#[derive(Debug, Clone, Copy, PartialEq, Eq)]
pub enum ParseKind {
    Empty,
    InvalidDigit,
    PosOverflow,
    NegOverflow,
    Zero,
    Other,
}

/// The reasons for which decoding a frame fails.
#[derive(Debug)]
pub enum DecodeError {
    /// The frame does not have the length its family fixes.
    BadLength { expected: u32, got: usize },
    /// No family's start marker begins the frame.
    UnknownFamily,
    /// The frame ends in this many terminators, which is none or more than three.
    BadTerminators(usize),
    /// The family has no command with this letter.
    UnknownCommand(char),
    /// A switch names a field that no group decoded before it.
    MissingField(String),
    /// A switch names a field whose value is not a number.
    BadType(String),
    /// The case key (first) of the named field (second) matches no case,
    /// and the switch has no default.
    UnknownCase(String, String),
    /// Fewer characters are left than the field is wide.
    InputTooShort { field: String, needed: u32, got: u32 },
    /// The grammar itself is malformed: a family without a terminator, a
    /// family whose frame length leaves a frame no room for a command
    /// letter, or a field that is reached and has a radix without digits.
    InvalidSpec(String),
    /// A field's characters are not a number in the field's radix:
    /// the standard library's error, and the kind it is of.
    ParseInt { kind: ParseKind, source: core::num::ParseIntError },
}

/// A decoding failure as the contracts state it: the variant of
/// [`DecodeError`] and what it carries, texts as character sequences, and of
/// a failed parse the kind of the standard library's error, which is all
/// that such an error holds.
pub enum Failure {
    BadLength { expected: nat, got: nat },
    UnknownFamily,
    BadTerminators(nat),
    UnknownCommand(char),
    MissingField(Seq<char>),
    BadType(Seq<char>),
    UnknownCase(Seq<char>, Seq<char>),
    InputTooShort { field: Seq<char>, needed: nat, got: nat },
    InvalidSpec(Seq<char>),
    ParseInt(ParseKind),
}

impl View for DecodeError {
    type V = Failure;

    open spec fn view(&self) -> Failure {
        match self {
            DecodeError::BadLength { expected, got } => Failure::BadLength {
                expected: *expected as nat,
                got: *got as nat,
            },
            DecodeError::UnknownFamily => Failure::UnknownFamily,
            DecodeError::BadTerminators(n) => Failure::BadTerminators(*n as nat),
            DecodeError::UnknownCommand(c) => Failure::UnknownCommand(*c),
            DecodeError::MissingField(f) => Failure::MissingField(f@),
            DecodeError::BadType(f) => Failure::BadType(f@),
            DecodeError::UnknownCase(k, f) => Failure::UnknownCase(k@, f@),
            DecodeError::InputTooShort { field, needed, got } => Failure::InputTooShort {
                field: field@,
                needed: *needed as nat,
                got: *got as nat,
            },
            DecodeError::InvalidSpec(m) => Failure::InvalidSpec(m@),
            DecodeError::ParseInt { kind, source } => Failure::ParseInt(*kind),
        }
    }
}

/// What a result of decoding states: the content of the JSON value it
/// holds, or the failure its error stands for.
pub open spec fn result_view(r: Result<serde_json::Value, DecodeError>) -> Result<Json, Failure> {
    match r {
        Ok(v) => Ok(json_view(v)),
        Err(e) => Err(e@),
    }
}

/// What a result without a value states: success, or the failure its error
/// stands for.
pub open spec fn failure_of(r: Result<(), DecodeError>) -> Option<Failure> {
    match r {
        Ok(_) => None,
        Err(e) => Some(e@),
    }
}

} // verus!
