//! Decoding of fixed-layout text frames, driven by a declarative grammar of
//! frame families, commands, field groups and switches.
//!
//! A frame is a short text between a start marker and a run of
//! terminators. Its family fixes the marker, the terminator and the length;
//! the first character of its body selects a command; the command's items
//! say how the rest of the body is cut into fields, and which further groups
//! follow from the values of fields already decoded.
//!
//! - [`model`] holds the grammar and its views.
//! - [`json`] names what the JSON values of `serde_json` hold, and states
//!   what the operations used on them do.
//! - [`text`] and [`radix`] hold the operations on text and on numbers.
//! - [`frame`], [`group`] and [`decode`] decode: framing, one group, a
//!   whole frame.
//! - [`batch`] decodes lines and blocks of text.
//! - [`edit`] holds the rules for changing a grammar.
//! - [`laws`] states and proves what holds of decoding as a whole.
//!
//! Every executable function is verified against its contract. The
//! contracts are stated over character sequences, integers, maps and the
//! views of the grammar, and each pins down what the function returns.
//! Decoding takes every frame and every grammar: what cannot be decoded is
//! a failure, never a panic.

pub mod batch;
pub mod decode;
pub mod edit;
pub mod error;
pub mod frame;
pub mod group;
pub mod json;
pub mod laws;
pub mod model;
pub mod radix;
pub mod text;

pub use batch::{batch_decode, decode_frame};
pub use decode::decode;
pub use edit::{reload_spec_from_default_path, validate_family_properties};
pub use error::DecodeError;
pub use model::{Command, Family, Field, Group, Item, SpecFile, Switch, Variant};
pub use text::clean_frame;
