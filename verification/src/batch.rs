//! Decoding what a user hands over: one line that holds a frame, or a
//! block of text with a frame on each line.

use vstd::prelude::*;
use crate::decode::{decode, decoded};
use crate::error::{result_view, DecodeError};
use crate::model::SpecFile;
use crate::text::{clean_frame, push_char, trimmed};

verus! {

/// The first position at or after `i` that holds a line feed, or the
/// length of the text.
pub open spec fn line_end(s: Seq<char>, i: int) -> int
    decreases s.len() - i,
{
    if 0 <= i < s.len() && s[i] != '\n' {
        line_end(s, i + 1)
    } else {
        i
    }
}

/// The end of a line lies inside the text, and not before the line's start.
pub proof fn lemma_line_end_bounds(s: Seq<char>, i: int)
    requires
        0 <= i <= s.len(),
    ensures
        i <= line_end(s, i) <= s.len(),
    decreases s.len() - i,
{
    if i < s.len() {
        lemma_line_end_bounds(s, i + 1);
    }
}

/// The frames on the lines of a text from position `i` on: each line, in
/// order, without the white space around it, but for the lines that are
/// blank. Lines end at a line feed or at the end of the text.
pub open spec fn frames_from(text: Seq<char>, i: int) -> Seq<Seq<char>>
    decreases text.len() + 1 - i,
    when 0 <= i
    via frames_from_decreases
{
    if i >= text.len() {
        Seq::empty()
    } else {
        let end = line_end(text, i);
        let word = trimmed(text.subrange(i, end));
        if word.len() > 0 {
            seq![word] + frames_from(text, end + 1)
        } else {
            frames_from(text, end + 1)
        }
    }
}

#[via_fn]
proof fn frames_from_decreases(text: Seq<char>, i: int) {
    if i < text.len() {
        lemma_line_end_bounds(text, i);
    }
}

/// The frames of a text: its lines that are not blank, each without the
/// white space around it.
pub open spec fn frames_of(text: Seq<char>) -> Seq<Seq<char>> {
    frames_from(text, 0)
}

/// The characters of each text of a list.
pub open spec fn texts(list: Seq<String>) -> Seq<Seq<char>> {
    list.map_values(|s: String| s@)
}

/// Splits a text into the frames on its lines.
pub fn frames_in(text: &str) -> (frames: Vec<String>)
    ensures
        texts(frames@) == frames_of(text@),
{
    let mut frames: Vec<String> = Vec::new();
    let mut line = String::new();
    let ghost mut start: int = 0;
    proof {
        assert(texts(frames@) + frames_from(text@, 0) =~= frames_of(text@));
        assert(line@ =~= text@.subrange(0, 0));
    }
    for c in it: text.chars()
        invariant
            it.seq() == text@,
            0 <= start <= it.index(),
            line@ == text@.subrange(start, it.index() as int),
            line_end(text@, start) == line_end(text@, it.index() as int),
            frames_of(text@) == texts(frames@) + frames_from(text@, start),
    {
        let ghost at = it.index() as int;
        if c == '\n' {
            let word = clean_frame(line.as_str());
            let ghost before = frames@;
            if !word.is_empty() {
                frames.push(word.to_owned());
                proof {
                    assert(texts(frames@) =~= texts(before) + seq![word@]);
                    assert(texts(frames@) + frames_from(text@, at + 1) =~= texts(before) + (
                    seq![word@] + frames_from(text@, at + 1)));
                }
            }
            line = String::new();
            proof {
                start = at + 1;
                assert(line@ =~= text@.subrange(start, at + 1));
            }
        } else {
            push_char(&mut line, c);
            proof {
                assert(line@ =~= text@.subrange(start, at + 1));
            }
        }
    }
    let word = clean_frame(line.as_str());
    proof {
        let len = text@.len() as int;
        assert(line@ == text@.subrange(start, len));
        assert(line_end(text@, len) == len);
        assert(line_end(text@, start) == len);
        assert(start < len ==> frames_from(text@, len + 1) =~= Seq::<Seq<char>>::empty());
        assert(start >= len ==> trimmed(line@).len() == 0);
    }
    if !word.is_empty() {
        let ghost before = frames@;
        frames.push(word.to_owned());
        proof {
            assert(texts(frames@) =~= texts(before) + seq![word@]);
            assert(frames_from(text@, start) =~= seq![word@]);
        }
    } else {
        proof {
            assert(frames_from(text@, start) =~= Seq::<Seq<char>>::empty());
            assert(texts(frames@) + Seq::<Seq<char>>::empty() =~= texts(frames@));
        }
    }
    frames
}

/// Decodes the frame on one line: the line without the white space around
/// it.
///
/// A blank line holds no frame, and nothing is decoded.
pub fn decode_frame(line: &str, spec: &SpecFile) -> (r: Option<
    Result<serde_json::Value, DecodeError>,
>)
    ensures
        trimmed(line@).len() == 0 ==> r is None,
        trimmed(line@).len() > 0 ==> r is Some && result_view(r->0) == decoded(
            trimmed(line@),
            spec@,
        ),
{
    let frame = clean_frame(line);
    if frame.is_empty() {
        None
    } else {
        Some(decode(frame, spec))
    }
}

/// Decodes every frame of a text, each by itself: the failure of one does
/// not touch the others. The results stand in the order of the lines; blank
/// lines have none.
pub fn batch_decode(text: &str, spec: &SpecFile) -> (r: Vec<Result<serde_json::Value, DecodeError>>)
    ensures
        r@.len() == frames_of(text@).len(),
        forall|k: int|
            0 <= k < r@.len() ==> result_view(#[trigger] r@[k]) == decoded(
                frames_of(text@)[k],
                spec@,
            ),
{
    let frames = frames_in(text);
    let mut results: Vec<Result<serde_json::Value, DecodeError>> = Vec::new();
    let mut i: usize = 0;
    while i < frames.len()
        invariant
            i <= frames.len(),
            texts(frames@) == frames_of(text@),
            results@.len() == i,
            forall|k: int|
                0 <= k < i ==> result_view(#[trigger] results@[k]) == decoded(
                    frames_of(text@)[k],
                    spec@,
                ),
        decreases frames.len() - i,
    {
        assert(texts(frames@)[i as int] == frames[i as int]@);
        let one = decode(frames[i].as_str(), spec);
        results.push(one);
        i = i + 1;
    }
    results
}

} // verus!
