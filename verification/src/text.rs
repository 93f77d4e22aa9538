//! Operations on text that the decoder and the editing rules share, stated
//! over character sequences.

use vstd::prelude::*;
use vstd::string::StrSliceExecFns;

verus! {

/// How many times `c` stands at the end of `s`, without a gap.
pub open spec fn trailing_run(s: Seq<char>, c: char) -> nat
    decreases s.len(),
{
    if s.len() > 0 && s.last() == c {
        1 + trailing_run(s.drop_last(), c)
    } else {
        0
    }
}

/// A run at the end of a text is no longer than the text.
pub proof fn lemma_trailing_run_bounded(s: Seq<char>, c: char)
    ensures
        trailing_run(s, c) <= s.len(),
    decreases s.len(),
{
    if s.len() > 0 && s.last() == c {
        lemma_trailing_run_bounded(s.drop_last(), c);
    }
}

/// `String::push`: the text with `c` added at its end.
#[verifier::external_body]
pub(crate) fn push_char(s: &mut String, c: char)
    ensures
        final(s)@ == old(s)@.push(c),
{
    s.push(c)
}

/// Whether two texts hold the same characters.
pub fn same_text(a: &str, b: &str) -> (r: bool)
    ensures
        r == (a@ == b@),
{
    let x = a.to_owned();
    let y = b.to_owned();
    x == y
}

/// Whether `s` begins with the characters of `prefix`.
pub fn starts_with(s: &str, prefix: &str) -> (r: bool)
    ensures
        r == prefix@.is_prefix_of(s@),
{
    let n = prefix.unicode_len();
    if n > s.unicode_len() {
        return false;
    }
    same_text(s.substring_char(0, n), prefix)
}

/// The number of times `c` stands at the end of `s`.
pub fn count_trailing(s: &str, c: char) -> (n: usize)
    ensures
        n == trailing_run(s@, c),
{
    let total = s.unicode_len();
    let mut n: usize = 0;
    for ch in it: s.chars()
        invariant
            it.seq() == s@,
            s@.len() == total,
            n == trailing_run(s@.take(it.index() as int), c),
            n <= it.index(),
    {
        proof {
            let i = it.index() as int;
            assert(s@.take(i + 1).drop_last() =~= s@.take(i));
            assert(s@.take(i + 1).last() == s@[i]);
        }
        if ch == c {
            n = n + 1;
        } else {
            n = 0;
        }
    }
    proof {
        assert(s@.take(s@.len() as int) =~= s@);
    }
    n
}

/// Whether `c` is white space: a character with the Unicode property
/// `White_Space`.
pub open spec fn is_white_space(c: char) -> bool {
    ||| '\u{9}' <= c && c <= '\u{D}'
    ||| c == ' '
    ||| c == '\u{85}'
    ||| c == '\u{A0}'
    ||| c == '\u{1680}'
    ||| '\u{2000}' <= c && c <= '\u{200A}'
    ||| c == '\u{2028}'
    ||| c == '\u{2029}'
    ||| c == '\u{202F}'
    ||| c == '\u{205F}'
    ||| c == '\u{3000}'
}

/// Whether `c` is white space.
pub fn white_space(c: char) -> (b: bool)
    ensures
        b == is_white_space(c),
{
    (c >= '\u{9}' && c <= '\u{D}') || c == ' ' || c == '\u{85}' || c == '\u{A0}' || c
        == '\u{1680}' || (c >= '\u{2000}' && c <= '\u{200A}') || c == '\u{2028}' || c
        == '\u{2029}' || c == '\u{202F}' || c == '\u{205F}' || c == '\u{3000}'
}

/// Whether a text holds white space only; the empty text does.
pub open spec fn blank(s: Seq<char>) -> bool {
    forall|i: int| 0 <= i < s.len() ==> is_white_space(#[trigger] s[i])
}

/// Whether a text holds white space only.
pub fn is_blank(s: &str) -> (b: bool)
    ensures
        b == blank(s@),
{
    for c in it: s.chars()
        invariant
            it.seq() == s@,
            forall|k: int| 0 <= k < it.index() ==> is_white_space(#[trigger] s@[k]),
    {
        if !white_space(c) {
            assert(!is_white_space(s@[it.index() as int]));
            return false;
        }
    }
    true
}

/// The first position at or after `i` that holds no white space, or the
/// length of the text.
pub open spec fn skip_blank(s: Seq<char>, i: int) -> int
    decreases s.len() - i,
{
    if 0 <= i < s.len() && is_white_space(s[i]) {
        skip_blank(s, i + 1)
    } else {
        i
    }
}

/// The end of what is left of the first `n` characters once the white
/// space at their end is taken off.
pub open spec fn back_blank(s: Seq<char>, n: int) -> int
    decreases n,
{
    if 0 < n <= s.len() && is_white_space(s[n - 1]) {
        back_blank(s, n - 1)
    } else {
        n
    }
}

/// A text without the white space that leads it and the white space that
/// ends it; white space inside stays. A blank text leaves the empty text.
pub open spec fn trimmed(s: Seq<char>) -> Seq<char> {
    let from = skip_blank(s, 0);
    let to = back_blank(s, s.len() as int);
    if from < to {
        s.subrange(from, to)
    } else {
        Seq::empty()
    }
}

/// Taking white space off the end stops behind the last character that is
/// none, and at the start where all is white space.
pub proof fn lemma_back_blank(s: Seq<char>, to: int, n: int)
    requires
        0 <= to <= n <= s.len(),
        forall|i: int| to <= i < n ==> is_white_space(#[trigger] s[i]),
        to == 0 || !is_white_space(s[to - 1]),
    ensures
        back_blank(s, n) == to,
    decreases n,
{
    if to < n {
        lemma_back_blank(s, to, n - 1);
    }
}

/// The frame on a line: the line without the white space around it.
pub fn clean_frame(line: &str) -> (frame: &str)
    ensures
        frame@ == trimmed(line@),
{
    let total = line.unicode_len();
    let mut from: usize = 0;
    let mut to: usize = 0;
    let mut at: usize = 0;
    let mut seen = false;
    for c in it: line.chars()
        invariant
            it.seq() == line@,
            line@.len() == total,
            at == it.index(),
            to <= at,
            forall|i: int| to <= i < at ==> is_white_space(#[trigger] line@[i]),
            !seen ==> to == 0 && skip_blank(line@, 0) == skip_blank(line@, at as int),
            seen ==> from == skip_blank(line@, 0) && from < to && !is_white_space(
                line@[to - 1],
            ),
    {
        if !white_space(c) {
            if !seen {
                from = at;
                seen = true;
            }
            to = at + 1;
        }
        at = at + 1;
    }
    proof {
        lemma_back_blank(line@, to as int, total as int);
    }
    if seen {
        line.substring_char(from, to)
    } else {
        let nothing = line.substring_char(0, 0);
        assert(nothing@ =~= Seq::<char>::empty());
        nothing
    }
}

} // verus!
