//! Keeping the editor's copy of a document in step with its edits: the
//! text lives in a `ropey::Rope`, and each change replaces a range given
//! in editor positions (line and character) by new text.

use crate::features::{LspPosition, LspRange};
use ropey::Rope;
use vstd::prelude::*;

verus! {

#[verifier::external_type_specification]
#[verifier::external_body]
pub struct ExRope(Rope);

/// The characters a rope holds.
pub uninterp spec fn rope_text(r: Rope) -> Seq<char>;

// ---------------------------------------------------------------------------
// Lines, as the rope counts them
// ---------------------------------------------------------------------------

/// `s[i]` ends a line: a line feed, a carriage return not followed by a
/// line feed (a CRLF pair is one break, ended by its LF), a vertical tab,
/// a form feed, NEL, or the Unicode line and paragraph separators.
pub open spec fn is_break_end(s: Seq<char>, i: int) -> bool {
    let c = s[i];
    ||| c == '\n'
    ||| (c == '\r' && !(i + 1 < s.len() && s[i + 1] == '\n'))
    ||| c == '\u{0B}'
    ||| c == '\u{0C}'
    ||| c == '\u{85}'
    ||| c == '\u{2028}'
    ||| c == '\u{2029}'
}

/// Number of line breaks in `s[p..]`.
pub open spec fn breaks_from(s: Seq<char>, p: int) -> nat
    decreases s.len() - p,
{
    if p < 0 || p >= s.len() {
        0
    } else if is_break_end(s, p) {
        1 + breaks_from(s, p + 1)
    } else {
        breaks_from(s, p + 1)
    }
}

/// Number of lines of `s`: one more than its line breaks.
pub open spec fn line_count(s: Seq<char>) -> nat {
    breaks_from(s, 0) + 1
}

/// The index just after the `l`-th line break of `s` counted from `p`
/// (`p` itself for `l == 0`), or `s.len()` when there are fewer.
pub open spec fn line_start_from(s: Seq<char>, p: int, l: nat) -> int
    decreases s.len() - p,
{
    if l == 0 {
        p
    } else if p < 0 || p >= s.len() {
        s.len() as int
    } else if is_break_end(s, p) {
        line_start_from(s, p + 1, (l - 1) as nat)
    } else {
        line_start_from(s, p + 1, l)
    }
}

/// The char index where line `l` of `s` starts (`s.len()` one past the
/// last line).
pub open spec fn line_start(s: Seq<char>, l: nat) -> int {
    line_start_from(s, 0, l)
}

pub proof fn lemma_line_start_from(s: Seq<char>, p: int, l: nat)
    requires
        0 <= p <= s.len(),
    ensures
        p <= line_start_from(s, p, l) <= s.len(),
        line_start_from(s, p, l) <= line_start_from(s, p, l + 1),
    decreases s.len() - p,
{
    if p < s.len() {
        lemma_line_start_from(s, p + 1, l);
        if l > 0 {
            lemma_line_start_from(s, p + 1, (l - 1) as nat);
        }
    }
}

// ---------------------------------------------------------------------------
// The rope's operations
// ---------------------------------------------------------------------------

/// `Rope::from_str`: a rope holding `text`.
#[verifier::external_body]
pub(crate) fn rope_from_str(text: &str) -> (r: Rope)
    ensures
        rope_text(r) == text@,
{
    Rope::from_str(text)
}

/// `Rope::len_chars`: the number of characters.
#[verifier::external_body]
fn rope_len_chars(r: &Rope) -> (n: usize)
    ensures
        n == rope_text(*r).len(),
{
    r.len_chars()
}

/// `Rope::len_lines`: one more than the number of line breaks.
#[verifier::external_body]
fn rope_len_lines(r: &Rope) -> (n: usize)
    ensures
        n == line_count(rope_text(*r)),
{
    r.len_lines()
}

/// `Rope::line_to_char`: where line `l` starts; `len_lines()` itself gives
/// the end of the text. Panics past that, which `requires` leaves out.
#[verifier::external_body]
fn rope_line_to_char(r: &Rope, l: usize) -> (c: usize)
    requires
        l <= line_count(rope_text(*r)),
    ensures
        c == line_start(rope_text(*r), l as nat),
{
    r.line_to_char(l)
}

/// `Rope::line(l).len_chars()`: the characters of line `l`, its line break
/// included. `Rope::line` panics unless `l < len_lines()`.
#[verifier::external_body]
fn rope_line_len_chars(r: &Rope, l: usize) -> (n: usize)
    requires
        l < line_count(rope_text(*r)),
    ensures
        n == line_start(rope_text(*r), (l + 1) as nat) - line_start(rope_text(*r), l as nat),
{
    r.line(l).len_chars()
}

/// `Rope::remove(start..end)`: the characters in `start..end` are dropped.
/// Panics unless `start <= end <= len_chars()`.
#[verifier::external_body]
fn rope_remove(r: &mut Rope, start: usize, end: usize)
    requires
        start <= end <= rope_text(*old(r)).len(),
    ensures
        rope_text(*final(r)) == rope_text(*old(r)).subrange(0, start as int) + rope_text(
            *old(r),
        ).subrange(end as int, rope_text(*old(r)).len() as int),
{
    r.remove(start..end);
}

/// `Rope::insert(idx, text)`: `text` is put before character `idx`.
/// Panics unless `idx <= len_chars()`.
#[verifier::external_body]
fn rope_insert(r: &mut Rope, idx: usize, text: &str)
    requires
        idx <= rope_text(*old(r)).len(),
    ensures
        rope_text(*final(r)) == rope_text(*old(r)).subrange(0, idx as int) + text@ + rope_text(
            *old(r),
        ).subrange(idx as int, rope_text(*old(r)).len() as int),
{
    r.insert(idx, text);
}

// ---------------------------------------------------------------------------
// Editor positions
// ---------------------------------------------------------------------------

/// The char index of an editor position in `s`: its line (the last one
/// when past the end), and its character (the end of the line, break
/// included, when past it). The character is taken as a char offset.
pub open spec fn pos_to_char(s: Seq<char>, pos: LspPosition) -> int {
    let last = (line_count(s) - 1) as nat;
    let line: nat = if (pos.line as nat) < last { pos.line as nat } else { last };
    let start = line_start(s, line);
    let len = line_start(s, line + 1) - start;
    start + if (pos.character as int) < len { pos.character as int } else { len }
}

/// The char index in `rope` of an editor position.
pub fn lsp_pos_to_char_idx(rope: &Rope, pos: LspPosition) -> (r: usize)
    ensures
        r == pos_to_char(rope_text(*rope), pos),
        r <= rope_text(*rope).len(),
{
    let ghost s = rope_text(*rope);
    // The length of the text bounds the index computed below.
    let _total = rope_len_chars(rope);
    let n = rope_len_lines(rope);
    let last = n - 1;
    let line = if (pos.line as usize) < last { pos.line as usize } else { last };
    let line_start = rope_line_to_char(rope, line);
    let line_len = rope_line_len_chars(rope, line);
    proof {
        lemma_line_start_from(s, 0, line as nat);
        lemma_line_start_from(s, 0, (line + 1) as nat);
    }
    let ch = pos.character as usize;
    line_start + if ch < line_len { ch } else { line_len }
}

/// A change to a document: the range it replaces (the whole text when
/// none) and the new text.
pub struct ContentChange {
    pub range: Option<LspRange>,
    pub text: String,
}

/// The text after `change`: the new text in place of the whole, or of the
/// chars between the two ends of its range.
pub open spec fn changed_text(s: Seq<char>, change: ContentChange) -> Seq<char> {
    match change.range {
        None => change.text@,
        Some(range) => {
            let start = pos_to_char(s, range.start);
            let end = pos_to_char(s, range.end);
            s.subrange(0, start) + change.text@ + s.subrange(end, s.len() as int)
        },
    }
}

/// The change's range does not end before it starts (the rope cannot
/// remove a reversed range).
pub open spec fn change_ordered(s: Seq<char>, change: ContentChange) -> bool {
    match change.range {
        None => true,
        Some(range) => pos_to_char(s, range.start) <= pos_to_char(s, range.end),
    }
}

/// Apply a single editor change (incremental, or full when it has no
/// range) to a `Rope`.
pub fn apply_incremental_change(rope: &mut Rope, change: &ContentChange)
    requires
        change_ordered(rope_text(*old(rope)), *change),
    ensures
        rope_text(*final(rope)) == changed_text(rope_text(*old(rope)), *change),
{
    match &change.range {
        None => {
            *rope = rope_from_str(change.text.as_str());
        },
        Some(range) => {
            let ghost s = rope_text(*rope);
            let start = lsp_pos_to_char_idx(rope, range.start);
            let end = lsp_pos_to_char_idx(rope, range.end);
            if start != end {
                rope_remove(rope, start, end);
            }
            assert(s.subrange(0, start as int) + s.subrange(end as int, s.len() as int)
                == rope_text(*rope));
            assert(rope_text(*rope).subrange(0, start as int) == s.subrange(0, start as int));
            assert(rope_text(*rope).subrange(start as int, rope_text(*rope).len() as int) == s.subrange(
                end as int,
                s.len() as int,
            ));
            if !change.text.as_str().is_empty() {
                rope_insert(rope, start, change.text.as_str());
            } else {
                assert(s.subrange(0, start as int) + change.text@ == s.subrange(0, start as int));
            }
        },
    }
}

} // verus!
