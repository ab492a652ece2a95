//! The body text handed to the GAMS parser, and the map from its lines back
//! to the lines of the original file.
//!
//! The dollar layer is lexed first; only the `BodyText` lines survive, in
//! order, each with its own line break, so line `k` of the body is the
//! `k`-th body line of the file.

use std::path::PathBuf;

use crate::lexer::{lex_spec, lines_of, loc_in, tok, tokenize_str, toks_view, unterminated_message};
use crate::text::push_str;
use crate::types::{Diagnostic, Severity, SourceLocation, Token, TokenKind};
use vstd::prelude::*;

verus! {

// ---------------------------------------------------------------------------
// Source map
// ---------------------------------------------------------------------------

/// Maps the lines of the body text to the lines of the original file.
pub struct SourceMap {
    /// Maps 0-based body-text line index → 1-based original file line number.
    pub body_line_to_orig: Vec<u32>,
    pub orig_file: PathBuf,
}

impl SourceMap {
    /// The original line of body line `body_line`, if the body has it.
    pub fn orig_line(&self, body_line: usize) -> (r: Option<u32>)
        ensures
            body_line < self.body_line_to_orig@.len() ==> r == Some(
                self.body_line_to_orig@[body_line as int],
            ),
            body_line >= self.body_line_to_orig@.len() ==> r.is_none(),
    {
        if body_line < self.body_line_to_orig.len() {
            Some(self.body_line_to_orig[body_line])
        } else {
            None
        }
    }

    /// The first body line that comes from original line `orig_line`, if any.
    pub fn orig_to_body_line(&self, orig_line: u32) -> (r: Option<usize>)
        ensures
            match r {
                Some(k) => {
                    &&& k < self.body_line_to_orig@.len()
                    &&& self.body_line_to_orig@[k as int] == orig_line
                    &&& forall|j: int| 0 <= j < k ==> self.body_line_to_orig@[j] != orig_line
                },
                None => forall|j: int|
                    0 <= j < self.body_line_to_orig@.len() ==> self.body_line_to_orig@[j]
                        != orig_line,
            },
    {
        let mut k: usize = 0;
        while k < self.body_line_to_orig.len()
            invariant
                k <= self.body_line_to_orig@.len(),
                forall|j: int| 0 <= j < k ==> self.body_line_to_orig@[j] != orig_line,
            decreases self.body_line_to_orig@.len() - k,
        {
            if self.body_line_to_orig[k] == orig_line {
                return Some(k);
            }
            k += 1;
        }
        None
    }
}

// ---------------------------------------------------------------------------
// Body text
// ---------------------------------------------------------------------------

/// The concatenated raw text of the `BodyText` tokens of `toks`.
pub open spec fn body_text_of(toks: Seq<Token>) -> Seq<char>
    decreases toks.len(),
{
    if toks.len() == 0 {
        seq![]
    } else {
        let rest = body_text_of(toks.drop_last());
        if toks.last().kind == TokenKind::BodyText {
            rest + toks.last().raw@
        } else {
            rest
        }
    }
}

/// The original line numbers of the `BodyText` tokens of `toks`, in order.
pub open spec fn body_lines_of(toks: Seq<Token>) -> Seq<u32>
    decreases toks.len(),
{
    if toks.len() == 0 {
        seq![]
    } else {
        let rest = body_lines_of(toks.drop_last());
        if toks.last().kind == TokenKind::BodyText {
            rest.push(toks.last().loc.line)
        } else {
            rest
        }
    }
}

/// The raw texts of the `BodyText` tokens of `toks`, in order: the lines
/// of the body text.
pub open spec fn body_raws_of(toks: Seq<Token>) -> Seq<Seq<char>>
    decreases toks.len(),
{
    if toks.len() == 0 {
        seq![]
    } else {
        let rest = body_raws_of(toks.drop_last());
        if toks.last().kind == TokenKind::BodyText {
            rest.push(toks.last().raw@)
        } else {
            rest
        }
    }
}

/// Build the filtered body text and source map from the dollar-layer token list.
/// Each `BodyText` token is a single line (with its trailing newline included),
/// so concatenating them preserves line structure for the parser.
pub fn build_body(tokens: &[Token], file: &PathBuf) -> (r: (String, SourceMap))
    ensures
        r.0@ == body_text_of(tokens@),
        r.1.body_line_to_orig@ == body_lines_of(tokens@),
        r.1.orig_file == *file,
{
    let mut body = String::new();
    let mut orig_lines: Vec<u32> = Vec::new();
    let mut i: usize = 0;
    while i < tokens.len()
        invariant
            i <= tokens@.len(),
            body@ == body_text_of(tokens@.take(i as int)),
            orig_lines@ == body_lines_of(tokens@.take(i as int)),
        decreases tokens@.len() - i,
    {
        assert(tokens@.take(i + 1).drop_last() == tokens@.take(i as int));
        let token = &tokens[i];
        if token.kind == TokenKind::BodyText {
            push_str(&mut body, token.raw.as_str());
            orig_lines.push(token.loc.line);
        }
        i += 1;
    }
    assert(tokens@.take(tokens@.len() as int) == tokens@);
    (body, SourceMap { body_line_to_orig: orig_lines, orig_file: file.clone() })
}

// ---------------------------------------------------------------------------
// Running the dollar layer
// ---------------------------------------------------------------------------

/// The code of the diagnostic for a text the dollar layer cannot lex.
pub open spec fn lexer_failure_code() -> Seq<char> {
    "L000"@
}

/// Lex `text` for the editor: the tokens (each at column 1 of `file`) and
/// no diagnostics, or no tokens and one error diagnostic carrying the
/// lexer's message and location.
pub fn run_lexer(file: PathBuf, text: &str) -> (r: (Vec<Token>, Vec<Diagnostic>))
    ensures
        !lex_spec(text@).1 ==> {
            &&& toks_view(r.0@) == lex_spec(text@).0.push(
                tok(TokenKind::Eof, seq![], lines_of(text@).len() as int + 1, seq![]),
            )
            &&& forall|k: int| 0 <= k < r.0@.len() ==> loc_in(#[trigger] r.0@[k], file)
            &&& r.1@.len() == 0
        },
        lex_spec(text@).1 ==> {
            &&& r.0@.len() == 0
            &&& r.1@.len() == 1
            &&& r.1@[0].code@ == lexer_failure_code()
            &&& r.1@[0].message@ == unterminated_message()
            &&& r.1@[0].severity == Severity::Error
            &&& r.1@[0].loc == SourceLocation {
                file,
                line: lines_of(text@).len() as u32,
                col: 1,
                length: 0,
            }
        },
{
    match tokenize_str(file, text) {
        Ok(tokens) => (tokens, Vec::new()),
        Err(err) => {
            let diag = Diagnostic::new("L000", err.message.as_str(), err.loc, Severity::Error);
            let mut diags: Vec<Diagnostic> = Vec::new();
            diags.push(diag);
            (Vec::new(), diags)
        },
    }
}

// ---------------------------------------------------------------------------
// Include paths
// ---------------------------------------------------------------------------

/// The literal `$include` paths of `toks`: the first argument of each
/// `Include` token that has one, leaving out those holding a `%var%`
/// reference (any `%`).
pub open spec fn include_paths_of(toks: Seq<Token>) -> Seq<Seq<char>>
    decreases toks.len(),
{
    if toks.len() == 0 {
        seq![]
    } else {
        let rest = include_paths_of(toks.drop_last());
        let t = toks.last();
        if t.kind == TokenKind::Include && t.args@.len() > 0 && !t.args@[0]@.contains('%') {
            rest.push(t.args@[0]@)
        } else {
            rest
        }
    }
}

/// Literal `$include` paths (skips paths containing `%var%` references).
pub fn include_paths(tokens: &[Token]) -> (r: Vec<String>)
    ensures
        r@.map_values(|s: String| s@) == include_paths_of(tokens@),
{
    let mut out: Vec<String> = Vec::new();
    let mut i: usize = 0;
    while i < tokens.len()
        invariant
            i <= tokens@.len(),
            out@.map_values(|s: String| s@) == include_paths_of(tokens@.take(i as int)),
        decreases tokens@.len() - i,
    {
        assert(tokens@.take(i + 1).drop_last() == tokens@.take(i as int));
        let token = &tokens[i];
        if token.kind == TokenKind::Include && token.args.len() > 0 {
            let first = &token.args[0];
            if !has_percent(first.as_str()) {
                let ghost before = out@;
                out.push(first.clone());
                assert(out@.map_values(|s: String| s@) == before.map_values(|s: String| s@).push(
                    first@,
                ));
            }
        }
        i += 1;
    }
    assert(tokens@.take(tokens@.len() as int) == tokens@);
    out
}

/// Whether `s` holds a `%`.
pub fn has_percent(s: &str) -> (r: bool)
    ensures
        r == s@.contains('%'),
{
    let v = crate::text::chars_of(s);
    let mut i: usize = 0;
    while i < v.len()
        invariant
            i <= v@.len(),
            v@ == s@,
            forall|j: int| 0 <= j < i ==> v@[j] != '%',
        decreases v@.len() - i,
    {
        if v[i] == '%' {
            return true;
        }
        i += 1;
    }
    false
}

} // verus!
