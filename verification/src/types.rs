//! Data types shared by the lexer, the evaluator and the editor helpers.

use std::path::PathBuf;
use vstd::prelude::*;

verus! {

#[verifier::external_type_specification]
#[verifier::external_body]
pub struct ExPathBuf(PathBuf);

/// `PathBuf::clone` gives back the same path.
pub assume_specification[ <PathBuf as Clone>::clone ](p: &PathBuf) -> (r: PathBuf)
    ensures
        r == *p,
;

/// The text `Path::display` shows for a path.
pub uninterp spec fn path_text(p: PathBuf) -> Seq<char>;

/// Calls `Path::display` and collects what it shows into a string. The
/// contract names the text and says no more: how a path's bytes are shown
/// (lossily, where they are not UTF-8) is not stated.
#[verifier::external_body]
fn display_path(p: &PathBuf) -> (r: String)
    ensures
        r@ == path_text(*p),
{
    format!("{}", p.display())
}

// ---------------------------------------------------------------------------
// Source tracking
// ---------------------------------------------------------------------------

#[derive(Debug, Clone, PartialEq, Eq, Hash)]
pub struct SourceLocation {
    pub file: PathBuf,
    /// 1-based line number in the original file.
    pub line: u32,
    /// 1-based column of the first character of the span.
    pub col: u32,
    /// Number of characters in the span (0 = point location).
    pub length: u32,
}

/// How a location is written: `file:line:col`.
pub open spec fn location_text(l: SourceLocation) -> Seq<char> {
    path_text(l.file) + ":"@ + crate::text::decimal(l.line as nat) + ":"@ + crate::text::decimal(
        l.col as nat,
    )
}

impl SourceLocation {
    pub fn new(file: PathBuf, line: u32, col: u32) -> (r: Self)
        ensures
            r.file == file,
            r.line == line,
            r.col == col,
            r.length == 0,
    {
        Self { file, line, col, length: 0 }
    }

    /// `file:line:col`.
    pub fn to_string(&self) -> (r: String)
        ensures
            r@ == location_text(*self),
    {
        let mut s = display_path(&self.file);
        crate::text::push_str(&mut s, ":");
        let l = crate::text::decimal_string(self.line);
        crate::text::push_str(&mut s, l.as_str());
        crate::text::push_str(&mut s, ":");
        let c = crate::text::decimal_string(self.col);
        crate::text::push_str(&mut s, c.as_str());
        s
    }

    /// A copy of this location.
    pub fn duplicate(&self) -> (r: Self)
        ensures
            r == *self,
    {
        Self { file: self.file.clone(), line: self.line, col: self.col, length: self.length }
    }
}

// ---------------------------------------------------------------------------
// Token kinds
// ---------------------------------------------------------------------------

#[derive(Debug, Clone, Copy, PartialEq, Eq, Structural)]
pub enum TokenKind {
    // Dollar directives
    SetLocal,     // $set / $setlocal
    SetGlobal,    // $setglobal
    SetEnv,       // $setenv
    Include,      // $include
    BatInclude,   // $batinclude
    Macro,        // $macro <name> <body>
    CallMacro,    // %macroname% token (expanded inline)
    // Multi-line conditionals ($ifthen … $endif)
    IfThen,       // $ifthen[.tag]  condition  (case-sensitive string comparison)
    IfThenE,      // $ifthenE[.tag] expression (numeric expression)
    IfThenI,      // $ifthenI[.tag] condition  (case-insensitive comparison)
    ElseIf,       // $elseif[.tag]
    ElseIfE,      // $elseifE[.tag]
    ElseIfI,      // $elseifI[.tag]
    Else,         // $else[.tag]
    EndIf,        // $endif[.tag]
    // Single-line conditionals ($if condition statement)
    If,           // $if  [not] condition statement
    IfE,          // $ifE [not] condition statement  (expression)
    IfI,          // $ifI [not] condition statement  (case-insensitive)
    // Compile-time variable arithmetic
    Eval,         // $eval[.Set]       varname expr
    EvalGlobal,   // $evalGlobal[.Set] varname expr
    // Flow control / output
    OnText,       // $ontext
    OffText,      // $offtext
    OnEmpty,      // $onempty
    OffEmpty,     // $offempty
    Label,        // $label <name>
    Goto,         // $goto <name>
    Exit,         // $exit
    Abort,        // $abort
    Call,         // $call command
    Drop,         // $drop / $dropEnv / $dropGlobal / $dropLocal
    Echo,         // $echo / $echon
    Log,          // $log
    EolCom,       // $eolcom
    InlineCom,    // $inlinecom
    DollarOther,  // any unrecognised $ directive
    // Body
    BodyText,     // raw GAMS line
    CommentLine,  // * comment line (native GAMS, start of line)
    EolComText,   // text after an eolcom marker
    // Housekeeping
    Eof,
}

#[derive(Debug, Clone)]
pub struct Token {
    pub kind: TokenKind,
    pub raw: String,
    pub loc: SourceLocation,
    /// Parsed arguments (name, value, path, condition…). Interpretation depends on kind.
    pub args: Vec<String>,
}

impl Token {
    pub fn new(kind: TokenKind, raw: &str, loc: SourceLocation) -> (r: Self)
        ensures
            r.kind == kind,
            r.raw@ == raw@,
            r.loc == loc,
            r.args@.len() == 0,
    {
        Self { kind, raw: raw.to_owned(), loc, args: Vec::new() }
    }

    pub fn with_args(self, args: Vec<String>) -> (r: Self)
        ensures
            r.kind == self.kind,
            r.raw == self.raw,
            r.loc == self.loc,
            r.args == args,
    {
        let mut t = self;
        t.args = args;
        t
    }
}

// ---------------------------------------------------------------------------
// Directive AST nodes
// ---------------------------------------------------------------------------

#[derive(Debug)]
pub enum DirectiveNode {
    SetVar(SetNode),
    Include(IncludeNode),
    MacroDef(MacroDefNode),
    IfThenBlock(IfThenBlock),
    Body(BodySegment),
}

impl DirectiveNode {
    pub fn loc(&self) -> (r: &SourceLocation)
        ensures
            *r == match self {
                DirectiveNode::SetVar(n) => n.loc,
                DirectiveNode::Include(n) => n.loc,
                DirectiveNode::MacroDef(n) => n.loc,
                DirectiveNode::IfThenBlock(n) => n.loc,
                DirectiveNode::Body(n) => n.loc,
            },
    {
        match self {
            DirectiveNode::SetVar(n) => &n.loc,
            DirectiveNode::Include(n) => &n.loc,
            DirectiveNode::MacroDef(n) => &n.loc,
            DirectiveNode::IfThenBlock(n) => &n.loc,
            DirectiveNode::Body(n) => &n.loc,
        }
    }
}

#[derive(Debug, Clone, Copy, PartialEq, Eq, Structural)]
pub enum Scope {
    Local,
    Global,
    Env,
}

#[derive(Debug, Clone)]
pub struct SetNode {
    pub loc: SourceLocation,
    pub name: String,
    pub value: String,
    pub scope: Scope,
}

#[derive(Debug, Clone)]
pub struct IncludeNode {
    pub loc: SourceLocation,
    pub path: String,
    pub resolved: Option<PathBuf>,
    pub is_bat: bool,
    pub bat_args: Vec<String>,
}

#[derive(Debug, Clone)]
pub struct MacroDefNode {
    pub loc: SourceLocation,
    pub name: String,
    pub params: Vec<String>,
    pub body: String,
}

#[derive(Debug, Clone, Copy, PartialEq, Eq, Structural)]
pub enum ConditionKind {
    IfThen,
    ElseIf,
    Else,
}

#[derive(Debug)]
pub struct ConditionNode {
    pub loc: SourceLocation,
    /// Raw condition string (None for $else).
    pub condition: Option<String>,
    /// True/False if statically resolved; None if unknown.
    pub evaluated: Option<bool>,
    pub body: Vec<DirectiveNode>,
    pub kind: ConditionKind,
}

#[derive(Debug)]
pub struct IfThenBlock {
    pub loc: SourceLocation,
    pub branches: Vec<ConditionNode>,
}

#[derive(Debug, Clone)]
pub struct BodySegment {
    pub loc: SourceLocation,
    pub text: String,
    /// Non-None when this segment came from a $include.
    pub included_from: Option<PathBuf>,
}

// ---------------------------------------------------------------------------
// Dollar variable (populated by the simulator)
// ---------------------------------------------------------------------------

#[derive(Debug, Clone)]
pub struct DollarVariable {
    pub name: String,
    pub scope: Scope,
    /// Each entry: (value, where it was set).
    pub definitions: Vec<(String, SourceLocation)>,
}

impl DollarVariable {
    pub fn new(name: &str, scope: Scope) -> (r: Self)
        ensures
            r.name@ == name@,
            r.scope == scope,
            r.definitions@.len() == 0,
    {
        Self { name: name.to_owned(), scope, definitions: Vec::new() }
    }

    /// The value of the latest definition, if any.
    pub fn current_value(&self) -> (r: Option<&str>)
        ensures
            self.definitions@.len() == 0 ==> r.is_none(),
            self.definitions@.len() > 0 ==> r.is_some()
                && r.unwrap()@ == self.definitions@.last().0@,
    {
        let n = self.definitions.len();
        if n == 0 {
            None
        } else {
            Some(self.definitions[n - 1].0.as_str())
        }
    }
}

// ---------------------------------------------------------------------------
// Diagnostics
// ---------------------------------------------------------------------------

#[derive(Debug, Clone, Copy, PartialEq, Eq, Structural)]
pub enum Severity {
    Error,
    Warning,
    Info,
    Hint,
}

/// The word a severity is written as.
pub open spec fn severity_word(s: Severity) -> Seq<char> {
    match s {
        Severity::Error => seq!['e', 'r', 'r', 'o', 'r'],
        Severity::Warning => seq!['w', 'a', 'r', 'n', 'i', 'n', 'g'],
        Severity::Info => seq!['i', 'n', 'f', 'o'],
        Severity::Hint => seq!['h', 'i', 'n', 't'],
    }
}

impl Severity {
    /// The word this severity is written as ("error", "warning", …).
    pub fn label(&self) -> (r: String)
        ensures
            r@ == severity_word(*self),
    {
        let w: &[char] = match self {
            Severity::Error => &['e', 'r', 'r', 'o', 'r'],
            Severity::Warning => &['w', 'a', 'r', 'n', 'i', 'n', 'g'],
            Severity::Info => &['i', 'n', 'f', 'o'],
            Severity::Hint => &['h', 'i', 'n', 't'],
        };
        crate::text::string_of_all(w)
    }
}

#[derive(Debug, Clone)]
pub struct Diagnostic {
    /// Stable code for suppression rules (e.g. "D001").
    pub code: String,
    pub message: String,
    pub loc: SourceLocation,
    pub severity: Severity,
}

/// How a diagnostic is written: `severity [code] file:line:col: message`.
pub open spec fn diagnostic_text(d: Diagnostic) -> Seq<char> {
    severity_word(d.severity) + " ["@ + d.code@ + "] "@ + location_text(d.loc) + ": "@ + d.message@
}

impl Diagnostic {
    /// `severity [code] file:line:col: message`.
    pub fn to_string(&self) -> (r: String)
        ensures
            r@ == diagnostic_text(*self),
    {
        let mut s = self.severity.label();
        crate::text::push_str(&mut s, " [");
        crate::text::push_str(&mut s, self.code.as_str());
        crate::text::push_str(&mut s, "] ");
        let l = self.loc.to_string();
        crate::text::push_str(&mut s, l.as_str());
        crate::text::push_str(&mut s, ": ");
        crate::text::push_str(&mut s, self.message.as_str());
        s
    }

    pub fn new(code: &str, message: &str, loc: SourceLocation, severity: Severity) -> (r: Self)
        ensures
            r.code@ == code@,
            r.message@ == message@,
            r.loc == loc,
            r.severity == severity,
    {
        Self { code: code.to_owned(), message: message.to_owned(), loc, severity }
    }
}

} // verus!
