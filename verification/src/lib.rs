//! Dollar-layer lexer, condition evaluator and editor helpers for GAMS
//! source files.
//!
//! - [`lexer`] (with [`directive`]) splits a file into dollar-layer tokens,
//!   one per line; [`document`] keeps the plain GAMS lines as the body text
//!   for the parser, with a map back to their source lines.
//! - [`evaluator`] (with [`expr`] and [`number`]) interpolates `%var%`
//!   references and evaluates `$if`/`$ifthen` conditions in three-valued
//!   logic.
//! - [`syntax`] models the parser's tree and collects the declared symbols
//!   into a [`symbols::SymbolTable`]; [`features`] answers editor requests
//!   from it (references, hover, completion, diagnostics, positions).
//! - [`rope`] keeps an open document's text in step with its edits, and
//!   [`includes`] walks the `$include` graph.
//! - [`laws`] states and proves properties that span these functions, and
//!   [`guarantees`] what the main operations give for every input.

pub mod directive;
pub mod document;
pub mod evaluator;
pub mod expr;
pub mod features;
pub mod guarantees;
pub mod includes;
pub mod laws;
pub mod lexer;
pub mod number;
pub mod rope;
pub mod symbols;
pub mod syntax;
pub mod text;
pub mod types;

pub use evaluator::{evaluate_condition, interpolate, parse_condition_prefix};
pub use lexer::{tokenize_str, LexerError};
pub use types::{
    BodySegment, ConditionKind, ConditionNode, Diagnostic, DirectiveNode, DollarVariable,
    IfThenBlock, IncludeNode, MacroDefNode, Scope, SetNode, Severity, SourceLocation, Token,
    TokenKind,
};
