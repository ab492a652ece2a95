use std::path::PathBuf;

use gams_lsp::document::{build_body, run_lexer, SourceMap};
use gams_lsp::features::collect_diagnostics;
use gams_lsp::symbols::SymbolTable;
use gams_lsp::syntax::{collect_symbols, SyntaxNode, TextPoint};
use gams_lsp::types::Scope;
use gams_lsp::Diagnostic;

/// What the server keeps of a document, short of its parse tree.
struct Doc {
    body_text: String,
    source_map: SourceMap,
    dollar_diagnostics: Vec<Diagnostic>,
    symbol_table: SymbolTable,
}

/// The tree of an empty body: a source file with nothing in it.
fn empty_tree() -> SyntaxNode {
    SyntaxNode {
        kind: "source_file".to_string(),
        field: None,
        start: TextPoint { row: 0, column: 0 },
        end: TextPoint { row: 0, column: 0 },
        start_byte: 0,
        end_byte: 0,
        text: Some(String::new()),
        is_error: false,
        is_missing: false,
        children: vec![],
    }
}

fn doc(gams: &str) -> Doc {
    let file = PathBuf::from("test.gms");
    let (tokens, dollar_diagnostics) = run_lexer(file.clone(), gams);
    let (body_text, source_map) = build_body(&tokens, &file);
    let symbol_table = if body_text.is_empty() {
        collect_symbols(&empty_tree(), &source_map, &tokens)
    } else {
        let mut t = SymbolTable::new();
        t.dollar_vars = gams_lsp::symbols::collect_dollar_vars(&tokens);
        t
    };
    Doc { body_text, source_map, dollar_diagnostics, symbol_table }
}

/// The symbol table of a text made of dollar directives only (its body is
/// empty, so its tree declares nothing).
fn parse_and_collect(gams: &str) -> SymbolTable {
    let d = doc(gams);
    assert!(d.body_text.is_empty());
    d.symbol_table
}

#[test]
fn parse_strips_directives_from_body() {
    let text = "$set scenario base\nSets i / 1*3 /;\n";
    let d = doc(text);
    assert_eq!(d.body_text, "Sets i / 1*3 /;\n");
    assert!(!d.body_text.contains("$set"));
}

#[test]
fn parse_strips_star_comments() {
    let text = "* this is a comment\nScalar x / 1 /;\n";
    let d = doc(text);
    assert!(!d.body_text.contains("* this is a comment"));
    assert!(d.body_text.contains("Scalar x"));
}

#[test]
fn parse_unclosed_ontext_produces_diagnostic() {
    let text = "$ontext\nno matching offtext\n";
    let d = doc(text);
    assert!(!d.dollar_diagnostics.is_empty());
}

#[test]
fn collect_diagnostics_from_dollar_layer() {
    // Unclosed $ontext → precompiler error
    let d = doc("$ontext\nno offtext\n");
    let tree = empty_tree();
    let diags = collect_diagnostics(&d.dollar_diagnostics, Some(&tree), &d.source_map);
    assert!(!diags.is_empty(), "should have at least one dollar-layer diagnostic");
}

#[test]
fn dollar_vars_collected_from_set() {
    let table = parse_and_collect("$set scenario base\n");
    let dv = table.dollar_var("scenario").expect("dollar var not found");
    assert_eq!(dv.current_value(), Some("base"));
}

#[test]
fn dollar_vars_multiple_assignments() {
    let table = parse_and_collect("$set x 1\n$set x 2\n");
    let dv = table.dollar_var("x").unwrap();
    assert_eq!(dv.definitions.len(), 2);
    assert_eq!(dv.current_value(), Some("2"));
}

#[test]
fn dollar_vars_setglobal_scope() {
    let table = parse_and_collect("$setglobal gvar hello\n");
    let dv = table.dollar_var("gvar").unwrap();
    assert_eq!(dv.scope, Scope::Global);
}

#[test]
fn merge_combines_dollar_vars() {
    let mut a = parse_and_collect("$set foo bar\n");
    let b = parse_and_collect("$set baz qux\n");
    a.merge(b);
    assert!(a.dollar_var("foo").is_some());
    assert!(a.dollar_var("baz").is_some());
}
