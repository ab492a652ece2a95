use gams_lsp::document::SourceMap;
use gams_lsp::features::{
    collect_diagnostics, dollar_var_completion_items, find_references_in_tree, identifier_at_path,
    lsp_to_body_point, body_point_to_lsp, node_range, symbol_completion_items, symbol_range,
    LspPosition, ReferenceKind,
};
use gams_lsp::includes::IncludeWalk;
use gams_lsp::symbols::SymbolKind;
use gams_lsp::syntax::{collect_symbols, SyntaxNode, TextPoint};
use gams_lsp::tokenize_str;
use gams_lsp::types::{Diagnostic, Severity, SourceLocation};
use std::path::PathBuf;

fn pt(row: usize, column: usize) -> TextPoint {
    TextPoint { row, column }
}

/// A node spanning `text` at `row`, starting at column `col` and byte `byte`.
fn node(kind: &str, text: &str, row: usize, col: usize, byte: usize, children: Vec<SyntaxNode>) -> SyntaxNode {
    SyntaxNode {
        kind: kind.to_string(),
        field: None,
        start: pt(row, col),
        end: pt(row, col + text.len()),
        start_byte: byte,
        end_byte: byte + text.len(),
        text: Some(text.to_string()),
        is_error: false,
        is_missing: false,
        children,
    }
}

fn leaf(kind: &str, text: &str, row: usize, col: usize, byte: usize) -> SyntaxNode {
    node(kind, text, row, col, byte, vec![])
}

fn with_field(mut n: SyntaxNode, field: &str) -> SyntaxNode {
    n.field = Some(field.to_string());
    n
}

fn map(lines: Vec<u32>) -> SourceMap {
    SourceMap { body_line_to_orig: lines, orig_file: PathBuf::from("test.gms") }
}

/// `Sets i 'regions' / 1*3 /, j / a /;` on body row 0.
fn set_tree() -> SyntaxNode {
    let text = "Sets i 'regions' / 1*3 /, j / a /;";
    let entry_i = node(
        "set_entry",
        "i 'regions' / 1*3 /",
        0,
        5,
        5,
        vec![leaf("identifier", "i", 0, 5, 5), leaf("string", "'regions'", 0, 7, 7)],
    );
    let entry_j = node("set_entry", "j / a /", 0, 26, 26, vec![leaf("identifier", "j", 0, 26, 26)]);
    let decl = node(
        "set_declaration",
        text,
        0,
        0,
        0,
        vec![leaf("Sets", "Sets", 0, 0, 0), entry_i, leaf(",", ",", 0, 24, 24), entry_j],
    );
    node("source_file", text, 0, 0, 0, vec![decl])
}

#[test]
fn collect_sets_with_description_and_location() {
    let sm = map(vec![3]);
    let toks = tokenize_str(PathBuf::from("test.gms"), "").unwrap();
    let table = collect_symbols(&set_tree(), &sm, &toks);
    assert_eq!(table.symbols.len(), 2);
    let i = table.get("I").expect("i");
    assert_eq!(i.kind, SymbolKind::SetDecl);
    assert_eq!(i.description.as_deref(), Some("regions"));
    assert_eq!(i.loc.line, 3);
    assert_eq!(i.loc.col, 6);
    assert_eq!(i.loc.file, PathBuf::from("test.gms"));
    let j = table.get("j").expect("j");
    assert_eq!(j.description, None);
    assert_eq!(j.domain, None);
}

#[test]
fn collect_uses_identifier_inside_domain_and_lowercases() {
    // Parameter Cost(i,j) "cost matrix";
    let idwd = node(
        "identifier_with_domain",
        "Cost(i,j)",
        0,
        10,
        10,
        vec![leaf("identifier", "Cost", 0, 10, 10), leaf("identifier", "i", 0, 15, 15)],
    );
    let entry = node(
        "parameter_entry",
        "Cost(i,j) \"cost matrix\"",
        0,
        10,
        10,
        vec![idwd, leaf("string", "\"cost matrix\"", 0, 20, 20)],
    );
    let decl = node("parameter_declaration", "", 0, 0, 0, vec![leaf("Parameter", "Parameter", 0, 0, 0), entry]);
    let root = node("source_file", "", 0, 0, 0, vec![decl]);
    let table = collect_symbols(&root, &map(vec![1]), &[]);
    assert_eq!(table.symbols.len(), 1);
    let s = &table.symbols[0];
    assert_eq!(s.name, "cost");
    assert_eq!(s.display_name, "Cost");
    assert_eq!(s.kind, SymbolKind::Parameter);
    assert_eq!(s.description.as_deref(), Some("cost matrix"));
    assert_eq!(s.loc.col, 11);
}

#[test]
fn collect_alias_equation_definition_and_table() {
    // row 0: Alias(i, j, k);   row 1: obj(i).. z =e= 1;   row 2: Table t(i,j) 'data'
    let alias = node(
        "alias_declaration",
        "Alias(i, j, k);",
        0,
        0,
        0,
        vec![
            leaf("Alias", "Alias", 0, 0, 0),
            leaf("identifier", "i", 0, 6, 6),
            leaf("identifier", "j", 0, 9, 9),
            leaf("identifier", "k", 0, 12, 12),
        ],
    );
    let name = with_field(
        node("identifier_with_domain", "obj(i)", 1, 0, 16, vec![leaf("identifier", "obj", 1, 0, 16), leaf("identifier", "i", 1, 4, 20)]),
        "name",
    );
    let eqdef = node("equation_definition", "obj(i).. z =e= 1;", 1, 0, 16, vec![name, leaf("identifier", "z", 1, 9, 25)]);
    let table_decl = node(
        "table_declaration",
        "Table t(i,j) 'data'",
        2,
        0,
        34,
        vec![leaf("Table", "Table", 2, 0, 34), leaf("identifier", "T", 2, 6, 40), leaf("string", "'data'", 2, 13, 47)],
    );
    let root = node("source_file", "", 0, 0, 0, vec![alias, eqdef, table_decl]);
    let table = collect_symbols(&root, &map(vec![1, 5, 9]), &[]);
    let kinds: Vec<SymbolKind> = table.symbols.iter().map(|s| s.kind).collect();
    assert_eq!(kinds, vec![SymbolKind::Alias, SymbolKind::Alias, SymbolKind::Equation, SymbolKind::Parameter]);
    assert_eq!(table.symbols[0].name, "j");
    assert_eq!(table.symbols[0].description.as_deref(), Some("alias of i"));
    assert_eq!(table.symbols[1].name, "k");
    assert_eq!(table.symbols[2].name, "obj");
    assert_eq!(table.symbols[2].loc.line, 5);
    assert_eq!(table.symbols[2].description, None);
    assert_eq!(table.symbols[3].name, "t");
    assert_eq!(table.symbols[3].display_name, "T");
    assert_eq!(table.symbols[3].loc.line, 9);
    assert_eq!(table.symbols[3].description.as_deref(), Some("data"));
}

#[test]
fn alias_with_one_identifier_declares_nothing() {
    let alias = node("alias_declaration", "Alias(i);", 0, 0, 0, vec![leaf("identifier", "i", 0, 6, 6)]);
    let root = node("source_file", "", 0, 0, 0, vec![alias]);
    assert!(collect_symbols(&root, &map(vec![1]), &[]).symbols.is_empty());
}

#[test]
fn collect_symbols_takes_dollar_vars_from_tokens() {
    let toks = tokenize_str(PathBuf::from("test.gms"), "$set scenario base\n").unwrap();
    let root = node("source_file", "", 0, 0, 0, vec![]);
    let table = collect_symbols(&root, &map(vec![]), &toks);
    assert_eq!(table.dollar_var("scenario").unwrap().current_value(), Some("base"));
}

#[test]
fn location_falls_back_to_row_without_map_entry() {
    let table = collect_symbols(&set_tree(), &map(vec![]), &[]);
    assert_eq!(table.symbols[0].loc.line, 1);
}

#[test]
fn references_are_classified() {
    // Sets i ..., j ...; then Alias(i, j2); then obj.. x(i) =e= 1
    let root = node(
        "source_file",
        "",
        0,
        0,
        0,
        vec![
            set_tree(),
            node(
                "alias_declaration",
                "Alias(I, k);",
                1,
                0,
                40,
                vec![leaf("identifier", "I", 1, 6, 46), leaf("identifier", "k", 1, 9, 49)],
            ),
            node(
                "equation_definition",
                "obj.. x(i) =e= 1;",
                2,
                0,
                60,
                vec![with_field(leaf("identifier", "obj", 2, 0, 60), "name"), leaf("identifier", "i", 2, 8, 68)],
            ),
        ],
    );
    let refs = find_references_in_tree(&root, "I");
    let kinds: Vec<ReferenceKind> = refs.iter().map(|r| r.kind).collect();
    assert_eq!(kinds, vec![ReferenceKind::Write, ReferenceKind::Read, ReferenceKind::Read]);
    assert_eq!(refs[0].path, vec![0, 0, 1, 0]);
    assert_eq!(refs[1].path, vec![1, 0]);
    assert_eq!(refs[2].path, vec![2, 1]);
    let k = find_references_in_tree(&root, "k");
    assert_eq!(k.len(), 1);
    assert_eq!(k[0].kind, ReferenceKind::Write);
    let obj = find_references_in_tree(&root, "OBJ");
    assert_eq!(obj.len(), 1);
    assert_eq!(obj[0].kind, ReferenceKind::Write);
    assert!(find_references_in_tree(&root, "none").is_empty());
}

#[test]
fn identifier_at_path_walks_up_to_an_identifier() {
    let tree = set_tree();
    assert_eq!(identifier_at_path(&tree, &[0, 1, 0]), Some("i".to_string()));
    // the string inside the entry is no identifier, nor is anything above it
    assert_eq!(identifier_at_path(&tree, &[0, 1, 1]), None);
    assert_eq!(identifier_at_path(&tree, &[0, 9]), None);
    assert_eq!(identifier_at_path(&tree, &[0, 3, 0]), Some("j".to_string()));
}

#[test]
fn coordinates_map_through_the_source_map() {
    let sm = map(vec![2, 4]);
    assert_eq!(lsp_to_body_point(&sm, LspPosition { line: 3, character: 7 }), Some(pt(1, 7)));
    assert_eq!(lsp_to_body_point(&sm, LspPosition { line: 0, character: 7 }), None);
    assert_eq!(body_point_to_lsp(&sm, pt(0, 5)), LspPosition { line: 1, character: 5 });
    assert_eq!(body_point_to_lsp(&sm, pt(6, 0)), LspPosition { line: 6, character: 0 });
    let n = leaf("identifier", "x", 1, 7, 20);
    let r = node_range(&sm, &n);
    assert_eq!(r.start, LspPosition { line: 3, character: 7 });
    assert_eq!(r.end, LspPosition { line: 3, character: 8 });
}

#[test]
fn diagnostics_from_both_layers() {
    let sm = map(vec![1, 2]);
    let mut err = leaf("ERROR", "???", 0, 0, 0);
    err.is_error = true;
    err.children = vec![{
        let mut m = leaf("identifier", "", 0, 1, 1);
        m.is_missing = true;
        m
    }];
    let mut missing = leaf(";", "", 1, 4, 10);
    missing.is_missing = true;
    let root = node("source_file", "", 0, 0, 0, vec![err, missing]);
    let mut loc = SourceLocation::new(PathBuf::from("test.gms"), 3, 2);
    loc.length = 4;
    let d = Diagnostic::new("L000", "bad", loc, Severity::Warning);
    let diags = collect_diagnostics(&[d], Some(&root), &sm);
    assert_eq!(diags.len(), 3);
    assert_eq!(diags[0].message, "bad");
    assert_eq!(diags[0].source, "gams-lsp (dollar)");
    assert_eq!(diags[0].severity, Severity::Warning);
    assert_eq!(diags[0].range.start, LspPosition { line: 2, character: 1 });
    assert_eq!(diags[0].range.end, LspPosition { line: 2, character: 5 });
    assert_eq!(diags[1].message, "syntax error");
    assert_eq!(diags[1].source, "gams-lsp (tree-sitter)");
    assert_eq!(diags[2].message, "missing `;`");
    assert_eq!(diags[2].range.start, LspPosition { line: 1, character: 4 });
    let clean = node("source_file", "", 0, 0, 0, vec![]);
    assert!(collect_diagnostics(&[], Some(&clean), &sm).is_empty());
}

#[test]
fn point_diagnostic_spans_one_character() {
    let d = Diagnostic::new("D1", "m", SourceLocation::new(PathBuf::from("t.gms"), 1, 1), Severity::Error);
    let diags = collect_diagnostics(&[d], None, &map(vec![]));
    assert_eq!(diags[0].range.start, LspPosition { line: 0, character: 0 });
    assert_eq!(diags[0].range.end, LspPosition { line: 0, character: 1 });
}

#[test]
fn completion_and_symbol_range() {
    let sm = map(vec![3]);
    let toks = tokenize_str(PathBuf::from("test.gms"), "$set x 1\n$set y 2\n$set x 3\n").unwrap();
    let mut table = collect_symbols(&set_tree(), &sm, &toks);
    table.symbols[1].domain = Some("(i)".to_string());
    let items = symbol_completion_items(&table);
    assert_eq!(items.len(), 2);
    assert_eq!(items[0].label, "i");
    assert_eq!(items[0].detail, None);
    assert_eq!(items[0].documentation.as_deref(), Some("regions"));
    assert_eq!(items[1].detail.as_deref(), Some("j(i)"));
    let vars = dollar_var_completion_items(&table);
    assert_eq!(vars.len(), 2);
    assert_eq!(vars[0].label, "x");
    assert_eq!(vars[0].detail.as_deref(), Some("= 3"));
    assert_eq!(vars[0].kind, SymbolKind::DollarVar);
    let r = symbol_range(&table.symbols[0]);
    assert_eq!(r.start, LspPosition { line: 2, character: 5 });
    assert_eq!(r.end, LspPosition { line: 2, character: 6 });
}

#[test]
fn include_walk_enters_each_document_once() {
    let k = |s: &str| s.as_bytes().to_vec();
    // a includes b and c; b includes a (a cycle) and c; c includes nothing
    let mut walk = IncludeWalk::new(k("a"));
    let mut order = Vec::new();
    while let Some(key) = walk.next() {
        let name = String::from_utf8(key).unwrap();
        let kids: Vec<Vec<u8>> = match name.as_str() {
            "a" => vec![k("b"), k("c")],
            "b" => vec![k("a"), k("c")],
            _ => vec![],
        };
        order.push(name);
        walk.expand(kids);
    }
    assert_eq!(order, vec!["a", "b", "c"]);
    assert!(walk.entered(&k("c")));
    assert!(!walk.entered(&k("d")));
}
