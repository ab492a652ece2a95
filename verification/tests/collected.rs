//! Symbol collection, references, hover and diagnostics on documents whose
//! syntax trees are written out by hand, in the shape the GAMS grammar
//! gives them: a declaration holds its keyword and one `*_entry` per name;
//! an entry holds the name (an `identifier`, or an `identifier_with_domain`
//! that opens with one) and its description (a `string`).

use gams_lsp::document::{build_body, run_lexer, SourceMap};
use gams_lsp::features::{
    collect_diagnostics, find_references_in_tree, format_hover_symbol, identifier_at_path,
    lsp_to_body_point, node_range, LspPosition, ReferenceKind,
};
use gams_lsp::symbols::{SymbolKind, SymbolTable};
use gams_lsp::syntax::{collect_symbols, SyntaxNode, TextPoint};
use gams_lsp::types::Diagnostic;
use std::path::PathBuf;

/// The body text a tree is built over.
struct Body {
    text: String,
    starts: Vec<usize>,
}

impl Body {
    fn new(text: &str) -> Body {
        let mut starts = vec![0];
        for (i, c) in text.char_indices() {
            if c == '\n' {
                starts.push(i + 1);
            }
        }
        Body { text: text.to_string(), starts }
    }

    fn line(&self, row: usize) -> &str {
        let a = self.starts[row];
        let b = self.text[a..].find('\n').map(|e| a + e).unwrap_or(self.text.len());
        &self.text[a..b]
    }

    /// A leaf of `kind` over the first `needle` on `row` at or after `col`.
    fn leaf(&self, kind: &str, row: usize, needle: &str, col: usize) -> SyntaxNode {
        let c = col + self.line(row)[col..].find(needle).expect("text not in the body");
        let byte = self.starts[row] + c;
        SyntaxNode {
            kind: kind.to_string(),
            field: None,
            start: TextPoint { row, column: c },
            end: TextPoint { row, column: c + needle.len() },
            start_byte: byte,
            end_byte: byte + needle.len(),
            text: Some(needle.to_string()),
            is_error: false,
            is_missing: false,
            children: vec![],
        }
    }

    /// A node of `kind` over its children, from the first to the last.
    fn span(&self, kind: &str, children: Vec<SyntaxNode>) -> SyntaxNode {
        let first = children.first().expect("a span needs children");
        let last = children.last().unwrap();
        let (start, start_byte, end, end_byte) = (first.start, first.start_byte, last.end, last.end_byte);
        SyntaxNode {
            kind: kind.to_string(),
            field: None,
            start,
            end,
            start_byte,
            end_byte,
            text: Some(self.text[start_byte..end_byte].to_string()),
            is_error: false,
            is_missing: false,
            children,
        }
    }

    /// The root over `decls`.
    fn root(&self, decls: Vec<SyntaxNode>) -> SyntaxNode {
        let last_row = self.starts.len() - 1;
        SyntaxNode {
            kind: "source_file".to_string(),
            field: None,
            start: TextPoint { row: 0, column: 0 },
            end: TextPoint { row: last_row, column: 0 },
            start_byte: 0,
            end_byte: self.text.len(),
            text: Some(self.text.clone()),
            is_error: false,
            is_missing: false,
            children: decls,
        }
    }

    /// A declaration: `keyword` on `row`, then one entry per
    /// `(row, name, domain, description)`, each searched for after the
    /// one before it.
    fn decl(
        &self,
        kind: &str,
        entry_kind: &str,
        row: usize,
        keyword: &str,
        entries: &[(usize, &str, Option<&str>, Option<&str>)],
    ) -> SyntaxNode {
        let kw = self.leaf(keyword, row, keyword, 0);
        let (mut r, mut c) = (row, kw.end.column);
        let mut children = vec![kw];
        for &(er, name, domain, desc) in entries {
            if er != r {
                r = er;
                c = 0;
            }
            let id = self.leaf("identifier", r, name, c);
            c = id.end.column;
            let mut parts = Vec::new();
            if let Some(d) = domain {
                let mut inner = vec![id];
                let open = self.leaf("(", r, d, c);
                let mut k = c + 1;
                for part in d.trim_start_matches('(').trim_end_matches(')').split(',') {
                    let p = self.leaf("identifier", r, part.trim(), k);
                    k = p.end.column;
                    inner.push(p);
                }
                let close = self.leaf(")", r, ")", k);
                c = open.end.column;
                inner.push(close);
                parts.push(self.span("identifier_with_domain", inner));
            } else {
                parts.push(id);
            }
            if let Some(s) = desc {
                let d = self.leaf("string", r, s, c);
                c = d.end.column;
                parts.push(d);
            }
            children.push(self.span(entry_kind, parts));
        }
        self.span(kind, children)
    }

    /// `Alias(a, b, …);` on `row`.
    fn alias(&self, row: usize, names: &[&str]) -> SyntaxNode {
        let kw = self.leaf("Alias", row, "Alias", 0);
        let mut c = kw.end.column;
        let mut children = vec![kw];
        for n in names {
            let id = self.leaf("identifier", row, n, c);
            c = id.end.column;
            children.push(id);
        }
        self.span("alias_declaration", children)
    }

    /// An equation definition on `row`: its name (the `name` field) and
    /// the identifiers of its body, in order.
    fn eq_def(&self, row: usize, name: &str, body: &[&str]) -> SyntaxNode {
        let mut n = self.leaf("identifier", row, name, 0);
        n.field = Some("name".to_string());
        let mut c = n.end.column;
        let mut children = vec![n];
        for b in body {
            let id = self.leaf("identifier", row, b, c);
            c = id.end.column;
            children.push(id);
        }
        self.span("equation_definition", children)
    }
}

/// A document as the server holds it: the dollar layer run over `text`,
/// the body and its source map, the syntax tree `tree` builds over the
/// body, and the symbols collected from both.
struct Doc {
    dollar: Vec<Diagnostic>,
    sm: SourceMap,
    tree: SyntaxNode,
    table: SymbolTable,
}

fn doc(text: &str, tree: impl Fn(&Body) -> Vec<SyntaxNode>) -> Doc {
    let file = PathBuf::from("test.gms");
    let (tokens, dollar) = run_lexer(file.clone(), text);
    let (body, sm) = build_body(&tokens, &file);
    let b = Body::new(&body);
    let root = b.root(tree(&b));
    let table = collect_symbols(&root, &sm, &tokens);
    Doc { dollar, sm, tree: root, table }
}

fn parse_and_collect(text: &str, tree: impl Fn(&Body) -> Vec<SyntaxNode>) -> SymbolTable {
    doc(text, tree).table
}

/// The child indices down to the smallest node holding `p`.
fn path_at(root: &SyntaxNode, p: TextPoint) -> Vec<usize> {
    let within = |n: &SyntaxNode| {
        (n.start.row, n.start.column) <= (p.row, p.column) && (p.row, p.column) < (n.end.row, n.end.column)
    };
    let mut path = Vec::new();
    let mut cur = root;
    'down: loop {
        for (i, c) in cur.children.iter().enumerate() {
            if within(c) {
                path.push(i);
                cur = c;
                continue 'down;
            }
        }
        return path;
    }
}

fn node_at<'a>(root: &'a SyntaxNode, path: &[usize]) -> &'a SyntaxNode {
    path.iter().fold(root, |n, &i| &n.children[i])
}

fn identifier_at_position(d: &Doc, pos: LspPosition) -> Option<String> {
    let p = lsp_to_body_point(&d.sm, pos)?;
    identifier_at_path(&d.tree, &path_at(&d.tree, p))
}

fn scalar_x(b: &Body) -> Vec<SyntaxNode> {
    vec![b.decl("scalar_declaration", "scalar_entry", 0, "Scalar", &[(0, "x", None, None)])]
}

// ---------------------------------------------------------------------------
// Set declarations
// ---------------------------------------------------------------------------

#[test]
fn collect_set_single() {
    let table = parse_and_collect("Sets i / 1*3 /;\n", |b| {
        vec![b.decl("set_declaration", "set_entry", 0, "Sets", &[(0, "i", None, None)])]
    });
    let sym = table.get("i").expect("symbol 'i' not found");
    assert_eq!(sym.kind, SymbolKind::SetDecl);
    assert_eq!(sym.display_name, "i");
}

#[test]
fn collect_set_multiple_entries() {
    let table = parse_and_collect("Sets i / 1*3 /, j / a b c /;\n", |b| {
        vec![b.decl("set_declaration", "set_entry", 0, "Sets", &[(0, "i", None, None), (0, "j", None, None)])]
    });
    assert!(table.get("i").is_some());
    assert!(table.get("j").is_some());
}

#[test]
fn collect_set_with_description() {
    let table = parse_and_collect("Sets i 'regions' / 1*3 /;\n", |b| {
        vec![b.decl("set_declaration", "set_entry", 0, "Sets", &[(0, "i", None, Some("'regions'"))])]
    });
    let sym = table.get("i").unwrap();
    assert_eq!(sym.description.as_deref(), Some("regions"));
}

#[test]
fn collect_set_lookup_case_insensitive() {
    let table = parse_and_collect("Sets MySet / a b /;\n", |b| {
        vec![b.decl("set_declaration", "set_entry", 0, "Sets", &[(0, "MySet", None, None)])]
    });
    assert!(table.get("myset").is_some());
    assert!(table.get("MYSET").is_some());
    assert_eq!(table.get("myset").unwrap().display_name, "MySet");
}

#[test]
fn collect_set_with_domain() {
    // set_entry with identifier_with_domain: the name is the bare identifier
    let table = parse_and_collect("Sets ij(i,j) 'cross product' / *a *b /;\n", |b| {
        vec![b.decl(
            "set_declaration",
            "set_entry",
            0,
            "Sets",
            &[(0, "ij", Some("(i,j)"), Some("'cross product'"))],
        )]
    });
    let sym = table.get("ij").expect("symbol 'ij' not found");
    assert_eq!(sym.kind, SymbolKind::SetDecl);
}

#[test]
fn collect_set_without_body() {
    // Set declared with a description but no element enumeration
    let table = parse_and_collect("Set i 'items';\n", |b| {
        vec![b.decl("set_declaration", "set_entry", 0, "Set", &[(0, "i", None, Some("'items'"))])]
    });
    let sym = table.get("i").expect("'i' not found");
    assert_eq!(sym.kind, SymbolKind::SetDecl);
    assert_eq!(sym.description.as_deref(), Some("items"));
}

#[test]
fn collect_set_multidimensional() {
    // Multi-dimensional set with description, domain declared inline
    let gams = "Sets nurse, shift, day;\nSet s(nurse,shift,day) 'shift assignment';\n";
    let table = parse_and_collect(gams, |b| {
        vec![
            b.decl(
                "set_declaration",
                "set_entry",
                0,
                "Sets",
                &[(0, "nurse", None, None), (0, "shift", None, None), (0, "day", None, None)],
            ),
            b.decl(
                "set_declaration",
                "set_entry",
                1,
                "Set",
                &[(1, "s", Some("(nurse,shift,day)"), Some("'shift assignment'"))],
            ),
        ]
    });
    let sym = table.get("s").expect("'s' not found");
    assert_eq!(sym.kind, SymbolKind::SetDecl);
    assert_eq!(sym.description.as_deref(), Some("shift assignment"));
}

// ---------------------------------------------------------------------------
// Scalars, parameters, variables, equations, models
// ---------------------------------------------------------------------------

#[test]
fn collect_scalar() {
    let table = parse_and_collect("Scalar x 'x value' / 1 /;\n", |b| {
        vec![b.decl("scalar_declaration", "scalar_entry", 0, "Scalar", &[(0, "x", None, Some("'x value'"))])]
    });
    let sym = table.get("x").expect("'x' not found");
    assert_eq!(sym.kind, SymbolKind::Scalar);
    assert_eq!(sym.description.as_deref(), Some("x value"));
}

#[test]
fn collect_scalar_multiple() {
    let table = parse_and_collect("Scalars x / 1 /, y / 2 /, z / 3 /;\n", |b| {
        vec![b.decl(
            "scalar_declaration",
            "scalar_entry",
            0,
            "Scalars",
            &[(0, "x", None, None), (0, "y", None, None), (0, "z", None, None)],
        )]
    });
    for name in ["x", "y", "z"] {
        assert!(table.get(name).is_some(), "missing scalar '{name}'");
    }
}

#[test]
fn collect_scalars_brick_design() {
    // Three scalars with descriptions and initial values
    let gams = "Scalars\n    L 'min length' / 0.5 /\n    W 'min width'  / 0.5 /\n    H 'min height' / 0.5 /;\n";
    let table = parse_and_collect(gams, |b| {
        vec![b.decl(
            "scalar_declaration",
            "scalar_entry",
            0,
            "Scalars",
            &[
                (1, "L", None, Some("'min length'")),
                (2, "W", None, Some("'min width'")),
                (3, "H", None, Some("'min height'")),
            ],
        )]
    });
    for (name, desc) in [("L", "min length"), ("W", "min width"), ("H", "min height")] {
        let sym = table.get(name).unwrap_or_else(|| panic!("scalar '{name}' not found"));
        assert_eq!(sym.kind, SymbolKind::Scalar);
        assert_eq!(sym.description.as_deref(), Some(desc));
    }
}

#[test]
fn collect_parameter() {
    let table = parse_and_collect("Parameter a(i) 'costs' / 1 2 /;\n", |b| {
        vec![b.decl("parameter_declaration", "parameter_entry", 0, "Parameter", &[(0, "a", Some("(i)"), Some("'costs'"))])]
    });
    let sym = table.get("a").expect("'a' not found");
    assert_eq!(sym.kind, SymbolKind::Parameter);
    assert_eq!(sym.description.as_deref(), Some("costs"));
}

#[test]
fn collect_parameters_multiple_with_domain() {
    // Two parameters in one declaration block, each indexed over (i)
    let gams = "Parameters\n    p(i) 'profits'\n    w(i) 'weights';\n";
    let table = parse_and_collect(gams, |b| {
        vec![b.decl(
            "parameter_declaration",
            "parameter_entry",
            0,
            "Parameters",
            &[(1, "p", Some("(i)"), Some("'profits'")), (2, "w", Some("(i)"), Some("'weights'"))],
        )]
    });
    let p = table.get("p").expect("'p' not found");
    assert_eq!(p.kind, SymbolKind::Parameter);
    assert_eq!(p.description.as_deref(), Some("profits"));
    let w = table.get("w").expect("'w' not found");
    assert_eq!(w.description.as_deref(), Some("weights"));
}

#[test]
fn collect_variable() {
    let table = parse_and_collect("Positive Variable x(i) 'production';\n", |b| {
        vec![b.decl(
            "variable_declaration",
            "variable_entry",
            0,
            "Positive Variable",
            &[(0, "x", Some("(i)"), Some("'production'"))],
        )]
    });
    let sym = table.get("x").expect("'x' not found");
    assert_eq!(sym.kind, SymbolKind::Variable);
}

#[test]
fn collect_variable_no_domain() {
    let table = parse_and_collect("Variable obj 'total cost';\n", |b| {
        vec![b.decl("variable_declaration", "variable_entry", 0, "Variable", &[(0, "obj", None, Some("'total cost'"))])]
    });
    let sym = table.get("obj").expect("'obj' not found");
    assert_eq!(sym.kind, SymbolKind::Variable);
    assert_eq!(sym.description.as_deref(), Some("total cost"));
}

#[test]
fn collect_binary_variable() {
    let table = parse_and_collect("Binary Variable x 'item selected';\n", |b| {
        vec![b.decl(
            "variable_declaration",
            "variable_entry",
            0,
            "Binary Variable",
            &[(0, "x", None, Some("'item selected'"))],
        )]
    });
    let sym = table.get("x").expect("'x' not found");
    assert_eq!(sym.kind, SymbolKind::Variable);
}

#[test]
fn collect_free_variable() {
    let table = parse_and_collect("Free Variable z 'objective';\n", |b| {
        vec![b.decl("variable_declaration", "variable_entry", 0, "Free Variable", &[(0, "z", None, Some("'objective'"))])]
    });
    let sym = table.get("z").expect("'z' not found");
    assert_eq!(sym.kind, SymbolKind::Variable);
    assert_eq!(sym.description.as_deref(), Some("objective"));
}

#[test]
fn collect_variable_multidimensional() {
    // Variable indexed over four sets, mixed-case name
    let gams = "Variable nurseAssignments(nurse,shift,department,day) 'assign nurse to shift';\n";
    let table = parse_and_collect(gams, |b| {
        vec![b.decl(
            "variable_declaration",
            "variable_entry",
            0,
            "Variable",
            &[(0, "nurseAssignments", Some("(nurse,shift,department,day)"), Some("'assign nurse to shift'"))],
        )]
    });
    let sym = table.get("nurseAssignments").expect("'nurseAssignments' not found");
    assert_eq!(sym.kind, SymbolKind::Variable);
    assert_eq!(sym.display_name, "nurseAssignments");
    assert_eq!(sym.description.as_deref(), Some("assign nurse to shift"));
}

#[test]
fn collect_equation_declaration() {
    let table = parse_and_collect("Equation obj 'objective';\n", |b| {
        vec![b.decl("equation_declaration", "equation_entry", 0, "Equation", &[(0, "obj", None, Some("'objective'"))])]
    });
    let sym = table.get("obj").expect("'obj' not found");
    assert_eq!(sym.kind, SymbolKind::Equation);
    assert_eq!(sym.description.as_deref(), Some("objective"));
}

#[test]
fn collect_equation_definition() {
    let gams = "Equation obj;\nobj.. z =e= sum(i, c(i)*x(i));\n";
    let table = parse_and_collect(gams, |b| {
        vec![
            b.decl("equation_declaration", "equation_entry", 0, "Equation", &[(0, "obj", None, None)]),
            b.eq_def(1, "obj", &["z", "sum", "i", "c", "i", "x", "i"]),
        ]
    });
    let matches = table.lookup("obj");
    // Both declaration and definition should appear
    assert!(matches.len() >= 1, "no 'obj' symbols found");
    assert!(matches.iter().all(|s| s.kind == SymbolKind::Equation));
}

#[test]
fn collect_equations_multiple_with_description() {
    // Multiple equations in one Equations block, each with description
    let gams = "Equations\n    cap_restr 'capacity constraint'\n    utility   'objective value';\n";
    let table = parse_and_collect(gams, |b| {
        vec![b.decl(
            "equation_declaration",
            "equation_entry",
            0,
            "Equations",
            &[(1, "cap_restr", None, Some("'capacity constraint'")), (2, "utility", None, Some("'objective value'"))],
        )]
    });
    let cap = table.get("cap_restr").expect("'cap_restr' not found");
    assert_eq!(cap.kind, SymbolKind::Equation);
    assert_eq!(cap.description.as_deref(), Some("capacity constraint"));
    assert!(table.get("utility").is_some());
}

#[test]
fn collect_model() {
    let table = parse_and_collect("Model transport 'a transportation model' / all /;\n", |b| {
        vec![b.decl(
            "model_declaration",
            "model_entry",
            0,
            "Model",
            &[(0, "transport", None, Some("'a transportation model'"))],
        )]
    });
    let sym = table.get("transport").expect("'transport' not found");
    assert_eq!(sym.kind, SymbolKind::Model);
    assert_eq!(sym.description.as_deref(), Some("a transportation model"));
}

// ---------------------------------------------------------------------------
// Aliases
// ---------------------------------------------------------------------------

fn sets_i_alias(b: &Body, aliases: &[&str]) -> Vec<SyntaxNode> {
    vec![b.decl("set_declaration", "set_entry", 0, "Sets", &[(0, "i", None, None)]), b.alias(1, aliases)]
}

#[test]
fn collect_alias_simple() {
    let table = parse_and_collect("Sets i / 1*3 /;\nAlias(i, j);\n", |b| sets_i_alias(b, &["i", "j"]));
    let sym = table.get("j").expect("alias 'j' not found");
    assert_eq!(sym.kind, SymbolKind::Alias);
    assert!(sym.description.as_deref().unwrap_or("").contains('i'));
}

#[test]
fn collect_alias_multiple() {
    let table = parse_and_collect("Sets i / 1*3 /;\nAlias(i, j, k);\n", |b| sets_i_alias(b, &["i", "j", "k"]));
    assert!(table.get("j").is_some());
    assert!(table.get("k").is_some());
}

#[test]
fn collect_alias_nurse_scheduling() {
    // Two alias declarations from the nurse scheduling model
    let gams = "Sets nurse, day;\nAlias(nurse, n);\nAlias(day, d);\n";
    let table = parse_and_collect(gams, |b| {
        vec![
            b.decl("set_declaration", "set_entry", 0, "Sets", &[(0, "nurse", None, None), (0, "day", None, None)]),
            b.alias(1, &["nurse", "n"]),
            b.alias(2, &["day", "d"]),
        ]
    });
    let n = table.get("n").expect("alias 'n' not found");
    assert_eq!(n.kind, SymbolKind::Alias);
    assert!(n.description.as_deref().unwrap_or("").contains("nurse"));
    let d = table.get("d").expect("alias 'd' not found");
    assert_eq!(d.kind, SymbolKind::Alias);
    assert!(d.description.as_deref().unwrap_or("").contains("day"));
}

// ---------------------------------------------------------------------------
// Source map, merge, lines
// ---------------------------------------------------------------------------

#[test]
fn source_map_line_after_directive() {
    // Line 1: directive (stripped from body)
    // Line 2: declaration → original line 2
    let table = parse_and_collect("$set foo bar\nScalar x / 1 /;\n", scalar_x);
    let sym = table.get("x").expect("'x' not found");
    assert_eq!(sym.loc.line, 2, "should point to original line 2");
}

#[test]
fn source_map_line_after_comment() {
    // Line 1: * comment (stripped)
    // Line 2: declaration → original line 2
    let table = parse_and_collect("* comment\nScalar y / 2 /;\n", |b| {
        vec![b.decl("scalar_declaration", "scalar_entry", 0, "Scalar", &[(0, "y", None, None)])]
    });
    let sym = table.get("y").expect("'y' not found");
    assert_eq!(sym.loc.line, 2);
}

#[test]
fn merge_combines_symbols() {
    let mut a = parse_and_collect("Scalar x / 1 /;\n", scalar_x);
    let b = parse_and_collect("Scalar y / 2 /;\n", |b| {
        vec![b.decl("scalar_declaration", "scalar_entry", 0, "Scalar", &[(0, "y", None, None)])]
    });
    a.merge(b);
    assert!(a.get("x").is_some());
    assert!(a.get("y").is_some());
}

#[test]
fn at_line_finds_symbol_on_correct_line() {
    let gams = "Scalar x / 1 /;\nScalar y / 2 /;\n";
    let table = parse_and_collect(gams, |b| {
        vec![
            b.decl("scalar_declaration", "scalar_entry", 0, "Scalar", &[(0, "x", None, None)]),
            b.decl("scalar_declaration", "scalar_entry", 1, "Scalar", &[(1, "y", None, None)]),
        ]
    });
    let line1 = table.at_line(1);
    let line2 = table.at_line(2);
    assert!(line1.iter().any(|s| s.name == "x"));
    assert!(line2.iter().any(|s| s.name == "y"));
}

// ---------------------------------------------------------------------------
// Identifier under the cursor
// ---------------------------------------------------------------------------

#[test]
fn identifier_at_position_finds_name() {
    // "Scalar x / 1 /;\n" — 'x' is at col 7 on line 0
    let d = doc("Scalar x / 1 /;\n", scalar_x);
    let name = identifier_at_position(&d, LspPosition { line: 0, character: 7 });
    assert_eq!(name.as_deref(), Some("x"));
}

#[test]
fn identifier_at_position_returns_none_on_non_identifier() {
    // col 6 is the space between "Scalar" and "x"
    let d = doc("Scalar x / 1 /;\n", scalar_x);
    let name = identifier_at_position(&d, LspPosition { line: 0, character: 6 });
    // No identifier at that whitespace position
    assert!(name.is_none() || name.as_deref() != Some("x"));
}

#[test]
fn identifier_at_position_with_source_map_offset() {
    // Line 1 (0-based) is original line 2, body row 0 after the directive
    let d = doc("$set foo bar\nScalar x / 1 /;\n", scalar_x);
    let name = identifier_at_position(&d, LspPosition { line: 1, character: 7 });
    assert_eq!(name.as_deref(), Some("x"));
}

// ---------------------------------------------------------------------------
// References
// ---------------------------------------------------------------------------

#[test]
fn find_references_finds_all_occurrences() {
    // x appears in the declaration and as a scalar value reference
    let d = doc("Scalars x / 1 /, y / 2 /;\n", |b| {
        vec![b.decl("scalar_declaration", "scalar_entry", 0, "Scalars", &[(0, "x", None, None), (0, "y", None, None)])]
    });
    let refs = find_references_in_tree(&d.tree, "x");
    assert!(!refs.is_empty(), "should find 'x'");
}

#[test]
fn find_references_case_insensitive() {
    let d = doc("Sets MySet / a b /;\n", |b| {
        vec![b.decl("set_declaration", "set_entry", 0, "Sets", &[(0, "MySet", None, None)])]
    });
    let refs = find_references_in_tree(&d.tree, "myset");
    assert!(!refs.is_empty());
}

#[test]
fn find_references_classifies_declaration_as_write() {
    let d = doc("Scalar x / 1 /;\n", scalar_x);
    let refs = find_references_in_tree(&d.tree, "x");
    assert!(refs.iter().any(|r| r.kind == ReferenceKind::Write));
}

#[test]
fn find_references_equation_definition_name_is_write() {
    let d = doc("Equation obj;\nobj.. z =e= 1;\n", |b| {
        vec![
            b.decl("equation_declaration", "equation_entry", 0, "Equation", &[(0, "obj", None, None)]),
            b.eq_def(1, "obj", &["z"]),
        ]
    });
    let refs = find_references_in_tree(&d.tree, "obj");
    let writes: Vec<_> = refs.iter().filter(|r| r.kind == ReferenceKind::Write).collect();
    assert!(!writes.is_empty(), "equation name should be Write");
}

#[test]
fn find_references_alias_aliases_are_write() {
    let d = doc("Sets i / 1*3 /;\nAlias(i, j, k);\n", |b| sets_i_alias(b, &["i", "j", "k"]));
    let j_refs = find_references_in_tree(&d.tree, "j");
    let k_refs = find_references_in_tree(&d.tree, "k");
    assert!(j_refs.iter().any(|r| r.kind == ReferenceKind::Write));
    assert!(k_refs.iter().any(|r| r.kind == ReferenceKind::Write));
}

#[test]
fn node_range_maps_through_source_map() {
    // After a $set on line 1, 'x' on original line 2 should appear as LSP line 1
    let d = doc("$set foo bar\nScalar x / 1 /;\n", scalar_x);
    let refs = find_references_in_tree(&d.tree, "x");
    let first = refs.first().expect("should find x");
    let range = node_range(&d.sm, node_at(&d.tree, &first.path));
    assert_eq!(range.start.line, 1); // original line 2 → LSP line 1
}

// ---------------------------------------------------------------------------
// Hover
// ---------------------------------------------------------------------------

#[test]
fn format_hover_symbol_with_domain() {
    let d = doc("Parameter a(i,j) 'cost matrix';\n", |b| {
        vec![b.decl(
            "parameter_declaration",
            "parameter_entry",
            0,
            "Parameter",
            &[(0, "a", Some("(i,j)"), Some("'cost matrix'"))],
        )]
    });
    let sym = d.table.get("a").expect("should find a");
    let text = format_hover_symbol(sym);
    assert!(text.contains("Parameter"), "should mention kind");
    assert!(text.contains("a"), "should include name");
    assert!(text.contains("cost matrix"), "should include description");
    assert!(text.contains("(i,j)") || sym.domain.is_some(), "should have domain");
}

#[test]
fn format_hover_symbol_without_domain() {
    let d = doc("Scalar x 'x value' / 1 /;\n", |b| {
        vec![b.decl("scalar_declaration", "scalar_entry", 0, "Scalar", &[(0, "x", None, Some("'x value'"))])]
    });
    let sym = d.table.get("x").unwrap();
    let text = format_hover_symbol(sym);
    assert!(text.contains("Scalar"));
    assert!(text.contains("`x`"));
    assert!(text.contains("x value"));
}

#[test]
fn collected_domain_is_the_text_after_the_name() {
    let d = doc("Parameter a(i,j) 'cost matrix';\nScalar x;\n", |b| {
        vec![
            b.decl(
                "parameter_declaration",
                "parameter_entry",
                0,
                "Parameter",
                &[(0, "a", Some("(i,j)"), Some("'cost matrix'"))],
            ),
            b.decl("scalar_declaration", "scalar_entry", 1, "Scalar", &[(1, "x", None, None)]),
        ]
    });
    let a = d.table.get("a").unwrap();
    assert_eq!(a.domain.as_deref(), Some("(i,j)"));
    assert_eq!(format_hover_symbol(a), "**Parameter** `a(i,j)`\n\ncost matrix");
    assert_eq!(d.table.get("x").unwrap().domain, None);
}

// ---------------------------------------------------------------------------
// Diagnostics
// ---------------------------------------------------------------------------

#[test]
fn collect_diagnostics_finds_ts_error() {
    // "???" is not valid GAMS; the parser gives an ERROR node
    let d = doc("???\n", |b| {
        let mut e = b.leaf("ERROR", 0, "???", 0);
        e.is_error = true;
        vec![e]
    });
    let diags = collect_diagnostics(&d.dollar, Some(&d.tree), &d.sm);
    assert!(!diags.is_empty(), "should have at least one syntax error diagnostic");
    assert!(diags.iter().any(|d| d.message.contains("syntax error")));
}

#[test]
fn collect_diagnostics_clean_file_is_empty() {
    let d = doc("Scalar x / 1 /;\n", scalar_x);
    let diags = collect_diagnostics(&d.dollar, Some(&d.tree), &d.sm);
    assert!(diags.is_empty(), "clean file should produce no diagnostics");
}
