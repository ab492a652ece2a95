use gams_lsp::symbols::{collect_dollar_vars, Symbol, SymbolKind, SymbolTable};
use gams_lsp::tokenize_str;
use gams_lsp::types::{Scope, SourceLocation};
use std::path::PathBuf;

fn sym(kind: SymbolKind, name: &str, line: u32) -> Symbol {
    Symbol {
        name: name.to_lowercase(),
        display_name: name.to_string(),
        kind,
        loc: SourceLocation::new(PathBuf::from("t.gms"), line, 1),
        description: None,
        domain: None,
    }
}

fn table() -> SymbolTable {
    let mut t = SymbolTable::new();
    t.symbols.push(sym(SymbolKind::Equation, "Obj", 1));
    t.symbols.push(sym(SymbolKind::SetDecl, "MySet", 1));
    t.symbols.push(sym(SymbolKind::Equation, "obj", 2));
    t
}

#[test]
fn lookup_is_case_insensitive_and_ordered() {
    let t = table();
    let found = t.lookup("OBJ");
    assert_eq!(found.len(), 2);
    assert_eq!(found[0].display_name, "Obj");
    assert_eq!(found[1].loc.line, 2);
    assert!(t.lookup("none").is_empty());
}

#[test]
fn get_returns_first_match() {
    let t = table();
    assert_eq!(t.get("myset").unwrap().display_name, "MySet");
    assert_eq!(t.get("MYSET").unwrap().kind, SymbolKind::SetDecl);
    assert_eq!(t.get("obj").unwrap().loc.line, 1);
    assert!(t.get("zzz").is_none());
}

#[test]
fn at_line_filters_by_line() {
    let t = table();
    let l1 = t.at_line(1);
    assert_eq!(l1.len(), 2);
    assert_eq!(l1[1].name, "myset");
    assert_eq!(t.at_line(2).len(), 1);
    assert!(t.at_line(3).is_empty());
}

#[test]
fn merge_appends_both_lists() {
    let mut a = table();
    let mut b = SymbolTable::new();
    b.symbols.push(sym(SymbolKind::Scalar, "y", 5));
    let toks = tokenize_str(PathBuf::from("t.gms"), "$set foo bar\n").unwrap();
    b.dollar_vars = collect_dollar_vars(&toks);
    a.merge(b);
    assert_eq!(a.symbols.len(), 4);
    assert_eq!(a.symbols[3].name, "y");
    assert!(a.get("y").is_some());
    assert!(a.dollar_var("FOO").is_some());
}

#[test]
fn collect_dollar_vars_groups_by_lowercased_name() {
    let text = "$set X 1\n$setglobal g hello\n$set x 2\n$setenv E v\n$set lonely\n";
    let toks = tokenize_str(PathBuf::from("t.gms"), text).unwrap();
    let vars = collect_dollar_vars(&toks);
    assert_eq!(vars.len(), 3);
    assert_eq!(vars[0].name, "X");
    assert_eq!(vars[0].scope, Scope::Local);
    assert_eq!(vars[0].definitions.len(), 2);
    assert_eq!(vars[0].definitions[0].0, "1");
    assert_eq!(vars[0].definitions[1].0, "2");
    assert_eq!(vars[0].definitions[1].1.line, 3);
    assert_eq!(vars[0].current_value(), Some("2"));
    assert_eq!(vars[1].name, "g");
    assert_eq!(vars[1].scope, Scope::Global);
    assert_eq!(vars[2].scope, Scope::Env);
}

#[test]
fn dollar_var_lookup_by_any_case() {
    let toks = tokenize_str(PathBuf::from("t.gms"), "$set Scenario base\n").unwrap();
    let mut t = SymbolTable::new();
    t.dollar_vars = collect_dollar_vars(&toks);
    let dv = t.dollar_var("SCENARIO").expect("dollar var not found");
    assert_eq!(dv.current_value(), Some("base"));
    assert!(t.dollar_var("other").is_none());
}

#[test]
fn symbol_kind_labels() {
    assert_eq!(SymbolKind::SetDecl.label(), "Set");
    assert_eq!(SymbolKind::DollarVar.label(), "DollarVar");
    assert_eq!(SymbolKind::Parameter.label(), "Parameter");
}
