use gams_lsp::features::{dollar_var_name_at_position, format_hover_dollar_var, format_hover_symbol};
use gams_lsp::symbols::{Symbol, SymbolKind};
use gams_lsp::types::{DollarVariable, Scope, SourceLocation};
use std::path::PathBuf;

#[test]
fn dollar_var_name_at_position_inside_var() {
    let line = "x = %scenario%;";
    // cursor on 's' of scenario (col 6)
    assert_eq!(dollar_var_name_at_position(line, 6), Some("scenario".to_string()));
}

#[test]
fn dollar_var_name_at_position_on_opening_percent() {
    let line = "%foo% + 1";
    assert_eq!(dollar_var_name_at_position(line, 0), Some("foo".to_string()));
}

#[test]
fn dollar_var_name_at_position_outside_var() {
    let line = "%foo% + 1";
    // col 6 is outside any %...%
    assert_eq!(dollar_var_name_at_position(line, 6), None);
}

#[test]
fn dollar_var_name_at_position_no_percent() {
    assert_eq!(dollar_var_name_at_position("Scalar x / 1 /;", 3), None);
}

#[test]
fn dollar_var_name_at_position_on_closing_percent() {
    assert_eq!(dollar_var_name_at_position("%foo% + 1", 4), Some("foo".to_string()));
}

#[test]
fn dollar_var_name_at_position_second_span() {
    let line = "%a%-%bb%";
    assert_eq!(dollar_var_name_at_position(line, 1), Some("a".to_string()));
    assert_eq!(dollar_var_name_at_position(line, 3), None);
    assert_eq!(dollar_var_name_at_position(line, 5), Some("bb".to_string()));
}

#[test]
fn dollar_var_name_at_position_rejects_space_and_empty() {
    assert_eq!(dollar_var_name_at_position("%a b%", 2), None);
    assert_eq!(dollar_var_name_at_position("%%x", 0), None);
    assert_eq!(dollar_var_name_at_position("%open", 2), None);
}

#[test]
fn dollar_var_name_at_position_counts_bytes() {
    // 'é' takes two bytes, so the span "%v%" covers byte columns 3..=5.
    let line = "é %v%";
    assert_eq!(dollar_var_name_at_position(line, 2), None);
    assert_eq!(dollar_var_name_at_position(line, 3), Some("v".to_string()));
    assert_eq!(dollar_var_name_at_position(line, 5), Some("v".to_string()));
    assert_eq!(dollar_var_name_at_position(line, 6), None);
}

fn sym(kind: SymbolKind, name: &str, domain: Option<&str>, desc: Option<&str>) -> Symbol {
    Symbol {
        name: name.to_lowercase(),
        display_name: name.to_string(),
        kind,
        loc: SourceLocation::new(PathBuf::from("t.gms"), 1, 1),
        description: desc.map(|d| d.to_string()),
        domain: domain.map(|d| d.to_string()),
    }
}

#[test]
fn format_hover_symbol_with_domain_and_description() {
    let s = sym(SymbolKind::Parameter, "a", Some("(i,j)"), Some("cost matrix"));
    assert_eq!(format_hover_symbol(&s), "**Parameter** `a(i,j)`\n\ncost matrix");
}

#[test]
fn format_hover_symbol_plain() {
    let s = sym(SymbolKind::SetDecl, "I", None, None);
    assert_eq!(format_hover_symbol(&s), "**Set** `I`");
    let s = sym(SymbolKind::Scalar, "x", None, Some("x value"));
    assert_eq!(format_hover_symbol(&s), "**Scalar** `x`\n\nx value");
}

#[test]
fn format_hover_dollar_var_with_value() {
    let mut dv = DollarVariable::new("scenario", Scope::Global);
    dv.definitions.push(("base".to_string(), SourceLocation::new(PathBuf::from("t.gms"), 1, 1)));
    dv.definitions.push(("high".to_string(), SourceLocation::new(PathBuf::from("t.gms"), 2, 1)));
    assert_eq!(
        format_hover_dollar_var(&dv),
        "**DollarVar** `%scenario%` *($setglobal)*\n\nCurrent value: `high`"
    );
}

#[test]
fn format_hover_dollar_var_without_value() {
    let dv = DollarVariable::new("x", Scope::Local);
    assert_eq!(format_hover_dollar_var(&dv), "**DollarVar** `%x%` *($set)*");
    let dv = DollarVariable::new("e", Scope::Env);
    assert_eq!(format_hover_dollar_var(&dv), "**DollarVar** `%e%` *($setenv)*");
}
