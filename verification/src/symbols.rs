//! The symbols of a GAMS document: its declarations, looked up by name
//! without regard to case, and the dollar-layer variables that its
//! `$set` family of directives define.

use crate::text::{lowercase, to_lower};
use crate::types::{DollarVariable, Scope, SourceLocation, Token, TokenKind};
use vstd::prelude::*;

verus! {

// ---------------------------------------------------------------------------
// SymbolKind
// ---------------------------------------------------------------------------

#[derive(Debug, Clone, Copy, PartialEq, Eq, Structural)]
pub enum SymbolKind {
    SetDecl,
    Scalar,
    Parameter,  // includes Table declarations
    Variable,  // includes VariableTable declarations
    Equation,
    Model,
    Alias,
    Acronym,
    DollarVar,  // %var% set by $set / $setglobal / $setenv
}

/// The name a symbol kind is shown by.
pub open spec fn kind_label(k: SymbolKind) -> Seq<char> {
    match k {
        SymbolKind::SetDecl => "Set"@,
        SymbolKind::Scalar => "Scalar"@,
        SymbolKind::Parameter => "Parameter"@,
        SymbolKind::Variable => "Variable"@,
        SymbolKind::Equation => "Equation"@,
        SymbolKind::Model => "Model"@,
        SymbolKind::Alias => "Alias"@,
        SymbolKind::Acronym => "Acronym"@,
        SymbolKind::DollarVar => "DollarVar"@,
    }
}

impl SymbolKind {
    /// The name this kind is shown by ("Set", "Scalar", …).
    pub fn label(&self) -> (r: String)
        ensures
            r@ == kind_label(*self),
    {
        let s = match self {
            SymbolKind::SetDecl => "Set",
            SymbolKind::Scalar => "Scalar",
            SymbolKind::Parameter => "Parameter",
            SymbolKind::Variable => "Variable",
            SymbolKind::Equation => "Equation",
            SymbolKind::Model => "Model",
            SymbolKind::Alias => "Alias",
            SymbolKind::Acronym => "Acronym",
            SymbolKind::DollarVar => "DollarVar",
        };
        s.to_owned()
    }
}

// ---------------------------------------------------------------------------
// Symbol
// ---------------------------------------------------------------------------

#[derive(Debug, Clone)]
pub struct Symbol {
    /// Normalised (lowercased) name used for case-insensitive lookup.
    pub name: String,
    /// Original-case name as it appears in the source.
    pub display_name: String,
    pub kind: SymbolKind,
    /// Location of the identifier in the original (pre-filtered) file.
    pub loc: SourceLocation,
    /// Inline description string from the declaration (quotes stripped), if any.
    pub description: Option<String>,
    /// Domain of the declaration as written, e.g. `(i,j)`, if any.
    pub domain: Option<String>,
}

/// The model of a symbol: names, kind, location, description and domain.
pub struct SymSpec {
    pub name: Seq<char>,
    pub display: Seq<char>,
    pub kind: SymbolKind,
    pub loc: SourceLocation,
    pub description: Option<Seq<char>>,
    pub domain: Option<Seq<char>>,
}

pub open spec fn opt_view(o: Option<String>) -> Option<Seq<char>> {
    match o {
        Some(s) => Some(s@),
        None => None,
    }
}

pub open spec fn sym_view(s: Symbol) -> SymSpec {
    SymSpec {
        name: s.name@,
        display: s.display_name@,
        kind: s.kind,
        loc: s.loc,
        description: opt_view(s.description),
        domain: opt_view(s.domain),
    }
}

pub open spec fn syms_view(v: Seq<Symbol>) -> Seq<SymSpec> {
    v.map_values(|s: Symbol| sym_view(s))
}

// ---------------------------------------------------------------------------
// SymbolTable
// ---------------------------------------------------------------------------

#[derive(Clone)]
pub struct SymbolTable {
    /// All GAMS declarations, in source order.
    pub symbols: Vec<Symbol>,
    /// Dollar-layer variables ($set / $setglobal / $setenv).
    pub dollar_vars: Vec<DollarVariable>,
}

/// The symbols that the references of `v` point to.
pub open spec fn deref_all(v: Seq<&Symbol>) -> Seq<Symbol> {
    v.map_values(|s: &Symbol| *s)
}

/// The symbols of `syms` whose normalised name is `key`, in order.
pub open spec fn named(syms: Seq<Symbol>, key: Seq<char>) -> Seq<Symbol> {
    syms.filter(has_name(key))
}

/// The symbol's normalised name is `key`.
pub open spec fn has_name(key: Seq<char>) -> spec_fn(Symbol) -> bool {
    |s: Symbol| s.name@ == key
}

/// The symbols of `syms` declared on `line`, in order.
pub open spec fn on_line(syms: Seq<Symbol>, line: u32) -> Seq<Symbol> {
    syms.filter(|s: Symbol| s.loc.line == line)
}

/// Index of the first dollar variable of `vs` whose lowercased name is `key`,
/// or `vs.len()` when there is none.
pub open spec fn first_var(vs: Seq<DollarVariable>, key: Seq<char>) -> int
    decreases vs.len(),
{
    if vs.len() == 0 {
        0
    } else if lowercase(vs[0].name@) == key {
        0
    } else {
        1 + first_var(vs.drop_first(), key)
    }
}

impl SymbolTable {
    pub fn new() -> (r: Self)
        ensures
            r.symbols@.len() == 0,
            r.dollar_vars@.len() == 0,
    {
        Self { symbols: Vec::new(), dollar_vars: Vec::new() }
    }

    /// All symbols whose normalised name matches `name` (case-insensitive).
    pub fn lookup(&self, name: &str) -> (r: Vec<&Symbol>)
        ensures
            deref_all(r@) == named(self.symbols@, lowercase(name@)),
    {
        let lower = to_lower(name);
        let mut out: Vec<&Symbol> = Vec::new();
        let mut i: usize = 0;
        while i < self.symbols.len()
            invariant
                i <= self.symbols@.len(),
                lower@ == lowercase(name@),
                deref_all(out@) == named(self.symbols@.take(i as int), lower@),
            decreases self.symbols@.len() - i,
        {
            let s = &self.symbols[i];
            proof {
                let pre = self.symbols@.take(i as int);
                assert(self.symbols@.take(i + 1) == pre.push(*s));
                pre.lemma_filter_push(*s, has_name(lower@));
            }
            if s.name == lower {
                let ghost before = out@;
                out.push(s);
                assert(deref_all(out@) == deref_all(before).push(*s));
            }
            i += 1;
        }
        assert(self.symbols@.take(self.symbols@.len() as int) == self.symbols@);
        out
    }

    /// First symbol matching `name` (declaration site preferred).
    pub fn get(&self, name: &str) -> (r: Option<&Symbol>)
        ensures
            named(self.symbols@, lowercase(name@)).len() == 0 ==> r.is_none(),
            named(self.symbols@, lowercase(name@)).len() > 0 ==> r == Some(
                &named(self.symbols@, lowercase(name@))[0],
            ),
    {
        let all = self.lookup(name);
        if all.len() == 0 {
            None
        } else {
            assert(deref_all(all@)[0] == *all@[0]);
            Some(all[0])
        }
    }

    /// All symbols whose declaration is on `line` in the original file.
    pub fn at_line(&self, line: u32) -> (r: Vec<&Symbol>)
        ensures
            deref_all(r@) == on_line(self.symbols@, line),
    {
        let mut out: Vec<&Symbol> = Vec::new();
        let mut i: usize = 0;
        while i < self.symbols.len()
            invariant
                i <= self.symbols@.len(),
                deref_all(out@) == on_line(self.symbols@.take(i as int), line),
            decreases self.symbols@.len() - i,
        {
            let s = &self.symbols[i];
            proof {
                let pre = self.symbols@.take(i as int);
                assert(self.symbols@.take(i + 1) == pre.push(*s));
                pre.lemma_filter_push(*s, |x: Symbol| x.loc.line == line);
            }
            if s.loc.line == line {
                let ghost before = out@;
                out.push(s);
                assert(deref_all(out@) == deref_all(before).push(*s));
            }
            i += 1;
        }
        assert(self.symbols@.take(self.symbols@.len() as int) == self.symbols@);
        out
    }

    /// Dollar variable by name (case-insensitive).
    pub fn dollar_var(&self, name: &str) -> (r: Option<&DollarVariable>)
        ensures
            ({
                let k = first_var(self.dollar_vars@, lowercase(name@));
                &&& k >= self.dollar_vars@.len() ==> r.is_none()
                &&& k < self.dollar_vars@.len() ==> r == Some(&self.dollar_vars@[k])
            }),
    {
        let lower = to_lower(name);
        let mut i: usize = 0;
        assert(self.dollar_vars@.skip(0) == self.dollar_vars@);
        while i < self.dollar_vars.len()
            invariant
                i <= self.dollar_vars@.len(),
                lower@ == lowercase(name@),
                first_var(self.dollar_vars@, lower@) == i + first_var(
                    self.dollar_vars@.skip(i as int),
                    lower@,
                ),
            decreases self.dollar_vars@.len() - i,
        {
            let v = &self.dollar_vars[i];
            let key = to_lower(v.name.as_str());
            proof {
                let rest = self.dollar_vars@.skip(i as int);
                assert(rest[0] == *v);
                assert(rest.drop_first() == self.dollar_vars@.skip(i + 1));
            }
            if key == lower {
                return Some(v);
            }
            i += 1;
        }
        proof {
            lemma_first_var_bound(self.dollar_vars@.skip(i as int), lower@);
        }
        None
    }

    /// Consume `other` and append its contents (used for $include merging).
    pub fn merge(&mut self, other: SymbolTable)
        ensures
            final(self).symbols@ == old(self).symbols@ + other.symbols@,
            final(self).dollar_vars@ == old(self).dollar_vars@ + other.dollar_vars@,
    {
        let mut other = other;
        self.symbols.append(&mut other.symbols);
        self.dollar_vars.append(&mut other.dollar_vars);
    }
}

proof fn lemma_first_var_bound(vs: Seq<DollarVariable>, key: Seq<char>)
    ensures
        0 <= first_var(vs, key) <= vs.len(),
    decreases vs.len(),
{
    if vs.len() > 0 {
        lemma_first_var_bound(vs.drop_first(), key);
    }
}

// ---------------------------------------------------------------------------
// Dollar-variable collection
// ---------------------------------------------------------------------------

/// The name, value and scope that token `t` assigns: `$set`, `$setglobal`
/// and `$setenv` tokens that carry a name and a value.
pub open spec fn assignment(t: Token) -> Option<(Seq<char>, Seq<char>, Scope)> {
    if t.args@.len() >= 2 {
        match t.kind {
            TokenKind::SetLocal => Some((t.args@[0]@, t.args@[1]@, Scope::Local)),
            TokenKind::SetGlobal => Some((t.args@[0]@, t.args@[1]@, Scope::Global)),
            TokenKind::SetEnv => Some((t.args@[0]@, t.args@[1]@, Scope::Env)),
            _ => None,
        }
    } else {
        None
    }
}

/// The model of a dollar variable: name, scope and its definitions
/// (value and where it was set), oldest first.
pub struct VarSpec {
    pub name: Seq<char>,
    pub scope: Scope,
    pub defs: Seq<(Seq<char>, SourceLocation)>,
}

pub open spec fn defs_view(d: Seq<(String, SourceLocation)>) -> Seq<(Seq<char>, SourceLocation)> {
    d.map_values(|e: (String, SourceLocation)| (e.0@, e.1))
}

pub open spec fn var_view(v: DollarVariable) -> VarSpec {
    VarSpec { name: v.name@, scope: v.scope, defs: defs_view(v.definitions@) }
}

pub open spec fn vars_view(v: Seq<DollarVariable>) -> Seq<VarSpec> {
    v.map_values(|x: DollarVariable| var_view(x))
}

/// Index of the first variable of `st` from `i` on whose lowercased name is
/// `key`, or `st.len()` when there is none.
pub open spec fn first_key(st: Seq<VarSpec>, key: Seq<char>, i: int) -> int
    decreases st.len() - i,
{
    if i < 0 || i >= st.len() {
        st.len() as int
    } else if lowercase(st[i].name) == key {
        i
    } else {
        first_key(st, key, i + 1)
    }
}

/// The dollar variables that `toks` define, one per name (names compared
/// after lowercasing), in the order of their first definition. Each keeps
/// the spelling and scope of its first definition and lists every value
/// given to it, in order.
pub open spec fn vars_from(toks: Seq<Token>) -> Seq<VarSpec>
    decreases toks.len(),
{
    if toks.len() == 0 {
        seq![]
    } else {
        let st = vars_from(toks.drop_last());
        let t = toks.last();
        match assignment(t) {
            None => st,
            Some((name, value, scope)) => {
                let k = first_key(st, lowercase(name), 0);
                if k < st.len() {
                    st.update(k, VarSpec { defs: st[k].defs.push((value, t.loc)), ..st[k] })
                } else {
                    st.push(VarSpec { name, scope, defs: seq![(value, t.loc)] })
                }
            },
        }
    }
}

proof fn lemma_first_key_bound(st: Seq<VarSpec>, key: Seq<char>, i: int)
    requires
        0 <= i <= st.len(),
    ensures
        i <= first_key(st, key, i) <= st.len(),
    decreases st.len() - i,
{
    if i < st.len() {
        lemma_first_key_bound(st, key, i + 1);
    }
}

/// Collect the dollar variables defined by `$set`, `$setglobal` and
/// `$setenv` tokens, one entry per (case-insensitive) name.
pub fn collect_dollar_vars(tokens: &[Token]) -> (r: Vec<DollarVariable>)
    ensures
        vars_view(r@) == vars_from(tokens@),
{
    let mut out: Vec<DollarVariable> = Vec::new();
    let mut keys: Vec<String> = Vec::new();
    let mut i: usize = 0;
    while i < tokens.len()
        invariant
            i <= tokens@.len(),
            keys@.len() == out@.len(),
            forall|j: int| 0 <= j < keys@.len() ==> #[trigger] keys@[j]@ == lowercase(out@[j].name@),
            vars_view(out@) == vars_from(tokens@.take(i as int)),
        decreases tokens@.len() - i,
    {
        assert(tokens@.take(i + 1).drop_last() == tokens@.take(i as int));
        let t = &tokens[i];
        let scope = match t.kind {
            TokenKind::SetLocal => Some(Scope::Local),
            TokenKind::SetGlobal => Some(Scope::Global),
            TokenKind::SetEnv => Some(Scope::Env),
            _ => None,
        };
        if scope.is_some() && t.args.len() >= 2 {
            let scope = scope.unwrap();
            let name = &t.args[0];
            let value = &t.args[1];
            let key = to_lower(name.as_str());
            let ghost st = vars_view(out@);
            let mut k: usize = 0;
            while k < keys.len() && keys[k] != key
                invariant
                    k <= keys@.len(),
                    keys@.len() == out@.len(),
                    st == vars_view(out@),
                    forall|j: int| 0 <= j < keys@.len() ==> #[trigger] keys@[j]@ == lowercase(out@[j].name@),
                    first_key(st, key@, 0) == first_key(st, key@, k as int),
                decreases keys@.len() - k,
            {
                assert(st[k as int].name == out@[k as int].name@);
                k += 1;
            }
            proof {
                lemma_first_key_bound(st, key@, k as int);
                if k < keys@.len() {
                    assert(st[k as int].name == out@[k as int].name@);
                }
            }
            let def = (value.clone(), t.loc.duplicate());
            if k < keys.len() {
                let mut dv = out.remove(k);
                let ghost old_defs = dv.definitions@;
                dv.definitions.push(def);
                assert(defs_view(dv.definitions@) == defs_view(old_defs).push((value@, t.loc)));
                out.insert(k, dv);
                assert(vars_view(out@) == st.update(
                    k as int,
                    VarSpec { defs: st[k as int].defs.push((value@, t.loc)), ..st[k as int] },
                ));
            } else {
                let mut dv = DollarVariable::new(name.as_str(), scope);
                dv.definitions.push(def);
                assert(defs_view(dv.definitions@) == seq![(value@, t.loc)]);
                out.push(dv);
                keys.push(key);
                assert(vars_view(out@) == st.push(
                    VarSpec { name: name@, scope, defs: seq![(value@, t.loc)] },
                ));
            }
        }
        i += 1;
    }
    assert(tokens@.take(tokens@.len() as int) == tokens@);
    out
}

} // verus!
