//! Symbols and scopes: what a name resolves to, looked up from the inside out.
use crate::ast::{duplicate_params, params_view, Param, ParamView};
use crate::names::{lemma_listing_entry, listed, listing_index, listing_map, sorted_by_name, NameTable};
use crate::var_type::VarType;
use vstd::prelude::*;

verus! {

/// A named entity that a scope records.
#[derive(Debug)]
pub enum Symbol {
    BuiltIn { name: String },
    Var { name: String, kind: VarType },
    Procedure { name: String, params: Vec<Param> },
}

/// The mathematical model of a [`Symbol`].
pub enum SymbolView {
    BuiltIn { name: Seq<char> },
    Var { name: Seq<char>, kind: VarType },
    Procedure { name: Seq<char>, params: Seq<ParamView> },
}

impl SymbolView {
    /// The name under which a scope records the symbol.
    pub open spec fn name(self) -> Seq<char> {
        match self {
            SymbolView::BuiltIn { name } => name,
            SymbolView::Var { name, .. } => name,
            SymbolView::Procedure { name, .. } => name,
        }
    }
}

impl View for Symbol {
    type V = SymbolView;

    open spec fn view(&self) -> SymbolView {
        match self {
            Symbol::BuiltIn { name } => SymbolView::BuiltIn { name: name@ },
            Symbol::Var { name, kind } => SymbolView::Var { name: name@, kind: *kind },
            Symbol::Procedure { name, params } => SymbolView::Procedure {
                name: name@,
                params: params_view(params@),
            },
        }
    }
}

impl Symbol {
    /// The name under which a scope records the symbol.
    pub fn name(&self) -> (r: String)
        ensures
            r@ == self@.name(),
    {
        match self {
            Symbol::BuiltIn { name } => name.clone(),
            Symbol::Var { name, .. } => name.clone(),
            Symbol::Procedure { name, .. } => name.clone(),
        }
    }
}

impl Clone for Symbol {
    fn clone(&self) -> (r: Symbol)
        ensures
            r@ == self@,
    {
        match self {
            Symbol::BuiltIn { name } => Symbol::BuiltIn { name: name.clone() },
            Symbol::Var { name, kind } => Symbol::Var { name: name.clone(), kind: *kind },
            Symbol::Procedure { name, params } => Symbol::Procedure {
                name: name.clone(),
                params: duplicate_params(params),
            },
        }
    }
}

/// The model of what a lookup returns.
pub open spec fn found_view(r: Option<Symbol>) -> Option<SymbolView> {
    match r {
        Some(s) => Some(s@),
        None => None,
    }
}

/// The mathematical model of a scope: its name, its nesting level, the
/// symbols declared in it and the scope that encloses it.
pub struct ScopeView {
    pub name: Seq<char>,
    pub level: nat,
    pub symbols: Map<Seq<char>, SymbolView>,
    pub enclosing: Option<Box<ScopeView>>,
}

/// The symbols that the global scope holds from the start: the built-in
/// types.
pub open spec fn builtin_symbols() -> Map<Seq<char>, SymbolView> {
    Map::<Seq<char>, SymbolView>::empty().insert(
        VarType::INTEGER.spec_name(),
        SymbolView::BuiltIn { name: VarType::INTEGER.spec_name() },
    ).insert(VarType::REAL.spec_name(), SymbolView::BuiltIn { name: VarType::REAL.spec_name() })
}

impl ScopeView {
    /// A scope that nothing encloses yet. One of level 1 holds the built-in
    /// types.
    pub open spec fn fresh(name: Seq<char>, level: nat) -> ScopeView {
        ScopeView {
            name,
            level,
            symbols: if level == 1 {
                builtin_symbols()
            } else {
                Map::empty()
            },
            enclosing: None,
        }
    }

    /// The scope with `outer` as the scope that encloses it.
    pub open spec fn within(self, outer: ScopeView) -> ScopeView {
        ScopeView { enclosing: Some(Box::new(outer)), ..self }
    }

    /// The scope cut loose from the scope that encloses it.
    pub open spec fn detached(self) -> ScopeView {
        ScopeView { enclosing: None, ..self }
    }

    /// The scope with `symbol` recorded under its name, in place of what the
    /// scope held under that name.
    pub open spec fn insert(self, symbol: SymbolView) -> ScopeView {
        ScopeView { symbols: self.symbols.insert(symbol.name(), symbol), ..self }
    }

    /// What this scope itself declares under `name`.
    pub open spec fn lookup_current_only(self, name: Seq<char>) -> Option<SymbolView> {
        if self.symbols.contains_key(name) {
            Some(self.symbols[name])
        } else {
            None
        }
    }

    /// What `name` resolves to: the declaration in this scope, or else in the
    /// nearest enclosing scope, the search ending before the level-0 root.
    pub open spec fn lookup(self, name: Seq<char>) -> Option<SymbolView>
        decreases self,
    {
        if self.symbols.contains_key(name) {
            Some(self.symbols[name])
        } else {
            match self.enclosing {
                Some(outer) => if outer.level != 0 {
                    outer.lookup(name)
                } else {
                    None
                },
                None => None,
            }
        }
    }

    /// Nesting levels strictly increase from the root to this scope.
    pub open spec fn well_nested(self) -> bool
        decreases self,
    {
        match self.enclosing {
            Some(outer) => outer.level < self.level && outer.well_nested(),
            None => true,
        }
    }
}

/// A scope resolves every name that the scope around it resolves, unless
/// that scope is the level-0 root; so it resolves what is declared in any
/// scope that encloses it.
pub proof fn lemma_inner_resolves_outer(inner: ScopeView, name: Seq<char>)
    requires
        inner.enclosing is Some,
        inner.enclosing->0.level != 0,
        inner.enclosing->0.lookup(name) is Some,
    ensures
        inner.lookup(name) is Some,
{
}

/// Every scope inside the global scope resolves the built-in types.
pub proof fn lemma_builtins_resolve(scope: ScopeView, global: ScopeView, var_type: VarType)
    requires
        nested_in(scope, global),
        global.level != 0,
        global.symbols.contains_key(var_type.spec_name()),
    ensures
        scope.lookup(var_type.spec_name()) is Some,
    decreases scope,
{
    if scope != global {
        lemma_builtins_resolve(*scope.enclosing->0, global, var_type);
    }
}

/// `scope` is `outer` or lies inside it, with no level-0 scope between them.
pub open spec fn nested_in(scope: ScopeView, outer: ScopeView) -> bool
    decreases scope,
{
    scope == outer || match scope.enclosing {
        Some(next) => next.level != 0 && nested_in(*next, outer),
        None => false,
    }
}

/// A scope resolves exactly the names that it declares itself or that a
/// scope around it declares, short of the level-0 root. A name that is
/// declared only in scopes inside it, or beside it, does not resolve.
pub proof fn lemma_resolves_what_is_declared_around(scope: ScopeView, name: Seq<char>)
    ensures
        scope.lookup(name) is Some <==> declared_around(scope, name),
    decreases scope,
{
    if let Some(outer) = scope.enclosing {
        if outer.level != 0 {
            lemma_resolves_what_is_declared_around(*outer, name);
        }
    }
}

/// `scope` or a scope around it, short of the level-0 root, declares `name`.
pub open spec fn declared_around(scope: ScopeView, name: Seq<char>) -> bool
    decreases scope,
{
    scope.symbols.contains_key(name) || match scope.enclosing {
        Some(outer) => outer.level != 0 && declared_around(*outer, name),
        None => false,
    }
}

/// A scope of the program under analysis, linked to the scope that encloses
/// it.
#[derive(Debug)]
pub struct ScopedSymbolTable {
    table: NameTable<Symbol>,
    scope_name: String,
    scope_level: usize,
    enclosing_scope: Option<Box<ScopedSymbolTable>>,
}

/// The model of the symbols that a table holds.
pub open spec fn symbols_view(m: Map<Seq<char>, Symbol>) -> Map<Seq<char>, SymbolView> {
    m.map_values(|s: Symbol| s@)
}

impl View for ScopedSymbolTable {
    type V = ScopeView;

    closed spec fn view(&self) -> ScopeView {
        scope_view(*self)
    }
}

/// The model of a scope and of the scopes that enclose it.
pub closed spec fn scope_view(t: ScopedSymbolTable) -> ScopeView
    decreases t,
{
    ScopeView {
        name: t.scope_name@,
        level: t.scope_level as nat,
        symbols: symbols_view(t.table@),
        enclosing: match t.enclosing_scope {
            Some(outer) => Some(Box::new(scope_view(*outer))),
            None => None,
        },
    }
}

/// The invariant of a scope and of the scopes that enclose it.
pub closed spec fn scope_wf(t: ScopedSymbolTable) -> bool
    decreases t,
{
    &&& t.table.wf()
    &&& match t.enclosing_scope {
        Some(outer) => scope_wf(*outer),
        None => true,
    }
}

impl ScopedSymbolTable {
    /// The invariant of the scope and of the scopes that enclose it: each
    /// holds its symbols in ascending order of their names.
    pub open spec fn wf(&self) -> bool {
        scope_wf(*self)
    }

    /// The scope's symbols in ascending byte-wise order of the names they are
    /// recorded under.
    pub closed spec fn listing(&self) -> Seq<(Seq<char>, SymbolView)> {
        Seq::new(
            self.table.listing().len(),
            |i: int| (self.table.listing()[i].0, self.table.listing()[i].1@),
        )
    }

    /// The listing holds the scope's symbols, each once, in ascending order.
    pub proof fn lemma_listing(&self)
        requires
            self.wf(),
        ensures
            sorted_by_name(self.listing()),
            listing_map(self.listing()) == self@.symbols,
    {
        let raw = self.table.listing();
        let l = self.listing();
        assert forall|i: int, j: int| 0 <= i < j < l.len() implies crate::names::name_lt(
            #[trigger] l[i].0,
            #[trigger] l[j].0,
        ) by {
            assert(l[i].0 == raw[i].0);
            assert(l[j].0 == raw[j].0);
        }
        let lhs = listing_map(l);
        let rhs = self@.symbols;
        assert forall|k: Seq<char>| lhs.contains_key(k) <==> rhs.contains_key(k) by {
            if lhs.contains_key(k) {
                let i = listing_index(l, k);
                assert(raw[i].0 == k);
                assert(listed(raw, k));
            }
            if rhs.contains_key(k) {
                let i = listing_index(raw, k);
                assert(l[i].0 == k);
                assert(listed(l, k));
            }
        }
        assert forall|k: Seq<char>| lhs.contains_key(k) implies lhs[k] == rhs[k] by {
            let i = listing_index(l, k);
            lemma_listing_entry(l, i);
            assert(raw[i].0 == k);
            lemma_listing_entry(raw, i);
        }
        assert(lhs =~= rhs);
    }

    /// A scope with the given name and nesting level, which nothing encloses
    /// yet. A scope of level 1 starts with the built-in types.
    pub fn new(scope_name: String, scope_level: usize) -> (r: ScopedSymbolTable)
        ensures
            r.wf(),
            r@ == ScopeView::fresh(scope_name@, scope_level as nat),
    {
        let mut table: NameTable<Symbol> = NameTable::new();
        if scope_level == 1 {
            let integer_type = Symbol::BuiltIn { name: VarType::INTEGER.name() };
            let real_type = Symbol::BuiltIn { name: VarType::REAL.name() };
            table.insert(VarType::INTEGER.name(), integer_type);
            table.insert(VarType::REAL.name(), real_type);
        }
        let r = ScopedSymbolTable { table, scope_name, scope_level, enclosing_scope: None };
        proof {
            assert(r@.symbols =~= ScopeView::fresh(scope_name@, scope_level as nat).symbols);
        }
        r
    }

    /// Takes the enclosing scope out of this one.
    pub fn enclosing_scope(&mut self) -> (r: ScopedSymbolTable)
        requires
            old(self).wf(),
            old(self)@.enclosing is Some,
        ensures
            r.wf(),
            final(self).wf(),
            r@ == *old(self)@.enclosing->0,
            final(self)@ == old(self)@.detached(),
    {
        let outer = self.enclosing_scope.take();
        *outer.unwrap()
    }

    /// Makes `enclosing_scope` the scope that encloses this one.
    pub fn set_enclosing_scope(&mut self, enclosing_scope: ScopedSymbolTable)
        requires
            old(self).wf(),
            enclosing_scope.wf(),
        ensures
            final(self).wf(),
            final(self)@ == old(self)@.within(enclosing_scope@),
    {
        self.enclosing_scope = Some(Box::new(enclosing_scope));
    }

    /// The nesting level.
    pub fn scope_level(&self) -> (r: usize)
        ensures
            r == self@.level,
    {
        self.scope_level
    }

    /// The scope's name.
    pub fn scope_name(&self) -> (r: &String)
        ensures
            r@ == self@.name,
    {
        &self.scope_name
    }

    /// The name of the enclosing scope, if there is one.
    pub fn enclosing_name(&self) -> (r: Option<&String>)
        ensures
            r is Some == self@.enclosing is Some,
            r is Some ==> r->0@ == self@.enclosing->0.name,
    {
        match &self.enclosing_scope {
            Some(outer) => {
                proof {
                    assert(scope_view(**outer).name == outer.scope_name@);
                }
                Some(&outer.scope_name)
            },
            None => None,
        }
    }

    /// The number of symbols that the scope itself declares.
    pub fn symbol_count(&self) -> (n: usize)
        ensures
            n == self.listing().len(),
    {
        self.table.len()
    }

    /// The name under which the scope holds its `i`-th symbol, in ascending
    /// byte-wise order of the names.
    pub fn symbol_name_at(&self, i: usize) -> (r: &String)
        requires
            i < self.listing().len(),
        ensures
            r@ == self.listing()[i as int].0,
    {
        self.table.name_at(i)
    }

    /// The scope's `i`-th symbol in ascending byte-wise order of the names.
    pub fn symbol_at(&self, i: usize) -> (r: &Symbol)
        requires
            i < self.listing().len(),
        ensures
            r@ == self.listing()[i as int].1,
    {
        self.table.value_at(i)
    }

    /// Records `symbol` under its name, in place of what the scope held
    /// under that name.
    pub fn insert(&mut self, symbol: Symbol)
        requires
            old(self).wf(),
        ensures
            final(self).wf(),
            final(self)@ == old(self)@.insert(symbol@),
    {
        let name = symbol.name();
        self.table.insert(name, symbol);
        proof {
            assert(final(self)@.symbols =~= old(self)@.symbols.insert(symbol@.name(), symbol@));
        }
    }

    /// Resolves `name` in this scope and then in the scopes that enclose it.
    pub fn lookup(&self, name: &str) -> (r: Option<Symbol>)
        requires
            self.wf(),
        ensures
            found_view(r) == self@.lookup(name@),
        decreases self,
    {
        match self.table.get(name) {
            Some(symbol) => Some(symbol.clone()),
            None => match &self.enclosing_scope {
                Some(outer) => {
                    if outer.scope_level != 0 {
                        outer.lookup(name)
                    } else {
                        None
                    }
                },
                None => None,
            },
        }
    }

    /// Resolves `name` in this scope alone.
    pub fn lookup_current_only(&self, name: &str) -> (r: Option<Symbol>)
        requires
            self.wf(),
        ensures
            found_view(r) == self@.lookup_current_only(name@),
    {
        match self.table.get(name) {
            Some(symbol) => Some(symbol.clone()),
            None => None,
        }
    }
}

} // verus!
