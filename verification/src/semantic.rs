//! The semantic analyzer: the rules on declarations and references, and the
//! walk that holds a tree to them.
use crate::ast::{asts_view, lemma_children_view, params_view, AstView, Param, ParamView, AST};
use crate::errors::{Error, ErrorView};
use crate::symbols::{ScopeView, ScopedSymbolTable, Symbol, SymbolView};
use crate::token::TokenView;
use crate::var_type::VarType;
use vstd::prelude::*;
use vstd::string::StringExecFns;

verus! {

/// A scope that the analysis has left, as it was on leaving it.
#[derive(Debug)]
pub struct ScopeRecord {
    /// The scope, cut loose from the scope that enclosed it.
    pub scope: ScopedSymbolTable,
    /// The name of the scope that enclosed it.
    pub enclosing_name: String,
}

/// The mathematical model of a [`ScopeRecord`].
pub struct ScopeRecordView {
    pub scope: ScopeView,
    pub enclosing_name: Seq<char>,
}

impl View for ScopeRecord {
    type V = ScopeRecordView;

    open spec fn view(&self) -> ScopeRecordView {
        ScopeRecordView { scope: self.scope@, enclosing_name: self.enclosing_name@ }
    }
}

/// The mathematical model of the analyzer: the scope it is in, and the
/// scopes it has left, in the order in which it left them.
pub struct AnalyzerView {
    pub scope: ScopeView,
    pub left: Seq<ScopeRecordView>,
}

impl AnalyzerView {
    /// The analyzer before it has seen anything: in the level-0 root scope.
    pub open spec fn initial() -> AnalyzerView {
        AnalyzerView { scope: ScopeView::fresh("None"@, 0), left: Seq::empty() }
    }

    /// Entering a new scope inside the current one.
    pub open spec fn enter(self, name: Seq<char>, level: nat) -> AnalyzerView {
        AnalyzerView { scope: ScopeView::fresh(name, level).within(self.scope), ..self }
    }

    /// Leaving the current scope for the one that encloses it; the scope that
    /// was left is put on record.
    pub open spec fn leave(self) -> AnalyzerView {
        match self.scope.enclosing {
            Some(outer) => AnalyzerView {
                scope: *outer,
                left: self.left.push(
                    ScopeRecordView { scope: self.scope.detached(), enclosing_name: outer.name },
                ),
            },
            None => self,
        }
    }

    /// Recording a symbol in the current scope.
    pub open spec fn declare(self, symbol: SymbolView) -> AnalyzerView {
        AnalyzerView { scope: self.scope.insert(symbol), ..self }
    }
}

/// The scope after the parameters from the `i`-th on have been declared in
/// it as variables, in order.
pub open spec fn declare_params(scope: ScopeView, params: Seq<ParamView>, i: int) -> ScopeView
    decreases params.len() - i,
{
    if 0 <= i < params.len() {
        declare_params(
            scope.insert(SymbolView::Var { name: params[i].id, kind: params[i].ttype }),
            params,
            i + 1,
        )
    } else {
        scope
    }
}

/// The state in which the block of a procedure is analysed: the procedure is
/// recorded in the scope that declares it, and a scope of its own, one level
/// further in, holds its parameters as variables.
pub open spec fn procedure_entry(
    st: AnalyzerView,
    id: Seq<char>,
    params: Seq<ParamView>,
) -> AnalyzerView {
    let entered = st.declare(SymbolView::Procedure { name: id, params }).enter(
        id,
        st.scope.level + 1,
    );
    AnalyzerView { scope: declare_params(entered.scope, params, 0), ..entered }
}

/// Two scopes differ at most in the symbols they declare.
pub open spec fn same_frame(a: ScopeView, b: ScopeView) -> bool {
    a.name == b.name && a.level == b.level && a.enclosing == b.enclosing
}

/// Declaring parameters changes nothing of a scope but its symbols.
pub proof fn lemma_declare_params_frame(scope: ScopeView, params: Seq<ParamView>, i: int)
    ensures
        same_frame(scope, declare_params(scope, params, i)),
    decreases params.len() - i,
{
    if 0 <= i < params.len() {
        lemma_declare_params_frame(
            scope.insert(SymbolView::Var { name: params[i].id, kind: params[i].ttype }),
            params,
            i + 1,
        );
    }
}

/// The semantic rules. Analysing `node` in state `st` gives the state after
/// it, or the first error met when the tree is walked in source order:
/// a program and a procedure open a scope of their own, a variable
/// declaration must be new to the current scope, and a variable that is read
/// or assigned must resolve in the current scope or in one that encloses it.
pub open spec fn analyze(node: AstView, st: AnalyzerView) -> Result<AnalyzerView, ErrorView>
    decreases node,
{
    match node {
        AstView::Program { name, block } => match analyze(*block, st.enter("global"@, 1)) {
            Ok(inner) => Ok(inner.leave()),
            Err(e) => Err(e),
        },
        AstView::Block { declaration_nodes, compound_nodes } => match analyze_all(
            declaration_nodes,
            0,
            st,
        ) {
            Ok(declared) => analyze(*compound_nodes, declared),
            Err(e) => Err(e),
        },
        AstView::VarDecl { id, var_type, token } => if st.scope.symbols.contains_key(id) {
            Err(ErrorView::DUPLICATE_ID(token))
        } else {
            Ok(st.declare(SymbolView::Var { name: id, kind: var_type }))
        },
        AstView::ProcedureDecl { id, params, block_node } => match analyze(
            *block_node,
            procedure_entry(st, id, params),
        ) {
            Ok(inner) => Ok(inner.leave()),
            Err(e) => Err(e),
        },
        AstView::NumInteger { .. } => Ok(st),
        AstView::NumReal { .. } => Ok(st),
        AstView::BinOp { left, right, op } => match analyze(*left, st) {
            Ok(after) => analyze(*right, after),
            Err(e) => Err(e),
        },
        AstView::UnaryOp { op, expr } => analyze(*expr, st),
        AstView::Compound { children } => analyze_all(children, 0, st),
        AstView::Assign { left_id, left, right } => match analyze(*left, st) {
            Ok(after) => analyze(*right, after),
            Err(e) => Err(e),
        },
        AstView::Var { id, token } => if st.scope.lookup(id) is None {
            Err(ErrorView::ID_NOT_FOUND(token))
        } else {
            Ok(st)
        },
        AstView::NoOp => Ok(st),
    }
}

/// Analysing the nodes from the `i`-th on, one after the other.
pub open spec fn analyze_all(nodes: Seq<AstView>, i: int, st: AnalyzerView) -> Result<
    AnalyzerView,
    ErrorView,
>
    decreases nodes, nodes.len() - i,
{
    if 0 <= i < nodes.len() {
        match analyze(nodes[i], st) {
            Ok(after) => analyze_all(nodes, i + 1, after),
            Err(e) => Err(e),
        }
    } else {
        Ok(st)
    }
}

/// The analyzer as it stands when the analysis of a node fails: in the scope
/// in which the error was met, with what was declared before it.
pub open spec fn state_at_failure(node: AstView, st: AnalyzerView) -> AnalyzerView
    decreases node,
{
    match node {
        AstView::Program { name, block } => state_at_failure(*block, st.enter("global"@, 1)),
        AstView::Block { declaration_nodes, compound_nodes } => match analyze_all(
            declaration_nodes,
            0,
            st,
        ) {
            Ok(declared) => state_at_failure(*compound_nodes, declared),
            Err(_) => state_at_failure_all(declaration_nodes, 0, st),
        },
        AstView::ProcedureDecl { id, params, block_node } => state_at_failure(
            *block_node,
            procedure_entry(st, id, params),
        ),
        AstView::BinOp { left, right, op } => match analyze(*left, st) {
            Ok(after) => state_at_failure(*right, after),
            Err(_) => state_at_failure(*left, st),
        },
        AstView::UnaryOp { op, expr } => state_at_failure(*expr, st),
        AstView::Compound { children } => state_at_failure_all(children, 0, st),
        AstView::Assign { left_id, left, right } => match analyze(*left, st) {
            Ok(after) => state_at_failure(*right, after),
            Err(_) => state_at_failure(*left, st),
        },
        _ => st,
    }
}

/// The analyzer as it stands when the analysis of the nodes from the `i`-th
/// on fails.
pub open spec fn state_at_failure_all(
    nodes: Seq<AstView>,
    i: int,
    st: AnalyzerView,
) -> AnalyzerView
    decreases nodes, nodes.len() - i,
{
    if 0 <= i < nodes.len() {
        match analyze(nodes[i], st) {
            Ok(after) => state_at_failure_all(nodes, i + 1, after),
            Err(_) => state_at_failure(nodes[i], st),
        }
    } else {
        st
    }
}

/// How many scopes deep the analysis of a node goes.
pub open spec fn scope_depth(node: AstView) -> nat
    decreases node,
{
    match node {
        AstView::Program { name, block } => 1 + scope_depth(*block),
        AstView::Block { declaration_nodes, compound_nodes } => {
            let a = scope_depth_all(declaration_nodes, 0);
            let b = scope_depth(*compound_nodes);
            if a >= b {
                a
            } else {
                b
            }
        },
        AstView::ProcedureDecl { id, params, block_node } => 1 + scope_depth(*block_node),
        AstView::BinOp { left, right, op } => {
            let a = scope_depth(*left);
            let b = scope_depth(*right);
            if a >= b {
                a
            } else {
                b
            }
        },
        AstView::UnaryOp { op, expr } => scope_depth(*expr),
        AstView::Compound { children } => scope_depth_all(children, 0),
        AstView::Assign { left_id, left, right } => {
            let a = scope_depth(*left);
            let b = scope_depth(*right);
            if a >= b {
                a
            } else {
                b
            }
        },
        _ => 0,
    }
}

/// How many scopes deep the analysis of the nodes from the `i`-th on goes.
pub open spec fn scope_depth_all(nodes: Seq<AstView>, i: int) -> nat
    decreases nodes, nodes.len() - i,
{
    if 0 <= i < nodes.len() {
        let a = scope_depth(nodes[i]);
        let b = scope_depth_all(nodes, i + 1);
        if a >= b {
            a
        } else {
            b
        }
    } else {
        0
    }
}

/// Analysis leaves the analyzer in the scope in which it started, with the
/// names that the scope held and the same enclosing scopes; only symbols are
/// added to it.
pub proof fn lemma_analyze_frame(node: AstView, st: AnalyzerView)
    ensures
        analyze(node, st) matches Ok(after) ==> same_frame(st.scope, after.scope) && forall|
            k: Seq<char>,
        |
            st.scope.symbols.contains_key(k) ==> after.scope.symbols.contains_key(k),
    decreases node,
{
    match node {
        AstView::Program { name, block } => {
            lemma_analyze_frame(*block, st.enter("global"@, 1));
        },
        AstView::Block { declaration_nodes, compound_nodes } => {
            lemma_analyze_all_frame(declaration_nodes, 0, st);
            if let Ok(declared) = analyze_all(declaration_nodes, 0, st) {
                lemma_analyze_frame(*compound_nodes, declared);
            }
        },
        AstView::ProcedureDecl { id, params, block_node } => {
            let entered = st.declare(SymbolView::Procedure { name: id, params }).enter(
                id,
                st.scope.level + 1,
            );
            lemma_declare_params_frame(entered.scope, params, 0);
            lemma_analyze_frame(*block_node, procedure_entry(st, id, params));
        },
        AstView::BinOp { left, right, op } => {
            lemma_analyze_frame(*left, st);
            if let Ok(after) = analyze(*left, st) {
                lemma_analyze_frame(*right, after);
            }
        },
        AstView::UnaryOp { op, expr } => {
            lemma_analyze_frame(*expr, st);
        },
        AstView::Compound { children } => {
            lemma_analyze_all_frame(children, 0, st);
        },
        AstView::Assign { left_id, left, right } => {
            lemma_analyze_frame(*left, st);
            if let Ok(after) = analyze(*left, st) {
                lemma_analyze_frame(*right, after);
            }
        },
        _ => {},
    }
}

/// What [`lemma_analyze_frame`] says of one node holds of a list of nodes.
pub proof fn lemma_analyze_all_frame(nodes: Seq<AstView>, i: int, st: AnalyzerView)
    ensures
        analyze_all(nodes, i, st) matches Ok(after) ==> same_frame(st.scope, after.scope)
            && forall|k: Seq<char>|
            st.scope.symbols.contains_key(k) ==> after.scope.symbols.contains_key(k),
    decreases nodes, nodes.len() - i,
{
    if 0 <= i < nodes.len() {
        lemma_analyze_frame(nodes[i], st);
        if let Ok(after) = analyze(nodes[i], st) {
            lemma_analyze_all_frame(nodes, i + 1, after);
        }
    }
}

/// Entering a scope keeps the nesting levels increasing from the root to the
/// current scope: a procedure's scope lies one level below the scope that
/// declares it, and the global scope lies at level 1 below the level-0 root.
pub proof fn lemma_levels_increase(st: AnalyzerView, name: Seq<char>)
    requires
        st.scope.well_nested(),
    ensures
        st.enter(name, st.scope.level + 1).scope.well_nested(),
        st.scope.level == 0 ==> st.enter("global"@, 1).scope.well_nested(),
        AnalyzerView::initial().scope.well_nested(),
{
}

/// Declaring a name that the current scope already holds is an error,
/// whatever the types of the two declarations; and a declaration that
/// succeeds puts its name into the current scope.
pub proof fn lemma_redeclaration(
    st: AnalyzerView,
    id: Seq<char>,
    var_type: VarType,
    token: TokenView,
)
    ensures
        st.scope.symbols.contains_key(id) ==> analyze(
            AstView::VarDecl { id, var_type, token },
            st,
        ) == Err::<AnalyzerView, ErrorView>(ErrorView::DUPLICATE_ID(token)),
        analyze(AstView::VarDecl { id, var_type, token }, st) matches Ok(after)
            ==> after.scope.symbols.contains_key(id),
{
}

/// Two declarations of one name in the same list of declarations make the
/// analysis of the list fail, whatever their types and whatever stands
/// between them. If nothing before the second declaration is in error, the
/// error is that the name is a duplicate, and it carries the second
/// declaration's token.
pub proof fn lemma_duplicate_declaration(
    nodes: Seq<AstView>,
    i: int,
    j: int,
    from: int,
    st: AnalyzerView,
)
    requires
        0 <= from <= i < j < nodes.len(),
        nodes[i] is VarDecl,
        nodes[j] is VarDecl,
        nodes[i]->VarDecl_id == nodes[j]->VarDecl_id,
    ensures
        analyze_all(nodes, from, st) is Err,
        analyze_all(nodes.take(j), from, st) is Ok ==> analyze_all(nodes, from, st) == Err::<
            AnalyzerView,
            ErrorView,
        >(ErrorView::DUPLICATE_ID(nodes[j]->VarDecl_token)),
    decreases j - from,
{
    let id = nodes[i]->VarDecl_id;
    lemma_analyze_frame(nodes[from], st);
    assert(nodes.take(j)[from] == nodes[from]);
    if let Ok(after) = analyze(nodes[from], st) {
        if from < i {
            lemma_duplicate_declaration(nodes, i, j, from + 1, after);
        } else {
            assert(after.scope.symbols.contains_key(id));
            lemma_declared_stays(nodes, from + 1, j, after, id);
        }
    }
}

/// A name that the current scope holds makes a later declaration of it, in
/// the same list, an error.
pub proof fn lemma_declared_stays(
    nodes: Seq<AstView>,
    from: int,
    j: int,
    st: AnalyzerView,
    id: Seq<char>,
)
    requires
        0 <= from <= j < nodes.len(),
        nodes[j] is VarDecl,
        nodes[j]->VarDecl_id == id,
        st.scope.symbols.contains_key(id),
    ensures
        analyze_all(nodes, from, st) is Err,
        analyze_all(nodes.take(j), from, st) is Ok ==> analyze_all(nodes, from, st) == Err::<
            AnalyzerView,
            ErrorView,
        >(ErrorView::DUPLICATE_ID(nodes[j]->VarDecl_token)),
    decreases j - from,
{
    if from < j {
        lemma_analyze_frame(nodes[from], st);
        assert(nodes.take(j)[from] == nodes[from]);
        if let Ok(after) = analyze(nodes[from], st) {
            lemma_declared_stays(nodes, from + 1, j, after, id);
        }
    }
}

/// Declaring parameters keeps what the scope held and adds every parameter
/// from the `i`-th on.
pub proof fn lemma_declared_params(scope: ScopeView, params: Seq<ParamView>, i: int)
    requires
        0 <= i,
    ensures
        forall|key: Seq<char>|
            scope.symbols.contains_key(key) ==> declare_params(
                scope,
                params,
                i,
            ).symbols.contains_key(key),
        forall|k: int|
            i <= k < params.len() ==> declare_params(scope, params, i).symbols.contains_key(
                #[trigger] params[k].id,
            ),
    decreases params.len() - i,
{
    if i < params.len() {
        let next = scope.insert(SymbolView::Var { name: params[i].id, kind: params[i].ttype });
        lemma_declared_params(next, params, i + 1);
        let after = declare_params(scope, params, i);
        assert(next.symbols.contains_key(params[i].id));
        assert forall|key: Seq<char>| scope.symbols.contains_key(key) implies after.symbols.contains_key(
            key,
        ) by {
            assert(next.symbols.contains_key(key));
        }
        assert forall|k: int| i <= k < params.len() implies after.symbols.contains_key(
            #[trigger] params[k].id,
        ) by {
            if k == i {
                assert(next.symbols.contains_key(params[i].id));
            }
        }
    }
}

/// A local variable with the name of a parameter of the same procedure makes
/// the analysis of the procedure fail, whatever the two types. If nothing
/// before the variable's declaration is in error, the error is that the name
/// is a duplicate, and it carries the token of the variable's declaration.
pub proof fn lemma_parameter_redeclared(
    st: AnalyzerView,
    id: Seq<char>,
    params: Seq<ParamView>,
    declarations: Seq<AstView>,
    compound: AstView,
    k: int,
    j: int,
)
    requires
        0 <= k < params.len(),
        0 <= j < declarations.len(),
        declarations[j] is VarDecl,
        declarations[j]->VarDecl_id == params[k].id,
    ensures
        ({
            let node = AstView::ProcedureDecl {
                id,
                params,
                block_node: Box::new(
                    AstView::Block {
                        declaration_nodes: declarations,
                        compound_nodes: Box::new(compound),
                    },
                ),
            };
            &&& analyze(node, st) is Err
            &&& analyze_all(declarations.take(j), 0, procedure_entry(st, id, params)) is Ok
                ==> analyze(node, st) == Err::<AnalyzerView, ErrorView>(
                ErrorView::DUPLICATE_ID(declarations[j]->VarDecl_token),
            )
        }),
{
    let entered = st.declare(SymbolView::Procedure { name: id, params }).enter(
        id,
        st.scope.level + 1,
    );
    let entry = procedure_entry(st, id, params);
    let body = AstView::Block {
        declaration_nodes: declarations,
        compound_nodes: Box::new(compound),
    };
    let node = AstView::ProcedureDecl { id, params, block_node: Box::new(body) };
    lemma_declared_params(entered.scope, params, 0);
    assert(entry.scope.symbols.contains_key(params[k].id));
    lemma_declared_stays(declarations, 0, j, entry, params[k].id);
    lemma_inner_error_rises(body, entry);
    lemma_inner_error_rises(node, st);
}

/// Two declarations of one variable among the declarations of a program make
/// the analysis of the program fail, whatever the two types. If nothing
/// before the second declaration is in error, the error is that the name is a
/// duplicate, and it carries the second declaration's token.
pub proof fn lemma_duplicate_in_program(
    st: AnalyzerView,
    name: Seq<char>,
    declarations: Seq<AstView>,
    compound: AstView,
    i: int,
    j: int,
)
    requires
        0 <= i < j < declarations.len(),
        declarations[i] is VarDecl,
        declarations[j] is VarDecl,
        declarations[i]->VarDecl_id == declarations[j]->VarDecl_id,
    ensures
        ({
            let node = AstView::Program {
                name,
                block: Box::new(
                    AstView::Block {
                        declaration_nodes: declarations,
                        compound_nodes: Box::new(compound),
                    },
                ),
            };
            &&& analyze(node, st) is Err
            &&& analyze_all(declarations.take(j), 0, st.enter("global"@, 1)) is Ok ==> analyze(
                node,
                st,
            ) == Err::<AnalyzerView, ErrorView>(
                ErrorView::DUPLICATE_ID(declarations[j]->VarDecl_token),
            )
        }),
{
    let entry = st.enter("global"@, 1);
    let body = AstView::Block {
        declaration_nodes: declarations,
        compound_nodes: Box::new(compound),
    };
    lemma_duplicate_declaration(declarations, i, j, 0, entry);
    lemma_inner_error_rises(body, entry);
    lemma_inner_error_rises(AstView::Program { name, block: Box::new(body) }, st);
}

/// An error inside rises unchanged: the error of a program's or a
/// procedure's block is the error of the program or the procedure, and the
/// error of a block's declarations or, after them, of its statements is the
/// error of the block.
pub proof fn lemma_inner_error_rises(node: AstView, st: AnalyzerView)
    ensures
        node matches AstView::Program { name, block } ==> (analyze(node, st) is Err <==> analyze(
            *block,
            st.enter("global"@, 1),
        ) is Err) && (analyze(node, st) is Err ==> analyze(node, st)->Err_0 == analyze(
            *block,
            st.enter("global"@, 1),
        )->Err_0),
        node matches AstView::ProcedureDecl { id, params, block_node } ==> (analyze(node, st)
            is Err <==> analyze(*block_node, procedure_entry(st, id, params)) is Err) && (analyze(
            node,
            st,
        ) is Err ==> analyze(node, st)->Err_0 == analyze(
            *block_node,
            procedure_entry(st, id, params),
        )->Err_0),
        node matches AstView::Block { declaration_nodes, compound_nodes } ==> match analyze_all(
            declaration_nodes,
            0,
            st,
        ) {
            Ok(declared) => analyze(node, st) == analyze(*compound_nodes, declared),
            Err(e) => analyze(node, st) == Err::<AnalyzerView, ErrorView>(e),
        },
{
}

/// Reading or assigning a name that resolves neither in the current scope
/// nor in a scope that encloses it is an error, in any scope, and the error
/// carries the token of the name.
pub proof fn lemma_undeclared_name(
    st: AnalyzerView,
    id: Seq<char>,
    token: TokenView,
    left_id: Seq<char>,
    right: AstView,
)
    requires
        st.scope.lookup(id) is None,
    ensures
        analyze(AstView::Var { id, token }, st) == Err::<AnalyzerView, ErrorView>(
            ErrorView::ID_NOT_FOUND(token),
        ),
        analyze(
            AstView::Assign {
                left_id,
                left: Box::new(AstView::Var { id, token }),
                right: Box::new(right),
            },
            st,
        ) == Err::<AnalyzerView, ErrorView>(ErrorView::ID_NOT_FOUND(token)),
{
}

/// A node of an expression: a literal, a variable, or an operator on
/// expressions.
pub open spec fn expression(node: AstView) -> bool
    decreases node,
{
    match node {
        AstView::NumInteger { .. } => true,
        AstView::NumReal { .. } => true,
        AstView::Var { .. } => true,
        AstView::BinOp { left, right, op } => expression(*left) && expression(*right),
        AstView::UnaryOp { op, expr } => expression(*expr),
        _ => false,
    }
}

/// Every variable of an expression resolves in `scope`.
pub open spec fn names_resolve(node: AstView, scope: ScopeView) -> bool
    decreases node,
{
    match node {
        AstView::Var { id, token } => scope.lookup(id) is Some,
        AstView::BinOp { left, right, op } => names_resolve(*left, scope) && names_resolve(
            *right,
            scope,
        ),
        AstView::UnaryOp { op, expr } => names_resolve(*expr, scope),
        _ => true,
    }
}

/// An expression passes the analysis exactly when every variable in it
/// resolves; it then leaves the analyzer as it was. If a variable does not
/// resolve, wherever in the expression it stands, the error is that an
/// identifier was not found.
pub proof fn lemma_expression_analysis(node: AstView, st: AnalyzerView)
    requires
        expression(node),
    ensures
        analyze(node, st) is Ok <==> names_resolve(node, st.scope),
        analyze(node, st) is Ok ==> analyze(node, st) == Ok::<AnalyzerView, ErrorView>(st),
        analyze(node, st) is Err ==> analyze(node, st)->Err_0 is ID_NOT_FOUND,
    decreases node,
{
    match node {
        AstView::BinOp { left, right, op } => {
            lemma_expression_analysis(*left, st);
            lemma_expression_analysis(*right, st);
        },
        AstView::UnaryOp { op, expr } => {
            lemma_expression_analysis(*expr, st);
        },
        _ => {},
    }
}

/// An assignment passes the analysis exactly when its target resolves and
/// every variable of its right-hand side does; otherwise the error is that an
/// identifier was not found.
pub proof fn lemma_assignment_analysis(
    st: AnalyzerView,
    left_id: Seq<char>,
    id: Seq<char>,
    token: TokenView,
    right: AstView,
)
    requires
        expression(right),
    ensures
        ({
            let node = AstView::Assign {
                left_id,
                left: Box::new(AstView::Var { id, token }),
                right: Box::new(right),
            };
            &&& analyze(node, st) is Ok <==> st.scope.lookup(id) is Some && names_resolve(
                right,
                st.scope,
            )
            &&& analyze(node, st) is Err ==> analyze(node, st)->Err_0 is ID_NOT_FOUND
        }),
{
    lemma_expression_analysis(right, st);
    lemma_expression_analysis(AstView::Var { id, token }, st);
}

/// What a procedure declares inside itself, its parameters included, is not
/// visible outside: after the declaration the enclosing scope holds what it
/// held before and the procedure's own name, nothing else. Likewise a
/// program leaves the scope around it as it was.
pub proof fn lemma_inner_names_stay_inside(node: AstView, st: AnalyzerView)
    requires
        node is ProcedureDecl || node is Program,
    ensures
        analyze(node, st) matches Ok(after) ==> after.scope == if node is ProcedureDecl {
            st.scope.insert(
                SymbolView::Procedure {
                    name: node->ProcedureDecl_id,
                    params: node->ProcedureDecl_params,
                },
            )
        } else {
            st.scope
        },
{
    match node {
        AstView::Program { name, block } => {
            lemma_analyze_frame(*block, st.enter("global"@, 1));
        },
        AstView::ProcedureDecl { id, params, block_node } => {
            let entered = st.declare(SymbolView::Procedure { name: id, params }).enter(
                id,
                st.scope.level + 1,
            );
            lemma_declare_params_frame(entered.scope, params, 0);
            lemma_analyze_frame(*block_node, procedure_entry(st, id, params));
        },
        _ => {},
    }
}

/// Decides whether the analysis of the nodes of a list goes at most `limit`
/// scopes deep.
fn depths_within(node: &AST, nodes: &Vec<AST>, limit: usize) -> (r: bool)
    requires
        decreases_to!(node => nodes),
    ensures
        r == (scope_depth_all(asts_view(nodes@), 0) <= limit),
    decreases node, 0nat,
{
    let ghost views = asts_view(nodes@);
    let mut i: usize = 0;
    while i < nodes.len()
        invariant
            i <= nodes.len(),
            views == asts_view(nodes@),
            (scope_depth_all(views, i as int) <= limit) == (scope_depth_all(views, 0) <= limit),
            decreases_to!(node => nodes),
        decreases nodes.len() - i,
    {
        if !depth_within(&nodes[i], limit) {
            return false;
        }
        i += 1;
    }
    true
}

/// Decides whether the analysis of a node goes at most `limit` scopes deep.
pub fn depth_within(node: &AST, limit: usize) -> (r: bool)
    ensures
        r == (scope_depth(node@) <= limit),
    decreases node, 1nat,
{
    proof {
        lemma_children_view(*node);
    }
    match node {
        AST::Program { name: _, block } => limit >= 1 && depth_within(block, limit - 1),
        AST::Block { declaration_nodes, compound_nodes } => depths_within(
            node,
            declaration_nodes,
            limit,
        ) && depth_within(compound_nodes, limit),
        AST::ProcedureDecl { id: _, params: _, block_node } => limit >= 1 && depth_within(
            block_node,
            limit - 1,
        ),
        AST::BinOp { left, right, op: _ } => depth_within(left, limit) && depth_within(
            right,
            limit,
        ),
        AST::UnaryOp { op: _, expr } => depth_within(expr, limit),
        AST::Compound { children } => depths_within(node, children, limit),
        AST::Assign { left_id: _, left, right } => depth_within(left, limit) && depth_within(
            right,
            limit,
        ),
        _ => true,
    }
}

/// The semantic analyzer: it walks a tree once and keeps the scope it is in.
#[derive(Debug)]
pub struct SemanticAnalyzer {
    current_scope: ScopedSymbolTable,
    left_scopes: Vec<ScopeRecord>,
}

/// The models of a list of scope records.
pub open spec fn records_view(records: Seq<ScopeRecord>) -> Seq<ScopeRecordView> {
    Seq::new(records.len(), |i: int| records[i]@)
}

impl View for SemanticAnalyzer {
    type V = AnalyzerView;

    closed spec fn view(&self) -> AnalyzerView {
        AnalyzerView { scope: self.current_scope@, left: records_view(self.left_scopes@) }
    }
}

impl SemanticAnalyzer {
    /// The analyzer's invariant: that of its scopes.
    pub closed spec fn wf(&self) -> bool {
        self.current_scope.wf()
    }

    /// An analyzer in the level-0 root scope.
    pub fn new() -> (r: SemanticAnalyzer)
        ensures
            r.wf(),
            r@ == AnalyzerView::initial(),
    {
        let r = SemanticAnalyzer {
            current_scope: ScopedSymbolTable::new(String::from_str("None"), 0),
            left_scopes: Vec::new(),
        };
        proof {
            assert(r@.left =~= Seq::empty());
        }
        r
    }

    /// The scope that the analyzer is in.
    pub fn current_scope(&self) -> (r: &ScopedSymbolTable)
        ensures
            r@ == self@.scope,
            self.wf() ==> r.wf(),
    {
        &self.current_scope
    }

    /// The scopes that the analysis has left, in the order in which it left
    /// them.
    pub fn into_scopes(self) -> (r: Vec<ScopeRecord>)
        ensures
            records_view(r@) == self@.left,
    {
        self.left_scopes
    }

    /// The number of scopes that the analysis has left.
    pub fn scope_count(&self) -> (n: usize)
        ensures
            n == self@.left.len(),
    {
        self.left_scopes.len()
    }

    /// The `i`-th scope that the analysis has left.
    pub fn scope_at(&self, i: usize) -> (r: &ScopeRecord)
        requires
            i < self@.left.len(),
        ensures
            r@ == self@.left[i as int],
    {
        &self.left_scopes[i]
    }

    fn enter(&mut self, name: String, level: usize)
        requires
            old(self).wf(),
        ensures
            final(self).wf(),
            final(self)@ == old(self)@.enter(name@, level as nat),
    {
        let mut fresh = ScopedSymbolTable::new(name, level);
        core::mem::swap(&mut self.current_scope, &mut fresh);
        self.current_scope.set_enclosing_scope(fresh);
        proof {
            assert(final(self)@.left =~= old(self)@.left);
        }
    }

    fn leave(&mut self)
        requires
            old(self).wf(),
            old(self)@.scope.enclosing is Some,
        ensures
            final(self).wf(),
            final(self)@ == old(self)@.leave(),
    {
        let mut outer = self.current_scope.enclosing_scope();
        core::mem::swap(&mut self.current_scope, &mut outer);
        let enclosing_name = self.current_scope.scope_name().clone();
        self.left_scopes.push(ScopeRecord { scope: outer, enclosing_name });
        proof {
            assert(final(self)@.left =~= old(self)@.leave().left);
        }
    }

    fn declare_all(&mut self, params: &Vec<Param>)
        requires
            old(self).wf(),
        ensures
            final(self).wf(),
            final(self)@ == (AnalyzerView {
                scope: declare_params(old(self)@.scope, params_view(params@), 0),
                ..old(self)@
            }),
    {
        let mut i: usize = 0;
        while i < params.len()
            invariant
                i <= params.len(),
                self.wf(),
                self@.left == old(self)@.left,
                declare_params(self@.scope, params_view(params@), i as int) == declare_params(
                    old(self)@.scope,
                    params_view(params@),
                    0,
                ),
            decreases params.len() - i,
        {
            let ghost before = self@;
            self.current_scope.insert(
                Symbol::Var { name: params[i].id.clone(), kind: params[i].ttype },
            );
            proof {
                assert(self@.left =~= before.left);
            }
            i += 1;
        }
    }

    fn visit_all(&mut self, node: &AST, nodes: &Vec<AST>) -> (r: Result<(), Error>)
        requires
            old(self).wf(),
            old(self)@.scope.level + scope_depth_all(asts_view(nodes@), 0) <= usize::MAX,
            decreases_to!(node => nodes),
        ensures
            final(self).wf(),
            match analyze_all(asts_view(nodes@), 0, old(self)@) {
                Ok(st) => r is Ok && final(self)@ == st,
                Err(e) => r is Err && r->Err_0@ == e && final(self)@ == state_at_failure_all(
                    asts_view(nodes@),
                    0,
                    old(self)@,
                ),
            },
            r is Ok ==> same_frame(old(self)@.scope, final(self)@.scope),
        decreases node, 0nat, nodes.len(),
    {
        let ghost views = asts_view(nodes@);
        let mut i: usize = 0;
        while i < nodes.len()
            invariant
                i <= nodes.len(),
                views == asts_view(nodes@),
                self.wf(),
                same_frame(old(self)@.scope, self@.scope),
                old(self)@.scope.level + scope_depth_all(views, i as int) <= usize::MAX,
                analyze_all(views, i as int, self@) == analyze_all(views, 0, old(self)@),
                state_at_failure_all(views, i as int, self@) == state_at_failure_all(
                    views,
                    0,
                    old(self)@,
                ),
                decreases_to!(node => nodes),
            decreases nodes.len() - i,
        {
            match self.visit_node(&nodes[i]) {
                Err(e) => {
                    return Err(e);
                },
                Ok(()) => {},
            }
            i += 1;
        }
        Ok(())
    }

    /// Analyses `node` and what lies below it, in source order, and stops at
    /// the first error. After an error the analyzer stands in the scope in
    /// which it met the error.
    pub fn visit_node(&mut self, node: &AST) -> (r: Result<(), Error>)
        requires
            old(self).wf(),
            old(self)@.scope.level + scope_depth(node@) <= usize::MAX,
        ensures
            final(self).wf(),
            match analyze(node@, old(self)@) {
                Ok(st) => r is Ok && final(self)@ == st,
                Err(e) => r is Err && r->Err_0@ == e && final(self)@ == state_at_failure(
                    node@,
                    old(self)@,
                ),
            },
            r is Ok ==> same_frame(old(self)@.scope, final(self)@.scope),
        decreases node, 1nat, 0nat,
    {
        proof {
            lemma_children_view(*node);
        }
        match node {
            AST::Program { name: _, block } => {
                self.enter(String::from_str("global"), 1);
                match self.visit_node(block) {
                    Err(e) => {
                        return Err(e);
                    },
                    Ok(()) => {},
                }
                self.leave();
                Ok(())
            },
            AST::Block { declaration_nodes, compound_nodes } => {
                match self.visit_all(node, declaration_nodes) {
                    Err(e) => {
                        return Err(e);
                    },
                    Ok(()) => {},
                }
                self.visit_node(compound_nodes)
            },
            AST::VarDecl { id, var_type, token } => {
                if self.current_scope.lookup_current_only(id.as_str()).is_some() {
                    return Err(Error::DUPLICATE_ID(token.clone()));
                }
                let ghost before = self@;
                self.current_scope.insert(Symbol::Var { name: id.clone(), kind: *var_type });
                proof {
                    assert(self@.left =~= before.left);
                }
                Ok(())
            },
            AST::ProcedureDecl { id, params, block_node } => {
                let ghost before = self@;
                self.current_scope.insert(
                    Symbol::Procedure { name: id.clone(), params: crate::ast::duplicate_params(params) },
                );
                proof {
                    assert(self@.left =~= before.left);
                }
                let level = self.current_scope.scope_level();
                self.enter(id.clone(), level + 1);
                proof {
                    lemma_declare_params_frame(self@.scope, params_view(params@), 0);
                }
                self.declare_all(params);
                match self.visit_node(block_node) {
                    Err(e) => {
                        return Err(e);
                    },
                    Ok(()) => {},
                }
                self.leave();
                Ok(())
            },
            AST::NumInteger { .. } => Ok(()),
            AST::NumReal { .. } => Ok(()),
            AST::BinOp { left, right, op: _ } => {
                match self.visit_node(left) {
                    Err(e) => {
                        return Err(e);
                    },
                    Ok(()) => {},
                }
                self.visit_node(right)
            },
            AST::UnaryOp { op: _, expr } => self.visit_node(expr),
            AST::Compound { children } => self.visit_all(node, children),
            AST::Assign { left_id: _, left, right } => {
                match self.visit_node(left) {
                    Err(e) => {
                        return Err(e);
                    },
                    Ok(()) => {},
                }
                self.visit_node(right)
            },
            AST::Var { id, token } => {
                if self.current_scope.lookup(id.as_str()).is_none() {
                    return Err(Error::ID_NOT_FOUND(token.clone()));
                }
                Ok(())
            },
            AST::NoOp => Ok(()),
        }
    }
}

} // verus!
