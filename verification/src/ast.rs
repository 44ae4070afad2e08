//! The abstract syntax tree and its mathematical model.
use crate::reals::Real;
use crate::token::{Kind, KindView, Token, TokenView};
use crate::var_type::VarType;
use vstd::prelude::*;

verus! {

/// A formal parameter of a procedure.
#[derive(Debug)]
pub struct Param {
    pub id: String,
    pub ttype: VarType,
}

/// The mathematical model of a [`Param`].
pub struct ParamView {
    pub id: Seq<char>,
    pub ttype: VarType,
}

impl View for Param {
    type V = ParamView;

    open spec fn view(&self) -> ParamView {
        ParamView { id: self.id@, ttype: self.ttype }
    }
}

impl Clone for Param {
    fn clone(&self) -> (r: Param)
        ensures
            r == *self,
    {
        Param { id: self.id.clone(), ttype: self.ttype }
    }
}

/// The models of a sequence of parameters.
pub open spec fn params_view(ps: Seq<Param>) -> Seq<ParamView> {
    Seq::new(ps.len(), |i: int| ps[i]@)
}

/// A node of the abstract syntax tree.
#[allow(inconsistent_fields)]
#[derive(Debug)]
pub enum AST {
    Program { name: String, block: Box<AST> },
    Block { declaration_nodes: Vec<AST>, compound_nodes: Box<AST> },
    VarDecl { id: String, var_type: VarType, token: Token },
    ProcedureDecl { id: String, params: Vec<Param>, block_node: Box<AST> },
    NumInteger { value: i32 },
    NumReal { value: Real },
    BinOp { left: Box<AST>, right: Box<AST>, op: Kind },
    UnaryOp { op: Kind, expr: Box<AST> },
    Compound { children: Vec<AST> },
    Assign { left_id: String, left: Box<AST>, right: Box<AST> },
    Var { id: String, token: Token },
    NoOp,
}

/// The mathematical model of an [`AST`]: names are character sequences and
/// lists of nodes are sequences.
#[allow(inconsistent_fields)]
pub enum AstView {
    Program { name: Seq<char>, block: Box<AstView> },
    Block { declaration_nodes: Seq<AstView>, compound_nodes: Box<AstView> },
    VarDecl { id: Seq<char>, var_type: VarType, token: TokenView },
    ProcedureDecl { id: Seq<char>, params: Seq<ParamView>, block_node: Box<AstView> },
    NumInteger { value: i32 },
    NumReal { value: Real },
    BinOp { left: Box<AstView>, right: Box<AstView>, op: KindView },
    UnaryOp { op: KindView, expr: Box<AstView> },
    Compound { children: Seq<AstView> },
    Assign { left_id: Seq<char>, left: Box<AstView>, right: Box<AstView> },
    Var { id: Seq<char>, token: TokenView },
    NoOp,
}

/// The model of a node.
pub open spec fn ast_view(node: AST) -> AstView
    decreases node,
{
    match node {
        AST::Program { name, block } => AstView::Program {
            name: name@,
            block: Box::new(ast_view(*block)),
        },
        AST::Block { declaration_nodes, compound_nodes } => AstView::Block {
            declaration_nodes: Seq::new(
                declaration_nodes@.len(),
                |i: int|
                    if 0 <= i < declaration_nodes@.len() {
                        ast_view(declaration_nodes@[i])
                    } else {
                        AstView::NoOp
                    },
            ),
            compound_nodes: Box::new(ast_view(*compound_nodes)),
        },
        AST::VarDecl { id, var_type, token } => AstView::VarDecl {
            id: id@,
            var_type,
            token: token@,
        },
        AST::ProcedureDecl { id, params, block_node } => AstView::ProcedureDecl {
            id: id@,
            params: params_view(params@),
            block_node: Box::new(ast_view(*block_node)),
        },
        AST::NumInteger { value } => AstView::NumInteger { value },
        AST::NumReal { value } => AstView::NumReal { value },
        AST::BinOp { left, right, op } => AstView::BinOp {
            left: Box::new(ast_view(*left)),
            right: Box::new(ast_view(*right)),
            op: op@,
        },
        AST::UnaryOp { op, expr } => AstView::UnaryOp { op: op@, expr: Box::new(ast_view(*expr)) },
        AST::Compound { children } => AstView::Compound {
            children: Seq::new(
                children@.len(),
                |i: int|
                    if 0 <= i < children@.len() {
                        ast_view(children@[i])
                    } else {
                        AstView::NoOp
                    },
            ),
        },
        AST::Assign { left_id, left, right } => AstView::Assign {
            left_id: left_id@,
            left: Box::new(ast_view(*left)),
            right: Box::new(ast_view(*right)),
        },
        AST::Var { id, token } => AstView::Var { id: id@, token: token@ },
        AST::NoOp => AstView::NoOp,
    }
}

/// The models of a sequence of nodes.
pub open spec fn asts_view(nodes: Seq<AST>) -> Seq<AstView> {
    Seq::new(nodes.len(), |i: int| ast_view(nodes[i]))
}

impl View for AST {
    type V = AstView;

    open spec fn view(&self) -> AstView {
        ast_view(*self)
    }
}

/// The model of a node lists its children's models in order.
pub proof fn lemma_children_view(node: AST)
    ensures
        node matches AST::Compound { children } ==> node@ == (AstView::Compound {
            children: asts_view(children@),
        }),
        node matches AST::Block { declaration_nodes, compound_nodes } ==> node@ == (AstView::Block {
            declaration_nodes: asts_view(declaration_nodes@),
            compound_nodes: Box::new(compound_nodes@),
        }),
{
    match node {
        AST::Compound { children } => {
            assert(node@->Compound_children =~= asts_view(children@));
        },
        AST::Block { declaration_nodes, compound_nodes } => {
            assert(node@->Block_declaration_nodes =~= asts_view(declaration_nodes@));
        },
        _ => {},
    }
}

/// A copy of a list of nodes.
fn duplicate_all(node: &AST, nodes: &Vec<AST>) -> (r: Vec<AST>)
    requires
        decreases_to!(node => nodes),
    ensures
        asts_view(r@) == asts_view(nodes@),
    decreases node, 0nat,
{
    let mut r: Vec<AST> = Vec::new();
    let mut i: usize = 0;
    while i < nodes.len()
        invariant
            i <= nodes.len(),
            r@.len() == i,
            forall|j: int| 0 <= j < i ==> (#[trigger] r@[j])@ == nodes@[j]@,
            decreases_to!(node => nodes),
        decreases nodes.len() - i,
    {
        r.push(nodes[i].duplicate());
        i += 1;
    }
    proof {
        assert(asts_view(r@) =~= asts_view(nodes@));
    }
    r
}

impl AST {
    /// A copy of the tree.
    pub fn duplicate(&self) -> (r: AST)
        ensures
            r@ == self@,
        decreases self, 1nat,
    {
        proof {
            lemma_children_view(*self);
        }
        let r = match self {
            AST::Program { name, block } => AST::Program {
                name: name.clone(),
                block: Box::new(block.duplicate()),
            },
            AST::Block { declaration_nodes, compound_nodes } => AST::Block {
                declaration_nodes: duplicate_all(self, declaration_nodes),
                compound_nodes: Box::new(compound_nodes.duplicate()),
            },
            AST::VarDecl { id, var_type, token } => AST::VarDecl {
                id: id.clone(),
                var_type: *var_type,
                token: token.clone(),
            },
            AST::ProcedureDecl { id, params, block_node } => AST::ProcedureDecl {
                id: id.clone(),
                params: crate::ast::duplicate_params(params),
                block_node: Box::new(block_node.duplicate()),
            },
            AST::NumInteger { value } => AST::NumInteger { value: *value },
            AST::NumReal { value } => AST::NumReal { value: *value },
            AST::BinOp { left, right, op } => AST::BinOp {
                left: Box::new(left.duplicate()),
                right: Box::new(right.duplicate()),
                op: op.clone(),
            },
            AST::UnaryOp { op, expr } => AST::UnaryOp {
                op: op.clone(),
                expr: Box::new(expr.duplicate()),
            },
            AST::Compound { children } => AST::Compound { children: duplicate_all(self, children) },
            AST::Assign { left_id, left, right } => AST::Assign {
                left_id: left_id.clone(),
                left: Box::new(left.duplicate()),
                right: Box::new(right.duplicate()),
            },
            AST::Var { id, token } => AST::Var { id: id.clone(), token: token.clone() },
            AST::NoOp => AST::NoOp,
        };
        proof {
            lemma_children_view(r);
        }
        r
    }
}

impl Clone for AST {
    fn clone(&self) -> (r: AST)
        ensures
            r@ == self@,
    {
        self.duplicate()
    }
}

/// A copy of a parameter list.
pub fn duplicate_params(params: &Vec<Param>) -> (r: Vec<Param>)
    ensures
        r@ == params@,
{
    let mut r: Vec<Param> = Vec::new();
    let mut i: usize = 0;
    while i < params.len()
        invariant
            i <= params.len(),
            r@ == params@.take(i as int),
        decreases params.len() - i,
    {
        r.push(params[i].clone());
        proof {
            assert(params@.take(i + 1) =~= params@.take(i as int).push(params@[i as int]));
        }
        i += 1;
    }
    proof {
        assert(params@.take(params@.len() as int) =~= params@);
    }
    r
}

} // verus!
