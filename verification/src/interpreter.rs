//! The interpreter: the meaning of a tree, and the walk that computes it.
use crate::ast::{asts_view, lemma_children_view, AstView, AST};
use crate::errors::{Error, ErrorView};
use crate::names::{entries_view, listing_map, sorted_by_name, NameTable};
use crate::reals::Real;
use crate::token::{Kind, KindView, Tag};
use vstd::prelude::*;

verus! {

/// A value at run time.
#[derive(Debug, Clone, Copy, PartialEq, Eq, Structural)]
pub enum Value {
    Integer(i32),
    Real(Real),
}

/// The run-time memory: one flat map from variable names to values.
pub type Memory = Map<Seq<char>, Value>;

impl Value {
    /// The value as a real: an integer becomes the real nearest to it.
    pub open spec fn spec_as_real(self) -> Real {
        match self {
            Value::Integer(i) => Real::spec_from_int(i as int),
            Value::Real(r) => r,
        }
    }

    /// The value with its sign turned. The least integer, which has no
    /// opposite, stays as it is.
    pub open spec fn spec_negate(self) -> Value {
        match self {
            Value::Integer(i) => Value::Integer(
                if i == i32::MIN {
                    i32::MIN
                } else {
                    (-i) as i32
                },
            ),
            Value::Real(r) => Value::Real(r.spec_neg()),
        }
    }

    /// The value as a real.
    pub fn as_real(self) -> (r: Real)
        ensures
            r == self.spec_as_real(),
    {
        match self {
            Value::Integer(i) => Real::from_i32(i),
            Value::Real(r) => r,
        }
    }

    /// The value with its sign turned.
    pub fn negate(self) -> (r: Value)
        ensures
            r == self.spec_negate(),
    {
        match self {
            Value::Integer(i) => Value::Integer(
                if i == i32::MIN {
                    i32::MIN
                } else {
                    -i
                },
            ),
            Value::Real(r) => Value::Real(r.neg()),
        }
    }
}

/// The kinds of token that stand for a binary operator.
pub open spec fn is_binary_operator(op: KindView) -> bool {
    op is PLUS || op is MINUS || op is MUL || op is INTEGER_DIV || op is FLOAT_DIV
}

/// The result of a binary operator. Both operands are taken as reals and the
/// operation is carried out on reals, both divisions as the division of
/// reals. The result is real if an operand is real or the operator is `/`;
/// otherwise it is cut off towards zero to an integer.
pub open spec fn apply(op: KindView, a: Value, b: Value) -> Value {
    let x = a.spec_as_real();
    let y = b.spec_as_real();
    let raw = match op {
        KindView::PLUS => x.spec_add(y),
        KindView::MINUS => x.spec_sub(y),
        KindView::MUL => x.spec_mul(y),
        _ => x.spec_div(y),
    };
    if op is FLOAT_DIV || a is Real || b is Real {
        Value::Real(raw)
    } else {
        Value::Integer(raw.spec_truncate() as i32)
    }
}

/// The promotion law: `+`, `-`, `*` and `DIV` on two integers give an
/// integer; an operator with a real operand, and `/` on any operands, give a
/// real.
pub proof fn lemma_promotion(op: KindView, a: Value, b: Value)
    requires
        is_binary_operator(op),
    ensures
        a is Integer && b is Integer && !(op is FLOAT_DIV) ==> apply(op, a, b) is Integer,
        a is Real || b is Real || op is FLOAT_DIV ==> apply(op, a, b) is Real,
{
}

/// What `+`, `-` and `*` give on integers when nothing is rounded.
pub open spec fn exact(op: KindView, a: int, b: int) -> int {
    match op {
        KindView::PLUS => a + b,
        KindView::MINUS => a - b,
        _ => a * b,
    }
}

/// Below `2^24` in size integer arithmetic is exact: on two integers `+`,
/// `-` and `*` give the integer sum, difference and product, as long as the
/// operands and the result stay below that size.
pub proof fn lemma_small_integers(op: KindView, a: i32, b: i32)
    requires
        op is PLUS || op is MINUS || op is MUL,
        -0x100_0000 < a < 0x100_0000,
        -0x100_0000 < b < 0x100_0000,
        -0x100_0000 < exact(op, a as int, b as int) < 0x100_0000,
    ensures
        apply(op, Value::Integer(a), Value::Integer(b)) == Value::Integer(
            exact(op, a as int, b as int) as i32,
        ),
{
    let x = Value::Integer(a).spec_as_real();
    let y = Value::Integer(b).spec_as_real();
    crate::reals::lemma_integer_is_real(a < 0, (if a < 0 { -a } else { a as int }) as nat);
    crate::reals::lemma_integer_is_real(b < 0, (if b < 0 { -b } else { b as int }) as nat);
    assert(x.is_integer(a as int));
    assert(y.is_integer(b as int));
    let v = exact(op, a as int, b as int);
    if op is PLUS {
        crate::reals::lemma_integers_add(x, y, a as int, b as int);
        crate::reals::lemma_integer_truncates(x.spec_add(y), v);
    } else if op is MINUS {
        crate::reals::lemma_integer_negated(y, b as int);
        crate::reals::lemma_integers_add(x, y.spec_neg(), a as int, -(b as int));
        crate::reals::lemma_integer_truncates(x.spec_sub(y), v);
    } else {
        crate::reals::lemma_integers_multiply(x, y, a as int, b as int);
        crate::reals::lemma_integer_truncates(x.spec_mul(y), v);
    }
}

/// The integer quotient of two integers, cut off towards zero.
pub open spec fn quotient(a: int, b: int) -> int {
    let q = (if a < 0 {
        -a
    } else {
        a
    }) / (if b < 0 {
        -b
    } else {
        b
    });
    if (a < 0) != (b < 0) {
        -q
    } else {
        q
    }
}

/// Below `2^24` in size integer division is exact: `DIV` on two integers
/// gives their integer quotient, cut off towards zero, as long as both are
/// below that size and the divisor is not zero.
pub proof fn lemma_small_division(a: i32, b: i32)
    requires
        -0x100_0000 < a < 0x100_0000,
        -0x100_0000 < b < 0x100_0000,
        b != 0,
    ensures
        apply(KindView::INTEGER_DIV, Value::Integer(a), Value::Integer(b)) == Value::Integer(
            quotient(a as int, b as int) as i32,
        ),
{
    let x = Value::Integer(a).spec_as_real();
    let y = Value::Integer(b).spec_as_real();
    let ua = (if a < 0 { -a } else { a as int }) as nat;
    let ub = (if b < 0 { -b } else { b as int }) as nat;
    crate::reals::lemma_integer_is_real(a < 0, ua);
    crate::reals::lemma_integer_is_real(b < 0, ub);
    crate::reals::lemma_absolute(x, a as int);
    crate::reals::lemma_absolute(y, b as int);
    vstd::arithmetic::power2::lemma2_to64();
    let px = (-x.exponent()) as nat;
    let py = (-y.exponent()) as nat;
    vstd::arithmetic::power2::lemma_pow2_pos(px);
    vstd::arithmetic::power2::lemma_pow2_pos(py);
    assert(x.significand() == ua * vstd::arithmetic::power2::pow2(px)) by (nonlinear_arith)
        requires
            px == 0 ==> x.significand() * 1 == ua,
            px > 0 ==> x.significand() == ua * vstd::arithmetic::power2::pow2(px),
            px == 0 ==> vstd::arithmetic::power2::pow2(px) == 1,
    ;
    assert(y.significand() == ub * vstd::arithmetic::power2::pow2(py)) by (nonlinear_arith)
        requires
            py == 0 ==> y.significand() * 1 == ub,
            py > 0 ==> y.significand() == ub * vstd::arithmetic::power2::pow2(py),
            py == 0 ==> vstd::arithmetic::power2::pow2(py) == 1,
    ;
    assert(y.significand() > 0) by (nonlinear_arith)
        requires
            y.significand() == ub * vstd::arithmetic::power2::pow2(py),
            ub > 0,
            vstd::arithmetic::power2::pow2(py) > 0,
    ;
    assert(!y.zero());
    crate::quotients::lemma_same_quotient(ua, ub, px, py, -149);
    let neg = x.negative() != y.negative();
    crate::quotients::lemma_quotient_truncates(ua, ub, neg);
    assert(x.exponent() - y.exponent() == py - px);
    if ua == 0 {
        assert(ua / ub == 0);
    }
}

/// Applies a binary operator.
pub fn arithmetic(op: &Kind, a: Value, b: Value) -> (r: Value)
    requires
        is_binary_operator(op@),
    ensures
        r == apply(op@, a, b),
{
    let x = a.as_real();
    let y = b.as_real();
    let raw = match op {
        Kind::PLUS => x.add(y),
        Kind::MINUS => x.sub(y),
        Kind::MUL => x.mul(y),
        _ => x.div(y),
    };
    let promoted = match op {
        Kind::FLOAT_DIV => true,
        _ => match a {
            Value::Real(_) => true,
            _ => match b {
                Value::Real(_) => true,
                _ => false,
            },
        },
    };
    if promoted {
        Value::Real(raw)
    } else {
        Value::Integer(raw.truncate())
    }
}

/// Whether a node, when its evaluation succeeds, hands back a value.
pub open spec fn yields(node: AstView) -> bool
    decreases node,
{
    match node {
        AstView::NumInteger { .. } => true,
        AstView::NumReal { .. } => true,
        AstView::Var { .. } => true,
        AstView::BinOp { .. } => true,
        AstView::UnaryOp { op, expr } => op is MINUS || yields(*expr),
        _ => false,
    }
}

/// Whether the interpreter can walk a tree: every operator is one it knows
/// and every operand is a node that hands back a value.
pub open spec fn evaluable(node: AstView) -> bool
    decreases node,
{
    match node {
        AstView::Program { name, block } => evaluable(*block),
        AstView::Block { declaration_nodes, compound_nodes } => evaluable_all(
            declaration_nodes,
            0,
        ) && evaluable(*compound_nodes),
        AstView::BinOp { left, right, op } => is_binary_operator(op) && evaluable(*left) && yields(
            *left,
        ) && evaluable(*right) && yields(*right),
        AstView::UnaryOp { op, expr } => (op is PLUS || (op is MINUS && yields(*expr)))
            && evaluable(*expr),
        AstView::Compound { children } => evaluable_all(children, 0),
        AstView::Assign { left_id, left, right } => evaluable(*right) && yields(*right),
        _ => true,
    }
}

/// Whether the interpreter can walk the nodes from the `i`-th on.
pub open spec fn evaluable_all(nodes: Seq<AstView>, i: int) -> bool
    decreases nodes, nodes.len() - i,
{
    if 0 <= i < nodes.len() {
        evaluable(nodes[i]) && evaluable_all(nodes, i + 1)
    } else {
        true
    }
}

/// Decides whether a node hands back a value.
pub fn hands_back_value(node: &AST) -> (r: bool)
    ensures
        r == yields(node@),
    decreases node,
{
    match node {
        AST::NumInteger { .. } => true,
        AST::NumReal { .. } => true,
        AST::Var { .. } => true,
        AST::BinOp { .. } => true,
        AST::UnaryOp { op, expr } => op.tag() == Tag::MINUS || hands_back_value(expr),
        _ => false,
    }
}

/// Decides whether the interpreter can walk the nodes of a list.
fn can_evaluate_all(node: &AST, nodes: &Vec<AST>) -> (r: bool)
    requires
        decreases_to!(node => nodes),
    ensures
        r == evaluable_all(asts_view(nodes@), 0),
    decreases node, 0nat,
{
    let ghost views = asts_view(nodes@);
    let mut i: usize = 0;
    while i < nodes.len()
        invariant
            i <= nodes.len(),
            views == asts_view(nodes@),
            evaluable_all(views, i as int) == evaluable_all(views, 0),
            decreases_to!(node => nodes),
        decreases nodes.len() - i,
    {
        if !can_evaluate(&nodes[i]) {
            return false;
        }
        i += 1;
    }
    true
}

/// Decides whether the interpreter can walk a tree.
pub fn can_evaluate(node: &AST) -> (r: bool)
    ensures
        r == evaluable(node@),
    decreases node, 1nat,
{
    proof {
        lemma_children_view(*node);
    }
    match node {
        AST::Program { name: _, block } => can_evaluate(block),
        AST::Block { declaration_nodes, compound_nodes } => can_evaluate_all(
            node,
            declaration_nodes,
        ) && can_evaluate(compound_nodes),
        AST::BinOp { left, right, op } => {
            let t = op.tag();
            (t == Tag::PLUS || t == Tag::MINUS || t == Tag::MUL || t == Tag::INTEGER_DIV || t
                == Tag::FLOAT_DIV) && can_evaluate(left) && hands_back_value(left)
                && can_evaluate(right) && hands_back_value(right)
        },
        AST::UnaryOp { op, expr } => {
            let t = op.tag();
            (t == Tag::PLUS || (t == Tag::MINUS && hands_back_value(expr))) && can_evaluate(expr)
        },
        AST::Compound { children } => can_evaluate_all(node, children),
        AST::Assign { left_id: _, left: _, right } => can_evaluate(right) && hands_back_value(
            right,
        ),
        _ => true,
    }
}

/// What the evaluation of a node gives: the value it hands back, if any, and
/// the memory after it.
pub struct Outcome {
    pub value: Option<Value>,
    pub memory: Memory,
}

/// The meaning of a tree. Evaluating `node` in `memory` gives its outcome, or
/// the first error met: literals are their values, operators apply to the
/// values of their operands, the left one first, an assignment binds the
/// target's name to the value of its right-hand side, a variable is what the
/// memory holds under its name, and declarations do nothing.
pub open spec fn eval(node: AstView, memory: Memory) -> Result<Outcome, ErrorView>
    decreases node,
{
    match node {
        AstView::Program { name, block } => eval(*block, memory),
        AstView::Block { declaration_nodes, compound_nodes } => match run_all(
            declaration_nodes,
            0,
            memory,
        ) {
            Ok(m) => eval(*compound_nodes, m),
            Err(e) => Err(e),
        },
        AstView::NumInteger { value } => Ok(
            Outcome { value: Some(Value::Integer(value)), memory },
        ),
        AstView::NumReal { value } => Ok(Outcome { value: Some(Value::Real(value)), memory }),
        AstView::BinOp { left, right, op } => match eval(*left, memory) {
            Ok(a) => match eval(*right, a.memory) {
                Ok(b) => Ok(
                    Outcome { value: Some(apply(op, a.value->0, b.value->0)), memory: b.memory },
                ),
                Err(e) => Err(e),
            },
            Err(e) => Err(e),
        },
        AstView::UnaryOp { op, expr } => match eval(*expr, memory) {
            Ok(a) => if op is MINUS {
                Ok(Outcome { value: Some(a.value->0.spec_negate()), memory: a.memory })
            } else {
                Ok(a)
            },
            Err(e) => Err(e),
        },
        AstView::Compound { children } => match run_all(children, 0, memory) {
            Ok(m) => Ok(Outcome { value: None, memory: m }),
            Err(e) => Err(e),
        },
        AstView::Assign { left_id, left, right } => match eval(*right, memory) {
            Ok(a) => Ok(Outcome { value: None, memory: a.memory.insert(left_id, a.value->0) }),
            Err(e) => Err(e),
        },
        AstView::Var { id, token } => if memory.contains_key(id) {
            Ok(Outcome { value: Some(memory[id]), memory })
        } else {
            Err(ErrorView::ID_NOT_FOUND(token))
        },
        _ => Ok(Outcome { value: None, memory }),
    }
}

/// The memory after the nodes from the `i`-th on have been evaluated one
/// after the other, or the first error met.
pub open spec fn run_all(nodes: Seq<AstView>, i: int, memory: Memory) -> Result<Memory, ErrorView>
    decreases nodes, nodes.len() - i,
{
    if 0 <= i < nodes.len() {
        match eval(nodes[i], memory) {
            Ok(a) => run_all(nodes, i + 1, a.memory),
            Err(e) => Err(e),
        }
    } else {
        Ok(memory)
    }
}

/// The memory as it stands when the evaluation of a node fails: what the
/// statements before the failure have bound stays bound.
pub open spec fn memory_at_failure(node: AstView, memory: Memory) -> Memory
    decreases node,
{
    match node {
        AstView::Program { name, block } => memory_at_failure(*block, memory),
        AstView::Block { declaration_nodes, compound_nodes } => match run_all(
            declaration_nodes,
            0,
            memory,
        ) {
            Ok(m) => memory_at_failure(*compound_nodes, m),
            Err(_) => memory_at_failure_all(declaration_nodes, 0, memory),
        },
        AstView::BinOp { left, right, op } => match eval(*left, memory) {
            Ok(a) => memory_at_failure(*right, a.memory),
            Err(_) => memory_at_failure(*left, memory),
        },
        AstView::UnaryOp { op, expr } => memory_at_failure(*expr, memory),
        AstView::Compound { children } => memory_at_failure_all(children, 0, memory),
        AstView::Assign { left_id, left, right } => memory_at_failure(*right, memory),
        _ => memory,
    }
}

/// The memory as it stands when the evaluation of the nodes from the `i`-th
/// on fails.
pub open spec fn memory_at_failure_all(nodes: Seq<AstView>, i: int, memory: Memory) -> Memory
    decreases nodes, nodes.len() - i,
{
    if 0 <= i < nodes.len() {
        match eval(nodes[i], memory) {
            Ok(a) => memory_at_failure_all(nodes, i + 1, a.memory),
            Err(_) => memory_at_failure(nodes[i], memory),
        }
    } else {
        memory
    }
}

/// The evaluation of an operand changes nothing in the memory, whether it
/// succeeds or fails. So an assignment whose right-hand side fails leaves the
/// memory as it was.
pub proof fn lemma_operands_keep_memory(node: AstView, memory: Memory)
    requires
        evaluable(node),
        yields(node),
    ensures
        eval(node, memory) matches Ok(a) ==> a.memory == memory,
        memory_at_failure(node, memory) == memory,
    decreases node,
{
    match node {
        AstView::BinOp { left, right, op } => {
            lemma_operands_keep_memory(*left, memory);
            lemma_operands_keep_memory(*right, memory);
        },
        AstView::UnaryOp { op, expr } => {
            lemma_operands_keep_memory(*expr, memory);
        },
        _ => {},
    }
}

/// What a whole run gives: the final memory, or the first error.
pub open spec fn run(tree: AstView) -> Result<Memory, ErrorView> {
    match eval(tree, Map::empty()) {
        Ok(a) => Ok(a.memory),
        Err(e) => Err(e),
    }
}

/// The interpreter: it walks a tree and keeps the memory.
#[derive(Debug)]
pub struct Interpreteter {
    global_memory: NameTable<Value>,
}

impl View for Interpreteter {
    type V = Memory;

    closed spec fn view(&self) -> Memory {
        self.global_memory@
    }
}

impl Interpreteter {
    /// The interpreter's invariant: that of its memory table.
    pub closed spec fn wf(&self) -> bool {
        self.global_memory.wf()
    }

    /// An interpreter with an empty memory.
    pub fn new() -> (r: Interpreteter)
        ensures
            r.wf(),
            r@ == Map::<Seq<char>, Value>::empty(),
    {
        Interpreteter { global_memory: NameTable::new() }
    }

    /// Runs a whole tree and reports the final memory: every variable with
    /// its value, in ascending byte-wise order of the names.
    pub fn interpret(self, tree: &AST) -> (r: Result<Vec<(String, Value)>, Error>)
        requires
            self.wf(),
            evaluable(tree@),
        ensures
            match eval(tree@, self@) {
                Ok(a) => r is Ok && sorted_by_name(entries_view(r->Ok_0@)) && listing_map(
                    entries_view(r->Ok_0@),
                ) == a.memory,
                Err(e) => r is Err && r->Err_0@ == e,
            },
    {
        let mut this = self;
        match this.visit_node(tree) {
            Err(e) => Err(e),
            Ok(_) => Ok(this.global_memory.into_entries()),
        }
    }

    fn visit_all(&mut self, node: &AST, nodes: &Vec<AST>) -> (r: Result<(), Error>)
        requires
            old(self).wf(),
            evaluable_all(asts_view(nodes@), 0),
            decreases_to!(node => nodes),
        ensures
            final(self).wf(),
            match run_all(asts_view(nodes@), 0, old(self)@) {
                Ok(m) => r is Ok && final(self)@ == m,
                Err(e) => r is Err && r->Err_0@ == e && final(self)@ == memory_at_failure_all(
                    asts_view(nodes@),
                    0,
                    old(self)@,
                ),
            },
        decreases node, 0nat, nodes.len(),
    {
        let ghost views = asts_view(nodes@);
        let mut i: usize = 0;
        while i < nodes.len()
            invariant
                i <= nodes.len(),
                views == asts_view(nodes@),
                self.wf(),
                evaluable_all(views, i as int),
                run_all(views, i as int, self@) == run_all(views, 0, old(self)@),
                memory_at_failure_all(views, i as int, self@) == memory_at_failure_all(
                    views,
                    0,
                    old(self)@,
                ),
                decreases_to!(node => nodes),
            decreases nodes.len() - i,
        {
            match self.visit_node(&nodes[i]) {
                Err(e) => {
                    return Err(e);
                },
                Ok(_) => {},
            }
            i += 1;
        }
        Ok(())
    }

    /// Evaluates `node` and what lies below it, and stops at the first error.
    /// After an error the memory holds what was bound before the error; a
    /// failed assignment binds nothing.
    pub fn visit_node(&mut self, node: &AST) -> (r: Result<Option<Value>, Error>)
        requires
            old(self).wf(),
            evaluable(node@),
        ensures
            final(self).wf(),
            match eval(node@, old(self)@) {
                Ok(a) => {
                    &&& r is Ok
                    &&& r->Ok_0 == a.value
                    &&& final(self)@ == a.memory
                    &&& yields(node@) ==> a.value is Some
                },
                Err(e) => {
                    &&& r is Err
                    &&& r->Err_0@ == e
                    &&& final(self)@ == memory_at_failure(node@, old(self)@)
                    &&& node@ is Assign || yields(node@) ==> final(self)@ == old(self)@
                },
            },
        decreases node, 1nat, 0nat,
    {
        proof {
            lemma_children_view(*node);
            if yields(node@) {
                lemma_operands_keep_memory(node@, self@);
            }
            if let AstView::Assign { left_id, left, right } = node@ {
                lemma_operands_keep_memory(*right, self@);
            }
        }
        match node {
            AST::Program { name: _, block } => self.visit_node(block),
            AST::Block { declaration_nodes, compound_nodes } => {
                match self.visit_all(node, declaration_nodes) {
                    Err(e) => {
                        return Err(e);
                    },
                    Ok(()) => {},
                }
                self.visit_node(compound_nodes)
            },
            AST::NumInteger { value } => Ok(Some(Value::Integer(*value))),
            AST::NumReal { value } => Ok(Some(Value::Real(*value))),
            AST::BinOp { left, right, op } => {
                let a = match self.visit_node(left) {
                    Err(e) => {
                        return Err(e);
                    },
                    Ok(a) => a,
                };
                let b = match self.visit_node(right) {
                    Err(e) => {
                        return Err(e);
                    },
                    Ok(b) => b,
                };
                Ok(Some(arithmetic(op, a.unwrap(), b.unwrap())))
            },
            AST::UnaryOp { op, expr } => {
                let a = match self.visit_node(expr) {
                    Err(e) => {
                        return Err(e);
                    },
                    Ok(a) => a,
                };
                match op {
                    Kind::MINUS => Ok(Some(a.unwrap().negate())),
                    _ => Ok(a),
                }
            },
            AST::Compound { children } => {
                match self.visit_all(node, children) {
                    Err(e) => Err(e),
                    Ok(()) => Ok(None),
                }
            },
            AST::Assign { left_id, left: _, right } => {
                let a = match self.visit_node(right) {
                    Err(e) => {
                        return Err(e);
                    },
                    Ok(a) => a,
                };
                self.global_memory.insert(left_id.clone(), a.unwrap());
                Ok(None)
            },
            AST::Var { id, token } => {
                match self.global_memory.get(id.as_str()) {
                    Some(value) => Ok(Some(*value)),
                    None => Err(Error::ID_NOT_FOUND(token.clone())),
                }
            },
            _ => Ok(None),
        }
    }
}

} // verus!
