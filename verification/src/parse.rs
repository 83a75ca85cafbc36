//! The syntax tree of the language and its views.
use std::collections::VecDeque;
use vstd::prelude::*;

use crate::compiler::{Compiler, Type};
use crate::number::{is_float_literal, is_float_text, parse_i32, parse_i32_spec, parse_i64, parse_i64_spec};
use crate::text::{chars_of, str_equals, string_from_span};
use crate::tokenizer::{tokens_view, MathOp, Token, TokenView};
use vstd::std_specs::vecdeque::VecDequeAdditionalSpecFns;

verus! {

broadcast use {
    vstd::std_specs::vecdeque::axiom_vec_dequeue_index_decreases,
    vstd::std_specs::vec::axiom_vec_index_decreases,
};

#[derive(PartialEq, Debug)]
pub enum Statement {
    DefineVariable(String, Expression, Type),
    WhileLoop(Expression, VecDeque<Statement>),
    If(Expression, VecDeque<Statement>, VecDeque<Statement>, Option<VecDeque<Statement>>),
    Elif(Expression, VecDeque<Statement>),
    ForLoop(Box<Statement>, Expression, Box<Statement>, VecDeque<Statement>),
    ModifyVariable(String, Expression),
    _DefineFunction(String, Vec<Type>, VecDeque<Statement>),
    FunctionCall(String, Vec<Expression>),
}

/// A named block of statements.
#[derive(PartialEq, Debug)]
pub struct Function {
    pub name: String,
    pub block: VecDeque<Statement>,
}

/// An expression. A floating-point literal is kept as the text of the
/// number it was written with.
#[derive(PartialEq, Debug)]
pub enum Expression {
    String(String),
    Bool(bool),
    Variable(String),
    I32(i32),
    I64(i64),
    F32(String),
    F64(String),
    Array(Vec<Expression>),
    Complete(Complete),
    BinaryOperator(BinaryOperator),
    UnaryOperator(UnaryOperator),
    Increment,
    Decrement,
    FunctionCall(String, Vec<Expression>),
    CompleteU(CompleteU),
}

#[derive(PartialEq, Eq, Structural, Debug, Clone, Copy)]
pub enum BinaryOperator {
    Add,
    Subtract,
    Multiply,
    Divide,
    Modulus,
    Equals,
    NotEqual,
    LessThan,
    LessThanOrEqualTo,
    GreaterThan,
    GreaterThanOrEqualTo,
    And,
    Or,
}

#[derive(PartialEq, Eq, Structural, Debug, Clone, Copy)]
pub enum UnaryOperator {
    Not,
    Parenthesis,
}

#[derive(PartialEq, Debug)]
pub struct Complete {
    pub operator: BinaryOperator,
    pub left: Box<Expression>,
    pub right: Box<Expression>,
}

#[derive(PartialEq, Debug)]
pub struct CompleteU {
    pub operator: UnaryOperator,
    pub child: Box<Expression>,
}

/// An expression with its text as character sequences.
pub enum ExprView {
    String(Seq<char>),
    Bool(bool),
    Variable(Seq<char>),
    I32(i32),
    I64(i64),
    F32(Seq<char>),
    F64(Seq<char>),
    Array(Seq<ExprView>),
    Complete(BinaryOperator, Box<ExprView>, Box<ExprView>),
    BinaryOperator(BinaryOperator),
    UnaryOperator(UnaryOperator),
    Increment,
    Decrement,
    FunctionCall(Seq<char>, Seq<ExprView>),
    CompleteU(UnaryOperator, Box<ExprView>),
}

/// A statement with its text as character sequences.
pub enum StmtView {
    DefineVariable(Seq<char>, ExprView, Type),
    WhileLoop(ExprView, Seq<StmtView>),
    If(ExprView, Seq<StmtView>, Seq<StmtView>, Option<Seq<StmtView>>),
    Elif(ExprView, Seq<StmtView>),
    ForLoop(Box<StmtView>, ExprView, Box<StmtView>, Seq<StmtView>),
    ModifyVariable(Seq<char>, ExprView),
    DefineFunction(Seq<char>, Seq<Type>, Seq<StmtView>),
    FunctionCall(Seq<char>, Seq<ExprView>),
}

pub open spec fn expr_view(e: Expression) -> ExprView
    decreases e, 0nat,
{
    match e {
        Expression::String(s) => ExprView::String(s@),
        Expression::Bool(b) => ExprView::Bool(b),
        Expression::Variable(s) => ExprView::Variable(s@),
        Expression::I32(v) => ExprView::I32(v),
        Expression::I64(v) => ExprView::I64(v),
        Expression::F32(s) => ExprView::F32(s@),
        Expression::F64(s) => ExprView::F64(s@),
        Expression::Array(v) => ExprView::Array(exprs_view_upto(v, v.len() as nat)),
        Expression::Complete(c) => ExprView::Complete(
            c.operator,
            Box::new(expr_view(*c.left)),
            Box::new(expr_view(*c.right)),
        ),
        Expression::BinaryOperator(op) => ExprView::BinaryOperator(op),
        Expression::UnaryOperator(op) => ExprView::UnaryOperator(op),
        Expression::Increment => ExprView::Increment,
        Expression::Decrement => ExprView::Decrement,
        Expression::FunctionCall(name, args) => ExprView::FunctionCall(
            name@,
            exprs_view_upto(args, args.len() as nat),
        ),
        Expression::CompleteU(c) => ExprView::CompleteU(c.operator, Box::new(expr_view(*c.child))),
    }
}

/// The views of the first `n` expressions of `v`.
pub open spec fn exprs_view_upto(v: Vec<Expression>, n: nat) -> Seq<ExprView>
    decreases v, n,
{
    if n == 0 || n > v.len() {
        Seq::empty()
    } else {
        exprs_view_upto(v, (n - 1) as nat).push(expr_view(v[n - 1]))
    }
}

pub open spec fn stmt_view(s: Statement) -> StmtView
    decreases s, 0nat,
{
    match s {
        Statement::DefineVariable(name, e, t) => StmtView::DefineVariable(name@, expr_view(e), t),
        Statement::WhileLoop(c, body) => StmtView::WhileLoop(
            expr_view(c),
            stmts_view_upto(body, body.len() as nat),
        ),
        Statement::If(c, body, elifs, else_body) => StmtView::If(
            expr_view(c),
            stmts_view_upto(body, body.len() as nat),
            stmts_view_upto(elifs, elifs.len() as nat),
            match else_body {
                Some(b) => Some(stmts_view_upto(b, b.len() as nat)),
                None => None,
            },
        ),
        Statement::Elif(c, body) => StmtView::Elif(
            expr_view(c),
            stmts_view_upto(body, body.len() as nat),
        ),
        Statement::ForLoop(init, c, step, body) => StmtView::ForLoop(
            Box::new(stmt_view(*init)),
            expr_view(c),
            Box::new(stmt_view(*step)),
            stmts_view_upto(body, body.len() as nat),
        ),
        Statement::ModifyVariable(name, e) => StmtView::ModifyVariable(name@, expr_view(e)),
        Statement::_DefineFunction(name, types, body) => StmtView::DefineFunction(
            name@,
            types@,
            stmts_view_upto(body, body.len() as nat),
        ),
        Statement::FunctionCall(name, args) => StmtView::FunctionCall(
            name@,
            exprs_view_upto(args, args.len() as nat),
        ),
    }
}

/// The views of the first `n` statements of `d`.
pub open spec fn stmts_view_upto(d: VecDeque<Statement>, n: nat) -> Seq<StmtView>
    decreases d, n,
{
    if n == 0 || n > d.len() {
        Seq::empty()
    } else {
        stmts_view_upto(d, (n - 1) as nat).push(stmt_view(d[n - 1]))
    }
}

/// The views of all expressions of `v`.
pub open spec fn exprs_view(v: Vec<Expression>) -> Seq<ExprView> {
    exprs_view_upto(v, v.len() as nat)
}

/// The views of all statements of `d`.
pub open spec fn stmts_view(d: VecDeque<Statement>) -> Seq<StmtView> {
    stmts_view_upto(d, d.len() as nat)
}

pub open spec fn complete_view(c: Complete) -> ExprView {
    ExprView::Complete(c.operator, Box::new(expr_view(*c.left)), Box::new(expr_view(*c.right)))
}

pub proof fn lemma_exprs_view_upto(v: Vec<Expression>, n: nat)
    requires
        n <= v.len(),
    ensures
        exprs_view_upto(v, n).len() == n,
        forall|i: int| 0 <= i < n ==> #[trigger] exprs_view_upto(v, n)[i] == expr_view(v@[i]),
    decreases n,
{
    if n > 0 {
        lemma_exprs_view_upto(v, (n - 1) as nat);
    }
}

/// The view of a vector of expressions is the view of each element.
pub proof fn lemma_exprs_view(v: Vec<Expression>)
    ensures
        exprs_view(v) == v@.map_values(|e: Expression| expr_view(e)),
{
    lemma_exprs_view_upto(v, v.len() as nat);
    assert(exprs_view(v) =~= v@.map_values(|e: Expression| expr_view(e)));
}

pub proof fn lemma_stmts_view_upto(d: VecDeque<Statement>, n: nat)
    requires
        n <= d.len(),
    ensures
        stmts_view_upto(d, n).len() == n,
        forall|i: int| 0 <= i < n ==> #[trigger] stmts_view_upto(d, n)[i] == stmt_view(d@[i]),
    decreases n,
{
    if n > 0 {
        lemma_stmts_view_upto(d, (n - 1) as nat);
    }
}

/// The view of a queue of statements is the view of each element.
pub proof fn lemma_stmts_view(d: VecDeque<Statement>)
    ensures
        stmts_view(d) == d@.map_values(|s: Statement| stmt_view(s)),
{
    lemma_stmts_view_upto(d, d.len() as nat);
    assert(stmts_view(d) =~= d@.map_values(|s: Statement| stmt_view(s)));
}

impl View for Expression {
    type V = ExprView;

    open spec fn view(&self) -> ExprView {
        expr_view(*self)
    }
}

impl View for Statement {
    type V = StmtView;

    open spec fn view(&self) -> StmtView {
        stmt_view(*self)
    }
}

// ---------------------------------------------------------------------
// Copies
// ---------------------------------------------------------------------
fn clone_expressions(v: &Vec<Expression>) -> (r: Vec<Expression>)
    ensures
        exprs_view(r) == exprs_view(*v),
    decreases v, 1nat,
{
    let mut out: Vec<Expression> = Vec::new();
    proof {
        lemma_exprs_view(*v);
        lemma_exprs_view(out);
    }
    let mut k: usize = 0;
    while k < v.len()
        invariant
            k <= v@.len(),
            out@.len() == k,
            forall|m: int| 0 <= m < k ==> expr_view(#[trigger] out@[m]) == expr_view(v@[m]),
        decreases v@.len() - k,
    {
        proof {
            assert(decreases_to!(*v => v[k as int]));
        }
        let e = v[k].clone();
        out.push(e);
        k = k + 1;
    }
    proof {
        lemma_exprs_view(*v);
        lemma_exprs_view(out);
        assert(exprs_view(out) =~= exprs_view(*v));
    }
    out
}

fn clone_statements(d: &VecDeque<Statement>) -> (r: VecDeque<Statement>)
    ensures
        stmts_view(r) == stmts_view(*d),
    decreases d, 1nat,
{
    let mut out: VecDeque<Statement> = VecDeque::new();
    proof {
        lemma_stmts_view(*d);
        lemma_stmts_view(out);
    }
    let mut k: usize = 0;
    while k < d.len()
        invariant
            k <= d@.len(),
            out@.len() == k,
            forall|m: int| 0 <= m < k ==> stmt_view(#[trigger] out@[m]) == stmt_view(d@[m]),
        decreases d@.len() - k,
    {
        proof {
            assert(decreases_to!(*d => d[k as int]));
        }
        let st = d[k].clone();
        out.push_back(st);
        k = k + 1;
    }
    proof {
        lemma_stmts_view(*d);
        lemma_stmts_view(out);
        assert(stmts_view(out) =~= stmts_view(*d));
    }
    out
}

impl Clone for Expression {
    fn clone(&self) -> (r: Self)
        ensures
            r@ == self@,
        decreases self, 0nat,
    {
        match self {
            Expression::String(s) => Expression::String(s.clone()),
            Expression::Bool(b) => Expression::Bool(*b),
            Expression::Variable(s) => Expression::Variable(s.clone()),
            Expression::I32(v) => Expression::I32(*v),
            Expression::I64(v) => Expression::I64(*v),
            Expression::F32(s) => Expression::F32(s.clone()),
            Expression::F64(s) => Expression::F64(s.clone()),
            Expression::Array(items) => Expression::Array(clone_expressions(items)),
            Expression::Complete(c) => Expression::Complete(c.clone()),
            Expression::BinaryOperator(op) => Expression::BinaryOperator(*op),
            Expression::UnaryOperator(op) => Expression::UnaryOperator(*op),
            Expression::Increment => Expression::Increment,
            Expression::Decrement => Expression::Decrement,
            Expression::FunctionCall(name, args) => Expression::FunctionCall(name.clone(), clone_expressions(args)),
            Expression::CompleteU(c) => Expression::CompleteU(c.clone()),
        }
    }
}

impl Clone for Complete {
    fn clone(&self) -> (r: Self)
        ensures
            r.operator == self.operator,
            r.left@ == self.left@,
            r.right@ == self.right@,
        decreases self, 0nat,
    {
        Complete {
            operator: self.operator,
            left: Box::new((*self.left).clone()),
            right: Box::new((*self.right).clone()),
        }
    }
}

impl Clone for CompleteU {
    fn clone(&self) -> (r: Self)
        ensures
            r.operator == self.operator,
            r.child@ == self.child@,
        decreases self, 0nat,
    {
        CompleteU { operator: self.operator, child: Box::new((*self.child).clone()) }
    }
}

impl Clone for Statement {
    fn clone(&self) -> (r: Self)
        ensures
            r@ == self@,
        decreases self, 0nat,
    {
        match self {
            Statement::DefineVariable(name, e, t) => Statement::DefineVariable(name.clone(), e.clone(), t.clone()),
            Statement::WhileLoop(c, body) => Statement::WhileLoop(c.clone(), clone_statements(body)),
            Statement::If(c, body, elifs, else_body) => Statement::If(
                c.clone(),
                clone_statements(body),
                clone_statements(elifs),
                match else_body {
                    Some(b) => Some(clone_statements(b)),
                    None => None,
                },
            ),
            Statement::Elif(c, body) => Statement::Elif(c.clone(), clone_statements(body)),
            Statement::ForLoop(init, c, step, body) => Statement::ForLoop(
                Box::new((**init).clone()),
                c.clone(),
                Box::new((**step).clone()),
                clone_statements(body),
            ),
            Statement::ModifyVariable(name, e) => Statement::ModifyVariable(name.clone(), e.clone()),
            Statement::_DefineFunction(name, types, body) => {
                let mut ts: Vec<Type> = Vec::new();
                let mut k: usize = 0;
                while k < types.len()
                    invariant
                        k <= types@.len(),
                        ts@ == types@.take(k as int),
                    decreases types@.len() - k,
                {
                    ts.push(types[k].clone());
                    k = k + 1;
                    assert(ts@ =~= types@.take(k as int));
                }
                assert(types@.take(types@.len() as int) =~= types@);
                Statement::_DefineFunction(name.clone(), ts, clone_statements(body))
            },
            Statement::FunctionCall(name, args) => Statement::FunctionCall(name.clone(), clone_expressions(args)),
        }
    }
}

impl Clone for Function {
    fn clone(&self) -> (r: Self)
        ensures
            r.name@ == self.name@,
            stmts_view(r.block) == stmts_view(self.block),
    {
        Function { name: self.name.clone(), block: clone_statements(&self.block) }
    }
}

/// Why a token stream is not a program.
#[derive(PartialEq, Eq, Structural, Debug, Clone, Copy)]
pub enum ParseError {
    /// The tokens ran out where more were needed.
    UnexpectedEnd,
    /// A token that cannot stand where it was found.
    UnexpectedToken,
    /// A token other than the one the grammar calls for at that point.
    MissingToken,
    /// A type name that the language does not know.
    UnknownType,
    /// An expression with no operand in it.
    EmptyExpression,
    /// A number that does not fit, or is not written as, the type asked for.
    InvalidNumber,
    /// A part of the grammar that consumed no token (never happens: every
    /// rule that succeeds consumes at least one token).
    NoProgress,
}

// ---------------------------------------------------------------------
// Operators
// ---------------------------------------------------------------------
/// How strongly an operator binds: `* / %` over `+ -` over comparisons and
/// logic.
pub open spec fn precedence(op: BinaryOperator) -> u8 {
    match op {
        BinaryOperator::Add => 1,
        BinaryOperator::Subtract => 1,
        BinaryOperator::Divide => 2,
        BinaryOperator::Multiply => 2,
        BinaryOperator::Equals => 0,
        BinaryOperator::NotEqual => 0,
        BinaryOperator::LessThan => 0,
        BinaryOperator::LessThanOrEqualTo => 0,
        BinaryOperator::GreaterThan => 0,
        BinaryOperator::GreaterThanOrEqualTo => 0,
        BinaryOperator::Modulus => 2,
        BinaryOperator::And => 0,
        BinaryOperator::Or => 0,
    }
}

/// The operator expression that a `MathOp` token stands for.
pub open spec fn operator_of(op: MathOp) -> ExprView {
    match op {
        MathOp::NotEqual => ExprView::BinaryOperator(BinaryOperator::NotEqual),
        MathOp::Modulus => ExprView::BinaryOperator(BinaryOperator::Modulus),
        MathOp::Multiply => ExprView::BinaryOperator(BinaryOperator::Multiply),
        MathOp::Divide => ExprView::BinaryOperator(BinaryOperator::Divide),
        MathOp::Subtract => ExprView::BinaryOperator(BinaryOperator::Subtract),
        MathOp::Add => ExprView::BinaryOperator(BinaryOperator::Add),
        MathOp::Equals => ExprView::BinaryOperator(BinaryOperator::Equals),
        MathOp::LessThan => ExprView::BinaryOperator(BinaryOperator::LessThan),
        MathOp::LessThanOrEqualTo => ExprView::BinaryOperator(BinaryOperator::LessThanOrEqualTo),
        MathOp::GreaterThan => ExprView::BinaryOperator(BinaryOperator::GreaterThan),
        MathOp::GreaterThanOrEqualTo => ExprView::BinaryOperator(
            BinaryOperator::GreaterThanOrEqualTo,
        ),
        MathOp::And => ExprView::BinaryOperator(BinaryOperator::And),
        MathOp::Or => ExprView::BinaryOperator(BinaryOperator::Or),
        MathOp::Not => ExprView::UnaryOperator(UnaryOperator::Not),
    }
}

/// `left op right`, where `left` may itself be an operation: when `op`
/// binds more strongly than the operation at the top of `left`, `op` takes
/// the right operand of that operation instead (and so on down its right
/// side).
pub open spec fn rebalance(op: BinaryOperator, left: ExprView, right: ExprView) -> ExprView
    decreases left,
{
    match left {
        ExprView::Complete(lop, ll, lr) => if precedence(op) > precedence(lop) {
            ExprView::Complete(lop, ll, Box::new(rebalance(op, *lr, right)))
        } else {
            ExprView::Complete(op, Box::new(left), Box::new(right))
        },
        _ => ExprView::Complete(op, Box::new(left), Box::new(right)),
    }
}

/// The operands and operators of an expression read left to right, the
/// operations taken apart.
pub open spec fn flatten(e: ExprView) -> Seq<ExprView>
    decreases e,
{
    match e {
        ExprView::Complete(op, l, r) => flatten(*l) + seq![ExprView::BinaryOperator(op)] + flatten(*r),
        _ => seq![e],
    }
}

/// Rebalancing for precedence keeps the operands and operators in the
/// order they were written: it only changes how they are grouped.
pub proof fn lemma_rebalance_keeps_order(op: BinaryOperator, left: ExprView, right: ExprView)
    ensures
        flatten(rebalance(op, left, right)) == flatten(left) + seq![ExprView::BinaryOperator(op)]
            + flatten(right),
    decreases left,
{
    match left {
        ExprView::Complete(lop, ll, lr) => {
            if precedence(op) > precedence(lop) {
                lemma_rebalance_keeps_order(op, *lr, right);
                assert(flatten(rebalance(op, left, right)) =~= flatten(left) + seq![
                    ExprView::BinaryOperator(op),
                ] + flatten(right));
            }
        },
        _ => {},
    }
}

/// `op` is `*`, `/` or `%`.
pub open spec fn is_multiplicative(op: BinaryOperator) -> bool {
    op == BinaryOperator::Multiply || op == BinaryOperator::Divide || op == BinaryOperator::Modulus
}

/// `op` is `+` or `-`.
pub open spec fn is_additive(op: BinaryOperator) -> bool {
    op == BinaryOperator::Add || op == BinaryOperator::Subtract
}

/// `op` is a comparison, `&&` or `||`.
pub open spec fn is_lowest(op: BinaryOperator) -> bool {
    ||| op == BinaryOperator::Equals
    ||| op == BinaryOperator::NotEqual
    ||| op == BinaryOperator::LessThan
    ||| op == BinaryOperator::LessThanOrEqualTo
    ||| op == BinaryOperator::GreaterThan
    ||| op == BinaryOperator::GreaterThanOrEqualTo
    ||| op == BinaryOperator::And
    ||| op == BinaryOperator::Or
}

/// `left op right`, `left` and `right` given as they are.
pub open spec fn op_of(op: BinaryOperator, left: ExprView, right: ExprView) -> ExprView {
    ExprView::Complete(op, Box::new(left), Box::new(right))
}

/// How operators group: `*`, `/` and `%` bind more strongly than `+` and
/// `-`, and those more strongly than comparisons, `&&` and `||`; operators
/// of one level group to the left. So `a - b % c` is `a - (b % c)`,
/// `a % b - c` is `(a % b) - c`, and `a * b % c` is `(a * b) % c`.
pub proof fn lemma_precedence_grouping(
    hi: BinaryOperator,
    hi2: BinaryOperator,
    mid: BinaryOperator,
    mid2: BinaryOperator,
    lo: BinaryOperator,
    lo2: BinaryOperator,
    a: ExprView,
    b: ExprView,
    c: ExprView,
)
    requires
        is_multiplicative(hi),
        is_multiplicative(hi2),
        is_additive(mid),
        is_additive(mid2),
        is_lowest(lo),
        is_lowest(lo2),
        !(b is Complete),
    ensures
        rebalance(hi, op_of(mid, a, b), c) == op_of(mid, a, op_of(hi, b, c)),
        rebalance(hi, op_of(lo, a, b), c) == op_of(lo, a, op_of(hi, b, c)),
        rebalance(mid, op_of(lo, a, b), c) == op_of(lo, a, op_of(mid, b, c)),
        rebalance(mid, op_of(hi, a, b), c) == op_of(mid, op_of(hi, a, b), c),
        rebalance(lo, op_of(hi, a, b), c) == op_of(lo, op_of(hi, a, b), c),
        rebalance(lo, op_of(mid, a, b), c) == op_of(lo, op_of(mid, a, b), c),
        rebalance(hi2, op_of(hi, a, b), c) == op_of(hi2, op_of(hi, a, b), c),
        rebalance(mid2, op_of(mid, a, b), c) == op_of(mid2, op_of(mid, a, b), c),
        rebalance(lo2, op_of(lo, a, b), c) == op_of(lo2, op_of(lo, a, b), c),
        !(a is Complete) ==> push_operand(
            push_operand(seq![a, ExprView::BinaryOperator(mid)], b).push(ExprView::BinaryOperator(hi)),
            c,
        ) == seq![op_of(mid, a, op_of(hi, b, c))],
{
    assert(rebalance(hi, b, c) == op_of(hi, b, c));
    assert(rebalance(mid, b, c) == op_of(mid, b, c));
    assert(!(a is Complete) ==> rebalance(mid, a, b) == op_of(mid, a, b));
    let st = seq![a, ExprView::BinaryOperator(mid)];
    assert(st.drop_last() =~= seq![a]);
    assert(st.drop_last().drop_last() =~= Seq::<ExprView>::empty());
    assert(push_operand(Seq::<ExprView>::empty(), rebalance(mid, a, b)) == seq![rebalance(mid, a, b)]);
    assert(push_operand(st, b) == seq![rebalance(mid, a, b)]);
    let st2 = seq![rebalance(mid, a, b)].push(ExprView::BinaryOperator(hi));
    assert(st2.drop_last() =~= seq![rebalance(mid, a, b)]);
    assert(st2.drop_last().drop_last() =~= Seq::<ExprView>::empty());
    let top = rebalance(hi, rebalance(mid, a, b), c);
    assert(push_operand(Seq::<ExprView>::empty(), top) == seq![top]);
}

/// Puts an operand on the expression stack: while an operator waits on top
/// of the stack, it is applied to the operand (a binary one together with
/// the operand below it).
pub open spec fn push_operand(stack: Seq<ExprView>, right: ExprView) -> Seq<ExprView>
    decreases stack.len(),
{
    if stack.len() == 0 {
        seq![right]
    } else {
        let below = stack.drop_last();
        match stack.last() {
            ExprView::BinaryOperator(b) => if below.len() > 0 {
                push_operand(below.drop_last(), rebalance(b, below.last(), right))
            } else {
                stack.push(right)
            },
            ExprView::UnaryOperator(u) => push_operand(below, ExprView::CompleteU(u, Box::new(right))),
            _ => stack.push(right),
        }
    }
}

/// The expression that stands at the bottom of the stack.
pub open spec fn bottom(stack: Seq<ExprView>) -> Result<ExprView, ParseError> {
    if stack.len() == 0 {
        Err(ParseError::EmptyExpression)
    } else {
        Ok(stack[0])
    }
}

// ---------------------------------------------------------------------
// Grammar
// ---------------------------------------------------------------------
/// The type of the variable an array hint `Array<T>` declares: the
/// element type, integers read as the floating-point type of their width.
pub open spec fn array_element_type(t: Seq<char>) -> Result<Type, ParseError> {
    if t == seq!['i', '3', '2'] || t == seq!['f', '3', '2'] {
        Ok(Type::F32)
    } else if t == seq!['i', '6', '4'] || t == seq!['f', '6', '4'] {
        Ok(Type::F64)
    } else if t == seq!['B', 'o', 'o', 'l'] {
        Ok(Type::Bool)
    } else if t == seq!['S', 't', 'r', 'i', 'n', 'g'] {
        Ok(Type::String)
    } else {
        Err(ParseError::UnknownType)
    }
}

/// Whether `name` is written `Array<...>`.
pub open spec fn is_array_hint(name: Seq<char>) -> bool {
    name.len() >= 7 && name.take(6) == seq!['A', 'r', 'r', 'a', 'y', '<'] && name.last() == '>'
}

/// The type named by a type hint.
pub open spec fn type_named(name: Seq<char>) -> Result<Type, ParseError> {
    if is_array_hint(name) {
        array_element_type(name.subrange(6, name.len() - 1))
    } else if name == seq!['i', '3', '2'] {
        Ok(Type::I32)
    } else if name == seq!['i', '6', '4'] {
        Ok(Type::I64)
    } else if name == seq!['f', '3', '2'] {
        Ok(Type::F32)
    } else if name == seq!['f', '6', '4'] {
        Ok(Type::F64)
    } else if name == seq!['B', 'o', 'o', 'l'] {
        Ok(Type::Bool)
    } else if name == seq!['S', 't', 'r', 'i', 'n', 'g'] {
        Ok(Type::String)
    } else {
        Err(ParseError::UnknownType)
    }
}

/// Consumes the token `t`, which must come first.
pub open spec fn eat(ts: Seq<TokenView>, t: TokenView) -> Result<Seq<TokenView>, ParseError> {
    if ts.len() > 0 && ts[0] == t {
        Ok(ts.drop_first())
    } else {
        Err(ParseError::MissingToken)
    }
}

/// Drops the first token when it is `t`.
pub open spec fn skip_if(ts: Seq<TokenView>, t: TokenView) -> Seq<TokenView> {
    if ts.len() > 0 && ts[0] == t {
        ts.drop_first()
    } else {
        ts
    }
}

/// The operand a number stands for when the expression is read for a
/// variable of type `ty` (`None`: an `i32`). A number read for a `Bool`,
/// `String` or array is dropped.
pub open spec fn number_operand(v: Seq<char>, ty: Option<Type>) -> Result<Option<ExprView>, ParseError> {
    match ty {
        None => match parse_i32_spec(v) {
            Some(n) => Ok(Some(ExprView::I32(n))),
            None => Err(ParseError::InvalidNumber),
        },
        Some(Type::I32) => match parse_i32_spec(v) {
            Some(n) => Ok(Some(ExprView::I32(n))),
            None => Err(ParseError::InvalidNumber),
        },
        Some(Type::I64) => match parse_i64_spec(v) {
            Some(n) => Ok(Some(ExprView::I64(n))),
            None => Err(ParseError::InvalidNumber),
        },
        Some(Type::F32) => if is_float_literal(v) {
            Ok(Some(ExprView::F32(v)))
        } else {
            Err(ParseError::InvalidNumber)
        },
        Some(Type::F64) => if is_float_literal(v) {
            Ok(Some(ExprView::F64(v)))
        } else {
            Err(ParseError::InvalidNumber)
        },
        Some(_) => Ok(None),
    }
}

/// Reads an expression from `ts` with `stack` already built, up to (and
/// including) `;` or `,`, up to (not including) `)` or `]`, or to the end
/// of the tokens. `[` starts an array literal. The result is the expression at the bottom of the stack and
/// the tokens that are left.
pub open spec fn expression_from(ts: Seq<TokenView>, stack: Seq<ExprView>, ty: Option<Type>) -> Result<(ExprView, Seq<TokenView>), ParseError>
    decreases ts.len(), 0nat,
{
    if ts.len() == 0 {
        match bottom(stack) {
            Ok(e) => Ok((e, ts)),
            Err(err) => Err(err),
        }
    } else {
        let r = ts.drop_first();
        match ts[0] {
            TokenView::ConstantNumber(v) => match number_operand(v, ty) {
                Ok(Some(e)) => expression_from(r, push_operand(stack, e), ty),
                Ok(None) => expression_from(r, stack, ty),
                Err(err) => Err(err),
            },
            TokenView::Identifier(name) => if r.len() == 0 {
                Err(ParseError::UnexpectedEnd)
            } else if r[0] == TokenView::OpenParen {
                match arguments_from(r.drop_first(), Seq::empty()) {
                    Ok((args, r2)) => if r2.len() < ts.len() {
                        expression_from(
                            r2,
                            push_operand(stack, ExprView::FunctionCall(name, args)),
                            ty,
                        )
                    } else {
                        Err(ParseError::NoProgress)
                    },
                    Err(err) => Err(err),
                }
            } else {
                expression_from(r, push_operand(stack, ExprView::Variable(name)), ty)
            },
            TokenView::String(l) => expression_from(r, push_operand(stack, ExprView::String(l)), ty),
            TokenView::Boolean(b) => expression_from(r, push_operand(stack, ExprView::Bool(b)), ty),
            TokenView::MathOp(op) => expression_from(r, stack.push(operator_of(op)), ty),
            TokenView::EndLine => match bottom(stack) {
                Ok(e) => Ok((e, r)),
                Err(err) => Err(err),
            },
            TokenView::CloseParen => match bottom(stack) {
                Ok(e) => Ok((e, ts)),
                Err(err) => Err(err),
            },
            TokenView::Comma => match bottom(stack) {
                Ok(e) => Ok((e, r)),
                Err(err) => Err(err),
            },
            TokenView::CloseBracket => match bottom(stack) {
                Ok(e) => Ok((e, ts)),
                Err(err) => Err(err),
            },
            TokenView::OpenBracket => match array_items(r, Seq::empty(), ty) {
                Ok((items, r2)) => if r2.len() < ts.len() {
                    expression_from(r2, push_operand(stack, ExprView::Array(items)), ty)
                } else {
                    Err(ParseError::NoProgress)
                },
                Err(err) => Err(err),
            },
            TokenView::OpenParen => match expression_spec(r, None) {
                Ok((inner, r2)) => {
                    let r3 = skip_if(r2, TokenView::CloseParen);
                    if r3.len() < ts.len() {
                        expression_from(
                            r3,
                            push_operand(
                                stack,
                                ExprView::CompleteU(UnaryOperator::Parenthesis, Box::new(inner)),
                            ),
                            ty,
                        )
                    } else {
                        Err(ParseError::NoProgress)
                    }
                },
                Err(err) => Err(err),
            },
            TokenView::Increment => Ok((ExprView::Increment, skip_if(r, TokenView::EndLine))),
            TokenView::Decrement => Ok((ExprView::Decrement, skip_if(r, TokenView::EndLine))),
            _ => expression_from(r, stack, ty),
        }
    }
}

/// Reads an expression; `ty` is the type of the variable it is read for.
pub open spec fn expression_spec(ts: Seq<TokenView>, ty: Option<Type>) -> Result<(ExprView, Seq<TokenView>), ParseError>
    decreases ts.len(), 1nat,
{
    expression_from(ts, Seq::empty(), ty)
}

/// Reads the items of an array literal after `[`, each an expression read
/// for the type `ty`, separated by `,`, up to and including `]`; `acc`
/// holds the items read so far.
pub open spec fn array_items(ts: Seq<TokenView>, acc: Seq<ExprView>, ty: Option<Type>) -> Result<(Seq<ExprView>, Seq<TokenView>), ParseError>
    decreases ts.len(), 2nat,
{
    if ts.len() == 0 {
        Err(ParseError::UnexpectedEnd)
    } else if ts[0] == TokenView::CloseBracket {
        Ok((acc, ts.drop_first()))
    } else {
        match expression_spec(ts, ty) {
            Ok((e, r)) => if r.len() < ts.len() {
                array_items(r, acc.push(e), ty)
            } else {
                Err(ParseError::NoProgress)
            },
            Err(err) => Err(err),
        }
    }
}

/// Reads call arguments, each an expression, after `(`, up to and including
/// `)`; `acc` holds the arguments read so far.
pub open spec fn arguments_from(ts: Seq<TokenView>, acc: Seq<ExprView>) -> Result<(Seq<ExprView>, Seq<TokenView>), ParseError>
    decreases ts.len(), 2nat,
{
    if ts.len() == 0 {
        Err(ParseError::UnexpectedEnd)
    } else if ts[0] == TokenView::CloseParen {
        Ok((acc, ts.drop_first()))
    } else {
        match expression_spec(ts, None) {
            Ok((e, r)) => if r.len() < ts.len() {
                arguments_from(r, acc.push(e))
            } else {
                Err(ParseError::NoProgress)
            },
            Err(err) => Err(err),
        }
    }
}

/// `{` statements `}`.
pub open spec fn braced_block(ts: Seq<TokenView>) -> Result<(Seq<StmtView>, Seq<TokenView>), ParseError>
    decreases ts.len(), 2nat,
{
    match eat(ts, TokenView::OpenBlock) {
        Ok(r) => match block_spec(r) {
            Ok((body, r2)) => match eat(r2, TokenView::CloseBlock) {
                Ok(r3) => Ok((body, r3)),
                Err(err) => Err(err),
            },
            Err(err) => Err(err),
        },
        Err(err) => Err(err),
    }
}

/// `(` condition `)` `{` statements `}`.
pub open spec fn guarded_block(ts: Seq<TokenView>) -> Result<(ExprView, Seq<StmtView>, Seq<TokenView>), ParseError>
    decreases ts.len(), 3nat,
{
    match eat(ts, TokenView::OpenParen) {
        Ok(r) => match expression_spec(r, None) {
            Ok((c, r2)) => match eat(r2, TokenView::CloseParen) {
                Ok(r3) => if r3.len() < ts.len() {
                    match braced_block(r3) {
                        Ok((body, r4)) => Ok((c, body, r4)),
                        Err(err) => Err(err),
                    }
                } else {
                    Err(ParseError::NoProgress)
                },
                Err(err) => Err(err),
            },
            Err(err) => Err(err),
        },
        Err(err) => Err(err),
    }
}

/// The `elif` branches that follow an `if`.
pub open spec fn elifs_spec(ts: Seq<TokenView>, acc: Seq<StmtView>) -> Result<(Seq<StmtView>, Seq<TokenView>), ParseError>
    decreases ts.len(), 0nat,
{
    if ts.len() > 0 && ts[0] == TokenView::Elif {
        match guarded_block(ts.drop_first()) {
            Ok((c, body, r)) => if r.len() < ts.len() {
                elifs_spec(r, acc.push(StmtView::Elif(c, body)))
            } else {
                Err(ParseError::NoProgress)
            },
            Err(err) => Err(err),
        }
    } else {
        Ok((acc, ts))
    }
}

/// The `else` branch that may follow an `if` and its `elif`s.
pub open spec fn else_spec(ts: Seq<TokenView>) -> Result<(Option<Seq<StmtView>>, Seq<TokenView>), ParseError>
    decreases ts.len(), 0nat,
{
    if ts.len() > 0 && ts[0] == TokenView::Else {
        match braced_block(ts.drop_first()) {
            Ok((body, r)) => Ok((Some(body), r)),
            Err(err) => Err(err),
        }
    } else {
        Ok((None, ts))
    }
}

/// A statement that starts with the identifier `id1`; `r0` are the tokens
/// after it.
pub open spec fn identifier_statement(id1: Seq<char>, r0: Seq<TokenView>) -> Result<(StmtView, Seq<TokenView>), ParseError>
    decreases r0.len(), 4nat,
{
    if r0.len() == 0 {
        Err(ParseError::UnexpectedEnd)
    } else {
        let r1 = r0.drop_first();
        match r0[0] {
            TokenView::Identifier(id2) => match type_named(id1) {
                Ok(ty) => match eat(r1, TokenView::Assign) {
                    Ok(r2) => match expression_spec(r2, Some(ty)) {
                        Ok((e, r3)) => Ok((StmtView::DefineVariable(id2, e, ty), r3)),
                        Err(err) => Err(err),
                    },
                    Err(err) => Err(err),
                },
                Err(err) => Err(err),
            },
            TokenView::OpenParen => match arguments_from(r1, Seq::empty()) {
                Ok((args, r2)) => match eat(r2, TokenView::EndLine) {
                    Ok(r3) => Ok((StmtView::FunctionCall(id1, args), r3)),
                    Err(err) => Err(err),
                },
                Err(err) => Err(err),
            },
            TokenView::MathOp(MathOp::LessThan) => if r1.len() == 0 {
                Err(ParseError::UnexpectedEnd)
            } else {
                match r1[0] {
                    TokenView::Identifier(id3) => match type_named(id1) {
                        Ok(ty) => match eat(r1.drop_first(), TokenView::MathOp(MathOp::GreaterThan)) {
                            Ok(r2) => match expression_spec(r2, None) {
                                Ok((e, r3)) => Ok((StmtView::DefineVariable(id3, e, ty), r3)),
                                Err(err) => Err(err),
                            },
                            Err(err) => Err(err),
                        },
                        Err(err) => Err(err),
                    },
                    _ => Err(ParseError::UnexpectedToken),
                }
            },
            TokenView::Increment => step_statement(id1, ExprView::Increment, r1),
            TokenView::Decrement => step_statement(id1, ExprView::Decrement, r1),
            TokenView::Assign => match expression_spec(r1, None) {
                Ok((e, r2)) => Ok((StmtView::ModifyVariable(id1, e), r2)),
                Err(err) => Err(err),
            },
            _ => Err(ParseError::UnexpectedToken),
        }
    }
}

/// `name++` or `name--`, ended by `;` (consumed) or `)` (left in place).
pub open spec fn step_statement(name: Seq<char>, step: ExprView, ts: Seq<TokenView>) -> Result<(StmtView, Seq<TokenView>), ParseError> {
    if ts.len() == 0 {
        Err(ParseError::UnexpectedEnd)
    } else if ts[0] == TokenView::EndLine {
        Ok((StmtView::ModifyVariable(name, step), ts.drop_first()))
    } else if ts[0] == TokenView::CloseParen {
        Ok((StmtView::ModifyVariable(name, step), ts))
    } else {
        Err(ParseError::UnexpectedToken)
    }
}

/// Reads one statement.
pub open spec fn statement_spec(ts: Seq<TokenView>) -> Result<(StmtView, Seq<TokenView>), ParseError>
    decreases ts.len(), 5nat,
{
    if ts.len() == 0 {
        Err(ParseError::UnexpectedEnd)
    } else {
        let r0 = ts.drop_first();
        match ts[0] {
            TokenView::Identifier(id1) => identifier_statement(id1, r0),
            TokenView::If => match guarded_block(r0) {
                Ok((c, body, r1)) => if r1.len() < ts.len() {
                    match elifs_spec(r1, Seq::empty()) {
                        Ok((elifs, r2)) => if r2.len() < ts.len() {
                            match else_spec(r2) {
                                Ok((else_body, r3)) => Ok((StmtView::If(c, body, elifs, else_body), r3)),
                                Err(err) => Err(err),
                            }
                        } else {
                            Err(ParseError::NoProgress)
                        },
                        Err(err) => Err(err),
                    }
                } else {
                    Err(ParseError::NoProgress)
                },
                Err(err) => Err(err),
            },
            TokenView::ForLoop => match eat(r0, TokenView::OpenParen) {
                Ok(r1) => match statement_spec(r1) {
                    Ok((init, r2)) => if r2.len() < ts.len() {
                        match expression_spec(r2, None) {
                            Ok((c, r3)) => if r3.len() < ts.len() {
                                match statement_spec(r3) {
                                    Ok((step, r4)) => match eat(r4, TokenView::CloseParen) {
                                        Ok(r5) => match eat(r5, TokenView::OpenBlock) {
                                            Ok(r6) => if r6.len() < ts.len() {
                                                match block_spec(r6) {
                                                    Ok((body, r7)) => Ok(
                                                        (
                                                            StmtView::ForLoop(
                                                                Box::new(init),
                                                                c,
                                                                Box::new(step),
                                                                body,
                                                            ),
                                                            r7,
                                                        ),
                                                    ),
                                                    Err(err) => Err(err),
                                                }
                                            } else {
                                                Err(ParseError::NoProgress)
                                            },
                                            Err(err) => Err(err),
                                        },
                                        Err(err) => Err(err),
                                    },
                                    Err(err) => Err(err),
                                }
                            } else {
                                Err(ParseError::NoProgress)
                            },
                            Err(err) => Err(err),
                        }
                    } else {
                        Err(ParseError::NoProgress)
                    },
                    Err(err) => Err(err),
                },
                Err(err) => Err(err),
            },
            TokenView::WhileLoop => match guarded_block(r0) {
                Ok((c, body, r1)) => Ok((StmtView::WhileLoop(c, body), r1)),
                Err(err) => Err(err),
            },
            _ => Err(ParseError::UnexpectedToken),
        }
    }
}

/// Reads statements up to a `}` (left in place) or the end of the tokens.
pub open spec fn block_spec(ts: Seq<TokenView>) -> Result<(Seq<StmtView>, Seq<TokenView>), ParseError>
    decreases ts.len(), 6nat,
{
    if ts.len() == 0 || ts[0] == TokenView::CloseBlock {
        Ok((Seq::empty(), ts))
    } else {
        match statement_spec(ts) {
            Ok((s, r)) => if r.len() < ts.len() {
                match block_spec(r) {
                    Ok((ss, r2)) => Ok((seq![s] + ss, r2)),
                    Err(err) => Err(err),
                }
            } else {
                Err(ParseError::NoProgress)
            },
            Err(err) => Err(err),
        }
    }
}

// ---------------------------------------------------------------------
// Every rule that succeeds consumes tokens
// ---------------------------------------------------------------------
pub open spec fn no_progress<T>(r: Result<T, ParseError>) -> bool {
    r matches Err(ParseError::NoProgress)
}

proof fn lemma_expression_from_progress(ts: Seq<TokenView>, stack: Seq<ExprView>, ty: Option<Type>)
    ensures
        !no_progress(expression_from(ts, stack, ty)),
        expression_from(ts, stack, ty) matches Ok((_, r)) ==> r.len() <= ts.len() && (ts.len() > 0
            && ts[0] != TokenView::CloseParen && ts[0] != TokenView::CloseBracket ==> r.len() < ts.len()),
    decreases ts.len(), 0nat,
{
    if ts.len() > 0 {
        let r = ts.drop_first();
        match ts[0] {
            TokenView::ConstantNumber(v) => match number_operand(v, ty) {
                Ok(Some(e)) => lemma_expression_from_progress(r, push_operand(stack, e), ty),
                Ok(None) => lemma_expression_from_progress(r, stack, ty),
                Err(_) => {},
            },
            TokenView::Identifier(name) => if r.len() > 0 {
                if r[0] == TokenView::OpenParen {
                    lemma_arguments_progress(r.drop_first(), Seq::empty());
                    match arguments_from(r.drop_first(), Seq::empty()) {
                        Ok((args, r2)) => lemma_expression_from_progress(
                            r2,
                            push_operand(stack, ExprView::FunctionCall(name, args)),
                            ty,
                        ),
                        Err(_) => {},
                    }
                } else {
                    lemma_expression_from_progress(r, push_operand(stack, ExprView::Variable(name)), ty);
                }
            },
            TokenView::String(l) => lemma_expression_from_progress(r, push_operand(stack, ExprView::String(l)), ty),
            TokenView::Boolean(b) => lemma_expression_from_progress(r, push_operand(stack, ExprView::Bool(b)), ty),
            TokenView::MathOp(op) => lemma_expression_from_progress(r, stack.push(operator_of(op)), ty),
            TokenView::OpenParen => {
                lemma_expression_spec_progress(r, None);
                match expression_spec(r, None) {
                    Ok((inner, r2)) => {
                        let r3 = skip_if(r2, TokenView::CloseParen);
                        lemma_expression_from_progress(
                            r3,
                            push_operand(
                                stack,
                                ExprView::CompleteU(UnaryOperator::Parenthesis, Box::new(inner)),
                            ),
                            ty,
                        );
                    },
                    Err(_) => {},
                }
            },
            TokenView::OpenBracket => {
                lemma_array_items_progress(r, Seq::empty(), ty);
                match array_items(r, Seq::empty(), ty) {
                    Ok((items, r2)) => lemma_expression_from_progress(
                        r2,
                        push_operand(stack, ExprView::Array(items)),
                        ty,
                    ),
                    Err(_) => {},
                }
            },
            TokenView::EndLine => {},
            TokenView::CloseParen => {},
            TokenView::Comma => {},
            TokenView::CloseBracket => {},
            TokenView::Increment => {},
            TokenView::Decrement => {},
            _ => lemma_expression_from_progress(r, stack, ty),
        }
    }
}

proof fn lemma_expression_spec_progress(ts: Seq<TokenView>, ty: Option<Type>)
    ensures
        !no_progress(expression_spec(ts, ty)),
        expression_spec(ts, ty) matches Ok((_, r)) ==> r.len() < ts.len(),
    decreases ts.len(), 1nat,
{
    lemma_expression_from_progress(ts, Seq::empty(), ty);
}

proof fn lemma_array_items_progress(ts: Seq<TokenView>, acc: Seq<ExprView>, ty: Option<Type>)
    ensures
        !no_progress(array_items(ts, acc, ty)),
        array_items(ts, acc, ty) matches Ok((_, r)) ==> r.len() < ts.len(),
    decreases ts.len(), 2nat,
{
    if ts.len() > 0 && ts[0] != TokenView::CloseBracket {
        lemma_expression_spec_progress(ts, ty);
        match expression_spec(ts, ty) {
            Ok((e, r)) => lemma_array_items_progress(r, acc.push(e), ty),
            Err(_) => {},
        }
    }
}

proof fn lemma_arguments_progress(ts: Seq<TokenView>, acc: Seq<ExprView>)
    ensures
        !no_progress(arguments_from(ts, acc)),
        arguments_from(ts, acc) matches Ok((_, r)) ==> r.len() < ts.len(),
    decreases ts.len(), 2nat,
{
    if ts.len() > 0 && ts[0] != TokenView::CloseParen {
        lemma_expression_spec_progress(ts, None);
        match expression_spec(ts, None) {
            Ok((e, r)) => lemma_arguments_progress(r, acc.push(e)),
            Err(_) => {},
        }
    }
}

proof fn lemma_braced_block_progress(ts: Seq<TokenView>)
    ensures
        !no_progress(braced_block(ts)),
        braced_block(ts) matches Ok((_, r)) ==> r.len() < ts.len(),
    decreases ts.len(), 2nat,
{
    if let Ok(r) = eat(ts, TokenView::OpenBlock) {
        lemma_block_progress(r);
    }
}

proof fn lemma_guarded_block_progress(ts: Seq<TokenView>)
    ensures
        !no_progress(guarded_block(ts)),
        guarded_block(ts) matches Ok((_, _, r)) ==> r.len() < ts.len(),
    decreases ts.len(), 3nat,
{
    if let Ok(r) = eat(ts, TokenView::OpenParen) {
        lemma_expression_spec_progress(r, None);
        if let Ok((c, r2)) = expression_spec(r, None) {
            if let Ok(r3) = eat(r2, TokenView::CloseParen) {
                lemma_braced_block_progress(r3);
            }
        }
    }
}

proof fn lemma_elifs_progress(ts: Seq<TokenView>, acc: Seq<StmtView>)
    ensures
        !no_progress(elifs_spec(ts, acc)),
        elifs_spec(ts, acc) matches Ok((_, r)) ==> r.len() <= ts.len(),
    decreases ts.len(), 0nat,
{
    if ts.len() > 0 && ts[0] == TokenView::Elif {
        lemma_guarded_block_progress(ts.drop_first());
        if let Ok((c, body, r)) = guarded_block(ts.drop_first()) {
            lemma_elifs_progress(r, acc.push(StmtView::Elif(c, body)));
        }
    }
}

proof fn lemma_else_progress(ts: Seq<TokenView>)
    ensures
        !no_progress(else_spec(ts)),
        else_spec(ts) matches Ok((_, r)) ==> r.len() <= ts.len(),
    decreases ts.len(), 0nat,
{
    if ts.len() > 0 && ts[0] == TokenView::Else {
        lemma_braced_block_progress(ts.drop_first());
    }
}

proof fn lemma_identifier_statement_progress(id1: Seq<char>, r0: Seq<TokenView>)
    ensures
        !no_progress(identifier_statement(id1, r0)),
        identifier_statement(id1, r0) matches Ok((_, r)) ==> r.len() <= r0.len(),
    decreases r0.len(), 4nat,
{
    if r0.len() > 0 {
        let r1 = r0.drop_first();
        match r0[0] {
            TokenView::Identifier(id2) => {
                if let Ok(r2) = eat(r1, TokenView::Assign) {
                    lemma_expression_spec_progress(r2, None);
                    match type_named(id1) {
                        Ok(ty) => lemma_expression_spec_progress(r2, Some(ty)),
                        Err(_) => {},
                    }
                }
            },
            TokenView::OpenParen => lemma_arguments_progress(r1, Seq::empty()),
            TokenView::MathOp(MathOp::LessThan) => {
                if r1.len() > 0 {
                    if let Ok(r2) = eat(r1.drop_first(), TokenView::MathOp(MathOp::GreaterThan)) {
                        lemma_expression_spec_progress(r2, None);
                    }
                }
            },
            TokenView::Assign => lemma_expression_spec_progress(r1, None),
            _ => {},
        }
    }
}

proof fn lemma_statement_progress(ts: Seq<TokenView>)
    ensures
        !no_progress(statement_spec(ts)),
        statement_spec(ts) matches Ok((_, r)) ==> r.len() < ts.len(),
    decreases ts.len(), 5nat,
{
    if ts.len() > 0 {
        let r0 = ts.drop_first();
        match ts[0] {
            TokenView::Identifier(id1) => lemma_identifier_statement_progress(id1, r0),
            TokenView::If => {
                lemma_guarded_block_progress(r0);
                if let Ok((c, body, r1)) = guarded_block(r0) {
                    lemma_elifs_progress(r1, Seq::empty());
                    if let Ok((elifs, r2)) = elifs_spec(r1, Seq::empty()) {
                        lemma_else_progress(r2);
                    }
                }
            },
            TokenView::ForLoop => {
                if let Ok(r1) = eat(r0, TokenView::OpenParen) {
                    lemma_statement_progress(r1);
                    if let Ok((init, r2)) = statement_spec(r1) {
                        lemma_expression_spec_progress(r2, None);
                        if let Ok((c, r3)) = expression_spec(r2, None) {
                            lemma_statement_progress(r3);
                            if let Ok((step, r4)) = statement_spec(r3) {
                                if let Ok(r5) = eat(r4, TokenView::CloseParen) {
                                    if let Ok(r6) = eat(r5, TokenView::OpenBlock) {
                                        lemma_block_progress(r6);
                                    }
                                }
                            }
                        }
                    }
                }
            },
            TokenView::WhileLoop => lemma_guarded_block_progress(r0),
            _ => {},
        }
    }
}

proof fn lemma_block_progress(ts: Seq<TokenView>)
    ensures
        !no_progress(block_spec(ts)),
        block_spec(ts) matches Ok((_, r)) ==> r.len() <= ts.len(),
    decreases ts.len(), 6nat,
{
    if !(ts.len() == 0 || ts[0] == TokenView::CloseBlock) {
        lemma_statement_progress(ts);
        if let Ok((s, r)) = statement_spec(ts) {
            lemma_block_progress(r);
        }
    }
}

/// Reading a program never fails for want of progress: every rule that
/// succeeds consumes tokens, so `parse` reports only the errors of the
/// grammar itself.
pub proof fn lemma_parse_makes_progress(ts: Seq<TokenView>)
    ensures
        !(block_spec(ts) matches Err(ParseError::NoProgress)),
        block_spec(ts) matches Ok((_, r)) ==> r.len() <= ts.len(),
{
    lemma_block_progress(ts);
}

/// `res` with `prefix` put in front of the statements it read.
pub open spec fn prefixed(prefix: Seq<StmtView>, res: Result<(Seq<StmtView>, Seq<TokenView>), ParseError>) -> Result<(Seq<StmtView>, Seq<TokenView>), ParseError> {
    match res {
        Ok((ss, r)) => Ok((prefix + ss, r)),
        Err(err) => Err(err),
    }
}

proof fn lemma_prefixed_push(prefix: Seq<StmtView>, s: StmtView, res: Result<(Seq<StmtView>, Seq<TokenView>), ParseError>)
    ensures
        prefixed(prefix, prefixed(seq![s], res)) == prefixed(prefix.push(s), res),
{
    match res {
        Ok((ss, r)) => {
            assert(prefix + (seq![s] + ss) =~= prefix.push(s) + ss);
        },
        Err(_) => {},
    }
}

// ---------------------------------------------------------------------
// Tokens
// ---------------------------------------------------------------------
/// Whether two tokens are the same token.
pub fn same_token(a: &Token, b: &Token) -> (r: bool)
    ensures
        r == (a@ == b@),
{
    match a {
        Token::Identifier(x) => match b {
            Token::Identifier(y) => str_equals(x.as_str(), y.as_str()),
            _ => false,
        },
        Token::String(x) => match b {
            Token::String(y) => str_equals(x.as_str(), y.as_str()),
            _ => false,
        },
        Token::OpenParen => match b {
            Token::OpenParen => true,
            _ => false,
        },
        Token::CloseParen => match b {
            Token::CloseParen => true,
            _ => false,
        },
        Token::OpenBlock => match b {
            Token::OpenBlock => true,
            _ => false,
        },
        Token::CloseBlock => match b {
            Token::CloseBlock => true,
            _ => false,
        },
        Token::ConstantNumber(x) => match b {
            Token::ConstantNumber(y) => str_equals(x.as_str(), y.as_str()),
            _ => false,
        },
        Token::Boolean(x) => match b {
            Token::Boolean(y) => *x == *y,
            _ => false,
        },
        Token::WhileLoop => match b {
            Token::WhileLoop => true,
            _ => false,
        },
        Token::MathOp(x) => match b {
            Token::MathOp(y) => *x == *y,
            _ => false,
        },
        Token::EndLine => match b {
            Token::EndLine => true,
            _ => false,
        },
        Token::If => match b {
            Token::If => true,
            _ => false,
        },
        Token::ForLoop => match b {
            Token::ForLoop => true,
            _ => false,
        },
        Token::Comma => match b {
            Token::Comma => true,
            _ => false,
        },
        Token::Increment => match b {
            Token::Increment => true,
            _ => false,
        },
        Token::Decrement => match b {
            Token::Decrement => true,
            _ => false,
        },
        Token::Else => match b {
            Token::Else => true,
            _ => false,
        },
        Token::Elif => match b {
            Token::Elif => true,
            _ => false,
        },
        Token::Ignore => match b {
            Token::Ignore => true,
            _ => false,
        },
        Token::OpenBracket => match b {
            Token::OpenBracket => true,
            _ => false,
        },
        Token::CloseBracket => match b {
            Token::CloseBracket => true,
            _ => false,
        },
        Token::DefineFunction => match b {
            Token::DefineFunction => true,
            _ => false,
        },
        Token::Assign => match b {
            Token::Assign => true,
            _ => false,
        },
    }
}

/// Whether the first token of `tokens` is `t`.
fn first_is(tokens: &VecDeque<Token>, t: &Token) -> (r: bool)
    ensures
        r == (tokens_view(tokens@).len() > 0 && tokens_view(tokens@)[0] == t@),
{
    if tokens.len() > 0 {
        same_token(&tokens[0], t)
    } else {
        false
    }
}

/// Takes the first token.
fn pop_token(tokens: &mut VecDeque<Token>) -> (r: Option<Token>)
    ensures
        match r {
            Some(t) => {
                &&& tokens_view(old(tokens)@).len() > 0
                &&& t@ == tokens_view(old(tokens)@)[0]
                &&& tokens_view(final(tokens)@) == tokens_view(old(tokens)@).drop_first()
            },
            None => tokens_view(old(tokens)@).len() == 0 && final(tokens)@ == old(tokens)@,
        },
        final(tokens)@.len() <= old(tokens)@.len(),
        r is Some ==> final(tokens)@.len() < old(tokens)@.len(),
{
    let r = tokens.pop_front();
    assert(tokens_view(tokens@) =~= tokens_view(old(tokens)@).drop_first() || r is None);
    r
}

/// Puts a token back in front.
fn unpop_token(tokens: &mut VecDeque<Token>, t: Token)
    ensures
        tokens_view(final(tokens)@) == seq![t@] + tokens_view(old(tokens)@),
        final(tokens)@.len() == old(tokens)@.len() + 1,
{
    tokens.push_front(t);
    assert(tokens_view(tokens@) =~= seq![t@] + tokens_view(old(tokens)@));
}

// ---------------------------------------------------------------------
// Operators
// ---------------------------------------------------------------------
impl BinaryOperator {
    pub fn get_precidence(&self) -> (r: u8)
        ensures
            r == precedence(*self),
    {
        match self {
            BinaryOperator::Add => 1,
            BinaryOperator::Subtract => 1,
            BinaryOperator::Divide => 2,
            BinaryOperator::Multiply => 2,
            BinaryOperator::Equals => 0,
            BinaryOperator::NotEqual => 0,
            BinaryOperator::LessThan => 0,
            BinaryOperator::LessThanOrEqualTo => 0,
            BinaryOperator::GreaterThan => 0,
            BinaryOperator::GreaterThanOrEqualTo => 0,
            BinaryOperator::Modulus => 2,
            BinaryOperator::And => 0,
            BinaryOperator::Or => 0,
        }
    }
}

impl Expression {
    /// The precedence of an operation or operator; `255` for anything else.
    pub fn _get_precidence(&self) -> (r: u8)
        ensures
            r == match *self {
                Expression::Complete(c) => precedence(c.operator),
                Expression::BinaryOperator(op) => precedence(op),
                _ => 255,
            },
    {
        match self {
            Expression::Complete(opp) => opp.operator.get_precidence(),
            Expression::BinaryOperator(opp) => opp.get_precidence(),
            _ => 255,
        }
    }

    /// The operator expression for a `MathOp` token.
    pub fn from_math_op(op: &MathOp) -> (r: Expression)
        ensures
            r@ == operator_of(*op),
    {
        match op {
            MathOp::NotEqual => Expression::BinaryOperator(BinaryOperator::NotEqual),
            MathOp::Modulus => Expression::BinaryOperator(BinaryOperator::Modulus),
            MathOp::Multiply => Expression::BinaryOperator(BinaryOperator::Multiply),
            MathOp::Divide => Expression::BinaryOperator(BinaryOperator::Divide),
            MathOp::Subtract => Expression::BinaryOperator(BinaryOperator::Subtract),
            MathOp::Add => Expression::BinaryOperator(BinaryOperator::Add),
            MathOp::Equals => Expression::BinaryOperator(BinaryOperator::Equals),
            MathOp::LessThan => Expression::BinaryOperator(BinaryOperator::LessThan),
            MathOp::LessThanOrEqualTo => Expression::BinaryOperator(
                BinaryOperator::LessThanOrEqualTo,
            ),
            MathOp::GreaterThan => Expression::BinaryOperator(BinaryOperator::GreaterThan),
            MathOp::GreaterThanOrEqualTo => Expression::BinaryOperator(
                BinaryOperator::GreaterThanOrEqualTo,
            ),
            MathOp::And => Expression::BinaryOperator(BinaryOperator::And),
            MathOp::Or => Expression::BinaryOperator(BinaryOperator::Or),
            MathOp::Not => Expression::UnaryOperator(UnaryOperator::Not),
        }
    }
}

impl Complete {
    /// Restores operator precedence after `self.operator` was applied to a
    /// left operand that is itself an operation (see `rebalance`).
    pub fn apply_precidence(self) -> (r: Complete)
        ensures
            complete_view(r) == rebalance(self.operator, expr_view(*self.left), expr_view(
                *self.right,
            )),
        decreases self.left,
    {
        let Complete { operator, left, right } = self;
        match *left {
            Expression::Complete(c) => {
                if operator.get_precidence() > c.operator.get_precidence() {
                    let Complete { operator: c_operator, left: c_left, right: c_right } = c;
                    let inner = Complete { operator, left: c_right, right }.apply_precidence();
                    Complete {
                        operator: c_operator,
                        left: c_left,
                        right: Box::new(Expression::Complete(inner)),
                    }
                } else {
                    Complete { operator, left: Box::new(Expression::Complete(c)), right }
                }
            },
            other => Complete { operator, left: Box::new(other), right },
        }
    }
}

// ---------------------------------------------------------------------
// The parser
// ---------------------------------------------------------------------
/// The first expression on the stack.
fn take_bottom(stack: Vec<Expression>) -> (r: Result<Expression, ParseError>)
    ensures
        match r {
            Ok(e) => bottom(exprs_view(stack)) == Ok::<ExprView, ParseError>(e@),
            Err(err) => bottom(exprs_view(stack)) == Err::<ExprView, ParseError>(err),
        },
{
    proof {
        lemma_exprs_view(stack);
    }
    let mut stack = stack;
    if stack.len() == 0 {
        Err(ParseError::EmptyExpression)
    } else {
        Ok(stack.remove(0))
    }
}

impl Compiler {
    /// Puts an operand on the expression stack, applying the operators
    /// that wait on top of it (see `push_operand`).
    fn stack_helper(&self, stack: &mut Vec<Expression>, expression: Expression)
        ensures
            exprs_view(*final(stack)) == push_operand(exprs_view(*old(stack)), expression@),
    {
        let mut right = expression;
        let ghost goal = push_operand(exprs_view(*stack), expression@);
        loop
            invariant_except_break
                push_operand(exprs_view(*stack), right@) == goal,
            ensures
                exprs_view(*stack) == goal,
            decreases stack@.len(),
        {
            proof {
                lemma_exprs_view(*stack);
            }
            let ghost before = exprs_view(*stack);
            if stack.len() > 0 {
                let operator = stack.pop().unwrap();
                proof {
                    lemma_exprs_view(*stack);
                    assert(exprs_view(*stack) =~= before.drop_last());
                }
                match operator {
                    Expression::BinaryOperator(binary_operator) => {
                        if stack.len() > 0 {
                            let ghost below = exprs_view(*stack);
                            let left = stack.pop().unwrap();
                            proof {
                                lemma_exprs_view(*stack);
                                assert(exprs_view(*stack) =~= below.drop_last());
                            }
                            right = Expression::Complete(
                                Complete {
                                    operator: binary_operator,
                                    left: Box::new(left),
                                    right: Box::new(right),
                                }.apply_precidence(),
                            );
                        } else {
                            stack.push(Expression::BinaryOperator(binary_operator));
                            stack.push(right);
                            proof {
                                lemma_exprs_view(*stack);
                                assert(exprs_view(*stack) =~= before.push(right@));
                            }
                            break ;
                        }
                    },
                    Expression::UnaryOperator(unary_operator) => {
                        right = Expression::CompleteU(
                            CompleteU { operator: unary_operator, child: Box::new(right) },
                        );
                    },
                    other => {
                        stack.push(other);
                        stack.push(right);
                        proof {
                            lemma_exprs_view(*stack);
                            assert(exprs_view(*stack) =~= before.push(right@));
                        }
                        break ;
                    },
                }
            } else {
                stack.push(right);
                proof {
                    lemma_exprs_view(*stack);
                    assert(exprs_view(*stack) =~= seq![right@]);
                }
                break ;
            }
        }
    }

    /// Consumes `expected`, which must be the first token.
    fn eat_token(&self, tokens: &mut VecDeque<Token>, expected: Token) -> (r: Result<(), ParseError>)
        ensures
            match r {
                Ok(()) => eat(tokens_view(old(tokens)@), expected@) == Ok::<Seq<TokenView>, ParseError>(tokens_view(final(tokens)@)),
                Err(err) => eat(tokens_view(old(tokens)@), expected@) == Err::<Seq<TokenView>, ParseError>(err),
            },
            r is Ok ==> final(tokens)@.len() < old(tokens)@.len(),
    {
        if !first_is(tokens, &expected) {
            return Err(ParseError::MissingToken);
        }
        pop_token(tokens);
        Ok(())
    }

    /// The type named by a type hint.
    fn parse_type_hint(&self, ident: &String) -> (r: Result<Type, ParseError>)
        ensures
            r == type_named(ident@),
    {
        proof {
            reveal_strlit("i32");
            reveal_strlit("i64");
            reveal_strlit("f32");
            reveal_strlit("f64");
            reveal_strlit("Bool");
            reveal_strlit("String");
        }
        assert("i32"@ =~= seq!['i', '3', '2']);
        assert("i64"@ =~= seq!['i', '6', '4']);
        assert("f32"@ =~= seq!['f', '3', '2']);
        assert("f64"@ =~= seq!['f', '6', '4']);
        assert("Bool"@ =~= seq!['B', 'o', 'o', 'l']);
        assert("String"@ =~= seq!['S', 't', 'r', 'i', 'n', 'g']);
        let name = ident.as_str();
        let chars = chars_of(name);
        let n = chars.len();
        if n >= 7 && chars[0] == 'A' && chars[1] == 'r' && chars[2] == 'r' && chars[3] == 'a'
            && chars[4] == 'y' && chars[5] == '<' && chars[n - 1] == '>' {
            assert(ident@.take(6) =~= seq!['A', 'r', 'r', 'a', 'y', '<']);
            let inner = string_from_span(&chars, 6, n - 1);
            return self.array_element_type(&inner);
        }
        assert(!is_array_hint(ident@)) by {
            if is_array_hint(ident@) {
                assert(ident@.take(6)[0] == 'A');
                assert(ident@.take(6)[1] == 'r');
                assert(ident@.take(6)[2] == 'r');
                assert(ident@.take(6)[3] == 'a');
                assert(ident@.take(6)[4] == 'y');
                assert(ident@.take(6)[5] == '<');
            }
        }
        if str_equals(name, "i32") {
            Ok(Type::I32)
        } else if str_equals(name, "i64") {
            Ok(Type::I64)
        } else if str_equals(name, "f32") {
            Ok(Type::F32)
        } else if str_equals(name, "f64") {
            Ok(Type::F64)
        } else if str_equals(name, "Bool") {
            Ok(Type::Bool)
        } else if str_equals(name, "String") {
            Ok(Type::String)
        } else {
            Err(ParseError::UnknownType)
        }
    }

    /// The type an array hint declares for its element type name `t` (see
    /// `array_element_type`).
    fn array_element_type(&self, t: &String) -> (r: Result<Type, ParseError>)
        ensures
            r == array_element_type(t@),
    {
        proof {
            reveal_strlit("i32");
            reveal_strlit("i64");
            reveal_strlit("f32");
            reveal_strlit("f64");
            reveal_strlit("Bool");
            reveal_strlit("String");
        }
        assert("i32"@ =~= seq!['i', '3', '2']);
        assert("i64"@ =~= seq!['i', '6', '4']);
        assert("f32"@ =~= seq!['f', '3', '2']);
        assert("f64"@ =~= seq!['f', '6', '4']);
        assert("Bool"@ =~= seq!['B', 'o', 'o', 'l']);
        assert("String"@ =~= seq!['S', 't', 'r', 'i', 'n', 'g']);
        let name = t.as_str();
        if str_equals(name, "i32") || str_equals(name, "f32") {
            Ok(Type::F32)
        } else if str_equals(name, "i64") || str_equals(name, "f64") {
            Ok(Type::F64)
        } else if str_equals(name, "Bool") {
            Ok(Type::Bool)
        } else if str_equals(name, "String") {
            Ok(Type::String)
        } else {
            Err(ParseError::UnknownType)
        }
    }

    /// The operand that the number `value` stands for (see `number_operand`).
    fn number_operand(&self, value: String, expected_type: &Option<Type>) -> (r: Result<Option<Expression>, ParseError>)
        ensures
            match r {
                Ok(Some(e)) => number_operand(value@, *expected_type) == Ok::<Option<ExprView>, ParseError>(Some(e@)),
                Ok(None) => number_operand(value@, *expected_type) == Ok::<Option<ExprView>, ParseError>(None),
                Err(err) => number_operand(value@, *expected_type) == Err::<Option<ExprView>, ParseError>(err),
            },
    {
        let wide = match expected_type {
            None => 0u8,
            Some(Type::I32) => 0u8,
            Some(Type::I64) => 1u8,
            Some(Type::F32) => 2u8,
            Some(Type::F64) => 3u8,
            Some(_) => 4u8,
        };
        if wide == 0 {
            match parse_i32(value.as_str()) {
                Some(n) => Ok(Some(Expression::I32(n))),
                None => Err(ParseError::InvalidNumber),
            }
        } else if wide == 1 {
            match parse_i64(value.as_str()) {
                Some(n) => Ok(Some(Expression::I64(n))),
                None => Err(ParseError::InvalidNumber),
            }
        } else if wide == 2 || wide == 3 {
            if is_float_text(value.as_str()) {
                if wide == 2 {
                    Ok(Some(Expression::F32(value)))
                } else {
                    Ok(Some(Expression::F64(value)))
                }
            } else {
                Err(ParseError::InvalidNumber)
            }
        } else {
            Ok(None)
        }
    }

    /// Reads an expression (see `expression_spec`), or says why the tokens
    /// do not form one; `expected_type` is the type of the variable it is
    /// read for, if any.
    pub fn try_parse_expression(&self, tokens: &mut VecDeque<Token>, expected_type: Option<Type>) -> (r: Result<Expression, ParseError>)
        ensures
            match r {
                Ok(e) => expression_spec(tokens_view(old(tokens)@), expected_type) == Ok::<(ExprView, Seq<TokenView>), ParseError>((e@, tokens_view(final(tokens)@))),
                Err(err) => expression_spec(tokens_view(old(tokens)@), expected_type) == Err::<(ExprView, Seq<TokenView>), ParseError>(err),
            },
            r is Ok ==> final(tokens)@.len() < old(tokens)@.len(),
        decreases old(tokens)@.len(), 1nat,
    {
        let mut stack: Vec<Expression> = Vec::new();
        let ghost orig = tokens_view(tokens@);
        let ghost entry_len = tokens@.len();
        proof {
            lemma_exprs_view(stack);
            assert(exprs_view(stack) =~= Seq::<ExprView>::empty());
        }
        loop
            invariant
                orig == tokens_view(old(tokens)@),
                entry_len == old(tokens)@.len(),
                expression_spec(orig, expected_type) == expression_from(tokens_view(tokens@), exprs_view(stack), expected_type),
                tokens@.len() <= entry_len,
                stack@.len() > 0 ==> tokens@.len() < entry_len,
            decreases tokens@.len(),
        {
            let ghost cur = tokens_view(tokens@);
            let ghost sv = exprs_view(stack);
            let popped = pop_token(tokens);
            match popped {
                None => {
                    proof {
                        lemma_exprs_view(stack);
                    }
                    return take_bottom(stack);
                },
                Some(tok) => {
                    match tok {
                        Token::ConstantNumber(value) => {
                            match self.number_operand(value, &expected_type) {
                                Ok(Some(e)) => {
                                    self.stack_helper(&mut stack, e);
                                },
                                Ok(None) => {},
                                Err(err) => {
                                    return Err(err);
                                },
                            }
                        },
                        Token::Identifier(name) => {
                            let ghost after_name = tokens_view(tokens@);
                            match pop_token(tokens) {
                                None => {
                                    return Err(ParseError::UnexpectedEnd);
                                },
                                Some(next) => {
                                    match next {
                                        Token::OpenParen => {
                                            let args = match self.parse_function_args(tokens) {
                                                Ok(args) => args,
                                                Err(err) => {
                                                    return Err(err);
                                                },
                                            };
                                            let ghost call = ExprView::FunctionCall(
                                                name@,
                                                exprs_view(args),
                                            );
                                            let e = Expression::FunctionCall(name, args);
                                            assert(e@ == call);
                                            self.stack_helper(&mut stack, e);
                                        },
                                        other => {
                                            unpop_token(tokens, other);
                                            assert(tokens_view(tokens@) =~= after_name);
                                            self.stack_helper(&mut stack, Expression::Variable(name));
                                        },
                                    }
                                },
                            }
                        },
                        Token::String(literal) => {
                            self.stack_helper(&mut stack, Expression::String(literal));
                        },
                        Token::Boolean(literal) => {
                            self.stack_helper(&mut stack, Expression::Bool(literal));
                        },
                        Token::MathOp(opp) => {
                            let e = Expression::from_math_op(&opp);
                            proof {
                                lemma_exprs_view(stack);
                            }
                            stack.push(e);
                            proof {
                                lemma_exprs_view(stack);
                                assert(exprs_view(stack) =~= sv.push(operator_of(opp)));
                            }
                        },
                        Token::EndLine => {
                            return take_bottom(stack);
                        },
                        Token::CloseParen => {
                            unpop_token(tokens, Token::CloseParen);
                            assert(tokens_view(tokens@) =~= cur);
                            return take_bottom(stack);
                        },
                        Token::Comma => {
                            return take_bottom(stack);
                        },
                        Token::CloseBracket => {
                            unpop_token(tokens, Token::CloseBracket);
                            assert(tokens_view(tokens@) =~= cur);
                            return take_bottom(stack);
                        },
                        Token::OpenBracket => {
                            let items = match self.parse_array_items(tokens, &expected_type) {
                                Ok(items) => items,
                                Err(err) => {
                                    return Err(err);
                                },
                            };
                            let ghost arr = ExprView::Array(exprs_view(items));
                            let e = Expression::Array(items);
                            assert(e@ == arr);
                            self.stack_helper(&mut stack, e);
                        },
                        Token::OpenParen => {
                            let inner = match self.try_parse_expression(tokens, None) {
                                Ok(e) => e,
                                Err(err) => {
                                    return Err(err);
                                },
                            };
                            let close = Token::CloseParen;
                            if first_is(tokens, &close) {
                                pop_token(tokens);
                            }
                            self.stack_helper(
                                &mut stack,
                                Expression::CompleteU(
                                    CompleteU {
                                        operator: UnaryOperator::Parenthesis,
                                        child: Box::new(inner),
                                    },
                                ),
                            );
                        },
                        Token::Increment => {
                            let end = Token::EndLine;
                            if first_is(tokens, &end) {
                                pop_token(tokens);
                            }
                            return Ok(Expression::Increment);
                        },
                        Token::Decrement => {
                            let end = Token::EndLine;
                            if first_is(tokens, &end) {
                                pop_token(tokens);
                            }
                            return Ok(Expression::Decrement);
                        },
                        _ => {},
                    }
                },
            }
        }
    }

    /// Reads the items of an array literal after `[`, up to and including
    /// `]` (see `array_items`).
    fn parse_array_items(&self, tokens: &mut VecDeque<Token>, expected_type: &Option<Type>) -> (r: Result<Vec<Expression>, ParseError>)
        ensures
            match r {
                Ok(items) => array_items(tokens_view(old(tokens)@), Seq::empty(), *expected_type) == Ok::<(Seq<ExprView>, Seq<TokenView>), ParseError>((exprs_view(items), tokens_view(final(tokens)@))),
                Err(err) => array_items(tokens_view(old(tokens)@), Seq::empty(), *expected_type) == Err::<(Seq<ExprView>, Seq<TokenView>), ParseError>(err),
            },
            r is Ok ==> final(tokens)@.len() < old(tokens)@.len(),
        decreases old(tokens)@.len(), 2nat,
    {
        let mut items: Vec<Expression> = Vec::new();
        let ghost orig = tokens_view(tokens@);
        let ghost entry_len = tokens@.len();
        proof {
            lemma_exprs_view(items);
            assert(exprs_view(items) =~= Seq::<ExprView>::empty());
        }
        loop
            invariant
                orig == tokens_view(old(tokens)@),
                entry_len == old(tokens)@.len(),
                array_items(orig, Seq::empty(), *expected_type) == array_items(tokens_view(tokens@), exprs_view(items), *expected_type),
                tokens@.len() <= entry_len,
            decreases tokens@.len(),
        {
            let ghost cur = tokens_view(tokens@);
            match pop_token(tokens) {
                None => {
                    return Err(ParseError::UnexpectedEnd);
                },
                Some(Token::CloseBracket) => {
                    return Ok(items);
                },
                Some(next) => {
                    unpop_token(tokens, next);
                    assert(tokens_view(tokens@) =~= cur);
                    let ty = match expected_type {
                        Some(t) => Some(t.clone()),
                        None => None,
                    };
                    let e = match self.try_parse_expression(tokens, ty) {
                        Ok(e) => e,
                        Err(err) => {
                            return Err(err);
                        },
                    };
                    let ghost before = exprs_view(items);
                    proof {
                        lemma_exprs_view(items);
                    }
                    items.push(e);
                    proof {
                        lemma_exprs_view(items);
                        assert(exprs_view(items) =~= before.push(e@));
                    }
                },
            }
        }
    }

    /// Reads call arguments after `(`, up to and including `)` (see
    /// `arguments_from`).
    fn parse_function_args(&self, tokens: &mut VecDeque<Token>) -> (r: Result<Vec<Expression>, ParseError>)
        ensures
            match r {
                Ok(args) => arguments_from(tokens_view(old(tokens)@), Seq::empty()) == Ok::<(Seq<ExprView>, Seq<TokenView>), ParseError>((exprs_view(args), tokens_view(final(tokens)@))),
                Err(err) => arguments_from(tokens_view(old(tokens)@), Seq::empty()) == Err::<(Seq<ExprView>, Seq<TokenView>), ParseError>(err),
            },
            r is Ok ==> final(tokens)@.len() < old(tokens)@.len(),
        decreases old(tokens)@.len(), 2nat,
    {
        let mut args: Vec<Expression> = Vec::new();
        let ghost orig = tokens_view(tokens@);
        let ghost entry_len = tokens@.len();
        proof {
            lemma_exprs_view(args);
            assert(exprs_view(args) =~= Seq::<ExprView>::empty());
        }
        loop
            invariant
                orig == tokens_view(old(tokens)@),
                entry_len == old(tokens)@.len(),
                arguments_from(orig, Seq::empty()) == arguments_from(tokens_view(tokens@), exprs_view(args)),
                tokens@.len() <= entry_len,
            decreases tokens@.len(),
        {
            let ghost cur = tokens_view(tokens@);
            match pop_token(tokens) {
                None => {
                    return Err(ParseError::UnexpectedEnd);
                },
                Some(Token::CloseParen) => {
                    return Ok(args);
                },
                Some(next) => {
                    unpop_token(tokens, next);
                    assert(tokens_view(tokens@) =~= cur);
                    let e = match self.try_parse_expression(tokens, None) {
                        Ok(e) => e,
                        Err(err) => {
                            return Err(err);
                        },
                    };
                    let ghost before = exprs_view(args);
                    proof {
                        lemma_exprs_view(args);
                    }
                    args.push(e);
                    proof {
                        lemma_exprs_view(args);
                        assert(exprs_view(args) =~= before.push(e@));
                    }
                },
            }
        }
    }

    /// Reads statements up to a `}` (left in place) or the end of the
    /// tokens, on tokens that form statements (see `block_spec`; where they
    /// do not, `try_parse` says why).
    pub fn parse(&self, tokens: &mut VecDeque<Token>) -> (r: VecDeque<Statement>)
        requires
            block_spec(tokens_view(old(tokens)@)) is Ok,
        ensures
            block_spec(tokens_view(old(tokens)@)) == Ok::<(Seq<StmtView>, Seq<TokenView>), ParseError>((stmts_view(r), tokens_view(final(tokens)@))),
    {
        match self.try_parse(tokens) {
            Ok(statements) => statements,
            Err(_) => VecDeque::new(),
        }
    }

    /// Reads an expression on tokens that form one (see `expression_spec`;
    /// where they do not, `try_parse_expression` says why).
    pub fn parse_expression(&self, tokens: &mut VecDeque<Token>, expected_type: Option<Type>) -> (r: Expression)
        requires
            expression_spec(tokens_view(old(tokens)@), expected_type) is Ok,
        ensures
            expression_spec(tokens_view(old(tokens)@), expected_type) == Ok::<(ExprView, Seq<TokenView>), ParseError>((r@, tokens_view(final(tokens)@))),
    {
        match self.try_parse_expression(tokens, expected_type) {
            Ok(e) => e,
            Err(_) => Expression::Bool(false),
        }
    }

    /// Reads statements up to a `}` (left in place) or the end of the
    /// tokens (see `block_spec`), or says why the tokens do not form them.
    pub fn try_parse(&self, tokens: &mut VecDeque<Token>) -> (r: Result<VecDeque<Statement>, ParseError>)
        ensures
            match r {
                Ok(ss) => block_spec(tokens_view(old(tokens)@)) == Ok::<(Seq<StmtView>, Seq<TokenView>), ParseError>((stmts_view(ss), tokens_view(final(tokens)@))),
                Err(err) => block_spec(tokens_view(old(tokens)@)) == Err::<(Seq<StmtView>, Seq<TokenView>), ParseError>(err),
            },
            r is Ok ==> final(tokens)@.len() <= old(tokens)@.len(),
        decreases old(tokens)@.len(), 6nat,
    {
        let mut statements: VecDeque<Statement> = VecDeque::new();
        let ghost orig = tokens_view(tokens@);
        let ghost entry_len = tokens@.len();
        proof {
            lemma_stmts_view(statements);
            assert(stmts_view(statements) =~= Seq::<StmtView>::empty());
            assert(prefixed(Seq::<StmtView>::empty(), block_spec(orig)) == block_spec(orig)) by {
                match block_spec(orig) {
                    Ok((ss, r)) => {
                        assert(Seq::<StmtView>::empty() + ss =~= ss);
                    },
                    Err(_) => {},
                }
            }
        }
        let close = Token::CloseBlock;
        loop
            invariant
                orig == tokens_view(old(tokens)@),
                entry_len == old(tokens)@.len(),
                block_spec(orig) == prefixed(stmts_view(statements), block_spec(tokens_view(tokens@))),
                tokens@.len() <= entry_len,
                close@ == TokenView::CloseBlock,
            decreases tokens@.len(),
        {
            let ghost cur = tokens_view(tokens@);
            if tokens.len() == 0 || first_is(tokens, &close) {
                assert(stmts_view(statements) + Seq::<StmtView>::empty() =~= stmts_view(statements));
                return Ok(statements);
            }
            let s = match self.parse_next_statement(tokens) {
                Ok(s) => s,
                Err(err) => {
                    return Err(err);
                },
            };
            let ghost before = stmts_view(statements);
            proof {
                lemma_stmts_view(statements);
                lemma_prefixed_push(before, s@, block_spec(tokens_view(tokens@)));
            }
            statements.push_back(s);
            proof {
                lemma_stmts_view(statements);
                assert(stmts_view(statements) =~= before.push(s@));
            }
        }
    }

    /// Reads one statement (see `statement_spec`).
    fn parse_next_statement(&self, tokens: &mut VecDeque<Token>) -> (r: Result<Statement, ParseError>)
        ensures
            match r {
                Ok(s) => statement_spec(tokens_view(old(tokens)@)) == Ok::<(StmtView, Seq<TokenView>), ParseError>((s@, tokens_view(final(tokens)@))),
                Err(err) => statement_spec(tokens_view(old(tokens)@)) == Err::<(StmtView, Seq<TokenView>), ParseError>(err),
            },
            r is Ok ==> final(tokens)@.len() < old(tokens)@.len(),
        decreases old(tokens)@.len(), 5nat,
    {
        let first = match pop_token(tokens) {
            Some(t) => t,
            None => {
                return Err(ParseError::UnexpectedEnd);
            },
        };
        match first {
            Token::Identifier(ident_1) => self.parse_identifier_statement(ident_1, tokens),
            Token::If => {
                let (condition, body) = match self.parse_guarded_block(tokens) {
                    Ok(found) => found,
                    Err(err) => {
                        return Err(err);
                    },
                };
                let elifs = match self.parse_elifs(tokens) {
                    Ok(elifs) => elifs,
                    Err(err) => {
                        return Err(err);
                    },
                };
                let else_body = match self.parse_else(tokens) {
                    Ok(else_body) => else_body,
                    Err(err) => {
                        return Err(err);
                    },
                };
                Ok(Statement::If(condition, body, elifs, else_body))
            },
            Token::ForLoop => {
                match self.eat_token(tokens, Token::OpenParen) {
                    Ok(()) => {},
                    Err(err) => {
                        return Err(err);
                    },
                }
                let variable = match self.parse_next_statement(tokens) {
                    Ok(s) => s,
                    Err(err) => {
                        return Err(err);
                    },
                };
                let condition = match self.try_parse_expression(tokens, None) {
                    Ok(c) => c,
                    Err(err) => {
                        return Err(err);
                    },
                };
                let increment = match self.parse_next_statement(tokens) {
                    Ok(s) => s,
                    Err(err) => {
                        return Err(err);
                    },
                };
                match self.eat_token(tokens, Token::CloseParen) {
                    Ok(()) => {},
                    Err(err) => {
                        return Err(err);
                    },
                }
                match self.eat_token(tokens, Token::OpenBlock) {
                    Ok(()) => {},
                    Err(err) => {
                        return Err(err);
                    },
                }
                let block = match self.try_parse(tokens) {
                    Ok(b) => b,
                    Err(err) => {
                        return Err(err);
                    },
                };
                Ok(Statement::ForLoop(Box::new(variable), condition, Box::new(increment), block))
            },
            Token::WhileLoop => {
                match self.parse_guarded_block(tokens) {
                    Ok((condition, block)) => Ok(Statement::WhileLoop(condition, block)),
                    Err(err) => Err(err),
                }
            },
            _ => Err(ParseError::UnexpectedToken),
        }
    }

    /// The rest of a statement that starts with the identifier `ident_1`
    /// (see `identifier_statement`).
    fn parse_identifier_statement(&self, ident_1: String, tokens: &mut VecDeque<Token>) -> (r: Result<Statement, ParseError>)
        ensures
            match r {
                Ok(s) => identifier_statement(ident_1@, tokens_view(old(tokens)@)) == Ok::<(StmtView, Seq<TokenView>), ParseError>((s@, tokens_view(final(tokens)@))),
                Err(err) => identifier_statement(ident_1@, tokens_view(old(tokens)@)) == Err::<(StmtView, Seq<TokenView>), ParseError>(err),
            },
            r is Ok ==> final(tokens)@.len() < old(tokens)@.len(),
        decreases old(tokens)@.len(), 4nat,
    {
        let second = match pop_token(tokens) {
            Some(t) => t,
            None => {
                return Err(ParseError::UnexpectedEnd);
            },
        };
        match second {
            Token::Identifier(ident_2) => {
                let type_hint = match self.parse_type_hint(&ident_1) {
                    Ok(t) => t,
                    Err(err) => {
                        return Err(err);
                    },
                };
                match self.eat_token(tokens, Token::Assign) {
                    Ok(()) => {},
                    Err(err) => {
                        return Err(err);
                    },
                }
                let expression = match self.try_parse_expression(tokens, Some(type_hint.clone())) {
                    Ok(e) => e,
                    Err(err) => {
                        return Err(err);
                    },
                };
                Ok(Statement::DefineVariable(ident_2, expression, type_hint))
            },
            Token::OpenParen => {
                let args = match self.parse_function_args(tokens) {
                    Ok(args) => args,
                    Err(err) => {
                        return Err(err);
                    },
                };
                match self.eat_token(tokens, Token::EndLine) {
                    Ok(()) => {},
                    Err(err) => {
                        return Err(err);
                    },
                }
                Ok(Statement::FunctionCall(ident_1, args))
            },
            Token::MathOp(MathOp::LessThan) => {
                let third = match pop_token(tokens) {
                    Some(t) => t,
                    None => {
                        return Err(ParseError::UnexpectedEnd);
                    },
                };
                match third {
                    Token::Identifier(ident_3) => {
                        let type_hint = match self.parse_type_hint(&ident_1) {
                            Ok(t) => t,
                            Err(err) => {
                                return Err(err);
                            },
                        };
                        match self.eat_token(tokens, Token::MathOp(MathOp::GreaterThan)) {
                            Ok(()) => {},
                            Err(err) => {
                                return Err(err);
                            },
                        }
                        let expression = match self.try_parse_expression(tokens, None) {
                            Ok(e) => e,
                            Err(err) => {
                                return Err(err);
                            },
                        };
                        Ok(Statement::DefineVariable(ident_3, expression, type_hint))
                    },
                    _ => Err(ParseError::UnexpectedToken),
                }
            },
            Token::Increment => self.parse_step(ident_1, Expression::Increment, tokens),
            Token::Decrement => self.parse_step(ident_1, Expression::Decrement, tokens),
            Token::Assign => {
                match self.try_parse_expression(tokens, None) {
                    Ok(expression) => Ok(Statement::ModifyVariable(ident_1, expression)),
                    Err(err) => Err(err),
                }
            },
            _ => Err(ParseError::UnexpectedToken),
        }
    }

    /// `name++` / `name--`, ended by `;` (consumed) or `)` (left in place).
    fn parse_step(&self, name: String, step: Expression, tokens: &mut VecDeque<Token>) -> (r: Result<Statement, ParseError>)
        ensures
            match r {
                Ok(s) => step_statement(name@, step@, tokens_view(old(tokens)@)) == Ok::<(StmtView, Seq<TokenView>), ParseError>((s@, tokens_view(final(tokens)@))),
                Err(err) => step_statement(name@, step@, tokens_view(old(tokens)@)) == Err::<(StmtView, Seq<TokenView>), ParseError>(err),
            },
            r is Ok ==> final(tokens)@.len() <= old(tokens)@.len(),
    {
        let ghost cur = tokens_view(tokens@);
        let next = match pop_token(tokens) {
            Some(t) => t,
            None => {
                return Err(ParseError::UnexpectedEnd);
            },
        };
        match next {
            Token::EndLine => {},
            Token::CloseParen => {
                unpop_token(tokens, next);
                assert(tokens_view(tokens@) =~= cur);
            },
            _ => {
                return Err(ParseError::UnexpectedToken);
            },
        }
        Ok(Statement::ModifyVariable(name, step))
    }

    /// `{` statements `}` (see `braced_block`).
    fn parse_braced_block(&self, tokens: &mut VecDeque<Token>) -> (r: Result<VecDeque<Statement>, ParseError>)
        ensures
            match r {
                Ok(ss) => braced_block(tokens_view(old(tokens)@)) == Ok::<(Seq<StmtView>, Seq<TokenView>), ParseError>((stmts_view(ss), tokens_view(final(tokens)@))),
                Err(err) => braced_block(tokens_view(old(tokens)@)) == Err::<(Seq<StmtView>, Seq<TokenView>), ParseError>(err),
            },
            r is Ok ==> final(tokens)@.len() < old(tokens)@.len(),
        decreases old(tokens)@.len(), 7nat,
    {
        match self.eat_token(tokens, Token::OpenBlock) {
            Ok(()) => {},
            Err(err) => {
                return Err(err);
            },
        }
        let body = match self.try_parse(tokens) {
            Ok(body) => body,
            Err(err) => {
                return Err(err);
            },
        };
        match self.eat_token(tokens, Token::CloseBlock) {
            Ok(()) => Ok(body),
            Err(err) => Err(err),
        }
    }

    /// `(` condition `)` `{` statements `}` (see `guarded_block`).
    fn parse_guarded_block(&self, tokens: &mut VecDeque<Token>) -> (r: Result<(Expression, VecDeque<Statement>), ParseError>)
        ensures
            match r {
                Ok((c, body)) => guarded_block(tokens_view(old(tokens)@)) == Ok::<(ExprView, Seq<StmtView>, Seq<TokenView>), ParseError>((c@, stmts_view(body), tokens_view(final(tokens)@))),
                Err(err) => guarded_block(tokens_view(old(tokens)@)) == Err::<(ExprView, Seq<StmtView>, Seq<TokenView>), ParseError>(err),
            },
            r is Ok ==> final(tokens)@.len() < old(tokens)@.len(),
        decreases old(tokens)@.len(), 8nat,
    {
        match self.eat_token(tokens, Token::OpenParen) {
            Ok(()) => {},
            Err(err) => {
                return Err(err);
            },
        }
        let condition = match self.try_parse_expression(tokens, None) {
            Ok(c) => c,
            Err(err) => {
                return Err(err);
            },
        };
        match self.eat_token(tokens, Token::CloseParen) {
            Ok(()) => {},
            Err(err) => {
                return Err(err);
            },
        }
        match self.parse_braced_block(tokens) {
            Ok(body) => Ok((condition, body)),
            Err(err) => Err(err),
        }
    }

    /// The `elif` branches after an `if` (see `elifs_spec`).
    fn parse_elifs(&self, tokens: &mut VecDeque<Token>) -> (r: Result<VecDeque<Statement>, ParseError>)
        ensures
            match r {
                Ok(elifs) => elifs_spec(tokens_view(old(tokens)@), Seq::empty()) == Ok::<(Seq<StmtView>, Seq<TokenView>), ParseError>((stmts_view(elifs), tokens_view(final(tokens)@))),
                Err(err) => elifs_spec(tokens_view(old(tokens)@), Seq::empty()) == Err::<(Seq<StmtView>, Seq<TokenView>), ParseError>(err),
            },
            r is Ok ==> final(tokens)@.len() <= old(tokens)@.len(),
        decreases old(tokens)@.len(), 9nat,
    {
        let mut elifs: VecDeque<Statement> = VecDeque::new();
        let ghost orig = tokens_view(tokens@);
        let ghost entry_len = tokens@.len();
        proof {
            lemma_stmts_view(elifs);
            assert(stmts_view(elifs) =~= Seq::<StmtView>::empty());
        }
        let elif = Token::Elif;
        loop
            invariant
                orig == tokens_view(old(tokens)@),
                entry_len == old(tokens)@.len(),
                elifs_spec(orig, Seq::empty()) == elifs_spec(tokens_view(tokens@), stmts_view(elifs)),
                tokens@.len() <= entry_len,
                elif@ == TokenView::Elif,
            decreases tokens@.len(),
        {
            if !first_is(tokens, &elif) {
                return Ok(elifs);
            }
            pop_token(tokens);
            let (condition, body) = match self.parse_guarded_block(tokens) {
                Ok(found) => found,
                Err(err) => {
                    return Err(err);
                },
            };
            let ghost before = stmts_view(elifs);
            let ghost branch = StmtView::Elif(condition@, stmts_view(body));
            let s = Statement::Elif(condition, body);
            assert(s@ == branch);
            proof {
                lemma_stmts_view(elifs);
            }
            elifs.push_back(s);
            proof {
                lemma_stmts_view(elifs);
                assert(stmts_view(elifs) =~= before.push(branch));
            }
        }
    }

    /// The `else` branch that may follow (see `else_spec`).
    fn parse_else(&self, tokens: &mut VecDeque<Token>) -> (r: Result<Option<VecDeque<Statement>>, ParseError>)
        ensures
            match r {
                Ok(Some(body)) => else_spec(tokens_view(old(tokens)@)) == Ok::<(Option<Seq<StmtView>>, Seq<TokenView>), ParseError>((Some(stmts_view(body)), tokens_view(final(tokens)@))),
                Ok(None) => else_spec(tokens_view(old(tokens)@)) == Ok::<(Option<Seq<StmtView>>, Seq<TokenView>), ParseError>((None, tokens_view(final(tokens)@))),
                Err(err) => else_spec(tokens_view(old(tokens)@)) == Err::<(Option<Seq<StmtView>>, Seq<TokenView>), ParseError>(err),
            },
            r is Ok ==> final(tokens)@.len() <= old(tokens)@.len(),
        decreases old(tokens)@.len(), 9nat,
    {
        let else_token = Token::Else;
        if !first_is(tokens, &else_token) {
            return Ok(None);
        }
        pop_token(tokens);
        match self.parse_braced_block(tokens) {
            Ok(body) => Ok(Some(body)),
            Err(err) => Err(err),
        }
    }
}

} // verus!
