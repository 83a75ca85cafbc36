//! The statements, expressions, operators and types of the first version
//! of the language.
use vstd::prelude::*;

verus! {

/// A statement of the first version of the language.
#[derive(PartialEq, Debug)]
pub enum Line {
    Print(Expression),
    DefineVariable(String, Expression, Type),
    WhileLoop(Expression, Vec<Line>),
    EndBlock,
    If(Expression, Vec<Line>),
    ForLoop(Box<Line>, Expression, Box<Line>, Vec<Line>),
}

/// An expression of the first version of the language.
#[derive(PartialEq, Debug)]
pub enum Expression {
    String(String),
    Bool(bool),
    Variable(String),
    I32(i32),
    Complete(Complete),
    BinaryOperator(BinaryOperator),
}

/// A binary operation with both operands.
#[derive(PartialEq, Debug)]
pub struct Complete {
    pub operator: BinaryOperator,
    pub left: Box<Expression>,
    pub right: Box<Expression>,
}

impl Expression {
    /// The precedence of the operation or operator this expression is; 255
    /// for an operand.
    pub fn _get_precidence(&self) -> (r: u8)
        ensures
            r == match *self {
                Expression::Complete(c) => precedence(c.operator),
                Expression::BinaryOperator(op) => precedence(op),
                _ => 255,
            },
    {
        match self {
            Expression::Complete(opp) => opp.operator.get_precidence(),
            Expression::BinaryOperator(opp) => opp.get_precidence(),
            _ => 255,
        }
    }
}

#[derive(PartialEq, Eq, Structural, Debug, Clone, Copy)]
pub enum BinaryOperator {
    Add,
    Subtract,
    Multiply,
    Divide,
    Modulus,
    Equals,
    NotEqual,
    LessThan,
    LessThanOrEqualTo,
    GreaterThan,
    GreaterThanOrEqualTo,
}

#[derive(PartialEq, Eq, Structural, Debug, Clone, Copy)]
pub enum Type {
    Bool,
    String,
    I32,
}

/// How strongly an operator binds: `* / %` over `+ -` over comparisons.
pub open spec fn precedence(op: BinaryOperator) -> u8 {
    match op {
        BinaryOperator::Add | BinaryOperator::Subtract => 1,
        BinaryOperator::Divide | BinaryOperator::Multiply | BinaryOperator::Modulus => 2,
        _ => 0,
    }
}

impl BinaryOperator {
    pub fn get_precidence(&self) -> (r: u8)
        ensures
            r == precedence(*self),
    {
        match self {
            BinaryOperator::Add => 1,
            BinaryOperator::Subtract => 1,
            BinaryOperator::Divide => 2,
            BinaryOperator::Multiply => 2,
            BinaryOperator::Equals => 0,
            BinaryOperator::NotEqual => 0,
            BinaryOperator::LessThan => 0,
            BinaryOperator::LessThanOrEqualTo => 0,
            BinaryOperator::GreaterThan => 0,
            BinaryOperator::GreaterThanOrEqualTo => 0,
            BinaryOperator::Modulus => 2,
        }
    }
}

} // verus!
