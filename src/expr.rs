use crate::tokenize::Token;
use vstd::prelude::*;

verus! {

/// `target = value`.
pub struct AssignmentImpl {
    pub target: VariableImpl,
    pub value: Box<Expr>,
}

/// `lhs operation rhs`, with `operation` one of `+ - * /`.
pub struct BinaryOperationImpl {
    pub lhs: Box<Expr>,
    pub operation: Token,
    pub rhs: Box<Expr>,
}

/// A numeric literal, with the token it was read from.
pub struct NumberImpl {
    pub value: i32,
    pub token: Token,
}

/// A variable, named by an identifier token.
pub struct VariableImpl {
    pub name: Token,
}

/// A call `name(arg)` of a function of one argument.
pub struct FunCallImpl {
    pub name: VariableImpl,
    pub arg: Box<Expr>,
}

/// An expression tree; each node owns its children.
pub enum Expr {
    Assignment(AssignmentImpl),
    BinaryOperation(BinaryOperationImpl),
    Number(NumberImpl),
    Variable(VariableImpl),
    FunCall(FunCallImpl),
}

} // verus!
