//! The machine-level intermediate representation's vocabulary: base and
//! function types, variables and references by number, and expressions.

use vstd::prelude::*;

verus! {

#[derive(PartialEq, Eq, Clone, Copy)]
pub enum BaseType {
    Unit,
    Bool,
    Int32,
}

pub enum Type {
    BaseType(BaseType),
    FunctionType { params_ty: Vec<Type>, return_ty: Vec<Type> },
}

pub struct Variable(pub String);

pub struct VarRef(pub i32);

pub struct TypeRef(pub i32);

pub struct Param {
    pub name: VarRef,
    pub ty: Type,
}

pub enum Literal {
    Unit,
    Int32(i32),
    Bool(bool),
}

pub enum Expr {
    Lambda { name: VarRef, params: Vec<Param>, body: Box<Expr> },
    Application { name: VarRef, args: Box<Expr> },
    Literal { val: Literal },
    Variable { name: VarRef },
    IfExpr { cond: Box<Expr>, true_expr: Box<Expr>, false_expr: Option<Box<Expr>> },
}

} // verus!
