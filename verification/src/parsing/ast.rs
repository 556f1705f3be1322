//! The syntax tree of the expression language read by the term parser.

use vstd::prelude::*;

verus! {

#[derive(Debug)]
pub enum TopLevel {
    Extern { name: String, ty: Type },
    Use { name: String },
    Lambda(Box<Lambda>),
}

#[derive(Debug, PartialEq, Eq, Structural)]
pub enum BaseType {
    Bool,
    I32,
    Unit,
}

#[derive(Debug)]
pub enum Type {
    BaseType(BaseType),
    FunctionType { params_ty: Vec<Type>, return_ty: Box<Type> },
}

#[derive(Debug)]
pub struct Param {
    name: String,
    ty: Type,
}

#[derive(Debug, PartialEq, Eq, Structural)]
pub enum Literal {
    Unit,
    I32(i32),
    Bool(bool),
}

#[derive(Debug)]
pub struct Lambda {
    name: String,
    params: Vec<Param>,
    return_ty: Type,
    body: Expr,
}

#[derive(Debug)]
pub struct IfExpr {
    cond: Expr,
    true_expr: Expr,
    false_expr: Option<Expr>,
}

#[derive(Debug)]
pub enum Expr {
    Lambda(Box<Lambda>),
    Application { callee: Box<Expr>, args: Vec<Expr> },
    Literal(Literal),
    Variable { name: String },
    IfExpr(Box<IfExpr>),
}

impl Lambda {
    pub closed spec fn spec_name(&self) -> Seq<char> {
        self.name@
    }

    pub closed spec fn spec_params(&self) -> Seq<Param> {
        self.params@
    }

    pub closed spec fn spec_return_ty(&self) -> Type {
        self.return_ty
    }

    pub closed spec fn spec_body(&self) -> Expr {
        self.body
    }

    pub fn new(name: String, params: Vec<Param>, return_ty: Type, body: Expr) -> (r: Self)
        ensures
            r.spec_name() == name@,
            r.spec_params() == params@,
            r.spec_return_ty() == return_ty,
            r.spec_body() == body,
    {
        Lambda { name, params, return_ty, body }
    }
}

impl Param {
    pub closed spec fn spec_name(&self) -> Seq<char> {
        self.name@
    }

    pub closed spec fn spec_ty(&self) -> Type {
        self.ty
    }

    pub fn new(name: String, ty: Type) -> (r: Self)
        ensures
            r.spec_name() == name@,
            r.spec_ty() == ty,
    {
        Param { name, ty }
    }
}

impl IfExpr {
    pub closed spec fn spec_cond(&self) -> Expr {
        self.cond
    }

    pub closed spec fn spec_true_expr(&self) -> Expr {
        self.true_expr
    }

    pub closed spec fn spec_false_expr(&self) -> Option<Expr> {
        self.false_expr
    }

    pub fn new(cond: Expr, true_expr: Expr, false_expr: Option<Expr>) -> (r: Self)
        ensures
            r.spec_cond() == cond,
            r.spec_true_expr() == true_expr,
            r.spec_false_expr() == false_expr,
    {
        IfExpr { cond, true_expr, false_expr }
    }
}

} // verus!
