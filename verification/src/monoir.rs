//! The monomorphic intermediate representation: every polymorphic function
//! has been copied once for each type it is used at.

use std::rc::Rc;
use vstd::prelude::*;

verus! {

#[derive(Debug, PartialEq, Eq)]
pub enum Type {
    Unit,
    Bool,
    I32,
    Function { params_ty: Vec<Type>, return_ty: Box<Type> },
}

#[derive(Debug)]
pub struct Module {
    pub name: String,
    pub types: Vec<Type>,
    pub funcs: Vec<Bind>,
    pub ext_funcs: Vec<Symbol>,
}

#[derive(Debug)]
pub struct Symbol {
    pub name: Rc<String>,
    pub ty: Type,
    pub id: u32,
}

#[derive(Debug)]
pub enum Literal {
    Unit,
    I32(i32),
    Bool(bool),
}

#[derive(Debug)]
pub struct Bind {
    pub sym: Symbol,
    pub expr: Expr,
}

#[derive(Debug)]
pub struct Lam {
    pub params: Vec<Symbol>,
    pub body: Expr,
}

#[derive(Debug)]
pub enum Expr {
    UnitLit,
    I32Lit(i32),
    BoolLit(bool),
    Lam(Box<Lam>),
    App(Box<Expr>, Vec<Expr>),
    Var(Symbol),
    If(Box<Expr>, Box<Expr>, Box<Expr>, Type),
    Let(Box<Bind>, Box<Expr>),
}

impl Module {
    /// An empty module.
    pub fn new(name: String) -> (r: Self)
        ensures
            r.name@ == name@,
            r.types@.len() == 0,
            r.funcs@.len() == 0,
            r.ext_funcs@.len() == 0,
    {
        Module { name, types: Vec::new(), funcs: Vec::new(), ext_funcs: Vec::new() }
    }
}

impl Bind {
    pub fn new(sym: Symbol, expr: Expr) -> (r: Self)
        ensures
            r.sym == sym,
            r.expr == expr,
    {
        Bind { sym, expr }
    }
}

impl Lam {
    pub fn new(params: Vec<Symbol>, body: Expr) -> (r: Self)
        ensures
            r.params@ == params@,
            r.body == body,
    {
        Lam { params, body }
    }
}

impl Symbol {
    pub fn new(name: Rc<String>, ty: Type, id: u32) -> (r: Self)
        ensures
            r.name == name,
            r.ty == ty,
            r.id == id,
    {
        Symbol { name, ty, id }
    }

    pub fn id(&self) -> (r: u32)
        ensures
            r == self.id,
    {
        self.id
    }

    pub fn name(&self) -> (r: &str)
        ensures
            r@ == (*self.name)@,
    {
        self.name.as_str()
    }

    pub fn ty(&self) -> (r: &Type)
        ensures
            *r == self.ty,
    {
        &self.ty
    }
}

} // verus!
