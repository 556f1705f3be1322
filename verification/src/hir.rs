//! A higher-level intermediate representation in which every name is an
//! identifier with a unique number and a type, and functions take one
//! argument at a time.

use crate::types::{self, TyVar};
use std::rc::Rc;
use vstd::prelude::*;

verus! {

pub type Type = types::Type<TyVar>;

#[derive(Debug)]
pub struct Module {
    name: String,
    decls: Vec<Decl>,
}

#[derive(Debug, Clone)]
pub struct FnProto {
    params: Vec<Ident>,
}

#[derive(Debug)]
pub enum Decl {
    Extern(Ident, Type),
    Func(Ident, Rc<Lam>),
}

#[derive(Debug, Clone)]
pub struct Ident {
    name: Rc<String>,
    id: u32,
    ty: Type,
}

#[derive(Debug)]
pub struct Lam {
    proto: FnProto,
    body: Expr,
}

#[derive(Debug)]
pub struct Let {
    id: Ident,
    bind: Expr,
    expr: Expr,
}

#[derive(Debug)]
pub struct If {
    cond: Expr,
    texpr: Expr,
    fexpr: Expr,
}

#[derive(Debug)]
pub enum Expr {
    Lam(Rc<Lam>),
    App(Box<Expr>, Box<Expr>),
    UnitLit,
    I32Lit(i32),
    BoolLit(bool),
    Var(Ident),
    If(Box<If>),
    Let(Box<Let>),
}

impl Module {
    pub closed spec fn spec_name(&self) -> Seq<char> {
        self.name@
    }

    pub closed spec fn spec_decls(&self) -> Seq<Decl> {
        self.decls@
    }

    pub fn new(name: String, decls: Vec<Decl>) -> (r: Self)
        ensures
            r.spec_name() == name@,
            r.spec_decls() == decls@,
    {
        Module { name, decls }
    }

    pub fn name(&self) -> (r: &String)
        ensures
            r@ == self.spec_name(),
    {
        &self.name
    }

    pub fn decls(&self) -> (r: &Vec<Decl>)
        ensures
            r@ == self.spec_decls(),
    {
        &self.decls
    }

    /// Appends a declaration.
    pub fn add_decl(&mut self, decl: Decl)
        ensures
            final(self).spec_decls() == old(self).spec_decls().push(decl),
            final(self).spec_name() == old(self).spec_name(),
    {
        self.decls.push(decl)
    }
}

impl Ident {
    pub closed spec fn spec_name(&self) -> Seq<char> {
        (*self.name)@
    }

    pub closed spec fn spec_ty(&self) -> Type {
        self.ty
    }

    pub closed spec fn spec_id(&self) -> u32 {
        self.id
    }

    pub fn new(name: Rc<String>, ty: Type, id: u32) -> (r: Self)
        ensures
            r.spec_name() == (*name)@,
            r.spec_ty() == ty,
            r.spec_id() == id,
    {
        Ident { name, ty, id }
    }

    pub fn name(&self) -> (r: &Rc<String>)
        ensures
            (**r)@ == self.spec_name(),
    {
        &self.name
    }

    pub fn ty(&self) -> (r: &Type)
        ensures
            *r == self.spec_ty(),
    {
        &self.ty
    }

    pub fn id(&self) -> (r: u32)
        ensures
            r == self.spec_id(),
    {
        self.id
    }
}

impl FnProto {
    pub closed spec fn spec_params(&self) -> Seq<Ident> {
        self.params@
    }

    pub fn new(params: Vec<Ident>) -> (r: Self)
        ensures
            r.spec_params() == params@,
    {
        FnProto { params }
    }

    pub fn params(&self) -> (r: &Vec<Ident>)
        ensures
            r@ == self.spec_params(),
    {
        &self.params
    }
}

impl Lam {
    pub closed spec fn spec_proto(&self) -> FnProto {
        self.proto
    }

    pub closed spec fn spec_body(&self) -> Expr {
        self.body
    }

    pub fn new(proto: FnProto, body: Expr) -> (r: Self)
        ensures
            r.spec_proto() == proto,
            r.spec_body() == body,
    {
        Lam { proto, body }
    }

    pub fn proto(&self) -> (r: &FnProto)
        ensures
            *r == self.spec_proto(),
    {
        &self.proto
    }

    pub fn body(&self) -> (r: &Expr)
        ensures
            *r == self.spec_body(),
    {
        &self.body
    }
}

impl If {
    pub closed spec fn spec_cond(&self) -> Expr {
        self.cond
    }

    pub closed spec fn spec_texpr(&self) -> Expr {
        self.texpr
    }

    pub closed spec fn spec_fexpr(&self) -> Expr {
        self.fexpr
    }

    pub fn new(cond: Expr, texpr: Expr, fexpr: Expr) -> (r: Self)
        ensures
            r.spec_cond() == cond,
            r.spec_texpr() == texpr,
            r.spec_fexpr() == fexpr,
    {
        If { cond, texpr, fexpr }
    }

    pub fn cond(&self) -> (r: &Expr)
        ensures
            *r == self.spec_cond(),
    {
        &self.cond
    }

    pub fn texpr(&self) -> (r: &Expr)
        ensures
            *r == self.spec_texpr(),
    {
        &self.texpr
    }

    pub fn fexpr(&self) -> (r: &Expr)
        ensures
            *r == self.spec_fexpr(),
    {
        &self.fexpr
    }
}

impl Let {
    pub closed spec fn spec_id(&self) -> Ident {
        self.id
    }

    pub closed spec fn spec_bind(&self) -> Expr {
        self.bind
    }

    pub closed spec fn spec_expr(&self) -> Expr {
        self.expr
    }

    pub fn new(id: Ident, bind: Expr, expr: Expr) -> (r: Self)
        ensures
            r.spec_id() == id,
            r.spec_bind() == bind,
            r.spec_expr() == expr,
    {
        Let { id, bind, expr }
    }

    pub fn id(&self) -> (r: &Ident)
        ensures
            *r == self.spec_id(),
    {
        &self.id
    }

    pub fn bind(&self) -> (r: &Expr)
        ensures
            *r == self.spec_bind(),
    {
        &self.bind
    }

    pub fn expr(&self) -> (r: &Expr)
        ensures
            *r == self.spec_expr(),
    {
        &self.expr
    }
}

} // verus!
