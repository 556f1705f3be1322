//! The tree after name resolution: every name is a symbol with a unique
//! identifier and a (possibly unknown) type.

use crate::text::{decimal, push_decimal, push_str};
use crate::types::{self, type_text, TyVar};
use std::rc::Rc;
use vstd::prelude::*;

verus! {

pub type Type = types::Type<TyVar>;

#[derive(Debug)]
pub struct Module {
    name: String,
    decls: Vec<Decl>,
}

#[derive(Debug)]
pub enum Decl {
    Extern(Symbol),
    Let(Vec<Bind>),
}

#[derive(Debug, Hash, Eq, PartialEq)]
pub struct Symbol {
    name: Rc<String>,
    id: u32,
    ty: Rc<Type>,
}

#[derive(Debug)]
pub struct Let {
    id: Symbol,
    bind: Expr,
    expr: Expr,
}

#[derive(Debug)]
pub struct Bind {
    symbol: Symbol,
    expr: Expr,
}

#[derive(Debug)]
pub struct If {
    cond: Expr,
    texpr: Expr,
    fexpr: Expr,
    ty: Type,
}

#[derive(Debug)]
pub enum Expr {
    UnitLit,
    I32Lit(i32),
    BoolLit(bool),
    Var(Symbol),
    If(Box<If>),
    Let(Box<Let>),
    Lam(Vec<Symbol>, Box<Expr>),
    App(Box<Expr>, Vec<Expr>),
}

impl Module {
    pub closed spec fn spec_name(&self) -> Seq<char> {
        self.name@
    }

    pub closed spec fn spec_decls(&self) -> Seq<Decl> {
        self.decls@
    }

    pub fn new(name: String, decls: Vec<Decl>) -> (r: Self)
        ensures
            r.spec_name() == name@,
            r.spec_decls() == decls@,
    {
        Module { name, decls }
    }

    pub fn name(&self) -> (r: &String)
        ensures
            r@ == self.spec_name(),
    {
        &self.name
    }

    pub fn decls(&self) -> (r: &Vec<Decl>)
        ensures
            r@ == self.spec_decls(),
    {
        &self.decls
    }

    /// Gives up the module for its declarations.
    pub fn take_decls(self) -> (r: Vec<Decl>)
        ensures
            r@ == self.spec_decls(),
    {
        self.decls
    }

    /// Appends a declaration.
    pub fn add_decl(&mut self, decl: Decl)
        ensures
            final(self).spec_decls() == old(self).spec_decls().push(decl),
            final(self).spec_name() == old(self).spec_name(),
    {
        self.decls.push(decl)
    }
}

/// How a symbol is written: its name, `_`, its identifier, `: ` and its
/// type.
pub open spec fn symbol_text(name: Seq<char>, id: u32, ty: types::SType<TyVar>) -> Seq<char> {
    name + "_"@ + decimal(id as nat) + ": "@ + type_text(ty)
}

impl Symbol {
    /// How this symbol is written.
    pub fn to_text(&self) -> (r: String)
        ensures
            r@ == symbol_text(self.spec_name(), self.spec_id(), self.spec_ty()@),
    {
        let mut s = String::new();
        push_str(&mut s, self.name.as_str());
        push_str(&mut s, "_");
        push_decimal(&mut s, self.id);
        push_str(&mut s, ": ");
        self.ty.push_text(&mut s);
        assert(s@ =~= symbol_text(self.spec_name(), self.spec_id(), self.spec_ty()@));
        s
    }

    pub closed spec fn spec_name(&self) -> Seq<char> {
        (*self.name)@
    }

    pub closed spec fn spec_ty(&self) -> Type {
        *self.ty
    }

    pub closed spec fn spec_id(&self) -> u32 {
        self.id
    }

    pub fn new(name: Rc<String>, ty: Type, id: u32) -> (r: Self)
        ensures
            r.spec_name() == (*name)@,
            r.spec_ty() == ty,
            r.spec_id() == id,
    {
        Symbol { name, ty: Rc::new(ty), id }
    }

    /// The same symbol with another type.
    pub fn with_ty(&self, ty: Type) -> (r: Symbol)
        ensures
            r.spec_name() == self.spec_name(),
            r.spec_id() == self.spec_id(),
            r.spec_ty() == ty,
    {
        Symbol::new(self.name.clone(), ty, self.id)
    }

    pub fn name(&self) -> (r: &Rc<String>)
        ensures
            (**r)@ == self.spec_name(),
    {
        &self.name
    }

    pub fn ty(&self) -> (r: &Type)
        ensures
            *r == self.spec_ty(),
    {
        &self.ty
    }

    pub fn id(&self) -> (r: u32)
        ensures
            r == self.spec_id(),
    {
        self.id
    }
}

impl Clone for Symbol {
    fn clone(&self) -> (r: Self)
        ensures
            r == *self,
    {
        Symbol { name: self.name.clone(), id: self.id, ty: self.ty.clone() }
    }
}

impl If {
    pub closed spec fn spec_cond(&self) -> Expr {
        self.cond
    }

    pub closed spec fn spec_texpr(&self) -> Expr {
        self.texpr
    }

    pub closed spec fn spec_fexpr(&self) -> Expr {
        self.fexpr
    }

    pub closed spec fn spec_ty(&self) -> Type {
        self.ty
    }

    pub proof fn lemma_parts(&self)
        ensures
            decreases_to!(*self => self.spec_cond()),
            decreases_to!(*self => self.spec_texpr()),
            decreases_to!(*self => self.spec_fexpr()),
    {
    }

    pub fn new(cond: Expr, texpr: Expr, fexpr: Expr, ty: Type) -> (r: Self)
        ensures
            r.spec_cond() == cond,
            r.spec_texpr() == texpr,
            r.spec_fexpr() == fexpr,
            r.spec_ty() == ty,
    {
        If { cond, texpr, fexpr, ty }
    }

    pub fn cond(&self) -> (r: &Expr)
        ensures
            *r == self.spec_cond(),
    {
        &self.cond
    }

    pub fn texpr(&self) -> (r: &Expr)
        ensures
            *r == self.spec_texpr(),
    {
        &self.texpr
    }

    pub fn fexpr(&self) -> (r: &Expr)
        ensures
            *r == self.spec_fexpr(),
    {
        &self.fexpr
    }

    pub fn ty(&self) -> (r: &Type)
        ensures
            *r == self.spec_ty(),
    {
        &self.ty
    }
}

impl Let {
    pub closed spec fn spec_id(&self) -> Symbol {
        self.id
    }

    pub closed spec fn spec_bind(&self) -> Expr {
        self.bind
    }

    pub closed spec fn spec_expr(&self) -> Expr {
        self.expr
    }

    pub proof fn lemma_parts(&self)
        ensures
            decreases_to!(*self => self.spec_bind()),
            decreases_to!(*self => self.spec_expr()),
    {
    }

    pub fn new(id: Symbol, bind: Expr, expr: Expr) -> (r: Self)
        ensures
            r.spec_id() == id,
            r.spec_bind() == bind,
            r.spec_expr() == expr,
    {
        Let { id, bind, expr }
    }

    pub fn id(&self) -> (r: &Symbol)
        ensures
            *r == self.spec_id(),
    {
        &self.id
    }

    pub fn bind(&self) -> (r: &Expr)
        ensures
            *r == self.spec_bind(),
    {
        &self.bind
    }

    pub fn expr(&self) -> (r: &Expr)
        ensures
            *r == self.spec_expr(),
    {
        &self.expr
    }
}

impl Bind {
    pub closed spec fn spec_symbol(&self) -> Symbol {
        self.symbol
    }

    pub closed spec fn spec_expr(&self) -> Expr {
        self.expr
    }

    pub fn new(symbol: Symbol, expr: Expr) -> (r: Self)
        ensures
            r.spec_symbol() == symbol,
            r.spec_expr() == expr,
    {
        Bind { symbol, expr }
    }

    pub fn symbol(&self) -> (r: &Symbol)
        ensures
            *r == self.spec_symbol(),
    {
        &self.symbol
    }

    pub fn expr(&self) -> (r: &Expr)
        ensures
            *r == self.spec_expr(),
    {
        &self.expr
    }
}

} // verus!
