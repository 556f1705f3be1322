//! The first-order intermediate representation handed to code generation:
//! monomorphic types, and lambdas as top-level functions.

pub mod lowered;

use std::rc::Rc;
use vstd::prelude::*;

verus! {

#[derive(Debug)]
pub struct Module {
    name: String,
    types: Vec<Type>,
    lambdas: Vec<Lambda>,
    ext_func: Vec<FnProto>,
}

#[derive(Debug)]
pub enum Type {
    Unit,
    Bool,
    I32,
    Function { params_ty: Vec<Type>, return_ty: Box<Type> },
}

#[derive(Debug)]
pub struct Ident {
    name: Rc<String>,
    ty: Type,
    id: u32,
}

#[derive(Debug)]
pub struct FnProto {
    ident: Ident,
    params: Vec<Ident>,
}

#[derive(Debug)]
pub enum Literal {
    Unit,
    I32(i32),
    Bool(bool),
}

#[derive(Debug)]
pub struct Lambda {
    proto: FnProto,
    body: Expr,
}

#[derive(Debug)]
pub enum Expr {
    UnitLit,
    I32Lit(i32),
    BoolLit(bool),
    Lambda(Box<Lambda>),
    App { callee: Box<Expr>, args: Vec<Expr> },
    Var(Ident),
    If { cond: Box<Expr>, texpr: Box<Expr>, fexpr: Box<Expr>, ty: Type },
}

impl Module {
    pub closed spec fn spec_name(&self) -> Seq<char> {
        self.name@
    }

    pub closed spec fn spec_types(&self) -> Seq<Type> {
        self.types@
    }

    pub closed spec fn spec_lambdas(&self) -> Seq<Lambda> {
        self.lambdas@
    }

    pub closed spec fn spec_externs(&self) -> Seq<FnProto> {
        self.ext_func@
    }

    /// An empty module.
    pub fn new(name: String) -> (r: Self)
        ensures
            r.spec_name() == name@,
            r.spec_types() == Seq::<Type>::empty(),
            r.spec_lambdas() == Seq::<Lambda>::empty(),
            r.spec_externs() == Seq::<FnProto>::empty(),
    {
        Module { name, types: Vec::new(), lambdas: Vec::new(), ext_func: Vec::new() }
    }

    pub fn name(&self) -> (r: &String)
        ensures
            r@ == self.spec_name(),
    {
        &self.name
    }

    pub fn types(&self) -> (r: &Vec<Type>)
        ensures
            r@ == self.spec_types(),
    {
        &self.types
    }

    pub fn lambdas(&self) -> (r: &Vec<Lambda>)
        ensures
            r@ == self.spec_lambdas(),
    {
        &self.lambdas
    }

    pub fn externs(&self) -> (r: &Vec<FnProto>)
        ensures
            r@ == self.spec_externs(),
    {
        &self.ext_func
    }

    pub fn add_lambda(&mut self, lam: Lambda)
        ensures
            final(self).spec_lambdas() == old(self).spec_lambdas().push(lam),
            final(self).spec_name() == old(self).spec_name(),
            final(self).spec_types() == old(self).spec_types(),
            final(self).spec_externs() == old(self).spec_externs(),
    {
        self.lambdas.push(lam)
    }

    pub fn add_type(&mut self, ty: Type)
        ensures
            final(self).spec_types() == old(self).spec_types().push(ty),
            final(self).spec_name() == old(self).spec_name(),
            final(self).spec_lambdas() == old(self).spec_lambdas(),
            final(self).spec_externs() == old(self).spec_externs(),
    {
        self.types.push(ty)
    }

    pub fn add_extern(&mut self, proto: FnProto)
        ensures
            final(self).spec_externs() == old(self).spec_externs().push(proto),
            final(self).spec_name() == old(self).spec_name(),
            final(self).spec_types() == old(self).spec_types(),
            final(self).spec_lambdas() == old(self).spec_lambdas(),
    {
        self.ext_func.push(proto)
    }
}

impl FnProto {
    pub closed spec fn spec_ident(&self) -> Ident {
        self.ident
    }

    pub closed spec fn spec_params(&self) -> Seq<Ident> {
        self.params@
    }

    pub fn new(ident: Ident, params: Vec<Ident>) -> (r: Self)
        ensures
            r.spec_ident() == ident,
            r.spec_params() == params@,
    {
        FnProto { ident, params }
    }

    /// The function's own identifier.
    pub fn name(&self) -> (r: &Ident)
        ensures
            *r == self.spec_ident(),
    {
        &self.ident
    }

    pub fn params(&self) -> (r: &Vec<Ident>)
        ensures
            r@ == self.spec_params(),
    {
        &self.params
    }

    /// The result type: the type recorded on the function's identifier.
    pub fn return_ty(&self) -> (r: &Type)
        ensures
            *r == self.spec_ident().spec_ty(),
    {
        self.ident.ty()
    }
}

impl Lambda {
    pub closed spec fn spec_proto(&self) -> FnProto {
        self.proto
    }

    pub closed spec fn spec_body(&self) -> Expr {
        self.body
    }

    pub fn new(proto: FnProto, body: Expr) -> (r: Self)
        ensures
            r.spec_proto() == proto,
            r.spec_body() == body,
    {
        Lambda { proto, body }
    }

    pub fn proto(&self) -> (r: &FnProto)
        ensures
            *r == self.spec_proto(),
    {
        &self.proto
    }

    pub fn body(&self) -> (r: &Expr)
        ensures
            *r == self.spec_body(),
    {
        &self.body
    }
}

impl Ident {
    pub closed spec fn spec_name(&self) -> Seq<char> {
        (*self.name)@
    }

    pub closed spec fn spec_ty(&self) -> Type {
        self.ty
    }

    pub closed spec fn spec_id(&self) -> u32 {
        self.id
    }

    pub fn new(name: Rc<String>, ty: Type, id: u32) -> (r: Self)
        ensures
            r.spec_name() == (*name)@,
            r.spec_ty() == ty,
            r.spec_id() == id,
    {
        Ident { name, ty, id }
    }

    pub fn name(&self) -> (r: &String)
        ensures
            r@ == self.spec_name(),
    {
        &self.name
    }

    pub fn id(&self) -> (r: u32)
        ensures
            r == self.spec_id(),
    {
        self.id
    }

    pub fn ty(&self) -> (r: &Type)
        ensures
            *r == self.spec_ty(),
    {
        &self.ty
    }
}

} // verus!
