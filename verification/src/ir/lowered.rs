//! A lower-level form of the intermediate representation, in which
//! variables are referred to by number.

use vstd::prelude::*;

verus! {

/// A reference to a variable: its unique identifier.
pub type VarRef = u32;

pub struct Module {
    name: String,
    types: Vec<Type>,
    funcs: Vec<Lambda>,
}

#[derive(PartialEq, Eq, Clone, Copy)]
pub enum BaseType {
    Unit,
    Bool,
    I32,
}

pub enum Type {
    BaseType(BaseType),
    FunctionType { params_ty: Vec<Type>, return_ty: Vec<Type> },
}

pub enum Literal {
    Unit,
    I32(i32),
    Bool(bool),
}

pub struct Lambda {
    pub name: VarRef,
    pub params: Vec<VarRef>,
    pub body: Box<Expr>,
}

pub enum Expr {
    UnitLit,
    I32Lit(i32),
    BoolLit(bool),
    Lambda(Lambda),
    App { callee: Box<Expr>, args: Vec<Expr> },
    Var(VarRef),
    If { cond: Box<Expr>, texpr: Box<Expr>, fexpr: Box<Expr> },
}

impl Module {
    pub closed spec fn spec_name(&self) -> Seq<char> {
        self.name@
    }

    pub closed spec fn spec_types(&self) -> Seq<Type> {
        self.types@
    }

    pub closed spec fn spec_funcs(&self) -> Seq<Lambda> {
        self.funcs@
    }

    /// An empty module.
    pub fn new(name: String) -> (r: Self)
        ensures
            r.spec_name() == name@,
            r.spec_types() == Seq::<Type>::empty(),
            r.spec_funcs() == Seq::<Lambda>::empty(),
    {
        Module { name, types: Vec::new(), funcs: Vec::new() }
    }

    pub fn add_func(&mut self, lam: Lambda)
        ensures
            final(self).spec_funcs() == old(self).spec_funcs().push(lam),
            final(self).spec_types() == old(self).spec_types(),
            final(self).spec_name() == old(self).spec_name(),
    {
        self.funcs.push(lam)
    }

    pub fn add_type(&mut self, ty: Type)
        ensures
            final(self).spec_types() == old(self).spec_types().push(ty),
            final(self).spec_funcs() == old(self).spec_funcs(),
            final(self).spec_name() == old(self).spec_name(),
    {
        self.types.push(ty)
    }
}

} // verus!
