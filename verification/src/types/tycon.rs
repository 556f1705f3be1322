//! Type constructors.

use std::rc::Rc;
use super::{Type, TVar};
use crate::text::push_str;
use vstd::prelude::*;

verus! {

#[derive(Debug, Hash, PartialEq, Eq)]
pub enum TyCon<T: TVar> {
    NewType(Rc<String>),
    I32,
    Bool,
    Unit,
    Func,
    Record(Rc<Record<T>>),
}

/// The mathematical value of a type constructor. A record constructor is
/// known by its name.
pub enum STyCon {
    NewType(Seq<char>),
    I32,
    Bool,
    Unit,
    Func,
    Record(Seq<char>),
}

impl<T: TVar> View for TyCon<T> {
    type V = STyCon;

    open spec fn view(&self) -> STyCon {
        match self {
            TyCon::NewType(nm) => STyCon::NewType((**nm)@),
            TyCon::I32 => STyCon::I32,
            TyCon::Bool => STyCon::Bool,
            TyCon::Unit => STyCon::Unit,
            TyCon::Func => STyCon::Func,
            TyCon::Record(r) => STyCon::Record(r.spec_name()),
        }
    }
}

impl<T: TVar> Clone for TyCon<T> {
    fn clone(&self) -> (r: Self)
        ensures
            r == *self,
    {
        match self {
            TyCon::NewType(nm) => TyCon::NewType(nm.clone()),
            TyCon::I32 => TyCon::I32,
            TyCon::Bool => TyCon::Bool,
            TyCon::Unit => TyCon::Unit,
            TyCon::Func => TyCon::Func,
            TyCon::Record(r) => TyCon::Record(r.clone()),
        }
    }
}

impl<T: TVar> TyCon<T> {
    /// Equality of constructors by value; records are compared by name.
    pub fn same(&self, other: &TyCon<T>) -> (r: bool)
        ensures
            r == (self@ == other@),
    {
        match (self, other) {
            (TyCon::NewType(a), TyCon::NewType(b)) => **a == **b,
            (TyCon::I32, TyCon::I32) => true,
            (TyCon::Bool, TyCon::Bool) => true,
            (TyCon::Unit, TyCon::Unit) => true,
            (TyCon::Func, TyCon::Func) => true,
            (TyCon::Record(a), TyCon::Record(b)) => *a.name() == *b.name(),
            _ => false,
        }
    }
}

/// How a type constructor is written: its name, or its symbol. A record is
/// written by its name followed by its fields; no record can be built in
/// this crate (`Record` has private fields and no constructor), so the name
/// is all that is ever written.
pub open spec fn tycon_text(c: STyCon) -> Seq<char> {
    match c {
        STyCon::NewType(nm) => nm,
        STyCon::I32 => "i32"@,
        STyCon::Bool => "bool"@,
        STyCon::Unit => "()"@,
        STyCon::Func => "->"@,
        STyCon::Record(nm) => nm,
    }
}

impl<T: TVar> TyCon<T> {
    /// Appends how this constructor is written to `s`.
    pub fn push_text(&self, s: &mut String)
        ensures
            final(s)@ == old(s)@ + tycon_text(self@),
    {
        match self {
            TyCon::NewType(nm) => push_str(s, nm.as_str()),
            TyCon::I32 => push_str(s, "i32"),
            TyCon::Bool => push_str(s, "bool"),
            TyCon::Unit => push_str(s, "()"),
            TyCon::Func => push_str(s, "->"),
            TyCon::Record(r) => push_str(s, r.name().as_str()),
        }
    }
}

#[derive(Debug, Hash, PartialEq, Eq)]
pub struct NewType<T: TVar> {
    name: Rc<String>,
    args: Vec<T>,
    body: Type<T>,
}

#[derive(Debug, Hash, PartialEq, Eq)]
pub struct Field<T: TVar> {
    name: Rc<String>,
    ty: Type<T>,
}

#[derive(Debug, Hash, PartialEq, Eq)]
pub struct Record<T: TVar> {
    name: Rc<String>,
    fields: Vec<Field<T>>,
}

impl<T: TVar> Record<T> {
    pub closed spec fn spec_name(&self) -> Seq<char> {
        (*self.name)@
    }

    pub fn name(&self) -> (r: &String)
        ensures
            r@ == self.spec_name(),
    {
        &self.name
    }
}

} // verus!
