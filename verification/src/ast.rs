//! The syntax tree produced by the parser: names are plain strings and
//! types are written with named type variables.

use crate::types::{self, func_kind, types_view, Kind, SType, STyCon, TyCon};
use std::rc::Rc;
use vstd::prelude::*;
use vstd::string::*;

verus! {

/// Types as written in source.
pub type Type = types::Type<String>;

#[derive(Debug)]
pub struct Module {
    name: String,
    decls: Vec<Decl>,
}

#[derive(Debug)]
pub enum Decl {
    Extern(String, Type),
    Func(Bind),
}

#[derive(Debug)]
pub struct Lam {
    params: Vec<String>,
    body: Expr,
}

#[derive(Debug)]
pub struct If {
    cond: Expr,
    texpr: Expr,
    fexpr: Expr,
}

#[derive(Debug)]
pub struct Bind(pub String, pub Expr);

#[derive(Debug)]
pub enum Expr {
    Lam(Box<Lam>),
    App(Box<Expr>, Vec<Expr>),
    UnitLit,
    I32Lit(i32),
    BoolLit(bool),
    Var(String),
    If(Box<If>),
    Let(Box<Bind>, Box<Expr>),
}

impl Module {
    pub closed spec fn spec_name(&self) -> Seq<char> {
        self.name@
    }

    pub closed spec fn spec_decls(&self) -> Seq<Decl> {
        self.decls@
    }

    /// A module with the given declarations and, as yet, no name.
    pub fn new(decls: Vec<Decl>) -> (r: Self)
        ensures
            r.spec_name() == Seq::<char>::empty(),
            r.spec_decls() == decls@,
    {
        Module { name: String::new(), decls }
    }

    pub fn set_name(&mut self, name: String)
        ensures
            final(self).spec_name() == name@,
            final(self).spec_decls() == old(self).spec_decls(),
    {
        self.name = name;
    }

    pub fn name(&self) -> (r: &String)
        ensures
            r@ == self.spec_name(),
    {
        &self.name
    }

    pub fn decls(&self) -> (r: &Vec<Decl>)
        ensures
            r@ == self.spec_decls(),
    {
        &self.decls
    }
}

/// Whether two strings hold the same characters.
pub fn str_eq(a: &str, b: &str) -> (r: bool)
    ensures
        r == (a@ == b@),
{
    let n = a.unicode_len();
    if n != b.unicode_len() {
        return false;
    }
    let mut i: usize = 0;
    while i < n
        invariant
            n == a@.len(),
            n == b@.len(),
            i <= n,
            forall|j: int| 0 <= j < i ==> a@[j] == b@[j],
        decreases n - i,
    {
        if a.get_char(i) != b.get_char(i) {
            return false;
        }
        i = i + 1;
    }
    assert(a@ =~= b@);
    true
}

/// The type constructor that a name in source denotes: the builtin ones by
/// their spelling, any other name a user-defined type.
pub open spec fn tycon_named(nm: Seq<char>) -> STyCon {
    if nm == "i32"@ {
        STyCon::I32
    } else if nm == "bool"@ {
        STyCon::Bool
    } else if nm == "()"@ {
        STyCon::Unit
    } else if nm == "->"@ {
        STyCon::Func
    } else {
        STyCon::NewType(nm)
    }
}

/// The type constructor named `nm`, of kind `kind`.
pub fn con(nm: &str, kind: Kind) -> (r: Type)
    ensures
        r@ == SType::<Seq<char>>::Con(tycon_named(nm@), kind),
{
    let tycon = if str_eq(nm, "i32") {
        TyCon::I32
    } else if str_eq(nm, "bool") {
        TyCon::Bool
    } else if str_eq(nm, "()") {
        TyCon::Unit
    } else if str_eq(nm, "->") {
        TyCon::Func
    } else {
        TyCon::NewType(Rc::new(nm.to_owned()))
    };
    types::Type::Con(tycon, kind)
}

impl Decl {
    /// The declaration of an external function with the given parameters
    /// and result type; the parameters' names are dropped.
    pub fn external(name: String, params: Vec<(String, Type)>, retty: Type) -> (r: Self)
        requires
            params@.len() < usize::MAX,
        ensures
            match r {
                Decl::Extern(n, ty) => {
                    &&& n@ == name@
                    &&& ty@ == SType::App(
                        Box::new(SType::<Seq<char>>::Con(STyCon::Func, func_kind(params@.len()))),
                        Seq::new(params@.len(), |i: int| params@[i].1@).push(retty@),
                    )
                },
                Decl::Func(_) => false,
            },
    {
        broadcast use types::lemma_types_view;

        let mut params_ty: Vec<Type> = Vec::new();
        let mut params = params;
        let ghost p0 = params@;
        let n = params.len();
        let mut i: usize = 0;
        while i < n
            invariant
                n == p0.len(),
                params@.len() == n - i,
                i <= n,
                forall|j: int| 0 <= j < params@.len() ==> params@[j] == p0[j + i],
                params_ty@.len() == i,
                forall|j: int| 0 <= j < i ==> #[trigger] params_ty@[j]@ == p0[j].1@,
            decreases n - i,
        {
            let (_, ty) = params.remove(0);
            params_ty.push(ty);
            i = i + 1;
        }
        let ty = types::Type::func(params_ty, retty);
        assert(types_view(params_ty@) =~= Seq::new(p0.len(), |j: int| p0[j].1@));
        Decl::Extern(name, ty)
    }
}

impl Lam {
    pub closed spec fn spec_params(&self) -> Seq<String> {
        self.params@
    }

    pub closed spec fn spec_body(&self) -> Expr {
        self.body
    }

    pub proof fn lemma_parts(&self)
        ensures
            decreases_to!(*self => self.spec_body()),
    {
    }

    pub fn new(params: Vec<String>, body: Expr) -> (r: Self)
        ensures
            r.spec_params() == params@,
            r.spec_body() == body,
    {
        Lam { params, body }
    }

    pub fn body(&self) -> (r: &Expr)
        ensures
            *r == self.spec_body(),
    {
        &self.body
    }

    pub fn params(&self) -> (r: &Vec<String>)
        ensures
            r@ == self.spec_params(),
    {
        &self.params
    }
}

impl If {
    pub closed spec fn spec_cond(&self) -> Expr {
        self.cond
    }

    pub closed spec fn spec_texpr(&self) -> Expr {
        self.texpr
    }

    pub closed spec fn spec_fexpr(&self) -> Expr {
        self.fexpr
    }

    pub proof fn lemma_parts(&self)
        ensures
            decreases_to!(*self => self.spec_cond()),
            decreases_to!(*self => self.spec_texpr()),
            decreases_to!(*self => self.spec_fexpr()),
    {
    }

    pub fn new(cond: Expr, texpr: Expr, fexpr: Expr) -> (r: Self)
        ensures
            r.spec_cond() == cond,
            r.spec_texpr() == texpr,
            r.spec_fexpr() == fexpr,
    {
        If { cond, texpr, fexpr }
    }

    pub fn cond(&self) -> (r: &Expr)
        ensures
            *r == self.spec_cond(),
    {
        &self.cond
    }

    pub fn texpr(&self) -> (r: &Expr)
        ensures
            *r == self.spec_texpr(),
    {
        &self.texpr
    }

    pub fn fexpr(&self) -> (r: &Expr)
        ensures
            *r == self.spec_fexpr(),
    {
        &self.fexpr
    }
}

} // verus!
