//! Types, kinds and type schemes of the language.

use crate::text::{decimal, push_decimal, push_str};
use std::rc::Rc;
use vstd::prelude::*;

pub mod flat;
pub mod subst;
pub mod tvar;
pub mod tycon;

pub use self::subst::Subst;
pub use self::tvar::{InnerTyVar, TyVar};
pub use self::tycon::{tycon_text, Field, NewType, Record, STyCon, TyCon};

verus! {

/// Kinds classify type constructors: `*` is the kind of types, and
/// `k1 => k2` the kind of constructors from `k1` to `k2`.
#[derive(Debug, Hash, PartialEq, Eq)]
pub enum Kind {
    Star,
    Fun(Rc<(Kind, Kind)>),
}

impl Clone for Kind {
    fn clone(&self) -> (r: Self)
        ensures
            r == *self,
    {
        match self {
            Kind::Star => Kind::Star,
            Kind::Fun(k) => Kind::Fun(k.clone()),
        }
    }
}

impl Kind {
    /// Structural equality of kinds.
    pub fn same(&self, other: &Kind) -> (r: bool)
        ensures
            r == (*self == *other),
        decreases self,
    {
        match (self, other) {
            (Kind::Star, Kind::Star) => true,
            (Kind::Fun(a), Kind::Fun(b)) => a.0.same(&b.0) && a.1.same(&b.1),
            _ => false,
        }
    }
}

/// How a kind is written: `*`, or `k1 => k2`.
pub open spec fn kind_text(k: Kind) -> Seq<char>
    decreases k,
{
    match k {
        Kind::Star => "*"@,
        Kind::Fun(p) => kind_text(p.0) + " => "@ + kind_text(p.1),
    }
}

impl Kind {
    /// Appends how this kind is written to `s`.
    pub fn push_text(&self, s: &mut String)
        ensures
            final(s)@ == old(s)@ + kind_text(*self),
        decreases self,
    {
        match self {
            Kind::Star => push_str(s, "*"),
            Kind::Fun(p) => {
                p.0.push_text(s);
                push_str(s, " => ");
                p.1.push_text(s);
                assert(s@ =~= old(s)@ + kind_text(*self));
            },
        }
    }
}

/// The kind of a function type constructor taking `n` parameters and a
/// result: `* => (* => ... (* => *))` with `n + 1` arrows.
pub open spec fn func_kind(n: nat) -> Kind
    decreases n,
{
    if n == 0 {
        Kind::Fun(Rc::new((Kind::Star, Kind::Star)))
    } else {
        Kind::Fun(Rc::new((Kind::Star, func_kind((n - 1) as nat))))
    }
}

/// Type variables: what may stand for an unknown type.
pub trait TVar: View + Sized {
    fn clone_var(&self) -> (r: Self)
        ensures
            r@ == self@,
    ;
}

impl TVar for String {
    fn clone_var(&self) -> (r: Self) {
        self.clone()
    }
}

#[derive(Debug, Hash, PartialEq, Eq)]
pub enum Type<T: TVar> {
    App(Box<Type<T>>, Vec<Type<T>>),
    Con(TyCon<T>, Kind),
    Var(T),
}

/// The mathematical value of a type.
pub enum SType<V> {
    App(Box<SType<V>>, Seq<SType<V>>),
    Con(STyCon, Kind),
    Var(V),
}

impl<T: TVar> Type<T> {
    /// The mathematical value of this type.
    pub open spec fn sview(&self) -> SType<T::V>
        decreases self,
    {
        match self {
            Type::App(f, args) => SType::App(Box::new(f.sview()), types_view(args@)),
            Type::Con(c, k) => SType::Con(c@, *k),
            Type::Var(v) => SType::Var(v@),
        }
    }
}

impl<T: TVar> View for Type<T> {
    type V = SType<T::V>;

    open spec fn view(&self) -> SType<T::V> {
        self.sview()
    }
}

/// The values of a sequence of types.
pub open spec fn types_view<T: TVar>(s: Seq<Type<T>>) -> Seq<SType<T::V>>
    decreases s,
{
    if s.len() == 0 {
        Seq::empty()
    } else {
        types_view(s.drop_last()).push(s.last().sview())
    }
}

pub broadcast proof fn lemma_types_view<T: TVar>(s: Seq<Type<T>>)
    ensures
        #[trigger] types_view(s).len() == s.len(),
        forall|i: int| 0 <= i < s.len() ==> #[trigger] types_view(s)[i] == s[i]@,
    decreases s.len(),
{
    if s.len() > 0 {
        lemma_types_view(s.drop_last());
    }
}

/// Copies the elements of `v`, keeping their values.
pub fn clone_types<T: TVar>(v: &Vec<Type<T>>) -> (r: Vec<Type<T>>)
    ensures
        types_view(r@) == types_view(v@),
    decreases v,
{
    broadcast use lemma_types_view;

    let mut res: Vec<Type<T>> = Vec::new();
    let mut i: usize = 0;
    while i < v.len()
        invariant
            i <= v@.len(),
            res@.len() == i,
            forall|j: int| 0 <= j < i ==> #[trigger] res@[j]@ == v@[j]@,
        decreases v@.len() - i,
    {
        proof {
            broadcast use vstd::std_specs::vec::axiom_vec_index_decreases;

            assert(decreases_to!(v => v[i as int]));
        }
        res.push(v[i].clone());
        i = i + 1;
    }
    assert(types_view(res@) =~= types_view(v@));
    res
}

impl<T: TVar> Clone for Type<T> {
    fn clone(&self) -> (r: Self)
        ensures
            r@ == self@,
        decreases self,
    {
        match self {
            Type::App(f, args) => {
                let f2: Type<T> = (**f).clone();
                proof {
                    broadcast use vstd::std_specs::vec::axiom_vec_index_decreases;

                    assert(decreases_to!(*self => *args));
                }
                let args2 = clone_types(args);
                Type::App(Box::new(f2), args2)
            },
            Type::Con(c, k) => Type::Con(c.clone(), k.clone()),
            Type::Var(v) => Type::Var(v.clone_var()),
        }
    }
}

/// A type scheme: a type with its universally bound type variables.
#[derive(Debug, Hash, PartialEq, Eq)]
pub struct ForAll<T: TVar> {
    bound_vars: Vec<T>,
    ty: Type<T>,
}

impl<T: TVar> Type<T> {
    /// The type of functions from `params` to `ret`.
    pub fn func(params: Vec<Type<T>>, ret: Type<T>) -> (r: Type<T>)
        requires
            params@.len() < usize::MAX,
        ensures
            r@ == SType::App(
                Box::new(SType::<T::V>::Con(STyCon::Func, func_kind(params@.len()))),
                types_view(params@).push(ret@),
            ),
    {
        broadcast use lemma_types_view;

        let n = params.len();
        let mut kind = Kind::Star;
        let mut i: usize = 0;
        while i < n + 1
            invariant
                i <= n + 1,
                n == params@.len(),
                n < usize::MAX,
                i == 0 ==> kind == Kind::Star,
                i > 0 ==> kind == func_kind((i - 1) as nat),
            decreases n + 1 - i,
        {
            kind = Kind::Fun(Rc::new((Kind::Star, kind)));
            i = i + 1;
        }
        let con = Type::Con(TyCon::Func, kind);
        let mut params = params;
        let ghost p0 = params@;
        params.push(ret);
        assert(types_view(params@) =~= types_view(p0).push(ret@));
        let r = Type::App(Box::new(con), params);
        assert(r@ == SType::App(Box::new(con@), types_view(params@)));
        r
    }

    pub fn unit() -> (r: Type<T>)
        ensures
            r@ == SType::<T::V>::Con(STyCon::Unit, Kind::Star),
    {
        Type::Con(TyCon::Unit, Kind::Star)
    }
}

/// Copies the elements of `v`, keeping their values.
pub fn clone_vars<T: TVar>(v: &Vec<T>) -> (r: Vec<T>)
    ensures
        r@.len() == v@.len(),
        forall|i: int| 0 <= i < v@.len() ==> #[trigger] r@[i]@ == v@[i]@,
{
    let mut res: Vec<T> = Vec::new();
    let mut i: usize = 0;
    while i < v.len()
        invariant
            i <= v@.len(),
            res@.len() == i,
            forall|j: int| 0 <= j < i ==> #[trigger] res@[j]@ == v@[j]@,
        decreases v@.len() - i,
    {
        res.push(v[i].clone_var());
        i = i + 1;
    }
    res
}

impl<T: TVar> Clone for ForAll<T> {
    fn clone(&self) -> (r: Self)
        ensures
            r.spec_bound_vars().len() == self.spec_bound_vars().len(),
            forall|i: int|
                0 <= i < self.spec_bound_vars().len() ==> #[trigger] r.spec_bound_vars()[i]@
                    == self.spec_bound_vars()[i]@,
            r.spec_ty()@ == self.spec_ty()@,
    {
        ForAll { bound_vars: clone_vars(&self.bound_vars), ty: self.ty.clone() }
    }
}

impl<T: TVar> ForAll<T> {
    pub fn new(bound_vars: Vec<T>, ty: Type<T>) -> (r: Self)
        ensures
            r.spec_bound_vars() == bound_vars@,
            r.spec_ty() == ty,
    {
        ForAll { bound_vars, ty }
    }

    /// The bound variables of this scheme.
    pub closed spec fn spec_bound_vars(&self) -> Seq<T> {
        self.bound_vars@
    }

    /// The type of this scheme.
    pub closed spec fn spec_ty(&self) -> Type<T> {
        self.ty
    }

    pub fn bound_vars(&self) -> (r: &Vec<T>)
        ensures
            r@ == self.spec_bound_vars(),
    {
        &self.bound_vars
    }

    pub fn ty(&self) -> (r: &Type<T>)
        ensures
            *r == self.spec_ty(),
    {
        &self.ty
    }
}

/// How a unification variable is written: `'a` and its identifier.
pub open spec fn tyvar_text(v: TyVar) -> Seq<char> {
    "'a"@ + decimal(v.id as nat)
}

/// How a type is written: a constructor and its kind as `c:k`, an
/// application as `App(f, [a1, a2])`, a variable as `'a` and its identifier.
pub open spec fn type_text(t: SType<TyVar>) -> Seq<char>
    decreases t,
{
    match t {
        SType::Con(c, k) => tycon_text(c) + ":"@ + kind_text(k),
        SType::App(f, args) => "App("@ + type_text(*f) + ", ["@ + types_text(args) + "])"@,
        SType::Var(v) => tyvar_text(v),
    }
}

/// How a list of types is written: each type, separated by `, `.
pub open spec fn types_text(s: Seq<SType<TyVar>>) -> Seq<char>
    decreases s,
{
    if s.len() == 0 {
        Seq::empty()
    } else if s.len() == 1 {
        type_text(s[0])
    } else {
        types_text(s.drop_last()) + ", "@ + type_text(s.last())
    }
}

impl Type<TyVar> {
    /// Appends how this type is written to `s`.
    #[verifier::loop_isolation(false)]
    pub fn push_text(&self, s: &mut String)
        ensures
            final(s)@ == old(s)@ + type_text(self@),
        decreases self,
    {
        match self {
            Type::Con(c, k) => {
                c.push_text(s);
                push_str(s, ":");
                k.push_text(s);
                assert(s@ =~= old(s)@ + type_text(self@));
            },
            Type::Var(v) => {
                push_str(s, "'a");
                push_decimal(s, v.id);
                assert(s@ =~= old(s)@ + type_text(self@));
            },
            Type::App(f, args) => {
                push_str(s, "App(");
                f.push_text(s);
                push_str(s, ", [");
                let ghost s1 = s@;
                let ghost tv = types_view(args@);
                proof {
                    lemma_types_view(args@);
                    assert(tv.subrange(0, 0) =~= Seq::<SType<TyVar>>::empty());
                    assert(s@ =~= s1 + types_text(tv.subrange(0, 0)));
                }
                let mut i: usize = 0;
                while i < args.len()
                    invariant
                        i <= args@.len(),
                        tv == types_view(args@),
                        tv.len() == args@.len(),
                        s@ == s1 + types_text(tv.subrange(0, i as int)),
                    decreases args@.len() - i,
                {
                    proof {
                        assert(decreases_to!(*self => *args));
                        broadcast use vstd::std_specs::vec::axiom_vec_index_decreases;

                        assert(decreases_to!(*args => args@[i as int]));
                        lemma_types_view(args@);
                    }
                    let ghost s2 = s@;
                    if i > 0 {
                        push_str(s, ", ");
                    }
                    args[i].push_text(s);
                    proof {
                        let p = tv.subrange(0, i + 1);
                        assert(p.drop_last() =~= tv.subrange(0, i as int));
                        assert(p.last() == args@[i as int]@);
                        if i == 0 {
                            assert(p.len() == 1 && p[0] == args@[0]@);
                        }
                        assert(s@ =~= s1 + types_text(p));
                    }
                    i = i + 1;
                }
                push_str(s, "])");
                proof {
                    assert(tv.subrange(0, args@.len() as int) =~= tv);
                    assert(s@ =~= old(s)@ + type_text(self@));
                }
            },
        }
    }

    /// How this type is written.
    pub fn to_text(&self) -> (r: String)
        ensures
            r@ == type_text(self@),
    {
        let mut s = String::new();
        self.push_text(&mut s);
        assert(s@ =~= type_text(self@));
        s
    }
}

} // verus!
