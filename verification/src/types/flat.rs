//! A flat representation of types, in which a type variable matches every
//! type.

use vstd::prelude::*;

verus! {

#[derive(Debug, Hash)]
pub enum Type<T> {
    Bool,
    I32,
    Unit,
    TyCon(T),
    Function { params_ty: Vec<Type<T>>, return_ty: Box<Type<T>> },
    TyVar(T),
}

/// When two types match: base types match themselves, a type variable
/// matches every type on either side, and functions match when their
/// results match and their parameters match one by one. Type constructors
/// match nothing.
pub open spec fn matches_ty<T>(a: Type<T>, b: Type<T>) -> bool
    decreases a,
{
    match (a, b) {
        (Type::Bool, Type::Bool) => true,
        (Type::I32, Type::I32) => true,
        (Type::Unit, Type::Unit) => true,
        (Type::TyVar(_), _) => true,
        (_, Type::TyVar(_)) => true,
        (
            Type::Function { params_ty: lp, return_ty: lr },
            Type::Function { params_ty: rp, return_ty: rr },
        ) => {
            &&& matches_ty(*lr, *rr)
            &&& lp@.len() == rp@.len()
            &&& forall|i: int| 0 <= i < lp@.len() ==> matches_ty(#[trigger] lp@[i], rp@[i])
        },
        _ => false,
    }
}

impl<T> PartialEq for Type<T> {
    fn eq(&self, rhs: &Type<T>) -> (r: bool)
        decreases self,
    {
        match (self, rhs) {
            (Type::Bool, Type::Bool) => true,
            (Type::I32, Type::I32) => true,
            (Type::Unit, Type::Unit) => true,
            (Type::TyVar(_), _) => true,
            (_, Type::TyVar(_)) => true,
            (
                Type::Function { params_ty: lparam, return_ty: lreturn },
                Type::Function { params_ty: rparam, return_ty: rreturn },
            ) => {
                if !(**lreturn).eq(&**rreturn) || lparam.len() != rparam.len() {
                    return false;
                }
                let mut i: usize = 0;
                proof {
                    broadcast use vstd::std_specs::vec::axiom_vec_index_decreases;

                    assert forall|j: int| 0 <= j < lparam@.len() implies decreases_to!(
                        *self => #[trigger] lparam@[j]) by {
                        assert(decreases_to!(*lparam => lparam@[j]));
                    }
                }
                while i < lparam.len()
                    invariant
                        *self == (Type::Function { params_ty: *lparam, return_ty: *lreturn }),
                        *rhs == (Type::Function { params_ty: *rparam, return_ty: *rreturn }),
                        matches_ty(**lreturn, **rreturn),
                        forall|j: int|
                            0 <= j < lparam@.len() ==> decreases_to!(*self => #[trigger] lparam@[j]),
                        lparam@.len() == rparam@.len(),
                        i <= lparam@.len(),
                        forall|j: int| 0 <= j < i ==> matches_ty(#[trigger] lparam@[j], rparam@[j]),
                    decreases lparam@.len() - i,
                {
                    if !lparam[i].eq(&rparam[i]) {
                        return false;
                    }
                    i = i + 1;
                }
                true
            },
            _ => false,
        }
    }
}

impl<T> Eq for Type<T> {

}

impl<T> vstd::std_specs::cmp::PartialEqSpecImpl for Type<T> {
    open spec fn obeys_eq_spec() -> bool {
        true
    }

    open spec fn eq_spec(&self, rhs: &Type<T>) -> bool {
        matches_ty(*self, *rhs)
    }
}

/// Matching is symmetric.
pub proof fn law_match_symmetric<T>(a: Type<T>, b: Type<T>)
    ensures
        matches_ty(a, b) == matches_ty(b, a),
    decreases a,
{
    match (a, b) {
        (
            Type::Function { params_ty: lp, return_ty: lr },
            Type::Function { params_ty: rp, return_ty: rr },
        ) => {
            law_match_symmetric(*lr, *rr);
            assert forall|i: int| 0 <= i < lp@.len() && lp@.len() == rp@.len() implies matches_ty(
                #[trigger] lp@[i],
                rp@[i],
            ) == matches_ty(rp@[i], lp@[i]) by {
                assert(decreases_to!(a => lp));
                law_match_symmetric(lp@[i], rp@[i]);
            }
        },
        _ => {},
    }
}

/// A type variable matches every type, on either side.
pub proof fn law_var_matches_all<T>(v: T, t: Type<T>)
    ensures
        matches_ty(Type::TyVar(v), t),
        matches_ty(t, Type::TyVar(v)),
{
}

} // verus!
