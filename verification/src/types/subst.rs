//! Substitutions of types for type variables.

use std::collections::HashMap;
use super::{lemma_types_view, types_view, SType, TyVar, Type};
use vstd::prelude::*;

verus! {

broadcast use vstd::std_specs::hash::group_hash_axioms;

/// The result of replacing in `t` each variable bound in `m`.
pub open spec fn subst_type(m: Map<u32, SType<TyVar>>, t: SType<TyVar>) -> SType<TyVar>
    decreases t,
{
    match t {
        SType::Con(c, k) => SType::Con(c, k),
        SType::App(f, args) => SType::App(Box::new(subst_type(m, *f)), subst_types(m, args)),
        SType::Var(tv) => if m.contains_key(tv.id) {
            m[tv.id]
        } else {
            SType::Var(tv)
        },
    }
}

/// `subst_type` on each element of a sequence.
pub open spec fn subst_types(m: Map<u32, SType<TyVar>>, s: Seq<SType<TyVar>>) -> Seq<SType<TyVar>>
    decreases s,
{
    if s.len() == 0 {
        Seq::empty()
    } else {
        subst_types(m, s.drop_last()).push(subst_type(m, s.last()))
    }
}

pub broadcast proof fn lemma_subst_types(m: Map<u32, SType<TyVar>>, s: Seq<SType<TyVar>>)
    ensures
        #[trigger] subst_types(m, s).len() == s.len(),
        forall|i: int| 0 <= i < s.len() ==> #[trigger] subst_types(m, s)[i] == subst_type(m, s[i]),
    decreases s.len(),
{
    if s.len() > 0 {
        lemma_subst_types(m, s.drop_last());
    }
}

/// A type without variables bound in `m` is left as it is.
pub open spec fn free_of(m: Map<u32, SType<TyVar>>, t: SType<TyVar>) -> bool
    decreases t,
{
    match t {
        SType::Con(_, _) => true,
        SType::App(f, args) => free_of(m, *f) && forall|i: int|
            0 <= i < args.len() ==> free_of(m, #[trigger] args[i]),
        SType::Var(tv) => !m.contains_key(tv.id),
    }
}

#[derive(Debug)]
pub struct Subst {
    map: HashMap<u32, Type<TyVar>>,
}

impl View for Subst {
    type V = Map<u32, SType<TyVar>>;

    closed spec fn view(&self) -> Map<u32, SType<TyVar>> {
        self.map@.map_values(|t: Type<TyVar>| t@)
    }
}

impl Default for Subst {
    fn default() -> (s: Self)
        ensures
            s@ == Map::<u32, SType<TyVar>>::empty(),
    {
        Self::new()
    }
}

impl Subst {
    pub fn new() -> (s: Self)
        ensures
            s@ == Map::<u32, SType<TyVar>>::empty(),
    {
        let s = Subst { map: HashMap::new() };
        assert(s@ =~= Map::<u32, SType<TyVar>>::empty());
        s
    }

    /// Binds `tyvar` to `ty`.
    pub fn bind(&mut self, tyvar: &TyVar, ty: Type<TyVar>)
        ensures
            final(self)@ == old(self)@.insert(tyvar.id, ty@),
    {
        self.map.insert(tyvar.id, ty);
        assert(self@ =~= old(self)@.insert(tyvar.id, ty@));
    }

    /// `ty` with each variable bound here replaced by its binding.
    pub fn apply(&self, ty: &Type<TyVar>) -> (r: Type<TyVar>)
        ensures
            r@ == subst_type(self@, ty@),
        decreases ty,
    {
        broadcast use lemma_types_view, lemma_subst_types;

        match ty {
            Type::Con(con, kind) => Type::Con(con.clone(), kind.clone()),
            Type::App(con, args) => {
                let con2 = self.apply(con);
                let mut args2: Vec<Type<TyVar>> = Vec::new();
                let mut i: usize = 0;
                proof {
                    broadcast use vstd::std_specs::vec::axiom_vec_index_decreases;

                    assert forall|j: int| 0 <= j < args@.len() implies decreases_to!(*ty => #[trigger] args@[j]) by {
                        assert(decreases_to!(*args => args@[j]));
                    }
                }
                while i < args.len()
                    invariant
                        i <= args@.len(),
                        args2@.len() == i,
                        forall|j: int| 0 <= j < args@.len() ==> decreases_to!(*ty => #[trigger] args@[j]),
                        forall|j: int| 0 <= j < i ==> #[trigger] args2@[j]@ == subst_type(self@, args@[j]@),
                    decreases args@.len() - i,
                {
                    args2.push(self.apply(&args[i]));
                    i = i + 1;
                }
                assert(types_view(args2@) =~= subst_types(self@, types_view(args@)));
                Type::App(Box::new(con2), args2)
            },
            Type::Var(tv) => match self.map.get(&tv.id) {
                Some(t) => t.clone(),
                None => Type::Var(tv.clone()),
            },
        }
    }
}

/// Applying a substitution leaves a type free of its variables as it is.
pub proof fn law_subst_free(m: Map<u32, SType<TyVar>>, t: SType<TyVar>)
    requires
        free_of(m, t),
    ensures
        subst_type(m, t) == t,
    decreases t,
{
    broadcast use lemma_subst_types;

    match t {
        SType::App(f, args) => {
            law_subst_free(m, *f);
            assert forall|i: int| 0 <= i < args.len() implies subst_type(m, #[trigger] args[i]) == args[i] by {
                law_subst_free(m, args[i]);
            }
            assert(subst_types(m, args) =~= args);
        },
        _ => {},
    }
}

/// The empty substitution changes nothing.
pub proof fn law_subst_empty(t: SType<TyVar>)
    ensures
        subst_type(Map::empty(), t) == t,
    decreases t,
{
    broadcast use lemma_subst_types;

    match t {
        SType::App(f, args) => {
            law_subst_empty(*f);
            assert forall|i: int| 0 <= i < args.len() implies subst_type(Map::empty(), #[trigger] args[i]) == args[i] by {
                law_subst_empty(args[i]);
            }
            assert(subst_types(Map::empty(), args) =~= args);
        },
        _ => {},
    }
}

} // verus!
