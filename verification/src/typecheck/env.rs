//! The typing environment: the type schemes of the symbols in scope, and
//! the unification table of the variables created for inference.

use super::unify::{height, vars_within, SType_, UnificationTable};
use super::{ForAll, Type};
use crate::error::Error;
use crate::idtree::{symbol_text, Symbol};
use crate::text::push_str;
use crate::scoped_map::ScopedMap;
use crate::types::subst::subst_type;
use crate::types::{self, SType, Subst, TyVar};
use vstd::prelude::*;

verus! {

/// Two schemes bind variables of the same values over types of the same
/// value.
pub open spec fn same_scheme(a: ForAll, b: ForAll) -> bool {
    &&& a.spec_bound_vars().len() == b.spec_bound_vars().len()
    &&& forall|i: int|
        0 <= i < a.spec_bound_vars().len() ==> #[trigger] a.spec_bound_vars()[i]@
            == b.spec_bound_vars()[i]@
    &&& a.spec_ty()@ == b.spec_ty()@
}

/// The substitution that `instantiate` builds: each bound variable, in
/// order, to the matching fresh variable (a later binding of one variable
/// wins).
pub open spec fn inst_map(bound: Seq<TyVar>, fresh: Seq<TyVar>) -> Map<u32, SType_>
    decreases bound.len(),
{
    if bound.len() == 0 || fresh.len() == 0 {
        Map::empty()
    } else {
        inst_map(bound.drop_last(), fresh.drop_last()).insert(
            bound.last().id,
            SType::Var(fresh.last()),
        )
    }
}


/// Instantiating distinct bound variables sends the `i`-th of them to the
/// `i`-th fresh variable, and touches no other variable.
pub proof fn law_inst_map(bound: Seq<TyVar>, fresh: Seq<TyVar>)
    requires
        bound.len() == fresh.len(),
        forall|i: int, j: int|
            0 <= i < j < bound.len() ==> #[trigger] bound[i].id != #[trigger] bound[j].id,
    ensures
        forall|i: int|
            0 <= i < bound.len() ==> #[trigger] inst_map(bound, fresh).contains_key(bound[i].id)
                && inst_map(bound, fresh)[bound[i].id] == SType_::Var(fresh[i]),
        forall|id: u32| #[trigger]
            inst_map(bound, fresh).contains_key(id) ==> exists|i: int|
                0 <= i < bound.len() && bound[i].id == id,
    decreases bound.len(),
{
    if bound.len() > 0 {
        let b = bound.drop_last();
        let f = fresh.drop_last();
        assert forall|i: int, j: int| 0 <= i < j < b.len() implies #[trigger] b[i].id
            != #[trigger] b[j].id by {
            assert(b[i] == bound[i] && b[j] == bound[j]);
        }
        law_inst_map(b, f);
        let n = bound.len() - 1;
        assert(inst_map(bound, fresh) == inst_map(b, f).insert(
            bound[n].id,
            SType_::Var(fresh[n]),
        ));
        assert forall|i: int| 0 <= i < bound.len() implies #[trigger] inst_map(
            bound,
            fresh,
        ).contains_key(bound[i].id) && inst_map(bound, fresh)[bound[i].id] == SType_::Var(
            fresh[i],
        ) by {
            if i < n {
                assert(b[i] == bound[i] && f[i] == fresh[i]);
                assert(bound[i].id != bound[n].id);
                assert(inst_map(b, f).contains_key(b[i].id));
            }
        }
        assert forall|id: u32| #[trigger]
            inst_map(bound, fresh).contains_key(id) implies exists|i: int|
                0 <= i < bound.len() && bound[i].id == id by {
            if id != bound[n].id {
                let i = choose|i: int| 0 <= i < b.len() && b[i].id == id;
                assert(bound[i] == b[i]);
            }
        }
    }
}

pub struct Env {
    map: ScopedMap<u32, ForAll>,
    unify_table: UnificationTable,
    /// The last identifier given to a fresh variable.
    next_id: u32,
}

impl Env {
    pub closed spec fn wf(&self) -> bool {
        &&& self.map.wf()
        &&& self.unify_table.wf()
        &&& u32::MAX - self.unify_table.room() <= self.next_id
        &&& forall|id: u32| #[trigger] self.unify_table.dom().contains(id) ==> id <= self.next_id
    }

    /// The schemes in scope, innermost scope last.
    pub closed spec fn scopes(&self) -> Seq<Map<u32, ForAll>> {
        self.map@
    }

    /// The unification table.
    pub closed spec fn table(&self) -> UnificationTable {
        self.unify_table
    }

    /// The identifier of the last fresh variable.
    pub closed spec fn last_id(&self) -> u32 {
        self.next_id
    }

    /// The variables the environment knows.
    pub open spec fn known(&self) -> Set<u32> {
        self.table().dom()
    }

    pub fn new() -> (r: Self)
        ensures
            r.wf(),
            r.scopes() == seq![Map::<u32, ForAll>::empty()],
            r.known() == Set::<u32>::empty(),
            r.last_id() == 0,
            r.table().ground_bound(),
    {
        Env { map: ScopedMap::new(), unify_table: UnificationTable::new(), next_id: 0 }
    }

    /// The scheme of `id`, where one is in scope.
    pub fn lookup(&self, id: &Symbol) -> (r: Result<ForAll, Error>)
        requires
            self.wf(),
        ensures
            match crate::scoped_map::lookup(self.scopes(), id.spec_id()) {
                Some(s) => r matches Ok(f) && same_scheme(f, s),
                None => r matches Err(e) && e.spec_msg() == not_found_text(*id),
            },
    {
        match self.map.get(&id.id()) {
            Some(ty) => Ok(ty.clone()),
            None => Err(Error::new(not_found_msg(id))),
        }
    }

    /// Binds `id` to `ty` in the innermost scope.
    pub fn extend(&mut self, id: &Symbol, ty: ForAll)
        requires
            old(self).wf(),
        ensures
            final(self).wf(),
            final(self).scopes() == old(self).scopes().update(
                old(self).scopes().len() - 1,
                old(self).scopes().last().insert(id.spec_id(), ty),
            ),
            final(self).table() == old(self).table(),
            final(self).last_id() == old(self).last_id(),
    {
        let _ = self.map.insert(id.id(), ty);
    }

    pub fn begin_scope(&mut self)
        requires
            old(self).wf(),
            old(self).scopes().len() <= u32::MAX,
        ensures
            final(self).wf(),
            final(self).scopes() == old(self).scopes().push(Map::empty()),
            final(self).table() == old(self).table(),
            final(self).last_id() == old(self).last_id(),
    {
        proof {
            self.map.lemma_nonempty();
        }
        self.map.begin_scope()
    }

    pub fn end_scope(&mut self)
        requires
            old(self).wf(),
            old(self).scopes().len() > 1,
        ensures
            final(self).wf(),
            final(self).scopes() == old(self).scopes().drop_last(),
            final(self).table() == old(self).table(),
            final(self).last_id() == old(self).last_id(),
    {
        self.map.end_scope()
    }

    /// `ty` with the current substitution applied.
    pub fn apply(&mut self, ty: &Type) -> (r: Type)
        requires
            old(self).wf(),
            vars_within(ty@, old(self).known()),
        ensures
            *final(self) == *old(self),
            r@ == old(self).table().applied(ty@),
    {
        self.unify_table.apply_subst(ty)
    }

    /// Unifies `lhs` with `rhs` in the unification table.
    pub fn unify(&mut self, lhs: &Type, rhs: &Type) -> (r: Result<(), Error>)
        requires
            old(self).wf(),
            vars_within(lhs@, old(self).known()),
            vars_within(rhs@, old(self).known()),
        ensures
            final(self).wf(),
            final(self).known() == old(self).known(),
            final(self).scopes() == old(self).scopes(),
            final(self).last_id() == old(self).last_id(),
            super::unify::unify_first_step(old(self).table(), lhs@, rhs@, r, final(self).table()),
            r is Ok ==> super::unify::same_shape(lhs@, rhs@),
            vars_within(lhs@, Set::empty()) && vars_within(rhs@, Set::empty()) && r is Ok ==> lhs@
                == rhs@,
            lhs@ matches SType::Var(v) ==> (super::unify::bound_meets_ground(old(self).table(), v, rhs@)
                && r is Ok ==> old(self).table().class_value(v.id) == rhs@),
            rhs@ matches SType::Var(v) ==> (super::unify::bound_meets_ground(old(self).table(), v, lhs@)
                && r is Ok ==> old(self).table().class_value(v.id) == lhs@),
            lhs@ matches SType::Var(v) ==> (old(self).table().class_value(v.id) == lhs@ && !(
            rhs@ is Var) && !super::unify::occurs_walk(v.id, rhs@, true, old(self).table().levels()).0
                && height(rhs@) + 2 < u64::MAX ==> r is Ok && final(self).table().class_value(v.id)
                == rhs@ && super::unify::only_class_changed(old(self).table(), final(self).table(), v)),
            old(self).table().ground_bound() && (vars_within(lhs@, Set::empty()) || vars_within(
                rhs@,
                Set::empty(),
            ) || (lhs@ is Var && rhs@ is Var)) ==> final(self).table().ground_bound() && (r is Ok ==> old(self).table().keeps_bindings(
                final(self).table(),
            ) && final(self).table().applied(lhs@) == final(self).table().applied(rhs@)),
            vars_within(lhs@, Set::empty()) && lhs@ == rhs@ && height(lhs@) < u64::MAX ==> r is Ok
                && final(self).table() == old(self).table(),
            lhs@ matches SType::Var(v) ==> (old(self).table().class_value(v.id) == lhs@ && !(rhs@ is Var)
                && vars_within(rhs@, Set::empty()) && height(rhs@) + 2 < u64::MAX ==> r is Ok
                && final(self).table().applied(lhs@) == rhs@),
    {
        self.unify_table.unify(lhs, rhs)
    }

    /// A new variable at `level`, known to the unification table.
    pub fn fresh_tyvar(&mut self, level: u32) -> (tv: TyVar)
        requires
            old(self).wf(),
            old(self).last_id() < u32::MAX,
        ensures
            final(self).wf(),
            tv.id == old(self).last_id() + 1,
            tv.inner.level == level,
            final(self).last_id() == tv.id,
            final(self).known() == old(self).known().insert(tv.id),
            !old(self).known().contains(tv.id),
            final(self).scopes() == old(self).scopes(),
            final(self).table().class_value(tv.id) == SType_::Var(tv),
            final(self).table().level(tv.id) == level,
            old(self).table().ground_bound() ==> final(self).table().ground_bound(),
            forall|id: u32| #[trigger]
                old(self).known().contains(id) ==> final(self).table().class_value(id) == old(
                    self,
                ).table().class_value(id) && final(self).table().level(id) == old(
                    self,
                ).table().level(id),
    {
        let tyvar = TyVar::fresh(&mut self.next_id, level);
        self.unify_table.add(tyvar);
        tyvar
    }

    /// A copy of `scheme`'s type with its bound variables replaced by fresh
    /// variables at `level`; answers these variables too.
    pub fn instantiate(&mut self, scheme: &ForAll, level: u32) -> (r: (Vec<TyVar>, Type))
        requires
            old(self).wf(),
            old(self).last_id() + scheme.spec_bound_vars().len() <= u32::MAX,
        ensures
            final(self).wf(),
            final(self).scopes() == old(self).scopes(),
            r.0@.len() == scheme.spec_bound_vars().len(),
            final(self).last_id() == old(self).last_id() + r.0@.len(),
            forall|i: int|
                0 <= i < r.0@.len() ==> (#[trigger] r.0@[i]).id == old(self).last_id() + i + 1
                    && r.0@[i].inner.level == level,
            r.1@ == subst_type(inst_map(scheme.spec_bound_vars(), r.0@), scheme.spec_ty()@),
            old(self).table().ground_bound() ==> final(self).table().ground_bound(),
            forall|id: u32|
                #[trigger] final(self).known().contains(id) <==> (old(self).known().contains(id)
                    || exists|i: int| 0 <= i < r.0@.len() && r.0@[i].id == id),
            forall|i: int|
                0 <= i < r.0@.len() ==> !old(self).known().contains(#[trigger] r.0@[i].id)
                    && final(self).table().class_value(r.0@[i].id) == SType_::Var(r.0@[i])
                    && final(self).table().level(r.0@[i].id) == level,
            forall|id: u32| #[trigger]
                old(self).known().contains(id) ==> final(self).table().class_value(id) == old(
                    self,
                ).table().class_value(id) && final(self).table().level(id) == old(
                    self,
                ).table().level(id),
    {
        let mut subst = Subst::new();
        let mut tvs: Vec<TyVar> = Vec::new();
        let bvs = scheme.bound_vars();
        let mut i: usize = 0;
        while i < bvs.len()
            invariant
                self.wf(),
                self.scopes() == old(self).scopes(),
                bvs@ == scheme.spec_bound_vars(),
                old(self).last_id() + bvs@.len() <= u32::MAX,
                i <= bvs@.len(),
                tvs@.len() == i,
                self.last_id() == old(self).last_id() + i,
                forall|j: int|
                    0 <= j < i ==> (#[trigger] tvs@[j]).id == old(self).last_id() + j + 1
                        && tvs@[j].inner.level == level,
                subst@ == inst_map(bvs@.subrange(0, i as int), tvs@),
                old(self).table().ground_bound() ==> self.table().ground_bound(),
                forall|id: u32|
                    #[trigger] self.known().contains(id) <==> (old(self).known().contains(id)
                        || exists|j: int| 0 <= j < tvs@.len() && tvs@[j].id == id),
                forall|j: int|
                    0 <= j < tvs@.len() ==> !old(self).known().contains(#[trigger] tvs@[j].id)
                        && self.table().class_value(tvs@[j].id) == SType_::Var(tvs@[j])
                        && self.table().level(tvs@[j].id) == level,
                forall|id: u32| #[trigger]
                    old(self).known().contains(id) ==> self.table().class_value(id) == old(
                        self,
                    ).table().class_value(id) && self.table().level(id) == old(
                        self,
                    ).table().level(id),
            decreases bvs@.len() - i,
        {
            let ghost tvs0 = tvs@;
            let ghost before = *self;
            let tv = self.fresh_tyvar(level);
            proof {
                assert forall|j: int| 0 <= j < tvs0.len() implies #[trigger] tvs0[j].id
                    != tv.id by {
                    assert(before.known().contains(tvs0[j].id));
                }
            }
            tvs.push(tv);
            proof {
                assert forall|id: u32|
                    #[trigger] self.known().contains(id) <==> (old(self).known().contains(id)
                        || exists|j: int| 0 <= j < tvs@.len() && tvs@[j].id == id) by {
                    if exists|j: int| 0 <= j < tvs0.len() && tvs0[j].id == id {
                        let j = choose|j: int| 0 <= j < tvs0.len() && tvs0[j].id == id;
                        assert(tvs@[j] == tvs0[j]);
                    }
                    if exists|j: int| 0 <= j < tvs@.len() && tvs@[j].id == id {
                        let j = choose|j: int| 0 <= j < tvs@.len() && tvs@[j].id == id;
                        if j < tvs0.len() {
                            assert(tvs0[j] == tvs@[j]);
                        }
                    }
                    if id == tv.id {
                        assert(tvs@[tvs0.len() as int] == tv);
                    }
                }
                assert forall|id: u32| #[trigger]
                    old(self).known().contains(id) implies self.table().class_value(id) == old(
                    self,
                ).table().class_value(id) && self.table().level(id) == old(self).table().level(
                    id,
                ) by {
                    assert(before.known().contains(id));
                }
                assert forall|j: int| 0 <= j < tvs@.len() implies !old(self).known().contains(
                    #[trigger] tvs@[j].id,
                ) && self.table().class_value(tvs@[j].id) == SType_::Var(tvs@[j])
                    && self.table().level(tvs@[j].id) == level by {
                    if j < tvs0.len() {
                        assert(tvs@[j] == tvs0[j]);
                        assert(before.known().contains(tvs0[j].id));
                    }
                }
            }
            subst.bind(&bvs[i], types::Type::Var(tv));
            i = i + 1;
            proof {
                let b = bvs@.subrange(0, i as int);
                assert(b.drop_last() =~= bvs@.subrange(0, i - 1));
                assert(tvs@.drop_last() =~= tvs0);
                assert(b.last() == bvs@[i - 1]);
            }
        }
        assert(bvs@.subrange(0, i as int) =~= bvs@);
        let ty = subst.apply(scheme.ty());
        (tvs, ty)
    }
}

/// The message for a symbol with no scheme in scope.
pub open spec fn not_found_text(id: Symbol) -> Seq<char> {
    "Could not find "@ + symbol_text(id.spec_name(), id.spec_id(), id.spec_ty()@)
}

fn not_found_msg(id: &Symbol) -> (msg: String)
    ensures
        msg@ == not_found_text(*id),
{
    let mut s = String::new();
    push_str(&mut s, "Could not find ");
    let t = id.to_text();
    push_str(&mut s, t.as_str());
    assert(s@ =~= not_found_text(*id));
    s
}

} // verus!
