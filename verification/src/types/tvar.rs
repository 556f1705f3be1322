//! Unification variables.

use super::TVar;
use vstd::prelude::*;

verus! {

/// The level of a type variable: the depth of the `let` at which it was
/// introduced. A variable whose level is deeper than the current one may be
/// generalized.
#[derive(Debug, Clone, Copy, Hash, PartialEq, Eq)]
pub struct InnerTyVar {
    pub level: u32,
}

/// A unification variable. Its identity is `id`; `inner` records the level
/// it was created at. The current level of a variable is kept by the
/// unification table, which may lower it.
#[derive(Debug, Clone, Copy, Hash, PartialEq, Eq)]
pub struct TyVar {
    pub id: u32,
    pub inner: InnerTyVar,
}

impl View for TyVar {
    type V = TyVar;

    open spec fn view(&self) -> TyVar {
        *self
    }
}

impl TVar for TyVar {
    fn clone_var(&self) -> (r: Self) {
        *self
    }
}

impl TyVar {
    /// A new variable at `level`, numbered from `next_id`, which it advances.
    pub fn fresh(next_id: &mut u32, level: u32) -> (tv: TyVar)
        requires
            *old(next_id) < u32::MAX,
        ensures
            tv.id == *old(next_id) + 1,
            *final(next_id) == *old(next_id) + 1,
            tv.inner.level == level,
    {
        let inner = InnerTyVar { level };
        TyVar { id: crate::fresh_id(next_id), inner }
    }
}

} // verus!
