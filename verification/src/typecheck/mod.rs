//! Type inference: the unification table and the typing environment.

pub mod env;
pub mod subst;
pub mod unify;

use vstd::prelude::*;

verus! {

/// Types over unification variables.
pub type Type = crate::types::Type<crate::types::TyVar>;

/// Type schemes over unification variables.
pub type ForAll = crate::types::ForAll<crate::types::TyVar>;

} // verus!
