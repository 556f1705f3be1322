//! Babel: a small, statically typed, call-by-value language with
//! parametric polymorphism. This crate holds the front and middle of its
//! compiler: the term parser, name resolution, lambda lifting, the
//! unification table and typing environment that inference works on, the
//! pass that writes solved types back into a program, and the data
//! structures these rest on.

pub mod ast;
pub mod error;
pub mod hir;
pub mod idtree;
pub mod lambda_lift;
pub mod ir;
pub mod mir;
pub mod monoir;
pub mod parsing;
pub mod rename;
pub mod scoped_map;
pub mod text;
pub mod typecheck;
pub mod types;
pub mod union_find;
pub mod utils;
pub mod xir;

pub use error::Error;

use vstd::prelude::*;

verus! {

/// The result type used throughout the compiler.
pub type Result<T> = std::result::Result<T, Error>;

/// The larger of two naturals.
pub open spec fn max_nat(a: nat, b: nat) -> nat {
    if a >= b {
        a
    } else {
        b
    }
}

/// Advances the identifier counter and answers the new identifier. Every
/// name, symbol and type variable gets its own identifier this way.
pub fn fresh_id(count: &mut u32) -> (id: u32)
    requires
        *old(count) < u32::MAX,
    ensures
        id == *old(count) + 1,
        *final(count) == id,
{
    *count = *count + 1;
    *count
}

/// A compiler pass: turns its input into its output, or fails.
pub trait Pass: Sized {
    type Input;
    type Output;

    fn run(self, source: Self::Input) -> Result<Self::Output>;
}

/// A call of `f` on `x` can give `Ok`.
pub open spec fn gives_ok<I, O, F: Fn(I) -> Result<O>>(f: F, x: I) -> bool {
    exists|o: O| call_ensures(f, (x,), Ok(o))
}

/// A call of `f` on `x` can give `Ok`.
pub open spec fn gives_ok_ref<I, O, F: Fn(&I) -> Result<O>>(f: F, x: &I) -> bool {
    exists|o: O| call_ensures(f, (x,), Ok(o))
}

/// Helpers to map functions over vectors.
pub struct Vector {}

impl Vector {
    /// `f` applied to each element of `v`, in order.
    pub fn fmap<I, O, F: Fn(I) -> O>(v: Vec<I>, f: F) -> (r: Vec<O>)
        requires
            forall|i: int| 0 <= i < v@.len() ==> call_requires(f, (#[trigger] v@[i],)),
        ensures
            r@.len() == v@.len(),
            forall|i: int| 0 <= i < v@.len() ==> call_ensures(f, (v@[i],), #[trigger] r@[i]),
    {
        let mut res: Vec<O> = Vec::new();
        let ghost v0 = v@;
        let mut rest = v;
        let n = rest.len();
        let mut i: usize = 0;
        while i < n
            invariant
                n == v0.len(),
                i <= n,
                rest@ == v0.subrange(i as int, n as int),
                v@ == v0,
                res@.len() == i,
                forall|j: int| 0 <= j < v0.len() ==> call_requires(f, (#[trigger] v0[j],)),
                forall|j: int| 0 <= j < i ==> call_ensures(f, (v0[j],), #[trigger] res@[j]),
            decreases n - i,
        {
            let x = rest.remove(0);
            assert(x == v0[i as int]);
            res.push(f(x));
            i = i + 1;
            assert(rest@ =~= v0.subrange(i as int, n as int));
        }
        res
    }

    /// `f` applied to each element of `v`, in order, up to the first
    /// failure, which is the result.
    pub fn map<I, O, F: Fn(&I) -> Result<O>>(v: &[I], f: F) -> (r: Result<Vec<O>>)
        requires
            forall|i: int| 0 <= i < v@.len() ==> call_requires(f, (&#[trigger] v@[i],)),
        ensures
            match r {
                Ok(out) => out@.len() == v@.len() && forall|i: int|
                    0 <= i < v@.len() ==> call_ensures(f, (&v@[i],), Ok(#[trigger] out@[i])),
                Err(e) => exists|k: int|
                    0 <= k < v@.len() && call_ensures(f, (&v@[k],), Err(e)) && forall|j: int|
                        0 <= j < k ==> gives_ok_ref(f, &#[trigger] v@[j]),
            },
    {
        let mut res: Vec<O> = Vec::new();
        let mut i: usize = 0;
        while i < v.len()
            invariant
                i <= v@.len(),
                res@.len() == i,
                forall|j: int| 0 <= j < v@.len() ==> call_requires(f, (&#[trigger] v@[j],)),
                forall|j: int| 0 <= j < i ==> call_ensures(f, (&v@[j],), Ok(#[trigger] res@[j])),
            decreases v@.len() - i,
        {
            match f(&v[i]) {
                Ok(o) => res.push(o),
                Err(e) => {
                    assert forall|j: int| 0 <= j < i implies gives_ok_ref(f, &#[trigger] v@[j]) by {
                        assert(call_ensures(f, (&v@[j],), Ok(res@[j])));
                    }
                    return Err(e);
                },
            }
            i = i + 1;
        }
        Ok(res)
    }

    /// `f` applied to each element of `v`, in order, up to the first
    /// failure, which is the result.
    pub fn mapt<I, O, F: Fn(I) -> Result<O>>(v: Vec<I>, f: F) -> (r: Result<Vec<O>>)
        requires
            forall|i: int| 0 <= i < v@.len() ==> call_requires(f, (#[trigger] v@[i],)),
        ensures
            match r {
                Ok(out) => out@.len() == v@.len() && forall|i: int|
                    0 <= i < v@.len() ==> call_ensures(f, (v@[i],), Ok(#[trigger] out@[i])),
                Err(e) => exists|k: int|
                    0 <= k < v@.len() && call_ensures(f, (v@[k],), Err(e)) && forall|j: int|
                        0 <= j < k ==> gives_ok(f, #[trigger] v@[j]),
            },
    {
        let mut res: Vec<O> = Vec::new();
        let ghost v0 = v@;
        let mut rest = v;
        let n = rest.len();
        let mut i: usize = 0;
        while i < n
            invariant
                n == v0.len(),
                i <= n,
                rest@ == v0.subrange(i as int, n as int),
                v@ == v0,
                res@.len() == i,
                forall|j: int| 0 <= j < v0.len() ==> call_requires(f, (#[trigger] v0[j],)),
                forall|j: int| 0 <= j < i ==> call_ensures(f, (v0[j],), Ok(#[trigger] res@[j])),
            decreases n - i,
        {
            let x = rest.remove(0);
            assert(x == v0[i as int]);
            match f(x) {
                Ok(o) => res.push(o),
                Err(e) => {
                    assert(call_ensures(f, (v0[i as int],), Err(e)));
                    assert forall|j: int| 0 <= j < i implies gives_ok(f, #[trigger] v0[j]) by {
                        assert(call_ensures(f, (v0[j],), Ok(res@[j])));
                    }
                    assert(exists|k: int|
                        0 <= k < v0.len() && call_ensures(f, (v0[k],), Err(e)) && forall|j: int|
                            0 <= j < k ==> gives_ok(f, #[trigger] v0[j]));
                    return Err(e);
                },
            }
            i = i + 1;
            assert(rest@ =~= v0.subrange(i as int, n as int));
        }
        Ok(res)
    }
}

} // verus!
