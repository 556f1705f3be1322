//! Lambda lifting: moves every function that is not bound at the top level
//! out to a top-level declaration of its own, so that functions only stand
//! at the top of top-level bindings.
//!
//! A lambda bound by a nested `let` becomes a top-level declaration under
//! the let's symbol, and the `let` binds a new symbol to that declaration.
//! An anonymous lambda becomes a top-level declaration under a new symbol,
//! which takes its place.

use crate::scoped_map::{lookup, ScopedMap};
use crate::text::{decimal, numbered};
use crate::types;
use crate::xir::{Bind, Decl, Expr, If, Let, Module, Symbol};
use crate::{max_nat, Error, Pass, Result};
use std::rc::Rc;
use vstd::prelude::*;

verus! {

/// `e` holds no lambda.
pub open spec fn lambda_free(e: Expr) -> bool
    decreases e,
{
    match e {
        Expr::Lam(_, _, _) => false,
        Expr::If(i) => {
            proof {
                i.lemma_parts();
            }
            lambda_free(i.spec_cond()) && lambda_free(i.spec_texpr()) && lambda_free(
                i.spec_fexpr(),
            )
        },
        Expr::Let(l) => {
            proof {
                l.lemma_parts();
            }
            lambda_free(l.spec_bind().spec_expr()) && lambda_free(l.spec_expr())
        },
        Expr::App(f, args) => lambda_free(*f) && forall|i: int|
            0 <= i < args@.len() ==> lambda_free(#[trigger] args@[i]),
        Expr::TyLam(_, b) => lambda_free(*b),
        Expr::TyApp(b, _) => lambda_free(*b),
        _ => true,
    }
}

/// What may stand at the top of a top-level binding: a lambda whose body
/// holds no lambda, or an expression that holds none.
pub open spec fn top_ok(e: Expr) -> bool {
    match e {
        Expr::Lam(_, body, _) => lambda_free(*body),
        _ => lambda_free(e),
    }
}

/// A declaration in which lambdas only stand at the top of bindings.
pub open spec fn decl_lifted(d: Decl) -> bool {
    match d {
        Decl::Extern(_) => true,
        Decl::Let(binds) => forall|i: int|
            0 <= i < binds@.len() ==> top_ok(#[trigger] binds@[i].spec_expr()),
    }
}

/// Every declaration of `s` is lifted.
pub open spec fn all_lifted(s: Seq<Decl>) -> bool {
    forall|i: int| 0 <= i < s.len() ==> decl_lifted(#[trigger] s[i])
}

/// Every symbol of `e` has an identifier below `n`.
pub open spec fn ids_below(e: Expr, n: nat) -> bool
    decreases e,
{
    match e {
        Expr::Var(s) => s.spec_id() < n,
        Expr::If(i) => {
            proof {
                i.lemma_parts();
            }
            ids_below(i.spec_cond(), n) && ids_below(i.spec_texpr(), n) && ids_below(
                i.spec_fexpr(),
                n,
            )
        },
        Expr::Let(l) => {
            proof {
                l.lemma_parts();
            }
            &&& l.spec_bind().spec_symbol().spec_id() < n
            &&& ids_below(l.spec_bind().spec_expr(), n)
            &&& ids_below(l.spec_expr(), n)
        },
        Expr::Lam(params, body, _) => {
            &&& forall|i: int| 0 <= i < params@.len() ==> (#[trigger] params@[i]).spec_id() < n
            &&& ids_below(*body, n)
        },
        Expr::App(f, args) => ids_below(*f, n) && forall|i: int|
            0 <= i < args@.len() ==> ids_below(#[trigger] args@[i], n),
        Expr::TyLam(_, b) => ids_below(*b, n),
        Expr::TyApp(b, _) => ids_below(*b, n),
        _ => true,
    }
}

/// Every symbol of declaration `d` has an identifier below `n`.
pub open spec fn decl_ids_below(d: Decl, n: nat) -> bool {
    match d {
        Decl::Extern(s) => s.spec_id() < n,
        Decl::Let(binds) => forall|i: int|
            0 <= i < binds@.len() ==> (#[trigger] binds@[i]).spec_symbol().spec_id() < n
                && ids_below(binds@[i].spec_expr(), n),
    }
}

/// The largest identifier of a symbol in `e`, or 0.
pub open spec fn expr_max_id(e: Expr) -> nat
    decreases e,
{
    match e {
        Expr::Var(s) => s.spec_id() as nat,
        Expr::If(i) => {
            proof {
                i.lemma_parts();
            }
            max_nat(
                expr_max_id(i.spec_cond()),
                max_nat(expr_max_id(i.spec_texpr()), expr_max_id(i.spec_fexpr())),
            )
        },
        Expr::Let(l) => {
            proof {
                l.lemma_parts();
            }
            max_nat(
                l.spec_bind().spec_symbol().spec_id() as nat,
                max_nat(expr_max_id(l.spec_bind().spec_expr()), expr_max_id(l.spec_expr())),
            )
        },
        Expr::Lam(params, body, _) => max_nat(expr_max_id(*body), syms_max_id(params@)),
        Expr::App(f, args) => max_nat(expr_max_id(*f), exprs_max_id(args@)),
        Expr::TyLam(_, b) => expr_max_id(*b),
        Expr::TyApp(b, _) => expr_max_id(*b),
        _ => 0,
    }
}

pub open spec fn exprs_max_id(s: Seq<Expr>) -> nat
    decreases s,
{
    if s.len() == 0 {
        0
    } else {
        max_nat(exprs_max_id(s.drop_last()), expr_max_id(s.last()))
    }
}

pub open spec fn syms_max_id(s: Seq<Symbol>) -> nat
    decreases s.len(),
{
    if s.len() == 0 {
        0
    } else {
        max_nat(syms_max_id(s.drop_last()), s.last().spec_id() as nat)
    }
}

pub open spec fn binds_max_id(s: Seq<Bind>) -> nat
    decreases s.len(),
{
    if s.len() == 0 {
        0
    } else {
        max_nat(
            binds_max_id(s.drop_last()),
            max_nat(expr_max_id(s.last().spec_expr()), s.last().spec_symbol().spec_id() as nat),
        )
    }
}

/// The largest identifier of a symbol in declaration `d`, or 0.
pub open spec fn decl_max_id(d: Decl) -> nat {
    match d {
        Decl::Extern(s) => s.spec_id() as nat,
        Decl::Let(binds) => binds_max_id(binds@),
    }
}

pub open spec fn decls_max_id(s: Seq<Decl>) -> nat
    decreases s.len(),
{
    if s.len() == 0 {
        0
    } else {
        max_nat(decls_max_id(s.drop_last()), decl_max_id(s.last()))
    }
}

/// The largest identifier of a symbol in the modules, or 0.
pub open spec fn modules_max_id(s: Seq<Module>) -> nat
    decreases s.len(),
{
    if s.len() == 0 {
        0
    } else {
        max_nat(modules_max_id(s.drop_last()), decls_max_id(s.last().spec_decls()))
    }
}

/// The larger of two identifiers.
fn larger(a: u32, b: u32) -> (r: u32)
    ensures
        r >= a && r >= b,
        r == a || r == b,
{
    if a >= b {
        a
    } else {
        b
    }
}

proof fn lemma_ids_below_mono(e: Expr, n: nat, m: nat)
    requires
        ids_below(e, n),
        n <= m,
    ensures
        ids_below(e, m),
    decreases e,
{
    match e {
        Expr::If(i) => {
            i.lemma_parts();
            lemma_ids_below_mono(i.spec_cond(), n, m);
            lemma_ids_below_mono(i.spec_texpr(), n, m);
            lemma_ids_below_mono(i.spec_fexpr(), n, m);
        },
        Expr::Let(l) => {
            l.lemma_parts();
            lemma_ids_below_mono(l.spec_bind().spec_expr(), n, m);
            lemma_ids_below_mono(l.spec_expr(), n, m);
        },
        Expr::Lam(_, body, _) => {
            lemma_ids_below_mono(*body, n, m);
        },
        Expr::App(f, args) => {
            lemma_ids_below_mono(*f, n, m);
            assert forall|i: int| 0 <= i < args@.len() implies ids_below(#[trigger] args@[i], m) by {
                assert(decreases_to!(e => args@[i])) by {
                    broadcast use vstd::std_specs::vec::axiom_vec_index_decreases;

                    assert(decreases_to!(args => args@[i]));
                }
                lemma_ids_below_mono(args@[i], n, m);
            }
        },
        Expr::TyLam(_, b) => {
            lemma_ids_below_mono(*b, n, m);
        },
        Expr::TyApp(b, _) => {
            lemma_ids_below_mono(*b, n, m);
        },
        _ => {},
    }
}

/// The largest identifier of a symbol in `e`, or 0.
fn max_id(e: &Expr) -> (r: u32)
    ensures
        ids_below(*e, r as nat + 1),
        r == expr_max_id(*e),
    decreases *e,
{
    match e {
        Expr::Var(s) => s.id(),
        Expr::If(i) => {
            proof {
                i.lemma_parts();
            }
            let a = max_id(i.cond());
            let b = max_id(i.texpr());
            let c = max_id(i.fexpr());
            let r = larger(a, larger(b, c));
            proof {
                lemma_ids_below_mono(i.spec_cond(), a as nat + 1, r as nat + 1);
                lemma_ids_below_mono(i.spec_texpr(), b as nat + 1, r as nat + 1);
                lemma_ids_below_mono(i.spec_fexpr(), c as nat + 1, r as nat + 1);
            }
            r
        },
        Expr::Let(l) => {
            proof {
                l.lemma_parts();
            }
            let a = l.bind().symbol().id();
            let b = max_id(l.bind().expr());
            let c = max_id(l.expr());
            let r = larger(a, larger(b, c));
            proof {
                lemma_ids_below_mono(l.spec_bind().spec_expr(), b as nat + 1, r as nat + 1);
                lemma_ids_below_mono(l.spec_expr(), c as nat + 1, r as nat + 1);
            }
            r
        },
        Expr::Lam(params, body, _) => {
            let mut r = max_id(body);
            let ghost r0 = r;
            let mut i: usize = 0;
            while i < params.len()
                invariant
                    i <= params@.len(),
                    r >= r0,
                    forall|j: int| 0 <= j < i ==> (#[trigger] params@[j]).spec_id() <= r,
                    r == max_nat(r0 as nat, syms_max_id(params@.subrange(0, i as int))),
                decreases params@.len() - i,
            {
                proof {
                    assert(params@.subrange(0, i + 1).drop_last() =~= params@.subrange(0, i as int));
                }
                r = larger(r, params[i].id());
                i = i + 1;
            }
            proof {
                assert(params@.subrange(0, params@.len() as int) =~= params@);
            }
            proof {
                lemma_ids_below_mono(**body, r0 as nat + 1, r as nat + 1);
            }
            r
        },
        Expr::App(f, args) => {
            let mut r = max_id(f);
            let ghost r0 = r;
            let mut i: usize = 0;
            proof {
                broadcast use vstd::std_specs::vec::axiom_vec_index_decreases;

                assert forall|j: int| 0 <= j < args@.len() implies decreases_to!(
                    *e => #[trigger] args@[j]) by {
                    assert(decreases_to!(*args => args@[j]));
                }
            }
            while i < args.len()
                invariant
                    i <= args@.len(),
                    r >= r0,
                    forall|j: int| 0 <= j < args@.len() ==> decreases_to!(*e => #[trigger] args@[j]),
                    forall|j: int| 0 <= j < i ==> ids_below(#[trigger] args@[j], r as nat + 1),
                    r == max_nat(r0 as nat, exprs_max_id(args@.subrange(0, i as int))),
                decreases args@.len() - i,
            {
                proof {
                    assert(args@.subrange(0, i + 1).drop_last() =~= args@.subrange(0, i as int));
                }
                let a = max_id(&args[i]);
                let ghost r1 = r;
                r = larger(r, a);
                proof {
                    lemma_ids_below_mono(args@[i as int], a as nat + 1, r as nat + 1);
                    assert forall|j: int| 0 <= j < i + 1 implies ids_below(
                        #[trigger] args@[j],
                        r as nat + 1,
                    ) by {
                        if j < i {
                            lemma_ids_below_mono(args@[j], r1 as nat + 1, r as nat + 1);
                        }
                    }
                }
                i = i + 1;
            }
            proof {
                lemma_ids_below_mono(**f, r0 as nat + 1, r as nat + 1);
                assert(args@.subrange(0, args@.len() as int) =~= args@);
            }
            r
        },
        Expr::TyLam(_, b) => max_id(b),
        Expr::TyApp(b, _) => max_id(b),
        _ => 0,
    }
}

/// The largest identifier of a symbol in the modules, or 0.
fn max_module_id(modules: &Vec<Module>) -> (r: u32)
    ensures
        r == modules_max_id(modules@),
        forall|i: int, j: int|
            0 <= i < modules@.len() && 0 <= j < modules@[i].spec_decls().len()
                ==> decl_ids_below(#[trigger] modules@[i].spec_decls()[j], r as nat + 1),
{
    let mut r: u32 = 0;
    let mut i: usize = 0;
    while i < modules.len()
        invariant
            i <= modules@.len(),
            forall|a: int, j: int|
                0 <= a < i && 0 <= j < modules@[a].spec_decls().len() ==> decl_ids_below(
                    #[trigger] modules@[a].spec_decls()[j],
                    r as nat + 1,
                ),
            r == modules_max_id(modules@.subrange(0, i as int)),
        decreases modules@.len() - i,
    {
        let decls = modules[i].decls();
        let ghost r0 = r;
        proof {
            assert(modules@.subrange(0, i + 1).drop_last() =~= modules@.subrange(0, i as int));
        }
        let mut j: usize = 0;
        while j < decls.len()
            invariant
                i < modules@.len(),
                decls@ == modules@[i as int].spec_decls(),
                j <= decls@.len(),
                r == max_nat(r0 as nat, decls_max_id(decls@.subrange(0, j as int))),
                forall|a: int, k: int|
                    0 <= a < i && 0 <= k < modules@[a].spec_decls().len() ==> decl_ids_below(
                        #[trigger] modules@[a].spec_decls()[k],
                        r as nat + 1,
                    ),
                forall|k: int| 0 <= k < j ==> decl_ids_below(#[trigger] decls@[k], r as nat + 1),
            decreases decls@.len() - j,
        {
            let ghost r1 = r;
            proof {
                assert(decls@.subrange(0, j + 1).drop_last() =~= decls@.subrange(0, j as int));
            }
            let m = match &decls[j] {
                Decl::Extern(s) => s.id(),
                Decl::Let(binds) => {
                    let mut m: u32 = 0;
                    let mut k: usize = 0;
                    while k < binds.len()
                        invariant
                            k <= binds@.len(),
                            m == binds_max_id(binds@.subrange(0, k as int)),
                            forall|b: int|
                                0 <= b < k ==> (#[trigger] binds@[b]).spec_symbol().spec_id() <= m
                                    && ids_below(binds@[b].spec_expr(), m as nat + 1),
                        decreases binds@.len() - k,
                    {
                        let ghost m1 = m;
                        proof {
                            assert(binds@.subrange(0, k + 1).drop_last() =~= binds@.subrange(0, k as int));
                        }
                        let e = max_id(binds[k].expr());
                        m = larger(m, larger(e, binds[k].symbol().id()));
                        proof {
                            lemma_ids_below_mono(binds@[k as int].spec_expr(), e as nat + 1, m as nat + 1);
                            assert forall|b: int| 0 <= b < k + 1 implies (#[trigger] binds@[b]).spec_symbol().spec_id() <= m
                                && ids_below(binds@[b].spec_expr(), m as nat + 1) by {
                                if b < k {
                                    lemma_ids_below_mono(binds@[b].spec_expr(), m1 as nat + 1, m as nat + 1);
                                }
                            }
                        }
                        k = k + 1;
                    }
                    proof {
                        assert(binds@.subrange(0, binds@.len() as int) =~= binds@);
                    }
                    m
                },
            };
            r = larger(r, m);
            proof {
                assert forall|a: int, k: int|
                    0 <= a < i && 0 <= k < modules@[a].spec_decls().len() implies decl_ids_below(
                        #[trigger] modules@[a].spec_decls()[k],
                        r as nat + 1,
                    ) by {
                    lemma_decl_ids_mono(modules@[a].spec_decls()[k], r1 as nat + 1, r as nat + 1);
                }
                assert forall|k: int| 0 <= k < j + 1 implies decl_ids_below(#[trigger] decls@[k], r as nat + 1) by {
                    if k < j {
                        lemma_decl_ids_mono(decls@[k], r1 as nat + 1, r as nat + 1);
                    } else {
                        lemma_decl_ids_mono(decls@[k], m as nat + 1, r as nat + 1);
                    }
                }
            }
            j = j + 1;
        }
        proof {
            assert(decls@.subrange(0, decls@.len() as int) =~= decls@);
        }
        i = i + 1;
    }
    proof {
        assert(modules@.subrange(0, modules@.len() as int) =~= modules@);
    }
    r
}

proof fn lemma_decl_ids_mono(d: Decl, n: nat, m: nat)
    requires
        decl_ids_below(d, n),
        n <= m,
    ensures
        decl_ids_below(d, m),
{
    if let Decl::Let(binds) = d {
        assert forall|i: int| 0 <= i < binds@.len() implies (#[trigger] binds@[i]).spec_symbol().spec_id() < m
            && ids_below(binds@[i].spec_expr(), m) by {
            lemma_ids_below_mono(binds@[i].spec_expr(), n, m);
        }
    }
}

/// The identifiers that lifting `e` takes at binding depth `depth`: two
/// for each anonymous lambda, one for each lambda bound by a `let` below
/// the top level.
pub open spec fn lift_ids(e: Expr, depth: nat, let_bound: bool) -> nat
    decreases e,
{
    match e {
        Expr::If(i) => {
            proof {
                i.lemma_parts();
            }
            lift_ids(i.spec_cond(), depth, false) + lift_ids(i.spec_texpr(), depth, false)
                + lift_ids(i.spec_fexpr(), depth, false)
        },
        Expr::Let(l) => {
            proof {
                l.lemma_parts();
            }
            lift_ids(l.spec_bind().spec_expr(), depth + 1, true) + (if l.spec_bind().spec_expr() is Lam
                && depth >= 1 {
                1nat
            } else {
                0nat
            }) + lift_ids(l.spec_expr(), depth, false)
        },
        Expr::Lam(_, body, _) => lift_ids(*body, depth, false) + (if let_bound {
            0nat
        } else {
            2nat
        }),
        Expr::App(f, args) => lift_ids(*f, depth, false) + lift_ids_seq(args@, depth),
        Expr::TyLam(_, b) => lift_ids(*b, depth, false),
        Expr::TyApp(b, _) => lift_ids(*b, depth, false),
        _ => 0,
    }
}

pub open spec fn lift_ids_seq(s: Seq<Expr>, depth: nat) -> nat
    decreases s,
{
    if s.len() == 0 {
        0
    } else {
        lift_ids_seq(s.drop_last(), depth) + lift_ids(s.last(), depth, false)
    }
}

/// The number of declarations that lifting `e` at binding depth `depth`
/// moves out: one for each anonymous lambda and one for each lambda bound
/// by a `let` below the top level.
pub open spec fn lift_decls(e: Expr, depth: nat, let_bound: bool) -> nat
    decreases e,
{
    match e {
        Expr::If(i) => {
            proof {
                i.lemma_parts();
            }
            lift_decls(i.spec_cond(), depth, false) + lift_decls(i.spec_texpr(), depth, false)
                + lift_decls(i.spec_fexpr(), depth, false)
        },
        Expr::Let(l) => {
            proof {
                l.lemma_parts();
            }
            lift_decls(l.spec_bind().spec_expr(), depth + 1, true) + (if l.spec_bind().spec_expr() is Lam
                && depth >= 1 {
                1nat
            } else {
                0nat
            }) + lift_decls(l.spec_expr(), depth, false)
        },
        Expr::Lam(_, body, _) => lift_decls(*body, depth, false) + (if let_bound {
            0nat
        } else {
            1nat
        }),
        Expr::App(f, args) => lift_decls(*f, depth, false) + lift_decls_seq(args@, depth),
        Expr::TyLam(_, b) => lift_decls(*b, depth, false),
        Expr::TyApp(b, _) => lift_decls(*b, depth, false),
        _ => 0,
    }
}

pub open spec fn lift_decls_seq(s: Seq<Expr>, depth: nat) -> nat
    decreases s,
{
    if s.len() == 0 {
        0
    } else {
        lift_decls_seq(s.drop_last(), depth) + lift_decls(s.last(), depth, false)
    }
}

/// Every `let` in `e`, at binding depth `depth`, nests within the depth
/// that the lifter can count.
pub open spec fn nest_ok(e: Expr, depth: nat) -> bool
    decreases e,
{
    match e {
        Expr::If(i) => {
            proof {
                i.lemma_parts();
            }
            nest_ok(i.spec_cond(), depth) && nest_ok(i.spec_texpr(), depth) && nest_ok(
                i.spec_fexpr(),
                depth,
            )
        },
        Expr::Let(l) => {
            proof {
                l.lemma_parts();
            }
            depth < u32::MAX - 1 && nest_ok(l.spec_bind().spec_expr(), depth + 1) && nest_ok(
                l.spec_expr(),
                depth,
            )
        },
        Expr::Lam(_, body, _) => nest_ok(*body, depth),
        Expr::App(f, args) => nest_ok(*f, depth) && forall|i: int|
            0 <= i < args@.len() ==> nest_ok(#[trigger] args@[i], depth),
        Expr::TyLam(_, b) => nest_ok(*b, depth),
        Expr::TyApp(b, _) => nest_ok(*b, depth),
        _ => true,
    }
}

/// The identifiers that lifting binding `b` at depth `depth` takes.
pub open spec fn bind_ids(b: Bind, depth: nat) -> nat {
    lift_ids(b.spec_expr(), depth + 1, true) + (if b.spec_expr() is Lam && depth >= 1 {
        1nat
    } else {
        0nat
    })
}

/// The number of declarations that lifting binding `b` at depth `depth`
/// moves out.
pub open spec fn bind_decls(b: Bind, depth: nat) -> nat {
    lift_decls(b.spec_expr(), depth + 1, true) + (if b.spec_expr() is Lam && depth >= 1 {
        1nat
    } else {
        0nat
    })
}

pub open spec fn bind_ok(b: Bind, depth: nat) -> bool {
    depth < u32::MAX - 1 && nest_ok(b.spec_expr(), depth + 1)
}

/// `out` is `e` lifted at binding depth `depth`, starting after identifier
/// `c0`; `lifted` are the declarations moved out, in order. Each anonymous
/// lambda becomes a variable of a new symbol `@__anon_N`, numbered by the
/// first of the two identifiers it takes and identified by the second,
/// whose declaration binds the lifted lambda. Everything else keeps its
/// form.
#[verifier::opaque]
pub open spec fn lifts_to(
    e: Expr,
    out: Expr,
    lifted: Seq<Decl>,
    c0: nat,
    depth: nat,
    let_bound: bool,
) -> bool
    decreases e, 0nat,
{
    match e {
        Expr::UnitLit => out == Expr::UnitLit,
        Expr::I32Lit(n) => out == Expr::I32Lit(n),
        Expr::BoolLit(b) => out == Expr::BoolLit(b),
        Expr::Var(s) => out == Expr::Var(s),
        Expr::TyLam(ts, b) => out matches Expr::TyLam(ts2, b2) && ts2@ == ts@ && lifts_to(
            *b,
            *b2,
            lifted,
            c0,
            depth,
            false,
        ),
        Expr::TyApp(b, ts) => out matches Expr::TyApp(b2, ts2) && types::types_view(ts2@)
            == types::types_view(ts@) && lifts_to(*b, *b2, lifted, c0, depth, false),
        Expr::If(i) => {
            proof {
                i.lemma_parts();
            }
            let nc = lift_decls(i.spec_cond(), depth, false);
            let nt = lift_decls(i.spec_texpr(), depth, false);
            let c1 = c0 + lift_ids(i.spec_cond(), depth, false);
            let c2 = c1 + lift_ids(i.spec_texpr(), depth, false);
            &&& out matches Expr::If(j)
            &&& out->If_0.spec_ty()@ == i.spec_ty()@
            &&& lifts_to(i.spec_cond(), out->If_0.spec_cond(), lifted.subrange(0, nc as int), c0, depth, false)
            &&& lifts_to(
                i.spec_texpr(),
                out->If_0.spec_texpr(),
                lifted.subrange(nc as int, (nc + nt) as int),
                c1,
                depth,
                false,
            )
            &&& lifts_to(
                i.spec_fexpr(),
                out->If_0.spec_fexpr(),
                lifted.subrange((nc + nt) as int, lifted.len() as int),
                c2,
                depth,
                false,
            )
        },
        Expr::App(f, args) => {
            let nf = lift_decls(*f, depth, false);
            let cf = c0 + lift_ids(*f, depth, false);
            &&& out matches Expr::App(g, outs)
            &&& out->App_1@.len() == args@.len()
            &&& lifts_to(*f, *out->App_0, lifted.subrange(0, nf as int), c0, depth, false)
            &&& forall|k: int|
                0 <= k < args@.len() ==> lifts_to(
                    #[trigger] args@[k],
                    out->App_1@[k],
                    lifted.subrange(
                        (nf + lift_decls_seq(args@.subrange(0, k), depth)) as int,
                        (nf + lift_decls_seq(args@.subrange(0, k + 1), depth)) as int,
                    ),
                    cf + lift_ids_seq(args@.subrange(0, k), depth),
                    depth,
                    false,
                )
        },
        Expr::Let(l) => {
            proof {
                l.lemma_parts();
            }
            let nb = bind_decls(l.spec_bind(), depth);
            &&& out matches Expr::Let(l2)
            &&& bind_lifts_to(
                l.spec_bind(),
                out->Let_0.spec_bind(),
                lifted.subrange(0, nb as int),
                c0,
                depth,
            )
            &&& lifts_to(
                l.spec_expr(),
                out->Let_0.spec_expr(),
                lifted.subrange(nb as int, lifted.len() as int),
                c0 + bind_ids(l.spec_bind(), depth),
                depth,
                false,
            )
        },
        Expr::Lam(ps, body, rt) => if let_bound {
            &&& out matches Expr::Lam(ps2, b2, rt2)
            &&& out->Lam_0@ == ps@
            &&& out->Lam_2@ == rt@
            &&& lifts_to(*body, *out->Lam_1, lifted, c0, depth, false)
        } else {
            let nb = lift_decls(*body, depth, false);
            let c1 = c0 + lift_ids(*body, depth, false);
            &&& lifted.len() == nb + 1
            &&& lifted.last() matches Decl::Let(bs)
            &&& lifted.last()->Let_0@.len() == 1
            &&& ({
                let sym = lifted.last()->Let_0@[0].spec_symbol();
                let lam = lifted.last()->Let_0@[0].spec_expr();
                &&& sym.spec_name() == "@__anon_"@ + decimal(c1 + 1)
                &&& sym.spec_id() == c1 + 2
                &&& sym.spec_ty()@ == rt@
                &&& out == Expr::Var(sym)
                &&& lam matches Expr::Lam(ps2, b2, rt2)
                &&& lam->Lam_0@ == ps@
                &&& lam->Lam_2@ == rt@
                &&& lifts_to(*body, *lam->Lam_1, lifted.drop_last(), c0, depth, false)
            })
        },
    }
}

/// `out` is binding `b` lifted at binding depth `depth`, starting after
/// identifier `c0`; `lifted` are the declarations moved out. A lambda bound
/// below the top level moves out under the binding's own symbol, and the
/// binding becomes a new symbol `@__fnanon_N`, identified by `N`, standing
/// for it.
#[verifier::opaque]
pub open spec fn bind_lifts_to(b: Bind, out: Bind, lifted: Seq<Decl>, c0: nat, depth: nat) -> bool
    decreases b.spec_expr(), 1nat,
{
    let be = b.spec_expr();
    if be is Lam && depth >= 1 {
        let n = lift_decls(be, depth + 1, true);
        let fnid = c0 + lift_ids(be, depth + 1, true) + 1;
        &&& lifted.len() == n + 1
        &&& lifted.last() matches Decl::Let(bs)
        &&& lifted.last()->Let_0@.len() == 1
        &&& lifted.last()->Let_0@[0].spec_symbol() == b.spec_symbol()
        &&& lifts_to(be, lifted.last()->Let_0@[0].spec_expr(), lifted.drop_last(), c0, depth + 1, true)
        &&& out.spec_symbol().spec_name() == "@__fnanon_"@ + decimal(fnid)
        &&& out.spec_symbol().spec_id() == fnid
        &&& out.spec_symbol().spec_ty()@ == b.spec_symbol().spec_ty()@
        &&& out.spec_expr() == Expr::Var(b.spec_symbol())
    } else {
        &&& out.spec_symbol() == b.spec_symbol()
        &&& lifts_to(be, out.spec_expr(), lifted, c0, depth + 1, true)
    }
}

/// `n` more identifiers fit after identifier `c0`: the lifter gives out
/// identifiers below `u32::MAX`.
pub open spec fn ids_fit(c0: nat, n: nat) -> bool {
    n == 0 || c0 + n <= u32::MAX - 1
}

pub open spec fn binds_ids(s: Seq<Bind>) -> nat
    decreases s.len(),
{
    if s.len() == 0 {
        0
    } else {
        binds_ids(s.drop_last()) + bind_ids(s.last(), 0)
    }
}

pub open spec fn binds_decls(s: Seq<Bind>) -> nat
    decreases s.len(),
{
    if s.len() == 0 {
        0
    } else {
        binds_decls(s.drop_last()) + bind_decls(s.last(), 0)
    }
}

/// The identifiers that lifting a top-level declaration takes.
pub open spec fn decl_lift_ids(d: Decl) -> nat {
    match d {
        Decl::Extern(_) => 0,
        Decl::Let(binds) => binds_ids(binds@),
    }
}

/// The number of declarations that lifting a top-level declaration moves
/// out before it.
pub open spec fn decl_lift_decls(d: Decl) -> nat {
    match d {
        Decl::Extern(_) => 0,
        Decl::Let(binds) => binds_decls(binds@),
    }
}

pub open spec fn decl_nest_ok(d: Decl) -> bool {
    match d {
        Decl::Extern(_) => true,
        Decl::Let(binds) => forall|j: int| 0 <= j < binds@.len() ==> bind_ok(#[trigger] binds@[j], 0),
    }
}

pub open spec fn decls_lift_ids(s: Seq<Decl>) -> nat
    decreases s.len(),
{
    if s.len() == 0 {
        0
    } else {
        decls_lift_ids(s.drop_last()) + decl_lift_ids(s.last())
    }
}

pub open spec fn decls_lift_decls(s: Seq<Decl>) -> nat
    decreases s.len(),
{
    if s.len() == 0 {
        0
    } else {
        decls_lift_decls(s.drop_last()) + decl_lift_decls(s.last())
    }
}

pub open spec fn decls_nest_ok(s: Seq<Decl>) -> bool {
    forall|k: int| 0 <= k < s.len() ==> decl_nest_ok(#[trigger] s[k])
}

/// `out` is top-level declaration `d` lifted, starting after identifier
/// `c0`; `lifted` are the declarations moved out before it. An external
/// declaration stays as it is; each binding of a `let` is lifted in turn.
#[verifier::opaque]
pub open spec fn decl_lifts_to(d: Decl, lifted: Seq<Decl>, out: Decl, c0: nat) -> bool {
    match d {
        Decl::Extern(s) => out == Decl::Extern(s),
        Decl::Let(binds) => {
            &&& out matches Decl::Let(bs2)
            &&& out->Let_0@.len() == binds@.len()
            &&& forall|j: int|
                0 <= j < binds@.len() ==> bind_lifts_to(
                    #[trigger] binds@[j],
                    out->Let_0@[j],
                    lifted.subrange(
                        binds_decls(binds@.subrange(0, j)) as int,
                        binds_decls(binds@.subrange(0, j + 1)) as int,
                    ),
                    c0 + binds_ids(binds@.subrange(0, j)),
                    0,
                )
        },
    }
}

/// `out` are the declarations `src` lifted in order, starting after
/// identifier `c0`: each declaration comes after the declarations moved
/// out of it.
pub open spec fn module_lifts_to(src: Seq<Decl>, out: Seq<Decl>, c0: nat) -> bool {
    &&& out.len() == src.len() + decls_lift_decls(src)
    &&& forall|k: int|
        0 <= k < src.len() ==> #[trigger] decl_lifts_to(
            src[k],
            out.subrange(
                k + decls_lift_decls(src.subrange(0, k)),
                k + decls_lift_decls(src.subrange(0, k + 1)),
            ),
            out[k + decls_lift_decls(src.subrange(0, k + 1))],
            c0 + decls_lift_ids(src.subrange(0, k)),
        )
}

pub open spec fn modules_lift_ids(s: Seq<Module>) -> nat
    decreases s.len(),
{
    if s.len() == 0 {
        0
    } else {
        modules_lift_ids(s.drop_last()) + decls_lift_ids(s.last().spec_decls())
    }
}

/// One sequence of declarations after another.
proof fn lemma_acc_step(a0: Seq<Decl>, a1: Seq<Decl>, a2: Seq<Decl>)
    requires
        a0.len() <= a1.len() <= a2.len(),
        a1.subrange(0, a0.len() as int) == a0,
        a2.subrange(0, a1.len() as int) == a1,
    ensures
        a2.subrange(0, a0.len() as int) == a0,
        a2.subrange(a0.len() as int, a2.len() as int).subrange(0, a1.len() - a0.len())
            == a1.subrange(a0.len() as int, a1.len() as int),
        a2.subrange(a0.len() as int, a2.len() as int).subrange(
            a1.len() - a0.len(),
            a2.len() - a0.len(),
        ) == a2.subrange(a1.len() as int, a2.len() as int),
{
    assert(a2.subrange(0, a0.len() as int) =~= a0);
    assert(a2.subrange(a0.len() as int, a2.len() as int).subrange(0, a1.len() - a0.len())
        =~= a1.subrange(a0.len() as int, a1.len() as int));
    assert(a2.subrange(a0.len() as int, a2.len() as int).subrange(
        a1.len() - a0.len(),
        a2.len() - a0.len(),
    ) =~= a2.subrange(a1.len() as int, a2.len() as int));
}

/// Scopes that bind nothing bind no key.
proof fn lemma_lookup_empty(scopes: Seq<Map<u32, Symbol>>, k: u32)
    requires
        forall|i: int| 0 <= i < scopes.len() ==> #[trigger] scopes[i] == Map::<u32, Symbol>::empty(),
    ensures
        lookup(scopes, k) is None,
    decreases scopes.len(),
{
    if scopes.len() > 0 {
        assert(scopes.last() == scopes[scopes.len() - 1]);
        lemma_lookup_empty(scopes.drop_last(), k);
    }
}

/// A lifted expression is a lambda just when the source is one.
proof fn lemma_lifts_to_lam(e: Expr, out: Expr, lifted: Seq<Decl>, c0: nat, depth: nat)
    requires
        lifts_to(e, out, lifted, c0, depth, true),
    ensures
        (out is Lam) == (e is Lam),
{
    reveal(lifts_to);
}

/// What lifting `e` from lifter `l0` and declarations `a0` to lifter `l1`
/// and declarations `a1` with result `r` means: the declarations moved out
/// are added after `a0`; on success `r` is `e` lifted; it fails just when
/// bindings nest too deeply or identifiers run out.
pub open spec fn lift_outcome(
    l0: LambdaLift,
    l1: LambdaLift,
    a0: Seq<Decl>,
    a1: Seq<Decl>,
    e: Expr,
    let_bound: bool,
    r: Result<Expr>,
) -> bool {
    &&& a0.len() <= a1.len()
    &&& a1.subrange(0, a0.len() as int) == a0
    &&& match r {
        Ok(out) => {
            &&& l1.depth() == l0.depth()
            &&& l1.last_id() == l0.last_id() + lift_ids(e, l0.depth(), let_bound)
            &&& a1.len() == a0.len() + lift_decls(e, l0.depth(), let_bound)
            &&& lifts_to(
                e,
                out,
                a1.subrange(a0.len() as int, a1.len() as int),
                l0.last_id(),
                l0.depth(),
                let_bound,
            )
            &&& nest_ok(e, l0.depth())
            &&& ids_fit(l0.last_id(), lift_ids(e, l0.depth(), let_bound))
            &&& if let_bound {
                top_ok(out)
            } else {
                lambda_free(out)
            }
        },
        Err(_) => !nest_ok(e, l0.depth()) || !ids_fit(l0.last_id(), lift_ids(e, l0.depth(), let_bound)),
    }
}

pub struct LambdaLift {
    map: ScopedMap<u32, Symbol>,
    /// The last identifier given out.
    count: u32,
}

impl LambdaLift {
    /// The lifter's scopes bind nothing outside a call: a lambda bound below
    /// the top level is recorded in the scope of its own binding, which ends
    /// with it.
    pub closed spec fn wf(&self) -> bool {
        &&& self.map.wf()
        &&& forall|i: int|
            0 <= i < self.map@.len() ==> #[trigger] self.map@[i] == Map::<u32, Symbol>::empty()
    }

    /// The nesting depth of bindings being lifted.
    pub closed spec fn depth(&self) -> nat {
        self.map.depth()
    }

    /// The last identifier given out.
    pub closed spec fn last_id(&self) -> nat {
        self.count as nat
    }

    pub fn new() -> (r: Self)
        ensures
            r.wf(),
            r.depth() == 0,
            r.last_id() == 0,
    {
        let r = LambdaLift { map: ScopedMap::new(), count: 0 };
        assert(r.map@ =~= seq![Map::<u32, Symbol>::empty()]);
        r
    }

    fn fresh(&mut self) -> (r: Result<u32>)
        ensures
            final(self).map == old(self).map,
            match r {
                Ok(id) => old(self).count < u32::MAX - 1 && final(self).count == old(self).count
                    + 1 && id == final(self).count,
                Err(_) => old(self).count >= u32::MAX - 1 && *final(self) == *old(self),
            },
    {
        if self.count >= u32::MAX - 1 {
            return Err(Error::new("no identifiers left".to_owned()));
        }
        Ok(crate::fresh_id(&mut self.count))
    }

    /// Lifts the declarations of `module`, each lifted function declared
    /// before the declaration it came from.
    #[verifier::spinoff_prover]
    #[verifier::rlimit(100)]
    fn lift_module(&mut self, module: &Module) -> (r: Result<Module>)
        requires
            old(self).wf(),
            old(self).depth() == 0,
        ensures
            final(self).wf(),
            match r {
                Ok(m) => {
                    &&& final(self).depth() == 0
                    &&& m.spec_name() == module.spec_name()
                    &&& all_lifted(m.spec_decls())
                    &&& module_lifts_to(module.spec_decls(), m.spec_decls(), old(self).count as nat)
                    &&& final(self).count == old(self).count + decls_lift_ids(module.spec_decls())
                    &&& decls_nest_ok(module.spec_decls())
                    &&& ids_fit(old(self).count as nat, decls_lift_ids(module.spec_decls()))
                },
                Err(_) => !decls_nest_ok(module.spec_decls()) || !ids_fit(
                    old(self).count as nat,
                    decls_lift_ids(module.spec_decls()),
                ),
            },
    {
        let mut decls: Vec<Decl> = Vec::new();
        let src = module.decls();
        let n = src.len();
        let ghost c0 = self.count as nat;
        let mut i: usize = 0;
        while i < n
            invariant
                self.wf(),
                self.depth() == 0,
                c0 == old(self).count,
                src@ == module.spec_decls(),
                n == src@.len(),
                i <= n,
                all_lifted(decls@),
                decls@.len() == i + decls_lift_decls(src@.subrange(0, i as int)),
                self.count == c0 + decls_lift_ids(src@.subrange(0, i as int)),
                ids_fit(c0, decls_lift_ids(src@.subrange(0, i as int))),
                forall|k: int| 0 <= k < i ==> decl_nest_ok(#[trigger] src@[k]),
                forall|k: int|
                    0 <= k < i ==> #[trigger] decl_lifts_to(
                        src@[k],
                        decls@.subrange(
                            k + decls_lift_decls(src@.subrange(0, k)),
                            k + decls_lift_decls(src@.subrange(0, k + 1)),
                        ),
                        decls@[k + decls_lift_decls(src@.subrange(0, k + 1))],
                        c0 + decls_lift_ids(src@.subrange(0, k)),
                    ),
            decreases n - i,
        {
            let ghost s0 = decls@;
            let ghost cs = self.count as nat;
            proof {
                assert(src@.subrange(0, i + 1).drop_last() =~= src@.subrange(0, i as int));
                assert(src@.subrange(0, i + 1).last() == src@[i as int]);
                lemma_decls_ids_prefix(src@, i + 1);
            }
            let decl = match &src[i] {
                Decl::Extern(symbol) => Decl::Extern(symbol.clone()),
                Decl::Let(binds) => {
                    let out = match self.lift_binds(binds, &mut decls) {
                        Ok(out) => out,
                        Err(e) => {
                            proof {
                                if !(forall|j: int|
                                    0 <= j < binds@.len() ==> bind_ok(#[trigger] binds@[j], 0)) {
                                    assert(!decl_nest_ok(src@[i as int]));
                                }
                            }
                            return Err(e);
                        },
                    };
                    Decl::Let(out)
                },
            };
            let ghost d1 = decls@;
            proof {
                if let Decl::Let(binds) = src@[i as int] {
                    lemma_let_lifts(binds, decl, d1, s0.len() as int, cs);
                } else {
                    assert(d1 =~= s0);
                    assert(d1.subrange(0, s0.len() as int) =~= s0);
                    reveal(decl_lifts_to);
                }
            }
            decls.push(decl);
            proof {
                assert forall|k: int| 0 <= k < decls@.len() implies decl_lifted(#[trigger] decls@[k]) by {
                    if k < d1.len() {
                        assert(decls@[k] == d1[k]);
                    }
                }
                lemma_module_step(src@, i as int, s0, d1, decl, c0);
            }
            i = i + 1;
        }
        proof {
            assert(src@.subrange(0, n as int) =~= src@);
        }
        Ok(Module::new(module.name().clone(), decls))
    }

    /// Lifts the bindings of a top-level `let` in turn; the lambdas moved
    /// out go to `acc`.
    #[verifier::spinoff_prover]
    #[verifier::rlimit(100)]
    fn lift_binds(&mut self, binds: &Vec<Bind>, acc: &mut Vec<Decl>) -> (r: Result<Vec<Bind>>)
        requires
            old(self).wf(),
            old(self).depth() == 0,
            all_lifted(old(acc)@),
        ensures
            final(self).wf(),
            all_lifted(final(acc)@),
            old(acc)@.len() <= final(acc)@.len(),
            final(acc)@.subrange(0, old(acc)@.len() as int) == old(acc)@,
            match r {
                Ok(out) => {
                    &&& final(self).depth() == 0
                    &&& final(self).count == old(self).count + binds_ids(binds@)
                    &&& final(acc)@.len() == old(acc)@.len() + binds_decls(binds@)
                    &&& out@.len() == binds@.len()
                    &&& forall|j: int| 0 <= j < out@.len() ==> top_ok(#[trigger] out@[j].spec_expr())
                    &&& forall|j: int| 0 <= j < binds@.len() ==> bind_ok(#[trigger] binds@[j], 0)
                    &&& ids_fit(old(self).count as nat, binds_ids(binds@))
                    &&& forall|j: int|
                        0 <= j < binds@.len() ==> bind_lifts_to(
                            #[trigger] binds@[j],
                            out@[j],
                            final(acc)@.subrange(
                                (old(acc)@.len() + binds_decls(binds@.subrange(0, j))) as int,
                                (old(acc)@.len() + binds_decls(binds@.subrange(0, j + 1))) as int,
                            ),
                            old(self).count as nat + binds_ids(binds@.subrange(0, j)),
                            0,
                        )
                },
                Err(_) => !(forall|j: int| 0 <= j < binds@.len() ==> bind_ok(#[trigger] binds@[j], 0))
                    || !ids_fit(old(self).count as nat, binds_ids(binds@)),
            },
    {
        let ghost a0 = acc@;
        let ghost c0 = self.count as nat;
        let mut out: Vec<Bind> = Vec::new();
        let mut j: usize = 0;
        proof {
            assert(acc@.subrange(0, a0.len() as int) =~= a0);
            assert(binds@.subrange(0, 0) =~= Seq::<Bind>::empty());
        }
        while j < binds.len()
            invariant
                self.wf(),
                self.depth() == 0,
                a0 == old(acc)@,
                c0 == old(self).count,
                j <= binds@.len(),
                out@.len() == j,
                all_lifted(acc@),
                a0.len() <= acc@.len(),
                acc@.subrange(0, a0.len() as int) == a0,
                acc@.len() == a0.len() + binds_decls(binds@.subrange(0, j as int)),
                self.count == c0 + binds_ids(binds@.subrange(0, j as int)),
                ids_fit(c0, binds_ids(binds@.subrange(0, j as int))),
                forall|k: int| 0 <= k < out@.len() ==> top_ok(#[trigger] out@[k].spec_expr()),
                forall|k: int| 0 <= k < j ==> bind_ok(#[trigger] binds@[k], 0),
                forall|k: int|
                    0 <= k < j ==> bind_lifts_to(
                        #[trigger] binds@[k],
                        out@[k],
                        acc@.subrange(
                            (a0.len() + binds_decls(binds@.subrange(0, k))) as int,
                            (a0.len() + binds_decls(binds@.subrange(0, k + 1))) as int,
                        ),
                        c0 + binds_ids(binds@.subrange(0, k)),
                        0,
                    ),
            decreases binds@.len() - j,
        {
            let ghost ab = acc@;
            proof {
                assert(binds@.subrange(0, j + 1).drop_last() =~= binds@.subrange(0, j as int));
                assert(binds@.subrange(0, j + 1).last() == binds@[j as int]);
            }
            let b = match self.lift_bind(&binds[j], acc) {
                Ok(b) => b,
                Err(e) => {
                    proof {
                        lemma_binds_ids_prefix(binds@, j + 1);
                        assert(acc@.subrange(0, a0.len() as int) =~= a0);
                    }
                    return Err(e);
                },
            };
            proof {
                assert forall|k: int| 0 <= k < j + 1 implies bind_lifts_to(
                    #[trigger] binds@[k],
                    out@.push(b)[k],
                    acc@.subrange(
                        (a0.len() + binds_decls(binds@.subrange(0, k))) as int,
                        (a0.len() + binds_decls(binds@.subrange(0, k + 1))) as int,
                    ),
                    c0 + binds_ids(binds@.subrange(0, k)),
                    0,
                ) by {
                    assert(binds@.subrange(0, k + 1).drop_last() =~= binds@.subrange(0, k));
                    if k < j {
                        lemma_binds_decls_prefix(binds@, k + 1, j as int);
                        lemma_prefix_slice(
                            ab,
                            acc@,
                            (a0.len() + binds_decls(binds@.subrange(0, k))) as int,
                            (a0.len() + binds_decls(binds@.subrange(0, k + 1))) as int,
                        );
                    }
                }
                assert(acc@.subrange(0, a0.len() as int) =~= a0);
            }
            out.push(b);
            j = j + 1;
        }
        proof {
            assert(binds@.subrange(0, binds@.len() as int) =~= binds@);
        }
        Ok(out)
    }

    /// Lifts the expression of a binding; a lambda bound below the top
    /// level moves out to `acc`.
    #[verifier::spinoff_prover]
    #[verifier::rlimit(60)]
    fn lift_bind(&mut self, bind: &Bind, acc: &mut Vec<Decl>) -> (r: Result<Bind>)
        requires
            old(self).wf(),
            all_lifted(old(acc)@),
        ensures
            final(self).wf(),
            all_lifted(final(acc)@),
            old(acc)@.len() <= final(acc)@.len(),
            final(acc)@.subrange(0, old(acc)@.len() as int) == old(acc)@,
            match r {
                Ok(b) => {
                    &&& final(self).depth() == old(self).depth()
                    &&& final(self).count == old(self).count + bind_ids(*bind, old(self).depth())
                    &&& final(acc)@.len() == old(acc)@.len() + bind_decls(*bind, old(self).depth())
                    &&& bind_lifts_to(
                        *bind,
                        b,
                        final(acc)@.subrange(old(acc)@.len() as int, final(acc)@.len() as int),
                        old(self).count as nat,
                        old(self).depth(),
                    )
                    &&& bind_ok(*bind, old(self).depth())
                    &&& ids_fit(old(self).count as nat, bind_ids(*bind, old(self).depth()))
                    &&& if old(self).depth() == 0 {
                        top_ok(b.spec_expr())
                    } else {
                        lambda_free(b.spec_expr())
                    }
                },
                Err(_) => !bind_ok(*bind, old(self).depth()) || !ids_fit(
                    old(self).count as nat,
                    bind_ids(*bind, old(self).depth()),
                ),
            },
        decreases bind.spec_expr(), 2nat,
    {
        proof {
            self.map.lemma_nonempty();
            assert(acc@.subrange(0, acc@.len() as int) =~= acc@);
            reveal(bind_lifts_to);
        }
        if self.map.scope() >= u32::MAX - 1 {
            return Err(Error::new("bindings nested too deeply".to_owned()));
        }
        let ghost d = self.map.depth();
        let ghost a0 = acc@;
        let ghost c0 = self.count as nat;
        let ghost m0 = self.map@;
        self.map.begin_scope();
        proof {
            assert forall|i: int| 0 <= i < self.map@.len() implies #[trigger] self.map@[i]
                == Map::<u32, Symbol>::empty() by {
                if i < m0.len() {
                    assert(self.map@[i] == m0[i]);
                }
            }
        }
        let symbol = bind.symbol();
        let expr = match self.lift(bind.expr(), acc, true) {
            Ok(e) => e,
            Err(e) => {
                return Err(e);
            },
        };
        let ghost a1 = acc@;
        let ghost c1 = self.count as nat;
        proof {
            self.map.lemma_nonempty();
            lemma_lifts_to_lam(
                bind.spec_expr(),
                expr,
                a1.subrange(a0.len() as int, a1.len() as int),
                c0,
                d + 1,
            );
        }
        let is_lam = match &expr {
            Expr::Lam(_, _, _) => true,
            _ => false,
        };
        let ghost m1 = self.map@;
        let bind = if is_lam && self.map.scope() > 1 {
            let fnid = match self.fresh() {
                Ok(id) => id,
                Err(e) => {
                    return Err(e);
                },
            };
            let fnnm = Rc::new(numbered("@__fnanon_", fnid));
            let fnty = symbol.ty().clone();
            let sym = Symbol::new(fnnm, fnty, fnid);
            let bind = Bind::new(symbol.clone(), expr);
            let _ = self.map.insert(symbol.id(), sym.clone());
            acc.push(Decl::Let(vec![bind]));
            proof {
                assert forall|k: int| 0 <= k < acc@.len() implies decl_lifted(#[trigger] acc@[k]) by {
                    if k < a1.len() {
                        assert(acc@[k] == a1[k]);
                    }
                }
                let l = acc@.subrange(a0.len() as int, acc@.len() as int);
                assert(l.drop_last() =~= a1.subrange(a0.len() as int, a1.len() as int));
                assert(acc@.subrange(0, a0.len() as int) =~= a0);
            }
            Bind::new(sym, Expr::Var(symbol.clone()))
        } else {
            Bind::new(symbol.clone(), expr)
        };
        self.map.end_scope();
        proof {
            assert forall|i: int| 0 <= i < self.map@.len() implies #[trigger] self.map@[i]
                == Map::<u32, Symbol>::empty() by {
                assert(self.map@[i] == m1[i]);
            }
        }
        Ok(bind)
    }

    /// Lifts `expr`; `let_bound` tells whether it is the whole expression
    /// of a binding. Lambdas that are not let-bound move out to `acc`.
    #[verifier::spinoff_prover]
    #[verifier::rlimit(60)]
    fn lift(&mut self, expr: &Expr, acc: &mut Vec<Decl>, let_bound: bool) -> (r: Result<Expr>)
        requires
            old(self).wf(),
            old(self).depth() >= 1,
            all_lifted(old(acc)@),
        ensures
            final(self).wf(),
            all_lifted(final(acc)@),
            lift_outcome(*old(self), *final(self), old(acc)@, final(acc)@, *expr, let_bound, r),
        decreases *expr, 1nat,
    {
        let ghost a0 = acc@;
        let ghost c0 = self.count as nat;
        let ghost d = self.depth();
        proof {
            assert(a0.subrange(0, a0.len() as int) =~= a0);
            reveal(lifts_to);
        }
        match expr {
            Expr::UnitLit => Ok(Expr::UnitLit),
            Expr::I32Lit(n) => Ok(Expr::I32Lit(*n)),
            Expr::BoolLit(b) => Ok(Expr::BoolLit(*b)),
            Expr::Var(id) => {
                proof {
                    lemma_lookup_empty(self.map@, id.spec_id());
                }
                let sym = match self.map.get(&id.id()) {
                    Some(sym) => sym.clone(),
                    None => id.clone(),
                };
                Ok(Expr::Var(sym))
            },
            Expr::TyLam(t, e) => {
                let e = match self.lift(e, acc, false) {
                    Ok(e) => e,
                    Err(err) => {
                        return Err(err);
                    },
                };
                let t2 = t.clone();
                proof {
                    assert(t2@ =~= t@);
                }
                Ok(Expr::TyLam(t2, Box::new(e)))
            },
            Expr::TyApp(e, t) => {
                let e = match self.lift(e, acc, false) {
                    Ok(e) => e,
                    Err(err) => {
                        return Err(err);
                    },
                };
                Ok(Expr::TyApp(Box::new(e), types::clone_types(t)))
            },
            Expr::If(_) => self.lift_if(expr, acc, let_bound),
            Expr::App(_, _) => self.lift_app(expr, acc, let_bound),
            Expr::Let(exp) => {
                proof {
                    exp.lemma_parts();
                }
                let bind = match self.lift_bind(exp.bind(), acc) {
                    Ok(b) => b,
                    Err(err) => {
                        return Err(err);
                    },
                };
                let ghost a1 = acc@;
                let e = match self.lift(exp.expr(), acc, false) {
                    Ok(x) => x,
                    Err(err) => {
                        proof {
                            lemma_acc_step(a0, a1, acc@);
                        }
                        return Err(err);
                    },
                };
                let ghost a2 = acc@;
                let lexp = Let::new(bind, e);
                proof {
                    lexp.lemma_parts();
                    lemma_acc_step(a0, a1, a2);
                }
                Ok(Expr::Let(Box::new(lexp)))
            },
            Expr::Lam(_, _, _) => self.lift_lam(expr, acc, let_bound),
        }
    }

    /// Lifts a conditional: its parts in turn.
    #[verifier::spinoff_prover]
    #[verifier::rlimit(60)]
    fn lift_if(&mut self, expr: &Expr, acc: &mut Vec<Decl>, let_bound: bool) -> (r: Result<Expr>)
        requires
            old(self).wf(),
            old(self).depth() >= 1,
            all_lifted(old(acc)@),
            *expr is If,
        ensures
            final(self).wf(),
            all_lifted(final(acc)@),
            lift_outcome(*old(self), *final(self), old(acc)@, final(acc)@, *expr, let_bound, r),
        decreases *expr, 0nat,
    {
        let ghost a0 = acc@;
        let ghost c0 = self.count as nat;
        let ghost d = self.depth();
        proof {
            assert(a0.subrange(0, a0.len() as int) =~= a0);
            reveal(lifts_to);
        }
        match expr {
            Expr::If(e) => {
                proof {
                    e.lemma_parts();
                }
                let c = match self.lift(e.cond(), acc, false) {
                    Ok(x) => x,
                    Err(err) => {
                        return Err(err);
                    },
                };
                let ghost a1 = acc@;
                let t = match self.lift(e.texpr(), acc, false) {
                    Ok(x) => x,
                    Err(err) => {
                        proof {
                            lemma_acc_step(a0, a1, acc@);
                        }
                        return Err(err);
                    },
                };
                let ghost a2 = acc@;
                let f = match self.lift(e.fexpr(), acc, false) {
                    Ok(x) => x,
                    Err(err) => {
                        proof {
                            lemma_acc_step(a0, a1, a2);
                            lemma_acc_step(a0, a2, acc@);
                        }
                        return Err(err);
                    },
                };
                let ghost a3 = acc@;
                let if_expr = If::new(c, t, f, e.ty().clone());
                proof {
                    lemma_acc_step(a0, a1, a2);
                    lemma_acc_step(a0, a2, a3);
                    let l = a3.subrange(a0.len() as int, a3.len() as int);
                    assert(l.subrange(0, a1.len() - a0.len()) =~= a1.subrange(
                        a0.len() as int,
                        a1.len() as int,
                    ));
                    assert(l.subrange(a1.len() - a0.len(), a2.len() - a0.len()) =~= a2.subrange(
                        a1.len() as int,
                        a2.len() as int,
                    ));
                    assert(l.subrange(a2.len() - a0.len(), l.len() as int) =~= a3.subrange(
                        a2.len() as int,
                        a3.len() as int,
                    ));
                }
                Ok(Expr::If(Box::new(if_expr)))
            },
            _ => Err(Error::new("a conditional was expected".to_owned())),
        }
    }

    /// Lifts an application: the callee, then each argument in turn.
    #[verifier::spinoff_prover]
    #[verifier::rlimit(60)]
    fn lift_app(&mut self, expr: &Expr, acc: &mut Vec<Decl>, let_bound: bool) -> (r: Result<Expr>)
        requires
            old(self).wf(),
            old(self).depth() >= 1,
            all_lifted(old(acc)@),
            *expr is App,
        ensures
            final(self).wf(),
            all_lifted(final(acc)@),
            lift_outcome(*old(self), *final(self), old(acc)@, final(acc)@, *expr, let_bound, r),
        decreases *expr, 0nat,
    {
        let ghost a0 = acc@;
        let ghost c0 = self.count as nat;
        let ghost d = self.depth();
        proof {
            assert(a0.subrange(0, a0.len() as int) =~= a0);
            reveal(lifts_to);
        }
        match expr {
            Expr::App(callee, args) => {
                let g = match self.lift(callee, acc, false) {
                    Ok(x) => x,
                    Err(err) => {
                        return Err(err);
                    },
                };
                let ghost a1 = acc@;
                let ghost cf = self.count as nat;
                let n = args.len();
                let mut outs: Vec<Expr> = Vec::new();
                let mut i: usize = 0;
                proof {
                    broadcast use vstd::std_specs::vec::axiom_vec_index_decreases;

                    assert forall|j: int| 0 <= j < args@.len() implies decreases_to!(
                        *expr => #[trigger] args@[j]) by {
                        assert(decreases_to!(*args => args@[j]));
                    }
                    assert(args@.subrange(0, 0) =~= Seq::<Expr>::empty());
                    assert(acc@.subrange(0, a1.len() as int) =~= a1);
                    assert(acc@.subrange(0, a0.len() as int) =~= a0);
                }
                while i < n
                    invariant
                        self.wf(),
                        self.depth() == d,
                        d >= 1,
                        n == args@.len(),
                        i <= n,
                        all_lifted(acc@),
                        outs@.len() == i,
                        forall|j: int| 0 <= j < i ==> lambda_free(#[trigger] outs@[j]),
                        forall|j: int|
                            0 <= j < args@.len() ==> decreases_to!(*expr => #[trigger] args@[j]),
                        a0 == old(acc)@,
                        c0 == old(self).count,
                        d == old(self).depth(),
                        *expr == Expr::App(*callee, *args),
                        a0.len() <= a1.len(),
                        a1.subrange(0, a0.len() as int) == a0,
                        a1.len() <= acc@.len(),
                        acc@.subrange(0, a1.len() as int) == a1,
                        acc@.subrange(0, a0.len() as int) == a0,
                        acc@.len() == a1.len() + lift_decls_seq(args@.subrange(0, i as int), d),
                        self.count == cf + lift_ids_seq(args@.subrange(0, i as int), d),
                        cf == c0 + lift_ids(**callee, d, false),
                        a1.len() == a0.len() + lift_decls(**callee, d, false),
                        ids_fit(c0, lift_ids(**callee, d, false) + lift_ids_seq(args@.subrange(0, i as int), d)),
                        forall|j: int| 0 <= j < i ==> nest_ok(#[trigger] args@[j], d),
                        forall|j: int|
                            0 <= j < i ==> lifts_to(
                                #[trigger] args@[j],
                                outs@[j],
                                acc@.subrange(
                                    (a1.len() + lift_decls_seq(args@.subrange(0, j), d)) as int,
                                    (a1.len() + lift_decls_seq(args@.subrange(0, j + 1), d)) as int,
                                ),
                                cf + lift_ids_seq(args@.subrange(0, j), d),
                                d,
                                false,
                            ),
                    decreases n - i,
                {
                    let ghost ab = acc@;
                    proof {
                        assert(args@.subrange(0, i + 1).drop_last() =~= args@.subrange(0, i as int));
                        assert(args@.subrange(0, i + 1).last() == args@[i as int]);
                    }
                    let a = match self.lift(&args[i], acc, false) {
                        Ok(x) => x,
                        Err(err) => {
                            proof {
                                lemma_ids_seq_prefix(args@, i + 1, d);
                                assert(args@.subrange(0, n as int) =~= args@);
                                assert(acc@.subrange(0, a0.len() as int) =~= a0);
                            }
                            return Err(err);
                        },
                    };
                    proof {
                        assert forall|j: int| 0 <= j < i + 1 implies lifts_to(
                            #[trigger] args@[j],
                            outs@.push(a)[j],
                            acc@.subrange(
                                (a1.len() + lift_decls_seq(args@.subrange(0, j), d)) as int,
                                (a1.len() + lift_decls_seq(args@.subrange(0, j + 1), d)) as int,
                            ),
                            cf + lift_ids_seq(args@.subrange(0, j), d),
                            d,
                            false,
                        ) by {
                            lemma_decls_seq_prefix(args@, j, j + 1, d);
                            if j < i {
                                lemma_decls_seq_prefix(args@, j + 1, i as int, d);
                                assert(acc@.subrange(
                                    (a1.len() + lift_decls_seq(args@.subrange(0, j), d)) as int,
                                    (a1.len() + lift_decls_seq(args@.subrange(0, j + 1), d)) as int,
                                ) =~= ab.subrange(
                                    (a1.len() + lift_decls_seq(args@.subrange(0, j), d)) as int,
                                    (a1.len() + lift_decls_seq(args@.subrange(0, j + 1), d)) as int,
                                ));
                            }
                        }
                        assert(acc@.subrange(0, a1.len() as int) =~= a1);
                        assert(acc@.subrange(0, a0.len() as int) =~= a0);
                    }
                    outs.push(a);
                    i = i + 1;
                }
                proof {
                    assert(args@.subrange(0, n as int) =~= args@);
                    let l = acc@.subrange(a0.len() as int, acc@.len() as int);
                    assert(l.subrange(0, lift_decls(**callee, d, false) as int) =~= a1.subrange(
                        a0.len() as int,
                        a1.len() as int,
                    ));
                    assert forall|k: int| 0 <= k < args@.len() implies #[trigger] l.subrange(
                        (lift_decls(**callee, d, false) + lift_decls_seq(args@.subrange(0, k), d)) as int,
                        (lift_decls(**callee, d, false) + lift_decls_seq(args@.subrange(0, k + 1), d)) as int,
                    ) == acc@.subrange(
                        (a1.len() + lift_decls_seq(args@.subrange(0, k), d)) as int,
                        (a1.len() + lift_decls_seq(args@.subrange(0, k + 1), d)) as int,
                    ) by {
                        lemma_decls_seq_prefix(args@, k, k + 1, d);
                        lemma_decls_seq_prefix(args@, k + 1, n as int, d);
                        assert(args@.subrange(0, k + 1).drop_last() =~= args@.subrange(0, k));
                        assert(l.subrange(
                            (lift_decls(**callee, d, false) + lift_decls_seq(args@.subrange(0, k), d)) as int,
                            (lift_decls(**callee, d, false) + lift_decls_seq(args@.subrange(0, k + 1), d)) as int,
                        ) =~= acc@.subrange(
                            (a1.len() + lift_decls_seq(args@.subrange(0, k), d)) as int,
                            (a1.len() + lift_decls_seq(args@.subrange(0, k + 1), d)) as int,
                        ));
                    }
                    assert(acc@.subrange(0, a0.len() as int) =~= a0);
                }
                Ok(Expr::App(Box::new(g), outs))
            },
            _ => Err(Error::new("an application was expected".to_owned())),
        }
    }

    /// Lifts a lambda: its body; an anonymous lambda then moves out to `acc`
    /// under a new symbol.
    #[verifier::spinoff_prover]
    #[verifier::rlimit(60)]
    fn lift_lam(&mut self, expr: &Expr, acc: &mut Vec<Decl>, let_bound: bool) -> (r: Result<Expr>)
        requires
            old(self).wf(),
            old(self).depth() >= 1,
            all_lifted(old(acc)@),
            *expr is Lam,
        ensures
            final(self).wf(),
            all_lifted(final(acc)@),
            lift_outcome(*old(self), *final(self), old(acc)@, final(acc)@, *expr, let_bound, r),
        decreases *expr, 0nat,
    {
        let ghost a0 = acc@;
        let ghost c0 = self.count as nat;
        let ghost d = self.depth();
        proof {
            assert(a0.subrange(0, a0.len() as int) =~= a0);
            reveal(lifts_to);
        }
        match expr {
            Expr::Lam(proto, body, retty) => {
                let body = match self.lift(body, acc, false) {
                    Ok(x) => x,
                    Err(err) => {
                        return Err(err);
                    },
                };
                let ghost a1 = acc@;
                let proto2 = proto.clone();
                proof {
                    assert(proto2@ =~= proto@);
                }
                let lam = Expr::Lam(proto2, Box::new(body), retty.clone());
                if let_bound {
                    Ok(lam)
                } else {
                    //anonymous function
                    let fnty = retty.clone();
                    let nmid = match self.fresh() {
                        Ok(id) => id,
                        Err(err) => {
                            return Err(err);
                        },
                    };
                    let fnnm = Rc::new(numbered("@__anon_", nmid));
                    let symid = match self.fresh() {
                        Ok(id) => id,
                        Err(err) => {
                            return Err(err);
                        },
                    };
                    let sym = Symbol::new(fnnm, fnty, symid);
                    let bind = Bind::new(sym.clone(), lam);
                    acc.push(Decl::Let(vec![bind]));
                    proof {
                        assert forall|k: int| 0 <= k < acc@.len() implies decl_lifted(
                            #[trigger] acc@[k],
                        ) by {
                            if k < a1.len() {
                                assert(acc@[k] == a1[k]);
                            }
                        }
                        let l = acc@.subrange(a0.len() as int, acc@.len() as int);
                        assert(l.drop_last() =~= a1.subrange(a0.len() as int, a1.len() as int));
                        assert(acc@.subrange(0, a0.len() as int) =~= a0);
                    }
                    Ok(Expr::Var(sym))
                }
            },
            _ => Err(Error::new("a lambda was expected".to_owned())),
        }
    }

}

/// One more declaration lifted after the earlier ones.
proof fn lemma_module_step(
    src: Seq<Decl>,
    i: int,
    s0: Seq<Decl>,
    d1: Seq<Decl>,
    decl: Decl,
    c0: nat,
)
    requires
        0 <= i < src.len(),
        s0.len() == i + decls_lift_decls(src.subrange(0, i)),
        s0.len() <= d1.len(),
        d1.subrange(0, s0.len() as int) == s0,
        d1.len() == s0.len() + decl_lift_decls(src[i]),
        decl_lifts_to(
            src[i],
            d1.subrange(s0.len() as int, d1.len() as int),
            decl,
            c0 + decls_lift_ids(src.subrange(0, i)),
        ),
        forall|k: int|
            0 <= k < i ==> #[trigger] decl_lifts_to(
                src[k],
                s0.subrange(
                    k + decls_lift_decls(src.subrange(0, k)),
                    k + decls_lift_decls(src.subrange(0, k + 1)),
                ),
                s0[k + decls_lift_decls(src.subrange(0, k + 1))],
                c0 + decls_lift_ids(src.subrange(0, k)),
            ),
    ensures
        forall|k: int|
            0 <= k < i + 1 ==> #[trigger] decl_lifts_to(
                src[k],
                d1.push(decl).subrange(
                    k + decls_lift_decls(src.subrange(0, k)),
                    k + decls_lift_decls(src.subrange(0, k + 1)),
                ),
                d1.push(decl)[k + decls_lift_decls(src.subrange(0, k + 1))],
                c0 + decls_lift_ids(src.subrange(0, k)),
            ),
{
    let e = d1.push(decl);
    assert(e.subrange(0, s0.len() as int) =~= s0);
    assert forall|k: int| 0 <= k < i + 1 implies #[trigger] decl_lifts_to(
        src[k],
        e.subrange(
            k + decls_lift_decls(src.subrange(0, k)),
            k + decls_lift_decls(src.subrange(0, k + 1)),
        ),
        e[k + decls_lift_decls(src.subrange(0, k + 1))],
        c0 + decls_lift_ids(src.subrange(0, k)),
    ) by {
        assert(src.subrange(0, k + 1).drop_last() =~= src.subrange(0, k));
        if k < i {
            assert(decl_lifts_to(
                src[k],
                s0.subrange(
                    k + decls_lift_decls(src.subrange(0, k)),
                    k + decls_lift_decls(src.subrange(0, k + 1)),
                ),
                s0[k + decls_lift_decls(src.subrange(0, k + 1))],
                c0 + decls_lift_ids(src.subrange(0, k)),
            ));
            lemma_decls_decls_prefix(src, k + 1, i);
            assert(e.subrange(0, s0.len() as int)[k + decls_lift_decls(src.subrange(0, k + 1))]
                == e[k + decls_lift_decls(src.subrange(0, k + 1))]);
            lemma_prefix_slice(
                s0,
                e,
                k + decls_lift_decls(src.subrange(0, k)),
                k + decls_lift_decls(src.subrange(0, k + 1)),
            );
        } else {
            assert(e.subrange(
                k + decls_lift_decls(src.subrange(0, k)),
                k + decls_lift_decls(src.subrange(0, k + 1)),
            ) =~= d1.subrange(s0.len() as int, d1.len() as int));
        }
    }
}

/// Slices within a kept prefix stay as they were.
proof fn lemma_prefix_slice(a: Seq<Decl>, b: Seq<Decl>, x: int, y: int)
    requires
        a.len() <= b.len(),
        b.subrange(0, a.len() as int) == a,
        0 <= x <= y <= a.len(),
    ensures
        b.subrange(x, y) == a.subrange(x, y),
{
    assert(b.subrange(x, y) =~= a.subrange(x, y)) by {
        assert forall|i: int| 0 <= i < y - x implies b.subrange(x, y)[i] == a.subrange(x, y)[i] by {
            assert(b.subrange(0, a.len() as int)[x + i] == b[x + i]);
        }
    }
}

/// A slice of a suffix is a slice of the whole.
proof fn lemma_slice_of_suffix(a: Seq<Decl>, base: int, x: int, y: int)
    requires
        0 <= base <= a.len(),
        0 <= x <= y <= a.len() - base,
    ensures
        a.subrange(base, a.len() as int).subrange(x, y) == a.subrange(base + x, base + y),
{
    assert(a.subrange(base, a.len() as int).subrange(x, y) =~= a.subrange(base + x, base + y));
}

/// Bindings lifted one after another, their lifted declarations placed
/// from `base` on in `a`, make the `let` of the bindings lifted.
proof fn lemma_let_lifts(binds: Vec<Bind>, out: Decl, a: Seq<Decl>, base: int, c: nat)
    requires
        0 <= base,
        out matches Decl::Let(outs) && outs@.len() == binds@.len() && forall|j: int|
            0 <= j < binds@.len() ==> bind_lifts_to(
                #[trigger] binds@[j],
                outs@[j],
                a.subrange(
                    (base + binds_decls(binds@.subrange(0, j))) as int,
                    (base + binds_decls(binds@.subrange(0, j + 1))) as int,
                ),
                c + binds_ids(binds@.subrange(0, j)),
                0,
            ),
        a.len() == base + binds_decls(binds@),
    ensures
        decl_lifts_to(Decl::Let(binds), a.subrange(base, a.len() as int), out, c),
{
    reveal(decl_lifts_to);
    assert(binds@.subrange(0, binds@.len() as int) =~= binds@);
    assert forall|j: int| 0 <= j < binds@.len() implies bind_lifts_to(
        #[trigger] binds@[j],
        out->Let_0@[j],
        a.subrange(base, a.len() as int).subrange(
            binds_decls(binds@.subrange(0, j)) as int,
            binds_decls(binds@.subrange(0, j + 1)) as int,
        ),
        c + binds_ids(binds@.subrange(0, j)),
        0,
    ) by {
        lemma_binds_decls_prefix(binds@, j, j + 1);
        lemma_binds_decls_prefix(binds@, j + 1, binds@.len() as int);
        lemma_slice_of_suffix(
            a,
            base,
            binds_decls(binds@.subrange(0, j)) as int,
            binds_decls(binds@.subrange(0, j + 1)) as int,
        );
    }
}

/// `s` up to `k`, then one more.
proof fn lemma_ids_seq_prefix(s: Seq<Expr>, k: int, d: nat)
    requires
        0 <= k <= s.len(),
    ensures
        lift_ids_seq(s.subrange(0, k), d) <= lift_ids_seq(s, d),
    decreases s.len() - k,
{
    if k < s.len() {
        assert(s.subrange(0, k + 1).drop_last() =~= s.subrange(0, k));
        lemma_ids_seq_prefix(s, k + 1, d);
    } else {
        assert(s.subrange(0, k) =~= s);
    }
}

proof fn lemma_decls_seq_prefix(s: Seq<Expr>, a: int, b: int, d: nat)
    requires
        0 <= a <= b <= s.len(),
    ensures
        lift_decls_seq(s.subrange(0, a), d) <= lift_decls_seq(s.subrange(0, b), d),
    decreases b - a,
{
    if a < b {
        assert(s.subrange(0, b).drop_last() =~= s.subrange(0, b - 1));
        lemma_decls_seq_prefix(s, a, b - 1, d);
    }
}

proof fn lemma_binds_ids_prefix(s: Seq<Bind>, k: int)
    requires
        0 <= k <= s.len(),
    ensures
        binds_ids(s.subrange(0, k)) <= binds_ids(s),
    decreases s.len() - k,
{
    if k < s.len() {
        assert(s.subrange(0, k + 1).drop_last() =~= s.subrange(0, k));
        lemma_binds_ids_prefix(s, k + 1);
    } else {
        assert(s.subrange(0, k) =~= s);
    }
}

proof fn lemma_binds_decls_prefix(s: Seq<Bind>, a: int, b: int)
    requires
        0 <= a <= b <= s.len(),
    ensures
        binds_decls(s.subrange(0, a)) <= binds_decls(s.subrange(0, b)),
    decreases b - a,
{
    if a < b {
        assert(s.subrange(0, b).drop_last() =~= s.subrange(0, b - 1));
        lemma_binds_decls_prefix(s, a, b - 1);
    }
}

proof fn lemma_decls_ids_prefix(s: Seq<Decl>, k: int)
    requires
        0 <= k <= s.len(),
    ensures
        decls_lift_ids(s.subrange(0, k)) <= decls_lift_ids(s),
    decreases s.len() - k,
{
    if k < s.len() {
        assert(s.subrange(0, k + 1).drop_last() =~= s.subrange(0, k));
        lemma_decls_ids_prefix(s, k + 1);
    } else {
        assert(s.subrange(0, k) =~= s);
    }
}

proof fn lemma_decls_decls_prefix(s: Seq<Decl>, a: int, b: int)
    requires
        0 <= a <= b <= s.len(),
    ensures
        a + decls_lift_decls(s.subrange(0, a)) <= b + decls_lift_decls(s.subrange(0, b)),
    decreases b - a,
{
    if a < b {
        assert(s.subrange(0, b).drop_last() =~= s.subrange(0, b - 1));
        lemma_decls_decls_prefix(s, a, b - 1);
    }
}

proof fn lemma_modules_ids_prefix(s: Seq<Module>, k: int)
    requires
        0 <= k <= s.len(),
    ensures
        modules_lift_ids(s.subrange(0, k)) <= modules_lift_ids(s),
    decreases s.len() - k,
{
    if k < s.len() {
        assert(s.subrange(0, k + 1).drop_last() =~= s.subrange(0, k));
        lemma_modules_ids_prefix(s, k + 1);
    } else {
        assert(s.subrange(0, k) =~= s);
    }
}

impl Pass for LambdaLift {
    type Input = Vec<Module>;
    type Output = Vec<Module>;

    /// Lifts the lambdas of each module. A lifter is only ever made by
    /// `new` and changed by `run`, which consumes it, so the lifter that
    /// `run` starts from is a new one. The identifiers of the symbols it
    /// makes follow the largest identifier in the modules.
    #[verifier::spinoff_prover]
    #[verifier::rlimit(60)]
    fn run(self, module_vec: Vec<Module>) -> (r: Result<Vec<Module>>)
        ensures
            match r {
                Ok(out) => {
                    &&& out@.len() == module_vec@.len()
                    &&& forall|i: int|
                        0 <= i < out@.len() ==> {
                            &&& (#[trigger] out@[i]).spec_name() == module_vec@[i].spec_name()
                            &&& all_lifted(out@[i].spec_decls())
                            &&& module_lifts_to(
                                module_vec@[i].spec_decls(),
                                out@[i].spec_decls(),
                                modules_max_id(module_vec@) + modules_lift_ids(
                                    module_vec@.subrange(0, i),
                                ),
                            )
                        }
                    &&& forall|i: int|
                        0 <= i < module_vec@.len() ==> decls_nest_ok(
                            #[trigger] module_vec@[i].spec_decls(),
                        )
                    &&& ids_fit(modules_max_id(module_vec@), modules_lift_ids(module_vec@))
                },
                Err(_) => !(forall|i: int|
                    0 <= i < module_vec@.len() ==> decls_nest_ok(
                        #[trigger] module_vec@[i].spec_decls(),
                    )) || !ids_fit(modules_max_id(module_vec@), modules_lift_ids(module_vec@)),
            },
    {
        let _ = self;
        let mut this = LambdaLift::new();
        this.count = max_module_id(&module_vec);
        let ghost start = this.count as nat;
        let mut res: Vec<Module> = Vec::new();
        let mut i: usize = 0;
        while i < module_vec.len()
            invariant
                this.wf(),
                this.depth() == 0,
                start == modules_max_id(module_vec@),
                i <= module_vec@.len(),
                res@.len() == i,
                this.count == start + modules_lift_ids(module_vec@.subrange(0, i as int)),
                ids_fit(start, modules_lift_ids(module_vec@.subrange(0, i as int))),
                forall|j: int| 0 <= j < i ==> decls_nest_ok(#[trigger] module_vec@[j].spec_decls()),
                forall|j: int|
                    0 <= j < i ==> {
                        &&& (#[trigger] res@[j]).spec_name() == module_vec@[j].spec_name()
                        &&& all_lifted(res@[j].spec_decls())
                        &&& module_lifts_to(
                            module_vec@[j].spec_decls(),
                            res@[j].spec_decls(),
                            start + modules_lift_ids(module_vec@.subrange(0, j)),
                        )
                    },
            decreases module_vec@.len() - i,
        {
            proof {
                assert(module_vec@.subrange(0, i + 1).drop_last() =~= module_vec@.subrange(
                    0,
                    i as int,
                ));
                assert(module_vec@.subrange(0, i + 1).last() == module_vec@[i as int]);
            }
            let m = match this.lift_module(&module_vec[i]) {
                Ok(m) => m,
                Err(e) => {
                    proof {
                        lemma_modules_ids_prefix(module_vec@, i + 1);
                    }
                    return Err(e);
                },
            };
            res.push(m);
            i = i + 1;
        }
        proof {
            assert(module_vec@.subrange(0, module_vec@.len() as int) =~= module_vec@);
        }
        Ok(res)
    }
}

} // verus!
