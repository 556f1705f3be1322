//! Substituting the solved unification table into an explicitly typed
//! expression, once inference is done.

use super::unify::{vars_within, SType_, UnificationTable};
use crate::xir::{Bind, Expr, If, Let, Symbol, Type};
use vstd::prelude::*;

verus! {

/// Every type in `e` has its variables among `d`.
pub open spec fn expr_vars_within(e: Expr, d: Set<u32>) -> bool
    decreases e,
{
    match e {
        Expr::Var(s) => vars_within(s.spec_ty()@, d),
        Expr::Lam(params, body, ret) => {
            &&& forall|i: int| 0 <= i < params@.len() ==> vars_within(#[trigger] params@[i].spec_ty()@, d)
            &&& expr_vars_within(*body, d)
            &&& vars_within(ret@, d)
        },
        Expr::If(i) => {
            proof {
                i.lemma_parts();
            }
            &&& expr_vars_within(i.spec_cond(), d)
            &&& expr_vars_within(i.spec_texpr(), d)
            &&& expr_vars_within(i.spec_fexpr(), d)
            &&& vars_within(i.spec_ty()@, d)
        },
        Expr::Let(l) => {
            proof {
                l.lemma_parts();
            }
            &&& vars_within(l.spec_bind().spec_symbol().spec_ty()@, d)
            &&& expr_vars_within(l.spec_bind().spec_expr(), d)
            &&& expr_vars_within(l.spec_expr(), d)
        },
        Expr::App(f, args) => expr_vars_within(*f, d) && forall|i: int|
            0 <= i < args@.len() ==> expr_vars_within(#[trigger] args@[i], d),
        Expr::TyLam(_, b) => expr_vars_within(*b, d),
        Expr::TyApp(b, tys) => expr_vars_within(*b, d) && forall|i: int|
            0 <= i < tys@.len() ==> vars_within(#[trigger] tys@[i]@, d),
        _ => true,
    }
}

/// `s2` is symbol `s` with the substitution of `t` applied to its type.
pub open spec fn sym_substituted(t: UnificationTable, s: Symbol, s2: Symbol) -> bool {
    &&& s2.spec_name() == s.spec_name()
    &&& s2.spec_id() == s.spec_id()
    &&& s2.spec_ty()@ == t.applied(s.spec_ty()@)
}

/// `out` has the shape of `e`, with every type in it (of symbols,
/// lambdas, conditionals and type applications) replaced by its value under
/// the substitution of `t`. Literals and the variables a type lambda binds
/// stay as they are.
pub open spec fn substituted(t: UnificationTable, e: Expr, out: Expr) -> bool
    decreases e,
{
    match e {
        Expr::UnitLit => out is UnitLit,
        Expr::I32Lit(n) => out == Expr::I32Lit(n),
        Expr::BoolLit(b) => out == Expr::BoolLit(b),
        Expr::Var(s) => out matches Expr::Var(s2) && sym_substituted(t, s, s2),
        Expr::Lam(params, body, ret) => {
            &&& out matches Expr::Lam(p2, b2, r2) && {
                &&& p2@.len() == params@.len()
                &&& forall|i: int|
                    0 <= i < params@.len() ==> sym_substituted(t, #[trigger] params@[i], p2@[i])
                &&& substituted(t, *body, *b2)
                &&& r2@ == t.applied(ret@)
            }
        },
        Expr::If(i) => {
            proof {
                i.lemma_parts();
            }
            &&& out matches Expr::If(i2) && {
                &&& substituted(t, i.spec_cond(), i2.spec_cond())
                &&& substituted(t, i.spec_texpr(), i2.spec_texpr())
                &&& substituted(t, i.spec_fexpr(), i2.spec_fexpr())
                &&& i2.spec_ty()@ == t.applied(i.spec_ty()@)
            }
        },
        Expr::Let(l) => {
            proof {
                l.lemma_parts();
            }
            &&& out matches Expr::Let(l2) && {
                &&& sym_substituted(
                    t,
                    l.spec_bind().spec_symbol(),
                    l2.spec_bind().spec_symbol(),
                )
                &&& substituted(t, l.spec_bind().spec_expr(), l2.spec_bind().spec_expr())
                &&& substituted(t, l.spec_expr(), l2.spec_expr())
            }
        },
        Expr::App(f, args) => {
            &&& out matches Expr::App(f2, a2) && {
                &&& substituted(t, *f, *f2)
                &&& a2@.len() == args@.len()
                &&& forall|i: int| 0 <= i < args@.len() ==> substituted(t, #[trigger] args@[i], a2@[i])
            }
        },
        Expr::TyLam(vs, b) => out matches Expr::TyLam(vs2, b2) && vs2@ == vs@ && substituted(
            t,
            *b,
            *b2,
        ),
        Expr::TyApp(b, tys) => {
            &&& out matches Expr::TyApp(b2, tys2) && {
                &&& substituted(t, *b, *b2)
                &&& tys2@.len() == tys@.len()
                &&& forall|i: int| 0 <= i < tys@.len() ==> #[trigger] tys2@[i]@ == t.applied(tys@[i]@)
            }
        },
    }
}

/// The symbol with the substitution applied to its type.
fn mk_symbol(table: &mut UnificationTable, s: &Symbol) -> (r: Symbol)
    requires
        old(table).wf(),
        vars_within(s.spec_ty()@, old(table).dom()),
    ensures
        *final(table) == *old(table),
        sym_substituted(*old(table), *s, r),
{
    let ty = table.apply_subst(s.ty());
    s.with_ty(ty)
}

/// The binding with the substitution applied.
fn bind_subst(table: &mut UnificationTable, bind: &Bind) -> (r: Bind)
    requires
        old(table).wf(),
        vars_within(bind.spec_symbol().spec_ty()@, old(table).dom()),
        expr_vars_within(bind.spec_expr(), old(table).dom()),
    ensures
        *final(table) == *old(table),
        sym_substituted(*old(table), bind.spec_symbol(), r.spec_symbol()),
        substituted(*old(table), bind.spec_expr(), r.spec_expr()),
    decreases bind.spec_expr(), 3nat,
{
    let symbol = mk_symbol(table, bind.symbol());
    let expr = subst(table, bind.expr());
    Bind::new(symbol, expr)
}

/// `expr` with the substitution of the solved table applied to every type
/// in it.
pub fn subst(table: &mut UnificationTable, expr: &Expr) -> (r: Expr)
    requires
        old(table).wf(),
        expr_vars_within(*expr, old(table).dom()),
    ensures
        *final(table) == *old(table),
        substituted(*old(table), *expr, r),
        expr_types(r) == applied_all(*old(table), expr_types(*expr)),
    decreases *expr, 2nat,
{
    let r = subst_in(table, expr);
    proof {
        law_subst_types(*old(table), *expr, r);
    }
    r
}

/// `subst`, by the shape of `expr`.
fn subst_in(table: &mut UnificationTable, expr: &Expr) -> (r: Expr)
    requires
        old(table).wf(),
        expr_vars_within(*expr, old(table).dom()),
    ensures
        *final(table) == *old(table),
        substituted(*old(table), *expr, r),
    decreases *expr, 0nat,
{
    match expr {
        Expr::UnitLit => Expr::UnitLit,
        Expr::I32Lit(n) => Expr::I32Lit(*n),
        Expr::BoolLit(b) => Expr::BoolLit(*b),
        Expr::Var(id) => Expr::Var(mk_symbol(table, id)),
        Expr::Lam(proto, body, retty) => {
            let body2 = subst(table, body);
            let mut params: Vec<Symbol> = Vec::new();
            let mut i: usize = 0;
            while i < proto.len()
                invariant
                    table.wf(),
                    *table == *old(table),
                    i <= proto@.len(),
                    params@.len() == i,
                    forall|j: int|
                        0 <= j < proto@.len() ==> vars_within(
                            #[trigger] proto@[j].spec_ty()@,
                            old(table).dom(),
                        ),
                    forall|j: int|
                        0 <= j < i ==> sym_substituted(*old(table), #[trigger] proto@[j], params@[j]),
                decreases proto@.len() - i,
            {
                let p = mk_symbol(table, &proto[i]);
                params.push(p);
                i = i + 1;
            }
            let ret = table.apply_subst(retty);
            Expr::Lam(params, Box::new(body2), ret)
        },
        Expr::If(e) => {
            proof {
                e.lemma_parts();
            }
            let c = subst(table, e.cond());
            let t = subst(table, e.texpr());
            let f = subst(table, e.fexpr());
            let ty = table.apply_subst(e.ty());
            Expr::If(Box::new(If::new(c, t, f, ty)))
        },
        Expr::App(callee, args) => {
            let callee2 = subst(table, callee);
            let mut outs: Vec<Expr> = Vec::new();
            let mut i: usize = 0;
            while i < args.len()
                invariant
                    table.wf(),
                    *table == *old(table),
                    i <= args@.len(),
                    outs@.len() == i,
                    forall|j: int|
                        0 <= j < args@.len() ==> expr_vars_within(
                            #[trigger] args@[j],
                            old(table).dom(),
                        ),
                    forall|j: int|
                        0 <= j < i ==> substituted(*old(table), #[trigger] args@[j], outs@[j]),
                    forall|j: int| 0 <= j < args@.len() ==> decreases_to!(*expr => #[trigger] args@[j]),
                decreases args@.len() - i,
            {
                let a = subst(table, &args[i]);
                outs.push(a);
                i = i + 1;
            }
            Expr::App(Box::new(callee2), outs)
        },
        Expr::Let(le) => {
            proof {
                le.lemma_parts();
            }
            let bind = bind_subst(table, le.bind());
            let body = subst(table, le.expr());
            Expr::Let(Box::new(Let::new(bind, body)))
        },
        Expr::TyLam(args, b) => {
            let body = subst(table, b);
            let mut vs: Vec<crate::types::TyVar> = Vec::new();
            let mut i: usize = 0;
            while i < args.len()
                invariant
                    i <= args@.len(),
                    vs@ == args@.subrange(0, i as int),
                decreases args@.len() - i,
            {
                vs.push(args[i]);
                i = i + 1;
            }
            assert(vs@ =~= args@);
            Expr::TyLam(vs, Box::new(body))
        },
        Expr::TyApp(e, tys) => {
            let e2 = subst(table, e);
            let mut out: Vec<Type> = Vec::new();
            let mut i: usize = 0;
            while i < tys.len()
                invariant
                    table.wf(),
                    *table == *old(table),
                    i <= tys@.len(),
                    out@.len() == i,
                    forall|j: int| 0 <= j < tys@.len() ==> vars_within(#[trigger] tys@[j]@, old(table).dom()),
                    forall|j: int| 0 <= j < i ==> #[trigger] out@[j]@ == old(table).applied(tys@[j]@),
                decreases tys@.len() - i,
            {
                let t = table.apply_subst(&tys[i]);
                out.push(t);
                i = i + 1;
            }
            Expr::TyApp(Box::new(e2), out)
        },
    }
}

/// The types written in `e`, in order: those of symbols, of lambdas'
/// parameters and results, of conditionals, and of type applications.
pub open spec fn expr_types(e: Expr) -> Seq<SType_>
    decreases e,
{
    match e {
        Expr::Var(s) => seq![s.spec_ty()@],
        Expr::Lam(params, body, ret) => params@.map_values(|p: Symbol| p.spec_ty()@) + expr_types(
            *body,
        ) + seq![ret@],
        Expr::If(i) => {
            proof {
                i.lemma_parts();
            }
            expr_types(i.spec_cond()) + expr_types(i.spec_texpr()) + expr_types(i.spec_fexpr())
                + seq![i.spec_ty()@]
        },
        Expr::Let(l) => {
            proof {
                l.lemma_parts();
            }
            seq![l.spec_bind().spec_symbol().spec_ty()@] + expr_types(l.spec_bind().spec_expr())
                + expr_types(l.spec_expr())
        },
        Expr::App(f, args) => expr_types(*f) + exprs_types(args@),
        Expr::TyLam(_, b) => expr_types(*b),
        Expr::TyApp(b, tys) => expr_types(*b) + tys@.map_values(|ty: Type| ty@),
        _ => Seq::empty(),
    }
}

/// The types written in `s`, one expression after another.
pub open spec fn exprs_types(s: Seq<Expr>) -> Seq<SType_>
    decreases s,
{
    if s.len() == 0 {
        Seq::empty()
    } else {
        exprs_types(s.drop_last()) + expr_types(s.last())
    }
}

/// Each type of `s` with the substitution of `t` applied.
pub open spec fn applied_all(t: UnificationTable, s: Seq<SType_>) -> Seq<SType_> {
    s.map_values(|x: SType_| t.applied(x))
}

proof fn lemma_applied_all_concat(t: UnificationTable, a: Seq<SType_>, b: Seq<SType_>)
    ensures
        applied_all(t, a + b) == applied_all(t, a) + applied_all(t, b),
{
    assert(applied_all(t, a + b) =~= applied_all(t, a) + applied_all(t, b));
}

/// Writing the solved types back changes every type written in the
/// expression, and nothing else: the types of the result, in order, are
/// those of the input with the substitution applied.
pub proof fn law_subst_types(t: UnificationTable, e: Expr, out: Expr)
    requires
        substituted(t, e, out),
    ensures
        expr_types(out) == applied_all(t, expr_types(e)),
    decreases e,
{
    match e {
        Expr::Var(s) => {
            assert(applied_all(t, expr_types(e)) =~= expr_types(out));
        },
        Expr::Lam(params, body, ret) => {
            if let Expr::Lam(p2, b2, r2) = out {
                law_subst_types(t, *body, *b2);
                let pt = params@.map_values(|p: Symbol| p.spec_ty()@);
                let pt2 = p2@.map_values(|p: Symbol| p.spec_ty()@);
                assert(pt2 =~= applied_all(t, pt));
                lemma_applied_all_concat(t, pt, expr_types(*body));
                lemma_applied_all_concat(t, pt + expr_types(*body), seq![ret@]);
                assert(applied_all(t, seq![ret@]) =~= seq![r2@]);
            }
        },
        Expr::If(i) => {
            i.lemma_parts();
            if let Expr::If(i2) = out {
                law_subst_types(t, i.spec_cond(), i2.spec_cond());
                law_subst_types(t, i.spec_texpr(), i2.spec_texpr());
                law_subst_types(t, i.spec_fexpr(), i2.spec_fexpr());
                let c = expr_types(i.spec_cond());
                let x = expr_types(i.spec_texpr());
                let y = expr_types(i.spec_fexpr());
                lemma_applied_all_concat(t, c, x);
                lemma_applied_all_concat(t, c + x, y);
                lemma_applied_all_concat(t, c + x + y, seq![i.spec_ty()@]);
                assert(applied_all(t, seq![i.spec_ty()@]) =~= seq![i2.spec_ty()@]);
            }
        },
        Expr::Let(l) => {
            l.lemma_parts();
            if let Expr::Let(l2) = out {
                law_subst_types(t, l.spec_bind().spec_expr(), l2.spec_bind().spec_expr());
                law_subst_types(t, l.spec_expr(), l2.spec_expr());
                let h = seq![l.spec_bind().spec_symbol().spec_ty()@];
                let x = expr_types(l.spec_bind().spec_expr());
                let y = expr_types(l.spec_expr());
                lemma_applied_all_concat(t, h, x);
                lemma_applied_all_concat(t, h + x, y);
                assert(applied_all(t, h) =~= seq![l2.spec_bind().spec_symbol().spec_ty()@]);
            }
        },
        Expr::App(f, args) => {
            if let Expr::App(f2, a2) = out {
                law_subst_types(t, *f, *f2);
                assert forall|i: int| 0 <= i < args@.len() implies decreases_to!(e => #[trigger] args@[i]) by {
                    broadcast use vstd::std_specs::vec::axiom_vec_index_decreases;

                    assert(decreases_to!(args => args@[i]));
                }
                lemma_subst_types_seq(t, e, args@, a2@);
                lemma_applied_all_concat(t, expr_types(*f), exprs_types(args@));
            }
        },
        Expr::TyLam(_, b) => {
            if let Expr::TyLam(_, b2) = out {
                law_subst_types(t, *b, *b2);
            }
        },
        Expr::TyApp(b, tys) => {
            if let Expr::TyApp(b2, tys2) = out {
                law_subst_types(t, *b, *b2);
                lemma_applied_all_concat(t, expr_types(*b), tys@.map_values(|ty: Type| ty@));
                assert(tys2@.map_values(|ty: Type| ty@) =~= applied_all(
                    t,
                    tys@.map_values(|ty: Type| ty@),
                ));
            }
        },
        _ => {
            assert(applied_all(t, expr_types(e)) =~= expr_types(out));
        },
    }
}

/// The law over a list of expressions, each substituted into its partner.
proof fn lemma_subst_types_seq(t: UnificationTable, e: Expr, s: Seq<Expr>, s2: Seq<Expr>)
    requires
        s.len() == s2.len(),
        forall|i: int| 0 <= i < s.len() ==> decreases_to!(e => #[trigger] s[i]),
        forall|i: int| 0 <= i < s.len() ==> substituted(t, #[trigger] s[i], s2[i]),
    ensures
        exprs_types(s2) == applied_all(t, exprs_types(s)),
    decreases e, s.len(),
{
    if s.len() > 0 {
        let n = s.len() - 1;
        assert forall|i: int| 0 <= i < s.drop_last().len() implies decreases_to!(e => #[trigger] s.drop_last()[i]) by {
            assert(s.drop_last()[i] == s[i]);
        }
        assert forall|i: int| 0 <= i < s.drop_last().len() implies substituted(
            t,
            #[trigger] s.drop_last()[i],
            s2.drop_last()[i],
        ) by {
            assert(s.drop_last()[i] == s[i] && s2.drop_last()[i] == s2[i]);
        }
        lemma_subst_types_seq(t, e, s.drop_last(), s2.drop_last());
        assert(decreases_to!(e => s[n]));
        law_subst_types(t, s[n], s2[n]);
        lemma_applied_all_concat(t, exprs_types(s.drop_last()), expr_types(s.last()));
    }
}

} // verus!
