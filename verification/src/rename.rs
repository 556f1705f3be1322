//! Name resolution: turns the parsed modules into the identifier tree.
//! Every binder gets a symbol with a fresh identifier and a fresh type
//! variable; every use of a name becomes the symbol the name is bound to in
//! the innermost scope that binds it.
//!
//! Scoping: a lambda opens a scope for its parameters and body; a `let`
//! binds its name, after its bound expression, in the current scope, where
//! it stays; top-level declarations bind in the outermost scope, where a
//! name may not be declared twice.

use crate::ast;
use crate::idtree::{self, Symbol};
use crate::scoped_map::{lookup, ScopedMap};
use crate::types::{self, types_view, Kind, SType, STyCon, TyCon, TyVar};
use crate::utils::tarjan_scc::{Graph, SCC};
use crate::text::push_str;
use crate::{max_nat, Error, Pass, Result};
use std::collections::HashMap;
use std::rc::Rc;
use vstd::prelude::*;

verus! {

broadcast use vstd::std_specs::hash::group_hash_axioms;

type Type = types::Type<TyVar>;

/// The scopes of names, innermost last, each name to its symbol.
pub type Scopes = Seq<Map<Seq<char>, Symbol>>;

/// The scopes of names alone.
pub type NameScopes = Seq<Set<Seq<char>>>;

pub open spec fn names_of(env: Scopes) -> NameScopes {
    Seq::new(env.len(), |i: int| env[i].dom())
}

/// Some scope binds `nm`.
pub open spec fn bound_in(env: NameScopes, nm: Seq<char>) -> bool {
    exists|i: int| 0 <= i < env.len() && #[trigger] env[i].contains(nm)
}

/// `nm` bound in the innermost scope.
pub open spec fn add_name(env: NameScopes, nm: Seq<char>) -> NameScopes {
    env.update(env.len() - 1, env.last().insert(nm))
}

/// Declaring `nm` where it is already declared is an error in the
/// outermost scope alone.
pub open spec fn clashes(env: NameScopes, nm: Seq<char>) -> bool {
    env.len() == 1 && env[0].contains(nm)
}

/// The names of a lambda's parameters.
pub open spec fn param_names(params: Seq<String>) -> Set<Seq<char>> {
    Set::new(|x: Seq<char>| exists|i: int| 0 <= i < params.len() && params[i]@ == x)
}

/// Whether every name used in `e` is bound where it is used, and no name
/// is declared twice in the outermost scope; and the scopes afterwards.
pub open spec fn check(e: ast::Expr, env: NameScopes) -> (bool, NameScopes)
    decreases e,
{
    match e {
        ast::Expr::Var(nm) => (bound_in(env, nm@), env),
        ast::Expr::Lam(lam) => {
            proof {
                lam.lemma_parts();
            }
            (check(lam.spec_body(), env.push(param_names(lam.spec_params()))).0, env)
        },
        ast::Expr::If(i) => {
            proof {
                i.lemma_parts();
            }
            let (a, e1) = check(i.spec_cond(), env);
            let (b, e2) = check(i.spec_texpr(), e1);
            let (c, e3) = check(i.spec_fexpr(), e2);
            (a && b && c, e3)
        },
        ast::Expr::App(f, args) => {
            let (a, e1) = check(*f, env);
            let (b, e2) = check_seq(args@, e1);
            (a && b, e2)
        },
        ast::Expr::Let(bind, body) => {
            let (a, e1) = check(bind.1, env);
            let (b, e2) = check(*body, add_name(e1, bind.0@));
            (a && !clashes(e1, bind.0@) && b, e2)
        },
        _ => (true, env),
    }
}

pub open spec fn check_seq(s: Seq<ast::Expr>, env: NameScopes) -> (bool, NameScopes)
    decreases s,
{
    if s.len() == 0 {
        (true, env)
    } else {
        let (a, e1) = check(s[0], env);
        let (b, e2) = check_seq(s.subrange(1, s.len() as int), e1);
        (a && b, e2)
    }
}

/// `s` bound in the innermost scope.
pub open spec fn bind_sym(env: Scopes, s: Symbol) -> Scopes {
    env.update(env.len() - 1, env.last().insert(s.spec_name(), s))
}

/// The symbols `ps`, in order, bound in the innermost scope.
pub open spec fn bind_syms(env: Scopes, ps: Seq<Symbol>) -> Scopes
    decreases ps.len(),
{
    if ps.len() == 0 {
        env
    } else {
        bind_sym(bind_syms(env, ps.drop_last()), ps.last())
    }
}

/// Whether every variable of `e` is the symbol its name is bound to in the
/// scopes `env` where it stands, the binders of `e` being bound as the
/// renamer binds them; and the scopes afterwards.
pub open spec fn resolved(e: idtree::Expr, env: Scopes) -> (bool, Scopes)
    decreases e,
{
    match e {
        idtree::Expr::Var(sym) => (lookup(env, sym.spec_name()) == Some(sym), env),
        idtree::Expr::Lam(params, body) => (
            resolved(*body, bind_syms(env.push(Map::empty()), params@)).0,
            env,
        ),
        idtree::Expr::If(i) => {
            proof {
                i.lemma_parts();
            }
            let (a, e1) = resolved(i.spec_cond(), env);
            let (b, e2) = resolved(i.spec_texpr(), e1);
            let (c, e3) = resolved(i.spec_fexpr(), e2);
            (a && b && c, e3)
        },
        idtree::Expr::App(f, args) => {
            let (a, e1) = resolved(*f, env);
            let (b, e2) = resolved_seq(args@, e1);
            (a && b, e2)
        },
        idtree::Expr::Let(l) => {
            proof {
                l.lemma_parts();
            }
            let (a, e1) = resolved(l.spec_bind(), env);
            let (b, e2) = resolved(l.spec_expr(), bind_sym(e1, l.spec_id()));
            (a && b, e2)
        },
        _ => (true, env),
    }
}

pub open spec fn resolved_seq(s: Seq<idtree::Expr>, env: Scopes) -> (bool, Scopes)
    decreases s,
{
    if s.len() == 0 {
        (true, env)
    } else {
        let (a, e1) = resolved(s[0], env);
        let (b, e2) = resolved_seq(s.subrange(1, s.len() as int), e1);
        (a && b, e2)
    }
}

/// `out` has the shape of `src`: the same literals and constructs, each
/// name kept on the symbol that replaces it.
pub open spec fn renames(src: ast::Expr, out: idtree::Expr) -> bool
    decreases src,
{
    match (src, out) {
        (ast::Expr::UnitLit, idtree::Expr::UnitLit) => true,
        (ast::Expr::I32Lit(n), idtree::Expr::I32Lit(m)) => n == m,
        (ast::Expr::BoolLit(b), idtree::Expr::BoolLit(c)) => b == c,
        (ast::Expr::Var(nm), idtree::Expr::Var(sym)) => sym.spec_name() == nm@,
        (ast::Expr::Lam(lam), idtree::Expr::Lam(params, body)) => {
            proof {
                lam.lemma_parts();
            }
            &&& params@.len() == lam.spec_params().len()
            &&& forall|i: int|
                0 <= i < params@.len() ==> (#[trigger] params@[i]).spec_name()
                    == lam.spec_params()[i]@
            &&& renames(lam.spec_body(), *body)
        },
        (ast::Expr::If(i), idtree::Expr::If(j)) => {
            proof {
                i.lemma_parts();
            }
            &&& renames(i.spec_cond(), j.spec_cond())
            &&& renames(i.spec_texpr(), j.spec_texpr())
            &&& renames(i.spec_fexpr(), j.spec_fexpr())
        },
        (ast::Expr::App(f, args), idtree::Expr::App(g, outs)) => {
            &&& renames(*f, *g)
            &&& args@.len() == outs@.len()
            &&& forall|i: int| 0 <= i < args@.len() ==> renames(#[trigger] args@[i], outs@[i])
        },
        (ast::Expr::Let(bind, body), idtree::Expr::Let(l)) => {
            &&& l.spec_id().spec_name() == bind.0@
            &&& renames(bind.1, l.spec_bind())
            &&& renames(*body, l.spec_expr())
        },
        _ => false,
    }
}


/// A name that no scope binds is bound nowhere.
proof fn lemma_lookup_none(env: Scopes, nm: Seq<char>)
    requires
        lookup(env, nm) is None,
    ensures
        !bound_in(names_of(env), nm),
    decreases env.len(),
{
    if env.len() > 0 {
        lemma_lookup_none(env.drop_last(), nm);
        assert forall|i: int| 0 <= i < env.len() - 1 implies names_of(env.drop_last())[i]
            == names_of(env)[i] by {}
        if bound_in(names_of(env), nm) {
            let i = choose|i: int| 0 <= i < env.len() && #[trigger] names_of(env)[i].contains(nm);
            if i < env.len() - 1 {
                assert(names_of(env.drop_last())[i].contains(nm));
            }
        }
    }
}

/// A name some scope binds is bound.
proof fn lemma_lookup_some(env: Scopes, nm: Seq<char>)
    requires
        lookup(env, nm) is Some,
    ensures
        bound_in(names_of(env), nm),
    decreases env.len(),
{
    if env.last().contains_key(nm) {
        assert(names_of(env)[env.len() - 1].contains(nm));
    } else {
        lemma_lookup_some(env.drop_last(), nm);
        let i = choose|i: int|
            0 <= i < env.len() - 1 && #[trigger] names_of(env.drop_last())[i].contains(nm);
        assert(names_of(env)[i].contains(nm));
    }
}

proof fn lemma_names_of_bind(env: Scopes, s: Symbol)
    requires
        env.len() > 0,
    ensures
        names_of(bind_sym(env, s)) == add_name(names_of(env), s.spec_name()),
{
    assert(names_of(bind_sym(env, s)) =~= add_name(names_of(env), s.spec_name()));
}

proof fn lemma_bind_syms_prefix(env: Scopes, ps: Seq<Symbol>)
    requires
        env.len() > 0,
    ensures
        bind_syms(env, ps).len() == env.len(),
        bind_syms(env, ps).drop_last() == env.drop_last(),
    decreases ps.len(),
{
    if ps.len() > 0 {
        lemma_bind_syms_prefix(env, ps.drop_last());
        let e = bind_syms(env, ps.drop_last());
        assert(bind_sym(e, ps.last()).drop_last() =~= e.drop_last());
    }
}

/// Renaming changes the innermost scope alone.
proof fn lemma_resolved_prefix(e: idtree::Expr, env: Scopes)
    requires
        env.len() > 0,
    ensures
        resolved(e, env).1.len() == env.len(),
        resolved(e, env).1.drop_last() == env.drop_last(),
    decreases e,
{
    match e {
        idtree::Expr::If(i) => {
            i.lemma_parts();
            let (a, e1) = resolved(i.spec_cond(), env);
            let (b, e2) = resolved(i.spec_texpr(), e1);
            lemma_resolved_prefix(i.spec_cond(), env);
            lemma_resolved_prefix(i.spec_texpr(), e1);
            lemma_resolved_prefix(i.spec_fexpr(), e2);
        },
        idtree::Expr::App(f, args) => {
            let (a, e1) = resolved(*f, env);
            lemma_resolved_prefix(*f, env);
            lemma_resolved_seq_prefix(args@, e1);
        },
        idtree::Expr::Let(l) => {
            l.lemma_parts();
            let (a, e1) = resolved(l.spec_bind(), env);
            lemma_resolved_prefix(l.spec_bind(), env);
            let e2 = bind_sym(e1, l.spec_id());
            assert(e2.drop_last() =~= e1.drop_last());
            lemma_resolved_prefix(l.spec_expr(), e2);
        },
        _ => {},
    }
}

proof fn lemma_resolved_seq_prefix(s: Seq<idtree::Expr>, env: Scopes)
    requires
        env.len() > 0,
    ensures
        resolved_seq(s, env).1.len() == env.len(),
        resolved_seq(s, env).1.drop_last() == env.drop_last(),
    decreases s,
{
    if s.len() > 0 {
        let (a, e1) = resolved(s[0], env);
        lemma_resolved_prefix(s[0], env);
        lemma_resolved_seq_prefix(s.subrange(1, s.len() as int), e1);
    }
}

/// Renaming one more expression after a sequence.
proof fn lemma_resolved_seq_push(s: Seq<idtree::Expr>, x: idtree::Expr, env: Scopes)
    ensures
        resolved_seq(s.push(x), env) == ({
            let (a, e1) = resolved_seq(s, env);
            let (b, e2) = resolved(x, e1);
            (a && b, e2)
        }),
    decreases s.len(),
{
    let sx = s.push(x);
    if s.len() == 0 {
        assert(sx[0] == x);
        assert(sx.subrange(1, 1) =~= Seq::<idtree::Expr>::empty());
        let (b, e2) = resolved(x, env);
        assert(resolved_seq(Seq::<idtree::Expr>::empty(), e2) == (true, e2));
        assert(resolved_seq(s, env) == (true, env));
    } else {
        let t = s.subrange(1, s.len() as int);
        assert(sx[0] == s[0]);
        assert(sx.subrange(1, s.len() as int + 1) =~= t.push(x));
        let (a, e1) = resolved(s[0], env);
        lemma_resolved_seq_push(t, x, e1);
    }
}

/// Each name in the scopes is bound to a symbol of that name.
pub open spec fn keyed_by_name(env: Scopes) -> bool {
    forall|i: int, k: Seq<char>|
        0 <= i < env.len() && #[trigger] env[i].contains_key(k) ==> env[i][k].spec_name() == k
}

proof fn lemma_lookup_keyed(env: Scopes, k: Seq<char>)
    requires
        keyed_by_name(env),
        lookup(env, k) is Some,
    ensures
        lookup(env, k)->0.spec_name() == k,
    decreases env.len(),
{
    if !env.last().contains_key(k) {
        assert(keyed_by_name(env.drop_last())) by {
            assert forall|i: int, k2: Seq<char>|
                0 <= i < env.len() - 1 && #[trigger] env.drop_last()[i].contains_key(
                    k2,
                ) implies env.drop_last()[i][k2].spec_name() == k2 by {
                assert(env.drop_last()[i] == env[i]);
            }
        }
        lemma_lookup_keyed(env.drop_last(), k);
    } else {
        assert(env[env.len() - 1].contains_key(k));
    }
}

/// A source type without record constructors, which the renamer does
/// not handle.
pub open spec fn no_records(t: SType<Seq<char>>) -> bool
    decreases t,
{
    match t {
        SType::App(f, args) => no_records(*f) && no_records_seq(args),
        SType::Con(c, _) => !(c is Record),
        SType::Var(_) => true,
    }
}

pub open spec fn no_records_seq(s: Seq<SType<Seq<char>>>) -> bool
    decreases s,
{
    if s.len() == 0 {
        true
    } else {
        no_records_seq(s.drop_last()) && no_records(s.last())
    }
}

proof fn lemma_no_records_seq(s: Seq<SType<Seq<char>>>)
    ensures
        no_records_seq(s) <==> forall|i: int| 0 <= i < s.len() ==> no_records(#[trigger] s[i]),
    decreases s.len(),
{
    if s.len() > 0 {
        lemma_no_records_seq(s.drop_last());
        assert forall|i: int| 0 <= i < s.len() - 1 implies s.drop_last()[i] == s[i] by {}
    }
}

/// `b` is the source type `a` with a fresh variable for each variable.
pub open spec fn ty_renames(a: SType<Seq<char>>, b: SType<TyVar>) -> bool
    decreases a,
{
    match (a, b) {
        (SType::App(f, args), SType::App(g, outs)) => {
            &&& ty_renames(*f, *g)
            &&& args.len() == outs.len()
            &&& forall|i: int| 0 <= i < args.len() ==> ty_renames(#[trigger] args[i], outs[i])
        },
        (SType::Con(c, k), SType::Con(d, l)) => c == d && k == l,
        (SType::Var(_), SType::Var(_)) => true,
        _ => false,
    }
}

/// How a declaration leaves the names, and whether its names are bound.
pub open spec fn check_decl(d: ast::Decl, env: NameScopes) -> (bool, NameScopes) {
    match d {
        ast::Decl::Extern(nm, ty) => (no_records(ty@) && !clashes(env, nm@), add_name(env, nm@)),
        ast::Decl::Func(bind) => {
            let (b, e1) = check(bind.1, add_name(env, bind.0@));
            (!clashes(env, bind.0@) && b, e1)
        },
    }
}

pub open spec fn check_decls(s: Seq<ast::Decl>, env: NameScopes) -> (bool, NameScopes)
    decreases s.len(),
{
    if s.len() == 0 {
        (true, env)
    } else {
        let (a, e1) = check_decl(s[0], env);
        let (b, e2) = check_decls(s.subrange(1, s.len() as int), e1);
        (a && b, e2)
    }
}

/// A declaration's symbol is bound before its body is renamed; a function
/// may so refer to itself.
pub open spec fn resolved_decl(d: idtree::Decl, env: Scopes) -> (bool, Scopes) {
    match d {
        idtree::Decl::Extern(sym) => (true, bind_sym(env, sym)),
        idtree::Decl::Let(binds) => {
            if binds@.len() == 1 {
                resolved(binds@[0].spec_expr(), bind_sym(env, binds@[0].spec_symbol()))
            } else {
                (false, env)
            }
        },
    }
}

pub open spec fn resolved_decls(s: Seq<idtree::Decl>, env: Scopes) -> (bool, Scopes)
    decreases s.len(),
{
    if s.len() == 0 {
        (true, env)
    } else {
        let (a, e1) = resolved_decl(s[0], env);
        let (b, e2) = resolved_decls(s.subrange(1, s.len() as int), e1);
        (a && b, e2)
    }
}

pub open spec fn renames_decl(src: ast::Decl, out: idtree::Decl) -> bool {
    match (src, out) {
        (ast::Decl::Extern(nm, ty), idtree::Decl::Extern(sym)) => sym.spec_name() == nm@
            && ty_renames(ty@, sym.spec_ty()@),
        (ast::Decl::Func(bind), idtree::Decl::Let(binds)) => {
            &&& binds@.len() == 1
            &&& binds@[0].spec_symbol().spec_name() == bind.0@
            &&& renames(bind.1, binds@[0].spec_expr())
        },
        _ => false,
    }
}

/// Declarations in order, one more at the end.
proof fn lemma_check_decls_step(s: Seq<ast::Decl>, i: int, env: NameScopes)
    requires
        0 <= i < s.len(),
    ensures
        check_decls(s.subrange(i, s.len() as int), env) == ({
            let (a, e1) = check_decl(s[i], env);
            let (b, e2) = check_decls(s.subrange(i + 1, s.len() as int), e1);
            (a && b, e2)
        }),
{
    let t = s.subrange(i, s.len() as int);
    assert(t[0] == s[i]);
    assert(t.subrange(1, t.len() as int) =~= s.subrange(i + 1, s.len() as int));
}

proof fn lemma_resolved_decls_push(s: Seq<idtree::Decl>, x: idtree::Decl, env: Scopes)
    ensures
        resolved_decls(s.push(x), env) == ({
            let (a, e1) = resolved_decls(s, env);
            let (b, e2) = resolved_decl(x, e1);
            (a && b, e2)
        }),
    decreases s.len(),
{
    let sx = s.push(x);
    if s.len() == 0 {
        assert(sx[0] == x);
        assert(sx.subrange(1, 1) =~= Seq::<idtree::Decl>::empty());
        let (b, e2) = resolved_decl(x, env);
        assert(resolved_decls(Seq::<idtree::Decl>::empty(), e2) == (true, e2));
        assert(resolved_decls(s, env) == (true, env));
    } else {
        let t = s.subrange(1, s.len() as int);
        assert(sx[0] == s[0]);
        assert(sx.subrange(1, s.len() as int + 1) =~= t.push(x));
        let (a, e1) = resolved_decl(s[0], env);
        lemma_resolved_decls_push(t, x, e1);
    }
}

/// The identifiers of the binders of `e` (parameters and `let`s), in the
/// order the renamer makes them.
pub open spec fn binders(e: idtree::Expr) -> Seq<u32>
    decreases e,
{
    match e {
        idtree::Expr::Lam(params, body) => Seq::new(params@.len(), |i: int| params@[i].spec_id())
            + binders(*body),
        idtree::Expr::If(i) => {
            proof {
                i.lemma_parts();
            }
            binders(i.spec_cond()) + binders(i.spec_texpr()) + binders(i.spec_fexpr())
        },
        idtree::Expr::App(f, args) => binders(*f) + binders_seq(args@),
        idtree::Expr::Let(l) => {
            proof {
                l.lemma_parts();
            }
            binders(l.spec_bind()) + seq![l.spec_id().spec_id()] + binders(l.spec_expr())
        },
        _ => Seq::empty(),
    }
}

pub open spec fn binders_seq(s: Seq<idtree::Expr>) -> Seq<u32>
    decreases s,
{
    if s.len() == 0 {
        Seq::empty()
    } else {
        binders(s[0]) + binders_seq(s.subrange(1, s.len() as int))
    }
}

/// `s` rises strictly, within `(lo, hi]`: its identifiers are new and
/// distinct.
pub open spec fn ascending(s: Seq<u32>, lo: int, hi: int) -> bool {
    &&& forall|i: int| 0 <= i < s.len() ==> lo < #[trigger] s[i] <= hi
    &&& forall|i: int, j: int| 0 <= i < j < s.len() ==> #[trigger] s[i] < #[trigger] s[j]
}

proof fn lemma_ascending_concat(a: Seq<u32>, b: Seq<u32>, lo: int, mid: int, hi: int)
    requires
        ascending(a, lo, mid),
        ascending(b, mid, hi),
        lo <= mid <= hi,
    ensures
        ascending(a + b, lo, hi),
{
    assert forall|i: int, j: int| 0 <= i < j < (a + b).len() implies #[trigger] (a + b)[i] < #[trigger] (
    a + b)[j] by {
        if j < a.len() {
        } else if i < a.len() {
            assert((a + b)[i] == a[i]);
            assert((a + b)[j] == b[j - a.len()]);
        } else {
            assert((a + b)[i] == b[i - a.len()]);
            assert((a + b)[j] == b[j - a.len()]);
        }
    }
    assert forall|i: int| 0 <= i < (a + b).len() implies lo < #[trigger] (a + b)[i] <= hi by {
        if i < a.len() {
            assert((a + b)[i] == a[i]);
        } else {
            assert((a + b)[i] == b[i - a.len()]);
        }
    }
}

proof fn lemma_binders_seq_push(s: Seq<idtree::Expr>, x: idtree::Expr)
    ensures
        binders_seq(s.push(x)) == binders_seq(s) + binders(x),
    decreases s.len(),
{
    let sx = s.push(x);
    if s.len() == 0 {
        assert(sx[0] == x);
        assert(sx.subrange(1, 1) =~= Seq::<idtree::Expr>::empty());
        assert(binders_seq(sx.subrange(1, 1)) == Seq::<u32>::empty());
        assert(binders_seq(sx) =~= binders(x) + Seq::<u32>::empty());
        assert(binders_seq(s) + binders(x) =~= binders(x));
    } else {
        let t = s.subrange(1, s.len() as int);
        assert(sx[0] == s[0]);
        assert(sx.subrange(1, s.len() as int + 1) =~= t.push(x));
        lemma_binders_seq_push(t, x);
        assert(binders_seq(sx) =~= binders_seq(s) + binders(x));
    }
}

/// The identifiers of the binders of a declaration: its symbol, then those
/// of its body.
pub open spec fn decl_binders(d: idtree::Decl) -> Seq<u32> {
    match d {
        idtree::Decl::Extern(sym) => seq![sym.spec_id()],
        idtree::Decl::Let(binds) => if binds@.len() == 1 {
            seq![binds@[0].spec_symbol().spec_id()] + binders(binds@[0].spec_expr())
        } else {
            Seq::empty()
        },
    }
}

pub open spec fn decls_binders(s: Seq<idtree::Decl>) -> Seq<u32>
    decreases s.len(),
{
    if s.len() == 0 {
        Seq::empty()
    } else {
        decls_binders(s.drop_last()) + decl_binders(s.last())
    }
}

pub open spec fn modules_binders(s: Seq<idtree::Module>) -> Seq<u32>
    decreases s.len(),
{
    if s.len() == 0 {
        Seq::empty()
    } else {
        modules_binders(s.drop_last()) + decls_binders(s.last().spec_decls())
    }
}

/// The number of identifiers renaming `e` takes: a symbol and a type
/// variable for each binder, and a type variable for each conditional.
pub open spec fn ids_needed(e: ast::Expr) -> nat
    decreases e,
{
    match e {
        ast::Expr::Lam(lam) => {
            proof {
                lam.lemma_parts();
            }
            2 * lam.spec_params().len() + ids_needed(lam.spec_body())
        },
        ast::Expr::If(i) => {
            proof {
                i.lemma_parts();
            }
            ids_needed(i.spec_cond()) + ids_needed(i.spec_texpr()) + ids_needed(i.spec_fexpr())
                + 1
        },
        ast::Expr::App(f, args) => ids_needed(*f) + ids_needed_seq(args@),
        ast::Expr::Let(bind, body) => 2 + ids_needed(bind.1) + ids_needed(*body),
        _ => 0,
    }
}

pub open spec fn ids_needed_seq(s: Seq<ast::Expr>) -> nat
    decreases s,
{
    if s.len() == 0 {
        0
    } else {
        ids_needed(s[0]) + ids_needed_seq(s.subrange(1, s.len() as int))
    }
}


/// The depth of nested lambdas in `e`.
pub open spec fn lam_depth(e: ast::Expr) -> nat
    decreases e,
{
    match e {
        ast::Expr::Lam(lam) => {
            proof {
                lam.lemma_parts();
            }
            1 + lam_depth(lam.spec_body())
        },
        ast::Expr::If(i) => {
            proof {
                i.lemma_parts();
            }
            max_nat(
                lam_depth(i.spec_cond()),
                max_nat(lam_depth(i.spec_texpr()), lam_depth(i.spec_fexpr())),
            )
        },
        ast::Expr::App(f, args) => max_nat(lam_depth(*f), lam_depth_seq(args@)),
        ast::Expr::Let(bind, body) => max_nat(lam_depth(bind.1), lam_depth(*body)),
        _ => 0,
    }
}

pub open spec fn lam_depth_seq(s: Seq<ast::Expr>) -> nat
    decreases s,
{
    if s.len() == 0 {
        0
    } else {
        max_nat(lam_depth(s[0]), lam_depth_seq(s.subrange(1, s.len() as int)))
    }
}

/// The number of type variables in a source type: the renamer gives each
/// a fresh one.
pub open spec fn ty_ids(t: SType<Seq<char>>) -> nat
    decreases t,
{
    match t {
        SType::App(f, args) => ty_ids(*f) + ty_ids_seq(args),
        SType::Con(_, _) => 0,
        SType::Var(_) => 1,
    }
}

pub open spec fn ty_ids_seq(s: Seq<SType<Seq<char>>>) -> nat
    decreases s,
{
    if s.len() == 0 {
        0
    } else {
        ty_ids(s[0]) + ty_ids_seq(s.subrange(1, s.len() as int))
    }
}

/// The number of identifiers renaming a declaration takes.
pub open spec fn decl_ids(d: ast::Decl) -> nat {
    match d {
        ast::Decl::Extern(_, ty) => ty_ids(ty@) + 1,
        ast::Decl::Func(bind) => 2 + ids_needed(bind.1),
    }
}

/// The depth of nested lambdas in a declaration.
pub open spec fn decl_depth(d: ast::Decl) -> nat {
    match d {
        ast::Decl::Extern(_, _) => 0,
        ast::Decl::Func(bind) => lam_depth(bind.1),
    }
}

pub open spec fn decls_ids(s: Seq<ast::Decl>) -> nat
    decreases s.len(),
{
    if s.len() == 0 {
        0
    } else {
        decl_ids(s[0]) + decls_ids(s.subrange(1, s.len() as int))
    }
}

pub open spec fn decls_depth(s: Seq<ast::Decl>) -> nat
    decreases s.len(),
{
    if s.len() == 0 {
        0
    } else {
        max_nat(decl_depth(s[0]), decls_depth(s.subrange(1, s.len() as int)))
    }
}

/// The number of identifiers renaming the modules takes.
pub open spec fn modules_ids(mods: Seq<ast::Module>) -> nat
    decreases mods.len(),
{
    if mods.len() == 0 {
        0
    } else {
        modules_ids(mods.drop_last()) + decls_ids(mods.last().spec_decls())
    }
}

/// The depth of nested lambdas in the modules.
pub open spec fn modules_depth(mods: Seq<ast::Module>) -> nat
    decreases mods.len(),
{
    if mods.len() == 0 {
        0
    } else {
        max_nat(modules_depth(mods.drop_last()), decls_depth(mods.last().spec_decls()))
    }
}

/// The number of declarations in the modules.
pub open spec fn modules_decl_count(mods: Seq<ast::Module>) -> nat
    decreases mods.len(),
{
    if mods.len() == 0 {
        0
    } else {
        modules_decl_count(mods.drop_last()) + mods.last().spec_decls().len()
    }
}

/// The depth of a sequence of expressions is that of one of them, or 0.
proof fn lemma_lam_depth_seq_attained(s: Seq<ast::Expr>)
    ensures
        lam_depth_seq(s) == 0 || exists|j: int|
            0 <= j < s.len() && lam_depth_seq(s) == lam_depth(#[trigger] s[j]),
    decreases s.len(),
{
    if s.len() > 0 {
        let t = s.subrange(1, s.len() as int);
        lemma_lam_depth_seq_attained(t);
        if lam_depth_seq(s) != lam_depth(s[0]) && lam_depth_seq(s) != 0 {
            let j = choose|j: int| 0 <= j < t.len() && lam_depth_seq(t) == lam_depth(#[trigger] t[j]);
            assert(t[j] == s[j + 1]);
        }
    }
}

/// The depth of a sequence of declarations is that of one of them, or 0.
proof fn lemma_decls_depth_attained(s: Seq<ast::Decl>)
    ensures
        decls_depth(s) == 0 || exists|j: int|
            0 <= j < s.len() && decls_depth(s) == decl_depth(#[trigger] s[j]),
    decreases s.len(),
{
    if s.len() > 0 {
        let t = s.subrange(1, s.len() as int);
        lemma_decls_depth_attained(t);
        if decls_depth(s) != decl_depth(s[0]) && decls_depth(s) != 0 {
            let j = choose|j: int| 0 <= j < t.len() && decls_depth(t) == decl_depth(#[trigger] t[j]);
            assert(t[j] == s[j + 1]);
        }
    }
}

struct TopLevelFunc(u32);

pub struct Rename {
    names: ScopedMap<String, Symbol>,
    /// One shared copy of each name.
    uniq_names: Vec<Rc<String>>,
    call_ref_graph: Graph<u32, Symbol>,
    top_level_funcs: HashMap<u32, TopLevelFunc>,
    /// The number of vertices of `call_ref_graph`.
    n_funcs: u32,
    /// The last identifier given out.
    count: u32,
}

impl Rename {
    pub closed spec fn wf(&self) -> bool {
        &&& self.names.wf()
        &&& keyed_by_name(self.names@)
        &&& self.n_funcs == self.call_ref_graph.num_vertices()
        &&& self.n_funcs < u32::MAX - 1
        &&& self.call_ref_graph.edges_in_range()
        &&& forall|id: u32| #[trigger]
            self.top_level_funcs@.contains_key(id) ==> self.top_level_funcs@[id].0
                < self.call_ref_graph.num_vertices()
    }

    /// The scopes of names.
    pub closed spec fn scopes(&self) -> Scopes {
        self.names@
    }

    /// The last identifier given out.
    pub closed spec fn last_id(&self) -> u32 {
        self.count
    }

    /// The number of top-level functions seen.
    pub closed spec fn num_funcs(&self) -> nat {
        self.n_funcs as nat
    }

    pub fn new() -> (r: Self)
        ensures
            r.wf(),
            r.scopes() == seq![Map::<Seq<char>, Symbol>::empty()],
            r.last_id() == 0,
            r.num_funcs() == 0,
    {
        Rename {
            names: ScopedMap::new(),
            uniq_names: Vec::new(),
            call_ref_graph: Graph::new(),
            top_level_funcs: HashMap::new(),
            n_funcs: 0,
            count: 0,
        }
    }

    /// The shared copy of the name `nm`.
    fn add_uniq_name(&mut self, nm: &str) -> (r: Rc<String>)
        ensures
            (*r)@ == nm@,
            final(self).names == old(self).names,
            final(self).call_ref_graph == old(self).call_ref_graph,
            final(self).top_level_funcs == old(self).top_level_funcs,
            final(self).count == old(self).count,
            final(self).n_funcs == old(self).n_funcs,
    {
        let mut i: usize = 0;
        while i < self.uniq_names.len()
            invariant
                i <= self.uniq_names@.len(),
            decreases self.uniq_names@.len() - i,
        {
            if ast::str_eq(self.uniq_names[i].as_str(), nm) {
                return self.uniq_names[i].clone();
            }
            i = i + 1;
        }
        let name = Rc::new(nm.to_owned());
        self.uniq_names.push(name.clone());
        name
    }

    fn ids_left(&self) -> (r: bool)
        ensures
            r == (self.count < u32::MAX),
    {
        self.count < u32::MAX
    }

    /// A fresh type variable at the current scope depth.
    fn new_tyvar(&mut self) -> (r: Type)
        requires
            old(self).wf(),
            old(self).count < u32::MAX,
        ensures
            final(self).wf(),
            final(self).names == old(self).names,
            final(self).call_ref_graph == old(self).call_ref_graph,
            final(self).n_funcs == old(self).n_funcs,
            final(self).count == old(self).count + 1,
            r@ matches SType::Var(v) && v.id == final(self).count,
    {
        let level = self.names.scope();
        types::Type::Var(TyVar::fresh(&mut self.count, level))
    }

    /// A new symbol for `nm`, of type `ty`, bound in the innermost scope.
    /// Declaring a name twice in the outermost scope is an error.
    fn add_sym(&mut self, nm: &String, ty: Type) -> (r: Result<Symbol>)
        requires
            old(self).wf(),
        ensures
            final(self).wf(),
            final(self).call_ref_graph == old(self).call_ref_graph,
            final(self).count >= old(self).count,
            match r {
                Ok(sym) => {
                    &&& sym.spec_name() == nm@
                    &&& sym.spec_ty() == ty
                    &&& sym.spec_id() == final(self).count
                    &&& final(self).count == old(self).count + 1
                    &&& final(self).names@ == bind_sym(old(self).names@, sym)
                    &&& !clashes(names_of(old(self).names@), nm@)
                },
                Err(e) => {
                    &&& clashes(names_of(old(self).names@), nm@) || old(self).count == u32::MAX
                    &&& e.spec_msg() == if old(self).count == u32::MAX {
                        "no identifiers left"@
                    } else {
                        "Name "@ + nm@ + " already declared"@
                    }
                },
            },
    {
        if !self.ids_left() {
            return Err(Error::new("no identifiers left".to_owned()));
        }
        let var_name = self.add_uniq_name(nm.as_str());
        let id = crate::fresh_id(&mut self.count);
        let sym = Symbol::new(var_name, ty, id);
        proof {
            self.names.lemma_nonempty();
        }
        let depth = self.names.scope();
        let prev = self.names.insert(nm.clone(), sym.clone());
        if prev.is_some() {
            //Allow duplicates at everywhere except the top level
            if depth == 0 {
                return Err(Error::new(already_declared_msg(nm)));
            }
        }
        Ok(sym)
    }
    /// Renames `expr`, which stands in the body of the top-level function
    /// `func`.
    fn conv(&mut self, expr: &ast::Expr, func: &Symbol) -> (r: Result<idtree::Expr>)
        requires
            old(self).wf(),
        ensures
            final(self).wf(),
            final(self).count >= old(self).count,
            final(self).call_ref_graph.num_vertices() == old(self).call_ref_graph.num_vertices(),
            match r {
                Ok(out) => {
                    &&& renames(*expr, out)
                    &&& check(*expr, names_of(old(self).names@)) == (
                        true,
                        names_of(final(self).names@),
                    )
                    &&& resolved(out, old(self).names@) == (true, final(self).names@)
                    &&& ascending(binders(out), old(self).count as int, final(self).count as int)
                    &&& final(self).count == old(self).count + ids_needed(*expr)
                },
                Err(_) => !check(*expr, names_of(old(self).names@)).0 || old(self).count
                    + ids_needed(*expr) > u32::MAX || old(self).names@.len() + lam_depth(*expr)
                    > u32::MAX,
            },
            r is Ok ==> {
                &&& final(self).names@.len() == old(self).names@.len()
                &&& lam_depth(*expr) == 0 || old(self).names@.len() + lam_depth(*expr) <= u32::MAX
            },
            expr matches ast::Expr::Var(nm) ==> (r matches Err(e) ==> e.spec_msg()
                == "Could not find variable "@ + nm@),
        decreases *expr,
    {
        proof {
            self.names.lemma_nonempty();
        }
        match expr {
            ast::Expr::UnitLit => Ok(idtree::Expr::UnitLit),
            ast::Expr::I32Lit(n) => Ok(idtree::Expr::I32Lit(*n)),
            ast::Expr::BoolLit(b) => Ok(idtree::Expr::BoolLit(*b)),
            ast::Expr::Lam(lam) => {
                if self.names.scope() >= u32::MAX - 1 {
                    return Err(Error::new("scopes nested too deeply".to_owned()));
                }
                let ghost env0 = self.names@;
                let ghost c0 = self.count;
                self.names.begin_scope();
                let lam_params = lam.params();
                let mut params: Vec<Symbol> = Vec::new();
                let mut i: usize = 0;
                proof {
                    assert(param_names(lam_params@.subrange(0, 0)) =~= Set::<Seq<char>>::empty());
                    assert(names_of(self.names@) =~= names_of(env0).push(
                        param_names(lam_params@.subrange(0, 0)),
                    ));
                }
                while i < lam_params.len()
                    invariant
                        self.wf(),
                        lam_params@ == lam.spec_params(),
                        i <= lam_params@.len(),
                        params@.len() == i,
                        forall|j: int|
                            0 <= j < i ==> (#[trigger] params@[j]).spec_name() == lam_params@[j]@,
                        self.names@ == bind_syms(env0.push(Map::empty()), params@),
                        names_of(self.names@) == names_of(env0).push(
                            param_names(lam_params@.subrange(0, i as int)),
                        ),
                        self.count >= old(self).count,
                        self.call_ref_graph.num_vertices() == old(
                            self,
                        ).call_ref_graph.num_vertices(),
                        env0 == old(self).names@,
                        env0.len() > 0,
                        c0 == old(self).count,
                        self.count == c0 + 2 * i,
                        self.names@.len() == env0.len() + 1,
                        ids_needed(*expr) == 2 * lam_params@.len() + ids_needed(lam.spec_body()),
                        ascending(
                            Seq::new(params@.len(), |j: int| params@[j].spec_id()),
                            c0 as int,
                            self.count as int,
                        ),
                    decreases lam_params@.len() - i,
                {
                    if !self.ids_left() {
                        return Err(Error::new("no identifiers left".to_owned()));
                    }
                    let tv = self.new_tyvar();
                    proof {
                        lemma_bind_syms_prefix(env0.push(Map::empty()), params@);
                    }
                    let sym = match self.add_sym(&lam_params[i], tv) {
                        Ok(sym) => sym,
                        Err(e) => {
                            return Err(e);
                        },
                    };
                    let ghost ps0 = params@;
                    params.push(sym);
                    proof {
                        assert(params@.drop_last() =~= ps0);
                        lemma_bind_syms_prefix(env0.push(Map::empty()), params@);
                        let ids0 = Seq::new(ps0.len(), |j: int| ps0[j].spec_id());
                        let ids1 = Seq::new(params@.len(), |j: int| params@[j].spec_id());
                        assert(ids1 =~= ids0 + seq![sym.spec_id()]);
                        lemma_ascending_concat(
                            ids0,
                            seq![sym.spec_id()],
                            c0 as int,
                            sym.spec_id() - 1,
                            self.count as int,
                        );
                        lemma_names_of_bind(bind_syms(env0.push(Map::empty()), ps0), sym);
                        let pre = lam_params@.subrange(0, i as int);
                        let post = lam_params@.subrange(0, i + 1);
                        assert forall|x: Seq<char>| param_names(post).contains(x) <==> param_names(
                            pre,
                        ).insert(lam_params@[i as int]@).contains(x) by {
                            if param_names(post).contains(x) {
                                let k = choose|k: int| 0 <= k < post.len() && post[k]@ == x;
                                if k < i {
                                    assert(pre[k] == post[k]);
                                }
                            }
                            if param_names(pre).contains(x) {
                                let k = choose|k: int| 0 <= k < pre.len() && pre[k]@ == x;
                                assert(post[k] == pre[k]);
                            }
                            if x == lam_params@[i as int]@ {
                                assert(post[i as int] == lam_params@[i as int]);
                            }
                        }
                        assert(param_names(post) =~= param_names(pre).insert(
                            lam_params@[i as int]@,
                        ));
                        let n0 = names_of(env0);
                        assert(add_name(
                            n0.push(param_names(lam_params@.subrange(0, i as int))),
                            sym.spec_name(),
                        ) =~= n0.push(param_names(lam_params@.subrange(0, i + 1))));
                    }
                    i = i + 1;
                }
                proof {
                    assert(lam_params@.subrange(0, i as int) =~= lam_params@);
                    lam.lemma_parts();
                }
                let ghost inner = self.names@;
                let ghost c1 = self.count;
                let body = match self.conv(lam.body(), func) {
                    Ok(b) => b,
                    Err(e) => {
                        proof {
                            assert(names_of(inner) == names_of(env0).push(
                                param_names(lam.spec_params()),
                            ));
                        }
                        return Err(e);
                    },
                };
                proof {
                    lemma_resolved_prefix(body, inner);
                    lemma_bind_syms_prefix(env0.push(Map::empty()), params@);
                    assert(env0.push(Map::empty()).drop_last() =~= env0);
                    lemma_ascending_concat(
                        Seq::new(params@.len(), |j: int| params@[j].spec_id()),
                        binders(body),
                        c0 as int,
                        c1 as int,
                        self.count as int,
                    );
                }
                self.names.end_scope();
                proof {
                    assert(lam_depth(*expr) == 1 + lam_depth(lam.spec_body()));
                    assert(env0.len() < u32::MAX);
                    assert(self.names@.len() == env0.len());
                }
                Ok(idtree::Expr::Lam(params, Box::new(body)))
            },
            ast::Expr::If(e) => {
                proof {
                    e.lemma_parts();
                }
                let ghost c0 = self.count;
                let c = match self.conv(e.cond(), func) {
                    Ok(x) => x,
                    Err(err) => {
                        return Err(err);
                    },
                };
                let ghost c1 = self.count;
                let t = match self.conv(e.texpr(), func) {
                    Ok(x) => x,
                    Err(err) => {
                        return Err(err);
                    },
                };
                let ghost c2 = self.count;
                let f = match self.conv(e.fexpr(), func) {
                    Ok(x) => x,
                    Err(err) => {
                        return Err(err);
                    },
                };
                if !self.ids_left() {
                    return Err(Error::new("no identifiers left".to_owned()));
                }
                let ghost c3 = self.count;
                let ty = self.new_tyvar();
                let if_expr = idtree::If::new(c, t, f, ty);
                proof {
                    if_expr.lemma_parts();
                    lemma_ascending_concat(binders(c), binders(t), c0 as int, c1 as int, c2 as int);
                    lemma_ascending_concat(
                        binders(c) + binders(t),
                        binders(f),
                        c0 as int,
                        c2 as int,
                        c3 as int,
                    );
                }
                Ok(idtree::Expr::If(Box::new(if_expr)))
            },
            ast::Expr::App(callee, args) => {
                let ghost env0 = self.names@;
                let ghost c0 = self.count;
                let f = match self.conv(callee, func) {
                    Ok(x) => x,
                    Err(err) => {
                        return Err(err);
                    },
                };
                let ghost env1 = self.names@;
                let ghost c1 = self.count;
                proof {
                    lemma_resolved_prefix(f, env0);
                }
                let n = args.len();
                let mut outs: Vec<idtree::Expr> = Vec::new();
                let mut i: usize = 0;
                proof {
                    assert(args@.subrange(0, n as int) =~= args@);
                    assert(outs@ =~= Seq::<idtree::Expr>::empty());
                    broadcast use vstd::std_specs::vec::axiom_vec_index_decreases;

                    assert forall|j: int| 0 <= j < args@.len() implies decreases_to!(
                        *expr => #[trigger] args@[j]) by {
                        assert(decreases_to!(*args => args@[j]));
                    }
                }
                while i < n
                    invariant
                        self.wf(),
                        n == args@.len(),
                        i <= n,
                        outs@.len() == i,
                        forall|j: int| 0 <= j < i ==> renames(#[trigger] args@[j], outs@[j]),
                        check_seq(args@, names_of(env1)) == check_seq(
                            args@.subrange(i as int, n as int),
                            names_of(self.names@),
                        ),
                        resolved_seq(outs@, env1) == (true, self.names@),
                        forall|j: int|
                            0 <= j < args@.len() ==> decreases_to!(*expr => #[trigger] args@[j]),
                        check(*expr, names_of(env0)) == ({
                            let (a, e1) = check(**callee, names_of(env0));
                            let (b, e2) = check_seq(args@, e1);
                            (a && b, e2)
                        }),
                        check(**callee, names_of(env0)) == (true, names_of(env1)),
                        resolved(f, env0) == (true, env1),
                        renames(**callee, f),
                        env0 == old(self).names@,
                        c0 == old(self).count,
                        c0 <= c1 <= self.count,
                        c1 == c0 + ids_needed(**callee),
                        c1 + ids_needed_seq(args@) == self.count + ids_needed_seq(
                            args@.subrange(i as int, n as int),
                        ),
                        lam_depth_seq(args@.subrange(i as int, n as int)) <= lam_depth_seq(args@),
                        lam_depth_seq(args@) <= lam_depth(*expr),
                        ids_needed(*expr) == ids_needed(**callee) + ids_needed_seq(args@),
                        self.names@.len() == env0.len(),
                        env1.len() == env0.len(),
                        env0.len() > 0,
                        forall|j: int|
                            0 <= j < i ==> lam_depth(#[trigger] args@[j]) == 0 || env0.len()
                                + lam_depth(args@[j]) <= u32::MAX,
                        ascending(binders(f), c0 as int, c1 as int),
                        ascending(binders_seq(outs@), c1 as int, self.count as int),
                        self.count >= old(self).count,
                        self.call_ref_graph.num_vertices() == old(
                            self,
                        ).call_ref_graph.num_vertices(),
                        !(*expr is Var),
                    decreases n - i,
                {
                    proof {
                        broadcast use vstd::std_specs::vec::axiom_vec_index_decreases;

                        let rest = args@.subrange(i as int, n as int);
                        assert(rest[0] == args@[i as int]);
                        assert(rest.subrange(1, rest.len() as int) =~= args@.subrange(
                            i + 1,
                            n as int,
                        ));
                        assert(ids_needed_seq(rest) == ids_needed(args@[i as int]) + ids_needed_seq(
                            args@.subrange(i + 1, n as int),
                        ));
                        assert(lam_depth_seq(rest) == max_nat(
                            lam_depth(args@[i as int]),
                            lam_depth_seq(args@.subrange(i + 1, n as int)),
                        ));
                    }
                    let ghost before = self.names@;
                    let ghost before_count = self.count;
                    let a = match self.conv(&args[i], func) {
                        Ok(x) => x,
                        Err(err) => {
                            return Err(err);
                        },
                    };
                    proof {
                        lemma_resolved_prefix(a, before);
                        lemma_resolved_seq_push(outs@, a, env1);
                        lemma_binders_seq_push(outs@, a);
                        lemma_ascending_concat(
                            binders_seq(outs@),
                            binders(a),
                            c1 as int,
                            before_count as int,
                            self.count as int,
                        );
                    }
                    outs.push(a);
                    i = i + 1;
                }
                proof {
                    assert(args@.subrange(n as int, n as int) =~= Seq::<ast::Expr>::empty());
                    lemma_lam_depth_seq_attained(args@);
                    lemma_ascending_concat(
                        binders(f),
                        binders_seq(outs@),
                        c0 as int,
                        c1 as int,
                        self.count as int,
                    );
                }
                Ok(idtree::Expr::App(Box::new(f), outs))
            },
            ast::Expr::Var(nm) => {
                match self.names.get(nm) {
                    Some(sym) => {
                        let sym = sym.clone();
                        proof {
                            lemma_lookup_some(self.names@, nm@);
                            lemma_lookup_keyed(self.names@, nm@);
                        }
                        self.add_call_edge(func, &sym);
                        Ok(idtree::Expr::Var(sym))
                    },
                    None => {
                        proof {
                            lemma_lookup_none(self.names@, nm@);
                        }
                        Err(Error::new(not_found_msg(nm)))
                    },
                }
            },
            ast::Expr::Let(bind, let_expr) => {
                if !self.ids_left() {
                    return Err(Error::new("no identifiers left".to_owned()));
                }
                let ty = self.new_tyvar();
                let ghost c1 = self.count;
                //Convert the bound expression before adding the bound symbol
                let bexpr = match self.conv(&bind.1, func) {
                    Ok(x) => x,
                    Err(err) => {
                        return Err(err);
                    },
                };
                proof {
                    self.names.lemma_nonempty();
                }
                let ghost env1 = self.names@;
                let ghost c2 = self.count;
                let sym = match self.add_sym(&bind.0, ty) {
                    Ok(s) => s,
                    Err(err) => {
                        return Err(err);
                    },
                };
                proof {
                    lemma_names_of_bind(env1, sym);
                }
                let ghost c3 = self.count;
                let body = match self.conv(let_expr, func) {
                    Ok(x) => x,
                    Err(err) => {
                        return Err(err);
                    },
                };
                let l = idtree::Let::new(sym, bexpr, body);
                proof {
                    l.lemma_parts();
                    lemma_ascending_concat(
                        binders(bexpr),
                        seq![sym.spec_id()],
                        c1 as int,
                        c2 as int,
                        c3 as int,
                    );
                    lemma_ascending_concat(
                        binders(bexpr) + seq![sym.spec_id()],
                        binders(body),
                        old(self).count as int,
                        c3 as int,
                        self.count as int,
                    );
                }
                Ok(idtree::Expr::Let(Box::new(l)))
            },
        }
    }

    /// Records that top-level function `func` refers to `sym`, where both
    /// are known top-level functions: the vertex of `sym` gets an edge to the
    /// vertex of `func`. Otherwise nothing changes.
    fn add_call_edge(&mut self, func: &Symbol, sym: &Symbol)
        requires
            old(self).wf(),
        ensures
            final(self).wf(),
            final(self).names == old(self).names,
            final(self).count == old(self).count,
            final(self).n_funcs == old(self).n_funcs,
            final(self).uniq_names == old(self).uniq_names,
            final(self).top_level_funcs == old(self).top_level_funcs,
            final(self).call_ref_graph.num_vertices() == old(self).call_ref_graph.num_vertices(),
            forall|i: int|
                0 <= i < old(self).call_ref_graph.num_vertices() ==> final(self).call_ref_graph.data(i)
                    == old(self).call_ref_graph.data(i),
            ({
                let tl = old(self).top_level_funcs@;
                if tl.contains_key(func.spec_id()) && tl.contains_key(sym.spec_id()) {
                    let v1 = tl[func.spec_id()].0;
                    let v2 = tl[sym.spec_id()].0;
                    &&& final(self).call_ref_graph.edges(v2 as int) == old(self).call_ref_graph.edges(
                        v2 as int,
                    ).push(v1)
                    &&& forall|i: int|
                        0 <= i < old(self).call_ref_graph.num_vertices() && i != v2
                            ==> final(self).call_ref_graph.edges(i) == old(self).call_ref_graph.edges(i)
                } else {
                    final(self).call_ref_graph == old(self).call_ref_graph
                }
            }),
    {
        let v1 = match self.top_level_funcs.get(&func.id()) {
            Some(v) => Some(v.0),
            None => None,
        };
        let v2 = match self.top_level_funcs.get(&sym.id()) {
            Some(v) => Some(v.0),
            None => None,
        };
        if let (Some(v1), Some(v2)) = (v1, v2) {
            self.call_ref_graph.add_edge(v2, v1);
        }
    }

    /// The type `ty` from source, with a fresh variable for each variable
    /// and each user type constructor's name shared.
    fn conv_ty(&mut self, ty: &ast::Type) -> (r: Result<Type>)
        requires
            old(self).wf(),
        ensures
            final(self).wf(),
            final(self).names == old(self).names,
            final(self).call_ref_graph == old(self).call_ref_graph,
            final(self).count >= old(self).count,
            match r {
                Ok(t) => ty_renames(ty@, t@) && no_records(ty@) && final(self).count == old(
                    self,
                ).count + ty_ids(ty@),
                Err(_) => !no_records(ty@) || old(self).count + ty_ids(ty@) > u32::MAX,
            },
        decreases *ty,
    {
        match ty {
            types::Type::Var(_) => {
                if !self.ids_left() {
                    return Err(Error::new("no identifiers left".to_owned()));
                }
                Ok(self.new_tyvar())
            },
            types::Type::Con(tycon, kind) => {
                let tycon = match tycon {
                    TyCon::I32 => TyCon::I32,
                    TyCon::Bool => TyCon::Bool,
                    TyCon::Unit => TyCon::Unit,
                    TyCon::Func => TyCon::Func,
                    TyCon::NewType(nm) => TyCon::NewType(self.add_uniq_name(nm.as_str())),
                    TyCon::Record(_) => {
                        return Err(Error::new("records are not supported".to_owned()));
                    },
                };
                Ok(types::Type::Con(tycon, kind.clone()))
            },
            types::Type::App(con, args) => {
                proof {
                    types::lemma_types_view(args@);
                    assert(decreases_to!(*ty => *args));
                    assert(ty@ == SType::App(Box::new(con@), types_view(args@)));
                    lemma_no_records_seq(types_view(args@));
                    assert forall|i: int| 0 <= i < args@.len() implies #[trigger] types_view(
                        args@,
                    )[i] == args@[i]@ by {}
                }
                let con2 = match self.conv_ty(con) {
                    Ok(c) => c,
                    Err(e) => {
                        return Err(e);
                    },
                };
                let args2 = match self.conv_tys(args) {
                    Ok(a) => a,
                    Err(e) => {
                        proof {
                            if exists|i: int|
                                0 <= i < args@.len() && !no_records(#[trigger] args@[i]@) {
                                let i = choose|i: int|
                                    0 <= i < args@.len() && !no_records(#[trigger] args@[i]@);
                                assert(!no_records(types_view(args@)[i]));
                            }
                        }
                        return Err(e);
                    },
                };
                proof {
                    types::lemma_types_view(args2@);
                }
                Ok(types::Type::App(Box::new(con2), args2))
            },
        }
    }

    fn conv_tys(&mut self, args: &Vec<ast::Type>) -> (r: Result<Vec<Type>>)
        requires
            old(self).wf(),
        ensures
            final(self).wf(),
            final(self).names == old(self).names,
            final(self).call_ref_graph == old(self).call_ref_graph,
            final(self).count >= old(self).count,
            match r {
                Ok(ts) => {
                    &&& ts@.len() == args@.len()
                    &&& forall|i: int|
                        0 <= i < args@.len() ==> ty_renames(#[trigger] args@[i]@, ts@[i]@)
                            && no_records(args@[i]@)
                    &&& final(self).count == old(self).count + ty_ids_seq(types_view(args@))
                },
                Err(_) => (exists|i: int| 0 <= i < args@.len() && !no_records(#[trigger] args@[i]@))
                    || old(self).count + ty_ids_seq(types_view(args@)) > u32::MAX,
            },
        decreases *args,
    {
        let mut out: Vec<Type> = Vec::new();
        let mut i: usize = 0;
        proof {
            types::lemma_types_view(args@);
            assert(types_view(args@).subrange(0, args@.len() as int) =~= types_view(args@));
        }
        while i < args.len()
            invariant
                self.wf(),
                self.names == old(self).names,
                self.call_ref_graph == old(self).call_ref_graph,
                self.count >= old(self).count,
                i <= args@.len(),
                out@.len() == i,
                forall|j: int|
                    0 <= j < i ==> ty_renames(#[trigger] args@[j]@, out@[j]@) && no_records(
                        args@[j]@,
                    ),
                old(self).count + ty_ids_seq(types_view(args@)) == self.count + ty_ids_seq(
                    types_view(args@).subrange(i as int, args@.len() as int),
                ),
            decreases args@.len() - i,
        {
            proof {
                broadcast use vstd::std_specs::vec::axiom_vec_index_decreases;
                types::lemma_types_view(args@);

                assert(decreases_to!(*args => args[i as int]));
                let tv = types_view(args@);
                let rest = tv.subrange(i as int, args@.len() as int);
                assert(rest[0] == args@[i as int]@);
                assert(rest.subrange(1, rest.len() as int) =~= tv.subrange(
                    i + 1,
                    args@.len() as int,
                ));
            }
            match self.conv_ty(&args[i]) {
                Ok(t) => out.push(t),
                Err(e) => {
                    return Err(e);
                },
            }
            i = i + 1;
        }
        proof {
            assert(types_view(args@).subrange(args@.len() as int, args@.len() as int)
                =~= Seq::<SType<Seq<char>>>::empty());
        }
        Ok(out)
    }

    /// Makes `sym` a vertex of the call graph.
    fn add_top_level(&mut self, sym: &Symbol) -> (r: Result<TopLevelFunc>)
        requires
            old(self).wf(),
        ensures
            final(self).wf(),
            final(self).names == old(self).names,
            final(self).count == old(self).count,
            match r {
                Ok(_) => final(self).n_funcs == old(self).n_funcs + 1,
                Err(_) => old(self).n_funcs >= u32::MAX - 2,
            },
    {
        if self.n_funcs >= u32::MAX - 2 {
            return Err(Error::new("too many functions".to_owned()));
        }
        let vertex_key = add_vertex_counted(&mut self.call_ref_graph, &mut self.n_funcs, sym.clone());
        Ok(TopLevelFunc(vertex_key))
    }

    /// Renames a top-level declaration.
    fn conv_decl(&mut self, decl: &ast::Decl) -> (r: Result<idtree::Decl>)
        requires
            old(self).wf(),
        ensures
            final(self).wf(),
            final(self).count >= old(self).count,
            match r {
                Ok(out) => {
                    &&& renames_decl(*decl, out)
                    &&& check_decl(*decl, names_of(old(self).names@)) == (
                        true,
                        names_of(final(self).names@),
                    )
                    &&& resolved_decl(out, old(self).names@) == (true, final(self).names@)
                    &&& ascending(decl_binders(out), old(self).count as int, final(self).count as int)
                    &&& final(self).count == old(self).count + decl_ids(*decl)
                    &&& final(self).n_funcs == old(self).n_funcs + 1
                    &&& final(self).names@.len() == old(self).names@.len()
                    &&& decl_depth(*decl) == 0 || old(self).names@.len() + decl_depth(*decl)
                        <= u32::MAX
                },
                Err(_) => !check_decl(*decl, names_of(old(self).names@)).0 || old(self).count
                    + decl_ids(*decl) > u32::MAX || old(self).names@.len() + decl_depth(*decl)
                    > u32::MAX || old(self).n_funcs >= u32::MAX - 2,
            },
    {
        proof {
            self.names.lemma_nonempty();
        }
        let ghost env0 = self.names@;
        match decl {
            ast::Decl::Extern(name, ty) => {
                let ty = match self.conv_ty(ty) {
                    Ok(t) => t,
                    Err(e) => {
                        return Err(e);
                    },
                };
                let ghost c1 = self.count;
                let funcid = match self.add_sym(name, ty) {
                    Ok(s) => s,
                    Err(e) => {
                        return Err(e);
                    },
                };
                proof {
                    lemma_names_of_bind(env0, funcid);
                }
                match self.add_top_level(&funcid) {
                    Ok(_) => {},
                    Err(e) => {
                        return Err(e);
                    },
                }
                Ok(idtree::Decl::Extern(funcid))
            },
            ast::Decl::Func(bind) => {
                if !self.ids_left() {
                    return Err(Error::new("no identifiers left".to_owned()));
                }
                let ty = self.new_tyvar();
                let sym = match self.add_sym(&bind.0, ty) {
                    Ok(s) => s,
                    Err(e) => {
                        return Err(e);
                    },
                };
                let ghost c1 = self.count;
                proof {
                    lemma_names_of_bind(env0, sym);
                }
                match self.add_top_level(&sym) {
                    Ok(_) => {},
                    Err(e) => {
                        return Err(e);
                    },
                }
                let expr = match self.conv(&bind.1, &sym) {
                    Ok(e) => e,
                    Err(e) => {
                        return Err(e);
                    },
                };
                let b = idtree::Bind::new(sym, expr);
                let binds = vec![b];
                proof {
                    lemma_ascending_concat(
                        seq![sym.spec_id()],
                        binders(expr),
                        old(self).count as int,
                        c1 as int,
                        self.count as int,
                    );
                }
                Ok(idtree::Decl::Let(binds))
            },
        }
    }

    /// Renames the declarations of a module, in order.
    fn conv_module(&mut self, module: &ast::Module) -> (r: Result<idtree::Module>)
        requires
            old(self).wf(),
        ensures
            final(self).wf(),
            final(self).count >= old(self).count,
            match r {
                Ok(out) => {
                    &&& out.spec_name() == module.spec_name()
                    &&& out.spec_decls().len() == module.spec_decls().len()
                    &&& forall|i: int|
                        0 <= i < out.spec_decls().len() ==> renames_decl(
                            #[trigger] module.spec_decls()[i],
                            out.spec_decls()[i],
                        )
                    &&& check_decls(module.spec_decls(), names_of(old(self).names@)) == (
                        true,
                        names_of(final(self).names@),
                    )
                    &&& resolved_decls(out.spec_decls(), old(self).names@) == (
                        true,
                        final(self).names@,
                    )
                    &&& ascending(
                        decls_binders(out.spec_decls()),
                        old(self).count as int,
                        final(self).count as int,
                    )
                    &&& final(self).count == old(self).count + decls_ids(module.spec_decls())
                    &&& final(self).n_funcs == old(self).n_funcs + module.spec_decls().len()
                    &&& final(self).names@.len() == old(self).names@.len()
                    &&& decls_depth(module.spec_decls()) == 0 || old(self).names@.len()
                        + decls_depth(module.spec_decls()) <= u32::MAX
                },
                Err(_) => !check_decls(module.spec_decls(), names_of(old(self).names@)).0
                    || old(self).count + decls_ids(module.spec_decls()) > u32::MAX
                    || old(self).names@.len() + decls_depth(module.spec_decls()) > u32::MAX
                    || old(self).n_funcs + module.spec_decls().len() > u32::MAX - 2,
            },
    {
        let src = module.decls();
        let n = src.len();
        let mut decls: Vec<idtree::Decl> = Vec::new();
        let ghost env0 = self.names@;
        let mut i: usize = 0;
        proof {
            assert(src@.subrange(0, n as int) =~= src@);
            assert(decls@ =~= Seq::<idtree::Decl>::empty());
        }
        while i < n
            invariant
                self.wf(),
                self.count >= old(self).count,
                env0 == old(self).names@,
                src@ == module.spec_decls(),
                n == src@.len(),
                i <= n,
                decls@.len() == i,
                forall|j: int| 0 <= j < i ==> renames_decl(#[trigger] src@[j], decls@[j]),
                check_decls(src@, names_of(env0)) == check_decls(
                    src@.subrange(i as int, n as int),
                    names_of(self.names@),
                ),
                resolved_decls(decls@, env0) == (true, self.names@),
                ascending(decls_binders(decls@), old(self).count as int, self.count as int),
                old(self).count + decls_ids(src@) == self.count + decls_ids(
                    src@.subrange(i as int, n as int),
                ),
                decls_depth(src@.subrange(i as int, n as int)) <= decls_depth(src@),
                self.n_funcs == old(self).n_funcs + i,
                self.names@.len() == env0.len(),
                forall|j: int|
                    0 <= j < i ==> decl_depth(#[trigger] src@[j]) == 0 || env0.len() + decl_depth(
                        src@[j],
                    ) <= u32::MAX,
            decreases n - i,
        {
            proof {
                lemma_check_decls_step(src@, i as int, names_of(self.names@));
                let rest = src@.subrange(i as int, n as int);
                assert(rest[0] == src@[i as int]);
                assert(rest.subrange(1, rest.len() as int) =~= src@.subrange(i + 1, n as int));
                assert(decls_ids(rest) == decl_ids(src@[i as int]) + decls_ids(
                    src@.subrange(i + 1, n as int),
                ));
                assert(decls_depth(rest) == max_nat(
                    decl_depth(src@[i as int]),
                    decls_depth(src@.subrange(i + 1, n as int)),
                ));
            }
            let ghost cd = self.count;
            let d = match self.conv_decl(&src[i]) {
                Ok(d) => d,
                Err(e) => {
                    return Err(e);
                },
            };
            proof {
                lemma_resolved_decls_push(decls@, d, env0);
                assert(decls@.push(d).drop_last() =~= decls@);
                lemma_ascending_concat(
                    decls_binders(decls@),
                    decl_binders(d),
                    old(self).count as int,
                    cd as int,
                    self.count as int,
                );
            }
            decls.push(d);
            i = i + 1;
        }
        proof {
            assert(src@.subrange(n as int, n as int) =~= Seq::<ast::Decl>::empty());
            lemma_decls_depth_attained(src@);
        }
        Ok(idtree::Module::new(module.name().clone(), decls))
    }

    /// Renames the modules, in order, in one set of scopes.
    fn rename_modules(&mut self, mod_vec: &Vec<ast::Module>) -> (r: Result<Vec<idtree::Module>>)
        requires
            old(self).wf(),
        ensures
            final(self).wf(),
            match r {
                Ok(out) => {
                    &&& out@.len() == mod_vec@.len()
                    &&& forall|i: int|
                        0 <= i < mod_vec@.len() ==> renames_module(
                            #[trigger] mod_vec@[i],
                            out@[i],
                        )
                    &&& check_modules(mod_vec@, names_of(old(self).scopes())) == (
                        true,
                        names_of(final(self).scopes()),
                    )
                    &&& resolved_modules(out@, old(self).scopes()) == (true, final(self).scopes())
                    &&& ascending(
                        modules_binders(out@),
                        old(self).last_id() as int,
                        final(self).last_id() as int,
                    )
                    &&& final(self).count == old(self).count + modules_ids(mod_vec@)
                    &&& final(self).n_funcs == old(self).n_funcs + modules_decl_count(mod_vec@)
                    &&& final(self).names@.len() == old(self).names@.len()
                    &&& modules_depth(mod_vec@) == 0 || old(self).names@.len() + modules_depth(
                        mod_vec@,
                    ) <= u32::MAX
                },
                Err(_) => !check_modules(mod_vec@, names_of(old(self).scopes())).0
                    || old(self).count + modules_ids(mod_vec@) > u32::MAX
                    || old(self).names@.len() + modules_depth(mod_vec@) > u32::MAX
                    || old(self).n_funcs + modules_decl_count(mod_vec@) > u32::MAX - 2,
            },
    {
        let ghost env0 = self.names@;
        let mut res: Vec<idtree::Module> = Vec::new();
        let mut i: usize = 0;
        while i < mod_vec.len()
            invariant
                self.wf(),
                env0 == old(self).names@,
                i <= mod_vec@.len(),
                res@.len() == i,
                forall|j: int| 0 <= j < i ==> renames_module(#[trigger] mod_vec@[j], res@[j]),
                check_modules(mod_vec@.subrange(0, i as int), names_of(env0)) == (
                    true,
                    names_of(self.names@),
                ),
                resolved_modules(res@, env0) == (true, self.names@),
                ascending(modules_binders(res@), old(self).count as int, self.count as int),
                old(self).count <= self.count,
                self.count == old(self).count + modules_ids(mod_vec@.subrange(0, i as int)),
                self.n_funcs == old(self).n_funcs + modules_decl_count(
                    mod_vec@.subrange(0, i as int),
                ),
                self.names@.len() == env0.len(),
                modules_depth(mod_vec@.subrange(0, i as int)) == 0 || env0.len() + modules_depth(
                    mod_vec@.subrange(0, i as int),
                ) <= u32::MAX,
            decreases mod_vec@.len() - i,
        {
            let ghost pre = mod_vec@.subrange(0, i as int);
            let ghost cm = self.count;
            proof {
                let pre1 = mod_vec@.subrange(0, i + 1);
                assert(pre1.drop_last() =~= pre);
                assert(pre1.last() == mod_vec@[i as int]);
            }
            let m = match self.conv_module(&mod_vec[i]) {
                Ok(m) => m,
                Err(e) => {
                    proof {
                        lemma_modules_prefix_measures(mod_vec@, i + 1);
                        if check_modules(mod_vec@.subrange(0, i + 1), names_of(env0)).0 == false {
                            lemma_check_modules_prefix(mod_vec@, i + 1, names_of(env0));
                        }
                    }
                    return Err(e);
                },
            };
            let ghost res0 = res@;
            res.push(m);
            proof {
                assert(mod_vec@.subrange(0, i + 1).drop_last() =~= pre);
                assert(res@.drop_last() =~= res0);
                lemma_ascending_concat(
                    modules_binders(res0),
                    decls_binders(m.spec_decls()),
                    old(self).count as int,
                    cm as int,
                    self.count as int,
                );
            }
            i = i + 1;
        }
        proof {
            assert(mod_vec@.subrange(0, i as int) =~= mod_vec@);
        }
        Ok(res)
    }

}

/// Adds a vertex for `sym` to `graph`, whose vertices `n` counts.
fn add_vertex_counted(graph: &mut Graph<u32, Symbol>, n: &mut u32, sym: Symbol) -> (k: u32)
    requires
        *old(n) == old(graph).num_vertices(),
        *old(n) < u32::MAX - 2,
        old(graph).edges_in_range(),
    ensures
        *final(n) == *old(n) + 1,
        *final(n) == final(graph).num_vertices(),
        k == *old(n),
        final(graph).edges_in_range(),
{
    let k: u32 = graph.add_vertex(sym);
    *n = *n + 1;
    k
}

/// Whether the names of `mods`, renamed in order from `env`, are all
/// bound; and the names afterwards.
pub open spec fn check_modules(mods: Seq<ast::Module>, env: NameScopes) -> (bool, NameScopes)
    decreases mods.len(),
{
    if mods.len() == 0 {
        (true, env)
    } else {
        let (a, e1) = check_modules(mods.drop_last(), env);
        let (b, e2) = check_decls(mods.last().spec_decls(), e1);
        (a && b, e2)
    }
}

/// `out` is `src` renamed: the same name, and each declaration renamed.
pub open spec fn renames_module(src: ast::Module, out: idtree::Module) -> bool {
    &&& out.spec_name() == src.spec_name()
    &&& out.spec_decls().len() == src.spec_decls().len()
    &&& forall|j: int|
        0 <= j < src.spec_decls().len() ==> renames_decl(
            #[trigger] src.spec_decls()[j],
            out.spec_decls()[j],
        )
}

/// Whether every variable of the modules `outs` is the symbol its name is
/// bound to where it stands; and the scopes afterwards.
pub open spec fn resolved_modules(outs: Seq<idtree::Module>, env: Scopes) -> (bool, Scopes)
    decreases outs.len(),
{
    if outs.len() == 0 {
        (true, env)
    } else {
        let (a, e1) = resolved_modules(outs.drop_last(), env);
        let (b, e2) = resolved_decls(outs.last().spec_decls(), e1);
        (a && b, e2)
    }
}

/// A prefix of the modules needs no more identifiers, depth or
/// declarations than all of them.
proof fn lemma_modules_prefix_measures(mods: Seq<ast::Module>, k: int)
    requires
        0 <= k <= mods.len(),
    ensures
        modules_ids(mods.subrange(0, k)) <= modules_ids(mods),
        modules_depth(mods.subrange(0, k)) <= modules_depth(mods),
        modules_decl_count(mods.subrange(0, k)) <= modules_decl_count(mods),
    decreases mods.len() - k,
{
    if k < mods.len() {
        assert(mods.subrange(0, k + 1).drop_last() =~= mods.subrange(0, k));
        lemma_modules_prefix_measures(mods, k + 1);
    } else {
        assert(mods.subrange(0, k) =~= mods);
    }
}

/// A failing prefix of modules makes the whole list fail.
proof fn lemma_check_modules_prefix(mods: Seq<ast::Module>, k: int, env: NameScopes)
    requires
        0 <= k <= mods.len(),
        !check_modules(mods.subrange(0, k), env).0,
    ensures
        !check_modules(mods, env).0,
    decreases mods.len() - k,
{
    if k < mods.len() {
        assert(mods.subrange(0, k + 1).drop_last() =~= mods.subrange(0, k));
        lemma_check_modules_prefix(mods, k + 1, env);
    } else {
        assert(mods.subrange(0, k) =~= mods);
    }
}

impl Pass for Rename {
    type Input = Vec<ast::Module>;
    type Output = Vec<idtree::Module>;

    /// Renames the parsed files, in order, from the outermost scope alone;
    /// then orders the top-level functions by their call graph. A renamer
    /// is only ever made by `new` and changed by `run`, which consumes it,
    /// so the renamer that `run` starts from is a new one.
    fn run(self, mod_vec: Vec<ast::Module>) -> (r: Result<Vec<idtree::Module>>)
        ensures
            match r {
                Ok(out) => {
                    &&& out@.len() == mod_vec@.len()
                    &&& forall|i: int|
                        0 <= i < mod_vec@.len() ==> renames_module(
                            #[trigger] mod_vec@[i],
                            out@[i],
                        )
                    &&& check_modules(mod_vec@, seq![Set::<Seq<char>>::empty()]).0
                    &&& resolved_modules(out@, seq![Map::<Seq<char>, Symbol>::empty()]).0
                    &&& ascending(modules_binders(out@), 0, u32::MAX as int)
                    &&& modules_ids(mod_vec@) <= u32::MAX
                    &&& 1 + modules_depth(mod_vec@) <= u32::MAX
                    &&& modules_decl_count(mod_vec@) <= u32::MAX - 2
                },
                // A name bound nowhere or declared twice at the top level, a
                // record type, or more identifiers, lambda nesting or
                // declarations than the renamer can number.
                Err(_) => !check_modules(mod_vec@, seq![Set::<Seq<char>>::empty()]).0
                    || modules_ids(mod_vec@) > u32::MAX || 1 + modules_depth(mod_vec@) > u32::MAX
                    || modules_decl_count(mod_vec@) > u32::MAX - 2,
            },
    {
        let _ = self;
        let mut this = Rename::new();
        proof {
            assert(names_of(this.names@) =~= seq![Set::<Seq<char>>::empty()]);
        }
        let result = this.rename_modules(&mod_vec);
        let _sorted = SCC::run(&this.call_ref_graph);
        result
    }
}

/// The message for a name declared twice at the top level.
fn already_declared_msg(nm: &String) -> (msg: String)
    ensures
        msg@ == "Name "@ + nm@ + " already declared"@,
{
    let mut s = String::new();
    push_str(&mut s, "Name ");
    push_str(&mut s, nm.as_str());
    push_str(&mut s, " already declared");
    assert(s@ =~= "Name "@ + nm@ + " already declared"@);
    s
}

/// The message for a name bound nowhere.
fn not_found_msg(nm: &String) -> (msg: String)
    ensures
        msg@ == "Could not find variable "@ + nm@,
{
    let mut s = String::new();
    push_str(&mut s, "Could not find variable ");
    push_str(&mut s, nm.as_str());
    assert(s@ =~= "Could not find variable "@ + nm@);
    s
}

} // verus!
