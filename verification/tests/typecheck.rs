use babel::typecheck::subst::subst;
use babel::xir::{Expr as XExpr, Symbol as XSymbol};
use babel::idtree::Symbol;
use babel::typecheck::env::Env;
use babel::typecheck::unify::UnificationTable;
use babel::types::{ForAll, InnerTyVar, Kind, TyCon, TyVar, Type};
use std::rc::Rc;

fn tv(id: u32) -> TyVar {
    TyVar { id, inner: InnerTyVar { level: 0 } }
}

fn var(id: u32) -> Type<TyVar> {
    Type::Var(tv(id))
}

fn i32t() -> Type<TyVar> {
    Type::Con(TyCon::I32, Kind::Star)
}

fn boolt() -> Type<TyVar> {
    Type::Con(TyCon::Bool, Kind::Star)
}

fn table(n: u32) -> UnificationTable {
    let mut t = UnificationTable::new();
    for id in 1..=n {
        t.add(tv(id));
    }
    t
}

#[test]
fn fresh_variables_resolve_to_themselves() {
    let mut t = table(2);
    assert_eq!(t.apply_subst(&var(1)), var(1));
    assert_eq!(t.apply_subst(&i32t()), i32t());
}

#[test]
fn binding_a_variable() {
    let mut t = table(1);
    assert!(t.unify(&var(1), &i32t()).is_ok());
    assert_eq!(t.apply_subst(&var(1)), i32t());
    let f = Type::func(vec![var(1)], var(1));
    assert_eq!(t.apply_subst(&f), Type::func(vec![i32t()], i32t()));
}

#[test]
fn binding_in_either_order() {
    let mut t = table(1);
    assert!(t.unify(&boolt(), &var(1)).is_ok());
    assert_eq!(t.apply_subst(&var(1)), boolt());
}

#[test]
fn merged_variables_resolve_alike() {
    let mut t = table(2);
    assert!(t.unify(&var(1), &var(2)).is_ok());
    assert!(t.unify(&var(2), &i32t()).is_ok());
    assert_eq!(t.apply_subst(&var(1)), i32t());
    assert_eq!(t.apply_subst(&var(2)), i32t());
}

#[test]
fn constructors_must_agree() {
    let mut t = table(0);
    assert!(t.unify(&i32t(), &i32t()).is_ok());
    assert!(t.unify(&i32t(), &boolt()).is_err());
    assert!(t.unify(&Type::Con(TyCon::I32, Kind::Fun(Rc::new((Kind::Star, Kind::Star)))), &i32t()).is_err());
}

#[test]
fn arities_must_agree() {
    let mut t = table(1);
    let f1 = Type::func(vec![i32t()], i32t());
    let f2 = Type::func(vec![i32t(), i32t()], i32t());
    assert!(t.unify(&f1, &f2).is_err());
    assert!(t.unify(&f1, &i32t()).is_err());
    assert!(t.unify(&i32t(), &f1).is_err());
}

#[test]
fn unifies_functions_argument_by_argument() {
    let mut t = table(2);
    let f1 = Type::func(vec![var(1)], boolt());
    let f2 = Type::func(vec![i32t()], var(2));
    assert!(t.unify(&f1, &f2).is_ok());
    assert_eq!(t.apply_subst(&var(1)), i32t());
    assert_eq!(t.apply_subst(&var(2)), boolt());
}

#[test]
fn types_of_another_shape_do_not_unify() {
    let mut t = table(1);
    let f1 = Type::func(vec![var(1), i32t()], boolt());
    let f2 = Type::func(vec![boolt(), boolt()], boolt());
    assert!(t.unify(&f1, &f2).is_err());
    let mut t = table(1);
    let g1 = Type::func(vec![i32t()], var(1));
    let g2 = Type::func(vec![i32t()], Type::func(vec![boolt()], boolt()));
    assert!(t.unify(&g1, &g2).is_ok());
}

#[test]
fn occurs_check_fails() {
    let mut t = table(1);
    let f = Type::func(vec![var(1)], i32t());
    assert!(t.unify(&var(1), &f).is_err());
}

fn symbol(name: &str, id: u32) -> Symbol {
    Symbol::new(Rc::new(name.to_string()), i32t(), id)
}

#[test]
fn environment_scopes() {
    let mut env = Env::new();
    let x = symbol("x", 10);
    assert!(env.lookup(&x).is_err());
    env.extend(&x, ForAll::new(vec![], i32t()));
    assert_eq!(env.lookup(&x).unwrap().ty(), &i32t());
    env.begin_scope();
    env.extend(&x, ForAll::new(vec![], boolt()));
    assert_eq!(env.lookup(&x).unwrap().ty(), &boolt());
    env.end_scope();
    assert_eq!(env.lookup(&x).unwrap().ty(), &i32t());
}

#[test]
fn environment_fresh_variables_and_unification() {
    let mut env = Env::new();
    let a = env.fresh_tyvar(3);
    let b = env.fresh_tyvar(4);
    assert_eq!(a.id, 1);
    assert_eq!(b.id, 2);
    assert_eq!(b.inner.level, 4);
    assert!(env.unify(&Type::Var(a), &Type::Var(b)).is_ok());
    assert!(env.unify(&Type::Var(b), &boolt()).is_ok());
    assert_eq!(env.apply(&Type::Var(a)), boolt());
}

#[test]
fn instantiate_replaces_bound_variables() {
    let mut env = Env::new();
    let scheme = ForAll::new(vec![tv(100)], Type::func(vec![var(100)], var(100)));
    let (tvs, ty) = env.instantiate(&scheme, 1);
    assert_eq!(tvs.len(), 1);
    assert_eq!(tvs[0].id, 1);
    assert_eq!(ty, Type::func(vec![Type::Var(tvs[0])], Type::Var(tvs[0])));
}

#[test]
fn generalize_binds_variables_up_to_the_level() {
    let mut t = UnificationTable::new();
    let shallow = TyVar { id: 1, inner: InnerTyVar { level: 0 } };
    let deep = TyVar { id: 2, inner: InnerTyVar { level: 5 } };
    t.add(shallow);
    t.add(deep);
    let ty = Type::func(vec![Type::Var(shallow), Type::Var(deep)], Type::Var(shallow));
    let scheme = ty.generalize(1, &t);
    assert_eq!(scheme.bound_vars(), &vec![shallow]);
    assert_eq!(scheme.ty(), &ty);
    let scheme = ty.generalize(5, &t);
    assert_eq!(scheme.bound_vars(), &vec![shallow, deep]);
    let scheme = i32t().generalize(5, &t);
    assert!(scheme.bound_vars().is_empty());
}

#[test]
fn a_bound_variable_keeps_its_type() {
    let mut t = table(1);
    assert!(t.unify(&var(1), &i32t()).is_ok());
    let e = t.unify(&var(1), &boolt()).unwrap_err();
    assert_eq!(e.message(), "Can not unify i32:* with bool:*");
}

#[test]
fn refusals_write_both_types() {
    let mut t = table(1);
    let e = t.unify(&i32t(), &boolt()).unwrap_err();
    assert_eq!(e.message(), "Can not unify i32:* with bool:*");
    let f = Type::func(vec![var(1)], i32t());
    let e = t.unify(&var(1), &f).unwrap_err();
    assert_eq!(e.message(), "Can not unify 'a1 with App(->:* => * => *, ['a1, i32:*])");
    let g = Type::func(vec![i32t(), i32t()], i32t());
    let h = Type::func(vec![i32t()], i32t());
    let e = t.unify(&h, &g).unwrap_err();
    assert_eq!(
        e.message(),
        "Can not unify App(->:* => * => *, [i32:*, i32:*]) with App(->:* => * => * => *, [i32:*, i32:*, i32:*])"
    );
}

#[test]
fn lookup_names_the_missing_symbol() {
    let env = Env::new();
    let e = env.lookup(&symbol("x", 3)).unwrap_err();
    assert_eq!(e.message(), "Could not find x_3: i32:*");
}

#[test]
fn subst_applies_the_table_to_every_type() {
    let mut t = table(2);
    assert!(t.unify(&var(1), &i32t()).is_ok());
    let f = XSymbol::new(Rc::new("f".to_string()), Type::func(vec![var(1)], var(2)), 7);
    let e = XExpr::App(
        Box::new(XExpr::Var(f)),
        vec![XExpr::TyApp(Box::new(XExpr::I32Lit(3)), vec![var(1), var(2)])],
    );
    match subst(&mut t, &e) {
        XExpr::App(callee, args) => {
            match *callee {
                XExpr::Var(s) => {
                    assert_eq!(s.ty(), &Type::func(vec![i32t()], var(2)));
                    assert_eq!(s.id(), 7);
                    assert_eq!(s.name().as_str(), "f");
                }
                _ => panic!("callee changed shape"),
            }
            match &args[0] {
                XExpr::TyApp(b, tys) => {
                    assert_eq!(tys, &vec![i32t(), var(2)]);
                    assert!(matches!(**b, XExpr::I32Lit(3)));
                }
                _ => panic!("argument changed shape"),
            }
        }
        _ => panic!("expression changed shape"),
    }
}

#[test]
fn against_a_ground_type_both_sides_resolve_alike() {
    let mut t = table(3);
    let lhs = Type::func(vec![var(1), var(2)], var(1));
    let rhs = Type::func(vec![i32t(), boolt()], i32t());
    assert!(t.unify(&lhs, &rhs).is_ok());
    assert_eq!(t.apply_subst(&lhs), rhs);
    assert_eq!(t.apply_subst(&var(3)), var(3));
    let bad = Type::func(vec![i32t(), boolt()], boolt());
    assert!(t.unify(&lhs, &bad).is_err());
}

#[test]
fn variables_bound_to_different_types_do_not_unify() {
    let mut t = table(2);
    assert!(t.unify(&var(1), &i32t()).is_ok());
    assert!(t.unify(&var(2), &boolt()).is_ok());
    let e = t.unify(&var(1), &var(2)).unwrap_err();
    assert_eq!(e.message(), "Can not unify i32:* with bool:*");
}

#[test]
fn joining_variables_keeps_the_binding() {
    let mut t = table(2);
    assert!(t.unify(&var(1), &i32t()).is_ok());
    assert!(t.unify(&var(2), &var(1)).is_ok());
    assert_eq!(t.apply_subst(&var(1)), i32t());
    assert_eq!(t.apply_subst(&var(2)), i32t());
    let mut t = table(2);
    assert!(t.unify(&var(1), &i32t()).is_ok());
    assert!(t.unify(&var(1), &var(2)).is_ok());
    assert_eq!(t.apply_subst(&var(2)), i32t());
}

#[test]
fn variables_bound_to_equal_types_unify() {
    let mut t = table(2);
    assert!(t.unify(&var(1), &i32t()).is_ok());
    assert!(t.unify(&var(2), &i32t()).is_ok());
    assert!(t.unify(&var(1), &var(2)).is_ok());
    assert_eq!(t.apply_subst(&var(2)), i32t());
}

#[test]
fn applying_the_substitution_twice_changes_nothing() {
    let mut t = table(3);
    assert!(t.unify(&var(1), &var(2)).is_ok());
    assert!(t.unify(&var(3), &i32t()).is_ok());
    let ty = Type::func(vec![var(1), var(3)], var(2));
    let once = t.apply_subst(&ty);
    assert_eq!(t.apply_subst(&once), once);
    assert_eq!(t.apply_subst(&var(1)), t.apply_subst(&var(2)));
}

#[test]
fn registering_a_variable_again_starts_it_afresh() {
    let mut t = table(1);
    assert!(t.unify(&var(1), &i32t()).is_ok());
    t.add(tv(1));
    assert_eq!(t.apply_subst(&var(1)), var(1));
    assert!(t.unify(&var(1), &boolt()).is_ok());
    assert_eq!(t.apply_subst(&var(1)), boolt());
}

#[test]
fn occurs_check_reads_the_type_as_written() {
    let mut t = table(2);
    let g = Type::func(vec![var(1)], i32t());
    assert!(t.unify(&var(2), &g).is_ok());
    let f = Type::func(vec![var(2)], i32t());
    assert!(t.unify(&var(1), &f).is_ok());
    assert_ne!(t.apply_subst(&var(1)), t.apply_subst(&f));
}
