use babel::ast;
use babel::types::flat;
use babel::types::{InnerTyVar, Kind, Subst, TyCon, TyVar, Type};
use std::rc::Rc;

fn tv(id: u32) -> TyVar {
    TyVar { id, inner: InnerTyVar { level: 0 } }
}

fn i32t() -> Type<TyVar> {
    Type::Con(TyCon::I32, Kind::Star)
}

fn fun_kind(k1: Kind, k2: Kind) -> Kind {
    Kind::Fun(Rc::new((k1, k2)))
}

#[test]
fn function_type_kind_counts_parameters() {
    let f: Type<TyVar> = Type::func(vec![i32t(), i32t()], i32t());
    match f {
        Type::App(con, args) => {
            assert_eq!(args.len(), 3);
            let kind = fun_kind(Kind::Star, fun_kind(Kind::Star, fun_kind(Kind::Star, Kind::Star)));
            assert_eq!(*con, Type::Con(TyCon::Func, kind));
        }
        _ => panic!(),
    }
    let unit: Type<TyVar> = Type::unit();
    assert_eq!(unit, Type::Con(TyCon::Unit, Kind::Star));
}

#[test]
fn empty_substitution_changes_nothing() {
    let s = Subst::new();
    let t = Type::func(vec![Type::Var(tv(1))], i32t());
    assert_eq!(s.apply(&t), t);
}

#[test]
fn substitution_replaces_bound_variables() {
    let mut s = Subst::new();
    s.bind(&tv(1), i32t());
    let t = Type::func(vec![Type::Var(tv(1))], Type::Var(tv(2)));
    assert_eq!(s.apply(&t), Type::func(vec![i32t()], Type::Var(tv(2))));
}

#[test]
fn kinds_and_constructors_compare_by_value() {
    assert!(fun_kind(Kind::Star, Kind::Star).same(&fun_kind(Kind::Star, Kind::Star)));
    assert!(!Kind::Star.same(&fun_kind(Kind::Star, Kind::Star)));
    let a: TyCon<TyVar> = TyCon::NewType(Rc::new("list".to_string()));
    let b: TyCon<TyVar> = TyCon::NewType(Rc::new("list".to_string()));
    let c: TyCon<TyVar> = TyCon::NewType(Rc::new("tree".to_string()));
    assert!(a.same(&b));
    assert!(!a.same(&c));
    assert!(!a.same(&TyCon::I32));
}

#[test]
fn flat_type_variables_match_everything() {
    let v: flat::Type<u32> = flat::Type::TyVar(1);
    assert!(v == flat::Type::I32);
    assert!(flat::Type::Bool == flat::Type::TyVar(7));
    assert!(flat::Type::<u32>::I32 != flat::Type::Bool);
    assert!(flat::Type::TyCon(1u32) != flat::Type::TyCon(1u32));
    let f = flat::Type::Function { params_ty: vec![flat::Type::I32], return_ty: Box::new(flat::Type::TyVar(0u32)) };
    let g = flat::Type::Function { params_ty: vec![flat::Type::TyVar(3)], return_ty: Box::new(flat::Type::Unit) };
    assert!(f == g);
    assert!(g == f);
    let h = flat::Type::Function { params_ty: vec![], return_ty: Box::new(flat::Type::Unit) };
    assert!(f != h);
}

#[test]
fn source_type_constructors() {
    assert_eq!(ast::con("i32", Kind::Star), Type::Con(TyCon::I32, Kind::Star));
    assert_eq!(ast::con("bool", Kind::Star), Type::Con(TyCon::Bool, Kind::Star));
    assert_eq!(ast::con("()", Kind::Star), Type::Con(TyCon::Unit, Kind::Star));
    assert_eq!(ast::con("->", Kind::Star), Type::Con(TyCon::Func, Kind::Star));
    assert_eq!(
        ast::con("list", Kind::Star),
        Type::Con(TyCon::NewType(Rc::new("list".to_string())), Kind::Star)
    );
}

#[test]
fn external_declaration_type() {
    let i: ast::Type = ast::con("i32", Kind::Star);
    let b: ast::Type = ast::con("bool", Kind::Star);
    let d = ast::Decl::external("f".to_string(), vec![("x".to_string(), i.clone()), ("y".to_string(), b.clone())], i.clone());
    match d {
        ast::Decl::Extern(name, ty) => {
            assert_eq!(name, "f");
            assert_eq!(ty, Type::func(vec![i.clone(), b], i));
        }
        _ => panic!(),
    }
}

#[test]
fn modules_keep_their_declarations() {
    let mut m = ast::Module::new(vec![]);
    assert_eq!(m.name(), "");
    m.set_name("main".to_string());
    assert_eq!(m.name(), "main");
    assert_eq!(m.decls().len(), 0);
}
