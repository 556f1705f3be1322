use babel::ast;
use babel::idtree;
use babel::lambda_lift::LambdaLift;
use babel::rename::Rename;
use babel::types::{InnerTyVar, Kind, TyCon, TyVar, Type};
use babel::xir;
use babel::{Pass, Vector};
use std::rc::Rc;

fn func(name: &str, expr: ast::Expr) -> ast::Decl {
    ast::Decl::Func(ast::Bind(name.to_string(), expr))
}

fn var(name: &str) -> ast::Expr {
    ast::Expr::Var(name.to_string())
}

fn lam(params: &[&str], body: ast::Expr) -> ast::Expr {
    let params = params.iter().map(|p| p.to_string()).collect();
    ast::Expr::Lam(Box::new(ast::Lam::new(params, body)))
}

fn module(decls: Vec<ast::Decl>) -> ast::Module {
    let mut m = ast::Module::new(decls);
    m.set_name("test".to_string());
    m
}

fn let_bind(decl: &idtree::Decl) -> &idtree::Bind {
    match decl {
        idtree::Decl::Let(binds) => &binds[0],
        _ => panic!("expected a let"),
    }
}

#[test]
fn rename_resolves_names_to_their_binders() {
    // let id = \x. x
    // let main = id(1)
    let m = module(vec![
        func("id", lam(&["x"], var("x"))),
        func("main", ast::Expr::App(Box::new(var("id")), vec![ast::Expr::I32Lit(1)])),
    ]);
    let out = Rename::new().run(vec![m]).unwrap();
    assert_eq!(out.len(), 1);
    assert_eq!(out[0].name(), "test");
    let decls = out[0].decls();
    assert_eq!(decls.len(), 2);
    let id_bind = let_bind(&decls[0]);
    let main_bind = let_bind(&decls[1]);
    assert_eq!(id_bind.symbol().name().as_str(), "id");
    assert_eq!(main_bind.symbol().name().as_str(), "main");
    assert_ne!(id_bind.symbol().id(), main_bind.symbol().id());
    match id_bind.expr() {
        idtree::Expr::Lam(params, body) => {
            assert_eq!(params.len(), 1);
            match &**body {
                idtree::Expr::Var(s) => assert_eq!(s.id(), params[0].id()),
                _ => panic!("expected a variable"),
            }
        }
        _ => panic!("expected a lambda"),
    }
    match main_bind.expr() {
        idtree::Expr::App(f, args) => {
            match &**f {
                idtree::Expr::Var(s) => assert_eq!(s.id(), id_bind.symbol().id()),
                _ => panic!("expected a variable"),
            }
            assert!(matches!(args[0], idtree::Expr::I32Lit(1)));
        }
        _ => panic!("expected an application"),
    }
}

#[test]
fn rename_inner_binders_shadow() {
    // let f = \x. \x. x
    let m = module(vec![func("f", lam(&["x"], lam(&["x"], var("x"))))]);
    let out = Rename::new().run(vec![m]).unwrap();
    let b = let_bind(&out[0].decls()[0]);
    match b.expr() {
        idtree::Expr::Lam(outer, body) => match &**body {
            idtree::Expr::Lam(inner, body) => match &**body {
                idtree::Expr::Var(s) => {
                    assert_eq!(s.id(), inner[0].id());
                    assert_ne!(s.id(), outer[0].id());
                }
                _ => panic!(),
            },
            _ => panic!(),
        },
        _ => panic!(),
    }
}

#[test]
fn rename_let_binds_after_its_expression() {
    // let f = \y. let x = y in x
    let body = ast::Expr::Let(Box::new(ast::Bind("x".to_string(), var("y"))), Box::new(var("x")));
    let m = module(vec![func("f", lam(&["y"], body))]);
    assert!(Rename::new().run(vec![m]).is_ok());
    // let g = \y. let x = x in y   (x is not bound yet)
    let body = ast::Expr::Let(Box::new(ast::Bind("x".to_string(), var("x"))), Box::new(var("y")));
    let m = module(vec![func("g", lam(&["y"], body))]);
    assert!(Rename::new().run(vec![m]).is_err());
}

#[test]
fn rename_unbound_variable_fails() {
    let m = module(vec![func("main", var("nowhere"))]);
    assert!(Rename::new().run(vec![m]).is_err());
}

#[test]
fn rename_duplicate_top_level_name_fails() {
    let m = module(vec![func("f", ast::Expr::UnitLit), func("f", ast::Expr::UnitLit)]);
    assert!(Rename::new().run(vec![m]).is_err());
}

#[test]
fn rename_functions_may_refer_to_themselves() {
    let m = module(vec![func("loop", lam(&["x"], ast::Expr::App(Box::new(var("loop")), vec![var("x")])))]);
    assert!(Rename::new().run(vec![m]).is_ok());
}

#[test]
fn rename_extern_types_get_fresh_variables() {
    let a = Type::Var("a".to_string());
    let ty = Type::func(vec![a.clone()], a);
    let m = module(vec![ast::Decl::Extern("print".to_string(), ty)]);
    let out = Rename::new().run(vec![m]).unwrap();
    match &out[0].decls()[0] {
        idtree::Decl::Extern(sym) => {
            assert_eq!(sym.name().as_str(), "print");
            match sym.ty() {
                Type::App(_, args) => {
                    assert_eq!(args.len(), 2);
                    match (&args[0], &args[1]) {
                        (Type::Var(v1), Type::Var(v2)) => assert_ne!(v1.id, v2.id),
                        _ => panic!(),
                    }
                }
                _ => panic!(),
            }
        }
        _ => panic!(),
    }
}

fn xsym(name: &str, id: u32) -> xir::Symbol {
    xir::Symbol::new(Rc::new(name.to_string()), Type::Con(TyCon::Unit, Kind::Star), id)
}

fn unit_ty() -> Type<TyVar> {
    Type::Con(TyCon::Unit, Kind::Star)
}

fn xlam(body: xir::Expr) -> xir::Expr {
    xir::Expr::Lam(vec![xsym("p", 50)], Box::new(body), unit_ty())
}

#[test]
fn lambda_lift_keeps_top_level_functions() {
    let bind = xir::Bind::new(xsym("f", 1), xlam(xir::Expr::UnitLit));
    let m = xir::Module::new("m".to_string(), vec![xir::Decl::Let(vec![bind])]);
    let out = LambdaLift::new().run(vec![m]).unwrap();
    assert_eq!(out[0].decls().len(), 1);
}

#[test]
fn lambda_lift_moves_anonymous_functions_out() {
    // let f = g(\p. ())
    let call = xir::Expr::App(Box::new(xir::Expr::Var(xsym("g", 2))), vec![xlam(xir::Expr::UnitLit)]);
    let bind = xir::Bind::new(xsym("f", 1), call);
    let m = xir::Module::new("m".to_string(), vec![xir::Decl::Let(vec![bind])]);
    let out = LambdaLift::new().run(vec![m]).unwrap();
    let decls = out[0].decls();
    assert_eq!(decls.len(), 2);
    let lifted = match &decls[0] {
        xir::Decl::Let(binds) => &binds[0],
        _ => panic!(),
    };
    assert_eq!(lifted.symbol().name().as_str(), "@__anon_51");
    assert_eq!(lifted.symbol().id(), 52);
    assert!(matches!(lifted.expr(), xir::Expr::Lam(_, _, _)));
    match &decls[1] {
        xir::Decl::Let(binds) => match binds[0].expr() {
            xir::Expr::App(_, args) => match &args[0] {
                xir::Expr::Var(s) => assert_eq!(s.name().as_str(), "@__anon_51"),
                _ => panic!(),
            },
            _ => panic!(),
        },
        _ => panic!(),
    }
}

#[test]
fn lambda_lift_moves_nested_let_functions_out() {
    // let f = let h = \p. () in h
    let inner = xir::Bind::new(xsym("h", 3), xlam(xir::Expr::UnitLit));
    let body = xir::Expr::Let(Box::new(xir::Let::new(inner, xir::Expr::Var(xsym("h", 3)))));
    let bind = xir::Bind::new(xsym("f", 1), body);
    let m = xir::Module::new("m".to_string(), vec![xir::Decl::Let(vec![bind])]);
    let out = LambdaLift::new().run(vec![m]).unwrap();
    let decls = out[0].decls();
    assert_eq!(decls.len(), 2);
    match &decls[0] {
        xir::Decl::Let(binds) => {
            assert_eq!(binds[0].symbol().name().as_str(), "h");
            assert!(matches!(binds[0].expr(), xir::Expr::Lam(_, _, _)));
        }
        _ => panic!(),
    }
    match &decls[1] {
        xir::Decl::Let(binds) => match binds[0].expr() {
            xir::Expr::Let(l) => {
                assert_eq!(l.bind().symbol().name().as_str(), "@__fnanon_51");
                assert!(matches!(l.bind().expr(), xir::Expr::Var(_)));
            }
            _ => panic!(),
        },
        _ => panic!(),
    }
}

#[test]
fn vector_helpers() {
    let v = Vector::fmap(vec![1, 2, 3], |x: i32| x * 2);
    assert_eq!(v, vec![2, 4, 6]);
    let r: babel::Result<Vec<i32>> = Vector::map(&[1, 2, 3], |x: &i32| Ok(*x + 1));
    assert_eq!(r.unwrap(), vec![2, 3, 4]);
    let r: babel::Result<Vec<i32>> = Vector::mapt(vec![1, 2, 3], |x: i32| {
        if x == 2 {
            Err(babel::Error::new("two".to_string()))
        } else {
            Ok(x)
        }
    });
    assert_eq!(r.unwrap_err().message(), "two");
}

#[test]
fn type_variables_count_from_one() {
    let mut next = 0;
    let a = TyVar::fresh(&mut next, 2);
    let b = TyVar::fresh(&mut next, 0);
    assert_eq!(a, TyVar { id: 1, inner: InnerTyVar { level: 2 } });
    assert_eq!(b.id, 2);
}

#[test]
fn lambda_lift_fails_when_identifiers_run_out() {
    // let f = g(\p. ()), with `g` numbered next to the last identifier
    let call = xir::Expr::App(
        Box::new(xir::Expr::Var(xsym("g", u32::MAX - 1))),
        vec![xlam(xir::Expr::UnitLit)],
    );
    let bind = xir::Bind::new(xsym("f", 1), call);
    let m = xir::Module::new("m".to_string(), vec![xir::Decl::Let(vec![bind])]);
    assert!(LambdaLift::new().run(vec![m]).is_err());
}

#[test]
fn lambda_lift_uses_the_last_identifiers() {
    let call = xir::Expr::App(
        Box::new(xir::Expr::Var(xsym("g", u32::MAX - 3))),
        vec![xlam(xir::Expr::UnitLit)],
    );
    let bind = xir::Bind::new(xsym("f", 1), call);
    let m = xir::Module::new("m".to_string(), vec![xir::Decl::Let(vec![bind])]);
    let out = LambdaLift::new().run(vec![m]).unwrap();
    match &out[0].decls()[0] {
        xir::Decl::Let(binds) => {
            assert_eq!(binds[0].symbol().id(), u32::MAX - 1);
            assert_eq!(
                binds[0].symbol().name().as_str(),
                format!("@__anon_{}", u32::MAX - 2)
            );
        }
        _ => panic!(),
    }
}

#[test]
fn lambda_lift_numbers_on_across_modules() {
    let mk = |name: &str| {
        let call = xir::Expr::App(Box::new(xir::Expr::Var(xsym("g", 2))), vec![xlam(xir::Expr::UnitLit)]);
        let bind = xir::Bind::new(xsym("f", 1), call);
        xir::Module::new(name.to_string(), vec![xir::Decl::Let(vec![bind])])
    };
    let out = LambdaLift::new().run(vec![mk("a"), mk("b")]).unwrap();
    let first = match &out[0].decls()[0] {
        xir::Decl::Let(binds) => binds[0].symbol().id(),
        _ => panic!(),
    };
    let second = match &out[1].decls()[0] {
        xir::Decl::Let(binds) => binds[0].symbol().id(),
        _ => panic!(),
    };
    assert_eq!(first, 52);
    assert_eq!(second, 54);
    assert_eq!(out[1].name(), "b");
}

#[test]
fn lambda_lift_keeps_externs_in_place() {
    let ext = xir::Decl::Extern(xsym("puts", 7));
    let m = xir::Module::new("m".to_string(), vec![ext]);
    let out = LambdaLift::new().run(vec![m]).unwrap();
    assert_eq!(out[0].decls().len(), 1);
    match &out[0].decls()[0] {
        xir::Decl::Extern(s) => assert_eq!(s.id(), 7),
        _ => panic!(),
    }
}
