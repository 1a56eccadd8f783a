use std::collections::HashMap;
use std::rc::Rc;

use rupro::decl_defs::{DeclTy, DeclTy_, FoldedClass, FunParam, FunType, Prim};
use rupro::pos::{Pos, PosId};
use rupro::typing_defs::{Exact, Ty, TypeExpansion, Ty_};
use rupro::typing_env::TEnv;
use rupro::typing_phase::Phase;

fn pos(start: u64) -> Pos {
    Pos { file: 3, start, end: start + 1 }
}

fn prim(p: Prim, at: u64) -> DeclTy {
    DeclTy::new(pos(at), DeclTy_::DTprim(p))
}

fn apply(id: u64, at: u64, args: Vec<DeclTy>) -> DeclTy {
    DeclTy::new(pos(at), DeclTy_::DTapply(PosId::new(pos(at), id), args))
}

fn env_with(names: &[u64]) -> TEnv {
    let mut env = TEnv::new();
    for n in names {
        env.add_class(Rc::new(FoldedClass {
            dc_name: *n,
            dc_pos: pos(*n),
            dc_substs: HashMap::new(),
            dc_ancestors: HashMap::new(),
            dc_methods: HashMap::new(),
        }));
    }
    env
}

fn is_prim(t: &Ty, p: Prim) -> bool {
    matches!(t.node(), Ty_::Tprim(q) if *q == p)
}

#[test]
fn primitive_stays_primitive() {
    let env = env_with(&[]);
    let t = Phase::localize_no_subst(&env, false, None, prim(Prim::Tstring, 4));
    assert!(is_prim(&t, Prim::Tstring));
    assert_eq!(t.reason(), pos(4));
}

#[test]
fn unknown_class_keeps_localized_arguments() {
    let env = env_with(&[]);
    let ty = apply(50, 8, vec![prim(Prim::Tint, 9), apply(51, 10, vec![prim(Prim::Tbool, 11)])]);
    let t = Phase::localize_no_subst(&env, true, None, ty);
    assert_eq!(t.reason(), pos(8));
    match t.node() {
        Ty_::Tclass(sid, exact, args) => {
            assert_eq!(*sid, PosId::new(pos(8), 50));
            assert_eq!(*exact, Exact::Nonexact);
            assert_eq!(args.len(), 2);
            assert!(is_prim(&args[0], Prim::Tint));
            assert_eq!(args[0].reason(), pos(9));
            match args[1].node() {
                Ty_::Tclass(inner, _, inner_args) => {
                    assert_eq!(inner.id, 51);
                    assert_eq!(inner_args.len(), 1);
                    assert!(is_prim(&inner_args[0], Prim::Tbool));
                }
                _ => panic!("expected a class type"),
            }
        }
        _ => panic!("expected a class type"),
    }
}

#[test]
fn known_class_without_arguments() {
    let env = env_with(&[50]);
    assert!(env.get_class_or_typedef(&50).is_some());
    assert!(env.get_class_or_typedef(&51).is_none());
    let t = Phase::localize_no_subst(&env, false, Some(TypeExpansion { pos: None, name: 50 }), apply(50, 2, vec![]));
    match t.node() {
        Ty_::Tclass(sid, exact, args) => {
            assert_eq!(sid.id, 50);
            assert_eq!(*exact, Exact::Nonexact);
            assert!(args.is_empty());
        }
        _ => panic!("expected a class type"),
    }
}

#[test]
fn function_type_localizes_its_return_type() {
    let env = env_with(&[]);
    let ft = FunType { ft_params: Vec::<FunParam<DeclTy>>::new(), ft_ret: apply(60, 6, vec![prim(Prim::Tvoid, 7)]) };
    let t = Phase::localize_no_subst(&env, false, None, DeclTy::new(pos(5), DeclTy_::DTfun(ft)));
    assert_eq!(t.reason(), pos(5));
    match t.node() {
        Ty_::Tfun(ft) => {
            assert!(ft.ft_params.is_empty());
            assert_eq!(ft.ft_ret.reason(), pos(6));
            match ft.ft_ret.node() {
                Ty_::Tclass(sid, _, args) => {
                    assert_eq!(sid.id, 60);
                    assert!(is_prim(&args[0], Prim::Tvoid));
                }
                _ => panic!("expected a class type"),
            }
        }
        _ => panic!("expected a function type"),
    }
}

fn same_ty(x: &Ty, y: &Ty) -> bool {
    x.reason() == y.reason()
        && match (x.node(), y.node()) {
            (Ty_::Tprim(p), Ty_::Tprim(q)) => p == q,
            (Ty_::Tclass(s1, e1, a1), Ty_::Tclass(s2, e2, a2)) => {
                s1 == s2 && e1 == e2 && a1.len() == a2.len() && a1.iter().zip(a2.iter()).all(|(u, v)| same_ty(u, v))
            }
            (Ty_::Tfun(f1), Ty_::Tfun(f2)) => f1.ft_params.len() == f2.ft_params.len() && same_ty(&f1.ft_ret, &f2.ft_ret),
            _ => false,
        }
}

#[test]
fn flags_do_not_change_the_localized_type() {
    let env = env_with(&[52]);
    let make = || apply(50, 8, vec![apply(52, 9, vec![]), apply(51, 10, vec![prim(Prim::Tbool, 11)])]);
    let t1 = Phase::localize_no_subst(&env, true, None, make());
    let t2 = Phase::localize_no_subst(&env, false, Some(TypeExpansion { pos: Some(pos(1)), name: 50 }), make());
    assert!(same_ty(&t1, &t2));
}
