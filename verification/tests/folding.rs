use std::collections::HashMap;
use std::rc::Rc;

use rupro::decl_defs::{DeclTy, DeclTy_, FoldedClass, FoldedElement, ShallowClass, ShallowMethod, SubstContext};
use rupro::folded_decl_provider::cache::FoldedDeclLocalCache;
use rupro::folded_decl_provider::provider::FoldedDeclProvider;
use rupro::pos::{Pos, PosId, Symbol};
use rupro::shallow_decl_provider::ShallowDeclProvider;

fn pos(start: u64) -> Pos {
    Pos { file: 7, start, end: start + 3 }
}

fn class_ty(id: Symbol, at: u64) -> DeclTy {
    DeclTy::new(pos(at), DeclTy_::DTapply(PosId::new(pos(at), id), Vec::new()))
}

fn class(id: Symbol, extends: Vec<DeclTy>, methods: &[Symbol]) -> ShallowClass {
    ShallowClass {
        sc_name: PosId::new(pos(id * 100), id),
        sc_extends: extends,
        sc_methods: methods.iter().map(|m| ShallowMethod { sm_name: PosId::new(pos(*m), *m) }).collect(),
    }
}

fn provider(classes: Vec<ShallowClass>) -> FoldedDeclProvider {
    let mut sp = ShallowDeclProvider::new();
    for c in classes {
        sp.add_class(c);
    }
    FoldedDeclProvider::new(FoldedDeclLocalCache::new(), Rc::new(sp))
}

const A: Symbol = 1;
const B: Symbol = 2;
const C: Symbol = 3;
const X: Symbol = 9;

#[test]
fn class_without_parents_has_its_own_methods() {
    let mut p = provider(vec![class(A, vec![], &[10, 11])]);
    let a = p.get_folded_class(&A).unwrap();
    assert_eq!(a.dc_name, A);
    assert_eq!(a.dc_pos, pos(100));
    assert_eq!(a.dc_methods.len(), 2);
    assert_eq!(a.dc_methods[&10], FoldedElement { elt_origin: A });
    assert_eq!(a.dc_methods[&11], FoldedElement { elt_origin: A });
    assert!(a.dc_ancestors.is_empty());
    assert!(a.dc_substs.is_empty());
}

#[test]
fn child_inherits_methods_ancestors_and_substs() {
    let mut p = provider(vec![class(A, vec![], &[10]), class(B, vec![class_ty(A, 5)], &[20])]);
    let b = p.get_folded_class(&B).unwrap();
    assert_eq!(b.dc_name, B);
    assert_eq!(b.dc_methods.len(), 2);
    assert_eq!(b.dc_methods[&10], FoldedElement { elt_origin: A });
    assert_eq!(b.dc_methods[&20], FoldedElement { elt_origin: B });
    assert_eq!(b.dc_ancestors.len(), 1);
    assert_eq!(b.dc_ancestors[&A].reason, pos(5));
    assert_eq!(
        b.dc_substs[&A],
        SubstContext { sc_class_context: B, sc_from_req_extends: false }
    );
}

#[test]
fn ancestors_are_transitive() {
    let mut p = provider(vec![
        class(A, vec![], &[10]),
        class(B, vec![class_ty(A, 5)], &[]),
        class(C, vec![class_ty(B, 6)], &[]),
    ]);
    let c = p.get_folded_class(&C).unwrap();
    assert_eq!(c.dc_ancestors.len(), 2);
    assert!(c.dc_ancestors.contains_key(&A));
    assert!(c.dc_ancestors.contains_key(&B));
    assert_eq!(c.dc_methods[&10], FoldedElement { elt_origin: A });
    assert_eq!(c.dc_substs[&A], SubstContext { sc_class_context: B, sc_from_req_extends: false });
    assert_eq!(c.dc_substs[&B], SubstContext { sc_class_context: C, sc_from_req_extends: false });
}

#[test]
fn own_method_replaces_inherited_one() {
    let mut p = provider(vec![class(A, vec![], &[10]), class(B, vec![class_ty(A, 5)], &[10])]);
    let b = p.get_folded_class(&B).unwrap();
    assert_eq!(b.dc_methods.len(), 1);
    assert_eq!(b.dc_methods[&10], FoldedElement { elt_origin: B });
}

#[test]
fn later_parent_method_wins() {
    let mut p = provider(vec![
        class(A, vec![], &[10]),
        class(B, vec![], &[10]),
        class(C, vec![class_ty(A, 5), class_ty(B, 6)], &[]),
    ]);
    let c = p.get_folded_class(&C).unwrap();
    assert_eq!(c.dc_methods[&10], FoldedElement { elt_origin: B });
}

#[test]
fn unknown_parent_is_still_an_ancestor() {
    let mut p = provider(vec![class(B, vec![class_ty(X, 4)], &[20])]);
    let b = p.get_folded_class(&B).unwrap();
    assert_eq!(b.dc_ancestors.len(), 1);
    assert_eq!(b.dc_ancestors[&X].reason, pos(4));
    assert!(b.dc_substs.is_empty());
    assert_eq!(b.dc_methods.len(), 1);
}

#[test]
fn non_class_parent_types_are_skipped() {
    let prim = DeclTy::new(pos(3), DeclTy_::DTprim(rupro::decl_defs::Prim::Tint));
    let mut p = provider(vec![class(B, vec![prim], &[])]);
    let b = p.get_folded_class(&B).unwrap();
    assert!(b.dc_ancestors.is_empty());
}

#[test]
fn unknown_class_is_not_found() {
    let mut p = provider(vec![class(A, vec![], &[])]);
    assert!(p.get_folded_class(&X).is_none());
}

#[test]
fn second_query_answers_from_the_cache() {
    let mut p = provider(vec![class(A, vec![], &[10]), class(B, vec![class_ty(A, 5)], &[])]);
    let first = p.get_folded_class(&B).unwrap();
    let again = p.get_folded_class(&B).unwrap();
    assert!(Rc::ptr_eq(&first, &again));
    let a1 = p.get_folded_class(&A).unwrap();
    let a2 = p.get_folded_class(&A).unwrap();
    assert!(Rc::ptr_eq(&a1, &a2));
}

fn cached_class(name: Symbol, substs: &[(Symbol, bool)], methods: &[Symbol]) -> FoldedClass {
    let mut s = HashMap::new();
    for (k, req) in substs {
        s.insert(*k, SubstContext { sc_class_context: name, sc_from_req_extends: *req });
    }
    let mut m = HashMap::new();
    for k in methods {
        m.insert(*k, FoldedElement { elt_origin: name });
    }
    FoldedClass { dc_name: name, dc_pos: pos(name), dc_substs: s, dc_ancestors: HashMap::new(), dc_methods: m }
}

#[test]
fn cached_class_is_used_as_is() {
    let mut cache = FoldedDeclLocalCache::new();
    cache.put_folded_class(A, Rc::new(cached_class(A, &[], &[77])));
    let mut sp = ShallowDeclProvider::new();
    sp.add_class(class(A, vec![], &[10]));
    sp.add_class(class(B, vec![class_ty(A, 5)], &[]));
    let mut p = FoldedDeclProvider::new(cache, Rc::new(sp));
    let b = p.get_folded_class(&B).unwrap();
    assert!(b.dc_methods.contains_key(&77));
    assert!(!b.dc_methods.contains_key(&10));
    let a = p.get_folded_class(&A).unwrap();
    assert_eq!(a.dc_methods.len(), 1);
}

#[test]
fn require_extends_context_is_not_replaced_by_a_plain_one() {
    // B carries X as reached through `require extends`, A as reached plainly.
    let mut cache = FoldedDeclLocalCache::new();
    cache.put_folded_class(A, Rc::new(cached_class(A, &[(X, false)], &[])));
    cache.put_folded_class(B, Rc::new(cached_class(B, &[(X, true)], &[])));
    let mut sp = ShallowDeclProvider::new();
    sp.add_class(class(C, vec![class_ty(A, 5), class_ty(B, 6)], &[]));
    sp.add_class(class(C + 1, vec![class_ty(B, 6), class_ty(A, 5)], &[]));
    let mut p = FoldedDeclProvider::new(cache, Rc::new(sp));
    let c = p.get_folded_class(&C).unwrap();
    assert_eq!(c.dc_substs[&X], SubstContext { sc_class_context: A, sc_from_req_extends: false });
    let d = p.get_folded_class(&(C + 1)).unwrap();
    assert_eq!(d.dc_substs[&X], SubstContext { sc_class_context: A, sc_from_req_extends: false });
}

#[test]
fn shallow_provider_hands_out_the_stored_declaration() {
    let mut sp = ShallowDeclProvider::new();
    sp.add_class(class(A, vec![class_ty(X, 2)], &[10]));
    let got = sp.get_shallow_class(&A).unwrap();
    assert_eq!(got.sc_name, PosId::new(pos(100), A));
    assert_eq!(got.sc_extends.len(), 1);
    assert_eq!(got.sc_methods.len(), 1);
    assert!(sp.get_shallow_class(&B).is_none());
    let p = FoldedDeclProvider::new(FoldedDeclLocalCache::new(), Rc::new(sp));
    assert!(p.get_shallow_decl_provider().get_shallow_class(&A).is_some());
}

fn same_fold(x: &FoldedClass, y: &FoldedClass) -> bool {
    x.dc_name == y.dc_name
        && x.dc_pos == y.dc_pos
        && x.dc_substs == y.dc_substs
        && x.dc_methods == y.dc_methods
        && x.dc_ancestors.len() == y.dc_ancestors.len()
        && x.dc_ancestors.iter().all(|(k, t)| y.dc_ancestors.get(k).map_or(false, |u| u.reason == t.reason))
}

#[test]
fn faithful_cache_gives_the_same_answers() {
    let decls = || {
        vec![
            class(A, vec![], &[10]),
            class(B, vec![class_ty(A, 5)], &[20]),
            class(C, vec![class_ty(B, 6), class_ty(X, 7)], &[10]),
        ]
    };
    let mut scratch = provider(decls());
    let a = scratch.get_folded_class(&A).unwrap();
    let mut cache = FoldedDeclLocalCache::new();
    cache.put_folded_class(A, a);
    let mut sp = ShallowDeclProvider::new();
    for c in decls() {
        sp.add_class(c);
    }
    let mut with_cache = FoldedDeclProvider::new(cache, Rc::new(sp));
    let mut without = provider(decls());
    let c1 = with_cache.get_folded_class(&C).unwrap();
    let c2 = without.get_folded_class(&C).unwrap();
    assert!(same_fold(&c1, &c2));
    assert_eq!(c1.dc_methods[&10], FoldedElement { elt_origin: C });
    assert_eq!(c1.dc_methods[&20], FoldedElement { elt_origin: B });
    let b1 = with_cache.get_folded_class(&B).unwrap();
    let b2 = without.get_folded_class(&B).unwrap();
    assert!(same_fold(&b1, &b2));
}

#[test]
fn shared_ancestor_not_cached_cannot_be_folded() {
    // A extends B, C; C extends B: B would be folded twice in one query.
    let mut p = provider(vec![
        class(B, vec![], &[20]),
        class(C, vec![class_ty(B, 5)], &[]),
        class(A, vec![class_ty(B, 6), class_ty(C, 7)], &[]),
    ]);
    assert!(!p.can_fold(&A));
    assert_eq!(p.try_get_folded_class(&A).err(), Some(rupro::folded_decl_provider::provider::FoldError::Cycle));
    assert!(p.can_fold(&C));
    assert!(p.can_fold(&B));
    // Once B is cached, the same hierarchy can be folded.
    assert!(p.try_get_folded_class(&B).unwrap().is_some());
    assert!(p.can_fold(&A));
    let a = p.try_get_folded_class(&A).unwrap().unwrap();
    assert!(a.dc_ancestors.contains_key(&B));
    assert!(a.dc_ancestors.contains_key(&C));
    assert_eq!(a.dc_methods[&20], FoldedElement { elt_origin: B });
}

#[test]
fn class_inheriting_from_itself_cannot_be_folded() {
    let mut p = provider(vec![class(A, vec![class_ty(B, 1)], &[]), class(B, vec![class_ty(A, 2)], &[])]);
    assert!(!p.can_fold(&A));
    assert!(!p.can_fold(&B));
    assert!(p.try_get_folded_class(&B).is_err());
    assert!(p.can_fold(&X));
    assert_eq!(p.try_get_folded_class(&X).map(|r| r.is_none()), Ok(true));
}

#[test]
fn checked_query_answers_like_the_plain_one() {
    let mut p = provider(vec![class(A, vec![], &[10]), class(B, vec![class_ty(A, 5)], &[20])]);
    assert!(p.can_fold(&B));
    let b = p.try_get_folded_class(&B).unwrap().unwrap();
    let mut q = provider(vec![class(A, vec![], &[10]), class(B, vec![class_ty(A, 5)], &[20])]);
    let b2 = q.get_folded_class(&B).unwrap();
    assert!(same_fold(&b, &b2));
}
