//! Properties of folding that hold across queries and declarations.
use vstd::prelude::*;

use crate::decl_defs::{class_ref, DeclTy, FoldedClassView, FoldedElement, ShallowClass, ShallowMethod};
use crate::folded_decl_provider::fold::{add_declared_methods, fold_class, implements, Decls};
use crate::folded_decl_provider::inherit::{inherited_methods, inherited_substs, merge_substs};
use crate::pos::Symbol;

verus! {

/// A query finds a class exactly when the class is cached or declared.
pub proof fn lemma_found_iff_known(d: Decls, name: Symbol)
    requires
        d.classes.dom().finite(),
    ensures
        d.resolve(Set::empty(), name) is Some <==> (d.cached.contains_key(name)
            || d.classes.contains_key(name)),
{
}

/// A class that is cached can always be queried; the query answers with the
/// cached class and folds nothing. So once a query has found a class (which
/// leaves it in the cache), asking again gives the same answer.
pub proof fn lemma_cached_answer_is_stable(d: Decls, name: Symbol)
    requires
        d.cached.contains_key(name),
    ensures
        d.completes(Set::empty(), name),
        d.resolve(Set::empty(), name) == Some(d.cached[name]),
        d.expanded(Set::empty(), name) == Set::<Symbol>::empty(),
{
}

/// When declarations and cached classes are stored under their own names, a
/// query answers with the class it was asked for, and a freshly folded class
/// sits where its declaration does.
pub proof fn lemma_answer_is_named_as_asked(d: Decls, name: Symbol)
    requires
        d.classes.dom().finite(),
        forall|k: Symbol| #[trigger] d.classes.contains_key(k) ==> d.classes[k].sc_name.id == k,
        forall|k: Symbol| #[trigger] d.cached.contains_key(k) ==> d.cached[k].name == k,
    ensures
        d.resolve(Set::empty(), name) matches Some(c) ==> c.name == name,
        !d.cached.contains_key(name) && d.classes.contains_key(name) ==> d.resolve(
            Set::empty(),
            name,
        ).unwrap().pos == d.classes[name].sc_name.pos,
{
}

proof fn lemma_declared_methods(base: Map<Symbol, FoldedElement>, origin: Symbol, ms: Seq<ShallowMethod>)
    ensures
        base.dom().subset_of(add_declared_methods(base, origin, ms).dom()),
        forall|i: int|
            0 <= i < ms.len() ==> #[trigger] add_declared_methods(base, origin, ms).contains_key(
                ms[i].sm_name.id,
            ) && add_declared_methods(base, origin, ms)[ms[i].sm_name.id] == (FoldedElement {
                elt_origin: origin,
            }),
    decreases ms.len(),
{
    if ms.len() > 0 {
        lemma_declared_methods(base, origin, ms.drop_last());
        assert forall|i: int| 0 <= i < ms.len() implies #[trigger] add_declared_methods(
            base,
            origin,
            ms,
        ).contains_key(ms[i].sm_name.id) && add_declared_methods(base, origin, ms)[ms[i].sm_name.id]
            == (FoldedElement { elt_origin: origin }) by {
            if i < ms.len() - 1 {
                assert(ms.drop_last()[i] == ms[i]);
            }
        }
    }
}

proof fn lemma_inherited_parents(sc_name: Symbol, tys: Seq<DeclTy>, ps: Map<Symbol, FoldedClassView>)
    ensures
        forall|i: int|
            #![trigger tys[i]]
            0 <= i < tys.len() ==> match class_ref(tys[i]) {
                Some(id) => {
                    &&& implements(tys, ps).contains_key(id)
                    &&& ps.contains_key(id) ==> ps[id].ancestors.dom().subset_of(
                        implements(tys, ps).dom(),
                    )
                    &&& ps.contains_key(id) ==> ps[id].methods.dom().subset_of(
                        inherited_methods(tys, ps).dom(),
                    )
                    &&& ps.contains_key(id) ==> inherited_substs(sc_name, tys, ps).contains_key(id)
                },
                None => true,
            },
    decreases tys.len(),
{
    if tys.len() > 0 {
        let pre = tys.drop_last();
        lemma_inherited_parents(sc_name, pre, ps);
        assert forall|i: int| #![trigger tys[i]] 0 <= i < tys.len() implies match class_ref(tys[i]) {
            Some(id) => {
                &&& implements(tys, ps).contains_key(id)
                &&& ps.contains_key(id) ==> ps[id].ancestors.dom().subset_of(
                    implements(tys, ps).dom(),
                )
                &&& ps.contains_key(id) ==> ps[id].methods.dom().subset_of(
                    inherited_methods(tys, ps).dom(),
                )
                &&& ps.contains_key(id) ==> inherited_substs(sc_name, tys, ps).contains_key(id)
            },
            None => true,
        } by {
            if i < tys.len() - 1 {
                assert(pre[i] == tys[i]);
            }
        }
    }
}

/// A folded class names every class its declaration extends as an
/// ancestor; takes over the ancestors and methods of each such parent whose
/// folded declaration was found, and records how that parent was reached;
/// and has each method it declares itself as declared by itself.
pub proof fn lemma_fold_class_shape(sc: ShallowClass, parents: Map<Symbol, FoldedClassView>)
    ensures
        fold_class(sc, parents).name == sc.sc_name.id,
        fold_class(sc, parents).pos == sc.sc_name.pos,
        forall|i: int|
            #![trigger sc.sc_extends@[i]]
            0 <= i < sc.sc_extends@.len() ==> match class_ref(sc.sc_extends@[i]) {
                Some(id) => {
                    &&& fold_class(sc, parents).ancestors.contains_key(id)
                    &&& parents.contains_key(id) ==> parents[id].ancestors.dom().subset_of(
                        fold_class(sc, parents).ancestors.dom(),
                    )
                    &&& parents.contains_key(id) ==> parents[id].methods.dom().subset_of(
                        fold_class(sc, parents).methods.dom(),
                    )
                    &&& parents.contains_key(id) ==> fold_class(sc, parents).substs.contains_key(id)
                },
                None => true,
            },
        forall|i: int|
            0 <= i < sc.sc_methods@.len() ==> #[trigger] fold_class(sc, parents).methods.contains_key(
                sc.sc_methods@[i].sm_name.id,
            ) && fold_class(sc, parents).methods[sc.sc_methods@[i].sm_name.id] == (FoldedElement {
                elt_origin: sc.sc_name.id,
            }),
{
    let tys = sc.sc_extends@;
    lemma_inherited_parents(sc.sc_name.id, tys, parents);
    lemma_declared_methods(inherited_methods(tys, parents), sc.sc_name.id, sc.sc_methods@);
}

/// A query that runs to the end with nothing cached also runs to the end
/// with a cache, and folds no class it would not fold without one.
pub proof fn lemma_cache_only_saves_work(d: Decls, path: Set<Symbol>, name: Symbol)
    requires
        d.uncached().completes(path, name),
    ensures
        d.completes(path, name),
        d.expanded(path, name).subset_of(d.uncached().expanded(path, name)),
    decreases d.pending(path), 0nat,
{
    let u = d.uncached();
    if d.expandable(path, name) {
        d.classes.dom().lemma_set_insert_diff_decreases(path, name);
        let tys = d.classes[name].sc_extends@;
        let p2 = path.insert(name);
        lemma_list_cache_only_saves_work(d, p2, tys);
        assert(u.expandable(path, name));
        assert(u.completes(path, name) == u.completes_list(p2, tys));
        assert(d.completes(path, name) == d.completes_list(p2, tys));
        assert(d.expanded(path, name) == d.expanded_list(p2, tys).insert(name));
        assert(u.expanded(path, name) == u.expanded_list(p2, tys).insert(name));
    } else {
        assert(d.expanded(path, name) == Set::<Symbol>::empty());
    }
}

proof fn lemma_list_cache_only_saves_work(d: Decls, path: Set<Symbol>, tys: Seq<DeclTy>)
    requires
        d.uncached().completes_list(path, tys),
    ensures
        d.completes_list(path, tys),
        d.expanded_list(path, tys).subset_of(d.uncached().expanded_list(path, tys)),
    decreases d.pending(path), tys.len(),
{
    let u = d.uncached();
    if tys.len() > 0 {
        let pre = tys.drop_last();
        lemma_list_cache_only_saves_work(d, path, pre);
        match class_ref(tys.last()) {
            Some(id) => {
                assert(u.completes_list(path, tys) == (u.completes_list(path, pre) && !path.contains(id)
                    && u.completes(path, id) && u.expanded_list(path, pre).disjoint(u.expanded(path, id))));
                lemma_cache_only_saves_work(d, path, id);
                assert(d.expanded_list(path, tys) == d.expanded_list(path, pre).union(d.expanded(path, id)));
                assert(u.expanded_list(path, tys) == u.expanded_list(path, pre).union(u.expanded(path, id)));
            },
            None => {
                assert(d.expanded_list(path, tys) == d.expanded_list(path, pre));
                assert(u.expanded_list(path, tys) == u.expanded_list(path, pre));
            },
        }
    } else {
        assert(d.expanded_list(path, tys) == Set::<Symbol>::empty());
    }
}

proof fn lemma_resolve_transparent(d: Decls, path: Set<Symbol>, name: Symbol)
    requires
        d.cache_is_faithful(),
        d.uncached().completes(path, name),
        !path.contains(name),
    ensures
        d.resolve(path, name) == d.uncached().resolve(path, name),
    decreases d.pending(path), 0nat,
{
    let u = d.uncached();
    if d.cached.contains_key(name) {
        u.lemma_path_irrelevant(path, Set::empty(), name);
    } else if d.expandable(path, name) {
        d.classes.dom().lemma_set_insert_diff_decreases(path, name);
        let tys = d.classes[name].sc_extends@;
        let p2 = path.insert(name);
        assert(u.completes(path, name) == u.completes_list(p2, tys));
        lemma_parents_transparent(d, p2, tys);
    }
}

proof fn lemma_parents_transparent(d: Decls, path: Set<Symbol>, tys: Seq<DeclTy>)
    requires
        d.cache_is_faithful(),
        d.uncached().completes_list(path, tys),
    ensures
        d.resolve_parents(path, tys) == d.uncached().resolve_parents(path, tys),
    decreases d.pending(path), tys.len(),
{
    let u = d.uncached();
    if tys.len() > 0 {
        let pre = tys.drop_last();
        lemma_parents_transparent(d, path, pre);
        if let Some(id) = class_ref(tys.last()) {
            lemma_resolve_transparent(d, path, id);
        }
    }
}

proof fn lemma_folded_complete_alone(d: Decls, path: Set<Symbol>, name: Symbol, x: Symbol)
    requires
        d.uncached().completes(path, name),
        !path.contains(name),
        d.expanded(path, name).contains(x),
    ensures
        d.uncached().completes(Set::empty(), x),
    decreases d.pending(path), 0nat,
{
    let u = d.uncached();
    d.classes.dom().lemma_set_insert_diff_decreases(path, name);
    let tys = d.classes[name].sc_extends@;
    let p2 = path.insert(name);
    assert(d.expanded(path, name) == d.expanded_list(p2, tys).insert(name));
    assert(u.completes(path, name) == u.completes_list(p2, tys));
    if x == name {
        u.lemma_path_irrelevant(path, Set::empty(), name);
    } else {
        lemma_list_folded_complete_alone(d, p2, tys, x);
    }
}

proof fn lemma_list_folded_complete_alone(d: Decls, path: Set<Symbol>, tys: Seq<DeclTy>, x: Symbol)
    requires
        d.uncached().completes_list(path, tys),
        d.expanded_list(path, tys).contains(x),
    ensures
        d.uncached().completes(Set::empty(), x),
    decreases d.pending(path), tys.len(),
{
    let u = d.uncached();
    let pre = tys.drop_last();
    match class_ref(tys.last()) {
        Some(id) => {
            assert(d.expanded_list(path, tys) == d.expanded_list(path, pre).union(d.expanded(path, id)));
            if d.expanded_list(path, pre).contains(x) {
                lemma_list_folded_complete_alone(d, path, pre, x);
            } else {
                lemma_folded_complete_alone(d, path, id, x);
            }
        },
        None => {
            assert(d.expanded_list(path, tys) == d.expanded_list(path, pre));
            lemma_list_folded_complete_alone(d, path, pre, x);
        },
    }
}

/// Caching is transparent. When every cached class is what folding its
/// declaration from scratch gives, and the query for `name` runs to the end
/// with nothing cached: it runs to the end with the cache too, answers what
/// folding from scratch answers, and each class it folds on the way can be
/// folded from scratch and comes out the same. So the cache, with those
/// classes added, again holds only what folding from scratch gives.
pub proof fn lemma_cache_is_transparent(d: Decls, name: Symbol)
    requires
        d.classes.dom().finite(),
        d.cache_is_faithful(),
        d.uncached().completes(Set::empty(), name),
    ensures
        d.completes(Set::empty(), name),
        d.resolve(Set::empty(), name) == d.uncached().resolve(Set::empty(), name),
        forall|x: Symbol| #[trigger]
            d.expanded(Set::empty(), name).contains(x) ==> d.uncached().completes(Set::empty(), x)
                && d.resolve(Set::empty(), x) == d.uncached().resolve(Set::empty(), x),
{
    lemma_cache_only_saves_work(d, Set::empty(), name);
    lemma_resolve_transparent(d, Set::empty(), name);
    assert forall|x: Symbol| #[trigger] d.expanded(Set::empty(), name).contains(x) implies d.uncached().completes(
        Set::empty(),
        x,
    ) && d.resolve(Set::empty(), x) == d.uncached().resolve(Set::empty(), x) by {
        lemma_folded_complete_alone(d, Set::empty(), name, x);
        lemma_resolve_transparent(d, Set::empty(), x);
    }
}

} // verus!
