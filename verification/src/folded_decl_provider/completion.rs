//! When a query for a folded class runs to the end.
use vstd::prelude::*;

use crate::decl_defs::{class_ref, DeclTy};
use crate::folded_decl_provider::fold::Decls;
use crate::pos::Symbol;

verus! {

/// A class that a query folds when it meets it: declared and not cached.
pub open spec fn unfolded(d: Decls, x: Symbol) -> bool {
    !d.cached.contains_key(x) && d.classes.contains_key(x)
}

/// The `j`-th parent type of the unfolded class `x` names class `y`.
pub open spec fn names_parent(d: Decls, x: Symbol, j: int, y: Symbol) -> bool {
    &&& unfolded(d, x)
    &&& 0 <= j < d.classes[x].sc_extends@.len()
    &&& class_ref(d.classes[x].sc_extends@[j]) == Some(y)
}

/// Every unfolded class ranks above each unfolded class it names as a parent.
pub open spec fn ranked(d: Decls, rank: spec_fn(Symbol) -> nat) -> bool {
    forall|x: Symbol, j: int, y: Symbol| #[trigger]
        names_parent(d, x, j, y) && unfolded(d, y) ==> rank(y) < rank(x)
}

/// No unfolded class is named as a parent twice: not by two classes, and
/// not twice by one.
pub open spec fn named_once(d: Decls) -> bool {
    forall|x1: Symbol, j1: int, x2: Symbol, j2: int, y: Symbol|
        #[trigger] names_parent(d, x1, j1, y) && #[trigger] names_parent(d, x2, j2, y) && unfolded(d, y)
            ==> x1 == x2 && j1 == j2
}

proof fn lemma_list_member(d: Decls, path: Set<Symbol>, tys: Seq<DeclTy>, z: Symbol) -> (k: int)
    requires
        d.expanded_list(path, tys).contains(z),
    ensures
        0 <= k < tys.len(),
        class_ref(tys[k]) is Some,
        d.expanded(path, class_ref(tys[k]).unwrap()).contains(z),
    decreases tys.len(),
{
    if tys.len() == 0 {
        assert(d.expanded_list(path, tys) == Set::<Symbol>::empty());
        0
    } else {
        let pre = tys.drop_last();
        match class_ref(tys.last()) {
            Some(id) => {
                assert(d.expanded_list(path, tys) == d.expanded_list(path, pre).union(d.expanded(path, id)));
                if d.expanded(path, id).contains(z) {
                    assert(tys.last() == tys[tys.len() - 1]);
                    tys.len() - 1
                } else {
                    let k = lemma_list_member(d, path, pre, z);
                    assert(pre[k] == tys[k]);
                    k
                }
            },
            None => {
                assert(d.expanded_list(path, tys) == d.expanded_list(path, pre));
                let k = lemma_list_member(d, path, pre, z);
                assert(pre[k] == tys[k]);
                k
            },
        }
    }
}

proof fn lemma_list_includes(d: Decls, path: Set<Symbol>, tys: Seq<DeclTy>, k: int)
    requires
        0 <= k < tys.len(),
        class_ref(tys[k]) is Some,
    ensures
        d.expanded(path, class_ref(tys[k]).unwrap()).subset_of(d.expanded_list(path, tys)),
    decreases tys.len(),
{
    let pre = tys.drop_last();
    match class_ref(tys.last()) {
        Some(id) => {
            assert(d.expanded_list(path, tys) == d.expanded_list(path, pre).union(d.expanded(path, id)));
        },
        None => {
            assert(d.expanded_list(path, tys) == d.expanded_list(path, pre));
        },
    }
    if k < tys.len() - 1 {
        assert(pre[k] == tys[k]);
        lemma_list_includes(d, path, pre, k);
    } else {
        assert(tys.last() == tys[k]);
    }
}

/// Every class a query for `y` folds is unfolded and ranks no higher than
/// `y`; each one other than `y` is named as a parent by another one.
proof fn lemma_expanded_shape(d: Decls, rank: spec_fn(Symbol) -> nat, path: Set<Symbol>, y: Symbol, z: Symbol)
    requires
        ranked(d, rank),
        d.expanded(path, y).contains(z),
    ensures
        unfolded(d, y),
        unfolded(d, z),
        rank(z) <= rank(y),
        z != y ==> rank(z) < rank(y),
        z != y ==> exists|w: Symbol, j: int|
            #[trigger] names_parent(d, w, j, z) && d.expanded(path, y).contains(w),
    decreases d.pending(path), 0nat,
{
    assert(d.expandable(path, y));
    d.classes.dom().lemma_set_insert_diff_decreases(path, y);
    let p2 = path.insert(y);
    let tys = d.classes[y].sc_extends@;
    assert(d.expanded(path, y) == d.expanded_list(p2, tys).insert(y));
    if z != y {
        let k = lemma_list_member(d, p2, tys, z);
        let id = class_ref(tys[k]).unwrap();
        lemma_list_includes(d, p2, tys, k);
        assert(d.expandable(p2, id));
        assert(names_parent(d, y, k, id));
        assert(rank(id) < rank(y));
        lemma_expanded_shape(d, rank, p2, id, z);
        if z == id {
            assert(names_parent(d, y, k, z) && d.expanded(path, y).contains(y));
        } else {
            let (w, j) = choose|w: Symbol, j: int|
                #[trigger] names_parent(d, w, j, z) && d.expanded(p2, id).contains(w);
            assert(d.expanded(path, y).contains(w));
        }
    }
}

/// Two classes named by different parent types of one class are folded
/// apart: no class is folded for both.
proof fn lemma_siblings_apart(
    d: Decls,
    rank: spec_fn(Symbol) -> nat,
    path: Set<Symbol>,
    x: Symbol,
    j: int,
    y1: Symbol,
    k: int,
    y2: Symbol,
    z: Symbol,
)
    requires
        ranked(d, rank),
        named_once(d),
        names_parent(d, x, j, y1),
        names_parent(d, x, k, y2),
        j != k,
    ensures
        !(d.expanded(path, y1).contains(z) && d.expanded(path, y2).contains(z)),
    decreases rank(x) - rank(z),
{
    if !(d.expanded(path, y1).contains(z) && d.expanded(path, y2).contains(z)) {
        return;
    }
    lemma_expanded_shape(d, rank, path, y1, z);
    lemma_expanded_shape(d, rank, path, y2, z);
    assert(rank(y1) < rank(x));
    if y1 == y2 {
        assert(names_parent(d, x, j, y1) && names_parent(d, x, k, y1));
    } else if z == y1 {
        let (w, i) = choose|w: Symbol, i: int|
            #[trigger] names_parent(d, w, i, z) && d.expanded(path, y2).contains(w);
        assert(names_parent(d, x, j, z) && names_parent(d, w, i, z));
        lemma_expanded_shape(d, rank, path, y2, x);
    } else if z == y2 {
        let (w, i) = choose|w: Symbol, i: int|
            #[trigger] names_parent(d, w, i, z) && d.expanded(path, y1).contains(w);
        assert(names_parent(d, x, k, z) && names_parent(d, w, i, z));
        lemma_expanded_shape(d, rank, path, y1, x);
    } else {
        let (w1, i1) = choose|w: Symbol, i: int|
            #[trigger] names_parent(d, w, i, z) && d.expanded(path, y1).contains(w);
        let (w2, i2) = choose|w: Symbol, i: int|
            #[trigger] names_parent(d, w, i, z) && d.expanded(path, y2).contains(w);
        assert(names_parent(d, w1, i1, z) && names_parent(d, w2, i2, z));
        assert(w1 == w2);
        assert(rank(z) < rank(w1));
        lemma_expanded_shape(d, rank, path, y1, w1);
        lemma_siblings_apart(d, rank, path, x, j, y1, k, y2, w1);
    }
}

proof fn lemma_completes_at(d: Decls, rank: spec_fn(Symbol) -> nat, path: Set<Symbol>, x: Symbol)
    requires
        d.classes.dom().finite(),
        ranked(d, rank),
        named_once(d),
        !path.contains(x),
        forall|p: Symbol| #[trigger] path.contains(p) ==> unfolded(d, p) && (unfolded(d, x) ==> rank(x) < rank(p)),
    ensures
        d.completes(path, x),
    decreases rank(x), d.classes[x].sc_extends@.len() + 1,
{
    if d.expandable(path, x) {
        d.classes.dom().lemma_set_insert_diff_decreases(path, x);
        let tys = d.classes[x].sc_extends@;
        let p2 = path.insert(x);
        lemma_completes_parents(d, rank, p2, x, tys.len() as int);
        assert(tys.take(tys.len() as int) =~= tys);
        assert(d.completes(path, x) == d.completes_list(p2, tys));
    }
}

proof fn lemma_completes_parents(d: Decls, rank: spec_fn(Symbol) -> nat, path: Set<Symbol>, x: Symbol, i: int)
    requires
        d.classes.dom().finite(),
        ranked(d, rank),
        named_once(d),
        unfolded(d, x),
        0 <= i <= d.classes[x].sc_extends@.len(),
        path.contains(x),
        forall|p: Symbol| #[trigger] path.contains(p) ==> unfolded(d, p) && rank(x) <= rank(p),
    ensures
        d.completes_list(path, d.classes[x].sc_extends@.take(i)),
    decreases rank(x), i,
{
    let tys = d.classes[x].sc_extends@;
    let cur = tys.take(i);
    if i == 0 {
        assert(cur.len() == 0);
    } else {
        let pre = tys.take(i - 1);
        assert(cur.drop_last() =~= pre);
        assert(cur.last() == tys[i - 1]);
        lemma_completes_parents(d, rank, path, x, i - 1);
        if let Some(id) = class_ref(tys[i - 1]) {
            assert(names_parent(d, x, i - 1, id));
            if unfolded(d, id) {
                assert(rank(id) < rank(x));
                lemma_completes_at(d, rank, path, id);
            } else {
                assert(!d.expandable(path, id));
                assert(d.completes(path, id));
            }
            assert forall|z: Symbol| #[trigger] d.expanded_list(path, pre).contains(z) implies !d.expanded(
                path,
                id,
            ).contains(z) by {
                let k = lemma_list_member(d, path, pre, z);
                let id2 = class_ref(pre[k]).unwrap();
                assert(pre[k] == tys[k]);
                assert(names_parent(d, x, k, id2));
                lemma_siblings_apart(d, rank, path, x, k, id2, i - 1, id, z);
            }
            assert(d.completes_list(path, cur) == (d.completes_list(path, pre) && !path.contains(id)
                && d.completes(path, id) && d.expanded_list(path, pre).disjoint(d.expanded(path, id))));
        } else {
            assert(d.completes_list(path, cur) == d.completes_list(path, pre));
        }
    }
}

/// A query runs to the end whenever the classes it may have to fold form a
/// forest: there is a rank under which each unfolded class ranks above the
/// unfolded classes it names as parents, and no unfolded class is named as
/// a parent twice. Parents that are cached or declared nowhere, and
/// non-class parent types, never stop a query.
pub proof fn lemma_forest_completes(d: Decls, rank: spec_fn(Symbol) -> nat, name: Symbol)
    requires
        d.classes.dom().finite(),
        ranked(d, rank),
        named_once(d),
    ensures
        d.completes(Set::empty(), name),
{
    lemma_completes_at(d, rank, Set::empty(), name);
}

proof fn lemma_parent_runs(d: Decls, path: Set<Symbol>, tys: Seq<DeclTy>, k: int)
    requires
        d.completes_list(path, tys),
        0 <= k < tys.len(),
        class_ref(tys[k]) is Some,
    ensures
        !path.contains(class_ref(tys[k]).unwrap()),
        d.completes(path, class_ref(tys[k]).unwrap()),
{
    d.lemma_list_prefix(path, tys, k + 1);
    let cur = tys.take(k + 1);
    assert(cur.last() == tys[k]);
    assert(cur.drop_last() =~= tys.take(k));
}

proof fn lemma_parents_apart(d: Decls, path: Set<Symbol>, tys: Seq<DeclTy>, k1: int, k2: int)
    requires
        d.completes_list(path, tys),
        0 <= k1 < k2 < tys.len(),
        class_ref(tys[k1]) is Some,
        class_ref(tys[k2]) is Some,
    ensures
        d.expanded(path, class_ref(tys[k1]).unwrap()).disjoint(
            d.expanded(path, class_ref(tys[k2]).unwrap()),
        ),
{
    d.lemma_list_prefix(path, tys, k2 + 1);
    let cur = tys.take(k2 + 1);
    let pre = tys.take(k2);
    assert(cur.last() == tys[k2]);
    assert(cur.drop_last() =~= pre);
    assert(pre[k1] == tys[k1]);
    lemma_list_includes(d, path, pre, k1);
}

/// What a query that runs to the end folds forms a tree: an unfolded class
/// named as a parent by a folded class is folded too, is neither on the
/// path nor the class asked for, and is named only once among them.
proof fn lemma_folds_tree(d: Decls, path: Set<Symbol>, x: Symbol)
    requires
        d.completes(path, x),
    ensures
        forall|w: Symbol, i: int, z: Symbol|
            #![trigger d.expanded(path, x).contains(w), names_parent(d, w, i, z)]
            d.expanded(path, x).contains(w) && names_parent(d, w, i, z) && unfolded(d, z) ==> {
                &&& d.expanded(path, x).contains(z)
                &&& z != x
                &&& !path.contains(z)
            },
        forall|w1: Symbol, i1: int, w2: Symbol, i2: int, z: Symbol|
            #![trigger d.expanded(path, x).contains(w1), d.expanded(path, x).contains(w2), names_parent(d, w1, i1, z), names_parent(d, w2, i2, z)]
            d.expanded(path, x).contains(w1) && d.expanded(path, x).contains(w2) && names_parent(
                d,
                w1,
                i1,
                z,
            ) && names_parent(d, w2, i2, z) && unfolded(d, z) ==> w1 == w2 && i1 == i2,
    decreases d.pending(path), 0nat,
{
    if !d.expandable(path, x) {
        assert(d.expanded(path, x) == Set::<Symbol>::empty());
        return;
    }
    d.classes.dom().lemma_set_insert_diff_decreases(path, x);
    let p2 = path.insert(x);
    let tys = d.classes[x].sc_extends@;
    let e = d.expanded(path, x);
    assert(e == d.expanded_list(p2, tys).insert(x));
    assert(d.completes(path, x) == d.completes_list(p2, tys));
    // Which parent type of `x` a folded class other than `x` comes through.
    assert forall|w: Symbol| #[trigger] e.contains(w) && w != x implies exists|k: int|
        0 <= k < tys.len() && class_ref(tys[k]) is Some && d.expanded(p2, class_ref(tys[k]).unwrap()).contains(w)
    by {
        let k = lemma_list_member(d, p2, tys, w);
    }
    assert forall|w: Symbol, i: int, z: Symbol|
        #![trigger e.contains(w), names_parent(d, w, i, z)]
        e.contains(w) && names_parent(d, w, i, z) && unfolded(d, z) implies {
            &&& e.contains(z)
            &&& z != x
            &&& !path.contains(z)
        } by {
        if w == x {
            lemma_parent_runs(d, p2, tys, i);
            assert(d.expandable(p2, z));
            assert(d.expanded(p2, z).contains(z)) by {
                assert(d.expanded(p2, z) == d.expanded_list(p2.insert(z), d.classes[z].sc_extends@).insert(z));
            }
            lemma_list_includes(d, p2, tys, i);
        } else {
            let k = choose|k: int|
                0 <= k < tys.len() && class_ref(tys[k]) is Some && d.expanded(
                    p2,
                    class_ref(tys[k]).unwrap(),
                ).contains(w);
            let id = class_ref(tys[k]).unwrap();
            lemma_parent_runs(d, p2, tys, k);
            lemma_list_includes(d, p2, tys, k);
            lemma_folds_tree(d, p2, id);
            assert(d.expanded(p2, id).contains(z));
        }
    }
    assert forall|w1: Symbol, i1: int, w2: Symbol, i2: int, z: Symbol|
        #![trigger e.contains(w1), e.contains(w2), names_parent(d, w1, i1, z), names_parent(d, w2, i2, z)]
        e.contains(w1) && e.contains(w2) && names_parent(d, w1, i1, z) && names_parent(d, w2, i2, z)
            && unfolded(d, z) implies w1 == w2 && i1 == i2 by {
        // The class named at position `i` of `x` is folded through that position.
        if w1 == x || w2 == x {
            let (wa, ia, wb, ib) = if w1 == x { (w1, i1, w2, i2) } else { (w2, i2, w1, i1) };
            lemma_parent_runs(d, p2, tys, ia);
            assert(d.expandable(p2, z));
            assert(d.expanded(p2, z).contains(z)) by {
                assert(d.expanded(p2, z) == d.expanded_list(p2.insert(z), d.classes[z].sc_extends@).insert(z));
            }
            if wb == x {
                if ia < ib {
                    lemma_parents_apart(d, p2, tys, ia, ib);
                } else if ib < ia {
                    lemma_parents_apart(d, p2, tys, ib, ia);
                }
            } else {
                let k = choose|k: int|
                    0 <= k < tys.len() && class_ref(tys[k]) is Some && d.expanded(
                        p2,
                        class_ref(tys[k]).unwrap(),
                    ).contains(wb);
                let id = class_ref(tys[k]).unwrap();
                lemma_parent_runs(d, p2, tys, k);
                lemma_list_includes(d, p2, tys, k);
                lemma_folds_tree(d, p2, id);
                assert(d.expanded(p2, id).contains(z) && z != id);
                if k < ia {
                    lemma_parents_apart(d, p2, tys, k, ia);
                } else if ia < k {
                    lemma_parents_apart(d, p2, tys, ia, k);
                }
            }
        } else {
            let k1 = choose|k: int|
                0 <= k < tys.len() && class_ref(tys[k]) is Some && d.expanded(
                    p2,
                    class_ref(tys[k]).unwrap(),
                ).contains(w1);
            let k2 = choose|k: int|
                0 <= k < tys.len() && class_ref(tys[k]) is Some && d.expanded(
                    p2,
                    class_ref(tys[k]).unwrap(),
                ).contains(w2);
            let id1 = class_ref(tys[k1]).unwrap();
            let id2 = class_ref(tys[k2]).unwrap();
            lemma_parent_runs(d, p2, tys, k1);
            lemma_parent_runs(d, p2, tys, k2);
            lemma_list_includes(d, p2, tys, k1);
            lemma_list_includes(d, p2, tys, k2);
            lemma_folds_tree(d, p2, id1);
            lemma_folds_tree(d, p2, id2);
            assert(d.expanded(p2, id1).contains(z));
            assert(d.expanded(p2, id2).contains(z));
            if k1 < k2 {
                lemma_parents_apart(d, p2, tys, k1, k2);
            } else if k2 < k1 {
                lemma_parents_apart(d, p2, tys, k2, k1);
            }
        }
    }
}

/// What a query that runs to the end folds forms a tree: each unfolded class
/// named as a parent by a class it folds is folded too and is not the class
/// asked for (no class inherits from itself), and no unfolded class is named
/// as a parent twice among the classes it folds (no shared ancestor that is
/// not cached). So a query that would meet a class twice does not run to the
/// end, and `can_fold` answers `false` for it.
pub proof fn lemma_completed_query_folds_a_tree(d: Decls, name: Symbol)
    requires
        d.completes(Set::empty(), name),
    ensures
        forall|w: Symbol, i: int, z: Symbol|
            #![trigger d.expanded(Set::empty(), name).contains(w), names_parent(d, w, i, z)]
            d.expanded(Set::empty(), name).contains(w) && names_parent(d, w, i, z) && unfolded(d, z)
                ==> d.expanded(Set::empty(), name).contains(z) && z != name,
        forall|w1: Symbol, i1: int, w2: Symbol, i2: int, z: Symbol|
            #![trigger d.expanded(Set::empty(), name).contains(w1), d.expanded(Set::empty(), name).contains(w2), names_parent(d, w1, i1, z), names_parent(d, w2, i2, z)]
            d.expanded(Set::empty(), name).contains(w1) && d.expanded(Set::empty(), name).contains(w2)
                && names_parent(d, w1, i1, z) && names_parent(d, w2, i2, z) && unfolded(d, z) ==> w1
                == w2 && i1 == i2,
{
    lemma_folds_tree(d, Set::empty(), name);
}

} // verus!
