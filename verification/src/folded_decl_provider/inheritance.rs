//! What a folded class takes over from each of its parents.
use vstd::prelude::*;

use crate::decl_defs::{class_ref, DeclTy, FoldedClassView, FoldedElement, ShallowClass, ShallowMethod, SubstContext};
use crate::folded_decl_provider::fold::{add_declared_methods, fold_class, implements};
use crate::folded_decl_provider::inherit::{inherited_methods, inherited_substs, merge_substs, parent_substs};
use crate::pos::Symbol;

verus! {

proof fn lemma_implements_takes_ancestor(
    tys: Seq<DeclTy>,
    ps: Map<Symbol, FoldedClassView>,
    j: int,
    id: Symbol,
    k: Symbol,
)
    requires
        0 <= j < tys.len(),
        class_ref(tys[j]) == Some(id),
        ps.contains_key(id),
        ps[id].ancestors.contains_key(k),
        k != id,
        forall|i: int|
            #![trigger tys[i]]
            j < i < tys.len() ==> match class_ref(tys[i]) {
                Some(other) => other != k && (ps.contains_key(other) ==> !ps[other].ancestors.contains_key(k)),
                None => true,
            },
    ensures
        implements(tys, ps).contains_key(k),
        implements(tys, ps)[k] == ps[id].ancestors[k],
    decreases tys.len(),
{
    let pre = tys.drop_last();
    if j < tys.len() - 1 {
        assert forall|i: int| #![trigger pre[i]] j < i < pre.len() implies match class_ref(pre[i]) {
            Some(other) => other != k && (ps.contains_key(other) ==> !ps[other].ancestors.contains_key(k)),
            None => true,
        } by {
            assert(pre[i] == tys[i]);
        }
        assert(pre[j] == tys[j]);
        lemma_implements_takes_ancestor(pre, ps, j, id, k);
        let last = tys[tys.len() - 1];
        assert(tys.last() == last);
    } else {
        assert(tys.last() == tys[j]);
    }
}

proof fn lemma_implements_names_parent(tys: Seq<DeclTy>, ps: Map<Symbol, FoldedClassView>, j: int, id: Symbol)
    requires
        0 <= j < tys.len(),
        class_ref(tys[j]) == Some(id),
        forall|i: int|
            #![trigger tys[i]]
            j < i < tys.len() ==> match class_ref(tys[i]) {
                Some(other) => other != id && (ps.contains_key(other) ==> !ps[other].ancestors.contains_key(id)),
                None => true,
            },
    ensures
        implements(tys, ps).contains_key(id),
        implements(tys, ps)[id] == tys[j],
    decreases tys.len(),
{
    let pre = tys.drop_last();
    if j < tys.len() - 1 {
        assert forall|i: int| #![trigger pre[i]] j < i < pre.len() implies match class_ref(pre[i]) {
            Some(other) => other != id && (ps.contains_key(other) ==> !ps[other].ancestors.contains_key(id)),
            None => true,
        } by {
            assert(pre[i] == tys[i]);
        }
        assert(pre[j] == tys[j]);
        lemma_implements_names_parent(pre, ps, j, id);
        assert(tys.last() == tys[tys.len() - 1]);
    } else {
        assert(tys.last() == tys[j]);
    }
}

/// The substitution contexts a parent `other` found among `ps` brings to a
/// class named `sc_name`: its own, and one for itself.
pub open spec fn brings_subst(ps: Map<Symbol, FoldedClassView>, other: Symbol, k: Symbol) -> bool {
    ps.contains_key(other) && (other == k || ps[other].substs.contains_key(k))
}

proof fn lemma_substs_take_context(
    sc_name: Symbol,
    tys: Seq<DeclTy>,
    ps: Map<Symbol, FoldedClassView>,
    j: int,
    id: Symbol,
    k: Symbol,
    ctx: SubstContext,
)
    requires
        0 <= j < tys.len(),
        class_ref(tys[j]) == Some(id),
        ps.contains_key(id),
        ctx == parent_substs(sc_name, id, ps[id])[k],
        parent_substs(sc_name, id, ps[id]).contains_key(k),
        !ctx.sc_from_req_extends,
        forall|i: int|
            #![trigger tys[i]]
            j < i < tys.len() ==> match class_ref(tys[i]) {
                Some(other) => !brings_subst(ps, other, k),
                None => true,
            },
    ensures
        inherited_substs(sc_name, tys, ps).contains_key(k),
        inherited_substs(sc_name, tys, ps)[k] == ctx,
    decreases tys.len(),
{
    let pre = tys.drop_last();
    if j < tys.len() - 1 {
        assert forall|i: int| #![trigger pre[i]] j < i < pre.len() implies match class_ref(pre[i]) {
            Some(other) => !brings_subst(ps, other, k),
            None => true,
        } by {
            assert(pre[i] == tys[i]);
        }
        assert(pre[j] == tys[j]);
        lemma_substs_take_context(sc_name, pre, ps, j, id, k, ctx);
        assert(tys.last() == tys[tys.len() - 1]);
        if let Some(other) = class_ref(tys.last()) {
            if ps.contains_key(other) {
                assert(!parent_substs(sc_name, other, ps[other]).contains_key(k));
            }
        }
    } else {
        assert(tys.last() == tys[j]);
    }
}

proof fn lemma_methods_take_method(
    tys: Seq<DeclTy>,
    ps: Map<Symbol, FoldedClassView>,
    j: int,
    id: Symbol,
    k: Symbol,
)
    requires
        0 <= j < tys.len(),
        class_ref(tys[j]) == Some(id),
        ps.contains_key(id),
        ps[id].methods.contains_key(k),
        forall|i: int|
            #![trigger tys[i]]
            j < i < tys.len() ==> match class_ref(tys[i]) {
                Some(other) => ps.contains_key(other) ==> !ps[other].methods.contains_key(k),
                None => true,
            },
    ensures
        inherited_methods(tys, ps).contains_key(k),
        inherited_methods(tys, ps)[k] == ps[id].methods[k],
    decreases tys.len(),
{
    let pre = tys.drop_last();
    if j < tys.len() - 1 {
        assert forall|i: int| #![trigger pre[i]] j < i < pre.len() implies match class_ref(pre[i]) {
            Some(other) => ps.contains_key(other) ==> !ps[other].methods.contains_key(k),
            None => true,
        } by {
            assert(pre[i] == tys[i]);
        }
        assert(pre[j] == tys[j]);
        lemma_methods_take_method(pre, ps, j, id, k);
        assert(tys.last() == tys[tys.len() - 1]);
    } else {
        assert(tys.last() == tys[j]);
    }
}

proof fn lemma_declared_keeps_others(
    base: Map<Symbol, FoldedElement>,
    origin: Symbol,
    ms: Seq<ShallowMethod>,
    k: Symbol,
)
    requires
        forall|i: int| 0 <= i < ms.len() ==> #[trigger] ms[i].sm_name.id != k,
    ensures
        add_declared_methods(base, origin, ms).contains_key(k) == base.contains_key(k),
        add_declared_methods(base, origin, ms)[k] == base[k],
    decreases ms.len(),
{
    if ms.len() > 0 {
        let pre = ms.drop_last();
        assert forall|i: int| 0 <= i < pre.len() implies #[trigger] pre[i].sm_name.id != k by {
            assert(pre[i] == ms[i]);
        }
        lemma_declared_keeps_others(base, origin, pre, k);
        assert(ms.last() == ms[ms.len() - 1]);
    }
}

/// An ancestor that a folded class reaches through its `j`-th parent type
/// is recorded with the type that parent's folded class records for it, as
/// long as no later parent type names that ancestor or brings it too.
pub proof fn lemma_ancestor_taken_from_parent(
    sc: ShallowClass,
    parents: Map<Symbol, FoldedClassView>,
    j: int,
    k: Symbol,
)
    requires
        0 <= j < sc.sc_extends@.len(),
        class_ref(sc.sc_extends@[j]) matches Some(id) && parents.contains_key(id)
            && parents[id].ancestors.contains_key(k) && k != id,
        forall|i: int|
            #![trigger sc.sc_extends@[i]]
            j < i < sc.sc_extends@.len() ==> match class_ref(sc.sc_extends@[i]) {
                Some(other) => other != k && (parents.contains_key(other)
                    ==> !parents[other].ancestors.contains_key(k)),
                None => true,
            },
    ensures
        fold_class(sc, parents).ancestors.contains_key(k),
        fold_class(sc, parents).ancestors[k] == parents[class_ref(
            sc.sc_extends@[j],
        ).unwrap()].ancestors[k],
{
    lemma_implements_takes_ancestor(sc.sc_extends@, parents, j, class_ref(sc.sc_extends@[j]).unwrap(), k);
}

/// A class named by the `j`-th parent type is an ancestor recorded with that
/// type as written, as long as no later parent type names it or brings it.
pub proof fn lemma_parent_recorded_as_written(
    sc: ShallowClass,
    parents: Map<Symbol, FoldedClassView>,
    j: int,
)
    requires
        0 <= j < sc.sc_extends@.len(),
        class_ref(sc.sc_extends@[j]) is Some,
        forall|i: int|
            #![trigger sc.sc_extends@[i]]
            j < i < sc.sc_extends@.len() ==> match class_ref(sc.sc_extends@[i]) {
                Some(other) => other != class_ref(sc.sc_extends@[j]).unwrap() && (parents.contains_key(other)
                    ==> !parents[other].ancestors.contains_key(class_ref(sc.sc_extends@[j]).unwrap())),
                None => true,
            },
    ensures
        fold_class(sc, parents).ancestors.contains_key(class_ref(sc.sc_extends@[j]).unwrap()),
        fold_class(sc, parents).ancestors[class_ref(sc.sc_extends@[j]).unwrap()] == sc.sc_extends@[j],
{
    lemma_implements_names_parent(sc.sc_extends@, parents, j, class_ref(sc.sc_extends@[j]).unwrap());
}

/// A substitution context that the folded class of the `j`-th parent type
/// holds for an ancestor `k` is taken over unchanged (when it does not come
/// from a `require extends` clause), as long as no later parent brings a
/// context for `k`; the parent itself gets the context "named as a parent by
/// this class".
pub proof fn lemma_subst_context_taken_from_parent(
    sc: ShallowClass,
    parents: Map<Symbol, FoldedClassView>,
    j: int,
    k: Symbol,
)
    requires
        0 <= j < sc.sc_extends@.len(),
        class_ref(sc.sc_extends@[j]) matches Some(id) && parents.contains_key(id) && (k == id || (
            parents[id].substs.contains_key(k) && !parents[id].substs[k].sc_from_req_extends)),
        forall|i: int|
            #![trigger sc.sc_extends@[i]]
            j < i < sc.sc_extends@.len() ==> match class_ref(sc.sc_extends@[i]) {
                Some(other) => !brings_subst(parents, other, k),
                None => true,
            },
    ensures
        fold_class(sc, parents).substs.contains_key(k),
        fold_class(sc, parents).substs[k] == if k == class_ref(sc.sc_extends@[j]).unwrap() {
            SubstContext { sc_class_context: sc.sc_name.id, sc_from_req_extends: false }
        } else {
            parents[class_ref(sc.sc_extends@[j]).unwrap()].substs[k]
        },
{
    let id = class_ref(sc.sc_extends@[j]).unwrap();
    let ctx = parent_substs(sc.sc_name.id, id, parents[id])[k];
    lemma_substs_take_context(sc.sc_name.id, sc.sc_extends@, parents, j, id, k, ctx);
}

/// A method a class does not declare itself, found in the folded class of
/// its `j`-th parent type, is taken over unchanged (keeping the class it
/// was declared in), as long as no later parent's folded class has it too.
pub proof fn lemma_method_taken_from_parent(
    sc: ShallowClass,
    parents: Map<Symbol, FoldedClassView>,
    j: int,
    k: Symbol,
)
    requires
        0 <= j < sc.sc_extends@.len(),
        class_ref(sc.sc_extends@[j]) matches Some(id) && parents.contains_key(id)
            && parents[id].methods.contains_key(k),
        forall|i: int| 0 <= i < sc.sc_methods@.len() ==> #[trigger] sc.sc_methods@[i].sm_name.id != k,
        forall|i: int|
            #![trigger sc.sc_extends@[i]]
            j < i < sc.sc_extends@.len() ==> match class_ref(sc.sc_extends@[i]) {
                Some(other) => parents.contains_key(other) ==> !parents[other].methods.contains_key(k),
                None => true,
            },
    ensures
        fold_class(sc, parents).methods.contains_key(k),
        fold_class(sc, parents).methods[k] == parents[class_ref(sc.sc_extends@[j]).unwrap()].methods[k],
{
    let id = class_ref(sc.sc_extends@[j]).unwrap();
    lemma_methods_take_method(sc.sc_extends@, parents, j, id, k);
    lemma_declared_keeps_others(inherited_methods(sc.sc_extends@, parents), sc.sc_name.id, sc.sc_methods@, k);
}

/// The parent named `other` is found among `ps` and brings a plain context
/// for `k` (not one from a `require extends` clause): a parent always brings
/// one for itself.
pub open spec fn brings_plain_subst(ps: Map<Symbol, FoldedClassView>, other: Symbol, k: Symbol) -> bool {
    ps.contains_key(other) && (other == k || (ps[other].substs.contains_key(k)
        && !ps[other].substs[k].sc_from_req_extends))
}

/// The `j`-th parent type names a parent that brings a plain context for `k`.
pub open spec fn plain_at(tys: Seq<DeclTy>, ps: Map<Symbol, FoldedClassView>, j: int, k: Symbol) -> bool {
    class_ref(tys[j]) matches Some(id) && brings_plain_subst(ps, id, k)
}

proof fn lemma_substs_keep_plain(sc_name: Symbol, tys: Seq<DeclTy>, ps: Map<Symbol, FoldedClassView>, k: Symbol)
    ensures
        (exists|j: int|
            0 <= j < tys.len() && #[trigger] plain_at(tys, ps, j, k))
            ==> inherited_substs(sc_name, tys, ps).contains_key(k) && !inherited_substs(
            sc_name,
            tys,
            ps,
        )[k].sc_from_req_extends,
    decreases tys.len(),
{
    if tys.len() > 0 {
        let pre = tys.drop_last();
        lemma_substs_keep_plain(sc_name, pre, ps, k);
        if exists|j: int|
            0 <= j < tys.len() && #[trigger] plain_at(tys, ps, j, k) {
            let j = choose|j: int|
                0 <= j < tys.len() && #[trigger] plain_at(tys, ps, j, k);
            assert(tys.last() == tys[tys.len() - 1]);
            if j < tys.len() - 1 {
                assert(pre[j] == tys[j]);
                assert(plain_at(pre, ps, j, k));
            }
        }
    }
}

/// A class reached through a parent that brings a plain substitution context
/// for it (not one from a `require extends` clause) ends up with a plain
/// context in the folded class: a plain context is never replaced by one
/// from a `require extends` clause.
pub proof fn lemma_plain_subst_context_kept(sc: ShallowClass, parents: Map<Symbol, FoldedClassView>, j: int, k: Symbol)
    requires
        0 <= j < sc.sc_extends@.len(),
        class_ref(sc.sc_extends@[j]) matches Some(id) && brings_plain_subst(parents, id, k),
    ensures
        fold_class(sc, parents).substs.contains_key(k),
        !fold_class(sc, parents).substs[k].sc_from_req_extends,
{
    lemma_substs_keep_plain(sc.sc_name.id, sc.sc_extends@, parents, k);
    assert(plain_at(sc.sc_extends@, parents, j, k));
}

} // verus!
