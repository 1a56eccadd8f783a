//! What folding a class yields, and which queries can be answered.
use vstd::prelude::*;

use crate::decl_defs::{
    class_ref, DeclTy, FoldedClassView, FoldedElement, ShallowClass, ShallowMethod,
};
use crate::folded_decl_provider::inherit::{inherited_methods, inherited_substs};
use crate::pos::Symbol;

verus! {

/// The ancestors a class records for its parent types `tys`: each parent
/// class under its own name with the type as written, after the ancestors of
/// that parent where its folded declaration is known.
pub open spec fn implements(tys: Seq<DeclTy>, parents: Map<Symbol, FoldedClassView>) -> Map<
    Symbol,
    DeclTy,
>
    decreases tys.len(),
{
    if tys.len() == 0 {
        Map::empty()
    } else {
        let acc = implements(tys.drop_last(), parents);
        match class_ref(tys.last()) {
            Some(id) => if parents.contains_key(id) {
                acc.union_prefer_right(parents[id].ancestors).insert(id, tys.last())
            } else {
                acc.insert(id, tys.last())
            },
            None => acc,
        }
    }
}

/// `base` with each method of `ms` entered as declared in class `origin`.
pub open spec fn add_declared_methods(
    base: Map<Symbol, FoldedElement>,
    origin: Symbol,
    ms: Seq<ShallowMethod>,
) -> Map<Symbol, FoldedElement>
    decreases ms.len(),
{
    if ms.len() == 0 {
        base
    } else {
        add_declared_methods(base, origin, ms.drop_last()).insert(
            ms.last().sm_name.id,
            FoldedElement { elt_origin: origin },
        )
    }
}

/// The folded class for declaration `sc`, given the folded classes of the
/// parents that could be found.
pub open spec fn fold_class(sc: ShallowClass, parents: Map<Symbol, FoldedClassView>) -> FoldedClassView {
    FoldedClassView {
        name: sc.sc_name.id,
        pos: sc.sc_name.pos,
        substs: inherited_substs(sc.sc_name.id, sc.sc_extends@, parents),
        ancestors: implements(sc.sc_extends@, parents),
        methods: add_declared_methods(
            inherited_methods(sc.sc_extends@, parents),
            sc.sc_name.id,
            sc.sc_methods@,
        ),
    }
}

/// The declarations a query runs against: the folded classes already cached
/// when it starts, and the class declarations as written.
pub struct Decls {
    pub cached: Map<Symbol, FoldedClassView>,
    pub classes: Map<Symbol, ShallowClass>,
}

impl Decls {
    /// The same declarations with nothing cached.
    pub open spec fn uncached(self) -> Decls {
        Decls { cached: Map::empty(), classes: self.classes }
    }

    /// Every cached class can be folded from the declarations alone, and is
    /// what that folding gives.
    pub open spec fn cache_is_faithful(self) -> bool {
        forall|k: Symbol| #[trigger]
            self.cached.contains_key(k) ==> self.uncached().completes(Set::empty(), k) && Some(
                self.cached[k],
            ) == self.uncached().resolve(Set::empty(), k)
    }

    /// How many declared classes are not on `path`.
    pub open spec fn pending(self, path: Set<Symbol>) -> nat {
        self.classes.dom().difference(path).len()
    }

    /// Whether a query for `name`, reached through the classes of `path`,
    /// folds the declaration of `name` (rather than answering from the cache
    /// or finding nothing).
    pub open spec fn expandable(self, path: Set<Symbol>, name: Symbol) -> bool {
        &&& !self.cached.contains_key(name)
        &&& self.classes.contains_key(name)
        &&& !path.contains(name)
        &&& self.classes.dom().finite()
    }

    /// The folded class a query for `name` yields, reached through the
    /// classes of `path`.
    pub open spec fn resolve(self, path: Set<Symbol>, name: Symbol) -> Option<FoldedClassView>
        decreases self.pending(path), 0nat,
    {
        if self.cached.contains_key(name) {
            Some(self.cached[name])
        } else if self.expandable(path, name) {
            proof {
                self.classes.dom().lemma_set_insert_diff_decreases(path, name);
            }
            Some(
                fold_class(
                    self.classes[name],
                    self.resolve_parents(path.insert(name), self.classes[name].sc_extends@),
                ),
            )
        } else {
            None
        }
    }

    /// The folded parents found for the parent types `tys`, by name.
    pub open spec fn resolve_parents(self, path: Set<Symbol>, tys: Seq<DeclTy>) -> Map<
        Symbol,
        FoldedClassView,
    >
        decreases self.pending(path), tys.len(),
    {
        if tys.len() == 0 {
            Map::empty()
        } else {
            let acc = self.resolve_parents(path, tys.drop_last());
            match class_ref(tys.last()) {
                Some(id) => match self.resolve(path, id) {
                    Some(c) => acc.insert(id, c),
                    None => acc,
                },
                None => acc,
            }
        }
    }

    /// The classes whose declarations a query for `name` folds.
    pub open spec fn expanded(self, path: Set<Symbol>, name: Symbol) -> Set<Symbol>
        decreases self.pending(path), 0nat,
    {
        if self.expandable(path, name) {
            proof {
                self.classes.dom().lemma_set_insert_diff_decreases(path, name);
            }
            self.expanded_list(path.insert(name), self.classes[name].sc_extends@).insert(name)
        } else {
            Set::empty()
        }
    }

    /// The classes whose declarations are folded for the parent types `tys`.
    pub open spec fn expanded_list(self, path: Set<Symbol>, tys: Seq<DeclTy>) -> Set<Symbol>
        decreases self.pending(path), tys.len(),
    {
        if tys.len() == 0 {
            Set::empty()
        } else {
            let acc = self.expanded_list(path, tys.drop_last());
            match class_ref(tys.last()) {
                Some(id) => acc.union(self.expanded(path, id)),
                None => acc,
            }
        }
    }

    /// Whether a query for `name` runs to the end: no parent reference it
    /// meets names a class that lies on its way there or that it has
    /// already folded.
    pub open spec fn completes(self, path: Set<Symbol>, name: Symbol) -> bool
        decreases self.pending(path), 0nat,
    {
        if self.expandable(path, name) {
            proof {
                self.classes.dom().lemma_set_insert_diff_decreases(path, name);
            }
            self.completes_list(path.insert(name), self.classes[name].sc_extends@)
        } else {
            true
        }
    }

    /// Whether folding the parents `tys` of a class runs to the end.
    pub open spec fn completes_list(self, path: Set<Symbol>, tys: Seq<DeclTy>) -> bool
        decreases self.pending(path), tys.len(),
    {
        if tys.len() == 0 {
            true
        } else {
            &&& self.completes_list(path, tys.drop_last())
            &&& match class_ref(tys.last()) {
                Some(id) => {
                    &&& !path.contains(id)
                    &&& self.completes(path, id)
                    &&& self.expanded_list(path, tys.drop_last()).disjoint(self.expanded(path, id))
                },
                None => true,
            }
        }
    }

    /// Every class a query folds is declared, not cached at the start, and
    /// off the path the query was reached through.
    pub(crate) proof fn lemma_expanded_fresh(self, path: Set<Symbol>, name: Symbol)
        ensures
            forall|x: Symbol| #[trigger]
                self.expanded(path, name).contains(x) ==> !path.contains(x)
                    && self.classes.contains_key(x) && !self.cached.contains_key(x),
        decreases self.pending(path), 0nat,
    {
        if self.expandable(path, name) {
            self.classes.dom().lemma_set_insert_diff_decreases(path, name);
            self.lemma_expanded_list_fresh(path.insert(name), self.classes[name].sc_extends@);
            assert(self.expanded(path, name) == self.expanded_list(path.insert(name), self.classes[name].sc_extends@).insert(name));
        } else {
            assert(self.expanded(path, name) == Set::<Symbol>::empty());
        }
    }

    pub(crate) proof fn lemma_expanded_list_fresh(self, path: Set<Symbol>, tys: Seq<DeclTy>)
        ensures
            forall|x: Symbol| #[trigger]
                self.expanded_list(path, tys).contains(x) ==> !path.contains(x)
                    && self.classes.contains_key(x) && !self.cached.contains_key(x),
        decreases self.pending(path), tys.len(),
    {
        if tys.len() > 0 {
            self.lemma_expanded_list_fresh(path, tys.drop_last());
            if let Some(id) = class_ref(tys.last()) {
                self.lemma_expanded_fresh(path, id);
                assert(self.expanded_list(path, tys) == self.expanded_list(path, tys.drop_last()).union(
                    self.expanded(path, id),
                ));
            } else {
                assert(self.expanded_list(path, tys) == self.expanded_list(path, tys.drop_last()));
            }
        } else {
            assert(self.expanded_list(path, tys) == Set::<Symbol>::empty());
        }
    }

    /// What holds of the parent types `tys` holds of their first `j`.
    pub(crate) proof fn lemma_list_prefix(self, path: Set<Symbol>, tys: Seq<DeclTy>, j: int)
        requires
            0 <= j <= tys.len(),
        ensures
            self.completes_list(path, tys) ==> self.completes_list(path, tys.take(j)),
            self.expanded_list(path, tys.take(j)).subset_of(self.expanded_list(path, tys)),
        decreases tys.len(),
    {
        if j < tys.len() {
            self.lemma_list_prefix(path, tys.drop_last(), j);
            assert(tys.drop_last().take(j) =~= tys.take(j));
        } else {
            assert(tys.take(j) =~= tys);
        }
    }

    /// A query that runs to the end never meets the classes it was reached
    /// through, so reaching it through fewer classes changes nothing.
    pub(crate) proof fn lemma_path_irrelevant(self, p: Set<Symbol>, q: Set<Symbol>, name: Symbol)
        requires
            self.completes(p, name),
            q.subset_of(p),
            !p.contains(name),
        ensures
            self.completes(q, name),
            self.resolve(q, name) == self.resolve(p, name),
            self.expanded(q, name) == self.expanded(p, name),
        decreases self.pending(p), 0nat,
    {
        if self.expandable(p, name) {
            self.classes.dom().lemma_set_insert_diff_decreases(p, name);
            let tys = self.classes[name].sc_extends@;
            self.lemma_list_path_irrelevant(p.insert(name), q.insert(name), tys);
            assert(self.expandable(q, name));
            assert(self.completes(p, name) == self.completes_list(p.insert(name), tys));
            assert(self.completes(q, name) == self.completes_list(q.insert(name), tys));
            assert(self.expanded(p, name) == self.expanded_list(p.insert(name), tys).insert(name));
            assert(self.expanded(q, name) == self.expanded_list(q.insert(name), tys).insert(name));
            assert(self.resolve(p, name) == Some(
                fold_class(self.classes[name], self.resolve_parents(p.insert(name), tys)),
            ));
            assert(self.resolve(q, name) == Some(
                fold_class(self.classes[name], self.resolve_parents(q.insert(name), tys)),
            ));
        } else {
            assert(!self.expandable(q, name));
            assert(self.expanded(q, name) == Set::<Symbol>::empty());
            assert(self.expanded(p, name) == Set::<Symbol>::empty());
        }
    }

    pub(crate) proof fn lemma_list_path_irrelevant(self, p: Set<Symbol>, q: Set<Symbol>, tys: Seq<DeclTy>)
        requires
            self.completes_list(p, tys),
            q.subset_of(p),
        ensures
            self.completes_list(q, tys),
            self.resolve_parents(q, tys) == self.resolve_parents(p, tys),
            self.expanded_list(q, tys) == self.expanded_list(p, tys),
        decreases self.pending(p), tys.len(),
    {
        if tys.len() > 0 {
            let pre = tys.drop_last();
            self.lemma_list_path_irrelevant(p, q, pre);
            match class_ref(tys.last()) {
                Some(id) => {
                    self.lemma_path_irrelevant(p, q, id);
                    assert(self.completes_list(p, tys) == (self.completes_list(p, pre) && !p.contains(id)
                        && self.completes(p, id) && self.expanded_list(p, pre).disjoint(self.expanded(p, id))));
                    assert(self.completes_list(q, tys) == (self.completes_list(q, pre) && !q.contains(id)
                        && self.completes(q, id) && self.expanded_list(q, pre).disjoint(self.expanded(q, id))));
                    assert(self.expanded_list(p, tys) == self.expanded_list(p, pre).union(self.expanded(p, id)));
                    assert(self.expanded_list(q, tys) == self.expanded_list(q, pre).union(self.expanded(q, id)));
                },
                None => {
                    assert(self.completes_list(q, tys) == self.completes_list(q, pre));
                    assert(self.expanded_list(q, tys) == self.expanded_list(q, pre));
                    assert(self.expanded_list(p, tys) == self.expanded_list(p, pre));
                },
            }
        }
    }
}

} // verus!
