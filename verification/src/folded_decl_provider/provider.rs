//! Answers queries for folded classes, folding declarations on demand.
use std::collections::{HashMap, HashSet};
use std::rc::Rc;

use vstd::prelude::*;
use vstd::std_specs::iter::IteratorSpec;

use crate::decl_defs::{
    class_ref, folded_views, share, DeclTy, FoldedClass, FoldedClassView, FoldedElement, ShallowClass,
    ShallowMethod,
};
use crate::folded_decl_provider::cache::FoldedDeclLocalCache;
use crate::folded_decl_provider::fold::{add_declared_methods, fold_class, implements, Decls};
use crate::folded_decl_provider::inherit::{seen_keys, Inherited};
use crate::folded_decl_provider::laws::lemma_found_iff_known;
use crate::pos::{PosId, Symbol};
use crate::shallow_decl_provider::ShallowDeclProvider;

verus! {

broadcast use vstd::std_specs::hash::group_hash_axioms;

/// Every class on the stack is declared and was not cached when the query began.
spec fn stack_ok(d: Decls, stack: Set<Symbol>) -> bool {
    forall|k: Symbol| #[trigger]
        stack.contains(k) ==> d.classes.contains_key(k) && !d.cached.contains_key(k)
}

/// Off the stack, the cache holds what it held when the query began.
spec fn cache_frame(d: Decls, cache: Map<Symbol, FoldedClassView>, stack: Set<Symbol>) -> bool {
    forall|k: Symbol| #![trigger cache.contains_key(k)] #![trigger d.cached.contains_key(k)]
        !stack.contains(k) ==> (cache.contains_key(k) == d.cached.contains_key(k) && (
        cache.contains_key(k) ==> cache[k] == d.cached[k]))
}

/// `new` keeps every entry of `old` and adds entries for exactly the names in `added`.
pub open spec fn grows_by(
    old: Map<Symbol, FoldedClassView>,
    new: Map<Symbol, FoldedClassView>,
    added: Set<Symbol>,
) -> bool {
    &&& new.dom() == old.dom().union(added)
    &&& forall|k: Symbol| #[trigger] old.contains_key(k) ==> new[k] == old[k]
}

/// Each class in `folded` is cached as a query for it alone would fold it.
pub open spec fn caches_fresh(d: Decls, cache: Map<Symbol, FoldedClassView>, folded: Set<Symbol>) -> bool {
    forall|x: Symbol| #[trigger]
        folded.contains(x) ==> cache.contains_key(x) && Some(cache[x]) == d.resolve(Set::empty(), x)
}

/// Inserts a copy of every entry of `src` into `dst`, replacing entries with the same key.
fn add_ancestors_from(dst: &mut HashMap<Symbol, DeclTy>, src: &HashMap<Symbol, DeclTy>)
    ensures
        final(dst)@ == old(dst)@.union_prefer_right(src@),
{
    let ghost start = old(dst)@;
    let ghost full = src.iter().remaining();
    let ghost mut n: int = 0;
    for (k, v) in it: src.iter()
        invariant
            it.seq() == full,
            n == it.index(),
            dst@ == start.union_prefer_right(src@.restrict(seen_keys(full, n))),
    {
        dst.insert(*k, v.clone());
        proof {
            assert(src@.contains_key(*full[n].0));
            assert(seen_keys(full, n + 1) =~= seen_keys(full, n).insert(*k));
            assert(dst@ =~= start.union_prefer_right(src@.restrict(seen_keys(full, n + 1))));
            n = n + 1;
        }
    }
    proof {
        assert forall|key: Symbol| src@.contains_key(key) implies #[trigger] seen_keys(
            full,
            n,
        ).contains(key) by {
            assert(full.contains((&key, &src@[key])));
        }
        assert(src@.restrict(seen_keys(full, n)) =~= src@);
    }
}

/// Why a query for a folded class could not be answered.
#[derive(Clone, Copy, Debug, PartialEq, Eq, Structural)]
pub enum FoldError {
    /// Folding met a parent naming a class it was folding or had already
    /// folded in the same query: a class that inherits from itself, or one
    /// reached twice before it was cached.
    Cycle,
}

/// Answers queries for folded classes from a cache, folding class
/// declarations that are not cached yet.
pub struct FoldedDeclProvider {
    cache: FoldedDeclLocalCache,
    shallow_decl_provider: Rc<ShallowDeclProvider>,
}

impl FoldedDeclProvider {
    /// The folded classes cached, by name.
    pub closed spec fn cached(&self) -> Map<Symbol, FoldedClassView> {
        self.cache.contents()
    }

    /// The class declarations as written, by name.
    pub closed spec fn classes(&self) -> Map<Symbol, ShallowClass> {
        self.shallow_decl_provider.classes()
    }

    /// The declarations a query made now runs against.
    pub open spec fn decls(&self) -> Decls {
        Decls { cached: self.cached(), classes: self.classes() }
    }

    pub fn new(cache: FoldedDeclLocalCache, shallow_decl_provider: Rc<ShallowDeclProvider>) -> (r:
        FoldedDeclProvider)
        ensures
            r.cached() == cache.contents(),
            r.classes() == shallow_decl_provider.classes(),
    {
        FoldedDeclProvider { cache, shallow_decl_provider }
    }

    pub fn get_shallow_decl_provider(&self) -> (r: &Rc<ShallowDeclProvider>)
        ensures
            r.classes() == self.classes(),
    {
        &self.shallow_decl_provider
    }

    proof fn lemma_classes_finite(&self)
        ensures
            self.classes().dom().finite(),
    {
        self.shallow_decl_provider.lemma_classes_finite();
    }

    /// The folded class named `name`, if it is cached or declared. A class
    /// not cached yet is folded from its declaration and the folded classes
    /// of its parents, which are looked up the same way; every class folded
    /// on the way is cached. The query must run to the end: no parent it
    /// meets may name a class it is folding or has folded in this query (a
    /// class that inherits from itself, or one reached twice before it was
    /// cached), which is not handled.
    pub fn get_folded_class(&mut self, name: &Symbol) -> (r: Option<Rc<FoldedClass>>)
        requires
            old(self).decls().completes(Set::empty(), *name),
        ensures
            match r {
                Some(c) => old(self).decls().resolve(Set::empty(), *name) == Some(c@),
                None => old(self).decls().resolve(Set::empty(), *name) is None,
            },
            final(self).classes() == old(self).classes(),
            grows_by(
                old(self).cached(),
                final(self).cached(),
                old(self).decls().expanded(Set::empty(), *name),
            ),
            r is Some <==> (old(self).cached().contains_key(*name) || old(self).classes().contains_key(
                *name,
            )),
            r matches Some(c) ==> final(self).cached().contains_key(*name) && final(self).cached()[*name]
                == c@,
            caches_fresh(
                old(self).decls(),
                final(self).cached(),
                old(self).decls().expanded(Set::empty(), *name),
            ),
    {
        let ghost d = self.decls();
        proof {
            self.lemma_classes_finite();
            lemma_found_iff_known(d, *name);
        }
        let mut stack: HashSet<Symbol> = HashSet::new();
        self.get_folded_class_impl(&mut stack, name, Ghost(d), Ghost(Set::empty()))
    }

    /// Whether a query for `name` runs to the end (the condition
    /// `get_folded_class` requires). Walks the classes that query would fold,
    /// in the same order, without folding or caching anything.
    pub fn can_fold(&self, name: &Symbol) -> (r: bool)
        ensures
            r == self.decls().completes(Set::empty(), *name),
    {
        let ghost d = self.decls();
        proof {
            self.lemma_classes_finite();
        }
        let mut stack: HashSet<Symbol> = HashSet::new();
        proof {
            assert(stack@.disjoint(d.expanded(Set::empty(), *name)));
        }
        self.walk_class(&mut stack, name, Ghost(d), Ghost(Set::empty()))
    }

    /// The folded class named `name`, like `get_folded_class`, or an error
    /// where that query would not run to the end; then nothing is folded or
    /// cached.
    pub fn try_get_folded_class(&mut self, name: &Symbol) -> (r: Result<
        Option<Rc<FoldedClass>>,
        FoldError,
    >)
        ensures
            match r {
                Err(_) => {
                    &&& !old(self).decls().completes(Set::empty(), *name)
                    &&& final(self).cached() == old(self).cached()
                    &&& final(self).classes() == old(self).classes()
                },
                Ok(res) => {
                    &&& old(self).decls().completes(Set::empty(), *name)
                    &&& match res {
                        Some(c) => old(self).decls().resolve(Set::empty(), *name) == Some(c@),
                        None => old(self).decls().resolve(Set::empty(), *name) is None,
                    }
                    &&& final(self).classes() == old(self).classes()
                    &&& grows_by(
                        old(self).cached(),
                        final(self).cached(),
                        old(self).decls().expanded(Set::empty(), *name),
                    )
                    &&& res matches Some(c) ==> final(self).cached().contains_key(*name)
                        && final(self).cached()[*name] == c@
                    &&& caches_fresh(
                        old(self).decls(),
                        final(self).cached(),
                        old(self).decls().expanded(Set::empty(), *name),
                    )
                },
            },
    {
        if self.can_fold(name) {
            Ok(self.get_folded_class(name))
        } else {
            Err(FoldError::Cycle)
        }
    }

    fn walk_class(
        &self,
        stack: &mut HashSet<Symbol>,
        name: &Symbol,
        Ghost(d): Ghost<Decls>,
        Ghost(path): Ghost<Set<Symbol>>,
    ) -> (r: bool)
        requires
            self.decls() == d,
            d.classes.dom().finite(),
            path.subset_of(old(stack)@),
            !old(stack)@.contains(*name),
            stack_ok(d, old(stack)@),
        ensures
            r == (d.completes(path, *name) && old(stack)@.disjoint(d.expanded(path, *name))),
            r ==> final(stack)@ == old(stack)@.union(d.expanded(path, *name)),
            old(stack)@.subset_of(final(stack)@),
            stack_ok(d, final(stack)@),
        decreases d.pending(path), 3nat,
    {
        if self.cache.get_folded_class(name).is_some() {
            proof {
                assert(d.expanded(path, *name) == Set::<Symbol>::empty());
                assert(old(stack)@.union(Set::empty()) =~= old(stack)@);
            }
            return true;
        }
        let sc = match self.shallow_decl_provider.get_shallow_class(name) {
            Some(sc) => sc,
            None => {
                proof {
                    assert(d.expanded(path, *name) == Set::<Symbol>::empty());
                    assert(old(stack)@.union(Set::empty()) =~= old(stack)@);
                }
                return true;
            },
        };
        let ghost p2 = path.insert(*name);
        let ghost tys = sc.sc_extends@;
        proof {
            assert(d.expandable(path, *name));
            d.classes.dom().lemma_set_insert_diff_decreases(path, *name);
            assert(d.expanded(path, *name) == d.expanded_list(p2, tys).insert(*name));
            assert(d.completes(path, *name) == d.completes_list(p2, tys));
            d.lemma_expanded_list_fresh(p2, tys);
        }
        stack.insert(*name);
        let r = self.walk_parents(stack, &sc, Ghost(d), Ghost(p2));
        proof {
            if r {
                assert(stack@ =~= old(stack)@.union(d.expanded(path, *name)));
            }
            assert(old(stack)@.insert(*name).disjoint(d.expanded_list(p2, tys)) == old(stack)@.disjoint(
                d.expanded(path, *name),
            ));
        }
        r
    }

    fn walk_parents(
        &self,
        stack: &mut HashSet<Symbol>,
        sc: &ShallowClass,
        Ghost(d): Ghost<Decls>,
        Ghost(path): Ghost<Set<Symbol>>,
    ) -> (r: bool)
        requires
            self.decls() == d,
            d.classes.dom().finite(),
            path.subset_of(old(stack)@),
            stack_ok(d, old(stack)@),
        ensures
            r == (d.completes_list(path, sc.sc_extends@) && old(stack)@.disjoint(
                d.expanded_list(path, sc.sc_extends@),
            )),
            r ==> final(stack)@ == old(stack)@.union(d.expanded_list(path, sc.sc_extends@)),
            old(stack)@.subset_of(final(stack)@),
            stack_ok(d, final(stack)@),
        decreases d.pending(path), 5nat,
    {
        let ghost tys = sc.sc_extends@;
        let ghost stack0 = stack@;
        proof {
            assert(tys.take(0) =~= Seq::<DeclTy>::empty());
            assert(stack0.union(Set::empty()) =~= stack0);
        }
        let n = sc.sc_extends.len();
        for i in 0..n
            invariant
                n == tys.len(),
                tys == sc.sc_extends@,
                self.decls() == d,
                d.classes.dom().finite(),
                stack0 == old(stack)@,
                path.subset_of(stack0),
                d.completes_list(path, tys.take(i as int)),
                stack0.disjoint(d.expanded_list(path, tys.take(i as int))),
                stack@ == stack0.union(d.expanded_list(path, tys.take(i as int))),
                stack_ok(d, stack@),
            decreases n - i,
        {
            let ghost pre = tys.take(i as int);
            let ghost cur = tys.take(i + 1);
            proof {
                assert(cur.drop_last() =~= pre);
                assert(cur.last() == tys[i as int]);
                d.lemma_list_prefix(path, tys, i + 1);
            }
            let ty = &sc.sc_extends[i];
            match ty.node() {
                crate::decl_defs::DeclTy_::DTapply(pos_id, _) => {
                    let ghost id = pos_id.id;
                    proof {
                        assert(class_ref(tys[i as int]) == Some(id));
                        assert(d.expanded_list(path, cur) == d.expanded_list(path, pre).union(
                            d.expanded(path, id),
                        ));
                        d.lemma_expanded_fresh(path, id);
                    }
                    if stack.contains(&pos_id.id) {
                        proof {
                            if !path.contains(id) {
                                assert(d.expandable(path, id));
                                assert(d.expanded(path, id).contains(id));
                            }
                            assert(!(d.completes_list(path, cur) && stack0.disjoint(
                                d.expanded_list(path, cur),
                            )));
                            if stack0.disjoint(d.expanded_list(path, tys)) {
                                assert(stack0.disjoint(d.expanded_list(path, cur)));
                            }
                            assert(stack0.subset_of(stack@));
                        }
                        return false;
                    }
                    let ghost stack1 = stack@;
                    let ok = self.walk_class(stack, &pos_id.id, Ghost(d), Ghost(path));
                    proof {
                        assert(stack1.disjoint(d.expanded(path, id)) == (stack0.disjoint(
                            d.expanded(path, id),
                        ) && d.expanded_list(path, pre).disjoint(d.expanded(path, id))));
                        assert(d.completes_list(path, cur) == (d.completes_list(path, pre) && !path.contains(id)
                            && d.completes(path, id) && d.expanded_list(path, pre).disjoint(d.expanded(path, id))));
                    }
                    if !ok {
                        return false;
                    }
                    proof {
                        assert(stack@ =~= stack0.union(d.expanded_list(path, cur)));
                    }
                },
                _ => {
                    proof {
                        assert(class_ref(tys[i as int]) is None);
                        assert(d.expanded_list(path, cur) == d.expanded_list(path, pre));
                        assert(d.completes_list(path, cur) == d.completes_list(path, pre));
                    }
                },
            }
        }
        proof {
            assert(tys.take(n as int) =~= tys);
        }
        true
    }

    /// Whether the class `pos_id` names is on the stack of classes being folded.
    fn detect_cycle(&self, stack: &HashSet<Symbol>, pos_id: &PosId) -> (r: bool)
        requires
            !stack@.contains(pos_id.id),
        ensures
            !r,
    {
        stack.contains(&pos_id.id)
    }

    fn decl_method(
        &self,
        methods: &mut HashMap<Symbol, FoldedElement>,
        sc: &ShallowClass,
        sm: &ShallowMethod,
    )
        ensures
            final(methods)@ == old(methods)@.insert(
                sm.sm_name.id,
                FoldedElement { elt_origin: sc.sc_name.id },
            ),
    {
        let elt = FoldedElement { elt_origin: sc.sc_name.id() };
        methods.insert(sm.sm_name.id(), elt);
    }

    /// Records the ancestors `ty` brings: the parent it names, with `ty` as
    /// written, after the ancestors of that parent where its folded class is
    /// known. Those ancestor types are taken over unchanged: substituting the
    /// parent's type arguments for its type parameters is the identity, since
    /// declared types have no variant that names a type parameter.
    fn get_implements(
        &self,
        parents: &HashMap<Symbol, Rc<FoldedClass>>,
        ty: &DeclTy,
        inst: &mut HashMap<Symbol, DeclTy>,
    )
        ensures
            final(inst)@ == match class_ref(*ty) {
                Some(id) => if folded_views(parents@).contains_key(id) {
                    old(inst)@.union_prefer_right(folded_views(parents@)[id].ancestors).insert(id, *ty)
                } else {
                    old(inst)@.insert(id, *ty)
                },
                None => old(inst)@,
            },
    {
        match ty.unwrap_class_type() {
            None => {},
            Some((_, pos_id, _tyl)) => match parents.get(&pos_id.id) {
                None => {
                    inst.insert(pos_id.id(), ty.clone());
                },
                Some(cls) => {
                    add_ancestors_from(inst, &cls.dc_ancestors);
                    inst.insert(pos_id.id(), ty.clone());
                },
            },
        }
    }

    fn decl_class_impl(&self, sc: &ShallowClass, parents: &HashMap<Symbol, Rc<FoldedClass>>) -> (r:
        Rc<FoldedClass>)
        ensures
            r@ == fold_class(*sc, folded_views(parents@)),
    {
        let inh = Inherited::make(sc, parents);
        let ghost base = inh.ih_methods@;
        let mut methods = inh.ih_methods;
        let ghost ms = sc.sc_methods@;
        let n = sc.sc_methods.len();
        for i in 0..n
            invariant
                n == ms.len(),
                ms == sc.sc_methods@,
                methods@ == add_declared_methods(base, sc.sc_name.id, ms.take(i as int)),
        {
            self.decl_method(&mut methods, sc, &sc.sc_methods[i]);
            assert(ms.take(i + 1).drop_last() =~= ms.take(i as int));
        }
        assert(ms.take(n as int) =~= ms);
        let ghost tys = sc.sc_extends@;
        let ghost ps = folded_views(parents@);
        let mut anc: HashMap<Symbol, DeclTy> = HashMap::new();
        let m = sc.sc_extends.len();
        for i in 0..m
            invariant
                m == tys.len(),
                tys == sc.sc_extends@,
                ps == folded_views(parents@),
                anc@ == implements(tys.take(i as int), ps),
        {
            self.get_implements(parents, &sc.sc_extends[i], &mut anc);
            assert(tys.take(i + 1).drop_last() =~= tys.take(i as int));
        }
        assert(tys.take(m as int) =~= tys);
        let tc = FoldedClass {
            dc_name: sc.sc_name.id(),
            dc_pos: sc.sc_name.pos(),
            dc_substs: inh.ih_substs,
            dc_ancestors: anc,
            dc_methods: methods,
        };
        let tc = Rc::new(tc);
        assert(tc@ =~= fold_class(*sc, folded_views(parents@)));
        tc
    }

    fn decl_class_type(
        &mut self,
        stack: &mut HashSet<Symbol>,
        acc: &mut HashMap<Symbol, Rc<FoldedClass>>,
        ty: &DeclTy,
        Ghost(d): Ghost<Decls>,
        Ghost(path): Ghost<Set<Symbol>>,
    )
        requires
            old(self).classes() == d.classes,
            d.classes.dom().finite(),
            path.subset_of(old(stack)@),
            stack_ok(d, old(stack)@),
            cache_frame(d, old(self).cached(), old(stack)@),
            class_ref(*ty) matches Some(id) ==> {
                &&& !old(stack)@.contains(id)
                &&& d.completes(path, id)
                &&& old(stack)@.disjoint(d.expanded(path, id))
            },
        ensures
            final(self).classes() == d.classes,
            folded_views(final(acc)@) == match class_ref(*ty) {
                Some(id) => match d.resolve(path, id) {
                    Some(c) => folded_views(old(acc)@).insert(id, c),
                    None => folded_views(old(acc)@),
                },
                None => folded_views(old(acc)@),
            },
            final(stack)@ == old(stack)@.union(
                match class_ref(*ty) {
                    Some(id) => d.expanded(path, id),
                    None => Set::empty(),
                },
            ),
            grows_by(
                old(self).cached(),
                final(self).cached(),
                match class_ref(*ty) {
                    Some(id) => d.expanded(path, id),
                    None => Set::empty(),
                },
            ),
            caches_fresh(
                d,
                final(self).cached(),
                match class_ref(*ty) {
                    Some(id) => d.expanded(path, id),
                    None => Set::empty(),
                },
            ),
            stack_ok(d, final(stack)@),
            cache_frame(d, final(self).cached(), final(stack)@),
        decreases d.pending(path), 4nat,
    {
        match ty.node() {
            crate::decl_defs::DeclTy_::DTapply(pos_id, _tyl) => {
                if !self.detect_cycle(stack, pos_id) {
                    if let Some(folded_decl) = self.get_folded_class_impl(
                        stack,
                        &pos_id.id,
                        Ghost(d),
                        Ghost(path),
                    ) {
                        let ghost v = folded_decl@;
                        acc.insert(pos_id.id(), folded_decl);
                        assert(folded_views(acc@) =~= folded_views(old(acc)@).insert(pos_id.id, v));
                    }
                }
            },
            _ => {
                assert(old(stack)@.union(Set::empty()) =~= old(stack)@);
                assert(old(self).cached().dom().union(Set::empty()) =~= old(self).cached().dom());
            },
        }
    }

    fn decl_class_parents(
        &mut self,
        stack: &mut HashSet<Symbol>,
        sc: &ShallowClass,
        Ghost(d): Ghost<Decls>,
        Ghost(path): Ghost<Set<Symbol>>,
    ) -> (r: HashMap<Symbol, Rc<FoldedClass>>)
        requires
            old(self).classes() == d.classes,
            d.classes.dom().finite(),
            d.completes_list(path, sc.sc_extends@),
            path.subset_of(old(stack)@),
            old(stack)@.disjoint(d.expanded_list(path, sc.sc_extends@)),
            stack_ok(d, old(stack)@),
            cache_frame(d, old(self).cached(), old(stack)@),
        ensures
            final(self).classes() == d.classes,
            folded_views(r@) == d.resolve_parents(path, sc.sc_extends@),
            final(stack)@ == old(stack)@.union(d.expanded_list(path, sc.sc_extends@)),
            grows_by(old(self).cached(), final(self).cached(), d.expanded_list(path, sc.sc_extends@)),
            caches_fresh(d, final(self).cached(), d.expanded_list(path, sc.sc_extends@)),
            stack_ok(d, final(stack)@),
            cache_frame(d, final(self).cached(), final(stack)@),
        decreases d.pending(path), 5nat,
    {
        let ghost tys = sc.sc_extends@;
        let ghost stack0 = stack@;
        let ghost cache0 = self.cached();
        let mut acc: HashMap<Symbol, Rc<FoldedClass>> = HashMap::new();
        proof {
            assert(folded_views(acc@) =~= Map::<Symbol, FoldedClassView>::empty());
            assert(tys.take(0) =~= Seq::<DeclTy>::empty());
            assert(stack0.union(Set::empty()) =~= stack0);
            assert(cache0.dom().union(Set::empty()) =~= cache0.dom());
        }
        let n = sc.sc_extends.len();
        for i in 0..n
            invariant
                n == tys.len(),
                tys == sc.sc_extends@,
                self.classes() == d.classes,
                d.classes.dom().finite(),
                d.completes_list(path, tys),
                path.subset_of(stack0),
                stack0.disjoint(d.expanded_list(path, tys)),
                folded_views(acc@) == d.resolve_parents(path, tys.take(i as int)),
                stack@ == stack0.union(d.expanded_list(path, tys.take(i as int))),
                grows_by(cache0, self.cached(), d.expanded_list(path, tys.take(i as int))),
                caches_fresh(d, self.cached(), d.expanded_list(path, tys.take(i as int))),
                stack_ok(d, stack@),
                cache_frame(d, self.cached(), stack@),
            decreases n - i,
        {
            let ghost pre = tys.take(i as int);
            let ghost cur = tys.take(i + 1);
            let ghost stack1 = stack@;
            let ghost cache1 = self.cached();
            proof {
                assert(cur.drop_last() =~= pre);
                assert(cur.last() == tys[i as int]);
                d.lemma_list_prefix(path, tys, i + 1);
                if let Some(id) = class_ref(tys[i as int]) {
                    assert(d.expanded_list(path, cur) == d.expanded_list(path, pre).union(
                        d.expanded(path, id),
                    ));
                    d.lemma_expanded_fresh(path, id);
                    if d.expandable(path, id) {
                        assert(d.expanded(path, id).contains(id));
                    }
                }
            }
            self.decl_class_type(stack, &mut acc, &sc.sc_extends[i], Ghost(d), Ghost(path));
            proof {
                if let Some(id) = class_ref(tys[i as int]) {
                    assert(d.expanded_list(path, cur) == d.expanded_list(path, pre).union(
                        d.expanded(path, id),
                    ));
                    assert(stack@ =~= stack0.union(d.expanded_list(path, cur)));
                    assert(self.cached().dom() =~= cache0.dom().union(d.expanded_list(path, cur)));
                } else {
                    assert(d.expanded_list(path, cur) == d.expanded_list(path, pre));
                    assert(self.cached().dom() =~= cache1.dom());
                }
                assert forall|k: Symbol| #[trigger] cache0.contains_key(k) implies self.cached()[k]
                    == cache0[k] by {
                    assert(cache1.contains_key(k));
                }
                assert forall|x: Symbol| #[trigger] d.expanded_list(path, cur).contains(x) implies self.cached().contains_key(x)
                    && Some(self.cached()[x]) == d.resolve(Set::empty(), x) by {
                    if d.expanded_list(path, pre).contains(x) {
                        assert(cache1.contains_key(x));
                    }
                }
            }
        }
        proof {
            assert(tys.take(n as int) =~= tys);
        }
        acc
    }

    fn decl_class(
        &mut self,
        stack: &mut HashSet<Symbol>,
        name: &Symbol,
        Ghost(d): Ghost<Decls>,
        Ghost(path): Ghost<Set<Symbol>>,
    ) -> (r: Option<Rc<FoldedClass>>)
        requires
            old(self).classes() == d.classes,
            d.classes.dom().finite(),
            !d.cached.contains_key(*name),
            d.completes(path, *name),
            path.subset_of(old(stack)@),
            !old(stack)@.contains(*name),
            old(stack)@.disjoint(d.expanded(path, *name)),
            stack_ok(d, old(stack)@),
            cache_frame(d, old(self).cached(), old(stack)@),
        ensures
            final(self).classes() == d.classes,
            match r {
                Some(c) => d.resolve(path, *name) == Some(c@),
                None => d.resolve(path, *name) is None,
            },
            final(stack)@ == old(stack)@.union(d.expanded(path, *name)),
            grows_by(old(self).cached(), final(self).cached(), d.expanded(path, *name).remove(*name)),
            caches_fresh(d, final(self).cached(), d.expanded(path, *name).remove(*name)),
            stack_ok(d, final(stack)@),
            cache_frame(d, final(self).cached(), final(stack)@),
        decreases d.pending(path), 2nat,
    {
        let shallow_class = match self.get_shallow_decl_provider().get_shallow_class(name) {
            Some(sc) => sc,
            None => {
                proof {
                    assert(d.expanded(path, *name) == Set::<Symbol>::empty());
                    assert(old(stack)@.union(Set::empty()) =~= old(stack)@);
                    assert(old(self).cached().dom().union(Set::<Symbol>::empty().remove(*name))
                        =~= old(self).cached().dom());
                }
                return None;
            },
        };
        let ghost p2 = path.insert(*name);
        let ghost tys = shallow_class.sc_extends@;
        proof {
            assert(d.expandable(path, *name));
            d.classes.dom().lemma_set_insert_diff_decreases(path, *name);
            assert(d.expanded(path, *name) == d.expanded_list(p2, tys).insert(*name));
            assert(d.completes(path, *name) == d.completes_list(p2, tys));
            d.lemma_expanded_list_fresh(p2, tys);
        }
        stack.insert(*name);
        let parents = self.decl_class_parents(stack, &shallow_class, Ghost(d), Ghost(p2));
        proof {
            assert(d.resolve(path, *name) == Some(fold_class(d.classes[*name], d.resolve_parents(p2, tys))));
            assert(stack@ =~= old(stack)@.union(d.expanded(path, *name)));
            assert(d.expanded(path, *name).remove(*name) =~= d.expanded_list(p2, tys));
        }
        Some(self.decl_class_impl(&shallow_class, &parents))
    }

    fn get_folded_class_impl(
        &mut self,
        stack: &mut HashSet<Symbol>,
        name: &Symbol,
        Ghost(d): Ghost<Decls>,
        Ghost(path): Ghost<Set<Symbol>>,
    ) -> (r: Option<Rc<FoldedClass>>)
        requires
            old(self).classes() == d.classes,
            d.classes.dom().finite(),
            d.completes(path, *name),
            path.subset_of(old(stack)@),
            !path.contains(*name),
            old(stack)@.disjoint(d.expanded(path, *name)),
            stack_ok(d, old(stack)@),
            cache_frame(d, old(self).cached(), old(stack)@),
        ensures
            final(self).classes() == d.classes,
            match r {
                Some(c) => d.resolve(path, *name) == Some(c@),
                None => d.resolve(path, *name) is None,
            },
            final(stack)@ == old(stack)@.union(d.expanded(path, *name)),
            grows_by(old(self).cached(), final(self).cached(), d.expanded(path, *name)),
            r matches Some(c) ==> final(self).cached().contains_key(*name)
                && final(self).cached()[*name] == c@,
            caches_fresh(d, final(self).cached(), d.expanded(path, *name)),
            stack_ok(d, final(stack)@),
            cache_frame(d, final(self).cached(), final(stack)@),
        decreases d.pending(path), 3nat,
    {
        proof {
            if old(stack)@.contains(*name) {
                assert(d.classes.contains_key(*name) && !d.cached.contains_key(*name));
                assert(d.expandable(path, *name));
                assert(d.expanded(path, *name).contains(*name));
            }
        }
        match self.cache.get_folded_class(name) {
            Some(rc) => {
                proof {
                    assert(d.cached.contains_key(*name));
                    assert(d.expanded(path, *name) == Set::<Symbol>::empty());
                    assert(old(stack)@.union(Set::empty()) =~= old(stack)@);
                    assert(old(self).cached().dom().union(Set::empty()) =~= old(self).cached().dom());
                }
                Some(rc)
            },
            None => match self.decl_class(stack, name, Ghost(d), Ghost(path)) {
                None => {
                    proof {
                        assert(d.expanded(path, *name).remove(*name) =~= d.expanded(path, *name));
                    }
                    None
                },
                Some(rc) => {
                    let ghost mid = self.cached();
                    let ghost v = rc@;
                    self.cache.put_folded_class(*name, share(&rc));
                    proof {
                        assert(d.expandable(path, *name));
                        assert(d.expanded(path, *name).contains(*name));
                        assert(self.cached().dom() =~= old(self).cached().dom().union(d.expanded(path, *name)));
                        d.lemma_path_irrelevant(path, Set::empty(), *name);
                        assert forall|x: Symbol| #[trigger] d.expanded(path, *name).contains(x) implies self.cached().contains_key(x)
                            && Some(self.cached()[x]) == d.resolve(Set::empty(), x) by {
                            if x != *name {
                                assert(d.expanded(path, *name).remove(*name).contains(x));
                            }
                        }
                    }
                    Some(rc)
                },
            },
        }
    }
}

} // verus!
