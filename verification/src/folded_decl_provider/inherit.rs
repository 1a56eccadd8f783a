//! What a class inherits from the folded declarations of its parents.
use std::collections::HashMap;

use vstd::prelude::*;
use vstd::std_specs::iter::IteratorSpec;

use std::rc::Rc;

use crate::decl_defs::{
    class_ref, folded_views, DeclTy, FoldedClass, FoldedClassView, FoldedElement, ShallowClass,
    SubstContext,
};
use crate::pos::Symbol;

verus! {

broadcast use vstd::std_specs::hash::group_hash_axioms;

/// The keys among the first `n` entries of a map's iteration sequence.
pub open spec fn seen_keys<V>(s: Seq<(&Symbol, &V)>, n: int) -> Set<Symbol> {
    Set::new(|k: Symbol| exists|j: int| 0 <= j < n && *s[j].0 == k)
}

/// Inserts every entry of `src` into `dst`, replacing entries with the same key.
fn add_methods_from(dst: &mut HashMap<Symbol, FoldedElement>, src: &HashMap<Symbol, FoldedElement>)
    ensures
        final(dst)@ == old(dst)@.union_prefer_right(src@),
{
    let ghost old_dst = old(dst)@;
    let ghost full = src.iter().remaining();
    let ghost mut n: int = 0;
    for (k, v) in it: src.iter()
        invariant
            it.seq() == full,
            n == it.index(),
            dst@ == old_dst.union_prefer_right(src@.restrict(seen_keys(full, n))),
    {
        dst.insert(*k, *v);
        proof {
            assert(src@.contains_key(*full[n].0));
            assert(seen_keys(full, n + 1) =~= seen_keys(full, n).insert(*k));
            assert(dst@ =~= old_dst.union_prefer_right(src@.restrict(seen_keys(full, n + 1))));
            n = n + 1;
        }
    }
    proof {
        assert(n == full.len());
        assert forall|key: Symbol| src@.contains_key(key) implies #[trigger] seen_keys(full, n).contains(key) by {
            assert(full.contains((&key, &src@[key])));
        }
        assert(src@.restrict(seen_keys(full, n)) =~= src@);
    }
}


/// Substitution contexts after those of `other` are added to `acc`: an entry of
/// `other` replaces one of `acc` unless it comes from a `require extends`
/// clause and the one in `acc` does not.
pub open spec fn merge_substs(acc: Map<Symbol, SubstContext>, other: Map<Symbol, SubstContext>) -> Map<
    Symbol,
    SubstContext,
> {
    Map::new(
        |k: Symbol| acc.contains_key(k) || other.contains_key(k),
        |k: Symbol|
            if other.contains_key(k) && (!acc.contains_key(k) || !other[k].sc_from_req_extends
                || acc[k].sc_from_req_extends) {
                other[k]
            } else {
                acc[k]
            },
    )
}

/// The substitution contexts a class `sc_name` takes from its parent
/// `parent_name`: the parent's own, and one for the parent itself.
pub open spec fn parent_substs(sc_name: Symbol, parent_name: Symbol, parent: FoldedClassView) -> Map<
    Symbol,
    SubstContext,
> {
    parent.substs.insert(
        parent_name,
        SubstContext { sc_class_context: sc_name, sc_from_req_extends: false },
    )
}

/// The substitution contexts inherited through the parent types `tys`, in order.
pub open spec fn inherited_substs(
    sc_name: Symbol,
    tys: Seq<DeclTy>,
    parents: Map<Symbol, FoldedClassView>,
) -> Map<Symbol, SubstContext>
    decreases tys.len(),
{
    if tys.len() == 0 {
        Map::empty()
    } else {
        let acc = inherited_substs(sc_name, tys.drop_last(), parents);
        match class_ref(tys.last()) {
            Some(id) => if parents.contains_key(id) {
                merge_substs(acc, parent_substs(sc_name, id, parents[id]))
            } else {
                acc
            },
            None => acc,
        }
    }
}

/// The methods inherited through the parent types `tys`; a later parent's
/// method replaces an earlier one of the same name.
pub open spec fn inherited_methods(tys: Seq<DeclTy>, parents: Map<Symbol, FoldedClassView>) -> Map<
    Symbol,
    FoldedElement,
>
    decreases tys.len(),
{
    if tys.len() == 0 {
        Map::empty()
    } else {
        let acc = inherited_methods(tys.drop_last(), parents);
        match class_ref(tys.last()) {
            Some(id) => if parents.contains_key(id) {
                acc.union_prefer_right(parents[id].methods)
            } else {
                acc
            },
            None => acc,
        }
    }
}

/// What a class inherits from its parents.
pub struct Inherited {
    pub ih_substs: HashMap<Symbol, SubstContext>,
    pub ih_methods: HashMap<Symbol, FoldedElement>,
}

impl Inherited {
    fn empty() -> (r: Inherited)
        ensures
            r.ih_substs@ == Map::<Symbol, SubstContext>::empty(),
            r.ih_methods@ == Map::<Symbol, FoldedElement>::empty(),
    {
        Inherited { ih_substs: HashMap::new(), ih_methods: HashMap::new() }
    }

    fn add_substs(&mut self, other: &HashMap<Symbol, SubstContext>)
        ensures
            final(self).ih_substs@ == merge_substs(old(self).ih_substs@, other@),
            final(self).ih_methods@ == old(self).ih_methods@,
    {
        let ghost start = old(self).ih_substs@;
        let ghost full = other.iter().remaining();
        let ghost mut n: int = 0;
        for (key, new_sc) in it: other.iter()
            invariant
                it.seq() == full,
                full.no_duplicates(),
                n == it.index(),
                self.ih_substs@ == merge_substs(start, other@.restrict(seen_keys(full, n))),
                self.ih_methods@ == old(self).ih_methods@,
        {
            let ghost before = self.ih_substs@;
            let replace = match self.ih_substs.get(key) {
                Some(old_sc) => !new_sc.sc_from_req_extends || old_sc.sc_from_req_extends,
                None => true,
            };
            if replace {
                self.ih_substs.insert(*key, *new_sc);
            }
            proof {
                assert(other@.contains_key(*full[n].0));
                assert(seen_keys(full, n + 1) =~= seen_keys(full, n).insert(*key));
                assert(!seen_keys(full, n).contains(*key)) by {
                    if seen_keys(full, n).contains(*key) {
                        let j = choose|j: int| 0 <= j < n && *full[j].0 == *key;
                        assert(other@.contains_key(*full[j].0));
                        assert(full[j] == full[n]);
                    }
                }
                assert(self.ih_substs@ =~= merge_substs(
                    start,
                    other@.restrict(seen_keys(full, n + 1)),
                ));
                n = n + 1;
            }
        }
        proof {
            assert forall|key: Symbol| other@.contains_key(key) implies #[trigger] seen_keys(
                full,
                n,
            ).contains(key) by {
                assert(full.contains((&key, &other@[key])));
            }
            assert(other@.restrict(seen_keys(full, n)) =~= other@);
        }
    }

    fn add_methods(&mut self, other: &HashMap<Symbol, FoldedElement>)
        ensures
            final(self).ih_methods@ == old(self).ih_methods@.union_prefer_right(other@),
            final(self).ih_substs@ == old(self).ih_substs@,
    {
        add_methods_from(&mut self.ih_methods, other);
    }

    fn add_inherited(&mut self, other: Inherited)
        ensures
            final(self).ih_substs@ == merge_substs(old(self).ih_substs@, other.ih_substs@),
            final(self).ih_methods@ == old(self).ih_methods@.union_prefer_right(other.ih_methods@),
    {
        self.add_substs(&other.ih_substs);
        self.add_methods(&other.ih_methods);
    }

    fn inherit_hack_class(sc: &ShallowClass, parent_name: Symbol, parent: &FoldedClass) -> (r:
        Inherited)
        ensures
            r.ih_substs@ == parent_substs(sc.sc_name.id, parent_name, parent@),
            r.ih_methods@ == parent@.methods,
    {
        let mut substs = parent.dc_substs.clone();
        substs.insert(
            parent_name,
            SubstContext { sc_class_context: sc.sc_name.id(), sc_from_req_extends: false },
        );
        Inherited { ih_substs: substs, ih_methods: parent.dc_methods.clone() }
    }

    fn from_class(sc: &ShallowClass, parents: &HashMap<Symbol, Rc<FoldedClass>>, parent_ty: &DeclTy) -> (r:
        Inherited)
        ensures
            ({
                let ps = folded_views(parents@);
                match class_ref(*parent_ty) {
                    Some(id) => if ps.contains_key(id) {
                        &&& r.ih_substs@ == parent_substs(sc.sc_name.id, id, ps[id])
                        &&& r.ih_methods@ == ps[id].methods
                    } else {
                        &&& r.ih_substs@ == Map::<Symbol, SubstContext>::empty()
                        &&& r.ih_methods@ == Map::<Symbol, FoldedElement>::empty()
                    },
                    None => {
                        &&& r.ih_substs@ == Map::<Symbol, SubstContext>::empty()
                        &&& r.ih_methods@ == Map::<Symbol, FoldedElement>::empty()
                    },
                }
            }),
    {
        if let Some((_, parent_pos_id, _)) = parent_ty.unwrap_class_type() {
            if let Some(parent_folded_decl) = parents.get(&parent_pos_id.id) {
                return Self::inherit_hack_class(sc, parent_pos_id.id(), parent_folded_decl);
            }
        }
        Self::empty()
    }

    fn from_parent(sc: &ShallowClass, parents: &HashMap<Symbol, Rc<FoldedClass>>) -> (r: Inherited)
        ensures
            r.ih_substs@ == inherited_substs(sc.sc_name.id, sc.sc_extends@, folded_views(parents@)),
            r.ih_methods@ == inherited_methods(sc.sc_extends@, folded_views(parents@)),
    {
        let ghost ps = folded_views(parents@);
        let ghost tys = sc.sc_extends@;
        let mut parent_inh = Self::empty();
        let n = sc.sc_extends.len();
        for i in 0..n
            invariant
                n == tys.len(),
                tys == sc.sc_extends@,
                ps == folded_views(parents@),
                parent_inh.ih_substs@ == inherited_substs(sc.sc_name.id, tys.take(i as int), ps),
                parent_inh.ih_methods@ == inherited_methods(tys.take(i as int), ps),
        {
            let inh = Self::from_class(sc, parents, &sc.sc_extends[i]);
            parent_inh.add_inherited(inh);
            proof {
                let pre = tys.take(i + 1);
                assert(pre.drop_last() =~= tys.take(i as int));
                assert(pre.last() == tys[i as int]);
                assert(merge_substs(inherited_substs(sc.sc_name.id, tys.take(i as int), ps), Map::empty())
                    =~= inherited_substs(sc.sc_name.id, tys.take(i as int), ps));
                assert(inherited_methods(tys.take(i as int), ps).union_prefer_right(Map::empty())
                    =~= inherited_methods(tys.take(i as int), ps));
            }
        }
        assert(tys.take(n as int) =~= tys);
        parent_inh
    }

    /// What `sc` inherits from the folded classes of its parents.
    pub fn make(sc: &ShallowClass, parents: &HashMap<Symbol, Rc<FoldedClass>>) -> (r: Inherited)
        ensures
            r.ih_substs@ == inherited_substs(sc.sc_name.id, sc.sc_extends@, folded_views(parents@)),
            r.ih_methods@ == inherited_methods(sc.sc_extends@, folded_views(parents@)),
    {
        Self::from_parent(sc, parents)
    }
}

} // verus!
