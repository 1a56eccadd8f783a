//! A cache of folded classes, by class name.
use std::collections::HashMap;
use std::rc::Rc;

use vstd::prelude::*;

use crate::decl_defs::{folded_views, share, FoldedClass, FoldedClassView};
use crate::pos::Symbol;

verus! {

broadcast use vstd::std_specs::hash::group_hash_axioms;

/// Folded classes kept for later queries, by class name.
pub struct FoldedDeclLocalCache {
    classes: HashMap<Symbol, Rc<FoldedClass>>,
}

impl FoldedDeclLocalCache {
    /// The folded classes held, by class name.
    pub closed spec fn contents(&self) -> Map<Symbol, FoldedClassView> {
        folded_views(self.classes@)
    }

    pub fn new() -> (r: FoldedDeclLocalCache)
        ensures
            r.contents() == Map::<Symbol, FoldedClassView>::empty(),
    {
        let r = FoldedDeclLocalCache { classes: HashMap::new() };
        assert(r.contents() =~= Map::<Symbol, FoldedClassView>::empty());
        r
    }

    pub fn get_folded_class(&self, name: &Symbol) -> (r: Option<Rc<FoldedClass>>)
        ensures
            match r {
                Some(c) => self.contents().contains_key(*name) && c@ == self.contents()[*name],
                None => !self.contents().contains_key(*name),
            },
    {
        match self.classes.get(name) {
            Some(c) => Some(share(c)),
            None => None,
        }
    }

    pub fn put_folded_class(&mut self, name: Symbol, cls: Rc<FoldedClass>)
        ensures
            final(self).contents() == old(self).contents().insert(name, cls@),
    {
        let ghost v = cls@;
        self.classes.insert(name, cls);
        assert(self.contents() =~= old(self).contents().insert(name, v));
    }
}

} // verus!
