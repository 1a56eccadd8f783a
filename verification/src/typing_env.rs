//! The environment a type is checked in.
use std::collections::HashMap;
use std::rc::Rc;

use vstd::prelude::*;

use crate::decl_defs::{folded_views, share, FoldedClass, FoldedClassView};
use crate::pos::Symbol;

verus! {

broadcast use vstd::std_specs::hash::group_hash_axioms;

/// The classes and type definitions known where a type is checked.
pub struct TEnv {
    classes: HashMap<Symbol, Rc<FoldedClass>>,
}

impl TEnv {
    /// The classes known, by name.
    pub closed spec fn classes(&self) -> Map<Symbol, FoldedClassView> {
        folded_views(self.classes@)
    }

    pub fn new() -> (r: TEnv)
        ensures
            r.classes() == Map::<Symbol, FoldedClassView>::empty(),
    {
        let r = TEnv { classes: HashMap::new() };
        assert(r.classes() =~= Map::<Symbol, FoldedClassView>::empty());
        r
    }

    /// Makes a folded class known under its own name.
    pub fn add_class(&mut self, cls: Rc<FoldedClass>)
        ensures
            final(self).classes() == old(self).classes().insert(cls@.name, cls@),
    {
        let ghost v = cls@;
        let name = cls.dc_name;
        self.classes.insert(name, cls);
        assert(self.classes() =~= old(self).classes().insert(name, v));
    }

    pub fn get_class_or_typedef(&self, name: &Symbol) -> (r: Option<Rc<FoldedClass>>)
        ensures
            match r {
                Some(c) => self.classes().contains_key(*name) && c@ == self.classes()[*name],
                None => !self.classes().contains_key(*name),
            },
    {
        match self.classes.get(name) {
            Some(c) => Some(share(c)),
            None => None,
        }
    }
}

} // verus!
