//! The store of class declarations as written.
use std::collections::HashMap;
use std::rc::Rc;

use vstd::prelude::*;

use crate::decl_defs::ShallowClass;
use crate::pos::Symbol;

verus! {

broadcast use vstd::std_specs::hash::group_hash_axioms;

/// Class declarations as written, by class name.
pub struct ShallowDeclProvider {
    classes: HashMap<Symbol, Rc<ShallowClass>>,
}

impl ShallowDeclProvider {
    /// The declarations held, by class name.
    pub closed spec fn classes(&self) -> Map<Symbol, ShallowClass> {
        self.classes@.map_values(|c: Rc<ShallowClass>| *c)
    }

    pub fn new() -> (r: ShallowDeclProvider)
        ensures
            r.classes() == Map::<Symbol, ShallowClass>::empty(),
    {
        let r = ShallowDeclProvider { classes: HashMap::new() };
        assert(r.classes() =~= Map::<Symbol, ShallowClass>::empty());
        r
    }

    /// Records a declaration under its class's name, replacing any earlier one.
    pub fn add_class(&mut self, sc: ShallowClass)
        ensures
            final(self).classes() == old(self).classes().insert(sc.sc_name.id, sc),
    {
        let name = sc.sc_name.id;
        self.classes.insert(name, Rc::new(sc));
        assert(self.classes() =~= old(self).classes().insert(name, sc));
    }

    pub fn get_shallow_class(&self, name: &Symbol) -> (r: Option<Rc<ShallowClass>>)
        ensures
            match r {
                Some(c) => self.classes().contains_key(*name) && *c == self.classes()[*name],
                None => !self.classes().contains_key(*name),
            },
    {
        match self.classes.get(name) {
            Some(c) => Some(crate::decl_defs::share(c)),
            None => None,
        }
    }

    pub proof fn lemma_classes_finite(&self)
        ensures
            self.classes().dom().finite(),
    {
        assert(self.classes().dom() =~= self.classes@.dom());
    }
}

} // verus!
