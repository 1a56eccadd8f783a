//! Declared types and class declarations, before and after folding.
use std::collections::HashMap;
use std::rc::Rc;

use vstd::prelude::*;

use crate::pos::{Pos, PosId, Symbol};

verus! {

/// Primitive types.
#[derive(Clone, Copy, Debug, PartialEq, Eq, Structural)]
pub enum Prim {
    Tnull,
    Tvoid,
    Tint,
    Tbool,
    Tfloat,
    Tstring,
    Tresource,
    Tnum,
    Tarraykey,
    Tnoreturn,
}

/// A parameter of a function type.
pub struct FunParam<T> {
    pub fp_pos: Pos,
    pub fp_name: Option<Symbol>,
    pub fp_type: T,
}

/// A function type over some representation `T` of types.
pub struct FunType<T> {
    pub ft_params: Vec<FunParam<T>>,
    pub ft_ret: T,
}

/// The shape of a declared type.
#[allow(non_camel_case_types)]
pub enum DeclTy_ {
    DTprim(Prim),
    DTapply(PosId, Vec<DeclTy>),
    DTfun(FunType<DeclTy>),
}

/// A declared type: its shape, shared, and the position it was written at.
pub struct DeclTy {
    pub reason: Pos,
    pub node: Rc<DeclTy_>,
}

/// The class a declared type names, if it is a class type.
pub open spec fn class_ref(ty: DeclTy) -> Option<Symbol> {
    match *ty.node {
        DeclTy_::DTapply(pos_id, _) => Some(pos_id.id),
        _ => None,
    }
}

/// Calls `std::rc::Rc::clone`, trusted to return a handle to the same
/// allocation, so a value equal to the one `rc` points at (std documents that
/// it makes another pointer to the same allocation).
#[verifier::external_body]
pub(crate) fn share<T>(rc: &Rc<T>) -> (res: Rc<T>)
    ensures
        res == *rc,
{
    Rc::clone(rc)
}

impl Clone for DeclTy {
    fn clone(&self) -> (res: Self)
        ensures
            res == *self,
    {
        DeclTy { reason: self.reason, node: share(&self.node) }
    }
}

impl DeclTy {
    pub fn new(reason: Pos, node: DeclTy_) -> (r: DeclTy)
        ensures
            r.reason == reason,
            *r.node == node,
    {
        DeclTy { reason, node: Rc::new(node) }
    }

    pub fn reason(&self) -> (r: Pos)
        ensures
            r == self.reason,
    {
        self.reason
    }

    /// Where the type was written.
    pub fn pos(&self) -> (r: Pos)
        ensures
            r == self.reason,
    {
        self.reason
    }

    pub fn node(&self) -> (r: &DeclTy_)
        ensures
            *r == *self.node,
    {
        &*self.node
    }

    pub fn unwrap_class_type(&self) -> (r: Option<(Pos, PosId, &Vec<DeclTy>)>)
        ensures
            r is Some <==> class_ref(*self) is Some,
            r matches Some((p, pid, args)) ==> p == self.reason && *self.node == DeclTy_::DTapply(pid, *args),
    {
        match self.node() {
            DeclTy_::DTapply(pos_id, args) => Some((self.reason, *pos_id, args)),
            _ => None,
        }
    }
}


/// A method as declared in a class body.
pub struct ShallowMethod {
    pub sm_name: PosId,
}

/// A class as declared, before anything is inherited into it.
pub struct ShallowClass {
    pub sc_name: PosId,
    pub sc_extends: Vec<DeclTy>,
    pub sc_methods: Vec<ShallowMethod>,
}

/// A member of a folded class and the class it was declared in.
#[derive(Clone, Copy, Debug, PartialEq, Eq, Structural)]
pub struct FoldedElement {
    pub elt_origin: Symbol,
}

/// How an ancestor was reached: the class that named it as a parent, and
/// whether that came from a `require extends` clause. No substitution of type
/// arguments for type parameters is kept: declared types have no variant
/// that names a type parameter, so such a substitution would be empty.
#[derive(Clone, Copy, Debug, PartialEq, Eq, Structural)]
pub struct SubstContext {
    pub sc_class_context: Symbol,
    pub sc_from_req_extends: bool,
}

/// A class with everything it inherits folded in.
pub struct FoldedClass {
    pub dc_name: Symbol,
    pub dc_pos: Pos,
    pub dc_substs: HashMap<Symbol, SubstContext>,
    pub dc_ancestors: HashMap<Symbol, DeclTy>,
    pub dc_methods: HashMap<Symbol, FoldedElement>,
}

/// The mathematical content of a folded class.
#[verifier::ext_equal]
pub struct FoldedClassView {
    pub name: Symbol,
    pub pos: Pos,
    pub substs: Map<Symbol, SubstContext>,
    pub ancestors: Map<Symbol, DeclTy>,
    pub methods: Map<Symbol, FoldedElement>,
}

impl View for FoldedClass {
    type V = FoldedClassView;

    open spec fn view(&self) -> FoldedClassView {
        FoldedClassView {
            name: self.dc_name,
            pos: self.dc_pos,
            substs: self.dc_substs@,
            ancestors: self.dc_ancestors@,
            methods: self.dc_methods@,
        }
    }
}


/// The contents of a map of shared folded classes.
pub open spec fn folded_views(m: Map<Symbol, Rc<FoldedClass>>) -> Map<Symbol, FoldedClassView> {
    m.map_values(|c: Rc<FoldedClass>| c@)
}

} // verus!
