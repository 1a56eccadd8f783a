//! Localized types and the environment that type expansion runs in.
use std::rc::Rc;

use vstd::prelude::*;

use crate::decl_defs::{share, FunType, Prim};
use crate::pos::{Pos, PosId, Symbol};

verus! {

/// Whether a class type denotes exactly that class or possibly a subclass.
#[derive(Clone, Copy, Debug, PartialEq, Eq, Structural)]
pub enum Exact {
    Exact,
    Nonexact,
}

/// The shape of a localized type.
#[allow(non_camel_case_types)]
pub enum Ty_ {
    Tprim(Prim),
    Tclass(PosId, Exact, Vec<Ty>),
    Tfun(FunType<Ty>),
}

/// A localized type: its shape, shared, and the position it stems from.
pub struct Ty {
    pub reason: Pos,
    pub node: Rc<Ty_>,
}

impl Clone for Ty {
    fn clone(&self) -> (res: Self)
        ensures
            res == *self,
    {
        Ty { reason: self.reason, node: share(&self.node) }
    }
}

impl Ty {
    pub fn new(reason: Pos, node: Ty_) -> (r: Ty)
        ensures
            r.reason == reason,
            *r.node == node,
    {
        Ty { reason, node: Rc::new(node) }
    }

    pub fn reason(&self) -> (r: Pos)
        ensures
            r == self.reason,
    {
        self.reason
    }

    pub fn node(&self) -> (r: &Ty_)
        ensures
            *r == *self.node,
    {
        &*self.node
    }
}

/// The mathematical content of a localized type: its position and shape.
pub struct TyModel {
    pub reason: Pos,
    pub shape: Box<TyShape>,
}

/// The shape of a localized type, with its parts as models.
pub enum TyShape {
    Tprim(Prim),
    Tclass(PosId, Exact, Seq<TyModel>),
    Tfun(Seq<ParamModel>, TyModel),
}

/// A parameter of a function type, with its type as a model.
pub struct ParamModel {
    pub pos: Pos,
    pub name: Option<Symbol>,
    pub ty: TyModel,
}

/// The model of a localized type: two types with the same model are the
/// same type, whatever vectors and shared nodes hold them.
pub open spec fn ty_model(t: Ty) -> TyModel
    decreases t,
{
    TyModel {
        reason: t.reason,
        shape: Box::new(
            match *t.node {
                Ty_::Tprim(p) => TyShape::Tprim(p),
                Ty_::Tclass(sid, exact, targs) => TyShape::Tclass(
                    sid,
                    exact,
                    Seq::new(
                        targs@.len(),
                        |i: int|
                            if 0 <= i < targs@.len() {
                                ty_model(targs@[i])
                            } else {
                                arbitrary()
                            },
                    ),
                ),
                Ty_::Tfun(ft) => TyShape::Tfun(
                    Seq::new(
                        ft.ft_params@.len(),
                        |i: int|
                            ParamModel {
                                pos: ft.ft_params@[i].fp_pos,
                                name: ft.ft_params@[i].fp_name,
                                ty: if 0 <= i < ft.ft_params@.len() {
                                    ty_model(ft.ft_params@[i].fp_type)
                                } else {
                                    arbitrary()
                                },
                            },
                    ),
                    ty_model(ft.ft_ret),
                ),
            },
        ),
    }
}

/// A type definition being expanded, named at a position if one is known.
#[derive(Clone, Copy, Debug, PartialEq, Eq, Structural)]
pub struct TypeExpansion {
    pub pos: Option<Pos>,
    pub name: Symbol,
}

/// The type definitions being expanded, and the one to report a cycle at.
pub struct TypeExpansions {
    pub report_cycle: Option<TypeExpansion>,
    pub expansions: Vec<TypeExpansion>,
}

impl TypeExpansions {
    pub fn with_report_cycle(report_cycle: Option<TypeExpansion>) -> (r: TypeExpansions)
        ensures
            r.report_cycle == report_cycle,
            r.expansions@.len() == 0,
    {
        TypeExpansions { report_cycle, expansions: Vec::new() }
    }
}

/// What to do when expansion meets an ill-formed type.
#[derive(Clone, Copy, Debug, PartialEq, Eq, Structural)]
pub enum ReasonsCallback {
    /// Report nothing.
    Ignore,
    /// Report an invalid type hint written at the position.
    InvalidTypeHint(Pos),
}

/// The environment type expansion runs in.
pub struct ExpandEnv {
    pub type_expansions: TypeExpansions,
    pub expand_visible_newtype: bool,
    pub on_error: ReasonsCallback,
}

impl ExpandEnv {
    pub fn new() -> (r: ExpandEnv)
        ensures
            r.type_expansions.report_cycle is None,
            r.type_expansions.expansions@.len() == 0,
            r.expand_visible_newtype,
            r.on_error == ReasonsCallback::Ignore,
    {
        ExpandEnv {
            type_expansions: TypeExpansions::with_report_cycle(None),
            expand_visible_newtype: true,
            on_error: ReasonsCallback::Ignore,
        }
    }

    pub fn set_type_expansions(&mut self, type_expansions: TypeExpansions)
        ensures
            final(self).type_expansions == type_expansions,
            final(self).expand_visible_newtype == old(self).expand_visible_newtype,
            final(self).on_error == old(self).on_error,
    {
        self.type_expansions = type_expansions;
    }

    pub fn set_on_error(&mut self, on_error: ReasonsCallback)
        ensures
            final(self).on_error == on_error,
            final(self).type_expansions == old(self).type_expansions,
            final(self).expand_visible_newtype == old(self).expand_visible_newtype,
    {
        self.on_error = on_error;
    }
}

} // verus!
