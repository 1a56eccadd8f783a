//! Localization: turning declared types into the types the checker works on.
use std::rc::Rc;

use vstd::prelude::*;

use crate::decl_defs::{DeclTy, DeclTy_, FoldedClass, FunParam, FunType};
use crate::pos::{Pos, PosId, Symbol};
use crate::typing_defs::{
    ty_model, Exact, ExpandEnv, TyModel, TyShape, ReasonsCallback, Ty, TypeExpansion, TypeExpansions, Ty_,
};
use crate::typing_env::TEnv;

verus! {

/// Whether localizing `d` runs to the end where the classes named in
/// `known` are known: a known class is applied to no type arguments, and a
/// function type has no parameters.
pub open spec fn localizable(known: Set<Symbol>, d: DeclTy) -> bool
    decreases d,
{
    match *d.node {
        DeclTy_::DTprim(_) => true,
        DeclTy_::DTapply(pos_id, args) => if known.contains(pos_id.id) {
            args@.len() == 0
        } else {
            forall|i: int| 0 <= i < args@.len() ==> localizable(known, #[trigger] args@[i])
        },
        DeclTy_::DTfun(ft) => ft.ft_params@.len() == 0 && localizable(known, ft.ft_ret),
    }
}

/// Whether `t` is the localization of `d` where the classes named in `known`
/// are known: the same position; a primitive stays itself; a class type
/// becomes an inexact class type, whose arguments are dropped where the
/// class is known and localized one by one where it is not; a function type
/// keeps its parameters' positions and names and localizes their types and
/// its return type.
pub open spec fn localizes_to(known: Set<Symbol>, d: DeclTy, t: Ty) -> bool
    decreases d,
{
    &&& t.reason == d.reason
    &&& match *d.node {
        DeclTy_::DTprim(p) => *t.node == Ty_::Tprim(p),
        DeclTy_::DTapply(pos_id, args) => match *t.node {
            Ty_::Tclass(sid, exact, targs) => {
                &&& sid == pos_id
                &&& exact == Exact::Nonexact
                &&& if known.contains(pos_id.id) {
                    targs@.len() == 0
                } else {
                    &&& targs@.len() == args@.len()
                    &&& forall|i: int|
                        0 <= i < args@.len() ==> localizes_to(known, #[trigger] args@[i], targs@[i])
                }
            },
            _ => false,
        },
        DeclTy_::DTfun(ft) => match *t.node {
            Ty_::Tfun(tft) => {
                &&& tft.ft_params@.len() == ft.ft_params@.len()
                &&& forall|i: int|
                    0 <= i < ft.ft_params@.len() ==> {
                        &&& tft.ft_params@[i].fp_pos == ft.ft_params@[i].fp_pos
                        &&& tft.ft_params@[i].fp_name == ft.ft_params@[i].fp_name
                        &&& localizes_to(
                            known,
                            #[trigger] ft.ft_params@[i].fp_type,
                            tft.ft_params@[i].fp_type,
                        )
                    }
                &&& localizes_to(known, ft.ft_ret, tft.ft_ret)
            },
            _ => false,
        },
    }
}

/// Localization is a function of the known classes and the declared type:
/// any two localizations of the same type have the same model. So what
/// `Phase::localize_no_subst` returns depends on neither `ignore_errors` nor
/// `report_cycle`, and localizing does not depend on the state of the
/// expansion environment it runs in.
pub proof fn lemma_localization_is_determined(known: Set<Symbol>, d: DeclTy, t1: Ty, t2: Ty)
    requires
        localizes_to(known, d, t1),
        localizes_to(known, d, t2),
    ensures
        ty_model(t1) == ty_model(t2),
    decreases d,
{
    if decl_node(d) is DTapply {
        let args = applied_args(d);
        let a1 = class_args(t1);
        let a2 = class_args(t2);
        let pos_id = decl_node(d)->DTapply_0;
        assert(decl_node(d) == DeclTy_::DTapply(pos_id, args));
        assert(ty_node(t1) == Ty_::Tclass(pos_id, Exact::Nonexact, a1));
        assert(ty_node(t2) == Ty_::Tclass(pos_id, Exact::Nonexact, a2));
        if !known.contains(pos_id.id) {
            assert forall|i: int| 0 <= i < args@.len() implies ty_model(#[trigger] a1@[i])
                == ty_model(a2@[i]) by {
                lemma_localization_is_determined(known, args@[i], a1@[i], a2@[i]);
            }
        }
        let s1 = model_shape(ty_model(t1))->Tclass_2;
        let s2 = model_shape(ty_model(t2))->Tclass_2;
        assert(model_shape(ty_model(t1)) == TyShape::Tclass(pos_id, Exact::Nonexact, s1));
        assert(model_shape(ty_model(t2)) == TyShape::Tclass(pos_id, Exact::Nonexact, s2));
        assert forall|i: int| 0 <= i < s1.len() implies #[trigger] s1[i] == s2[i] by {
            assert(s1[i] == ty_model(a1@[i]));
            assert(s2[i] == ty_model(a2@[i]));
        }
        assert(s1 =~= s2);
        assert(ty_model(t1) == ty_model(t2));
    } else if decl_node(d) is DTfun {
        let ft = declared_fun(d);
        let f1 = fun_of(t1);
        let f2 = fun_of(t2);
        assert(decl_node(d) == DeclTy_::DTfun(ft));
        assert(ty_node(t1) == Ty_::Tfun(f1));
        assert(ty_node(t2) == Ty_::Tfun(f2));
        assert forall|i: int| 0 <= i < ft.ft_params@.len() implies ty_model(
            #[trigger] f1.ft_params@[i].fp_type,
        ) == ty_model(f2.ft_params@[i].fp_type) && f1.ft_params@[i].fp_pos == f2.ft_params@[i].fp_pos
            && f1.ft_params@[i].fp_name == f2.ft_params@[i].fp_name by {
            lemma_localization_is_determined(
                known,
                ft.ft_params@[i].fp_type,
                f1.ft_params@[i].fp_type,
                f2.ft_params@[i].fp_type,
            );
        }
        lemma_localization_is_determined(known, ft.ft_ret, f1.ft_ret, f2.ft_ret);
        let s1 = model_shape(ty_model(t1))->Tfun_0;
        let s2 = model_shape(ty_model(t2))->Tfun_0;
        assert(model_shape(ty_model(t1)) == TyShape::Tfun(s1, ty_model(f1.ft_ret)));
        assert(model_shape(ty_model(t2)) == TyShape::Tfun(s2, ty_model(f2.ft_ret)));
        assert forall|i: int| 0 <= i < s1.len() implies #[trigger] s1[i] == s2[i] by {
            assert(s1[i].ty == ty_model(f1.ft_params@[i].fp_type));
            assert(s2[i].ty == ty_model(f2.ft_params@[i].fp_type));
        }
        assert(s1 =~= s2);
        assert(ty_model(t1) == ty_model(t2));
    } else {
        let p = decl_node(d)->DTprim_0;
        assert(ty_node(t1) == Ty_::Tprim(p));
        assert(ty_node(t2) == Ty_::Tprim(p));
        assert(ty_model(t1) == ty_model(t2));
    }
}

spec fn decl_node(d: DeclTy) -> DeclTy_ {
    *d.node
}

spec fn applied_args(d: DeclTy) -> Vec<DeclTy> {
    match *d.node {
        DeclTy_::DTapply(_, args) => args,
        _ => arbitrary(),
    }
}

spec fn declared_fun(d: DeclTy) -> FunType<DeclTy> {
    match *d.node {
        DeclTy_::DTfun(ft) => ft,
        _ => arbitrary(),
    }
}

spec fn model_shape(m: TyModel) -> TyShape {
    *m.shape
}

spec fn ty_node(t: Ty) -> Ty_ {
    *t.node
}

spec fn class_args(t: Ty) -> Vec<Ty> {
    match *t.node {
        Ty_::Tclass(_, _, args) => args,
        _ => arbitrary(),
    }
}

spec fn fun_of(t: Ty) -> FunType<Ty> {
    match *t.node {
        Ty_::Tfun(ft) => ft,
        _ => arbitrary(),
    }
}

pub struct Phase;

impl Phase {
    fn localize(env: &TEnv, ety_env: &mut ExpandEnv, ty: DeclTy) -> (r: Ty)
        requires
            localizable(env.classes().dom(), ty),
        ensures
            localizes_to(env.classes().dom(), ty, r),
            *final(ety_env) == *old(ety_env),
        decreases ty, 0nat,
    {
        let r = ty.reason();
        match ty.node() {
            DeclTy_::DTprim(p) => Ty::new(r, Ty_::Tprim(*p)),
            DeclTy_::DTapply(pos_id, tyl) => match env.get_class_or_typedef(&pos_id.id) {
                Some(cls) => Self::localize_class_instantiation(
                    env,
                    ety_env,
                    r,
                    *pos_id,
                    tyl,
                    Some(&cls),
                ),
                None => Self::localize_class_instantiation(env, ety_env, r, *pos_id, tyl, None),
            },
            DeclTy_::DTfun(ft) => {
                let pos = r;
                let ft = Self::localize_ft(env, ety_env, pos, ft);
                Ty::new(r, Ty_::Tfun(ft))
            },
        }
    }

    fn localize_class_instantiation(
        env: &TEnv,
        ety_env: &mut ExpandEnv,
        r: Pos,
        sid: PosId,
        ty_args: &Vec<DeclTy>,
        class_info: Option<&Rc<FoldedClass>>,
    ) -> (res: Ty)
        requires
            class_info is Some ==> ty_args@.len() == 0,
            class_info is None ==> forall|i: int|
                0 <= i < ty_args@.len() ==> localizable(env.classes().dom(), #[trigger] ty_args@[i]),
        ensures
            res.reason == r,
            match *res.node {
                Ty_::Tclass(s, exact, targs) => {
                    &&& s == sid
                    &&& exact == Exact::Nonexact
                    &&& if class_info is Some {
                        targs@.len() == 0
                    } else {
                        &&& targs@.len() == ty_args@.len()
                        &&& forall|i: int|
                            0 <= i < ty_args@.len() ==> localizes_to(
                                env.classes().dom(),
                                #[trigger] ty_args@[i],
                                targs@[i],
                            )
                    }
                },
                _ => false,
            },
            *final(ety_env) == *old(ety_env),
        decreases ty_args@, 0nat,
    {
        match class_info {
            None => {
                // Without class info, the kinds of the arguments are unknown:
                // they are taken to be types of kind `*`.
                let saved = ety_env.expand_visible_newtype;
                ety_env.expand_visible_newtype = true;
                let mut tyl: Vec<Ty> = Vec::new();
                let n = ty_args.len();
                for i in 0..n
                    invariant
                        n == ty_args@.len(),
                        forall|j: int|
                            0 <= j < ty_args@.len() ==> localizable(
                                env.classes().dom(),
                                #[trigger] ty_args@[j],
                            ),
                        tyl@.len() == i,
                        forall|j: int|
                            0 <= j < i ==> localizes_to(
                                env.classes().dom(),
                                #[trigger] ty_args@[j],
                                tyl@[j],
                            ),
                        ety_env.expand_visible_newtype,
                        ety_env.type_expansions == old(ety_env).type_expansions,
                        ety_env.on_error == old(ety_env).on_error,
                {
                    let t = Self::localize(env, ety_env, ty_args[i].clone());
                    tyl.push(t);
                }
                ety_env.expand_visible_newtype = saved;
                Ty::new(r, Ty_::Tclass(sid, Exact::Nonexact, tyl))
            },
            Some(_class_info) => Ty::new(r, Ty_::Tclass(sid, Exact::Nonexact, Vec::new())),
        }
    }

    fn localize_ft(env: &TEnv, ety_env: &mut ExpandEnv, _def_pos: Pos, ft: &FunType<DeclTy>) -> (r:
        FunType<Ty>)
        requires
            ft.ft_params@.len() == 0,
            localizable(env.classes().dom(), ft.ft_ret),
        ensures
            r.ft_params@.len() == ft.ft_params@.len(),
            localizes_to(env.classes().dom(), ft.ft_ret, r.ft_ret),
            *final(ety_env) == *old(ety_env),
        decreases *ft, 0nat,
    {
        let mut params: Vec<FunParam<Ty>> = Vec::new();
        let n = ft.ft_params.len();
        for i in 0..n
            invariant
                n == ft.ft_params@.len(),
                n == 0,
                params@.len() == i,
                *ety_env == *old(ety_env),
        {
            let fp = &ft.ft_params[i];
            let ty = Self::localize_possibly_enforced_ty(env, ety_env, fp.fp_type.clone());
            params.push(FunParam { fp_pos: fp.fp_pos, fp_name: fp.fp_name, fp_type: ty });
        }
        let ret = Self::localize_possibly_enforced_ty(env, ety_env, ft.ft_ret.clone());
        FunType { ft_params: params, ft_ret: ret }
    }

    fn localize_possibly_enforced_ty(env: &TEnv, ety_env: &mut ExpandEnv, ty: DeclTy) -> (r: Ty)
        requires
            localizable(env.classes().dom(), ty),
        ensures
            localizes_to(env.classes().dom(), ty, r),
            *final(ety_env) == *old(ety_env),
        decreases ty, 1nat,
    {
        Self::localize(env, ety_env, ty)
    }

    /// Localizes `ty` with no type parameters to substitute. Ill-formed types
    /// are reported as invalid type hints unless `ignore_errors`, and
    /// `report_cycle` names the type definition to report a cycle at.
    pub fn localize_no_subst(
        env: &TEnv,
        ignore_errors: bool,
        report_cycle: Option<TypeExpansion>,
        ty: DeclTy,
    ) -> (r: Ty)
        requires
            localizable(env.classes().dom(), ty),
        ensures
            localizes_to(env.classes().dom(), ty, r),
    {
        let on_error = if ignore_errors {
            ReasonsCallback::Ignore
        } else {
            ReasonsCallback::InvalidTypeHint(ty.pos())
        };
        let mut ety_env = ExpandEnv::new();
        ety_env.set_type_expansions(TypeExpansions::with_report_cycle(report_cycle));
        ety_env.set_on_error(on_error);
        Self::localize(env, &mut ety_env, ty)
    }
}

} // verus!
