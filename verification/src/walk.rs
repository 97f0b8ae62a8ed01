//! The variance-directed walk over a type's structure.
//!
//! `walk(ty, ambient)` yields the ordered sequence of (variance, region)
//! pairs a consumer needs to generate outlives obligations: every region
//! mentioned in the type, each tagged with the variance of its position.
//! Descending through a shared reference keeps the ambient variance;
//! descending through a mutable reference forces it invariant; descending
//! into a struct parameter composes the ambient with the parameter's
//! declared variance. A struct application naming an undeclared struct,
//! or one whose arguments disagree with the declaration in number or in
//! kind, is a validation failure: the walk never truncates or pads.

use vstd::prelude::*;

use crate::repr::{Kind, RegionName, StructDecl, StructName, StructParameter, Ty, TyParameter};
use crate::variance::Variance;

verus! {

/// Why a walk failed validation.
#[derive(Clone, Copy, Debug, Hash, PartialEq, Eq, Structural)]
pub enum WalkError {
    /// A struct application names a struct with no declaration.
    UndeclaredStruct(StructName),
    /// A struct application supplies the wrong number of arguments.
    ArityMismatch(StructName),
    /// An argument is a region where the declaration asks for a type,
    /// or the other way round.
    KindMismatch(StructName),
}

/// The declaration of the first struct named `name`, if any.
pub open spec fn struct_decl_for(structs: Seq<StructDecl>, name: StructName) -> Option<StructDecl>
    decreases structs.len(),
{
    if structs.len() == 0 {
        None
    } else if structs[0].name == name {
        Some(structs[0])
    } else {
        struct_decl_for(structs.subrange(1, structs.len() as int), name)
    }
}

/// Looks up the declaration of the struct named `name`: the first
/// declaration under that name, or `None` when there is none.
pub fn find_struct_decl<'a>(structs: &'a Vec<StructDecl>, name: StructName) -> (r: Option<
    &'a StructDecl,
>)
    ensures
        match r {
            Some(d) => struct_decl_for(structs@, name) == Some(*d),
            None => struct_decl_for(structs@, name) is None,
        },
{
    let n: usize = structs.len();
    let mut i: usize = 0;
    proof {
        assert(structs@.subrange(0, n as int) =~= structs@);
    }
    while i < n
        invariant
            n == structs.len(),
            i <= n,
            struct_decl_for(structs@, name) == struct_decl_for(
                structs@.subrange(i as int, n as int),
                name,
            ),
        decreases n - i,
    {
        if structs[i].name == name {
            proof {
                assert(structs@.subrange(i as int, n as int)[0] == structs@[i as int]);
            }
            return Some(&structs[i]);
        }
        proof {
            assert(structs@.subrange(i as int, n as int).subrange(
                1,
                structs@.subrange(i as int, n as int).len() as int,
            ) =~= structs@.subrange(i as int + 1, n as int));
        }
        i = i + 1;
    }
    proof {
        assert(structs@.subrange(n as int, n as int).len() == 0);
    }
    None
}

impl Ty {
    /// The sequence a walk of `self` under ambient variance `v` yields,
    /// or the validation failure it runs into first.
    pub open spec fn walk_spec(self, structs: Seq<StructDecl>, v: Variance) -> Result<
        Seq<(Variance, RegionName)>,
        WalkError,
    >
        decreases self, 0int,
    {
        match self {
            Ty::Ref(rn, t) => match t.walk_spec(structs, v) {
                Ok(rest) => Ok(seq![(v, rn)] + rest),
                Err(e) => Err(e),
            },
            Ty::RefMut(rn, t) => match t.walk_spec(structs, v.xform_spec(Variance::In)) {
                Ok(rest) => Ok(seq![(v, rn)] + rest),
                Err(e) => Err(e),
            },
            Ty::Unit => Ok(Seq::empty()),
            Ty::Struct(name, params) => match struct_decl_for(structs, name) {
                None => Err(WalkError::UndeclaredStruct(name)),
                Some(decl) => if decl.parameters@.len() != params@.len() {
                    Err(WalkError::ArityMismatch(name))
                } else {
                    walk_params_spec(structs, name, params@, decl.parameters@, v)
                },
            },
        }
    }
}

impl Ty {
    /// Walks `self` under the ambient variance `v`, yielding the ordered
    /// (variance, region) pairs of every region position in the type, or
    /// the first validation failure: an undeclared struct, a wrong
    /// argument count, or an argument of the wrong kind.
    #[verifier::loop_isolation(false)]
    pub fn walk(&self, structs: &Vec<StructDecl>, v: Variance) -> (r: Result<
        Vec<(Variance, RegionName)>,
        WalkError,
    >)
        ensures
            match r {
                Ok(pairs) => self.walk_spec(structs@, v) == Ok::<
                    Seq<(Variance, RegionName)>,
                    WalkError,
                >(pairs@),
                Err(e) => self.walk_spec(structs@, v) == Err::<
                    Seq<(Variance, RegionName)>,
                    WalkError,
                >(e),
            },
        decreases *self,
    {
        match self {
            Ty::Ref(rn, t) => match t.walk(structs, v) {
                Ok(mut rest) => {
                    let ghost rest_view = rest@;
                    let mut out: Vec<(Variance, RegionName)> = Vec::new();
                    out.push((v, *rn));
                    out.append(&mut rest);
                    proof {
                        assert(out@ =~= seq![(v, *rn)] + rest_view);
                    }
                    Ok(out)
                },
                Err(e) => Err(e),
            },
            Ty::RefMut(rn, t) => match t.walk(structs, v.xform(Variance::In)) {
                Ok(mut rest) => {
                    let ghost rest_view = rest@;
                    let mut out: Vec<(Variance, RegionName)> = Vec::new();
                    out.push((v, *rn));
                    out.append(&mut rest);
                    proof {
                        assert(out@ =~= seq![(v, *rn)] + rest_view);
                    }
                    Ok(out)
                },
                Err(e) => Err(e),
            },
            Ty::Unit => {
                let out: Vec<(Variance, RegionName)> = Vec::new();
                proof {
                    assert(out@ =~= Seq::<(Variance, RegionName)>::empty());
                }
                Ok(out)
            },
            Ty::Struct(name, params) => match find_struct_decl(structs, *name) {
                None => Err(WalkError::UndeclaredStruct(*name)),
                Some(decl) => {
                    if decl.parameters.len() != params.len() {
                        Err(WalkError::ArityMismatch(*name))
                    } else {
                        let n: usize = params.len();
                        let mut out: Vec<(Variance, RegionName)> = Vec::new();
                        let mut i: usize = 0;
                        proof {
                            assert(params@.subrange(0, n as int) =~= params@);
                            assert(decl.parameters@.subrange(0, n as int) =~= decl.parameters@);
                            let full = walk_params_spec(structs@, *name, params@, decl.parameters@, v);
                            if full is Ok {
                                assert(out@ + full->Ok_0 =~= full->Ok_0);
                            }
                        }
                        while i < n
                            invariant
                                n == params.len(),
                                n == decl.parameters.len(),
                                i <= n,
                                walk_params_spec(structs@, *name, params@, decl.parameters@, v)
                                    == (match walk_params_spec(
                                    structs@,
                                    *name,
                                    params@.subrange(i as int, n as int),
                                    decl.parameters@.subrange(i as int, n as int),
                                    v,
                                ) {
                                    Ok(rest) => Ok::<Seq<(Variance, RegionName)>, WalkError>(
                                        out@ + rest,
                                    ),
                                    Err(e) => Err::<Seq<(Variance, RegionName)>, WalkError>(e),
                                }),
                            decreases n - i,
                        {
                            let ghost pre_params = params@.subrange(i as int, n as int);
                            let ghost pre_decls = decl.parameters@.subrange(i as int, n as int);
                            proof {
                                assert(pre_params[0] == params@[i as int]);
                                assert(pre_decls[0] == decl.parameters@[i as int]);
                                assert(pre_params.subrange(1, pre_params.len() as int)
                                    =~= params@.subrange(i as int + 1, n as int));
                                assert(pre_decls.subrange(1, pre_decls.len() as int)
                                    =~= decl.parameters@.subrange(i as int + 1, n as int));
                            }
                            let decl_p = decl.parameters[i];
                            let composed = v.xform(decl_p.variance);
                            let ghost out_before = out@;
                            match &params[i] {
                                TyParameter::Region(rn) => match decl_p.kind {
                                    Kind::Region => {
                                        out.push((composed, *rn));
                                        proof {
                                            assert(out@ =~= out_before + seq![(composed, *rn)]);
                                            let tail = walk_params_spec(
                                                structs@,
                                                *name,
                                                params@.subrange(i as int + 1, n as int),
                                                decl.parameters@.subrange(i as int + 1, n as int),
                                                v,
                                            );
                                            if tail is Ok {
                                                assert(out_before + (seq![(composed, *rn)]
                                                    + tail->Ok_0) =~= out@ + tail->Ok_0);
                                            }
                                        }
                                    },
                                    Kind::Type => {
                                        proof {
                                            assert(walk_params_spec(structs@, *name, pre_params,
                                                pre_decls, v) == Err::<
                                                Seq<(Variance, RegionName)>,
                                                WalkError,
                                            >(WalkError::KindMismatch(*name)));
                                        }
                                        return Err(WalkError::KindMismatch(*name));
                                    },
                                },
                                TyParameter::Ty(t) => match decl_p.kind {
                                    Kind::Type => match t.walk(structs, composed) {
                                        Ok(mut rest) => {
                                            let ghost rest_view = rest@;
                                            out.append(&mut rest);
                                            proof {
                                                assert(out@ =~= out_before + rest_view);
                                                let tail = walk_params_spec(
                                                    structs@,
                                                    *name,
                                                    params@.subrange(i as int + 1, n as int),
                                                    decl.parameters@.subrange(i as int + 1, n as int),
                                                    v,
                                                );
                                                if tail is Ok {
                                                    assert(out_before + (rest_view + tail->Ok_0)
                                                        =~= out@ + tail->Ok_0);
                                                }
                                            }
                                        },
                                        Err(e) => {
                                            return Err(e);
                                        },
                                    },
                                    Kind::Region => {
                                        proof {
                                            assert(walk_params_spec(structs@, *name, pre_params,
                                                pre_decls, v) == Err::<
                                                Seq<(Variance, RegionName)>,
                                                WalkError,
                                            >(WalkError::KindMismatch(*name)));
                                        }
                                        return Err(WalkError::KindMismatch(*name));
                                    },
                                },
                            }
                            i = i + 1;
                        }
                        proof {
                            assert(params@.subrange(n as int, n as int).len() == 0);
                            assert(out@ + Seq::<(Variance, RegionName)>::empty() =~= out@);
                        }
                        Ok(out)
                    }
                },
            },
        }
    }
}

/// Two walks with identical inputs yield identical results: the walk is
/// a pure function of the type, the struct declarations and the ambient
/// variance, so its output is deterministic.
pub proof fn lemma_walk_deterministic(
    structs: Seq<StructDecl>,
    ty: Ty,
    v: Variance,
    r1: Result<Seq<(Variance, RegionName)>, WalkError>,
    r2: Result<Seq<(Variance, RegionName)>, WalkError>,
)
    requires
        r1 == ty.walk_spec(structs, v),
        r2 == ty.walk_spec(structs, v),
    ensures
        r1 == r2,
{
}

/// The walk of the argument list of a struct application, position by
/// position: each argument's obligations under the ambient variance
/// composed with the declared variance of its slot.
pub open spec fn walk_params_spec(
    structs: Seq<StructDecl>,
    name: StructName,
    params: Seq<TyParameter>,
    decls: Seq<StructParameter>,
    v: Variance,
) -> Result<Seq<(Variance, RegionName)>, WalkError>
    decreases params, 1int,
{
    if params.len() == 0 {
        Ok(Seq::empty())
    } else {
        let composed = v.xform_spec(decls[0].variance);
        let head: Result<Seq<(Variance, RegionName)>, WalkError> = match params[0] {
            TyParameter::Region(rn) => if decls[0].kind is Region {
                Ok(seq![(composed, rn)])
            } else {
                Err(WalkError::KindMismatch(name))
            },
            TyParameter::Ty(t) => if decls[0].kind is Type {
                t.walk_spec(structs, composed)
            } else {
                Err(WalkError::KindMismatch(name))
            },
        };
        match head {
            Err(e) => Err(e),
            Ok(h) => match walk_params_spec(
                structs,
                name,
                params.subrange(1, params.len() as int),
                decls.subrange(1, decls.len() as int),
                v,
            ) {
                Err(e) => Err(e),
                Ok(rest) => Ok(h + rest),
            },
        }
    }
}

} // verus!
