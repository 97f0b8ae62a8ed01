use nll_core::repr::{Kind, RegionName, StructDecl, StructName, StructParameter, Ty, TyParameter};
use nll_core::variance::Variance;
use nll_core::walk::WalkError;

fn r(n: u32) -> RegionName {
    RegionName { name: n }
}

#[test]
fn invert_swaps_co_and_contra() {
    assert_eq!(Variance::Co.invert(), Variance::Contra);
    assert_eq!(Variance::Contra.invert(), Variance::Co);
    assert_eq!(Variance::In.invert(), Variance::In);
}

#[test]
fn invert_is_involutive_on_each_value() {
    assert_eq!(Variance::Co.invert().invert(), Variance::Co);
    assert_eq!(Variance::Contra.invert().invert(), Variance::Contra);
    assert_eq!(Variance::In.invert().invert(), Variance::In);
}

#[test]
fn invariance_absorbs() {
    assert_eq!(Variance::In.xform(Variance::Co), Variance::In);
    assert_eq!(Variance::In.xform(Variance::Contra), Variance::In);
    assert_eq!(Variance::In.xform(Variance::In), Variance::In);
}

#[test]
fn xform_under_co_and_contra() {
    assert_eq!(Variance::Co.xform(Variance::Contra), Variance::Contra);
    assert_eq!(Variance::Contra.xform(Variance::Co), Variance::Contra);
    assert_eq!(Variance::Contra.xform(Variance::Contra), Variance::Co);
}

#[test]
fn walk_ref_unit_yields_one_pair() {
    let structs: Vec<StructDecl> = Vec::new();
    let ty = Ty::Ref(r(7), Box::new(Ty::Unit));
    let pairs = ty.walk(&structs, Variance::Co).unwrap();
    assert_eq!(pairs, vec![(Variance::Co, r(7))]);
}

#[test]
fn walk_refmut_unit_yields_one_pair() {
    let structs: Vec<StructDecl> = Vec::new();
    let ty = Ty::RefMut(r(7), Box::new(Ty::Unit));
    let pairs = ty.walk(&structs, Variance::Co).unwrap();
    assert_eq!(pairs, vec![(Variance::Co, r(7))]);
}

#[test]
fn walk_refmut_forces_inner_invariant() {
    let structs: Vec<StructDecl> = Vec::new();
    let ty = Ty::RefMut(r(1), Box::new(Ty::Ref(r(2), Box::new(Ty::Unit))));
    let pairs = ty.walk(&structs, Variance::Co).unwrap();
    assert_eq!(pairs, vec![(Variance::Co, r(1)), (Variance::In, r(2))]);
}

#[test]
fn walk_shared_ref_keeps_inner_covariant() {
    let structs: Vec<StructDecl> = Vec::new();
    let ty = Ty::Ref(r(1), Box::new(Ty::Ref(r(2), Box::new(Ty::Unit))));
    let pairs = ty.walk(&structs, Variance::Co).unwrap();
    assert_eq!(pairs, vec![(Variance::Co, r(1)), (Variance::Co, r(2))]);
}

#[test]
fn walk_is_deterministic() {
    let structs = vec![StructDecl {
        name: StructName { name: 9 },
        parameters: vec![
            StructParameter { kind: Kind::Region, variance: Variance::Contra },
            StructParameter { kind: Kind::Region, variance: Variance::Co },
        ],
    }];
    let ty = Ty::Struct(
        StructName { name: 9 },
        vec![TyParameter::Region(r(4)), TyParameter::Region(r(5))],
    );
    let first = ty.walk(&structs, Variance::Co).unwrap();
    let second = ty.walk(&structs, Variance::Co).unwrap();
    assert_eq!(first, second);
}

#[test]
fn walk_composes_declared_variance() {
    let structs = vec![StructDecl {
        name: StructName { name: 9 },
        parameters: vec![
            StructParameter { kind: Kind::Region, variance: Variance::Contra },
            StructParameter { kind: Kind::Region, variance: Variance::Co },
        ],
    }];
    let ty = Ty::Struct(
        StructName { name: 9 },
        vec![TyParameter::Region(r(4)), TyParameter::Region(r(5))],
    );
    let pairs = ty.walk(&structs, Variance::Co).unwrap();
    assert_eq!(pairs, vec![(Variance::Contra, r(4)), (Variance::Co, r(5))]);
}

#[test]
fn walk_undeclared_struct_fails() {
    let structs: Vec<StructDecl> = Vec::new();
    let ty = Ty::Struct(StructName { name: 3 }, vec![]);
    assert_eq!(
        ty.walk(&structs, Variance::Co),
        Err(WalkError::UndeclaredStruct(StructName { name: 3 }))
    );
}

#[test]
fn walk_arity_mismatch_fails() {
    let structs = vec![StructDecl {
        name: StructName { name: 3 },
        parameters: vec![StructParameter { kind: Kind::Region, variance: Variance::Co }],
    }];
    let ty = Ty::Struct(StructName { name: 3 }, vec![]);
    assert_eq!(
        ty.walk(&structs, Variance::Co),
        Err(WalkError::ArityMismatch(StructName { name: 3 }))
    );
}

#[test]
fn walk_kind_mismatch_fails() {
    let structs = vec![StructDecl {
        name: StructName { name: 3 },
        parameters: vec![StructParameter { kind: Kind::Type, variance: Variance::Co }],
    }];
    let ty = Ty::Struct(StructName { name: 3 }, vec![TyParameter::Region(r(1))]);
    assert_eq!(
        ty.walk(&structs, Variance::Co),
        Err(WalkError::KindMismatch(StructName { name: 3 }))
    );
}
