use nll_core::analysis::{
    analyze, assign_obligations, borrow_action_obligations, borrow_obligations,
    check_action_obligations, obligations_hold, relate_walks, ObligationError, StructuralError,
};
use nll_core::repr::{
    Action, BasicBlock, BasicBlockData, Constraint, Func, OutlivesConstraint, Point, Region,
    RegionName, Ty, Variable, VariableDecl,
};
use nll_core::variance::Variance;

fn r(n: u32) -> RegionName {
    RegionName { name: n }
}

#[test]
fn relate_covariant_position() {
    let src = vec![(Variance::Co, r(1))];
    let dst = vec![(Variance::Co, r(2))];
    assert_eq!(
        relate_walks(&src, &dst),
        vec![OutlivesConstraint { sup: r(1), sub: r(2) }]
    );
}

#[test]
fn relate_contravariant_position() {
    let src = vec![(Variance::Co, r(1))];
    let dst = vec![(Variance::Contra, r(2))];
    assert_eq!(
        relate_walks(&src, &dst),
        vec![OutlivesConstraint { sup: r(2), sub: r(1) }]
    );
}

#[test]
fn relate_invariant_position_asks_both() {
    let src = vec![(Variance::Co, r(1))];
    let dst = vec![(Variance::In, r(2))];
    assert_eq!(
        relate_walks(&src, &dst),
        vec![
            OutlivesConstraint { sup: r(1), sub: r(2) },
            OutlivesConstraint { sup: r(2), sub: r(1) },
        ]
    );
}

#[test]
fn borrow_region_outlives_type_regions() {
    let pairs = vec![(Variance::Co, r(5)), (Variance::In, r(6))];
    assert_eq!(
        borrow_obligations(r(9), &pairs),
        vec![
            OutlivesConstraint { sup: r(9), sub: r(5) },
            OutlivesConstraint { sup: r(9), sub: r(6) },
        ]
    );
}

#[test]
fn inline_constraint_is_evaluated_at_its_point() {
    let p0 = Point { block: BasicBlock(0), action: 0 };
    let v = Variable { name: 1 };
    let c = Constraint::Outlives(OutlivesConstraint { sup: r(1), sub: r(2) });
    let func = Func {
        decls: vec![VariableDecl { var: v, ty: Box::new(Ty::Unit) }],
        structs: vec![],
        data: vec![BasicBlockData {
            name: BasicBlock(0),
            actions: vec![Action::Constraint(Box::new(c))],
            successors: vec![],
        }],
        assertions: vec![],
    };
    // r1 contains r2: the obligation passes.
    let mut env = vec![
        (r(1), Region { points: vec![p0] }),
        (r(2), Region { points: vec![p0] }),
    ];
    let report = analyze(&func, &mut env).unwrap();
    assert_eq!(report.constraint_results.len(), 1);
    assert_eq!(report.constraint_results[0].0, p0);
    assert!(report.constraint_results[0].1);
    // r1 misses r2's point: the verdict names the same location.
    let mut env = vec![
        (r(1), Region { points: vec![] }),
        (r(2), Region { points: vec![p0] }),
    ];
    let report = analyze(&func, &mut env).unwrap();
    assert_eq!(report.constraint_results.len(), 1);
    assert_eq!(report.constraint_results[0].0, p0);
    assert!(!report.constraint_results[0].1);
}

#[test]
fn unbound_region_in_constraint_is_reported() {
    let c = Constraint::Outlives(OutlivesConstraint { sup: r(1), sub: r(2) });
    let func = Func {
        decls: vec![],
        structs: vec![],
        data: vec![BasicBlockData {
            name: BasicBlock(0),
            actions: vec![Action::Constraint(Box::new(c))],
            successors: vec![],
        }],
        assertions: vec![],
    };
    let mut env = vec![(r(1), Region { points: vec![] })];
    assert!(matches!(
        analyze(&func, &mut env),
        Err(StructuralError::UnboundRegion(RegionName { name: 2 }))
    ));
}

#[test]
fn quantifier_binds_its_names() {
    // The same name is unbound as a leaf but fine under a quantifier.
    let leaf = Constraint::Outlives(OutlivesConstraint { sup: r(7), sub: r(7) });
    let c = Constraint::ForAll(vec![r(7)], Box::new(leaf));
    let func = Func {
        decls: vec![],
        structs: vec![],
        data: vec![BasicBlockData {
            name: BasicBlock(0),
            actions: vec![Action::Constraint(Box::new(c))],
            successors: vec![],
        }],
        assertions: vec![],
    };
    let mut env: Vec<(RegionName, Region)> = Vec::new();
    let report = analyze(&func, &mut env).unwrap();
    assert_eq!(report.constraint_results.len(), 1);
    assert!(report.constraint_results[0].1);
}

#[test]
fn borrow_obligations_from_declared_type() {
    let v = Variable { name: 1 };
    let func = Func {
        decls: vec![VariableDecl {
            var: v,
            ty: Box::new(Ty::Ref(r(5), Box::new(Ty::Unit))),
        }],
        structs: vec![],
        data: vec![BasicBlockData {
            name: BasicBlock(0),
            actions: vec![Action::Borrow(v, r(9))],
            successors: vec![],
        }],
        assertions: vec![],
    };
    let obs = borrow_action_obligations(&func, v, r(9)).unwrap();
    assert_eq!(obs, vec![OutlivesConstraint { sup: r(9), sub: r(5) }]);
    // The borrow's region covers the type's region: holds.
    let p0 = Point { block: BasicBlock(0), action: 0 };
    let env = vec![
        (r(9), Region { points: vec![p0] }),
        (r(5), Region { points: vec![p0] }),
    ];
    assert!(obligations_hold(&obs, &env));
    // The type's region has a point the borrow's region lacks: fails.
    let p1 = Point { block: BasicBlock(0), action: 1 };
    let env = vec![
        (r(9), Region { points: vec![p0] }),
        (r(5), Region { points: vec![p0, p1] }),
    ];
    assert!(!obligations_hold(&obs, &env));
}

#[test]
fn assign_obligations_pair_the_walks() {
    let d = Variable { name: 1 };
    let s = Variable { name: 2 };
    // dst: &'1 (), src: &'2 (): covariant position, so the source's
    // region must outlive the destination's.
    let func = Func {
        decls: vec![
            VariableDecl { var: d, ty: Box::new(Ty::Ref(r(1), Box::new(Ty::Unit))) },
            VariableDecl { var: s, ty: Box::new(Ty::Ref(r(2), Box::new(Ty::Unit))) },
        ],
        structs: vec![],
        data: vec![],
        assertions: vec![],
    };
    let obs = assign_obligations(&func, d, s).unwrap();
    assert_eq!(obs, vec![OutlivesConstraint { sup: r(2), sub: r(1) }]);
    // A shape mismatch is refused, not truncated.
    let func2 = Func {
        decls: vec![
            VariableDecl { var: d, ty: Box::new(Ty::Unit) },
            VariableDecl { var: s, ty: Box::new(Ty::Ref(r(2), Box::new(Ty::Unit))) },
        ],
        structs: vec![],
        data: vec![],
        assertions: vec![],
    };
    assert_eq!(
        assign_obligations(&func2, d, s),
        Err(ObligationError::ShapeMismatch(d, s))
    );
}

#[test]
fn assign_obligations_invariant_inner_region() {
    let d = Variable { name: 1 };
    let s = Variable { name: 2 };
    // &mut references force the inner region invariant: the pairing
    // asks for containment in both directions there.
    let func = Func {
        decls: vec![
            VariableDecl {
                var: d,
                ty: Box::new(Ty::RefMut(r(1), Box::new(Ty::Ref(r(3), Box::new(Ty::Unit))))),
            },
            VariableDecl {
                var: s,
                ty: Box::new(Ty::RefMut(r(2), Box::new(Ty::Ref(r(4), Box::new(Ty::Unit))))),
            },
        ],
        structs: vec![],
        data: vec![],
        assertions: vec![],
    };
    let obs = assign_obligations(&func, d, s).unwrap();
    assert_eq!(
        obs,
        vec![
            OutlivesConstraint { sup: r(2), sub: r(1) },
            OutlivesConstraint { sup: r(4), sub: r(3) },
            OutlivesConstraint { sup: r(3), sub: r(4) },
        ]
    );
}

#[test]
fn obligation_sweep_reports_each_action() {
    let p = Variable { name: 1 };
    let q = Variable { name: 2 };
    // Block 0: p = &'9; block 1: q = p.
    let func = Func {
        decls: vec![
            VariableDecl { var: p, ty: Box::new(Ty::Ref(r(5), Box::new(Ty::Unit))) },
            VariableDecl { var: q, ty: Box::new(Ty::Ref(r(6), Box::new(Ty::Unit))) },
        ],
        structs: vec![],
        data: vec![
            BasicBlockData {
                name: BasicBlock(0),
                actions: vec![Action::Borrow(p, r(9))],
                successors: vec![BasicBlock(1)],
            },
            BasicBlockData {
                name: BasicBlock(1),
                actions: vec![Action::Noop, Action::Assign(q, p)],
                successors: vec![],
            },
        ],
        assertions: vec![],
    };
    let pt0 = Point { block: BasicBlock(0), action: 0 };
    let pt1 = Point { block: BasicBlock(1), action: 1 };
    // '9 covers '5 (borrow ok), but '5 does not cover '6, so the
    // assignment q = p violates its covariant obligation.
    let env = vec![
        (r(9), Region { points: vec![pt0, pt1] }),
        (r(5), Region { points: vec![pt0] }),
        (r(6), Region { points: vec![pt0, pt1] }),
    ];
    let res = check_action_obligations(&func, &env).unwrap();
    assert_eq!(res, vec![(pt0, true), (pt1, false)]);
    // Enlarging '5 to cover '6 satisfies both.
    let env = vec![
        (r(9), Region { points: vec![pt0, pt1] }),
        (r(5), Region { points: vec![pt0, pt1] }),
        (r(6), Region { points: vec![pt0, pt1] }),
    ];
    let res = check_action_obligations(&func, &env).unwrap();
    assert_eq!(res, vec![(pt0, true), (pt1, true)]);
}
