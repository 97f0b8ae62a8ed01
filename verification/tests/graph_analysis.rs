use nll_core::analysis::{analyze, StructuralError};
use nll_core::dominance::immediate_dominator;
use nll_core::graph::build_graph;
use nll_core::repr::{
    Action, Assertion, BasicBlock, BasicBlockData, Func, Point, Region, RegionName, Ty, Variable,
    VariableDecl,
};

fn block(name: u32, actions: Vec<Action>, successors: Vec<u32>) -> BasicBlockData {
    BasicBlockData {
        name: BasicBlock(name),
        actions,
        successors: successors.into_iter().map(BasicBlock).collect(),
    }
}

fn diamond() -> Func {
    // Entry (0) -> {A (1), B (2)} -> Merge (3).
    Func {
        decls: vec![],
        structs: vec![],
        data: vec![
            block(0, vec![Action::Noop], vec![1, 2]),
            block(1, vec![Action::Noop], vec![3]),
            block(2, vec![Action::Noop], vec![3]),
            block(3, vec![Action::Noop], vec![]),
        ],
        assertions: vec![],
    }
}

#[test]
fn diamond_dominators() {
    let func = diamond();
    let mut env: Vec<(RegionName, Region)> = Vec::new();
    let report = analyze(&func, &mut env).unwrap();
    let dom = &report.dominators;
    // dom(Merge) holds Entry and Merge, and neither branch.
    assert!(dom[3][0]);
    assert!(dom[3][3]);
    assert!(!dom[3][1]);
    assert!(!dom[3][2]);
    // dom(A) is exactly {Entry, A}.
    assert!(dom[1][0]);
    assert!(dom[1][1]);
    assert!(!dom[1][2]);
    assert!(!dom[1][3]);
}

#[test]
fn dominance_is_reflexive_round_trip() {
    let func = diamond();
    let mut env: Vec<(RegionName, Region)> = Vec::new();
    let report = analyze(&func, &mut env).unwrap();
    for b in 0..4 {
        assert!(report.dominators[b][b]);
    }
}

#[test]
fn diamond_postdominators() {
    let func = diamond();
    let mut env: Vec<(RegionName, Region)> = Vec::new();
    let report = analyze(&func, &mut env).unwrap();
    // Merge postdominates every block; the synthetic exit is node 4.
    let pdom = &report.postdominators;
    assert!(pdom[0][3]);
    assert!(pdom[1][3]);
    assert!(pdom[2][3]);
    assert!(!pdom[0][1]);
    assert!(!pdom[0][2]);
}

#[test]
fn diamond_reachability() {
    let mut func = diamond();
    // An extra block nothing flows into is unreachable.
    func.data.push(block(9, vec![], vec![]));
    let mut env: Vec<(RegionName, Region)> = Vec::new();
    let report = analyze(&func, &mut env).unwrap();
    assert!(report.reachable[0]);
    assert!(report.reachable[1]);
    assert!(report.reachable[2]);
    assert!(report.reachable[3]);
    assert!(!report.reachable[4]);
}

#[test]
fn dangling_successor_is_reported() {
    let func = Func {
        decls: vec![],
        structs: vec![],
        data: vec![block(0, vec![], vec![5])],
        assertions: vec![],
    };
    let r = build_graph(&func);
    assert!(matches!(
        r,
        Err(nll_core::graph::GraphError::DanglingBlock(BasicBlock(5)))
    ));
}

#[test]
fn empty_function_is_reported() {
    let func = Func { decls: vec![], structs: vec![], data: vec![], assertions: vec![] };
    let mut env: Vec<(RegionName, Region)> = Vec::new();
    assert!(matches!(analyze(&func, &mut env), Err(StructuralError::NoBlocks)));
}

#[test]
fn undeclared_variable_is_reported() {
    let v = Variable { name: 11 };
    let func = Func {
        decls: vec![],
        structs: vec![],
        data: vec![block(0, vec![Action::Use(v)], vec![])],
        assertions: vec![],
    };
    let mut env: Vec<(RegionName, Region)> = Vec::new();
    assert!(matches!(
        analyze(&func, &mut env),
        Err(StructuralError::UndeclaredVariable(Variable { name: 11 }))
    ));
}

#[test]
fn liveness_use_before_write() {
    let v = Variable { name: 1 };
    // Entry assigns nothing; A uses v; B writes v then uses it.
    let func = Func {
        decls: vec![VariableDecl { var: v, ty: Box::new(Ty::Unit) }],
        structs: vec![],
        data: vec![
            block(0, vec![Action::Noop], vec![1, 2]),
            block(1, vec![Action::Use(v)], vec![]),
            block(2, vec![Action::Write(v), Action::Use(v)], vec![]),
        ],
        assertions: vec![
            Assertion::Live(v, BasicBlock(0)),
            Assertion::Live(v, BasicBlock(1)),
            Assertion::NotLive(v, BasicBlock(2)),
        ],
    };
    let mut env: Vec<(RegionName, Region)> = Vec::new();
    let report = analyze(&func, &mut env).unwrap();
    // v is live into Entry (A uses it down the path) and into A, but
    // not into B, which overwrites it first.
    assert_eq!(report.assertion_results, vec![true, true, true]);
}

#[test]
fn liveness_assertion_dangling_block_is_reported() {
    let v = Variable { name: 1 };
    let func = Func {
        decls: vec![VariableDecl { var: v, ty: Box::new(Ty::Unit) }],
        structs: vec![],
        data: vec![block(0, vec![], vec![])],
        assertions: vec![Assertion::Live(v, BasicBlock(42))],
    };
    let mut env: Vec<(RegionName, Region)> = Vec::new();
    assert!(matches!(
        analyze(&func, &mut env),
        Err(StructuralError::DanglingBlock(BasicBlock(42)))
    ));
}

#[test]
fn assertion_eq_detects_one_point_difference() {
    let rn = RegionName { name: 1 };
    let p0 = Point { block: BasicBlock(0), action: 0 };
    let p1 = Point { block: BasicBlock(1), action: 1 };
    let func = Func {
        decls: vec![],
        structs: vec![],
        data: vec![block(0, vec![], vec![1]), block(1, vec![], vec![])],
        assertions: vec![Assertion::Eq(rn, Region { points: vec![p0, p1] })],
    };
    // Exact assignment: passes.
    let mut env = vec![(rn, Region { points: vec![p0, p1] })];
    let report = analyze(&func, &mut env).unwrap();
    assert_eq!(report.assertion_results, vec![true]);
    // One point missing: fails.
    let mut env = vec![(rn, Region { points: vec![p0] })];
    let report = analyze(&func, &mut env).unwrap();
    assert_eq!(report.assertion_results, vec![false]);
    // One extra point: fails.
    let p2 = Point { block: BasicBlock(1), action: 2 };
    let mut env = vec![(rn, Region { points: vec![p0, p1, p2] })];
    let report = analyze(&func, &mut env).unwrap();
    assert_eq!(report.assertion_results, vec![false]);
    // Order and duplicates do not matter: a region is a set.
    let mut env = vec![(rn, Region { points: vec![p1, p0, p1] })];
    let report = analyze(&func, &mut env).unwrap();
    assert_eq!(report.assertion_results, vec![true]);
}

#[test]
fn immediate_dominators_of_diamond() {
    let func = diamond();
    let mut env: Vec<(RegionName, Region)> = Vec::new();
    let report = analyze(&func, &mut env).unwrap();
    assert_eq!(immediate_dominator(&report.dominators, 1), Some(0));
    assert_eq!(immediate_dominator(&report.dominators, 2), Some(0));
    assert_eq!(immediate_dominator(&report.dominators, 3), Some(0));
    assert_eq!(immediate_dominator(&report.dominators, 0), None);
}
