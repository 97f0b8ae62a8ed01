use nll_core::eval::{check_outlives, eval_constraint};
use nll_core::repr::{
    BasicBlock, Constraint, OutlivesConstraint, Point, Region, RegionName,
};

fn r(n: u32) -> RegionName {
    RegionName { name: n }
}

fn pt(b: u32, a: usize) -> Point {
    Point { block: BasicBlock(b), action: a }
}

fn region(points: Vec<Point>) -> Region {
    Region { points }
}

#[test]
fn outlives_is_point_set_containment() {
    let env = vec![
        (r(1), region(vec![pt(0, 0), pt(0, 1), pt(1, 0)])),
        (r(2), region(vec![pt(0, 1)])),
    ];
    assert!(check_outlives(&env, OutlivesConstraint { sup: r(1), sub: r(2) }));
    assert!(!check_outlives(&env, OutlivesConstraint { sup: r(2), sub: r(1) }));
}

#[test]
fn outlives_transitive_chain_accepted() {
    let env = vec![
        (r(1), region(vec![pt(0, 0), pt(0, 1), pt(1, 0)])),
        (r(2), region(vec![pt(0, 0), pt(0, 1)])),
        (r(3), region(vec![pt(0, 0)])),
    ];
    assert!(check_outlives(&env, OutlivesConstraint { sup: r(1), sub: r(2) }));
    assert!(check_outlives(&env, OutlivesConstraint { sup: r(2), sub: r(3) }));
    assert!(check_outlives(&env, OutlivesConstraint { sup: r(1), sub: r(3) }));
}

#[test]
fn outlives_transitive_chain_rejects_missing_point() {
    // points(r1) misses a point of points(r3): no assignment can
    // satisfy both obligations of the chain.
    let env = vec![
        (r(1), region(vec![pt(0, 0)])),
        (r(2), region(vec![pt(0, 0), pt(9, 9)])),
        (r(3), region(vec![pt(9, 9)])),
    ];
    let first = check_outlives(&env, OutlivesConstraint { sup: r(1), sub: r(2) });
    let second = check_outlives(&env, OutlivesConstraint { sup: r(2), sub: r(3) });
    assert!(!(first && second));
}

#[test]
fn implies_vacuous_when_premise_fails() {
    // r1 does not contain r2, so the premise fails and the implication
    // holds whatever r3 and r4 are bound to.
    let mut env = vec![
        (r(1), region(vec![])),
        (r(2), region(vec![pt(0, 0)])),
        (r(3), region(vec![pt(5, 5)])),
        (r(4), region(vec![pt(6, 6)])),
    ];
    let c = Constraint::Implies(
        vec![OutlivesConstraint { sup: r(1), sub: r(2) }],
        Box::new(Constraint::Outlives(OutlivesConstraint { sup: r(3), sub: r(4) })),
    );
    let scope: Vec<Region> = Vec::new();
    assert!(eval_constraint(&c, &mut env, &scope));
}

#[test]
fn implies_owed_when_premises_hold() {
    let mut env = vec![
        (r(1), region(vec![pt(0, 0)])),
        (r(2), region(vec![pt(0, 0)])),
        (r(3), region(vec![])),
        (r(4), region(vec![pt(6, 6)])),
    ];
    let c = Constraint::Implies(
        vec![OutlivesConstraint { sup: r(1), sub: r(2) }],
        Box::new(Constraint::Outlives(OutlivesConstraint { sup: r(3), sub: r(4) })),
    );
    let scope: Vec<Region> = Vec::new();
    assert!(!eval_constraint(&c, &mut env, &scope));
}

#[test]
fn all_is_conjunction() {
    let mut env = vec![
        (r(1), region(vec![pt(0, 0), pt(1, 1)])),
        (r(2), region(vec![pt(0, 0)])),
    ];
    let good = Constraint::Outlives(OutlivesConstraint { sup: r(1), sub: r(2) });
    let bad = Constraint::Outlives(OutlivesConstraint { sup: r(2), sub: r(1) });
    let scope: Vec<Region> = Vec::new();
    let both_good = Constraint::All(vec![
        Constraint::Outlives(OutlivesConstraint { sup: r(1), sub: r(2) }),
        Constraint::Outlives(OutlivesConstraint { sup: r(1), sub: r(1) }),
    ]);
    assert!(eval_constraint(&both_good, &mut env, &scope));
    let mixed = Constraint::All(vec![good, bad]);
    assert!(!eval_constraint(&mixed, &mut env, &scope));
}

#[test]
fn forall_ranges_over_scope() {
    // For every region x in scope: r1 outlives x. Holds when r1 is
    // bound to the union of the scope's regions.
    let mut env = vec![(r(1), region(vec![pt(0, 0), pt(1, 1)]))];
    let scope = vec![region(vec![pt(0, 0)]), region(vec![pt(1, 1)])];
    let c = Constraint::ForAll(
        vec![r(9)],
        Box::new(Constraint::Outlives(OutlivesConstraint { sup: r(1), sub: r(9) })),
    );
    assert!(eval_constraint(&c, &mut env, &scope));
    // Shrink r1: the instantiation with the second region now fails.
    let mut env = vec![(r(1), region(vec![pt(0, 0)]))];
    assert!(!eval_constraint(&c, &mut env, &scope));
}

#[test]
fn exists_needs_one_witness() {
    // Some region x in scope outlives r1.
    let mut env = vec![(r(1), region(vec![pt(1, 1)]))];
    let scope = vec![region(vec![pt(0, 0)]), region(vec![pt(1, 1)])];
    let c = Constraint::Exists(
        vec![r(9)],
        Box::new(Constraint::Outlives(OutlivesConstraint { sup: r(9), sub: r(1) })),
    );
    assert!(eval_constraint(&c, &mut env, &scope));
    // No region of the scope contains r1's points.
    let mut env = vec![(r(1), region(vec![pt(7, 7)]))];
    assert!(!eval_constraint(&c, &mut env, &scope));
}

#[test]
fn exists_fails_on_empty_scope() {
    let mut env = vec![(r(1), region(vec![]))];
    let scope: Vec<Region> = Vec::new();
    let c = Constraint::Exists(
        vec![r(9)],
        Box::new(Constraint::Outlives(OutlivesConstraint { sup: r(9), sub: r(1) })),
    );
    assert!(!eval_constraint(&c, &mut env, &scope));
    let c = Constraint::ForAll(
        vec![r(9)],
        Box::new(Constraint::Outlives(OutlivesConstraint { sup: r(9), sub: r(1) })),
    );
    assert!(eval_constraint(&c, &mut env, &scope));
}

#[test]
fn inner_binding_shadows_outer() {
    // r1 is rebound by the quantifier: the leaf sees the scope's
    // region, not the outer binding.
    let mut env = vec![(r(1), region(vec![]))];
    let scope = vec![region(vec![pt(0, 0)])];
    let c = Constraint::ForAll(
        vec![r(1)],
        Box::new(Constraint::Outlives(OutlivesConstraint { sup: r(1), sub: r(1) })),
    );
    assert!(eval_constraint(&c, &mut env, &scope));
    // The outer binding is intact afterwards.
    assert_eq!(env.len(), 1);
    assert_eq!(env[0].1.points.len(), 0);
}
