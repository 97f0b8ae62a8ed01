//! The whole pipeline over one function: structural validation, the
//! control-flow tables, and the evaluation of constraints and
//! assertions against a candidate region assignment.
//!
//! Structural errors — a missing entry block, a dangling block name, an
//! undeclared variable, an unbound region name — are detected before
//! any evaluation and abort the analysis of the function. Constraint
//! and assertion violations are ordinary outcomes, reported per item
//! with its location.

use vstd::prelude::*;

use crate::dominance::{
    above_all_solutions, is_dom_solution, preds_view, rows_view, solve_dominators,
};
use crate::eval::{env_view, eval_constraint, lookup_spec, sat, scope_view};
use crate::graph::{
    below_all_closed, build_graph, closed_under_succs, compute_reachable, postdom_preds,
    FuncGraph, GraphError,
};
use crate::liveness::{
    gen_exec, gen_from, is_live_solution, kill_exec, kill_from, live_shape, below_all_live_solutions,
    solve_liveness,
};
use crate::repr::{
    Action, Assertion, BasicBlock, Constraint, Func, Point, Region, RegionName, Variable,
};
use crate::variance::Variance;

verus! {

/// A structural fault that aborts analysis of the function.
#[derive(Clone, Copy, Debug, Hash, PartialEq, Eq, Structural)]
pub enum StructuralError {
    /// The function has no blocks, so no entry block exists.
    NoBlocks,
    /// A successor list or an assertion names a block that does not
    /// exist.
    DanglingBlock(BasicBlock),
    /// An action or an assertion names a variable with no declaration.
    UndeclaredVariable(Variable),
    /// A constraint or an assertion names a region that neither the
    /// assignment nor an enclosing quantifier binds.
    UnboundRegion(RegionName),
}

/// Whether `v` has a declaration in `func`.
pub open spec fn var_declared(func: Func, v: Variable) -> bool {
    exists|i: int| 0 <= i < func.decls@.len() && #[trigger] func.decls@[i].var == v
}

/// Whether some block of `func` is named `b`.
pub open spec fn block_declared(func: Func, b: BasicBlock) -> bool {
    exists|i: int| 0 <= i < func.data@.len() && #[trigger] func.data@[i].name == b
}

/// Whether every variable an action reads or writes is declared.
pub open spec fn action_vars_declared(func: Func, a: Action) -> bool {
    match a {
        Action::Borrow(v, _) => var_declared(func, v),
        Action::Assign(d, s) => var_declared(func, d) && var_declared(func, s),
        Action::Use(v) => var_declared(func, v),
        Action::Write(v) => var_declared(func, v),
        Action::Constraint(_) => true,
        Action::Noop => true,
    }
}

/// Whether every region name of `c` is bound: by the assignment's
/// bindings handed in through `bound`, or by an enclosing quantifier.
pub open spec fn constraint_closed(c: Constraint, bound: Seq<RegionName>) -> bool
    decreases c, 0int,
{
    match c {
        Constraint::ForAll(ns, body) => constraint_closed(*body, bound + ns@),
        Constraint::Exists(ns, body) => constraint_closed(*body, bound + ns@),
        Constraint::Implies(ps, body) => {
            &&& forall|i: int|
                0 <= i < ps@.len() ==> bound.contains(#[trigger] ps@[i].sup) && bound.contains(
                    ps@[i].sub,
                )
            &&& constraint_closed(*body, bound)
        },
        Constraint::All(cs) => forall|i: int|
            0 <= i < cs@.len() ==> constraint_closed(#[trigger] cs@[i], bound),
        Constraint::Outlives(oc) => bound.contains(oc.sup) && bound.contains(oc.sub),
    }
}

/// Whether an assertion's names all resolve: its region is bound, its
/// block exists, its variable is declared.
pub open spec fn assertion_names_ok(func: Func, a: Assertion, bound: Seq<RegionName>) -> bool {
    match a {
        Assertion::Eq(rn, _) => bound.contains(rn),
        Assertion::In(rn, p) => bound.contains(rn) && block_declared(func, p.block),
        Assertion::NotIn(rn, p) => bound.contains(rn) && block_declared(func, p.block),
        Assertion::Live(v, b) => var_declared(func, v) && block_declared(func, b),
        Assertion::NotLive(v, b) => var_declared(func, v) && block_declared(func, b),
    }
}

/// The region names the assignment binds, in binding order.
pub open spec fn bound_names(env: Seq<(RegionName, Region)>) -> Seq<RegionName> {
    Seq::new(env.len(), |i: int| env[i].0)
}

/// Whether the whole function is structurally sound against the
/// assignment: actions and assertions name only declared variables,
/// existing blocks and bound regions.
pub open spec fn func_names_ok(func: Func, bound: Seq<RegionName>) -> bool {
    &&& forall|b: int, a: int|
        0 <= b < func.data@.len() && 0 <= a < func.data@[b].actions@.len()
            ==> action_vars_declared(func, #[trigger] func.data@[b].actions@[a])
    &&& forall|b: int, a: int|
        0 <= b < func.data@.len() && 0 <= a < func.data@[b].actions@.len()
            ==> (#[trigger] func.data@[b].actions@[a] matches Action::Constraint(c)
                ==> constraint_closed(*c, bound))
    &&& forall|i: int|
        0 <= i < func.assertions@.len() ==> assertion_names_ok(
            func,
            #[trigger] func.assertions@[i],
            bound,
        )
}

/// Every premise before position `k` has both of its names bound.
pub open spec fn premises_bound_prefix(
    ps: Seq<crate::repr::OutlivesConstraint>,
    bound: Seq<RegionName>,
    k: int,
) -> bool {
    forall|j: int|
        0 <= j < k ==> bound.contains(#[trigger] ps[j].sup) && bound.contains(ps[j].sub)
}

/// Looks up the index of `v`'s declaration.
pub fn find_var(func: &Func, v: Variable) -> (r: Option<usize>)
    ensures
        match r {
            Some(i) => i < func.decls@.len() && func.decls@[i as int].var == v,
            None => !var_declared(*func, v),
        },
{
    let n: usize = func.decls.len();
    let mut i: usize = 0;
    while i < n
        invariant
            n == func.decls@.len(),
            i <= n,
            forall|j: int| 0 <= j < i ==> func.decls@[j].var != v,
        decreases n - i,
    {
        if func.decls[i].var.name == v.name {
            return Some(i);
        }
        i = i + 1;
    }
    None
}

/// A vector holding `bound` followed by `ns`.
fn extend_names(bound: &Vec<RegionName>, ns: &Vec<RegionName>) -> (r: Vec<RegionName>)
    ensures
        r@ == bound@ + ns@,
{
    let mut r: Vec<RegionName> = Vec::new();
    let n: usize = bound.len();
    let mut i: usize = 0;
    while i < n
        invariant
            n == bound@.len(),
            i <= n,
            r@ =~= bound@.subrange(0, i as int),
        decreases n - i,
    {
        r.push(bound[i]);
        i = i + 1;
    }
    let m: usize = ns.len();
    let mut k: usize = 0;
    proof {
        assert(bound@.subrange(0, n as int) =~= bound@);
    }
    while k < m
        invariant
            m == ns@.len(),
            k <= m,
            r@ =~= bound@ + ns@.subrange(0, k as int),
        decreases m - k,
    {
        r.push(ns[k]);
        k = k + 1;
    }
    proof {
        assert(ns@.subrange(0, m as int) =~= ns@);
        assert(r@ =~= bound@ + ns@);
    }
    r
}

/// Whether `bound` lists `name`.
fn name_bound(bound: &Vec<RegionName>, name: RegionName) -> (r: bool)
    ensures
        r == bound@.contains(name),
{
    let n: usize = bound.len();
    let mut i: usize = 0;
    while i < n
        invariant
            n == bound@.len(),
            i <= n,
            forall|j: int| 0 <= j < i ==> bound@[j] != name,
        decreases n - i,
    {
        if bound[i].name == name.name {
            return true;
        }
        i = i + 1;
    }
    false
}

/// Finds the first region name of `c` that neither `bound` nor an
/// enclosing quantifier binds, or reports that every name resolves.
#[verifier::loop_isolation(false)]
pub fn find_unbound(c: &Constraint, bound: &Vec<RegionName>) -> (r: Option<RegionName>)
    ensures
        match r {
            None => constraint_closed(*c, bound@),
            Some(rn) => !constraint_closed(*c, bound@) && !bound@.contains(rn),
        },
    decreases *c, 0int,
{
    match c {
        Constraint::ForAll(ns, body) => {
            let extended = extend_names(bound, ns);
            let r = find_unbound(body, &extended);
            proof {
                if r is Some {
                    let rn = r->Some_0;
                    assert(!(bound@ + ns@).contains(rn));
                    assert forall|j: int| 0 <= j < bound@.len() implies bound@[j] != rn by {
                        assert((bound@ + ns@)[j] == bound@[j]);
                    }
                }
            }
            r
        },
        Constraint::Exists(ns, body) => {
            let extended = extend_names(bound, ns);
            let r = find_unbound(body, &extended);
            proof {
                if r is Some {
                    let rn = r->Some_0;
                    assert(!(bound@ + ns@).contains(rn));
                    assert forall|j: int| 0 <= j < bound@.len() implies bound@[j] != rn by {
                        assert((bound@ + ns@)[j] == bound@[j]);
                    }
                }
            }
            r
        },
        Constraint::Implies(ps, body) => {
            let n: usize = ps.len();
            let mut i: usize = 0;
            while i < n
                invariant
                    n == ps@.len(),
                    i <= n,
                    premises_bound_prefix(ps@, bound@, i as int),
                decreases n - i,
            {
                if !name_bound(bound, ps[i].sup) {
                    return Some(ps[i].sup);
                }
                if !name_bound(bound, ps[i].sub) {
                    return Some(ps[i].sub);
                }
                proof {
                    assert(bound@.contains(ps@[i as int].sup));
                    assert(bound@.contains(ps@[i as int].sub));
                    assert(premises_bound_prefix(ps@, bound@, i as int + 1));
                }
                i = i + 1;
            }
            find_unbound(body, bound)
        },
        Constraint::All(cs) => {
            let n: usize = cs.len();
            let mut i: usize = 0;
            while i < n
                invariant
                    n == cs@.len(),
                    i <= n,
                    forall|j: int| 0 <= j < i ==> constraint_closed(#[trigger] cs@[j], bound@),
                decreases n - i,
            {
                match find_unbound(&cs[i], bound) {
                    Some(rn) => {
                        return Some(rn);
                    },
                    None => {},
                }
                i = i + 1;
            }
            None
        },
        Constraint::Outlives(oc) => {
            if !name_bound(bound, oc.sup) {
                return Some(oc.sup);
            }
            if !name_bound(bound, oc.sub) {
                return Some(oc.sub);
            }
            None
        },
    }
}

/// Checks every action and assertion of `func` for names that do not
/// resolve against the declarations and the assignment's bound region
/// names. Succeeds exactly when the function is structurally sound;
/// a failure carries a name that is genuinely faulty.
#[verifier::loop_isolation(false)]
pub fn validate_names(func: &Func, bound: &Vec<RegionName>) -> (r: Result<(), StructuralError>)
    ensures
        match r {
            Ok(_) => func_names_ok(*func, bound@),
            Err(e) => !func_names_ok(*func, bound@) && match e {
                StructuralError::DanglingBlock(b) => !block_declared(*func, b),
                StructuralError::UndeclaredVariable(v) => !var_declared(*func, v),
                StructuralError::UnboundRegion(rn) => !bound@.contains(rn),
                StructuralError::NoBlocks => false,
            },
        },
{
    let nb: usize = func.data.len();
    let mut b: usize = 0;
    while b < nb
        invariant
            nb == func.data@.len(),
            b <= nb,
            forall|x: int, a: int|
                0 <= x < b && 0 <= a < func.data@[x].actions@.len() ==> action_vars_declared(
                    *func,
                    #[trigger] func.data@[x].actions@[a],
                ),
            forall|x: int, a: int|
                0 <= x < b && 0 <= a < func.data@[x].actions@.len() ==> (
                #[trigger] func.data@[x].actions@[a] matches Action::Constraint(c)
                    ==> constraint_closed(*c, bound@)),
        decreases nb - b,
    {
        let na: usize = func.data[b].actions.len();
        let mut a: usize = 0;
        while a < na
            invariant
                b < nb,
                na == func.data@[b as int].actions@.len(),
                a <= na,
                forall|y: int|
                    0 <= y < a ==> action_vars_declared(
                        *func,
                        #[trigger] func.data@[b as int].actions@[y],
                    ),
                forall|y: int|
                    0 <= y < a ==> (#[trigger] func.data@[b as int].actions@[y] matches
                        Action::Constraint(c) ==> constraint_closed(*c, bound@)),
            decreases na - a,
        {
            match &func.data[b].actions[a] {
                Action::Borrow(v, _) => {
                    if find_var(func, *v).is_none() {
                        return Err(StructuralError::UndeclaredVariable(*v));
                    }
                },
                Action::Assign(d, s) => {
                    if find_var(func, *d).is_none() {
                        return Err(StructuralError::UndeclaredVariable(*d));
                    }
                    if find_var(func, *s).is_none() {
                        return Err(StructuralError::UndeclaredVariable(*s));
                    }
                },
                Action::Use(v) => {
                    if find_var(func, *v).is_none() {
                        return Err(StructuralError::UndeclaredVariable(*v));
                    }
                },
                Action::Write(v) => {
                    if find_var(func, *v).is_none() {
                        return Err(StructuralError::UndeclaredVariable(*v));
                    }
                },
                Action::Constraint(c) => {
                    match find_unbound(c, bound) {
                        Some(rn) => {
                            return Err(StructuralError::UnboundRegion(rn));
                        },
                        None => {},
                    }
                },
                Action::Noop => {},
            }
            a = a + 1;
        }
        b = b + 1;
    }
    let ns: usize = func.assertions.len();
    let mut i: usize = 0;
    while i < ns
        invariant
            ns == func.assertions@.len(),
            i <= ns,
            forall|x: int, a: int|
                0 <= x < nb && 0 <= a < func.data@[x].actions@.len() ==> action_vars_declared(
                    *func,
                    #[trigger] func.data@[x].actions@[a],
                ),
            forall|x: int, a: int|
                0 <= x < nb && 0 <= a < func.data@[x].actions@.len() ==> (
                #[trigger] func.data@[x].actions@[a] matches Action::Constraint(c)
                    ==> constraint_closed(*c, bound@)),
            forall|j: int|
                0 <= j < i ==> assertion_names_ok(*func, #[trigger] func.assertions@[j], bound@),
        decreases ns - i,
    {
        match &func.assertions[i] {
            Assertion::Eq(rn, _) => {
                if !name_bound(bound, *rn) {
                    return Err(StructuralError::UnboundRegion(*rn));
                }
            },
            Assertion::In(rn, p) => {
                if !name_bound(bound, *rn) {
                    return Err(StructuralError::UnboundRegion(*rn));
                }
                if func.find_block(p.block).is_none() {
                    return Err(StructuralError::DanglingBlock(p.block));
                }
            },
            Assertion::NotIn(rn, p) => {
                if !name_bound(bound, *rn) {
                    return Err(StructuralError::UnboundRegion(*rn));
                }
                if func.find_block(p.block).is_none() {
                    return Err(StructuralError::DanglingBlock(p.block));
                }
            },
            Assertion::Live(v, bb) => {
                if find_var(func, *v).is_none() {
                    return Err(StructuralError::UndeclaredVariable(*v));
                }
                if func.find_block(*bb).is_none() {
                    return Err(StructuralError::DanglingBlock(*bb));
                }
            },
            Assertion::NotLive(v, bb) => {
                if find_var(func, *v).is_none() {
                    return Err(StructuralError::UndeclaredVariable(*v));
                }
                if func.find_block(*bb).is_none() {
                    return Err(StructuralError::DanglingBlock(*bb));
                }
            },
        }
        i = i + 1;
    }
    Ok(())
}

/// The outlives obligations that make one walked type a subtype of
/// another, position by position. The destination's variance at each
/// position governs the direction: covariant positions ask the source
/// region to outlive the destination region, contravariant positions
/// the reverse, and invariant positions ask for both.
pub open spec fn relate_pairs(
    src: Seq<(Variance, RegionName)>,
    dst: Seq<(Variance, RegionName)>,
) -> Seq<crate::repr::OutlivesConstraint>
    decreases src.len(),
{
    if src.len() == 0 || dst.len() == 0 {
        Seq::empty()
    } else {
        let head: Seq<crate::repr::OutlivesConstraint> = match dst[0].0 {
            Variance::Co => seq![
                crate::repr::OutlivesConstraint { sup: src[0].1, sub: dst[0].1 },
            ],
            Variance::Contra => seq![
                crate::repr::OutlivesConstraint { sup: dst[0].1, sub: src[0].1 },
            ],
            Variance::In => seq![
                crate::repr::OutlivesConstraint { sup: src[0].1, sub: dst[0].1 },
                crate::repr::OutlivesConstraint { sup: dst[0].1, sub: src[0].1 },
            ],
        };
        head + relate_pairs(
            src.subrange(1, src.len() as int),
            dst.subrange(1, dst.len() as int),
        )
    }
}

/// Generates the outlives obligations that an assignment between two
/// walked types imposes, pairing the walks position by position.
#[verifier::loop_isolation(false)]
pub fn relate_walks(
    src: &Vec<(Variance, RegionName)>,
    dst: &Vec<(Variance, RegionName)>,
) -> (r: Vec<crate::repr::OutlivesConstraint>)
    requires
        src@.len() == dst@.len(),
    ensures
        r@ == relate_pairs(src@, dst@),
{
    let n: usize = src.len();
    let mut out: Vec<crate::repr::OutlivesConstraint> = Vec::new();
    let mut i: usize = 0;
    proof {
        assert(src@.subrange(0, n as int) =~= src@);
        assert(dst@.subrange(0, n as int) =~= dst@);
        let full = relate_pairs(src@, dst@);
        assert(out@ + full =~= full);
    }
    while i < n
        invariant
            n == src@.len(),
            i <= n,
            relate_pairs(src@, dst@) == out@ + relate_pairs(
                src@.subrange(i as int, n as int),
                dst@.subrange(i as int, n as int),
            ),
        decreases n - i,
    {
        let ghost pre_s = src@.subrange(i as int, n as int);
        let ghost pre_d = dst@.subrange(i as int, n as int);
        proof {
            assert(pre_s[0] == src@[i as int]);
            assert(pre_d[0] == dst@[i as int]);
            assert(pre_s.subrange(1, pre_s.len() as int) =~= src@.subrange(i as int + 1, n as int));
            assert(pre_d.subrange(1, pre_d.len() as int) =~= dst@.subrange(i as int + 1, n as int));
        }
        let ghost out0 = out@;
        let sv = src[i];
        let dv = dst[i];
        match dv.0 {
            Variance::Co => {
                out.push(crate::repr::OutlivesConstraint { sup: sv.1, sub: dv.1 });
            },
            Variance::Contra => {
                out.push(crate::repr::OutlivesConstraint { sup: dv.1, sub: sv.1 });
            },
            Variance::In => {
                out.push(crate::repr::OutlivesConstraint { sup: sv.1, sub: dv.1 });
                out.push(crate::repr::OutlivesConstraint { sup: dv.1, sub: sv.1 });
            },
        }
        proof {
            let head = match dst@[i as int].0 {
                Variance::Co => seq![
                    crate::repr::OutlivesConstraint { sup: src@[i as int].1, sub: dst@[i as int].1 },
                ],
                Variance::Contra => seq![
                    crate::repr::OutlivesConstraint { sup: dst@[i as int].1, sub: src@[i as int].1 },
                ],
                Variance::In => seq![
                    crate::repr::OutlivesConstraint { sup: src@[i as int].1, sub: dst@[i as int].1 },
                    crate::repr::OutlivesConstraint { sup: dst@[i as int].1, sub: src@[i as int].1 },
                ],
            };
            assert(out@ =~= out0 + head);
            let tail = relate_pairs(
                src@.subrange(i as int + 1, n as int),
                dst@.subrange(i as int + 1, n as int),
            );
            assert(out0 + (head + tail) =~= out@ + tail);
        }
        i = i + 1;
    }
    proof {
        assert(relate_pairs(
            src@.subrange(n as int, n as int),
            dst@.subrange(n as int, n as int),
        ) =~= Seq::<crate::repr::OutlivesConstraint>::empty());
        assert(out@ + Seq::<crate::repr::OutlivesConstraint>::empty() =~= out@);
    }
    out
}

/// The obligations a borrow imposes: the borrow's region must outlive
/// every region of the borrowed variable's type.
pub open spec fn borrow_pairs(
    rn: RegionName,
    pairs: Seq<(Variance, RegionName)>,
) -> Seq<crate::repr::OutlivesConstraint> {
    Seq::new(
        pairs.len(),
        |i: int| crate::repr::OutlivesConstraint { sup: rn, sub: pairs[i].1 },
    )
}

/// Generates the obligations of `Borrow(v, rn)` from the walk of `v`'s
/// type: the borrow region outlives each region the type mentions.
pub fn borrow_obligations(rn: RegionName, pairs: &Vec<(Variance, RegionName)>) -> (r: Vec<
    crate::repr::OutlivesConstraint,
>)
    ensures
        r@ == borrow_pairs(rn, pairs@),
{
    let n: usize = pairs.len();
    let mut out: Vec<crate::repr::OutlivesConstraint> = Vec::new();
    let mut i: usize = 0;
    while i < n
        invariant
            n == pairs@.len(),
            i <= n,
            out@.len() == i,
            forall|j: int|
                0 <= j < i ==> out@[j] == (crate::repr::OutlivesConstraint {
                    sup: rn,
                    sub: pairs@[j].1,
                }),
        decreases n - i,
    {
        out.push(crate::repr::OutlivesConstraint { sup: rn, sub: pairs[i].1 });
        i = i + 1;
    }
    proof {
        assert(out@ =~= borrow_pairs(rn, pairs@));
    }
    out
}

/// Why no obligations could be generated for an action.
#[derive(Clone, Copy, Debug, Hash, PartialEq, Eq, Structural)]
pub enum ObligationError {
    /// The action names a variable with no declaration.
    UndeclaredVariable(Variable),
    /// Walking a declared type failed validation.
    Walk(crate::walk::WalkError),
    /// The two sides of an assignment mention different numbers of
    /// regions, so their walks cannot be paired.
    ShapeMismatch(Variable, Variable),
}

/// The index of `v`'s declaration; meaningful when `v` is declared
/// exactly once.
pub open spec fn decl_index(func: Func, v: Variable) -> int {
    choose|i: int| 0 <= i < func.decls@.len() && func.decls@[i].var == v
}

/// The declared type of `v`, walked under the covariant ambient.
pub open spec fn decl_walk(func: Func, v: Variable) -> Result<
    Seq<(Variance, RegionName)>,
    crate::walk::WalkError,
> {
    func.decls@[decl_index(func, v)].ty.walk_spec(func.structs@, Variance::Co)
}

/// Generates the outlives obligations of `Assign(dst, src)`: both
/// declared types are walked under the covariant ambient and paired
/// position by position, the destination's variance governing each
/// pair's direction. Fails exactly on an undeclared variable, a type
/// that does not walk, or walks of different lengths.
pub fn assign_obligations(func: &Func, dst: Variable, src: Variable) -> (r: Result<
    Vec<crate::repr::OutlivesConstraint>,
    ObligationError,
>)
    requires
        decls_unique(*func),
    ensures
        match r {
            Ok(obs) => decl_walk(*func, src) is Ok && decl_walk(*func, dst) is Ok
                && decl_walk(*func, src)->Ok_0.len() == decl_walk(*func, dst)->Ok_0.len() && obs@
                == relate_pairs(decl_walk(*func, src)->Ok_0, decl_walk(*func, dst)->Ok_0),
            Err(e) => match e {
                ObligationError::UndeclaredVariable(v) => !var_declared(*func, v) && (v == dst || v
                    == src),
                ObligationError::Walk(we) => (var_declared(*func, src) && decl_walk(*func, src)
                    == Err::<Seq<(Variance, RegionName)>, crate::walk::WalkError>(we)) || (
                var_declared(*func, dst) && decl_walk(*func, dst) == Err::<
                    Seq<(Variance, RegionName)>,
                    crate::walk::WalkError,
                >(we)),
                ObligationError::ShapeMismatch(a, b) => a == dst && b == src && var_declared(
                    *func,
                    dst,
                ) && var_declared(*func, src) && decl_walk(*func, src) is Ok && decl_walk(
                    *func,
                    dst,
                ) is Ok && decl_walk(*func, src)->Ok_0.len() != decl_walk(*func, dst)->Ok_0.len(),
            },
        },
{
    let di = match find_var(func, dst) {
        Some(di) => di,
        None => {
            return Err(ObligationError::UndeclaredVariable(dst));
        },
    };
    let si = match find_var(func, src) {
        Some(si) => si,
        None => {
            return Err(ObligationError::UndeclaredVariable(src));
        },
    };
    proof {
        assert(decl_index(*func, dst) == di as int);
        assert(decl_index(*func, src) == si as int);
    }
    let wd = match func.decls[di].ty.walk(&func.structs, Variance::Co) {
        Ok(wd) => wd,
        Err(e) => {
            return Err(ObligationError::Walk(e));
        },
    };
    let ws = match func.decls[si].ty.walk(&func.structs, Variance::Co) {
        Ok(ws) => ws,
        Err(e) => {
            return Err(ObligationError::Walk(e));
        },
    };
    if ws.len() != wd.len() {
        return Err(ObligationError::ShapeMismatch(dst, src));
    }
    Ok(relate_walks(&ws, &wd))
}

/// Generates the obligations of `Borrow(v, rn)`: the borrow's region
/// must outlive every region in `v`'s declared type. Fails exactly on
/// an undeclared variable or a type that does not walk.
pub fn borrow_action_obligations(func: &Func, v: Variable, rn: RegionName) -> (r: Result<
    Vec<crate::repr::OutlivesConstraint>,
    ObligationError,
>)
    requires
        decls_unique(*func),
    ensures
        match r {
            Ok(obs) => decl_walk(*func, v) is Ok && obs@ == borrow_pairs(
                rn,
                decl_walk(*func, v)->Ok_0,
            ),
            Err(e) => match e {
                ObligationError::UndeclaredVariable(u) => !var_declared(*func, u) && u == v,
                ObligationError::Walk(we) => var_declared(*func, v) && decl_walk(*func, v)
                    == Err::<Seq<(Variance, RegionName)>, crate::walk::WalkError>(we),
                ObligationError::ShapeMismatch(_, _) => false,
            },
        },
{
    let vi = match find_var(func, v) {
        Some(vi) => vi,
        None => {
            return Err(ObligationError::UndeclaredVariable(v));
        },
    };
    proof {
        assert(decl_index(*func, v) == vi as int);
    }
    let pairs = match func.decls[vi].ty.walk(&func.structs, Variance::Co) {
        Ok(pairs) => pairs,
        Err(e) => {
            return Err(ObligationError::Walk(e));
        },
    };
    Ok(borrow_obligations(rn, &pairs))
}

/// Whether every obligation in the list holds under the assignment.
pub fn obligations_hold(
    obs: &Vec<crate::repr::OutlivesConstraint>,
    env: &Vec<(RegionName, Region)>,
) -> (r: bool)
    ensures
        r == obs_all_hold(obs@, env_view(env@)),
{
    let n: usize = obs.len();
    let mut i: usize = 0;
    while i < n
        invariant
            n == obs@.len(),
            i <= n,
            forall|j: int|
                0 <= j < i ==> crate::eval::outlives_holds(env_view(env@), #[trigger] obs@[j]),
        decreases n - i,
    {
        if !crate::eval::check_outlives(env, obs[i]) {
            return false;
        }
        i = i + 1;
    }
    true
}

/// The outlives obligations an action generates, where it generates
/// any: a borrow's region must outlive its variable's type regions,
/// and an assignment pairs the two walked types.
pub open spec fn action_pairs(func: Func, a: Action) -> Option<Seq<crate::repr::OutlivesConstraint>> {
    match a {
        Action::Borrow(v, rn) => match decl_walk(func, v) {
            Ok(pairs) => Some(borrow_pairs(rn, pairs)),
            Err(_) => None,
        },
        Action::Assign(d, s) => match (decl_walk(func, s), decl_walk(func, d)) {
            (Ok(ws), Ok(wd)) => if ws.len() == wd.len() {
                Some(relate_pairs(ws, wd))
            } else {
                None
            },
            _ => None,
        },
        _ => None,
    }
}

/// Every obligation in the list holds under the assignment.
pub open spec fn obs_all_hold(
    obs: Seq<crate::repr::OutlivesConstraint>,
    env: Seq<(RegionName, Seq<Point>)>,
) -> bool {
    forall|k: int| 0 <= k < obs.len() ==> crate::eval::outlives_holds(env, #[trigger] obs[k])
}

/// Each reported verdict belongs to a borrow or assignment of the
/// function, at its point, and says exactly whether every obligation
/// that action generates holds under the assignment.
pub open spec fn obligation_results_sound(
    res: Seq<(Point, bool)>,
    func: Func,
    env: Seq<(RegionName, Seq<Point>)>,
) -> bool {
    forall|i: int|
        0 <= i < res.len() ==> exists|bi: int|
            {
                &&& 0 <= bi < func.data@.len()
                &&& func.data@[bi].name == (#[trigger] res[i]).0.block
                &&& res[i].0.action < func.data@[bi].actions@.len()
                &&& match action_pairs(func, func.data@[bi].actions@[res[i].0.action as int]) {
                    Some(obs) => res[i].1 == obs_all_hold(obs, env),
                    None => false,
                }
            }
}

/// Some reported entry sits at the point of action `ai` of block `bi`.
pub open spec fn obligation_point_covered(res: Seq<(Point, bool)>, func: Func, bi: int, ai: int) -> bool {
    exists|i: int|
        0 <= i < res.len() && (#[trigger] res[i]).0 == (Point {
            block: func.data@[bi].name,
            action: ai as usize,
        })
}

/// Whether an action is a borrow or an assignment.
pub open spec fn generates_obligations(a: Action) -> bool {
    (a matches Action::Borrow(_, _)) || (a matches Action::Assign(_, _))
}

/// Every borrow and assignment of the blocks before `b`, and of block
/// `b` before action `a`, is reported.
pub open spec fn obligation_results_upto(
    res: Seq<(Point, bool)>,
    func: Func,
    b: int,
    a: int,
) -> bool {
    &&& forall|bi: int, ai: int|
        0 <= bi < b && 0 <= ai < func.data@[bi].actions@.len() && generates_obligations(
            #[trigger] func.data@[bi].actions@[ai],
        ) ==> obligation_point_covered(res, func, bi, ai)
    &&& forall|ai: int|
        0 <= ai < a && generates_obligations(#[trigger] func.data@[b].actions@[ai])
            ==> obligation_point_covered(res, func, b, ai)
}

/// Every borrow and assignment of the function is reported.
pub open spec fn obligation_results_complete(res: Seq<(Point, bool)>, func: Func) -> bool {
    forall|bi: int, ai: int|
        0 <= bi < func.data@.len() && 0 <= ai < func.data@[bi].actions@.len()
            && generates_obligations(#[trigger] func.data@[bi].actions@[ai])
            ==> obligation_point_covered(res, func, bi, ai)
}

/// Appending the verdict of the action at `(b, a)` keeps the result
/// list sound and extends its coverage to that action.
proof fn lemma_obligation_push(
    before: Seq<(Point, bool)>,
    func: Func,
    env: Seq<(RegionName, Seq<Point>)>,
    b: int,
    a: int,
    ok: bool,
)
    requires
        0 <= b < func.data@.len(),
        0 <= a < func.data@[b].actions@.len(),
        a <= usize::MAX,
        func.data@[b].actions@.len() <= usize::MAX,
        obligation_results_sound(before, func, env),
        obligation_results_upto(before, func, b, a),
        match action_pairs(func, func.data@[b].actions@[a]) {
            Some(obs) => ok == obs_all_hold(obs, env),
            None => false,
        },
    ensures
        obligation_results_sound(
            before.push((Point { block: func.data@[b].name, action: a as usize }, ok)),
            func,
            env,
        ),
        obligation_results_upto(
            before.push((Point { block: func.data@[b].name, action: a as usize }, ok)),
            func,
            b,
            a + 1,
        ),
{
    let p = Point { block: func.data@[b].name, action: a as usize };
    let now = before.push((p, ok));
    assert(forall|i: int| 0 <= i < before.len() ==> #[trigger] now[i] == before[i]);
    assert(now[before.len() as int] == (p, ok));
    assert forall|i: int|
        0 <= i < now.len() implies exists|bi: int|
        {
            &&& 0 <= bi < func.data@.len()
            &&& func.data@[bi].name == (#[trigger] now[i]).0.block
            &&& now[i].0.action < func.data@[bi].actions@.len()
            &&& match action_pairs(func, func.data@[bi].actions@[now[i].0.action as int]) {
                Some(obs) => now[i].1 == obs_all_hold(obs, env),
                None => false,
            }
        } by {
        if i < before.len() {
            assert(now[i] == before[i]);
        } else {
            assert(0 <= b < func.data@.len());
            assert(func.data@[b].name == now[i].0.block);
            assert(now[i].0.action < func.data@[b].actions@.len());
        }
    }
    assert forall|bi: int, ai: int|
        0 <= bi < b && 0 <= ai < func.data@[bi].actions@.len() && generates_obligations(
            #[trigger] func.data@[bi].actions@[ai],
        ) implies obligation_point_covered(now, func, bi, ai) by {
        let q = Point { block: func.data@[bi].name, action: ai as usize };
        let i0 = choose|i0: int| 0 <= i0 < before.len() && (#[trigger] before[i0]).0 == q;
        assert(now[i0].0 == q);
    }
    assert forall|ai: int|
        0 <= ai < a + 1 && generates_obligations(
            #[trigger] func.data@[b].actions@[ai],
        ) implies obligation_point_covered(now, func, b, ai) by {
        if ai == a {
            assert(now[before.len() as int].0 == p);
        } else {
            let q = Point { block: func.data@[b].name, action: ai as usize };
            let i0 = choose|i0: int| 0 <= i0 < before.len() && (#[trigger] before[i0]).0 == q;
            assert(now[i0].0 == q);
        }
    }
}

/// Generates the outlives obligations of every borrow and assignment
/// in the function and evaluates them against the assignment: one
/// verdict per such action, at its point. Fails exactly where
/// generation fails — an undeclared variable, a type that does not
/// walk, or an assignment between types of different region shapes.
#[verifier::loop_isolation(false)]
pub fn check_action_obligations(func: &Func, env: &Vec<(RegionName, Region)>) -> (r: Result<
    Vec<(Point, bool)>,
    ObligationError,
>)
    requires
        decls_unique(*func),
    ensures
        match r {
            Ok(res) => obligation_results_sound(res@, *func, env_view(env@))
                && obligation_results_complete(res@, *func),
            Err(e) => match e {
                ObligationError::UndeclaredVariable(v) => !var_declared(*func, v),
                ObligationError::Walk(we) => exists|v: Variable|
                    var_declared(*func, v) && #[trigger] decl_walk(*func, v) == Err::<
                        Seq<(Variance, RegionName)>,
                        crate::walk::WalkError,
                    >(we),
                ObligationError::ShapeMismatch(d, s) => var_declared(*func, d) && var_declared(
                    *func,
                    s,
                ) && decl_walk(*func, s) is Ok && decl_walk(*func, d) is Ok && decl_walk(
                    *func,
                    s,
                )->Ok_0.len() != decl_walk(*func, d)->Ok_0.len(),
            },
        },
{
    let n: usize = func.data.len();
    let mut res: Vec<(Point, bool)> = Vec::new();
    let mut b: usize = 0;
    while b < n
        invariant
            b <= n,
            n == func.data@.len(),
            obligation_results_sound(res@, *func, env_view(env@)),
            obligation_results_upto(res@, *func, b as int, 0),
        decreases n - b,
    {
        let na: usize = func.data[b].actions.len();
        let mut a: usize = 0;
        while a < na
            invariant
                b < n,
                n == func.data@.len(),
                na == func.data@[b as int].actions@.len(),
                a <= na,
                obligation_results_sound(res@, *func, env_view(env@)),
                obligation_results_upto(res@, *func, b as int, a as int),
            decreases na - a,
        {
            match &func.data[b].actions[a] {
                Action::Borrow(v, rn) => {
                    let obs = match borrow_action_obligations(func, *v, *rn) {
                        Ok(obs) => obs,
                        Err(e) => {
                            return Err(e);
                        },
                    };
                    let ok = obligations_hold(&obs, env);
                    let ghost before = res@;
                    res.push((Point { block: func.data[b].name, action: a }, ok));
                    proof {
                        assert(action_pairs(*func, func.data@[b as int].actions@[a as int])
                            == Some(obs@));
                        lemma_obligation_push(
                            before,
                            *func,
                            env_view(env@),
                            b as int,
                            a as int,
                            ok,
                        );
                    }
                },
                Action::Assign(d, sv) => {
                    let obs = match assign_obligations(func, *d, *sv) {
                        Ok(obs) => obs,
                        Err(e) => {
                            return Err(e);
                        },
                    };
                    let ok = obligations_hold(&obs, env);
                    let ghost before = res@;
                    res.push((Point { block: func.data[b].name, action: a }, ok));
                    proof {
                        assert(action_pairs(*func, func.data@[b as int].actions@[a as int])
                            == Some(obs@));
                        lemma_obligation_push(
                            before,
                            *func,
                            env_view(env@),
                            b as int,
                            a as int,
                            ok,
                        );
                    }
                },
                _ => {
                    proof {
                        assert(!generates_obligations(func.data@[b as int].actions@[a as int]));
                    }
                },
            }
            a = a + 1;
        }
        b = b + 1;
    }
    Ok(res)
}

/// No two declarations bind the same variable.
pub open spec fn decls_unique(func: Func) -> bool {
    forall|i: int, j: int|
        0 <= i < j < func.decls@.len() ==> func.decls@[i].var != func.decls@[j].var
}

/// Every successor name resolves to a declared block.
pub open spec fn succs_resolve(func: Func) -> bool {
    forall|b: int, k: int|
        0 <= b < func.data@.len() && 0 <= k < func.data@[b].successors@.len() ==> block_declared(
            func,
            #[trigger] func.data@[b].successors@[k],
        )
}

/// Whether an assertion holds under the assignment and the computed
/// liveness table. An assertion naming an unbound region, an undeclared
/// variable or a missing block never holds — validation rejects such an
/// assertion before evaluation.
pub open spec fn assertion_holds(
    a: Assertion,
    env: Seq<(RegionName, Seq<Point>)>,
    live: Seq<Seq<bool>>,
    func: Func,
) -> bool {
    match a {
        Assertion::Eq(rn, reg) => match lookup_spec(env, rn) {
            Some(pts) => pts.to_set() == reg.points@.to_set(),
            None => false,
        },
        Assertion::In(rn, p) => match lookup_spec(env, rn) {
            Some(pts) => pts.to_set().contains(p),
            None => false,
        },
        Assertion::NotIn(rn, p) => match lookup_spec(env, rn) {
            Some(pts) => !pts.to_set().contains(p),
            None => false,
        },
        Assertion::Live(v, bb) => exists|bi: int, vi: int|
            0 <= bi < func.data@.len() && #[trigger] func.data@[bi].name == bb && 0 <= vi
                < func.decls@.len() && #[trigger] func.decls@[vi].var == v && live[bi][vi],
        Assertion::NotLive(v, bb) => block_declared(func, bb) && var_declared(func, v)
            && forall|bi: int, vi: int|
            0 <= bi < func.data@.len() && #[trigger] func.data@[bi].name == bb && 0 <= vi
                < func.decls@.len() && #[trigger] func.decls@[vi].var == v ==> !live[bi][vi],
    }
}

/// Checks one assertion against the assignment and liveness table.
pub fn check_assertion(
    a: &Assertion,
    env: &Vec<(RegionName, Region)>,
    live: &Vec<Vec<bool>>,
    func: &Func,
) -> (r: bool)
    requires
        func.blocks_unique(),
        decls_unique(*func),
        live_shape(rows_view(*live), func.data@.len() as nat, func.decls@.len() as nat),
    ensures
        r == assertion_holds(*a, env_view(env@), rows_view(*live), *func),
{
    match a {
        Assertion::Eq(rn, reg) => match crate::eval::lookup(env, *rn) {
            Some(bound) => {
                let r = bound.same_points(reg);
                proof {
                    assert(bound.to_set() == bound.points@.to_set());
                }
                r
            },
            None => false,
        },
        Assertion::In(rn, p) => match crate::eval::lookup(env, *rn) {
            Some(bound) => bound.contains_point(*p),
            None => false,
        },
        Assertion::NotIn(rn, p) => match crate::eval::lookup(env, *rn) {
            Some(bound) => !bound.contains_point(*p),
            None => false,
        },
        Assertion::Live(v, bb) => {
            let bi = match func.find_block(*bb) {
                Some(bi) => bi,
                None => {
                    return false;
                },
            };
            let vi = match find_var(func, *v) {
                Some(vi) => vi,
                None => {
                    return false;
                },
            };
            proof {
                assert(rows_view(*live)[bi as int].len() == func.decls@.len());
            }
            let r = live[bi][vi];
            proof {
                if r {
                    assert(rows_view(*live)[bi as int][vi as int]);
                } else {
                    assert forall|b2: int, v2: int|
                        0 <= b2 < func.data@.len() && #[trigger] func.data@[b2].name == *bb && 0
                            <= v2 < func.decls@.len() && #[trigger] func.decls@[v2].var == *v
                        implies !rows_view(*live)[b2][v2] by {
                        assert(b2 == bi as int);
                        assert(v2 == vi as int);
                    }
                }
            }
            r
        },
        Assertion::NotLive(v, bb) => {
            let bi = match func.find_block(*bb) {
                Some(bi) => bi,
                None => {
                    return false;
                },
            };
            let vi = match find_var(func, *v) {
                Some(vi) => vi,
                None => {
                    return false;
                },
            };
            proof {
                assert(rows_view(*live)[bi as int].len() == func.decls@.len());
                assert(block_declared(*func, *bb));
                assert(var_declared(*func, *v));
            }
            let r = live[bi][vi];
            proof {
                if !r {
                    assert forall|b2: int, v2: int|
                        0 <= b2 < func.data@.len() && #[trigger] func.data@[b2].name == *bb && 0
                            <= v2 < func.decls@.len() && #[trigger] func.decls@[v2].var == *v
                        implies !rows_view(*live)[b2][v2] by {
                        assert(b2 == bi as int);
                        assert(v2 == vi as int);
                    }
                } else {
                    assert(rows_view(*live)[bi as int][vi as int]);
                }
            }
            !r
        },
    }
}

/// The read-before-overwrite table of the function: one row per block,
/// one column per declared variable.
pub open spec fn gen_table(func: Func) -> Seq<Seq<bool>> {
    Seq::new(
        func.data@.len(),
        |b: int|
            Seq::new(
                func.decls@.len(),
                |v: int| gen_from(func.data@[b].actions@, func.decls@[v].var),
            ),
    )
}

/// The overwrite table of the function.
pub open spec fn kill_table(func: Func) -> Seq<Seq<bool>> {
    Seq::new(
        func.data@.len(),
        |b: int|
            Seq::new(
                func.decls@.len(),
                |v: int| kill_from(func.data@[b].actions@, func.decls@[v].var),
            ),
    )
}

/// The candidate regions the quantifiers range over: the point
/// sequences the assignment binds, in binding order.
pub open spec fn scope_of(env: Seq<(RegionName, Region)>) -> Seq<Seq<Point>> {
    Seq::new(env.len(), |i: int| env[i].1.points@)
}

/// Each reported result belongs to an inline constraint of the
/// function, at its point, with exactly the satisfaction verdict.
pub open spec fn constraint_results_sound(
    res: Seq<(Point, bool)>,
    func: Func,
    env: Seq<(RegionName, Seq<Point>)>,
    scope: Seq<Seq<Point>>,
) -> bool {
    forall|i: int|
        0 <= i < res.len() ==> exists|bi: int|
            {
                &&& 0 <= bi < func.data@.len()
                &&& func.data@[bi].name == (#[trigger] res[i]).0.block
                &&& res[i].0.action < func.data@[bi].actions@.len()
                &&& (func.data@[bi].actions@[res[i].0.action as int] matches Action::Constraint(c)
                    && res[i].1 == sat(*c, env, scope))
            }
}

/// Every inline constraint of the function is reported.
pub open spec fn constraint_results_complete(res: Seq<(Point, bool)>, func: Func) -> bool {
    forall|bi: int, ai: int|
        0 <= bi < func.data@.len() && 0 <= ai < func.data@[bi].actions@.len() && (
        #[trigger] func.data@[bi].actions@[ai] matches Action::Constraint(_)) ==> exists|i: int|
            0 <= i < res.len() && (#[trigger] res[i]).0 == (Point {
                block: func.data@[bi].name,
                action: ai as usize,
            })
}

/// Everything the analysis hands back for one function.
pub struct AnalysisReport {
    /// The control-flow graph over block indices.
    pub graph: FuncGraph,
    /// Whether each block is reachable from the entry (block 0).
    pub reachable: Vec<bool>,
    /// `dominators[b][a]`: `a` dominates `b`; the entry is the root.
    pub dominators: Vec<Vec<bool>>,
    /// The reversed graph with the synthetic exit node appended.
    pub postdom_graph: Vec<Vec<usize>>,
    /// `postdominators[b][a]` over the reversed graph; the synthetic
    /// exit (index `n`) is the root.
    pub postdominators: Vec<Vec<bool>>,
    /// `liveness[b][v]`: declared variable `v` is live on entry to `b`.
    pub liveness: Vec<Vec<bool>>,
    /// Satisfaction verdict of each inline constraint, at its point.
    pub constraint_results: Vec<(Point, bool)>,
    /// Verdict of each top-level assertion, in order.
    pub assertion_results: Vec<bool>,
}

/// What `analyze` guarantees of a successful report.
pub open spec fn report_wf(r: AnalysisReport, func: Func, env: Seq<(RegionName, Region)>) -> bool {
    let n = func.data@.len();
    let sv = preds_view(r.graph.succs);
    &&& r.graph.wf()
    &&& r.graph.matches(func)
    &&& r.reachable@.len() == n
    &&& n > 0 ==> r.reachable@[0]
    &&& closed_under_succs(r.reachable@, sv, n as nat)
    &&& below_all_closed(r.reachable@, sv, 0, n as nat)
    &&& is_dom_solution(rows_view(r.dominators), preds_view(r.graph.preds), 0, n as nat)
    &&& above_all_solutions(rows_view(r.dominators), preds_view(r.graph.preds), 0, n as nat)
    &&& r.postdom_graph@.len() == n + 1
    &&& is_dom_solution(
        rows_view(r.postdominators),
        preds_view(r.postdom_graph),
        n as int,
        (n + 1) as nat,
    )
    &&& above_all_solutions(
        rows_view(r.postdominators),
        preds_view(r.postdom_graph),
        n as int,
        (n + 1) as nat,
    )
    &&& forall|b: int|
        0 <= b < n && sv[b].len() > 0 ==> #[trigger] preds_view(r.postdom_graph)[b] == sv[b]
    &&& forall|b: int|
        0 <= b < n && sv[b].len() == 0 ==> #[trigger] preds_view(r.postdom_graph)[b] =~= seq![
            n as usize,
        ]
    &&& preds_view(r.postdom_graph)[n as int].len() == 0
    &&& is_live_solution(
        rows_view(r.liveness),
        gen_table(func),
        kill_table(func),
        sv,
        n as nat,
        func.decls@.len() as nat,
    )
    &&& below_all_live_solutions(
        rows_view(r.liveness),
        gen_table(func),
        kill_table(func),
        sv,
        n as nat,
        func.decls@.len() as nat,
    )
    &&& constraint_results_sound(
        r.constraint_results@,
        func,
        env_view(env),
        scope_of(env),
    )
    &&& constraint_results_complete(r.constraint_results@, func)
    &&& r.assertion_results@.len() == func.assertions@.len()
    &&& forall|i: int|
        0 <= i < func.assertions@.len() ==> #[trigger] r.assertion_results@[i]
            == assertion_holds(
            func.assertions@[i],
            env_view(env),
            rows_view(r.liveness),
            func,
        )
}

/// Runs the whole pipeline on one function against a candidate region
/// assignment: validates names, builds the control-flow graph, computes
/// reachability, dominators, postdominators and liveness, evaluates
/// every inline constraint and every assertion, and reports the
/// verdicts. A structural fault is reported instead, and no verdicts
/// are produced for a function that fails validation.
#[verifier::loop_isolation(false)]
#[verifier::rlimit(80)]
pub fn analyze(func: &Func, env: &mut Vec<(RegionName, Region)>) -> (r: Result<
    AnalysisReport,
    StructuralError,
>)
    requires
        func.blocks_unique(),
        decls_unique(*func),
        func.data@.len() < usize::MAX,
    ensures
        final(env)@ == old(env)@,
        match r {
            Ok(report) => report_wf(report, *func, old(env)@) && func.data@.len() > 0
                && succs_resolve(*func) && func_names_ok(*func, bound_names(old(env)@)),
            Err(e) => !(func.data@.len() > 0 && succs_resolve(*func) && func_names_ok(
                *func,
                bound_names(old(env)@),
            )) && match e {
                StructuralError::NoBlocks => func.data@.len() == 0,
                StructuralError::DanglingBlock(b) => !block_declared(*func, b),
                StructuralError::UndeclaredVariable(v) => !var_declared(*func, v),
                StructuralError::UnboundRegion(rn) => !bound_names(old(env)@).contains(rn),
            },
        },
{
    // Validation first: structural errors abort before any evaluation.
    let mut bound: Vec<RegionName> = Vec::new();
    let ne: usize = env.len();
    let mut i: usize = 0;
    while i < ne
        invariant
            ne == env@.len(),
            i <= ne,
            bound@ =~= bound_names(env@).subrange(0, i as int),
        decreases ne - i,
    {
        bound.push(env[i].0);
        i = i + 1;
    }
    proof {
        assert(bound@ =~= bound_names(env@));
    }
    match validate_names(func, &bound) {
        Ok(_) => {},
        Err(e) => {
            return Err(e);
        },
    }
    let graph = match build_graph(func) {
        Ok(g) => g,
        Err(e) => {
            match e {
                GraphError::NoBlocks => {
                    return Err(StructuralError::NoBlocks);
                },
                GraphError::DanglingBlock(db) => {
                    proof {
                        let (bi, k): (int, int) = choose|bi: int, k: int|
                            0 <= bi < func.data@.len() && 0 <= k
                                < func.data@[bi].successors@.len()
                                && #[trigger] func.data@[bi].successors@[k] == db;
                        assert(!block_declared(*func, func.data@[bi].successors@[k]));
                        assert(!succs_resolve(*func));
                    }
                    return Err(StructuralError::DanglingBlock(db));
                },
            }
        },
    };
    let n: usize = graph.succs.len();
    let reachable = compute_reachable(&graph.succs, 0);
    let dominators = solve_dominators(&graph.preds, 0);
    let postdom_graph = postdom_preds(&graph.succs);
    let postdominators = solve_dominators(&postdom_graph, n);
    // Liveness: one row per block, one column per declared variable.
    let m: usize = func.decls.len();
    let mut gen: Vec<Vec<bool>> = Vec::new();
    let mut kill: Vec<Vec<bool>> = Vec::new();
    let mut b: usize = 0;
    while b < n
        invariant
            b <= n,
            n == func.data@.len(),
            m == func.decls@.len(),
            gen@.len() == b,
            kill@.len() == b,
            forall|x: int| 0 <= x < b ==> #[trigger] rows_view(gen)[x] =~= gen_table(*func)[x],
            forall|x: int| 0 <= x < b ==> #[trigger] rows_view(kill)[x] =~= kill_table(*func)[x],
        decreases n - b,
    {
        let mut grow: Vec<bool> = Vec::new();
        let mut krow: Vec<bool> = Vec::new();
        let mut v: usize = 0;
        while v < m
            invariant
                b < n,
                n == func.data@.len(),
                m == func.decls@.len(),
                v <= m,
                grow@.len() == v,
                krow@.len() == v,
                forall|y: int|
                    0 <= y < v ==> #[trigger] grow@[y] == gen_from(
                        func.data@[b as int].actions@,
                        func.decls@[y].var,
                    ),
                forall|y: int|
                    0 <= y < v ==> #[trigger] krow@[y] == kill_from(
                        func.data@[b as int].actions@,
                        func.decls@[y].var,
                    ),
            decreases m - v,
        {
            grow.push(gen_exec(&func.data[b].actions, func.decls[v].var));
            krow.push(kill_exec(&func.data[b].actions, func.decls[v].var));
            v = v + 1;
        }
        let ghost gprev = rows_view(gen);
        let ghost kprev = rows_view(kill);
        let ghost growv = grow@;
        let ghost krowv = krow@;
        gen.push(grow);
        kill.push(krow);
        proof {
            assert(rows_view(gen)[b as int] == growv);
            assert(rows_view(kill)[b as int] == krowv);
            assert(forall|x: int| 0 <= x < b ==> #[trigger] rows_view(gen)[x] == gprev[x]);
            assert(forall|x: int| 0 <= x < b ==> #[trigger] rows_view(kill)[x] == kprev[x]);
            assert(rows_view(gen)[b as int] =~= gen_table(*func)[b as int]);
            assert(rows_view(kill)[b as int] =~= kill_table(*func)[b as int]);
        }
        b = b + 1;
    }
    proof {
        assert(rows_view(gen) =~~= gen_table(*func));
        assert(rows_view(kill) =~~= kill_table(*func));
    }
    let liveness = solve_liveness(&graph.succs, &gen, &kill, m);
    // The scope the quantifiers range over: the assigned regions.
    let mut scope: Vec<Region> = Vec::new();
    let mut i: usize = 0;
    while i < ne
        invariant
            ne == env@.len(),
            i <= ne,
            scope_view(scope@) =~= scope_of(env@).subrange(0, i as int),
        decreases ne - i,
    {
        scope.push(crate::eval::copy_region(&env[i].1));
        i = i + 1;
    }
    proof {
        assert(scope_view(scope@) =~= scope_of(env@));
    }
    // Inline constraints, in block and action order.
    let mut constraint_results: Vec<(Point, bool)> = Vec::new();
    let mut b: usize = 0;
    while b < n
        invariant
            b <= n,
            n == func.data@.len(),
            env@ == old(env)@,
            scope_view(scope@) == scope_of(old(env)@),
            constraint_results_sound(
                constraint_results@,
                *func,
                env_view(old(env)@),
                scope_of(old(env)@),
            ),
            forall|bi: int, ai: int|
                0 <= bi < b && 0 <= ai < func.data@[bi].actions@.len() && (
                #[trigger] func.data@[bi].actions@[ai] matches Action::Constraint(_))
                    ==> exists|i: int|
                    0 <= i < constraint_results@.len() && (#[trigger] constraint_results@[i]).0
                        == (Point { block: func.data@[bi].name, action: ai as usize }),
        decreases n - b,
    {
        let na: usize = func.data[b].actions.len();
        let mut a: usize = 0;
        while a < na
            invariant
                b < n,
                n == func.data@.len(),
                na == func.data@[b as int].actions@.len(),
                a <= na,
                env@ == old(env)@,
                scope_view(scope@) == scope_of(old(env)@),
                constraint_results_sound(
                    constraint_results@,
                    *func,
                    env_view(old(env)@),
                    scope_of(old(env)@),
                ),
                forall|bi: int, ai: int|
                    0 <= bi < b && 0 <= ai < func.data@[bi].actions@.len() && (
                    #[trigger] func.data@[bi].actions@[ai] matches Action::Constraint(_))
                        ==> exists|i: int|
                        0 <= i < constraint_results@.len() && (#[trigger] constraint_results@[i]).0
                            == (Point { block: func.data@[bi].name, action: ai as usize }),
                forall|ai: int|
                    0 <= ai < a && (#[trigger] func.data@[b as int].actions@[ai] matches
                        Action::Constraint(_)) ==> exists|i: int|
                        0 <= i < constraint_results@.len() && (#[trigger] constraint_results@[i]).0
                            == (Point { block: func.data@[b as int].name, action: ai as usize }),
            decreases na - a,
        {
            let is_constraint = match &func.data[b].actions[a] {
                Action::Constraint(_) => true,
                _ => false,
            };
            if is_constraint {
                let ok = match &func.data[b].actions[a] {
                    Action::Constraint(c) => eval_constraint(c, env, &scope),
                    _ => true,
                };
                let ghost before = constraint_results@;
                constraint_results.push((Point { block: func.data[b].name, action: a }, ok));
                proof {
                    assert(forall|i: int|
                        0 <= i < before.len() ==> #[trigger] constraint_results@[i] == before[i]);
                    assert(constraint_results@[before.len() as int].0 == (Point {
                        block: func.data@[b as int].name,
                        action: a as usize,
                    }));
                    assert forall|i: int|
                        0 <= i < constraint_results@.len() implies exists|bi: int|
                        {
                            &&& 0 <= bi < func.data@.len()
                            &&& func.data@[bi].name == (#[trigger] constraint_results@[i]).0.block
                            &&& constraint_results@[i].0.action < func.data@[bi].actions@.len()
                            &&& (func.data@[bi].actions@[constraint_results@[i].0.action as int]
                                matches Action::Constraint(c) && constraint_results@[i].1 == sat(
                                *c,
                                env_view(old(env)@),
                                scope_of(old(env)@),
                            ))
                        } by {
                        if i < before.len() {
                            assert(constraint_results@[i] == before[i]);
                        } else {
                            let bi = b as int;
                            assert(0 <= bi < func.data@.len());
                            assert(func.data@[bi].name == constraint_results@[i].0.block);
                            assert(constraint_results@[i].0.action < func.data@[bi].actions@.len());
                        }
                    }
                    assert forall|bi: int, ai: int|
                        0 <= bi < b && 0 <= ai < func.data@[bi].actions@.len() && (
                        #[trigger] func.data@[bi].actions@[ai] matches Action::Constraint(_))
                        implies exists|i: int|
                        0 <= i < constraint_results@.len() && (#[trigger] constraint_results@[i]).0
                            == (Point { block: func.data@[bi].name, action: ai as usize }) by {
                        let p = Point { block: func.data@[bi].name, action: ai as usize };
                        let i0 = choose|i0: int| 0 <= i0 < before.len() && (#[trigger] before[i0]).0 == p;
                        assert(constraint_results@[i0].0 == p);
                    }
                    assert forall|ai: int|
                        0 <= ai < a + 1 && (#[trigger] func.data@[b as int].actions@[ai] matches
                            Action::Constraint(_)) implies exists|i: int|
                        0 <= i < constraint_results@.len() && (#[trigger] constraint_results@[i]).0
                            == (Point { block: func.data@[b as int].name, action: ai as usize }) by {
                        if ai == a {
                            assert(constraint_results@[before.len() as int].0 == (Point {
                                block: func.data@[b as int].name,
                                action: a as usize,
                            }));
                        } else {
                            let p = Point { block: func.data@[b as int].name, action: ai as usize };
                            let i0 = choose|i0: int|
                                0 <= i0 < before.len() && (#[trigger] before[i0]).0 == p;
                            assert(constraint_results@[i0].0 == p);
                        }
                    }
                }
            }
            a = a + 1;
        }
        b = b + 1;
    }
    // Assertions, in order.
    let mut assertion_results: Vec<bool> = Vec::new();
    let ns: usize = func.assertions.len();
    let mut i: usize = 0;
    while i < ns
        invariant
            ns == func.assertions@.len(),
            i <= ns,
            env@ == old(env)@,
            n == func.data@.len(),
            m == func.decls@.len(),
            live_shape(rows_view(liveness), n as nat, m as nat),
            assertion_results@.len() == i,
            forall|j: int|
                0 <= j < i ==> #[trigger] assertion_results@[j] == assertion_holds(
                    func.assertions@[j],
                    env_view(old(env)@),
                    rows_view(liveness),
                    *func,
                ),
        decreases ns - i,
    {
        let ok = check_assertion(&func.assertions[i], env, &liveness, func);
        assertion_results.push(ok);
        i = i + 1;
    }
    proof {
        assert forall|bi: int, k: int|
            0 <= bi < func.data@.len() && 0 <= k
                < func.data@[bi].successors@.len() implies block_declared(
            *func,
            #[trigger] func.data@[bi].successors@[k],
        ) by {
            let j = preds_view(graph.succs)[bi][k] as int;
            assert(func.data@[j].name == func.data@[bi].successors@[k]);
        }
    }
    Ok(AnalysisReport {
        graph,
        reachable,
        dominators,
        postdom_graph,
        postdominators,
        liveness,
        constraint_results,
        assertion_results,
    })
}

} // verus!
