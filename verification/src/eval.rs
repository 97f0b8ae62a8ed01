//! Evaluation of the quantified outlives-constraint language against a
//! candidate region assignment.
//!
//! An assignment binds region names to concrete regions; later bindings
//! shadow earlier ones. A leaf `Outlives(sup, sub)` is satisfied when
//! the point set bound to `sup` contains the point set bound to `sub`;
//! a name with no binding satisfies no leaf. `Implies` is owed only
//! when every premise holds; `All` is conjunction. The quantifiers
//! range over a finite scope of candidate regions handed to the
//! evaluator — the conservative closed-analysis reading: a bound name
//! is instantiated with each region already in scope, symbolically
//! inside the body.

use vstd::prelude::*;

use crate::repr::{Constraint, OutlivesConstraint, Point, Region, RegionName};

verus! {

/// The assignment as the evaluator's model sees it: name and point
/// sequence per binding, in binding order.
pub open spec fn env_view(env: Seq<(RegionName, Region)>) -> Seq<(RegionName, Seq<Point>)> {
    Seq::new(env.len(), |i: int| (env[i].0, env[i].1.points@))
}

/// The candidate regions as point sequences.
pub open spec fn scope_view(scope: Seq<Region>) -> Seq<Seq<Point>> {
    Seq::new(scope.len(), |i: int| scope[i].points@)
}

/// The points bound to `name`: the latest binding wins.
pub open spec fn lookup_spec(env: Seq<(RegionName, Seq<Point>)>, name: RegionName) -> Option<
    Seq<Point>,
>
    decreases env.len(),
{
    if env.len() == 0 {
        None
    } else if env.last().0 == name {
        Some(env.last().1)
    } else {
        lookup_spec(env.drop_last(), name)
    }
}

/// Whether `sup outlives sub` holds under `env`: both names bound, and
/// `sup`'s point set contains `sub`'s. An unbound name holds nothing.
pub open spec fn outlives_holds(env: Seq<(RegionName, Seq<Point>)>, oc: OutlivesConstraint) -> bool {
    match (lookup_spec(env, oc.sup), lookup_spec(env, oc.sub)) {
        (Some(sup), Some(sub)) => sub.to_set().subset_of(sup.to_set()),
        _ => false,
    }
}

/// Whether every premise of an implication holds under `env`.
pub open spec fn premises_hold(
    env: Seq<(RegionName, Seq<Point>)>,
    ps: Seq<OutlivesConstraint>,
) -> bool {
    forall|i: int| 0 <= i < ps.len() ==> outlives_holds(env, #[trigger] ps[i])
}

/// Whether `c` is satisfied under the assignment `env`, with quantified
/// names ranging over the candidate regions in `scope`.
pub open spec fn sat(c: Constraint, env: Seq<(RegionName, Seq<Point>)>, scope: Seq<Seq<Point>>) -> bool
    decreases c, 0int, 0int,
{
    match c {
        Constraint::ForAll(ns, body) => sat_forall(ns@, *body, env, scope),
        Constraint::Exists(ns, body) => sat_exists(ns@, *body, env, scope),
        Constraint::Implies(ps, body) => premises_hold(env, ps@) ==> sat(*body, env, scope),
        Constraint::All(cs) => forall|i: int| 0 <= i < cs@.len() ==> sat(#[trigger] cs@[i], env, scope),
        Constraint::Outlives(oc) => outlives_holds(env, oc),
    }
}

/// The body must hold under every instantiation of the bound names
/// from the scope, bound one name at a time.
pub open spec fn sat_forall(
    ns: Seq<RegionName>,
    body: Constraint,
    env: Seq<(RegionName, Seq<Point>)>,
    scope: Seq<Seq<Point>>,
) -> bool
    decreases body, ns.len(), 1int,
{
    if ns.len() == 0 {
        sat(body, env, scope)
    } else {
        forall|i: int|
            0 <= i < scope.len() ==> sat_forall(
                ns.subrange(1, ns.len() as int),
                body,
                env.push((ns[0], #[trigger] scope[i])),
                scope,
            )
    }
}

/// The body must hold under at least one instantiation of the bound
/// names from the scope.
pub open spec fn sat_exists(
    ns: Seq<RegionName>,
    body: Constraint,
    env: Seq<(RegionName, Seq<Point>)>,
    scope: Seq<Seq<Point>>,
) -> bool
    decreases body, ns.len(), 1int,
{
    if ns.len() == 0 {
        sat(body, env, scope)
    } else {
        exists|i: int|
            0 <= i < scope.len() && sat_exists(
                ns.subrange(1, ns.len() as int),
                body,
                env.push((ns[0], #[trigger] scope[i])),
                scope,
            )
    }
}

/// A region value with the same points as `r`.
pub fn copy_region(r: &Region) -> (c: Region)
    ensures
        c.points@ == r.points@,
{
    let n: usize = r.points.len();
    let mut points: Vec<Point> = Vec::new();
    let mut i: usize = 0;
    while i < n
        invariant
            n == r.points@.len(),
            i <= n,
            points@ =~= r.points@.subrange(0, i as int),
        decreases n - i,
    {
        points.push(r.points[i]);
        i = i + 1;
    }
    proof {
        assert(points@ =~= r.points@);
    }
    Region { points }
}

/// Looks the latest binding of `name` up in the assignment.
pub fn lookup(env: &Vec<(RegionName, Region)>, name: RegionName) -> (r: Option<&Region>)
    ensures
        match r {
            Some(reg) => lookup_spec(env_view(env@), name) == Some(reg.points@),
            None => lookup_spec(env_view(env@), name) is None,
        },
{
    let n: usize = env.len();
    let mut i: usize = n;
    proof {
        assert(env_view(env@).subrange(0, n as int) =~= env_view(env@));
    }
    while i > 0
        invariant
            i <= n,
            n == env@.len(),
            lookup_spec(env_view(env@), name) == lookup_spec(
                env_view(env@).subrange(0, i as int),
                name,
            ),
        decreases i,
    {
        proof {
            let pre = env_view(env@).subrange(0, i as int);
            assert(pre.drop_last() =~= env_view(env@).subrange(0, i as int - 1));
            assert(pre.last() == (env@[i as int - 1].0, env@[i as int - 1].1.points@));
        }
        if env[i - 1].0 == name {
            return Some(&env[i - 1].1);
        }
        i = i - 1;
    }
    proof {
        assert(env_view(env@).subrange(0, 0).len() == 0);
    }
    None
}

/// Whether `sup outlives sub` holds under the assignment.
pub fn check_outlives(env: &Vec<(RegionName, Region)>, oc: OutlivesConstraint) -> (r: bool)
    ensures
        r == outlives_holds(env_view(env@), oc),
{
    let sup = match lookup(env, oc.sup) {
        Some(sup) => sup,
        None => {
            return false;
        },
    };
    let sub = match lookup(env, oc.sub) {
        Some(sub) => sub,
        None => {
            return false;
        },
    };
    sub.subset_of(sup)
}

/// Whether every premise holds under the assignment.
fn check_premises(env: &Vec<(RegionName, Region)>, ps: &Vec<OutlivesConstraint>) -> (r: bool)
    ensures
        r == premises_hold(env_view(env@), ps@),
{
    let n: usize = ps.len();
    let mut i: usize = 0;
    while i < n
        invariant
            n == ps@.len(),
            i <= n,
            forall|j: int| 0 <= j < i ==> outlives_holds(env_view(env@), #[trigger] ps@[j]),
        decreases n - i,
    {
        if !check_outlives(env, ps[i]) {
            return false;
        }
        i = i + 1;
    }
    true
}

/// Evaluates `c` against the assignment, with quantified names ranging
/// over the candidate regions in `scope`. The assignment is handed back
/// unchanged; the answer is exactly the satisfaction relation.
#[verifier::loop_isolation(false)]
pub fn eval_constraint(
    c: &Constraint,
    env: &mut Vec<(RegionName, Region)>,
    scope: &Vec<Region>,
) -> (r: bool)
    ensures
        final(env)@ == old(env)@,
        r == sat(*c, env_view(old(env)@), scope_view(scope@)),
    decreases *c, 0int, 0int,
{
    match c {
        Constraint::ForAll(ns, body) => {
            let r = eval_forall(ns, 0, body, env, scope);
            proof {
                assert(ns@.subrange(0, ns@.len() as int) =~= ns@);
            }
            r
        },
        Constraint::Exists(ns, body) => {
            let r = eval_exists(ns, 0, body, env, scope);
            proof {
                assert(ns@.subrange(0, ns@.len() as int) =~= ns@);
            }
            r
        },
        Constraint::Implies(ps, body) => {
            if check_premises(env, ps) {
                eval_constraint(body, env, scope)
            } else {
                true
            }
        },
        Constraint::All(cs) => {
            let n: usize = cs.len();
            let mut i: usize = 0;
            while i < n
                invariant
                    n == cs@.len(),
                    i <= n,
                    env@ == old(env)@,
                    forall|j: int|
                        0 <= j < i ==> sat(
                            #[trigger] cs@[j],
                            env_view(old(env)@),
                            scope_view(scope@),
                        ),
                decreases n - i,
            {
                if !eval_constraint(&cs[i], env, scope) {
                    return false;
                }
                i = i + 1;
            }
            true
        },
        Constraint::Outlives(oc) => check_outlives(env, *oc),
    }
}

/// Evaluates a universally quantified body with the names from
/// position `idx` on still to bind.
#[verifier::loop_isolation(false)]
fn eval_forall(
    ns: &Vec<RegionName>,
    idx: usize,
    body: &Constraint,
    env: &mut Vec<(RegionName, Region)>,
    scope: &Vec<Region>,
) -> (r: bool)
    requires
        idx <= ns@.len(),
    ensures
        final(env)@ == old(env)@,
        r == sat_forall(
            ns@.subrange(idx as int, ns@.len() as int),
            *body,
            env_view(old(env)@),
            scope_view(scope@),
        ),
    decreases *body, ns@.len() - idx, 1int,
{
    let n: usize = ns.len();
    if idx == n {
        proof {
            assert(ns@.subrange(n as int, n as int).len() == 0);
        }
        return eval_constraint(body, env, scope);
    }
    let ghost rest = ns@.subrange(idx as int, n as int);
    proof {
        assert(rest[0] == ns@[idx as int]);
        assert(rest.subrange(1, rest.len() as int) =~= ns@.subrange(idx as int + 1, n as int));
    }
    let m: usize = scope.len();
    let mut i: usize = 0;
    while i < m
        invariant
            idx < n,
            n == ns@.len(),
            m == scope@.len(),
            i <= m,
            env@ == old(env)@,
            forall|j: int|
                0 <= j < i ==> sat_forall(
                    ns@.subrange(idx as int + 1, n as int),
                    *body,
                    env_view(old(env)@).push((ns@[idx as int], #[trigger] scope_view(scope@)[j])),
                    scope_view(scope@),
                ),
        decreases m - i,
    {
        let binding = copy_region(&scope[i]);
        env.push((ns[idx], binding));
        proof {
            assert(env_view(env@) =~= env_view(old(env)@).push(
                (ns@[idx as int], scope_view(scope@)[i as int]),
            ));
        }
        let ok = eval_forall(ns, idx + 1, body, env, scope);
        env.pop();
        proof {
            assert(env@ =~= old(env)@);
        }
        if !ok {
            proof {
                assert(!sat_forall(
                    rest.subrange(1, rest.len() as int),
                    *body,
                    env_view(old(env)@).push((rest[0], scope_view(scope@)[i as int])),
                    scope_view(scope@),
                ));
            }
            return false;
        }
        i = i + 1;
    }
    proof {
        assert(sat_forall(rest, *body, env_view(old(env)@), scope_view(scope@)));
    }
    true
}

/// Evaluates an existentially quantified body with the names from
/// position `idx` on still to bind.
#[verifier::loop_isolation(false)]
fn eval_exists(
    ns: &Vec<RegionName>,
    idx: usize,
    body: &Constraint,
    env: &mut Vec<(RegionName, Region)>,
    scope: &Vec<Region>,
) -> (r: bool)
    requires
        idx <= ns@.len(),
    ensures
        final(env)@ == old(env)@,
        r == sat_exists(
            ns@.subrange(idx as int, ns@.len() as int),
            *body,
            env_view(old(env)@),
            scope_view(scope@),
        ),
    decreases *body, ns@.len() - idx, 1int,
{
    let n: usize = ns.len();
    if idx == n {
        proof {
            assert(ns@.subrange(n as int, n as int).len() == 0);
        }
        return eval_constraint(body, env, scope);
    }
    let ghost rest = ns@.subrange(idx as int, n as int);
    proof {
        assert(rest[0] == ns@[idx as int]);
        assert(rest.subrange(1, rest.len() as int) =~= ns@.subrange(idx as int + 1, n as int));
    }
    let m: usize = scope.len();
    let mut i: usize = 0;
    while i < m
        invariant
            idx < n,
            n == ns@.len(),
            m == scope@.len(),
            i <= m,
            env@ == old(env)@,
            forall|j: int|
                0 <= j < i ==> !sat_exists(
                    ns@.subrange(idx as int + 1, n as int),
                    *body,
                    env_view(old(env)@).push((ns@[idx as int], #[trigger] scope_view(scope@)[j])),
                    scope_view(scope@),
                ),
        decreases m - i,
    {
        let binding = copy_region(&scope[i]);
        env.push((ns[idx], binding));
        proof {
            assert(env_view(env@) =~= env_view(old(env)@).push(
                (ns@[idx as int], scope_view(scope@)[i as int]),
            ));
        }
        let ok = eval_exists(ns, idx + 1, body, env, scope);
        env.pop();
        proof {
            assert(env@ =~= old(env)@);
        }
        if ok {
            proof {
                assert(sat_exists(
                    rest.subrange(1, rest.len() as int),
                    *body,
                    env_view(old(env)@).push((rest[0], scope_view(scope@)[i as int])),
                    scope_view(scope@),
                ));
                assert(sat_exists(rest, *body, env_view(old(env)@), scope_view(scope@)));
            }
            return true;
        }
        i = i + 1;
    }
    proof {
        assert(!sat_exists(rest, *body, env_view(old(env)@), scope_view(scope@)));
    }
    false
}

/// Outlives obligations chain: under any assignment satisfying both
/// `r1 outlives r2` and `r2 outlives r3`, the points of `r2` contain
/// those of `r3` and the points of `r1` contain those of `r3` as well —
/// an assignment in which `r1` misses a point of `r3` violates one of
/// the two obligations.
pub proof fn lemma_outlives_transitive(
    env: Seq<(RegionName, Seq<Point>)>,
    r1: RegionName,
    r2: RegionName,
    r3: RegionName,
)
    requires
        outlives_holds(env, OutlivesConstraint { sup: r1, sub: r2 }),
        outlives_holds(env, OutlivesConstraint { sup: r2, sub: r3 }),
    ensures
        lookup_spec(env, r1) is Some,
        lookup_spec(env, r3) is Some,
        lookup_spec(env, r3)->Some_0.to_set().subset_of(lookup_spec(env, r1)->Some_0.to_set()),
{
}

/// An implication with a failed premise is vacuously satisfied: when
/// some premise does not hold under the assignment, the whole
/// `Implies` holds, whatever its body says.
pub proof fn lemma_implies_vacuous(
    c: Constraint,
    env: Seq<(RegionName, Seq<Point>)>,
    scope: Seq<Seq<Point>>,
    i: int,
)
    requires
        c is Implies,
        0 <= i < c->Implies_0@.len(),
        !outlives_holds(env, c->Implies_0@[i]),
    ensures
        sat(c, env, scope),
{
    assert(!premises_hold(env, c->Implies_0@));
}

} // verus!
