//! Liveness of variables over the control-flow graph.
//!
//! A variable is live on entry to a block when some control path from
//! that block uses it before overwriting it. Within a block the ordered
//! action list decides: `Use` and the source of an `Assign` read a
//! variable; `Borrow`, `Write` and the destination of an `Assign`
//! overwrite it. The table `live[b][v]` is the least solution of
//! `live(b) = gen(b) ∪ (⋃ live(s) over successors s) \ kill(b)`,
//! computed by ascending fixpoint iteration from the empty table.

use vstd::prelude::*;

use crate::dominance::{
    count_row, count_total, lemma_count_row_lt, lemma_count_total_update, preds_view, preds_wf,
    rows_view,
};
use crate::repr::{Action, Variable};

verus! {

/// Whether the action reads `v`.
pub open spec fn action_uses(a: Action, v: Variable) -> bool {
    match a {
        Action::Assign(_, src) => src == v,
        Action::Use(u) => u == v,
        _ => false,
    }
}

/// Whether the action overwrites `v`.
pub open spec fn action_defs(a: Action, v: Variable) -> bool {
    match a {
        Action::Borrow(d, _) => d == v,
        Action::Assign(d, _) => d == v,
        Action::Write(d) => d == v,
        _ => false,
    }
}

/// Whether the action list reads `v` before overwriting it. An action
/// that both reads and overwrites — an assignment of a variable to
/// itself — reads first.
pub open spec fn gen_from(actions: Seq<Action>, v: Variable) -> bool
    decreases actions.len(),
{
    if actions.len() == 0 {
        false
    } else if action_uses(actions[0], v) {
        true
    } else if action_defs(actions[0], v) {
        false
    } else {
        gen_from(actions.subrange(1, actions.len() as int), v)
    }
}

/// Whether the action list overwrites `v` anywhere.
pub open spec fn kill_from(actions: Seq<Action>, v: Variable) -> bool
    decreases actions.len(),
{
    if actions.len() == 0 {
        false
    } else if action_defs(actions[0], v) {
        true
    } else {
        kill_from(actions.subrange(1, actions.len() as int), v)
    }
}

/// Whether the action list reads `v` before overwriting it.
pub fn gen_exec(actions: &Vec<Action>, v: Variable) -> (r: bool)
    ensures
        r == gen_from(actions@, v),
{
    let n: usize = actions.len();
    let mut i: usize = 0;
    proof {
        assert(actions@.subrange(0, n as int) =~= actions@);
    }
    while i < n
        invariant
            i <= n,
            n == actions@.len(),
            gen_from(actions@, v) == gen_from(actions@.subrange(i as int, n as int), v),
        decreases n - i,
    {
        let ghost pre = actions@.subrange(i as int, n as int);
        proof {
            assert(pre[0] == actions@[i as int]);
            assert(pre.subrange(1, pre.len() as int) =~= actions@.subrange(i as int + 1, n as int));
        }
        let uses = match &actions[i] {
            Action::Assign(_, src) => src.name == v.name,
            Action::Use(u) => u.name == v.name,
            _ => false,
        };
        proof {
            assert(uses == action_uses(actions@[i as int], v));
        }
        if uses {
            return true;
        }
        let defs = match &actions[i] {
            Action::Borrow(d, _) => d.name == v.name,
            Action::Assign(d, _) => d.name == v.name,
            Action::Write(d) => d.name == v.name,
            _ => false,
        };
        proof {
            assert(defs == action_defs(actions@[i as int], v));
        }
        if defs {
            return false;
        }
        i = i + 1;
    }
    proof {
        assert(actions@.subrange(n as int, n as int).len() == 0);
    }
    false
}

/// Whether the action list overwrites `v` anywhere.
pub fn kill_exec(actions: &Vec<Action>, v: Variable) -> (r: bool)
    ensures
        r == kill_from(actions@, v),
{
    let n: usize = actions.len();
    let mut i: usize = 0;
    proof {
        assert(actions@.subrange(0, n as int) =~= actions@);
    }
    while i < n
        invariant
            i <= n,
            n == actions@.len(),
            kill_from(actions@, v) == kill_from(actions@.subrange(i as int, n as int), v),
        decreases n - i,
    {
        let ghost pre = actions@.subrange(i as int, n as int);
        proof {
            assert(pre[0] == actions@[i as int]);
            assert(pre.subrange(1, pre.len() as int) =~= actions@.subrange(i as int + 1, n as int));
        }
        let defs = match &actions[i] {
            Action::Borrow(d, _) => d.name == v.name,
            Action::Assign(d, _) => d.name == v.name,
            Action::Write(d) => d.name == v.name,
            _ => false,
        };
        proof {
            assert(defs == action_defs(actions@[i as int], v));
        }
        if defs {
            return true;
        }
        i = i + 1;
    }
    proof {
        assert(actions@.subrange(n as int, n as int).len() == 0);
    }
    false
}

/// The tables have one row per block and one column per variable.
pub open spec fn live_shape(l: Seq<Seq<bool>>, n: nat, m: nat) -> bool {
    &&& l.len() == n
    &&& forall|b: int| 0 <= b < n ==> #[trigger] l[b].len() == m
}

/// The defining operator at one cell: `v` is live on entry to `b` when
/// the block reads it first, or some successor has it live and the
/// block does not overwrite it.
pub open spec fn live_step(
    l: Seq<Seq<bool>>,
    gen: Seq<Seq<bool>>,
    kill: Seq<Seq<bool>>,
    sv: Seq<Seq<usize>>,
    b: int,
    v: int,
) -> bool {
    gen[b][v] || (!kill[b][v] && exists|k: int|
        0 <= k < sv[b].len() && l[#[trigger] sv[b][k] as int][v])
}

/// `l` satisfies the liveness equations.
pub open spec fn is_live_solution(
    l: Seq<Seq<bool>>,
    gen: Seq<Seq<bool>>,
    kill: Seq<Seq<bool>>,
    sv: Seq<Seq<usize>>,
    n: nat,
    m: nat,
) -> bool {
    &&& live_shape(l, n, m)
    &&& forall|b: int, v: int|
        0 <= b < n && 0 <= v < m ==> (l[b][v] <==> #[trigger] live_step(l, gen, kill, sv, b, v))
}

/// Every set cell is justified by the defining operator: the table can
/// only ascend from here.
pub open spec fn ascending(
    l: Seq<Seq<bool>>,
    gen: Seq<Seq<bool>>,
    kill: Seq<Seq<bool>>,
    sv: Seq<Seq<usize>>,
    n: nat,
    m: nat,
) -> bool {
    forall|b: int, v: int|
        0 <= b < n && 0 <= v < m && #[trigger] l[b][v] ==> live_step(l, gen, kill, sv, b, v)
}

/// Every cell set in `l` is set in `s`.
pub open spec fn table_within(l: Seq<Seq<bool>>, s: Seq<Seq<bool>>, n: nat, m: nat) -> bool {
    forall|b: int, v: int| 0 <= b < n && 0 <= v < m && #[trigger] l[b][v] ==> s[b][v]
}

/// `l` is contained in every solution of the equations: it is below the
/// least solution.
pub open spec fn below_all_live_solutions(
    l: Seq<Seq<bool>>,
    gen: Seq<Seq<bool>>,
    kill: Seq<Seq<bool>>,
    sv: Seq<Seq<usize>>,
    n: nat,
    m: nat,
) -> bool {
    forall|s: Seq<Seq<bool>>|
        #[trigger] is_live_solution(s, gen, kill, sv, n, m) ==> table_within(l, s, n, m)
}

/// A row has at most as many cells set as it is long.
proof fn lemma_count_row_bound(s: Seq<bool>)
    ensures
        count_row(s) <= s.len(),
    decreases s.len(),
{
    if s.len() > 0 {
        lemma_count_row_bound(s.drop_last());
    }
}

/// A table of rows of length `m` has at most `len * m` cells set.
proof fn lemma_count_total_bound(d: Seq<Seq<bool>>, m: nat)
    requires
        forall|b: int| 0 <= b < d.len() ==> #[trigger] d[b].len() == m,
    ensures
        count_total(d) <= d.len() * m,
    decreases d.len(),
{
    if d.len() > 0 {
        lemma_count_total_bound(d.drop_last(), m);
        lemma_count_row_bound(d.last());
        assert(d.len() * m == (d.len() - 1) * m + m) by (nonlinear_arith);
    }
}

/// A row of `m` cells, none set.
fn zero_row(m: usize) -> (r: Vec<bool>)
    ensures
        r@.len() == m,
        forall|v: int| 0 <= v < m ==> !r@[v],
{
    let mut r: Vec<bool> = Vec::new();
    let mut v: usize = 0;
    while v < m
        invariant
            v <= m,
            r@.len() == v,
            forall|x: int| 0 <= x < v ==> !r@[x],
        decreases m - v,
    {
        r.push(false);
        v = v + 1;
    }
    r
}

/// Whether some successor of `b` has `v` live.
fn any_succ_live(l: &Vec<Vec<bool>>, succs: &Vec<Vec<usize>>, b: usize, v: usize, m: usize) -> (r:
    bool)
    requires
        preds_wf(preds_view(*succs), succs@.len() as nat),
        live_shape(rows_view(*l), succs@.len() as nat, m as nat),
        b < succs@.len(),
        v < m,
    ensures
        r == exists|k: int|
            0 <= k < preds_view(*succs)[b as int].len() && rows_view(*l)[#[trigger] preds_view(
                *succs,
            )[b as int][k] as int][v as int],
{
    let c: usize = succs[b].len();
    let mut k: usize = 0;
    while k < c
        invariant
            c == preds_view(*succs)[b as int].len(),
            preds_wf(preds_view(*succs), succs@.len() as nat),
            live_shape(rows_view(*l), succs@.len() as nat, m as nat),
            b < succs@.len(),
            v < m,
            k <= c,
            forall|j: int|
                0 <= j < k ==> !rows_view(*l)[#[trigger] preds_view(*succs)[b as int][j] as int][v as int],
        decreases c - k,
    {
        let s = succs[b][k];
        proof {
            assert(preds_view(*succs)[b as int][k as int] < succs@.len());
            assert(rows_view(*l)[s as int].len() == m);
        }
        if l[s][v] {
            assert(rows_view(*l)[preds_view(*succs)[b as int][k as int] as int][v as int]);
            return true;
        }
        k = k + 1;
    }
    false
}

/// The recomputed liveness row of `b` under the current table.
fn compute_live_row(
    l: &Vec<Vec<bool>>,
    gen: &Vec<Vec<bool>>,
    kill: &Vec<Vec<bool>>,
    succs: &Vec<Vec<usize>>,
    b: usize,
    m: usize,
) -> (r: Vec<bool>)
    requires
        preds_wf(preds_view(*succs), succs@.len() as nat),
        live_shape(rows_view(*l), succs@.len() as nat, m as nat),
        live_shape(rows_view(*gen), succs@.len() as nat, m as nat),
        live_shape(rows_view(*kill), succs@.len() as nat, m as nat),
        b < succs@.len(),
    ensures
        r@.len() == m,
        forall|v: int|
            0 <= v < m ==> (r@[v] <==> #[trigger] live_step(
                rows_view(*l),
                rows_view(*gen),
                rows_view(*kill),
                preds_view(*succs),
                b as int,
                v,
            )),
{
    let mut r: Vec<bool> = Vec::new();
    let mut v: usize = 0;
    while v < m
        invariant
            preds_wf(preds_view(*succs), succs@.len() as nat),
            live_shape(rows_view(*l), succs@.len() as nat, m as nat),
            live_shape(rows_view(*gen), succs@.len() as nat, m as nat),
            live_shape(rows_view(*kill), succs@.len() as nat, m as nat),
            b < succs@.len(),
            v <= m,
            r@.len() == v,
            forall|x: int|
                0 <= x < v ==> (r@[x] <==> #[trigger] live_step(
                    rows_view(*l),
                    rows_view(*gen),
                    rows_view(*kill),
                    preds_view(*succs),
                    b as int,
                    x,
                )),
        decreases m - v,
    {
        proof {
            assert(rows_view(*gen)[b as int].len() == m);
            assert(rows_view(*kill)[b as int].len() == m);
        }
        let cell = gen[b][v] || (!kill[b][v] && any_succ_live(l, succs, b, v, m));
        r.push(cell);
        v = v + 1;
    }
    r
}

/// Whether two rows hold the same cells.
fn live_rows_equal(x: &Vec<bool>, y: &Vec<bool>) -> (r: bool)
    ensures
        r == (x@ == y@),
{
    let n: usize = x.len();
    if n != y.len() {
        return false;
    }
    let mut i: usize = 0;
    while i < n
        invariant
            n == x@.len(),
            n == y@.len(),
            i <= n,
            forall|j: int| 0 <= j < i ==> x@[j] == y@[j],
        decreases n - i,
    {
        if x[i] != y[i] {
            return false;
        }
        i = i + 1;
    }
    proof {
        assert(x@ =~= y@);
    }
    true
}

/// Solves the liveness equations by ascending fixpoint iteration from
/// the empty table. The result satisfies the equations and is contained
/// in every other solution, so it is their least solution: a variable
/// is marked live on entry to a block exactly when some chain of
/// successor steps reaches a block that reads it first.
#[verifier::loop_isolation(false)]
pub fn solve_liveness(
    succs: &Vec<Vec<usize>>,
    gen: &Vec<Vec<bool>>,
    kill: &Vec<Vec<bool>>,
    m: usize,
) -> (l: Vec<Vec<bool>>)
    requires
        preds_wf(preds_view(*succs), succs@.len() as nat),
        live_shape(rows_view(*gen), succs@.len() as nat, m as nat),
        live_shape(rows_view(*kill), succs@.len() as nat, m as nat),
    ensures
        is_live_solution(
            rows_view(l),
            rows_view(*gen),
            rows_view(*kill),
            preds_view(*succs),
            succs@.len() as nat,
            m as nat,
        ),
        below_all_live_solutions(
            rows_view(l),
            rows_view(*gen),
            rows_view(*kill),
            preds_view(*succs),
            succs@.len() as nat,
            m as nat,
        ),
{
    let n: usize = succs.len();
    let ghost sv = preds_view(*succs);
    let ghost gv = rows_view(*gen);
    let ghost kv = rows_view(*kill);
    let mut l: Vec<Vec<bool>> = Vec::new();
    let mut b: usize = 0;
    while b < n
        invariant
            b <= n,
            l@.len() == b,
            forall|i: int| 0 <= i < b ==> #[trigger] rows_view(l)[i].len() == m,
            forall|i: int, v: int| 0 <= i < b && 0 <= v < m ==> !(#[trigger] rows_view(l)[i][v]),
        decreases n - b,
    {
        let row = zero_row(m);
        let ghost prev = rows_view(l);
        let ghost rowv = row@;
        l.push(row);
        proof {
            assert(rows_view(l)[b as int] == rowv);
            assert(forall|i: int| 0 <= i < b ==> #[trigger] rows_view(l)[i] == prev[i]);
        }
        b = b + 1;
    }
    proof {
        assert(live_shape(rows_view(l), n as nat, m as nat));
        assert(ascending(rows_view(l), gv, kv, sv, n as nat, m as nat));
        assert forall|s: Seq<Seq<bool>>|
            #[trigger] is_live_solution(s, gv, kv, sv, n as nat, m as nat) implies table_within(
            rows_view(l),
            s,
            n as nat,
            m as nat,
        ) by {
            assert(forall|c: int, v: int|
                0 <= c < n && 0 <= v < m ==> !(#[trigger] rows_view(l)[c][v]));
        }
    }
    let mut changed = true;
    while changed
        invariant
            live_shape(rows_view(l), n as nat, m as nat),
            ascending(rows_view(l), gv, kv, sv, n as nat, m as nat),
            below_all_live_solutions(rows_view(l), gv, kv, sv, n as nat, m as nat),
            !changed ==> is_live_solution(rows_view(l), gv, kv, sv, n as nat, m as nat),
        decreases ((n as int) * (m as int) - count_total(rows_view(l))) * 2 + (if changed {
            1int
        } else {
            0int
        }),
    {
        proof {
            lemma_count_total_bound(rows_view(l), m as nat);
        }
        let ghost start = rows_view(l);
        changed = false;
        let mut b: usize = 0;
        while b < n
            invariant
                b <= n,
                live_shape(rows_view(l), n as nat, m as nat),
                ascending(rows_view(l), gv, kv, sv, n as nat, m as nat),
                below_all_live_solutions(rows_view(l), gv, kv, sv, n as nat, m as nat),
                changed ==> count_total(rows_view(l)) > count_total(start),
                !changed ==> rows_view(l) == start,
                !changed ==> forall|j: int, v: int|
                    0 <= j < b && 0 <= v < m ==> (rows_view(l)[j][v] <==> #[trigger] live_step(
                        rows_view(l),
                        gv,
                        kv,
                        sv,
                        j,
                        v,
                    )),
            decreases n - b,
        {
            let newrow = compute_live_row(&l, gen, kill, succs, b, m);
            let same = live_rows_equal(&l[b], &newrow);
            if !same {
                let ghost before = rows_view(l);
                let ghost nr = newrow@;
                l[b] = newrow;
                changed = true;
                proof {
                    assert(rows_view(l) =~= before.update(b as int, nr));
                    let after = rows_view(l);
                    // The new row is pointwise above the old one.
                    assert forall|v: int|
                        0 <= v < m && #[trigger] before[b as int][v] implies nr[v] by {
                        assert(live_step(before, gv, kv, sv, b as int, v));
                    }
                    // Strictly above: some cell differs, and it can
                    // only have been set.
                    assert(exists|v: int| 0 <= v < m && nr[v] != before[b as int][v]) by {
                        if forall|v: int| 0 <= v < m ==> nr[v] == before[b as int][v] {
                            assert(nr =~= before[b as int]);
                        }
                    }
                    let w = choose|v: int| 0 <= v < m && nr[v] != before[b as int][v];
                    lemma_count_row_lt(before[b as int], nr, w);
                    lemma_count_total_update(before, b as int, nr);
                    // The table stays ascending: the operator is
                    // monotone and the table only grew.
                    assert forall|c: int, v: int|
                        0 <= c < n && 0 <= v < m && #[trigger] after[c][v] implies live_step(
                        after,
                        gv,
                        kv,
                        sv,
                        c,
                        v,
                    ) by {
                        assert(live_step(before, gv, kv, sv, c, v)) by {
                            if c != b {
                                assert(before[c][v]);
                            }
                        }
                        if !gv[c][v] {
                            let k = choose|k: int|
                                0 <= k < sv[c].len() && before[sv[c][k] as int][v];
                            assert(after[sv[c][k] as int][v]);
                        }
                    }
                    // The table stays below every solution.
                    assert forall|s: Seq<Seq<bool>>|
                        #[trigger] is_live_solution(s, gv, kv, sv, n as nat, m as nat) implies table_within(
                        after,
                        s,
                        n as nat,
                        m as nat,
                    ) by {
                        assert(table_within(before, s, n as nat, m as nat));
                        assert forall|c: int, v: int|
                            0 <= c < n && 0 <= v < m && #[trigger] after[c][v] implies s[c][v] by {
                            if c == b {
                                assert(live_step(before, gv, kv, sv, c, v));
                                if !gv[c][v] {
                                    let k = choose|k: int|
                                        0 <= k < sv[c].len() && before[sv[c][k] as int][v];
                                    assert(s[sv[c][k] as int][v]);
                                    assert(live_step(s, gv, kv, sv, c, v));
                                } else {
                                    assert(live_step(s, gv, kv, sv, c, v));
                                }
                            }
                        }
                    }
                }
            } else {
                proof {
                    assert forall|v: int|
                        0 <= v < m implies (rows_view(l)[b as int][v] <==> live_step(
                        rows_view(l),
                        gv,
                        kv,
                        sv,
                        b as int,
                        v,
                    )) by {
                        assert(rows_view(l)[b as int][v] == newrow@[v]);
                    }
                }
            }
            b = b + 1;
        }
        proof {
            lemma_count_total_bound(rows_view(l), m as nat);
        }
    }
    l
}

} // verus!
