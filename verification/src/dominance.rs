//! The dominator fixpoint over a finite directed graph.
//!
//! Blocks are numbered `0 .. n`; the graph is given by each block's
//! predecessor list. A dominator assignment maps each block to a row of
//! booleans: `d[b][a]` says that `a` dominates `b`. The defining
//! equations are `dom(root) = {root}` and, for every other block,
//! `dom(b) = {b} ∪ ⋂ dom(p)` over the predecessors `p` of `b` (an empty
//! intersection is the full set). The solver starts every non-root row
//! full and shrinks rows monotonically until the equations hold, so the
//! result is the greatest solution of the equations — for blocks
//! reachable from the root, exactly the dominator relation.

use vstd::prelude::*;

verus! {

/// The rows of a table of blocks, as a sequence of sequences.
pub open spec fn rows_view(v: Vec<Vec<bool>>) -> Seq<Seq<bool>> {
    Seq::new(v@.len(), |i: int| v@[i]@)
}

/// The predecessor lists, as a sequence of sequences.
pub open spec fn preds_view(v: Vec<Vec<usize>>) -> Seq<Seq<usize>> {
    Seq::new(v@.len(), |i: int| v@[i]@)
}

/// Every listed predecessor is a block number below `n`.
pub open spec fn preds_wf(pv: Seq<Seq<usize>>, n: nat) -> bool {
    &&& pv.len() == n
    &&& forall|b: int, k: int|
        0 <= b < n && 0 <= k < pv[b].len() ==> #[trigger] pv[b][k] < n
}

/// `d` has one row per block and one column per block.
pub open spec fn dom_shape(d: Seq<Seq<bool>>, n: nat) -> bool {
    &&& d.len() == n
    &&& forall|b: int| 0 <= b < n ==> #[trigger] d[b].len() == n
}

/// `a` is in every predecessor's row of `b`.
pub open spec fn all_preds_have(d: Seq<Seq<bool>>, pv: Seq<Seq<usize>>, b: int, a: int) -> bool {
    forall|k: int| 0 <= k < pv[b].len() ==> d[#[trigger] pv[b][k] as int][a]
}

/// The defining operator at one cell: `a` belongs to the recomputed row
/// of `b` exactly when `a` is `b` itself or every predecessor of `b`
/// already has `a`.
pub open spec fn dom_step(d: Seq<Seq<bool>>, pv: Seq<Seq<usize>>, b: int, a: int) -> bool {
    a == b || all_preds_have(d, pv, b, a)
}

/// The root's row holds exactly the root.
pub open spec fn root_row_exact(d: Seq<Seq<bool>>, root: int, n: nat) -> bool {
    forall|a: int| 0 <= a < n ==> (#[trigger] d[root][a] <==> a == root)
}

/// `d` satisfies the dominator equations of the graph `pv` with the
/// given root.
pub open spec fn is_dom_solution(d: Seq<Seq<bool>>, pv: Seq<Seq<usize>>, root: int, n: nat) -> bool {
    &&& dom_shape(d, n)
    &&& root_row_exact(d, root, n)
    &&& forall|b: int, a: int|
        0 <= b < n && b != root && 0 <= a < n ==> (d[b][a] <==> #[trigger] dom_step(d, pv, b, a))
}

/// Applying the defining operator to any non-root cell never adds a
/// member: the table can only descend from here.
pub open spec fn descending(d: Seq<Seq<bool>>, pv: Seq<Seq<usize>>, root: int, n: nat) -> bool {
    forall|b: int, a: int|
        0 <= b < n && b != root && 0 <= a < n && #[trigger] dom_step(d, pv, b, a) ==> d[b][a]
}

/// Every cell set in `s` is set in `d`.
pub open spec fn above_table(d: Seq<Seq<bool>>, s: Seq<Seq<bool>>, n: nat) -> bool {
    forall|b: int, a: int| 0 <= b < n && 0 <= a < n && #[trigger] s[b][a] ==> d[b][a]
}

/// `d` contains every solution of the equations cell for cell: `d` is
/// above the greatest solution.
pub open spec fn above_all_solutions(
    d: Seq<Seq<bool>>,
    pv: Seq<Seq<usize>>,
    root: int,
    n: nat,
) -> bool {
    forall|s: Seq<Seq<bool>>|
        #[trigger] is_dom_solution(s, pv, root, n) ==> above_table(d, s, n)
}

/// How many cells of a row are set.
pub open spec fn count_row(s: Seq<bool>) -> nat
    decreases s.len(),
{
    if s.len() == 0 {
        0
    } else {
        count_row(s.drop_last()) + if s.last() {
            1nat
        } else {
            0nat
        }
    }
}

/// How many cells of the whole table are set.
pub open spec fn count_total(d: Seq<Seq<bool>>) -> nat
    decreases d.len(),
{
    if d.len() == 0 {
        0
    } else {
        count_total(d.drop_last()) + count_row(d.last())
    }
}

/// A row that is pointwise below another has no more cells set.
pub proof fn lemma_count_row_le(s1: Seq<bool>, s2: Seq<bool>)
    requires
        s1.len() == s2.len(),
        forall|i: int| 0 <= i < s1.len() && #[trigger] s1[i] ==> s2[i],
    ensures
        count_row(s1) <= count_row(s2),
    decreases s1.len(),
{
    if s1.len() > 0 {
        assert(forall|i: int|
            0 <= i < s1.drop_last().len() && #[trigger] s1.drop_last()[i] ==> s2.drop_last()[i]);
        lemma_count_row_le(s1.drop_last(), s2.drop_last());
    }
}

/// A row pointwise below another, with some cell cleared that the other
/// has set, has strictly fewer cells set.
pub proof fn lemma_count_row_lt(s1: Seq<bool>, s2: Seq<bool>, w: int)
    requires
        s1.len() == s2.len(),
        forall|i: int| 0 <= i < s1.len() && #[trigger] s1[i] ==> s2[i],
        0 <= w < s1.len(),
        !s1[w],
        s2[w],
    ensures
        count_row(s1) < count_row(s2),
    decreases s1.len(),
{
    assert(forall|i: int|
        0 <= i < s1.drop_last().len() && #[trigger] s1.drop_last()[i] ==> s2.drop_last()[i]);
    if w == s1.len() - 1 {
        lemma_count_row_le(s1.drop_last(), s2.drop_last());
    } else {
        lemma_count_row_lt(s1.drop_last(), s2.drop_last(), w);
    }
}

/// Replacing one row changes the total count by the difference of the
/// two rows' counts.
pub proof fn lemma_count_total_update(d: Seq<Seq<bool>>, j: int, row: Seq<bool>)
    requires
        0 <= j < d.len(),
    ensures
        count_total(d.update(j, row)) == count_total(d) - count_row(d[j]) + count_row(row),
    decreases d.len(),
{
    let du = d.update(j, row);
    if j == d.len() - 1 {
        assert(du.drop_last() =~= d.drop_last());
        assert(du.last() == row);
    } else {
        assert(du.drop_last() =~= d.drop_last().update(j, row));
        assert(du.last() == d.last());
        lemma_count_total_update(d.drop_last(), j, row);
        assert(d.drop_last()[j] == d[j]);
    }
}

/// Dominance is reflexive: under any solution of the dominator
/// equations, every block dominates itself. A round trip through the
/// solver therefore always answers yes to "does `b` dominate `b`".
pub proof fn lemma_dominance_reflexive(
    d: Seq<Seq<bool>>,
    pv: Seq<Seq<usize>>,
    root: int,
    n: nat,
    b: int,
)
    requires
        is_dom_solution(d, pv, root, n),
        0 <= b < n,
    ensures
        d[b][b],
{
    if b != root {
        assert(dom_step(d, pv, b, b));
    }
}

/// `a` strictly dominates `b` under the table `d`.
pub open spec fn strict_dom(d: Seq<Seq<bool>>, b: int, a: int) -> bool {
    d[b][a] && a != b
}

/// `i` is the immediate dominator of `b`: the strict dominator of `b`
/// that every other strict dominator of `b` dominates — the closest
/// one, from which the dominator tree is read off.
pub open spec fn is_idom(d: Seq<Seq<bool>>, b: int, i: int, n: nat) -> bool {
    &&& 0 <= i < n
    &&& strict_dom(d, b, i)
    &&& forall|a: int| 0 <= a < n && #[trigger] strict_dom(d, b, a) ==> d[i][a]
}

/// Finds the immediate dominator of `b` under the table `d`: the
/// strict dominator of `b` dominated by every other strict dominator
/// of `b`, or nothing when no such block exists — as for a root or an
/// unreachable block whose row the equations leave full.
#[verifier::loop_isolation(false)]
pub fn immediate_dominator(d: &Vec<Vec<bool>>, b: usize) -> (r: Option<usize>)
    requires
        dom_shape(rows_view(*d), d@.len() as nat),
        b < d@.len(),
    ensures
        match r {
            Some(i) => is_idom(rows_view(*d), b as int, i as int, d@.len() as nat),
            None => forall|i: int| !is_idom(rows_view(*d), b as int, i, d@.len() as nat),
        },
{
    let n: usize = d.len();
    let mut i: usize = 0;
    while i < n
        invariant
            i <= n,
            forall|j: int| 0 <= j < i ==> !is_idom(rows_view(*d), b as int, j, n as nat),
        decreases n - i,
    {
        proof {
            assert(rows_view(*d)[b as int].len() == n);
            assert(rows_view(*d)[i as int].len() == n);
        }
        if d[b][i] && i != b {
            let mut ok = true;
            let mut a: usize = 0;
            while a < n
                invariant
                    i < n,
                    b < n,
                    a <= n,
                    ok ==> forall|x: int|
                        0 <= x < a && #[trigger] strict_dom(rows_view(*d), b as int, x)
                            ==> rows_view(*d)[i as int][x],
                    !ok ==> exists|x: int|
                        0 <= x < n && #[trigger] strict_dom(rows_view(*d), b as int, x)
                            && !rows_view(*d)[i as int][x],
                decreases n - a,
            {
                if ok && d[b][a] && a != b && !d[i][a] {
                    proof {
                        assert(strict_dom(rows_view(*d), b as int, a as int));
                        assert(!rows_view(*d)[i as int][a as int]);
                    }
                    ok = false;
                }
                a = a + 1;
            }
            if ok {
                return Some(i);
            }
        }
        i = i + 1;
    }
    proof {
        assert forall|j: int| !is_idom(rows_view(*d), b as int, j, n as nat) by {
            if 0 <= j < n {
                assert(!is_idom(rows_view(*d), b as int, j, n as nat));
            }
        }
    }
    None
}

/// A row of `n` cells, all set.
fn full_row(n: usize) -> (r: Vec<bool>)
    ensures
        r@.len() == n,
        forall|a: int| 0 <= a < n ==> r@[a],
{
    let mut r: Vec<bool> = Vec::new();
    let mut a: usize = 0;
    while a < n
        invariant
            a <= n,
            r@.len() == a,
            forall|x: int| 0 <= x < a ==> r@[x],
        decreases n - a,
    {
        r.push(true);
        a = a + 1;
    }
    r
}

/// A row of `n` cells with only cell `j` set.
fn singleton_row(n: usize, j: usize) -> (r: Vec<bool>)
    ensures
        r@.len() == n,
        forall|a: int| 0 <= a < n ==> (r@[a] <==> a == j),
{
    let mut r: Vec<bool> = Vec::new();
    let mut a: usize = 0;
    while a < n
        invariant
            a <= n,
            r@.len() == a,
            forall|x: int| 0 <= x < a ==> (r@[x] <==> x == j),
        decreases n - a,
    {
        r.push(a == j);
        a = a + 1;
    }
    r
}

/// Whether every predecessor's row of `b` has cell `a` set.
fn all_preds_have_exec(d: &Vec<Vec<bool>>, preds: &Vec<Vec<usize>>, b: usize, a: usize) -> (r:
    bool)
    requires
        preds_wf(preds_view(*preds), preds@.len() as nat),
        dom_shape(rows_view(*d), preds@.len() as nat),
        b < preds@.len(),
        a < preds@.len(),
    ensures
        r == all_preds_have(rows_view(*d), preds_view(*preds), b as int, a as int),
{
    let m: usize = preds[b].len();
    let mut k: usize = 0;
    while k < m
        invariant
            m == preds@[b as int]@.len(),
            preds_wf(preds_view(*preds), preds@.len() as nat),
            dom_shape(rows_view(*d), preds@.len() as nat),
            b < preds@.len(),
            a < preds@.len(),
            k <= m,
            forall|j: int|
                0 <= j < k ==> rows_view(*d)[#[trigger] preds_view(*preds)[b as int][j] as int][a as int],
        decreases m - k,
    {
        let p = preds[b][k];
        proof {
            assert(preds_view(*preds)[b as int][k as int] < preds@.len());
            assert(rows_view(*d)[p as int].len() == preds@.len());
        }
        if !d[p][a] {
            assert(!rows_view(*d)[preds_view(*preds)[b as int][k as int] as int][a as int]);
            return false;
        }
        k = k + 1;
    }
    true
}

/// The recomputed row of `b`: cell `a` is set exactly when the defining
/// operator sets it under the current table.
fn compute_step_row(d: &Vec<Vec<bool>>, preds: &Vec<Vec<usize>>, b: usize) -> (r: Vec<bool>)
    requires
        preds_wf(preds_view(*preds), preds@.len() as nat),
        dom_shape(rows_view(*d), preds@.len() as nat),
        b < preds@.len(),
    ensures
        r@.len() == preds@.len(),
        forall|a: int|
            0 <= a < preds@.len() ==> (r@[a] <==> #[trigger] dom_step(
                rows_view(*d),
                preds_view(*preds),
                b as int,
                a,
            )),
{
    let n: usize = preds.len();
    let mut r: Vec<bool> = Vec::new();
    let mut a: usize = 0;
    while a < n
        invariant
            n == preds@.len(),
            preds_wf(preds_view(*preds), n as nat),
            dom_shape(rows_view(*d), n as nat),
            b < n,
            a <= n,
            r@.len() == a,
            forall|x: int|
                0 <= x < a ==> (r@[x] <==> #[trigger] dom_step(
                    rows_view(*d),
                    preds_view(*preds),
                    b as int,
                    x,
                )),
        decreases n - a,
    {
        let cell = a == b || all_preds_have_exec(d, preds, b, a);
        r.push(cell);
        a = a + 1;
    }
    r
}

/// Whether two rows hold the same cells.
fn rows_equal(x: &Vec<bool>, y: &Vec<bool>) -> (r: bool)
    ensures
        r == (x@ == y@),
{
    let n: usize = x.len();
    if n != y.len() {
        return false;
    }
    let mut i: usize = 0;
    while i < n
        invariant
            n == x@.len(),
            n == y@.len(),
            i <= n,
            forall|j: int| 0 <= j < i ==> x@[j] == y@[j],
        decreases n - i,
    {
        if x[i] != y[i] {
            return false;
        }
        i = i + 1;
    }
    proof {
        assert(x@ =~= y@);
    }
    true
}

/// Solves the dominator equations by descending fixpoint iteration:
/// every non-root row starts full and is repeatedly replaced by the
/// defining operator's value until nothing changes. The result satisfies
/// the equations and contains every other solution, so it is their
/// greatest solution — the dominator sets, with every block unreachable
/// from the root keeping the rows the equations force for it.
#[verifier::loop_isolation(false)]
pub fn solve_dominators(preds: &Vec<Vec<usize>>, root: usize) -> (d: Vec<Vec<bool>>)
    requires
        preds@.len() >= 1,
        root < preds@.len(),
        preds_wf(preds_view(*preds), preds@.len() as nat),
    ensures
        is_dom_solution(rows_view(d), preds_view(*preds), root as int, preds@.len() as nat),
        above_all_solutions(rows_view(d), preds_view(*preds), root as int, preds@.len() as nat),
{
    let n: usize = preds.len();
    let ghost pv = preds_view(*preds);
    let mut d: Vec<Vec<bool>> = Vec::new();
    let mut b: usize = 0;
    while b < n
        invariant
            b <= n,
            d@.len() == b,
            forall|i: int| 0 <= i < b ==> #[trigger] rows_view(d)[i].len() == n,
            forall|i: int, a: int|
                0 <= i < b && i != root && 0 <= a < n ==> #[trigger] rows_view(d)[i][a],
            forall|a: int|
                0 <= a < n && root < b ==> (#[trigger] rows_view(d)[root as int][a] <==> a
                    == root),
        decreases n - b,
    {
        let row = if b == root {
            singleton_row(n, root)
        } else {
            full_row(n)
        };
        let ghost prev = rows_view(d);
        let ghost rowv = row@;
        d.push(row);
        proof {
            assert(rows_view(d)[b as int] == rowv);
            assert(forall|i: int| 0 <= i < b ==> #[trigger] rows_view(d)[i] == prev[i]);
        }
        b = b + 1;
    }
    proof {
        assert(dom_shape(rows_view(d), n as nat));
        assert(root_row_exact(rows_view(d), root as int, n as nat));
        assert(descending(rows_view(d), pv, root as int, n as nat));
        assert forall|s: Seq<Seq<bool>>|
            #[trigger] is_dom_solution(s, pv, root as int, n as nat) implies above_table(
            rows_view(d),
            s,
            n as nat,
        ) by {
            assert forall|c: int, a: int|
                0 <= c < n && 0 <= a < n && #[trigger] s[c][a] implies rows_view(d)[c][a] by {
                if c == root {
                    assert(a == root);
                }
            }
        }
    }
    let mut changed = true;
    while changed
        invariant
            dom_shape(rows_view(d), n as nat),
            root_row_exact(rows_view(d), root as int, n as nat),
            descending(rows_view(d), pv, root as int, n as nat),
            above_all_solutions(rows_view(d), pv, root as int, n as nat),
            !changed ==> is_dom_solution(rows_view(d), pv, root as int, n as nat),
        decreases (count_total(rows_view(d)) * 2) + (if changed {
            1int
        } else {
            0int
        }),
    {
        let ghost start = rows_view(d);
        changed = false;
        let mut b: usize = 0;
        while b < n
            invariant
                b <= n,
                dom_shape(rows_view(d), n as nat),
                root_row_exact(rows_view(d), root as int, n as nat),
                descending(rows_view(d), pv, root as int, n as nat),
                above_all_solutions(rows_view(d), pv, root as int, n as nat),
                changed ==> count_total(rows_view(d)) < count_total(start),
                !changed ==> rows_view(d) == start,
                !changed ==> forall|j: int, a: int|
                    0 <= j < b && j != root && 0 <= a < n ==> (rows_view(d)[j][a]
                        <==> #[trigger] dom_step(rows_view(d), pv, j, a)),
            decreases n - b,
        {
            if b != root {
                let newrow = compute_step_row(&d, preds, b);
                let same = rows_equal(&d[b], &newrow);
                if !same {
                    let ghost before = rows_view(d);
                    let ghost nr = newrow@;
                    d[b] = newrow;
                    changed = true;
                    proof {
                        assert(rows_view(d) =~= before.update(b as int, nr));
                        let after = rows_view(d);
                        // The new row is pointwise below the old one.
                        assert forall|a: int|
                            0 <= a < n && #[trigger] nr[a] implies before[b as int][a] by {
                            assert(dom_step(before, pv, b as int, a));
                        }
                        // Strictly below: some cell differs, and it can
                        // only have been cleared.
                        assert(exists|a: int| 0 <= a < n && nr[a] != before[b as int][a]) by {
                            if forall|a: int| 0 <= a < n ==> nr[a] == before[b as int][a] {
                                assert(nr =~= before[b as int]);
                            }
                        }
                        let w = choose|a: int| 0 <= a < n && nr[a] != before[b as int][a];
                        lemma_count_row_lt(nr, before[b as int], w);
                        lemma_count_total_update(before, b as int, nr);
                        // The table stays descending: the operator is
                        // monotone and the table only shrank.
                        assert forall|c: int, a: int|
                            0 <= c < n && c != root && 0 <= a < n && #[trigger] dom_step(
                                after,
                                pv,
                                c,
                                a,
                            ) implies after[c][a] by {
                            assert(dom_step(before, pv, c, a)) by {
                                if a != c {
                                    assert forall|k: int|
                                        0 <= k < pv[c].len() implies before[#[trigger] pv[c][k] as int][a] by {
                                        assert(after[pv[c][k] as int][a]);
                                    }
                                }
                            }
                        }
                        // The table stays above every solution.
                        assert forall|s: Seq<Seq<bool>>|
                            #[trigger] is_dom_solution(s, pv, root as int, n as nat) implies above_table(
                            after,
                            s,
                            n as nat,
                        ) by {
                            assert(above_table(before, s, n as nat));
                            assert forall|c: int, a: int|
                                0 <= c < n && 0 <= a < n && #[trigger] s[c][a] implies after[c][a] by {
                                if c == b {
                                    assert(dom_step(s, pv, c, a));
                                    if a != c {
                                        assert forall|k: int|
                                            0 <= k < pv[c].len() implies before[#[trigger] pv[c][k] as int][a] by {
                                            assert(s[pv[c][k] as int][a]);
                                        }
                                    }
                                    assert(dom_step(before, pv, c, a));
                                }
                            }
                        }
                    }
                } else {
                    proof {
                        assert forall|a: int|
                            0 <= a < n implies (rows_view(d)[b as int][a] <==> dom_step(
                            rows_view(d),
                            pv,
                            b as int,
                            a,
                        )) by {
                            assert(rows_view(d)[b as int][a] == newrow@[a]);
                        }
                    }
                }
            }
            b = b + 1;
        }
    }
    d
}

} // verus!
