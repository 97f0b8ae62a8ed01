//! The control-flow graph of a function: block indices, successor and
//! predecessor edges, reachability from the entry, and the dominator
//! and postdominator tables.
//!
//! Blocks are numbered by their position in `Func::data`; the entry is
//! the first declared block. For postdominators the graph is reversed
//! and every block without successors is joined to one synthetic exit
//! node, numbered one past the last block.

use vstd::prelude::*;

use crate::dominance::{preds_view, preds_wf};
use crate::repr::{BasicBlock, Func};

verus! {

/// Why a control-flow graph could not be built.
#[derive(Clone, Copy, Debug, Hash, PartialEq, Eq, Structural)]
pub enum GraphError {
    /// A successor list names a block that `Func::data` does not hold.
    DanglingBlock(BasicBlock),
    /// The function has no blocks at all, so no entry exists.
    NoBlocks,
}

/// There is an edge from block `j` to block `t`.
pub open spec fn edge_spec(succs: Seq<Seq<usize>>, j: int, t: int) -> bool {
    exists|k: int| 0 <= k < succs[j].len() && #[trigger] succs[j][k] == t
}

/// Every marked block's successors are marked.
pub open spec fn closed_under_succs(m: Seq<bool>, succs: Seq<Seq<usize>>, n: nat) -> bool {
    forall|j: int, k: int|
        0 <= j < n && m[j] && 0 <= k < succs[j].len() ==> m[#[trigger] succs[j][k] as int]
}

/// Every block marked in `m` is marked in `s`.
pub open spec fn contained_in(m: Seq<bool>, s: Seq<bool>, n: nat) -> bool {
    forall|b: int| 0 <= b < n && #[trigger] m[b] ==> s[b]
}

/// `m` is below every set of blocks that holds the root and is closed
/// under successors: `m` marks only blocks reachable from the root.
pub open spec fn below_all_closed(m: Seq<bool>, succs: Seq<Seq<usize>>, root: int, n: nat) -> bool {
    forall|s: Seq<bool>|
        s.len() == n && s[root] && #[trigger] closed_under_succs(s, succs, n) ==> contained_in(
            m,
            s,
            n,
        )
}

/// The control-flow graph of a function, over block indices.
pub struct FuncGraph {
    /// `succs[i]` holds the indices of block `i`'s successors, in the
    /// order their names are listed.
    pub succs: Vec<Vec<usize>>,
    /// `preds[t]` holds exactly the blocks with an edge to `t`.
    pub preds: Vec<Vec<usize>>,
}

impl FuncGraph {
    /// The number of blocks.
    pub open spec fn n(self) -> nat {
        self.succs@.len()
    }

    /// The graph's internal shape: edges within bounds and the
    /// predecessor lists holding exactly the reversed edges.
    pub open spec fn wf(self) -> bool {
        &&& self.preds@.len() == self.n()
        &&& preds_wf(preds_view(self.succs), self.n())
        &&& preds_wf(preds_view(self.preds), self.n())
        &&& forall|t: int, j: int|
            0 <= t < self.n() && 0 <= j < self.n() ==> (#[trigger] preds_view(
                self.preds,
            )[t].contains(j as usize) <==> edge_spec(preds_view(self.succs), j, t))
    }

    /// Whether the graph matches `func`: one node per block, and the
    /// successor indices resolving exactly the successor names.
    pub open spec fn matches(self, func: Func) -> bool {
        &&& self.n() == func.data@.len()
        &&& forall|i: int|
            0 <= i < self.n() ==> #[trigger] preds_view(self.succs)[i].len()
                == func.data@[i].successors@.len()
        &&& forall|i: int, k: int|
            0 <= i < self.n() && 0 <= k < func.data@[i].successors@.len()
                ==> func.data@[#[trigger] preds_view(self.succs)[i][k] as int].name
                == func.data@[i].successors@[k]
    }
}

/// Whether `v` lists `x`.
fn contains_exec(v: &Vec<usize>, x: usize) -> (r: bool)
    ensures
        r == v@.contains(x),
{
    let n: usize = v.len();
    let mut i: usize = 0;
    while i < n
        invariant
            n == v@.len(),
            i <= n,
            forall|j: int| 0 <= j < i ==> v@[j] != x,
        decreases n - i,
    {
        if v[i] == x {
            return true;
        }
        i = i + 1;
    }
    false
}

/// Builds the control-flow graph of `func`: node `i` is the `i`-th
/// declared block, and each successor name is resolved to the index of
/// a block carrying that name. Fails exactly when the function has no
/// blocks, or some successor list names a block that does not exist —
/// the error carries such a name.
#[verifier::loop_isolation(false)]
pub fn build_graph(func: &Func) -> (r: Result<FuncGraph, GraphError>)
    ensures
        match r {
            Ok(g) => g.wf() && g.matches(*func) && func.data@.len() > 0,
            Err(e) => match e {
                GraphError::NoBlocks => func.data@.len() == 0,
                GraphError::DanglingBlock(b) => {
                    &&& exists|i: int, k: int|
                        0 <= i < func.data@.len() && 0 <= k < func.data@[i].successors@.len()
                            && #[trigger] func.data@[i].successors@[k] == b
                    &&& forall|j: int| 0 <= j < func.data@.len() ==> func.data@[j].name != b
                },
            },
        },
{
    let n: usize = func.data.len();
    if n == 0 {
        return Err(GraphError::NoBlocks);
    }
    let mut succs: Vec<Vec<usize>> = Vec::new();
    let mut i: usize = 0;
    while i < n
        invariant
            i <= n,
            succs@.len() == i,
            forall|x: int|
                0 <= x < i ==> #[trigger] preds_view(succs)[x].len()
                    == func.data@[x].successors@.len(),
            forall|x: int, k: int|
                0 <= x < i && 0 <= k < func.data@[x].successors@.len() ==> #[trigger] preds_view(
                    succs,
                )[x][k] < n && func.data@[preds_view(succs)[x][k] as int].name
                    == func.data@[x].successors@[k],
        decreases n - i,
    {
        let m: usize = func.data[i].successors.len();
        let mut row: Vec<usize> = Vec::new();
        let mut k: usize = 0;
        while k < m
            invariant
                i < n,
                m == func.data@[i as int].successors@.len(),
                k <= m,
                row@.len() == k,
                forall|x: int|
                    0 <= x < k ==> #[trigger] row@[x] < n && func.data@[row@[x] as int].name
                        == func.data@[i as int].successors@[x],
            decreases m - k,
        {
            let name = func.data[i].successors[k];
            match func.find_block(name) {
                Some(j) => {
                    row.push(j);
                },
                None => {
                    return Err(GraphError::DanglingBlock(name));
                },
            }
            k = k + 1;
        }
        let ghost prev = preds_view(succs);
        let ghost rowv = row@;
        succs.push(row);
        proof {
            assert(preds_view(succs)[i as int] == rowv);
            assert(forall|x: int| 0 <= x < i ==> #[trigger] preds_view(succs)[x] == prev[x]);
        }
        i = i + 1;
    }
    // Predecessors: block `j` precedes `t` exactly when some edge of
    // `j` leads to `t`.
    let mut preds: Vec<Vec<usize>> = Vec::new();
    let mut t: usize = 0;
    while t < n
        invariant
            t <= n,
            preds@.len() == t,
            succs@.len() == n,
            forall|x: int, j: int|
                0 <= x < t && 0 <= j < n ==> (#[trigger] preds_view(preds)[x].contains(j as usize)
                    <==> edge_spec(preds_view(succs), j, x)),
            forall|x: int, q: int|
                0 <= x < t && 0 <= q < preds_view(preds)[x].len() ==> #[trigger] preds_view(
                    preds,
                )[x][q] < n,
        decreases n - t,
    {
        let mut row: Vec<usize> = Vec::new();
        let mut j: usize = 0;
        while j < n
            invariant
                t < n,
                succs@.len() == n,
                j <= n,
                forall|q: int|
                    0 <= q < row@.len() ==> #[trigger] row@[q] < j && edge_spec(
                        preds_view(succs),
                        row@[q] as int,
                        t as int,
                    ),
                forall|y: int|
                    0 <= y < j && edge_spec(preds_view(succs), y, t as int) ==> row@.contains(
                        y as usize,
                    ),
            decreases n - j,
        {
            let ghost rowv = row@;
            if contains_exec(&succs[j], t) {
                row.push(j);
                proof {
                    assert(succs@[j as int]@.contains(t));
                    let w = choose|w: int|
                        0 <= w < succs@[j as int]@.len() && succs@[j as int]@[w] == t;
                    assert(preds_view(succs)[j as int][w] == t);
                    assert(edge_spec(preds_view(succs), j as int, t as int));
                    assert(row@[rowv.len() as int] == j);
                    assert forall|y: int|
                        0 <= y < j + 1 && edge_spec(preds_view(succs), y, t as int) implies row@.contains(
                        y as usize,
                    ) by {
                        if y < j {
                            assert(rowv.contains(y as usize));
                            let q = choose|q: int| 0 <= q < rowv.len() && rowv[q] == y as usize;
                            assert(row@[q] == y as usize);
                        } else {
                            assert(row@[rowv.len() as int] == y as usize);
                        }
                    }
                }
            } else {
                proof {
                    assert(!succs@[j as int]@.contains(t));
                    assert forall|y: int|
                        0 <= y < j + 1 && edge_spec(preds_view(succs), y, t as int) implies row@.contains(
                        y as usize,
                    ) by {
                        if y == j {
                            let k = choose|k: int|
                                0 <= k < preds_view(succs)[y].len() && preds_view(succs)[y][k]
                                    == t as int;
                            assert(succs@[j as int]@[k] == t);
                            assert(succs@[j as int]@.contains(t));
                        }
                    }
                }
            }
            j = j + 1;
        }
        proof {
            assert forall|y: int|
                0 <= y < n implies (row@.contains(y as usize) <==> edge_spec(
                preds_view(succs),
                y,
                t as int,
            )) by {
                if row@.contains(y as usize) {
                    let q = choose|q: int| 0 <= q < row@.len() && row@[q] == y as usize;
                    assert(edge_spec(preds_view(succs), row@[q] as int, t as int));
                }
            }
        }
        let ghost prev = preds_view(preds);
        let ghost rowv = row@;
        preds.push(row);
        proof {
            assert(preds_view(preds)[t as int] == rowv);
            assert(forall|x: int| 0 <= x < t ==> #[trigger] preds_view(preds)[x] == prev[x]);
        }
        t = t + 1;
    }
    let g = FuncGraph { succs, preds };
    proof {
        assert(g.wf());
        assert(g.matches(*func));
    }
    Ok(g)
}

/// How many blocks a marking leaves unmarked.
pub open spec fn count_unmarked(s: Seq<bool>) -> nat
    decreases s.len(),
{
    if s.len() == 0 {
        0
    } else {
        count_unmarked(s.drop_last()) + if s.last() {
            0nat
        } else {
            1nat
        }
    }
}

/// Marking one unmarked block lowers the unmarked count by one.
proof fn lemma_count_unmarked_update(s: Seq<bool>, j: int)
    requires
        0 <= j < s.len(),
        !s[j],
    ensures
        count_unmarked(s.update(j, true)) == count_unmarked(s) - 1,
    decreases s.len(),
{
    let su = s.update(j, true);
    if j == s.len() - 1 {
        assert(su.drop_last() =~= s.drop_last());
        assert(su.last());
    } else {
        assert(su.drop_last() =~= s.drop_last().update(j, true));
        assert(su.last() == s.last());
        lemma_count_unmarked_update(s.drop_last(), j);
        assert(s.drop_last()[j] == s[j]);
    }
}

/// A row of `n` cells, none set.
fn false_row(n: usize) -> (r: Vec<bool>)
    ensures
        r@.len() == n,
        forall|a: int| 0 <= a < n ==> !r@[a],
{
    let mut r: Vec<bool> = Vec::new();
    let mut a: usize = 0;
    while a < n
        invariant
            a <= n,
            r@.len() == a,
            forall|x: int| 0 <= x < a ==> !r@[x],
        decreases n - a,
    {
        r.push(false);
        a = a + 1;
    }
    r
}

/// Marks exactly the blocks reachable from `root` along successor
/// edges: the result holds the root, is closed under successors, and is
/// contained in every set of blocks that holds the root and is closed —
/// it is the least such set.
#[verifier::loop_isolation(false)]
pub fn compute_reachable(succs: &Vec<Vec<usize>>, root: usize) -> (r: Vec<bool>)
    requires
        root < succs@.len(),
        preds_wf(preds_view(*succs), succs@.len() as nat),
    ensures
        r@.len() == succs@.len(),
        r@[root as int],
        closed_under_succs(r@, preds_view(*succs), succs@.len() as nat),
        below_all_closed(r@, preds_view(*succs), root as int, succs@.len() as nat),
{
    let n: usize = succs.len();
    let ghost sv = preds_view(*succs);
    let mut marked = false_row(n);
    marked[root] = true;
    let mut queue: Vec<usize> = Vec::new();
    queue.push(root);
    proof {
        assert forall|s: Seq<bool>|
            s.len() == n && s[root as int] && #[trigger] closed_under_succs(
                s,
                sv,
                n as nat,
            ) implies contained_in(marked@, s, n as nat) by {
            assert forall|b: int| 0 <= b < n && #[trigger] marked@[b] implies s[b] by {
                assert(b == root);
            }
        }
    }
    proof {
        assert(queue@[0] == root);
        assert(queue@.contains(root));
        assert forall|j: int, k: int|
            0 <= j < n && marked@[j] && !queue@.contains(j as usize) && 0 <= k
                < sv[j].len() implies marked@[#[trigger] sv[j][k] as int] by {
            assert(j == root);
            assert(false);
        }
    }
    while queue.len() > 0
        invariant
            marked@.len() == n,
            marked@[root as int],
            forall|q: int|
                0 <= q < queue@.len() ==> #[trigger] queue@[q] < n && marked@[queue@[q] as int],
            below_all_closed(marked@, sv, root as int, n as nat),
            forall|j: int, k: int|
                0 <= j < n && marked@[j] && !queue@.contains(j as usize) && 0 <= k
                    < sv[j].len() ==> marked@[#[trigger] sv[j][k] as int],
        decreases count_unmarked(marked@) + queue@.len(),
    {
        let ghost q0 = queue@;
        let ghost m0 = marked@;
        let b = match queue.pop() {
            Some(b) => b,
            None => {
                return marked;
            },
        };
        proof {
            assert(b == q0.last());
            assert forall|j: int, x: int|
                0 <= j < n && marked@[j] && j != b as int && !queue@.contains(j as usize) && 0 <= x
                    < sv[j].len() implies marked@[#[trigger] sv[j][x] as int] by {
                if q0.contains(j as usize) {
                    let q = choose|q: int| 0 <= q < q0.len() && q0[q] == j as usize;
                    if q == q0.len() - 1 {
                        assert(j == b);
                    } else {
                        assert(queue@[q] == q0[q]);
                        assert(queue@.contains(j as usize));
                    }
                }
                assert(!q0.contains(j as usize));
                assert(m0[sv[j][x] as int]);
            }
        }
        let m: usize = succs[b].len();
        let mut k: usize = 0;
        while k < m
            invariant
                b < n,
                m == sv[b as int].len(),
                k <= m,
                marked@.len() == n,
                marked@[root as int],
                marked@[b as int],
                forall|q: int|
                    0 <= q < queue@.len() ==> #[trigger] queue@[q] < n && marked@[queue@[q] as int],
                below_all_closed(marked@, sv, root as int, n as nat),
                forall|j: int, x: int|
                    0 <= j < n && marked@[j] && j != b && !queue@.contains(j as usize) && 0 <= x
                        < sv[j].len() ==> marked@[#[trigger] sv[j][x] as int],
                forall|x: int| 0 <= x < k ==> marked@[#[trigger] sv[b as int][x] as int],
                count_unmarked(marked@) + queue@.len() < count_unmarked(m0) + q0.len(),
            decreases m - k,
        {
            let tgt = succs[b][k];
            if !marked[tgt] {
                let ghost mpre = marked@;
                let ghost qpre = queue@;
                marked[tgt] = true;
                queue.push(tgt);
                proof {
                    lemma_count_unmarked_update(mpre, tgt as int);
                    assert(queue@[queue@.len() - 1] == tgt);
                    assert(queue@.contains(tgt));
                    assert forall|j: int, x: int|
                        0 <= j < n && marked@[j] && j != b as int && !queue@.contains(j as usize)
                            && 0 <= x < sv[j].len() implies marked@[#[trigger] sv[j][x] as int] by {
                        assert(j != tgt as int);
                        assert(mpre[j]);
                        if qpre.contains(j as usize) {
                            let q = choose|q: int| 0 <= q < qpre.len() && qpre[q] == j as usize;
                            assert(queue@[q] == qpre[q]);
                            assert(queue@.contains(j as usize));
                        }
                        assert(!qpre.contains(j as usize));
                        assert(mpre[sv[j][x] as int]);
                    }
                    assert forall|s: Seq<bool>|
                        s.len() == n && s[root as int] && #[trigger] closed_under_succs(
                            s,
                            sv,
                            n as nat,
                        ) implies contained_in(marked@, s, n as nat) by {
                        assert(contained_in(mpre, s, n as nat));
                        assert forall|c: int| 0 <= c < n && #[trigger] marked@[c] implies s[c] by {
                            if c != tgt {
                                assert(mpre[c]);
                            } else {
                                assert(mpre[b as int]);
                                assert(s[b as int]);
                                assert(s[sv[b as int][k as int] as int]);
                            }
                        }
                    }
                }
            }
            k = k + 1;
        }
        proof {
            assert forall|j: int, x: int|
                0 <= j < n && marked@[j] && !queue@.contains(j as usize) && 0 <= x
                    < sv[j].len() implies marked@[#[trigger] sv[j][x] as int] by {
                if j == b {
                    assert(marked@[sv[b as int][x] as int]);
                }
            }
        }
    }
    marked
}

/// The predecessor lists of the postdominator graph: the function's
/// graph reversed, with one synthetic exit node `n` that every block
/// without successors flows into, and which has no edges of its own.
/// Solving the dominator equations over this graph with root `n` gives
/// the postdominator sets.
#[verifier::loop_isolation(false)]
pub fn postdom_preds(succs: &Vec<Vec<usize>>) -> (r: Vec<Vec<usize>>)
    requires
        preds_wf(preds_view(*succs), succs@.len() as nat),
        succs@.len() < usize::MAX,
    ensures
        r@.len() == succs@.len() + 1,
        preds_wf(preds_view(r), (succs@.len() + 1) as nat),
        forall|b: int|
            0 <= b < succs@.len() && preds_view(*succs)[b].len() > 0 ==> #[trigger] preds_view(
                r,
            )[b] == preds_view(*succs)[b],
        forall|b: int|
            0 <= b < succs@.len() && preds_view(*succs)[b].len() == 0 ==> #[trigger] preds_view(
                r,
            )[b] =~= seq![succs@.len() as usize],
        preds_view(r)[succs@.len() as int].len() == 0,
{
    let n: usize = succs.len();
    let mut r: Vec<Vec<usize>> = Vec::new();
    let mut b: usize = 0;
    while b < n
        invariant
            b <= n,
            r@.len() == b,
            forall|x: int|
                0 <= x < b && preds_view(*succs)[x].len() > 0 ==> #[trigger] preds_view(r)[x]
                    == preds_view(*succs)[x],
            forall|x: int|
                0 <= x < b && preds_view(*succs)[x].len() == 0 ==> #[trigger] preds_view(r)[x]
                    =~= seq![n as usize],
            forall|x: int, q: int|
                0 <= x < b && 0 <= q < preds_view(r)[x].len() ==> #[trigger] preds_view(r)[x][q]
                    <= n,
        decreases n - b,
    {
        let ghost prev = preds_view(r);
        if succs[b].len() == 0 {
            let mut row: Vec<usize> = Vec::new();
            row.push(n);
            let ghost rowv = row@;
            r.push(row);
            proof {
                assert(preds_view(r)[b as int] == rowv);
                assert(rowv =~= seq![n as usize]);
                assert(forall|x: int| 0 <= x < b ==> #[trigger] preds_view(r)[x] == prev[x]);
            }
        } else {
            let row = succs[b].clone();
            let ghost rowv = row@;
            r.push(row);
            proof {
                assert(preds_view(r)[b as int] == rowv);
                assert(rowv == preds_view(*succs)[b as int]);
                assert(forall|x: int| 0 <= x < b ==> #[trigger] preds_view(r)[x] == prev[x]);
            }
        }
        b = b + 1;
    }
    let ghost prev = preds_view(r);
    let empty: Vec<usize> = Vec::new();
    r.push(empty);
    proof {
        assert(preds_view(r)[n as int].len() == 0);
        assert(forall|x: int| 0 <= x < n ==> #[trigger] preds_view(r)[x] == prev[x]);
    }
    r
}

} // verus!
