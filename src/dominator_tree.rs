use vstd::prelude::*;

verus! {

/// The rows of a boolean matrix, as sequences.
pub open spec fn rows(d: Seq<Vec<bool>>) -> Seq<Seq<bool>> {
    d.map_values(|r: Vec<bool>| r@)
}

/// The predecessor lists of a graph on the nodes `0 .. preds.len()`.
pub open spec fn lists(p: Seq<Vec<usize>>) -> Seq<Seq<usize>> {
    p.map_values(|v: Vec<usize>| v@)
}

/// Every predecessor index names a node of the graph.
pub open spec fn graph_wf(preds: Seq<Seq<usize>>) -> bool {
    forall|n: int, k: int|
        0 <= n < preds.len() && 0 <= k < preds[n].len() ==> #[trigger] preds[n][k] < preds.len()
}

/// A square matrix of side `len`.
pub open spec fn square(d: Seq<Seq<bool>>, len: nat) -> bool {
    d.len() == len && forall|n: int| 0 <= n < len ==> #[trigger] d[n].len() == len
}

/// `m` strictly dominates `n`: `d[n][m]` reads "`m` dominates `n`".
pub open spec fn sdom(d: Seq<Seq<bool>>, n: int, m: int) -> bool {
    d[n][m] && m != n
}

/// `d` solves the equations of dominance: the entry is dominated by itself
/// alone, each node by itself, and each strict dominator of a node other than
/// the entry dominates every predecessor of that node.
pub open spec fn dom_closed(preds: Seq<Seq<usize>>, d: Seq<Seq<bool>>, entry: int) -> bool {
    &&& forall|m: int| 0 <= m < d.len() ==> #[trigger] d[entry][m] == (m == entry)
    &&& forall|n: int| 0 <= n < d.len() ==> #[trigger] d[n][n]
    &&& forall|n: int, m: int, k: int|
        0 <= n < d.len() && n != entry && 0 <= m < d.len() && m != n && #[trigger] d[n][m] && 0
            <= k < preds[n].len() ==> d[#[trigger] preds[n][k] as int][m]
}

/// `m` is an immediate dominator of `n`: a strict dominator of `n` that every
/// strict dominator of `n` dominates.
pub open spec fn is_idom(d: Seq<Seq<bool>>, n: int, m: int) -> bool {
    &&& 0 <= m < d.len()
    &&& sdom(d, n, m)
    &&& forall|k: int| 0 <= k < d.len() && sdom(d, n, k) ==> #[trigger] d[m][k]
}

/// `r` is the immediate dominator of `n` of least index, if there is one.
pub open spec fn idom_of(d: Seq<Seq<bool>>, n: int, r: Option<usize>) -> bool {
    match r {
        Some(m) => is_idom(d, n, m as int) && forall|k: int| 0 <= k < m ==> !is_idom(d, n, k),
        None => forall|k: int| !is_idom(d, n, k),
    }
}

/// `f` is in the dominance frontier of `n`: `n` dominates a predecessor of
/// `f` but does not strictly dominate `f`.
pub open spec fn in_frontier(preds: Seq<Seq<usize>>, d: Seq<Seq<bool>>, n: int, f: int) -> bool {
    &&& exists|k: int| 0 <= k < preds[f].len() && d[#[trigger] preds[f][k] as int][n]
    &&& !sdom(d, f, n)
}

/// `r` lists, in increasing order, exactly the nodes below `len` that satisfy `p`.
pub open spec fn lists_exactly(r: Seq<usize>, len: nat, p: spec_fn(int) -> bool) -> bool {
    &&& forall|i: int, j: int| 0 <= i < j < r.len() ==> r[i] < r[j]
    &&& forall|i: int| 0 <= i < r.len() ==> #[trigger] r[i] < len && p(r[i] as int)
    &&& forall|f: int| 0 <= f < len && p(f) ==> #[trigger] r.contains(f as usize)
}

/// Along any path in the graph that starts at the entry, each node is a predecessor of the next.
pub open spec fn is_path(preds: Seq<Seq<usize>>, entry: int, p: Seq<usize>) -> bool {
    &&& p.len() > 0
    &&& p[0] == entry
    &&& forall|i: int| 0 <= i < p.len() ==> #[trigger] p[i] < preds.len()
    &&& forall|i: int| 0 <= i < p.len() - 1 ==> preds[p[i + 1] as int].contains(#[trigger] p[i])
}

/// `m` lies on every path from the entry to `n`.
pub open spec fn path_dominates(preds: Seq<Seq<usize>>, entry: int, m: int, n: int) -> bool {
    forall|p: Seq<usize>| is_path(preds, entry, p) && p.last() == n ==> #[trigger] p.contains(m as usize)
}

/// `d` records every dominator in the sense of paths.
pub open spec fn dom_complete(preds: Seq<Seq<usize>>, d: Seq<Seq<bool>>, entry: int) -> bool {
    forall|n: int, m: int|
        0 <= n < d.len() && 0 <= m < d.len() && path_dominates(preds, entry, m, n) ==> #[trigger] d[n][m]
}

proof fn lemma_extend_path(preds: Seq<Seq<usize>>, entry: int, q: Seq<usize>, n: usize)
    requires
        is_path(preds, entry, q),
        n < preds.len(),
        preds[n as int].contains(q.last()),
    ensures
        is_path(preds, entry, q.push(n)),
        forall|x: usize| #[trigger] q.push(n).contains(x) <==> q.contains(x) || x == n,
{
    let p = q.push(n);
    assert forall|i: int| 0 <= i < p.len() - 1 implies preds[p[i + 1] as int].contains(#[trigger] p[i]) by {
        if i < q.len() - 1 {
            assert(p[i] == q[i] && p[i + 1] == q[i + 1]);
        } else {
            assert(p[i] == q.last());
        }
    }
    assert forall|x: usize| #[trigger] p.contains(x) implies q.contains(x) || x == n by {
        let j = choose|j: int| 0 <= j < p.len() && p[j] == x;
        if j < q.len() {
            assert(q[j] == x);
        }
    }
    assert forall|x: usize| q.contains(x) implies #[trigger] p.contains(x) by {
        let j = choose|j: int| 0 <= j < q.len() && q[j] == x;
        assert(p[j] == x);
    }
    assert(p[p.len() - 1] == n);
}

/// A dominator of `n` other than `n` dominates each predecessor of `n`, as far
/// as a complete record `d` tells.
proof fn lemma_complete_preds(preds: Seq<Seq<usize>>, d: Seq<Seq<bool>>, entry: int, n: usize, m: usize, k: int)
    requires
        graph_wf(preds),
        square(d, preds.len()),
        dom_complete(preds, d, entry),
        n < preds.len(),
        m < preds.len(),
        m != n,
        path_dominates(preds, entry, m as int, n as int),
        0 <= k < preds[n as int].len(),
    ensures
        d[preds[n as int][k] as int][m as int],
{
    let p = preds[n as int][k];
    assert(p < preds.len());
    if !d[p as int][m as int] {
        assert(!path_dominates(preds, entry, m as int, p as int));
        let q = choose|q: Seq<usize>| is_path(preds, entry, q) && q.last() == p && !q.contains(m);
        assert(preds[n as int].contains(p));
        lemma_extend_path(preds, entry, q, n);
        assert(q.push(n).last() == n);
        assert(!q.push(n).contains(m));
    }
}

/// The recorded relation is exactly dominance in the sense of paths.
pub proof fn lemma_dominance_exact(preds: Seq<Seq<usize>>, d: Seq<Seq<bool>>, entry: int, n: int, m: int)
    requires
        graph_wf(preds),
        square(d, preds.len()),
        0 <= entry < preds.len(),
        dom_closed(preds, d, entry),
        dom_complete(preds, d, entry),
        0 <= n < preds.len(),
        0 <= m < preds.len(),
    ensures
        d[n][m] <==> path_dominates(preds, entry, m, n),
{
    if d[n][m] {
        assert forall|p: Seq<usize>| is_path(preds, entry, p) && p.last() == n implies #[trigger] p.contains(m as usize) by {
            lemma_dominator_on_every_path(preds, d, entry, p, m);
        }
    }
}

pub open spec fn count_true(r: Seq<bool>) -> nat
    decreases r.len(),
{
    if r.len() == 0 {
        0
    } else {
        count_true(r.drop_last()) + if r.last() {
            1nat
        } else {
            0nat
        }
    }
}

pub open spec fn matrix_count(d: Seq<Seq<bool>>) -> nat
    decreases d.len(),
{
    if d.len() == 0 {
        0
    } else {
        matrix_count(d.drop_last()) + count_true(d.last())
    }
}

pub proof fn lemma_count_bound(a: Seq<bool>)
    ensures
        count_true(a) <= a.len(),
    decreases a.len(),
{
    if a.len() > 0 {
        lemma_count_bound(a.drop_last());
    }
}

pub proof fn lemma_count_le(a: Seq<bool>, b: Seq<bool>)
    requires
        a.len() == b.len(),
        forall|i: int| 0 <= i < a.len() && a[i] ==> b[i],
    ensures
        count_true(a) <= count_true(b),
        (exists|i: int| 0 <= i < a.len() && b[i] && !a[i]) ==> count_true(a) < count_true(b),
    decreases a.len(),
{
    if a.len() > 0 {
        lemma_count_le(a.drop_last(), b.drop_last());
        if exists|i: int| 0 <= i < a.len() && b[i] && !a[i] {
            let i = choose|i: int| 0 <= i < a.len() && b[i] && !a[i];
            if i < a.len() - 1 {
                assert(b.drop_last()[i] && !a.drop_last()[i]);
            }
        }
    }
}

proof fn lemma_matrix_update(d: Seq<Seq<bool>>, n: int, r: Seq<bool>)
    requires
        0 <= n < d.len(),
    ensures
        matrix_count(d.update(n, r)) + count_true(d[n]) == matrix_count(d) + count_true(r),
    decreases d.len(),
{
    if n == d.len() - 1 {
        assert(d.update(n, r).drop_last() == d.drop_last());
    } else {
        lemma_matrix_update(d.drop_last(), n, r);
        assert(d.update(n, r).drop_last() == d.drop_last().update(n, r));
    }
}

/// Every claimed dominator of a node lies on every path from the entry to that node.
pub proof fn lemma_dominator_on_every_path(
    preds: Seq<Seq<usize>>,
    d: Seq<Seq<bool>>,
    entry: int,
    p: Seq<usize>,
    m: int,
)
    requires
        square(d, preds.len()),
        0 <= entry < preds.len(),
        dom_closed(preds, d, entry),
        is_path(preds, entry, p),
        0 <= m < preds.len(),
        d[p.last() as int][m],
    ensures
        p.contains(m as usize),
    decreases p.len(),
{
    let last = p.last() as int;
    assert(p[p.len() - 1] == p.last());
    if last != m {
        assert(last != entry);
        let q = p.drop_last();
        let prev = p[p.len() - 2];
        assert(preds[last].contains(prev));
        let k = choose|k: int| 0 <= k < preds[last].len() && preds[last][k] == prev;
        assert(d[preds[last][k] as int][m]);
        assert(is_path(preds, entry, q)) by {
            assert forall|i: int| 0 <= i < q.len() - 1 implies preds[q[i + 1] as int].contains(
                #[trigger] q[i],
            ) by {
                assert(q[i] == p[i] && q[i + 1] == p[i + 1]);
            }
        }
        lemma_dominator_on_every_path(preds, d, entry, q, m);
        let j = choose|j: int| 0 <= j < q.len() && q[j] == m as usize;
        assert(p[j] == m as usize);
    }
}


/// Whether `m` dominates every node listed in `ps`.
fn dominates_all(d: &Vec<Vec<bool>>, ps: &Vec<usize>, m: usize) -> (r: bool)
    requires
        forall|k: int| 0 <= k < ps@.len() ==> #[trigger] ps@[k] < d@.len() && m < d@[ps@[k] as int]@.len(),
    ensures
        r == forall|k: int| 0 <= k < ps@.len() ==> rows(d@)[#[trigger] ps@[k] as int][m as int],
{
    let mut k: usize = 0;
    while k < ps.len()
        invariant
            0 <= k <= ps@.len(),
            forall|k: int| 0 <= k < ps@.len() ==> #[trigger] ps@[k] < d@.len() && m < d@[ps@[k] as int]@.len(),
            forall|j: int| 0 <= j < k ==> rows(d@)[#[trigger] ps@[j] as int][m as int],
        decreases ps@.len() - k,
    {
        if !d[ps[k]][m] {
            return false;
        }
        k = k + 1;
    }
    true
}

/// The dominance relation of a graph, computed once, with immediate
/// dominators and dominance frontiers.
pub struct DominatorTree {
    entry: usize,
    predecessors: Vec<Vec<usize>>,
    dominators: Vec<Vec<bool>>,
    immediate: Vec<Option<usize>>,
    frontiers: Vec<Vec<usize>>,
}

impl DominatorTree {
    pub closed spec fn spec_entry(&self) -> int {
        self.entry as int
    }

    /// The predecessor lists the tree was computed from.
    pub closed spec fn spec_preds(&self) -> Seq<Seq<usize>> {
        lists(self.predecessors@)
    }

    /// `spec_doms()[n][m]`: `m` dominates `n`.
    pub closed spec fn spec_doms(&self) -> Seq<Seq<bool>> {
        rows(self.dominators@)
    }

    pub closed spec fn spec_idoms(&self) -> Seq<Option<usize>> {
        self.immediate@
    }

    pub closed spec fn spec_frontiers(&self) -> Seq<Seq<usize>> {
        lists(self.frontiers@)
    }

    pub open spec fn len(&self) -> nat {
        self.spec_preds().len()
    }

    /// The frontier of `n` in the sense of `in_frontier`.
    pub open spec fn frontier_pred(&self, n: int) -> spec_fn(int) -> bool {
        |f: int| in_frontier(self.spec_preds(), self.spec_doms(), n, f)
    }

    /// The nodes whose immediate dominator is `n`.
    pub open spec fn children_pred(&self, n: int) -> spec_fn(int) -> bool {
        |m: int| self.spec_idoms()[m] == Some(n as usize)
    }

    pub open spec fn wf(&self) -> bool {
        &&& graph_wf(self.spec_preds())
        &&& 0 <= self.spec_entry() < self.len()
        &&& square(self.spec_doms(), self.len())
        &&& dom_closed(self.spec_preds(), self.spec_doms(), self.spec_entry())
        &&& dom_complete(self.spec_preds(), self.spec_doms(), self.spec_entry())
        &&& self.spec_idoms().len() == self.len()
        &&& forall|n: int| 0 <= n < self.len() ==> idom_of(self.spec_doms(), n, #[trigger] self.spec_idoms()[n])
        &&& self.spec_frontiers().len() == self.len()
        &&& forall|n: int| 0 <= n < self.len() ==> lists_exactly(#[trigger] self.spec_frontiers()[n], self.len(), self.frontier_pred(n))
    }
}


/// The starting point of the fixed-point computation: the entry is dominated
/// by itself alone, every other node by every node.
fn initial_dominators(len: usize, entry: usize) -> (d: Vec<Vec<bool>>)
    requires
        entry < len,
    ensures
        square(rows(d@), len as nat),
        forall|n: int, m: int| 0 <= n < len && 0 <= m < len ==> #[trigger] rows(d@)[n][m] == (n != entry || m == entry),
{
    let mut d: Vec<Vec<bool>> = Vec::new();
    let mut n: usize = 0;
    while n < len
        invariant
            0 <= n <= len,
            d@.len() == n,
            forall|i: int| 0 <= i < n ==> #[trigger] d@[i]@.len() == len,
            forall|i: int, m: int| 0 <= i < n && 0 <= m < len ==> #[trigger] d@[i]@[m] == (i != entry || m == entry),
        decreases len - n,
    {
        let mut row: Vec<bool> = Vec::new();
        let mut m: usize = 0;
        while m < len
            invariant
                0 <= m <= len,
                row@.len() == m,
                forall|j: int| 0 <= j < m ==> #[trigger] row@[j] == (n != entry || j == entry),
            decreases len - m,
        {
            row.push(n != entry || m == entry);
            m = m + 1;
        }
        d.push(row);
        n = n + 1;
    }
    d
}

/// One step of the fixed-point computation on the row of `n`: a strict
/// dominator of `n` stays only where it dominates every predecessor of `n`.
/// Also tells whether the row changed.
fn refine_row(d: &Vec<Vec<bool>>, ps: &Vec<usize>, n: usize) -> (r: (Vec<bool>, bool))
    requires
        square(rows(d@), d@.len()),
        n < d@.len(),
        forall|k: int| 0 <= k < ps@.len() ==> #[trigger] ps@[k] < d@.len(),
    ensures
        r.0@.len() == d@.len(),
        forall|m: int| 0 <= m < d@.len() ==> #[trigger] r.0@[m] == (rows(d@)[n as int][m] && (m == n
            || forall|k: int| 0 <= k < ps@.len() ==> rows(d@)[#[trigger] ps@[k] as int][m])),
        r.1 == exists|m: int| 0 <= m < d@.len() && rows(d@)[n as int][m] && !r.0@[m],
{
    let len = d.len();
    let mut row: Vec<bool> = Vec::new();
    let mut changed = false;
    let mut m: usize = 0;
    let ghost mut witness: int = 0;
    assert(d@[n as int]@ == rows(d@)[n as int]);
    while m < len
        invariant
            0 <= m <= len,
            len == d@.len(),
            n < len,
            square(rows(d@), len as nat),
            forall|k: int| 0 <= k < ps@.len() ==> #[trigger] ps@[k] < d@.len(),
            d@[n as int]@ == rows(d@)[n as int],
            row@.len() == m,
            forall|j: int| 0 <= j < m ==> #[trigger] row@[j] == (rows(d@)[n as int][j] && (j == n
                || forall|k: int| 0 <= k < ps@.len() ==> rows(d@)[#[trigger] ps@[k] as int][j])),
            changed ==> 0 <= witness < m && rows(d@)[n as int][witness] && !row@[witness],
            !changed ==> forall|j: int| 0 <= j < m ==> !(rows(d@)[n as int][j] && !#[trigger] row@[j]),
        decreases len - m,
    {
        proof {
            assert forall|k: int| 0 <= k < ps@.len() implies #[trigger] ps@[k] < d@.len() && m < d@[ps@[k] as int]@.len() by {
                assert(d@[ps@[k] as int]@ == rows(d@)[ps@[k] as int]);
            }
        }
        let keep = d[n][m] && (m == n || dominates_all(d, ps, m));
        if d[n][m] && !keep {
            changed = true;
            proof { witness = m as int; }
        }
        let ghost prev = row@;
        row.push(keep);
        assert(forall|j: int| 0 <= j < m ==> row@[j] == prev[j]);
        m = m + 1;
    }
    (row, changed)
}

/// The dominance relation, by iteration from the full relation down to a
/// solution of the equations of dominance; no dominator in the sense of
/// paths is ever dropped on the way.
fn compute_dominators(preds: &Vec<Vec<usize>>, entry: usize) -> (d: Vec<Vec<bool>>)
    requires
        graph_wf(lists(preds@)),
        entry < preds@.len(),
    ensures
        square(rows(d@), preds@.len()),
        dom_closed(lists(preds@), rows(d@), entry as int),
        dom_complete(lists(preds@), rows(d@), entry as int),
{
    let len = preds.len();
    let mut d = initial_dominators(len, entry);
    proof {
        let pv = lists(preds@);
        assert forall|n: int, m: int| 0 <= n < len && 0 <= m < len && path_dominates(pv, entry as int, m, n)
            implies #[trigger] rows(d@)[n][m] by {
            if n == entry {
                let p = seq![entry];
                assert(is_path(pv, entry as int, p));
                assert(p.last() == n);
                assert(p.contains(m as usize));
                let j = choose|j: int| 0 <= j < p.len() && p[j] == m as usize;
                assert(p[j] == entry);
            }
        }
    }
    let mut changed = true;
    while changed
        invariant
            len == preds@.len(),
            graph_wf(lists(preds@)),
            entry < len,
            square(rows(d@), len as nat),
            forall|m: int| 0 <= m < len ==> #[trigger] rows(d@)[entry as int][m] == (m == entry),
            forall|n: int| 0 <= n < len ==> #[trigger] rows(d@)[n][n],
            !changed ==> dom_closed(lists(preds@), rows(d@), entry as int),
            dom_complete(lists(preds@), rows(d@), entry as int),
        decreases matrix_count(rows(d@)) + if changed { 1nat } else { 0nat },
    {
        let ghost start = rows(d@);
        changed = false;
        let mut n: usize = 0;
        while n < len
            invariant
                0 <= n <= len,
                len == preds@.len(),
                graph_wf(lists(preds@)),
                entry < len,
                square(rows(d@), len as nat),
                forall|m: int| 0 <= m < len ==> #[trigger] rows(d@)[entry as int][m] == (m == entry),
                forall|i: int| 0 <= i < len ==> #[trigger] rows(d@)[i][i],
                changed ==> matrix_count(rows(d@)) < matrix_count(start),
                dom_complete(lists(preds@), rows(d@), entry as int),
                !changed ==> rows(d@) == start,
                !changed ==> forall|i: int, m: int, k: int|
                    0 <= i < n && i != entry && 0 <= m < len && m != i && #[trigger] rows(d@)[i][m] && 0
                        <= k < lists(preds@)[i].len() ==> rows(d@)[#[trigger] lists(preds@)[i][k] as int][m],
            decreases len - n,
        {
            if n != entry {
                assert(preds@[n as int]@ == lists(preds@)[n as int]);
                assert forall|k: int| 0 <= k < preds@[n as int]@.len() implies #[trigger] preds@[n as int]@[k] < d@.len() by {
                    assert(lists(preds@)[n as int][k] < len);
                }
                let (row, row_changed) = refine_row(&d, &preds[n], n);
                let ghost before = rows(d@);
                proof {
                    lemma_count_le(row@, before[n as int]);
                    lemma_matrix_update(before, n as int, row@);
                }
                d.set(n, row);
                assert(rows(d@) == before.update(n as int, row@));
                proof {
                    let pv = lists(preds@);
                    assert forall|i: int, m: int| 0 <= i < len && 0 <= m < len && path_dominates(pv, entry as int, m, i)
                        implies #[trigger] rows(d@)[i][m] by {
                        if i == n {
                            assert(before[n as int][m]);
                            if m != n {
                                assert forall|k: int| 0 <= k < preds@[n as int]@.len() implies before[#[trigger] preds@[n as int]@[k] as int][m] by {
                                    lemma_complete_preds(pv, before, entry as int, n, m as usize, k);
                                }
                            }
                        } else {
                            assert(rows(d@)[i] == before[i]);
                        }
                    }
                }
                if row_changed {
                    changed = true;
                } else {
                    assert(row@ == before[n as int]);
                    assert(rows(d@) == before);
                }
            }
            n = n + 1;
        }
        proof {
            if !changed {
                assert forall|i: int, m: int, k: int|
                    0 <= i < rows(d@).len() && i != entry && 0 <= m < rows(d@).len() && m != i && #[trigger] rows(d@)[i][m]
                        && 0 <= k < lists(preds@)[i].len() implies rows(d@)[#[trigger] lists(preds@)[i][k] as int][m] by {}
            }
        }
    }
    d
}


/// The immediate dominator of `n` of least index, if there is one.
fn compute_idom(d: &Vec<Vec<bool>>, n: usize) -> (r: Option<usize>)
    requires
        square(rows(d@), d@.len()),
        n < d@.len(),
    ensures
        idom_of(rows(d@), n as int, r),
{
    let len = d.len();
    let ghost dv = rows(d@);
    let mut m: usize = 0;
    while m < len
        invariant
            0 <= m <= len,
            len == d@.len(),
            n < len,
            dv == rows(d@),
            square(dv, len as nat),
            forall|k: int| 0 <= k < m ==> !is_idom(dv, n as int, k),
        decreases len - m,
    {
        assert(d@[n as int]@ == dv[n as int]);
        assert(d@[m as int]@ == dv[m as int]);
        if d[n][m] && m != n {
            let mut ok = true;
            let mut k: usize = 0;
            while k < len
                invariant
                    0 <= k <= len,
                    len == d@.len(),
                    n < len,
                    m < len,
                    dv == rows(d@),
                    square(dv, len as nat),
                    d@[n as int]@ == dv[n as int],
                    d@[m as int]@ == dv[m as int],
                    ok == forall|j: int| 0 <= j < k && sdom(dv, n as int, j) ==> #[trigger] dv[m as int][j],
                decreases len - k,
            {
                if d[n][k] && k != n && !d[m][k] {
                    ok = false;
                }
                k = k + 1;
            }
            if ok {
                return Some(m);
            }
        }
        m = m + 1;
    }
    None
}

/// The nodes in the dominance frontier of `n`, in increasing order.
fn compute_frontier(preds: &Vec<Vec<usize>>, d: &Vec<Vec<bool>>, n: usize) -> (r: Vec<usize>)
    requires
        graph_wf(lists(preds@)),
        square(rows(d@), preds@.len()),
        n < preds@.len(),
    ensures
        lists_exactly(r@, preds@.len(), |f: int| in_frontier(lists(preds@), rows(d@), n as int, f)),
{
    let len = preds.len();
    let ghost pv = lists(preds@);
    let ghost dv = rows(d@);
    let ghost p = |f: int| in_frontier(pv, dv, n as int, f);
    let mut r: Vec<usize> = Vec::new();
    let mut f: usize = 0;
    while f < len
        invariant
            0 <= f <= len,
            len == preds@.len(),
            n < len,
            pv == lists(preds@),
            dv == rows(d@),
            graph_wf(pv),
            square(dv, len as nat),
            p == (|f: int| in_frontier(pv, dv, n as int, f)),
            forall|i: int, j: int| 0 <= i < j < r@.len() ==> r@[i] < r@[j],
            forall|i: int| 0 <= i < r@.len() ==> #[trigger] r@[i] < f && p(r@[i] as int),
            forall|g: int| 0 <= g < f && p(g) ==> #[trigger] r@.contains(g as usize),
        decreases len - f,
    {
        assert(preds@[f as int]@ == pv[f as int]);
        assert(d@[f as int]@ == dv[f as int]);
        let ps = &preds[f];
        let mut hit = false;
        let mut k: usize = 0;
        while k < ps.len()
            invariant
                0 <= k <= ps@.len(),
                len == preds@.len(),
                n < len,
                f < len,
                ps@ == pv[f as int],
                pv.len() == len,
                dv == rows(d@),
                graph_wf(pv),
                square(dv, len as nat),
                hit == exists|j: int| 0 <= j < k && dv[#[trigger] pv[f as int][j] as int][n as int],
            decreases ps@.len() - k,
        {
            assert(pv[f as int][k as int] < len);
            assert(d@[ps@[k as int] as int]@ == dv[ps@[k as int] as int]);
            if d[ps[k]][n] {
                hit = true;
            }
            k = k + 1;
        }
        let ghost old_r = r@;
        if hit && !(d[f][n] && n != f) {
            r.push(f);
            assert(r@[r@.len() - 1] == f);
            assert(forall|i: int| 0 <= i < old_r.len() ==> r@[i] == old_r[i]);
        }
        proof {
            assert forall|g: int| 0 <= g < f + 1 && p(g) implies #[trigger] r@.contains(g as usize) by {
                if g < f {
                    assert(old_r.contains(g as usize));
                    let i = choose|i: int| 0 <= i < old_r.len() && old_r[i] == g as usize;
                    assert(r@[i] == g as usize);
                } else {
                    assert(r@[r@.len() - 1] == f);
                }
            }
        }
        f = f + 1;
    }
    r
}

/// The nodes whose immediate dominator is `n`, in increasing order.
fn compute_children(idoms: &Vec<Option<usize>>, n: usize) -> (r: Vec<usize>)
    ensures
        lists_exactly(r@, idoms@.len(), |m: int| idoms@[m] == Some(n)),
{
    let ghost p = |m: int| idoms@[m] == Some(n);
    let mut r: Vec<usize> = Vec::new();
    let mut m: usize = 0;
    while m < idoms.len()
        invariant
            0 <= m <= idoms@.len(),
            p == (|m: int| idoms@[m] == Some(n)),
            forall|i: int, j: int| 0 <= i < j < r@.len() ==> r@[i] < r@[j],
            forall|i: int| 0 <= i < r@.len() ==> #[trigger] r@[i] < m && p(r@[i] as int),
            forall|g: int| 0 <= g < m && p(g) ==> #[trigger] r@.contains(g as usize),
        decreases idoms@.len() - m,
    {
        let ghost old_r = r@;
        if idoms[m] == Some(n) {
            r.push(m);
            assert(r@[r@.len() - 1] == m);
            assert(forall|i: int| 0 <= i < old_r.len() ==> r@[i] == old_r[i]);
        }
        proof {
            assert forall|g: int| 0 <= g < m + 1 && p(g) implies #[trigger] r@.contains(g as usize) by {
                if g < m {
                    assert(old_r.contains(g as usize));
                    let i = choose|i: int| 0 <= i < old_r.len() && old_r[i] == g as usize;
                    assert(r@[i] == g as usize);
                } else {
                    assert(r@[r@.len() - 1] == m);
                }
            }
        }
        m = m + 1;
    }
    r
}


impl DominatorTree {
    /// Computes the dominance relation of the graph with the given predecessor
    /// lists, from the given entry node, with immediate dominators and frontiers.
    pub fn new(predecessors: Vec<Vec<usize>>, entry: usize) -> (r: DominatorTree)
        requires
            graph_wf(lists(predecessors@)),
            entry < predecessors@.len(),
        ensures
            r.wf(),
            r.spec_preds() == lists(predecessors@),
            r.spec_entry() == entry,
    {
        let len = predecessors.len();
        let dominators = compute_dominators(&predecessors, entry);
        let mut immediate: Vec<Option<usize>> = Vec::new();
        let mut frontiers: Vec<Vec<usize>> = Vec::new();
        let mut n: usize = 0;
        while n < len
            invariant
                0 <= n <= len,
                len == predecessors@.len(),
                graph_wf(lists(predecessors@)),
                square(rows(dominators@), len as nat),
                dom_complete(lists(predecessors@), rows(dominators@), entry as int),
                immediate@.len() == n,
                frontiers@.len() == n,
                forall|i: int| 0 <= i < n ==> idom_of(rows(dominators@), i, #[trigger] immediate@[i]),
                forall|i: int| 0 <= i < n ==> lists_exactly(#[trigger] lists(frontiers@)[i], len as nat,
                    |f: int| in_frontier(lists(predecessors@), rows(dominators@), i, f)),
            decreases len - n,
        {
            immediate.push(compute_idom(&dominators, n));
            let fr = compute_frontier(&predecessors, &dominators, n);
            let ghost old_f = frontiers@;
            frontiers.push(fr);
            assert forall|i: int| 0 <= i < n + 1 implies lists_exactly(#[trigger] lists(frontiers@)[i], len as nat,
                    |f: int| in_frontier(lists(predecessors@), rows(dominators@), i, f)) by {
                if i < n {
                    assert(lists(frontiers@)[i] == lists(old_f)[i]);
                }
            }
            n = n + 1;
        }
        DominatorTree { entry, predecessors, dominators, immediate, frontiers }
    }

    /// The number of nodes of the graph.
    pub fn nof_nodes(&self) -> (r: usize)
        requires
            self.wf(),
        ensures
            r == self.len(),
    {
        self.predecessors.len()
    }

    /// The entry node.
    pub fn get_entry(&self) -> (r: usize)
        ensures
            r == self.spec_entry(),
    {
        self.entry
    }

    /// The immediate dominator of `n`; `None` where it has none, as for the entry.
    pub fn get_immediate_dominator(&self, n: usize) -> (r: Option<usize>)
        requires
            self.wf(),
            n < self.len(),
        ensures
            r == self.spec_idoms()[n as int],
            idom_of(self.spec_doms(), n as int, r),
    {
        self.immediate[n]
    }

    /// The nodes whose immediate dominator is `n`, in increasing order.
    pub fn get_dominator_successors(&self, n: usize) -> (r: Vec<usize>)
        requires
            self.wf(),
            n < self.len(),
        ensures
            lists_exactly(r@, self.len(), self.children_pred(n as int)),
    {
        let r = compute_children(&self.immediate, n);
        assert(self.children_pred(n as int) == (|m: int| self.immediate@[m] == Some(n)));
        r
    }

    /// The dominance frontier of `n`, in increasing order.
    pub fn get_dominance_frontier(&self, n: usize) -> (r: &Vec<usize>)
        requires
            self.wf(),
            n < self.len(),
        ensures
            r@ == self.spec_frontiers()[n as int],
            lists_exactly(r@, self.len(), self.frontier_pred(n as int)),
    {
        assert(self.frontiers@[n as int]@ == self.spec_frontiers()[n as int]);
        &self.frontiers[n]
    }

    /// The dominators of `n`, from `n` up the chain of immediate dominators.
    /// The walk stops at a node without an immediate dominator, which for a
    /// graph whose nodes are all reachable is the entry, or after as many
    /// steps as there are nodes.
    pub fn get_dominators(&self, n: usize) -> (r: Vec<usize>)
        requires
            self.wf(),
            n < self.len(),
        ensures
            r@.len() >= 1,
            r@[0] == n,
            forall|i: int| 0 <= i < r@.len() ==> #[trigger] r@[i] < self.len(),
            forall|i: int| 0 <= i < r@.len() - 1 ==> self.spec_idoms()[#[trigger] r@[i] as int] == Some(r@[i + 1]),
            self.spec_idoms()[r@.last() as int] is None || r@.len() == self.len() + 1,
    {
        let len = self.predecessors.len();
        let mut r: Vec<usize> = Vec::new();
        r.push(n);
        let mut cur = n;
        while r.len() <= len
            invariant
                self.wf(),
                len == self.len(),
                1 <= r@.len() <= len + 1,
                r@[0] == n,
                cur == r@.last(),
                forall|i: int| 0 <= i < r@.len() ==> #[trigger] r@[i] < len,
                forall|i: int| 0 <= i < r@.len() - 1 ==> self.spec_idoms()[#[trigger] r@[i] as int] == Some(r@[i + 1]),
            decreases len + 1 - r@.len(),
        {
            match self.immediate[cur] {
                None => {
                    return r;
                }
                Some(m) => {
                    let ghost old_r = r@;
                    r.push(m);
                    assert(forall|i: int| 0 <= i < old_r.len() ==> r@[i] == old_r[i]);
                    cur = m;
                }
            }
        }
        r
    }
}


/// In a well-formed tree, `m` is recorded as dominating `n` exactly when `m`
/// lies on every path from the entry to `n`.
pub proof fn lemma_tree_dominance_exact(tree: DominatorTree, n: int, m: int)
    requires
        tree.wf(),
        0 <= n < tree.len(),
        0 <= m < tree.len(),
    ensures
        tree.spec_doms()[n][m] <==> path_dominates(tree.spec_preds(), tree.spec_entry(), m, n),
{
    lemma_dominance_exact(tree.spec_preds(), tree.spec_doms(), tree.spec_entry(), n, m);
}

} // verus!
