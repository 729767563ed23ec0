use vstd::prelude::*;
use crate::basic_block::BasicBlock;
use crate::dominator_tree::{
    count_true, in_frontier, rows, lemma_count_bound, lemma_count_le, DominatorTree,
};
use crate::ir::{all_defs, lemma_unique_contains, PhiArgument, Statement, VariableName};

verus! {

/// The block's statements define a variable of base name `v`.
pub open spec fn defines_base(stmts: Seq<Statement>, v: usize) -> bool {
    exists|x: VariableName| #[trigger] all_defs(stmts).contains(x) && x.base == v
}

/// At least two distinct blocks define a variable of base name `v`.
pub open spec fn multi_def(blocks: Seq<BasicBlock>, v: usize) -> bool {
    exists|a: int, b: int|
        0 <= a < b < blocks.len() && #[trigger] defines_base(blocks[a].stmts@, v)
            && #[trigger] defines_base(blocks[b].stmts@, v)
}

/// The phi statement for base name `v` in a block with the given
/// predecessors, before renaming: every name at the default version.
pub open spec fn is_fresh_phi(s: Statement, v: usize, preds: Seq<usize>) -> bool {
    match s {
        Statement::Phi { target, arguments } => {
            &&& target == (VariableName { base: v, version: 0 })
            &&& arguments@ == preds.map_values(
                |p: usize| PhiArgument { predecessor: p, variable: VariableName { base: v, version: 0 } },
            )
        },
        _ => false,
    }
}

/// A phi statement with one argument per predecessor, in the order of
/// `preds`, each for the base name of its target.
pub open spec fn phi_with_preds(s: Statement, preds: Seq<usize>) -> bool {
    match s {
        Statement::Phi { target, arguments } => {
            &&& arguments@.len() == preds.len()
            &&& forall|k: int| 0 <= k < preds.len() ==> (#[trigger] arguments@[k]).predecessor == preds[k]
                && arguments@[k].variable.base == target.base
        },
        _ => false,
    }
}

/// A phi statement whose target is at the default version.
pub open spec fn is_default_phi(s: Statement) -> bool {
    match s {
        Statement::Phi { target, .. } => target.version == 0,
        _ => false,
    }
}

pub open spec fn is_phi_for(s: Statement, v: usize) -> bool {
    match s {
        Statement::Phi { target, .. } => target.base == v,
        _ => false,
    }
}

/// Among the first `k` statements there is a phi statement for base name `v`.
pub open spec fn phi_in_prefix(stmts: Seq<Statement>, k: int, v: usize) -> bool {
    exists|i: int| 0 <= i < k && #[trigger] is_phi_for(stmts[i], v)
}

/// Index and adjacency of a block are unchanged.
pub open spec fn same_frame(a: BasicBlock, b: BasicBlock) -> bool {
    &&& a.index == b.index
    &&& a.predecessors@ == b.predecessors@
    &&& a.successors@ == b.successors@
}

/// Some node has `f` in its dominance frontier.
pub open spec fn is_join(tree: DominatorTree, f: int) -> bool {
    exists|x: int| 0 <= x < tree.len() && in_frontier(tree.spec_preds(), tree.spec_doms(), x, f)
}

/// The phi statement for base name `v` in a block with the given predecessors.
fn make_phi(v: usize, preds: &Vec<usize>) -> (r: Statement)
    ensures
        is_fresh_phi(r, v, preds@),
{
    let target = VariableName { base: v, version: 0 };
    let mut arguments: Vec<PhiArgument> = Vec::new();
    let mut i: usize = 0;
    while i < preds.len()
        invariant
            0 <= i <= preds@.len(),
            target == (VariableName { base: v, version: 0 }),
            arguments@.len() == i,
            forall|k: int| 0 <= k < i ==> #[trigger] arguments@[k] == (PhiArgument { predecessor: preds@[k], variable: target }),
        decreases preds@.len() - i,
    {
        arguments.push(PhiArgument { predecessor: preds[i], variable: target });
        i = i + 1;
    }
    assert(arguments@ =~= preds@.map_values(
        |p: usize| PhiArgument { predecessor: p, variable: VariableName { base: v, version: 0 } },
    ));
    Statement::Phi { target, arguments }
}

/// The blocks that need a phi statement for a variable defined in the blocks
/// `defs`: the iterated dominance frontier of `defs`, computed with a worklist.
/// The result marks every frontier block of a defining or marked block, and
/// only blocks that lie in some dominance frontier.
pub fn phi_placement(tree: &DominatorTree, defs: &Vec<usize>) -> (has_phi: Vec<bool>)
    requires
        tree.wf(),
        forall|i: int| 0 <= i < defs@.len() ==> #[trigger] defs@[i] < tree.len(),
    ensures
        has_phi@.len() == tree.len(),
        forall|b: int| 0 <= b < tree.len() && #[trigger] has_phi@[b] ==> is_join(*tree, b),
        forall|b: int, f: int|
            0 <= b < tree.len() && 0 <= f < tree.len() && (defs@.contains(b as usize) || has_phi@[b])
                && #[trigger] in_frontier(tree.spec_preds(), tree.spec_doms(), b, f) ==> #[trigger] has_phi@[f],
{
    let len = tree.nof_nodes();
    let mut has_phi: Vec<bool> = Vec::new();
    let mut queued: Vec<bool> = Vec::new();
    let mut i: usize = 0;
    while i < len
        invariant
            0 <= i <= len,
            has_phi@.len() == i,
            queued@.len() == i,
            forall|j: int| 0 <= j < i ==> !#[trigger] has_phi@[j],
            forall|j: int| 0 <= j < i ==> !#[trigger] queued@[j],
        decreases len - i,
    {
        has_phi.push(false);
        queued.push(false);
        i = i + 1;
    }
    let mut work: Vec<usize> = Vec::new();
    let mut i: usize = 0;
    while i < defs.len()
        invariant
            0 <= i <= defs@.len(),
            len == tree.len(),
            forall|i: int| 0 <= i < defs@.len() ==> #[trigger] defs@[i] < tree.len(),
            has_phi@.len() == len,
            queued@.len() == len,
            forall|j: int| 0 <= j < len ==> !#[trigger] has_phi@[j],
            forall|j: int| 0 <= j < i ==> #[trigger] queued@[defs@[j] as int],
            forall|j: int| 0 <= j < work@.len() ==> #[trigger] work@[j] < len && queued@[work@[j] as int],
            forall|x: int| 0 <= x < len && queued@[x] ==> #[trigger] work@.contains(x as usize),
        decreases defs@.len() - i,
    {
        let d = defs[i];
        if !queued[d] {
            let ghost oq = queued@;
            let ghost ow = work@;
            queued.set(d, true);
            work.push(d);
            assert forall|x: int| 0 <= x < len && queued@[x] implies #[trigger] work@.contains(x as usize) by {
                if x != d {
                    assert(ow.contains(x as usize));
                    let k = choose|k: int| 0 <= k < ow.len() && ow[k] == x as usize;
                    assert(work@[k] == x as usize);
                } else {
                    assert(work@[work@.len() - 1] == d);
                }
            }
        }
        i = i + 1;
    }
    while work.len() > 0
        invariant
            len == tree.len(),
            tree.wf(),
            forall|i: int| 0 <= i < defs@.len() ==> #[trigger] defs@[i] < tree.len(),
            has_phi@.len() == len,
            queued@.len() == len,
            forall|j: int| 0 <= j < defs@.len() ==> #[trigger] queued@[defs@[j] as int],
            forall|j: int| 0 <= j < work@.len() ==> #[trigger] work@[j] < len && queued@[work@[j] as int],
            forall|f: int| 0 <= f < len && #[trigger] has_phi@[f] ==> queued@[f],
            forall|b: int| 0 <= b < len && #[trigger] has_phi@[b] ==> is_join(*tree, b),
            forall|x: int, f: int|
                0 <= x < len && 0 <= f < len && queued@[x] && !work@.contains(x as usize)
                    && #[trigger] in_frontier(tree.spec_preds(), tree.spec_doms(), x, f) ==> #[trigger] has_phi@[f],
        decreases len - count_true(queued@), work@.len(),
    {
        proof { lemma_count_bound(queued@); }
        let ghost c0 = count_true(queued@);
        let ghost w_before = work@;
        let b = work.pop().unwrap();
        let ghost w0 = work@.len();
        assert(w_before[w_before.len() - 1] == b);
        assert forall|x: int| 0 <= x < len && x != b && w_before.contains(x as usize) implies #[trigger] work@.contains(x as usize) by {
            let k = choose|k: int| 0 <= k < w_before.len() && w_before[k] == x as usize;
            assert(work@[k] == x as usize);
        }
        let fr = tree.get_dominance_frontier(b);
        let mut j: usize = 0;
        while j < fr.len()
            invariant
                0 <= j <= fr@.len(),
                b < len,
                len == tree.len(),
                tree.wf(),
                forall|i: int| 0 <= i < defs@.len() ==> #[trigger] defs@[i] < tree.len(),
                has_phi@.len() == len,
                queued@.len() == len,
                queued@[b as int],
                forall|i: int| 0 <= i < fr@.len() ==> #[trigger] fr@[i] < len && in_frontier(tree.spec_preds(), tree.spec_doms(), b as int, fr@[i] as int),
                forall|i: int| 0 <= i < j ==> #[trigger] has_phi@[fr@[i] as int],
                forall|j: int| 0 <= j < defs@.len() ==> #[trigger] queued@[defs@[j] as int],
                forall|j: int| 0 <= j < work@.len() ==> #[trigger] work@[j] < len && queued@[work@[j] as int],
                forall|f: int| 0 <= f < len && #[trigger] has_phi@[f] ==> queued@[f],
                forall|b: int| 0 <= b < len && #[trigger] has_phi@[b] ==> is_join(*tree, b),
                forall|x: int, f: int|
                    0 <= x < len && 0 <= f < len && queued@[x] && x != b && !work@.contains(x as usize)
                        && #[trigger] in_frontier(tree.spec_preds(), tree.spec_doms(), x, f) ==> #[trigger] has_phi@[f],
                count_true(queued@) >= c0,
                count_true(queued@) == c0 ==> work@.len() == w0,
                count_true(queued@) <= len,
            decreases fr@.len() - j,
        {
            let f = fr[j];
            let ghost jw = work@;
            let ghost jh = has_phi@;
            let ghost jq = queued@;
            assert(forall|x: int, g: int|
                0 <= x < len && 0 <= g < len && queued@[x] && x != b && !jw.contains(x as usize)
                    && #[trigger] in_frontier(tree.spec_preds(), tree.spec_doms(), x, g) ==> #[trigger] jh[g]);
            assert(in_frontier(tree.spec_preds(), tree.spec_doms(), b as int, f as int));
            if !has_phi[f] {
                assert(is_join(*tree, f as int));
                has_phi.set(f, true);
                if !queued[f] {
                    let ghost oq = queued@;
                    let ghost ow = work@;
                    queued.set(f, true);
                    proof {
                        lemma_count_le(oq, queued@);
                        lemma_count_bound(queued@);
                    }
                    work.push(f);
                    assert forall|x: int| 0 <= x < len && x != b && ow.contains(x as usize) implies #[trigger] work@.contains(x as usize) by {
                        let k = choose|k: int| 0 <= k < ow.len() && ow[k] == x as usize;
                        assert(work@[k] == x as usize);
                    }
                }
            }
            proof {
                assert forall|x: int| 0 <= x < len && jw.contains(x as usize) implies #[trigger] work@.contains(x as usize) by {
                    let k = choose|k: int| 0 <= k < jw.len() && jw[k] == x as usize;
                    assert(work@[k] == x as usize);
                }
                assert forall|x: int, g: int|
                    0 <= x < len && 0 <= g < len && queued@[x] && x != b && !work@.contains(x as usize)
                        && #[trigger] in_frontier(tree.spec_preds(), tree.spec_doms(), x, g) implies #[trigger] has_phi@[g] by {
                    assert(!jw.contains(x as usize));
                    if !jq[x] {
                        assert(work@[work@.len() - 1] == f);
                    }
                    if g != f {
                        assert(jh[g]);
                    }
                }
            }
            j = j + 1;
        }
        proof {
            let p = tree.frontier_pred(b as int);
            assert forall|f: int| 0 <= f < len && in_frontier(tree.spec_preds(), tree.spec_doms(), b as int, f) implies #[trigger] has_phi@[f] by {
                assert(p(f));
                assert(fr@.contains(f as usize));
                let k = choose|k: int| 0 <= k < fr@.len() && fr@[k] == f as usize;
                assert(has_phi@[fr@[k] as int]);
            }
        }
    }
    proof {
        assert forall|b: int, f: int|
            0 <= b < len && 0 <= f < len && (defs@.contains(b as usize) || has_phi@[b])
                && #[trigger] in_frontier(tree.spec_preds(), tree.spec_doms(), b, f) implies #[trigger] has_phi@[f] by {
            if defs@.contains(b as usize) {
                let k = choose|k: int| 0 <= k < defs@.len() && defs@[k] == b as usize;
                assert(queued@[defs@[k] as int]);
            }
        }
    }
    has_phi
}


/// Whether some variable in `vars` has base name `v`.
fn has_base(vars: &Vec<VariableName>, v: usize) -> (r: bool)
    ensures
        r == exists|x: VariableName| #[trigger] vars@.contains(x) && x.base == v,
{
    let mut i: usize = 0;
    while i < vars.len()
        invariant
            0 <= i <= vars@.len(),
            forall|j: int| 0 <= j < i ==> (#[trigger] vars@[j]).base != v,
        decreases vars@.len() - i,
    {
        if vars[i].base == v {
            assert(vars@.contains(vars@[i as int]));
            return true;
        }
        i = i + 1;
    }
    false
}

/// The blocks whose cached definitions hold base name `v`, in increasing order.
fn defining_blocks(blocks: &Vec<BasicBlock>, v: usize) -> (r: Vec<usize>)
    requires
        forall|b: int| 0 <= b < blocks@.len() ==> (#[trigger] blocks@[b]).cache_valid(),
    ensures
        forall|i: int, j: int| 0 <= i < j < r@.len() ==> r@[i] < r@[j],
        forall|i: int| 0 <= i < r@.len() ==> #[trigger] r@[i] < blocks@.len(),
        forall|b: int| 0 <= b < blocks@.len() ==> (r@.contains(b as usize) <==> defines_base(#[trigger] blocks@[b].stmts@, v)),
{
    let mut r: Vec<usize> = Vec::new();
    let mut b: usize = 0;
    while b < blocks.len()
        invariant
            0 <= b <= blocks@.len(),
            forall|b: int| 0 <= b < blocks@.len() ==> (#[trigger] blocks@[b]).cache_valid(),
            forall|i: int, j: int| 0 <= i < j < r@.len() ==> r@[i] < r@[j],
            forall|i: int| 0 <= i < r@.len() ==> #[trigger] r@[i] < b,
            forall|c: int| 0 <= c < b ==> (r@.contains(c as usize) <==> defines_base(#[trigger] blocks@[c].stmts@, v)),
        decreases blocks@.len() - b,
    {
        let ghost old_r = r@;
        let d = has_base(&blocks[b].variables_defined, v);
        proof {
            let stmts = blocks@[b as int].stmts@;
            assert forall|x: VariableName| #[trigger] all_defs(stmts).contains(x) <==> blocks@[b as int].variables_defined@.contains(x) by {
                lemma_unique_contains(all_defs(stmts), x);
            }
            if d {
                let x = choose|x: VariableName| #[trigger] blocks@[b as int].variables_defined@.contains(x) && x.base == v;
                assert(all_defs(stmts).contains(x));
            }
            if defines_base(stmts, v) {
                let x = choose|x: VariableName| #[trigger] all_defs(stmts).contains(x) && x.base == v;
                assert(blocks@[b as int].variables_defined@.contains(x));
            }
        }
        if d {
            r.push(b);
            assert(r@[r@.len() - 1] == b);
        }
        assert forall|c: int| 0 <= c < b + 1 implies (r@.contains(c as usize) <==> defines_base(#[trigger] blocks@[c].stmts@, v)) by {
            if c < b {
                if old_r.contains(c as usize) {
                    let k = choose|k: int| 0 <= k < old_r.len() && old_r[k] == c as usize;
                    assert(r@[k] == c as usize);
                }
                if r@.contains(c as usize) {
                    let k = choose|k: int| 0 <= k < r@.len() && r@[k] == c as usize;
                    assert(k < old_r.len());
                    assert(old_r[k] == c as usize);
                }
            } else if !d {
                if r@.contains(c as usize) {
                    let k = choose|k: int| 0 <= k < r@.len() && r@[k] == c as usize;
                    assert(false);
                }
            }
        }
        b = b + 1;
    }
    r
}


/// Whether `x` occurs in `v`.
pub fn contains_index(v: &Vec<usize>, x: usize) -> (r: bool)
    ensures
        r == v@.contains(x),
{
    let mut i: usize = 0;
    while i < v.len()
        invariant
            0 <= i <= v@.len(),
            forall|j: int| 0 <= j < i ==> v@[j] != x,
        decreases v@.len() - i,
    {
        if v[i] == x {
            return true;
        }
        i = i + 1;
    }
    false
}

/// The base names of the variables defined in the blocks, each once.
fn defined_bases(blocks: &Vec<BasicBlock>) -> (r: Vec<usize>)
    requires
        forall|b: int| 0 <= b < blocks@.len() ==> (#[trigger] blocks@[b]).cache_valid(),
    ensures
        r@.no_duplicates(),
        forall|b: int, v: usize| 0 <= b < blocks@.len() && #[trigger] defines_base(blocks@[b].stmts@, v) ==> r@.contains(v),
{
    let mut r: Vec<usize> = Vec::new();
    let mut b: usize = 0;
    while b < blocks.len()
        invariant
            0 <= b <= blocks@.len(),
            forall|b: int| 0 <= b < blocks@.len() ==> (#[trigger] blocks@[b]).cache_valid(),
            r@.no_duplicates(),
            forall|c: int, x: VariableName| 0 <= c < b && #[trigger] blocks@[c].variables_defined@.contains(x) ==> r@.contains(x.base),
        decreases blocks@.len() - b,
    {
        let vars = &blocks[b].variables_defined;
        let mut i: usize = 0;
        while i < vars.len()
            invariant
                0 <= i <= vars@.len(),
                b < blocks@.len(),
                vars@ == blocks@[b as int].variables_defined@,
                r@.no_duplicates(),
                forall|c: int, x: VariableName| 0 <= c < b && #[trigger] blocks@[c].variables_defined@.contains(x) ==> r@.contains(x.base),
                forall|j: int| 0 <= j < i ==> r@.contains(#[trigger] vars@[j].base),
            decreases vars@.len() - i,
        {
            let ghost old_r = r@;
            let base = vars[i].base;
            if !contains_index(&r, base) {
                r.push(base);
                assert(r@[r@.len() - 1] == base);
                assert forall|a: int, c: int| 0 <= a < c < r@.len() implies r@[a] != r@[c] by {
                    if c == r@.len() - 1 {
                        assert(old_r[a] == r@[a]);
                    } else {
                        assert(old_r[a] == r@[a] && old_r[c] == r@[c]);
                    }
                }
            }
            assert forall|y: usize| old_r.contains(y) implies r@.contains(y) by {
                let k = choose|k: int| 0 <= k < old_r.len() && old_r[k] == y;
                assert(r@[k] == y);
            }
            i = i + 1;
        }
        assert forall|c: int, x: VariableName| 0 <= c < b + 1 && #[trigger] blocks@[c].variables_defined@.contains(x) implies r@.contains(x.base) by {
            if c == b {
                let j = choose|j: int| 0 <= j < vars@.len() && vars@[j] == x;
                assert(r@.contains(vars@[j].base));
            }
        }
        b = b + 1;
    }
    proof {
        assert forall|c: int, v: usize| 0 <= c < blocks@.len() && #[trigger] defines_base(blocks@[c].stmts@, v) implies r@.contains(v) by {
            let x = choose|x: VariableName| #[trigger] all_defs(blocks@[c].stmts@).contains(x) && x.base == v;
            lemma_unique_contains(all_defs(blocks@[c].stmts@), x);
            assert(blocks@[c].variables_defined@.contains(x));
        }
    }
    r
}


/// The statements `n` are those of `o` preceded by phi statements, which a
/// block receives only where it lies in some dominance frontier.
pub open spec fn phi_prefix(o: Seq<Statement>, preds: Seq<usize>, n: Seq<Statement>, tree: DominatorTree, b: int) -> bool {
    &&& n.len() >= o.len()
    &&& n.subrange(n.len() - o.len(), n.len() as int) == o
    &&& forall|i: int| 0 <= i < n.len() - o.len() ==> is_default_phi(#[trigger] n[i]) && phi_with_preds(n[i], preds)
    &&& n.len() > o.len() ==> is_join(tree, b)
}

/// The number of statements added to block `b`.
pub open spec fn added(o: Seq<BasicBlock>, n: Seq<BasicBlock>, b: int) -> int {
    n[b].stmts@.len() - o[b].stmts@.len()
}

/// Each of the first `k` statements is a phi statement for a base name that
/// `pl` places in block `c`.
pub open spec fn prefix_placed(n: Seq<Statement>, k: int, pl: Seq<Seq<bool>>, bases: Seq<usize>, c: int) -> bool {
    forall|i: int| 0 <= i < k ==> #[trigger] placed_phi(n[i], pl, bases, c)
}

/// `s` is a phi statement for a base name that `pl` places in block `c`.
pub open spec fn placed_phi(s: Statement, pl: Seq<Seq<bool>>, bases: Seq<usize>, c: int) -> bool {
    exists|r: int| 0 <= r < bases.len() && pl[r][c] && #[trigger] is_phi_for(s, bases[r])
}

fn no_placement(len: usize) -> (r: Vec<bool>)
    ensures
        r@.len() == len,
        forall|i: int| 0 <= i < len ==> !#[trigger] r@[i],
{
    let mut r: Vec<bool> = Vec::new();
    let mut i: usize = 0;
    while i < len
        invariant
            0 <= i <= len,
            r@.len() == i,
            forall|j: int| 0 <= j < i ==> !#[trigger] r@[j],
        decreases len - i,
    {
        r.push(false);
        i = i + 1;
    }
    r
}

/// Phase one of the conversion into SSA form: for every base name defined in
/// two blocks or more, a phi statement at the start of every block of the
/// iterated dominance frontier of its defining blocks, one per block at most.
pub fn insert_phi_statements(blocks: &mut Vec<BasicBlock>, tree: &DominatorTree)
    requires
        tree.wf(),
        old(blocks)@.len() == tree.len(),
        forall|b: int| 0 <= b < old(blocks)@.len() ==> (#[trigger] old(blocks)@[b]).cache_valid(),
    ensures
        final(blocks)@.len() == old(blocks)@.len(),
        forall|b: int| 0 <= b < old(blocks)@.len() ==> {
            &&& same_frame(#[trigger] final(blocks)@[b], old(blocks)@[b])
            &&& final(blocks)@[b].variables_defined@ == old(blocks)@[b].variables_defined@
            &&& final(blocks)@[b].variables_used@ == old(blocks)@[b].variables_used@
            &&& phi_prefix(old(blocks)@[b].stmts@, old(blocks)@[b].predecessors@, final(blocks)@[b].stmts@, *tree, b)
        },
        forall|v: usize, b: int|
            0 <= b < old(blocks)@.len() && #[trigger] phi_in_prefix(final(blocks)@[b].stmts@, added(old(blocks)@, final(blocks)@, b), v)
                ==> multi_def(old(blocks)@, v),
        forall|v: usize, b: int, f: int|
            0 <= b < old(blocks)@.len() && 0 <= f < old(blocks)@.len() && #[trigger] multi_def(old(blocks)@, v) && (
            defines_base(old(blocks)@[b].stmts@, v) || phi_in_prefix(final(blocks)@[b].stmts@, added(old(blocks)@, final(blocks)@, b), v))
                && #[trigger] in_frontier(tree.spec_preds(), tree.spec_doms(), b, f)
                ==> phi_in_prefix(final(blocks)@[f].stmts@, added(old(blocks)@, final(blocks)@, f), v),
{
    let ghost orig = blocks@;
    let len = blocks.len();
    let bases = defined_bases(blocks);
    let mut placements: Vec<Vec<bool>> = Vec::new();
    let mut q: usize = 0;
    while q < bases.len()
        invariant
            0 <= q <= bases@.len(),
            blocks@ == orig,
            len == orig.len(),
            tree.wf(),
            orig.len() == tree.len(),
            forall|b: int| 0 <= b < orig.len() ==> (#[trigger] orig[b]).cache_valid(),
            placements@.len() == q,
            forall|r: int| 0 <= r < q ==> (#[trigger] rows(placements@)[r]).len() == len,
            forall|r: int, b: int| 0 <= r < q && 0 <= b < len && #[trigger] rows(placements@)[r][b]
                ==> multi_def(orig, bases@[r]) && is_join(*tree, b),
            forall|r: int, b: int, f: int|
                0 <= r < q && 0 <= b < len && 0 <= f < len && multi_def(orig, bases@[r])
                    && (defines_base(orig[b].stmts@, bases@[r]) || rows(placements@)[r][b])
                    && #[trigger] in_frontier(tree.spec_preds(), tree.spec_doms(), b, f) ==> #[trigger] rows(placements@)[r][f],
        decreases bases@.len() - q,
    {
        let v = bases[q];
        let defs = defining_blocks(blocks, v);
        let ghost multi = multi_def(orig, v);
        proof {
            if defs@.len() > 1 {
                assert(defs@.contains(defs@[0]) && defs@.contains(defs@[1]));
                assert(defines_base(orig[defs@[0] as int].stmts@, v));
                assert(defines_base(orig[defs@[1] as int].stmts@, v));
                assert(multi);
            }
            if multi {
                let (a, c) = choose|a: int, c: int|
                    0 <= a < c < orig.len() && #[trigger] defines_base(orig[a].stmts@, v)
                        && #[trigger] defines_base(orig[c].stmts@, v);
                assert(defs@.contains(a as usize));
                assert(defs@.contains(c as usize));
                let i = choose|i: int| 0 <= i < defs@.len() && defs@[i] == a as usize;
                let j = choose|j: int| 0 <= j < defs@.len() && defs@[j] == c as usize;
                assert(i != j);
                assert(defs@.len() > 1);
            }
        }
        let pl = if defs.len() > 1 {
            phi_placement(tree, &defs)
        } else {
            no_placement(len)
        };
        let ghost old_pl = rows(placements@);
        placements.push(pl);
        assert(rows(placements@) == old_pl.push(pl@));
        proof {
            assert forall|r: int, b: int, f: int|
                0 <= r < q + 1 && 0 <= b < len && 0 <= f < len && multi_def(orig, bases@[r])
                    && (defines_base(orig[b].stmts@, bases@[r]) || rows(placements@)[r][b])
                    && #[trigger] in_frontier(tree.spec_preds(), tree.spec_doms(), b, f) implies #[trigger] rows(placements@)[r][f] by {
                if r == q {
                    if defines_base(orig[b].stmts@, v) {
                        assert(defs@.contains(b as usize));
                    }
                    assert(pl@[f]);
                } else {
                    assert(rows(placements@)[r] == old_pl[r]);
                }
            }
            assert forall|r: int, b: int| 0 <= r < q + 1 && 0 <= b < len && #[trigger] rows(placements@)[r][b]
                implies multi_def(orig, bases@[r]) && is_join(*tree, b) by {
                if r < q {
                    assert(rows(placements@)[r] == old_pl[r]);
                }
            }
        }
        q = q + 1;
    }
    let nb = bases.len();
    let mut b: usize = 0;
    while b < len
        invariant
            0 <= b <= len,
            len == orig.len(),
            nb == bases@.len(),
            tree.wf(),
            orig.len() == tree.len(),
            blocks@.len() == len,
            placements@.len() == nb,
            bases@.no_duplicates(),
            forall|r: int| 0 <= r < nb ==> (#[trigger] rows(placements@)[r]).len() == len,
            forall|r: int, c: int| 0 <= r < nb && 0 <= c < len && #[trigger] rows(placements@)[r][c]
                ==> multi_def(orig, bases@[r]) && is_join(*tree, c),
            forall|c: int| b <= c < len ==> #[trigger] blocks@[c] == orig[c],
            forall|c: int| 0 <= c < b ==> {
                &&& same_frame(#[trigger] blocks@[c], orig[c])
                &&& blocks@[c].variables_defined@ == orig[c].variables_defined@
                &&& blocks@[c].variables_used@ == orig[c].variables_used@
                &&& phi_prefix(orig[c].stmts@, orig[c].predecessors@, blocks@[c].stmts@, *tree, c)
            },
            forall|c: int| 0 <= c < b ==> prefix_placed(#[trigger] blocks@[c].stmts@, added(orig, blocks@, c), rows(placements@), bases@, c),
            forall|c: int, r: int| 0 <= c < b && 0 <= r < nb && #[trigger] rows(placements@)[r][c]
                ==> phi_in_prefix(blocks@[c].stmts@, added(orig, blocks@, c), bases@[r]),
        decreases len - b,
    {
        let mut prefix: Vec<Statement> = Vec::new();
        let mut q: usize = 0;
        while q < nb
            invariant
                0 <= q <= nb,
                b < len,
                blocks@.len() == len,
                len == orig.len(),
                nb == bases@.len(),
                placements@.len() == nb,
                forall|r: int| 0 <= r < nb ==> (#[trigger] rows(placements@)[r]).len() == len,
                forall|i: int| 0 <= i < prefix@.len() ==> is_default_phi(#[trigger] prefix@[i])
                    && phi_with_preds(prefix@[i], blocks@[b as int].predecessors@),
                prefix_placed(prefix@, prefix@.len() as int, rows(placements@), bases@, b as int),
                forall|r: int| 0 <= r < q && #[trigger] rows(placements@)[r][b as int]
                    ==> phi_in_prefix(prefix@, prefix@.len() as int, bases@[r]),
            decreases nb - q,
        {
            assert(placements@[q as int]@ == rows(placements@)[q as int]);
            if placements[q][b] {
                let phi = make_phi(bases[q], &blocks[b].predecessors);
                let ghost op = prefix@;
                prefix.push(phi);
                assert(is_phi_for(prefix@[op.len() as int], bases@[q as int]));
                assert forall|i: int| 0 <= i < prefix@.len() implies #[trigger] placed_phi(prefix@[i], rows(placements@), bases@, b as int) by {
                    if i < op.len() {
                        assert(prefix@[i] == op[i]);
                    } else {
                        assert(is_phi_for(prefix@[i], bases@[q as int]));
                    }
                }
                assert(phi_with_preds(phi, blocks@[b as int].predecessors@));
                assert forall|i: int| 0 <= i < prefix@.len() implies is_default_phi(#[trigger] prefix@[i])
                    && phi_with_preds(prefix@[i], blocks@[b as int].predecessors@) by {
                    if i < op.len() {
                        assert(prefix@[i] == op[i]);
                    }
                }
                assert forall|r: int| 0 <= r < q + 1 && #[trigger] rows(placements@)[r][b as int]
                    implies phi_in_prefix(prefix@, prefix@.len() as int, bases@[r]) by {
                    if r < q {
                        let i = choose|i: int| 0 <= i < op.len() && #[trigger] is_phi_for(op[i], bases@[r]);
                        assert(prefix@[i] == op[i]);
                    }
                }
            }
            q = q + 1;
        }
        let ghost pre = prefix@;
        let ghost ob = blocks@;
        let blk = &mut blocks[b];
        blk.prepend_statements(prefix);
        proof {
            let n = blocks@[b as int].stmts@;
            let o = orig[b as int].stmts@;
            assert(n == pre + o);
            assert(n.subrange(n.len() - o.len(), n.len() as int) =~= o);
            assert(added(orig, blocks@, b as int) == pre.len());
            assert forall|i: int| 0 <= i < pre.len() implies n[i] == pre[i] by {}
            if pre.len() > 0 {
                assert(pre[0] is Phi);
                assert(placed_phi(pre[0], rows(placements@), bases@, b as int));
                let r = choose|r: int| 0 <= r < nb && rows(placements@)[r][b as int] && #[trigger] is_phi_for(pre[0], bases@[r]);
                assert(is_join(*tree, b as int));
            }
            assert forall|c: int| 0 <= c < len && c != b implies #[trigger] blocks@[c] == ob[c] by {}
            assert(prefix_placed(pre, pre.len() as int, rows(placements@), bases@, b as int));
            assert forall|i: int| 0 <= i < pre.len() implies #[trigger] placed_phi(n[i], rows(placements@), bases@, b as int) by {
                assert(n[i] == pre[i]);
                assert(placed_phi(pre[i], rows(placements@), bases@, b as int));
            }
            assert(prefix_placed(n, added(orig, blocks@, b as int), rows(placements@), bases@, b as int));
            assert forall|c: int| 0 <= c < b + 1 implies prefix_placed(#[trigger] blocks@[c].stmts@, added(orig, blocks@, c), rows(placements@), bases@, c) by {
                if c < b {
                    assert(blocks@[c] == ob[c]);
                    assert(added(orig, blocks@, c) == added(orig, ob, c));
                    assert(prefix_placed(ob[c].stmts@, added(orig, ob, c), rows(placements@), bases@, c));
                }
            }
            assert forall|r: int| 0 <= r < nb && #[trigger] rows(placements@)[r][b as int]
                implies phi_in_prefix(n, added(orig, blocks@, b as int), bases@[r]) by {
                let i = choose|i: int| 0 <= i < pre.len() && #[trigger] is_phi_for(pre[i], bases@[r]);
                assert(n[i] == pre[i]);
            }
        }
        b = b + 1;
    }
    proof {
        let fin = blocks@;
        assert forall|v: usize, c: int|
            0 <= c < len && #[trigger] phi_in_prefix(fin[c].stmts@, added(orig, fin, c), v) implies multi_def(orig, v) by {
            let i = choose|i: int| 0 <= i < added(orig, fin, c) && #[trigger] is_phi_for(fin[c].stmts@[i], v);
            assert(prefix_placed(fin[c].stmts@, added(orig, fin, c), rows(placements@), bases@, c));
            assert(placed_phi(fin[c].stmts@[i], rows(placements@), bases@, c));
            let r = choose|r: int| 0 <= r < nb && rows(placements@)[r][c] && #[trigger] is_phi_for(fin[c].stmts@[i], bases@[r]);
            assert(bases@[r] == v);
        }
        assert forall|v: usize, c: int, f: int|
            0 <= c < len && 0 <= f < len && #[trigger] multi_def(orig, v) && (
            defines_base(orig[c].stmts@, v) || phi_in_prefix(fin[c].stmts@, added(orig, fin, c), v))
                && #[trigger] in_frontier(tree.spec_preds(), tree.spec_doms(), c, f)
                implies phi_in_prefix(fin[f].stmts@, added(orig, fin, f), v) by {
            let (a, a2) = choose|a: int, a2: int|
                0 <= a < a2 < orig.len() && #[trigger] defines_base(orig[a].stmts@, v)
                    && #[trigger] defines_base(orig[a2].stmts@, v);
            assert(bases@.contains(v));
            let r = choose|r: int| 0 <= r < nb && bases@[r] == v;
            if !defines_base(orig[c].stmts@, v) {
                let i = choose|i: int| 0 <= i < added(orig, fin, c) && #[trigger] is_phi_for(fin[c].stmts@[i], v);
                assert(prefix_placed(fin[c].stmts@, added(orig, fin, c), rows(placements@), bases@, c));
                assert(placed_phi(fin[c].stmts@[i], rows(placements@), bases@, c));
                let r2 = choose|r2: int| 0 <= r2 < nb && rows(placements@)[r2][c] && #[trigger] is_phi_for(fin[c].stmts@[i], bases@[r2]);
                assert(bases@[r2] == v);
                assert(r2 == r);
            }
            assert(rows(placements@)[r][f]);
        }
    }
}

} // verus!
