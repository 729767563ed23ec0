use vstd::prelude::*;
use crate::basic_block::BasicBlock;
use crate::dominator_tree::{graph_wf, in_frontier, idom_of, lists, lists_exactly, DominatorTree};
use crate::ir::{Statement, VariableName};
use crate::param_data::ParameterData;
use crate::rename::{
    def_of, defaults_only, renamed_by_scopes, insert_ssa_variables, stmts_upto, total_stmts, undefined_before, use_without_local_def, is_site, same_shape, same_shapes, single_assignment, site_def,
    successors_wf, SsaError,
};
use crate::ssa::{
    added, defines_base, is_default_phi, phi_with_preds, insert_phi_statements, is_join, is_phi_for, multi_def, phi_in_prefix,
    phi_prefix, same_frame,
};

verus! {

/// The blocks are numbered by their position, and every neighbour index names a block.
pub open spec fn blocks_wf(blocks: Seq<BasicBlock>) -> bool {
    &&& blocks.len() > 0
    &&& forall|b: int| 0 <= b < blocks.len() ==> (#[trigger] blocks[b]).index == b
    &&& forall|b: int, k: int| 0 <= b < blocks.len() && 0 <= k < blocks[b].predecessors@.len()
        ==> #[trigger] blocks[b].predecessors@[k] < blocks.len()
    &&& successors_wf(blocks)
}

/// The predecessor lists of the blocks.
pub open spec fn block_preds(blocks: Seq<BasicBlock>) -> Seq<Seq<usize>> {
    Seq::new(blocks.len(), |b: int| blocks[b].predecessors@)
}

/// The control-flow graph of a function or template.
///
/// Blocks are read through `iter` but cannot be changed from outside once
/// they stand in a graph: the dominator tree and every later analysis rest on
/// their indices and adjacency, and `into_ssa` is the one operation that
/// rewrites their statements. A graph therefore offers no mutable access to
/// its blocks.
pub struct CFG {
    name: String,
    param_data: ParameterData,
    basic_blocks: Vec<BasicBlock>,
    dominator_tree: DominatorTree,
    converted: bool,
}

impl CFG {
    pub closed spec fn spec_blocks(&self) -> Seq<BasicBlock> {
        self.basic_blocks@
    }

    pub closed spec fn spec_tree(&self) -> DominatorTree {
        self.dominator_tree
    }

    pub closed spec fn spec_params(&self) -> Seq<VariableName> {
        self.param_data.names@
    }

    pub closed spec fn spec_file_id(&self) -> usize {
        self.param_data.file_id
    }

    pub closed spec fn spec_name(&self) -> Seq<char> {
        self.name@
    }

    /// Whether `into_ssa` has been called.
    pub closed spec fn spec_converted(&self) -> bool {
        self.converted
    }

    /// The dominator tree belongs to the blocks, rooted at the first one.
    pub open spec fn wf(&self) -> bool {
        &&& blocks_wf(self.spec_blocks())
        &&& self.spec_tree().wf()
        &&& self.spec_tree().len() == self.spec_blocks().len()
        &&& self.spec_tree().spec_entry() == 0
        &&& self.spec_tree().spec_preds() == block_preds(self.spec_blocks())
    }

    /// A graph from blocks and a dominator tree that the caller computed for them.
    pub fn new(
        name: String,
        param_data: ParameterData,
        basic_blocks: Vec<BasicBlock>,
        dominator_tree: DominatorTree,
    ) -> (r: CFG)
        requires
            blocks_wf(basic_blocks@),
            dominator_tree.wf(),
            dominator_tree.len() == basic_blocks@.len(),
            dominator_tree.spec_entry() == 0,
            dominator_tree.spec_preds() == block_preds(basic_blocks@),
        ensures
            r.wf(),
            r.spec_blocks() == basic_blocks@,
            r.spec_tree() == dominator_tree,
            r.spec_name() == name@,
            r.spec_params() == param_data.names@,
            r.spec_file_id() == param_data.file_id,
            !r.spec_converted(),
    {
        CFG { name, param_data, basic_blocks, dominator_tree, converted: false }
    }

    /// Builds a graph and its dominator tree from blocks wired by an earlier
    /// stage, with the first block as entry; `None` where the blocks are not
    /// numbered by position or name a neighbour that does not exist.
    pub fn from_blocks(name: String, param_data: ParameterData, basic_blocks: Vec<BasicBlock>) -> (r: Option<CFG>)
        ensures
            r is Some <==> blocks_wf(basic_blocks@),
            r matches Some(g) ==> g.wf() && g.spec_blocks() == basic_blocks@ && g.spec_name() == name@
                && g.spec_params() == param_data.names@ && g.spec_file_id() == param_data.file_id
                && !g.spec_converted(),
    {
        let len = basic_blocks.len();
        if len == 0 {
            return None;
        }
        let mut preds: Vec<Vec<usize>> = Vec::new();
        let mut b: usize = 0;
        while b < len
            invariant
                0 < len == basic_blocks@.len(),
                0 <= b <= len,
                preds@.len() == b,
                forall|c: int| 0 <= c < b ==> #[trigger] preds@[c]@ == basic_blocks@[c].predecessors@,
                forall|c: int| 0 <= c < b ==> (#[trigger] basic_blocks@[c]).index == c,
                forall|c: int, k: int| 0 <= c < b && 0 <= k < basic_blocks@[c].predecessors@.len()
                    ==> #[trigger] basic_blocks@[c].predecessors@[k] < len,
                forall|c: int, k: int| 0 <= c < b && 0 <= k < basic_blocks@[c].successors@.len()
                    ==> #[trigger] basic_blocks@[c].successors@[k] < len,
            decreases len - b,
        {
            let blk = &basic_blocks[b];
            if blk.index != b {
                return None;
            }
            let mut k: usize = 0;
            while k < blk.predecessors.len()
                invariant
                    0 <= k <= blk.predecessors@.len(),
                    b < len,
                    len == basic_blocks@.len(),
                    *blk == basic_blocks@[b as int],
                    forall|j: int| 0 <= j < k ==> #[trigger] blk.predecessors@[j] < len,
                decreases blk.predecessors@.len() - k,
            {
                if blk.predecessors[k] >= len {
                    assert(basic_blocks@[b as int].predecessors@[k as int] >= len);
                    return None;
                }
                k = k + 1;
            }
            let mut k: usize = 0;
            while k < blk.successors.len()
                invariant
                    0 <= k <= blk.successors@.len(),
                    b < len,
                    len == basic_blocks@.len(),
                    *blk == basic_blocks@[b as int],
                    forall|j: int| 0 <= j < k ==> #[trigger] blk.successors@[j] < len,
                decreases blk.successors@.len() - k,
            {
                if blk.successors[k] >= len {
                    assert(basic_blocks@[b as int].successors@[k as int] >= len);
                    return None;
                }
                k = k + 1;
            }
            let mut copy: Vec<usize> = Vec::new();
            let mut k: usize = 0;
            while k < blk.predecessors.len()
                invariant
                    0 <= k <= blk.predecessors@.len(),
                    copy@ == blk.predecessors@.take(k as int),
                decreases blk.predecessors@.len() - k,
            {
                copy.push(blk.predecessors[k]);
                assert(blk.predecessors@.take(k + 1) == blk.predecessors@.take(k as int).push(blk.predecessors@[k as int]));
                k = k + 1;
            }
            assert(blk.predecessors@.take(k as int) == blk.predecessors@);
            preds.push(copy);
            b = b + 1;
        }
        assert(lists(preds@) == block_preds(basic_blocks@));
        assert(graph_wf(lists(preds@)));
        let tree = DominatorTree::new(preds, 0);
        Some(CFG::new(name, param_data, basic_blocks, tree))
    }

    /// The entry (first) block.
    pub fn get_entry_block(&self) -> (r: &BasicBlock)
        requires
            self.wf(),
        ensures
            *r == self.spec_blocks()[0],
    {
        &self.basic_blocks[0]
    }

    /// The number of blocks.
    pub fn nof_basic_blocks(&self) -> (r: usize)
        ensures
            r == self.spec_blocks().len(),
    {
        self.basic_blocks.len()
    }

    /// The name of the function or template.
    pub fn get_name(&self) -> (r: &str)
        ensures
            r@ == self.spec_name(),
    {
        self.name.as_str()
    }

    /// The file of the function or template.
    pub fn get_file_id(&self) -> (r: usize)
        ensures
            r == self.spec_file_id(),
    {
        self.param_data.get_file_id()
    }

    /// The parameters of the function or template.
    pub fn get_parameters(&self) -> (r: &ParameterData)
        ensures
            r.names@ == self.spec_params(),
            r.file_id == self.spec_file_id(),
    {
        &self.param_data
    }

    /// The blocks, in order of index.
    pub fn iter(&self) -> (r: &Vec<BasicBlock>)
        ensures
            r@ == self.spec_blocks(),
    {
        &self.basic_blocks
    }

    /// The dominator tree of the graph.
    pub fn get_dominator_tree(&self) -> (r: &DominatorTree)
        ensures
            *r == self.spec_tree(),
    {
        &self.dominator_tree
    }
}


/// The statements `n` are alike but for versions to phi statements followed
/// by the statements `o`; a block receives phi statements only where it lies
/// in some dominance frontier.
pub open spec fn ssa_prefix(o: Seq<Statement>, n: Seq<Statement>, tree: DominatorTree, b: int) -> bool {
    &&& n.len() >= o.len()
    &&& same_shapes(o, n.subrange(n.len() - o.len(), n.len() as int))
    &&& forall|i: int| 0 <= i < n.len() - o.len() ==> #[trigger] n[i] is Phi
    &&& n.len() > o.len() ==> is_join(tree, b)
}

/// What the conversion into SSA form makes of the blocks `o`: the blocks `n`
/// keep their index and adjacency, begin with phi statements placed on the
/// iterated dominance frontiers of the blocks that define each variable
/// defined in two blocks or more, and are otherwise the old statements
/// up to versions.
pub open spec fn converted_from(o: Seq<BasicBlock>, n: Seq<BasicBlock>, tree: DominatorTree) -> bool {
    &&& n.len() == o.len()
    &&& forall|b: int| 0 <= b < o.len() ==> same_frame(#[trigger] n[b], o[b])
    &&& forall|b: int| 0 <= b < o.len() ==> ssa_prefix(o[b].stmts@, #[trigger] n[b].stmts@, tree, b)
    &&& forall|b: int, i: int| 0 <= b < o.len() && 0 <= i < added(o, n, b)
        ==> phi_with_preds(#[trigger] n[b].stmts@[i], o[b].predecessors@)
    &&& forall|v: usize, b: int|
        0 <= b < o.len() && #[trigger] phi_in_prefix(n[b].stmts@, added(o, n, b), v) ==> multi_def(o, v)
    &&& forall|v: usize, b: int, f: int|
        0 <= b < o.len() && 0 <= f < o.len() && #[trigger] multi_def(o, v) && (defines_base(o[b].stmts@, v)
            || phi_in_prefix(n[b].stmts@, added(o, n, b), v))
            && #[trigger] in_frontier(tree.spec_preds(), tree.spec_doms(), b, f)
            ==> phi_in_prefix(n[f].stmts@, added(o, n, f), v)
}

proof fn lemma_same_lens_total(a: Seq<BasicBlock>, b: Seq<BasicBlock>, n: int)
    requires
        a.len() == b.len(),
        0 <= n <= a.len(),
        forall|c: int| 0 <= c < a.len() ==> (#[trigger] a[c]).stmts@.len() == b[c].stmts@.len(),
    ensures
        stmts_upto(a, n) == stmts_upto(b, n),
    decreases n,
{
    if n > 0 {
        lemma_same_lens_total(a, b, n - 1);
    }
}

proof fn lemma_converted_same_stmts(o: Seq<BasicBlock>, n1: Seq<BasicBlock>, n2: Seq<BasicBlock>, tree: DominatorTree)
    requires
        converted_from(o, n1, tree),
        n2.len() == n1.len(),
        forall|c: int| 0 <= c < n1.len() ==> (#[trigger] n2[c]).stmts@ == n1[c].stmts@ && same_frame(n2[c], n1[c]),
    ensures
        converted_from(o, n2, tree),
{
    assert forall|c: int| 0 <= c < o.len() implies #[trigger] added(o, n2, c) == added(o, n1, c) && n2[c].stmts@ == n1[c].stmts@ by {}
    assert forall|b: int| 0 <= b < o.len() implies same_frame(#[trigger] n2[b], o[b]) by {
        assert(same_frame(n1[b], o[b]));
        assert(n2[b].stmts@ == n1[b].stmts@ && same_frame(n2[b], n1[b]));
    }
    assert forall|b: int| 0 <= b < o.len() implies ssa_prefix(o[b].stmts@, #[trigger] n2[b].stmts@, tree, b) by {
        assert(ssa_prefix(o[b].stmts@, n1[b].stmts@, tree, b));
    }
    assert forall|b: int, i: int| 0 <= b < o.len() && 0 <= i < added(o, n2, b)
        implies phi_with_preds(#[trigger] n2[b].stmts@[i], o[b].predecessors@) by {
        assert(n2[b].stmts@ == n1[b].stmts@);
        assert(phi_with_preds(n1[b].stmts@[i], o[b].predecessors@));
    }
    assert forall|v: usize, b: int| 0 <= b < o.len() && #[trigger] phi_in_prefix(n2[b].stmts@, added(o, n2, b), v)
        implies multi_def(o, v) by {
        assert(phi_in_prefix(n1[b].stmts@, added(o, n1, b), v));
    }
    assert forall|v: usize, b: int, f: int|
        0 <= b < o.len() && 0 <= f < o.len() && #[trigger] multi_def(o, v) && (defines_base(o[b].stmts@, v)
            || phi_in_prefix(n2[b].stmts@, added(o, n2, b), v))
            && #[trigger] in_frontier(tree.spec_preds(), tree.spec_doms(), b, f)
            implies phi_in_prefix(n2[f].stmts@, added(o, n2, f), v) by {
        assert(phi_in_prefix(n1[f].stmts@, added(o, n1, f), v) == phi_in_prefix(n2[f].stmts@, added(o, n2, f), v));
        assert(phi_in_prefix(n1[b].stmts@, added(o, n1, b), v) == phi_in_prefix(n2[b].stmts@, added(o, n2, b), v));
    }
}

proof fn lemma_shape_keeps_preds(a: Statement, b: Statement, preds: Seq<usize>)
    requires
        same_shape(a, b),
        phi_with_preds(a, preds),
    ensures
        phi_with_preds(b, preds),
{
    match (a, b) {
        (Statement::Phi { target: t1, arguments: a1 }, Statement::Phi { target: t2, arguments: a2 }) => {
            assert forall|k: int| 0 <= k < preds.len() implies (#[trigger] a2@[k]).predecessor == preds[k]
                && a2@[k].variable.base == t2.base by {
                assert(a1@[k].predecessor == preds[k] && a1@[k].variable.base == t1.base);
                assert(a1@[k].predecessor == a2@[k].predecessor && a1@[k].variable.base == a2@[k].variable.base);
            }
        },
        _ => {},
    }
}

proof fn lemma_shape_keeps_phi(a: Statement, b: Statement, v: usize)
    requires
        same_shape(a, b),
    ensures
        is_phi_for(a, v) <==> is_phi_for(b, v),
        (a is Phi) <==> (b is Phi),
{
}

proof fn lemma_shapes_keep_prefix(a: Seq<Statement>, b: Seq<Statement>, k: int, v: usize)
    requires
        same_shapes(a, b),
        0 <= k <= a.len(),
    ensures
        phi_in_prefix(a, k, v) <==> phi_in_prefix(b, k, v),
{
    if phi_in_prefix(a, k, v) {
        let i = choose|i: int| 0 <= i < k && #[trigger] is_phi_for(a[i], v);
        lemma_shape_keeps_phi(a[i], b[i], v);
    }
    if phi_in_prefix(b, k, v) {
        let i = choose|i: int| 0 <= i < k && #[trigger] is_phi_for(b[i], v);
        lemma_shape_keeps_phi(a[i], b[i], v);
    }
}

impl CFG {
    /// Converts the graph into SSA form: places phi statements, then renames
    /// every variable to a versioned name. A second call fails with
    /// `AlreadyInSsaForm` and changes nothing. After a failure the graph is
    /// left part-way and is not to be used further.
    pub fn into_ssa(&mut self) -> (r: Result<(), SsaError>)
        requires
            old(self).wf(),
        ensures
            final(self).wf(),
            final(self).spec_name() == old(self).spec_name(),
            final(self).spec_file_id() == old(self).spec_file_id(),
            final(self).spec_tree() == old(self).spec_tree(),
            final(self).spec_converted(),
            old(self).spec_converted() ==> r == Err::<(), SsaError>(SsaError::AlreadyInSsaForm)
                && final(self).spec_blocks() == old(self).spec_blocks()
                && final(self).spec_params() == old(self).spec_params(),
            !old(self).spec_converted() ==> converted_from(old(self).spec_blocks(), final(self).spec_blocks(), old(self).spec_tree()),
            !old(self).spec_converted() && r is Err ==> r->Err_0 is VersionOverflow || (r->Err_0 is UnboundUse
                && r->Err_0->UnboundUse_block < old(self).spec_blocks().len()),
            !old(self).spec_converted() && r is Err && r->Err_0 is VersionOverflow
                ==> total_stmts(final(self).spec_blocks()) > usize::MAX,
            !old(self).spec_converted() && r is Err && r->Err_0 is UnboundUse ==> ({
                let x = r->Err_0->UnboundUse_variable;
                let u = r->Err_0->UnboundUse_block as int;
                let o = old(self).spec_blocks();
                let n = final(self).spec_blocks();
                &&& exists|i: int| use_without_local_def(o[u].stmts@, i, x)
                &&& !phi_in_prefix(n[u].stmts@, added(o, n, u), x)
                &&& forall|j: int| 0 <= j < old(self).spec_params().len() ==> #[trigger] old(self).spec_params()[j].base != x
            }),
            !old(self).spec_converted() && r is Ok ==> {
                &&& exists|scopes: Seq<Seq<(usize, usize)>>, renamed: Seq<bool>|
                    renamed_by_scopes(final(self).spec_blocks(), old(self).spec_tree(), old(self).spec_params(), scopes, renamed)
                &&& defaults_only(old(self).spec_blocks()) ==> single_assignment(final(self).spec_blocks())
                &&& forall|b: int| 0 <= b < final(self).spec_blocks().len() ==> (#[trigger] final(self).spec_blocks()[b]).cache_valid()
                &&& final(self).spec_params().len() == old(self).spec_params().len()
                &&& forall|i: int| 0 <= i < old(self).spec_params().len() ==> #[trigger] final(self).spec_params()[i]
                    == (VariableName { base: old(self).spec_params()[i].base, version: 0 })
            },
    {
        if self.converted {
            return Err(SsaError::AlreadyInSsaForm);
        }
        self.converted = true;
        let ghost orig = self.basic_blocks@;
        let len = self.basic_blocks.len();
        let mut b: usize = 0;
        while b < len
            invariant
                0 <= b <= len,
                len == orig.len(),
                old(self).wf(),
                orig == old(self).basic_blocks@,
                self.dominator_tree == old(self).dominator_tree,
                self.name == old(self).name,
                self.param_data == old(self).param_data,
                self.converted,
                self.basic_blocks@.len() == len,
                forall|c: int| 0 <= c < len ==> same_frame(#[trigger] self.basic_blocks@[c], orig[c]),
                forall|c: int| 0 <= c < len ==> (#[trigger] self.basic_blocks@[c]).stmts@ == orig[c].stmts@,
                forall|c: int| 0 <= c < b ==> (#[trigger] self.basic_blocks@[c]).cache_valid(),
            decreases len - b,
        {
            let ghost ob = self.basic_blocks@;
            self.basic_blocks[b].cache_variable_use();
            assert forall|c: int| 0 <= c < len && c != b implies #[trigger] self.basic_blocks@[c] == ob[c] by {}
            b = b + 1;
        }
        let ghost b1 = self.basic_blocks@;
        insert_phi_statements(&mut self.basic_blocks, &self.dominator_tree);
        let ghost b2 = self.basic_blocks@;
        proof {
            assert forall|c: int, k: int| 0 <= c < len && 0 <= k < b2[c].successors@.len()
                implies #[trigger] b2[c].successors@[k] < len by {
                assert(same_frame(b2[c], b1[c]));
                assert(same_frame(b1[c], orig[c]));
                assert(b2[c].successors@[k] == orig[c].successors@[k]);
            }
        }
        proof {
            if defaults_only(orig) {
                assert forall|c: int, i: int| is_site(b2, c, i) && (#[trigger] site_def(b2, c, i)) is Some
                    implies site_def(b2, c, i)->Some_0.version == 0 by {
                    let tree = self.dominator_tree;
                    assert(phi_prefix(b1[c].stmts@, b1[c].predecessors@, b2[c].stmts@, tree, c));
                    let k = b2[c].stmts@.len() - b1[c].stmts@.len();
                    if i >= k {
                        assert(b2[c].stmts@.subrange(k, b2[c].stmts@.len() as int)[i - k] == b2[c].stmts@[i]);
                        assert(b2[c].stmts@[i] == b1[c].stmts@[i - k]);
                        assert(site_def(orig, c, i - k) == site_def(b2, c, i));
                        assert(is_site(orig, c, i - k));
                    }
                }
            }
        }
        let res = insert_ssa_variables(&mut self.basic_blocks, &self.dominator_tree, &self.param_data.names);
        let ghost b3 = self.basic_blocks@;
        proof {
            assert(block_preds(b3) =~= block_preds(orig)) by {
                assert forall|c: int| 0 <= c < len implies #[trigger] b3[c].predecessors@ == orig[c].predecessors@ by {
                    assert(same_frame(b3[c], b2[c]));
                    assert(same_frame(b2[c], b1[c]));
                    assert(same_frame(b1[c], orig[c]));
                }
            }
            assert forall|c: int| 0 <= c < len implies same_frame(#[trigger] b3[c], orig[c]) by {
                assert(same_frame(b3[c], b2[c]));
                assert(same_frame(b2[c], b1[c]));
                assert(same_frame(b1[c], orig[c]));
            }
        }
        proof {
            let fin = b3;
            let tree = self.dominator_tree;
            assert(block_preds(fin) =~= block_preds(orig)) by {
                assert forall|c: int| 0 <= c < len implies #[trigger] fin[c].predecessors@ == orig[c].predecessors@ by {
                    assert(same_frame(fin[c], orig[c]));
                }
            }
            assert forall|c: int| 0 <= c < len implies #[trigger] added(orig, fin, c) == added(b1, b2, c) by {
                assert(fin[c].stmts@ == b3[c].stmts@);
                assert(same_shapes(b2[c].stmts@, b3[c].stmts@));
            }
            assert forall|c: int, v: usize| 0 <= c < len implies
                #[trigger] phi_in_prefix(fin[c].stmts@, added(orig, fin, c), v) == phi_in_prefix(b2[c].stmts@, added(b1, b2, c), v) by {
                assert(fin[c].stmts@ == b3[c].stmts@);
                assert(same_shapes(b2[c].stmts@, b3[c].stmts@));
                assert(phi_prefix(b1[c].stmts@, b1[c].predecessors@, b2[c].stmts@, tree, c));
                lemma_shapes_keep_prefix(b2[c].stmts@, b3[c].stmts@, added(b1, b2, c), v);
            }
            assert forall|c: int| 0 <= c < len implies ssa_prefix(orig[c].stmts@, #[trigger] fin[c].stmts@, tree, c) by {
                let o = orig[c].stmts@;
                let m = b2[c].stmts@;
                let n = fin[c].stmts@;
                assert(n == b3[c].stmts@);
                assert(same_shapes(m, n));
                assert(phi_prefix(b1[c].stmts@, b1[c].predecessors@, m, tree, c));
                assert(b1[c].stmts@ == o);
                let k = n.len() - o.len();
                assert(m.subrange(k, m.len() as int) == o);
                assert forall|i: int| 0 <= i < o.len() implies same_shape(#[trigger] o[i], n.subrange(k, n.len() as int)[i]) by {
                    assert(o[i] == m[k + i]);
                    assert(same_shape(m[k + i], n[k + i]));
                }
                assert forall|i: int| 0 <= i < k implies #[trigger] n[i] is Phi by {
                    assert(m[i] is Phi);
                    lemma_shape_keeps_phi(m[i], n[i], 0);
                }
            }
            assert forall|c: int, i: int| 0 <= c < len && 0 <= i < added(orig, fin, c)
                implies phi_with_preds(#[trigger] fin[c].stmts@[i], orig[c].predecessors@) by {
                assert(phi_prefix(b1[c].stmts@, b1[c].predecessors@, b2[c].stmts@, tree, c));
                assert(same_frame(b1[c], orig[c]));
                assert(same_shapes(b2[c].stmts@, fin[c].stmts@));
                lemma_shape_keeps_preds(b2[c].stmts@[i], fin[c].stmts@[i], orig[c].predecessors@);
            }
            assert(forall|c: int| 0 <= c < len ==> (#[trigger] orig[c]).stmts@ == b1[c].stmts@);
            assert forall|v: usize| #[trigger] multi_def(orig, v) == multi_def(b1, v) by {
                if multi_def(orig, v) {
                    let (a, c) = choose|a: int, c: int| 0 <= a < c < orig.len() && #[trigger] defines_base(orig[a].stmts@, v)
                        && #[trigger] defines_base(orig[c].stmts@, v);
                    assert(defines_base(b1[a].stmts@, v) && defines_base(b1[c].stmts@, v));
                }
                if multi_def(b1, v) {
                    let (a, c) = choose|a: int, c: int| 0 <= a < c < b1.len() && #[trigger] defines_base(b1[a].stmts@, v)
                        && #[trigger] defines_base(b1[c].stmts@, v);
                    assert(defines_base(orig[a].stmts@, v) && defines_base(orig[c].stmts@, v));
                }
            }
            assert forall|v: usize, c: int, f: int|
                0 <= c < len && 0 <= f < len && #[trigger] multi_def(orig, v) && (defines_base(orig[c].stmts@, v)
                    || phi_in_prefix(fin[c].stmts@, added(orig, fin, c), v))
                    && #[trigger] in_frontier(tree.spec_preds(), tree.spec_doms(), c, f)
                    implies phi_in_prefix(fin[f].stmts@, added(orig, fin, f), v) by {
                assert(phi_in_prefix(fin[c].stmts@, added(orig, fin, c), v) == phi_in_prefix(b2[c].stmts@, added(b1, b2, c), v));
                assert(phi_in_prefix(fin[f].stmts@, added(orig, fin, f), v) == phi_in_prefix(b2[f].stmts@, added(b1, b2, f), v));
                assert(defines_base(b1[c].stmts@, v) == defines_base(orig[c].stmts@, v));
                assert(multi_def(b1, v));
            }
            assert forall|v: usize, c: int|
                0 <= c < len && #[trigger] phi_in_prefix(fin[c].stmts@, added(orig, fin, c), v) implies multi_def(orig, v) by {
                assert(phi_in_prefix(fin[c].stmts@, added(orig, fin, c), v) == phi_in_prefix(b2[c].stmts@, added(b1, b2, c), v));
                assert(multi_def(b1, v));
            }
        }
        match res {
            Err(e) => {
                proof {
                    lemma_same_lens_total(b2, b3, len as int);
                    if e is UnboundUse {
                        let x = e->UnboundUse_variable;
                        let u = e->UnboundUse_block as int;
                        let i = choose|i: int| use_without_local_def(b2[u].stmts@, i, x);
                        let m = b2[u].stmts@;
                        let o = orig[u].stmts@;
                        let tree = self.dominator_tree;
                        assert(phi_prefix(b1[u].stmts@, b1[u].predecessors@, m, tree, u));
                        assert(b1[u].stmts@ == o);
                        let k = m.len() - o.len();
                        assert(m.subrange(k, m.len() as int) == o);
                        if i < k {
                            assert(is_default_phi(m[i]));
                        }
                        assert(o[i - k] == m[i]);
                        assert forall|jj: int| 0 <= jj < i - k implies (#[trigger] def_of(o[jj])) is None
                            || def_of(o[jj])->Some_0.base != x by {
                            assert(o[jj] == m[jj + k]);
                            assert(def_of(m[jj + k]) is None || def_of(m[jj + k])->Some_0.base != x);
                        }
                        assert(use_without_local_def(o, i - k, x));
                        assert forall|jj: int| 0 <= jj < k implies !#[trigger] is_phi_for(m[jj], x) by {
                            assert(def_of(m[jj]) is None || def_of(m[jj])->Some_0.base != x);
                        }
                        assert(same_shapes(m, b3[u].stmts@));
                        lemma_shapes_keep_prefix(m, b3[u].stmts@, k, x);
                        assert(added(orig, b3, u) == k);
                    }
                }
                return Err(e);
            },
            Ok(()) => {},
        }
        self.param_data.set_default_versions();
        let ghost pd = self.param_data;
        let mut b: usize = 0;
        while b < len
            invariant
                0 <= b <= len,
                len == orig.len(),
                old(self).wf(),
                orig == old(self).basic_blocks@,
                b3.len() == len,
                self.dominator_tree == old(self).dominator_tree,
                self.name == old(self).name,
                self.param_data == pd,
                self.converted,
                self.basic_blocks@.len() == len,
                forall|c: int| 0 <= c < len ==> same_frame(#[trigger] self.basic_blocks@[c], orig[c]),
                forall|c: int| 0 <= c < len ==> (#[trigger] self.basic_blocks@[c]).stmts@ == b3[c].stmts@,
                forall|c: int| 0 <= c < b ==> (#[trigger] self.basic_blocks@[c]).cache_valid(),
            decreases len - b,
        {
            let ghost ob = self.basic_blocks@;
            self.basic_blocks[b].cache_variable_use();
            assert forall|c: int| 0 <= c < len && c != b implies #[trigger] self.basic_blocks@[c] == ob[c] by {}
            b = b + 1;
        }
        proof {
            let fin = self.basic_blocks@;
            assert forall|c: int| 0 <= c < len implies (#[trigger] fin[c]).stmts@ == b3[c].stmts@ && same_frame(fin[c], b3[c]) by {
                assert(same_frame(fin[c], orig[c]));
            }
            lemma_converted_same_stmts(orig, b3, fin, self.dominator_tree);
            let (scopes, renamed) = choose|scopes: Seq<Seq<(usize, usize)>>, renamed: Seq<bool>|
                renamed_by_scopes(b3, self.dominator_tree, old(self).param_data.names@, scopes, renamed);
            assert forall|c: int, i: int| is_site(fin, c, i) <==> is_site(b3, c, i) by {
                if 0 <= c < len {
                    assert(fin[c].stmts@ == b3[c].stmts@);
                }
            }
            assert forall|c: int, i: int| is_site(fin, c, i) implies #[trigger] site_def(fin, c, i) == site_def(b3, c, i) by {
                assert(fin[c].stmts@ == b3[c].stmts@);
            }
            assert(renamed_by_scopes(fin, self.dominator_tree, old(self).param_data.names@, scopes, renamed));
            assert(block_preds(fin) =~= block_preds(orig)) by {
                assert forall|c: int| 0 <= c < len implies #[trigger] fin[c].predecessors@ == orig[c].predecessors@ by {
                    assert(same_frame(fin[c], orig[c]));
                }
            }
            if defaults_only(orig) {
                assert(single_assignment(b3));
                assert forall|c: int, i: int| is_site(fin, c, i) implies #[trigger] site_def(fin, c, i) == site_def(b3, c, i) && is_site(b3, c, i) by {
                    assert(fin[c].stmts@ == b3[c].stmts@);
                }
                assert(single_assignment(fin));
            }
        }
        Ok(())
    }
}


impl CFG {
    /// The blocks with the given indices, in the same order.
    fn blocks_at(&self, idx: &Vec<usize>) -> (r: Vec<&BasicBlock>)
        requires
            forall|i: int| 0 <= i < idx@.len() ==> #[trigger] idx@[i] < self.spec_blocks().len(),
        ensures
            r@.len() == idx@.len(),
            forall|i: int| 0 <= i < idx@.len() ==> *#[trigger] r@[i] == self.spec_blocks()[idx@[i] as int],
    {
        let mut r: Vec<&BasicBlock> = Vec::new();
        let mut i: usize = 0;
        while i < idx.len()
            invariant
                0 <= i <= idx@.len(),
                forall|i: int| 0 <= i < idx@.len() ==> #[trigger] idx@[i] < self.spec_blocks().len(),
                r@.len() == i,
                forall|j: int| 0 <= j < i ==> *#[trigger] r@[j] == self.spec_blocks()[idx@[j] as int],
            decreases idx@.len() - i,
        {
            r.push(&self.basic_blocks[idx[i]]);
            i = i + 1;
        }
        r
    }

    /// The dominators of the block, from the block itself up the chain of
    /// immediate dominators to the entry.
    pub fn get_dominators(&self, basic_block: &BasicBlock) -> (r: Vec<&BasicBlock>)
        requires
            self.wf(),
            basic_block.index < self.spec_blocks().len(),
        ensures
            r@.len() >= 1,
            r@[0] == self.spec_blocks()[basic_block.index as int],
            forall|i: int| 0 <= i < r@.len() ==> #[trigger] r@[i].index < self.spec_blocks().len()
                && *r@[i] == self.spec_blocks()[r@[i].index as int],
            forall|i: int| 0 <= i < r@.len() - 1 ==> self.spec_tree().spec_idoms()[#[trigger] r@[i].index as int]
                == Some(r@[i + 1].index),
            self.spec_tree().spec_idoms()[r@.last().index as int] is None || r@.len() == self.spec_blocks().len() + 1,
    {
        let chain = self.dominator_tree.get_dominators(basic_block.index);
        let r = self.blocks_at(&chain);
        proof {
            assert forall|i: int| 0 <= i < r@.len() implies #[trigger] r@[i].index == chain@[i] by {
                assert(*r@[i] == self.spec_blocks()[chain@[i] as int]);
            }
            assert(r@.last().index == chain@.last());
            assert forall|i: int| 0 <= i < r@.len() - 1 implies self.spec_tree().spec_idoms()[#[trigger] r@[i].index as int]
                == Some(r@[i + 1].index) by {
                assert(r@[i].index == chain@[i] && r@[i + 1].index == chain@[i + 1]);
            }
        }
        r
    }

    /// The immediate dominator of the block; `None` for the entry.
    pub fn get_immediate_dominator(&self, basic_block: &BasicBlock) -> (r: Option<&BasicBlock>)
        requires
            self.wf(),
            basic_block.index < self.spec_blocks().len(),
        ensures
            match self.spec_tree().spec_idoms()[basic_block.index as int] {
                None => r is None,
                Some(m) => r is Some && *r->Some_0 == self.spec_blocks()[m as int],
            },
            idom_of(self.spec_tree().spec_doms(), basic_block.index as int, self.spec_tree().spec_idoms()[basic_block.index as int]),
    {
        match self.dominator_tree.get_immediate_dominator(basic_block.index) {
            Some(m) => Some(&self.basic_blocks[m]),
            None => None,
        }
    }

    /// The blocks whose immediate dominator is the given block, in order of index.
    pub fn get_dominator_successors(&self, basic_block: &BasicBlock) -> (r: Vec<&BasicBlock>)
        requires
            self.wf(),
            basic_block.index < self.spec_blocks().len(),
        ensures
            forall|i: int| 0 <= i < r@.len() ==> #[trigger] r@[i].index < self.spec_blocks().len()
                && *r@[i] == self.spec_blocks()[r@[i].index as int],
            lists_exactly(r@.map_values(|x: &BasicBlock| x.index), self.spec_blocks().len(),
                self.spec_tree().children_pred(basic_block.index as int)),
    {
        let idx = self.dominator_tree.get_dominator_successors(basic_block.index);
        let r = self.blocks_at(&idx);
        proof {
            assert forall|i: int| 0 <= i < r@.len() implies #[trigger] r@[i].index == idx@[i] by {
                assert(*r@[i] == self.spec_blocks()[idx@[i] as int]);
            }
            assert(r@.map_values(|x: &BasicBlock| x.index) =~= idx@);
        }
        r
    }

    /// The dominance frontier of the block, in order of index.
    pub fn get_dominance_frontier(&self, basic_block: &BasicBlock) -> (r: Vec<&BasicBlock>)
        requires
            self.wf(),
            basic_block.index < self.spec_blocks().len(),
        ensures
            forall|i: int| 0 <= i < r@.len() ==> #[trigger] r@[i].index < self.spec_blocks().len()
                && *r@[i] == self.spec_blocks()[r@[i].index as int],
            lists_exactly(r@.map_values(|x: &BasicBlock| x.index), self.spec_blocks().len(),
                self.spec_tree().frontier_pred(basic_block.index as int)),
    {
        let idx = self.dominator_tree.get_dominance_frontier(basic_block.index);
        let r = self.blocks_at(idx);
        proof {
            assert forall|i: int| 0 <= i < r@.len() implies #[trigger] r@[i].index == idx@[i] by {
                assert(*r@[i] == self.spec_blocks()[idx@[i] as int]);
            }
            assert(r@.map_values(|x: &BasicBlock| x.index) =~= idx@);
        }
        r
    }
}

/// A graph of one block that no edge enters receives no phi statement: after
/// a successful conversion its block holds as many statements as before, each
/// alike but for versions to the one at its place.
pub proof fn lemma_single_block_gets_no_phi(o: Seq<BasicBlock>, n: Seq<BasicBlock>, tree: DominatorTree)
    requires
        o.len() == 1,
        tree.wf(),
        tree.len() == 1,
        tree.spec_preds() == block_preds(o),
        o[0].predecessors@.len() == 0,
        converted_from(o, n, tree),
    ensures
        n[0].stmts@.len() == o[0].stmts@.len(),
        same_shapes(o[0].stmts@, n[0].stmts@),
{
    assert(ssa_prefix(o[0].stmts@, n[0].stmts@, tree, 0));
    if n[0].stmts@.len() > o[0].stmts@.len() {
        assert(is_join(tree, 0));
        let x = choose|x: int| 0 <= x < tree.len() && in_frontier(tree.spec_preds(), tree.spec_doms(), x, 0);
        assert(tree.spec_preds()[0] == o[0].predecessors@);
    }
    assert(n[0].stmts@.subrange(0, n[0].stmts@.len() as int) == n[0].stmts@);
}

} // verus!
