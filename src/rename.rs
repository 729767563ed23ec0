use vstd::prelude::*;
use crate::basic_block::BasicBlock;
use crate::dominator_tree::{count_true, idom_of, lists_exactly, lemma_count_bound, lemma_count_le, DominatorTree};
use crate::ir::{stmt_uses, PhiArgument, Statement, VariableName};
use crate::ssa::same_frame;

verus! {

/// Why the conversion into SSA form failed.
#[derive(Debug, PartialEq, Eq, Structural)]
pub enum SsaError {
    /// A variable of this base name is used in this block with no definition
    /// of it on the block's chain of dominators.
    UnboundUse { variable: usize, block: usize },
    /// A base name was given more versions than a `usize` can count.
    VersionOverflow { variable: usize },
    /// The graph is in SSA form already.
    AlreadyInSsaForm,
}

/// The version in scope for base name `v` in the environment `e`: that of
/// the last entry for `v`.
pub open spec fn lookup(e: Seq<(usize, usize)>, v: usize) -> Option<usize>
    decreases e.len(),
{
    if e.len() == 0 {
        None
    } else if e.last().0 == v {
        Some(e.last().1)
    } else {
        lookup(e.drop_last(), v)
    }
}

/// The number of versions given so far to base name `v`.
pub open spec fn count(c: Seq<(usize, usize)>, v: usize) -> nat {
    match lookup(c, v) {
        Some(k) => k as nat,
        None => 0,
    }
}

/// The variable a statement defines, if any.
pub open spec fn def_of(s: Statement) -> Option<VariableName> {
    match s {
        Statement::Assign { target, .. } => Some(target),
        Statement::Phi { target, .. } => Some(target),
        Statement::Effect { .. } => None,
    }
}

/// Every definition among `stmts` has a version above `low` and at most
/// `high` for its base name, and no two of them define the same name.
pub open spec fn fresh_defs(stmts: Seq<Statement>, low: spec_fn(usize) -> nat, high: spec_fn(usize) -> nat) -> bool {
    &&& forall|i: int| 0 <= i < stmts.len() && (#[trigger] def_of(stmts[i])) is Some ==> {
        let x = def_of(stmts[i])->Some_0;
        low(x.base) < x.version <= high(x.base)
    }
    &&& forall|i: int, j: int| 0 <= i < j < stmts.len() && (#[trigger] def_of(stmts[i])) is Some
        ==> def_of(stmts[i]) != #[trigger] def_of(stmts[j])
}

/// The scope after the first `i` statements of `out`, starting from scope
/// `e`: each definition brings its versioned name into scope.
pub open spec fn scope_after(e: Seq<(usize, usize)>, out: Seq<Statement>, i: int) -> Seq<(usize, usize)>
    decreases i,
{
    if i <= 0 {
        e
    } else {
        let prev = scope_after(e, out, i - 1);
        match def_of(out[i - 1]) {
            Some(x) => prev.push((x.base, x.version)),
            None => prev,
        }
    }
}

/// Every variable of `uses` carries the version that `e` has in scope for its base.
pub open spec fn in_scope(e: Seq<(usize, usize)>, uses: Seq<VariableName>) -> bool {
    forall|k: int| 0 <= k < uses.len() ==> lookup(e, #[trigger] uses[k].base) == Some(uses[k].version)
}

/// Each ordinary statement of `out` uses the versions in scope just before it,
/// the scope at the start being `e`.
pub open spec fn uses_in_scope(e: Seq<(usize, usize)>, out: Seq<Statement>) -> bool {
    forall|i: int| 0 <= i < out.len() && !(out[i] is Phi) ==> in_scope(scope_after(e, out, i), #[trigger] stmt_uses(out[i]))
}

/// Some variable of `uses` has base name `x`.
pub open spec fn uses_base(uses: Seq<VariableName>, x: usize) -> bool {
    exists|k: int| 0 <= k < uses.len() && (#[trigger] uses[k]).base == x
}

/// No statement among the first `i` of `stmts` defines base name `x`.
pub open spec fn undefined_before(stmts: Seq<Statement>, i: int, x: usize) -> bool {
    forall|j: int| 0 <= j < i ==> (#[trigger] def_of(stmts[j])) is None || def_of(stmts[j])->Some_0.base != x
}

/// Statement `i` of `stmts` is an ordinary statement that uses base name `x`,
/// which no earlier statement defines and `e` does not have in scope.
pub open spec fn unbound_at(e: Seq<(usize, usize)>, stmts: Seq<Statement>, i: int, x: usize) -> bool {
    &&& 0 <= i < stmts.len()
    &&& !(stmts[i] is Phi)
    &&& uses_base(stmt_uses(stmts[i]), x)
    &&& lookup(e, x) is None
    &&& undefined_before(stmts, i, x)
}

proof fn lemma_scope_none(e: Seq<(usize, usize)>, out: Seq<Statement>, stmts: Seq<Statement>, i: int, x: usize)
    requires
        0 <= i <= out.len(),
        out.len() <= stmts.len(),
        forall|j: int| 0 <= j < i ==> same_shape(#[trigger] stmts[j], out[j]),
        lookup(scope_after(e, out, i), x) is None,
    ensures
        lookup(e, x) is None,
        undefined_before(stmts, i, x),
    decreases i,
{
    if i > 0 {
        let prev = scope_after(e, out, i - 1);
        match def_of(out[i - 1]) {
            Some(y) => {
                assert(scope_after(e, out, i) == prev.push((y.base, y.version)));
                assert(prev.push((y.base, y.version)).drop_last() == prev);
            },
            None => {},
        }
        lemma_scope_none(e, out, stmts, i - 1, x);
        assert(same_shape(stmts[i - 1], out[i - 1]));
    }
}

/// Two lists of variables with the same base names in the same order.
pub open spec fn same_bases(a: Seq<VariableName>, b: Seq<VariableName>) -> bool {
    a.len() == b.len() && forall|i: int| 0 <= i < a.len() ==> (#[trigger] a[i]).base == b[i].base
}

/// Two lists of phi arguments alike but for the versions.
pub open spec fn same_arguments(a: Seq<PhiArgument>, b: Seq<PhiArgument>) -> bool {
    a.len() == b.len() && forall|i: int| 0 <= i < a.len() ==> (#[trigger] a[i]).predecessor == b[i].predecessor
        && a[i].variable.base == b[i].variable.base
}

/// Two statements alike but for the versions of their variables.
pub open spec fn same_shape(a: Statement, b: Statement) -> bool {
    match (a, b) {
        (Statement::Assign { target: t1, uses: u1 }, Statement::Assign { target: t2, uses: u2 }) =>
            t1.base == t2.base && same_bases(u1@, u2@),
        (Statement::Effect { uses: u1 }, Statement::Effect { uses: u2 }) => same_bases(u1@, u2@),
        (Statement::Phi { target: t1, arguments: a1 }, Statement::Phi { target: t2, arguments: a2 }) =>
            t1.base == t2.base && same_arguments(a1@, a2@),
        _ => false,
    }
}

/// Two lists of statements alike but for versions.
pub open spec fn same_shapes(a: Seq<Statement>, b: Seq<Statement>) -> bool {
    a.len() == b.len() && forall|i: int| 0 <= i < a.len() ==> same_shape(#[trigger] a[i], b[i])
}

/// The version in scope for base name `v`.
fn find(e: &Vec<(usize, usize)>, v: usize) -> (r: Option<usize>)
    ensures
        r == lookup(e@, v),
{
    let mut i: usize = e.len();
    assert(e@.take(i as int) == e@);
    while i > 0
        invariant
            0 <= i <= e@.len(),
            lookup(e@, v) == lookup(e@.take(i as int), v),
        decreases i,
    {
        assert(e@.take(i as int).drop_last() == e@.take(i - 1));
        if e[i - 1].0 == v {
            return Some(e[i - 1].1);
        }
        i = i - 1;
    }
    None
}

/// A copy of an association list.
fn copy_pairs(e: &Vec<(usize, usize)>) -> (r: Vec<(usize, usize)>)
    ensures
        r@ == e@,
{
    let mut r: Vec<(usize, usize)> = Vec::new();
    let mut i: usize = 0;
    while i < e.len()
        invariant
            0 <= i <= e@.len(),
            r@ == e@.take(i as int),
        decreases e@.len() - i,
    {
        r.push(e[i]);
        assert(e@.take(i + 1) == e@.take(i as int).push(e@[i as int]));
        i = i + 1;
    }
    assert(e@.take(i as int) == e@);
    r
}

/// A fresh version for base name `v`: one more than the last one given.
fn fresh_version(counters: &mut Vec<(usize, usize)>, v: usize) -> (r: Result<usize, SsaError>)
    ensures
        r is Ok ==> r->Ok_0 == count(old(counters)@, v) + 1 && count(final(counters)@, v) == r->Ok_0,
        r is Ok ==> forall|w: usize| w != v ==> #[trigger] count(final(counters)@, w) == count(old(counters)@, w),
        r is Err ==> r == Err::<usize, SsaError>(SsaError::VersionOverflow { variable: v }) && final(counters)@ == old(counters)@
            && count(old(counters)@, v) == usize::MAX,
{
    let last = find(counters, v);
    let next = match last {
        Some(n) => {
            if n == usize::MAX {
                return Err(SsaError::VersionOverflow { variable: v });
            }
            n + 1
        },
        None => 1,
    };
    let ghost before = counters@;
    counters.push((v, next));
    assert(counters@.drop_last() == before);
    Ok(next)
}

/// The variables `uses` at the versions in scope in `e`.
fn rename_uses(uses: &Vec<VariableName>, e: &Vec<(usize, usize)>, block: usize) -> (r: Result<Vec<VariableName>, SsaError>)
    ensures
        r is Ok ==> same_bases(uses@, r->Ok_0@),
        r is Ok ==> forall|i: int| 0 <= i < uses@.len() ==> lookup(e@, #[trigger] uses@[i].base) == Some(r->Ok_0@[i].version),
        r is Ok ==> in_scope(e@, r->Ok_0@),
        r is Err <==> exists|i: int| 0 <= i < uses@.len() && lookup(e@, #[trigger] uses@[i].base) is None,
        r is Err ==> exists|i: int| 0 <= i < uses@.len() && lookup(e@, #[trigger] uses@[i].base) is None
            && r == Err::<Vec<VariableName>, SsaError>(SsaError::UnboundUse { variable: uses@[i].base, block }),
{
    let mut out: Vec<VariableName> = Vec::new();
    let mut i: usize = 0;
    while i < uses.len()
        invariant
            0 <= i <= uses@.len(),
            out@.len() == i,
            forall|j: int| 0 <= j < i ==> (#[trigger] out@[j]).base == uses@[j].base,
            forall|j: int| 0 <= j < i ==> lookup(e@, #[trigger] uses@[j].base) == Some(out@[j].version),
        decreases uses@.len() - i,
    {
        let u = uses[i];
        match find(e, u.base) {
            Some(ver) => out.push(u.with_version(ver)),
            None => {
                return Err(SsaError::UnboundUse { variable: u.base, block });
            },
        }
        i = i + 1;
    }
    Ok(out)
}


fn copy_arguments(a: &Vec<PhiArgument>) -> (r: Vec<PhiArgument>)
    ensures
        r@ == a@,
{
    let mut r: Vec<PhiArgument> = Vec::new();
    let mut i: usize = 0;
    while i < a.len()
        invariant
            0 <= i <= a@.len(),
            r@ == a@.take(i as int),
        decreases a@.len() - i,
    {
        r.push(a[i]);
        assert(a@.take(i + 1) == a@.take(i as int).push(a@[i as int]));
        i = i + 1;
    }
    assert(a@.take(i as int) == a@);
    r
}

proof fn lemma_scope_prefix(e: Seq<(usize, usize)>, a: Seq<Statement>, b: Seq<Statement>, j: int)
    requires
        0 <= j <= a.len() <= b.len(),
        forall|k: int| 0 <= k < a.len() ==> a[k] == b[k],
    ensures
        scope_after(e, a, j) == scope_after(e, b, j),
    decreases j,
{
    if j > 0 {
        lemma_scope_prefix(e, a, b, j - 1);
    }
}

/// Renames the statements of one block: each use takes the version in scope,
/// each definition a fresh version, which then comes into scope.
fn rename_block(
    stmts: &Vec<Statement>,
    env: &mut Vec<(usize, usize)>,
    counters: &mut Vec<(usize, usize)>,
    block: usize,
) -> (r: Result<Vec<Statement>, SsaError>)
    ensures
        r is Ok ==> same_shapes(stmts@, r->Ok_0@),
        r is Ok ==> fresh_defs(r->Ok_0@, |w: usize| count(old(counters)@, w), |w: usize| count(final(counters)@, w)),
        r is Ok ==> uses_in_scope(old(env)@, r->Ok_0@) && final(env)@ == scope_after(old(env)@, r->Ok_0@, stmts@.len() as int),
        r is Ok ==> forall|i: int| 0 <= i < stmts@.len() ==> same_phi_arguments(stmts@[i], #[trigger] r->Ok_0@[i]),
        forall|w: usize| #[trigger] count(final(counters)@, w) >= count(old(counters)@, w),
        forall|w: usize| #[trigger] count(final(counters)@, w) <= count(old(counters)@, w) + stmts@.len(),
        final(env)@.len() >= old(env)@.len() && final(env)@.take(old(env)@.len() as int) == old(env)@,
        r is Err ==> r->Err_0 is VersionOverflow || r->Err_0 is UnboundUse,
        r is Err && r->Err_0 is UnboundUse ==> r->Err_0->UnboundUse_block == block
            && exists|i: int| unbound_at(old(env)@, stmts@, i, r->Err_0->UnboundUse_variable),
        r is Err && r->Err_0 is VersionOverflow ==> count(old(counters)@, r->Err_0->VersionOverflow_variable) + stmts@.len() > usize::MAX,
{
    let ghost c0 = counters@;
    let ghost e0 = env@;
    let mut out: Vec<Statement> = Vec::new();
    let mut i: usize = 0;
    while i < stmts.len()
        invariant
            0 <= i <= stmts@.len(),
            out@.len() == i,
            forall|j: int| 0 <= j < i ==> same_shape(#[trigger] stmts@[j], out@[j]),
            c0 == old(counters)@,
            e0 == old(env)@,
            forall|w: usize| #[trigger] count(counters@, w) >= count(c0, w),
            forall|w: usize| #[trigger] count(counters@, w) <= count(c0, w) + i,
            fresh_defs(out@, |w: usize| count(c0, w), |w: usize| count(counters@, w)),
            env@ == scope_after(e0, out@, i as int),
            uses_in_scope(e0, out@),
            forall|j: int| 0 <= j < i ==> same_phi_arguments(stmts@[j], #[trigger] out@[j]),
            env@.len() >= e0.len() && env@.take(e0.len() as int) == e0,
        decreases stmts@.len() - i,
    {
        let ghost env_i = env@;
        let s = match &stmts[i] {
            Statement::Phi { target, arguments } => {
                let ver = match fresh_version(counters, target.base) {
                    Ok(v) => v,
                    Err(e) => { return Err(e); },
                };
                env.push((target.base, ver));
                Statement::Phi { target: target.with_version(ver), arguments: copy_arguments(arguments) }
            },
            Statement::Assign { target, uses } => {
                let new_uses = match rename_uses(uses, env, block) {
                    Ok(u) => u,
                    Err(e) => {
                        proof {
                            let k = choose|k: int| 0 <= k < uses@.len() && lookup(env_i, #[trigger] uses@[k].base) is None
                                && e == SsaError::UnboundUse { variable: uses@[k].base, block };
                            let x = uses@[k].base;
                            lemma_scope_none(e0, out@, stmts@, i as int, x);
                            assert(stmt_uses(stmts@[i as int]) == uses@);
                            assert(uses_base(uses@, x));
                            assert(unbound_at(e0, stmts@, i as int, x));
                            assert(exists|j: int| unbound_at(old(env)@, stmts@, j, x));
                            assert(e is UnboundUse && e->UnboundUse_variable == x && e->UnboundUse_block == block);
                        }
                        return Err(e);
                    },
                };
                let ver = match fresh_version(counters, target.base) {
                    Ok(v) => v,
                    Err(e) => { return Err(e); },
                };
                env.push((target.base, ver));
                Statement::Assign { target: target.with_version(ver), uses: new_uses }
            },
            Statement::Effect { uses } => {
                let new_uses = match rename_uses(uses, env, block) {
                    Ok(u) => u,
                    Err(e) => {
                        proof {
                            let k = choose|k: int| 0 <= k < uses@.len() && lookup(env_i, #[trigger] uses@[k].base) is None
                                && e == SsaError::UnboundUse { variable: uses@[k].base, block };
                            let x = uses@[k].base;
                            lemma_scope_none(e0, out@, stmts@, i as int, x);
                            assert(stmt_uses(stmts@[i as int]) == uses@);
                            assert(uses_base(uses@, x));
                            assert(unbound_at(e0, stmts@, i as int, x));
                            assert(exists|j: int| unbound_at(old(env)@, stmts@, j, x));
                            assert(e is UnboundUse && e->UnboundUse_variable == x && e->UnboundUse_block == block);
                        }
                        return Err(e);
                    },
                };
                Statement::Effect { uses: new_uses }
            },
        };
        let ghost before = out@;
        out.push(s);
        proof {
            assert forall|j: int| 0 <= j < i ==> out@[j] == before[j] by {}
            assert forall|j: int| 0 <= j <= i implies scope_after(e0, out@, j) == scope_after(e0, before, j) by {
                lemma_scope_prefix(e0, before, out@, j);
            }
            assert(env@ == scope_after(e0, out@, i + 1));
            assert forall|j: int| 0 <= j < out@.len() && !(out@[j] is Phi) implies in_scope(scope_after(e0, out@, j), #[trigger] stmt_uses(out@[j])) by {
                if j < i {
                    assert(out@[j] == before[j]);
                } else {
                    assert(scope_after(e0, out@, j) == env_i);
                }
            }
        }
        i = i + 1;
    }
    assert(stmts@.len() == i);
    Ok(out)
}

/// In phi statement `s`, every argument for the edge from block `p` carries
/// the version that `e` has in scope for the phi's base name, where it has one.
pub open spec fn phi_edge_filled(s: Statement, p: usize, e: Seq<(usize, usize)>) -> bool {
    match s {
        Statement::Phi { target, arguments } => forall|k: int|
            0 <= k < arguments@.len() && (#[trigger] arguments@[k]).predecessor == p
                && arguments@[k].variable.base == target.base && lookup(e, target.base) is Some
                ==> arguments@[k].variable.version == lookup(e, target.base)->Some_0,
        _ => true,
    }
}

/// `b` is `a` but for the arguments of a phi statement for the edge from `p`.
pub open spec fn kept_but_edge(a: Statement, b: Statement, p: usize) -> bool {
    match (a, b) {
        (Statement::Phi { target: t1, arguments: a1 }, Statement::Phi { target: t2, arguments: a2 }) => {
            &&& t1 == t2
            &&& a1@.len() == a2@.len()
            &&& forall|k: int| 0 <= k < a1@.len() && (#[trigger] a1@[k]).predecessor != p ==> a2@[k] == a1@[k]
            &&& forall|k: int| 0 <= k < a1@.len() ==> (#[trigger] a2@[k]).predecessor == a1@[k].predecessor
        },
        _ => b == a,
    }
}

/// Phi statements keep their arguments and the base name of their target.
pub open spec fn same_phi_arguments(a: Statement, b: Statement) -> bool {
    match (a, b) {
        (Statement::Phi { target: t1, arguments: a1 }, Statement::Phi { target: t2, arguments: a2 }) =>
            t1.base == t2.base && a1@ == a2@,
        (Statement::Phi { .. }, _) => false,
        (_, Statement::Phi { .. }) => false,
        _ => true,
    }
}

proof fn lemma_edge_kept(a: Statement, b: Statement, p: usize, q: usize, e: Seq<(usize, usize)>)
    requires
        phi_edge_filled(a, q, e),
        kept_but_edge(a, b, p) && q != p || same_phi_arguments(a, b),
    ensures
        phi_edge_filled(b, q, e),
{
    match (a, b) {
        (Statement::Phi { target: t1, arguments: a1 }, Statement::Phi { target: t2, arguments: a2 }) => {
            assert forall|k: int| 0 <= k < a2@.len() && (#[trigger] a2@[k]).predecessor == q
                && a2@[k].variable.base == t2.base && lookup(e, t2.base) is Some
                implies a2@[k].variable.version == lookup(e, t2.base)->Some_0 by {
                assert(a1@[k].predecessor == q);
            }
        },
        _ => {},
    }
}

/// Every edge out of a visited block but `open` has been recorded in the phi
/// statements of its target: each argument for that edge carries the version
/// in scope at the end of the source block.
pub open spec fn edges_filled(bs: Seq<BasicBlock>, scopes: Seq<Seq<(usize, usize)>>, visited: Seq<bool>, open: int) -> bool {
    forall|p: int, j: int, i: int|
        0 <= p < bs.len() && visited[p] && p != open && 0 <= j < bs[p].successors@.len()
            && 0 <= bs[p].successors@[j] < bs.len() && 0 <= i < bs[bs[p].successors@[j] as int].stmts@.len()
            ==> phi_edge_filled(#[trigger] bs[bs[p].successors@[j] as int].stmts@[i], p as usize, scope_at_end(scopes[p], bs[p].stmts@))
}

proof fn lemma_edges_after_visit(
    ob: Seq<BasicBlock>,
    nb: Seq<BasicBlock>,
    os: Seq<Seq<(usize, usize)>>,
    ns: Seq<Seq<(usize, usize)>>,
    ov: Seq<bool>,
    nv: Seq<bool>,
    b: int,
)
    requires
        edges_filled(ob, os, ov, -1),
        0 <= b < ob.len(),
        nb.len() == ob.len(),
        os.len() == ob.len(),
        ov.len() == ob.len(),
        !ov[b],
        nv == ov.update(b, true),
        ns == os.update(b, ns[b]),
        forall|c: int| 0 <= c < ob.len() && c != b ==> #[trigger] nb[c] == ob[c],
        nb[b].successors@ == ob[b].successors@,
        nb[b].stmts@.len() == ob[b].stmts@.len(),
        forall|i: int| 0 <= i < ob[b].stmts@.len() ==> same_phi_arguments(ob[b].stmts@[i], #[trigger] nb[b].stmts@[i]),
    ensures
        edges_filled(nb, ns, nv, b),
{
    assert forall|p: int, j: int, i: int|
        0 <= p < nb.len() && nv[p] && p != b && 0 <= j < nb[p].successors@.len()
            && 0 <= nb[p].successors@[j] < nb.len() && 0 <= i < nb[nb[p].successors@[j] as int].stmts@.len()
            implies phi_edge_filled(#[trigger] nb[nb[p].successors@[j] as int].stmts@[i], p as usize, scope_at_end(ns[p], nb[p].stmts@)) by {
        assert(nb[p] == ob[p]);
        assert(ov[p]);
        let t = nb[p].successors@[j] as int;
        assert(phi_edge_filled(ob[ob[p].successors@[j] as int].stmts@[i], p as usize, scope_at_end(os[p], ob[p].stmts@)));
        if t == b {
            lemma_edge_kept(ob[t].stmts@[i], nb[t].stmts@[i], 0, p as usize, scope_at_end(os[p], ob[p].stmts@));
        } else {
            assert(nb[t] == ob[t]);
        }
    }
}

proof fn lemma_edges_after_fill(
    ob: Seq<BasicBlock>,
    nb: Seq<BasicBlock>,
    sc: Seq<Seq<(usize, usize)>>,
    v: Seq<bool>,
    b: int,
    t: int,
    k: int,
    env: Seq<(usize, usize)>,
)
    requires
        edges_filled(ob, sc, v, b),
        ob.len() <= usize::MAX,
        0 <= b < ob.len(),
        0 <= t < ob.len(),
        nb.len() == ob.len(),
        sc.len() == ob.len(),
        forall|c: int| 0 <= c < ob.len() && c != t ==> #[trigger] nb[c] == ob[c],
        nb[t].successors@ == ob[t].successors@,
        nb[t].stmts@.len() == ob[t].stmts@.len(),
        forall|c: int| 0 <= c < ob.len() ==> scope_at_end(sc[c], #[trigger] nb[c].stmts@) == scope_at_end(sc[c], ob[c].stmts@),
        forall|i: int| 0 <= i < ob[t].stmts@.len() ==> kept_but_edge(ob[t].stmts@[i], #[trigger] nb[t].stmts@[i], b as usize),
        forall|i: int| 0 <= i < ob[t].stmts@.len() ==> phi_edge_filled(#[trigger] nb[t].stmts@[i], b as usize, env),
        env == scope_at_end(sc[b], ob[b].stmts@),
        0 <= k < ob[b].successors@.len(),
        ob[b].successors@[k] == t,
        forall|j: int, i: int| 0 <= j < k && 0 <= ob[b].successors@[j] < ob.len() && 0 <= i < ob[ob[b].successors@[j] as int].stmts@.len()
            ==> phi_edge_filled(#[trigger] ob[ob[b].successors@[j] as int].stmts@[i], b as usize, env),
    ensures
        edges_filled(nb, sc, v, b),
        forall|j: int, i: int| 0 <= j < k + 1 && 0 <= nb[b].successors@[j] < nb.len() && 0 <= i < nb[nb[b].successors@[j] as int].stmts@.len()
            ==> phi_edge_filled(#[trigger] nb[nb[b].successors@[j] as int].stmts@[i], b as usize, env),
{
    assert(nb[b].successors@ == ob[b].successors@) by {
        if b != t {
            assert(nb[b] == ob[b]);
        }
    }
    assert forall|p: int, j: int, i: int|
        0 <= p < nb.len() && v[p] && p != b && 0 <= j < nb[p].successors@.len()
            && 0 <= nb[p].successors@[j] < nb.len() && 0 <= i < nb[nb[p].successors@[j] as int].stmts@.len()
            implies phi_edge_filled(#[trigger] nb[nb[p].successors@[j] as int].stmts@[i], p as usize, scope_at_end(sc[p], nb[p].stmts@)) by {
        assert(nb[p].successors@ == ob[p].successors@) by {
            if p != t {
                assert(nb[p] == ob[p]);
            }
        }
        let t2 = nb[p].successors@[j] as int;
        assert(scope_at_end(sc[p], nb[p].stmts@) == scope_at_end(sc[p], ob[p].stmts@));
        assert(phi_edge_filled(ob[ob[p].successors@[j] as int].stmts@[i], p as usize, scope_at_end(sc[p], ob[p].stmts@)));
        if t2 == t {
            lemma_edge_kept(ob[t].stmts@[i], nb[t].stmts@[i], b as usize, p as usize, scope_at_end(sc[p], ob[p].stmts@));
        } else {
            assert(nb[t2] == ob[t2]);
        }
    }
    assert forall|j: int, i: int| 0 <= j < k + 1 && 0 <= nb[b].successors@[j] < nb.len() && 0 <= i < nb[nb[b].successors@[j] as int].stmts@.len()
        implies phi_edge_filled(#[trigger] nb[nb[b].successors@[j] as int].stmts@[i], b as usize, env) by {
        let t2 = nb[b].successors@[j] as int;
        if t2 != t {
            assert(nb[t2] == ob[t2]);
            assert(phi_edge_filled(ob[ob[b].successors@[j] as int].stmts@[i], b as usize, env));
        }
    }
}

/// Records, in the phi statements of a successor of block `pred`, the
/// version in scope in `env` at the end of `pred`.
fn fill_phi_arguments(stmts: &mut Vec<Statement>, pred: usize, env: &Vec<(usize, usize)>)
    ensures
        same_shapes(old(stmts)@, final(stmts)@),
        forall|i: int| 0 <= i < old(stmts)@.len() ==> #[trigger] def_of(final(stmts)@[i]) == def_of(old(stmts)@[i]),
        forall|i: int| 0 <= i < old(stmts)@.len() && !(old(stmts)@[i] is Phi) ==> #[trigger] final(stmts)@[i] == old(stmts)@[i],
        forall|i: int| 0 <= i < old(stmts)@.len() ==> phi_edge_filled(#[trigger] final(stmts)@[i], pred, env@),
        forall|i: int| 0 <= i < old(stmts)@.len() ==> kept_but_edge(old(stmts)@[i], #[trigger] final(stmts)@[i], pred),
{
    let ghost start = stmts@;
    let mut i: usize = 0;
    while i < stmts.len()
        invariant
            0 <= i <= stmts@.len(),
            stmts@.len() == start.len(),
            forall|j: int| 0 <= j < stmts@.len() ==> same_shape(#[trigger] start[j], stmts@[j]),
            forall|j: int| 0 <= j < stmts@.len() ==> #[trigger] def_of(stmts@[j]) == def_of(start[j]),
            forall|j: int| 0 <= j < stmts@.len() && !(start[j] is Phi) ==> #[trigger] stmts@[j] == start[j],
            forall|j: int| 0 <= j < i ==> phi_edge_filled(#[trigger] stmts@[j], pred, env@),
            forall|j: int| 0 <= j < stmts@.len() ==> kept_but_edge(start[j], #[trigger] stmts@[j], pred),
            forall|j: int| i <= j < stmts@.len() ==> #[trigger] stmts@[j] == start[j],
        decreases stmts@.len() - i,
    {
        let updated = match &stmts[i] {
            Statement::Phi { target, arguments } => {
                let version = find(env, target.base);
                let mut args: Vec<PhiArgument> = Vec::new();
                let mut k: usize = 0;
                while k < arguments.len()
                    invariant
                        0 <= k <= arguments@.len(),
                        args@.len() == k,
                        version == lookup(env@, target.base),
                        forall|j: int| 0 <= j < k ==> (#[trigger] args@[j]).predecessor == arguments@[j].predecessor
                            && args@[j].variable.base == arguments@[j].variable.base,
                        forall|j: int| 0 <= j < k && arguments@[j].predecessor != pred ==> #[trigger] args@[j] == arguments@[j],
                        forall|j: int| 0 <= j < k && (#[trigger] args@[j]).predecessor == pred
                            && args@[j].variable.base == target.base && version is Some
                            ==> args@[j].variable.version == version->Some_0,
                    decreases arguments@.len() - k,
                {
                    let a = arguments[k];
                    let next = match version {
                        Some(ver) if a.predecessor == pred && a.variable.base == target.base =>
                            PhiArgument { predecessor: a.predecessor, variable: a.variable.with_version(ver) },
                        _ => a,
                    };
                    args.push(next);
                    k = k + 1;
                }
                Some(Statement::Phi { target: *target, arguments: args })
            },
            _ => None,
        };
        match updated {
            Some(s) => {
                let ghost before = stmts@;
                stmts.set(i, s);
                assert(same_shape(start[i as int], stmts@[i as int]));
                assert forall|j: int| 0 <= j < stmts@.len() implies same_shape(#[trigger] start[j], stmts@[j]) by {
                    if j != i {
                        assert(stmts@[j] == before[j]);
                    }
                }
                assert(same_shape(start[i as int], before[i as int]));
                assert forall|j: int| 0 <= j < stmts@.len() && !(start[j] is Phi) implies #[trigger] stmts@[j] == start[j] by {
                    if j != i {
                        assert(stmts@[j] == before[j]);
                    }
                }
                assert forall|j: int| 0 <= j < stmts@.len() implies #[trigger] def_of(stmts@[j]) == def_of(start[j]) by {
                    if j != i {
                        assert(stmts@[j] == before[j]);
                    } else {
                        assert(def_of(before[j]) == def_of(start[j]));
                        assert(def_of(stmts@[j]) == def_of(before[j]));
                    }
                }
            },
            None => {},
        }
        i = i + 1;
    }
}


pub proof fn lemma_same_shape_trans(a: Statement, b: Statement, c: Statement)
    requires
        same_shape(a, b),
        same_shape(b, c),
    ensures
        same_shape(a, c),
{
    match (a, b, c) {
        (Statement::Assign { uses: u1, .. }, Statement::Assign { uses: u2, .. }, Statement::Assign { uses: u3, .. }) => {
            assert(forall|i: int| 0 <= i < u1@.len() ==> (#[trigger] u1@[i]).base == u2@[i].base);
        },
        (Statement::Effect { uses: u1 }, Statement::Effect { uses: u2 }, Statement::Effect { uses: u3 }) => {
            assert(forall|i: int| 0 <= i < u1@.len() ==> (#[trigger] u1@[i]).base == u2@[i].base);
        },
        (Statement::Phi { arguments: a1, .. }, Statement::Phi { arguments: a2, .. }, Statement::Phi { arguments: a3, .. }) => {
            assert(forall|i: int| 0 <= i < a1@.len() ==> (#[trigger] a1@[i]).predecessor == a2@[i].predecessor);
        },
        _ => {},
    }
}

/// Index and adjacency of every block are unchanged, and its statements are
/// alike but for versions.
pub open spec fn renamed_from(o: Seq<BasicBlock>, n: Seq<BasicBlock>) -> bool {
    &&& n.len() == o.len()
    &&& forall|b: int| 0 <= b < o.len() ==> same_frame(#[trigger] n[b], o[b])
    &&& forall|b: int| 0 <= b < o.len() ==> same_shapes(o[b].stmts@, #[trigger] n[b].stmts@)
    &&& forall|b: int| 0 <= b < o.len() ==> (#[trigger] n[b]).variables_defined@ == o[b].variables_defined@
    &&& forall|b: int| 0 <= b < o.len() ==> (#[trigger] n[b]).variables_used@ == o[b].variables_used@
}

/// Every successor index names a block.
pub open spec fn successors_wf(blocks: Seq<BasicBlock>) -> bool {
    forall|b: int, k: int| 0 <= b < blocks.len() && 0 <= k < blocks[b].successors@.len()
        ==> #[trigger] blocks[b].successors@[k] < blocks.len()
}

/// The variable defined at statement `i` of block `b`, if any.
pub open spec fn site_def(bs: Seq<BasicBlock>, b: int, i: int) -> Option<VariableName> {
    def_of(bs[b].stmts@[i])
}

pub open spec fn is_site(bs: Seq<BasicBlock>, b: int, i: int) -> bool {
    0 <= b < bs.len() && 0 <= i < bs[b].stmts@.len()
}

/// Blocks not yet visited keep their definitions; definitions in visited
/// blocks have versions given out by `counters`, no two of them alike.
pub open spec fn naming_inv(orig: Seq<BasicBlock>, bs: Seq<BasicBlock>, visited: Seq<bool>, counters: Seq<(usize, usize)>) -> bool {
    &&& forall|b: int, i: int| is_site(bs, b, i) && !visited[b] ==> #[trigger] site_def(bs, b, i) == site_def(orig, b, i)
    &&& forall|b: int, i: int| is_site(bs, b, i) && visited[b] && (#[trigger] site_def(bs, b, i)) is Some ==> {
        let x = site_def(bs, b, i)->Some_0;
        1 <= x.version <= count(counters, x.base)
    }
    &&& forall|b1: int, i1: int, b2: int, i2: int|
        is_site(bs, b1, i1) && is_site(bs, b2, i2) && visited[b1] && visited[b2] && (b1 != b2 || i1 != i2)
            && (#[trigger] site_def(bs, b1, i1)) is Some ==> site_def(bs, b1, i1) != #[trigger] site_def(bs, b2, i2)
}

proof fn lemma_naming_after_visit(
    orig: Seq<BasicBlock>,
    ob: Seq<BasicBlock>,
    nb: Seq<BasicBlock>,
    ov: Seq<bool>,
    nv: Seq<bool>,
    c0: Seq<(usize, usize)>,
    c1: Seq<(usize, usize)>,
    b: int,
)
    requires
        naming_inv(orig, ob, ov, c0),
        0 <= b < ob.len(),
        ov.len() == ob.len(),
        nb.len() == ob.len(),
        !ov[b],
        nv == ov.update(b, true),
        forall|c: int| 0 <= c < ob.len() && c != b ==> #[trigger] nb[c] == ob[c],
        fresh_defs(nb[b].stmts@, |w: usize| count(c0, w), |w: usize| count(c1, w)),
        forall|w: usize| #[trigger] count(c1, w) >= count(c0, w),
    ensures
        naming_inv(orig, nb, nv, c1),
{
    let lo = |w: usize| count(c0, w);
    let hi = |w: usize| count(c1, w);
    assert forall|c: int, i: int| is_site(nb, c, i) && !nv[c] implies #[trigger] site_def(nb, c, i) == site_def(orig, c, i) by {
        assert(nb[c] == ob[c]);
        assert(site_def(ob, c, i) == site_def(orig, c, i));
    }
    assert forall|c: int, i: int| is_site(nb, c, i) && nv[c] && (#[trigger] site_def(nb, c, i)) is Some implies {
        let x = site_def(nb, c, i)->Some_0;
        1 <= x.version <= count(c1, x.base)
    } by {
        let x = site_def(nb, c, i)->Some_0;
        if c == b {
            assert(def_of(nb[b].stmts@[i]) is Some);
            assert(lo(x.base) < x.version <= hi(x.base));
        } else {
            assert(nb[c] == ob[c]);
            assert(site_def(ob, c, i) is Some);
            assert(count(c1, x.base) >= count(c0, x.base));
        }
    }
    assert forall|b1: int, i1: int, b2: int, i2: int|
        is_site(nb, b1, i1) && is_site(nb, b2, i2) && nv[b1] && nv[b2] && (b1 != b2 || i1 != i2)
            && (#[trigger] site_def(nb, b1, i1)) is Some implies site_def(nb, b1, i1) != #[trigger] site_def(nb, b2, i2) by {
        let x = site_def(nb, b1, i1)->Some_0;
        if b1 == b && b2 == b {
            if i1 < i2 {
                assert(def_of(nb[b].stmts@[i1]) is Some);
            } else {
                assert(def_of(nb[b].stmts@[i2]) == def_of(nb[b].stmts@[i1]) ==> def_of(nb[b].stmts@[i2]) is Some);
                if def_of(nb[b].stmts@[i2]) is Some {
                    assert(def_of(nb[b].stmts@[i2]) != def_of(nb[b].stmts@[i1]));
                }
            }
        } else if b1 == b {
            assert(nb[b2] == ob[b2]);
            assert(lo(x.base) < x.version);
            if site_def(nb, b2, i2) == site_def(nb, b1, i1) {
                assert(site_def(ob, b2, i2) is Some);
                assert(x.version <= count(c0, x.base));
            }
        } else if b2 == b {
            assert(nb[b1] == ob[b1]);
            assert(site_def(ob, b1, i1) is Some);
            assert(x.version <= count(c0, x.base));
            if site_def(nb, b2, i2) is Some {
                let y = site_def(nb, b2, i2)->Some_0;
                assert(def_of(nb[b].stmts@[i2]) is Some);
                assert(lo(y.base) < y.version);
            }
        } else {
            assert(nb[b1] == ob[b1]);
            assert(nb[b2] == ob[b2]);
            assert(site_def(ob, b1, i1) is Some);
            assert(site_def(ob, b1, i1) != site_def(ob, b2, i2));
        }
    }
}

proof fn lemma_naming_after_fill(
    orig: Seq<BasicBlock>,
    ob: Seq<BasicBlock>,
    nb: Seq<BasicBlock>,
    v: Seq<bool>,
    c: Seq<(usize, usize)>,
    t: int,
)
    requires
        naming_inv(orig, ob, v, c),
        0 <= t < ob.len(),
        nb.len() == ob.len(),
        forall|d: int| 0 <= d < ob.len() && d != t ==> #[trigger] nb[d] == ob[d],
        nb[t].stmts@.len() == ob[t].stmts@.len(),
        forall|i: int| 0 <= i < ob[t].stmts@.len() ==> #[trigger] def_of(nb[t].stmts@[i]) == def_of(ob[t].stmts@[i]),
    ensures
        naming_inv(orig, nb, v, c),
{
    assert forall|d: int, i: int| is_site(nb, d, i) implies #[trigger] site_def(nb, d, i) == site_def(ob, d, i) && is_site(ob, d, i) by {
        if d != t {
            assert(nb[d] == ob[d]);
        } else {
            assert(def_of(nb[t].stmts@[i]) == def_of(ob[t].stmts@[i]));
        }
    }
    assert forall|b1: int, i1: int, b2: int, i2: int|
        is_site(nb, b1, i1) && is_site(nb, b2, i2) && v[b1] && v[b2] && (b1 != b2 || i1 != i2)
            && (#[trigger] site_def(nb, b1, i1)) is Some implies site_def(nb, b1, i1) != #[trigger] site_def(nb, b2, i2) by {
        assert(site_def(nb, b1, i1) == site_def(ob, b1, i1) && is_site(ob, b1, i1));
        assert(site_def(nb, b2, i2) == site_def(ob, b2, i2) && is_site(ob, b2, i2));
    }
}

/// Every parameter's base name has a version in scope in `e`.
pub open spec fn params_in_scope(e: Seq<(usize, usize)>, params: Seq<VariableName>) -> bool {
    forall|j: int| 0 <= j < params.len() ==> lookup(e, #[trigger] params[j].base) is Some
}

/// Blocks not yet visited keep their ordinary statements.
pub open spec fn kept_ordinary(orig: Seq<BasicBlock>, bs: Seq<BasicBlock>, visited: Seq<bool>) -> bool {
    forall|b: int, i: int| 0 <= b < orig.len() && 0 <= i < orig[b].stmts@.len() && !visited[b]
        && !(orig[b].stmts@[i] is Phi) ==> #[trigger] bs[b].stmts@[i] == orig[b].stmts@[i]
}

/// Statement `i` of `stmts` is an ordinary statement that uses base name `x`,
/// and no earlier statement of `stmts` defines `x`.
pub open spec fn use_without_local_def(stmts: Seq<Statement>, i: int, x: usize) -> bool {
    &&& 0 <= i < stmts.len()
    &&& !(stmts[i] is Phi)
    &&& uses_base(stmt_uses(stmts[i]), x)
    &&& undefined_before(stmts, i, x)
}

proof fn lemma_lookup_extends(e: Seq<(usize, usize)>, f: Seq<(usize, usize)>, x: usize)
    requires
        f.len() >= e.len(),
        f.take(e.len() as int) == e,
        lookup(e, x) is Some,
    ensures
        lookup(f, x) is Some,
    decreases f.len(),
{
    if f.len() > e.len() && f.last().0 != x {
        assert(f.drop_last().take(e.len() as int) == e);
        lemma_lookup_extends(e, f.drop_last(), x);
    } else if f.len() == e.len() {
        assert(f == e);
    }
}

/// The number of statements in the first `n` blocks that `vis` marks.
pub open spec fn stmts_in(bs: Seq<BasicBlock>, vis: Seq<bool>, n: int) -> nat
    decreases n,
{
    if n <= 0 {
        0
    } else {
        stmts_in(bs, vis, n - 1) + if vis[n - 1] {
            bs[n - 1].stmts@.len()
        } else {
            0nat
        }
    }
}

/// The number of statements in the first `n` blocks.
pub open spec fn stmts_upto(bs: Seq<BasicBlock>, n: int) -> nat
    decreases n,
{
    if n <= 0 {
        0
    } else {
        stmts_upto(bs, n - 1) + bs[n - 1].stmts@.len()
    }
}

/// The number of statements in all blocks.
pub open spec fn total_stmts(bs: Seq<BasicBlock>) -> nat {
    stmts_upto(bs, bs.len() as int)
}

proof fn lemma_stmts_in_bounded(bs: Seq<BasicBlock>, vis: Seq<bool>, n: int)
    ensures
        stmts_in(bs, vis, n) <= stmts_upto(bs, n),
    decreases n,
{
    if n > 0 {
        lemma_stmts_in_bounded(bs, vis, n - 1);
    }
}

proof fn lemma_stmts_in_mark(bs: Seq<BasicBlock>, vis: Seq<bool>, b: int, n: int)
    requires
        0 <= b < vis.len(),
        n <= vis.len(),
        !vis[b],
    ensures
        stmts_in(bs, vis.update(b, true), n) == stmts_in(bs, vis, n) + if 0 <= b < n {
            bs[b].stmts@.len()
        } else {
            0nat
        },
    decreases n,
{
    if n > 0 {
        lemma_stmts_in_mark(bs, vis, b, n - 1);
    }
}

/// The scope at the end of a block whose statements are `stmts` and whose
/// scope at the start is `e`.
pub open spec fn scope_at_end(e: Seq<(usize, usize)>, stmts: Seq<Statement>) -> Seq<(usize, usize)> {
    scope_after(e, stmts, stmts.len() as int)
}

/// The scope at the start of the entry block: every parameter at the default version.
pub open spec fn param_scope(params: Seq<VariableName>) -> Seq<(usize, usize)> {
    params.map_values(|p: VariableName| (p.base, 0usize))
}

/// The blocks marked by `renamed` are renamed by the scopes `scopes`, the
/// scope at the start of each block: the entry is renamed, from the
/// parameters at the default version; every other renamed block starts with
/// the scope at the end of its immediate dominator, itself renamed; every
/// block whose immediate dominator is renamed is renamed; in a renamed block
/// each ordinary statement uses the versions in scope just before it; every
/// phi argument for an edge out of a renamed block carries the version in
/// scope at the end of that block; and the definitions of renamed blocks
/// carry versions above the default one, no two of them the same versioned name.
pub open spec fn renamed_by_scopes(
    bs: Seq<BasicBlock>,
    tree: DominatorTree,
    params: Seq<VariableName>,
    scopes: Seq<Seq<(usize, usize)>>,
    renamed: Seq<bool>,
) -> bool {
    let entry = tree.spec_entry();
    let idoms = tree.spec_idoms();
    &&& scopes.len() == bs.len() && renamed.len() == bs.len()
    &&& renamed[entry]
    &&& scopes[entry] == param_scope(params)
    &&& forall|b: int| 0 <= b < bs.len() && #[trigger] renamed[b] ==> uses_in_scope(scopes[b], bs[b].stmts@)
    &&& forall|b: int| 0 <= b < bs.len() && #[trigger] renamed[b] && b != entry ==> {
        &&& idoms[b] is Some
        &&& renamed[idoms[b]->Some_0 as int]
        &&& scopes[b] == scope_at_end(scopes[idoms[b]->Some_0 as int], bs[idoms[b]->Some_0 as int].stmts@)
    }
    &&& forall|c: int| 0 <= c < bs.len() && (#[trigger] idoms[c]) is Some && renamed[idoms[c]->Some_0 as int]
        ==> renamed[c]
    &&& edges_filled(bs, scopes, renamed, -1)
    &&& forall|b: int, i: int| is_site(bs, b, i) && renamed[b] && (#[trigger] site_def(bs, b, i)) is Some
        ==> site_def(bs, b, i)->Some_0.version >= 1
    &&& forall|b1: int, i1: int, b2: int, i2: int|
        is_site(bs, b1, i1) && is_site(bs, b2, i2) && renamed[b1] && renamed[b2] && (b1 != b2 || i1 != i2)
            && (#[trigger] site_def(bs, b1, i1)) is Some ==> site_def(bs, b1, i1) != #[trigger] site_def(bs, b2, i2)
}

/// A stack entry: block `c` to visit with scope `env`, which is either the
/// parameter scope of the entry or the scope at the end of `c`'s visited
/// immediate dominator.
pub open spec fn entry_ok(
    bs: Seq<BasicBlock>,
    tree: DominatorTree,
    params: Seq<VariableName>,
    scopes: Seq<Seq<(usize, usize)>>,
    visited: Seq<bool>,
    c: int,
    env: Seq<(usize, usize)>,
) -> bool {
    let p = tree.spec_idoms()[c];
    ||| c == tree.spec_entry() && env == param_scope(params)
    ||| p is Some && visited[p->Some_0 as int] && env == scope_at_end(scopes[p->Some_0 as int], bs[p->Some_0 as int].stmts@)
}

pub open spec fn on_stack(stack: Seq<(usize, Vec<(usize, usize)>)>, c: int) -> bool {
    exists|j: int| 0 <= j < stack.len() && (#[trigger] stack[j]).0 == c
}

/// The state of the preorder walk: every visited block is renamed by its
/// scope, and every block whose immediate dominator is visited (but for
/// `open`, whose children are being pushed) is visited or waits on the stack.
pub open spec fn walk_inv(
    bs: Seq<BasicBlock>,
    tree: DominatorTree,
    params: Seq<VariableName>,
    scopes: Seq<Seq<(usize, usize)>>,
    visited: Seq<bool>,
    stack: Seq<(usize, Vec<(usize, usize)>)>,
    open: int,
) -> bool {
    let entry = tree.spec_entry();
    let idoms = tree.spec_idoms();
    &&& scopes.len() == bs.len()
    &&& forall|j: int| 0 <= j < stack.len() ==> entry_ok(bs, tree, params, scopes, visited, (#[trigger] stack[j]).0 as int, stack[j].1@)
    &&& forall|b: int| 0 <= b < bs.len() && #[trigger] visited[b] ==> uses_in_scope(scopes[b], bs[b].stmts@)
    &&& forall|b: int| 0 <= b < bs.len() && #[trigger] visited[b] && b != entry ==> {
        &&& idoms[b] is Some
        &&& visited[idoms[b]->Some_0 as int]
        &&& scopes[b] == scope_at_end(scopes[idoms[b]->Some_0 as int], bs[idoms[b]->Some_0 as int].stmts@)
    }
    &&& visited[entry] ==> scopes[entry] == param_scope(params)
    &&& visited[entry] || on_stack(stack, entry)
    &&& forall|c: int| 0 <= c < bs.len() && (#[trigger] idoms[c]) is Some && visited[idoms[c]->Some_0 as int]
        && idoms[c]->Some_0 != open ==> visited[c] || on_stack(stack, c)
}

proof fn lemma_entry_has_no_idom(tree: DominatorTree)
    requires
        tree.wf(),
    ensures
        tree.spec_idoms()[tree.spec_entry()] is None,
{
    let e = tree.spec_entry();
    assert(idom_of(tree.spec_doms(), e, tree.spec_idoms()[e]));
    if tree.spec_idoms()[e] is Some {
        let m = tree.spec_idoms()[e]->Some_0 as int;
        assert(tree.spec_doms()[e][m] == (m == e));
    }
}

proof fn lemma_scope_same_defs(e: Seq<(usize, usize)>, a: Seq<Statement>, b: Seq<Statement>, i: int)
    requires
        0 <= i <= a.len(),
        a.len() == b.len(),
        forall|j: int| 0 <= j < a.len() ==> #[trigger] def_of(a[j]) == def_of(b[j]),
    ensures
        scope_after(e, a, i) == scope_after(e, b, i),
    decreases i,
{
    if i > 0 {
        lemma_scope_same_defs(e, a, b, i - 1);
        assert(def_of(a[i - 1]) == def_of(b[i - 1]));
    }
}

proof fn lemma_uses_in_scope_kept(e: Seq<(usize, usize)>, a: Seq<Statement>, b: Seq<Statement>)
    requires
        uses_in_scope(e, a),
        same_shapes(a, b),
        forall|j: int| 0 <= j < a.len() ==> #[trigger] def_of(b[j]) == def_of(a[j]),
        forall|j: int| 0 <= j < a.len() && !(a[j] is Phi) ==> #[trigger] b[j] == a[j],
    ensures
        uses_in_scope(e, b),
{
    assert forall|i: int| 0 <= i < b.len() && !(b[i] is Phi) implies in_scope(scope_after(e, b, i), #[trigger] stmt_uses(b[i])) by {
        assert(same_shape(a[i], b[i]));
        assert(b[i] == a[i]);
        lemma_scope_same_defs(e, a, b, i);
        assert(in_scope(scope_after(e, a, i), stmt_uses(a[i])));
    }
}

/// Every definition is at the default version, as before renaming.
pub open spec fn defaults_only(bs: Seq<BasicBlock>) -> bool {
    forall|b: int, i: int| is_site(bs, b, i) && (#[trigger] site_def(bs, b, i)) is Some
        ==> site_def(bs, b, i)->Some_0.version == 0
}

/// No two definitions of the blocks give the same variable a version other
/// than the default one.
pub open spec fn single_assignment(bs: Seq<BasicBlock>) -> bool {
    forall|b1: int, i1: int, b2: int, i2: int|
        is_site(bs, b1, i1) && is_site(bs, b2, i2) && (b1 != b2 || i1 != i2)
            && (#[trigger] site_def(bs, b1, i1)) is Some && site_def(bs, b1, i1) == #[trigger] site_def(bs, b2, i2)
            ==> site_def(bs, b1, i1)->Some_0.version == 0
}

/// Phase two of the conversion into SSA form: visits the blocks in preorder
/// of the dominator tree from the entry, with the parameters in scope at the
/// default version, renames the statements of each block, and records in the
/// phi statements of its successors the versions in scope at its end.
/// Fails on the first use of a variable with no version in scope.
#[verifier::rlimit(60)]
pub fn insert_ssa_variables(
    blocks: &mut Vec<BasicBlock>,
    tree: &DominatorTree,
    params: &Vec<VariableName>,
) -> (r: Result<(), SsaError>)
    requires
        tree.wf(),
        old(blocks)@.len() == tree.len(),
        successors_wf(old(blocks)@),
    ensures
        renamed_from(old(blocks)@, final(blocks)@),
        r is Err ==> r->Err_0 is UnboundUse || r->Err_0 is VersionOverflow,
        r is Err && r->Err_0 is UnboundUse ==> r->Err_0->UnboundUse_block < old(blocks)@.len(),
        r is Ok ==> forall|b: int, i: int| is_site(final(blocks)@, b, i) && (#[trigger] site_def(final(blocks)@, b, i)) is Some
            ==> site_def(final(blocks)@, b, i) == site_def(old(blocks)@, b, i) || site_def(final(blocks)@, b, i)->Some_0.version >= 1,
        r is Ok && defaults_only(old(blocks)@) ==> single_assignment(final(blocks)@),
        r is Ok ==> exists|scopes: Seq<Seq<(usize, usize)>>, renamed: Seq<bool>|
            renamed_by_scopes(final(blocks)@, *tree, params@, scopes, renamed),
        r is Err && r->Err_0 is VersionOverflow ==> total_stmts(old(blocks)@) > usize::MAX,
        r is Err && r->Err_0 is UnboundUse ==> ({
            let x = r->Err_0->UnboundUse_variable;
            let u = r->Err_0->UnboundUse_block as int;
            &&& exists|i: int| use_without_local_def(old(blocks)@[u].stmts@, i, x)
            &&& forall|j: int| 0 <= j < params@.len() ==> #[trigger] params@[j].base != x
        }),
{
    let ghost orig = blocks@;
    let len = blocks.len();
    let mut env: Vec<(usize, usize)> = Vec::new();
    let mut i: usize = 0;
    while i < params.len()
        invariant
            0 <= i <= params@.len(),
            forall|j: int| 0 <= j < i ==> lookup(env@, #[trigger] params@[j].base) is Some,
            env@ == param_scope(params@.take(i as int)),
        decreases params@.len() - i,
    {
        let ghost before = env@;
        env.push((params[i].base, 0));
        assert(param_scope(params@.take(i + 1)) =~= param_scope(params@.take(i as int)).push((params@[i as int].base, 0usize)));
        proof {
            assert(env@.drop_last() == before);
            assert forall|j: int| 0 <= j < i implies lookup(env@, #[trigger] params@[j].base) is Some by {
                assert(env@.take(before.len() as int) == before);
                lemma_lookup_extends(before, env@, params@[j].base);
            }
        }
        i = i + 1;
    }
    assert(params@.take(params@.len() as int) == params@);
    let ghost mut scopes: Seq<Seq<(usize, usize)>> = Seq::new(len as nat, |i: int| Seq::<(usize, usize)>::empty());
    let mut counters: Vec<(usize, usize)> = Vec::new();
    let mut visited: Vec<bool> = Vec::new();
    let mut i: usize = 0;
    while i < len
        invariant
            0 <= i <= len,
            visited@.len() == i,
            forall|j: int| 0 <= j < i ==> !#[trigger] visited@[j],
        decreases len - i,
    {
        visited.push(false);
        i = i + 1;
    }
    let mut stack: Vec<(usize, Vec<(usize, usize)>)> = Vec::new();
    stack.push((tree.get_entry(), env));
    assert(renamed_from(orig, blocks@)) by {
        assert forall|b: int| 0 <= b < orig.len() implies same_shapes(orig[b].stmts@, #[trigger] blocks@[b].stmts@) by {
            assert forall|j: int| 0 <= j < orig[b].stmts@.len() implies same_shape(#[trigger] orig[b].stmts@[j], blocks@[b].stmts@[j]) by {
                let s = orig[b].stmts@[j];
                match s {
                    Statement::Assign { target, uses } => { assert(same_bases(uses@, uses@)); },
                    Statement::Effect { uses } => { assert(same_bases(uses@, uses@)); },
                    Statement::Phi { target, arguments } => { assert(same_arguments(arguments@, arguments@)); },
                }
            }
        }
    }
    assert(blocks@ == orig);
    assert(naming_inv(orig, blocks@, visited@, counters@));
    assert(kept_ordinary(orig, blocks@, visited@));
    proof {
        assert(stack@[0].0 == tree.spec_entry());
        assert(on_stack(stack@, tree.spec_entry()));
        lemma_entry_has_no_idom(*tree);
        assert(walk_inv(blocks@, *tree, params@, scopes, visited@, stack@, -1));
    }
    assert(edges_filled(blocks@, scopes, visited@, -1));
    while stack.len() > 0
        invariant
            walk_inv(blocks@, *tree, params@, scopes, visited@, stack@, -1),
            edges_filled(blocks@, scopes, visited@, -1),
            orig == old(blocks)@,
            kept_ordinary(orig, blocks@, visited@),
            forall|w: usize| #[trigger] count(counters@, w) <= stmts_in(orig, visited@, len as int),
            forall|j: int| 0 <= j < stack@.len() ==> params_in_scope((#[trigger] stack@[j]).1@, params@),
            naming_inv(orig, blocks@, visited@, counters@),
            len == orig.len(),
            len == tree.len(),
            tree.wf(),
            visited@.len() == len,
            successors_wf(orig),
            renamed_from(orig, blocks@),
            forall|j: int| 0 <= j < stack@.len() ==> (#[trigger] stack@[j]).0 < len,
        decreases len - count_true(visited@), stack@.len(),
    {
        proof { lemma_count_bound(visited@); }
        let ghost st = stack@;
        let (b, mut scope) = stack.pop().unwrap();
        assert(params_in_scope(st[st.len() - 1].1@, params@));
        assert(forall|j: int| 0 <= j < stack@.len() ==> stack@[j] == st[j]);
        assert(entry_ok(blocks@, *tree, params@, scopes, visited@, b as int, scope@));
        proof {
            lemma_entry_has_no_idom(*tree);
            assert forall|c: int| on_stack(st, c) && c != b implies on_stack(stack@, c) by {
                let j = choose|j: int| 0 <= j < st.len() && (#[trigger] st[j]).0 == c;
                assert(stack@[j] == st[j]);
            }
        }
        let ghost ov = visited@;
        if !visited[b] {
            visited.set(b, true);
            proof {
                lemma_count_le(ov, visited@);
                lemma_count_bound(visited@);
            }
            let ghost ob = blocks@;
            let ghost c0 = counters@;
            let ghost sc0 = scope@;
            assert(same_shapes(orig[b as int].stmts@, ob[b as int].stmts@));
            let old_stmts = blocks[b].take_statements();
            proof {
                lemma_stmts_in_mark(orig, ov, b as int, len as int);
                lemma_stmts_in_bounded(orig, visited@, len as int);
                assert(old_stmts@.len() == orig[b as int].stmts@.len());
            }
            let renamed = rename_block(&old_stmts, &mut scope, &mut counters, b);
            match renamed {
                Ok(new_stmts) => {
                    let ghost nst = new_stmts@;
                    let ghost os = scopes;
                    let ghost obl = blocks@;
                    blocks[b].set_statements(new_stmts);
                    proof {
                        scopes = scopes.update(b as int, sc0);
                        let entry = tree.spec_entry();
                        let idoms = tree.spec_idoms();
                        assert(blocks@[b as int].stmts@ == nst);
                        assert forall|c: int| 0 <= c < len && c != b implies #[trigger] blocks@[c] == obl[c] by {}
                        assert(scope@ == scope_at_end(scopes[b as int], blocks@[b as int].stmts@));
                        assert forall|j: int| 0 <= j < stack@.len() implies entry_ok(blocks@, *tree, params@, scopes, visited@, (#[trigger] stack@[j]).0 as int, stack@[j].1@) by {
                            assert(stack@[j] == st[j]);
                            assert(entry_ok(obl, *tree, params@, os, ov, st[j].0 as int, st[j].1@));
                            let pp = idoms[st[j].0 as int];
                            if pp is Some && ov[pp->Some_0 as int] {
                                assert(pp->Some_0 != b);
                            }
                        }
                        assert forall|c: int| 0 <= c < len && #[trigger] visited@[c] implies uses_in_scope(scopes[c], blocks@[c].stmts@) by {
                            if c != b {
                                assert(ov[c]);
                            }
                        }
                        assert forall|c: int| 0 <= c < len && #[trigger] visited@[c] && c != entry implies {
                            &&& idoms[c] is Some
                            &&& visited@[idoms[c]->Some_0 as int]
                            &&& scopes[c] == scope_at_end(scopes[idoms[c]->Some_0 as int], blocks@[idoms[c]->Some_0 as int].stmts@)
                        } by {
                            if c != b {
                                assert(ov[c]);
                                assert(idoms[c]->Some_0 != b);
                            } else {
                                assert(idoms[c]->Some_0 != b);
                            }
                        }
                        assert forall|c: int| 0 <= c < len && (#[trigger] idoms[c]) is Some && visited@[idoms[c]->Some_0 as int]
                            && idoms[c]->Some_0 != b implies visited@[c] || on_stack(stack@, c) by {
                            if c != b && !visited@[c] {
                                assert(on_stack(st, c));
                            }
                        }
                        if entry != b {
                            assert(visited@[entry] == ov[entry]);
                            if !ov[entry] {
                                assert(on_stack(st, entry));
                            }
                        }
                        assert(walk_inv(blocks@, *tree, params@, scopes, visited@, stack@, b as int));
                        assert(old_stmts@ == ob[b as int].stmts@);
                        assert(forall|c: int| 0 <= c < len && c != b ==> #[trigger] blocks@[c] == ob[c]);
                        lemma_edges_after_visit(ob, blocks@, os, scopes, ov, visited@, b as int);
                        assert forall|c: int| 0 <= c < len && c != b implies #[trigger] blocks@[c] == ob[c] by {}
                        lemma_naming_after_visit(orig, ob, blocks@, ov, visited@, c0, counters@, b as int);
                        assert forall|c: int, i: int| 0 <= c < orig.len() && 0 <= i < orig[c].stmts@.len() && !visited@[c]
                            && !(orig[c].stmts@[i] is Phi) implies #[trigger] blocks@[c].stmts@[i] == orig[c].stmts@[i] by {
                            assert(c != b);
                            assert(blocks@[c] == ob[c]);
                            assert(visited@[c] == ov[c]);
                            assert(ob[c].stmts@[i] == orig[c].stmts@[i]);
                        }
                        assert forall|j: int| 0 <= j < params@.len() implies lookup(scope@, #[trigger] params@[j].base) is Some by {
                            assert(lookup(sc0, params@[j].base) is Some);
                            lemma_lookup_extends(sc0, scope@, params@[j].base);
                        }
                        assert forall|c: int| 0 <= c < len implies same_shapes(orig[c].stmts@, #[trigger] blocks@[c].stmts@) by {
                            if c == b {
                                assert forall|j: int| 0 <= j < orig[c].stmts@.len() implies same_shape(#[trigger] orig[c].stmts@[j], blocks@[c].stmts@[j]) by {
                                    assert(same_shape(orig[c].stmts@[j], ob[c].stmts@[j]));
                                    assert(same_shape(old_stmts@[j], blocks@[c].stmts@[j]));
                                    lemma_same_shape_trans(orig[c].stmts@[j], ob[c].stmts@[j], blocks@[c].stmts@[j]);
                                }
                            }
                        }
                    }
                },
                Err(e) => {
                    blocks[b].set_statements(old_stmts);
                    assert forall|c: int| 0 <= c < len && c != b implies #[trigger] blocks@[c] == ob[c] by {}
                    assert(same_frame(blocks@[b as int], orig[b as int]));
                    assert forall|c: int| 0 <= c < len implies same_shapes(orig[c].stmts@, #[trigger] blocks@[c].stmts@) by {
                        if c == b {
                            assert(blocks@[c].stmts@ == ob[c].stmts@);
                        }
                    }
                    assert(e is UnboundUse ==> e->UnboundUse_block == b);
                    assert(renamed_from(orig, blocks@));
                    proof {
                        if e is UnboundUse {
                            let x = e->UnboundUse_variable;
                            let i = choose|i: int| unbound_at(sc0, old_stmts@, i, x);
                            assert(ob[b as int].stmts@ == old_stmts@);
                            assert(orig[b as int].stmts@[i] == old_stmts@[i]);
                            assert forall|j: int| 0 <= j < i implies (#[trigger] def_of(orig[b as int].stmts@[j])) is None
                                || def_of(orig[b as int].stmts@[j])->Some_0.base != x by {
                                assert(is_site(ob, b as int, j));
                                assert(site_def(ob, b as int, j) == site_def(orig, b as int, j));
                                assert(def_of(old_stmts@[j]) is None || def_of(old_stmts@[j])->Some_0.base != x);
                            }
                            assert(use_without_local_def(orig[b as int].stmts@, i, x));
                            assert forall|j: int| 0 <= j < params@.len() implies #[trigger] params@[j].base != x by {
                                assert(lookup(sc0, params@[j].base) is Some);
                            }
                        }
                    }
                    return Err(e);
                },
            }
            let nsucc = blocks[b].successors.len();
            let mut k: usize = 0;
            while k < nsucc
                invariant
                    0 <= k <= nsucc,
                    b < len,
                    len == orig.len(),
                    len == tree.len(),
                    tree.wf(),
                    visited@.len() == len,
                    successors_wf(orig),
                    renamed_from(orig, blocks@),
                    nsucc == orig[b as int].successors@.len(),
                    walk_inv(blocks@, *tree, params@, scopes, visited@, stack@, b as int),
                    scope@ == scope_at_end(scopes[b as int], blocks@[b as int].stmts@),
                    visited@[b as int],
                    edges_filled(blocks@, scopes, visited@, b as int),
                    blocks@[b as int].successors@ == orig[b as int].successors@,
                    forall|j: int, i: int| 0 <= j < k && 0 <= blocks@[b as int].successors@[j] < blocks@.len()
                        && 0 <= i < blocks@[blocks@[b as int].successors@[j] as int].stmts@.len()
                        ==> phi_edge_filled(#[trigger] blocks@[blocks@[b as int].successors@[j] as int].stmts@[i], b as usize, scope@),
                    naming_inv(orig, blocks@, visited@, counters@),
                    kept_ordinary(orig, blocks@, visited@),
                    forall|w: usize| #[trigger] count(counters@, w) <= stmts_in(orig, visited@, len as int),
                    forall|j: int| 0 <= j < stack@.len() ==> params_in_scope((#[trigger] stack@[j]).1@, params@),
                    params_in_scope(scope@, params@),
                    forall|j: int| 0 <= j < stack@.len() ==> (#[trigger] stack@[j]).0 < len,
                    count_true(visited@) <= len,
                decreases nsucc - k,
            {
                let t = blocks[b].successors[k];
                assert(t == orig[b as int].successors@[k as int]);
                let ghost ob = blocks@;
                let mut stmts = blocks[t].take_statements();
                let ghost taken = stmts@;
                fill_phi_arguments(&mut stmts, b, &scope);
                blocks[t].set_statements(stmts);
                proof {
                    assert(taken == ob[t as int].stmts@);
                    assert forall|c: int| 0 <= c < len implies scope_at_end(scopes[c], #[trigger] blocks@[c].stmts@) == scope_at_end(scopes[c], ob[c].stmts@) by {
                        if c == t {
                            lemma_scope_same_defs(scopes[c], ob[c].stmts@, blocks@[c].stmts@, ob[c].stmts@.len() as int);
                        } else {
                            assert(blocks@[c] == ob[c]);
                        }
                    }
                    assert forall|c: int| 0 <= c < len && #[trigger] visited@[c] implies uses_in_scope(scopes[c], blocks@[c].stmts@) by {
                        if c == t {
                            lemma_uses_in_scope_kept(scopes[c], ob[c].stmts@, blocks@[c].stmts@);
                        } else {
                            assert(blocks@[c] == ob[c]);
                        }
                    }
                    let idoms = tree.spec_idoms();
                    assert forall|j: int| 0 <= j < stack@.len() implies entry_ok(blocks@, *tree, params@, scopes, visited@, (#[trigger] stack@[j]).0 as int, stack@[j].1@) by {
                        let pp = idoms[stack@[j].0 as int];
                        if pp is Some {
                            assert(scope_at_end(scopes[pp->Some_0 as int], blocks@[pp->Some_0 as int].stmts@) == scope_at_end(scopes[pp->Some_0 as int], ob[pp->Some_0 as int].stmts@));
                        }
                    }
                    assert forall|c: int| 0 <= c < len && #[trigger] visited@[c] && c != tree.spec_entry() implies {
                        &&& idoms[c] is Some
                        &&& visited@[idoms[c]->Some_0 as int]
                        &&& scopes[c] == scope_at_end(scopes[idoms[c]->Some_0 as int], blocks@[idoms[c]->Some_0 as int].stmts@)
                    } by {
                        let pp = idoms[c]->Some_0 as int;
                        assert(scope_at_end(scopes[pp], blocks@[pp].stmts@) == scope_at_end(scopes[pp], ob[pp].stmts@));
                    }
                    assert(scope_at_end(scopes[b as int], blocks@[b as int].stmts@) == scope_at_end(scopes[b as int], ob[b as int].stmts@));
                    assert(walk_inv(blocks@, *tree, params@, scopes, visited@, stack@, b as int));
                    assert forall|c: int| 0 <= c < len && c != t implies #[trigger] blocks@[c] == ob[c] by {}
                    lemma_naming_after_fill(orig, ob, blocks@, visited@, counters@, t as int);
                    assert forall|c: int, i: int| 0 <= c < orig.len() && 0 <= i < orig[c].stmts@.len() && !visited@[c]
                        && !(orig[c].stmts@[i] is Phi) implies #[trigger] blocks@[c].stmts@[i] == orig[c].stmts@[i] by {
                        if c != t {
                            assert(blocks@[c] == ob[c]);
                        } else {
                            assert(ob[c].stmts@[i] == orig[c].stmts@[i]);
                        }
                    }
                    assert forall|c: int| 0 <= c < len implies same_shapes(orig[c].stmts@, #[trigger] blocks@[c].stmts@) by {
                        if c == t {
                            assert forall|j: int| 0 <= j < orig[c].stmts@.len() implies same_shape(#[trigger] orig[c].stmts@[j], blocks@[c].stmts@[j]) by {
                                assert(same_shape(orig[c].stmts@[j], ob[c].stmts@[j]));
                                lemma_same_shape_trans(orig[c].stmts@[j], ob[c].stmts@[j], blocks@[c].stmts@[j]);
                            }
                        }
                    }
                }
                k = k + 1;
            }
            proof {
                assert forall|p: int, j: int, i: int|
                    0 <= p < blocks@.len() && visited@[p] && p != -1 && 0 <= j < blocks@[p].successors@.len()
                        && 0 <= blocks@[p].successors@[j] < blocks@.len() && 0 <= i < blocks@[blocks@[p].successors@[j] as int].stmts@.len()
                        implies phi_edge_filled(#[trigger] blocks@[blocks@[p].successors@[j] as int].stmts@[i], p as usize,
                            scope_at_end(scopes[p], blocks@[p].stmts@)) by {
                    if p == b {
                        assert(blocks@[b as int].successors@.len() == nsucc);
                    }
                }
            }
            let children = tree.get_dominator_successors(b);
            let mut k: usize = 0;
            while k < children.len()
                invariant
                    0 <= k <= children@.len(),
                    len == tree.len(),
                    visited@.len() == len,
                    forall|j: int| 0 <= j < children@.len() ==> #[trigger] children@[j] < len,
                    forall|j: int| 0 <= j < stack@.len() ==> (#[trigger] stack@[j]).0 < len,
                    count_true(visited@) <= len,
                    count_true(visited@) > count_true(ov),
                    params_in_scope(scope@, params@),
                    b < len,
                    visited@[b as int],
                    tree.wf(),
                    walk_inv(blocks@, *tree, params@, scopes, visited@, stack@, b as int),
                    edges_filled(blocks@, scopes, visited@, -1),
                    scope@ == scope_at_end(scopes[b as int], blocks@[b as int].stmts@),
                    lists_exactly(children@, tree.len(), tree.children_pred(b as int)),
                    forall|j: int| 0 <= j < k ==> visited@[children@[j] as int] || on_stack(stack@, #[trigger] children@[j] as int),
                    forall|j: int| 0 <= j < stack@.len() ==> params_in_scope((#[trigger] stack@[j]).1@, params@),
                decreases children@.len() - k,
            {
                let c = children[k];
                if !visited[c] {
                    let ghost st = stack@;
                    let copy = copy_pairs(&scope);
                    stack.push((c, copy));
                    assert(forall|j: int| 0 <= j < st.len() ==> stack@[j] == st[j]);
                    assert(stack@[st.len() as int].1@ == scope@);
                    proof {
                        assert(tree.children_pred(b as int)(c as int));
                        assert(tree.spec_idoms()[c as int] == Some(b));
                        assert forall|x: int| on_stack(st, x) implies on_stack(stack@, x) by {
                            let j = choose|j: int| 0 <= j < st.len() && (#[trigger] st[j]).0 == x;
                            assert(stack@[j] == st[j]);
                        }
                        assert(on_stack(stack@, c as int));
                        assert forall|j: int| 0 <= j < stack@.len() implies entry_ok(blocks@, *tree, params@, scopes, visited@, (#[trigger] stack@[j]).0 as int, stack@[j].1@) by {
                            if j < st.len() {
                                assert(stack@[j] == st[j]);
                            }
                        }
                    }
                }
                k = k + 1;
            }
            proof {
                let idoms = tree.spec_idoms();
                assert forall|c: int| 0 <= c < len && (#[trigger] idoms[c]) is Some && visited@[idoms[c]->Some_0 as int]
                    && idoms[c]->Some_0 != -1 implies visited@[c] || on_stack(stack@, c) by {
                    if idoms[c]->Some_0 == b {
                        assert(tree.children_pred(b as int)(c));
                        assert(children@.contains(c as usize));
                        let j = choose|j: int| 0 <= j < children@.len() && children@[j] == c as usize;
                        assert(visited@[children@[j] as int] || on_stack(stack@, children@[j] as int));
                    }
                }
            }
        } else {
            proof {
                assert forall|j: int| 0 <= j < stack@.len() implies entry_ok(blocks@, *tree, params@, scopes, visited@, (#[trigger] stack@[j]).0 as int, stack@[j].1@) by {
                    assert(stack@[j] == st[j]);
                }
                let idoms = tree.spec_idoms();
                assert forall|c: int| 0 <= c < len && (#[trigger] idoms[c]) is Some && visited@[idoms[c]->Some_0 as int]
                    && idoms[c]->Some_0 != -1 implies visited@[c] || on_stack(stack@, c) by {
                    if c != b && !visited@[c] {
                        assert(on_stack(st, c));
                    }
                }
                if !visited@[tree.spec_entry()] {
                    assert(on_stack(st, tree.spec_entry()));
                }
            }
        }
    }
    proof {
        let fin = blocks@;
        assert(!on_stack(stack@, tree.spec_entry()));
        assert forall|c: int| 0 <= c < len && (#[trigger] tree.spec_idoms()[c]) is Some && visited@[tree.spec_idoms()[c]->Some_0 as int]
            implies visited@[c] by {
            assert(!on_stack(stack@, c));
        }
        assert(renamed_by_scopes(fin, *tree, params@, scopes, visited@));
        assert forall|b: int, i: int| is_site(fin, b, i) && (#[trigger] site_def(fin, b, i)) is Some
            implies site_def(fin, b, i) == site_def(orig, b, i) || site_def(fin, b, i)->Some_0.version >= 1 by {}
        if defaults_only(orig) {
            assert forall|b1: int, i1: int, b2: int, i2: int|
                is_site(fin, b1, i1) && is_site(fin, b2, i2) && (b1 != b2 || i1 != i2)
                    && (#[trigger] site_def(fin, b1, i1)) is Some && site_def(fin, b1, i1) == #[trigger] site_def(fin, b2, i2)
                    implies site_def(fin, b1, i1)->Some_0.version == 0 by {
                assert(same_shapes(orig[b1].stmts@, fin[b1].stmts@));
                assert(same_shapes(orig[b2].stmts@, fin[b2].stmts@));
                if !visited@[b1] {
                    assert(is_site(orig, b1, i1));
                } else if !visited@[b2] {
                    assert(is_site(orig, b2, i2));
                }
            }
        }
    }
    Ok(())
}

} // verus!
