use vstd::prelude::*;

verus! {

/// A variable of the intermediate representation: a base name, interned as an
/// integer by the front end, together with a version. Version `0` is the
/// default version: the one of parameters and of names not yet renamed.
#[derive(Clone, Copy, Debug, PartialEq, Eq, Structural)]
pub struct VariableName {
    pub base: usize,
    pub version: usize,
}

impl VariableName {
    /// The variable with the same base name and the given version.
    pub fn with_version(&self, version: usize) -> (r: VariableName)
        ensures
            r == (VariableName { base: self.base, version }),
    {
        VariableName { base: self.base, version }
    }
}

/// An argument of a phi statement: the version arriving along the edge that
/// comes from block `predecessor`.
#[derive(Clone, Copy, Debug, PartialEq, Eq, Structural)]
pub struct PhiArgument {
    pub predecessor: usize,
    pub variable: VariableName,
}

/// A statement, reduced to the variables it defines and uses.
#[derive(Debug)]
pub enum Statement {
    /// Defines `target` from the values of `uses`.
    Assign { target: VariableName, uses: Vec<VariableName> },
    /// Uses variables without defining one (a constraint, a branch condition, a return).
    Effect { uses: Vec<VariableName> },
    /// Defines `target` from the version arriving along each incoming edge.
    Phi { target: VariableName, arguments: Vec<PhiArgument> },
}

/// The variables a statement uses, in order.
pub open spec fn stmt_uses(s: Statement) -> Seq<VariableName> {
    match s {
        Statement::Assign { uses, .. } => uses@,
        Statement::Effect { uses } => uses@,
        Statement::Phi { arguments, .. } => arguments@.map_values(|a: PhiArgument| a.variable),
    }
}

/// The variables a statement defines: none or one.
pub open spec fn stmt_defs(s: Statement) -> Seq<VariableName> {
    match s {
        Statement::Assign { target, .. } => seq![target],
        Statement::Effect { .. } => Seq::empty(),
        Statement::Phi { target, .. } => seq![target],
    }
}

/// All variables defined by a sequence of statements, in order, repetitions kept.
pub open spec fn all_defs(stmts: Seq<Statement>) -> Seq<VariableName>
    decreases stmts.len(),
{
    if stmts.len() == 0 {
        Seq::empty()
    } else {
        all_defs(stmts.drop_last()) + stmt_defs(stmts.last())
    }
}

/// All variables used by a sequence of statements, in order, repetitions kept.
pub open spec fn all_uses(stmts: Seq<Statement>) -> Seq<VariableName>
    decreases stmts.len(),
{
    if stmts.len() == 0 {
        Seq::empty()
    } else {
        all_uses(stmts.drop_last()) + stmt_uses(stmts.last())
    }
}

/// The elements of `s` in order of first occurrence, each once.
pub open spec fn unique<T>(s: Seq<T>) -> Seq<T>
    decreases s.len(),
{
    if s.len() == 0 {
        Seq::empty()
    } else {
        let u = unique(s.drop_last());
        if u.contains(s.last()) {
            u
        } else {
            u.push(s.last())
        }
    }
}

pub proof fn lemma_unique_contains<T>(s: Seq<T>, x: T)
    ensures
        unique(s).contains(x) <==> s.contains(x),
        unique(s).no_duplicates(),
    decreases s.len(),
{
    if s.len() > 0 {
        lemma_unique_contains(s.drop_last(), x);
        lemma_unique_contains(s.drop_last(), s.last());
        assert(s == s.drop_last().push(s.last()));
        assert(s[s.len() - 1] == s.last());
        let u0 = unique(s.drop_last());
        if !u0.contains(s.last()) && u0.push(s.last()).contains(x) && x != s.last() {
            let i = choose|i: int| 0 <= i < u0.push(s.last()).len() && u0.push(s.last())[i] == x;
            assert(u0[i] == x);
        }
        if u0.contains(x) && !u0.contains(s.last()) {
            let i = choose|i: int| 0 <= i < u0.len() && u0[i] == x;
            assert(u0.push(s.last())[i] == x);
        }
        if x == s.last() && !u0.contains(s.last()) {
            assert(u0.push(s.last())[u0.len() as int] == x);
        }
        if s.drop_last().contains(x) {
            let i = choose|i: int| 0 <= i < s.drop_last().len() && s.drop_last()[i] == x;
            assert(s[i] == x);
        }
        if s.contains(x) && x != s.last() {
            let i = choose|i: int| 0 <= i < s.len() && s[i] == x;
            assert(s.drop_last()[i] == x);
        }
        let u = unique(s.drop_last());
        if !u.contains(s.last()) {
            assert(u.push(s.last()).last() == s.last());
            assert forall|a: int, b: int| 0 <= a < b < u.push(s.last()).len() implies u.push(s.last())[a] != u.push(s.last())[b] by {
                if b == u.len() {
                    assert(u[a] == u.push(s.last())[a]);
                }
            }
        }
    }
}

/// Appends `x` to `acc` unless `acc` already holds it.
pub fn push_unique(acc: &mut Vec<VariableName>, x: VariableName)
    ensures
        final(acc)@ == (if old(acc)@.contains(x) { old(acc)@ } else { old(acc)@.push(x) }),
{
    let mut i: usize = 0;
    while i < acc.len()
        invariant
            0 <= i <= acc.len(),
            forall|k: int| 0 <= k < i ==> acc@[k] != x,
        decreases acc.len() - i,
    {
        if acc[i] == x {
            return;
        }
        i = i + 1;
    }
    acc.push(x);
}

} // verus!
