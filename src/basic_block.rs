use vstd::prelude::*;
use crate::ir::{
    all_defs, all_uses, push_unique, stmt_defs, stmt_uses, unique, Statement, VariableName,
};

verus! {

/// A node of a control-flow graph: an ordered list of statements, its
/// neighbours by index, and a cached summary of the variables it defines and uses.
pub struct BasicBlock {
    pub index: usize,
    pub stmts: Vec<Statement>,
    pub predecessors: Vec<usize>,
    pub successors: Vec<usize>,
    pub variables_defined: Vec<VariableName>,
    pub variables_used: Vec<VariableName>,
}

impl BasicBlock {
    /// A block with the given index, statements and neighbours, its cache empty.
    pub fn new(index: usize, stmts: Vec<Statement>, predecessors: Vec<usize>, successors: Vec<usize>) -> (r: BasicBlock)
        ensures
            r.index == index,
            r.stmts@ == stmts@,
            r.predecessors@ == predecessors@,
            r.successors@ == successors@,
            r.variables_defined@.len() == 0,
            r.variables_used@.len() == 0,
    {
        BasicBlock {
            index,
            stmts,
            predecessors,
            successors,
            variables_defined: Vec::new(),
            variables_used: Vec::new(),
        }
    }

    /// The cache holds exactly the variables of the current statements.
    pub open spec fn cache_valid(&self) -> bool {
        &&& self.variables_defined@ == unique(all_defs(self.stmts@))
        &&& self.variables_used@ == unique(all_uses(self.stmts@))
    }

    pub fn get_index(&self) -> (r: usize)
        ensures
            r == self.index,
    {
        self.index
    }

    pub fn predecessors(&self) -> (r: &Vec<usize>)
        ensures
            r@ == self.predecessors@,
    {
        &self.predecessors
    }

    pub fn successors(&self) -> (r: &Vec<usize>)
        ensures
            r@ == self.successors@,
    {
        &self.successors
    }

    pub fn statements(&self) -> (r: &Vec<Statement>)
        ensures
            r@ == self.stmts@,
    {
        &self.stmts
    }

    pub fn len(&self) -> (r: usize)
        ensures
            r == self.stmts@.len(),
    {
        self.stmts.len()
    }

    /// Appends a statement at the end of the block.
    pub fn push_statement(&mut self, s: Statement)
        ensures
            final(self).stmts@ == old(self).stmts@.push(s),
            final(self).index == old(self).index,
            final(self).predecessors@ == old(self).predecessors@,
            final(self).successors@ == old(self).successors@,
            final(self).variables_defined@ == old(self).variables_defined@,
            final(self).variables_used@ == old(self).variables_used@,
    {
        self.stmts.push(s);
    }

    /// Takes the statements out of the block, leaving it without any.
    pub fn take_statements(&mut self) -> (r: Vec<Statement>)
        ensures
            r@ == old(self).stmts@,
            final(self).stmts@.len() == 0,
            final(self).index == old(self).index,
            final(self).predecessors@ == old(self).predecessors@,
            final(self).successors@ == old(self).successors@,
            final(self).variables_defined@ == old(self).variables_defined@,
            final(self).variables_used@ == old(self).variables_used@,
    {
        let mut r: Vec<Statement> = Vec::new();
        std::mem::swap(&mut self.stmts, &mut r);
        r
    }

    /// Replaces the statements of the block.
    pub fn set_statements(&mut self, stmts: Vec<Statement>)
        ensures
            final(self).stmts@ == stmts@,
            final(self).index == old(self).index,
            final(self).predecessors@ == old(self).predecessors@,
            final(self).successors@ == old(self).successors@,
            final(self).variables_defined@ == old(self).variables_defined@,
            final(self).variables_used@ == old(self).variables_used@,
    {
        self.stmts = stmts;
    }

    /// Puts `prefix` before the statements of the block.
    pub fn prepend_statements(&mut self, prefix: Vec<Statement>)
        ensures
            final(self).stmts@ == prefix@ + old(self).stmts@,
            final(self).index == old(self).index,
            final(self).predecessors@ == old(self).predecessors@,
            final(self).successors@ == old(self).successors@,
            final(self).variables_defined@ == old(self).variables_defined@,
            final(self).variables_used@ == old(self).variables_used@,
    {
        let mut rest = prefix;
        std::mem::swap(&mut self.stmts, &mut rest);
        self.stmts.append(&mut rest);
    }

    /// The cached variables defined in the block, each once.
    pub fn variables_defined(&self) -> (r: &Vec<VariableName>)
        ensures
            r@ == self.variables_defined@,
    {
        &self.variables_defined
    }

    /// The cached variables used in the block, each once.
    pub fn variables_used(&self) -> (r: &Vec<VariableName>)
        ensures
            r@ == self.variables_used@,
    {
        &self.variables_used
    }

    /// Recomputes the cached sets of variables defined and used by the statements.
    pub fn cache_variable_use(&mut self)
        ensures
            final(self).cache_valid(),
            final(self).index == old(self).index,
            final(self).stmts@ == old(self).stmts@,
            final(self).predecessors@ == old(self).predecessors@,
            final(self).successors@ == old(self).successors@,
    {
        let mut defined: Vec<VariableName> = Vec::new();
        let mut used: Vec<VariableName> = Vec::new();
        let mut i: usize = 0;
        while i < self.stmts.len()
            invariant
                0 <= i <= self.stmts@.len(),
                defined@ == unique(all_defs(self.stmts@.take(i as int))),
                used@ == unique(all_uses(self.stmts@.take(i as int))),
            decreases self.stmts@.len() - i,
        {
            let ghost before = self.stmts@.take(i as int);
            assert(self.stmts@.take(i + 1).drop_last() == before);
            let s = &self.stmts[i];
            let ghost s_uses = stmt_uses(*s);
            match s {
                Statement::Assign { target, .. } => push_unique(&mut defined, *target),
                Statement::Effect { .. } => {},
                Statement::Phi { target, .. } => push_unique(&mut defined, *target),
            }
            proof {
                assert(all_defs(self.stmts@.take(i + 1)) == all_defs(before) + stmt_defs(*s));
                if !(s is Effect) {
                    assert(all_defs(before) + stmt_defs(*s) == all_defs(before).push(stmt_defs(*s)[0]));
                    assert(all_defs(before).push(stmt_defs(*s)[0]).drop_last() == all_defs(before));
                } else {
                    assert(all_defs(before) + stmt_defs(*s) == all_defs(before));
                }
            }
            let n = match s {
                Statement::Assign { uses, .. } => uses.len(),
                Statement::Effect { uses } => uses.len(),
                Statement::Phi { arguments, .. } => arguments.len(),
            };
            let mut j: usize = 0;
            while j < n
                invariant
                    0 <= j <= n,
                    n == s_uses.len(),
                    s_uses == stmt_uses(*s),
                    used@ == unique(all_uses(before) + s_uses.take(j as int)),
                decreases n - j,
            {
                let x = match s {
                    Statement::Assign { uses, .. } => uses[j],
                    Statement::Effect { uses } => uses[j],
                    Statement::Phi { arguments, .. } => arguments[j].variable,
                };
                assert((all_uses(before) + s_uses.take(j + 1)).drop_last() == all_uses(before) + s_uses.take(j as int));
                push_unique(&mut used, x);
                j = j + 1;
            }
            assert(s_uses.take(n as int) == s_uses);
            i = i + 1;
        }
        assert(self.stmts@.take(i as int) == self.stmts@);
        self.variables_defined = defined;
        self.variables_used = used;
    }
}


/// Recomputing the cache twice with no change to the statements in between
/// gives the same sets both times: the cache is a function of the statements.
pub proof fn lemma_cache_idempotent(first: BasicBlock, second: BasicBlock)
    requires
        first.cache_valid(),
        second.cache_valid(),
        first.stmts@ == second.stmts@,
    ensures
        first.variables_defined@ == second.variables_defined@,
        first.variables_used@ == second.variables_used@,
{
}

} // verus!
