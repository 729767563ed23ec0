use vstd::prelude::*;
use crate::ir::VariableName;

verus! {

/// The formal parameters of a function or template, in order, and the file it comes from.
pub struct ParameterData {
    pub names: Vec<VariableName>,
    pub file_id: usize,
}

impl ParameterData {
    pub fn new(names: Vec<VariableName>, file_id: usize) -> (r: ParameterData)
        ensures
            r.names@ == names@,
            r.file_id == file_id,
    {
        ParameterData { names, file_id }
    }

    pub fn get_file_id(&self) -> (r: usize)
        ensures
            r == self.file_id,
    {
        self.file_id
    }

    /// The parameters, in order.
    pub fn iter(&self) -> (r: &Vec<VariableName>)
        ensures
            r@ == self.names@,
    {
        &self.names
    }

    pub fn len(&self) -> (r: usize)
        ensures
            r == self.names@.len(),
    {
        self.names.len()
    }

    /// Gives every parameter the default version.
    pub fn set_default_versions(&mut self)
        ensures
            final(self).file_id == old(self).file_id,
            final(self).names@.len() == old(self).names@.len(),
            forall|i: int| 0 <= i < old(self).names@.len() ==> #[trigger] final(self).names@[i]
                == (VariableName { base: old(self).names@[i].base, version: 0 }),
    {
        let mut i: usize = 0;
        while i < self.names.len()
            invariant
                0 <= i <= self.names@.len(),
                self.file_id == old(self).file_id,
                self.names@.len() == old(self).names@.len(),
                forall|j: int| 0 <= j < i ==> #[trigger] self.names@[j]
                    == (VariableName { base: old(self).names@[j].base, version: 0 }),
                forall|j: int| i <= j < self.names@.len() ==> #[trigger] self.names@[j] == old(self).names@[j],
            decreases self.names@.len() - i,
        {
            let n = self.names[i].with_version(0);
            self.names.set(i, n);
            i = i + 1;
        }
    }
}

} // verus!
