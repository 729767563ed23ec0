//! Control-flow graphs, dominance and conversion into static single assignment form.
pub mod basic_block;
pub mod ir;
pub mod dominator_tree;
pub mod ssa;
pub mod rename;
pub mod param_data;
pub mod cfg;
pub mod file_stack;
