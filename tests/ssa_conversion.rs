use program_structure::basic_block::BasicBlock;
use program_structure::cfg::CFG;
use program_structure::dominator_tree::DominatorTree;
use program_structure::ir::{PhiArgument, Statement, VariableName};
use program_structure::param_data::ParameterData;
use program_structure::rename::SsaError;

const X: usize = 1;
const Y: usize = 2;
const C: usize = 7;

fn var(base: usize) -> VariableName {
    VariableName { base, version: 0 }
}

fn assign(target: usize, uses: Vec<usize>) -> Statement {
    Statement::Assign { target: var(target), uses: uses.into_iter().map(var).collect() }
}

fn effect(uses: Vec<usize>) -> Statement {
    Statement::Effect { uses: uses.into_iter().map(var).collect() }
}

fn block(index: usize, stmts: Vec<Statement>, preds: Vec<usize>, succs: Vec<usize>) -> BasicBlock {
    BasicBlock::new(index, stmts, preds, succs)
}

fn graph(blocks: Vec<BasicBlock>, params: Vec<usize>) -> CFG {
    let params = ParameterData::new(params.into_iter().map(var).collect(), 3);
    CFG::from_blocks("main".to_string(), params, blocks).expect("well-formed blocks")
}

/// entry -> {B1, B2} -> merge, with `x` assigned in both branches.
fn diamond() -> CFG {
    graph(
        vec![
            block(0, vec![effect(vec![C])], vec![], vec![1, 2]),
            block(1, vec![assign(X, vec![C])], vec![0], vec![3]),
            block(2, vec![assign(X, vec![])], vec![0], vec![3]),
            block(3, vec![effect(vec![X])], vec![1, 2], vec![]),
        ],
        vec![C],
    )
}

/// entry -> header <-> body, header -> exit, with `x` redefined in the body.
fn simple_loop() -> CFG {
    graph(
        vec![
            block(0, vec![assign(X, vec![])], vec![], vec![1]),
            block(1, vec![effect(vec![X])], vec![0, 2], vec![2, 3]),
            block(2, vec![assign(X, vec![X])], vec![1], vec![1]),
            block(3, vec![], vec![1], vec![]),
        ],
        vec![],
    )
}

fn target(s: &Statement) -> VariableName {
    match s {
        Statement::Assign { target, .. } => *target,
        Statement::Phi { target, .. } => *target,
        Statement::Effect { .. } => panic!("no target"),
    }
}

fn uses(s: &Statement) -> Vec<VariableName> {
    match s {
        Statement::Assign { uses, .. } => uses.clone(),
        Statement::Effect { uses } => uses.clone(),
        Statement::Phi { arguments, .. } => arguments.iter().map(|a| a.variable).collect(),
    }
}

fn is_phi(s: &Statement) -> bool {
    matches!(s, Statement::Phi { .. })
}

fn indices(blocks: &[&BasicBlock]) -> Vec<usize> {
    blocks.iter().map(|b| b.get_index()).collect()
}

#[test]
fn single_block_gets_no_phi_and_one_version_per_definition() {
    let mut cfg = graph(
        vec![block(0, vec![assign(X, vec![]), assign(Y, vec![X]), assign(X, vec![Y]), effect(vec![X])], vec![], vec![])],
        vec![],
    );
    assert_eq!(cfg.into_ssa(), Ok(()));
    let stmts = cfg.get_entry_block().statements();
    assert_eq!(stmts.len(), 4);
    assert!(!stmts.iter().any(is_phi));
    assert_eq!(target(&stmts[0]), VariableName { base: X, version: 1 });
    assert_eq!(target(&stmts[1]), VariableName { base: Y, version: 1 });
    assert_eq!(uses(&stmts[1]), vec![VariableName { base: X, version: 1 }]);
    assert_eq!(target(&stmts[2]), VariableName { base: X, version: 2 });
    assert_eq!(uses(&stmts[2]), vec![VariableName { base: Y, version: 1 }]);
    assert_eq!(uses(&stmts[3]), vec![VariableName { base: X, version: 2 }]);
}

#[test]
fn diamond_merge_gets_exactly_one_phi() {
    let mut cfg = diamond();
    assert_eq!(cfg.into_ssa(), Ok(()));
    let blocks = cfg.iter();
    let merge = blocks[3].statements();
    assert_eq!(merge.len(), 2);
    assert_eq!(blocks.iter().map(|b| b.statements().iter().filter(|s| is_phi(s)).count()).sum::<usize>(), 1);
    let v1 = target(&blocks[1].statements()[0]);
    let v2 = target(&blocks[2].statements()[0]);
    assert_eq!(v1.base, X);
    assert_eq!(v2.base, X);
    assert_ne!(v1.version, v2.version);
    match &merge[0] {
        Statement::Phi { target, arguments } => {
            assert_eq!(target.base, X);
            assert_ne!(target.version, v1.version);
            assert_ne!(target.version, v2.version);
            assert_eq!(
                arguments,
                &vec![PhiArgument { predecessor: 1, variable: v1 }, PhiArgument { predecessor: 2, variable: v2 }]
            );
            assert_eq!(uses(&merge[1]), vec![*target]);
        }
        _ => panic!("merge block must start with a phi statement"),
    }
    // The parameter keeps the default version.
    assert_eq!(uses(&blocks[0].statements()[0]), vec![VariableName { base: C, version: 0 }]);
    assert_eq!(uses(&blocks[1].statements()[0]), vec![VariableName { base: C, version: 0 }]);
}

#[test]
fn loop_header_gets_phi_and_body_sees_it() {
    let mut cfg = simple_loop();
    assert_eq!(cfg.into_ssa(), Ok(()));
    let blocks = cfg.iter();
    let header = blocks[1].statements();
    assert_eq!(header.len(), 2);
    assert!(is_phi(&header[0]));
    let phi = target(&header[0]);
    assert_eq!(phi.base, X);
    let pre_loop = target(&blocks[0].statements()[0]);
    assert_ne!(phi.version, pre_loop.version);
    let body = &blocks[2].statements()[0];
    assert_eq!(uses(body), vec![phi]);
    let redefined = target(body);
    match &header[0] {
        Statement::Phi { arguments, .. } => {
            assert_eq!(
                arguments,
                &vec![
                    PhiArgument { predecessor: 0, variable: pre_loop },
                    PhiArgument { predecessor: 2, variable: redefined }
                ]
            );
        }
        _ => panic!("header must start with a phi statement"),
    }
    assert!(!blocks[3].statements().iter().any(is_phi));
}

#[test]
fn if_else_merge_dominance_frontiers() {
    let cfg = diamond();
    let blocks = cfg.iter();
    assert_eq!(indices(&cfg.get_dominance_frontier(&blocks[1])), vec![3]);
    assert_eq!(indices(&cfg.get_dominance_frontier(&blocks[2])), vec![3]);
    assert!(cfg.get_dominance_frontier(&blocks[0]).is_empty());
    assert!(cfg.get_dominance_frontier(&blocks[3]).is_empty());
}

#[test]
fn dominator_queries_on_diamond() {
    let cfg = diamond();
    let blocks = cfg.iter();
    assert_eq!(indices(&cfg.get_dominators(&blocks[3])), vec![3, 0]);
    assert_eq!(indices(&cfg.get_dominators(&blocks[0])), vec![0]);
    assert!(cfg.get_immediate_dominator(&blocks[0]).is_none());
    assert_eq!(cfg.get_immediate_dominator(&blocks[3]).map(|b| b.get_index()), Some(0));
    assert_eq!(indices(&cfg.get_dominator_successors(&blocks[0])), vec![1, 2, 3]);
    assert!(cfg.get_dominator_successors(&blocks[1]).is_empty());
}

#[test]
fn dominator_tree_of_loop() {
    let tree = DominatorTree::new(vec![vec![], vec![0, 2], vec![1], vec![1]], 0);
    assert_eq!(tree.get_entry(), 0);
    assert_eq!(tree.nof_nodes(), 4);
    assert_eq!(tree.get_immediate_dominator(2), Some(1));
    assert_eq!(tree.get_immediate_dominator(3), Some(1));
    assert_eq!(tree.get_dominators(2), vec![2, 1, 0]);
    assert_eq!(tree.get_dominance_frontier(2), &vec![1]);
    assert_eq!(tree.get_dominance_frontier(1), &vec![1]);
    assert_eq!(tree.get_dominator_successors(1), vec![2, 3]);
}

#[test]
fn recomputing_the_cache_twice_gives_the_same_sets() {
    let mut b = block(0, vec![assign(X, vec![Y]), assign(X, vec![X, Y]), effect(vec![Y])], vec![], vec![]);
    b.cache_variable_use();
    let defined: Vec<VariableName> = b.variables_defined().clone();
    let used: Vec<VariableName> = b.variables_used().clone();
    assert_eq!(defined, vec![var(X)]);
    assert_eq!(used, vec![var(Y), var(X)]);
    b.cache_variable_use();
    assert_eq!(b.variables_defined(), &defined);
    assert_eq!(b.variables_used(), &used);
}

#[test]
fn use_without_definition_fails() {
    let mut cfg = graph(vec![block(0, vec![assign(X, vec![]), effect(vec![Y])], vec![], vec![])], vec![]);
    assert_eq!(cfg.into_ssa(), Err(SsaError::UnboundUse { variable: Y, block: 0 }));
}

#[test]
fn second_conversion_is_refused() {
    let mut cfg = diamond();
    assert_eq!(cfg.into_ssa(), Ok(()));
    assert_eq!(cfg.into_ssa(), Err(SsaError::AlreadyInSsaForm));
    assert_eq!(cfg.iter()[3].len(), 2);
}

#[test]
fn parameters_are_stamped_with_default_version() {
    let mut cfg = graph(vec![block(0, vec![effect(vec![C])], vec![], vec![])], vec![C]);
    assert_eq!(cfg.into_ssa(), Ok(()));
    assert_eq!(cfg.get_parameters().iter(), &vec![var(C)]);
    assert_eq!(cfg.get_file_id(), 3);
    assert_eq!(cfg.get_name(), "main");
    assert_eq!(cfg.nof_basic_blocks(), 1);
}

#[test]
fn malformed_blocks_are_rejected() {
    let params = ParameterData::new(vec![], 0);
    assert!(CFG::from_blocks("f".to_string(), params, vec![block(1, vec![], vec![], vec![])]).is_none());
    let params = ParameterData::new(vec![], 0);
    assert!(CFG::from_blocks("f".to_string(), params, vec![block(0, vec![], vec![], vec![4])]).is_none());
    let params = ParameterData::new(vec![], 0);
    assert!(CFG::from_blocks("f".to_string(), params, vec![]).is_none());
}

/// Checks on a converted graph that every use of a renamed variable is
/// dominated by its one definition.
fn assert_uses_dominated(cfg: &CFG) {
    let blocks = cfg.iter();
    let mut defs: Vec<(VariableName, usize, usize)> = Vec::new();
    for b in blocks.iter() {
        for (i, s) in b.statements().iter().enumerate() {
            if !matches!(s, Statement::Effect { .. }) {
                let t = target(s);
                assert!(!defs.iter().any(|d| d.0 == t), "defined twice: {:?}", t);
                defs.push((t, b.get_index(), i));
            }
        }
    }
    for b in blocks.iter() {
        for (i, s) in b.statements().iter().enumerate() {
            if is_phi(s) {
                continue;
            }
            for u in uses(s) {
                if u.version == 0 {
                    continue;
                }
                let d = defs.iter().find(|d| d.0 == u).expect("a use has a definition");
                let chain = indices(&cfg.get_dominators(b));
                assert!(chain.contains(&d.1));
                if d.1 == b.get_index() {
                    assert!(d.2 < i);
                }
            }
        }
    }
}

#[test]
fn every_use_is_dominated_by_its_definition() {
    let mut cfg = diamond();
    assert_eq!(cfg.into_ssa(), Ok(()));
    assert_uses_dominated(&cfg);
    let mut cfg = simple_loop();
    assert_eq!(cfg.into_ssa(), Ok(()));
    assert_uses_dominated(&cfg);
    let mut cfg = graph(
        vec![
            block(0, vec![assign(X, vec![]), assign(Y, vec![X])], vec![], vec![1, 2]),
            block(1, vec![assign(Y, vec![Y, X])], vec![0], vec![3]),
            block(2, vec![assign(X, vec![Y])], vec![0], vec![3]),
            block(3, vec![effect(vec![X, Y])], vec![1, 2], vec![4]),
            block(4, vec![assign(X, vec![X]), effect(vec![X])], vec![3], vec![]),
        ],
        vec![],
    );
    assert_eq!(cfg.into_ssa(), Ok(()));
    let merge = cfg.iter()[3].statements();
    assert_eq!(merge.iter().filter(|s| is_phi(s)).count(), 2);
    assert_uses_dominated(&cfg);
}
