use std::collections::HashSet;

use lowering_analysis::analysis::dataflow::{
    transfer_statements, DataflowAnalyzer, Direction, Edge,
};
use lowering_analysis::analysis::forward::ForwardDataflowAnalysis;
use lowering_analysis::analysis::validate::{
    degrees_countable, is_acyclic, is_analyzable, is_well_formed,
};
use lowering_analysis::ir::{
    Block, BlockEnd, BlockId, LocationId, Lowered, MatchArm, MatchEnumInfo, MatchInfo, Statement,
    StatementConst, StatementLocation, StatementStructConstruct, VarRemapping, VarUsage,
};

fn usage(var_id: usize) -> VarUsage {
    VarUsage { var_id, location: LocationId(0) }
}

/// `fn foo() {}`: one block that builds the unit value and returns it.
fn lowered_empty_function() -> Lowered {
    Lowered {
        blocks: vec![Block {
            statements: vec![Statement::StructConstruct(StatementStructConstruct {
                inputs: vec![],
                output: 0,
            })],
            end: BlockEnd::Return(vec![usage(0)], LocationId(1)),
        }],
        variables: 1,
        parameters: vec![],
    }
}

/// `fn foo(x: bool) -> felt252 { if x { 1 } else { 2 } }`: a match on `x`
/// with one block for each arm, and a block in which the arms meet.
fn lowered_branching_function() -> Lowered {
    Lowered {
        blocks: vec![
            Block {
                statements: vec![],
                end: BlockEnd::Match {
                    info: MatchInfo::Enum(MatchEnumInfo {
                        input: usage(0),
                        arms: vec![
                            MatchArm { block_id: BlockId(1), var_ids: vec![1] },
                            MatchArm { block_id: BlockId(2), var_ids: vec![2] },
                        ],
                        location: LocationId(1),
                    }),
                },
            },
            Block {
                statements: vec![Statement::Const(StatementConst { output: 3 })],
                end: BlockEnd::Goto(BlockId(3), VarRemapping { remapping: vec![(5, usage(3))] }),
            },
            Block {
                statements: vec![Statement::Const(StatementConst { output: 4 })],
                end: BlockEnd::Goto(BlockId(3), VarRemapping { remapping: vec![(5, usage(4))] }),
            },
            Block { statements: vec![], end: BlockEnd::Return(vec![usage(5)], LocationId(2)) },
        ],
        variables: 6,
        parameters: vec![0],
    }
}

/// A block-level analyzer that counts blocks.
#[derive(Default)]
struct BlockCounter {
    block_count: usize,
}

impl DataflowAnalyzer for BlockCounter {
    type Info = usize;

    const DIRECTION: Direction = Direction::Forward;

    fn initial_info(
        &mut self,
        _lowered: &Lowered,
        _block_id: BlockId,
        _block_end: &BlockEnd,
    ) -> Self::Info {
        0
    }

    fn merge(
        &mut self,
        _lowered: &Lowered,
        _statement_location: StatementLocation,
        info1: Self::Info,
        info2: Self::Info,
    ) -> Self::Info {
        info1.max(info2)
    }

    fn transfer_stmt(
        &mut self,
        _lowered: &Lowered,
        _info: &mut Self::Info,
        _statement_location: StatementLocation,
        _stmt: &Statement,
    ) {
    }

    fn transfer_block(
        &mut self,
        _lowered: &Lowered,
        info: &mut Self::Info,
        _block_id: BlockId,
        _block: &Block,
    ) {
        self.block_count += 1;
        *info += 1;
    }

    fn transfer_edge(&mut self, _lowered: &Lowered, info: &Self::Info, _edge: &Edge) -> Self::Info {
        *info
    }
}

/// A statement-level analyzer that tracks which blocks are reachable.
#[derive(Default)]
struct ReachabilityAnalyzer {
    reachable_blocks: HashSet<BlockId>,
    statements_seen: Vec<StatementLocation>,
    visit_order: Vec<BlockId>,
}

impl DataflowAnalyzer for ReachabilityAnalyzer {
    type Info = HashSet<BlockId>;

    const DIRECTION: Direction = Direction::Forward;

    fn initial_info(
        &mut self,
        _lowered: &Lowered,
        _block_id: BlockId,
        _block_end: &BlockEnd,
    ) -> Self::Info {
        HashSet::new()
    }

    fn merge(
        &mut self,
        _lowered: &Lowered,
        _statement_location: StatementLocation,
        info1: Self::Info,
        info2: Self::Info,
    ) -> Self::Info {
        let mut result = info1;
        result.extend(info2);
        result
    }

    fn transfer_stmt(
        &mut self,
        _lowered: &Lowered,
        _info: &mut Self::Info,
        statement_location: StatementLocation,
        _stmt: &Statement,
    ) {
        self.statements_seen.push(statement_location);
    }

    // The block is gone through statement by statement.
    fn transfer_block(
        &mut self,
        lowered: &Lowered,
        info: &mut Self::Info,
        block_id: BlockId,
        block: &Block,
    ) {
        transfer_statements(self, lowered, info, block_id, block);
    }

    fn transfer_edge(&mut self, _lowered: &Lowered, info: &Self::Info, _edge: &Edge) -> Self::Info {
        info.clone()
    }

    fn visit_block_start(
        &mut self,
        _lowered: &Lowered,
        info: &mut Self::Info,
        block_id: BlockId,
        _block: &Block,
    ) {
        self.reachable_blocks.insert(block_id);
        self.visit_order.push(block_id);
        info.insert(block_id);
    }
}

#[test]
fn test_block_level_analysis() {
    let lowered = lowered_branching_function();

    let analyzer = BlockCounter::default();
    let mut analysis = ForwardDataflowAnalysis::new(&lowered, analyzer);
    let _ = analysis.run();

    // Block-level analyzer should have counted multiple blocks
    assert!(
        analysis.analyzer.block_count >= 2,
        "Expected at least 2 blocks, got {}",
        analysis.analyzer.block_count
    );
}

#[test]
fn test_forward_single_block() {
    let lowered = lowered_empty_function();

    let analyzer = ReachabilityAnalyzer::default();
    let mut analysis = ForwardDataflowAnalysis::new(&lowered, analyzer);
    let _ = analysis.run();

    // Should have visited at least the root block
    assert!(!analysis.analyzer.reachable_blocks.is_empty());
    assert!(analysis.analyzer.reachable_blocks.contains(&BlockId::root()));
}

#[test]
fn test_forward_with_branching() {
    let lowered = lowered_branching_function();

    let analyzer = ReachabilityAnalyzer::default();
    let mut analysis = ForwardDataflowAnalysis::new(&lowered, analyzer);
    let exit_info = analysis.run().clone();

    // With branching, should visit multiple blocks
    assert!(
        analysis.analyzer.reachable_blocks.len() >= 2,
        "Expected at least 2 reachable blocks with branching"
    );

    // All processed blocks should have exit info
    for block_id in &analysis.analyzer.reachable_blocks {
        assert!(exit_info[block_id.0].is_some(), "Block {:?} should have exit info", block_id);
    }
}

#[test]
fn test_forward_visits_each_block_once() {
    let lowered = lowered_branching_function();
    let mut analysis = ForwardDataflowAnalysis::new(&lowered, BlockCounter::default());
    let exit_info = analysis.run();
    // Four blocks, each gone through once; the longest way to the last block has three blocks.
    assert_eq!(analysis.analyzer.block_count, 4);
    assert_eq!(exit_info, vec![Some(1), Some(2), Some(2), Some(3)]);
}

#[test]
fn test_forward_leaves_unreachable_blocks_out() {
    let mut lowered = lowered_branching_function();
    // A block to which no edge leads.
    lowered
        .blocks
        .push(Block { statements: vec![], end: BlockEnd::Return(vec![usage(0)], LocationId(3)) });
    let mut analysis = ForwardDataflowAnalysis::new(&lowered, BlockCounter::default());
    let exit_info = analysis.run();
    assert_eq!(exit_info, vec![Some(1), Some(2), Some(2), Some(3), None]);
}

#[test]
fn test_forward_statement_order() {
    let mut lowered = lowered_empty_function();
    lowered.blocks[0].statements.push(Statement::Const(StatementConst { output: 1 }));
    let mut analysis = ForwardDataflowAnalysis::new(&lowered, ReachabilityAnalyzer::default());
    let exit_info = analysis.run();
    assert_eq!(analysis.analyzer.statements_seen, vec![(BlockId(0), 0), (BlockId(0), 1)]);
    assert_eq!(exit_info.len(), 1);
    assert!(exit_info[0].as_ref().unwrap().contains(&BlockId(0)));
}

#[test]
fn test_forward_is_deterministic() {
    let lowered = lowered_branching_function();
    let first = ForwardDataflowAnalysis::new(&lowered, BlockCounter::default()).run();
    let second = ForwardDataflowAnalysis::new(&lowered, BlockCounter::default()).run();
    assert_eq!(first, second);
}

#[test]
fn test_is_well_formed() {
    assert!(is_well_formed(&lowered_empty_function()));
    assert!(is_well_formed(&lowered_branching_function()));
    let empty = Lowered { blocks: vec![], variables: 0, parameters: vec![] };
    assert!(!is_well_formed(&empty));
    let mut unset = lowered_empty_function();
    unset.blocks[0].end = BlockEnd::NotSet;
    assert!(!is_well_formed(&unset));
    let mut dangling = lowered_branching_function();
    dangling.blocks[2].end = BlockEnd::Goto(BlockId(4), VarRemapping { remapping: vec![] });
    assert!(!is_well_formed(&dangling));
    let mut dangling_arm = lowered_branching_function();
    if let BlockEnd::Match { info: MatchInfo::Enum(info) } = &mut dangling_arm.blocks[0].end {
        info.arms[1].block_id = BlockId(7);
    }
    assert!(!is_well_formed(&dangling_arm));
}

#[test]
fn test_is_acyclic() {
    assert!(is_acyclic(&lowered_empty_function()));
    assert!(is_acyclic(&lowered_branching_function()));
    let mut looping = lowered_branching_function();
    looping.blocks[3].end = BlockEnd::Goto(BlockId(1), VarRemapping { remapping: vec![] });
    assert!(is_well_formed(&looping));
    assert!(!is_acyclic(&looping));
    let mut self_loop = lowered_empty_function();
    self_loop.blocks[0].end = BlockEnd::Goto(BlockId(0), VarRemapping { remapping: vec![] });
    assert!(!is_acyclic(&self_loop));
    // Two edges between the same blocks are no cycle.
    let mut doubled = lowered_branching_function();
    if let BlockEnd::Match { info: MatchInfo::Enum(info) } = &mut doubled.blocks[0].end {
        info.arms[1].block_id = BlockId(1);
    }
    assert!(is_acyclic(&doubled));
}

#[test]
fn test_forward_takes_the_last_ready_block_first() {
    let lowered = lowered_branching_function();
    let mut analysis = ForwardDataflowAnalysis::new(&lowered, ReachabilityAnalyzer::default());
    let exit_info = analysis.run();
    // Of the two arms the second became ready last; the block where they meet comes after both.
    assert_eq!(
        analysis.analyzer.visit_order,
        vec![BlockId(0), BlockId(2), BlockId(1), BlockId(3)]
    );
    let at_join = exit_info[3].as_ref().unwrap();
    assert_eq!(at_join.len(), 4);
    let analyzer = analysis.into_analyzer();
    assert_eq!(analyzer.reachable_blocks.len(), 4);
}

#[test]
fn test_is_analyzable() {
    assert!(is_analyzable(&lowered_branching_function()));
    assert!(degrees_countable(&lowered_branching_function()));
    let mut looping = lowered_branching_function();
    looping.blocks[3].end = BlockEnd::Goto(BlockId(0), VarRemapping { remapping: vec![] });
    assert!(!is_analyzable(&looping));
    let mut unset = lowered_empty_function();
    unset.blocks[0].end = BlockEnd::NotSet;
    assert!(!is_analyzable(&unset));
}
