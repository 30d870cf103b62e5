use lowering_analysis::analysis::dataflow::Edge;
use lowering_analysis::analysis::equality_analysis::{analysis_state_str, EqualityAnalysis};
use lowering_analysis::analysis::equality_state::{ClassInfo, EqualityState, Relation};
use lowering_analysis::ir::{
    Block, BlockEnd, BlockId, LocationId, Lowered, MatchArm, MatchEnumInfo, MatchInfo, Statement,
    StatementDesnap, StatementIntoBox, StatementSnapshot, StatementUnbox, VarRemapping, VarUsage,
};

fn usage(var_id: usize) -> VarUsage {
    VarUsage { var_id, location: LocationId(0) }
}

fn single_block(statements: Vec<Statement>, returned: usize, variables: usize) -> Lowered {
    Lowered {
        blocks: vec![Block {
            statements,
            end: BlockEnd::Return(vec![usage(returned)], LocationId(1)),
        }],
        variables,
        parameters: vec![0],
    }
}

fn merge(info1: EqualityState, info2: EqualityState) -> EqualityState {
    EqualityAnalysis::intersect(&info1, &info2)
}

#[test]
fn test_new_state_knows_nothing() {
    let state = EqualityState::new();
    assert_eq!(state.find_immut(7), 7);
    assert!(!state.equal(0, 1));
    assert!(state.equal(3, 3));
    assert_eq!(state.related_immut(0, Relation::Boxed), None);
    assert!(state.records().is_empty());
    assert!(state.linked_vars().is_empty());
}

#[test]
fn test_union_lowest_id_is_representative() {
    let mut state = EqualityState::new();
    assert_eq!(state.union(5, 3), 3);
    assert_eq!(state.union(7, 5), 3);
    assert_eq!(state.union(1, 7), 1);
    for var in [1, 3, 5, 7] {
        assert_eq!(state.find_immut(var), 1);
        assert_eq!(state.find(var), 1);
    }
    assert_eq!(state.find_immut(2), 2);
    assert!(state.equal(3, 7));
    assert!(!state.equal(3, 2));
    // Joining what is joined changes nothing.
    assert_eq!(state.union(3, 5), 1);
    assert_eq!(state.linked_vars(), vec![3, 5, 7, 1]);
}

#[test]
fn test_find_is_idempotent() {
    let mut state = EqualityState::new();
    state.union(9, 4);
    state.union(4, 6);
    state.set_box_relationship(9, 12);
    for var in 0..14 {
        let rep = state.find_immut(var);
        assert_eq!(state.find_immut(rep), rep);
        assert!(rep <= var);
    }
}

#[test]
fn test_find_compresses_paths() {
    let mut state = EqualityState::new();
    state.union(3, 4);
    state.union(2, 3);
    state.union(1, 2);
    state.union(5, 6);
    // A chain: 4 -> 3 -> 2 -> 1.
    assert_eq!(state.get_parent(4), 3);
    assert_eq!(state.get_parent(3), 2);
    assert_eq!(state.get_parent(2), 1);
    assert_eq!(state.get_parent(1), 1);
    assert_eq!(state.get_parent(9), 9);
    assert_eq!(state.find_immut(4), 1);
    assert_eq!(state.get_parent(4), 3);
    let before = state.linked_vars();
    assert_eq!(state.find(3), 1);
    // What the walk came by is linked to the representative; the rest is as it was.
    assert_eq!(state.get_parent(3), 1);
    assert_eq!(state.get_parent(2), 1);
    assert_eq!(state.get_parent(4), 3);
    assert_eq!(state.get_parent(6), 5);
    assert_eq!(state.find(4), 1);
    assert_eq!(state.get_parent(4), 1);
    // The links are the same variables; the classes are the same.
    assert_eq!(state.linked_vars(), before);
    assert_eq!(state.find_immut(4), 1);
    assert_eq!(state.find_immut(3), 1);
}

#[test]
fn test_relations_are_symmetric() {
    let mut state = EqualityState::new();
    state.set_box_relationship(2, 5);
    state.set_snapshot_relationship(2, 8);
    assert_eq!(state.related_immut(2, Relation::Boxed), Some(5));
    assert_eq!(state.related_immut(5, Relation::Unboxed), Some(2));
    assert_eq!(state.related_immut(2, Relation::Snapshot), Some(8));
    assert_eq!(state.related_immut(8, Relation::Original), Some(2));
    assert_eq!(state.get_related(5, Relation::Unboxed), Some(2));
    assert_eq!(state.get_related(5, Relation::Boxed), None);
    let records = state.records();
    assert_eq!(records.len(), 3);
    for (rep, info) in records {
        assert_eq!(state.find_immut(rep), rep);
        assert!(!info.is_empty());
    }
}

#[test]
fn test_union_joins_related_classes() {
    let mut state = EqualityState::new();
    state.set_box_relationship(1, 11);
    state.set_box_relationship(2, 12);
    assert!(!state.equal(11, 12));
    // With the two values equal, their boxes are equal.
    assert_eq!(state.union(2, 1), 1);
    assert!(state.equal(11, 12));
    assert_eq!(state.related_immut(2, Relation::Boxed), Some(11));
    assert_eq!(state.related_immut(12, Relation::Unboxed), Some(1));
}

#[test]
fn test_union_keeps_the_relation_of_either_class() {
    let mut state = EqualityState::new();
    state.set_snapshot_relationship(4, 9);
    assert_eq!(state.union(4, 3), 3);
    assert_eq!(state.related_immut(3, Relation::Snapshot), Some(9));
    assert_eq!(state.related_immut(9, Relation::Original), Some(3));
    assert_eq!(state.find_immut(4), 3);
}

#[test]
fn test_set_relationship_joins_with_recorded_class() {
    let mut state = EqualityState::new();
    state.set_box_relationship(1, 6);
    // A second box of the same value is the same box.
    state.set_box_relationship(1, 7);
    assert!(state.equal(6, 7));
    // A second value in the same box is the same value.
    state.set_box_relationship(3, 7);
    assert!(state.equal(1, 3));
    assert_eq!(state.related_immut(3, Relation::Boxed), Some(6));
}

#[test]
fn test_union_of_conflicting_records_keeps_the_lower_record() {
    let mut state = EqualityState::new();
    // A variable that is its own box, and a chain of boxes 1 -> 5 -> 6.
    state.set_box_relationship(0, 0);
    state.set_box_relationship(1, 5);
    state.set_box_relationship(5, 6);
    assert_eq!(state.union(0, 1), 0);
    // The two boxes 0 and 5 are one, and so are what they hold.
    assert!(state.equal(0, 5));
    assert!(state.equal(0, 1));
    // The joined class keeps the record of the class of 0 ...
    assert_eq!(state.related_immut(0, Relation::Boxed), Some(0));
    assert_eq!(state.related_immut(0, Relation::Unboxed), Some(0));
    // ... so 6 still names what it is a box of, without being named back.
    assert_eq!(state.related_immut(6, Relation::Unboxed), Some(0));
    assert!(!state.equal(0, 6));
}

#[test]
fn test_relationship_stores_representatives() {
    let mut state = EqualityState::new();
    state.union(7, 3);
    state.union(9, 4);
    state.set_box_relationship(7, 9);
    let records = state.records();
    assert_eq!(records.len(), 2);
    assert_eq!(records[0].0, 3);
    assert_eq!(records[0].1.boxed_class, Some(4));
    assert_eq!(records[0].1.unboxed_class, None);
    assert_eq!(records[1].0, 4);
    assert_eq!(records[1].1.unboxed_class, Some(3));
    assert_eq!(records[1].1.boxed_class, None);
}

#[test]
fn test_relationship_over_conflicting_records_can_be_one_sided() {
    let mut state = EqualityState::new();
    state.set_box_relationship(0, 0);
    state.set_box_relationship(1, 5);
    state.set_box_relationship(5, 6);
    // So far every relation is answered from the other side.
    for (v, w) in [(0, 0), (1, 5), (5, 6)] {
        assert_eq!(state.related_immut(v, Relation::Boxed), Some(w));
        assert_eq!(state.related_immut(w, Relation::Unboxed), Some(v));
    }
    // 0 already has a box, itself: 1 is made one with it, and 5 with 0.
    state.set_box_relationship(0, 1);
    assert!(state.equal(0, 1));
    assert!(state.equal(0, 5));
    assert_eq!(state.related_immut(0, Relation::Boxed), Some(0));
    assert_eq!(state.related_immut(6, Relation::Unboxed), Some(0));
    assert!(!state.equal(0, 6));
}

#[test]
fn test_union_stores_the_representative_of_joined_boxes() {
    let mut state = EqualityState::new();
    state.set_box_relationship(0, 2);
    state.set_box_relationship(1, 3);
    assert_eq!(state.union(0, 1), 0);
    assert_eq!(state.find_immut(1), 0);
    assert_eq!(state.find_immut(3), 2);
    let records = state.records();
    assert_eq!(records.len(), 2);
    for (rep, info) in records {
        match rep {
            0 => {
                assert_eq!(info.boxed_class, Some(2));
                assert_eq!(info.unboxed_class, None);
            }
            2 => {
                assert_eq!(info.unboxed_class, Some(0));
                assert_eq!(info.boxed_class, None);
            }
            other => panic!("a record is stored for {other}"),
        }
    }
}

#[test]
fn test_linked_variables_are_listed_once() {
    let mut state = EqualityState::new();
    state.union(2, 0);
    state.union(0, 2);
    state.union(2, 2);
    assert_eq!(state.linked_vars(), vec![0, 2]);
    assert_eq!(state.debug_string(), "v0 = v2");
}

#[test]
fn test_take_in_on_any_state() {
    let mut state = EqualityState::new();
    state.union(7, 3);
    EqualityAnalysis::take_in(
        &mut state,
        &Statement::IntoBox(StatementIntoBox { input: usage(7), output: 9 }),
    );
    assert_eq!(state.related_immut(3, Relation::Boxed), Some(9));
    assert_eq!(state.related_immut(9, Relation::Unboxed), Some(3));
    assert_eq!(state.debug_string(), "Box(v3) = v9, v3 = v7");
}

#[test]
fn test_analysis_of_conflicting_boxes_can_be_one_sided() {
    let boxed = |input: usize, output: usize| {
        Statement::IntoBox(StatementIntoBox { input: usage(input), output })
    };
    let lowered = single_block(vec![boxed(0, 0), boxed(1, 5), boxed(5, 6), boxed(0, 1)], 0, 7);
    let states = EqualityAnalysis::analyze(&lowered);
    let state = states[0].as_ref().unwrap();
    assert_eq!(state.related_immut(6, Relation::Unboxed), Some(0));
    assert_eq!(state.related_immut(0, Relation::Boxed), Some(0));
    assert!(!state.equal(0, 6));
}

#[test]
fn test_states_written_block_by_block() {
    let lowered = lowered_join();
    let states = EqualityAnalysis::analyze(&lowered);
    let text = analysis_state_str(&states);
    let blocks: Vec<&str> = text.split("\n\n").collect();
    assert_eq!(blocks.len(), states.iter().filter(|state| state.is_some()).count());
    let mut next = 0;
    for (block, state) in states.iter().enumerate() {
        if let Some(state) = state {
            assert_eq!(blocks[next], format!("Block {block}:\n{}", state.debug_string()));
            next += 1;
        }
    }
    let single = single_block(
        vec![
            Statement::IntoBox(StatementIntoBox { input: usage(0), output: 1 }),
            Statement::Unbox(StatementUnbox { input: usage(1), output: 2 }),
        ],
        2,
        3,
    );
    assert_eq!(
        analysis_state_str(&EqualityAnalysis::analyze(&single)),
        "Block 0:\nBox(v0) = v1, v0 = v2"
    );
    assert_eq!(analysis_state_str(&vec![None, None]), "");
}

/// Every record is stored for a representative, holds representatives, and
/// is answered by the inverse record.
fn assert_records_answer_each_other(state: &EqualityState) {
    let records = state.records();
    let record_of = |var: usize| {
        records.iter().find(|(rep, _)| *rep == var).map(|(_, info)| *info).unwrap_or_default()
    };
    for (rep, info) in &records {
        assert_eq!(state.find_immut(*rep), *rep);
        for relation in [Relation::Boxed, Relation::Unboxed, Relation::Snapshot, Relation::Original] {
            if let Some(held) = info.get(relation) {
                assert_eq!(state.find_immut(held), held);
                assert_eq!(record_of(held).get(relation.inverse()), Some(*rep));
            }
        }
    }
}

#[test]
fn test_records_answer_each_other_where_variables_are_new() {
    let arm = |unboxed: usize| Block {
        statements: vec![Statement::Unbox(StatementUnbox { input: usage(1), output: unboxed })],
        end: BlockEnd::Goto(BlockId(3), VarRemapping { remapping: vec![(7, usage(unboxed))] }),
    };
    let lowered = Lowered {
        blocks: vec![
            Block {
                statements: vec![
                    Statement::IntoBox(StatementIntoBox { input: usage(0), output: 1 }),
                    Statement::Snapshot(StatementSnapshot {
                        input: usage(1),
                        original_output: 2,
                        snapshot_output: 3,
                    }),
                    Statement::Desnap(StatementDesnap { input: usage(3), output: 4 }),
                ],
                end: BlockEnd::Match {
                    info: MatchInfo::Enum(MatchEnumInfo {
                        input: usage(0),
                        arms: vec![
                            MatchArm { block_id: BlockId(1), var_ids: vec![] },
                            MatchArm { block_id: BlockId(2), var_ids: vec![] },
                        ],
                        location: LocationId(1),
                    }),
                },
            },
            arm(5),
            arm(6),
            Block {
                statements: vec![Statement::IntoBox(StatementIntoBox { input: usage(7), output: 8 })],
                end: BlockEnd::Return(vec![usage(8)], LocationId(2)),
            },
        ],
        variables: 9,
        parameters: vec![0],
    };
    let states = EqualityAnalysis::analyze(&lowered);
    for state in states.iter() {
        assert_records_answer_each_other(state.as_ref().unwrap());
    }
    let last = states[3].as_ref().unwrap();
    // Both arms unbox the same box, so what they hand on is what was boxed.
    assert!(last.equal(7, 0));
    assert!(last.equal(8, 1));
    assert!(last.equal(4, 1));
    assert_eq!(last.related_immut(0, Relation::Boxed), Some(1));
}

#[test]
fn test_class_info_fields() {
    let empty = ClassInfo::empty();
    assert!(empty.is_empty());
    assert!(empty.referenced_vars().is_empty());
    let info = empty
        .with(Relation::Unboxed, Some(4))
        .with(Relation::Boxed, Some(1))
        .with(Relation::Original, Some(2))
        .with(Relation::Snapshot, Some(3));
    assert!(!info.is_empty());
    assert_eq!(info.referenced_vars(), vec![1, 2, 3, 4]);
    assert_eq!(info.get(Relation::Boxed), Some(1));
    assert_eq!(info.get(Relation::Unboxed), Some(4));
    assert_eq!(info.with(Relation::Boxed, None).get(Relation::Boxed), None);
    assert_eq!(Relation::Boxed.inverse(), Relation::Unboxed);
    assert_eq!(Relation::Original.inverse(), Relation::Snapshot);
}

#[test]
fn test_clone_is_independent() {
    let mut state = EqualityState::new();
    state.union(1, 2);
    let mut copy = state.clone();
    copy.union(2, 3);
    assert!(copy.equal(1, 3));
    assert!(!state.equal(1, 3));
    assert!(state.equal(1, 2));
}

#[test]
fn test_snapshot_identity() {
    // v1 = snapshot(v0), with v2 the value itself, which the statement hands back.
    let lowered = single_block(
        vec![Statement::Snapshot(StatementSnapshot {
            input: usage(0),
            original_output: 2,
            snapshot_output: 1,
        })],
        1,
        3,
    );
    let states = EqualityAnalysis::analyze(&lowered);
    let state = states[0].as_ref().unwrap();
    assert!(state.equal(2, 0));
    assert_eq!(state.related_immut(0, Relation::Snapshot), Some(1));
    assert_eq!(state.related_immut(1, Relation::Original), Some(0));
    assert!(!state.equal(0, 1));
}

#[test]
fn test_box_unbox_roundtrip() {
    // v1 = Box(v0); v2 = Unbox(v1)
    let lowered = single_block(
        vec![
            Statement::IntoBox(StatementIntoBox { input: usage(0), output: 1 }),
            Statement::Unbox(StatementUnbox { input: usage(1), output: 2 }),
        ],
        2,
        3,
    );
    let states = EqualityAnalysis::analyze(&lowered);
    let state = states[0].as_ref().unwrap();
    assert_eq!(state.related_immut(0, Relation::Boxed), Some(1));
    assert!(state.equal(2, 0));
    assert_eq!(state.find_immut(2), 0);
}

#[test]
fn test_desnap_relates_to_original() {
    // v1 = desnap(v0): v0 is a snapshot of v1.
    let lowered = single_block(
        vec![Statement::Desnap(StatementDesnap { input: usage(0), output: 1 })],
        1,
        2,
    );
    let states = EqualityAnalysis::analyze(&lowered);
    let state = states[0].as_ref().unwrap();
    assert_eq!(state.related_immut(1, Relation::Snapshot), Some(0));
    assert_eq!(state.related_immut(0, Relation::Original), Some(1));
}

/// `if cond { v2 = v0 } else { v2 = v1 }`, the arms meeting in block 3.
fn lowered_join() -> Lowered {
    Lowered {
        blocks: vec![
            Block {
                statements: vec![],
                end: BlockEnd::Match {
                    info: MatchInfo::Enum(MatchEnumInfo {
                        input: usage(3),
                        arms: vec![
                            MatchArm { block_id: BlockId(1), var_ids: vec![] },
                            MatchArm { block_id: BlockId(2), var_ids: vec![] },
                        ],
                        location: LocationId(1),
                    }),
                },
            },
            Block {
                statements: vec![],
                end: BlockEnd::Goto(BlockId(3), VarRemapping { remapping: vec![(2, usage(0))] }),
            },
            Block {
                statements: vec![],
                end: BlockEnd::Goto(BlockId(3), VarRemapping { remapping: vec![(2, usage(1))] }),
            },
            Block { statements: vec![], end: BlockEnd::Return(vec![usage(2)], LocationId(2)) },
        ],
        variables: 4,
        parameters: vec![0, 1, 3],
    }
}

#[test]
fn test_join_drops_partial_equality() {
    let lowered = lowered_join();
    let states = EqualityAnalysis::analyze(&lowered);
    assert_eq!(states.len(), 4);
    let joined = states[3].as_ref().unwrap();
    assert!(!joined.equal(0, 1));
    assert!(!joined.equal(2, 0));
    assert!(!joined.equal(2, 1));
    assert_eq!(joined.find_immut(2), 2);
    // The arms themselves end as they began: the renaming belongs to the edge.
    assert!(!states[1].as_ref().unwrap().equal(2, 0));
}

#[test]
fn test_goto_edge_joins_renamed_variables() {
    let lowered = lowered_join();
    let state = EqualityState::new();
    let BlockEnd::Goto(target, remapping) = &lowered.blocks[1].end else {
        unreachable!();
    };
    let edge = Edge::Goto { target: *target, remapping };
    assert_eq!(edge.target(), BlockId(3));
    let crossed = EqualityAnalysis::cross(&state, &edge);
    assert!(crossed.equal(2, 0));
    assert!(!crossed.equal(2, 1));
    assert!(!state.equal(2, 0));
    let BlockEnd::Match { info } = &lowered.blocks[0].end else {
        unreachable!();
    };
    let arm_edge = Edge::MatchArm { arm: &info.arms()[1], match_info: info };
    assert_eq!(arm_edge.target(), BlockId(2));
    let crossed = EqualityAnalysis::cross(&crossed, &arm_edge);
    assert!(crossed.equal(2, 0));
    assert!(!crossed.equal(0, 1));
}

#[test]
fn test_join_preserves_relation_through_intersection() {
    // One side: v4 is v1 and v2, and v6 is a box of v1.
    let mut a = EqualityState::new();
    a.union(1, 2);
    a.union(1, 4);
    a.set_box_relationship(1, 6);
    // The other side: v4 is v3 and v2, and v6 is a box of v3.
    let mut b = EqualityState::new();
    b.union(3, 2);
    b.union(3, 4);
    b.set_box_relationship(3, 6);
    let merged = merge(a, b);
    // v2 and v4 are equal on both sides; v1 and v3 are each on one side only.
    assert!(merged.equal(2, 4));
    assert!(!merged.equal(1, 4));
    assert!(!merged.equal(3, 4));
    assert!(!merged.equal(1, 3));
    assert_eq!(merged.related_immut(4, Relation::Boxed), Some(6));
    assert_eq!(merged.related_immut(6, Relation::Unboxed), Some(2));
    assert_eq!(merged.related_immut(1, Relation::Boxed), None);
}

#[test]
fn test_merge_is_intersection() {
    let mut a = EqualityState::new();
    a.union(0, 1);
    a.union(2, 3);
    a.union(4, 5);
    let mut b = EqualityState::new();
    b.union(0, 1);
    b.union(1, 2);
    b.union(5, 6);
    let merged = merge(a.clone(), b.clone());
    for u in 0..8 {
        for v in 0..8 {
            assert_eq!(merged.equal(u, v), a.equal(u, v) && b.equal(u, v), "{u} {v}");
        }
    }
    // The join is the same whichever state comes first.
    let swapped = merge(b.clone(), a.clone());
    for u in 0..8 {
        for v in 0..8 {
            assert_eq!(swapped.equal(u, v), merged.equal(u, v));
        }
    }
    // A state joined with itself is the state.
    let same = merge(a.clone(), a.clone());
    for u in 0..8 {
        for v in 0..8 {
            assert_eq!(same.equal(u, v), a.equal(u, v));
        }
    }
}

#[test]
fn test_merge_keeps_relations_known_to_both() {
    let mut a = EqualityState::new();
    a.set_box_relationship(0, 1);
    a.set_snapshot_relationship(0, 2);
    a.set_box_relationship(3, 4);
    let mut b = EqualityState::new();
    b.set_box_relationship(0, 1);
    b.set_snapshot_relationship(0, 5);
    let merged = merge(a, b);
    assert_eq!(merged.related_immut(0, Relation::Boxed), Some(1));
    assert_eq!(merged.related_immut(1, Relation::Unboxed), Some(0));
    // The snapshots differ, and the second box is known to one side only.
    assert_eq!(merged.related_immut(0, Relation::Snapshot), None);
    assert_eq!(merged.related_immut(3, Relation::Boxed), None);
    assert_eq!(merged.records().len(), 2);
}

#[test]
fn test_merge_with_empty_state_is_empty() {
    let mut a = EqualityState::new();
    a.union(0, 1);
    a.set_box_relationship(0, 2);
    let merged = merge(a, EqualityState::new());
    assert!(!merged.equal(0, 1));
    assert_eq!(merged.related_immut(0, Relation::Boxed), None);
    assert!(merged.records().is_empty());
}

#[test]
fn test_analyze_is_deterministic() {
    let lowered = lowered_join();
    let first = EqualityAnalysis::analyze(&lowered);
    let second = EqualityAnalysis::analyze(&lowered);
    assert_eq!(first.len(), second.len());
    for (one, other) in first.iter().zip(second.iter()) {
        let (one, other) = (one.as_ref().unwrap(), other.as_ref().unwrap());
        assert_eq!(one.linked_vars(), other.linked_vars());
        assert_eq!(one.records().len(), other.records().len());
        for u in 0..4 {
            assert_eq!(one.find_immut(u), other.find_immut(u));
        }
    }
}

#[test]
fn test_debug_string_of_empty_state() {
    assert_eq!(EqualityState::new().debug_string(), "(empty)");
}

#[test]
fn test_debug_string_lines_are_sorted() {
    let mut state = EqualityState::new();
    state.union(3, 2);
    state.union(5, 1);
    state.union(12, 1);
    state.set_box_relationship(1, 7);
    state.set_snapshot_relationship(2, 9);
    state.set_snapshot_relationship(7, 10);
    assert_eq!(
        state.debug_string(),
        "@v2 = v9, @v7 = v10, Box(v1) = v7, v1 = v12, v1 = v5, v2 = v3"
    );
}

#[test]
fn test_debug_string_names_representatives() {
    let mut state = EqualityState::new();
    state.set_box_relationship(4, 6);
    state.union(4, 0);
    state.union(6, 5);
    assert_eq!(state.debug_string(), "Box(v0) = v5, v0 = v4, v5 = v6");
}

#[test]
fn test_debug_string_after_analysis() {
    let lowered = single_block(
        vec![Statement::Snapshot(StatementSnapshot {
            input: usage(0),
            original_output: 2,
            snapshot_output: 1,
        })],
        1,
        3,
    );
    let states = EqualityAnalysis::analyze(&lowered);
    assert_eq!(states[0].as_ref().unwrap().debug_string(), "@v0 = v1, v0 = v2");
    let lowered = single_block(
        vec![
            Statement::IntoBox(StatementIntoBox { input: usage(0), output: 1 }),
            Statement::Unbox(StatementUnbox { input: usage(1), output: 2 }),
        ],
        2,
        3,
    );
    let states = EqualityAnalysis::analyze(&lowered);
    assert_eq!(states[0].as_ref().unwrap().debug_string(), "Box(v0) = v1, v0 = v2");
}

#[test]
fn test_records_keep_insertion_order() {
    let mut state = EqualityState::new();
    state.set_box_relationship(8, 9);
    state.set_box_relationship(2, 3);
    let reps: Vec<usize> = state.records().iter().map(|(rep, _)| *rep).collect();
    assert_eq!(reps, vec![8, 9, 2, 3]);
    // Joining two classes takes their records out; the joined record goes to the end.
    state.union(8, 2);
    let reps: Vec<usize> = state.records().iter().map(|(rep, _)| *rep).collect();
    assert_eq!(reps, vec![3, 2]);
    assert_eq!(state.related_record(2).unwrap().boxed_class, Some(3));
    assert!(state.related_record(8).is_none());
    assert!(state.equal(9, 3));
}

#[test]
fn test_default_state_is_empty() {
    let state = EqualityState::default();
    assert_eq!(state.debug_string(), "(empty)");
    assert!(ClassInfo::default().is_empty());
}

#[test]
fn test_try_analyze() {
    let states = EqualityAnalysis::try_analyze(&lowered_join()).unwrap();
    assert_eq!(states.len(), 4);
    assert!(states.iter().all(|state| state.is_some()));
    let mut looping = lowered_join();
    looping.blocks[3].end = BlockEnd::Goto(BlockId(0), VarRemapping { remapping: vec![] });
    assert!(EqualityAnalysis::try_analyze(&looping).is_none());
    let mut dangling = lowered_join();
    dangling.blocks[3].end = BlockEnd::Goto(BlockId(9), VarRemapping { remapping: vec![] });
    assert!(EqualityAnalysis::try_analyze(&dangling).is_none());
}

#[test]
fn test_join_leaves_a_variable_alone_with_its_relation() {
    // One side: v1, v2 and v4 are equal, and v6 is a box of v1.
    let mut a = EqualityState::new();
    a.union(1, 2);
    a.union(1, 4);
    a.set_box_relationship(1, 6);
    // The other side: v3, v5 and v4 are equal, and v6 is a box of v3.
    let mut b = EqualityState::new();
    b.union(3, 5);
    b.union(3, 4);
    b.set_box_relationship(3, 6);
    let merged = merge(a, b);
    // v4 is equal to nothing on both sides, and v6 is its box on both.
    for other in [0, 1, 2, 3, 5, 6] {
        assert!(!merged.equal(4, other));
    }
    assert_eq!(merged.find_immut(4), 4);
    assert_eq!(merged.related_immut(4, Relation::Boxed), Some(6));
    assert_eq!(merged.related_immut(6, Relation::Unboxed), Some(4));
    assert_eq!(merged.debug_string(), "Box(v4) = v6");
}
