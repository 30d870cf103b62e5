//! The equality analysis: a forward analysis that finds, for the end of each
//! block, which variables hold the same value, and which classes of such
//! variables are boxes or snapshots of which.

use crate::analysis::dataflow::{in_edges, DataflowAnalyzer, Direction, Edge, EdgeId, Site};
use crate::analysis::equality_state::{
    differ, lemma_bound_chain, lemma_bound_congruent, lemma_bound_kept, lemma_bound_relation,
    lemma_class_members_linked, lemma_find_idempotent, lemma_known_is_shown, ClassInfo,
    EqualityState, Relation,
};
use crate::analysis::forward::{degrees_fit, forward_visits, ForwardDataflowAnalysis};
use crate::analysis::knowledge::{
    lemma_unknown_joins, lemma_unknown_kept_joined, lemma_unknown_kept_related, Knowledge,
};
use crate::analysis::worklist::blocks_with_info;
use crate::ir::{Block, BlockEnd, BlockId, Lowered, Statement, StatementLocation, VariableId};
use crate::ordered_map::{
    distinct_keys, group_entries, group_map_entries, group_map_new, group_map_push, has_key,
    index_of, lemma_append_at, lemma_entry, lemma_key, listed, pair_list_entries,
    pair_list_map_get, pair_list_map_new, pair_list_map_push, GroupMap, PairListMap,
};
use crate::text::{decimal, join, joined, push_decimal, texts};
use vstd::prelude::*;
use vstd::string::StringExecFns;

verus! {

/// The analysis of which variables hold the same value.
pub struct EqualityAnalysis;

/// The representatives of `v` in the two states that are joined.
pub open spec fn rep_pair(info1: &EqualityState, info2: &EqualityState, v: VariableId) -> (
    VariableId,
    VariableId,
) {
    (info1.rep(v), info2.rep(v))
}

/// Each group holds at least one variable, and only variables with the
/// pair of representatives that is the group's key.
pub open spec fn groups_ok(
    info1: &EqualityState,
    info2: &EqualityState,
    groups: Seq<((VariableId, VariableId), Seq<VariableId>)>,
) -> bool {
    &&& distinct_keys(groups)
    &&& forall|i: int| 0 <= i < groups.len() ==> (#[trigger] groups[i]).1.len() > 0
    &&& forall|i: int, j: int|
        0 <= i < groups.len() && 0 <= j < groups[i].1.len() ==> rep_pair(
            info1,
            info2,
            #[trigger] groups[i].1[j],
        ) == groups[i].0
}

/// The variable `v` is in the group of its pair of representatives.
pub open spec fn grouped(
    info1: &EqualityState,
    info2: &EqualityState,
    groups: Seq<((VariableId, VariableId), Seq<VariableId>)>,
    v: VariableId,
) -> bool {
    has_key(groups, rep_pair(info1, info2, v)) && groups[index_of(
        groups,
        rep_pair(info1, info2, v),
    )].1.contains(v)
}

/// Whether one of the two states has a parent link for `v` or holds it in a record.
pub open spec fn referenced(info1: &EqualityState, info2: &EqualityState, v: VariableId) -> bool {
    info1.linked(v) || info2.linked(v) || info1.mentions(v) || info2.mentions(v)
}

/// The variables that the first `upto` of `records` hold, record by record.
pub open spec fn held_by(records: Seq<(VariableId, ClassInfo)>, upto: int) -> Seq<VariableId>
    decreases upto,
{
    if upto <= 0 {
        Seq::empty()
    } else {
        held_by(records, upto - 1) + records[upto - 1].1.spec_referenced_vars()
    }
}

proof fn lemma_concat_contains(a: Seq<VariableId>, b: Seq<VariableId>, v: VariableId)
    ensures
        (a + b).contains(v) <==> (a.contains(v) || b.contains(v)),
{
    let both = a + b;
    if both.contains(v) {
        let i = choose|i: int| 0 <= i < both.len() && both[i] == v;
        if i < a.len() {
            assert(a[i] == v);
        } else {
            assert(b[i - a.len()] == v);
        }
    }
    if a.contains(v) {
        let i = choose|i: int| 0 <= i < a.len() && a[i] == v;
        assert(both[i] == v);
    }
    if b.contains(v) {
        let i = choose|i: int| 0 <= i < b.len() && b[i] == v;
        assert(both[a.len() + i] == v);
    }
}

proof fn lemma_held_by(records: Seq<(VariableId, ClassInfo)>, upto: int, v: VariableId)
    requires
        0 <= upto <= records.len(),
    ensures
        held_by(records, upto).contains(v) <==> exists|j: int|
            0 <= j < upto && (#[trigger] records[j]).1.spec_referenced_vars().contains(v),
    decreases upto,
{
    if upto > 0 {
        lemma_held_by(records, upto - 1, v);
        lemma_concat_contains(
            held_by(records, upto - 1),
            records[upto - 1].1.spec_referenced_vars(),
            v,
        );
        if held_by(records, upto).contains(v) {
            if records[upto - 1].1.spec_referenced_vars().contains(v) {
            } else {
                let j = choose|j: int|
                    0 <= j < upto - 1 && (#[trigger] records[j]).1.spec_referenced_vars().contains(
                        v,
                    );
                assert(records[j].1.spec_referenced_vars().contains(v));
            }
        }
    } else {
        assert(!held_by(records, upto).contains(v));
    }
}

/// Adds `more` to `vars`.
fn push_all(vars: &mut Vec<VariableId>, more: &Vec<VariableId>)
    ensures
        final(vars)@ == old(vars)@ + more@,
{
    let ghost start = vars@;
    let mut k: usize = 0;
    while k < more.len()
        invariant
            k <= more@.len(),
            vars@ == start + more@.subrange(0, k as int),
        decreases more@.len() - k,
    {
        vars.push(more[k]);
        proof {
            assert(vars@ =~= start + more@.subrange(0, k + 1));
        }
        k += 1;
    }
    proof {
        assert(more@.subrange(0, k as int) =~= more@);
    }
}

/// Adds to `vars` the variables that the records of `info` hold.
fn push_mentioned(info: &EqualityState, vars: &mut Vec<VariableId>)
    requires
        info.wf(),
    ensures
        forall|v: VariableId| #[trigger]
            final(vars)@.contains(v) <==> (old(vars)@.contains(v) || info.mentions(v)),
{
    let records = info.records();
    let ghost start = vars@;
    let mut i: usize = 0;
    while i < records.len()
        invariant
            i <= records@.len(),
            vars@ == start + held_by(records@, i as int),
        decreases records@.len() - i,
    {
        let mentioned = records[i].1.referenced_vars();
        push_all(vars, &mentioned);
        proof {
            assert(vars@ =~= start + held_by(records@, i + 1));
        }
        i += 1;
    }
    proof {
        assert forall|v: VariableId| #[trigger]
            vars@.contains(v) <==> (start.contains(v) || info.mentions(v)) by {
            lemma_concat_contains(start, held_by(records@, i as int), v);
            lemma_held_by(records@, i as int, v);
            if held_by(records@, i as int).contains(v) {
                let j = choose|j: int|
                    0 <= j < i && (#[trigger] records@[j]).1.spec_referenced_vars().contains(v);
                assert(info.info(records@[j].0).spec_referenced_vars().contains(v));
            }
            if info.mentions(v) {
                let r = choose|r: VariableId| #[trigger]
                    info.info(r).spec_referenced_vars().contains(v);
                assert(!info.info(r).spec_is_empty());
                lemma_key(records@, r);
                let j = index_of(records@, r);
                assert(records@[j].1 == info.info(records@[j].0));
                assert(records@[j].1.spec_referenced_vars().contains(v));
            }
        }
    }
}

/// The variables of which one of the two states knows something: those with
/// a parent link, then those held in the records.
fn merge_referenced_vars(info1: &EqualityState, info2: &EqualityState) -> (vars: Vec<VariableId>)
    requires
        info1.wf(),
        info2.wf(),
    ensures
        forall|v: VariableId| #[trigger] vars@.contains(v) <==> referenced(info1, info2, v),
{
    let mut vars = info1.linked_vars();
    let linked2 = info2.linked_vars();
    let ghost linked1 = vars@;
    push_all(&mut vars, &linked2);
    proof {
        assert forall|v: VariableId|
            vars@.contains(v) <==> (info1.linked(v) || info2.linked(v)) by {
            lemma_concat_contains(linked1, linked2@, v);
        }
    }
    let ghost linked = vars@;
    push_mentioned(info1, &mut vars);
    let ghost first = vars@;
    push_mentioned(info2, &mut vars);
    proof {
        assert forall|v: VariableId| #[trigger] vars@.contains(v) <==> referenced(
            info1,
            info2,
            v,
        ) by {
            assert(first.contains(v) <==> (linked.contains(v) || info1.mentions(v)));
            assert(vars@.contains(v) <==> (first.contains(v) || info2.mentions(v)));
            assert(linked.contains(v) <==> (info1.linked(v) || info2.linked(v)));
        }
    }
    vars
}

/// Puts each of `vars` into the group of its pair of representatives.
fn group_by_reps(info1: &EqualityState, info2: &EqualityState, vars: &Vec<VariableId>) -> (groups:
    GroupMap)
    requires
        info1.wf(),
        info2.wf(),
    ensures
        groups_ok(info1, info2, group_entries(groups)),
        forall|v: VariableId| #[trigger]
            vars@.contains(v) ==> grouped(info1, info2, group_entries(groups), v),
        forall|a: int, b: int|
            0 <= a < group_entries(groups).len() && 0 <= b < group_entries(groups)[a].1.len()
                ==> vars@.contains(#[trigger] group_entries(groups)[a].1[b]),
{
    let mut groups = group_map_new();
    let mut i: usize = 0;
    while i < vars.len()
        invariant
            i <= vars@.len(),
            info1.wf(),
            info2.wf(),
            groups_ok(info1, info2, group_entries(groups)),
            forall|j: int|
                0 <= j < i ==> grouped(info1, info2, group_entries(groups), #[trigger] vars@[j]),
            forall|a: int, b: int|
                0 <= a < group_entries(groups).len() && 0 <= b < group_entries(groups)[a].1.len()
                    ==> vars@.contains(#[trigger] group_entries(groups)[a].1[b]),
        decreases vars@.len() - i,
    {
        let var = vars[i];
        let key = (info1.find_immut(var), info2.find_immut(var));
        let ghost before = group_entries(groups);
        proof {
            lemma_append_at(before, key, var);
        }
        group_map_push(&mut groups, key, var);
        proof {
            let after = group_entries(groups);
            assert forall|a: int, b: int|
                0 <= a < after.len() && 0 <= b < after[a].1.len() implies rep_pair(
                info1,
                info2,
                #[trigger] after[a].1[b],
            ) == after[a].0 by {
                if a < before.len() {
                    if before[a].0 == key {
                        if b < before[a].1.len() {
                            assert(after[a].1[b] == before[a].1[b]);
                        }
                    } else {
                        assert(after[a] == before[a]);
                    }
                }
            }
            assert forall|a: int| 0 <= a < after.len()
                implies (#[trigger] after[a]).1.len() > 0 by {
                if a < before.len() {
                    if before[a].0 != key {
                        assert(after[a] == before[a]);
                    }
                }
            }
            assert(vars@[i as int] == var);
            assert forall|a: int, b: int|
                0 <= a < after.len() && 0 <= b < after[a].1.len() implies vars@.contains(
                #[trigger] after[a].1[b],
            ) by {
                if a < before.len() {
                    if before[a].0 == key {
                        if b < before[a].1.len() {
                            assert(after[a].1[b] == before[a].1[b]);
                        }
                    } else {
                        assert(after[a] == before[a]);
                    }
                }
            }
            assert forall|j: int| 0 <= j < i + 1 implies grouped(
                info1,
                info2,
                after,
                #[trigger] vars@[j],
            ) by {
                let v = vars@[j];
                let k = rep_pair(info1, info2, v);
                if j < i {
                    assert(grouped(info1, info2, before, v));
                    let a = index_of(before, k);
                    lemma_key(before, k);
                    lemma_entry(after, a);
                    let m = choose|m: int| 0 <= m < before[a].1.len() && before[a].1[m] == v;
                    if k == key {
                        assert(after[a].1[m] == v);
                    } else {
                        assert(after[a] == before[a]);
                    }
                } else {
                    let a = index_of(after, key);
                    lemma_key(after, key);
                    if a < before.len() {
                        assert(before[a].0 == key);
                        assert(after[a].1[before[a].1.len() as int] == v);
                    } else {
                        assert(after[a].1[0] == v);
                    }
                }
            }
        }
        i += 1;
    }
    proof {
        assert forall|v: VariableId| vars@.contains(v) implies grouped(
            info1,
            info2,
            group_entries(groups),
            v,
        ) by {
            let j = choose|j: int| 0 <= j < vars@.len() && vars@[j] == v;
            assert(grouped(info1, info2, group_entries(groups), vars@[j]));
        }
    }
    groups
}

/// Whether `u` and `v` have the same representatives in both states.
pub open spec fn same_pair(
    info1: &EqualityState,
    info2: &EqualityState,
    u: VariableId,
    v: VariableId,
) -> bool {
    rep_pair(info1, info2, u) == rep_pair(info1, info2, v)
}

/// `result` holds two different variables equal exactly if both are in
/// `seen` and have the same representatives in both states.
pub open spec fn joins_seen(
    info1: &EqualityState,
    info2: &EqualityState,
    result: &EqualityState,
    seen: Set<VariableId>,
) -> bool {
    forall|u: VariableId, v: VariableId|
        #![trigger result.rep(u), result.rep(v)]
        result.rep(u) == result.rep(v) <==> (u == v || (seen.contains(u) && seen.contains(v)
            && same_pair(info1, info2, u, v)))
}

/// `result` stores no class record.
pub open spec fn unrecorded(result: &EqualityState) -> bool {
    forall|r: VariableId| #[trigger] result.info(r) == ClassInfo::spec_empty()
}

/// Whether `x` is in one of the groups.
pub open spec fn in_some_group(
    groups: Seq<((VariableId, VariableId), Seq<VariableId>)>,
    x: VariableId,
) -> bool {
    exists|i: int, j: int|
        0 <= i < groups.len() && 0 <= j < groups[i].1.len() && #[trigger] groups[i].1[j] == x
}

/// Joining a variable with one that is seen and has the same pair of
/// representatives makes it seen.
proof fn lemma_join_step(
    info1: &EqualityState,
    info2: &EqualityState,
    before: &EqualityState,
    after: &EqualityState,
    seen: Set<VariableId>,
    first: VariableId,
    member: VariableId,
)
    requires
        joins_seen(info1, info2, before, seen),
        seen.contains(first),
        same_pair(info1, info2, first, member),
        forall|v: VariableId| after.rep(v) == before.joined_rep(first, member, v),
    ensures
        joins_seen(info1, info2, after, seen.insert(member)),
{
    let rf = before.rep(first);
    let rm = before.rep(member);
    let grown = seen.insert(member);
    crate::analysis::equality_state::lemma_find_idempotent(*before, first);
    crate::analysis::equality_state::lemma_find_idempotent(*before, member);
    assert(before.rep(rf) == before.rep(first));
    assert(before.rep(rm) == before.rep(member));
    if rf == rm {
        assert(before.rep(first) == before.rep(member));
        assert(grown =~= seen || member == first);
        assert forall|u: VariableId, v: VariableId|
            #![trigger after.rep(u), after.rep(v)]
            after.rep(u) == after.rep(v) <==> (u == v || (grown.contains(u) && grown.contains(v)
                && same_pair(info1, info2, u, v))) by {
            assert(after.rep(u) == before.rep(u));
            assert(after.rep(v) == before.rep(v));
            assert(before.rep(u) == before.rep(v) <==> (u == v || (seen.contains(u)
                && seen.contains(v) && same_pair(info1, info2, u, v))));
        }
    } else {
        assert(!seen.contains(member));
        assert forall|x: VariableId| before.rep(x) == rm <==> x == member by {
            assert(before.rep(x) == before.rep(rm) <==> (x == rm || (seen.contains(x)
                && seen.contains(rm) && same_pair(info1, info2, x, rm))));
            assert(before.rep(member) == before.rep(rm) <==> (member == rm || (seen.contains(member)
                && seen.contains(rm) && same_pair(info1, info2, member, rm))));
        }
        assert forall|x: VariableId|
            before.rep(x) == rf <==> (x == first || (seen.contains(x) && same_pair(
                info1,
                info2,
                x,
                first,
            ))) by {
            assert(before.rep(x) == before.rep(first) <==> (x == first || (seen.contains(x)
                && seen.contains(first) && same_pair(info1, info2, x, first))));
        }
        assert forall|u: VariableId, v: VariableId|
            #![trigger after.rep(u), after.rep(v)]
            after.rep(u) == after.rep(v) <==> (u == v || (grown.contains(u) && grown.contains(v)
                && same_pair(info1, info2, u, v))) by {
            assert(after.rep(u) == before.joined_rep(first, member, u));
            assert(after.rep(v) == before.joined_rep(first, member, v));
            assert(before.rep(u) == before.rep(v) <==> (u == v || (seen.contains(u)
                && seen.contains(v) && same_pair(info1, info2, u, v))));
            assert(before.rep(u) == rm <==> u == member);
            assert(before.rep(v) == rm <==> v == member);
            assert(before.rep(u) == rf <==> (u == first || (seen.contains(u) && same_pair(
                info1,
                info2,
                u,
                first,
            ))));
            assert(before.rep(v) == rf <==> (v == first || (seen.contains(v) && same_pair(
                info1,
                info2,
                v,
                first,
            ))));
        }
    }
}

/// A variable whose pair of representatives no seen variable has can be
/// taken as seen without being joined with anything.
proof fn lemma_join_enter(
    info1: &EqualityState,
    info2: &EqualityState,
    result: &EqualityState,
    seen: Set<VariableId>,
    first: VariableId,
)
    requires
        joins_seen(info1, info2, result, seen),
        forall|x: VariableId| seen.contains(x) ==> !same_pair(info1, info2, x, first),
    ensures
        joins_seen(info1, info2, result, seen.insert(first)),
{
    let grown = seen.insert(first);
    assert forall|u: VariableId, v: VariableId|
        #![trigger result.rep(u), result.rep(v)]
        result.rep(u) == result.rep(v) <==> (u == v || (grown.contains(u) && grown.contains(v)
            && same_pair(info1, info2, u, v))) by {
        assert(result.rep(u) == result.rep(v) <==> (u == v || (seen.contains(u) && seen.contains(v)
            && same_pair(info1, info2, u, v))));
    }
}

/// Both states have the class of `v` in `relation` to the class of `u`.
pub open spec fn both_relate(
    info1: &EqualityState,
    info2: &EqualityState,
    u: VariableId,
    relation: Relation,
    v: VariableId,
) -> bool {
    info1.related(u, relation) == Some(info1.rep(v)) && info2.related(u, relation) == Some(
        info2.rep(v),
    )
}

/// `result` holds two variables equal exactly if they are one variable or
/// are both in groups and have the same representatives in both states.
pub open spec fn joins_groups(
    info1: &EqualityState,
    info2: &EqualityState,
    result: &EqualityState,
    groups: Seq<((VariableId, VariableId), Seq<VariableId>)>,
) -> bool {
    forall|u: VariableId, v: VariableId|
        #![trigger result.rep(u), result.rep(v)]
        result.rep(u) == result.rep(v) <==> (u == v || (in_some_group(groups, u) && in_some_group(
            groups,
            v,
        ) && same_pair(info1, info2, u, v)))
}

/// Every relation that `result` records is between variables in groups,
/// and both states have it.
pub open spec fn relations_shared(
    info1: &EqualityState,
    info2: &EqualityState,
    result: &EqualityState,
    groups: Seq<((VariableId, VariableId), Seq<VariableId>)>,
) -> bool {
    forall|x: VariableId, relation: Relation| #[trigger]
        result.info(x).spec_get(relation) is Some ==> in_some_group(groups, x) && in_some_group(
            groups,
            result.info(x).spec_get(relation).unwrap(),
        ) && both_relate(info1, info2, x, relation, result.info(x).spec_get(relation).unwrap())
}

/// The groups hold the variables of which one of the states knows something.
pub open spec fn groups_cover(
    info1: &EqualityState,
    info2: &EqualityState,
    groups: Seq<((VariableId, VariableId), Seq<VariableId>)>,
) -> bool {
    forall|v: VariableId| referenced(info1, info2, v) <==> #[trigger] in_some_group(groups, v)
}

/// Variables that `result` holds equal have the same representatives in both states.
proof fn lemma_joined_same_pair(
    info1: &EqualityState,
    info2: &EqualityState,
    result: &EqualityState,
    groups: Seq<((VariableId, VariableId), Seq<VariableId>)>,
    u: VariableId,
)
    requires
        joins_groups(info1, info2, result, groups),
    ensures
        same_pair(info1, info2, result.rep(u), u),
        in_some_group(groups, u) ==> in_some_group(groups, result.rep(u)),
        both_ways(info1, info2, result.rep(u), u),
{
    crate::analysis::equality_state::lemma_find_idempotent(*result, u);
    let r = result.rep(u);
    assert(result.rep(r) == result.rep(u));
    assert forall|relation: Relation|
        info1.related(r, relation) == info1.related(u, relation) && info2.related(r, relation)
            == info2.related(u, relation) by {}
}

/// The two variables have the same relations in both states.
pub open spec fn both_ways(
    info1: &EqualityState,
    info2: &EqualityState,
    x: VariableId,
    u: VariableId,
) -> bool {
    forall|relation: Relation|
        info1.related(x, relation) == #[trigger] info1.related(u, relation) && info2.related(
            x,
            relation,
        ) == info2.related(u, relation)
}

/// Where both states have a relation between two variables in groups, and
/// all that `result` records is shared by both states, recording the
/// relation in `result` joins no classes.
proof fn lemma_shared_agrees(
    info1: &EqualityState,
    info2: &EqualityState,
    result: &EqualityState,
    groups: Seq<((VariableId, VariableId), Seq<VariableId>)>,
    a: VariableId,
    b: VariableId,
    relation: Relation,
)
    requires
        info1.symmetric(),
        info2.symmetric(),
        joins_groups(info1, info2, result, groups),
        relations_shared(info1, info2, result, groups),
        in_some_group(groups, a),
        in_some_group(groups, b),
        both_relate(info1, info2, a, relation, b),
    ensures
        result.agrees(a, b, relation, relation.spec_inverse()),
{
    let inverse = relation.spec_inverse();
    let ra = result.rep(a);
    let rb = result.rep(b);
    lemma_joined_same_pair(info1, info2, result, groups, a);
    lemma_joined_same_pair(info1, info2, result, groups, b);
    if result.related(a, relation) is Some {
        let y = result.info(ra).spec_get(relation).unwrap();
        assert(result.info(ra).spec_get(relation) is Some);
        assert(both_relate(info1, info2, ra, relation, y));
        assert(info1.related(ra, relation) == info1.related(a, relation));
        assert(info2.related(ra, relation) == info2.related(a, relation));
        assert(same_pair(info1, info2, y, b));
        assert(result.rep(y) == result.rep(b));
    }
    if result.related(b, inverse) is Some {
        let x = result.info(rb).spec_get(inverse).unwrap();
        assert(result.info(rb).spec_get(inverse) is Some);
        assert(both_relate(info1, info2, rb, inverse, x));
        assert(info1.related(rb, inverse) == info1.related(b, inverse));
        assert(info2.related(rb, inverse) == info2.related(b, inverse));
        // The states have the relation from the other side too.
        assert(info1.related(a, relation) is Some);
        assert(info2.related(a, relation) is Some);
        crate::analysis::equality_state::lemma_related_of_rep(*info1, b, inverse);
        crate::analysis::equality_state::lemma_related_of_rep(*info2, b, inverse);
        assert(info1.related(b, inverse) == Some(info1.rep(a)));
        assert(info2.related(b, inverse) == Some(info2.rep(a)));
        assert(same_pair(info1, info2, x, a));
        assert(result.rep(x) == result.rep(a));
    }
}

/// What is common to the lemmas on recording a relation that both states
/// have: the relation is between variables in groups, and `after` is
/// `before` with the relation recorded and no classes joined.
pub open spec fn records_shared(
    info1: &EqualityState,
    info2: &EqualityState,
    before: &EqualityState,
    after: &EqualityState,
    groups: Seq<((VariableId, VariableId), Seq<VariableId>)>,
    a: VariableId,
    b: VariableId,
    relation: Relation,
) -> bool {
    &&& info1.symmetric()
    &&& info2.symmetric()
    &&& joins_groups(info1, info2, before, groups)
    &&& relations_shared(info1, info2, before, groups)
    &&& in_some_group(groups, a)
    &&& in_some_group(groups, b)
    &&& both_relate(info1, info2, a, relation, b)
    &&& after.same_partition(before)
    &&& forall|r: VariableId|
        after.info(r) == before.related_info(a, b, relation, relation.spec_inverse(), r)
}

/// The two variables of a recorded relation, as both states see them: the
/// representative of either has the relations of the variable, and both
/// states have the relation from the other side too.
proof fn lemma_recorded_ends(
    info1: &EqualityState,
    info2: &EqualityState,
    before: &EqualityState,
    after: &EqualityState,
    groups: Seq<((VariableId, VariableId), Seq<VariableId>)>,
    a: VariableId,
    b: VariableId,
    relation: Relation,
)
    requires
        records_shared(info1, info2, before, after, groups, a, b, relation),
    ensures
        in_some_group(groups, before.rep(a)),
        in_some_group(groups, before.rep(b)),
        same_pair(info1, info2, before.rep(a), a),
        same_pair(info1, info2, before.rep(b), b),
        both_relate(info1, info2, before.rep(a), relation, before.rep(b)),
        both_relate(info1, info2, before.rep(b), relation.spec_inverse(), before.rep(a)),
        both_relate(info1, info2, b, relation.spec_inverse(), a),
        before.rep(before.rep(a)) == before.rep(a),
        before.rep(before.rep(b)) == before.rep(b),
        relation.spec_inverse() != relation,
{
    let inverse = relation.spec_inverse();
    lemma_joined_same_pair(info1, info2, before, groups, a);
    lemma_joined_same_pair(info1, info2, before, groups, b);
    crate::analysis::equality_state::lemma_find_idempotent(*before, a);
    crate::analysis::equality_state::lemma_find_idempotent(*before, b);
    crate::analysis::equality_state::lemma_related_of_rep(*info1, b, inverse);
    crate::analysis::equality_state::lemma_related_of_rep(*info2, b, inverse);
    assert(info1.related(a, relation) is Some && info2.related(a, relation) is Some);
    assert(info1.related(b, inverse) == Some(info1.rep(a)));
    assert(info2.related(b, inverse) == Some(info2.rep(a)));
    let ra = before.rep(a);
    let rb = before.rep(b);
    assert(info1.related(ra, relation) == info1.related(a, relation));
    assert(info2.related(ra, relation) == info2.related(a, relation));
    assert(info1.related(rb, inverse) == info1.related(b, inverse));
    assert(info2.related(rb, inverse) == info2.related(b, inverse));
}

/// After a relation that both states have is recorded, all that is
/// recorded is still shared by both states.
proof fn lemma_record_stays_shared(
    info1: &EqualityState,
    info2: &EqualityState,
    before: &EqualityState,
    after: &EqualityState,
    groups: Seq<((VariableId, VariableId), Seq<VariableId>)>,
    a: VariableId,
    b: VariableId,
    relation: Relation,
)
    requires
        records_shared(info1, info2, before, after, groups, a, b, relation),
    ensures
        relations_shared(info1, info2, after, groups),
{
    let inverse = relation.spec_inverse();
    let ra = before.rep(a);
    let rb = before.rep(b);
    lemma_recorded_ends(info1, info2, before, after, groups, a, b, relation);
    assert forall|x: VariableId, other: Relation| #[trigger]
        after.info(x).spec_get(other) is Some implies in_some_group(groups, x) && in_some_group(
        groups,
        after.info(x).spec_get(other).unwrap(),
    ) && both_relate(info1, info2, x, other, after.info(x).spec_get(other).unwrap()) by {
        assert(after.info(x) == before.related_info(a, b, relation, inverse, x));
        let y = after.info(x).spec_get(other).unwrap();
        if x == rb && other == inverse {
            assert(y == ra);
        } else if x == ra && other == relation {
            assert(y == rb);
        } else {
            assert(before.info(x).spec_get(other) == after.info(x).spec_get(other));
            assert(before.info(x).spec_get(other) is Some);
        }
    }
}

/// After a relation that both states have is recorded, a relation of both
/// states that was recorded before is recorded still.
proof fn lemma_record_keeps(
    info1: &EqualityState,
    info2: &EqualityState,
    before: &EqualityState,
    after: &EqualityState,
    groups: Seq<((VariableId, VariableId), Seq<VariableId>)>,
    a: VariableId,
    b: VariableId,
    relation: Relation,
    u: VariableId,
    other: Relation,
    v: VariableId,
)
    requires
        records_shared(info1, info2, before, after, groups, a, b, relation),
        in_some_group(groups, u),
        in_some_group(groups, v),
        both_relate(info1, info2, u, other, v),
        before.related(u, other) == Some(before.rep(v)),
    ensures
        after.related(u, other) == Some(after.rep(v)),
{
    let inverse = relation.spec_inverse();
    let ra = before.rep(a);
    let rb = before.rep(b);
    let ru = before.rep(u);
    lemma_recorded_ends(info1, info2, before, after, groups, a, b, relation);
    assert(after.rep(u) == ru);
    assert(after.rep(v) == before.rep(v));
    assert(after.info(ru) == before.related_info(a, b, relation, inverse, ru));
    if ru == rb && other == inverse {
        // The class of `u` is that of `b`: what is related to it is the class of `a`.
        assert(before.rep(u) == before.rep(b));
        assert(same_pair(info1, info2, u, b));
        assert(info1.related(u, inverse) == info1.related(b, inverse));
        assert(info2.related(u, inverse) == info2.related(b, inverse));
        assert(same_pair(info1, info2, v, a));
        assert(before.rep(v) == before.rep(a));
        assert(after.rep(ra) == before.rep(ra));
    } else if ru == ra && other == relation {
        assert(before.rep(u) == before.rep(a));
        assert(same_pair(info1, info2, u, a));
        assert(info1.related(u, relation) == info1.related(a, relation));
        assert(info2.related(u, relation) == info2.related(a, relation));
        assert(same_pair(info1, info2, v, b));
        assert(before.rep(v) == before.rep(b));
        assert(after.rep(rb) == before.rep(rb));
    } else {
        assert(after.info(ru).spec_get(other) == before.info(ru).spec_get(other));
        let y = before.info(ru).spec_get(other).unwrap();
        assert(after.rep(y) == before.rep(y));
    }
}

/// Recording a relation that both states have, between variables in
/// groups, leaves the classes as they are, records only what both states
/// have, and keeps every relation of both states that was recorded before.
proof fn lemma_record_shared(
    info1: &EqualityState,
    info2: &EqualityState,
    before: &EqualityState,
    after: &EqualityState,
    groups: Seq<((VariableId, VariableId), Seq<VariableId>)>,
    a: VariableId,
    b: VariableId,
    relation: Relation,
)
    requires
        records_shared(info1, info2, before, after, groups, a, b, relation),
    ensures
        joins_groups(info1, info2, after, groups),
        relations_shared(info1, info2, after, groups),
        forall|u: VariableId, other: Relation, v: VariableId|
            in_some_group(groups, u) && in_some_group(groups, v) && #[trigger] both_relate(
                info1,
                info2,
                u,
                other,
                v,
            ) && before.related(u, other) == Some(before.rep(v)) ==> after.related(u, other)
                == Some(after.rep(v)),
{
    assert forall|u: VariableId, v: VariableId|
        #![trigger after.rep(u), after.rep(v)]
        after.rep(u) == after.rep(v) <==> (u == v || (in_some_group(groups, u) && in_some_group(
            groups,
            v,
        ) && same_pair(info1, info2, u, v))) by {
        assert(after.rep(u) == before.rep(u));
        assert(after.rep(v) == before.rep(v));
        assert(before.rep(u) == before.rep(v) <==> (u == v || (in_some_group(groups, u)
            && in_some_group(groups, v) && same_pair(info1, info2, u, v))));
    }
    lemma_record_stays_shared(info1, info2, before, after, groups, a, b, relation);
    assert forall|u: VariableId, other: Relation, v: VariableId|
        in_some_group(groups, u) && in_some_group(groups, v) && #[trigger] both_relate(
            info1,
            info2,
            u,
            other,
            v,
        ) && before.related(u, other) == Some(before.rep(v)) implies after.related(u, other)
        == Some(after.rep(v)) by {
        lemma_record_keeps(info1, info2, before, after, groups, a, b, relation, u, other, v);
    }
}

/// Makes the variables of each group one class.
fn union_groups(
    result: &mut EqualityState,
    groups: &Vec<((VariableId, VariableId), Vec<VariableId>)>,
    Ghost(info1): Ghost<&EqualityState>,
    Ghost(info2): Ghost<&EqualityState>,
)
    requires
        old(result).wf(),
        unrecorded(old(result)),
        forall|v: VariableId| old(result).rep(v) == v,
        groups_ok(info1, info2, listed(groups@)),
    ensures
        final(result).wf(),
        unrecorded(final(result)),
        forall|u: VariableId, v: VariableId|
            #![trigger final(result).rep(u), final(result).rep(v)]
            final(result).rep(u) == final(result).rep(v) <==> (u == v || (in_some_group(
                listed(groups@),
                u,
            ) && in_some_group(listed(groups@), v) && same_pair(info1, info2, u, v))),
{
    let ghost all = listed(groups@);
    let ghost mut seen: Set<VariableId> = Set::empty();
    let mut i: usize = 0;
    while i < groups.len()
        invariant
            i <= groups@.len(),
            all == listed(groups@),
            groups_ok(info1, info2, all),
            result.wf(),
            unrecorded(result),
            joins_seen(info1, info2, result, seen),
            forall|x: VariableId|
                seen.contains(x) ==> in_some_group(all, x) && exists|a: int|
                    0 <= a < i && (#[trigger] all[a]).0 == rep_pair(info1, info2, x),
            forall|a: int, b: int|
                0 <= a < i && all[a].1.len() > 1 && 0 <= b < all[a].1.len() ==> seen.contains(
                    #[trigger] all[a].1[b],
                ),
        decreases groups@.len() - i,
    {
        let members = &groups[i].1;
        proof {
            assert(all[i as int].1 == members@);
        }
        if members.len() > 1 {
            let first = members[0];
            proof {
                assert(all[i as int].1[0] == first);
                assert(rep_pair(info1, info2, first) == all[i as int].0);
                assert forall|x: VariableId| seen.contains(x) implies !same_pair(
                    info1,
                    info2,
                    x,
                    first,
                ) by {
                    let a = choose|a: int|
                        0 <= a < i && (#[trigger] all[a]).0 == rep_pair(info1, info2, x);
                    assert(all[a].0 != all[i as int].0);
                }
                lemma_join_enter(info1, info2, result, seen, first);
                seen = seen.insert(first);
            }
            let mut j: usize = 1;
            while j < members.len()
                invariant
                    1 <= j <= members@.len(),
                    i < groups@.len(),
                    all == listed(groups@),
                    groups_ok(info1, info2, all),
                    members@ == all[i as int].1,
                    first == members@[0],
                    result.wf(),
                    unrecorded(result),
                    joins_seen(info1, info2, result, seen),
                    seen.contains(first),
                    forall|x: VariableId|
                        seen.contains(x) ==> in_some_group(all, x) && exists|a: int|
                            0 <= a < i + 1 && (#[trigger] all[a]).0 == rep_pair(info1, info2, x),
                    forall|a: int, b: int|
                        0 <= a < i && all[a].1.len() > 1 && 0 <= b < all[a].1.len()
                            ==> seen.contains(#[trigger] all[a].1[b]),
                    forall|b: int| 0 <= b < j ==> seen.contains(#[trigger] members@[b]),
                decreases members@.len() - j,
            {
                let ghost before = *result;
                let member = members[j];
                proof {
                    assert(all[i as int].1[j as int] == member);
                    assert(rep_pair(info1, info2, member) == all[i as int].0);
                    assert(rep_pair(info1, info2, first) == all[i as int].0);
                    assert(before.info(before.rep(first)) == ClassInfo::spec_empty());
                    assert(before.info(before.rep(member)) == ClassInfo::spec_empty());
                    assert(!before.conflicting(first, member));
                }
                result.union(first, member);
                proof {
                    lemma_join_step(info1, info2, &before, result, seen, first, member);
                    seen = seen.insert(member);
                    assert forall|r: VariableId| #[trigger]
                        result.info(r) == ClassInfo::spec_empty() by {
                        assert(result.info(r) == before.joined_info(first, member, r));
                        assert(before.info(r) == ClassInfo::spec_empty());
                        assert(before.info(before.lower_rep(first, member))
                            == ClassInfo::spec_empty());
                        assert(before.info(before.higher_rep(first, member))
                            == ClassInfo::spec_empty());
                    }
                    assert(in_some_group(all, member));
                }
                j += 1;
            }
        }
        i += 1;
    }
    proof {
        assert forall|u: VariableId, v: VariableId|
            #![trigger result.rep(u), result.rep(v)]
            result.rep(u) == result.rep(v) <==> (u == v || (in_some_group(all, u) && in_some_group(
                all,
                v,
            ) && same_pair(info1, info2, u, v))) by {
            assert(result.rep(u) == result.rep(v) <==> (u == v || (seen.contains(u)
                && seen.contains(v) && same_pair(info1, info2, u, v))));
            if u != v && in_some_group(all, u) && in_some_group(all, v) && same_pair(
                info1,
                info2,
                u,
                v,
            ) {
                let (a, b) = choose|a: int, b: int|
                    0 <= a < all.len() && 0 <= b < all[a].1.len() && #[trigger] all[a].1[b] == u;
                let (c, d) = choose|c: int, d: int|
                    0 <= c < all.len() && 0 <= d < all[c].1.len() && #[trigger] all[c].1[d] == v;
                assert(rep_pair(info1, info2, all[a].1[b]) == all[a].0);
                assert(rep_pair(info1, info2, all[c].1[d]) == all[c].0);
                if a < c {
                    assert(all[a].0 != all[c].0);
                } else if c < a {
                    assert(all[c].0 != all[a].0);
                }
                assert(a == c);
                assert(b != d);
                assert(seen.contains(all[a].1[b]));
                assert(seen.contains(all[c].1[d]));
            }
        }
    }
}

/// The index lists the group with the given pair of representatives.
pub open spec fn lists_group(
    index: Seq<(VariableId, Seq<(VariableId, VariableId)>)>,
    key: (VariableId, VariableId),
) -> bool {
    has_key(index, key.0) && exists|m: int|
        0 <= m < index[index_of(index, key.0)].1.len() && (#[trigger] index[index_of(
            index,
            key.0,
        )].1[m]).0 == key.1
}

/// Under each representative of the first state, the index lists a pair for
/// each of the first `upto` groups with that representative: the
/// representative in the second state, and a variable of the group.
pub open spec fn indexed(
    info1: &EqualityState,
    info2: &EqualityState,
    groups: Seq<((VariableId, VariableId), Seq<VariableId>)>,
    index: Seq<(VariableId, Seq<(VariableId, VariableId)>)>,
    upto: int,
) -> bool {
    &&& distinct_keys(index)
    &&& forall|g: int| 0 <= g < upto ==> lists_group(index, (#[trigger] groups[g]).0)
    &&& forall|p: int, m: int|
        0 <= p < index.len() && 0 <= m < index[p].1.len() ==> in_some_group(
            groups,
            (#[trigger] index[p].1[m]).1,
        ) && rep_pair(info1, info2, index[p].1[m].1) == (index[p].0, index[p].1[m].0)
}

/// Lists, for each representative in the first state, the groups with that
/// representative: for each the representative in the second state and a
/// variable of the group, as `result` knows it.
fn index_groups(
    result: &mut EqualityState,
    groups: &Vec<((VariableId, VariableId), Vec<VariableId>)>,
    Ghost(info1): Ghost<&EqualityState>,
    Ghost(info2): Ghost<&EqualityState>,
) -> (intersections: PairListMap)
    requires
        old(result).wf(),
        groups_ok(info1, info2, listed(groups@)),
        joins_groups(info1, info2, old(result), listed(groups@)),
    ensures
        final(result).wf(),
        final(result).same_partition(old(result)),
        final(result).same_records(old(result)),
        indexed(
            info1,
            info2,
            listed(groups@),
            pair_list_entries(intersections),
            groups@.len() as int,
        ),
{
    let mut intersections = pair_list_map_new();
    let ghost start = *result;
    let ghost all = listed(groups@);
    let mut i: usize = 0;
    while i < groups.len()
        invariant
            i <= groups@.len(),
            all == listed(groups@),
            groups_ok(info1, info2, all),
            joins_groups(info1, info2, &start, all),
            result.wf(),
            result.same_partition(&start),
            result.same_records(&start),
            indexed(info1, info2, all, pair_list_entries(intersections), i as int),
        decreases groups@.len() - i,
    {
        let (rep1, rep2) = groups[i].0;
        proof {
            assert(all[i as int].0 == (rep1, rep2));
            assert(all[i as int].1 == groups@[i as int].1@);
            assert(all[i as int].1.len() > 0);
        }
        let first = groups[i].1[0];
        let known = result.find(first);
        let ghost before = pair_list_entries(intersections);
        proof {
            assert(all[i as int].1[0] == first);
            assert(in_some_group(all, first));
            assert(rep_pair(info1, info2, first) == (rep1, rep2));
            assert(known == start.rep(first));
            lemma_joined_same_pair(info1, info2, &start, all, first);
            lemma_append_at(before, rep1, (rep2, known));
        }
        pair_list_map_push(&mut intersections, rep1, (rep2, known));
        proof {
            let after = pair_list_entries(intersections);
            assert forall|p: int, m: int|
                0 <= p < after.len() && 0 <= m < after[p].1.len() implies in_some_group(
                all,
                (#[trigger] after[p].1[m]).1,
            ) && rep_pair(info1, info2, after[p].1[m].1) == (after[p].0, after[p].1[m].0) by {
                if p < before.len() {
                    if before[p].0 == rep1 {
                        if m < before[p].1.len() {
                            assert(after[p].1[m] == before[p].1[m]);
                        }
                    } else {
                        assert(after[p] == before[p]);
                    }
                }
            }
            assert forall|g: int| 0 <= g < i + 1 implies lists_group(
                after,
                (#[trigger] all[g]).0,
            ) by {
                let key = all[g].0;
                if g < i {
                    assert(lists_group(before, key));
                    let p = index_of(before, key.0);
                    lemma_key(before, key.0);
                    assert(after[p].0 == key.0);
                    lemma_entry(after, p);
                    let m = choose|m: int|
                        0 <= m < before[p].1.len() && (#[trigger] before[p].1[m]).0 == key.1;
                    if key.0 == rep1 {
                        assert(after[p].1[m] == before[p].1[m]);
                    } else {
                        assert(after[p] == before[p]);
                    }
                    assert(after[index_of(after, key.0)].1[m].0 == key.1);
                } else {
                    lemma_key(after, rep1);
                    let p = index_of(after, rep1);
                    if p < before.len() {
                        assert(before[p].0 == rep1);
                        assert(after[p].1[before[p].1.len() as int].0 == rep2);
                    } else {
                        assert(after[p].1[0].0 == rep2);
                    }
                }
            }
        }
        i += 1;
    }
    intersections
}

/// The variable that `result` has for the group with the representatives
/// that `rep1` has in the first state and `rep2` in the second, if both
/// are given and there is such a group.
fn find_intersection_rep(
    result: &mut EqualityState,
    info1: &EqualityState,
    info2: &EqualityState,
    intersections: &PairListMap,
    rep1: Option<VariableId>,
    rep2: Option<VariableId>,
    Ghost(groups): Ghost<Seq<((VariableId, VariableId), Seq<VariableId>)>>,
) -> (r: Option<VariableId>)
    requires
        old(result).wf(),
        info1.wf(),
        info2.wf(),
        indexed(info1, info2, groups, pair_list_entries(*intersections), groups.len() as int),
    ensures
        final(result).wf(),
        final(result).same_partition(old(result)),
        final(result).same_records(old(result)),
        forall|x: VariableId| final(result).info(x) == old(result).info(x),
        forall|v: VariableId| final(result).linked(v) == old(result).linked(v),
        r is Some ==> rep1 is Some && rep2 is Some && exists|known: VariableId|
            r == Some(old(result).rep(known)) && #[trigger] in_some_group(groups, known)
                && rep_pair(info1, info2, known) == (
                info1.rep(rep1.unwrap()),
                info2.rep(rep2.unwrap()),
            ),
        r is None && rep1 is Some && rep2 is Some ==> forall|g: int|
            0 <= g < groups.len() ==> (#[trigger] groups[g]).0 != (
                info1.rep(rep1.unwrap()),
                info2.rep(rep2.unwrap()),
            ),
{
    let (target1, target2) = match (rep1, rep2) {
        (Some(held1), Some(held2)) => (info1.find_immut(held1), info2.find_immut(held2)),
        _ => {
            return None;
        },
    };
    let ghost index = pair_list_entries(*intersections);
    let candidates = match pair_list_map_get(intersections, target1) {
        Some(candidates) => candidates,
        None => {
            proof {
                assert forall|g: int| 0 <= g < groups.len() implies (#[trigger] groups[g]).0 != (
                    target1,
                    target2,
                ) by {
                    assert(lists_group(index, groups[g].0));
                }
            }
            return None;
        },
    };
    let ghost p = index_of(index, target1);
    proof {
        lemma_key(index, target1);
    }
    let mut i: usize = 0;
    while i < candidates.len()
        invariant
            i <= candidates@.len(),
            result.wf(),
            *result == *old(result),
            candidates@ == index[p].1,
            0 <= p < index.len(),
            index[p].0 == target1,
            indexed(info1, info2, groups, index, groups.len() as int),
            forall|m: int| 0 <= m < i ==> (#[trigger] candidates@[m]).0 != target2,
            rep1 is Some && rep2 is Some,
            target1 == info1.rep(rep1.unwrap()),
            target2 == info2.rep(rep2.unwrap()),
        decreases candidates@.len() - i,
    {
        let (intersection_rep2, intersection_rep) = candidates[i];
        if intersection_rep2 == target2 {
            let known = result.find(intersection_rep);
            proof {
                assert(index[p].1[i as int] == (intersection_rep2, intersection_rep));
                assert(in_some_group(groups, index[p].1[i as int].1));
                assert(Some(known) == Some(old(result).rep(intersection_rep)) && in_some_group(
                    groups,
                    intersection_rep,
                ) && rep_pair(info1, info2, intersection_rep) == (
                    info1.rep(rep1.unwrap()),
                    info2.rep(rep2.unwrap()),
                ));
            }
            return Some(known);
        }
        i += 1;
    }
    proof {
        assert forall|g: int| 0 <= g < groups.len() implies (#[trigger] groups[g]).0 != (
            target1,
            target2,
        ) by {
            if groups[g].0 == (target1, target2) {
                assert(lists_group(index, groups[g].0));
                let m = choose|m: int|
                    0 <= m < index[index_of(index, target1)].1.len() && (#[trigger] index[index_of(
                        index,
                        target1,
                    )].1[m]).0 == target2;
                assert(candidates@[m].0 == target2);
            }
        }
    }
    None
}

/// Every relation of the two kinds that are recorded directly, which both
/// states have from a variable whose pair of representatives is in
/// `done`, is recorded in `result`, from both sides.
pub open spec fn recorded_for(
    info1: &EqualityState,
    info2: &EqualityState,
    result: &EqualityState,
    done: Set<(VariableId, VariableId)>,
) -> bool {
    forall|u: VariableId, relation: Relation, v: VariableId|
        (relation is Boxed || relation is Snapshot) && done.contains(rep_pair(info1, info2, u))
            && #[trigger] both_relate(info1, info2, u, relation, v) ==> result.related(u, relation)
            == Some(result.rep(v)) && result.related(v, relation.spec_inverse()) == Some(
            result.rep(u),
        )
}

/// What holds of `result` while the relations are taken over, where the
/// relations of both states are symmetric.
pub open spec fn sharing(
    info1: &EqualityState,
    info2: &EqualityState,
    result: &EqualityState,
    groups: Seq<((VariableId, VariableId), Seq<VariableId>)>,
    done: Set<(VariableId, VariableId)>,
) -> bool {
    &&& joins_groups(info1, info2, result, groups)
    &&& relations_shared(info1, info2, result, groups)
    &&& recorded_for(info1, info2, result, done)
}

/// Where both states have a relation, they have it from the other side too,
/// and the variables on both sides are in groups.
proof fn lemma_both_relate(
    info1: &EqualityState,
    info2: &EqualityState,
    groups: Seq<((VariableId, VariableId), Seq<VariableId>)>,
    u: VariableId,
    relation: Relation,
    v: VariableId,
)
    requires
        info1.wf(),
        info1.symmetric(),
        info2.symmetric(),
        groups_cover(info1, info2, groups),
        both_relate(info1, info2, u, relation, v),
    ensures
        in_some_group(groups, u),
        in_some_group(groups, v),
        both_relate(info1, info2, v, relation.spec_inverse(), u),
{
    crate::analysis::equality_state::lemma_related_are_known(*info1, u, relation, v);
    assert(referenced(info1, info2, u));
    assert(referenced(info1, info2, v));
    crate::analysis::equality_state::lemma_related_of_rep(*info1, v, relation.spec_inverse());
    crate::analysis::equality_state::lemma_related_of_rep(*info2, v, relation.spec_inverse());
    assert(info1.related(u, relation) is Some);
    assert(info2.related(u, relation) is Some);
}

/// Records in `result` that `target` stands in `relation` to `var`, a
/// relation that both states have.
fn record_shared(
    result: &mut EqualityState,
    var: VariableId,
    target: VariableId,
    relation: Relation,
    Ghost(info1): Ghost<&EqualityState>,
    Ghost(info2): Ghost<&EqualityState>,
    Ghost(groups): Ghost<Seq<((VariableId, VariableId), Seq<VariableId>)>>,
    Ghost(done): Ghost<Set<(VariableId, VariableId)>>,
)
    requires
        old(result).wf(),
        info1.wf(),
        relation is Boxed || relation is Snapshot,
        info1.symmetric() && info2.symmetric() ==> sharing(info1, info2, old(result), groups, done)
            && groups_cover(info1, info2, groups) && in_some_group(groups, var) && in_some_group(
            groups,
            target,
        ) && both_relate(info1, info2, var, relation, target),
    ensures
        final(result).wf(),
        old(result).refined_by(final(result)),
        info1.symmetric() && info2.symmetric() ==> forall|v: VariableId|
            final(result).linked(v) == old(result).linked(v),
        info1.symmetric() && info2.symmetric() && old(result).knowledge().canonical()
            ==> final(result).knowledge().canonical(),
        info1.symmetric() && info2.symmetric()
            ==> sharing(info1, info2, final(result), groups, done)
            && final(result).related(var, relation) == Some(final(result).rep(target))
            && final(result).related(target, relation.spec_inverse()) == Some(
            final(result).rep(var),
        ) && forall|u: VariableId, other: Relation, v: VariableId|
            in_some_group(groups, u) && in_some_group(groups, v) && #[trigger] both_relate(
                info1,
                info2,
                u,
                other,
                v,
            ) && old(result).related(u, other) == Some(old(result).rep(v))
                ==> final(result).related(u, other) == Some(final(result).rep(v)),
{
    let ghost before = *result;
    proof {
        if info1.symmetric() && info2.symmetric() {
            lemma_shared_agrees(info1, info2, result, groups, var, target, relation);
        }
    }
    match relation {
        Relation::Boxed => result.set_box_relationship(var, target),
        _ => result.set_snapshot_relationship(var, target),
    }
    proof {
        if info1.symmetric() && info2.symmetric() {
            if before.knowledge().canonical() {
                crate::analysis::equality_state::lemma_agreeing_canonical(
                    before,
                    *result,
                    var,
                    target,
                    relation,
                    relation.spec_inverse(),
                );
            }
            lemma_record_shared(info1, info2, &before, result, groups, var, target, relation);
            assert forall|u: VariableId, other: Relation, v: VariableId|
                (other is Boxed || other is Snapshot) && done.contains(rep_pair(info1, info2, u))
                    && #[trigger] both_relate(info1, info2, u, other, v) implies result.related(
                u,
                other,
            ) == Some(result.rep(v)) && result.related(v, other.spec_inverse()) == Some(
                result.rep(u),
            ) by {
                lemma_both_relate(info1, info2, groups, u, other, v);
                assert(before.related(u, other) == Some(before.rep(v)));
                assert(before.related(v, other.spec_inverse()) == Some(before.rep(u)));
                assert(both_relate(info1, info2, v, other.spec_inverse(), u));
            }
        }
    }
}

/// Takes over into `result` the relation `relation` of the group of
/// `intersection_var`, where both states have it to the same group.
fn share_relation(
    result: &mut EqualityState,
    info1: &EqualityState,
    info2: &EqualityState,
    intersections: &PairListMap,
    intersection_var: VariableId,
    class1: &ClassInfo,
    class2: &ClassInfo,
    relation: Relation,
    Ghost(groups): Ghost<Seq<((VariableId, VariableId), Seq<VariableId>)>>,
    Ghost(done): Ghost<Set<(VariableId, VariableId)>>,
)
    requires
        old(result).wf(),
        info1.wf(),
        info2.wf(),
        relation is Boxed || relation is Snapshot,
        indexed(info1, info2, groups, pair_list_entries(*intersections), groups.len() as int),
        groups_ok(info1, info2, groups),
        in_some_group(groups, intersection_var),
        *class1 == info1.info(info1.rep(intersection_var)),
        *class2 == info2.info(info2.rep(intersection_var)),
        info1.symmetric() && info2.symmetric() ==> sharing(info1, info2, old(result), groups, done)
            && groups_cover(info1, info2, groups),
    ensures
        final(result).wf(),
        old(result).refined_by(final(result)),
        info1.symmetric() && info2.symmetric() ==> forall|v: VariableId|
            final(result).linked(v) == old(result).linked(v),
        info1.symmetric() && info2.symmetric() && old(result).knowledge().canonical()
            ==> final(result).knowledge().canonical(),
        info1.symmetric() && info2.symmetric()
            ==> sharing(info1, info2, final(result), groups, done)
            && (forall|v: VariableId| #[trigger]
            both_relate(info1, info2, intersection_var, relation, v) ==> final(result).related(
                intersection_var,
                relation,
            ) == Some(final(result).rep(v)) && final(result).related(
                v,
                relation.spec_inverse(),
            ) == Some(final(result).rep(intersection_var))) && forall|
            u: VariableId,
            other: Relation,
            v: VariableId,
        |
            in_some_group(groups, u) && in_some_group(groups, v) && #[trigger] both_relate(
                info1,
                info2,
                u,
                other,
                v,
            ) && old(result).related(u, other) == Some(old(result).rep(v))
                ==> final(result).related(u, other) == Some(final(result).rep(v)),
{
    let ghost before = *result;
    let ghost symmetric = info1.symmetric() && info2.symmetric();
    let found = find_intersection_rep(
        result,
        info1,
        info2,
        intersections,
        class1.get(relation),
        class2.get(relation),
        Ghost(groups),
    );
    let ghost looked = *result;
    proof {
        crate::analysis::equality_state::lemma_same_knowledge(looked, before);
        assert(before.refined_by(&looked));
        if symmetric {
            assert(sharing(info1, info2, &looked, groups, done)) by {
                assert forall|u: VariableId, v: VariableId|
                    #![trigger looked.rep(u), looked.rep(v)]
                    looked.rep(u) == looked.rep(v) <==> (u == v || (in_some_group(groups, u)
                        && in_some_group(groups, v) && same_pair(info1, info2, u, v))) by {
                    assert(before.rep(u) == before.rep(v) <==> (u == v || (in_some_group(groups, u)
                        && in_some_group(groups, v) && same_pair(info1, info2, u, v))));
                }
                assert forall|x: VariableId, other: Relation| #[trigger]
                    looked.info(x).spec_get(other) is Some implies in_some_group(groups, x)
                    && in_some_group(groups, looked.info(x).spec_get(other).unwrap())
                    && both_relate(
                    info1,
                    info2,
                    x,
                    other,
                    looked.info(x).spec_get(other).unwrap(),
                ) by {
                    assert(before.info(x).spec_get(other) is Some);
                }
                assert forall|u: VariableId, other: Relation, v: VariableId|
                    (other is Boxed || other is Snapshot) && done.contains(
                        rep_pair(info1, info2, u),
                    ) && #[trigger] both_relate(info1, info2, u, other, v) implies looked.related(
                    u,
                    other,
                ) == Some(looked.rep(v)) && looked.related(v, other.spec_inverse()) == Some(
                    looked.rep(u),
                ) by {
                    assert(before.related(u, other) == Some(before.rep(v)));
                    assert(before.related(v, other.spec_inverse()) == Some(before.rep(u)));
                }
            }
        }
    }
    match found {
        Some(target) => {
            proof {
                if symmetric {
                    let known = choose|known: VariableId|
                        found == Some(before.rep(known)) && #[trigger] in_some_group(groups, known)
                            && rep_pair(info1, info2, known) == (
                            info1.rep(class1.spec_get(relation).unwrap()),
                            info2.rep(class2.spec_get(relation).unwrap()),
                        );
                    lemma_joined_same_pair(info1, info2, &before, groups, known);
                    assert(in_some_group(groups, target));
                    assert(both_relate(info1, info2, intersection_var, relation, target));
                }
            }
            record_shared(
                result,
                intersection_var,
                target,
                relation,
                Ghost(info1),
                Ghost(info2),
                Ghost(groups),
                Ghost(done),
            );
            proof {
                if symmetric {
                    assert forall|v: VariableId| #[trigger]
                        both_relate(
                            info1,
                            info2,
                            intersection_var,
                            relation,
                            v,
                        ) implies result.related(intersection_var, relation) == Some(result.rep(v))
                        && result.related(v, relation.spec_inverse()) == Some(
                        result.rep(intersection_var),
                    ) by {
                        lemma_both_relate(info1, info2, groups, intersection_var, relation, v);
                        assert(same_pair(info1, info2, v, target));
                        assert(result.rep(v) == result.rep(target));
                    }
                    assert forall|u: VariableId, other: Relation, v: VariableId|
                        in_some_group(groups, u) && in_some_group(groups, v)
                            && #[trigger] both_relate(info1, info2, u, other, v) && before.related(
                            u,
                            other,
                        ) == Some(before.rep(v)) implies result.related(u, other) == Some(
                        result.rep(v),
                    ) by {
                        assert(looked.related(u, other) == Some(looked.rep(v)));
                    }
                }
            }
        },
        None => {
            proof {
                if symmetric {
                    assert forall|v: VariableId| #[trigger]
                        both_relate(info1, info2, intersection_var, relation, v) implies false by {
                        lemma_both_relate(info1, info2, groups, intersection_var, relation, v);
                        let (g, j) = choose|g: int, j: int|
                            0 <= g < groups.len() && 0 <= j < groups[g].1.len()
                                && #[trigger] groups[g].1[j] == v;
                        assert(rep_pair(info1, info2, groups[g].1[j]) == groups[g].0);
                    }
                    assert forall|u: VariableId, other: Relation, v: VariableId|
                        in_some_group(groups, u) && in_some_group(groups, v)
                            && #[trigger] both_relate(info1, info2, u, other, v) && before.related(
                            u,
                            other,
                        ) == Some(before.rep(v)) implies result.related(u, other) == Some(
                        result.rep(v),
                    ) by {}
                }
            }
        },
    }
}

/// Keeps the relations between classes that both states know: a relation
/// from a group to a group is recorded in `result` where each state has it
/// between the classes of which the two groups are part.
fn merge_class_relationships(
    info1: &EqualityState,
    info2: &EqualityState,
    intersections: &PairListMap,
    result: &mut EqualityState,
    Ghost(groups): Ghost<Seq<((VariableId, VariableId), Seq<VariableId>)>>,
)
    requires
        old(result).wf(),
        info1.wf(),
        info2.wf(),
        indexed(info1, info2, groups, pair_list_entries(*intersections), groups.len() as int),
        groups_ok(info1, info2, groups),
        groups_cover(info1, info2, groups),
        joins_groups(info1, info2, old(result), groups),
        unrecorded(old(result)),
    ensures
        final(result).wf(),
        old(result).refined_by(final(result)),
        info1.symmetric() && info2.symmetric() ==> forall|v: VariableId|
            final(result).linked(v) == old(result).linked(v),
        info1.symmetric() && info2.symmetric() && old(result).knowledge().canonical()
            ==> final(result).knowledge().canonical(),
        info1.symmetric() && info2.symmetric() ==> joins_groups(
            info1,
            info2,
            final(result),
            groups,
        ) && relations_shared(info1, info2, final(result), groups) && forall|
            u: VariableId,
            relation: Relation,
            v: VariableId,
        |
            (relation is Boxed || relation is Snapshot) && #[trigger] both_relate(
                info1,
                info2,
                u,
                relation,
                v,
            ) ==> final(result).related(u, relation) == Some(final(result).rep(v))
                && final(result).related(v, relation.spec_inverse()) == Some(final(result).rep(u)),
{
    let records1 = info1.records();
    let ghost start = *result;
    let ghost symmetric = info1.symmetric() && info2.symmetric();
    let ghost index = pair_list_entries(*intersections);
    let ghost mut done: Set<(VariableId, VariableId)> = Set::empty();
    proof {
        assert(relations_shared(info1, info2, result, groups)) by {
            assert forall|x: VariableId, relation: Relation| #[trigger]
                result.info(x).spec_get(relation) is Some implies false by {
                assert(result.info(x) == ClassInfo::spec_empty());
            }
        }
    }
    let mut i: usize = 0;
    while i < records1.len()
        invariant
            i <= records1@.len(),
            result.wf(),
            info1.wf(),
            info2.wf(),
            start.refined_by(result),
            index == pair_list_entries(*intersections),
            indexed(info1, info2, groups, index, groups.len() as int),
            groups_ok(info1, info2, groups),
            groups_cover(info1, info2, groups),
            symmetric == (info1.symmetric() && info2.symmetric()),
            distinct_keys(records1@),
            forall|j: int|
                0 <= j < records1@.len() ==> (#[trigger] records1@[j]).1 == info1.info(
                    records1@[j].0,
                ) && info1.rep(records1@[j].0) == records1@[j].0,
            symmetric ==> sharing(info1, info2, result, groups, done),
            symmetric ==> forall|v: VariableId| result.linked(v) == start.linked(v),
            symmetric && start.knowledge().canonical() ==> result.knowledge().canonical(),
            forall|g: int, j: int|
                0 <= g < groups.len() && 0 <= j < i && (#[trigger] groups[g]).0.0 == (
                #[trigger] records1@[j]).0 ==> done.contains(groups[g].0),
        decreases records1@.len() - i,
    {
        let (var, class1) = records1[i];
        proof {
            assert(records1@[i as int].0 == var);
        }
        let group_list = match pair_list_map_get(intersections, var) {
            Some(list) => list,
            None => {
                proof {
                    assert forall|g: int| 0 <= g < groups.len() implies (#[trigger] groups[g]).0.0
                        != var by {
                        assert(lists_group(index, groups[g].0));
                    }
                }
                Vec::new()
            },
        };
        let ghost p = if has_key(index, var) {
            index_of(index, var)
        } else {
            0
        };
        proof {
            if has_key(index, var) {
                lemma_key(index, var);
            }
        }
        let mut k: usize = 0;
        while k < group_list.len()
            invariant
                k <= group_list@.len(),
                i < records1@.len(),
                records1@[i as int] == (var, class1),
                class1 == info1.info(var),
                info1.rep(var) == var,
                group_list@.len() > 0 ==> has_key(index, var) && 0 <= p < index.len()
                    && index[p].0 == var && group_list@ == index[p].1,
                result.wf(),
                info1.wf(),
                info2.wf(),
                start.refined_by(result),
                index == pair_list_entries(*intersections),
                indexed(info1, info2, groups, index, groups.len() as int),
                groups_ok(info1, info2, groups),
                groups_cover(info1, info2, groups),
                symmetric == (info1.symmetric() && info2.symmetric()),
                symmetric ==> sharing(info1, info2, result, groups, done),
                symmetric ==> forall|v: VariableId| result.linked(v) == start.linked(v),
                symmetric && start.knowledge().canonical() ==> result.knowledge().canonical(),
                forall|g: int, j: int|
                    0 <= g < groups.len() && 0 <= j < i && (#[trigger] groups[g]).0.0 == (
                    #[trigger] records1@[j]).0 ==> done.contains(groups[g].0),
                forall|m: int| 0 <= m < k ==> done.contains((var, (#[trigger] group_list@[m]).0)),
            decreases group_list@.len() - k,
        {
            let (var_rep2, intersection_var) = group_list[k];
            let ghost key = (var, var_rep2);
            let ghost s0 = *result;
            proof {
                assert(index[p].1[k as int] == (var_rep2, intersection_var));
                assert(in_some_group(groups, index[p].1[k as int].1));
                assert(rep_pair(info1, info2, intersection_var) == key);
                crate::analysis::equality_state::lemma_find_idempotent(*info2, intersection_var);
            }
            if let Some(class2) = info2.related_record(var_rep2) {
                share_relation(
                    result,
                    info1,
                    info2,
                    intersections,
                    intersection_var,
                    &class1,
                    &class2,
                    Relation::Boxed,
                    Ghost(groups),
                    Ghost(done),
                );
                let ghost s1 = *result;
                share_relation(
                    result,
                    info1,
                    info2,
                    intersections,
                    intersection_var,
                    &class1,
                    &class2,
                    Relation::Snapshot,
                    Ghost(groups),
                    Ghost(done),
                );
                proof {
                    assert(s0.refined_by(&s1));
                    assert(s1.refined_by(result));
                    assert(start.refined_by(result));
                    if symmetric {
                        lemma_group_recorded(
                            info1,
                            info2,
                            &s1,
                            result,
                            groups,
                            done,
                            intersection_var,
                        );
                    }
                }
            } else {
                proof {
                    if symmetric {
                        assert forall|u: VariableId, relation: Relation, v: VariableId|
                            (relation is Boxed || relation is Snapshot)
                                && done.insert(key).contains(
                                rep_pair(info1, info2, u),
                            ) && #[trigger] both_relate(
                                info1,
                                info2,
                                u,
                                relation,
                                v,
                            ) implies result.related(u, relation) == Some(result.rep(v))
                            && result.related(v, relation.spec_inverse())
                                == Some(result.rep(u)) by {
                            if rep_pair(info1, info2, u) == key {
                                assert(info2.info(info2.rep(u)).spec_is_empty());
                                assert(info2.related(u, relation) is None);
                            }
                        }
                    }
                }
            }
            proof {
                done = done.insert(key);
            }
            k += 1;
        }
        proof {
            assert forall|g: int, j: int|
                0 <= g < groups.len() && 0 <= j < i + 1 && (#[trigger] groups[g]).0.0 == (
                #[trigger] records1@[j]).0 implies done.contains(groups[g].0) by {
                if j == i {
                    assert(lists_group(index, groups[g].0));
                    let m = choose|m: int|
                        0 <= m < index[index_of(index, var)].1.len() && (#[trigger] index[index_of(
                            index,
                            var,
                        )].1[m]).0 == groups[g].0.1;
                    assert(done.contains((var, group_list@[m].0)));
                }
            }
        }
        i += 1;
    }
    proof {
        if symmetric {
            assert forall|u: VariableId, relation: Relation, v: VariableId|
                (relation is Boxed || relation is Snapshot) && #[trigger] both_relate(
                    info1,
                    info2,
                    u,
                    relation,
                    v,
                ) implies result.related(u, relation) == Some(result.rep(v)) && result.related(
                v,
                relation.spec_inverse(),
            ) == Some(result.rep(u)) by {
                lemma_both_relate(info1, info2, groups, u, relation, v);
                crate::analysis::equality_state::lemma_find_idempotent(*info1, u);
                let r1 = info1.rep(u);
                assert(!info1.info(r1).spec_is_empty());
                lemma_key(records1@, r1);
                let j = index_of(records1@, r1);
                let (g, m) = choose|g: int, m: int|
                    0 <= g < groups.len() && 0 <= m < groups[g].1.len() && #[trigger] groups[g].1[m]
                        == u;
                assert(rep_pair(info1, info2, groups[g].1[m]) == groups[g].0);
                assert(groups[g].0.0 == records1@[j].0);
                assert(done.contains(groups[g].0));
            }
        }
    }
}

/// Once both kinds of relation have been taken over for the group of
/// `var`, all that both states have from that group is recorded.
proof fn lemma_group_recorded(
    info1: &EqualityState,
    info2: &EqualityState,
    middle: &EqualityState,
    result: &EqualityState,
    groups: Seq<((VariableId, VariableId), Seq<VariableId>)>,
    done: Set<(VariableId, VariableId)>,
    var: VariableId,
)
    requires
        info1.wf(),
        info1.symmetric(),
        info2.symmetric(),
        groups_cover(info1, info2, groups),
        in_some_group(groups, var),
        sharing(info1, info2, result, groups, done),
        joins_groups(info1, info2, middle, groups),
        forall|v: VariableId| #[trigger]
            both_relate(info1, info2, var, Relation::Boxed, v) ==> middle.related(
                var,
                Relation::Boxed,
            ) == Some(middle.rep(v)) && middle.related(v, Relation::Unboxed) == Some(
                middle.rep(var),
            ),
        forall|v: VariableId| #[trigger]
            both_relate(info1, info2, var, Relation::Snapshot, v) ==> result.related(
                var,
                Relation::Snapshot,
            ) == Some(result.rep(v)) && result.related(v, Relation::Original) == Some(
                result.rep(var),
            ),
        forall|u: VariableId, other: Relation, v: VariableId|
            in_some_group(groups, u) && in_some_group(groups, v) && #[trigger] both_relate(
                info1,
                info2,
                u,
                other,
                v,
            ) && middle.related(u, other) == Some(middle.rep(v)) ==> result.related(u, other)
                == Some(result.rep(v)),
    ensures
        recorded_for(info1, info2, result, done.insert(rep_pair(info1, info2, var))),
{
    let key = rep_pair(info1, info2, var);
    assert forall|u: VariableId, relation: Relation, v: VariableId|
        (relation is Boxed || relation is Snapshot) && done.insert(key).contains(
            rep_pair(info1, info2, u),
        ) && #[trigger] both_relate(info1, info2, u, relation, v) implies result.related(
        u,
        relation,
    ) == Some(result.rep(v)) && result.related(v, relation.spec_inverse()) == Some(
        result.rep(u),
    ) by {
        if !done.contains(rep_pair(info1, info2, u)) {
            lemma_both_relate(info1, info2, groups, u, relation, v);
            assert(same_pair(info1, info2, u, var));
            assert(result.rep(u) == result.rep(var));
            assert(middle.rep(u) == middle.rep(var));
            assert(both_relate(info1, info2, var, relation, v));
            if relation is Boxed {
                assert(middle.related(var, Relation::Boxed) == Some(middle.rep(v)));
                assert(middle.related(v, Relation::Unboxed) == Some(middle.rep(var)));
                assert(both_relate(info1, info2, v, Relation::Unboxed, var));
                assert(result.related(var, Relation::Boxed) == Some(result.rep(v)));
                assert(result.related(v, Relation::Unboxed) == Some(result.rep(var)));
            }
        }
    }
}

/// What is known once the first `upto` of the renamings `pairs` are taken
/// in, each renamed variable made one with the variable that it renames,
/// where no join conflicts.
pub open spec fn renaming_result(
    pairs: Seq<(VariableId, crate::ir::VarUsage)>,
    known: Knowledge,
    upto: int,
) -> Knowledge
    decreases upto,
{
    if upto <= 0 {
        known
    } else {
        renaming_result(pairs, known, upto - 1).joined(pairs[upto - 1].0, pairs[upto - 1].1.var_id)
    }
}

/// Whether `same` holds every renamed variable of `pairs` the same as the
/// variable that it renames.
pub open spec fn renaming_within(
    pairs: Seq<(VariableId, crate::ir::VarUsage)>,
    same: spec_fn(VariableId, VariableId) -> bool,
) -> bool {
    forall|i: int| 0 <= i < pairs.len() ==> same((#[trigger] pairs[i]).0, pairs[i].1.var_id)
}

/// Whether taking in the first `upto` of the renamings `pairs` meets no conflict.
pub open spec fn renaming_clean(
    pairs: Seq<(VariableId, crate::ir::VarUsage)>,
    known: Knowledge,
    upto: int,
) -> bool
    decreases upto,
{
    upto <= 0 || (renaming_clean(pairs, known, upto - 1) && !renaming_result(
        pairs,
        known,
        upto - 1,
    ).conflicting(pairs[upto - 1].0, pairs[upto - 1].1.var_id))
}

/// Whether one of the first `upto` of the renamings `pairs` speaks of `v`.
pub open spec fn renaming_mentions(
    pairs: Seq<(VariableId, crate::ir::VarUsage)>,
    upto: int,
    v: VariableId,
) -> bool {
    exists|j: int| 0 <= j < upto && ((#[trigger] pairs[j]).0 == v || pairs[j].1.var_id == v)
}

/// Whether the variables that the first `upto` of the renamings `pairs`
/// rename to are new: nothing is known of them, and none is spoken of by
/// an earlier renaming.
pub open spec fn renaming_fresh(
    pairs: Seq<(VariableId, crate::ir::VarUsage)>,
    known: Knowledge,
    upto: int,
) -> bool {
    forall|k: int|
        0 <= k < upto ==> known.unknown((#[trigger] pairs[k]).0) && !renaming_mentions(
            pairs,
            k,
            pairs[k].0,
        )
}

/// Renamings to new variables meet no conflict, and leave a variable
/// unknown of which they do not speak.
pub proof fn lemma_renaming_fresh(
    pairs: Seq<(VariableId, crate::ir::VarUsage)>,
    known: Knowledge,
    upto: int,
)
    requires
        0 <= upto <= pairs.len(),
        renaming_fresh(pairs, known, upto),
    ensures
        renaming_clean(pairs, known, upto),
        forall|v: VariableId|
            known.unknown(v) && !renaming_mentions(pairs, upto, v) ==> #[trigger] renaming_result(
                pairs,
                known,
                upto,
            ).unknown(v),
    decreases upto,
{
    if upto > 0 {
        let before = upto - 1;
        lemma_renaming_fresh(pairs, known, before);
        let so_far = renaming_result(pairs, known, before);
        let to = pairs[before].0;
        let from = pairs[before].1.var_id;
        assert(known.unknown(pairs[before].0) && !renaming_mentions(pairs, before, to));
        assert(so_far.unknown(to));
        lemma_unknown_joins(so_far, to, from);
        assert forall|v: VariableId|
            known.unknown(v) && !renaming_mentions(
                pairs,
                upto,
                v,
            ) implies #[trigger] renaming_result(pairs, known, upto).unknown(v) by {
            assert(!renaming_mentions(pairs, before, v)) by {
                if renaming_mentions(pairs, before, v) {
                    let j = choose|j: int|
                        0 <= j < before && ((#[trigger] pairs[j]).0 == v || pairs[j].1.var_id == v);
                    assert(0 <= j < upto);
                }
            }
            assert(pairs[before].0 != v && pairs[before].1.var_id != v);
            assert(so_far.unknown(v));
            lemma_unknown_kept_joined(so_far, to, from, v);
        }
    }
}

/// Renamings to new variables that are higher than what they rename leave
/// the records holding representatives only, and the representatives lowest.
pub proof fn lemma_renaming_new(
    pairs: Seq<(VariableId, crate::ir::VarUsage)>,
    known: Knowledge,
    upto: int,
)
    requires
        0 <= upto <= pairs.len(),
        renaming_fresh(pairs, known, upto),
        known.canonical(),
        known.lowest(),
        forall|k: int| 0 <= k < upto ==> (#[trigger] pairs[k]).1.var_id < pairs[k].0,
    ensures
        renaming_result(pairs, known, upto).canonical(),
        renaming_result(pairs, known, upto).lowest(),
    decreases upto,
{
    if upto > 0 {
        let before = upto - 1;
        lemma_renaming_new(pairs, known, before);
        lemma_renaming_fresh(pairs, known, before);
        let so_far = renaming_result(pairs, known, before);
        let to = pairs[before].0;
        let from = pairs[before].1.var_id;
        assert(known.unknown(pairs[before].0) && !renaming_mentions(pairs, before, to));
        assert(so_far.unknown(to));
        assert((so_far.rep)(from) <= from);
        assert(pairs[before].1.var_id < pairs[before].0);
        crate::analysis::knowledge::lemma_join_new_canonical(so_far, to, from);
        crate::analysis::knowledge::lemma_joined_lowest(so_far, to, from);
    }
}

/// Of a variable of which neither of two states with symmetric relations
/// knows anything, their intersection knows nothing.
proof fn lemma_intersection_unknown(
    info1: &EqualityState,
    info2: &EqualityState,
    merged: &EqualityState,
    v: VariableId,
)
    requires
        merged.wf(),
        is_intersection(info1, info2, merged),
        info1.knowledge().unknown(v),
        info2.knowledge().unknown(v),
    ensures
        merged.knowledge().unknown(v),
{
    let known = merged.knowledge();
    crate::analysis::equality_state::lemma_unknown_state(*info1, v);
    crate::analysis::equality_state::lemma_unknown_state(*info2, v);
    let r = merged.rep(v);
    lemma_find_idempotent(*merged, v);
    assert(merged.rep(r) == merged.rep(v));
    assert(info1.rep(r) == info1.rep(v));
    assert((info1.knowledge().rep)(r) == v <==> r == v);
    assert(r == v);
    assert forall|w: VariableId| #[trigger] (known.rep)(w) == v <==> w == v by {
        if merged.rep(w) == v {
            assert(merged.rep(w) == merged.rep(v));
            assert(info1.rep(w) == info1.rep(v));
            assert((info1.knowledge().rep)(w) == v <==> w == v);
        }
    }
    assert(info1.info(v) == (info1.knowledge().info)(v));
    assert forall|relation: Relation| merged.info(v).spec_get(relation) is None by {
        if merged.info(v).spec_get(relation) is Some {
            let x = merged.info(v).spec_get(relation).unwrap();
            assert(merged.related(v, relation) == Some(merged.rep(x)));
            assert(both_relate(info1, info2, v, relation, x));
            assert(info1.related(v, relation) is None);
        }
    }
    assert(merged.info(v) == ClassInfo::spec_empty()) by {
        assert(merged.info(v).spec_get(Relation::Boxed) is None);
        assert(merged.info(v).spec_get(Relation::Unboxed) is None);
        assert(merged.info(v).spec_get(Relation::Snapshot) is None);
        assert(merged.info(v).spec_get(Relation::Original) is None);
    }
    assert forall|s: VariableId, relation: Relation|
        #[trigger] (known.info)(s).spec_get(relation) != Some(v) by {
        if merged.info(s).spec_get(relation) == Some(v) {
            assert(!merged.info(s).spec_is_empty()) by {
                match relation {
                    Relation::Boxed => {},
                    Relation::Unboxed => {},
                    Relation::Snapshot => {},
                    Relation::Original => {},
                }
            }
            crate::analysis::equality_state::lemma_records_at_representatives(*merged, s);
            assert(merged.related(s, relation) == Some(merged.rep(v)));
            assert(both_relate(info1, info2, s, relation, v));
            let x = info1.info(info1.rep(s)).spec_get(relation).unwrap();
            assert(info1.rep(x) == v);
            assert((info1.knowledge().rep)(x) == v <==> x == v);
            assert((info1.knowledge().info)(info1.rep(s)).spec_get(relation) != Some(v));
        }
    }
}

/// Whether the edge `e` is a goto that renames `from` to `to`.
pub open spec fn renames(lowered: &Lowered, e: EdgeId, to: VariableId, from: VariableId) -> bool {
    match lowered.blocks@[e.0].end {
        BlockEnd::Goto(_, remapping) => exists|i: int|
            0 <= i < remapping.remapping@.len() && (#[trigger] remapping.remapping@[i]).0 == to
                && remapping.remapping@[i].1.var_id == from,
        _ => false,
    }
}

/// Whether every one of `edges`, of which there is at least one, renames
/// `from` to `to`.
pub open spec fn renamed_along(
    lowered: &Lowered,
    edges: Set<EdgeId>,
    to: VariableId,
    from: VariableId,
) -> bool {
    (exists|e: EdgeId| edges.contains(e)) && forall|e: EdgeId|
        edges.contains(e) ==> renames(lowered, e, to, from)
}

/// The state `info` holds each variable equal to the variable that every
/// one of `edges` renames to it.
pub open spec fn holds_renamings(lowered: &Lowered, edges: Set<EdgeId>, info: &EqualityState) -> bool {
    forall|to: VariableId, from: VariableId| #[trigger]
        renamed_along(lowered, edges, to, from) ==> info.rep(to) == info.rep(from)
}

/// What is known once the first `upto` of `statements` are taken in, one
/// after the other, where that is clean.
pub open spec fn block_result(statements: Seq<Statement>, known: Knowledge, upto: int) -> Knowledge
    decreases upto,
{
    if upto <= 0 {
        known
    } else {
        stmt_result(&statements[upto - 1], block_result(statements, known, upto - 1))
    }
}

/// Whether taking in the first `upto` of `statements`, one after the
/// other, is clean at each of them.
pub open spec fn block_clean(statements: Seq<Statement>, known: Knowledge, upto: int) -> bool
    decreases upto,
{
    upto <= 0 || (block_clean(statements, known, upto - 1) && stmt_clean(
        &statements[upto - 1],
        block_result(statements, known, upto - 1),
    ))
}

/// Whether the place `x` comes before the place `y`, where a place is a
/// block and an index in it: -1 for the block stands for what is there
/// before the function starts, -1 for the index for the entry of the block.
pub open spec fn earlier(rank: Seq<nat>, x: (int, int), y: (int, int)) -> bool {
    0 <= y.0 && (x.0 < 0 || rank[x.0] < rank[y.0] || (x.0 == y.0 && x.1 < y.1))
}

/// Whether `stmt`, which stands at the place `at`, gives its outputs their
/// value there and takes its input from before.
pub open spec fn stmt_staged(
    rank: Seq<nat>,
    home: spec_fn(VariableId) -> (int, int),
    stmt: &Statement,
    at: (int, int),
) -> bool {
    match *stmt {
        Statement::Snapshot(s) => home(s.original_output) == at && home(s.snapshot_output) == at
            && s.original_output != s.snapshot_output && earlier(rank, home(s.input.var_id), at),
        Statement::Desnap(s) => home(s.output) == at && earlier(rank, home(s.input.var_id), at),
        Statement::IntoBox(s) => home(s.output) == at && earlier(rank, home(s.input.var_id), at),
        Statement::Unbox(s) => home(s.output) == at && earlier(rank, home(s.input.var_id), at),
        _ => true,
    }
}

/// Whether the renamings `pairs` of a goto give each renamed variable its
/// value at the entry of `target`, each another variable, and take what
/// they rename from before the end `source_end` of the block of the goto.
pub open spec fn renaming_staged(
    rank: Seq<nat>,
    home: spec_fn(VariableId) -> (int, int),
    pairs: Seq<(VariableId, crate::ir::VarUsage)>,
    source_end: (int, int),
    target: int,
) -> bool {
    forall|k: int|
        0 <= k < pairs.len() ==> home((#[trigger] pairs[k]).0) == (target, -1int) && earlier(
            rank,
            home(pairs[k].1.var_id),
            source_end,
        ) && forall|j: int| 0 <= j < k ==> (#[trigger] pairs[j]).0 != pairs[k].0
}

/// Whether every variable of `lowered` gets its value once: `home` says
/// where, `rank` numbers the blocks so that every edge leads to a higher
/// number, every statement gives its outputs their value where it stands
/// and takes its input from before, and so does every renaming.
pub open spec fn staged_by(
    lowered: &Lowered,
    rank: Seq<nat>,
    home: spec_fn(VariableId) -> (int, int),
) -> bool {
    &&& lowered.ranked_by(rank)
    &&& forall|v: VariableId| (#[trigger] home(v)).0 < lowered.blocks@.len()
    &&& forall|b: int, i: int|
        0 <= b < lowered.blocks@.len() && 0 <= i < lowered.blocks@[b].statements@.len()
            ==> stmt_staged(rank, home, #[trigger] &lowered.blocks@[b].statements@[i], (b, i))
    &&& forall|b: int|
        0 <= b < lowered.blocks@.len() ==> match (#[trigger] lowered.blocks@[b]).end {
            BlockEnd::Goto(target, remapping) => renaming_staged(
                rank,
                home,
                remapping.remapping@,
                (b, lowered.blocks@[b].statements@.len() as int),
                target.0 as int,
            ),
            _ => true,
        }
}

/// Whether a variable that gets its value earlier is lower.
pub open spec fn ascending(rank: Seq<nat>, home: spec_fn(VariableId) -> (int, int)) -> bool {
    forall|u: VariableId, v: VariableId|
        earlier(rank, #[trigger] home(u), #[trigger] home(v)) ==> u < v
}

/// What a state holds at the place `at` of a function in which every
/// variable gets its value once: its relations are symmetric, and nothing
/// is known of a variable that does not get its value before `at`. Where
/// a variable that gets its value earlier is lower, its records hold
/// representatives only.
pub open spec fn staged_known(lowered: &Lowered, at: (int, int), info: &EqualityState) -> bool {
    forall|rank: Seq<nat>, home: spec_fn(VariableId) -> (int, int)| #[trigger]
        staged_by(lowered, rank, home) ==> {
            &&& info.symmetric()
            &&& forall|v: VariableId|
                !earlier(rank, home(v), at) ==> #[trigger] info.knowledge().unknown(v)
            &&& ascending(rank, home) ==> info.knowledge().canonical()
        }
}

/// The edge into `block`, where there is exactly one.
pub open spec fn only_edge(lowered: &Lowered, block: int) -> EdgeId {
    choose|e: EdgeId| in_edges(lowered, block).contains(e)
}

/// Whether `e` is the one edge into `block`.
pub open spec fn sole_edge(lowered: &Lowered, block: int, e: EdgeId) -> bool {
    forall|x: EdgeId| in_edges(lowered, block).contains(x) <==> x == e
}

/// What is known once `known` has crossed the edge `e`, where that is
/// clean: along a goto its renamings are taken in, along the arm of a
/// match nothing changes.
pub open spec fn edge_result(lowered: &Lowered, e: EdgeId, known: Knowledge) -> Knowledge {
    match lowered.blocks@[e.0].end {
        BlockEnd::Goto(_, remapping) => renaming_result(
            remapping.remapping@,
            known,
            remapping.remapping@.len() as int,
        ),
        _ => known,
    }
}

/// Whether taking `known` across the edge `e` meets no conflict.
pub open spec fn edge_clean(lowered: &Lowered, e: EdgeId, known: Knowledge) -> bool {
    match lowered.blocks@[e.0].end {
        BlockEnd::Goto(_, remapping) => renaming_clean(
            remapping.remapping@,
            known,
            remapping.remapping@.len() as int,
        ),
        _ => true,
    }
}

/// What is known at the entry of `block`, where a single path of at most
/// `steps` edges leads to it from the entry block and all is clean along
/// it: nothing at the entry block, else what is known at the end of the
/// block before, taken across the one edge into `block`.
pub open spec fn path_entry(lowered: &Lowered, block: int, steps: nat) -> Knowledge
    decreases steps, 0nat,
{
    if block == 0 || steps == 0 {
        Knowledge::nothing()
    } else {
        edge_result(
            lowered,
            only_edge(lowered, block),
            path_end(lowered, only_edge(lowered, block).0, (steps - 1) as nat),
        )
    }
}

/// What is known at the end of `block`, on the same terms: what is known
/// at its entry with its statements taken in.
pub open spec fn path_end(lowered: &Lowered, block: int, steps: nat) -> Knowledge
    decreases steps, 1nat,
{
    block_result(
        lowered.blocks@[block].statements@,
        path_entry(lowered, block, steps),
        lowered.blocks@[block].statements@.len() as int,
    )
}

/// Whether a single path of at most `steps` edges leads from the entry
/// block to `block`, each block on it after the first with one edge into
/// it, and everything up to the entry of `block` is clean.
pub open spec fn path_clean_entry(lowered: &Lowered, block: int, steps: nat) -> bool
    decreases steps, 0nat,
{
    block == 0 || (steps > 0 && sole_edge(lowered, block, only_edge(lowered, block))
        && path_clean_end(lowered, only_edge(lowered, block).0, (steps - 1) as nat) && edge_clean(
        lowered,
        only_edge(lowered, block),
        path_end(lowered, only_edge(lowered, block).0, (steps - 1) as nat),
    ))
}

/// The same, with the statements of `block` clean too.
pub open spec fn path_clean_end(lowered: &Lowered, block: int, steps: nat) -> bool
    decreases steps, 1nat,
{
    path_clean_entry(lowered, block, steps) && block_clean(
        lowered.blocks@[block].statements@,
        path_entry(lowered, block, steps),
        lowered.blocks@[block].statements@.len() as int,
    )
}

/// What a state holds where the edges `edges` into `block` have met. The
/// edges lead to the block. With no edge, it is the entry block and
/// nothing is known. Each variable equals the variable that every one of
/// the edges renames to it. And where a single clean path leads to the
/// block, the state knows exactly what the path gives, with symmetric
/// relations.
pub open spec fn entry_known(
    lowered: &Lowered,
    block: int,
    edges: Set<EdgeId>,
    info: &EqualityState,
) -> bool {
    &&& forall|e: EdgeId| edges.contains(e) ==> in_edges(lowered, block).contains(e)
    &&& (forall|e: EdgeId| !edges.contains(e)) ==> block == 0 && info.knowledge()
        == Knowledge::nothing()
    &&& holds_renamings(lowered, edges, info)
    &&& forall|steps: nat|
        block != 0 && #[trigger] path_clean_entry(lowered, block, steps) ==> info.knowledge()
            == path_entry(lowered, block, steps) && info.symmetric()
    &&& staged_known(lowered, (block, 0int), info)
}

/// What a state holds after the first `index` statements of `block`.
/// Where a single clean path leads to the block and the statements up to
/// there are clean, it knows exactly what they give, and its relations are
/// symmetric. In a block other than the entry block each variable equals
/// the variable that every edge into the block renames to it.
pub open spec fn block_known(
    lowered: &Lowered,
    block: int,
    index: int,
    info: &EqualityState,
) -> bool {
    let statements = lowered.blocks@[block].statements@;
    &&& forall|steps: nat|
        #[trigger] path_clean_entry(lowered, block, steps) && block_clean(
            statements,
            path_entry(lowered, block, steps),
            index,
        ) ==> info.knowledge() == block_result(
            statements,
            path_entry(lowered, block, steps),
            index,
        ) && info.symmetric()
    &&& block != 0 ==> holds_renamings(lowered, in_edges(lowered, block), info)
    &&& staged_known(lowered, (block, index), info)
}

/// A state of which nothing is known has symmetric relations.
proof fn lemma_nothing_symmetric(info: &EqualityState)
    requires
        info.knowledge() == Knowledge::nothing(),
    ensures
        info.symmetric(),
{
    assert forall|v: VariableId, relation: Relation| #[trigger]
        info.related(v, relation) is Some implies false by {
        assert(info.info(info.rep(v)) == (info.knowledge().info)(info.rep(v)));
    }
}

/// Where two states meet at a block that is not the entry block, along
/// sets of edges without an edge in common, what holds equal what both
/// hold equal holds what the edges of both rename; and more than one edge
/// leads to the block.
proof fn lemma_merge_entry(
    lowered: &Lowered,
    block: int,
    edges1: Set<EdgeId>,
    edges2: Set<EdgeId>,
    info1: &EqualityState,
    info2: &EqualityState,
    merged: &EqualityState,
)
    requires
        block != 0,
        edges1.disjoint(edges2),
        entry_known(lowered, block, edges1, info1),
        entry_known(lowered, block, edges2, info2),
        forall|u: VariableId, v: VariableId|
            info1.rep(u) == info1.rep(v) && info2.rep(u) == info2.rep(v) ==> merged.rep(u)
                == merged.rep(v),
        merged.wf(),
        info1.symmetric() && info2.symmetric() ==> is_intersection(info1, info2, merged),
        info1.symmetric() && info2.symmetric() ==> merged.knowledge().canonical(),
    ensures
        entry_known(lowered, block, edges1.union(edges2), merged),
{
    let both = edges1.union(edges2);
    let first = choose|e: EdgeId| edges1.contains(e);
    let second = choose|e: EdgeId| edges2.contains(e);
    assert(both.contains(first));
    assert(first != second);
    assert(in_edges(lowered, block).contains(first));
    assert(in_edges(lowered, block).contains(second));
    assert forall|to: VariableId, from: VariableId| #[trigger]
        renamed_along(lowered, both, to, from) implies merged.rep(to) == merged.rep(from) by {
        assert forall|e: EdgeId| edges1.contains(e) implies renames(lowered, e, to, from) by {
            assert(both.contains(e));
        }
        assert forall|e: EdgeId| edges2.contains(e) implies renames(lowered, e, to, from) by {
            assert(both.contains(e));
        }
        assert(renamed_along(lowered, edges1, to, from));
        assert(renamed_along(lowered, edges2, to, from));
    }
    assert forall|steps: nat| #[trigger] path_clean_entry(lowered, block, steps) implies false by {
        let e = only_edge(lowered, block);
        assert(sole_edge(lowered, block, e));
        assert(first == e && second == e);
    }
    assert forall|rank: Seq<nat>, home: spec_fn(VariableId) -> (int, int)| #[trigger]
        staged_by(lowered, rank, home) implies merged.symmetric() && (forall|v: VariableId|
        !earlier(rank, home(v), (block, 0int)) ==> #[trigger] merged.knowledge().unknown(v)) && (
    ascending(rank, home) ==> merged.knowledge().canonical()) by {
        assert(info1.symmetric() && info2.symmetric());
        assert forall|v: VariableId|
            !earlier(rank, home(v), (block, 0int)) implies #[trigger] merged.knowledge().unknown(
            v,
        ) by {
            assert(info1.knowledge().unknown(v));
            assert(info2.knowledge().unknown(v));
            lemma_intersection_unknown(info1, info2, merged, v);
        }
    }
}

/// What a state knows where the analysis of a block starts.
proof fn lemma_start_known(lowered: &Lowered, block: int, info: &EqualityState)
    requires
        0 <= block < lowered.blocks@.len(),
        entry_known(
            lowered,
            block,
            if block == 0 {
                Set::empty()
            } else {
                in_edges(lowered, block)
            },
            info,
        ),
    ensures
        block_known(lowered, block, 0, info),
{
    if block == 0 {
        assert(forall|e: EdgeId| !Set::<EdgeId>::empty().contains(e));
        assert(info.knowledge() == Knowledge::nothing());
        lemma_nothing_symmetric(info);
        assert forall|steps: nat| #[trigger] path_clean_entry(lowered, block, steps) implies path_entry(
            lowered,
            block,
            steps,
        ) == Knowledge::nothing() by {}
    }
}

/// What is known before a statement, with what the statement adds, is
/// what is known after it.
proof fn lemma_stmt_known(
    lowered: &Lowered,
    block: int,
    index: int,
    before: &EqualityState,
    after: &EqualityState,
)
    requires
        0 <= block < lowered.blocks@.len(),
        0 <= index < lowered.blocks@[block].statements@.len(),
        block_known(lowered, block, index, before),
        before.refined_by(after),
        stmt_effect(&lowered.blocks@[block].statements@[index], before, after),
    ensures
        block_known(lowered, block, index + 1, after),
{
    let statements = lowered.blocks@[block].statements@;
    let next = index + 1;
    assert forall|steps: nat|
        #[trigger] path_clean_entry(lowered, block, steps) && block_clean(
            statements,
            path_entry(lowered, block, steps),
            next,
        ) implies after.knowledge() == block_result(
        statements,
        path_entry(lowered, block, steps),
        next,
    ) && after.symmetric() by {
        let start = path_entry(lowered, block, steps);
        assert(block_clean(statements, start, index));
        assert(stmt_clean(&statements[index], block_result(statements, start, index)));
        assert(before.knowledge() == block_result(statements, start, index));
    }
    if block != 0 {
        let edges = in_edges(lowered, block);
        assert forall|to: VariableId, from: VariableId| #[trigger]
            renamed_along(lowered, edges, to, from) implies after.rep(to) == after.rep(from) by {
            assert(before.rep(to) == before.rep(from));
        }
    }
    assert forall|rank: Seq<nat>, home: spec_fn(VariableId) -> (int, int)| #[trigger]
        staged_by(lowered, rank, home) implies after.symmetric() && (forall|v: VariableId|
        !earlier(rank, home(v), (block, next)) ==> #[trigger] after.knowledge().unknown(v)) && (
    ascending(rank, home) ==> after.knowledge().canonical()) by {
        let stmt = &lowered.blocks@[block].statements@[index];
        let at = (block, index);
        assert(stmt_staged(rank, home, &lowered.blocks@[block].statements@[index], at));
        assert(before.symmetric());
        assert(!earlier(rank, at, at));
        assert(forall|v: VariableId| home(v) == at ==> before.knowledge().unknown(v));
        assert(stmt_fresh(stmt, before.knowledge())) by {
            match *stmt {
                Statement::Snapshot(s) => {
                    assert(s.snapshot_output != s.input.var_id);
                },
                _ => {},
            }
        }
        assert(stmt_clean(stmt, before.knowledge()));
        assert(after.knowledge() == stmt_result(stmt, before.knowledge()));
        assert forall|v: VariableId|
            !earlier(rank, home(v), (block, next)) implies #[trigger] after.knowledge().unknown(
            v,
        ) by {
            assert(!earlier(rank, home(v), at));
            assert(before.knowledge().unknown(v));
            assert(!stmt_mentions(stmt, v)) by {
                assert(earlier(rank, at, (block, next)));
                assert(home(v) != at);
            }
            lemma_unknown_kept_stmt(before.knowledge(), stmt, v);
        }
        if ascending(rank, home) {
            assert(before.knowledge().canonical());
            assert forall|out: VariableId| #[trigger] home(out) == at implies before.knowledge().above(
                out,
            ) by {
                assert forall|w: VariableId|
                    #[trigger] before.knowledge().unknown(w) || w < out by {
                    if earlier(rank, home(w), at) {
                        assert(earlier(rank, home(w), home(out)));
                    }
                }
            }
            assert forall|input: VariableId, out: VariableId|
                earlier(rank, #[trigger] home(input), at) && #[trigger] home(out)
                    == at implies input < out by {
                assert(earlier(rank, home(input), home(out)));
            }
            assert(stmt_new(stmt, before.knowledge()));
        }
    }
}

/// The state that has crossed an edge holds what the edge renames, and
/// where a single clean path leads across the edge, knows exactly what
/// the path gives.
proof fn lemma_edge_known(
    lowered: &Lowered,
    edge: &Edge,
    e: EdgeId,
    info: &EqualityState,
    crossed: &EqualityState,
)
    requires
        lowered.wf(),
        edge.leaves(lowered, e.0, e.1),
        block_known(lowered, e.0, lowered.blocks@[e.0].statements@.len() as int, info),
        *edge is MatchArm ==> crossed.knowledge() == info.knowledge(),
        info.symmetric() && *edge is MatchArm ==> crossed.symmetric(),
        *edge matches Edge::Goto { target, remapping } ==> {
            &&& forall|i: int|
                0 <= i < remapping.remapping@.len() ==> crossed.rep(
                    (#[trigger] remapping.remapping@[i]).0,
                ) == crossed.rep(remapping.remapping@[i].1.var_id)
            &&& renaming_clean(
                remapping.remapping@,
                info.knowledge(),
                remapping.remapping@.len() as int,
            ) ==> crossed.knowledge() == renaming_result(
                remapping.remapping@,
                info.knowledge(),
                remapping.remapping@.len() as int,
            ) && (info.symmetric() ==> crossed.symmetric())
        },
    ensures
        entry_known(lowered, crate::analysis::dataflow::edge_target(lowered, e), set![e], crossed),
{
    let edges = set![e];
    let target = crate::analysis::dataflow::edge_target(lowered, e);
    assert(edges.contains(e));
    assert(in_edges(lowered, target).contains(e));
    assert forall|to: VariableId, from: VariableId| #[trigger]
        renamed_along(lowered, edges, to, from) implies crossed.rep(to) == crossed.rep(from) by {
        assert(renames(lowered, e, to, from));
    }
    assert forall|steps: nat|
        target != 0 && #[trigger] path_clean_entry(
            lowered,
            target,
            steps,
        ) implies crossed.knowledge() == path_entry(lowered, target, steps)
        && crossed.symmetric() by {
        let one = only_edge(lowered, target);
        assert(sole_edge(lowered, target, one));
        assert(one == e);
        let before = (steps - 1) as nat;
        assert(path_clean_end(lowered, e.0, before));
        assert(path_clean_entry(lowered, e.0, before));
        assert(info.knowledge() == path_end(lowered, e.0, before));
        assert(edge_clean(lowered, e, info.knowledge()));
        assert(crossed.knowledge() == edge_result(lowered, e, info.knowledge()));
    }
    assert forall|rank: Seq<nat>, home: spec_fn(VariableId) -> (int, int)| #[trigger]
        staged_by(lowered, rank, home) implies crossed.symmetric() && (forall|v: VariableId|
        !earlier(rank, home(v), (target, 0int)) ==> #[trigger] crossed.knowledge().unknown(v)) && (
    ascending(rank, home) ==> crossed.knowledge().canonical()) by {
        let source = e.0;
        let end = (source, lowered.blocks@[source].statements@.len() as int);
        assert(info.symmetric());
        assert(lowered.successors(source)[e.1].0 as int == target);
        assert(rank[source] < rank[target]);
        assert(forall|v: VariableId| (#[trigger] home(v)).0 < lowered.blocks@.len());
        assert forall|v: VariableId| earlier(rank, #[trigger] home(v), end) implies earlier(
            rank,
            home(v),
            (target, 0int),
        ) by {}
        match *edge {
            Edge::Goto { target: to, remapping } => {
                let pairs = remapping.remapping@;
                assert(lowered.blocks@[source].end == BlockEnd::Goto(to, *remapping));
                assert(renaming_staged(rank, home, pairs, end, target));
                assert forall|k: int| 0 <= k < pairs.len() implies info.knowledge().unknown(
                    (#[trigger] pairs[k]).0,
                ) && !renaming_mentions(pairs, k, pairs[k].0) by {
                    assert(home(pairs[k].0) == (target, -1int));
                    assert(!earlier(rank, home(pairs[k].0), end));
                    if renaming_mentions(pairs, k, pairs[k].0) {
                        let j = choose|j: int|
                            0 <= j < k && ((#[trigger] pairs[j]).0 == pairs[k].0
                                || pairs[j].1.var_id == pairs[k].0);
                        assert(earlier(rank, home(pairs[j].1.var_id), end));
                    }
                }
                assert(renaming_fresh(pairs, info.knowledge(), pairs.len() as int));
                lemma_renaming_fresh(pairs, info.knowledge(), pairs.len() as int);
                assert forall|v: VariableId|
                    !earlier(
                        rank,
                        home(v),
                        (target, 0int),
                    ) implies #[trigger] crossed.knowledge().unknown(v) by {
                    assert(!earlier(rank, home(v), end));
                    assert(info.knowledge().unknown(v));
                    if renaming_mentions(pairs, pairs.len() as int, v) {
                        let j = choose|j: int|
                            0 <= j < pairs.len() && ((#[trigger] pairs[j]).0 == v
                                || pairs[j].1.var_id == v);
                        assert(home(pairs[j].0) == (target, -1int));
                        assert(earlier(rank, home(pairs[j].1.var_id), end));
                    }
                    assert(renaming_result(pairs, info.knowledge(), pairs.len() as int).unknown(v));
                }
                if ascending(rank, home) {
                    assert(info.knowledge().lowest()) by {
                        assert forall|v: VariableId| #[trigger] (info.knowledge().rep)(v) <= v by {
                            crate::analysis::equality_state::lemma_lowest_representative(
                                *info,
                                v,
                                v,
                            );
                        }
                    }
                    assert forall|k: int| 0 <= k < pairs.len() implies (#[trigger] pairs[k]).1.var_id
                        < pairs[k].0 by {
                        assert(home(pairs[k].0) == (target, -1int));
                        assert(earlier(rank, home(pairs[k].1.var_id), end));
                        assert(earlier(rank, home(pairs[k].1.var_id), home(pairs[k].0)));
                    }
                    lemma_renaming_new(pairs, info.knowledge(), pairs.len() as int);
                }
            },
            Edge::MatchArm { arm, match_info } => {
                assert forall|v: VariableId|
                    !earlier(
                        rank,
                        home(v),
                        (target, 0int),
                    ) implies #[trigger] crossed.knowledge().unknown(v) by {
                    assert(!earlier(rank, home(v), end));
                    assert(info.knowledge().unknown(v));
                }
            },
        }
    }
}

/// What the state at the end of a block holds.
proof fn lemma_result_known(lowered: &Lowered, block: int, info: &EqualityState)
    requires
        0 <= block < lowered.blocks@.len(),
        EqualityAnalysis.sound(
            lowered,
            crate::analysis::dataflow::result_site(Direction::Forward, lowered, block),
            info,
        ),
    ensures
        block_known(lowered, block, lowered.blocks@[block].statements@.len() as int, info),
{
    if lowered.blocks@[block].statements@.len() == 0 {
        lemma_start_known(lowered, block, info);
    }
}

impl DataflowAnalyzer for EqualityAnalysis {
    type Info = EqualityState;

    const DIRECTION: Direction = Direction::Forward;

    /// The analyzer has no state of its own.
    open spec fn inv(&self, lowered: &Lowered) -> bool {
        true
    }

    /// A state is accepted where it is well-formed and holds what is
    /// known there: where edges meet, what they rename; inside a block,
    /// also what the statements before it say.
    open spec fn sound(&self, lowered: &Lowered, site: Site, info: &EqualityState) -> bool {
        match site {
            Site::Join { block, edges } => info.wf() && entry_known(lowered, block, edges, info),
            Site::Point { block, index } => info.wf() && (0 <= block < lowered.blocks@.len() && 0
                < index <= lowered.blocks@[block].statements@.len() ==> holds_after(
                lowered.blocks@[block].statements@,
                index,
                info,
            ) && block_known(lowered, block, index, info)),
        }
    }

    /// At the entry of a function nothing is known.
    fn initial_info(&mut self, lowered: &Lowered, block_id: BlockId, block_end: &BlockEnd) -> (info:
        EqualityState)
        ensures
            forall|v: VariableId| info.rep(v) == v,
            forall|r: VariableId| info.info(r) == ClassInfo::spec_empty(),
    {
        EqualityState::new()
    }

    /// The join of two states holds two variables equal where both states
    /// do, and keeps the relations between classes that both states know.
    /// Where the relations of both states are symmetric, it holds nothing
    /// else equal and knows no other relation, and its relations are
    /// symmetric again.
    fn merge(
        &mut self,
        lowered: &Lowered,
        statement_location: StatementLocation,
        info1: EqualityState,
        info2: EqualityState,
    ) -> (info: EqualityState)
        ensures
            info.wf(),
            forall|u: VariableId, v: VariableId|
                info1.rep(u) == info1.rep(v) && info2.rep(u) == info2.rep(v) ==> info.rep(u)
                    == info.rep(v),
            info1.symmetric() && info2.symmetric() ==> is_intersection(&info1, &info2, &info),
    {
        let result = EqualityAnalysis::intersect(&info1, &info2);
        proof {
            assert(EqualityAnalysis::DIRECTION == Direction::Forward);
            let block = statement_location.0.0 as int;
            assert forall|edges1: Set<EdgeId>, edges2: Set<EdgeId>|
                #![trigger edges1.union(edges2)]
                entry_known(lowered, block, edges1, &info1) && entry_known(
                    lowered,
                    block,
                    edges2,
                    &info2,
                ) && edges1.disjoint(edges2) implies entry_known(
                lowered,
                block,
                edges1.union(edges2),
                &result,
            ) by {
                lemma_merge_entry(lowered, block, edges1, edges2, &info1, &info2, &result);
            }
        }
        result
    }

    /// What a statement says of its variables is taken into the state.
    fn transfer_stmt(
        &mut self,
        lowered: &Lowered,
        info: &mut EqualityState,
        statement_location: StatementLocation,
        stmt: &Statement,
    )
        ensures
            old(info).refined_by(final(info)),
            stmt_effect(stmt, old(info), final(info)),
    {
        assert(EqualityAnalysis::DIRECTION == Direction::Forward);
        let ghost before = *info;
        let ghost statements = lowered.blocks@[statement_location.0.0 as int].statements@;
        let ghost i = statement_location.1 as int;
        proof {
            assert forall|j: int| 0 <= j < i implies stmt_equates(
                #[trigger] &statements[j],
                &before,
            ) by {
                assert(holds_after(statements, i, &before));
            }
        }
        EqualityAnalysis::take_in(info, stmt);
        proof {
            assert forall|j: int| 0 <= j < i + 1 implies stmt_equates(
                #[trigger] &statements[j],
                info,
            ) by {
                if j < i {
                    assert(stmt_equates(&statements[j], &before));
                }
            }
            assert(stmt_holds(&statements[i + 1 - 1], info));
            if i == 0 {
                lemma_start_known(lowered, statement_location.0.0 as int, &before);
            }
            lemma_stmt_known(lowered, statement_location.0.0 as int, i, &before, info);
        }
    }

    /// A block is gone through statement by statement.
    fn transfer_block(
        &mut self,
        lowered: &Lowered,
        info: &mut EqualityState,
        block_id: BlockId,
        block: &Block,
    )
        ensures
            old(info).refined_by(final(info)),
            block_clean(
                block.statements@,
                old(info).knowledge(),
                block.statements@.len() as int,
            ) ==> final(info).knowledge() == block_result(
                block.statements@,
                old(info).knowledge(),
                block.statements@.len() as int,
            ) && (old(info).symmetric() ==> final(info).symmetric()),
    {
        assert(EqualityAnalysis::DIRECTION == Direction::Forward);
        let ghost start = *info;
        let ghost statements = block.statements@;
        let mut i: usize = 0;
        while i < block.statements.len()
            invariant
                i <= block.statements@.len(),
                lowered.wf(),
                block_id.0 < lowered.blocks@.len(),
                *block == lowered.blocks@[block_id.0 as int],
                statements == block.statements@,
                info.wf(),
                start.refined_by(info),
                self.sound(
                    lowered,
                    crate::analysis::dataflow::point_site(
                        Direction::Forward,
                        lowered,
                        block_id.0 as int,
                        i as int,
                    ),
                    info,
                ),
                block_clean(statements, start.knowledge(), i as int) ==> info.knowledge()
                    == block_result(statements, start.knowledge(), i as int) && (start.symmetric()
                    ==> info.symmetric()),
            decreases block.statements@.len() - i,
        {
            let ghost before = *info;
            self.transfer_stmt(lowered, info, (block_id, i), &block.statements[i]);
            proof {
                assert(before.refined_by(info));
                let next = i + 1;
                if block_clean(statements, start.knowledge(), next as int) {
                    assert(block_clean(statements, start.knowledge(), i as int));
                    assert(stmt_clean(&statements[i as int], before.knowledge()));
                    assert(stmt_effect(&statements[i as int], &before, info));
                }
            }
            i += 1;
        }
    }

    /// Along a goto, each renamed variable is the variable that it renames;
    /// along the arm of a match nothing changes. Where no join meets a
    /// conflict the result is known exactly; in any case nothing is joined
    /// that the renamings do not ask for.
    fn transfer_edge(&mut self, lowered: &Lowered, info: &EqualityState, edge: &Edge) -> (crossed:
        EqualityState)
        ensures
            crossed.wf(),
            info.refined_by(&crossed),
            edge is MatchArm ==> crossed.knowledge() == info.knowledge(),
            edge is MatchArm && info.symmetric() ==> crossed.symmetric(),
            edge matches Edge::Goto { target, remapping } ==> {
                &&& forall|i: int|
                    0 <= i < remapping.remapping@.len() ==> crossed.rep(
                        (#[trigger] remapping.remapping@[i]).0,
                    ) == crossed.rep(remapping.remapping@[i].1.var_id)
                &&& renaming_clean(
                    remapping.remapping@,
                    info.knowledge(),
                    remapping.remapping@.len() as int,
                ) ==> crossed.knowledge() == renaming_result(
                    remapping.remapping@,
                    info.knowledge(),
                    remapping.remapping@.len() as int,
                ) && (info.symmetric() ==> crossed.symmetric())
                &&& forall|same: spec_fn(VariableId, VariableId) -> bool| #[trigger]
                    info.congruent(same) && renaming_within(remapping.remapping@, same)
                        ==> crossed.congruent(same) && crossed.records_from(info, same)
            },
    {
        let new_info = EqualityAnalysis::cross(info, edge);
        proof {
            assert(EqualityAnalysis::DIRECTION == Direction::Forward);
            assert forall|e: EdgeId|
                edge.leaves(lowered, e.0, e.1) && #[trigger] self.sound(
                    lowered,
                    crate::analysis::dataflow::edge_from(Direction::Forward, lowered, e),
                    info,
                ) implies entry_known(
                lowered,
                crate::analysis::dataflow::edge_target(lowered, e),
                set![e],
                &new_info,
            ) by {
                lemma_result_known(lowered, e.0, info);
                lemma_edge_known(lowered, edge, e, info, &new_info);
            }
        }
        new_info
    }
}

/// `joined` holds two variables equal exactly if both states do, and has a
/// class in a relation to a class exactly if both states do; its relations
/// are symmetric.
pub open spec fn is_intersection(
    info1: &EqualityState,
    info2: &EqualityState,
    joined: &EqualityState,
) -> bool {
    &&& forall|u: VariableId, v: VariableId|
        #![trigger joined.rep(u), joined.rep(v)]
        joined.rep(u) == joined.rep(v) <==> info1.rep(u) == info1.rep(v) && info2.rep(u)
            == info2.rep(v)
    &&& forall|u: VariableId, relation: Relation, v: VariableId|
        joined.related(u, relation) == Some(joined.rep(v)) <==> #[trigger] both_relate(
            info1,
            info2,
            u,
            relation,
            v,
        )
    &&& joined.symmetric()
}

proof fn lemma_intersection(
    info1: &EqualityState,
    info2: &EqualityState,
    result: &EqualityState,
    groups: Seq<((VariableId, VariableId), Seq<VariableId>)>,
)
    requires
        info1.wf(),
        info2.wf(),
        info1.symmetric(),
        info2.symmetric(),
        groups_cover(info1, info2, groups),
        joins_groups(info1, info2, result, groups),
        relations_shared(info1, info2, result, groups),
        forall|u: VariableId, v: VariableId|
            info1.rep(u) == info1.rep(v) && info2.rep(u) == info2.rep(v) ==> result.rep(u)
                == result.rep(v),
        forall|u: VariableId, relation: Relation, v: VariableId|
            (relation is Boxed || relation is Snapshot) && #[trigger] both_relate(
                info1,
                info2,
                u,
                relation,
                v,
            ) ==> result.related(u, relation) == Some(result.rep(v)) && result.related(
                v,
                relation.spec_inverse(),
            ) == Some(result.rep(u)),
    ensures
        is_intersection(info1, info2, result),
{
    assert forall|u: VariableId, v: VariableId|
        #![trigger result.rep(u), result.rep(v)]
        result.rep(u) == result.rep(v) <==> info1.rep(u) == info1.rep(v) && info2.rep(u)
            == info2.rep(v) by {
        assert(result.rep(u) == result.rep(v) <==> (u == v || (in_some_group(groups, u)
            && in_some_group(groups, v) && same_pair(info1, info2, u, v))));
    }
    assert forall|u: VariableId, relation: Relation, v: VariableId|
        result.related(u, relation) == Some(result.rep(v)) <==> #[trigger] both_relate(
            info1,
            info2,
            u,
            relation,
            v,
        ) by {
        if result.related(u, relation) == Some(result.rep(v)) {
            let ru = result.rep(u);
            let y = result.info(ru).spec_get(relation).unwrap();
            assert(result.info(ru).spec_get(relation) is Some);
            lemma_joined_same_pair(info1, info2, result, groups, u);
            assert(info1.related(ru, relation) == info1.related(u, relation));
            assert(info2.related(ru, relation) == info2.related(u, relation));
            assert(result.rep(y) == result.rep(v));
        }
        if both_relate(info1, info2, u, relation, v) {
            lemma_both_relate(info1, info2, groups, u, relation, v);
            if relation is Unboxed {
                assert(both_relate(info1, info2, v, Relation::Boxed, u));
            } else if relation is Original {
                assert(both_relate(info1, info2, v, Relation::Snapshot, u));
            }
        }
    }
    assert forall|v: VariableId, relation: Relation| #[trigger]
        result.related(v, relation) is Some implies result.related(
        result.related(v, relation).unwrap(),
        relation.spec_inverse(),
    ) == Some(result.rep(v)) by {
        let w = result.related(v, relation).unwrap();
        crate::analysis::equality_state::lemma_find_idempotent(
            *result,
            result.info(result.rep(v)).spec_get(relation).unwrap(),
        );
        assert(result.related(v, relation) == Some(result.rep(w)));
        assert(both_relate(info1, info2, v, relation, w));
        lemma_both_relate(info1, info2, groups, v, relation, w);
        assert(both_relate(info1, info2, w, relation.spec_inverse(), v));
    }
}

/// Both states hold the same variables equal and have the same relations
/// between the same classes.
pub open spec fn same_knowledge(first: &EqualityState, second: &EqualityState) -> bool {
    &&& forall|u: VariableId| first.rep(u) == second.rep(u)
    &&& forall|u: VariableId, relation: Relation|
        first.related(u, relation) == second.related(u, relation)
}

/// States that hold the same variables equal give every variable the same
/// representative, the lowest variable of its class.
pub proof fn lemma_same_classes_same_reps(
    first: &EqualityState,
    second: &EqualityState,
    u: VariableId,
)
    requires
        forall|a: VariableId, b: VariableId|
            #![trigger first.rep(a), first.rep(b)]
            first.rep(a) == first.rep(b) <==> second.rep(a) == second.rep(b),
    ensures
        first.rep(u) == second.rep(u),
{
    let x = first.rep(u);
    let y = second.rep(u);
    crate::analysis::equality_state::lemma_lowest_representative(*first, u, u);
    crate::analysis::equality_state::lemma_lowest_representative(*second, u, u);
    assert(first.rep(x) == first.rep(u));
    assert(second.rep(y) == second.rep(u));
    assert(second.rep(x) == second.rep(u));
    assert(first.rep(y) == first.rep(u));
    crate::analysis::equality_state::lemma_lowest_representative(*second, x, u);
    crate::analysis::equality_state::lemma_lowest_representative(*first, y, u);
}

/// Two states that are both the intersection of the same two states know the same.
pub proof fn lemma_intersection_unique(
    info1: &EqualityState,
    info2: &EqualityState,
    first: &EqualityState,
    second: &EqualityState,
)
    requires
        is_intersection(info1, info2, first),
        is_intersection(info1, info2, second),
    ensures
        same_knowledge(first, second),
{
    assert forall|a: VariableId, b: VariableId|
        #![trigger first.rep(a), first.rep(b)]
        first.rep(a) == first.rep(b) <==> second.rep(a) == second.rep(b) by {
        assert(first.rep(a) == first.rep(b) <==> info1.rep(a) == info1.rep(b) && info2.rep(a)
            == info2.rep(b));
        assert(second.rep(a) == second.rep(b) <==> info1.rep(a) == info1.rep(b) && info2.rep(a)
            == info2.rep(b));
    }
    assert forall|u: VariableId| first.rep(u) == second.rep(u) by {
        lemma_same_classes_same_reps(first, second, u);
    }
    assert forall|u: VariableId, relation: Relation|
        first.related(u, relation) == second.related(u, relation) by {
        lemma_same_related(info1, info2, first, second, u, relation);
        lemma_same_related(info1, info2, second, first, u, relation);
    }
}

proof fn lemma_same_related(
    info1: &EqualityState,
    info2: &EqualityState,
    first: &EqualityState,
    second: &EqualityState,
    u: VariableId,
    relation: Relation,
)
    requires
        is_intersection(info1, info2, first),
        is_intersection(info1, info2, second),
        forall|v: VariableId| first.rep(v) == second.rep(v),
    ensures
        first.related(u, relation) is Some ==> second.related(u, relation) == first.related(
            u,
            relation,
        ),
{
    if first.related(u, relation) is Some {
        let w = first.related(u, relation).unwrap();
        crate::analysis::equality_state::lemma_find_idempotent(
            *first,
            first.info(first.rep(u)).spec_get(relation).unwrap(),
        );
        assert(first.related(u, relation) == Some(first.rep(w)));
        assert(both_relate(info1, info2, u, relation, w));
        assert(second.related(u, relation) == Some(second.rep(w)));
    }
}

/// The intersection of two states is the intersection of the two taken
/// the other way round.
pub proof fn lemma_intersection_commutes(
    info1: &EqualityState,
    info2: &EqualityState,
    joined: &EqualityState,
)
    requires
        is_intersection(info1, info2, joined),
    ensures
        is_intersection(info2, info1, joined),
{
    assert forall|u: VariableId, v: VariableId|
        #![trigger joined.rep(u), joined.rep(v)]
        joined.rep(u) == joined.rep(v) <==> info2.rep(u) == info2.rep(v) && info1.rep(u)
            == info1.rep(v) by {
        assert(joined.rep(u) == joined.rep(v) <==> info1.rep(u) == info1.rep(v) && info2.rep(u)
            == info2.rep(v));
    }
    assert forall|u: VariableId, relation: Relation, v: VariableId|
        joined.related(u, relation) == Some(joined.rep(v)) <==> #[trigger] both_relate(
            info2,
            info1,
            u,
            relation,
            v,
        ) by {
        assert(both_relate(info1, info2, u, relation, v) == both_relate(
            info2,
            info1,
            u,
            relation,
            v,
        ));
    }
}

/// The intersection of a state with itself knows what the state knows.
pub proof fn lemma_intersection_idempotent(info: &EqualityState, joined: &EqualityState)
    requires
        is_intersection(info, info, joined),
    ensures
        same_knowledge(joined, info),
{
    assert forall|a: VariableId, b: VariableId|
        #![trigger joined.rep(a), joined.rep(b)]
        joined.rep(a) == joined.rep(b) <==> info.rep(a) == info.rep(b) by {}
    assert forall|u: VariableId| joined.rep(u) == info.rep(u) by {
        lemma_same_classes_same_reps(joined, info, u);
    }
    assert forall|u: VariableId, relation: Relation|
        joined.related(u, relation) == info.related(u, relation) by {
        if joined.related(u, relation) is Some {
            let w = joined.related(u, relation).unwrap();
            crate::analysis::equality_state::lemma_find_idempotent(
                *joined,
                joined.info(joined.rep(u)).spec_get(relation).unwrap(),
            );
            assert(joined.related(u, relation) == Some(joined.rep(w)));
            assert(both_relate(info, info, u, relation, w));
        }
        if info.related(u, relation) is Some {
            let w = info.related(u, relation).unwrap();
            crate::analysis::equality_state::lemma_find_idempotent(
                *info,
                info.info(info.rep(u)).spec_get(relation).unwrap(),
            );
            assert(both_relate(info, info, u, relation, w));
            assert(joined.related(u, relation) == Some(joined.rep(w)));
        }
    }
}

/// Intersections can be taken in any grouping: the intersection of three
/// states is the same whichever two are taken first.
pub proof fn lemma_intersection_associates(
    info1: &EqualityState,
    info2: &EqualityState,
    info3: &EqualityState,
    first_two: &EqualityState,
    last_two: &EqualityState,
    left: &EqualityState,
    right: &EqualityState,
)
    requires
        is_intersection(info1, info2, first_two),
        is_intersection(first_two, info3, left),
        is_intersection(info2, info3, last_two),
        is_intersection(info1, last_two, right),
    ensures
        same_knowledge(left, right),
{
    assert forall|a: VariableId, b: VariableId|
        #![trigger left.rep(a), left.rep(b)]
        left.rep(a) == left.rep(b) <==> right.rep(a) == right.rep(b) by {
        assert(left.rep(a) == left.rep(b) <==> first_two.rep(a) == first_two.rep(b) && info3.rep(a)
            == info3.rep(b));
        assert(first_two.rep(a) == first_two.rep(b) <==> info1.rep(a) == info1.rep(b) && info2.rep(
            a,
        ) == info2.rep(b));
        assert(right.rep(a) == right.rep(b) <==> info1.rep(a) == info1.rep(b) && last_two.rep(a)
            == last_two.rep(b));
        assert(last_two.rep(a) == last_two.rep(b) <==> info2.rep(a) == info2.rep(b) && info3.rep(a)
            == info3.rep(b));
    }
    assert forall|u: VariableId| left.rep(u) == right.rep(u) by {
        lemma_same_classes_same_reps(left, right, u);
    }
    assert forall|u: VariableId, relation: Relation, v: VariableId|
        left.related(u, relation) == Some(left.rep(v)) <==> right.related(u, relation) == Some(
            right.rep(v),
        ) by {
        assert(left.related(u, relation) == Some(left.rep(v)) <==> both_relate(
            first_two,
            info3,
            u,
            relation,
            v,
        ));
        assert(first_two.related(u, relation) == Some(first_two.rep(v)) <==> both_relate(
            info1,
            info2,
            u,
            relation,
            v,
        ));
        assert(right.related(u, relation) == Some(right.rep(v)) <==> both_relate(
            info1,
            last_two,
            u,
            relation,
            v,
        ));
        assert(last_two.related(u, relation) == Some(last_two.rep(v)) <==> both_relate(
            info2,
            info3,
            u,
            relation,
            v,
        ));
    }
    assert forall|u: VariableId, relation: Relation|
        left.related(u, relation) == right.related(u, relation) by {
        if left.related(u, relation) is Some {
            let w = left.related(u, relation).unwrap();
            crate::analysis::equality_state::lemma_find_idempotent(
                *left,
                left.info(left.rep(u)).spec_get(relation).unwrap(),
            );
            assert(left.related(u, relation) == Some(left.rep(w)));
            assert(right.related(u, relation) == Some(right.rep(w)));
        }
        if right.related(u, relation) is Some {
            let w = right.related(u, relation).unwrap();
            crate::analysis::equality_state::lemma_find_idempotent(
                *right,
                right.info(right.rep(u)).spec_get(relation).unwrap(),
            );
            assert(right.related(u, relation) == Some(right.rep(w)));
            assert(left.related(u, relation) == Some(left.rep(w)));
        }
    }
}

/// Whether the state `info` holds what the statement `stmt` says of its variables.
pub open spec fn stmt_holds(stmt: &Statement, info: &EqualityState) -> bool {
    match *stmt {
        Statement::Snapshot(s) => info.rep(s.original_output) == info.rep(s.input.var_id)
            && info.related(s.input.var_id, Relation::Snapshot) == Some(
            info.rep(s.snapshot_output),
        ) && info.related(s.snapshot_output, Relation::Original) == Some(info.rep(s.input.var_id)),
        Statement::Desnap(s) => info.related(s.output, Relation::Snapshot) == Some(
            info.rep(s.input.var_id),
        ) && info.related(s.input.var_id, Relation::Original) == Some(info.rep(s.output)),
        Statement::IntoBox(s) => info.related(s.input.var_id, Relation::Boxed) == Some(
            info.rep(s.output),
        ) && info.related(s.output, Relation::Unboxed) == Some(info.rep(s.input.var_id)),
        Statement::Unbox(s) => info.related(s.output, Relation::Boxed) == Some(
            info.rep(s.input.var_id),
        ) && info.related(s.input.var_id, Relation::Unboxed) == Some(info.rep(s.output)),
        _ => true,
    }
}

/// Whether the state `info` holds equal the variables that the statement `stmt` says are equal.
pub open spec fn stmt_equates(stmt: &Statement, info: &EqualityState) -> bool {
    match *stmt {
        Statement::Snapshot(s) => info.rep(s.original_output) == info.rep(s.input.var_id),
        _ => true,
    }
}

/// Whether the state `info` holds what is known after the first `index` of
/// `statements`: the equalities that they say, and all that the last of
/// them says.
pub open spec fn holds_after(statements: Seq<Statement>, index: int, info: &EqualityState) -> bool {
    &&& forall|j: int| 0 <= j < index ==> stmt_equates(#[trigger] &statements[j], info)
    &&& stmt_holds(&statements[index - 1], info)
}

/// A snapshot that the input already had is one with the new snapshot:
/// `s0` before the statement, `s1` once the second output is one with the
/// input, `s2` once the snapshot is recorded.
proof fn lemma_snapshot_joins(
    s0: EqualityState,
    s1: EqualityState,
    s2: EqualityState,
    original_output: VariableId,
    input: VariableId,
    snapshot_output: VariableId,
)
    requires
        s0.wf(),
        s1.wf(),
        s0.refined_by(&s1),
        s1.refined_by(&s2),
        s1.rep(original_output) == s1.rep(input),
        !s0.conflicting(original_output, input) ==> s1.knowledge() == s0.knowledge().joined(
            original_output,
            input,
        ),
        forall|relation: Relation|
            #![trigger s0.info(s0.rep(original_output)).spec_get(relation)]
            s0.rep(original_output) != s0.rep(input) && differ(
                s0.info(s0.rep(original_output)).spec_get(relation),
                s0.info(s0.rep(input)).spec_get(relation),
            ) ==> s1.rep(s0.info(s0.rep(original_output)).spec_get(relation).unwrap()) == s1.rep(
                s0.info(s0.rep(input)).spec_get(relation).unwrap(),
            ),
        s0.rep(original_output) != s0.rep(input) ==> forall|relation: Relation| #[trigger]
            s1.related(original_output, relation) == s0.kept_related(
                &s1,
                original_output,
                input,
                relation,
            ),
        s1.related(input, Relation::Snapshot) is Some ==> s2.rep(snapshot_output) == s2.rep(
            s1.related(input, Relation::Snapshot).unwrap(),
        ),
    ensures
        s0.related(input, Relation::Snapshot) is Some ==> s2.rep(snapshot_output) == s2.rep(
            s0.related(input, Relation::Snapshot).unwrap(),
        ),
{
    if !s0.conflicting(original_output, input) {
        lemma_known_is_shown(s1, s0.knowledge().joined(original_output, input));
    }
    reveal(EqualityState::shows);
    if s0.related(input, Relation::Snapshot) is Some {
        let x = s0.info(s0.rep(input)).spec_get(Relation::Snapshot).unwrap();
        lemma_find_idempotent(s0, x);
        lemma_find_idempotent(s1, x);
        assert(s1.rep(s0.rep(x)) == s1.rep(x));
        if s0.rep(original_output) != s0.rep(input) {
            assert(s1.related(input, Relation::Snapshot) == s1.related(
                original_output,
                Relation::Snapshot,
            ));
            assert(s1.related(original_output, Relation::Snapshot) == s0.kept_related(
                &s1,
                original_output,
                input,
                Relation::Snapshot,
            ));
            let first = s0.info(s0.rep(original_output)).spec_get(Relation::Snapshot);
            if first is Some {
                lemma_find_idempotent(s1, first.unwrap());
            }
            assert(s1.related(input, Relation::Snapshot) is Some);
            assert(s1.rep(s1.related(input, Relation::Snapshot).unwrap()) == s1.rep(x));
        } else {
            assert(s1.related(input, Relation::Snapshot) == Some(s1.rep(x)));
        }
        let e1 = s1.related(input, Relation::Snapshot).unwrap();
        assert(s1.rep(e1) == s1.rep(s0.rep(x)));
    }
}

/// Whether taking in `stmt` joins no two classes that record different
/// variables for one relation.
pub open spec fn stmt_clean(stmt: &Statement, known: Knowledge) -> bool {
    match *stmt {
        Statement::Snapshot(s) => !known.conflicting(s.original_output, s.input.var_id)
            && known.joined(s.original_output, s.input.var_id).relates_cleanly(
            s.input.var_id,
            s.snapshot_output,
            Relation::Snapshot,
            Relation::Original,
        ),
        Statement::Desnap(s) => known.relates_cleanly(
            s.output,
            s.input.var_id,
            Relation::Snapshot,
            Relation::Original,
        ),
        Statement::IntoBox(s) => known.relates_cleanly(
            s.input.var_id,
            s.output,
            Relation::Boxed,
            Relation::Unboxed,
        ),
        Statement::Unbox(s) => known.relates_cleanly(
            s.output,
            s.input.var_id,
            Relation::Boxed,
            Relation::Unboxed,
        ),
        _ => true,
    }
}

/// What is known once `stmt` is taken in, where that is clean. A snapshot
/// makes its second output one with its input and its first output the
/// input's snapshot; the others relate their input and output.
pub open spec fn stmt_result(stmt: &Statement, known: Knowledge) -> Knowledge {
    match *stmt {
        Statement::Snapshot(s) => known.joined(s.original_output, s.input.var_id).with_relationship(
            s.input.var_id,
            s.snapshot_output,
            Relation::Snapshot,
            Relation::Original,
        ),
        Statement::Desnap(s) => known.with_relationship(
            s.output,
            s.input.var_id,
            Relation::Snapshot,
            Relation::Original,
        ),
        Statement::IntoBox(s) => known.with_relationship(
            s.input.var_id,
            s.output,
            Relation::Boxed,
            Relation::Unboxed,
        ),
        Statement::Unbox(s) => known.with_relationship(
            s.output,
            s.input.var_id,
            Relation::Boxed,
            Relation::Unboxed,
        ),
        _ => known,
    }
}

/// Whether `stmt` speaks of `v`, as far as equalities go.
pub open spec fn stmt_mentions(stmt: &Statement, v: VariableId) -> bool {
    match *stmt {
        Statement::Snapshot(s) => v == s.input.var_id || v == s.original_output || v
            == s.snapshot_output,
        Statement::Desnap(s) => v == s.input.var_id || v == s.output,
        Statement::IntoBox(s) => v == s.input.var_id || v == s.output,
        Statement::Unbox(s) => v == s.input.var_id || v == s.output,
        _ => false,
    }
}

/// Whether the outputs of `stmt` are new: nothing is known of them, and
/// the snapshot that a snapshot statement gives is neither its other
/// output nor its input.
pub open spec fn stmt_fresh(stmt: &Statement, known: Knowledge) -> bool {
    match *stmt {
        Statement::Snapshot(s) => known.unknown(s.original_output) && known.unknown(
            s.snapshot_output,
        ) && s.original_output != s.snapshot_output && s.snapshot_output != s.input.var_id,
        Statement::Desnap(s) => known.unknown(s.output),
        Statement::IntoBox(s) => known.unknown(s.output),
        Statement::Unbox(s) => known.unknown(s.output),
        _ => true,
    }
}

/// Whether the outputs of `stmt` are new and higher than all that is
/// known and than the input.
pub open spec fn stmt_new(stmt: &Statement, known: Knowledge) -> bool {
    match *stmt {
        Statement::Snapshot(s) => known.above(s.original_output) && known.above(
            s.snapshot_output,
        ) && s.original_output != s.snapshot_output && s.input.var_id < s.original_output
            && s.input.var_id < s.snapshot_output,
        Statement::Desnap(s) => known.above(s.output) && s.input.var_id < s.output,
        Statement::IntoBox(s) => known.above(s.output) && s.input.var_id < s.output,
        Statement::Unbox(s) => known.above(s.output) && s.input.var_id < s.output,
        _ => true,
    }
}

/// Taking in a statement leaves a variable unknown of which it does not speak.
pub proof fn lemma_unknown_kept_stmt(known: Knowledge, stmt: &Statement, v: VariableId)
    requires
        known.unknown(v),
        !stmt_mentions(stmt, v),
    ensures
        stmt_result(stmt, known).unknown(v),
{
    match *stmt {
        Statement::Snapshot(s) => {
            lemma_unknown_kept_joined(known, s.original_output, s.input.var_id, v);
            lemma_unknown_kept_related(
                known.joined(s.original_output, s.input.var_id),
                s.input.var_id,
                s.snapshot_output,
                Relation::Snapshot,
                Relation::Original,
                v,
            );
        },
        Statement::Desnap(s) => {
            lemma_unknown_kept_related(
                known,
                s.output,
                s.input.var_id,
                Relation::Snapshot,
                Relation::Original,
                v,
            );
        },
        Statement::IntoBox(s) => {
            lemma_unknown_kept_related(
                known,
                s.input.var_id,
                s.output,
                Relation::Boxed,
                Relation::Unboxed,
                v,
            );
        },
        Statement::Unbox(s) => {
            lemma_unknown_kept_related(
                known,
                s.output,
                s.input.var_id,
                Relation::Boxed,
                Relation::Unboxed,
                v,
            );
        },
        _ => {},
    }
}

/// Whether `same` agrees with what `stmt` says, seen from the state `before`.
pub open spec fn stmt_within(
    stmt: &Statement,
    before: &EqualityState,
    same: spec_fn(VariableId, VariableId) -> bool,
) -> bool {
    match *stmt {
        Statement::Snapshot(s) => same(s.original_output, s.input.var_id)
            && before.relation_within(
            same,
            s.input.var_id,
            s.snapshot_output,
            Relation::Snapshot,
            Relation::Original,
        ),
        Statement::Desnap(s) => before.relation_within(
            same,
            s.output,
            s.input.var_id,
            Relation::Snapshot,
            Relation::Original,
        ),
        Statement::IntoBox(s) => before.relation_within(
            same,
            s.input.var_id,
            s.output,
            Relation::Boxed,
            Relation::Unboxed,
        ),
        Statement::Unbox(s) => before.relation_within(
            same,
            s.output,
            s.input.var_id,
            Relation::Boxed,
            Relation::Unboxed,
        ),
        _ => true,
    }
}

/// What the statement `stmt` adds to the state `before` to give `after`: a
/// statement that says nothing of its variables adds nothing; where no
/// records conflict, `after` knows exactly `stmt_result`, and its relations
/// are symmetric if those of `before` are; a statement whose outputs are
/// new is clean where the relations are symmetric, and where its outputs
/// are also higher than all that is known it leaves the records holding
/// representatives only; nothing is joined that the
/// statement does not ask for: every congruence of `before` that agrees
/// with the statement is one of `after`; and in any case
/// a class that the input or the output already had in the relation is one
/// with the class that takes its place.
pub open spec fn stmt_effect(
    stmt: &Statement, before: &EqualityState, after: &EqualityState) -> bool {
    &&& stmt_holds(stmt, after)
    &&& !(*stmt is Snapshot || *stmt is Desnap || *stmt is IntoBox || *stmt is Unbox) ==> *after
        == *before
    &&& stmt_clean(stmt, before.knowledge()) ==> after.knowledge() == stmt_result(
        stmt,
        before.knowledge(),
    )
    &&& stmt_clean(stmt, before.knowledge()) && before.symmetric() ==> after.symmetric()
    &&& stmt_fresh(stmt, before.knowledge()) && before.symmetric() ==> stmt_clean(
        stmt,
        before.knowledge(),
    )
    &&& stmt_new(stmt, before.knowledge()) && before.symmetric()
        && before.knowledge().canonical() ==> after.knowledge().canonical()
    &&& forall|same: spec_fn(VariableId, VariableId) -> bool| #[trigger]
        before.congruent(same) && stmt_within(stmt, before, same) ==> after.congruent(same)
    &&& stmt_joins(stmt, before, after)
}

/// A class that `a` had in `a_to_b`, or `b` in `b_to_a`, in `before` is in
/// `after` one with the class of the other variable, and the records of
/// the two classes hold each other's representative.
pub open spec fn relation_joins(
    before: &EqualityState,
    after: &EqualityState,
    a: VariableId,
    b: VariableId,
    a_to_b: Relation,
    b_to_a: Relation,
) -> bool {
    &&& before.related(a, a_to_b) is Some ==> after.rep(b) == after.rep(
        before.related(a, a_to_b).unwrap(),
    )
    &&& before.related(b, b_to_a) is Some ==> after.rep(a) == after.rep(
        before.related(b, b_to_a).unwrap(),
    )
    &&& after.info(after.rep(a)).spec_get(a_to_b) == Some(after.rep(b))
    &&& after.info(after.rep(b)).spec_get(b_to_a) == Some(after.rep(a))
}

/// What `stmt` joins whether or not records conflict.
pub open spec fn stmt_joins(stmt: &Statement, before: &EqualityState, after: &EqualityState) -> bool {
    match *stmt {
        Statement::Snapshot(s) => {
            &&& before.related(s.input.var_id, Relation::Snapshot) is Some ==> after.rep(
                s.snapshot_output,
            ) == after.rep(before.related(s.input.var_id, Relation::Snapshot).unwrap())
            &&& after.info(after.rep(s.input.var_id)).snapshot_class == Some(
                after.rep(s.snapshot_output),
            )
            &&& after.info(after.rep(s.snapshot_output)).original_class == Some(
                after.rep(s.input.var_id),
            )
        },
        Statement::Desnap(s) => relation_joins(
            before,
            after,
            s.output,
            s.input.var_id,
            Relation::Snapshot,
            Relation::Original,
        ),
        Statement::IntoBox(s) => relation_joins(
            before,
            after,
            s.input.var_id,
            s.output,
            Relation::Boxed,
            Relation::Unboxed,
        ),
        Statement::Unbox(s) => relation_joins(
            before,
            after,
            s.output,
            s.input.var_id,
            Relation::Boxed,
            Relation::Unboxed,
        ),
        _ => true,
    }
}

/// What the analysis gives for `lowered`: a state for each block that
/// control can reach and for no other, each of them well formed, and each
/// holding what every statement of its block says. Where a single path
/// leads from the entry block to a block and everything along it is
/// clean, the state of the block knows exactly what the statements and
/// edges of the path give one after the other, with symmetric relations.
/// The state of a block other than the entry block holds each variable
/// equal to the variable that every edge into the block renames to it.
/// And in a function in which every variable gets its value once, the
/// relations of every state are symmetric, and nothing is known of a
/// variable that gets its value later.
pub open spec fn analysis_result(lowered: &Lowered, states: Seq<Option<EqualityState>>) -> bool {
    &&& states.len() == lowered.blocks@.len()
    &&& forward_visits(lowered, blocks_with_info(states))
    &&& forall|b: int|
        0 <= b < states.len() && #[trigger] states[b] is Some ==> states[b].unwrap().wf()
    &&& forall|b: int|
        0 <= b < states.len() && #[trigger] states[b] is Some
            && lowered.blocks@[b].statements@.len() > 0 ==> holds_after(
            lowered.blocks@[b].statements@,
            lowered.blocks@[b].statements@.len() as int,
            &states[b].unwrap(),
        )
    &&& forall|b: int, steps: nat|
        0 <= b < states.len() && states[b] is Some && #[trigger] path_clean_end(lowered, b, steps)
            ==> states[b].unwrap().knowledge() == path_end(lowered, b, steps)
            && states[b].unwrap().symmetric()
    &&& forall|b: int|
        0 < b < states.len() && #[trigger] states[b] is Some ==> holds_renamings(
            lowered,
            in_edges(lowered, b),
            &states[b].unwrap(),
        )
    &&& forall|b: int|
        0 <= b < states.len() && #[trigger] states[b] is Some ==> staged_known(
            lowered,
            (b, lowered.blocks@[b].statements@.len() as int),
            &states[b].unwrap(),
        )
}

/// In a function in which every variable gets its value once, the
/// relations of every state that the analysis gives are symmetric.
pub proof fn lemma_staged_is_symmetric(
    lowered: &Lowered,
    states: Seq<Option<EqualityState>>,
    rank: Seq<nat>,
    home: spec_fn(VariableId) -> (int, int),
    b: int,
)
    requires
        analysis_result(lowered, states),
        staged_by(lowered, rank, home),
        0 <= b < states.len(),
        states[b] is Some,
    ensures
        states[b].unwrap().symmetric(),
        ascending(rank, home) ==> states[b].unwrap().knowledge().canonical(),
{
}

/// In a function in which every variable gets its value once, and a
/// variable that gets it earlier is lower, every record of every state
/// that the analysis gives is stored for a representative, holds
/// representatives, and is answered by the inverse record.
pub proof fn lemma_staged_is_mutual(
    lowered: &Lowered,
    states: Seq<Option<EqualityState>>,
    rank: Seq<nat>,
    home: spec_fn(VariableId) -> (int, int),
    b: int,
    r: VariableId,
    relation: Relation,
    s: VariableId,
)
    requires
        analysis_result(lowered, states),
        staged_by(lowered, rank, home),
        ascending(rank, home),
        0 <= b < states.len(),
        states[b] is Some,
        states[b].unwrap().info(r).spec_get(relation) == Some(s),
    ensures
        states[b].unwrap().rep(r) == r,
        states[b].unwrap().rep(s) == s,
        states[b].unwrap().info(s).spec_get(relation.spec_inverse()) == Some(r),
{
    crate::analysis::equality_state::lemma_mutual_records(states[b].unwrap(), r, relation, s);
}

/// The equality analysis runs forward: it can be handed to the forward
/// driver, and its `merge` asks nothing of the block's end.
pub proof fn lemma_equality_runs_forward()
    ensures
        EqualityAnalysis::DIRECTION == Direction::Forward,
{
}

/// Whether `parts` are the states of the first `upto` blocks that have
/// one, written out in the order of the blocks, each under the number of
/// its block.
pub open spec fn block_parts(
    states: Seq<Option<EqualityState>>,
    upto: int,
    parts: Seq<Seq<char>>,
) -> bool
    decreases upto,
{
    if upto <= 0 {
        parts.len() == 0
    } else if states[upto - 1] is Some {
        parts.len() > 0 && block_parts(states, upto - 1, parts.drop_last()) && exists|
            text: Seq<char>,
        |
            #[trigger] states[upto - 1].unwrap().written(text) && parts.last() == "Block "@
                + decimal((upto - 1) as nat) + ":\n"@ + text
    } else {
        block_parts(states, upto - 1, parts)
    }
}

/// The states of the blocks that have one, each under the number of its
/// block, with an empty line between one block and the next.
pub fn analysis_state_str(block_states: &Vec<Option<EqualityState>>) -> (out: String)
    requires
        forall|b: int|
            0 <= b < block_states@.len() && #[trigger] block_states@[b] is Some
                ==> block_states@[b].unwrap().wf(),
    ensures
        exists|parts: Seq<Seq<char>>|
            #![trigger block_parts(block_states@, block_states@.len() as int, parts)]
            block_parts(block_states@, block_states@.len() as int, parts) && out@ == joined(
                parts,
                "\n\n"@,
            ),
{
    let mut parts: Vec<String> = Vec::new();
    let mut i: usize = 0;
    proof {
        assert(texts(parts@) =~= Seq::<Seq<char>>::empty());
    }
    while i < block_states.len()
        invariant
            i <= block_states@.len(),
            block_parts(block_states@, i as int, texts(parts@)),
            forall|b: int|
                0 <= b < block_states@.len() && #[trigger] block_states@[b] is Some
                    ==> block_states@[b].unwrap().wf(),
        decreases block_states@.len() - i,
    {
        if let Some(state) = &block_states[i] {
            let ghost before = texts(parts@);
            let mut part = String::new();
            part.append("Block ");
            push_decimal(&mut part, i as u128);
            part.append(":\n");
            let text = state.debug_string();
            part.append(text.as_str());
            parts.push(part);
            proof {
                let now = texts(parts@);
                assert(now.drop_last() =~= before);
                assert(now.last() =~= "Block "@ + decimal(i as nat) + ":\n"@ + text@);
                assert(block_states@[i as int].unwrap().written(text@));
            }
        }
        i += 1;
    }
    join(&parts, "\n\n")
}

impl EqualityAnalysis {
    /// The join of two states, whatever they are: it holds two variables
    /// equal where both states do, and keeps the relations between classes
    /// that both states know. Where the relations of both states are
    /// symmetric, it holds nothing else equal and knows no other relation,
    /// and its relations are symmetric again.
    pub fn intersect(info1: &EqualityState, info2: &EqualityState) -> (info: EqualityState)
        requires
            info1.wf(),
            info2.wf(),
        ensures
            info.wf(),
            forall|u: VariableId, v: VariableId|
                info1.rep(u) == info1.rep(v) && info2.rep(u) == info2.rep(v) ==> info.rep(u)
                    == info.rep(v),
            info1.symmetric() && info2.symmetric() ==> is_intersection(info1, info2, &info),
            info1.symmetric() && info2.symmetric() ==> info.knowledge().canonical(),
    {
        let mut result = EqualityState::new();
        // The variables of which either state knows something, by their
        // representatives in the two states.
        let vars = merge_referenced_vars(info1, info2);
        let groups = group_by_reps(info1, info2, &vars);
        let group_list = group_map_entries(&groups);
        let ghost entries = group_entries(groups);
        proof {
            assert(listed(group_list@) == entries);
            assert forall|v: VariableId| referenced(info1, info2, v)
                <==> #[trigger] in_some_group(
                entries,
                v,
            ) by {
                if referenced(info1, info2, v) {
                    assert(vars@.contains(v));
                    assert(grouped(info1, info2, entries, v));
                    let key = rep_pair(info1, info2, v);
                    lemma_key(entries, key);
                    let i = index_of(entries, key);
                    let a = choose|a: int| 0 <= a < entries[i].1.len() && entries[i].1[a] == v;
                    assert(entries[i].1[a] == v);
                }
                if in_some_group(entries, v) {
                    let (a, b) = choose|a: int, b: int|
                        0 <= a < entries.len() && 0 <= b < entries[a].1.len()
                            && #[trigger] entries[a].1[b] == v;
                    assert(vars@.contains(entries[a].1[b]));
                }
            }
        }
        union_groups(&mut result, &group_list, Ghost(info1), Ghost(info2));
        let ghost joined = result;
        // A class of one state can fall into several groups; the index says into which.
        let intersections = index_groups(&mut result, &group_list, Ghost(info1), Ghost(info2));
        proof {
            assert(joins_groups(info1, info2, &result, entries)) by {
                assert forall|u: VariableId, v: VariableId|
                    #![trigger result.rep(u), result.rep(v)]
                    result.rep(u) == result.rep(v) <==> (u == v || (in_some_group(entries, u)
                        && in_some_group(entries, v) && same_pair(info1, info2, u, v))) by {
                    assert(joined.rep(u) == joined.rep(v) <==> (u == v || (in_some_group(entries, u)
                        && in_some_group(entries, v) && same_pair(info1, info2, u, v))));
                }
            }
            assert(unrecorded(&result)) by {
                assert forall|r: VariableId| #[trigger]
                    result.info(r) == ClassInfo::spec_empty() by {
                    assert(joined.info(r) == ClassInfo::spec_empty());
                }
            }
        }
        let ghost indexed_state = result;
        proof {
            assert(indexed_state.knowledge().canonical()) by {
                assert forall|r: VariableId, relation: Relation|
                    (#[trigger] (indexed_state.knowledge().info)(r).spec_get(relation))
                        is Some implies false by {
                    assert(indexed_state.info(r) == ClassInfo::spec_empty());
                }
            }
        }
        merge_class_relationships(info1, info2, &intersections, &mut result, Ghost(entries));
        proof {
            assert forall|u: VariableId, v: VariableId|
                info1.rep(u) == info1.rep(v) && info2.rep(u) == info2.rep(v) implies result.rep(u)
                == result.rep(v) by {
                if u != v {
                    lemma_class_members_linked(*info1, u, v);
                    assert(referenced(info1, info2, u) && referenced(info1, info2, v));
                    assert(in_some_group(entries, u));
                    assert(in_some_group(entries, v));
                    assert(same_pair(info1, info2, u, v));
                    assert(joined.rep(u) == joined.rep(v));
                    assert(indexed_state.rep(u) == indexed_state.rep(v));
                }
            }
            if info1.symmetric() && info2.symmetric() {
                lemma_intersection(info1, info2, &result, entries);
            }
        }
        result
    }

    /// Takes the statement `stmt` into the state `info`, whatever the state
    /// is: a snapshot makes its second output one with its input and its
    /// first output the input's snapshot; a desnap, a boxing and an unboxing
    /// relate their input and output; any other statement adds nothing.
    pub fn take_in(info: &mut EqualityState, stmt: &Statement)
        requires
            old(info).wf(),
        ensures
            final(info).wf(),
            old(info).refined_by(final(info)),
            stmt_effect(stmt, old(info), final(info)),
    {
        match stmt {
            Statement::Snapshot(snapshot_stmt) => {
                let ghost s0 = *info;
                info.union(snapshot_stmt.original_output, snapshot_stmt.input.var_id);
                let ghost s1 = *info;
                info.set_snapshot_relationship(
                    snapshot_stmt.input.var_id,
                    snapshot_stmt.snapshot_output,
                );
                proof {
                    assert(s0.refined_by(&s1));
                    assert(s1.refined_by(info));
                    if stmt_fresh(stmt, s0.knowledge()) && s0.symmetric() {
                        lemma_unknown_kept_joined(
                            s0.knowledge(),
                            snapshot_stmt.original_output,
                            snapshot_stmt.input.var_id,
                            snapshot_stmt.snapshot_output,
                        );
                        assert(s1.knowledge().unknown(snapshot_stmt.snapshot_output));
                        assert(s1.symmetric());
                    }
                    if stmt_new(stmt, s0.knowledge()) && s0.symmetric()
                        && s0.knowledge().canonical() {
                        let before = s0.knowledge();
                        let input = snapshot_stmt.input.var_id;
                        let fresh = snapshot_stmt.snapshot_output;
                        crate::analysis::equality_state::lemma_lowest_representative(
                            s0,
                            input,
                            input,
                        );
                        crate::analysis::knowledge::lemma_join_new_canonical(
                            before,
                            snapshot_stmt.original_output,
                            input,
                        );
                        assert(s1.knowledge().canonical());
                        if s1.related(input, Relation::Snapshot) is Some {
                            let x = s1.info(s1.rep(input)).spec_get(Relation::Snapshot).unwrap();
                            assert((s1.knowledge().info)(s1.rep(input)) == (before.info)(
                                s1.rep(input),
                            ));
                            crate::analysis::knowledge::lemma_held_below(
                                before,
                                fresh,
                                s1.rep(input),
                                Relation::Snapshot,
                                x,
                            );
                            assert((s1.knowledge().info)(s1.rep(input)).spec_get(
                                Relation::Snapshot,
                            ) == Some(x));
                            assert((s1.knowledge().rep)(x) == x);
                        }
                        crate::analysis::equality_state::lemma_relate_new_canonical(
                            s1,
                            input,
                            fresh,
                            Relation::Snapshot,
                        );
                    }
                    lemma_snapshot_joins(
                        s0,
                        s1,
                        *info,
                        snapshot_stmt.original_output,
                        snapshot_stmt.input.var_id,
                        snapshot_stmt.snapshot_output,
                    );
                    assert forall|same: spec_fn(VariableId, VariableId) -> bool| #[trigger]
                        s0.congruent(same) && stmt_within(stmt, &s0, same) implies info.congruent(
                        same,
                    ) by {
                        lemma_bound_congruent(s0, s1, same);
                        lemma_bound_relation(
                            s0,
                            s1,
                            same,
                            snapshot_stmt.input.var_id,
                            snapshot_stmt.snapshot_output,
                            Relation::Snapshot,
                            Relation::Original,
                        );
                    }
                }
            },
            Statement::Desnap(desnap_stmt) => {
                proof {
                    if stmt_new(stmt, info.knowledge()) && info.symmetric()
                        && info.knowledge().canonical() {
                        crate::analysis::equality_state::lemma_relate_above(
                            *info,
                            desnap_stmt.output,
                            desnap_stmt.input.var_id,
                            Relation::Snapshot,
                        );
                    }
                }
                info.set_snapshot_relationship(desnap_stmt.output, desnap_stmt.input.var_id);
            },
            Statement::IntoBox(into_box_stmt) => {
                proof {
                    if stmt_new(stmt, info.knowledge()) && info.symmetric()
                        && info.knowledge().canonical() {
                        crate::analysis::equality_state::lemma_relate_above(
                            *info,
                            into_box_stmt.input.var_id,
                            into_box_stmt.output,
                            Relation::Boxed,
                        );
                    }
                }
                info.set_box_relationship(into_box_stmt.input.var_id, into_box_stmt.output);
            },
            Statement::Unbox(unbox_stmt) => {
                proof {
                    if stmt_new(stmt, info.knowledge()) && info.symmetric()
                        && info.knowledge().canonical() {
                        crate::analysis::equality_state::lemma_relate_above(
                            *info,
                            unbox_stmt.output,
                            unbox_stmt.input.var_id,
                            Relation::Boxed,
                        );
                    }
                }
                info.set_box_relationship(unbox_stmt.output, unbox_stmt.input.var_id);
            },
            _ => {},
        }
    }

    /// Takes the state `info` across `edge`, whatever the state is: along a
    /// goto each renamed variable is made one with the variable that it
    /// renames; along the arm of a match nothing changes.
    pub fn cross(info: &EqualityState, edge: &Edge) -> (crossed: EqualityState)
        requires
            info.wf(),
        ensures
            crossed.wf(),
            info.refined_by(&crossed),
            edge is MatchArm ==> crossed.knowledge() == info.knowledge(),
            edge is MatchArm && info.symmetric() ==> crossed.symmetric(),
            edge matches Edge::Goto { target, remapping } ==> {
                &&& forall|i: int|
                    0 <= i < remapping.remapping@.len() ==> crossed.rep(
                        (#[trigger] remapping.remapping@[i]).0,
                    ) == crossed.rep(remapping.remapping@[i].1.var_id)
                &&& renaming_clean(
                    remapping.remapping@,
                    info.knowledge(),
                    remapping.remapping@.len() as int,
                ) ==> crossed.knowledge() == renaming_result(
                    remapping.remapping@,
                    info.knowledge(),
                    remapping.remapping@.len() as int,
                ) && (info.symmetric() ==> crossed.symmetric())
                &&& forall|same: spec_fn(VariableId, VariableId) -> bool| #[trigger]
                    info.congruent(same) && renaming_within(remapping.remapping@, same)
                        ==> crossed.congruent(same) && crossed.records_from(info, same)
            },
    {
        let mut new_info = info.clone();
        proof {
            assert(new_info.wf());
            assert(info.refined_by(&new_info));
            assert forall|same: spec_fn(VariableId, VariableId) -> bool| #[trigger]
                info.congruent(same) implies new_info.congruent(same) && new_info.records_from(
                info,
                same,
            ) by {
                lemma_bound_kept(*info, new_info, same);
                lemma_bound_congruent(*info, new_info, same);
            }
            if info.symmetric() {
                assert forall|v: VariableId, relation: Relation| #[trigger]
                    new_info.related(v, relation) is Some implies new_info.related(
                    new_info.related(v, relation).unwrap(),
                    relation.spec_inverse(),
                ) == Some(new_info.rep(v)) by {
                    assert(new_info.related(v, relation) == info.related(v, relation));
                    assert(new_info.related(
                        info.related(v, relation).unwrap(),
                        relation.spec_inverse(),
                    ) == info.related(info.related(v, relation).unwrap(), relation.spec_inverse()));
                }
            }
        }
        if let Edge::Goto { target, remapping } = edge {
            let pairs = &remapping.remapping;
            let mut i: usize = 0;
            while i < pairs.len()
                invariant
                    i <= pairs@.len(),
                    new_info.wf(),
                    info.refined_by(&new_info),
                    forall|j: int|
                        0 <= j < i ==> new_info.rep((#[trigger] pairs@[j]).0) == new_info.rep(
                            pairs@[j].1.var_id,
                        ),
                    renaming_clean(pairs@, info.knowledge(), i as int) ==> new_info.knowledge()
                        == renaming_result(pairs@, info.knowledge(), i as int) && (info.symmetric()
                        ==> new_info.symmetric()),
                    forall|same: spec_fn(VariableId, VariableId) -> bool| #[trigger]
                        info.congruent(same) && renaming_within(pairs@, same)
                            ==> new_info.congruent(same) && new_info.records_from(info, same),
                decreases pairs@.len() - i,
            {
                let ghost before = new_info;
                new_info.union(pairs[i].0, pairs[i].1.var_id);
                proof {
                    assert forall|j: int| 0 <= j < i + 1 implies new_info.rep(
                        (#[trigger] pairs@[j]).0,
                    ) == new_info.rep(pairs@[j].1.var_id) by {
                        if j < i {
                            assert(before.rep(pairs@[j].0) == before.rep(pairs@[j].1.var_id));
                        }
                    }
                    assert forall|same: spec_fn(VariableId, VariableId) -> bool| #[trigger]
                        info.congruent(same) && renaming_within(
                            pairs@,
                            same,
                        ) implies new_info.congruent(same) && new_info.records_from(
                        info,
                        same,
                    ) by {
                        assert(same(pairs@[i as int].0, pairs@[i as int].1.var_id));
                        assert(before.congruent(same));
                        lemma_bound_chain(*info, before, new_info, same);
                        lemma_bound_congruent(*info, new_info, same);
                    }
                    let next = i + 1;
                    if renaming_clean(pairs@, info.knowledge(), next as int) {
                        assert(renaming_clean(pairs@, info.knowledge(), i as int));
                        assert(!before.knowledge().conflicting(
                            pairs@[i as int].0,
                            pairs@[i as int].1.var_id,
                        ));
                        assert(!before.conflicting(pairs@[i as int].0, pairs@[i as int].1.var_id));
                    }
                }
                i += 1;
            }
        }
        new_info
    }

    /// Runs the equality analysis on `lowered` where it is a function that
    /// the analyses take, and returns nothing where it is not.
    pub fn try_analyze(lowered: &Lowered) -> (r: Option<Vec<Option<EqualityState>>>)
        ensures
            r is Some <==> lowered.wf() && degrees_fit(lowered) && lowered.acyclic(),
            r is Some ==> analysis_result(lowered, r.unwrap()@),
    {
        if crate::analysis::validate::is_analyzable(lowered) {
            Some(EqualityAnalysis::analyze(lowered))
        } else {
            None
        }
    }

    /// Runs the equality analysis on a function and returns, for each block
    /// that control can reach, the state at the end of the block.
    pub fn analyze(lowered: &Lowered) -> (states: Vec<Option<EqualityState>>)
        requires
            lowered.wf(),
            lowered.acyclic(),
            degrees_fit(lowered),
        ensures
            analysis_result(lowered, states@),
    {
        let mut analysis = ForwardDataflowAnalysis::new(lowered, EqualityAnalysis);
        let states = analysis.run();
        proof {
            assert forall|b: int|
                0 <= b < states@.len() && #[trigger] states@[b] is Some
                    implies states@[b].unwrap().wf()
                && (lowered.blocks@[b].statements@.len() > 0 ==> holds_after(
                lowered.blocks@[b].statements@,
                lowered.blocks@[b].statements@.len() as int,
                &states@[b].unwrap(),
            )) by {
                assert(EqualityAnalysis.sound(
                    lowered,
                    crate::analysis::dataflow::result_site(Direction::Forward, lowered, b),
                    &states@[b].unwrap(),
                ));
            }
            assert forall|b: int, steps: nat|
                0 <= b < states@.len() && states@[b] is Some && #[trigger] path_clean_end(
                    lowered,
                    b,
                    steps,
                ) implies states@[b].unwrap().knowledge() == path_end(lowered, b, steps)
                && states@[b].unwrap().symmetric() by {
                lemma_result_known(lowered, b, &states@[b].unwrap());
                assert(path_clean_entry(lowered, b, steps));
            }
            assert forall|b: int|
                0 <= b < states@.len() && #[trigger] states@[b] is Some implies staged_known(
                lowered,
                (b, lowered.blocks@[b].statements@.len() as int),
                &states@[b].unwrap(),
            ) by {
                lemma_result_known(lowered, b, &states@[b].unwrap());
            }
            assert forall|b: int|
                0 < b < states@.len() && #[trigger] states@[b] is Some implies holds_renamings(
                lowered,
                in_edges(lowered, b),
                &states@[b].unwrap(),
            ) by {
                lemma_result_known(lowered, b, &states@[b].unwrap());
            }
        }
        states
    }
}

} // verus!
