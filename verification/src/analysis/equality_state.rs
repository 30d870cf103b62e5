//! Equivalence classes of variables, with the box and snapshot relations
//! between classes.

use crate::analysis::knowledge::Knowledge;
use crate::ir::VariableId;
use crate::ordered_map::{
    as_map, class_entries, class_map_clone, class_map_entries, class_map_get, class_map_insert,
    class_map_new, class_map_swap_remove, distinct_keys, has_key, index_of, keys_of, lemma_empty,
    lemma_entry, lemma_key, lemma_put, lemma_take, put, var_entries, var_map_clone, var_map_get,
    var_map_insert, var_map_keys, var_map_new, ClassMap, VarMap,
};
use crate::text::{decimal, join, joined, push_decimal, sort_lines, sorted_from, texts};
use vstd::prelude::*;
use vstd::string::StringExecFns;

verus! {

/// A relation between two classes, named from the side of the class that
/// stores it.
#[derive(Clone, Copy, Debug, PartialEq, Eq, Structural)]
pub enum Relation {
    /// The other class holds the boxes of this one.
    Boxed,
    /// The other class is what this one, as a box, holds.
    Unboxed,
    /// The other class holds the snapshots of this one.
    Snapshot,
    /// This class holds the snapshots of the other one.
    Original,
}

impl Relation {
    /// The same relation seen from the other class.
    pub open spec fn spec_inverse(self) -> Relation {
        match self {
            Relation::Boxed => Relation::Unboxed,
            Relation::Unboxed => Relation::Boxed,
            Relation::Snapshot => Relation::Original,
            Relation::Original => Relation::Snapshot,
        }
    }

    /// The same relation seen from the other class.
    pub fn inverse(self) -> (r: Relation)
        ensures
            r == self.spec_inverse(),
    {
        match self {
            Relation::Boxed => Relation::Unboxed,
            Relation::Unboxed => Relation::Boxed,
            Relation::Snapshot => Relation::Original,
            Relation::Original => Relation::Snapshot,
        }
    }
}

/// What is known of one equivalence class: the classes related to it.
#[derive(Clone, Copy, Debug)]
pub struct ClassInfo {
    /// A member of the class of boxes that hold this class.
    pub boxed_class: Option<VariableId>,
    /// A member of the class that this class, as a box, holds.
    pub unboxed_class: Option<VariableId>,
    /// A member of the class of snapshots of this class.
    pub snapshot_class: Option<VariableId>,
    /// A member of the class of which this class is the snapshot.
    pub original_class: Option<VariableId>,
}

impl ClassInfo {
    /// A class without relations.
    pub open spec fn spec_empty() -> ClassInfo {
        ClassInfo {
            boxed_class: None,
            unboxed_class: None,
            snapshot_class: None,
            original_class: None,
        }
    }

    /// A class without relations.
    pub fn empty() -> (r: ClassInfo)
        ensures
            r == ClassInfo::spec_empty(),
    {
        ClassInfo {
            boxed_class: None,
            unboxed_class: None,
            snapshot_class: None,
            original_class: None,
        }
    }

    /// The variable recorded for `relation`, if any.
    pub open spec fn spec_get(self, relation: Relation) -> Option<VariableId> {
        match relation {
            Relation::Boxed => self.boxed_class,
            Relation::Unboxed => self.unboxed_class,
            Relation::Snapshot => self.snapshot_class,
            Relation::Original => self.original_class,
        }
    }

    /// The variable recorded for `relation`, if any.
    pub fn get(&self, relation: Relation) -> (r: Option<VariableId>)
        ensures
            r == self.spec_get(relation),
    {
        match relation {
            Relation::Boxed => self.boxed_class,
            Relation::Unboxed => self.unboxed_class,
            Relation::Snapshot => self.snapshot_class,
            Relation::Original => self.original_class,
        }
    }

    /// This class with `value` recorded for `relation`.
    pub open spec fn spec_with(self, relation: Relation, value: Option<VariableId>) -> ClassInfo {
        match relation {
            Relation::Boxed => ClassInfo { boxed_class: value, ..self },
            Relation::Unboxed => ClassInfo { unboxed_class: value, ..self },
            Relation::Snapshot => ClassInfo { snapshot_class: value, ..self },
            Relation::Original => ClassInfo { original_class: value, ..self },
        }
    }

    /// This class with `value` recorded for `relation`.
    pub fn with(self, relation: Relation, value: Option<VariableId>) -> (r: ClassInfo)
        ensures
            r == self.spec_with(relation, value),
    {
        let mut r = self;
        match relation {
            Relation::Boxed => {
                r.boxed_class = value;
            },
            Relation::Unboxed => {
                r.unboxed_class = value;
            },
            Relation::Snapshot => {
                r.snapshot_class = value;
            },
            Relation::Original => {
                r.original_class = value;
            },
        }
        r
    }

    /// Field by field, what `self` records, else what `other` records.
    pub open spec fn spec_or(self, other: ClassInfo) -> ClassInfo {
        ClassInfo {
            boxed_class: or_else(self.boxed_class, other.boxed_class),
            unboxed_class: or_else(self.unboxed_class, other.unboxed_class),
            snapshot_class: or_else(self.snapshot_class, other.snapshot_class),
            original_class: or_else(self.original_class, other.original_class),
        }
    }

    /// Some relation is recorded in both with different variables.
    pub open spec fn spec_conflicts(self, other: ClassInfo) -> bool {
        ||| differ(self.boxed_class, other.boxed_class)
        ||| differ(self.unboxed_class, other.unboxed_class)
        ||| differ(self.snapshot_class, other.snapshot_class)
        ||| differ(self.original_class, other.original_class)
    }

    /// The variables recorded in the relations: boxed, original, snapshot,
    /// unboxed, those that are present.
    pub open spec fn spec_referenced_vars(self) -> Seq<VariableId> {
        option_seq(self.boxed_class) + option_seq(self.original_class) + option_seq(
            self.snapshot_class,
        ) + option_seq(self.unboxed_class)
    }

    /// The variables recorded in the relations: boxed, original, snapshot,
    /// unboxed, those that are present.
    pub fn referenced_vars(&self) -> (r: Vec<VariableId>)
        ensures
            r@ == self.spec_referenced_vars(),
    {
        let mut r: Vec<VariableId> = Vec::new();
        if let Some(v) = self.boxed_class {
            r.push(v);
        }
        assert(r@ =~= option_seq(self.boxed_class));
        if let Some(v) = self.original_class {
            r.push(v);
        }
        assert(r@ =~= option_seq(self.boxed_class) + option_seq(self.original_class));
        if let Some(v) = self.snapshot_class {
            r.push(v);
        }
        assert(r@ =~= option_seq(self.boxed_class) + option_seq(self.original_class) + option_seq(
            self.snapshot_class,
        ));
        if let Some(v) = self.unboxed_class {
            r.push(v);
        }
        assert(r@ =~= self.spec_referenced_vars());
        r
    }

    /// Whether the class has no relation.
    pub open spec fn spec_is_empty(self) -> bool {
        self == ClassInfo::spec_empty()
    }

    /// Whether the class has no relation.
    pub fn is_empty(&self) -> (r: bool)
        ensures
            r == self.spec_is_empty(),
    {
        self.boxed_class.is_none() && self.unboxed_class.is_none() && self.snapshot_class.is_none()
            && self.original_class.is_none()
    }
}

/// The name under which a variable is written out.
pub open spec fn var_name(v: VariableId) -> Seq<char> {
    seq!['v'] + decimal(v as nat)
}

/// The line that says that the class of `s` holds the snapshots of the class of `rep`.
pub open spec fn snapshot_line(rep: VariableId, s: VariableId) -> Seq<char> {
    seq!['@'] + var_name(rep) + seq![' ', '=', ' '] + var_name(s)
}

/// The line that says that the class of `b` holds the boxes of the class of `rep`.
pub open spec fn box_line(rep: VariableId, b: VariableId) -> Seq<char> {
    seq!['B', 'o', 'x', '('] + var_name(rep) + seq![')'] + seq![' ', '=', ' '] + var_name(b)
}

/// The line that says that `var` is in the class of `rep`.
pub open spec fn member_line(rep: VariableId, var: VariableId) -> Seq<char> {
    var_name(rep) + seq![' ', '=', ' '] + var_name(var)
}

/// The line `left = right`, with the name of the variable `left` between
/// `before` and `after`, and the name of `right`.
fn write_relation(before: &str, left: VariableId, after: &str, right: VariableId) -> (line: String)
    ensures
        line@ == before@ + var_name(left) + after@ + seq![' ', '=', ' '] + var_name(right),
{
    let mut line = String::new();
    proof {
        reveal_strlit("v");
        reveal_strlit(" = ");
    }
    line.append(before);
    line.append("v");
    push_decimal(&mut line, left as u128);
    line.append(after);
    line.append(" = ");
    line.append("v");
    push_decimal(&mut line, right as u128);
    proof {
        assert(line@ =~= before@ + var_name(left) + after@ + seq![' ', '=', ' '] + var_name(right));
    }
    line
}

/// The first option where it holds something, else the second.
pub open spec fn or_else(x: Option<VariableId>, y: Option<VariableId>) -> Option<VariableId> {
    if x is Some {
        x
    } else {
        y
    }
}

/// Both options hold a variable, and not the same one.
pub open spec fn differ(x: Option<VariableId>, y: Option<VariableId>) -> bool {
    x is Some && y is Some && x != y
}

/// The sequence of what an option holds.
pub open spec fn option_seq(o: Option<VariableId>) -> Seq<VariableId> {
    match o {
        Some(v) => seq![v],
        None => Seq::empty(),
    }
}

/// The representative that the parent links lead to from `v`. Only links to a
/// lower variable are followed, so the walk ends.
pub open spec fn rep_of(parents: Map<usize, usize>, v: usize) -> usize
    decreases v,
{
    if parents.contains_key(v) && parents[v] < v {
        rep_of(parents, parents[v])
    } else {
        v
    }
}

/// Whether the walk along the parent links from `from` to its
/// representative comes by `v`.
pub open spec fn on_path(parents: Map<usize, usize>, from: usize, v: usize) -> bool
    decreases from,
{
    from == v || (parents.contains_key(from) && parents[from] < from && on_path(
        parents,
        parents[from],
        v,
    ))
}

/// No link leads to a higher variable, and the representative of a linked
/// variable is linked too.
pub open spec fn forest(parents: Map<usize, usize>) -> bool {
    &&& forall|k: usize| #[trigger] parents.contains_key(k) ==> parents[k] <= k
    &&& forall|k: usize|
        parents.contains_key(k) ==> parents.contains_key(#[trigger] rep_of(parents, k))
}

/// A representative is the lowest member of its class and its own representative.
pub proof fn lemma_rep_canonical(parents: Map<usize, usize>, v: usize)
    ensures
        rep_of(parents, v) <= v,
        rep_of(parents, rep_of(parents, v)) == rep_of(parents, v),
    decreases v,
{
    if parents.contains_key(v) && parents[v] < v {
        lemma_rep_canonical(parents, parents[v]);
    }
}

/// What the walk from `from` comes by is not higher than `from`.
proof fn lemma_path_lower(parents: Map<usize, usize>, from: usize, v: usize)
    requires
        on_path(parents, from, v),
    ensures
        v <= from,
    decreases from,
{
    if from != v {
        lemma_path_lower(parents, parents[from], v);
    }
}

/// The walk from a variable ends at its representative.
proof fn lemma_path_ends(parents: Map<usize, usize>, from: usize, root: usize)
    requires
        root == rep_of(parents, from),
    ensures
        on_path(parents, from, root),
        on_path(parents, from, from),
    decreases from,
{
    if parents.contains_key(from) && parents[from] < from {
        lemma_path_ends(parents, parents[from], root);
    }
}

/// Where the walk from `from` comes by `middle`, it comes by `v` before
/// `middle`, at `middle`, or on the walk from the parent of `middle`.
proof fn lemma_path_step(parents: Map<usize, usize>, from: usize, middle: usize, v: usize)
    requires
        on_path(parents, from, middle),
        parents.contains_key(middle),
        parents[middle] < middle,
    ensures
        on_path(parents, from, parents[middle]),
        on_path(parents, middle, v) <==> (v == middle || on_path(parents, parents[middle], v)),
        on_path(parents, middle, v) ==> on_path(parents, from, v),
    decreases from,
{
    if from != middle {
        lemma_path_step(parents, parents[from], middle, v);
    } else {
        assert(on_path(parents, parents[middle], parents[middle]));
    }
}

/// Pointing a variable at its representative changes no representative.
proof fn lemma_compress(parents: Map<usize, usize>, c: usize, v: usize)
    requires
        rep_of(parents, c) <= c,
    ensures
        rep_of(parents.insert(c, rep_of(parents, c)), v) == rep_of(parents, v),
    decreases v,
{
    let root = rep_of(parents, c);
    lemma_rep_canonical(parents, c);
    if v == c {
        if root < c {
            lemma_compress(parents, c, root);
        }
    } else if parents.contains_key(v) && parents[v] < v {
        lemma_compress(parents, c, parents[v]);
    }
}

/// Giving a representative a link to itself changes no representative.
proof fn lemma_self_link(parents: Map<usize, usize>, n: usize, v: usize)
    requires
        rep_of(parents, n) == n,
    ensures
        rep_of(parents.insert(n, n), v) == rep_of(parents, v),
    decreases v,
{
    if v != n && parents.contains_key(v) && parents[v] < v {
        lemma_self_link(parents, n, parents[v]);
    }
}

/// Linking the representative `o` to the lower representative `n` moves the
/// class of `o` into that of `n` and changes nothing else.
proof fn lemma_link(parents: Map<usize, usize>, o: usize, n: usize, v: usize)
    requires
        rep_of(parents, o) == o,
        rep_of(parents, n) == n,
        n < o,
    ensures
        rep_of(parents.insert(o, n), v) == if rep_of(parents, v) == o {
            n
        } else {
            rep_of(parents, v)
        },
    decreases v,
{
    if v == o {
        lemma_link(parents, o, n, n);
    } else if parents.contains_key(v) && parents[v] < v {
        lemma_link(parents, o, n, parents[v]);
    }
}

/// Equivalence classes of variables, kept as a union-find forest, with the
/// relations between classes stored at the class representatives. A variable
/// without a parent link is its own representative.
pub struct EqualityState {
    union_find: VarMap,
    class_info: ClassMap,
}

impl EqualityState {
    /// The parent links.
    pub closed spec fn parents(&self) -> Map<usize, usize> {
        as_map(var_entries(self.union_find))
    }

    /// The stored class records, by representative.
    pub closed spec fn classes(&self) -> Map<usize, ClassInfo> {
        as_map(class_entries(self.class_info))
    }

    /// Number of stored class records.
    pub closed spec fn class_count(&self) -> nat {
        class_entries(self.class_info).len()
    }

    /// The parent links form a forest in which the lowest member of a class
    /// is its representative; class records are stored at representatives
    /// only, and none of them is empty.
    pub closed spec fn wf(&self) -> bool {
        &&& self.links_wf()
        &&& distinct_keys(class_entries(self.class_info))
        &&& forall|r: usize| #[trigger]
            self.classes().contains_key(r) ==> rep_of(self.parents(), r) == r
                && !self.classes()[r].spec_is_empty()
    }

    /// The part of `wf` that speaks of the parent links.
    spec fn links_wf(&self) -> bool {
        &&& distinct_keys(var_entries(self.union_find))
        &&& forest(self.parents())
    }

    /// The variable that the parent link of `v` leads to; `v` itself where it has no link.
    pub open spec fn parent(&self, v: VariableId) -> VariableId {
        if self.parents().contains_key(v) {
            self.parents()[v]
        } else {
            v
        }
    }

    /// The representative of the class of `v`.
    pub open spec fn rep(&self, v: VariableId) -> VariableId {
        rep_of(self.parents(), v)
    }

    /// Whether `v` has a parent link.
    pub open spec fn linked(&self, v: VariableId) -> bool {
        self.parents().contains_key(v)
    }

    /// The record stored for the representative `r`; empty where none is stored.
    pub open spec fn info(&self, r: VariableId) -> ClassInfo {
        if self.classes().contains_key(r) {
            self.classes()[r]
        } else {
            ClassInfo::spec_empty()
        }
    }

    /// The representative of the class that stands in `relation` to the class of `v`.
    pub open spec fn related(&self, v: VariableId, relation: Relation) -> Option<VariableId> {
        match self.info(self.rep(v)).spec_get(relation) {
            Some(w) => Some(self.rep(w)),
            None => None,
        }
    }

    /// The variable that the record of the class of `v` holds for `relation`.
    pub open spec fn held(&self, v: VariableId, relation: Relation) -> Option<VariableId> {
        self.info(self.rep(v)).spec_get(relation)
    }

    /// Every two variables that the state holds equal are the same by `same`.
    #[verifier::opaque]
    pub open spec fn within(&self, same: spec_fn(VariableId, VariableId) -> bool) -> bool {
        forall|u: VariableId, v: VariableId| self.rep(u) == self.rep(v) ==> #[trigger] same(u, v)
    }

    /// `same` is a congruence of the state: an equivalence that holds the
    /// same what the state holds equal, and under which the classes of two
    /// variables that are the same record, for each relation, variables
    /// that are the same.
    #[verifier::opaque]
    pub open spec fn congruent(&self, same: spec_fn(VariableId, VariableId) -> bool) -> bool {
        &&& is_equivalence(same)
        &&& self.within(same)
        &&& forall|u: VariableId, v: VariableId, relation: Relation|
            #![trigger same(u, v), self.held(u, relation)]
            same(u, v) && self.held(u, relation) is Some && self.held(v, relation) is Some
                ==> same(self.held(u, relation).unwrap(), self.held(v, relation).unwrap())
    }

    /// Every record of the state comes from a record of `before`, up to
    /// `same`: what a class records for a relation is the same as what the
    /// class of a variable that is the same recorded for it in `before`.
    #[verifier::opaque]
    pub open spec fn records_from(
        &self,
        before: &EqualityState,
        same: spec_fn(VariableId, VariableId) -> bool,
    ) -> bool {
        forall|v: VariableId, relation: Relation| #[trigger]
            self.held(v, relation) is Some ==> exists|w: VariableId|
                same(v, w) && #[trigger] before.held(w, relation) is Some && same(
                    self.held(v, relation).unwrap(),
                    before.held(w, relation).unwrap(),
                )
    }

    /// `same` agrees with relating `a` and `b`: whatever the class of a
    /// variable that is the same as `a` records for `a_to_b` is the same as
    /// `b`, and whatever the class of a variable that is the same as `b`
    /// records for `b_to_a` is the same as `a`.
    #[verifier::opaque]
    pub open spec fn relation_within(
        &self,
        same: spec_fn(VariableId, VariableId) -> bool,
        a: VariableId,
        b: VariableId,
        a_to_b: Relation,
        b_to_a: Relation,
    ) -> bool {
        &&& forall|w: VariableId|
            #![trigger self.held(w, a_to_b)]
            same(w, a) && self.held(w, a_to_b) is Some ==> same(
                self.held(w, a_to_b).unwrap(),
                b,
            )
        &&& forall|w: VariableId|
            #![trigger self.held(w, b_to_a)]
            same(w, b) && self.held(w, b_to_a) is Some ==> same(
                self.held(w, b_to_a).unwrap(),
                a,
            )
    }

    /// What the state knows.
    pub open spec fn knowledge(&self) -> Knowledge {
        Knowledge {
            rep: |v: VariableId| self.rep(v),
            info: |r: VariableId| self.info(r),
            linked: |v: VariableId| self.linked(v),
        }
    }

    /// The state knows exactly `known`.
    #[verifier::opaque]
    pub open spec fn shows(&self, known: Knowledge) -> bool {
        &&& forall|v: VariableId| #[trigger] self.rep(v) == (known.rep)(v)
        &&& forall|r: VariableId| #[trigger] self.info(r) == (known.info)(r)
        &&& forall|v: VariableId| #[trigger] self.linked(v) == (known.linked)(v)
    }

    /// Both states put every variable in the same class.
    pub open spec fn same_partition(&self, other: &EqualityState) -> bool {
        forall|v: VariableId| self.rep(v) == other.rep(v)
    }

    /// Both states store the same class records.
    pub open spec fn same_records(&self, other: &EqualityState) -> bool {
        self.classes() == other.classes()
    }

    /// Every two variables that `self` holds equal, `other` holds equal too.
    pub open spec fn refined_by(&self, other: &EqualityState) -> bool {
        forall|u: VariableId, v: VariableId|
            self.rep(u) == self.rep(v) ==> other.rep(u) == other.rep(v)
    }

    /// The state in which no two variables are known equal and no relation is known.
    pub fn new() -> (s: EqualityState)
        ensures
            s.wf(),
            forall|v: VariableId| s.rep(v) == v,
            forall|r: VariableId| s.info(r) == ClassInfo::spec_empty(),
            forall|v: VariableId| !s.linked(v),
            s.class_count() == 0,
            s.symmetric(),
            s.knowledge() == Knowledge::nothing(),
    {
        proof {
            lemma_empty::<usize, usize>();
            lemma_empty::<usize, ClassInfo>();
        }
        let s = EqualityState { union_find: var_map_new(), class_info: class_map_new() };
        proof {
            assert(s.shows(Knowledge::nothing())) by {
                reveal(EqualityState::shows);
            }
            lemma_shown_is_known(s, Knowledge::nothing());
        }
        s
    }

    /// The parent of `var`: itself where it has no link.
    pub fn get_parent(&self, var: VariableId) -> (p: VariableId)
        ensures
            p == self.parent(var),
    {
        proof {
            if has_key(var_entries(self.union_find), var) {
                lemma_key(var_entries(self.union_find), var);
            }
        }
        match var_map_get(&self.union_find, var) {
            Some(p) => p,
            None => var,
        }
    }

    /// The record of the class whose representative is `var`.
    fn get_class_info(&self, var: VariableId) -> (info: ClassInfo)
        ensures
            info == self.info(var),
    {
        proof {
            if has_key(class_entries(self.class_info), var) {
                lemma_key(class_entries(self.class_info), var);
            }
        }
        match class_map_get(&self.class_info, var) {
            Some(info) => info,
            None => ClassInfo::empty(),
        }
    }

    /// The representative of the class of `var`; the state is left as it is.
    pub fn find_immut(&self, var: VariableId) -> (r: VariableId)
        requires
            self.wf(),
        ensures
            r == self.rep(var),
    {
        let mut cur = var;
        loop
            invariant
                self.wf(),
                self.rep(cur) == self.rep(var),
            ensures
                cur == self.rep(var),
            decreases cur,
        {
            let parent = self.get_parent(cur);
            if parent != cur {
                cur = parent;
            } else {
                break ;
            }
        }
        cur
    }

    /// The representative of the class of `var`. Every variable on the way to
    /// it is linked to it directly; no class changes.
    pub fn find(&mut self, var: VariableId) -> (r: VariableId)
        requires
            old(self).wf(),
        ensures
            r == old(self).rep(var),
            final(self).same_partition(old(self)),
            final(self).same_records(old(self)),
            final(self).class_count() == old(self).class_count(),
            forall|v: VariableId| final(self).linked(v) == old(self).linked(v),
            final(self).knowledge() == old(self).knowledge(),
            forall|v: VariableId|
                #![trigger final(self).parent(v)]
                final(self).parent(v) == if v != r && on_path(old(self).parents(), var, v) {
                    r
                } else {
                    old(self).parent(v)
                },
            final(self).wf(),
    {
        let root = self.find_immut(var);
        let mut cur = var;
        let ghost start = old(self).parents();
        proof {
            lemma_path_ends(start, var, root);
        }
        while cur != root
            invariant
                self.wf(),
                self.same_partition(old(self)),
                self.class_info == old(self).class_info,
                forall|v: VariableId| self.linked(v) == old(self).linked(v),
                self.rep(cur) == root,
                start == old(self).parents(),
                rep_of(start, var) == root,
                on_path(start, var, cur),
                forall|v: VariableId|
                    #![trigger self.parent(v)]
                    self.parent(v) == if v != root && on_path(start, var, v) && !on_path(
                        start,
                        cur,
                        v,
                    ) {
                        root
                    } else {
                        old(self).parent(v)
                    },
            decreases cur,
        {
            let parent = self.get_parent(cur);
            let ghost before = self.parents();
            let ghost records = self.classes();
            proof {
                assert(on_path(start, cur, cur));
                assert(self.parent(cur) == old(self).parent(cur));
                assert forall|v: VariableId|
                    (if before.contains_key(v) {
                        before[v]
                    } else {
                        v
                    }) == if v != root && on_path(start, var, v) && !on_path(start, cur, v) {
                        root
                    } else {
                        old(self).parent(v)
                    } by {
                    assert(self.parent(v) == if before.contains_key(v) {
                        before[v]
                    } else {
                        v
                    });
                }
                assert(old(self).rep(cur) == root);
                assert(start.contains_key(cur) && start[cur] < cur && parent == start[cur]);
                assert(forall|r: usize| #[trigger]
                    records.contains_key(r) ==> rep_of(before, r) == r);
                lemma_put(var_entries(self.union_find), cur, root);
                lemma_rep_canonical(before, cur);
                assert(before.contains_key(cur) && before[cur] < cur);
            }
            var_map_insert(&mut self.union_find, cur, root);
            proof {
                let after = self.parents();
                assert(after.dom() =~= before.dom());
                assert forall|v: usize| rep_of(after, v) == rep_of(before, v) by {
                    lemma_compress(before, cur, v);
                }
                assert(self.classes() == records);
                assert forall|v: VariableId|
                    #![trigger self.parent(v)]
                    self.parent(v) == if v != root && on_path(start, var, v) && !on_path(
                        start,
                        parent,
                        v,
                    ) {
                        root
                    } else {
                        old(self).parent(v)
                    } by {
                    lemma_path_step(start, var, cur, v);
                    if v == cur {
                        if on_path(start, parent, v) {
                            lemma_path_lower(start, parent, v);
                        }
                    } else {
                        assert(before.contains_key(v) ==> after[v] == before[v]);
                        assert(on_path(start, cur, v) == on_path(start, parent, v));
                    }
                }
                lemma_path_step(start, var, cur, parent);
            }
            cur = parent;
        }
        proof {
            assert forall|v: VariableId|
                #![trigger self.parent(v)]
                self.parent(v) == if v != root && on_path(start, var, v) {
                    root
                } else {
                    old(self).parent(v)
                } by {
                lemma_rep_canonical(start, root);
                assert(rep_of(start, root) == root);
                if start.contains_key(root) && start[root] < root {
                    lemma_rep_canonical(start, start[root]);
                }
                assert(v != root ==> !on_path(start, root, v));
            }
            lemma_same_knowledge(*self, *old(self));
        }
        root
    }

    /// The lower of the representatives of `a` and `b`.
    pub open spec fn lower_rep(&self, a: VariableId, b: VariableId) -> VariableId {
        if self.rep(a) < self.rep(b) {
            self.rep(a)
        } else {
            self.rep(b)
        }
    }

    /// The higher of the representatives of `a` and `b`.
    pub open spec fn higher_rep(&self, a: VariableId, b: VariableId) -> VariableId {
        if self.rep(a) < self.rep(b) {
            self.rep(b)
        } else {
            self.rep(a)
        }
    }

    /// The classes of `a` and `b` differ and record, for some relation,
    /// different variables.
    pub open spec fn conflicting(&self, a: VariableId, b: VariableId) -> bool {
        self.rep(a) != self.rep(b) && self.info(self.rep(a)).spec_conflicts(
            self.info(self.rep(b)),
        )
    }

    /// The representative of `v` once the classes of `a` and `b` are one.
    pub open spec fn joined_rep(&self, a: VariableId, b: VariableId, v: VariableId) -> VariableId {
        if self.rep(v) == self.higher_rep(a, b) {
            self.lower_rep(a, b)
        } else {
            self.rep(v)
        }
    }

    /// The record of `r` once the classes of `a` and `b` are one and their
    /// records are put together.
    pub open spec fn joined_info(&self, a: VariableId, b: VariableId, r: VariableId) -> ClassInfo {
        if self.rep(a) == self.rep(b) {
            self.info(r)
        } else if r == self.higher_rep(a, b) {
            ClassInfo::spec_empty()
        } else if r == self.lower_rep(a, b) {
            self.info(self.lower_rep(a, b)).spec_or(self.info(self.higher_rep(a, b)))
        } else {
            self.info(r)
        }
    }

    /// The variable that the record of the joined class of `a` and `b` holds
    /// for `relation` in `after`, where `self` is the state before the
    /// classes were joined and no relation that is put together later
    /// differs: where the two records hold different variables, the
    /// representative of their class; else what either record holds, that
    /// of the lower representative first.
    pub open spec fn stored_field(
        &self,
        after: &EqualityState,
        a: VariableId,
        b: VariableId,
        relation: Relation,
    ) -> Option<VariableId> {
        let kept = self.info(self.lower_rep(a, b)).spec_get(relation);
        let dropped = self.info(self.higher_rep(a, b)).spec_get(relation);
        if differ(kept, dropped) {
            Some(after.rep(kept.unwrap()))
        } else {
            or_else(kept, dropped)
        }
    }

    /// The class that the joined class of `a` and `b` has in `relation` in
    /// `after`, where `self` is the state before the classes were joined:
    /// the class of what either of the two recorded.
    pub open spec fn kept_related(
        &self,
        after: &EqualityState,
        a: VariableId,
        b: VariableId,
        relation: Relation,
    ) -> Option<VariableId> {
        let first = self.info(self.rep(a)).spec_get(relation);
        let second = self.info(self.rep(b)).spec_get(relation);
        if first is Some {
            Some(after.rep(first.unwrap()))
        } else if second is Some {
            Some(after.rep(second.unwrap()))
        } else {
            None
        }
    }

    /// Puts together what two classes that have become one record for one
    /// relation. Where they record different variables, the classes of
    /// those become one too.
    fn merge_field(
        &mut self,
        kept: Option<VariableId>,
        dropped: Option<VariableId>,
        Ghost(bound): Ghost<nat>,
    ) -> (r: Option<VariableId>)
        requires
            old(self).wf(),
            differ(kept, dropped) ==> old(self).class_count() < bound,
        ensures
            final(self).wf(),
            old(self).refined_by(final(self)),
            final(self).class_count() <= old(self).class_count(),
            differ(kept, dropped) ==> r == Some(final(self).rep(kept.unwrap()))
                && final(self).rep(kept.unwrap()) == final(self).rep(dropped.unwrap()),
            !differ(kept, dropped) ==> r == or_else(kept, dropped) && *final(self) == *old(self),
            forall|same: spec_fn(VariableId, VariableId) -> bool| #[trigger]
                old(self).congruent(same) && (differ(kept, dropped) ==> same(
                    kept.unwrap(),
                    dropped.unwrap(),
                )) ==> final(self).within(same) && final(self).records_from(old(self), same),
        decreases bound, 0nat,
    {
        let ghost before = *self;
        let r = match (kept, dropped) {
            (Some(x), Some(y)) => {
                if x != y {
                    Some(self.union(x, y))
                } else {
                    kept
                }
            },
            (Some(_), None) => kept,
            (None, _) => dropped,
        };
        proof {
            assert forall|same: spec_fn(VariableId, VariableId) -> bool| #[trigger]
                before.congruent(same) && (differ(kept, dropped) ==> same(
                    kept.unwrap(),
                    dropped.unwrap(),
                )) implies self.within(same) && self.records_from(&before, same) by {
                if !differ(kept, dropped) {
                    lemma_bound_kept(before, *self, same);
                }
            }
        }
        r
    }

    /// Puts together the records of two classes that have become one,
    /// relation by relation.
    fn merge_info(&mut self, kept: ClassInfo, dropped: ClassInfo, Ghost(bound): Ghost<nat>) -> (merged:
        ClassInfo)
        requires
            old(self).wf(),
            kept.spec_conflicts(dropped) ==> old(self).class_count() < bound,
        ensures
            final(self).wf(),
            old(self).refined_by(final(self)),
            final(self).class_count() <= old(self).class_count(),
            !kept.spec_conflicts(dropped) ==> *final(self) == *old(self) && merged == kept.spec_or(
                dropped,
            ),
            kept.spec_conflicts(dropped) ==> !merged.spec_is_empty(),
            forall|same: spec_fn(VariableId, VariableId) -> bool| #[trigger]
                old(self).congruent(same) && fields_same(kept, dropped, same)
                    ==> final(self).within(same) && final(self).records_from(old(self), same),
            forall|relation: Relation|
                #![trigger merged.spec_get(relation)]
                if differ(kept.spec_get(relation), dropped.spec_get(relation)) {
                    merged.spec_get(relation) is Some && final(self).rep(
                        merged.spec_get(relation).unwrap(),
                    ) == final(self).rep(kept.spec_get(relation).unwrap()) && final(self).rep(
                        kept.spec_get(relation).unwrap(),
                    ) == final(self).rep(dropped.spec_get(relation).unwrap())
                } else {
                    merged.spec_get(relation) == or_else(
                        kept.spec_get(relation),
                        dropped.spec_get(relation),
                    )
                },
            forall|relation: Relation|
                #![trigger merged.spec_get(relation)]
                differ(kept.spec_get(relation), dropped.spec_get(relation)) && !differs_later(
                    kept,
                    dropped,
                    relation,
                ) ==> merged.spec_get(relation) == Some(
                    final(self).rep(kept.spec_get(relation).unwrap()),
                ),
        decreases bound, 1nat,
    {
        let ghost s2 = *self;
        let boxed = self.merge_field(kept.boxed_class, dropped.boxed_class, Ghost(bound));
        let ghost s3 = *self;
        let unboxed = self.merge_field(kept.unboxed_class, dropped.unboxed_class, Ghost(bound));
        let ghost s4 = *self;
        let snapshot = self.merge_field(kept.snapshot_class, dropped.snapshot_class, Ghost(bound));
        let ghost s5 = *self;
        let original = self.merge_field(kept.original_class, dropped.original_class, Ghost(bound));
        let merged = ClassInfo {
            boxed_class: boxed,
            unboxed_class: unboxed,
            snapshot_class: snapshot,
            original_class: original,
        };
        proof {
            assert(s2.refined_by(&s4));
            assert(s4.refined_by(self));
            assert(s3.refined_by(self)) by {
                assert(s3.refined_by(&s4));
            }
            assert(s5.refined_by(self));
            assert forall|relation: Relation|
                #![trigger merged.spec_get(relation)]
                differ(
                    kept.spec_get(relation),
                    dropped.spec_get(relation),
                ) implies merged.spec_get(relation) is Some && self.rep(
                merged.spec_get(relation).unwrap(),
            ) == self.rep(kept.spec_get(relation).unwrap()) && self.rep(
                kept.spec_get(relation).unwrap(),
            ) == self.rep(dropped.spec_get(relation).unwrap()) by {
                let x = kept.spec_get(relation).unwrap();
                let y = dropped.spec_get(relation).unwrap();
                let z = merged.spec_get(relation).unwrap();
                match relation {
                    Relation::Boxed => {
                        lemma_rep_canonical(s3.parents(), x);
                        assert(s3.rep(z) == s3.rep(x) && s3.rep(x) == s3.rep(y));
                    },
                    Relation::Unboxed => {
                        lemma_rep_canonical(s4.parents(), x);
                        assert(s4.rep(z) == s4.rep(x) && s4.rep(x) == s4.rep(y));
                    },
                    Relation::Snapshot => {
                        lemma_rep_canonical(s5.parents(), x);
                        assert(s5.rep(z) == s5.rep(x) && s5.rep(x) == s5.rep(y));
                    },
                    Relation::Original => {
                        lemma_rep_canonical(self.parents(), x);
                    },
                }
            }
            assert forall|relation: Relation|
                #![trigger merged.spec_get(relation)]
                differ(kept.spec_get(relation), dropped.spec_get(relation)) && !differs_later(
                    kept,
                    dropped,
                    relation,
                ) implies merged.spec_get(relation) == Some(
                self.rep(kept.spec_get(relation).unwrap()),
            ) by {
                match relation {
                    Relation::Boxed => {
                        assert(s4 == s3 && s5 == s4 && *self == s5);
                    },
                    Relation::Unboxed => {
                        assert(s5 == s4 && *self == s5);
                    },
                    Relation::Snapshot => {
                        assert(*self == s5);
                    },
                    Relation::Original => {},
                }
            }
            assert forall|same: spec_fn(VariableId, VariableId) -> bool| #[trigger]
                s2.congruent(same) && fields_same(kept, dropped, same) implies self.within(same)
                && self.records_from(&s2, same) by {
                lemma_bound_congruent(s2, s3, same);
                lemma_bound_chain(s2, s3, s4, same);
                lemma_bound_congruent(s2, s4, same);
                lemma_bound_chain(s2, s4, s5, same);
                lemma_bound_congruent(s2, s5, same);
                lemma_bound_chain(s2, s5, *self, same);
            }
        }
        merged
    }

    /// Links the representative `old_root` to the lower representative
    /// `new_root`, which gets a link to itself where it had none.
    fn link_roots(&mut self, new_root: VariableId, old_root: VariableId)
        requires
            old(self).links_wf(),
            old(self).rep(new_root) == new_root,
            old(self).rep(old_root) == old_root,
            new_root < old_root,
        ensures
            final(self).links_wf(),
            final(self).class_info == old(self).class_info,
            forall|v: VariableId|
                final(self).rep(v) == if old(self).rep(v) == old_root {
                    new_root
                } else {
                    old(self).rep(v)
                },
            forall|v: VariableId|
                final(self).linked(v) == (old(self).linked(v) || v == new_root || v == old_root),
    {
        let ghost p0 = self.parents();
        proof {
            lemma_rep_canonical(p0, new_root);
            if has_key(var_entries(self.union_find), new_root) {
                lemma_key(var_entries(self.union_find), new_root);
                if p0[new_root] < new_root {
                    lemma_rep_canonical(p0, p0[new_root]);
                }
                assert(p0[new_root] == new_root);
            }
            lemma_put(var_entries(self.union_find), new_root, new_root);
        }
        if var_map_get(&self.union_find, new_root).is_none() {
            var_map_insert(&mut self.union_find, new_root, new_root);
        }
        let ghost p1 = self.parents();
        proof {
            assert(p1 =~= p0.insert(new_root, new_root));
            assert forall|v: usize| rep_of(p1, v) == rep_of(p0, v) by {
                lemma_self_link(p0, new_root, v);
            }
            lemma_put(var_entries(self.union_find), old_root, new_root);
        }
        var_map_insert(&mut self.union_find, old_root, new_root);
        proof {
            let p2 = self.parents();
            assert(p2 == p1.insert(old_root, new_root));
            assert forall|v: usize|
                rep_of(p2, v) == (if rep_of(p0, v) == old_root {
                    new_root
                } else {
                    rep_of(p0, v)
                }) by {
                lemma_link(p1, old_root, new_root, v);
            }
            assert forall|k: usize| #[trigger] p2.contains_key(k) implies p2[k] <= k by {
                if k != old_root && k != new_root {
                    assert(p0.contains_key(k));
                }
            }
            assert forall|k: usize| p2.contains_key(k) implies p2.contains_key(
                #[trigger] rep_of(p2, k),
            ) by {
                if rep_of(p0, k) != old_root {
                    if p0.contains_key(k) {
                        assert(p0.contains_key(rep_of(p0, k)));
                    } else {
                        assert(rep_of(p0, k) == k);
                    }
                }
            }
        }
    }

    /// Takes the record of the representative `root` out of the state.
    fn take_info(&mut self, root: VariableId) -> (info: ClassInfo)
        requires
            distinct_keys(class_entries(old(self).class_info)),
        ensures
            final(self).union_find == old(self).union_find,
            distinct_keys(class_entries(final(self).class_info)),
            info == old(self).info(root),
            final(self).classes() == old(self).classes().remove(root),
            final(self).class_count() + (if old(self).classes().contains_key(root) {
                1nat
            } else {
                0nat
            }) == old(self).class_count(),
    {
        proof {
            lemma_take(class_entries(self.class_info), root);
            if has_key(class_entries(self.class_info), root) {
                lemma_key(class_entries(self.class_info), root);
            }
        }
        match class_map_swap_remove(&mut self.class_info, root) {
            Some(info) => info,
            None => ClassInfo::empty(),
        }
    }

    /// Stores `info` as the record of the representative `root`.
    fn store_info(&mut self, root: VariableId, info: ClassInfo)
        requires
            old(self).wf(),
            old(self).rep(root) == root,
            !info.spec_is_empty(),
        ensures
            final(self).wf(),
            final(self).union_find == old(self).union_find,
            final(self).classes() == old(self).classes().insert(root, info),
            final(self).class_count() <= old(self).class_count() + 1,
    {
        let ghost c0 = self.classes();
        let ghost p0 = self.parents();
        proof {
            lemma_put(class_entries(self.class_info), root, info);
            assert(forall|r: usize| #[trigger]
                c0.contains_key(r) ==> rep_of(p0, r) == r && !c0[r].spec_is_empty());
        }
        class_map_insert(&mut self.class_info, root, info);
        proof {
            assert(self.classes() == c0.insert(root, info));
        }
    }

    /// Makes the classes of `a` and `b` one class and returns its
    /// representative, the lowest variable in it. The records of the two
    /// classes are put together; where both record a relation, the two
    /// related classes become one in the same way. The joined class keeps,
    /// for each relation, the class of what either of the two recorded; its
    /// record holds what either record held, or, where they held different
    /// variables, the representative that their join gave.
    /// Nothing is joined that the old records do not ask for: the new
    /// state lies within every congruence of the old one that holds `a`
    /// and `b` the same, and its records come from the old ones.
    #[verifier::rlimit(100)]
    pub fn union(&mut self, a: VariableId, b: VariableId) -> (r: VariableId)
        requires
            old(self).wf(),
        ensures
            final(self).wf(),
            r == final(self).rep(a),
            r == final(self).rep(b),
            old(self).refined_by(final(self)),
            final(self).class_count() <= old(self).class_count(),
            !old(self).conflicting(a, b) ==> {
                &&& forall|v: VariableId| final(self).rep(v) == old(self).joined_rep(a, b, v)
                &&& forall|v: VariableId| final(self).info(v) == old(self).joined_info(a, b, v)
                &&& forall|v: VariableId|
                    final(self).linked(v) == (old(self).linked(v)
                        || (old(self).rep(a) != old(self).rep(b) && (v == old(self).rep(a) || v
                            == old(self).rep(b))))
            },
            !old(self).conflicting(a, b) ==> final(self).knowledge() == old(self).knowledge().joined(
                a,
                b,
            ),
            !old(self).conflicting(a, b) && old(self).symmetric() ==> final(self).symmetric(),
            (old(self).knowledge().unknown(a) || old(self).knowledge().unknown(b))
                ==> !old(self).conflicting(a, b),
            forall|relation: Relation|
                #![trigger old(self).info(old(self).rep(a)).spec_get(relation)]
                old(self).rep(a) != old(self).rep(b) && differ(
                    old(self).info(old(self).rep(a)).spec_get(relation),
                    old(self).info(old(self).rep(b)).spec_get(relation),
                ) ==> final(self).rep(old(self).info(old(self).rep(a)).spec_get(relation).unwrap())
                    == final(self).rep(
                    old(self).info(old(self).rep(b)).spec_get(relation).unwrap(),
                ),
            old(self).rep(a) != old(self).rep(b) ==> forall|relation: Relation| #[trigger]
                final(self).related(a, relation) == old(self).kept_related(
                    final(self),
                    a,
                    b,
                    relation,
                ),
            forall|same: spec_fn(VariableId, VariableId) -> bool| #[trigger]
                old(self).congruent(same) && same(a, b)
                    ==> final(self).within(same) && final(self).records_from(old(self), same),
            old(self).rep(a) != old(self).rep(b) ==> forall|relation: Relation| #[trigger]
                final(self).info(r).spec_get(relation) == old(self).stored_field(
                    final(self),
                    a,
                    b,
                    relation,
                ) || (differ(
                    old(self).info(old(self).lower_rep(a, b)).spec_get(relation),
                    old(self).info(old(self).higher_rep(a, b)).spec_get(relation),
                ) && differs_later(
                    old(self).info(old(self).lower_rep(a, b)),
                    old(self).info(old(self).higher_rep(a, b)),
                    relation,
                )),
        decreases old(self).class_count(), 2nat,
    {
        let ghost s0 = *self;
        proof {
            if s0.knowledge().unknown(a) || s0.knowledge().unknown(b) {
                crate::analysis::knowledge::lemma_unknown_joins(s0.knowledge(), a, b);
            }
        }
        let root_a = self.find(a);
        let root_b = self.find(b);
        if root_a == root_b {
            proof {
                lemma_joined_shows(s0, *self, a, b);
                lemma_shown_is_known(*self, s0.knowledge().joined(a, b));
                if s0.symmetric() {
                    lemma_union_keeps_symmetric(s0, *self, a, b);
                }
                assert forall|same: spec_fn(VariableId, VariableId) -> bool| #[trigger]
                    s0.congruent(same) && same(a, b) implies self.within(same)
                    && self.records_from(&s0, same) by {
                    lemma_bound_kept(s0, *self, same);
                }
            }
            return root_a;
        }
        let (new_root, old_root) = if root_a < root_b {
            (root_a, root_b)
        } else {
            (root_b, root_a)
        };
        let ghost s1 = *self;
        proof {
            lemma_rep_canonical(s1.parents(), a);
            lemma_rep_canonical(s1.parents(), b);
            assert(forall|r: usize| #[trigger]
                s1.classes().contains_key(r) ==> s1.rep(r) == r
                    && !s1.classes()[r].spec_is_empty());
        }
        self.link_roots(new_root, old_root);
        let old_info = self.take_info(old_root);
        let new_info = self.take_info(new_root);
        let ghost s2 = *self;
        proof {
            assert(s2.classes() == s1.classes().remove(old_root).remove(new_root));
            assert(s2.wf()) by {
                assert forall|r: usize| #[trigger] s2.classes().contains_key(r) implies s2.rep(r)
                    == r && !s2.classes()[r].spec_is_empty() by {
                    assert(s1.classes().contains_key(r));
                }
            }
            assert(s0.refined_by(&s2));
        }
        let merged = self.merge_info(new_info, old_info, Ghost(s0.class_count()));
        let ghost s6 = *self;
        proof {
            assert(s0.refined_by(&s6));
            if !s0.conflicting(a, b) {
                assert(!new_info.spec_conflicts(old_info));
                assert(s6 == s2);
            }
        }
        if !merged.is_empty() {
            let final_root = self.find(new_root);
            proof {
                lemma_rep_canonical(self.parents(), new_root);
            }
            self.store_info(final_root, merged);
        }
        let ghost s7 = *self;
        let r = self.find(new_root);
        proof {
            assert(s6.refined_by(&s7));
            assert(s0.refined_by(self));
            assert forall|relation: Relation| #[trigger]
                self.info(r).spec_get(relation) == s0.stored_field(self, a, b, relation)
                    || (differ(
                    s0.info(s0.lower_rep(a, b)).spec_get(relation),
                    s0.info(s0.higher_rep(a, b)).spec_get(relation),
                ) && differs_later(
                    s0.info(s0.lower_rep(a, b)),
                    s0.info(s0.higher_rep(a, b)),
                    relation,
                )) by {
                assert(new_info == s0.info(s0.lower_rep(a, b)));
                assert(old_info == s0.info(s0.higher_rep(a, b)));
                let field = merged.spec_get(relation);
                if merged.spec_is_empty() {
                    assert(!new_info.spec_conflicts(old_info));
                    assert(s6 == s2);
                    assert(self.classes() == s2.classes());
                    assert(r == new_root);
                    assert(self.info(r) == ClassInfo::spec_empty());
                } else {
                    assert(self.info(r) == merged);
                    assert(forall|v: VariableId| self.rep(v) == s6.rep(v));
                }
            }
            assert forall|same: spec_fn(VariableId, VariableId) -> bool| #[trigger]
                s0.congruent(same) && same(a, b) implies self.within(same) && self.records_from(
                &s0,
                same,
            ) by {
                assert(new_info == s0.info(s0.lower_rep(a, b)));
                assert(old_info == s0.info(s0.higher_rep(a, b)));
                assert(forall|v: VariableId| s2.rep(v) == s0.joined_rep(a, b, v));
                assert(forall|r: VariableId|
                    s2.info(r) == if r == s0.rep(a) || r == s0.rep(b) {
                        ClassInfo::spec_empty()
                    } else {
                        s0.info(r)
                    });
                assert(forall|v: VariableId| s7.rep(v) == s6.rep(v));
                assert(forall|r: VariableId|
                    s7.info(r) == if !merged.spec_is_empty() && r == s6.rep(s0.lower_rep(a, b)) {
                        merged
                    } else {
                        s6.info(r)
                    });
                lemma_bound_union(s0, s2, s6, s7, *self, a, b, merged, same);
            }
            assert forall|relation: Relation|
                #![trigger s0.info(s0.rep(a)).spec_get(relation)]
                differ(
                    s0.info(s0.rep(a)).spec_get(relation),
                    s0.info(s0.rep(b)).spec_get(relation),
                ) implies self.rep(s0.info(s0.rep(a)).spec_get(relation).unwrap()) == self.rep(
                s0.info(s0.rep(b)).spec_get(relation).unwrap(),
            ) by {
                let x = new_info.spec_get(relation).unwrap();
                let y = old_info.spec_get(relation).unwrap();
                assert(merged.spec_get(relation) is Some);
                assert(s6.rep(x) == s6.rep(y));
                assert(self.rep(x) == self.rep(y));
            }
            assert forall|relation: Relation| #[trigger]
                self.related(a, relation) == s0.kept_related(self, a, b, relation) by {
                let kept = new_info.spec_get(relation);
                let dropped = old_info.spec_get(relation);
                let field = merged.spec_get(relation);
                assert(self.rep(a) == r);
                if merged.spec_is_empty() {
                    assert(!new_info.spec_conflicts(old_info));
                    assert(s6 == s2);
                    assert(self.classes() == s2.classes());
                    assert(r == new_root);
                } else {
                    assert(self.info(r) == merged);
                }
                if differ(kept, dropped) {
                    let z = field.unwrap();
                    assert(s6.rep(z) == s6.rep(kept.unwrap()));
                    assert(s6.rep(kept.unwrap()) == s6.rep(dropped.unwrap()));
                    assert(self.rep(z) == self.rep(kept.unwrap()));
                    assert(self.rep(kept.unwrap()) == self.rep(dropped.unwrap()));
                } else {
                    assert(field == or_else(kept, dropped));
                }
            }
            if !s0.conflicting(a, b) {
                assert(forall|v: VariableId| self.rep(v) == s0.joined_rep(a, b, v));
                assert forall|v: VariableId| self.info(v) == s0.joined_info(a, b, v) by {
                    if merged.spec_is_empty() {
                        assert(self.classes() == s2.classes());
                    } else {
                        assert(self.classes() == s2.classes().insert(new_root, merged));
                    }
                }
                assert forall|v: VariableId|
                    self.linked(v) == (s0.linked(v) || v == s0.rep(a) || v == s0.rep(b)) by {
                    assert(s1.linked(v) == s0.linked(v));
                    assert(s2.linked(v) == (s1.linked(v) || v == new_root || v == old_root));
                    assert(s7.linked(v) == s6.linked(v));
                }
                assert(s0.rep(a) != s0.rep(b));
                assert(forall|v: VariableId|
                    self.linked(v) == (s0.linked(v) || (s0.rep(a) != s0.rep(b) && (v == s0.rep(a)
                        || v == s0.rep(b)))));
                lemma_joined_shows(s0, *self, a, b);
                lemma_shown_is_known(*self, s0.knowledge().joined(a, b));
                if s0.symmetric() {
                    lemma_union_keeps_symmetric(s0, *self, a, b);
                }
            }
        }
        r
    }

    /// The representative of the class that stands in `relation` to the
    /// class of `var`, if one is recorded. No class changes.
    pub fn get_related(&mut self, var: VariableId, relation: Relation) -> (r: Option<VariableId>)
        requires
            old(self).wf(),
        ensures
            final(self).wf(),
            r == old(self).related(var, relation),
            final(self).same_partition(old(self)),
            final(self).same_records(old(self)),
            final(self).class_count() == old(self).class_count(),
            forall|v: VariableId| final(self).linked(v) == old(self).linked(v),
            final(self).knowledge() == old(self).knowledge(),
    {
        let rep = self.find(var);
        let info = self.get_class_info(rep);
        match info.get(relation) {
            Some(related) => Some(self.find(related)),
            None => None,
        }
    }

    /// Stores `value` for `relation` in the record of the representative `root`.
    fn set_field(&mut self, root: VariableId, relation: Relation, value: VariableId)
        requires
            old(self).wf(),
            old(self).rep(root) == root,
        ensures
            final(self).wf(),
            final(self).union_find == old(self).union_find,
            final(self).classes() == old(self).classes().insert(
                root,
                old(self).info(root).spec_with(relation, Some(value)),
            ),
    {
        let info = self.get_class_info(root).with(relation, Some(value));
        self.store_info(root, info);
    }

    /// Where a class is recorded for `relation` at the class of `var`, makes
    /// it one with the class of `other`. What the class of `other` had in a
    /// relation it still has, up to the joins.
    fn join_with_related(&mut self, var: VariableId, relation: Relation, other: VariableId)
        requires
            old(self).wf(),
        ensures
            final(self).wf(),
            old(self).refined_by(final(self)),
            final(self).class_count() <= old(self).class_count(),
            old(self).related(var, relation) is Some ==> final(self).rep(other) == final(self).rep(
                old(self).related(var, relation).unwrap(),
            ),
            old(self).related(var, relation) is None ==> final(self).same_partition(old(self))
                && final(self).same_records(old(self)),
            old(self).knowledge().joins_cleanly(var, relation, other) ==> final(self).shows(
                old(self).knowledge().joined_with_related(var, relation, other),
            ),
            forall|kept: Relation| #[trigger]
                old(self).related(other, kept) is Some ==> final(self).related(other, kept)
                    is Some && final(self).rep(final(self).related(other, kept).unwrap())
                    == final(self).rep(old(self).related(other, kept).unwrap()),
            forall|same: spec_fn(VariableId, VariableId) -> bool| #[trigger]
                old(self).congruent(same) && (old(self).held(var, relation) is Some ==> same(
                    old(self).held(var, relation).unwrap(),
                    other,
                )) ==> final(self).within(same) && final(self).records_from(old(self), same),
            (old(self).related(var, relation) is Some ==> old(self).related(var, relation) == Some(
                old(self).rep(other),
            )) ==> {
                &&& final(self).same_partition(old(self))
                &&& forall|r: VariableId| final(self).info(r) == old(self).info(r)
                &&& forall|v: VariableId| final(self).linked(v) == old(self).linked(v)
            },
    {
        let ghost s0 = *self;
        proof {
            reveal(EqualityState::shows);
        }
        if let Some(existing) = self.get_related(var, relation) {
            let ghost s1 = *self;
            proof {
                lemma_rep_canonical(s1.parents(), other);
                lemma_rep_canonical(s1.parents(), existing);
                assert(forall|v: VariableId| s1.rep(v) == s0.rep(v));
                assert(forall|v: VariableId| s1.info(v) == s0.info(v));
                assert(s1.conflicting(other, existing) == s0.conflicting(other, existing));
                assert(forall|v: VariableId|
                    s1.joined_rep(other, existing, v) == s0.joined_rep(other, existing, v));
                assert(forall|v: VariableId|
                    s1.joined_info(other, existing, v) == s0.joined_info(other, existing, v));
            }
            self.union(other, existing);
            proof {
                assert(s0.refined_by(self));
                assert forall|kept: Relation| #[trigger]
                    s0.related(other, kept) is Some implies self.related(other, kept) is Some
                    && self.rep(self.related(other, kept).unwrap()) == self.rep(
                    s0.related(other, kept).unwrap(),
                ) by {
                    let x = s0.info(s0.rep(other)).spec_get(kept).unwrap();
                    assert(s1.info(s1.rep(other)).spec_get(kept) == Some(x));
                    if s1.rep(other) != s1.rep(existing) {
                        assert(self.related(other, kept) == s1.kept_related(
                            self,
                            other,
                            existing,
                            kept,
                        ));
                    } else {
                        assert(self.rep(other) == s1.joined_rep(other, existing, other));
                        assert(self.info(self.rep(other)) == s1.joined_info(
                            other,
                            existing,
                            self.rep(other),
                        ));
                    }
                    assert(self.related(other, kept) == Some(self.rep(x)));
                    lemma_rep_canonical(self.parents(), x);
                    lemma_rep_canonical(s0.parents(), x);
                    assert(s0.rep(s0.rep(x)) == s0.rep(x));
                }
                if s0.knowledge().joins_cleanly(var, relation, other) {
                    assert(!s1.conflicting(other, existing));
                    lemma_known_is_shown(*self, s1.knowledge().joined(other, existing));
                    assert(self.shows(s1.knowledge().joined(other, existing)));
                    assert(self.shows(s0.knowledge().joined(other, existing)));
                }
                assert forall|same: spec_fn(VariableId, VariableId) -> bool| #[trigger]
                    s0.congruent(same) && (s0.held(var, relation) is Some ==> same(
                        s0.held(var, relation).unwrap(),
                        other,
                    )) implies self.within(same) && self.records_from(&s0, same) by {
                    let x = s0.held(var, relation).unwrap();
                    lemma_bound_kept(s0, s1, same);
                    lemma_bound_congruent(s0, s1, same);
                    lemma_bound_rep(s0, same, x);
                    assert(same(other, existing));
                    lemma_bound_chain(s0, s1, *self, same);
                }
            }
        } else {
            proof {
                assert forall|same: spec_fn(VariableId, VariableId) -> bool| #[trigger]
                    s0.congruent(same) implies self.within(same) && self.records_from(
                    &s0,
                    same,
                ) by {
                    lemma_bound_kept(s0, *self, same);
                }
                assert forall|kept: Relation| #[trigger]
                    s0.related(other, kept) is Some implies self.related(other, kept) is Some
                    && self.rep(self.related(other, kept).unwrap()) == self.rep(
                    s0.related(other, kept).unwrap(),
                ) by {
                    let x = s0.info(s0.rep(other)).spec_get(kept).unwrap();
                    lemma_rep_canonical(s0.parents(), x);
                    assert(self.rep(s0.rep(x)) == s0.rep(s0.rep(x)));
                }
            }
        }
    }

    /// The record of `r` after `set_relationship(a, b, a_to_b, b_to_a)`, where
    /// that call joins no classes.
    pub open spec fn related_info(
        &self,
        a: VariableId,
        b: VariableId,
        a_to_b: Relation,
        b_to_a: Relation,
        r: VariableId,
    ) -> ClassInfo {
        let first = if r == self.rep(a) {
            self.info(r).spec_with(a_to_b, Some(self.rep(b)))
        } else {
            self.info(r)
        };
        if r == self.rep(b) {
            first.spec_with(b_to_a, Some(self.rep(a)))
        } else {
            first
        }
    }

    /// Whether `set_relationship(a, b, a_to_b, b_to_a)` joins no classes:
    /// whatever is already recorded for the two relations agrees with what
    /// is to be recorded.
    pub open spec fn agrees(
        &self,
        a: VariableId,
        b: VariableId,
        a_to_b: Relation,
        b_to_a: Relation,
    ) -> bool {
        &&& self.related(a, a_to_b) is Some ==> self.related(a, a_to_b) == Some(self.rep(b))
        &&& self.related(b, b_to_a) is Some ==> self.related(b, b_to_a) == Some(self.rep(a))
    }

    /// Writes into the record of the class of `var_a` that the class of
    /// `var_b` stands in `a_to_b` to it, and into that of `var_b` that the
    /// class of `var_a` stands in `b_to_a` to it. No class changes.
    fn record_pair(
        &mut self,
        var_a: VariableId,
        var_b: VariableId,
        a_to_b: Relation,
        b_to_a: Relation,
    )
        requires
            old(self).wf(),
        ensures
            final(self).wf(),
            final(self).same_partition(old(self)),
            forall|v: VariableId| final(self).linked(v) == old(self).linked(v),
            forall|r: VariableId|
                final(self).info(r) == old(self).related_info(var_a, var_b, a_to_b, b_to_a, r),
    {
        let ghost s0 = *self;
        let rep_a = self.find(var_a);
        let rep_b = self.find(var_b);
        let ghost s1 = *self;
        proof {
            lemma_rep_canonical(self.parents(), var_a);
            lemma_rep_canonical(self.parents(), var_b);
            assert(forall|r: VariableId| s1.info(r) == s0.info(r));
        }
        self.set_field(rep_a, a_to_b, rep_b);
        self.set_field(rep_b, b_to_a, rep_a);
        proof {
            assert(forall|v: VariableId| self.rep(v) == s1.rep(v));
            assert(forall|v: VariableId| self.linked(v) == s1.linked(v));
        }
    }

    /// Records that the class of `var_b` stands in `a_to_b` to the class of
    /// `var_a`, and the class of `var_a` in `b_to_a` to that of `var_b`. A
    /// class already recorded in either place is first made one with the
    /// class that takes its place; the records then hold the two
    /// representatives. Where no join meets a conflict, the new state knows
    /// exactly `with_relationship`, and its relations are symmetric if they
    /// were and the two relations are inverse. In any case nothing is
    /// joined that the relation does not ask for: every congruence of the
    /// old state that agrees with the relation is one of the new state.
    #[verifier::rlimit(100)]
    pub fn set_relationship(
        &mut self,
        var_a: VariableId,
        var_b: VariableId,
        a_to_b: Relation,
        b_to_a: Relation,
    )
        requires
            old(self).wf(),
        ensures
            final(self).wf(),
            old(self).refined_by(final(self)),
            final(self).related(var_a, a_to_b) == Some(final(self).rep(var_b)),
            final(self).related(var_b, b_to_a) == Some(final(self).rep(var_a)),
            final(self).info(final(self).rep(var_a)).spec_get(a_to_b) == Some(
                final(self).rep(var_b),
            ),
            final(self).info(final(self).rep(var_b)).spec_get(b_to_a) == Some(
                final(self).rep(var_a),
            ),
            old(self).related(var_a, a_to_b) is Some ==> final(self).rep(var_b) == final(self).rep(
                old(self).related(var_a, a_to_b).unwrap(),
            ),
            old(self).related(var_b, b_to_a) is Some ==> final(self).rep(var_a) == final(self).rep(
                old(self).related(var_b, b_to_a).unwrap(),
            ),
            old(self).knowledge().relates_cleanly(var_a, var_b, a_to_b, b_to_a)
                ==> final(self).knowledge() == old(self).knowledge().with_relationship(
                var_a,
                var_b,
                a_to_b,
                b_to_a,
            ),
            old(self).agrees(var_a, var_b, a_to_b, b_to_a) ==> {
                &&& final(self).same_partition(old(self))
                &&& forall|r: VariableId|
                    final(self).info(r) == old(self).related_info(var_a, var_b, a_to_b, b_to_a, r)
                &&& forall|v: VariableId| final(self).linked(v) == old(self).linked(v)
            },
            old(self).agrees(var_a, var_b, a_to_b, b_to_a) && old(self).symmetric() && b_to_a
                == a_to_b.spec_inverse() ==> final(self).symmetric(),
            old(self).knowledge().relates_cleanly(var_a, var_b, a_to_b, b_to_a)
                && old(self).symmetric() && b_to_a == a_to_b.spec_inverse()
                ==> final(self).symmetric(),
            old(self).symmetric() && b_to_a == a_to_b.spec_inverse()
                && (old(self).knowledge().unknown(var_a) || old(self).knowledge().unknown(var_b))
                ==> old(self).knowledge().relates_cleanly(var_a, var_b, a_to_b, b_to_a),
            forall|same: spec_fn(VariableId, VariableId) -> bool| #[trigger]
                old(self).congruent(same) && old(self).relation_within(
                    same,
                    var_a,
                    var_b,
                    a_to_b,
                    b_to_a,
                ) ==> final(self).congruent(same) && final(self).relation_within(
                    same,
                    var_a,
                    var_b,
                    a_to_b,
                    b_to_a,
                ),
    {
        let ghost s0 = *self;
        proof {
            if s0.symmetric() && b_to_a == a_to_b.spec_inverse() && (s0.knowledge().unknown(var_a)
                || s0.knowledge().unknown(var_b)) {
                lemma_unknown_relates(s0, var_a, var_b, a_to_b);
            }
        }
        self.join_with_related(var_a, a_to_b, var_b);
        let ghost s1 = *self;
        self.join_with_related(var_b, b_to_a, var_a);
        let ghost s2 = *self;
        self.record_pair(var_a, var_b, a_to_b, b_to_a);
        proof {
            assert(s0.refined_by(&s2));
            lemma_rep_canonical(s2.parents(), var_a);
            lemma_rep_canonical(s2.parents(), var_b);
            lemma_second_join(s0, s1, s2, var_a, var_b, b_to_a);
            assert forall|same: spec_fn(VariableId, VariableId) -> bool| #[trigger]
                s0.congruent(same) && s0.relation_within(
                    same,
                    var_a,
                    var_b,
                    a_to_b,
                    b_to_a,
                ) implies self.congruent(same) && self.relation_within(
                same,
                var_a,
                var_b,
                a_to_b,
                b_to_a,
            ) by {
                lemma_bound_relationship(s0, s1, s2, *self, same, var_a, var_b, a_to_b, b_to_a);
            }
            lemma_relates_cleanly(s0, s1, s2, *self, var_a, var_b, a_to_b, b_to_a);
            if s0.knowledge().relates_cleanly(var_a, var_b, a_to_b, b_to_a) {
                lemma_shown_is_known(
                    *self,
                    s0.knowledge().with_relationship(var_a, var_b, a_to_b, b_to_a),
                );
            }
            if s0.knowledge().relates_cleanly(var_a, var_b, a_to_b, b_to_a) && s0.symmetric()
                && b_to_a == a_to_b.spec_inverse() {
                lemma_clean_relationship_keeps_symmetric(s0, s1, s2, *self, var_a, var_b, a_to_b);
            }
            if s0.agrees(var_a, var_b, a_to_b, b_to_a) {
                assert(forall|r: VariableId| s2.info(r) == s0.info(r));
                if s0.symmetric() && b_to_a == a_to_b.spec_inverse() {
                    lemma_relationship_keeps_symmetric(s0, *self, var_a, var_b, a_to_b);
                }
            }
        }
    }

    /// Records that `boxed_var` is a box that holds `unboxed_var`. Where one
    /// of the two is new, above all that is known, the relations stay
    /// symmetric and the records keep holding representatives only.
    pub fn set_box_relationship(&mut self, unboxed_var: VariableId, boxed_var: VariableId)
        requires
            old(self).wf(),
        ensures
            final(self).wf(),
            old(self).refined_by(final(self)),
            final(self).related(unboxed_var, Relation::Boxed) == Some(final(self).rep(boxed_var)),
            final(self).related(boxed_var, Relation::Unboxed) == Some(
                final(self).rep(unboxed_var),
            ),
            final(self).info(final(self).rep(unboxed_var)).boxed_class == Some(
                final(self).rep(boxed_var),
            ),
            final(self).info(final(self).rep(boxed_var)).unboxed_class == Some(
                final(self).rep(unboxed_var),
            ),
            old(self).related(unboxed_var, Relation::Boxed) is Some ==> final(self).rep(boxed_var)
                == final(self).rep(old(self).related(unboxed_var, Relation::Boxed).unwrap()),
            old(self).related(boxed_var, Relation::Unboxed) is Some ==> final(self).rep(
                unboxed_var,
            ) == final(self).rep(old(self).related(boxed_var, Relation::Unboxed).unwrap()),
            old(self).knowledge().relates_cleanly(
                unboxed_var,
                boxed_var,
                Relation::Boxed,
                Relation::Unboxed,
            ) ==> final(self).knowledge() == old(self).knowledge().with_relationship(
                unboxed_var,
                boxed_var,
                Relation::Boxed,
                Relation::Unboxed,
            ),
            old(self).agrees(unboxed_var, boxed_var, Relation::Boxed, Relation::Unboxed) ==> {
                &&& final(self).same_partition(old(self))
                &&& forall|r: VariableId|
                    final(self).info(r) == old(self).related_info(
                        unboxed_var,
                        boxed_var,
                        Relation::Boxed,
                        Relation::Unboxed,
                        r,
                    )
                &&& forall|v: VariableId| final(self).linked(v) == old(self).linked(v)
            },
            old(self).agrees(unboxed_var, boxed_var, Relation::Boxed, Relation::Unboxed)
                && old(self).symmetric()
                ==> final(self).symmetric(),
            old(self).knowledge().relates_cleanly(
                unboxed_var,
                boxed_var,
                Relation::Boxed,
                Relation::Unboxed,
            ) && old(self).symmetric() ==> final(self).symmetric(),
            old(self).symmetric() && old(self).knowledge().canonical()
                && (old(self).knowledge().above(unboxed_var)
                || old(self).knowledge().above(boxed_var))
                ==> final(self).symmetric() && final(self).knowledge().canonical(),
            old(self).symmetric() && (old(self).knowledge().unknown(unboxed_var)
                || old(self).knowledge().unknown(boxed_var))
                ==> old(self).knowledge().relates_cleanly(
                unboxed_var,
                boxed_var,
                Relation::Boxed,
                Relation::Unboxed,
            ),
            forall|same: spec_fn(VariableId, VariableId) -> bool| #[trigger]
                old(self).congruent(same) && old(self).relation_within(
                    same,
                    unboxed_var,
                    boxed_var,
                    Relation::Boxed,
                    Relation::Unboxed,
                ) ==> final(self).congruent(same),
    {
        proof {
            if self.symmetric() && self.knowledge().canonical() && (self.knowledge().above(
                unboxed_var,
            ) || self.knowledge().above(boxed_var)) {
                lemma_relate_above(*self, unboxed_var, boxed_var, Relation::Boxed);
            }
        }
        self.set_relationship(unboxed_var, boxed_var, Relation::Boxed, Relation::Unboxed);
    }

    /// Records that `snapshot_var` is a snapshot of `original_var`. Where one
    /// of the two is new, above all that is known, the relations stay
    /// symmetric and the records keep holding representatives only.
    pub fn set_snapshot_relationship(&mut self, original_var: VariableId, snapshot_var: VariableId)
        requires
            old(self).wf(),
        ensures
            final(self).wf(),
            old(self).refined_by(final(self)),
            final(self).related(original_var, Relation::Snapshot) == Some(
                final(self).rep(snapshot_var),
            ),
            final(self).related(snapshot_var, Relation::Original) == Some(
                final(self).rep(original_var),
            ),
            final(self).info(final(self).rep(original_var)).snapshot_class == Some(
                final(self).rep(snapshot_var),
            ),
            final(self).info(final(self).rep(snapshot_var)).original_class == Some(
                final(self).rep(original_var),
            ),
            old(self).related(original_var, Relation::Snapshot) is Some ==> final(self).rep(
                snapshot_var,
            ) == final(self).rep(old(self).related(original_var, Relation::Snapshot).unwrap()),
            old(self).related(snapshot_var, Relation::Original) is Some ==> final(self).rep(
                original_var,
            ) == final(self).rep(old(self).related(snapshot_var, Relation::Original).unwrap()),
            old(self).knowledge().relates_cleanly(
                original_var,
                snapshot_var,
                Relation::Snapshot,
                Relation::Original,
            ) ==> final(self).knowledge() == old(self).knowledge().with_relationship(
                original_var,
                snapshot_var,
                Relation::Snapshot,
                Relation::Original,
            ),
            old(self).agrees(original_var, snapshot_var, Relation::Snapshot, Relation::Original)
                ==> {
                &&& final(self).same_partition(old(self))
                &&& forall|r: VariableId|
                    final(self).info(r) == old(self).related_info(
                        original_var,
                        snapshot_var,
                        Relation::Snapshot,
                        Relation::Original,
                        r,
                    )
                &&& forall|v: VariableId| final(self).linked(v) == old(self).linked(v)
            },
            old(self).agrees(original_var, snapshot_var, Relation::Snapshot, Relation::Original)
                && old(self).symmetric()
                ==> final(self).symmetric(),
            old(self).knowledge().relates_cleanly(
                original_var,
                snapshot_var,
                Relation::Snapshot,
                Relation::Original,
            ) && old(self).symmetric() ==> final(self).symmetric(),
            old(self).symmetric() && old(self).knowledge().canonical()
                && (old(self).knowledge().above(original_var)
                || old(self).knowledge().above(snapshot_var))
                ==> final(self).symmetric() && final(self).knowledge().canonical(),
            old(self).symmetric() && (old(self).knowledge().unknown(original_var)
                || old(self).knowledge().unknown(snapshot_var))
                ==> old(self).knowledge().relates_cleanly(
                original_var,
                snapshot_var,
                Relation::Snapshot,
                Relation::Original,
            ),
            forall|same: spec_fn(VariableId, VariableId) -> bool| #[trigger]
                old(self).congruent(same) && old(self).relation_within(
                    same,
                    original_var,
                    snapshot_var,
                    Relation::Snapshot,
                    Relation::Original,
                ) ==> final(self).congruent(same),
    {
        proof {
            if self.symmetric() && self.knowledge().canonical() && (self.knowledge().above(
                original_var,
            ) || self.knowledge().above(snapshot_var)) {
                lemma_relate_above(*self, original_var, snapshot_var, Relation::Snapshot);
            }
        }
        self.set_relationship(original_var, snapshot_var, Relation::Snapshot, Relation::Original);
    }

    /// The stored class records, each with its representative, in the order
    /// in which they are stored.
    pub closed spec fn record_seq(&self) -> Seq<(VariableId, ClassInfo)> {
        class_entries(self.class_info)
    }

    /// The variables that have a parent link, in the order in which they got it.
    pub closed spec fn linked_seq(&self) -> Seq<VariableId> {
        keys_of(var_entries(self.union_find))
    }

    /// The lines that say what the record `info` of the class of `rep` holds:
    /// one for the class of the snapshots, then one for the class of the boxes.
    pub open spec fn record_lines(&self, rep: VariableId, info: ClassInfo) -> Seq<Seq<char>> {
        (match info.snapshot_class {
            Some(s) => seq![snapshot_line(self.rep(rep), self.rep(s))],
            None => Seq::empty(),
        }) + (match info.boxed_class {
            Some(b) => seq![box_line(self.rep(rep), self.rep(b))],
            None => Seq::empty(),
        })
    }

    /// The lines for the first `upto` stored records.
    pub open spec fn relation_lines(&self, upto: int) -> Seq<Seq<char>>
        decreases upto,
    {
        if upto <= 0 {
            Seq::empty()
        } else {
            self.relation_lines(upto - 1) + self.record_lines(
                self.record_seq()[upto - 1].0,
                self.record_seq()[upto - 1].1,
            )
        }
    }

    /// The lines for the first `upto` linked variables: one for each that is
    /// not the representative of its class.
    pub open spec fn member_lines(&self, upto: int) -> Seq<Seq<char>>
        decreases upto,
    {
        if upto <= 0 {
            Seq::empty()
        } else {
            let var = self.linked_seq()[upto - 1];
            self.member_lines(upto - 1) + if self.rep(var) != var {
                seq![member_line(self.rep(var), var)]
            } else {
                Seq::empty()
            }
        }
    }

    /// All lines of the state, before they are put in order.
    pub open spec fn debug_lines(&self) -> Seq<Seq<char>> {
        self.relation_lines(self.record_seq().len() as int) + self.member_lines(
            self.linked_seq().len() as int,
        )
    }

    /// Whether `text` is the state written out: its lines in ascending
    /// order with `, ` between them, or `(empty)` where there is no line.
    pub open spec fn written(&self, text: Seq<char>) -> bool {
        exists|lines: Seq<Seq<char>>|
            #![trigger sorted_from(lines, self.debug_lines())]
            sorted_from(lines, self.debug_lines()) && text == if lines.len() == 0 {
                "(empty)"@
            } else {
                joined(lines, ", "@)
            }
    }

    /// The state written out: a line for each recorded snapshot and box
    /// relation and for each variable that is not the representative of its
    /// class, in ascending order with `, ` between them; `(empty)` where
    /// there is no line.
    pub fn debug_string(&self) -> (out: String)
        requires
            self.wf(),
        ensures
            self.written(out@),
    {
        let mut lines: Vec<String> = Vec::new();
        let records = self.records();
        let mut i: usize = 0;
        while i < records.len()
            invariant
                i <= records@.len(),
                self.wf(),
                records@ == self.record_seq(),
                texts(lines@) == self.relation_lines(i as int),
            decreases records@.len() - i,
        {
            let (rep, info) = records[i];
            let ghost before = texts(lines@);
            if let Some(s) = info.snapshot_class {
                lines.push(write_relation("@", self.find_immut(rep), "", self.find_immut(s)));
            }
            let ghost middle = texts(lines@);
            if let Some(b) = info.boxed_class {
                lines.push(write_relation("Box(", self.find_immut(rep), ")", self.find_immut(b)));
            }
            proof {
                reveal_strlit("@");
                reveal_strlit("");
                reveal_strlit("Box(");
                reveal_strlit(")");
                let snapshot = match info.snapshot_class {
                    Some(s) => seq![snapshot_line(self.rep(rep), self.rep(s))],
                    None => Seq::empty(),
                };
                assert(middle =~= before + snapshot) by {
                    if let Some(s) = info.snapshot_class {
                        assert(middle[before.len() as int] =~= snapshot_line(
                            self.rep(rep),
                            self.rep(s),
                        ));
                    }
                }
                let boxed = match info.boxed_class {
                    Some(b) => seq![box_line(self.rep(rep), self.rep(b))],
                    None => Seq::empty(),
                };
                assert(texts(lines@) =~= middle + boxed) by {
                    if let Some(b) = info.boxed_class {
                        assert(texts(lines@)[middle.len() as int] =~= box_line(
                            self.rep(rep),
                            self.rep(b),
                        ));
                    }
                }
                assert(self.record_lines(rep, info) == snapshot + boxed);
                assert((before + snapshot) + boxed =~= before + (snapshot + boxed));
            }
            i += 1;
        }
        let linked = self.linked_vars();
        let ghost relations = texts(lines@);
        let mut k: usize = 0;
        while k < linked.len()
            invariant
                k <= linked@.len(),
                self.wf(),
                linked@ == self.linked_seq(),
                texts(lines@) == relations + self.member_lines(k as int),
            decreases linked@.len() - k,
        {
            let var = linked[k];
            let rep = self.find_immut(var);
            let ghost before = texts(lines@);
            if var != rep {
                lines.push(write_relation("", rep, "", var));
                proof {
                    reveal_strlit("");
                    assert(texts(lines@)[before.len() as int] =~= member_line(rep, var));
                    assert(texts(lines@) =~= before.push(member_line(rep, var)));
                }
            }
            proof {
                assert(texts(lines@) =~= relations + self.member_lines(k + 1));
            }
            k += 1;
        }
        let ghost unsorted = texts(lines@);
        sort_lines(&mut lines);
        proof {
            assert(unsorted == self.debug_lines());
        }
        if lines.len() == 0 {
            let out = String::from_str("(empty)");
            proof {
                assert(sorted_from(texts(lines@), self.debug_lines()));
            }
            out
        } else {
            let out = join(&lines, ", ");
            proof {
                assert(sorted_from(texts(lines@), self.debug_lines()));
            }
            out
        }
    }

    /// Some record of the state holds `v` in one of its relations.
    pub open spec fn mentions(&self, v: VariableId) -> bool {
        exists|r: VariableId| #[trigger] self.info(r).spec_referenced_vars().contains(v)
    }

    /// Each variable with a parent link is listed once, and each stored
    /// record once, under its representative.
    pub proof fn lemma_listed_once(&self)
        requires
            self.wf(),
        ensures
            self.linked_seq().no_duplicates(),
            forall|v: VariableId| #[trigger] self.linked_seq().contains(v) <==> self.linked(v),
            self.linked_seq().to_set() == Set::new(|v: VariableId| self.linked(v)),
            self.linked_seq().len() == Set::new(|v: VariableId| self.linked(v)).len(),
            distinct_keys(self.record_seq()),
            forall|i: int|
                0 <= i < self.record_seq().len() ==> (#[trigger] self.record_seq()[i]).1
                    == self.info(self.record_seq()[i].0) && !self.record_seq()[i].1.spec_is_empty()
                    && self.rep(self.record_seq()[i].0) == self.record_seq()[i].0,
            forall|r: VariableId|
                !self.info(r).spec_is_empty() ==> exists|i: int|
                    0 <= i < self.record_seq().len() && (#[trigger] self.record_seq()[i]).0 == r,
    {
        let links = var_entries(self.union_find);
        let keys = self.linked_seq();
        assert forall|i: int, j: int|
            0 <= i < keys.len() && 0 <= j < keys.len() && i != j implies keys[i] != keys[j] by {
            if i < j {
                assert(links[i].0 != links[j].0);
            } else {
                assert(links[j].0 != links[i].0);
            }
        }
        assert forall|v: VariableId| #[trigger] keys.contains(v) <==> self.linked(v) by {
            if keys.contains(v) {
                let i = choose|i: int| 0 <= i < keys.len() && keys[i] == v;
                lemma_entry(links, i);
            }
            if self.linked(v) {
                lemma_key(links, v);
                assert(keys[index_of(links, v)] == v);
            }
        }
        keys.unique_seq_to_set();
        assert(keys.to_set() =~= Set::new(|v: VariableId| self.linked(v)));
        let records = class_entries(self.class_info);
        assert forall|i: int| 0 <= i < records.len() implies (#[trigger] records[i]).1 == self.info(
            records[i].0,
        ) && !records[i].1.spec_is_empty() && self.rep(records[i].0) == records[i].0 by {
            lemma_entry(records, i);
            assert(self.classes().contains_key(records[i].0));
        }
        assert forall|r: VariableId| !self.info(r).spec_is_empty() implies exists|i: int|
            0 <= i < records.len() && (#[trigger] records[i]).0 == r by {
            assert(self.classes().contains_key(r));
            lemma_key(records, r);
            assert(records[index_of(records, r)].0 == r);
        }
    }

    /// The variables that have a parent link, in the order in which they got it.
    pub fn linked_vars(&self) -> (r: Vec<VariableId>)
        requires
            self.wf(),
        ensures
            r@ == self.linked_seq(),
            r@.no_duplicates(),
            forall|v: VariableId| #[trigger] r@.contains(v) <==> self.linked(v),
            r@.to_set() == Set::new(|v: VariableId| self.linked(v)),
            r@.len() == r@.to_set().len(),
    {
        let r = var_map_keys(&self.union_find);
        proof {
            self.lemma_listed_once();
            let entries = var_entries(self.union_find);
            assert forall|v: VariableId| #[trigger] r@.contains(v) <==> self.linked(v) by {
                if r@.contains(v) {
                    let i = choose|i: int| 0 <= i < r@.len() && r@[i] == v;
                    lemma_entry(entries, i);
                }
                if self.linked(v) {
                    lemma_key(entries, v);
                    assert(r@[index_of(entries, v)] == v);
                }
            }
        }
        r
    }

    /// The stored class records, each with its representative, in the order
    /// in which they are stored.
    pub fn records(&self) -> (r: Vec<(VariableId, ClassInfo)>)
        requires
            self.wf(),
        ensures
            r@ == self.record_seq(),
            distinct_keys(r@),
            forall|i: int| 0 <= i < r@.len() ==> (#[trigger] r@[i]).1 == self.info(r@[i].0),
            forall|i: int| 0 <= i < r@.len() ==> !(#[trigger] r@[i]).1.spec_is_empty(),
            forall|i: int| 0 <= i < r@.len() ==> self.rep((#[trigger] r@[i]).0) == r@[i].0,
            forall|v: VariableId| !self.info(v).spec_is_empty() ==> has_key(r@, v),
    {
        let r = class_map_entries(&self.class_info);
        proof {
            let entries = class_entries(self.class_info);
            assert forall|i: int| 0 <= i < r@.len() implies (#[trigger] r@[i]).1 == self.info(
                r@[i].0,
            ) && !r@[i].1.spec_is_empty() && self.rep(r@[i].0) == r@[i].0 by {
                lemma_entry(entries, i);
            }
        }
        r
    }

    /// The class record that is stored for `var`, if one is.
    pub fn related_record(&self, var: VariableId) -> (r: Option<ClassInfo>)
        requires
            self.wf(),
        ensures
            r is Some <==> !self.info(var).spec_is_empty(),
            r is Some ==> r.unwrap() == self.info(var),
    {
        proof {
            if has_key(class_entries(self.class_info), var) {
                lemma_key(class_entries(self.class_info), var);
            }
        }
        class_map_get(&self.class_info, var)
    }

    /// Whether `a` and `b` are known to hold the same value.
    pub fn equal(&self, a: VariableId, b: VariableId) -> (r: bool)
        requires
            self.wf(),
        ensures
            r == (self.rep(a) == self.rep(b)),
    {
        self.find_immut(a) == self.find_immut(b)
    }

    /// The representative of the class that stands in `relation` to the
    /// class of `var`, if one is recorded; the state is left as it is.
    pub fn related_immut(&self, var: VariableId, relation: Relation) -> (r: Option<VariableId>)
        requires
            self.wf(),
        ensures
            r == self.related(var, relation),
    {
        let rep = self.find_immut(var);
        match self.get_class_info(rep).get(relation) {
            Some(related) => Some(self.find_immut(related)),
            None => None,
        }
    }
}

impl Default for ClassInfo {
    /// A class without relations.
    fn default() -> (r: ClassInfo)
        ensures
            r == ClassInfo::spec_empty(),
    {
        ClassInfo::empty()
    }
}

impl Default for EqualityState {
    /// The state in which no two variables are known equal and no relation is known.
    fn default() -> (s: EqualityState)
        ensures
            s.wf(),
            s.symmetric(),
            forall|v: VariableId| s.rep(v) == v,
            forall|r: VariableId| s.info(r) == ClassInfo::spec_empty(),
            s.knowledge() == Knowledge::nothing(),
    {
        EqualityState::new()
    }
}

impl Clone for EqualityState {
    /// A state with the same links and records, in the same order.
    fn clone(&self) -> (r: EqualityState)
        ensures
            r.wf() == self.wf(),
            r.parents() == self.parents(),
            r.classes() == self.classes(),
            r.class_count() == self.class_count(),
            r.knowledge() == self.knowledge(),
    {
        let union_find = var_map_clone(&self.union_find);
        let class_info = class_map_clone(&self.class_info);
        let r = EqualityState { union_find, class_info };
        proof {
            assert(r.parents() == self.parents());
            assert(r.classes() == self.classes());
            lemma_same_knowledge(r, *self);
        }
        r
    }
}

impl EqualityState {
    /// Every recorded relation is recorded from the other side too: the
    /// class that stands in a relation to a class has that class in the
    /// inverse relation.
    pub open spec fn symmetric(&self) -> bool {
        forall|v: VariableId, relation: Relation| #[trigger]
            self.related(v, relation) is Some ==> self.related(
                self.related(v, relation).unwrap(),
                relation.spec_inverse(),
            ) == Some(self.rep(v))
    }
}

/// Joining two classes whose records do not conflict keeps the relations symmetric.
pub proof fn lemma_union_keeps_symmetric(
    before: EqualityState,
    after: EqualityState,
    a: VariableId,
    b: VariableId,
)
    requires
        before.symmetric(),
        !before.conflicting(a, b),
        forall|v: VariableId| after.rep(v) == before.joined_rep(a, b, v),
        forall|v: VariableId| after.info(v) == before.joined_info(a, b, v),
    ensures
        after.symmetric(),
{
    let lo = before.lower_rep(a, b);
    let hi = before.higher_rep(a, b);
    lemma_rep_canonical(before.parents(), a);
    lemma_rep_canonical(before.parents(), b);
    assert forall|v: VariableId, relation: Relation| #[trigger]
        after.related(v, relation) is Some implies after.related(
        after.related(v, relation).unwrap(),
        relation.spec_inverse(),
    ) == Some(after.rep(v)) by {
        let inverse = relation.spec_inverse();
        let rv = before.rep(v);
        lemma_rep_canonical(before.parents(), v);
        assert(after.info(after.rep(v)) == before.joined_info(a, b, after.rep(v)));
        let y = after.info(after.rep(v)).spec_get(relation).unwrap();
        // The record that held `y` before the classes were joined.
        let holder = if before.rep(a) != before.rep(b) && rv == hi {
            if before.info(lo).spec_get(relation) is Some {
                lo
            } else {
                hi
            }
        } else if before.rep(a) != before.rep(b) && rv == lo {
            if before.info(lo).spec_get(relation) is Some {
                lo
            } else {
                hi
            }
        } else {
            rv
        };
        assert(before.info(holder).spec_get(relation) == Some(y));
        assert(before.rep(holder) == holder);
        assert(before.related(holder, relation) == Some(before.rep(y)));
        let w = before.rep(y);
        lemma_rep_canonical(before.parents(), y);
        assert(before.related(w, inverse) == Some(before.rep(holder)));
        let z = before.info(w).spec_get(inverse).unwrap();
        assert(before.rep(z) == holder);
        assert(after.rep(y) == before.joined_rep(a, b, y));
        assert(after.rep(z) == before.joined_rep(a, b, z));
        assert(after.rep(holder) == before.joined_rep(a, b, holder));
        let w2 = after.rep(y);
        assert(after.info(w2) == before.joined_info(a, b, w2));
        assert(after.rep(w2) == before.joined_rep(a, b, w2));
        assert(after.rep(after.rep(v)) == before.joined_rep(a, b, after.rep(v)));
    }
}

/// A state that shows `known` has `known` as its knowledge.
pub proof fn lemma_shown_is_known(state: EqualityState, known: Knowledge)
    requires
        state.shows(known),
    ensures
        state.knowledge() == known,
{
    reveal(EqualityState::shows);
    assert(state.knowledge().rep =~= known.rep);
    assert(state.knowledge().info =~= known.info);
    assert(state.knowledge().linked =~= known.linked);
}

/// Whether the two records differ in a relation that is put together after
/// `relation`: the order is boxed, unboxed, snapshot, original.
pub open spec fn differs_later(kept: ClassInfo, dropped: ClassInfo, relation: Relation) -> bool {
    match relation {
        Relation::Boxed => differ(kept.unboxed_class, dropped.unboxed_class) || differ(
            kept.snapshot_class,
            dropped.snapshot_class,
        ) || differ(kept.original_class, dropped.original_class),
        Relation::Unboxed => differ(kept.snapshot_class, dropped.snapshot_class) || differ(
            kept.original_class,
            dropped.original_class,
        ),
        Relation::Snapshot => differ(kept.original_class, dropped.original_class),
        Relation::Original => false,
    }
}

/// Whether `same` is an equivalence of variables.
pub open spec fn is_equivalence(same: spec_fn(VariableId, VariableId) -> bool) -> bool {
    &&& forall|u: VariableId| #[trigger] same(u, u)
    &&& forall|u: VariableId, v: VariableId| #[trigger] same(u, v) ==> same(v, u)
    &&& forall|u: VariableId, v: VariableId, w: VariableId|
        #[trigger] same(u, v) && #[trigger] same(v, w) ==> same(u, w)
}

/// Where the records of two classes that are joined differ, `same` holds
/// the differing variables the same, relation by relation.
pub open spec fn fields_same(
    kept: ClassInfo,
    dropped: ClassInfo,
    same: spec_fn(VariableId, VariableId) -> bool,
) -> bool {
    &&& differ(kept.boxed_class, dropped.boxed_class) ==> same(
        kept.boxed_class.unwrap(),
        dropped.boxed_class.unwrap(),
    )
    &&& differ(kept.unboxed_class, dropped.unboxed_class) ==> same(
        kept.unboxed_class.unwrap(),
        dropped.unboxed_class.unwrap(),
    )
    &&& differ(kept.snapshot_class, dropped.snapshot_class) ==> same(
        kept.snapshot_class.unwrap(),
        dropped.snapshot_class.unwrap(),
    )
    &&& differ(kept.original_class, dropped.original_class) ==> same(
        kept.original_class.unwrap(),
        dropped.original_class.unwrap(),
    )
}

/// A state with the partition and the records of a state of which `same`
/// is a congruence lies within `same`, and its records come from that state.
pub proof fn lemma_bound_kept(
    before: EqualityState,
    after: EqualityState,
    same: spec_fn(VariableId, VariableId) -> bool,
)
    requires
        before.congruent(same),
        forall|v: VariableId| after.rep(v) == before.rep(v),
        forall|r: VariableId| after.info(r) == before.info(r),
    ensures
        after.within(same),
        after.records_from(&before, same),
{
    reveal(EqualityState::congruent);
    reveal(EqualityState::within);
    reveal(EqualityState::records_from);
    assert forall|u: VariableId, v: VariableId| after.rep(u) == after.rep(v) implies #[trigger] same(
        u,
        v,
    ) by {
        assert(before.rep(u) == before.rep(v));
    }
    assert forall|v: VariableId, relation: Relation| #[trigger]
        after.held(v, relation) is Some implies exists|w: VariableId|
        same(v, w) && #[trigger] before.held(w, relation) is Some && same(
            after.held(v, relation).unwrap(),
            before.held(w, relation).unwrap(),
        ) by {
        assert(after.held(v, relation) == before.held(v, relation));
        assert(same(v, v));
        assert(same(after.held(v, relation).unwrap(), after.held(v, relation).unwrap()));
    }
}

/// A state that lies within a congruence of `before`, and whose records
/// come from `before`, has that congruence too.
pub proof fn lemma_bound_congruent(
    before: EqualityState,
    after: EqualityState,
    same: spec_fn(VariableId, VariableId) -> bool,
)
    requires
        before.congruent(same),
        after.within(same),
        after.records_from(&before, same),
    ensures
        after.congruent(same),
{
    reveal(EqualityState::congruent);
    reveal(EqualityState::records_from);
    assert forall|u: VariableId, v: VariableId, relation: Relation|
        #![trigger same(u, v), after.held(u, relation)]
        same(u, v) && after.held(u, relation) is Some && after.held(
            v,
            relation,
        ) is Some implies same(
        after.held(u, relation).unwrap(),
        after.held(v, relation).unwrap(),
    ) by {
        let x = after.held(u, relation).unwrap();
        let y = after.held(v, relation).unwrap();
        let w1 = choose|w: VariableId|
            same(u, w) && #[trigger] before.held(w, relation) is Some && same(
                x,
                before.held(w, relation).unwrap(),
            );
        let w2 = choose|w: VariableId|
            same(v, w) && #[trigger] before.held(w, relation) is Some && same(
                y,
                before.held(w, relation).unwrap(),
            );
        let x0 = before.held(w1, relation).unwrap();
        let y0 = before.held(w2, relation).unwrap();
        assert(same(w1, u));
        assert(same(w1, v));
        assert(same(w1, w2));
        assert(same(x0, y0));
        assert(same(x, y0));
        assert(same(y0, y));
    }
}

/// Records that come from records that come from `first` come from `first`.
pub proof fn lemma_bound_chain(
    first: EqualityState,
    second: EqualityState,
    third: EqualityState,
    same: spec_fn(VariableId, VariableId) -> bool,
)
    requires
        first.congruent(same),
        second.records_from(&first, same),
        third.records_from(&second, same),
    ensures
        third.records_from(&first, same),
{
    reveal(EqualityState::congruent);
    reveal(EqualityState::records_from);
    assert forall|v: VariableId, relation: Relation| #[trigger]
        third.held(v, relation) is Some implies exists|w: VariableId|
        same(v, w) && #[trigger] first.held(w, relation) is Some && same(
            third.held(v, relation).unwrap(),
            first.held(w, relation).unwrap(),
        ) by {
        let x = third.held(v, relation).unwrap();
        let w1 = choose|w: VariableId|
            same(v, w) && #[trigger] second.held(w, relation) is Some && same(
                x,
                second.held(w, relation).unwrap(),
            );
        let x1 = second.held(w1, relation).unwrap();
        let w0 = choose|w: VariableId|
            same(w1, w) && #[trigger] first.held(w, relation) is Some && same(
                x1,
                first.held(w, relation).unwrap(),
            );
        assert(same(v, w0));
        assert(same(x, first.held(w0, relation).unwrap()));
    }
}

/// Once the classes of `a` and `b`, which `same` holds the same, are one
/// and their records are taken out, the state lies within `same`, its
/// records come from `before`, and where the two records differ, `same`
/// holds the differing variables the same.
proof fn lemma_bound_linked(
    before: EqualityState,
    after: EqualityState,
    a: VariableId,
    b: VariableId,
    same: spec_fn(VariableId, VariableId) -> bool,
)
    requires
        before.congruent(same),
        same(a, b),
        before.rep(a) != before.rep(b),
        forall|v: VariableId| after.rep(v) == before.joined_rep(a, b, v),
        forall|r: VariableId|
            after.info(r) == if r == before.rep(a) || r == before.rep(b) {
                ClassInfo::spec_empty()
            } else {
                before.info(r)
            },
    ensures
        after.within(same),
        after.records_from(&before, same),
        fields_same(
            before.info(before.lower_rep(a, b)),
            before.info(before.higher_rep(a, b)),
            same,
        ),
{
    reveal(EqualityState::congruent);
    reveal(EqualityState::within);
    reveal(EqualityState::records_from);
    let lo = before.lower_rep(a, b);
    let hi = before.higher_rep(a, b);
    lemma_rep_canonical(before.parents(), a);
    lemma_rep_canonical(before.parents(), b);
    assert(same(a, before.rep(a)));
    assert(same(b, before.rep(b)));
    assert(same(before.rep(a), b));
    assert(same(before.rep(a), before.rep(b)));
    assert(same(lo, hi));
    assert(same(hi, lo));
    assert forall|u: VariableId, v: VariableId| after.rep(u) == after.rep(v) implies #[trigger] same(
        u,
        v,
    ) by {
        lemma_rep_canonical(before.parents(), u);
        lemma_rep_canonical(before.parents(), v);
        assert(same(u, before.rep(u)));
        assert(same(v, before.rep(v)));
        assert(after.rep(u) == before.joined_rep(a, b, u));
        assert(after.rep(v) == before.joined_rep(a, b, v));
        let ru = before.rep(u);
        let rv = before.rep(v);
        if ru == rv {
        } else if ru == hi {
            assert(rv == lo);
            assert(same(ru, rv));
            assert(same(u, rv));
            assert(same(rv, v));
        } else {
            assert(rv == hi && ru == lo);
            assert(same(ru, rv));
            assert(same(u, rv));
            assert(same(rv, v));
        }
    }
    assert forall|v: VariableId, relation: Relation| #[trigger]
        after.held(v, relation) is Some implies exists|w: VariableId|
        same(v, w) && #[trigger] before.held(w, relation) is Some && same(
            after.held(v, relation).unwrap(),
            before.held(w, relation).unwrap(),
        ) by {
        assert(after.rep(v) == before.joined_rep(a, b, v));
        assert(after.rep(v) == before.rep(v));
        assert(after.held(v, relation) == before.held(v, relation));
        assert(same(v, v));
        assert(same(after.held(v, relation).unwrap(), after.held(v, relation).unwrap()));
    }
    assert(before.held(lo, Relation::Boxed) == before.info(lo).boxed_class);
    assert(before.held(hi, Relation::Boxed) == before.info(hi).boxed_class);
    assert(before.held(lo, Relation::Unboxed) == before.info(lo).unboxed_class);
    assert(before.held(hi, Relation::Unboxed) == before.info(hi).unboxed_class);
    assert(before.held(lo, Relation::Snapshot) == before.info(lo).snapshot_class);
    assert(before.held(hi, Relation::Snapshot) == before.info(hi).snapshot_class);
    assert(before.held(lo, Relation::Original) == before.info(lo).original_class);
    assert(before.held(hi, Relation::Original) == before.info(hi).original_class);
}

/// Once the joined record is stored for the class of `a` and `b`, the
/// state still lies within `same` and its records still come from `start`:
/// `joined` is the state after the records of the two classes were put
/// together into `merged`, `after` the state with `merged` stored at `root`.
proof fn lemma_bound_stored(
    start: EqualityState,
    joined: EqualityState,
    after: EqualityState,
    root: VariableId,
    merged: ClassInfo,
    a: VariableId,
    b: VariableId,
    same: spec_fn(VariableId, VariableId) -> bool,
)
    requires
        start.congruent(same),
        same(a, b),
        joined.within(same),
        joined.records_from(&start, same),
        forall|v: VariableId| after.rep(v) == joined.rep(v),
        joined.rep(start.lower_rep(a, b)) == root,
        forall|r: VariableId|
            after.info(r) == if r == root {
                merged
            } else {
                joined.info(r)
            },
        forall|relation: Relation|
            #![trigger merged.spec_get(relation)]
            merged.spec_get(relation) is Some ==> {
                ||| merged.spec_get(relation) == start.info(start.lower_rep(a, b)).spec_get(
                    relation,
                )
                ||| merged.spec_get(relation) == start.info(start.higher_rep(a, b)).spec_get(
                    relation,
                )
                ||| start.info(start.lower_rep(a, b)).spec_get(relation) is Some && joined.rep(
                    merged.spec_get(relation).unwrap(),
                ) == joined.rep(start.info(start.lower_rep(a, b)).spec_get(relation).unwrap())
            },
    ensures
        after.within(same),
        after.records_from(&start, same),
{
    reveal(EqualityState::congruent);
    reveal(EqualityState::within);
    reveal(EqualityState::records_from);
    let lo = start.lower_rep(a, b);
    let hi = start.higher_rep(a, b);
    lemma_rep_canonical(start.parents(), a);
    lemma_rep_canonical(start.parents(), b);
    assert(same(a, start.rep(a)));
    assert(same(b, start.rep(b)));
    assert(same(start.rep(a), b));
    assert(same(start.rep(a), start.rep(b)));
    assert(same(lo, hi));
    assert(same(hi, lo));
    assert forall|u: VariableId, v: VariableId| after.rep(u) == after.rep(v) implies #[trigger] same(
        u,
        v,
    ) by {
        assert(joined.rep(u) == joined.rep(v));
    }
    assert forall|v: VariableId, relation: Relation| #[trigger]
        after.held(v, relation) is Some implies exists|w: VariableId|
        same(v, w) && #[trigger] start.held(w, relation) is Some && same(
            after.held(v, relation).unwrap(),
            start.held(w, relation).unwrap(),
        ) by {
        let x = after.held(v, relation).unwrap();
        if after.rep(v) == root {
            assert(joined.rep(v) == joined.rep(lo));
            assert(same(v, lo));
            assert(same(v, hi));
            assert(merged.spec_get(relation) == Some(x));
            assert(start.held(lo, relation) == start.info(lo).spec_get(relation));
            assert(start.held(hi, relation) == start.info(hi).spec_get(relation));
            if merged.spec_get(relation) == start.info(lo).spec_get(relation) {
                assert(same(x, start.held(lo, relation).unwrap()));
            } else if merged.spec_get(relation) == start.info(hi).spec_get(relation) {
                assert(same(x, start.held(hi, relation).unwrap()));
            } else {
                let x0 = start.info(lo).spec_get(relation).unwrap();
                assert(joined.rep(x) == joined.rep(x0));
                assert(same(x, x0));
            }
        } else {
            assert(after.held(v, relation) == joined.held(v, relation));
        }
    }
}

/// A state with the partition and the records of a state that lies within
/// `same`, and whose records come from `start`, does so too.
proof fn lemma_bound_copy(
    start: EqualityState,
    before: EqualityState,
    after: EqualityState,
    same: spec_fn(VariableId, VariableId) -> bool,
)
    requires
        before.within(same),
        before.records_from(&start, same),
        forall|v: VariableId| after.rep(v) == before.rep(v),
        forall|r: VariableId| after.info(r) == before.info(r),
    ensures
        after.within(same),
        after.records_from(&start, same),
{
    reveal(EqualityState::within);
    reveal(EqualityState::records_from);
    assert forall|u: VariableId, v: VariableId| after.rep(u) == after.rep(v) implies #[trigger] same(
        u,
        v,
    ) by {
        assert(before.rep(u) == before.rep(v));
    }
    assert forall|v: VariableId, relation: Relation| #[trigger]
        after.held(v, relation) is Some implies exists|w: VariableId|
        same(v, w) && #[trigger] start.held(w, relation) is Some && same(
            after.held(v, relation).unwrap(),
            start.held(w, relation).unwrap(),
        ) by {
        assert(after.held(v, relation) == before.held(v, relation));
    }
}

/// The steps of a join, put together: `start` before the join, `linked`
/// with the two classes one and their records taken out, `joined` with
/// the records put together into `merged`, `stored` with `merged` stored,
/// `after` at the end.
proof fn lemma_bound_union(
    start: EqualityState,
    linked: EqualityState,
    joined: EqualityState,
    stored: EqualityState,
    after: EqualityState,
    a: VariableId,
    b: VariableId,
    merged: ClassInfo,
    same: spec_fn(VariableId, VariableId) -> bool,
)
    requires
        start.congruent(same),
        same(a, b),
        start.rep(a) != start.rep(b),
        forall|v: VariableId| linked.rep(v) == start.joined_rep(a, b, v),
        forall|r: VariableId|
            linked.info(r) == if r == start.rep(a) || r == start.rep(b) {
                ClassInfo::spec_empty()
            } else {
                start.info(r)
            },
        linked.congruent(same) && fields_same(
            start.info(start.lower_rep(a, b)),
            start.info(start.higher_rep(a, b)),
            same,
        ) ==> joined.within(same) && joined.records_from(&linked, same),
        forall|relation: Relation|
            #![trigger merged.spec_get(relation)]
            if differ(
                start.info(start.lower_rep(a, b)).spec_get(relation),
                start.info(start.higher_rep(a, b)).spec_get(relation),
            ) {
                merged.spec_get(relation) is Some && joined.rep(merged.spec_get(relation).unwrap())
                    == joined.rep(start.info(start.lower_rep(a, b)).spec_get(relation).unwrap())
            } else {
                merged.spec_get(relation) == or_else(
                    start.info(start.lower_rep(a, b)).spec_get(relation),
                    start.info(start.higher_rep(a, b)).spec_get(relation),
                )
            },
        forall|v: VariableId| stored.rep(v) == joined.rep(v),
        forall|r: VariableId|
            stored.info(r) == if !merged.spec_is_empty() && r == joined.rep(
                start.lower_rep(a, b),
            ) {
                merged
            } else {
                joined.info(r)
            },
        forall|v: VariableId| after.rep(v) == stored.rep(v),
        forall|r: VariableId| after.info(r) == stored.info(r),
    ensures
        after.within(same),
        after.records_from(&start, same),
{
    lemma_bound_linked(start, linked, a, b, same);
    lemma_bound_congruent(start, linked, same);
    lemma_bound_chain(start, linked, joined, same);
    if merged.spec_is_empty() {
        lemma_bound_copy(start, joined, stored, same);
    } else {
        assert forall|relation: Relation|
            #![trigger merged.spec_get(relation)]
            merged.spec_get(relation) is Some implies {
            ||| merged.spec_get(relation) == start.info(start.lower_rep(a, b)).spec_get(relation)
            ||| merged.spec_get(relation) == start.info(start.higher_rep(a, b)).spec_get(relation)
            ||| start.info(start.lower_rep(a, b)).spec_get(relation) is Some && joined.rep(
                merged.spec_get(relation).unwrap(),
            ) == joined.rep(start.info(start.lower_rep(a, b)).spec_get(relation).unwrap())
        } by {}
        lemma_bound_stored(
            start,
            joined,
            stored,
            joined.rep(start.lower_rep(a, b)),
            merged,
            a,
            b,
            same,
        );
    }
    lemma_bound_copy(start, stored, after, same);
}

/// A congruence of a state holds every variable the same as its representative.
proof fn lemma_bound_rep(
    state: EqualityState,
    same: spec_fn(VariableId, VariableId) -> bool,
    v: VariableId,
)
    requires
        state.congruent(same),
    ensures
        same(v, state.rep(v)),
        same(state.rep(v), v),
        forall|u: VariableId| #[trigger] same(v, u) ==> same(u, state.rep(v)),
{
    reveal(EqualityState::congruent);
    reveal(EqualityState::within);
    lemma_rep_canonical(state.parents(), v);
    assert(same(v, state.rep(v)));
    assert forall|u: VariableId| #[trigger] same(v, u) implies same(u, state.rep(v)) by {
        assert(same(u, v));
    }
}

/// A relation that `same` agrees with in `before` it agrees with in a
/// state whose records come from `before`.
pub proof fn lemma_bound_relation(
    before: EqualityState,
    after: EqualityState,
    same: spec_fn(VariableId, VariableId) -> bool,
    a: VariableId,
    b: VariableId,
    a_to_b: Relation,
    b_to_a: Relation,
)
    requires
        before.congruent(same),
        before.relation_within(same, a, b, a_to_b, b_to_a),
        after.records_from(&before, same),
    ensures
        after.relation_within(same, a, b, a_to_b, b_to_a),
{
    reveal(EqualityState::congruent);
    reveal(EqualityState::records_from);
    reveal(EqualityState::relation_within);
    assert forall|w: VariableId|
        #![trigger after.held(w, a_to_b)]
        same(w, a) && after.held(w, a_to_b) is Some implies same(
        after.held(w, a_to_b).unwrap(),
        b,
    ) by {
        let y = after.held(w, a_to_b).unwrap();
        let w0 = choose|w0: VariableId|
            same(w, w0) && #[trigger] before.held(w0, a_to_b) is Some && same(
                y,
                before.held(w0, a_to_b).unwrap(),
            );
        assert(same(w0, w));
        assert(same(w0, a));
        assert(same(before.held(w0, a_to_b).unwrap(), b));
    }
    assert forall|w: VariableId|
        #![trigger after.held(w, b_to_a)]
        same(w, b) && after.held(w, b_to_a) is Some implies same(
        after.held(w, b_to_a).unwrap(),
        a,
    ) by {
        let y = after.held(w, b_to_a).unwrap();
        let w0 = choose|w0: VariableId|
            same(w, w0) && #[trigger] before.held(w0, b_to_a) is Some && same(
                y,
                before.held(w0, b_to_a).unwrap(),
            );
        assert(same(w0, w));
        assert(same(w0, b));
        assert(same(before.held(w0, b_to_a).unwrap(), a));
    }
}

/// Writing the records of a relation that `same` agrees with keeps `same`
/// a congruence: `after` is `before` with the class of `b` recorded for
/// `a_to_b` at the class of `a`, and the class of `a` for `b_to_a` at the
/// class of `b`.
proof fn lemma_bound_recorded(
    before: EqualityState,
    after: EqualityState,
    same: spec_fn(VariableId, VariableId) -> bool,
    a: VariableId,
    b: VariableId,
    a_to_b: Relation,
    b_to_a: Relation,
)
    requires
        before.congruent(same),
        before.relation_within(same, a, b, a_to_b, b_to_a),
        forall|v: VariableId| after.rep(v) == before.rep(v),
        forall|r: VariableId| after.info(r) == before.related_info(a, b, a_to_b, b_to_a, r),
    ensures
        after.congruent(same),
        after.relation_within(same, a, b, a_to_b, b_to_a),
{
    reveal(EqualityState::congruent);
    reveal(EqualityState::within);
    reveal(EqualityState::relation_within);
    let ra = before.rep(a);
    let rb = before.rep(b);
    lemma_rep_canonical(before.parents(), a);
    lemma_rep_canonical(before.parents(), b);
    assert(same(a, ra) && same(ra, a));
    assert(same(b, rb) && same(rb, b));
    // What a class records afterwards is what it recorded, or the class
    // of `b` for a variable that is the same as `a`, or the other way round.
    assert forall|u: VariableId, relation: Relation| #[trigger]
        after.held(u, relation) is Some implies {
        ||| after.held(u, relation) == before.held(u, relation)
        ||| relation == a_to_b && before.rep(u) == ra && after.held(u, relation) == Some(rb)
        ||| relation == b_to_a && before.rep(u) == rb && after.held(u, relation) == Some(ra)
    } by {
        assert(after.info(before.rep(u)) == before.related_info(
            a,
            b,
            a_to_b,
            b_to_a,
            before.rep(u),
        ));
    }
    assert forall|u: VariableId| before.rep(u) == ra implies same(u, a) by {
        lemma_rep_canonical(before.parents(), u);
        assert(same(u, before.rep(u)));
    }
    assert forall|u: VariableId| before.rep(u) == rb implies same(u, b) by {
        lemma_rep_canonical(before.parents(), u);
        assert(same(u, before.rep(u)));
    }
    assert forall|w: VariableId|
        #![trigger after.held(w, a_to_b)]
        same(w, a) && after.held(w, a_to_b) is Some implies same(
        after.held(w, a_to_b).unwrap(),
        b,
    ) by {
        if after.held(w, a_to_b) == before.held(w, a_to_b) {
        } else if before.rep(w) == ra && after.held(w, a_to_b) == Some(rb) {
        } else {
            // The record of the class of `b`, which holds the class of `a`.
            assert(same(w, b));
            assert(same(a, w));
            assert(same(a, b));
            assert(same(ra, b));
        }
    }
    assert forall|w: VariableId|
        #![trigger after.held(w, b_to_a)]
        same(w, b) && after.held(w, b_to_a) is Some implies same(
        after.held(w, b_to_a).unwrap(),
        a,
    ) by {
        if after.held(w, b_to_a) == before.held(w, b_to_a) {
        } else if before.rep(w) == rb && after.held(w, b_to_a) == Some(ra) {
        } else {
            assert(same(w, a));
            assert(same(b, w));
            assert(same(b, a));
            assert(same(rb, a));
        }
    }
    assert forall|u: VariableId, v: VariableId| after.rep(u) == after.rep(v) implies #[trigger] same(
        u,
        v,
    ) by {
        assert(before.rep(u) == before.rep(v));
    }
    assert forall|u: VariableId, v: VariableId, relation: Relation|
        #![trigger same(u, v), after.held(u, relation)]
        same(u, v) && after.held(u, relation) is Some && after.held(
            v,
            relation,
        ) is Some implies same(
        after.held(u, relation).unwrap(),
        after.held(v, relation).unwrap(),
    ) by {
        let x = after.held(u, relation).unwrap();
        let y = after.held(v, relation).unwrap();
        assert(same(v, u));
        assert(same(x, x) && same(y, y));
        if relation == a_to_b && (same(u, a) || same(v, a)) {
            assert(same(u, a));
            assert(same(v, a));
            assert(same(x, b));
            assert(same(y, b));
            assert(same(b, y));
        } else if relation == b_to_a && (same(u, b) || same(v, b)) {
            assert(same(u, b));
            assert(same(v, b));
            assert(same(x, a));
            assert(same(y, a));
            assert(same(a, y));
        } else {
            assert(after.held(u, relation) == before.held(u, relation));
            assert(after.held(v, relation) == before.held(v, relation));
        }
    }
}

/// Relating `a` and `b` keeps every congruence that agrees with the
/// relation: `s0` before, `s1` after the first join, `s2` after the
/// second, `s3` after the records are written.
proof fn lemma_bound_relationship(
    s0: EqualityState,
    s1: EqualityState,
    s2: EqualityState,
    s3: EqualityState,
    same: spec_fn(VariableId, VariableId) -> bool,
    a: VariableId,
    b: VariableId,
    a_to_b: Relation,
    b_to_a: Relation,
)
    requires
        s0.congruent(same),
        s0.relation_within(same, a, b, a_to_b, b_to_a),
        s0.congruent(same) && (s0.held(a, a_to_b) is Some ==> same(
            s0.held(a, a_to_b).unwrap(),
            b,
        )) ==> s1.within(same) && s1.records_from(&s0, same),
        s1.congruent(same) && (s1.held(b, b_to_a) is Some ==> same(
            s1.held(b, b_to_a).unwrap(),
            a,
        )) ==> s2.within(same) && s2.records_from(&s1, same),
        forall|v: VariableId| s3.rep(v) == s2.rep(v),
        forall|r: VariableId| s3.info(r) == s2.related_info(a, b, a_to_b, b_to_a, r),
    ensures
        s3.congruent(same),
        s3.relation_within(same, a, b, a_to_b, b_to_a),
{
    assert(same(a, a) && same(b, b)) by {
        reveal(EqualityState::congruent);
    }
    assert(s0.held(a, a_to_b) is Some ==> same(s0.held(a, a_to_b).unwrap(), b)) by {
        reveal(EqualityState::relation_within);
    }
    lemma_bound_congruent(s0, s1, same);
    lemma_bound_relation(s0, s1, same, a, b, a_to_b, b_to_a);
    assert(s1.held(b, b_to_a) is Some ==> same(s1.held(b, b_to_a).unwrap(), a)) by {
        reveal(EqualityState::relation_within);
    }
    lemma_bound_congruent(s1, s2, same);
    lemma_bound_relation(s1, s2, same, a, b, a_to_b, b_to_a);
    lemma_bound_recorded(s2, s3, same, a, b, a_to_b, b_to_a);
}

/// Two states with the same representatives, records and links know the same.
pub proof fn lemma_same_knowledge(first: EqualityState, second: EqualityState)
    requires
        forall|v: VariableId| first.rep(v) == second.rep(v),
        forall|r: VariableId| first.info(r) == second.info(r),
        forall|v: VariableId| first.linked(v) == second.linked(v),
    ensures
        first.knowledge() == second.knowledge(),
{
    assert(first.shows(second.knowledge())) by {
        reveal(EqualityState::shows);
    }
    lemma_shown_is_known(first, second.knowledge());
}

/// A state shows what it knows.
pub proof fn lemma_known_is_shown(state: EqualityState, known: Knowledge)
    requires
        state.knowledge() == known,
    ensures
        state.shows(known),
{
    reveal(EqualityState::shows);
}

/// A state that has the representatives, records and links of the join
/// of `a` and `b` in `before` knows exactly that join.
proof fn lemma_joined_shows(before: EqualityState, after: EqualityState, a: VariableId, b: VariableId)
    requires
        forall|v: VariableId| after.rep(v) == before.joined_rep(a, b, v),
        forall|v: VariableId| after.info(v) == before.joined_info(a, b, v),
        forall|v: VariableId|
            after.linked(v) == (before.linked(v) || (before.rep(a) != before.rep(b) && (v
                == before.rep(a) || v == before.rep(b)))),
    ensures
        after.shows(before.knowledge().joined(a, b)),
{
    reveal(EqualityState::shows);
    let known = before.knowledge().joined(a, b);
    assert forall|v: VariableId| #[trigger] after.rep(v) == (known.rep)(v) by {
        assert(after.rep(v) == before.joined_rep(a, b, v));
    }
    assert forall|r: VariableId| #[trigger] after.info(r) == (known.info)(r) by {
        assert(after.info(r) == before.joined_info(a, b, r));
    }
    assert forall|v: VariableId| #[trigger] after.linked(v) == (known.linked)(v) by {
        assert(after.linked(v) == (before.linked(v) || (before.rep(a) != before.rep(b) && (v
            == before.rep(a) || v == before.rep(b)))));
    }
}

/// A class that `b` had in `relation` before `a` was related to it is one
/// with the class of `a` once both joins are made: `s0` before the first
/// join, `s1` between the two, `s2` after the second.
proof fn lemma_second_join(
    s0: EqualityState,
    s1: EqualityState,
    s2: EqualityState,
    a: VariableId,
    b: VariableId,
    relation: Relation,
)
    requires
        s0.wf(),
        s1.wf(),
        s0.related(b, relation) is Some ==> s1.related(b, relation) is Some && s1.rep(
            s1.related(b, relation).unwrap(),
        ) == s1.rep(s0.related(b, relation).unwrap()),
        s1.refined_by(&s2),
        s1.related(b, relation) is Some ==> s2.rep(a) == s2.rep(s1.related(b, relation).unwrap()),
    ensures
        s0.related(b, relation) is Some ==> s2.rep(a) == s2.rep(s0.related(b, relation).unwrap()),
{
}

/// Relating `a` and `b` where no join conflicts gives exactly what
/// `with_relationship` says: `s0` before, `s1` after the first join, `s2`
/// after the second, `s3` after the records are written.
proof fn lemma_relates_cleanly(
    s0: EqualityState,
    s1: EqualityState,
    s2: EqualityState,
    s3: EqualityState,
    a: VariableId,
    b: VariableId,
    a_to_b: Relation,
    b_to_a: Relation,
)
    requires
        s0.knowledge().joins_cleanly(a, a_to_b, b) ==> s1.shows(
            s0.knowledge().joined_with_related(a, a_to_b, b),
        ),
        s1.knowledge().joins_cleanly(b, b_to_a, a) ==> s2.shows(
            s1.knowledge().joined_with_related(b, b_to_a, a),
        ),
        s3.same_partition(&s2),
        forall|v: VariableId| s3.linked(v) == s2.linked(v),
        forall|r: VariableId| s3.info(r) == s2.related_info(a, b, a_to_b, b_to_a, r),
    ensures
        s0.knowledge().relates_cleanly(a, b, a_to_b, b_to_a) ==> s3.shows(
            s0.knowledge().with_relationship(a, b, a_to_b, b_to_a),
        ) && s1.knowledge().joins_cleanly(b, b_to_a, a),
{
    reveal(EqualityState::shows);
    let k0 = s0.knowledge();
    let k1 = k0.joined_with_related(a, a_to_b, b);
    let k2 = k1.joined_with_related(b, b_to_a, a);
    if k0.relates_cleanly(a, b, a_to_b, b_to_a) {
        assert(s1.shows(k1));
        assert(s1.knowledge().related(b, b_to_a) == k1.related(b, b_to_a));
        assert(s1.knowledge().joins_cleanly(b, b_to_a, a));
        assert(s2.shows(k2));
        assert(s3.shows(k2.recorded(a, b, a_to_b, b_to_a)));
    }
}

/// A state that knows the join of `x` and `y` in `before` has its
/// representatives and records.
proof fn lemma_shown_join(before: EqualityState, after: EqualityState, x: VariableId, y: VariableId)
    requires
        after.shows(before.knowledge().joined(x, y)),
    ensures
        forall|v: VariableId| after.rep(v) == before.joined_rep(x, y, v),
        forall|r: VariableId| after.info(r) == before.joined_info(x, y, r),
{
    reveal(EqualityState::shows);
    let known = before.knowledge().joined(x, y);
    assert forall|v: VariableId| after.rep(v) == before.joined_rep(x, y, v) by {
        assert(after.rep(v) == (known.rep)(v));
    }
    assert forall|r: VariableId| after.info(r) == before.joined_info(x, y, r) by {
        assert(after.info(r) == (known.info)(r));
    }
}

/// What the class of `v` has in `relation` once the classes of `x` and `y`
/// are one, where their records do not conflict: what it had, else what the
/// class that it was joined with had.
proof fn lemma_join_related(
    before: EqualityState,
    after: EqualityState,
    x: VariableId,
    y: VariableId,
    v: VariableId,
    relation: Relation,
)
    requires
        !before.conflicting(x, y),
        forall|v: VariableId| after.rep(v) == before.joined_rep(x, y, v),
        forall|r: VariableId| after.info(r) == before.joined_info(x, y, r),
    ensures
        after.related(v, relation) == if before.related(v, relation) is Some {
            Some(after.rep(before.related(v, relation).unwrap()))
        } else if before.rep(v) == before.rep(x) && before.related(y, relation) is Some {
            Some(after.rep(before.related(y, relation).unwrap()))
        } else if before.rep(v) == before.rep(y) && before.related(x, relation) is Some {
            Some(after.rep(before.related(x, relation).unwrap()))
        } else {
            None
        },
{
    let lo = before.lower_rep(x, y);
    let hi = before.higher_rep(x, y);
    let rv = before.rep(v);
    lemma_rep_canonical(before.parents(), x);
    lemma_rep_canonical(before.parents(), y);
    lemma_rep_canonical(before.parents(), v);
    assert(after.rep(v) == before.joined_rep(x, y, v));
    assert(after.info(after.rep(v)) == before.joined_info(x, y, after.rep(v)));
    let mine = before.info(rv).spec_get(relation);
    let low = before.info(lo).spec_get(relation);
    let high = before.info(hi).spec_get(relation);
    assert(!differ(low, high) || before.rep(x) == before.rep(y));
    assert(before.info(lo).spec_or(before.info(hi)).spec_get(relation) == or_else(low, high));
    if mine is Some {
        lemma_rep_canonical(before.parents(), mine.unwrap());
        assert(after.rep(before.rep(mine.unwrap())) == before.joined_rep(
            x,
            y,
            before.rep(mine.unwrap()),
        ));
        assert(after.rep(mine.unwrap()) == before.joined_rep(x, y, mine.unwrap()));
    }
    if low is Some {
        lemma_rep_canonical(before.parents(), low.unwrap());
        assert(after.rep(before.rep(low.unwrap())) == before.joined_rep(
            x,
            y,
            before.rep(low.unwrap()),
        ));
        assert(after.rep(low.unwrap()) == before.joined_rep(x, y, low.unwrap()));
    }
    if high is Some {
        lemma_rep_canonical(before.parents(), high.unwrap());
        assert(after.rep(before.rep(high.unwrap())) == before.joined_rep(
            x,
            y,
            before.rep(high.unwrap()),
        ));
        assert(after.rep(high.unwrap()) == before.joined_rep(x, y, high.unwrap()));
    }
}

/// Joining `other` with what the class of `var` has in `relation`, where
/// that meets no conflict, keeps the relations symmetric. Afterwards the
/// class of `var` has nothing in the relation but the class of `other`,
/// and, if the class of `other` had nothing in the inverse relation but the
/// class of `var`, that is still so.
#[verifier::rlimit(60)]
proof fn lemma_clean_join_step(
    before: EqualityState,
    after: EqualityState,
    var: VariableId,
    relation: Relation,
    other: VariableId,
)
    requires
        before.symmetric(),
        before.knowledge().joins_cleanly(var, relation, other),
        after.shows(before.knowledge().joined_with_related(var, relation, other)),
    ensures
        after.symmetric(),
        after.related(var, relation) is Some ==> after.related(var, relation) == Some(
            after.rep(other),
        ),
        (before.related(other, relation.spec_inverse()) is Some ==> before.related(
            other,
            relation.spec_inverse(),
        ) == Some(before.rep(var))) ==> (after.related(other, relation.spec_inverse()) is Some
            ==> after.related(other, relation.spec_inverse()) == Some(after.rep(var))),
{
    let inverse = relation.spec_inverse();
    assert(inverse.spec_inverse() == relation);
    let had = before.related(var, relation);
    if had is Some {
        let e = had.unwrap();
        lemma_shown_join(before, after, other, e);
        lemma_union_keeps_symmetric(before, after, other, e);
        lemma_join_related(before, after, other, e, var, relation);
        lemma_join_related(before, after, other, e, other, inverse);
        lemma_rep_canonical(before.parents(), e);
        lemma_rep_canonical(before.parents(), var);
        lemma_rep_canonical(before.parents(), other);
        assert(after.rep(other) == after.rep(e));
        assert(before.related(e, inverse) == Some(before.rep(var)));
        assert(after.rep(before.rep(var)) == before.joined_rep(other, e, before.rep(var)));
        assert(after.rep(var) == before.joined_rep(other, e, var));
    } else {
        reveal(EqualityState::shows);
        assert(forall|v: VariableId| after.rep(v) == before.rep(v));
        assert(forall|r: VariableId| after.info(r) == before.info(r));
        assert forall|v: VariableId, any: Relation| #[trigger]
            after.related(v, any) is Some implies after.related(
            after.related(v, any).unwrap(),
            any.spec_inverse(),
        ) == Some(after.rep(v)) by {
            assert(after.related(v, any) == before.related(v, any));
            assert(after.related(before.related(v, any).unwrap(), any.spec_inverse())
                == before.related(before.related(v, any).unwrap(), any.spec_inverse()));
        }
    }
}

/// Where `a` and `b` are related without a conflict in a state whose
/// relations are symmetric, the relations are symmetric afterwards: `s0`
/// before, `s1` after the first join, `s2` after the second, `s3` after
/// the records are written.
pub proof fn lemma_clean_relationship_keeps_symmetric(
    s0: EqualityState,
    s1: EqualityState,
    s2: EqualityState,
    s3: EqualityState,
    a: VariableId,
    b: VariableId,
    relation: Relation,
)
    requires
        s0.symmetric(),
        s0.knowledge().joins_cleanly(a, relation, b),
        s1.shows(s0.knowledge().joined_with_related(a, relation, b)),
        s1.knowledge().joins_cleanly(b, relation.spec_inverse(), a),
        s2.shows(s1.knowledge().joined_with_related(b, relation.spec_inverse(), a)),
        s3.same_partition(&s2),
        forall|r: VariableId|
            s3.info(r) == s2.related_info(a, b, relation, relation.spec_inverse(), r),
    ensures
        s3.symmetric(),
{
    let inverse = relation.spec_inverse();
    assert(inverse.spec_inverse() == relation);
    lemma_clean_join_step(s0, s1, a, relation, b);
    lemma_clean_join_step(s1, s2, b, inverse, a);
    assert(s2.agrees(a, b, relation, inverse));
    lemma_relationship_keeps_symmetric(s2, s3, a, b, relation);
}

/// What it means for a state that nothing is known of `v`.
pub proof fn lemma_unknown_state(state: EqualityState, v: VariableId)
    requires
        state.knowledge().unknown(v),
    ensures
        state.rep(v) == v,
        state.info(v) == ClassInfo::spec_empty(),
        forall|w: VariableId| #[trigger] state.rep(w) == v <==> w == v,
        forall|r: VariableId, relation: Relation|
            #[trigger] state.info(r).spec_get(relation) != Some(v),
{
    let known = state.knowledge();
    assert forall|w: VariableId| #[trigger] state.rep(w) == v <==> w == v by {
        assert((known.rep)(w) == v <==> w == v);
    }
    assert(state.info(v) == (known.info)(v));
    assert forall|r: VariableId, relation: Relation|
        #[trigger] state.info(r).spec_get(relation) != Some(v) by {
        assert((known.info)(r).spec_get(relation) != Some(v));
    }
}

/// Relating a variable of which nothing is known meets no conflict, where
/// the relations of the state are symmetric.
pub proof fn lemma_unknown_relates(
    state: EqualityState,
    a: VariableId,
    b: VariableId,
    relation: Relation,
)
    requires
        state.symmetric(),
        state.knowledge().unknown(a) || state.knowledge().unknown(b),
    ensures
        state.knowledge().relates_cleanly(a, b, relation, relation.spec_inverse()),
{
    let known = state.knowledge();
    let inverse = relation.spec_inverse();
    assert(inverse.spec_inverse() == relation);
    lemma_rep_canonical(state.parents(), a);
    lemma_rep_canonical(state.parents(), b);
    assert(known.related(a, relation) == state.related(a, relation));
    assert(known.related(b, inverse) == state.related(b, inverse));
    if known.unknown(a) {
        assert(state.rep(a) == a);
        assert(state.info(a) == ClassInfo::spec_empty());
        assert(known.related(a, relation) is None);
        assert(known.joined_with_related(a, relation, b) == known);
        if known.related(b, inverse) is Some {
            crate::analysis::knowledge::lemma_unknown_joins(
                known,
                a,
                known.related(b, inverse).unwrap(),
            );
        }
    } else {
        assert(state.rep(b) == b);
        assert(state.info(b) == ClassInfo::spec_empty());
        if known.related(a, relation) is Some {
            let e = known.related(a, relation).unwrap();
            let x = state.info(state.rep(a)).spec_get(relation).unwrap();
            lemma_rep_canonical(state.parents(), x);
            crate::analysis::knowledge::lemma_unknown_joins(known, b, e);
            assert(x != b);
            assert(state.rep(x) == b <==> x == b);
            assert(e != b);
            assert(state.rep(e) == e);
            let first = known.joined(b, e);
            assert(known.joined_with_related(a, relation, b) == first);
            // The class of `e` holds the class of `a` in the inverse relation.
            assert(state.related(e, inverse) == Some(state.rep(a)));
            let y = state.info(e).spec_get(inverse).unwrap();
            lemma_rep_canonical(state.parents(), y);
            assert(state.rep(y) == state.rep(a));
            assert((first.info)((first.rep)(b)).spec_get(inverse) == Some(y));
            assert((first.rep)(y) == (first.rep)(a));
            assert((first.rep)((first.rep)(y)) == (first.rep)(y));
            assert(first.related(b, inverse) == Some((first.rep)(y)));
            assert(!first.conflicting(a, first.related(b, inverse).unwrap()));
        } else {
            assert(known.joined_with_related(a, relation, b) == known);
            assert(known.related(b, inverse) is None);
        }
    }
}

/// Writing the records of a relation between `a` and `b` into knowledge
/// whose records hold representatives only gives such knowledge again.
proof fn lemma_recorded_canonical(
    known: Knowledge,
    a: VariableId,
    b: VariableId,
    a_to_b: Relation,
    b_to_a: Relation,
)
    requires
        known.canonical(),
        (known.rep)((known.rep)(a)) == (known.rep)(a),
        (known.rep)((known.rep)(b)) == (known.rep)(b),
    ensures
        known.recorded(a, b, a_to_b, b_to_a).canonical(),
{
    let after = known.recorded(a, b, a_to_b, b_to_a);
    assert forall|r: VariableId, relation: Relation|
        (#[trigger] (after.info)(r).spec_get(relation)) is Some implies (after.rep)(
        (after.info)(r).spec_get(relation).unwrap(),
    ) == (after.info)(r).spec_get(relation).unwrap() by {
        let s = (after.info)(r).spec_get(relation).unwrap();
        if (known.info)(r).spec_get(relation) == Some(s) {
            assert((known.rep)(s) == s);
        }
    }
}

/// Recording a relation that joins no classes, in a state whose records
/// hold representatives only, gives such a state again.
pub proof fn lemma_agreeing_canonical(
    before: EqualityState,
    after: EqualityState,
    a: VariableId,
    b: VariableId,
    a_to_b: Relation,
    b_to_a: Relation,
)
    requires
        before.knowledge().canonical(),
        after.same_partition(&before),
        forall|r: VariableId| after.info(r) == before.related_info(a, b, a_to_b, b_to_a, r),
    ensures
        after.knowledge().canonical(),
{
    let known = before.knowledge();
    let now = after.knowledge();
    lemma_rep_canonical(before.parents(), a);
    lemma_rep_canonical(before.parents(), b);
    assert forall|r: VariableId, relation: Relation|
        (#[trigger] (now.info)(r).spec_get(relation)) is Some implies (now.rep)(
        (now.info)(r).spec_get(relation).unwrap(),
    ) == (now.info)(r).spec_get(relation).unwrap() by {
        let s = (now.info)(r).spec_get(relation).unwrap();
        assert(after.info(r) == before.related_info(a, b, a_to_b, b_to_a, r));
        assert(after.rep(s) == before.rep(s));
        if (known.info)(r).spec_get(relation) == Some(s) {
            assert((known.rep)(s) == s);
        }
    }
}

/// Relating a new variable to another, where every class that it is made
/// one with has a lower representative, leaves every record holding
/// representatives only.
pub proof fn lemma_relate_new_canonical(
    state: EqualityState,
    a: VariableId,
    b: VariableId,
    relation: Relation,
)
    requires
        state.symmetric(),
        state.knowledge().canonical(),
        (state.knowledge().unknown(b) && (state.related(a, relation) is Some ==> state.related(
            a,
            relation,
        ).unwrap() < b)) || (state.knowledge().unknown(a) && (state.related(
            b,
            relation.spec_inverse(),
        ) is Some ==> state.related(b, relation.spec_inverse()).unwrap() < a)),
    ensures
        state.knowledge().with_relationship(a, b, relation, relation.spec_inverse()).canonical(),
{
    let known = state.knowledge();
    let inverse = relation.spec_inverse();
    assert(inverse.spec_inverse() == relation);
    lemma_rep_canonical(state.parents(), a);
    lemma_rep_canonical(state.parents(), b);
    assert(known.related(a, relation) == state.related(a, relation));
    assert(known.related(b, inverse) == state.related(b, inverse));
    if known.unknown(b) && (state.related(a, relation) is Some ==> state.related(
        a,
        relation,
    ).unwrap() < b) {
        lemma_unknown_state(state, b);
        if known.related(a, relation) is Some {
            let e = known.related(a, relation).unwrap();
            let x = state.info(state.rep(a)).spec_get(relation).unwrap();
            lemma_rep_canonical(state.parents(), x);
            assert(state.rep(e) == e);
            assert(a != b);
            crate::analysis::knowledge::lemma_join_new_canonical(known, b, e);
            let first = known.joined(b, e);
            assert(known.joined_with_related(a, relation, b) == first);
            assert(state.related(e, inverse) == Some(state.rep(a)));
            let y = state.info(e).spec_get(inverse).unwrap();
            assert((known.info)(e).spec_get(inverse) == Some(y));
            assert((known.rep)(y) == y);
            assert(y == state.rep(a));
            assert(e != b);
            assert(y != b);
            assert((first.rep)(b) == e);
            assert((first.info)(e) == (known.info)(e));
            assert((first.rep)(y) == y);
            assert((first.rep)(a) == y);
            assert(first.related(b, inverse) == Some(y));
            assert(first.joined(a, y) == first);
            assert(first.joined_with_related(b, inverse, a) == first);
            assert((first.rep)((first.rep)(a)) == (first.rep)(a));
            assert((first.rep)((first.rep)(b)) == (first.rep)(b));
            lemma_recorded_canonical(first, a, b, relation, inverse);
        } else {
            assert(known.joined_with_related(a, relation, b) == known);
            assert(known.related(b, inverse) is None);
            assert(known.joined_with_related(b, inverse, a) == known);
            lemma_recorded_canonical(known, a, b, relation, inverse);
        }
    } else {
        lemma_unknown_state(state, a);
        assert(known.related(a, relation) is None);
        assert(known.joined_with_related(a, relation, b) == known);
        if known.related(b, inverse) is Some {
            let e = known.related(b, inverse).unwrap();
            let x = state.info(state.rep(b)).spec_get(inverse).unwrap();
            lemma_rep_canonical(state.parents(), x);
            assert(state.rep(e) == e);
            assert(a != b);
            crate::analysis::knowledge::lemma_join_new_canonical(known, a, e);
            let second = known.joined(a, e);
            assert(known.joined_with_related(b, inverse, a) == second);
            assert(e != a);
            assert((second.rep)(a) == e);
            assert((second.rep)(e) == e);
            assert(state.rep(b) != a);
            assert((second.rep)(b) == state.rep(b));
            assert((second.rep)(state.rep(b)) == state.rep(b));
            lemma_recorded_canonical(second, a, b, relation, inverse);
        } else {
            assert(known.joined_with_related(b, inverse, a) == known);
            lemma_recorded_canonical(known, a, b, relation, inverse);
        }
    }
}

/// Relating a variable that is above all that is known leaves every
/// record holding representatives only.
pub proof fn lemma_relate_above(state: EqualityState, a: VariableId, b: VariableId, relation: Relation)
    requires
        state.symmetric(),
        state.knowledge().canonical(),
        state.knowledge().above(a) || state.knowledge().above(b),
    ensures
        state.knowledge().with_relationship(a, b, relation, relation.spec_inverse()).canonical(),
{
    let known = state.knowledge();
    let inverse = relation.spec_inverse();
    if known.above(b) {
        if state.related(a, relation) is Some {
            let x = state.info(state.rep(a)).spec_get(relation).unwrap();
            assert((known.info)(state.rep(a)).spec_get(relation) == Some(x));
            crate::analysis::knowledge::lemma_held_below(known, b, state.rep(a), relation, x);
            assert((known.rep)(x) == x);
        }
    } else {
        if state.related(b, inverse) is Some {
            let x = state.info(state.rep(b)).spec_get(inverse).unwrap();
            assert((known.info)(state.rep(b)).spec_get(inverse) == Some(x));
            crate::analysis::knowledge::lemma_held_below(known, a, state.rep(b), inverse, x);
            assert((known.rep)(x) == x);
        }
    }
    lemma_relate_new_canonical(state, a, b, relation);
}

/// In a state with symmetric relations whose records hold representatives
/// only, the record of a representative that holds a variable for a
/// relation is answered by the record of that variable, which holds the
/// representative for the inverse relation.
pub proof fn lemma_mutual_records(
    state: EqualityState,
    r: VariableId,
    relation: Relation,
    s: VariableId,
)
    requires
        state.wf(),
        state.symmetric(),
        state.knowledge().canonical(),
        state.info(r).spec_get(relation) == Some(s),
    ensures
        state.rep(r) == r,
        state.rep(s) == s,
        state.info(s).spec_get(relation.spec_inverse()) == Some(r),
{
    let known = state.knowledge();
    lemma_symmetric_records(state, r, relation, s);
    assert((known.info)(r).spec_get(relation) == Some(s));
    assert((known.rep)(s) == s);
    let back = state.info(s).spec_get(relation.spec_inverse()).unwrap();
    assert((known.info)(s).spec_get(relation.spec_inverse()) == Some(back));
    assert((known.rep)(back) == back);
}

/// Recording a relation that agrees with what is recorded keeps the relations symmetric.
pub proof fn lemma_relationship_keeps_symmetric(
    before: EqualityState,
    after: EqualityState,
    a: VariableId,
    b: VariableId,
    relation: Relation,
)
    requires
        before.symmetric(),
        before.agrees(a, b, relation, relation.spec_inverse()),
        after.same_partition(&before),
        forall|r: VariableId|
            after.info(r) == before.related_info(a, b, relation, relation.spec_inverse(), r),
    ensures
        after.symmetric(),
{
    let inverse = relation.spec_inverse();
    let ra = before.rep(a);
    let rb = before.rep(b);
    lemma_rep_canonical(before.parents(), a);
    lemma_rep_canonical(before.parents(), b);
    assert(inverse != relation);
    assert(inverse.spec_inverse() == relation);
    assert forall|v: VariableId, other: Relation| #[trigger]
        after.related(v, other) is Some implies after.related(
        after.related(v, other).unwrap(),
        other.spec_inverse(),
    ) == Some(after.rep(v)) by {
        let rv = before.rep(v);
        lemma_rep_canonical(before.parents(), v);
        assert(after.rep(v) == rv);
        assert(after.info(rv) == before.related_info(a, b, relation, inverse, rv));
        assert(after.info(ra) == before.related_info(a, b, relation, inverse, ra));
        assert(after.info(rb) == before.related_info(a, b, relation, inverse, rb));
        assert(after.rep(ra) == ra && after.rep(rb) == rb);
        if rv == rb && other == inverse {
        } else if rv == ra && other == relation {
        } else {
            assert(after.info(rv).spec_get(other) == before.info(rv).spec_get(other));
            let y = before.info(rv).spec_get(other).unwrap();
            let w = before.rep(y);
            lemma_rep_canonical(before.parents(), y);
            assert(after.rep(y) == w);
            assert(before.related(v, other) == Some(w));
            assert(before.related(w, other.spec_inverse()) == Some(rv));
            assert(after.info(w) == before.related_info(a, b, relation, inverse, w));
            if w == ra && other.spec_inverse() == relation {
                assert(before.related(a, relation) == before.related(ra, relation));
                assert(rv == rb);
            } else if w == rb && other.spec_inverse() == inverse {
                assert(before.related(b, inverse) == before.related(rb, inverse));
                assert(rv == ra);
            } else {
                let z = before.info(w).spec_get(other.spec_inverse()).unwrap();
                assert(after.info(w).spec_get(other.spec_inverse()) == Some(z));
                assert(after.rep(z) == before.rep(z));
            }
        }
    }
}

/// In a state with symmetric relations, the variable that the record of a
/// representative holds for a relation is in a class whose record holds,
/// for the inverse relation, a variable of the class of that representative.
pub proof fn lemma_symmetric_records(
    state: EqualityState,
    r: VariableId,
    relation: Relation,
    s: VariableId,
)
    requires
        state.wf(),
        state.symmetric(),
        state.info(r).spec_get(relation) == Some(s),
    ensures
        state.rep(r) == r,
        state.info(state.rep(s)).spec_get(relation.spec_inverse()) is Some,
        state.rep(state.info(state.rep(s)).spec_get(relation.spec_inverse()).unwrap()) == r,
{
    assert(!state.info(r).spec_is_empty());
    assert(state.related(r, relation) == Some(state.rep(s)));
    lemma_rep_canonical(state.parents(), s);
}

/// What is related to a variable is what is related to its representative.
pub proof fn lemma_related_of_rep(state: EqualityState, v: VariableId, relation: Relation)
    ensures
        state.related(state.rep(v), relation) == state.related(v, relation),
{
    lemma_rep_canonical(state.parents(), v);
}

/// A variable that a record holds for a relation is among the variables that the record holds.
pub proof fn lemma_held_is_referenced(info: ClassInfo, relation: Relation, v: VariableId)
    requires
        info.spec_get(relation) == Some(v),
    ensures
        info.spec_referenced_vars().contains(v),
{
    let b = option_seq(info.boxed_class);
    let o = option_seq(info.original_class);
    let s = option_seq(info.snapshot_class);
    let all = info.spec_referenced_vars();
    match relation {
        Relation::Boxed => {
            assert(all[0] == v);
        },
        Relation::Original => {
            assert(all[b.len() as int] == v);
        },
        Relation::Snapshot => {
            assert(all[(b.len() + o.len()) as int] == v);
        },
        Relation::Unboxed => {
            assert(all[(b.len() + o.len() + s.len()) as int] == v);
        },
    }
}

/// In a state with symmetric relations, two variables whose classes are
/// related both have a parent link or are held in a record.
pub proof fn lemma_related_are_known(
    state: EqualityState,
    u: VariableId,
    relation: Relation,
    v: VariableId,
)
    requires
        state.wf(),
        state.symmetric(),
        state.related(u, relation) == Some(state.rep(v)),
    ensures
        state.linked(u) || state.mentions(u),
        state.linked(v) || state.mentions(v),
{
    let p = state.parents();
    lemma_rep_canonical(p, u);
    lemma_rep_canonical(p, v);
    let ru = state.rep(u);
    let y = state.info(ru).spec_get(relation).unwrap();
    lemma_held_is_referenced(state.info(ru), relation, y);
    assert(state.mentions(y));
    if v != y {
        lemma_class_members_linked(state, v, y);
    }
    let w = state.related(u, relation).unwrap();
    assert(state.related(w, relation.spec_inverse()) == Some(state.rep(u)));
    lemma_rep_canonical(p, w);
    let z = state.info(state.rep(w)).spec_get(relation.spec_inverse()).unwrap();
    lemma_held_is_referenced(state.info(state.rep(w)), relation.spec_inverse(), z);
    assert(state.mentions(z));
    if u != z {
        lemma_class_members_linked(state, u, z);
    }
}

/// A representative is its own representative: looking up twice gives what
/// looking up once gives.
pub proof fn lemma_find_idempotent(state: EqualityState, v: VariableId)
    ensures
        state.rep(state.rep(v)) == state.rep(v),
{
    lemma_rep_canonical(state.parents(), v);
}

/// The representative of a class is the lowest variable in it.
pub proof fn lemma_lowest_representative(state: EqualityState, u: VariableId, v: VariableId)
    requires
        state.rep(u) == state.rep(v),
    ensures
        state.rep(v) <= u,
        state.rep(state.rep(v)) == state.rep(v),
{
    lemma_rep_canonical(state.parents(), u);
    lemma_rep_canonical(state.parents(), v);
}

/// Class records are stored at representatives only, and none is empty.
pub proof fn lemma_records_at_representatives(state: EqualityState, r: VariableId)
    requires
        state.wf(),
        !state.info(r).spec_is_empty(),
    ensures
        state.rep(r) == r,
{
}

/// Two different variables of one class both have a parent link.
pub proof fn lemma_class_members_linked(state: EqualityState, u: VariableId, v: VariableId)
    requires
        state.wf(),
        state.rep(u) == state.rep(v),
        u != v,
    ensures
        state.linked(u),
        state.linked(v),
{
    let p = state.parents();
    lemma_rep_canonical(p, u);
    lemma_rep_canonical(p, v);
    if rep_of(p, u) != u {
        assert(p.contains_key(u));
        assert(p.contains_key(rep_of(p, u)));
    }
    if rep_of(p, v) != v {
        assert(p.contains_key(v));
        assert(p.contains_key(rep_of(p, v)));
    }
}

} // verus!
