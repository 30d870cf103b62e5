//! What an equality state knows, as mathematical functions, and what joining
//! two classes or recording a relation makes of it.
use crate::analysis::equality_state::{ClassInfo, Relation};
use crate::ir::VariableId;
use vstd::prelude::*;

verus! {

/// What an equality state knows, apart from how it is stored: the
/// representative of every variable, the record of every representative, and
/// which variables have a parent link.
pub ghost struct Knowledge {
    pub rep: spec_fn(VariableId) -> VariableId,
    pub info: spec_fn(VariableId) -> ClassInfo,
    pub linked: spec_fn(VariableId) -> bool,
}

impl Knowledge {
    /// No two variables are equal, nothing is recorded, nothing is linked.
    pub open spec fn nothing() -> Knowledge {
        Knowledge {
            rep: |v: VariableId| v,
            info: |r: VariableId| ClassInfo::spec_empty(),
            linked: |v: VariableId| false,
        }
    }

    /// Nothing is known of `v`: it is alone in its class, its class records
    /// nothing, and no record holds it.
    pub open spec fn unknown(self, v: VariableId) -> bool {
        &&& forall|w: VariableId| #[trigger] (self.rep)(w) == v <==> w == v
        &&& (self.info)(v) == ClassInfo::spec_empty()
        &&& forall|r: VariableId, relation: Relation|
            #[trigger] (self.info)(r).spec_get(relation) != Some(v)
    }

    /// Every variable that a record holds is a representative.
    pub open spec fn canonical(self) -> bool {
        forall|r: VariableId, relation: Relation|
            (#[trigger] (self.info)(r).spec_get(relation)) is Some ==> (self.rep)(
                (self.info)(r).spec_get(relation).unwrap(),
            ) == (self.info)(r).spec_get(relation).unwrap()
    }

    /// No representative is higher than a variable that it stands for.
    pub open spec fn lowest(self) -> bool {
        forall|v: VariableId| #[trigger] (self.rep)(v) <= v
    }

    /// Nothing is known of `v`, and every variable of which something is
    /// known is lower than `v`.
    pub open spec fn above(self, v: VariableId) -> bool {
        &&& self.unknown(v)
        &&& forall|w: VariableId| #[trigger] self.unknown(w) || w < v
    }

    /// The representative of the class that stands in `relation` to the class of `v`.
    pub open spec fn related(self, v: VariableId, relation: Relation) -> Option<VariableId> {
        match (self.info)((self.rep)(v)).spec_get(relation) {
            Some(w) => Some((self.rep)(w)),
            None => None,
        }
    }

    /// The classes of `a` and `b` differ and record, for some relation,
    /// different variables.
    pub open spec fn conflicting(self, a: VariableId, b: VariableId) -> bool {
        (self.rep)(a) != (self.rep)(b) && (self.info)((self.rep)(a)).spec_conflicts(
            (self.info)((self.rep)(b)),
        )
    }

    /// The lower of the representatives of `a` and `b`.
    pub open spec fn low(self, a: VariableId, b: VariableId) -> VariableId {
        if (self.rep)(a) < (self.rep)(b) {
            (self.rep)(a)
        } else {
            (self.rep)(b)
        }
    }

    /// The higher of the representatives of `a` and `b`.
    pub open spec fn high(self, a: VariableId, b: VariableId) -> VariableId {
        if (self.rep)(a) < (self.rep)(b) {
            (self.rep)(b)
        } else {
            (self.rep)(a)
        }
    }

    /// The classes of `a` and `b` made one, where they do not conflict: the
    /// lower representative stands for both, holds what either recorded,
    /// and both representatives are linked.
    pub open spec fn joined(self, a: VariableId, b: VariableId) -> Knowledge {
        if (self.rep)(a) == (self.rep)(b) {
            self
        } else {
            Knowledge {
                rep: |v: VariableId|
                    if (self.rep)(v) == self.high(a, b) {
                        self.low(a, b)
                    } else {
                        (self.rep)(v)
                    },
                info: |r: VariableId|
                    if r == self.high(a, b) {
                        ClassInfo::spec_empty()
                    } else if r == self.low(a, b) {
                        (self.info)(self.low(a, b)).spec_or((self.info)(self.high(a, b)))
                    } else {
                        (self.info)(r)
                    },
                linked: |v: VariableId|
                    (self.linked)(v) || v == (self.rep)(a) || v == (self.rep)(b),
            }
        }
    }

    /// Joining `other` with what the class of `var` has in `relation`, if
    /// anything, meets no conflict.
    pub open spec fn joins_cleanly(
        self,
        var: VariableId,
        relation: Relation,
        other: VariableId,
    ) -> bool {
        self.related(var, relation) is Some ==> !self.conflicting(
            other,
            self.related(var, relation).unwrap(),
        )
    }

    /// The class of `other` made one with what the class of `var` has in
    /// `relation`, if anything.
    pub open spec fn joined_with_related(
        self,
        var: VariableId,
        relation: Relation,
        other: VariableId,
    ) -> Knowledge {
        match self.related(var, relation) {
            Some(existing) => self.joined(other, existing),
            None => self,
        }
    }

    /// The class of `a` records the class of `b` for `a_to_b`, and the class
    /// of `b` that of `a` for `b_to_a`; the record of `b` is written last.
    pub open spec fn recorded(
        self,
        a: VariableId,
        b: VariableId,
        a_to_b: Relation,
        b_to_a: Relation,
    ) -> Knowledge {
        Knowledge {
            rep: self.rep,
            info: |r: VariableId|
                {
                    let first = if r == (self.rep)(a) {
                        (self.info)(r).spec_with(a_to_b, Some((self.rep)(b)))
                    } else {
                        (self.info)(r)
                    };
                    if r == (self.rep)(b) {
                        first.spec_with(b_to_a, Some((self.rep)(a)))
                    } else {
                        first
                    }
                },
            linked: self.linked,
        }
    }

    /// Relating `a` and `b` meets no conflict: neither the join of `b` with
    /// what `a` has in `a_to_b`, nor then that of `a` with what `b` has in
    /// `b_to_a`.
    pub open spec fn relates_cleanly(
        self,
        a: VariableId,
        b: VariableId,
        a_to_b: Relation,
        b_to_a: Relation,
    ) -> bool {
        &&& self.joins_cleanly(a, a_to_b, b)
        &&& self.joined_with_related(a, a_to_b, b).joins_cleanly(b, b_to_a, a)
    }

    /// What is known once `a` and `b` are related, where that meets no
    /// conflict: what either already had in the relation is joined with the
    /// other, then both records are written.
    pub open spec fn with_relationship(
        self,
        a: VariableId,
        b: VariableId,
        a_to_b: Relation,
        b_to_a: Relation,
    ) -> Knowledge {
        self.joined_with_related(a, a_to_b, b).joined_with_related(b, b_to_a, a).recorded(
            a,
            b,
            a_to_b,
            b_to_a,
        )
    }
}

/// A variable of which nothing is known meets no conflict: its class can
/// be made one with any class.
pub proof fn lemma_unknown_joins(known: Knowledge, a: VariableId, b: VariableId)
    requires
        known.unknown(a) || known.unknown(b),
    ensures
        !known.conflicting(a, b),
{
    if known.unknown(a) {
        assert((known.rep)(a) == a);
        assert((known.info)((known.rep)(a)) == ClassInfo::spec_empty());
    } else {
        assert((known.rep)(b) == b);
        assert((known.info)((known.rep)(b)) == ClassInfo::spec_empty());
    }
}

/// Making two classes one leaves a variable unknown that is neither of
/// the two variables.
pub proof fn lemma_unknown_kept_joined(known: Knowledge, a: VariableId, b: VariableId, v: VariableId)
    requires
        known.unknown(v),
        v != a,
        v != b,
    ensures
        known.joined(a, b).unknown(v),
{
    let after = known.joined(a, b);
    assert((known.rep)(a) != v && (known.rep)(b) != v);
    assert((known.rep)(v) == v);
    if (known.rep)(a) != (known.rep)(b) {
        let low = known.low(a, b);
        let high = known.high(a, b);
        assert forall|w: VariableId| #[trigger] (after.rep)(w) == v <==> w == v by {
            assert((known.rep)(w) == v <==> w == v);
        }
        assert forall|r: VariableId, relation: Relation|
            #[trigger] (after.info)(r).spec_get(relation) != Some(v) by {
            assert((known.info)(r).spec_get(relation) != Some(v));
            assert((known.info)(low).spec_get(relation) != Some(v));
            assert((known.info)(high).spec_get(relation) != Some(v));
        }
    }
}

/// Relating two variables leaves a variable unknown that is neither of them.
pub proof fn lemma_unknown_kept_related(
    known: Knowledge,
    a: VariableId,
    b: VariableId,
    a_to_b: Relation,
    b_to_a: Relation,
    v: VariableId,
)
    requires
        known.unknown(v),
        v != a,
        v != b,
    ensures
        known.with_relationship(a, b, a_to_b, b_to_a).unknown(v),
{
    let first = known.joined_with_related(a, a_to_b, b);
    if known.related(a, a_to_b) is Some {
        let e = known.related(a, a_to_b).unwrap();
        let x = (known.info)((known.rep)(a)).spec_get(a_to_b).unwrap();
        assert(x != v);
        assert((known.rep)(x) == v <==> x == v);
        lemma_unknown_kept_joined(known, b, e, v);
    }
    assert(first.unknown(v));
    let second = first.joined_with_related(b, b_to_a, a);
    if first.related(b, b_to_a) is Some {
        let e = first.related(b, b_to_a).unwrap();
        let x = (first.info)((first.rep)(b)).spec_get(b_to_a).unwrap();
        assert(x != v);
        assert((first.rep)(x) == v <==> x == v);
        lemma_unknown_kept_joined(first, a, e, v);
    }
    assert(second.unknown(v));
    let last = second.recorded(a, b, a_to_b, b_to_a);
    assert((second.rep)(a) != v && (second.rep)(b) != v) by {
        assert((second.rep)(a) == v <==> a == v);
        assert((second.rep)(b) == v <==> b == v);
    }
    assert forall|w: VariableId| #[trigger] (last.rep)(w) == v <==> w == v by {
        assert((second.rep)(w) == v <==> w == v);
    }
    assert forall|r: VariableId, relation: Relation|
        #[trigger] (last.info)(r).spec_get(relation) != Some(v) by {
        assert((second.info)(r).spec_get(relation) != Some(v));
    }
}

/// Making a new variable one with a class whose representative is lower
/// leaves the representative in place, and every record as it is.
pub proof fn lemma_join_new_canonical(known: Knowledge, v: VariableId, x: VariableId)
    requires
        known.canonical(),
        known.unknown(v),
        (known.rep)(x) < v || x == v,
    ensures
        known.joined(v, x).canonical(),
        known.joined(x, v).canonical(),
        forall|w: VariableId|
            w != v ==> #[trigger] (known.joined(v, x).rep)(w) == (known.rep)(w) && (known.joined(
                x,
                v,
            ).rep)(w) == (known.rep)(w),
        forall|r: VariableId| #[trigger] (known.joined(v, x).info)(r) == (known.info)(r),
        forall|r: VariableId| #[trigger] (known.joined(x, v).info)(r) == (known.info)(r),
{
    assert((known.rep)(v) == v);
    assert((known.info)(v) == ClassInfo::spec_empty());
    let first = known.joined(v, x);
    let second = known.joined(x, v);
    if (known.rep)(x) != v {
        let low = (known.rep)(x);
        assert(known.low(v, x) == low && known.high(v, x) == v);
        assert(known.low(x, v) == low && known.high(x, v) == v);
        assert((known.info)(low).spec_or((known.info)(v)) == (known.info)(low));
        assert forall|w: VariableId| w != v implies #[trigger] (first.rep)(w) == (known.rep)(w) && (
        second.rep)(w) == (known.rep)(w) by {
            assert((known.rep)(w) == v <==> w == v);
        }
        assert forall|r: VariableId| #[trigger] (first.info)(r) == (known.info)(r) by {}
        assert forall|r: VariableId| #[trigger] (second.info)(r) == (known.info)(r) by {}
        assert forall|r: VariableId, relation: Relation|
            (#[trigger] (first.info)(r).spec_get(relation)) is Some implies (first.rep)(
            (first.info)(r).spec_get(relation).unwrap(),
        ) == (first.info)(r).spec_get(relation).unwrap() by {
            let s = (known.info)(r).spec_get(relation).unwrap();
            assert((known.info)(r).spec_get(relation) != Some(v));
            assert((known.rep)(s) == s);
        }
        assert forall|r: VariableId, relation: Relation|
            (#[trigger] (second.info)(r).spec_get(relation)) is Some implies (second.rep)(
            (second.info)(r).spec_get(relation).unwrap(),
        ) == (second.info)(r).spec_get(relation).unwrap() by {
            let s = (known.info)(r).spec_get(relation).unwrap();
            assert((known.info)(r).spec_get(relation) != Some(v));
            assert((known.rep)(s) == s);
        }
    } else {
        assert((known.rep)(x) == v <==> x == v);
    }
}

/// A variable that a record holds is lower than a variable that is above
/// all that is known.
pub proof fn lemma_held_below(
    known: Knowledge,
    v: VariableId,
    r: VariableId,
    relation: Relation,
    x: VariableId,
)
    requires
        known.above(v),
        (known.info)(r).spec_get(relation) == Some(x),
    ensures
        x < v,
{
    assert(known.unknown(x) || x < v);
}

/// Making classes one keeps the representatives lowest.
pub proof fn lemma_joined_lowest(known: Knowledge, a: VariableId, b: VariableId)
    requires
        known.lowest(),
    ensures
        known.joined(a, b).lowest(),
{
    let after = known.joined(a, b);
    assert forall|v: VariableId| #[trigger] (after.rep)(v) <= v by {
        assert((known.rep)(v) <= v);
        assert((known.rep)(a) <= a && (known.rep)(b) <= b);
    }
}

} // verus!
