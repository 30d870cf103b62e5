//! Insertion-ordered hash maps, and the sequence model that the rest of the
//! crate reasons with: a map is the sequence of its entries, in iteration
//! order, with no key twice.

use crate::analysis::equality_state::ClassInfo;
use cairo_lang_utils::ordered_hash_map::OrderedHashMap;
use std::hash::RandomState;
use vstd::prelude::*;

verus! {

/// No key occurs in two entries.
pub open spec fn distinct_keys<K, V>(s: Seq<(K, V)>) -> bool {
    forall|i: int, j: int| 0 <= i < j < s.len() ==> (#[trigger] s[i]).0 != (#[trigger] s[j]).0
}

/// Some entry has the key `k`.
pub open spec fn has_key<K, V>(s: Seq<(K, V)>, k: K) -> bool {
    exists|i: int| 0 <= i < s.len() && (#[trigger] s[i]).0 == k
}

/// The position of an entry with key `k`, where there is one.
pub open spec fn index_of<K, V>(s: Seq<(K, V)>, k: K) -> int {
    choose|i: int| 0 <= i < s.len() && (#[trigger] s[i]).0 == k
}

/// The value stored under `k`, if any.
pub open spec fn value_of<K, V>(s: Seq<(K, V)>, k: K) -> Option<V> {
    if has_key(s, k) {
        Some(s[index_of(s, k)].1)
    } else {
        None
    }
}

/// The entries after storing `v` under `k`: an entry with that key keeps its
/// place and takes the new value, otherwise the pair goes to the end.
pub open spec fn put<K, V>(s: Seq<(K, V)>, k: K, v: V) -> Seq<(K, V)> {
    if has_key(s, k) {
        s.update(index_of(s, k), (k, v))
    } else {
        s.push((k, v))
    }
}

/// The entries after removing `k` by swapping its entry with the last one.
pub open spec fn take<K, V>(s: Seq<(K, V)>, k: K) -> Seq<(K, V)> {
    if has_key(s, k) {
        s.update(index_of(s, k), s.last()).drop_last()
    } else {
        s
    }
}

/// The keys, in iteration order.
pub open spec fn keys_of<K, V>(s: Seq<(K, V)>) -> Seq<K> {
    Seq::new(s.len(), |i: int| s[i].0)
}

/// The entries as a finite map.
pub open spec fn as_map<K, V>(s: Seq<(K, V)>) -> Map<K, V> {
    Map::new(|k: K| has_key(s, k), |k: K| s[index_of(s, k)].1)
}

/// Where no key occurs twice, an entry is found under its key, at its place.
pub proof fn lemma_entry<K, V>(s: Seq<(K, V)>, i: int)
    requires
        distinct_keys(s),
        0 <= i < s.len(),
    ensures
        has_key(s, s[i].0),
        index_of(s, s[i].0) == i,
        value_of(s, s[i].0) == Some(s[i].1),
        as_map(s).contains_key(s[i].0),
        as_map(s)[s[i].0] == s[i].1,
{
    let j = index_of(s, s[i].0);
    assert(0 <= j < s.len() && s[j].0 == s[i].0);
    if j < i {
        assert(s[j].0 != s[i].0);
    } else if i < j {
        assert(s[i].0 != s[j].0);
    }
}

/// A key that some entry has is found at the place of such an entry.
pub proof fn lemma_key<K, V>(s: Seq<(K, V)>, k: K)
    requires
        has_key(s, k),
    ensures
        0 <= index_of(s, k) < s.len(),
        s[index_of(s, k)].0 == k,
        as_map(s).contains_key(k),
        as_map(s)[k] == s[index_of(s, k)].1,
{
}

/// Without entries there is no key twice, and the map is empty.
pub proof fn lemma_empty<K, V>()
    ensures
        distinct_keys(Seq::<(K, V)>::empty()),
        as_map(Seq::<(K, V)>::empty()) =~= Map::<K, V>::empty(),
{
}

/// Storing a value under a key stores it in the map, and repeats no key.
pub proof fn lemma_put<K, V>(s: Seq<(K, V)>, k: K, v: V)
    requires
        distinct_keys(s),
    ensures
        distinct_keys(put(s, k, v)),
        as_map(put(s, k, v)) =~= as_map(s).insert(k, v),
        put(s, k, v).len() == if has_key(s, k) { s.len() } else { s.len() + 1 },
{
    let t = put(s, k, v);
    if has_key(s, k) {
        assert forall|i: int, j: int| 0 <= i < j < t.len() implies (#[trigger] t[i]).0 != (
        #[trigger] t[j]).0 by {
            assert(s[i].0 != s[j].0);
        }
        assert forall|x: K| has_key(t, x) <==> has_key(s, x) by {
            if has_key(t, x) {
                let i = index_of(t, x);
                assert(s[i].0 == x);
            }
            if has_key(s, x) {
                let i = index_of(s, x);
                assert(t[i].0 == x);
            }
        }
        assert forall|x: K| has_key(t, x) implies #[trigger] as_map(t)[x] == as_map(s).insert(
            k,
            v,
        )[x] by {
            let i = index_of(t, x);
            lemma_entry(t, i);
            lemma_entry(s, i);
        }
    } else {
        assert forall|i: int, j: int| 0 <= i < j < t.len() implies (#[trigger] t[i]).0 != (
        #[trigger] t[j]).0 by {
            if j < s.len() {
                assert(s[i].0 != s[j].0);
            } else {
                assert(s[i].0 != k);
            }
        }
        assert(t[s.len() as int].0 == k);
        assert forall|x: K| has_key(t, x) <==> (x == k || has_key(s, x)) by {
            if has_key(t, x) {
                let i = index_of(t, x);
                if i < s.len() {
                    assert(s[i].0 == x);
                }
            }
            if has_key(s, x) {
                let i = index_of(s, x);
                assert(t[i].0 == x);
            }
        }
        assert forall|x: K| has_key(t, x) implies #[trigger] as_map(t)[x] == as_map(s).insert(
            k,
            v,
        )[x] by {
            let i = index_of(t, x);
            lemma_entry(t, i);
            if i < s.len() {
                lemma_entry(s, i);
            }
        }
    }
}

/// Removing a key removes it from the map, and repeats no key.
pub proof fn lemma_take<K, V>(s: Seq<(K, V)>, k: K)
    requires
        distinct_keys(s),
    ensures
        distinct_keys(take(s, k)),
        as_map(take(s, k)) =~= as_map(s).remove(k),
        take(s, k).len() == if has_key(s, k) { s.len() - 1 } else { s.len() as int },
{
    let t = take(s, k);
    if has_key(s, k) {
        let i0 = index_of(s, k);
        let n = s.len() - 1;
        assert forall|i: int| 0 <= i < t.len() implies (#[trigger] t[i]) == (if i == i0 {
            s[n]
        } else {
            s[i]
        }) by {}
        assert forall|i: int, j: int| 0 <= i < j < t.len() implies (#[trigger] t[i]).0 != (
        #[trigger] t[j]).0 by {
            let a = if i == i0 { n } else { i };
            let b = if j == i0 { n } else { j };
            if a < b {
                assert(s[a].0 != s[b].0);
            } else {
                assert(s[b].0 != s[a].0);
            }
        }
        assert forall|x: K| has_key(t, x) <==> (x != k && has_key(s, x)) by {
            if has_key(t, x) {
                let i = index_of(t, x);
                let a = if i == i0 { n } else { i };
                assert(s[a].0 == x);
                lemma_entry(s, a);
                lemma_entry(s, i0);
            }
            if x != k && has_key(s, x) {
                let a = index_of(s, x);
                let i = if a == n { i0 } else { a };
                assert(t[i].0 == x);
            }
        }
        assert forall|x: K| has_key(t, x) implies #[trigger] as_map(t)[x] == as_map(s).remove(
            k,
        )[x] by {
            let i = index_of(t, x);
            lemma_entry(t, i);
            let a = if i == i0 { n } else { i };
            lemma_entry(s, a);
        }
    }
}

/// `OrderedHashMap`: a hash map that is walked in the order in which its
/// keys were put in. What is inside is not looked at.
#[verifier::external_type_specification]
#[verifier::external_body]
#[verifier::reject_recursive_types(Key)]
#[verifier::reject_recursive_types(Value)]
#[verifier::reject_recursive_types(BH)]
pub struct ExOrderedHashMap<Key, Value, BH>(OrderedHashMap<Key, Value, BH>);

/// Map from a variable to a variable.
pub type VarMap = OrderedHashMap<usize, usize, RandomState>;

/// Map from a class representative to what is known of its class.
pub type ClassMap = OrderedHashMap<usize, ClassInfo, RandomState>;

/// The entries of a variable map, in iteration order.
pub uninterp spec fn var_entries(m: OrderedHashMap<usize, usize, RandomState>) -> Seq<
    (usize, usize),
>;

/// The entries of a class map, in iteration order.
pub uninterp spec fn class_entries(m: OrderedHashMap<usize, ClassInfo, RandomState>) -> Seq<
    (usize, ClassInfo),
>;

/// `OrderedHashMap::default`: a map without entries.
#[verifier::external_body]
pub(crate) fn var_map_new() -> (m: OrderedHashMap<usize, usize, RandomState>)
    ensures
        var_entries(m) == Seq::<(usize, usize)>::empty(),
{
    OrderedHashMap::default()
}

/// `IndexMap::get`, reached through the map's `Deref`: the value stored
/// under `k`, if the key is present.
#[verifier::external_body]
pub(crate) fn var_map_get(m: &OrderedHashMap<usize, usize, RandomState>, k: usize) -> (r: Option<
    usize,
>)
    ensures
        r == value_of(var_entries(*m), k),
{
    m.get(&k).copied()
}

/// `IndexMap::insert`: a present key keeps its place in the order and takes
/// the new value; an absent key is added last.
#[verifier::external_body]
pub(crate) fn var_map_insert(m: &mut OrderedHashMap<usize, usize, RandomState>, k: usize, v: usize)
    ensures
        var_entries(*final(m)) == put(var_entries(*old(m)), k, v),
{
    m.insert(k, v);
}

/// `IndexMap::keys`: the keys in iteration order.
#[verifier::external_body]
pub(crate) fn var_map_keys(m: &OrderedHashMap<usize, usize, RandomState>) -> (r: Vec<usize>)
    ensures
        r@ == keys_of(var_entries(*m)),
{
    m.keys().copied().collect()
}

/// `Clone::clone` of the map: the same entries in the same order.
#[verifier::external_body]
pub(crate) fn var_map_clone(m: &OrderedHashMap<usize, usize, RandomState>) -> (r: OrderedHashMap<
    usize,
    usize,
    RandomState,
>)
    ensures
        var_entries(r) == var_entries(*m),
{
    m.clone()
}

/// `OrderedHashMap::default`: a map without entries.
#[verifier::external_body]
pub(crate) fn class_map_new() -> (m: OrderedHashMap<usize, ClassInfo, RandomState>)
    ensures
        class_entries(m) == Seq::<(usize, ClassInfo)>::empty(),
{
    OrderedHashMap::default()
}

/// `IndexMap::get`, reached through the map's `Deref`: the value stored
/// under `k`, if the key is present.
#[verifier::external_body]
pub(crate) fn class_map_get(m: &OrderedHashMap<usize, ClassInfo, RandomState>, k: usize) -> (r:
    Option<ClassInfo>)
    ensures
        r == value_of(class_entries(*m), k),
{
    m.get(&k).copied()
}

/// `IndexMap::insert`: a present key keeps its place in the order and takes
/// the new value; an absent key is added last.
#[verifier::external_body]
pub(crate) fn class_map_insert(
    m: &mut OrderedHashMap<usize, ClassInfo, RandomState>,
    k: usize,
    v: ClassInfo,
)
    ensures
        class_entries(*final(m)) == put(class_entries(*old(m)), k, v),
{
    m.insert(k, v);
}

/// `IndexMap::swap_remove`: the value that was stored under `k`, if any; its
/// entry is replaced by the last one, which is popped off.
#[verifier::external_body]
pub(crate) fn class_map_swap_remove(
    m: &mut OrderedHashMap<usize, ClassInfo, RandomState>,
    k: usize,
) -> (r: Option<ClassInfo>)
    ensures
        r == value_of(class_entries(*old(m)), k),
        class_entries(*final(m)) == take(class_entries(*old(m)), k),
{
    m.swap_remove(&k)
}

/// `IndexMap::iter`: the entries in iteration order.
#[verifier::external_body]
pub(crate) fn class_map_entries(m: &OrderedHashMap<usize, ClassInfo, RandomState>) -> (r: Vec<
    (usize, ClassInfo),
>)
    ensures
        r@ == class_entries(*m),
{
    m.iter().map(|(k, v)| (*k, *v)).collect()
}

/// `Clone::clone` of the map: the same entries in the same order.
#[verifier::external_body]
pub(crate) fn class_map_clone(m: &OrderedHashMap<usize, ClassInfo, RandomState>) -> (r:
    OrderedHashMap<usize, ClassInfo, RandomState>)
    ensures
        class_entries(r) == class_entries(*m),
{
    m.clone()
}

/// Map from a pair of representatives to the variables that have them.
pub type GroupMap = OrderedHashMap<(usize, usize), Vec<usize>, RandomState>;

/// Map from a representative to pairs of variables.
pub type PairListMap = OrderedHashMap<usize, Vec<(usize, usize)>, RandomState>;

/// The entries of a group map, in iteration order.
pub uninterp spec fn group_entries(
    m: OrderedHashMap<(usize, usize), Vec<usize>, RandomState>,
) -> Seq<((usize, usize), Seq<usize>)>;

/// The entries of a pair-list map, in iteration order.
pub uninterp spec fn pair_list_entries(
    m: OrderedHashMap<usize, Vec<(usize, usize)>, RandomState>,
) -> Seq<(usize, Seq<(usize, usize)>)>;

/// The entries after adding `x` to the list stored under `k`: the list of a
/// present key grows by `x`; an absent key goes to the end with the list of `x` alone.
pub open spec fn append_at<K, T>(s: Seq<(K, Seq<T>)>, k: K, x: T) -> Seq<(K, Seq<T>)> {
    if has_key(s, k) {
        s.update(index_of(s, k), (k, s[index_of(s, k)].1.push(x)))
    } else {
        s.push((k, seq![x]))
    }
}

/// The entries that a vector of keys and vectors holds.
pub open spec fn listed<K, T>(v: Seq<(K, Vec<T>)>) -> Seq<(K, Seq<T>)> {
    Seq::new(v.len(), |i: int| (v[i].0, v[i].1@))
}

/// Adding to the list under a key repeats no key, keeps the other entries
/// and their places, and makes the key present.
pub proof fn lemma_append_at<K, T>(s: Seq<(K, Seq<T>)>, k: K, x: T)
    requires
        distinct_keys(s),
    ensures
        distinct_keys(append_at(s, k, x)),
        has_key(append_at(s, k, x), k),
        forall|j: K| has_key(append_at(s, k, x), j) <==> (j == k || has_key(s, j)),
        append_at(s, k, x).len() >= s.len(),
        forall|i: int| 0 <= i < s.len() ==> (#[trigger] append_at(s, k, x)[i]).0 == s[i].0,
        forall|i: int|
            0 <= i < s.len() && s[i].0 != k ==> #[trigger] append_at(s, k, x)[i] == s[i],
        forall|i: int|
            0 <= i < s.len() && s[i].0 == k ==> (#[trigger] append_at(s, k, x)[i]).1 == s[i].1.push(
                x,
            ),
        !has_key(s, k) ==> append_at(s, k, x) == s.push((k, seq![x])),
        has_key(s, k) ==> append_at(s, k, x).len() == s.len(),
{
    let t = append_at(s, k, x);
    if has_key(s, k) {
        let i0 = index_of(s, k);
        lemma_entry(s, i0);
        assert forall|i: int, j: int| 0 <= i < j < t.len() implies (#[trigger] t[i]).0 != (
        #[trigger] t[j]).0 by {
            assert(s[i].0 != s[j].0);
        }
        assert(t[i0].0 == k);
        assert forall|j: K| has_key(t, j) <==> (j == k || has_key(s, j)) by {
            if has_key(t, j) {
                let i = index_of(t, j);
                assert(s[i].0 == j);
            }
            if has_key(s, j) {
                let i = index_of(s, j);
                assert(t[i].0 == j);
            }
        }
        assert forall|i: int| 0 <= i < s.len() && s[i].0 == k implies (#[trigger] t[i]).1
            == s[i].1.push(x) by {
            lemma_entry(s, i);
        }
        assert forall|i: int| 0 <= i < s.len() && s[i].0 != k implies #[trigger] t[i] == s[i] by {}
    } else {
        assert forall|i: int, j: int| 0 <= i < j < t.len() implies (#[trigger] t[i]).0 != (
        #[trigger] t[j]).0 by {
            if j < s.len() {
                assert(s[i].0 != s[j].0);
            } else {
                assert(s[i].0 != k);
            }
        }
        assert(t[s.len() as int].0 == k);
        assert forall|j: K| has_key(t, j) <==> (j == k || has_key(s, j)) by {
            if has_key(t, j) {
                let i = index_of(t, j);
                if i < s.len() {
                    assert(s[i].0 == j);
                }
            }
            if has_key(s, j) {
                let i = index_of(s, j);
                assert(t[i].0 == j);
            }
        }
        assert forall|i: int| 0 <= i < s.len() && s[i].0 == k implies (#[trigger] t[i]).1
            == s[i].1.push(x) by {
            assert(s[i].0 == k);
        }
    }
}

/// `OrderedHashMap::default`: a map without entries.
#[verifier::external_body]
pub(crate) fn group_map_new() -> (m: OrderedHashMap<(usize, usize), Vec<usize>, RandomState>)
    ensures
        group_entries(m) == Seq::<((usize, usize), Seq<usize>)>::empty(),
{
    OrderedHashMap::default()
}

/// The list stored under `k`; the empty list where the key is absent.
pub open spec fn list_at<K, T>(s: Seq<(K, Seq<T>)>, k: K) -> Seq<T> {
    if has_key(s, k) {
        s[index_of(s, k)].1
    } else {
        Seq::empty()
    }
}

/// The entries after the list stored under `k` has become `list`: the
/// entry of a present key keeps its place; an absent key goes to the end.
pub open spec fn with_list<K, T>(s: Seq<(K, Seq<T>)>, k: K, list: Seq<T>) -> Seq<(K, Seq<T>)> {
    if has_key(s, k) {
        s.update(index_of(s, k), (k, list))
    } else {
        s.push((k, list))
    }
}

/// `IndexMap::entry` followed by `Entry::or_default`: the list of a
/// present key, in its place; for an absent key a new, empty list that is
/// added last. What the caller does to the list is done to the map.
#[verifier::external_body]
pub(crate) fn group_map_list(
    m: &mut OrderedHashMap<(usize, usize), Vec<usize>, RandomState>,
    key: (usize, usize),
) -> (list: &mut Vec<usize>)
    ensures
        list@ == list_at(group_entries(*old(m)), key),
        group_entries(*final(m)) == with_list(group_entries(*old(m)), key, final(list)@),
{
    m.entry(key).or_default()
}

/// Adds `var` to the list stored under `key`.
pub(crate) fn group_map_push(
    m: &mut OrderedHashMap<(usize, usize), Vec<usize>, RandomState>,
    key: (usize, usize),
    var: usize,
)
    ensures
        group_entries(*final(m)) == append_at(group_entries(*old(m)), key, var),
{
    let list = group_map_list(m, key);
    list.push(var);
    proof {
        let s = group_entries(*old(m));
        assert(with_list(s, key, list_at(s, key).push(var)) =~= append_at(s, key, var));
    }
}

/// `IndexMap::iter`: the entries in iteration order.
#[verifier::external_body]
pub(crate) fn group_map_entries(
    m: &OrderedHashMap<(usize, usize), Vec<usize>, RandomState>,
) -> (r: Vec<((usize, usize), Vec<usize>)>)
    ensures
        listed(r@) == group_entries(*m),
{
    m.iter().map(|(k, v)| (*k, v.clone())).collect()
}

/// `OrderedHashMap::default`: a map without entries.
#[verifier::external_body]
pub(crate) fn pair_list_map_new() -> (m: OrderedHashMap<usize, Vec<(usize, usize)>, RandomState>)
    ensures
        pair_list_entries(m) == Seq::<(usize, Seq<(usize, usize)>)>::empty(),
{
    OrderedHashMap::default()
}

/// `IndexMap::entry` followed by `Entry::or_default`: the list of a
/// present key, in its place; for an absent key a new, empty list that is
/// added last. What the caller does to the list is done to the map.
#[verifier::external_body]
pub(crate) fn pair_list_map_list(
    m: &mut OrderedHashMap<usize, Vec<(usize, usize)>, RandomState>,
    key: usize,
) -> (list: &mut Vec<(usize, usize)>)
    ensures
        list@ == list_at(pair_list_entries(*old(m)), key),
        pair_list_entries(*final(m)) == with_list(
            pair_list_entries(*old(m)),
            key,
            final(list)@,
        ),
{
    m.entry(key).or_default()
}

/// Adds `pair` to the list stored under `key`.
pub(crate) fn pair_list_map_push(
    m: &mut OrderedHashMap<usize, Vec<(usize, usize)>, RandomState>,
    key: usize,
    pair: (usize, usize),
)
    ensures
        pair_list_entries(*final(m)) == append_at(pair_list_entries(*old(m)), key, pair),
{
    let list = pair_list_map_list(m, key);
    list.push(pair);
    proof {
        let s = pair_list_entries(*old(m));
        assert(with_list(s, key, list_at(s, key).push(pair)) =~= append_at(s, key, pair));
    }
}

/// `IndexMap::get`, reached through the map's `Deref`: the list stored
/// under `k`, if the key is present.
#[verifier::external_body]
pub(crate) fn pair_list_map_get(
    m: &OrderedHashMap<usize, Vec<(usize, usize)>, RandomState>,
    k: usize,
) -> (r: Option<Vec<(usize, usize)>>)
    ensures
        r is Some == has_key(pair_list_entries(*m), k),
        r is Some ==> r.unwrap()@ == pair_list_entries(*m)[index_of(pair_list_entries(*m), k)].1,
{
    m.get(&k).cloned()
}

} // verus!
