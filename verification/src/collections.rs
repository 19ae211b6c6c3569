//! The insertion-ordered maps and sets of `indexmap` the plan is kept in, and
//! what their methods do to the entries they hold, in order.
use std::ops::Range;

use indexmap::{IndexMap, IndexSet};
use vstd::prelude::*;

use crate::issue::{Issue, IssueSet};

verus! {

#[verifier::external_type_specification]
#[verifier::external_body]
#[verifier::reject_recursive_types(K)]
#[verifier::reject_recursive_types(V)]
#[verifier::reject_recursive_types(S)]
pub struct ExIndexMap<K, V, S>(IndexMap<K, V, S>);

#[verifier::external_type_specification]
#[verifier::external_body]
#[verifier::reject_recursive_types(T)]
#[verifier::reject_recursive_types(S)]
pub struct ExIndexSet<T, S>(IndexSet<T, S>);

/// Index of the first entry whose key is `k`.
pub open spec fn key_index<K, V>(entries: Seq<(K, V)>, k: K) -> Option<int>
    decreases entries.len(),
{
    if entries.len() == 0 {
        None
    } else if entries.last().0 == k && key_index(entries.drop_last(), k) is None {
        Some(entries.len() - 1)
    } else {
        key_index(entries.drop_last(), k)
    }
}

/// `IndexMap::insert`: a key already present keeps its place and takes the new
/// value; a new key goes last.
pub open spec fn entries_insert<K, V>(entries: Seq<(K, V)>, k: K, v: V) -> Seq<(K, V)> {
    match key_index(entries, k) {
        Some(i) => entries.update(i, (entries[i].0, v)),
        None => entries.push((k, v)),
    }
}

/// `IndexMap::extend`: the entries of `others` inserted one by one, in order.
pub open spec fn entries_insert_all<K, V>(entries: Seq<(K, V)>, others: Seq<(K, V)>) -> Seq<(K, V)>
    decreases others.len(),
{
    if others.len() == 0 {
        entries
    } else {
        entries_insert_all(entries_insert(entries, others[0].0, others[0].1), others.drop_first())
    }
}

/// `IndexSet::insert`: a new item goes last, a present one changes nothing.
pub open spec fn items_insert<T>(items: Seq<T>, x: T) -> Seq<T> {
    if items.contains(x) {
        items
    } else {
        items.push(x)
    }
}

pub proof fn lemma_key_index_bounds<K, V>(entries: Seq<(K, V)>, k: K)
    ensures
        key_index(entries, k) matches Some(i) ==> 0 <= i < entries.len() && entries[i].0 == k,
        key_index(entries, k) is None ==> forall|j: int|
            0 <= j < entries.len() ==> #[trigger] entries[j].0 != k,
    decreases entries.len(),
{
    if entries.len() > 0 {
        lemma_key_index_bounds(entries.drop_last(), k);
        if key_index(entries, k) is None {
            assert forall|j: int| 0 <= j < entries.len() implies #[trigger] entries[j].0 != k by {
                if j < entries.len() - 1 {
                    assert(entries.drop_last()[j] == entries[j]);
                }
            }
        }
    }
}

/// The entries with every value mapped by `f`, keys and order kept.
pub open spec fn map_entries<K, V, W>(entries: Seq<(K, V)>, f: spec_fn(V) -> W) -> Seq<(K, W)> {
    Seq::new(entries.len(), |i: int| (entries[i].0, f(entries[i].1)))
}

pub proof fn lemma_key_index_map<K, V, W>(entries: Seq<(K, V)>, f: spec_fn(V) -> W, k: K)
    ensures
        key_index(map_entries(entries, f), k) == key_index(entries, k),
    decreases entries.len(),
{
    if entries.len() > 0 {
        assert(map_entries(entries, f).drop_last() =~= map_entries(entries.drop_last(), f));
        lemma_key_index_map(entries.drop_last(), f, k);
    }
}

pub proof fn lemma_insert_map<K, V, W>(entries: Seq<(K, V)>, f: spec_fn(V) -> W, k: K, v: V)
    ensures
        map_entries(entries_insert(entries, k, v), f) == entries_insert(map_entries(entries, f), k, f(v)),
{
    lemma_key_index_map(entries, f, k);
    lemma_key_index_bounds(entries, k);
    assert(map_entries(entries_insert(entries, k, v), f) =~= entries_insert(map_entries(entries, f), k, f(v)));
}

pub proof fn lemma_insert_all_map<K, V, W>(entries: Seq<(K, V)>, others: Seq<(K, V)>, f: spec_fn(V) -> W)
    ensures
        map_entries(entries_insert_all(entries, others), f) == entries_insert_all(
            map_entries(entries, f),
            map_entries(others, f),
        ),
    decreases others.len(),
{
    if others.len() > 0 {
        lemma_insert_map(entries, f, others[0].0, others[0].1);
        assert(map_entries(others, f).drop_first() =~= map_entries(others.drop_first(), f));
        lemma_insert_all_map(entries_insert(entries, others[0].0, others[0].1), others.drop_first(), f);
    }
}

/// After an insert, the key is found and holds the inserted value.
pub proof fn lemma_insert_then_find<K, V>(entries: Seq<(K, V)>, k: K, v: V)
    ensures
        key_index(entries_insert(entries, k, v), k) matches Some(i) && entries_insert(entries, k, v)[i].1 == v,
        key_index(entries, k) is None ==> key_index(entries_insert(entries, k, v), k) == Some(entries.len() as int),
        key_index(entries, k) matches Some(i) ==> key_index(entries_insert(entries, k, v), k) == Some(i),
{
    lemma_key_index_bounds(entries, k);
    let e2 = entries_insert(entries, k, v);
    match key_index(entries, k) {
        Some(i) => {
            lemma_key_index_same_keys(entries, e2, k);
        },
        None => {
            assert(e2.drop_last() =~= entries);
        },
    }
}

/// An insert leaves every other key where it was, with its value.
pub proof fn lemma_insert_keeps_others<K, V>(entries: Seq<(K, V)>, k: K, v: V, other: K)
    requires
        other != k,
    ensures
        key_index(entries_insert(entries, k, v), other) == key_index(entries, other),
        key_index(entries, other) matches Some(i) ==> entries_insert(entries, k, v)[i] == entries[i],
{
    lemma_key_index_bounds(entries, k);
    lemma_key_index_bounds(entries, other);
    let e2 = entries_insert(entries, k, v);
    match key_index(entries, k) {
        Some(i) => {
            lemma_key_index_same_keys(entries, e2, other);
        },
        None => {
            assert(e2.drop_last() =~= entries);
        },
    }
}

/// Inserting an item twice is inserting it once.
pub proof fn lemma_items_insert_twice<T>(items: Seq<T>, x: T)
    ensures
        items_insert(items_insert(items, x), x) == items_insert(items, x),
{
    if !items.contains(x) {
        assert(items.push(x)[items.len() as int] == x);
    }
}

/// Two entry sequences with the same keys position by position find a key at
/// the same index.
pub proof fn lemma_key_index_same_keys<K, V>(a: Seq<(K, V)>, b: Seq<(K, V)>, k: K)
    requires
        a.len() == b.len(),
        forall|j: int| 0 <= j < a.len() ==> #[trigger] a[j].0 == b[j].0,
    ensures
        key_index(a, k) == key_index(b, k),
    decreases a.len(),
{
    if a.len() > 0 {
        lemma_key_index_same_keys(a.drop_last(), b.drop_last(), k);
    }
}

// ---- IndexSet<u64>: the subissues of an issue, the issues of a set ----

/// The ids an `IndexSet<u64>` holds, in insertion order.
pub uninterp spec fn id_set_items(set: IndexSet<u64>) -> Seq<u64>;

/// Calls `IndexSet::new`: an empty set.
#[verifier::external_body]
pub(crate) fn id_set_new() -> (set: IndexSet<u64>)
    ensures
        id_set_items(set) == Seq::<u64>::empty(),
{
    IndexSet::new()
}

/// Calls `IndexSet::insert`: a new id goes last, a present one changes nothing.
#[verifier::external_body]
pub(crate) fn id_set_insert(set: &mut IndexSet<u64>, id: u64)
    ensures
        id_set_items(*final(set)) == items_insert(id_set_items(*old(set)), id),
{
    set.insert(id);
}

/// Calls `IndexSet::contains`.
#[verifier::external_body]
pub(crate) fn id_set_contains(set: &IndexSet<u64>, id: u64) -> (found: bool)
    ensures
        found == id_set_items(*set).contains(id),
{
    set.contains(&id)
}

/// Calls `IndexSet::clone`: the same ids in the same order.
#[verifier::external_body]
pub(crate) fn id_set_clone(set: &IndexSet<u64>) -> (copy: IndexSet<u64>)
    ensures
        id_set_items(copy) == id_set_items(*set),
{
    set.clone()
}

// ---- IndexSet<String>: set names in order of first appearance ----

/// The strings an `IndexSet<String>` holds, in insertion order.
pub uninterp spec fn name_set_items(set: IndexSet<String>) -> Seq<Seq<char>>;

/// Calls `IndexSet::new`: an empty set.
#[verifier::external_body]
pub(crate) fn name_set_new() -> (set: IndexSet<String>)
    ensures
        name_set_items(set) == Seq::<Seq<char>>::empty(),
{
    IndexSet::new()
}

/// Calls `IndexSet::insert`: a new string goes last, a present one changes
/// nothing (strings are equal when their characters are).
#[verifier::external_body]
pub(crate) fn name_set_insert(set: &mut IndexSet<String>, name: String)
    ensures
        name_set_items(*final(set)) == items_insert(name_set_items(*old(set)), name@),
{
    set.insert(name);
}

/// Calls `IndexSet::len`.
#[verifier::external_body]
pub(crate) fn name_set_len(set: &IndexSet<String>) -> (n: usize)
    ensures
        n == name_set_items(*set).len(),
{
    set.len()
}

/// Calls `IndexSet::get_index`: the string at position `i`.
#[verifier::external_body]
pub(crate) fn name_set_get(set: &IndexSet<String>, i: usize) -> (name: &String)
    requires
        i < name_set_items(*set).len(),
    ensures
        name@ == name_set_items(*set)[i as int],
{
    set.get_index(i).unwrap()
}

// ---- IndexMap<u64, Issue>: the issues of a plan ----

/// The `(id, issue)` entries of an `IndexMap<u64, Issue>`, in insertion order.
pub uninterp spec fn issue_map_entries(map: IndexMap<u64, Issue>) -> Seq<(u64, Issue)>;

/// Calls `IndexMap::new`: an empty map.
#[verifier::external_body]
pub(crate) fn issue_map_new() -> (map: IndexMap<u64, Issue>)
    ensures
        issue_map_entries(map) == Seq::<(u64, Issue)>::empty(),
{
    IndexMap::new()
}

/// Calls `IndexMap::len`.
#[verifier::external_body]
pub(crate) fn issue_map_len(map: &IndexMap<u64, Issue>) -> (n: usize)
    ensures
        n == issue_map_entries(*map).len(),
{
    map.len()
}

/// Calls `IndexMap::insert`: a present id keeps its place and takes the new
/// issue, a new one goes last.
#[verifier::external_body]
pub(crate) fn issue_map_insert(map: &mut IndexMap<u64, Issue>, id: u64, issue: Issue)
    ensures
        issue_map_entries(*final(map)) == entries_insert(issue_map_entries(*old(map)), id, issue),
{
    map.insert(id, issue);
}

/// Calls `IndexMap::get`: the issue stored under `id`.
#[verifier::external_body]
pub(crate) fn issue_map_get<'a>(map: &'a IndexMap<u64, Issue>, id: u64) -> (found: Option<&'a Issue>)
    ensures
        match key_index(issue_map_entries(*map), id) {
            Some(i) => found == Some(&issue_map_entries(*map)[i].1),
            None => found is None,
        },
{
    map.get(&id)
}

/// Calls `IndexMap::get_index`: the issue at position `i`.
#[verifier::external_body]
pub(crate) fn issue_map_get_index<'a>(map: &'a IndexMap<u64, Issue>, i: usize) -> (issue: &'a Issue)
    requires
        i < issue_map_entries(*map).len(),
    ensures
        *issue == issue_map_entries(*map)[i as int].1,
{
    map.get_index(i).unwrap().1
}

/// Calls `IndexMap::extend`: the entries of `other` inserted one by one, in
/// their order.
#[verifier::external_body]
pub(crate) fn issue_map_extend(map: &mut IndexMap<u64, Issue>, other: IndexMap<u64, Issue>)
    ensures
        issue_map_entries(*final(map)) == entries_insert_all(
            issue_map_entries(*old(map)),
            issue_map_entries(other),
        ),
{
    map.extend(other);
}

// ---- IndexMap<String, IssueSet>: the sets of a plan, by name ----

/// The `(name, set)` entries of an `IndexMap<String, IssueSet>`, in insertion
/// order, each name taken by its characters.
pub uninterp spec fn set_map_entries(map: IndexMap<String, IssueSet>) -> Seq<(Seq<char>, IssueSet)>;

/// Calls `IndexMap::new`: an empty map.
#[verifier::external_body]
pub(crate) fn set_map_new() -> (map: IndexMap<String, IssueSet>)
    ensures
        set_map_entries(map) == Seq::<(Seq<char>, IssueSet)>::empty(),
{
    IndexMap::new()
}

/// Calls `IndexMap::len`.
#[verifier::external_body]
pub(crate) fn set_map_len(map: &IndexMap<String, IssueSet>) -> (n: usize)
    ensures
        n == set_map_entries(*map).len(),
{
    map.len()
}

/// Calls `IndexMap::insert`: a present name keeps its place and takes the new
/// set, a new one goes last.
#[verifier::external_body]
pub(crate) fn set_map_insert(map: &mut IndexMap<String, IssueSet>, name: String, set: IssueSet)
    ensures
        set_map_entries(*final(map)) == entries_insert(set_map_entries(*old(map)), name@, set),
{
    map.insert(name, set);
}

/// Calls `IndexMap::get`: the set stored under `name`.
#[verifier::external_body]
pub(crate) fn set_map_get<'a>(map: &'a IndexMap<String, IssueSet>, name: &str) -> (found: Option<&'a IssueSet>)
    ensures
        match key_index(set_map_entries(*map), name@) {
            Some(i) => found == Some(&set_map_entries(*map)[i].1),
            None => found is None,
        },
{
    map.get(name)
}

/// Calls `IndexMap::get_index`: the set at position `i`.
#[verifier::external_body]
pub(crate) fn set_map_get_index<'a>(map: &'a IndexMap<String, IssueSet>, i: usize) -> (set: &'a IssueSet)
    requires
        i < set_map_entries(*map).len(),
    ensures
        *set == set_map_entries(*map)[i as int].1,
{
    map.get_index(i).unwrap().1
}

/// Calls `IndexMap::extend`: the entries of `other` inserted one by one, in
/// their order.
#[verifier::external_body]
pub(crate) fn set_map_extend(map: &mut IndexMap<String, IssueSet>, other: IndexMap<String, IssueSet>)
    ensures
        set_map_entries(*final(map)) == entries_insert_all(
            set_map_entries(*old(map)),
            set_map_entries(other),
        ),
{
    map.extend(other);
}

// ---- IndexMap<u64, Range<usize>>: source spans by issue id ----

/// The `(id, span)` entries of an `IndexMap<u64, Range<usize>>`, in insertion
/// order.
pub uninterp spec fn span_map_entries(map: IndexMap<u64, Range<usize>>) -> Seq<(u64, Range<usize>)>;

/// Calls `IndexMap::new`: an empty map.
#[verifier::external_body]
pub(crate) fn span_map_new() -> (map: IndexMap<u64, Range<usize>>)
    ensures
        span_map_entries(map) == Seq::<(u64, Range<usize>)>::empty(),
{
    IndexMap::new()
}

/// Calls `IndexMap::insert`: a present id keeps its place and takes the new
/// span, a new one goes last.
#[verifier::external_body]
pub(crate) fn span_map_insert(map: &mut IndexMap<u64, Range<usize>>, id: u64, span: Range<usize>)
    ensures
        span_map_entries(*final(map)) == entries_insert(span_map_entries(*old(map)), id, span),
{
    map.insert(id, span);
}

/// Calls `IndexMap::get`: the span stored under `id`.
#[verifier::external_body]
pub(crate) fn span_map_get<'a>(map: &'a IndexMap<u64, Range<usize>>, id: u64) -> (found: Option<&'a Range<usize>>)
    ensures
        match key_index(span_map_entries(*map), id) {
            Some(i) => found == Some(&span_map_entries(*map)[i].1),
            None => found is None,
        },
{
    map.get(&id)
}

} // verus!
