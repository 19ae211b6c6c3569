//! What the plan built from the read items holds: each kept item is the issue
//! under its id, and its spans are filed under the same id.
use std::ops::Range;

use vstd::prelude::*;
use vstd::utf8::encode_utf8;

use crate::collections::{entries_insert, items_insert, key_index, lemma_insert_then_find};
use crate::assignment::{lemma_explicit_id_kept, lemma_generated_id_free, lemma_ids_distinct};
use crate::markdown::{commonmark_events, MdEventView};
use crate::nesting::lemma_read_events_nested;
use crate::parse::{
    assign_ids_spec, build_upto, child_ids, demoted_flags, insert_span, issue_of, parent_id_of, parse_spec,
    plan_of_events, range_of, GFM_OPTIONS,
};
use crate::reader::read_events;
use crate::reader::{raw_wf, RawView};
use crate::issue::IssueView;
use crate::text::{utf8_lossy, Span};

verus! {

/// No two items got the same id.
pub open spec fn distinct_ids(ids: Seq<Option<u64>>) -> bool {
    forall|i: int, j: int|
        0 <= i < j < ids.len() && #[trigger] ids[i] is Some && #[trigger] ids[j] is Some ==> ids[i] != ids[j]
}

/// Some item before `n` got `x`.
pub open spec fn taken_before(ids: Seq<Option<u64>>, n: int, x: u64) -> bool {
    exists|i: int| 0 <= i < n && #[trigger] ids[i] == Some(x)
}

/// The entry filed under `x` in `entries`.
pub open spec fn entry_of<V>(entries: Seq<(u64, V)>, x: u64) -> Option<V> {
    match key_index(entries, x) {
        Some(p) => Some(entries[p].1),
        None => None,
    }
}

/// The span of `sp`, as a range.
pub open spec fn opt_range(sp: Option<Span>) -> Option<Range<usize>> {
    match sp {
        Some(s) => Some(range_of(s)),
        None => None,
    }
}

/// Every span entry lies inside a source of `len` bytes.
pub open spec fn spans_within(entries: Seq<(u64, Range<usize>)>, len: int) -> bool {
    forall|p: int| 0 <= p < entries.len() ==> #[trigger] entries[p].1.start <= entries[p].1.end <= len
}

/// The keys of `entries` are ids taken before `n`.
spec fn keys_taken<V>(entries: Seq<(u64, V)>, ids: Seq<Option<u64>>, n: int) -> bool {
    forall|y: u64| #[trigger] key_index(entries, y) is Some ==> taken_before(ids, n, y)
}

proof fn lemma_insert_fresh<V>(s: Seq<(u64, V)>, x: u64, v: V, y: u64)
    requires
        key_index(s, x) is None,
        y != x,
    ensures
        entries_insert(s, x, v) == s.push((x, v)),
        key_index(s.push((x, v)), y) == key_index(s, y),
        key_index(s, y) matches Some(p) ==> s.push((x, v))[p] == s[p],
{
    assert(s.push((x, v)).drop_last() =~= s);
    crate::collections::lemma_key_index_bounds(s, y);
}

proof fn lemma_insert_span_fresh(s: Seq<(u64, Range<usize>)>, x: u64, sp: Option<Span>, y: u64)
    requires
        key_index(s, x) is None,
    ensures
        y != x ==> entry_of(insert_span(s, x, sp), y) == entry_of(s, y),
        entry_of(insert_span(s, x, sp), x) == opt_range(sp),
        key_index(insert_span(s, x, sp), y) is Some ==> key_index(s, y) is Some || y == x,
{
    match sp {
        Some(r) => {
            lemma_insert_then_find(s, x, range_of(r));
            if y != x {
                lemma_insert_fresh(s, x, range_of(r), y);
            }
        },
        None => {},
    }
}

proof fn lemma_entries_fresh<V>(s: Seq<(u64, V)>, x: u64, v: V, y: u64)
    requires
        key_index(s, x) is None,
    ensures
        y != x ==> entry_of(entries_insert(s, x, v), y) == entry_of(s, y),
        entry_of(entries_insert(s, x, v), x) == Some(v),
        key_index(entries_insert(s, x, v), y) is Some ==> key_index(s, y) is Some || y == x,
{
    lemma_insert_then_find(s, x, v);
    if y != x {
        lemma_insert_fresh(s, x, v, y);
    }
}

/// The plan of the first `n` items, their ids pairwise distinct: each item
/// that got an id `x` is the issue filed under `x`, its item span is filed
/// under `x`, and so are its name and description spans when it has them; no
/// other id is filed.
pub proof fn lemma_build_files_each_item(
    raws: Seq<RawView>,
    ids: Seq<Option<u64>>,
    names: Seq<Seq<char>>,
    src: Seq<u8>,
    n: int,
)
    requires
        0 <= n <= ids.len(),
        ids.len() == raws.len(),
        distinct_ids(ids),
    ensures
        forall|i: int| 0 <= i < n && #[trigger] ids[i] is Some ==> {
            let b = build_upto(raws, ids, names, src, n);
            let x = ids[i]->Some_0;
            &&& entry_of(b.plan.issues, x) == Some(issue_of(raws, ids, src, i, x))
            &&& entry_of(b.issue_spans, x) == Some(range_of(raws[i].item_range))
            &&& entry_of(b.name_spans, x) == opt_range(raws[i].name_span)
            &&& entry_of(b.content_spans, x) == opt_range(raws[i].content_span)
        },
        forall|y: u64| #[trigger] key_index(build_upto(raws, ids, names, src, n).plan.issues, y) is Some ==> taken_before(ids, n, y),
        forall|y: u64| #[trigger] key_index(build_upto(raws, ids, names, src, n).issue_spans, y) is Some ==> taken_before(ids, n, y),
        forall|y: u64| #[trigger] key_index(build_upto(raws, ids, names, src, n).name_spans, y) is Some ==> taken_before(ids, n, y),
        forall|y: u64| #[trigger] key_index(build_upto(raws, ids, names, src, n).content_spans, y) is Some ==> taken_before(ids, n, y),
    decreases n,
{
    if n > 0 {
        lemma_build_files_each_item(raws, ids, names, src, n - 1);
        let prev = build_upto(raws, ids, names, src, n - 1);
        let b = build_upto(raws, ids, names, src, n);
        let k = n - 1;
        match ids[k] {
            None => {
                assert forall|y: u64| taken_before(ids, n - 1, y) implies #[trigger] taken_before(ids, n, y) by {
                    let i = choose|i: int| 0 <= i < n - 1 && #[trigger] ids[i] == Some(y);
                }
            },
            Some(x) => {
                assert(!taken_before(ids, n - 1, x)) by {
                    if taken_before(ids, n - 1, x) {
                        let i = choose|i: int| 0 <= i < n - 1 && #[trigger] ids[i] == Some(x);
                        assert(ids[i] is Some && ids[k] is Some);
                    }
                }
                assert(key_index(prev.plan.issues, x) is None);
                assert(key_index(prev.issue_spans, x) is None);
                assert(key_index(prev.name_spans, x) is None);
                assert(key_index(prev.content_spans, x) is None);
                assert forall|i: int| 0 <= i < n && #[trigger] ids[i] is Some implies {
                    let z = ids[i]->Some_0;
                    &&& entry_of(b.plan.issues, z) == Some(issue_of(raws, ids, src, i, z))
                    &&& entry_of(b.issue_spans, z) == Some(range_of(raws[i].item_range))
                    &&& entry_of(b.name_spans, z) == opt_range(raws[i].name_span)
                    &&& entry_of(b.content_spans, z) == opt_range(raws[i].content_span)
                } by {
                    let z = ids[i]->Some_0;
                    lemma_entries_fresh(prev.plan.issues, x, issue_of(raws, ids, src, k, x), z);
                    lemma_entries_fresh(prev.issue_spans, x, range_of(raws[k].item_range), z);
                    lemma_insert_span_fresh(prev.name_spans, x, raws[k].name_span, z);
                    lemma_insert_span_fresh(prev.content_spans, x, raws[k].content_span, z);
                    if i < k {
                        assert(ids[i] is Some && ids[k] is Some);
                        assert(z != x);
                    }
                }
                assert forall|y: u64| taken_before(ids, n - 1, y) || y == x implies #[trigger] taken_before(ids, n, y) by {
                    if y == x {
                        assert(ids[k] == Some(y));
                    } else {
                        let i = choose|i: int| 0 <= i < n - 1 && #[trigger] ids[i] == Some(y);
                    }
                }
                assert forall|y: u64| #[trigger] key_index(b.plan.issues, y) is Some implies taken_before(ids, n, y) by {
                    lemma_entries_fresh(prev.plan.issues, x, issue_of(raws, ids, src, k, x), y);
                }
                assert forall|y: u64| #[trigger] key_index(b.issue_spans, y) is Some implies taken_before(ids, n, y) by {
                    lemma_entries_fresh(prev.issue_spans, x, range_of(raws[k].item_range), y);
                }
                assert forall|y: u64| #[trigger] key_index(b.name_spans, y) is Some implies taken_before(ids, n, y) by {
                    lemma_insert_span_fresh(prev.name_spans, x, raws[k].name_span, y);
                }
                assert forall|y: u64| #[trigger] key_index(b.content_spans, y) is Some implies taken_before(ids, n, y) by {
                    lemma_insert_span_fresh(prev.content_spans, x, raws[k].content_span, y);
                }
            },
        }
    }
}

proof fn lemma_insert_within(s: Seq<(u64, Range<usize>)>, x: u64, r: Range<usize>, len: int)
    requires
        spans_within(s, len),
        r.start <= r.end <= len,
    ensures
        spans_within(entries_insert(s, x, r), len),
{
    crate::collections::lemma_key_index_bounds(s, x);
}

/// With every item inside a source of `len` bytes, so is every span filed.
pub proof fn lemma_build_spans_within(
    raws: Seq<RawView>,
    ids: Seq<Option<u64>>,
    names: Seq<Seq<char>>,
    src: Seq<u8>,
    n: int,
    len: int,
)
    requires
        0 <= n <= raws.len(),
        forall|i: int| 0 <= i < raws.len() ==> raw_wf(#[trigger] raws[i], len, i, raws.len() as int),
    ensures
        spans_within(build_upto(raws, ids, names, src, n).issue_spans, len),
        spans_within(build_upto(raws, ids, names, src, n).name_spans, len),
        spans_within(build_upto(raws, ids, names, src, n).content_spans, len),
    decreases n,
{
    if n > 0 {
        lemma_build_spans_within(raws, ids, names, src, n - 1, len);
        let prev = build_upto(raws, ids, names, src, n - 1);
        let k = n - 1;
        assert(raw_wf(raws[k], len, k, raws.len() as int));
        match ids[k] {
            Some(x) => {
                lemma_insert_within(prev.issue_spans, x, range_of(raws[k].item_range), len);
                match raws[k].name_span {
                    Some(sp) => lemma_insert_within(prev.name_spans, x, range_of(sp), len),
                    None => {},
                }
                match raws[k].content_span {
                    Some(sp) => lemma_insert_within(prev.content_spans, x, range_of(sp), len),
                    None => {},
                }
            },
            None => {},
        }
    }
}

/// Each list item that the reader keeps is an issue of the parsed plan: it
/// gets an id, the one it spells out when it spells one out, and it is the
/// issue filed under that id, with its item, name and description spans filed
/// under the same id. Nothing else is filed.
pub proof fn lemma_parsed_plan_files_each_item(src: Seq<u8>, events: Seq<MdEventView>, start: u64)
    requires
        read_events(src, events).raw_items.len() <= usize::MAX,
    ensures
        plan_of_events(src, events, start) matches Ok(v) ==> {
            let raws = read_events(src, events).raw_items;
            let dropped = demoted_flags(raws);
            let ids = assign_ids_spec(raws, dropped, src, start)->Ok_0;
            &&& forall|k: int| 0 <= k < raws.len() && !dropped[k] ==> {
                &&& #[trigger] ids[k] is Some
                &&& raws[k].id_override is Some ==> ids[k] == raws[k].id_override
                &&& entry_of(v.plan.issues, ids[k]->Some_0) == Some(issue_of(raws, ids, src, k, ids[k]->Some_0))
                &&& entry_of(v.issue_spans, ids[k]->Some_0) == Some(range_of(raws[k].item_range))
                &&& entry_of(v.name_spans, ids[k]->Some_0) == opt_range(raws[k].name_span)
                &&& entry_of(v.content_spans, ids[k]->Some_0) == opt_range(raws[k].content_span)
            }
            &&& forall|y: u64| #[trigger] key_index(v.plan.issues, y) is Some ==> exists|k: int|
                0 <= k < raws.len() && !dropped[k] && #[trigger] ids[k] == Some(y)
        },
{
    let raws = read_events(src, events).raw_items;
    let dropped = demoted_flags(raws);
    lemma_ids_distinct(raws, dropped, src, start);
    match assign_ids_spec(raws, dropped, src, start) {
        Ok(ids) => {
            let names = read_events(src, events).sets.names;
            assert(distinct_ids(ids)) by {
                assert forall|i: int, j: int| 0 <= i < j < ids.len() && #[trigger] ids[i] is Some && #[trigger] ids[j] is Some implies ids[i] != ids[j] by {
                    assert(!dropped[i] && !dropped[j]);
                }
            }
            lemma_build_files_each_item(raws, ids, names, src, raws.len() as int);
            assert forall|k: int| 0 <= k < raws.len() && !dropped[k] && raws[k].id_override is Some implies #[trigger] ids[k]
                == raws[k].id_override by {
                lemma_explicit_id_kept(raws, dropped, src, start, k, raws[k].id_override->Some_0);
            }
            assert forall|y: u64| #[trigger] key_index(build_upto(raws, ids, names, src, raws.len() as int).plan.issues, y) is Some
                implies exists|k: int| 0 <= k < raws.len() && !dropped[k] && #[trigger] ids[k] == Some(y) by {
                let k = choose|k: int| 0 <= k < raws.len() && #[trigger] ids[k] == Some(y);
                assert(!dropped[k]);
            }
        },
        Err(_) => {},
    }
}

/// Item `k` (before `n`) is a child of item `p` and got `z`.
pub open spec fn child_with_id(raws: Seq<RawView>, ids: Seq<Option<u64>>, p: int, n: int, z: u64) -> bool {
    exists|k: int| 0 <= k < n && (raws[k].parent_idx matches Some(q) && q == p) && #[trigger] ids[k] == Some(z)
}

proof fn lemma_items_insert_contains(s: Seq<u64>, id: u64, z: u64)
    ensures
        items_insert(s, id).contains(z) <==> s.contains(z) || z == id,
{
    if !s.contains(id) {
        if z == id {
            assert(s.push(id)[s.len() as int] == id);
        }
        if s.push(id).contains(z) && z != id {
            let w = choose|w: int| 0 <= w < s.push(id).len() && s.push(id)[w] == z;
            assert(s[w] == z);
        }
        if s.contains(z) {
            let w = choose|w: int| 0 <= w < s.len() && s[w] == z;
            assert(s.push(id)[w] == z);
        }
    }
}

proof fn lemma_child_ids(raws: Seq<RawView>, ids: Seq<Option<u64>>, p: int, n: int, z: u64)
    requires
        0 <= n <= raws.len(),
        n <= ids.len(),
    ensures
        child_ids(raws, ids, p, n).contains(z) <==> child_with_id(raws, ids, p, n, z),
    decreases n,
{
    if n > 0 {
        lemma_child_ids(raws, ids, p, n - 1, z);
        let k = n - 1;
        if child_with_id(raws, ids, p, n, z) && !child_with_id(raws, ids, p, n - 1, z) {
            let j = choose|j: int| 0 <= j < n && (raws[j].parent_idx matches Some(q) && q == p) && #[trigger] ids[j] == Some(z);
            assert(j == k);
        }
        if child_with_id(raws, ids, p, n - 1, z) {
            let j = choose|j: int| 0 <= j < n - 1 && (raws[j].parent_idx matches Some(q) && q == p) && #[trigger] ids[j] == Some(z);
            assert(child_with_id(raws, ids, p, n, z));
        }
        match (raws[k].parent_idx, ids[k]) {
            (Some(q), Some(id)) => {
                if q == p {
                    lemma_items_insert_contains(child_ids(raws, ids, p, n - 1), id, z);
                    if z == id {
                        assert(child_with_id(raws, ids, p, n, z));
                    }
                }
            },
            _ => {},
        }
    }
}

/// Every issue is filed under its own id, and parents and subissues agree: an
/// issue filed under `x` whose parent is `y` is listed among the subissues of
/// the issue filed under `y`, and every subissue `x` that the issue filed under
/// `y` lists is the issue filed under `x`, whose parent is `y`.
pub open spec fn parents_agree(issues: Seq<(u64, IssueView)>) -> bool {
    forall|x: u64, y: u64| {
        &&& (#[trigger] entry_of(issues, x) matches Some(e) ==> e.id == x)
        &&& (entry_of(issues, x) matches Some(e) && e.parent_id == Some(y)) ==> (#[trigger] entry_of(issues, y) matches Some(pe)
            && pe.subissues.contains(x))
        &&& (entry_of(issues, y) matches Some(pe) && pe.subissues.contains(x)) ==> (entry_of(issues, x) matches Some(e)
            && e.parent_id == Some(y))
    }
}

/// With distinct ids, and every item's parent read before it, the plan built
/// from the items has parents and subissues that agree.
pub proof fn lemma_build_parents_agree(raws: Seq<RawView>, ids: Seq<Option<u64>>, names: Seq<Seq<char>>, src: Seq<u8>)
    requires
        ids.len() == raws.len(),
        distinct_ids(ids),
        forall|k: int| 0 <= k < raws.len() ==> (#[trigger] raws[k].parent_idx matches Some(p) ==> p < k),
    ensures
        parents_agree(build_upto(raws, ids, names, src, raws.len() as int).plan.issues),
{
    let n = raws.len() as int;
    let issues = build_upto(raws, ids, names, src, n).plan.issues;
    lemma_build_files_each_item(raws, ids, names, src, n);
    assert forall|x: u64, y: u64| {
        &&& (#[trigger] entry_of(issues, x) matches Some(e) ==> e.id == x)
        &&& (entry_of(issues, x) matches Some(e) && e.parent_id == Some(y)) ==> (#[trigger] entry_of(issues, y) matches Some(pe)
            && pe.subissues.contains(x))
        &&& (entry_of(issues, y) matches Some(pe) && pe.subissues.contains(x)) ==> (entry_of(issues, x) matches Some(e)
            && e.parent_id == Some(y))
    } by {
        if key_index(issues, x) is Some {
            let k = choose|k: int| 0 <= k < n && #[trigger] ids[k] == Some(x);
            assert(ids[k] is Some);
            let e = issue_of(raws, ids, src, k, x);
            if e.parent_id == Some(y) {
                let p = raws[k].parent_idx->Some_0 as int;
                assert(raws[k].parent_idx matches Some(q) && q < k);
                assert(ids[p] is Some);
                lemma_child_ids(raws, ids, p, n, x);
                assert(child_with_id(raws, ids, p, n, x));
            }
        }
        if key_index(issues, y) is Some {
            let p = choose|k: int| 0 <= k < n && #[trigger] ids[k] == Some(y);
            assert(ids[p] is Some);
            lemma_child_ids(raws, ids, p, n, x);
            if child_ids(raws, ids, p, n).contains(x) {
                let k = choose|k: int| 0 <= k < n && (raws[k].parent_idx matches Some(q) && q == p) && #[trigger] ids[k] == Some(x);
                assert(ids[k] is Some);
                assert(parent_id_of(raws[k], ids) == Some(y));
            }
        }
    }
}

/// The issues, in order, that the first `n` items become: one for each item
/// that got an id.
pub open spec fn kept_entries(raws: Seq<RawView>, ids: Seq<Option<u64>>, src: Seq<u8>, n: int) -> Seq<(u64, IssueView)>
    decreases n,
{
    if n <= 0 {
        Seq::empty()
    } else {
        match ids[n - 1] {
            Some(x) => kept_entries(raws, ids, src, n - 1).push((x, issue_of(raws, ids, src, n - 1, x))),
            None => kept_entries(raws, ids, src, n - 1),
        }
    }
}

/// The item spans, in order, of the first `n` items that got an id.
pub open spec fn kept_item_spans(raws: Seq<RawView>, ids: Seq<Option<u64>>, n: int) -> Seq<(u64, Range<usize>)>
    decreases n,
{
    if n <= 0 {
        Seq::empty()
    } else {
        match ids[n - 1] {
            Some(x) => kept_item_spans(raws, ids, n - 1).push((x, range_of(raws[n - 1].item_range))),
            None => kept_item_spans(raws, ids, n - 1),
        }
    }
}

/// With distinct ids, the plan lists one issue per item that got an id, in the
/// order the items were read, and the item spans are filed in the same order.
pub proof fn lemma_build_keeps_document_order(
    raws: Seq<RawView>,
    ids: Seq<Option<u64>>,
    names: Seq<Seq<char>>,
    src: Seq<u8>,
    n: int,
)
    requires
        0 <= n <= ids.len(),
        ids.len() == raws.len(),
        distinct_ids(ids),
    ensures
        build_upto(raws, ids, names, src, n).plan.issues == kept_entries(raws, ids, src, n),
        build_upto(raws, ids, names, src, n).issue_spans == kept_item_spans(raws, ids, n),
    decreases n,
{
    if n > 0 {
        lemma_build_keeps_document_order(raws, ids, names, src, n - 1);
        lemma_build_files_each_item(raws, ids, names, src, n - 1);
        let k = n - 1;
        match ids[k] {
            Some(x) => {
                let prev = build_upto(raws, ids, names, src, n - 1);
                assert(!taken_before(ids, n - 1, x)) by {
                    if taken_before(ids, n - 1, x) {
                        let i = choose|i: int| 0 <= i < n - 1 && #[trigger] ids[i] == Some(x);
                        assert(ids[i] is Some && ids[k] is Some);
                    }
                }
                assert(key_index(prev.plan.issues, x) is None);
                assert(key_index(prev.issue_spans, x) is None);
            },
            None => {},
        }
    }
}

proof fn lemma_kept_keys_agree(raws: Seq<RawView>, ids: Seq<Option<u64>>, src: Seq<u8>, n: int)
    requires
        0 <= n <= ids.len(),
    ensures
        kept_entries(raws, ids, src, n).len() == kept_item_spans(raws, ids, n).len(),
        forall|p: int| 0 <= p < kept_entries(raws, ids, src, n).len() ==> #[trigger] kept_entries(raws, ids, src, n)[p].0
            == kept_item_spans(raws, ids, n)[p].0,
    decreases n,
{
    if n > 0 {
        lemma_kept_keys_agree(raws, ids, src, n - 1);
    }
}

/// The parsed plan lists the issues in the order their items open in the
/// source, one for each item the reader keeps, and files the item spans under
/// the same ids in the same order.
pub proof fn lemma_parsed_plan_keeps_document_order(src: Seq<u8>, events: Seq<MdEventView>, start: u64)
    requires
        read_events(src, events).raw_items.len() <= usize::MAX,
    ensures
        plan_of_events(src, events, start) matches Ok(v) ==> {
            let raws = read_events(src, events).raw_items;
            let ids = assign_ids_spec(raws, demoted_flags(raws), src, start)->Ok_0;
            &&& v.plan.issues == kept_entries(raws, ids, src, raws.len() as int)
            &&& v.issue_spans.len() == v.plan.issues.len()
            &&& forall|p: int| 0 <= p < v.issue_spans.len() ==> #[trigger] v.issue_spans[p].0 == v.plan.issues[p].0
        },
{
    let raws = read_events(src, events).raw_items;
    let dropped = demoted_flags(raws);
    lemma_ids_distinct(raws, dropped, src, start);
    match assign_ids_spec(raws, dropped, src, start) {
        Ok(ids) => {
            assert(distinct_ids(ids)) by {
                assert forall|i: int, j: int| 0 <= i < j < ids.len() && #[trigger] ids[i] is Some && #[trigger] ids[j] is Some implies ids[i] != ids[j] by {
                    assert(!dropped[i] && !dropped[j]);
                }
            }
            lemma_build_keeps_document_order(raws, ids, read_events(src, events).sets.names, src, raws.len() as int);
            lemma_kept_keys_agree(raws, ids, src, raws.len() as int);
        },
        Err(_) => {},
    }
}

/// The name of every issue of the parsed plan is the text its name span
/// covers in the source.
pub proof fn lemma_name_is_its_span_text(src: Seq<u8>, events: Seq<MdEventView>, start: u64, x: u64)
    requires
        read_events(src, events).raw_items.len() <= usize::MAX,
    ensures
        plan_of_events(src, events, start) matches Ok(v) ==> (entry_of(v.plan.issues, x) matches Some(issue) ==> (
        entry_of(v.name_spans, x) matches Some(r) ==> issue.name == utf8_lossy(
            src.subrange(r.start as int, r.end as int),
        ))),
{
    lemma_parsed_plan_files_each_item(src, events, start);
    let raws = read_events(src, events).raw_items;
    let dropped = demoted_flags(raws);
    match plan_of_events(src, events, start) {
        Ok(v) => {
            if key_index(v.plan.issues, x) is Some {
                let ids = assign_ids_spec(raws, dropped, src, start)->Ok_0;
                let k = choose|k: int| 0 <= k < raws.len() && !dropped[k] && #[trigger] ids[k] == Some(x);
                assert(ids[k] is Some);
                assert(entry_of(v.plan.issues, x) == Some(issue_of(raws, ids, src, k, x)));
                assert(entry_of(v.name_spans, x) == opt_range(raws[k].name_span));
                match raws[k].name_span {
                    Some(sp) => {
                        assert(issue_of(raws, ids, src, k, x).name == utf8_lossy(src.subrange(sp.start as int, sp.end as int)));
                    },
                    None => {},
                }
            }
        },
        Err(_) => {},
    }
}

/// The list items the reader finds in the CommonMark source `source`.
pub open spec fn source_items(source: Seq<char>) -> Seq<RawView> {
    read_events(encode_utf8(source), commonmark_events(source, GFM_OPTIONS)).raw_items
}

/// The ids the parse of `source` gives its items (when it succeeds).
pub open spec fn source_ids(source: Seq<char>, start: u64) -> Seq<Option<u64>> {
    let raws = source_items(source);
    assign_ids_spec(raws, demoted_flags(raws), encode_utf8(source), start)->Ok_0
}

/// An id spelled out in the source is never handed to another issue. When the
/// parse of `source` succeeds, every item it keeps (`k`, `j`) gets an id and is
/// the issue filed under it; an item that spells out its id gets exactly that
/// id; an item with a generated id never gets one that a kept item spells out;
/// and parents and subissues agree.
pub proof fn lemma_parse_keeps_spelled_ids(source: Seq<char>, start: u64, k: int, j: int)
    requires
        source_items(source).len() <= usize::MAX,
        0 <= k < source_items(source).len(),
        0 <= j < source_items(source).len(),
    ensures
        parse_spec(source, start) matches Ok(v) ==> {
            let raws = source_items(source);
            let kept = !demoted_flags(raws)[k];
            let ids = source_ids(source, start);
            &&& kept ==> ids[k] is Some && entry_of(v.plan.issues, ids[k]->Some_0) == Some(
                issue_of(raws, ids, encode_utf8(source), k, ids[k]->Some_0),
            )
            &&& (kept && raws[k].id_override is Some) ==> ids[k] == raws[k].id_override
            &&& (kept && raws[k].id_override is None && !demoted_flags(raws)[j] && raws[j].id_override is Some) ==> ids[k]
                != raws[j].id_override
            &&& parents_agree(v.plan.issues)
        },
{
    let src = encode_utf8(source);
    let events = commonmark_events(source, GFM_OPTIONS);
    let raws = source_items(source);
    let dropped = demoted_flags(raws);
    lemma_parsed_plan_files_each_item(src, events, start);
    if !dropped[k] && !dropped[j] && raws[k].id_override is None && raws[j].id_override is Some {
        lemma_generated_id_free(raws, dropped, src, start, k, j);
    }
    lemma_ids_distinct(raws, dropped, src, start);
    lemma_read_events_nested(src, events);
    match parse_spec(source, start) {
        Ok(v) => {
            let ids = source_ids(source, start);
            if !dropped[k] {
                assert(ids[k] is Some);
            }
            assert(distinct_ids(ids)) by {
                assert forall|a: int, b: int| 0 <= a < b < ids.len() && #[trigger] ids[a] is Some && #[trigger] ids[b] is Some implies ids[a] != ids[b] by {
                    assert(!dropped[a] && !dropped[b]);
                }
            }
            lemma_build_parents_agree(raws, ids, read_events(src, events).sets.names, src);
        },
        Err(_) => {},
    }
}

} // verus!
