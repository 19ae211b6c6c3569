//! What the spans of a parsed plan describe: item spans and name spans filed
//! under the ids of the issues, in the issues' order; each name span covering
//! the name as written; a description span exactly for the issues that carry
//! a description, covering its text before dedenting.
use vstd::prelude::*;

use crate::descriptions::{content_column, dedented_text, description_of, lemma_description_is_its_span_text};
use crate::markdown::MdEventView;
use crate::parse::{assign_ids_spec, build_upto, demoted_flags, plan_of_events, ParsedView};
use crate::plan_shape::{
    distinct_ids, entry_of, lemma_build_files_each_item, lemma_name_is_its_span_text,
    lemma_parsed_plan_keeps_document_order, taken_before,
};
use crate::assignment::lemma_ids_distinct;
use crate::collections::key_index;
use crate::reader::{read_events, RawView};
use crate::text::utf8_lossy;

verus! {

/// The keys of `entries`, in order.
pub open spec fn keys_of<V>(entries: Seq<(u64, V)>) -> Seq<u64> {
    Seq::new(entries.len(), |p: int| entries[p].0)
}

/// Issue `x`, if the plan has it, has its item span; a name span covering
/// its name as written; and a description span exactly when it carries a
/// description, which is the text of that span dedented to the column at
/// which the item's content starts.
pub open spec fn issue_spans_describe(v: ParsedView, src: Seq<u8>, x: u64) -> bool {
    entry_of(v.plan.issues, x) matches Some(issue) ==> {
        &&& entry_of(v.issue_spans, x) matches Some(item) && match entry_of(v.content_spans, x) {
            Some(r) => description_of(issue.content) == Some(
                dedented_text(src, r.start as int, r.end as int, content_column(src, item.start as int)),
            ),
            None => description_of(issue.content) is None,
        }
        &&& entry_of(v.name_spans, x) matches Some(r) ==> issue.name == utf8_lossy(
            src.subrange(r.start as int, r.end as int),
        )
    }
}

/// The item spans are filed under the issues' ids in the issues' order, and
/// the spans of every issue describe it.
pub open spec fn spans_describe(v: ParsedView, src: Seq<u8>) -> bool {
    &&& keys_of(v.issue_spans) == keys_of(v.plan.issues)
    &&& forall|x: u64| #[trigger] issue_spans_describe(v, src, x)
}

/// The spans of a parsed plan describe its issues.
pub proof fn lemma_parsed_plan_spans(src: Seq<u8>, events: Seq<MdEventView>, start: u64)
    requires
        read_events(src, events).raw_items.len() <= usize::MAX,
    ensures
        plan_of_events(src, events, start) matches Ok(v) ==> spans_describe(v, src),
{
    lemma_parsed_plan_keeps_document_order(src, events, start);
    match plan_of_events(src, events, start) {
        Ok(v) => {
            assert(keys_of(v.issue_spans) =~= keys_of(v.plan.issues));
            assert forall|x: u64| #[trigger] issue_spans_describe(v, src, x) by {
                lemma_description_is_its_span_text(src, events, start, x);
                lemma_name_is_its_span_text(src, events, start, x);
            }
        },
        Err(_) => {},
    }
}

/// When every item has a name span, the name spans are filed under the same
/// ids, in the same order, as the item spans.
proof fn lemma_build_names_keyed(
    raws: Seq<RawView>,
    ids: Seq<Option<u64>>,
    names: Seq<Seq<char>>,
    src: Seq<u8>,
    n: int,
)
    requires
        0 <= n <= ids.len(),
        ids.len() == raws.len(),
        distinct_ids(ids),
        forall|i: int| 0 <= i < raws.len() ==> (#[trigger] raws[i]).name_span is Some,
    ensures
        keys_of(build_upto(raws, ids, names, src, n).name_spans) == keys_of(
            build_upto(raws, ids, names, src, n).issue_spans,
        ),
    decreases n,
{
    if n > 0 {
        lemma_build_names_keyed(raws, ids, names, src, n - 1);
        lemma_build_files_each_item(raws, ids, names, src, n - 1);
        let k = n - 1;
        let prev = build_upto(raws, ids, names, src, n - 1);
        let b = build_upto(raws, ids, names, src, n);
        match ids[k] {
            Some(x) => {
                assert(!taken_before(ids, n - 1, x)) by {
                    if taken_before(ids, n - 1, x) {
                        let i = choose|i: int| 0 <= i < n - 1 && #[trigger] ids[i] == Some(x);
                        assert(ids[i] is Some && ids[k] is Some);
                    }
                }
                assert(key_index(prev.name_spans, x) is None);
                assert(key_index(prev.issue_spans, x) is None);
                assert(raws[k].name_span is Some);
                assert(keys_of(b.name_spans) =~= keys_of(prev.name_spans).push(x));
                assert(keys_of(b.issue_spans) =~= keys_of(prev.issue_spans).push(x));
            },
            None => {},
        }
    }
}

/// When every item the reader read has a name span, every issue of the
/// parsed plan has one, and the name spans are filed in the issues' order.
pub proof fn lemma_parsed_plan_names_keyed(src: Seq<u8>, events: Seq<MdEventView>, start: u64)
    requires
        read_events(src, events).raw_items.len() <= usize::MAX,
        forall|i: int|
            0 <= i < read_events(src, events).raw_items.len() ==> (#[trigger] read_events(
                src,
                events,
            ).raw_items[i]).name_span is Some,
    ensures
        plan_of_events(src, events, start) matches Ok(v) ==> keys_of(v.name_spans) == keys_of(v.plan.issues),
{
    let raws = read_events(src, events).raw_items;
    let dropped = demoted_flags(raws);
    lemma_ids_distinct(raws, dropped, src, start);
    lemma_parsed_plan_keeps_document_order(src, events, start);
    match assign_ids_spec(raws, dropped, src, start) {
        Ok(ids) => {
            assert(distinct_ids(ids)) by {
                assert forall|i: int, j: int| 0 <= i < j < ids.len() && #[trigger] ids[i] is Some && #[trigger] ids[j] is Some implies ids[i] != ids[j] by {
                    assert(!dropped[i] && !dropped[j]);
                }
            }
            lemma_build_names_keyed(raws, ids, read_events(src, events).sets.names, src, raws.len() as int);
            let v = plan_of_events(src, events, start)->Ok_0;
            assert(keys_of(v.issue_spans) =~= keys_of(v.plan.issues));
        },
        Err(_) => {},
    }
}

} // verus!
