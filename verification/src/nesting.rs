//! Where the spans of an issue lie: its name and description spans inside the
//! span of its whole list item.
use vstd::prelude::*;

use crate::markdown::{MdEventView, MdKindView};
use crate::parse::{assign_ids_spec, demoted_flags, plan_of_events, ParsedView};
use crate::plan_shape::{entry_of, lemma_parsed_plan_files_each_item};
use crate::reader::{
    clamp_span, current_index, finalize_item_spec, finalize_name_spec, link_label, new_raw, push_child_spec,
    read_events, split_point, step_spec, with_item, ChildBlock, LinkView, RawView, ReaderView,
};
use crate::text::{clamp_into, first_newline, lemma_split_id_within, lemma_trimmed_within, Span};

verus! {

/// `sp` lies inside the forward span `outer`.
pub open spec fn inside(sp: Span, outer: Span) -> bool {
    outer.start <= sp.start <= sp.end <= outer.end
}

/// The item's name and description spans lie inside its item span.
pub open spec fn spans_inside(r: RawView) -> bool {
    &&& r.item_range.start <= r.item_range.end
    &&& r.name_span matches Some(sp) ==> inside(sp, r.item_range)
    &&& r.content_span matches Some(sp) ==> inside(sp, r.item_range)
}

/// The items on the stack are items read so far, every item's parent was read
/// before it, and every item keeps its spans inside its item span.
pub open spec fn items_nested(r: ReaderView) -> bool {
    &&& forall|i: int| 0 <= i < r.item_stack.len() ==> #[trigger] r.item_stack[i] < r.raw_items.len()
    &&& forall|i: int| 0 <= i < r.raw_items.len() ==> spans_inside(#[trigger] r.raw_items[i])
    &&& forall|i: int| 0 <= i < r.raw_items.len() ==> (#[trigger] r.raw_items[i].parent_idx matches Some(p) ==> p < i)
}

proof fn lemma_clamp_inside(sp: Span, outer: Span)
    requires
        outer.start <= outer.end,
    ensures
        inside(clamp_into(sp, outer), outer),
{
}

proof fn lemma_finalize_name_inside(cur: RawView, src: Seq<u8>, block_end: int)
    requires
        spans_inside(cur),
    ensures
        spans_inside(finalize_name_spec(cur, src, block_end)),
{
    let nb_end = if cur.name_block.end <= block_end { cur.name_block.end as int } else { block_end };
    let nb_end = if nb_end >= cur.name_block.start { nb_end } else { cur.name_block.start as int };
    let block = Span { start: cur.name_block.start, end: nb_end as usize };
    let line_end = first_newline(src, block.start as int, block.end as int);
    let name = match link_label(src, cur.link) {
        Some((label, _)) => label,
        None => Span { start: block.start, end: line_end as usize },
    };
    let clamped = clamp_into(name, cur.item_range);
    lemma_clamp_inside(name, cur.item_range);
    lemma_split_id_within(src, clamped);
}

proof fn lemma_finalize_item_inside(cur: RawView, src: Seq<u8>)
    requires
        spans_inside(cur),
    ensures
        spans_inside(finalize_item_spec(cur, src)),
{
    let split = split_point(cur.children);
    if split != 0 {
        let d = clamp_into(
            Span {
                start: crate::reader::block_range(cur.children[0]).start,
                end: crate::reader::block_range(cur.children[split - 1]).end,
            },
            cur.item_range,
        );
        lemma_clamp_inside(
            Span {
                start: crate::reader::block_range(cur.children[0]).start,
                end: crate::reader::block_range(cur.children[split - 1]).end,
            },
            cur.item_range,
        );
        lemma_trimmed_within(src, d);
    }
}

proof fn lemma_replace_item(r: ReaderView, i: int, item: RawView)
    requires
        items_nested(r),
        0 <= i < r.raw_items.len(),
        spans_inside(item),
        item.parent_idx == r.raw_items[i].parent_idx,
    ensures
        items_nested(with_item(r, i, item)),
{
    let r2 = with_item(r, i, item);
    assert forall|j: int| 0 <= j < r2.raw_items.len() implies spans_inside(#[trigger] r2.raw_items[j]) by {
        if j != i {
            assert(r2.raw_items[j] == r.raw_items[j]);
        }
    }
    assert forall|j: int| 0 <= j < r2.raw_items.len() implies (#[trigger] r2.raw_items[j].parent_idx matches Some(p) ==> p < j) by {
        if j != i {
            assert(r2.raw_items[j] == r.raw_items[j]);
        }
    }
}

proof fn lemma_current(r: ReaderView)
    requires
        items_nested(r),
        r.item_stack.len() > 0,
    ensures
        0 <= r.item_stack.last() < r.raw_items.len(),
        spans_inside(r.raw_items[r.item_stack.last() as int]),
{
    assert(r.item_stack[r.item_stack.len() - 1] < r.raw_items.len());
}

/// Every event keeps each item's spans inside its item span.
proof fn lemma_step_keeps_nesting(r: ReaderView, src: Seq<u8>, ev: MdEventView)
    requires
        items_nested(r),
    ensures
        items_nested(step_spec(r, src, ev)),
{
    let sp = clamp_span(ev, src.len() as int);
    let has_item = r.item_stack.len() > 0;
    let i = r.item_stack.last() as int;
    if has_item {
        lemma_current(r);
    }
    match ev.kind {
        MdKindView::ListStart { ordered } => {
            if has_item {
                lemma_finalize_name_inside(r.raw_items[i], src, sp.start as int);
                lemma_replace_item(r, i, finalize_name_spec(r.raw_items[i], src, sp.start as int));
            }
            let r1 = match current_index(r) {
                Some(i) => if r.list_depth == r.raw_items[i].list_depth && r.raw_items[i].in_name_block {
                    with_item(r, i, finalize_name_spec(r.raw_items[i], src, sp.start as int))
                } else {
                    r
                },
                None => r,
            };
            assert(items_nested(r1));
        },
        MdKindView::ListEnd => {
            if r.list_stack.len() > 0 {
                let list = r.list_stack.last();
                let r1 = ReaderView {
                    list_depth: (r.list_depth - 1) as usize,
                    list_stack: r.list_stack.drop_last(),
                    ordered_depth: (r.ordered_depth - if list.ordered { 1int } else { 0int }) as usize,
                    ..r
                };
                assert(items_nested(r1));
                if has_item {
                    let block = if list.ordered {
                        ChildBlock::Description(sp)
                    } else {
                        ChildBlock::List { range: sp, items: Span { start: list.first_item, end: r1.raw_items.len() as usize } }
                    };
                    lemma_replace_item(r1, i, push_child_spec(r1.raw_items[i], block));
                }
            }
        },
        MdKindView::HeadingStart { .. } | MdKindView::Rule | MdKindView::CodeBlockStart => {
            if has_item {
                let cur = r.raw_items[i];
                lemma_finalize_name_inside(cur, src, sp.end as int);
                lemma_replace_item(r, i, finalize_name_spec(cur, src, sp.end as int));
                lemma_finalize_name_inside(cur, src, sp.start as int);
                let c1 = if cur.in_name_block { finalize_name_spec(cur, src, sp.start as int) } else { cur };
                lemma_replace_item(r, i, push_child_spec(c1, ChildBlock::Description(sp)));
            }
        },
        MdKindView::ItemStart => {
            if r.ordered_depth == 0 {
                let parent = match current_index(r) {
                    Some(i) => Some(i as usize),
                    None => None,
                };
                let item = new_raw(src, parent, sp, r.list_depth, r.sets.current);
                assert(spans_inside(item));
                let r2 = step_spec(r, src, ev);
                assert forall|j: int| 0 <= j < r2.item_stack.len() implies #[trigger] r2.item_stack[j] < r2.raw_items.len() by {
                    if j < r.item_stack.len() {
                        assert(r.item_stack[j] < r.raw_items.len());
                    }
                }
                assert forall|j: int| 0 <= j < r2.raw_items.len() implies spans_inside(#[trigger] r2.raw_items[j]) by {
                    if j < r.raw_items.len() {
                        assert(spans_inside(r.raw_items[j]));
                    }
                }
                assert forall|j: int| 0 <= j < r2.raw_items.len() implies (#[trigger] r2.raw_items[j].parent_idx matches Some(
                    p,
                ) ==> p < j) by {
                    if j < r.raw_items.len() {
                        assert(r2.raw_items[j] == r.raw_items[j]);
                    }
                }
            }
        },
        MdKindView::ItemEnd => {
            if r.ordered_depth == 0 && has_item {
                let r1 = ReaderView { item_stack: r.item_stack.drop_last(), ..r };
                assert(items_nested(r1)) by {
                    assert forall|j: int| 0 <= j < r1.raw_items.len() implies (#[trigger] r1.raw_items[j].parent_idx matches Some(
                        p,
                    ) ==> p < j) by {
                        assert(r1.raw_items[j] == r.raw_items[j]);
                    }
                    assert forall|j: int| 0 <= j < r1.item_stack.len() implies #[trigger] r1.item_stack[j] < r1.raw_items.len() by {
                        assert(r.item_stack[j] < r.raw_items.len());
                    }
                }
                let cur = r.raw_items[i];
                lemma_finalize_name_inside(cur, src, sp.end as int);
                let c1 = if cur.in_name_block { finalize_name_spec(cur, src, sp.end as int) } else { cur };
                lemma_finalize_item_inside(c1, src);
                lemma_replace_item(r1, i, finalize_item_spec(c1, src));
            }
        },
        MdKindView::ParagraphStart => {
            if has_item {
                lemma_replace_item(r, i, push_child_spec(r.raw_items[i], ChildBlock::Description(sp)));
            }
        },
        MdKindView::ParagraphEnd => {
            if has_item {
                lemma_finalize_name_inside(r.raw_items[i], src, sp.end as int);
                lemma_replace_item(r, i, finalize_name_spec(r.raw_items[i], src, sp.end as int));
            }
        },
        MdKindView::LinkStart { dest } => {
            if has_item {
                lemma_replace_item(r, i, RawView { link: Some(LinkView { range: sp, dest }), ..r.raw_items[i] });
            }
        },
        _ => {},
    }
}

pub proof fn lemma_read_events_nested(src: Seq<u8>, events: Seq<MdEventView>)
    ensures
        items_nested(read_events(src, events)),
    decreases events.len(),
{
    if events.len() > 0 {
        lemma_read_events_nested(src, events.drop_last());
        lemma_step_keeps_nesting(read_events(src, events.drop_last()), src, events.last());
    }
}

/// Every name and description span filed under an id lies inside the item
/// span filed under the same id.
pub open spec fn spans_nested(v: ParsedView) -> bool {
    forall|x: u64| {
        &&& (#[trigger] entry_of(v.name_spans, x) matches Some(r) ==> (entry_of(v.issue_spans, x) matches Some(item)
            && item.start <= r.start <= r.end <= item.end))
        &&& (entry_of(v.content_spans, x) matches Some(r) ==> (entry_of(v.issue_spans, x) matches Some(item)
            && item.start <= r.start <= r.end <= item.end))
    }
}

/// The name and description spans of every issue of a parsed plan lie inside
/// the span of the issue's whole item.
pub proof fn lemma_spans_nested(src: Seq<u8>, events: Seq<MdEventView>, start: u64)
    requires
        read_events(src, events).raw_items.len() <= usize::MAX,
    ensures
        plan_of_events(src, events, start) matches Ok(v) ==> spans_nested(v),
{
    lemma_parsed_plan_files_each_item(src, events, start);
    lemma_read_events_nested(src, events);
    let raws = read_events(src, events).raw_items;
    let dropped = demoted_flags(raws);
    match plan_of_events(src, events, start) {
        Ok(v) => {
            let ids = assign_ids_spec(raws, dropped, src, start)->Ok_0;
            assert forall|x: u64| {
                &&& (#[trigger] entry_of(v.name_spans, x) matches Some(r) ==> (entry_of(v.issue_spans, x) matches Some(
                    item,
                ) && item.start <= r.start <= r.end <= item.end))
                &&& (entry_of(v.content_spans, x) matches Some(r) ==> (entry_of(v.issue_spans, x) matches Some(item)
                    && item.start <= r.start <= r.end <= item.end))
            } by {
                if entry_of(v.name_spans, x) is Some || entry_of(v.content_spans, x) is Some {
                    assert(crate::collections::key_index(v.plan.issues, x) is Some) by {
                        lemma_filed_span_has_issue(src, events, start, x);
                    }
                    let k = choose|k: int| 0 <= k < raws.len() && !dropped[k] && #[trigger] ids[k] == Some(x);
                    assert(ids[k] is Some);
                    assert(spans_inside(raws[k]));
                }
            }
        },
        Err(_) => {},
    }
}

/// A name or description span is filed only under the id of an issue.
proof fn lemma_filed_span_has_issue(src: Seq<u8>, events: Seq<MdEventView>, start: u64, x: u64)
    requires
        read_events(src, events).raw_items.len() <= usize::MAX,
    ensures
        plan_of_events(src, events, start) matches Ok(v) ==> ((entry_of(v.name_spans, x) is Some || entry_of(
            v.content_spans,
            x,
        ) is Some) ==> crate::collections::key_index(v.plan.issues, x) is Some),
{
    let raws = read_events(src, events).raw_items;
    let dropped = demoted_flags(raws);
    crate::assignment::lemma_ids_distinct(raws, dropped, src, start);
    match assign_ids_spec(raws, dropped, src, start) {
        Ok(ids) => {
            let names = read_events(src, events).sets.names;
            assert(crate::plan_shape::distinct_ids(ids)) by {
                assert forall|i: int, j: int|
                    0 <= i < j < ids.len() && #[trigger] ids[i] is Some && #[trigger] ids[j] is Some implies ids[i]
                    != ids[j] by {
                    assert(!dropped[i] && !dropped[j]);
                }
            }
            crate::plan_shape::lemma_build_files_each_item(raws, ids, names, src, raws.len() as int);
            let b = crate::parse::build_upto(raws, ids, names, src, raws.len() as int);
            if crate::collections::key_index(b.name_spans, x) is Some || crate::collections::key_index(b.content_spans, x) is Some {
                let k = choose|k: int| 0 <= k < raws.len() && #[trigger] ids[k] == Some(x);
                assert(ids[k] is Some);
            }
        },
        Err(_) => {},
    }
}

} // verus!
