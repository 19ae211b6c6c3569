//! What an issue's description is: the text of its description span, dedented
//! to the column at which its item's content starts.
use vstd::prelude::*;

use crate::issue::ContentView;
use crate::markdown::{MdEventView, MdKindView};
use crate::parse::{assign_ids_spec, demoted_flags, plan_of_events};
use crate::plan_shape::{entry_of, lemma_parsed_plan_files_each_item};
use crate::reader::{
    finalize_item_spec, finalize_name_spec, new_raw, push_child_spec, read_events, step_spec, with_item, ChildBlock,
    LinkView, RawView, ReaderView,
};
use crate::text::{content_start_of, dedent, line_start, utf8_lossy, Span};

verus! {

/// The column at which the content of the item opening at `item_start`
/// begins: past its bullet marker and the blanks after it.
pub open spec fn content_column(src: Seq<u8>, item_start: int) -> usize {
    (content_start_of(src, item_start) - line_start(src, content_start_of(src, item_start))) as usize
}

/// The description an issue content carries, if any.
pub open spec fn description_of(content: ContentView) -> Option<Seq<char>> {
    match content {
        ContentView::Empty => None,
        ContentView::Inline(text) => Some(text),
        ContentView::Linked { note, .. } => note,
    }
}

/// The text of `src[start..end]`, dedented by `indent`.
pub open spec fn dedented_text(src: Seq<u8>, start: int, end: int, indent: usize) -> Seq<char> {
    utf8_lossy(dedent(src.subrange(start, end), indent as nat))
}

/// The item's description agrees with its description span, dedented to the
/// item's content column.
pub open spec fn content_agrees(r: RawView, src: Seq<u8>) -> bool {
    &&& r.content_indent == content_column(src, r.item_range.start as int)
    &&& match r.content_span {
        Some(sp) => description_of(r.content) == Some(
            dedented_text(src, sp.start as int, sp.end as int, r.content_indent),
        ),
        None => description_of(r.content) is None,
    }
}

/// The items on the stack are items read so far, and every item's description
/// agrees with its span.
pub open spec fn descriptions_agree(r: ReaderView, src: Seq<u8>) -> bool {
    &&& forall|i: int| 0 <= i < r.item_stack.len() ==> #[trigger] r.item_stack[i] < r.raw_items.len()
    &&& forall|i: int| 0 <= i < r.raw_items.len() ==> content_agrees(#[trigger] r.raw_items[i], src)
}

proof fn lemma_with_item(r: ReaderView, src: Seq<u8>, i: int, item: RawView)
    requires
        descriptions_agree(r, src),
        0 <= i < r.raw_items.len(),
        content_agrees(item, src),
    ensures
        descriptions_agree(with_item(r, i, item), src),
{
    let r2 = with_item(r, i, item);
    assert forall|j: int| 0 <= j < r2.raw_items.len() implies content_agrees(#[trigger] r2.raw_items[j], src) by {
        if j != i {
            assert(r2.raw_items[j] == r.raw_items[j]);
        }
    }
}

proof fn lemma_finalize_item_agrees(cur: RawView, src: Seq<u8>)
    requires
        cur.content_indent == content_column(src, cur.item_range.start as int),
    ensures
        content_agrees(finalize_item_spec(cur, src), src),
{
}

/// An update of the current item that leaves its description fields alone.
proof fn lemma_update_current(r: ReaderView, src: Seq<u8>, item: RawView)
    requires
        descriptions_agree(r, src),
        r.item_stack.len() > 0,
        item.content == r.raw_items[r.item_stack.last() as int].content,
        item.content_span == r.raw_items[r.item_stack.last() as int].content_span,
        item.content_indent == r.raw_items[r.item_stack.last() as int].content_indent,
        item.item_range == r.raw_items[r.item_stack.last() as int].item_range,
    ensures
        descriptions_agree(with_item(r, r.item_stack.last() as int, item), src),
{
    let i = r.item_stack.last() as int;
    assert(r.item_stack[r.item_stack.len() - 1] < r.raw_items.len());
    assert(content_agrees(r.raw_items[i], src));
    lemma_with_item(r, src, i, item);
}

proof fn lemma_current_in_range(r: ReaderView, src: Seq<u8>)
    requires
        descriptions_agree(r, src),
        r.item_stack.len() > 0,
    ensures
        0 <= r.item_stack.last() < r.raw_items.len(),
{
    assert(r.item_stack[r.item_stack.len() - 1] < r.raw_items.len());
}

/// Every event keeps the descriptions in agreement with their spans.
proof fn lemma_step_keeps_descriptions(r: ReaderView, src: Seq<u8>, ev: MdEventView)
    requires
        descriptions_agree(r, src),
    ensures
        descriptions_agree(step_spec(r, src, ev), src),
{
    let sp = crate::reader::clamp_span(ev, src.len() as int);
    let has_item = r.item_stack.len() > 0;
    let i = r.item_stack.last() as int;
    if has_item {
        lemma_current_in_range(r, src);
    }
    match ev.kind {
        MdKindView::ListStart { ordered } => {
            if has_item {
                lemma_update_current(r, src, finalize_name_spec(r.raw_items[i], src, sp.start as int));
            }
            let r1 = match crate::reader::current_index(r) {
                Some(i) => if r.list_depth == r.raw_items[i].list_depth && r.raw_items[i].in_name_block {
                    with_item(r, i, finalize_name_spec(r.raw_items[i], src, sp.start as int))
                } else {
                    r
                },
                None => r,
            };
            assert(descriptions_agree(r1, src));
        },
        MdKindView::ListEnd => {
            if r.list_stack.len() > 0 {
                let list = r.list_stack.last();
                let r1 = ReaderView {
                    list_depth: (r.list_depth - 1) as usize,
                    list_stack: r.list_stack.drop_last(),
                    ordered_depth: (r.ordered_depth - if list.ordered { 1int } else { 0int }) as usize,
                    ..r
                };
                assert(descriptions_agree(r1, src));
                if has_item {
                    let block = if list.ordered {
                        ChildBlock::Description(sp)
                    } else {
                        ChildBlock::List { range: sp, items: Span { start: list.first_item, end: r1.raw_items.len() as usize } }
                    };
                    lemma_update_current(r1, src, push_child_spec(r1.raw_items[i], block));
                }
            }
        },
        MdKindView::HeadingStart { .. } | MdKindView::Rule | MdKindView::CodeBlockStart => {
            if has_item {
                let cur = r.raw_items[i];
                lemma_update_current(r, src, finalize_name_spec(cur, src, sp.end as int));
                let c1 = if cur.in_name_block { finalize_name_spec(cur, src, sp.start as int) } else { cur };
                lemma_update_current(r, src, push_child_spec(c1, ChildBlock::Description(sp)));
            }
        },
        MdKindView::ItemStart => {
            if r.ordered_depth == 0 {
                let parent = match crate::reader::current_index(r) {
                    Some(i) => Some(i as usize),
                    None => None,
                };
                let item = new_raw(src, parent, sp, r.list_depth, r.sets.current);
                assert(content_agrees(item, src));
                let r2 = step_spec(r, src, ev);
                assert forall|j: int| 0 <= j < r2.item_stack.len() implies #[trigger] r2.item_stack[j] < r2.raw_items.len() by {
                    if j < r.item_stack.len() {
                        assert(r.item_stack[j] < r.raw_items.len());
                    }
                }
                assert forall|j: int| 0 <= j < r2.raw_items.len() implies content_agrees(#[trigger] r2.raw_items[j], src) by {
                    if j < r.raw_items.len() {
                        assert(content_agrees(r.raw_items[j], src));
                    }
                }
            }
        },
        MdKindView::ItemEnd => {
            if r.ordered_depth == 0 && has_item {
                let r1 = ReaderView { item_stack: r.item_stack.drop_last(), ..r };
                assert(descriptions_agree(r1, src)) by {
                    assert forall|j: int| 0 <= j < r1.item_stack.len() implies #[trigger] r1.item_stack[j] < r1.raw_items.len() by {
                        assert(r.item_stack[j] < r.raw_items.len());
                    }
                }
                let cur = r.raw_items[i];
                assert(content_agrees(cur, src));
                let c1 = if cur.in_name_block { finalize_name_spec(cur, src, sp.end as int) } else { cur };
                lemma_finalize_item_agrees(c1, src);
                lemma_with_item(r1, src, i, finalize_item_spec(c1, src));
            }
        },
        MdKindView::ParagraphStart => {
            if has_item {
                lemma_update_current(r, src, push_child_spec(r.raw_items[i], ChildBlock::Description(sp)));
            }
        },
        MdKindView::ParagraphEnd => {
            if has_item {
                lemma_update_current(r, src, finalize_name_spec(r.raw_items[i], src, sp.end as int));
            }
        },
        MdKindView::LinkStart { dest } => {
            if has_item {
                lemma_update_current(r, src, RawView { link: Some(LinkView { range: sp, dest }), ..r.raw_items[i] });
            }
        },
        _ => {},
    }
}

proof fn lemma_read_events_descriptions(src: Seq<u8>, events: Seq<MdEventView>)
    ensures
        descriptions_agree(read_events(src, events), src),
    decreases events.len(),
{
    if events.len() > 0 {
        lemma_read_events_descriptions(src, events.drop_last());
        lemma_step_keeps_descriptions(read_events(src, events.drop_last()), src, events.last());
    }
}

/// The description of every issue of the parsed plan is the text of its
/// description span, dedented to the column at which its item's content
/// starts; an issue without a description span carries no description.
pub proof fn lemma_description_is_its_span_text(src: Seq<u8>, events: Seq<MdEventView>, start: u64, x: u64)
    requires
        read_events(src, events).raw_items.len() <= usize::MAX,
    ensures
        plan_of_events(src, events, start) matches Ok(v) ==> (entry_of(v.plan.issues, x) matches Some(issue) ==> (
        entry_of(v.issue_spans, x) matches Some(item) && match entry_of(v.content_spans, x) {
            Some(r) => description_of(issue.content) == Some(
                dedented_text(src, r.start as int, r.end as int, content_column(src, item.start as int)),
            ),
            None => description_of(issue.content) is None,
        })),
{
    lemma_parsed_plan_files_each_item(src, events, start);
    lemma_read_events_descriptions(src, events);
    let raws = read_events(src, events).raw_items;
    let dropped = demoted_flags(raws);
    match plan_of_events(src, events, start) {
        Ok(v) => {
            if entry_of(v.plan.issues, x) is Some {
                let ids = assign_ids_spec(raws, dropped, src, start)->Ok_0;
                let k = choose|k: int| 0 <= k < raws.len() && !dropped[k] && #[trigger] ids[k] == Some(x);
                assert(ids[k] is Some);
                assert(content_agrees(raws[k], src));
            }
        },
        Err(_) => {},
    }
}

} // verus!
