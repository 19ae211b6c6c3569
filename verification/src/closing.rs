//! Every list item the reader opens it also closes, when the events close the
//! lists and items they open; and every closed item has a name.
use vstd::prelude::*;

use crate::markdown::{close_blocks, MdEventView, MdKindView, OpenBlock};
use crate::reader::{
    clamp_span, count_ordered, current_index, finalize_item_spec, finalize_name_spec, new_raw, push_child_spec,
    reader_wf, step_spec, with_item, ChildBlock, LinkView, OpenList, RawView, ReaderView,
};
use crate::text::Span;

verus! {

/// Whether each open list, outermost first, is an ordered one.
pub open spec fn list_flags(lists: Seq<OpenList>) -> Seq<bool> {
    Seq::new(lists.len(), |k: int| lists[k].ordered)
}

/// Whether each list among `open`, outermost first, is an ordered one.
pub open spec fn block_lists(open: Seq<OpenBlock>) -> Seq<bool>
    decreases open.len(),
{
    if open.len() == 0 {
        Seq::empty()
    } else {
        match open.last() {
            OpenBlock::List { ordered } => block_lists(open.drop_last()).push(ordered),
            OpenBlock::Item => block_lists(open.drop_last()),
        }
    }
}

/// The open items among `open` that no ordered list encloses: the ones the
/// reader keeps as issues.
pub open spec fn outer_items(open: Seq<OpenBlock>) -> nat
    decreases open.len(),
{
    if open.len() == 0 {
        0
    } else {
        outer_items(open.drop_last()) + if open.last() is Item && !block_lists(open.drop_last()).contains(true) {
            1nat
        } else {
            0nat
        }
    }
}

/// The reader's open lists are the lists of `open`, and its item stack holds
/// one entry per open item outside any ordered list.
pub open spec fn tracks_blocks(r: ReaderView, open: Seq<OpenBlock>) -> bool {
    &&& list_flags(r.list_stack) == block_lists(open)
    &&& r.item_stack.len() == outer_items(open)
}

/// An item whose name is still unread is on the item stack; every other item
/// has its name span.
pub open spec fn names_pending(r: ReaderView) -> bool {
    forall|i: int| 0 <= i < r.raw_items.len() ==> {
        &&& (#[trigger] r.raw_items[i]).in_name_block ==> r.item_stack.contains(i as usize)
        &&& !r.raw_items[i].in_name_block ==> r.raw_items[i].name_span is Some
    }
}

proof fn lemma_no_ordered(lists: Seq<OpenList>)
    ensures
        (count_ordered(lists) == 0) == !list_flags(lists).contains(true),
    decreases lists.len(),
{
    if lists.len() > 0 {
        let init = lists.drop_last();
        lemma_no_ordered(init);
        let flags = list_flags(lists);
        let fi = list_flags(init);
        assert(flags =~= fi.push(lists.last().ordered));
        if flags.contains(true) {
            let k = choose|k: int| 0 <= k < flags.len() && flags[k] == true;
            if k < fi.len() {
                assert(fi[k] == true);
                assert(fi.contains(true));
            }
        }
        if fi.contains(true) {
            let k = choose|k: int| 0 <= k < fi.len() && fi[k] == true;
            assert(flags[k] == true);
        }
        if lists.last().ordered {
            assert(flags[flags.len() - 1] == true);
        }
    } else {
        assert(list_flags(lists) =~= Seq::<bool>::empty());
    }
}

/// Replacing item `i` by one that keeps its name block open only where the old
/// one did, and has a name span once it is closed, keeps the names pending.
proof fn lemma_replace_named(r: ReaderView, i: int, item: RawView)
    requires
        names_pending(r),
        0 <= i < r.raw_items.len(),
        item.in_name_block ==> r.raw_items[i].in_name_block,
        !item.in_name_block ==> item.name_span is Some,
    ensures
        names_pending(with_item(r, i, item)),
{
    let r2 = with_item(r, i, item);
    assert forall|j: int| 0 <= j < r2.raw_items.len() implies {
        &&& (#[trigger] r2.raw_items[j]).in_name_block ==> r2.item_stack.contains(j as usize)
        &&& !r2.raw_items[j].in_name_block ==> r2.raw_items[j].name_span is Some
    } by {
        assert(r.raw_items[j].in_name_block ==> r.item_stack.contains(j as usize));
    }
}

/// The item on top of the stack is one the reader has read.
proof fn lemma_current_named(r: ReaderView, len: int)
    requires
        reader_wf(r, len),
        r.item_stack.len() > 0,
    ensures
        0 <= r.item_stack.last() < r.raw_items.len(),
{
    assert(r.item_stack[r.item_stack.len() - 1] < r.raw_items.len());
}

/// The conditions each event is read under.
pub open spec fn step_ready(r: ReaderView, src: Seq<u8>, ev: MdEventView, open: Seq<OpenBlock>) -> bool {
    &&& reader_wf(r, src.len() as int)
    &&& reader_wf(step_spec(r, src, ev), src.len() as int)
    &&& step_spec(r, src, ev).raw_items.len() <= usize::MAX
    &&& tracks_blocks(r, open)
    &&& names_pending(r)
}

/// What each event must keep.
pub open spec fn step_kept(r: ReaderView, src: Seq<u8>, ev: MdEventView, open: Seq<OpenBlock>) -> bool {
    &&& names_pending(step_spec(r, src, ev))
    &&& close_blocks(open, ev) matches Some(next) ==> tracks_blocks(step_spec(r, src, ev), next)
}

proof fn lemma_list_start_kept(r: ReaderView, src: Seq<u8>, ev: MdEventView, open: Seq<OpenBlock>)
    requires
        step_ready(r, src, ev, open),
        ev.kind is ListStart,
    ensures
        step_kept(r, src, ev, open),
{
    let ordered = ev.kind->ordered;
    let sp = clamp_span(ev, src.len() as int);
    let r2 = step_spec(r, src, ev);
    let r1 = match current_index(r) {
        Some(c) => if r.list_depth == r.raw_items[c].list_depth && r.raw_items[c].in_name_block {
            with_item(r, c, finalize_name_spec(r.raw_items[c], src, sp.start as int))
        } else {
            r
        },
        None => r,
    };
    if r.item_stack.len() > 0 {
        let i = r.item_stack.last() as int;
        lemma_current_named(r, src.len() as int);
        lemma_replace_named(r, i, finalize_name_spec(r.raw_items[i], src, sp.start as int));
    }
    assert(names_pending(r1));
    assert(r2.raw_items == r1.raw_items);
    assert(r2.item_stack == r1.item_stack);
    let next = open.push(OpenBlock::List { ordered });
    assert(next.drop_last() =~= open);
    assert(block_lists(next) == block_lists(open).push(ordered));
    assert(list_flags(r2.list_stack) =~= list_flags(r.list_stack).push(ordered));
}

proof fn lemma_list_end_kept(r: ReaderView, src: Seq<u8>, ev: MdEventView, open: Seq<OpenBlock>)
    requires
        step_ready(r, src, ev, open),
        ev.kind is ListEnd,
    ensures
        step_kept(r, src, ev, open),
{
    let sp = clamp_span(ev, src.len() as int);
    let r2 = step_spec(r, src, ev);
    if open.len() > 0 && open.last() is List {
        let next = open.drop_last();
        assert(next.push(open.last()) =~= open);
        assert(block_lists(open) == block_lists(next).push(open.last()->ordered));
        assert(block_lists(next).push(open.last()->ordered).drop_last() =~= block_lists(next));
        assert(outer_items(open) == outer_items(next));
        assert(list_flags(r.list_stack).len() > 0);
    }
    if r.list_stack.len() > 0 {
        let list = r.list_stack.last();
        let r1 = ReaderView {
            list_depth: (r.list_depth - 1) as usize,
            list_stack: r.list_stack.drop_last(),
            ordered_depth: (r.ordered_depth - if list.ordered { 1int } else { 0int }) as usize,
            ..r
        };
        assert(list_flags(r1.list_stack) =~= list_flags(r.list_stack).drop_last());
        assert(names_pending(r1)) by {
            assert forall|j: int| 0 <= j < r1.raw_items.len() implies {
                &&& (#[trigger] r1.raw_items[j]).in_name_block ==> r1.item_stack.contains(j as usize)
                &&& !r1.raw_items[j].in_name_block ==> r1.raw_items[j].name_span is Some
            } by {
                assert(r.raw_items[j].in_name_block ==> r.item_stack.contains(j as usize));
            }
        }
        if r.item_stack.len() > 0 {
            let i = r.item_stack.last() as int;
            lemma_current_named(r, src.len() as int);
            let block = if list.ordered {
                ChildBlock::Description(sp)
            } else {
                ChildBlock::List { range: sp, items: Span { start: list.first_item, end: r1.raw_items.len() as usize } }
            };
            lemma_replace_named(r1, i, push_child_spec(r1.raw_items[i], block));
        }
        assert(r2.list_stack == r1.list_stack);
        assert(r2.item_stack == r1.item_stack);
    }
}

proof fn lemma_item_start_kept(r: ReaderView, src: Seq<u8>, ev: MdEventView, open: Seq<OpenBlock>)
    requires
        step_ready(r, src, ev, open),
        ev.kind is ItemStart,
    ensures
        step_kept(r, src, ev, open),
{
    let sp = clamp_span(ev, src.len() as int);
    let r2 = step_spec(r, src, ev);
    lemma_no_ordered(r.list_stack);
    let next = open.push(OpenBlock::Item);
    assert(next.drop_last() =~= open);
    assert(block_lists(next) == block_lists(open));
    if r.ordered_depth == 0 {
        let parent = match current_index(r) {
            Some(c) => Some(c as usize),
            None => None,
        };
        let item = new_raw(src, parent, sp, r.list_depth, r.sets.current);
        assert(r2.raw_items == r.raw_items.push(item));
        assert(r2.item_stack == r.item_stack.push(r.raw_items.len() as usize));
        assert(r2.list_stack == r.list_stack);
        assert forall|j: int| 0 <= j < r2.raw_items.len() implies {
            &&& (#[trigger] r2.raw_items[j]).in_name_block ==> r2.item_stack.contains(j as usize)
            &&& !r2.raw_items[j].in_name_block ==> r2.raw_items[j].name_span is Some
        } by {
            if j < r.raw_items.len() {
                assert(r2.raw_items[j] == r.raw_items[j]);
                if r.raw_items[j].in_name_block {
                    assert(r.item_stack.contains(j as usize));
                    let p = choose|p: int| 0 <= p < r.item_stack.len() && r.item_stack[p] == j as usize;
                    assert(r2.item_stack[p] == j as usize);
                }
            } else {
                assert(r2.item_stack[r.item_stack.len() as int] == j as usize);
            }
        }
    } else {
        assert(r2 == r);
    }
}

proof fn lemma_item_end_kept(r: ReaderView, src: Seq<u8>, ev: MdEventView, open: Seq<OpenBlock>)
    requires
        step_ready(r, src, ev, open),
        ev.kind is ItemEnd,
    ensures
        step_kept(r, src, ev, open),
{
    let sp = clamp_span(ev, src.len() as int);
    let r2 = step_spec(r, src, ev);
    lemma_no_ordered(r.list_stack);
    if open.len() > 0 && open.last() is Item {
        let next = open.drop_last();
        assert(next.push(OpenBlock::Item) =~= open);
        assert(block_lists(open) == block_lists(next));
    }
    if r.ordered_depth == 0 && r.item_stack.len() > 0 {
        let i = r.item_stack.last() as int;
        lemma_current_named(r, src.len() as int);
        let r1 = ReaderView { item_stack: r.item_stack.drop_last(), ..r };
        let cur = r.raw_items[i];
        let c1 = if cur.in_name_block { finalize_name_spec(cur, src, sp.end as int) } else { cur };
        let done = finalize_item_spec(c1, src);
        assert(r2 == with_item(r1, i, done));
        assert forall|j: int| 0 <= j < r2.raw_items.len() implies {
            &&& (#[trigger] r2.raw_items[j]).in_name_block ==> r2.item_stack.contains(j as usize)
            &&& !r2.raw_items[j].in_name_block ==> r2.raw_items[j].name_span is Some
        } by {
            if j != i {
                assert(r2.raw_items[j] == r.raw_items[j]);
                if r.raw_items[j].in_name_block {
                    assert(r.item_stack.contains(j as usize));
                    let p = choose|p: int| 0 <= p < r.item_stack.len() && r.item_stack[p] == j as usize;
                    assert(p != r.item_stack.len() - 1);
                    assert(r2.item_stack[p] == j as usize);
                }
            }
        }
    } else {
        assert(r2 == r);
    }
}

proof fn lemma_other_kept(r: ReaderView, src: Seq<u8>, ev: MdEventView, open: Seq<OpenBlock>)
    requires
        step_ready(r, src, ev, open),
        !(ev.kind is ListStart),
        !(ev.kind is ListEnd),
        !(ev.kind is ItemStart),
        !(ev.kind is ItemEnd),
    ensures
        step_kept(r, src, ev, open),
{
    let sp = clamp_span(ev, src.len() as int);
    let r2 = step_spec(r, src, ev);
    let has_item = r.item_stack.len() > 0;
    let i = r.item_stack.last() as int;
    if has_item {
        lemma_current_named(r, src.len() as int);
    }
    assert(close_blocks(open, ev) == Some(open));
    match ev.kind {
        MdKindView::HeadingStart { .. } | MdKindView::Rule | MdKindView::CodeBlockStart => {
            if has_item {
                let cur = r.raw_items[i];
                lemma_replace_named(r, i, finalize_name_spec(cur, src, sp.end as int));
                let c1 = if cur.in_name_block { finalize_name_spec(cur, src, sp.start as int) } else { cur };
                lemma_replace_named(r, i, push_child_spec(c1, ChildBlock::Description(sp)));
            }
        },
        MdKindView::ParagraphStart => {
            if has_item {
                lemma_replace_named(r, i, push_child_spec(r.raw_items[i], ChildBlock::Description(sp)));
            }
        },
        MdKindView::ParagraphEnd => {
            if has_item {
                lemma_replace_named(r, i, finalize_name_spec(r.raw_items[i], src, sp.end as int));
            }
        },
        MdKindView::LinkStart { dest } => {
            if has_item {
                lemma_replace_named(r, i, RawView { link: Some(LinkView { range: sp, dest }), ..r.raw_items[i] });
            }
        },
        _ => {},
    }
    assert(r2.item_stack == r.item_stack);
    assert(r2.list_stack == r.list_stack);
}

/// Each event keeps the reader's stacks in step with the blocks the events
/// have left open, and keeps the names pending.
pub proof fn lemma_step_tracks_blocks(r: ReaderView, src: Seq<u8>, ev: MdEventView, open: Seq<OpenBlock>)
    requires
        step_ready(r, src, ev, open),
    ensures
        step_kept(r, src, ev, open),
{
    match ev.kind {
        MdKindView::ListStart { .. } => lemma_list_start_kept(r, src, ev, open),
        MdKindView::ListEnd => lemma_list_end_kept(r, src, ev, open),
        MdKindView::ItemStart => lemma_item_start_kept(r, src, ev, open),
        MdKindView::ItemEnd => lemma_item_end_kept(r, src, ev, open),
        _ => lemma_other_kept(r, src, ev, open),
    }
}

/// With no list or item left open, the reader holds no open item, so every
/// item it read has its name span.
pub proof fn lemma_closed_items_named(r: ReaderView)
    requires
        tracks_blocks(r, Seq::<OpenBlock>::empty()),
        names_pending(r),
    ensures
        forall|i: int| 0 <= i < r.raw_items.len() ==> (#[trigger] r.raw_items[i]).name_span is Some,
{
    assert forall|i: int| 0 <= i < r.raw_items.len() implies (#[trigger] r.raw_items[i]).name_span is Some by {
        if r.raw_items[i].in_name_block {
            assert(r.item_stack.contains(i as usize));
        }
    }
}

} // verus!
