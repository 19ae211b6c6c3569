//! The event-driven half of the plan reader: what each CommonMark event does to
//! the list items read so far, the open lists and the heading scopes.
use indexmap::IndexSet;
use vstd::prelude::*;
use vstd::string::*;

use crate::collections::{items_insert, name_set_insert, name_set_items, name_set_new};
use crate::issue::{ContentView, IssueContent};
use crate::markdown::{MdEvent, MdEventView, MdKind, MdKindView};
use crate::text::{
    clamp_into, clamp_span_into, content_indent, content_start_of, decode_lossy, dedent, dedent_lines, first_line_end,
    first_newline, item_content_start, line_start, span_in, split_id, split_id_prefix, trim_span, trimmed, utf8_lossy,
    Span,
};

verus! {

/// A list the reader is inside.
#[derive(Clone, Copy)]
pub struct OpenList {
    /// Index the first item of this list took among the read items.
    pub first_item: usize,
    /// An ordered list carries no issues, only content.
    pub ordered: bool,
}

/// A direct-child block of an item, in document order.
#[derive(Clone, Copy)]
pub enum ChildBlock {
    /// Description content: a paragraph, a code block, a heading, a `---`, …
    Description(Span),
    /// A nested list, along with the indices of the items it produced.
    List { range: Span, items: Span },
}

pub open spec fn block_range(b: ChildBlock) -> Span {
    match b {
        ChildBlock::Description(r) => r,
        ChildBlock::List { range, .. } => range,
    }
}

fn is_list(b: &ChildBlock) -> (r: bool)
    ensures
        r == (*b is List),
{
    match b {
        ChildBlock::List { .. } => true,
        ChildBlock::Description(_) => false,
    }
}

pub fn child_range(b: &ChildBlock) -> (r: Span)
    ensures
        r == block_range(*b),
{
    match b {
        ChildBlock::Description(r) => *r,
        ChildBlock::List { range, .. } => *range,
    }
}

/// A `[name](file)` link opening an item's first line.
pub struct Filelink {
    pub range: Span,
    pub dest: String,
}

pub struct LinkView {
    pub range: Span,
    pub dest: Seq<char>,
}

pub open spec fn link_view(link: Option<Filelink>) -> Option<LinkView> {
    match link {
        Some(l) => Some(LinkView { range: l.range, dest: l.dest@ }),
        None => None,
    }
}

pub struct Heading {
    pub level: usize,
    pub name: String,
}

pub struct HeadingView {
    pub level: usize,
    pub name: Seq<char>,
}

/// The heading stack, turned into set names: an issue joins the set of the
/// heading scope active where it appears.
pub struct SetTracker {
    pub stack: Vec<Heading>,
    pub current: Option<String>,
    pub names: IndexSet<String>,
    /// Level of the heading being read; its text arrives as separate events.
    pub open_level: Option<usize>,
    pub text: String,
}

pub struct SetsView {
    pub stack: Seq<HeadingView>,
    pub current: Option<Seq<char>>,
    pub names: Seq<Seq<char>>,
    pub open_level: Option<usize>,
    pub text: Seq<char>,
}

pub open spec fn headings_view(stack: Seq<Heading>) -> Seq<HeadingView> {
    Seq::new(stack.len(), |i: int| HeadingView { level: stack[i].level, name: stack[i].name@ })
}

pub open spec fn opt_chars(s: Option<String>) -> Option<Seq<char>> {
    match s {
        Some(t) => Some(t@),
        None => None,
    }
}

impl View for SetTracker {
    type V = SetsView;

    open spec fn view(&self) -> SetsView {
        SetsView {
            stack: headings_view(self.stack@),
            current: opt_chars(self.current),
            names: name_set_items(self.names),
            open_level: self.open_level,
            text: self.text@,
        }
    }
}

/// The stack with every heading of `level` or deeper closed.
pub open spec fn close_scopes(stack: Seq<HeadingView>, level: usize) -> Seq<HeadingView>
    decreases stack.len(),
{
    if stack.len() > 0 && stack.last().level >= level {
        close_scopes(stack.drop_last(), level)
    } else {
        stack
    }
}

/// A heading closes exactly the open scopes of its own level or deeper: what
/// stays open is a prefix of the stack ending, if at all, at a shallower
/// heading, and every heading closed is of `level` or deeper.
pub proof fn lemma_close_keeps_shallower(stack: Seq<HeadingView>, level: usize)
    ensures
        ({
            let kept = close_scopes(stack, level);
            &&& kept.len() <= stack.len()
            &&& kept == stack.take(kept.len() as int)
            &&& kept.len() > 0 ==> stack[kept.len() - 1].level < level
            &&& forall|j: int| kept.len() <= j < stack.len() ==> (#[trigger] stack[j]).level >= level
        }),
    decreases stack.len(),
{
    if stack.len() > 0 && stack.last().level >= level {
        let init = stack.drop_last();
        lemma_close_keeps_shallower(init, level);
        let kept = close_scopes(stack, level);
        assert(stack.take(kept.len() as int) =~= init.take(kept.len() as int));
        assert forall|j: int| kept.len() <= j < stack.len() implies (#[trigger] stack[j]).level >= level by {
            if j < init.len() {
                assert(init[j] == stack[j]);
            }
        }
    } else {
        assert(stack.take(stack.len() as int) =~= stack);
    }
}

/// The heading names of the stack joined with `/`.
pub open spec fn joined_names(stack: Seq<HeadingView>) -> Seq<char>
    decreases stack.len(),
{
    if stack.len() == 0 {
        Seq::empty()
    } else if stack.len() == 1 {
        stack[0].name
    } else {
        joined_names(stack.drop_last()) + seq!['/'] + stack.last().name
    }
}

pub open spec fn sets_open(s: SetsView, level: usize) -> SetsView {
    SetsView { open_level: Some(level), text: Seq::empty(), ..s }
}

pub open spec fn sets_push_text(s: SetsView, text: Seq<char>) -> SetsView {
    SetsView { text: s.text + text, ..s }
}

/// The heading is complete: it replaces the scopes it closes and names the set
/// that follows.
pub open spec fn sets_close(s: SetsView) -> SetsView {
    match s.open_level {
        None => s,
        Some(level) => {
            let stack = close_scopes(s.stack, level).push(HeadingView { level, name: s.text });
            let name = joined_names(stack);
            SetsView {
                stack,
                current: Some(name),
                names: items_insert(s.names, name),
                open_level: None,
                text: Seq::empty(),
            }
        },
    }
}

/// Closing a heading of level `l` keeps the open headings shallower than
/// `l`, a prefix of the stack, closes all the others, and opens the heading
/// itself on top: the set that follows is named by the headings then open,
/// joined with `/`, and is among the set names.
pub proof fn lemma_heading_opens_set(s: SetsView)
    requires
        s.open_level is Some,
    ensures
        ({
            let l = s.open_level->Some_0;
            let r = sets_close(s);
            let kept = r.stack.drop_last();
            &&& r.stack.len() > 0 && r.stack.last() == (HeadingView { level: l, name: s.text })
            &&& kept.len() <= s.stack.len() && kept == s.stack.take(kept.len() as int)
            &&& kept.len() > 0 ==> s.stack[kept.len() - 1].level < l
            &&& forall|j: int| kept.len() <= j < s.stack.len() ==> (#[trigger] s.stack[j]).level >= l
            &&& r.current == Some(joined_names(r.stack))
            &&& r.names.contains(joined_names(r.stack))
            &&& r.open_level is None
        }),
{
    let l = s.open_level->Some_0;
    lemma_close_keeps_shallower(s.stack, l);
    let r = sets_close(s);
    assert(r.stack.drop_last() =~= close_scopes(s.stack, l));
    let name = joined_names(r.stack);
    if !s.names.contains(name) {
        assert(s.names.push(name)[s.names.len() as int] == name);
    }
}

impl SetTracker {
    pub fn new() -> (sets: Self)
        ensures
            sets@ == (SetsView {
                stack: Seq::empty(),
                current: None,
                names: Seq::empty(),
                open_level: None,
                text: Seq::empty(),
            }),
    {
        let sets = SetTracker {
            stack: Vec::new(),
            current: None,
            names: name_set_new(),
            open_level: None,
            text: String::new(),
        };
        assert(sets@.stack =~= Seq::<HeadingView>::empty());
        sets
    }

    fn open(&mut self, level: usize)
        ensures
            final(self)@ == sets_open(old(self)@, level),
    {
        self.open_level = Some(level);
        self.text = String::new();
    }

    fn is_open(&self) -> (open: bool)
        ensures
            open == self@.open_level is Some,
    {
        self.open_level.is_some()
    }

    fn push_text(&mut self, text: &str)
        ensures
            final(self)@ == sets_push_text(old(self)@, text@),
    {
        self.text.append(text);
    }

    fn close(&mut self)
        ensures
            final(self)@ == sets_close(old(self)@),
    {
        let level = match self.open_level {
            Some(level) => level,
            None => {
                return;
            },
        };
        self.open_level = None;
        while self.stack.len() > 0 && self.stack[self.stack.len() - 1].level >= level
            invariant
                close_scopes(headings_view(self.stack@), level) == close_scopes(old(self)@.stack, level),
                self.text@ == old(self)@.text,
                self.names == old(self).names,
                old(self)@.open_level == Some(level),
                self.open_level is None,
            decreases self.stack.len(),
        {
            let ghost before = self.stack@;
            self.stack.pop();
            assert(headings_view(before).drop_last() =~= headings_view(self.stack@));
        }
        assert(close_scopes(headings_view(self.stack@), level) == headings_view(self.stack@));
        let mut name_text = String::new();
        std::mem::swap(&mut name_text, &mut self.text);
        self.stack.push(Heading { level, name: name_text });
        let ghost stack_view = close_scopes(old(self)@.stack, level).push(HeadingView { level, name: old(self)@.text });
        assert(headings_view(self.stack@) =~= stack_view);
        let mut name = String::new();
        let mut i: usize = 0;
        while i < self.stack.len()
            invariant
                i <= self.stack@.len(),
                self.stack@.len() > 0,
                headings_view(self.stack@) == stack_view,
                self.names == old(self).names,
                self.text@ == Seq::<char>::empty(),
                self.open_level is None,
                i == 0 ==> name@ == Seq::<char>::empty(),
                i > 0 ==> name@ == joined_names(stack_view.take(i as int)),
            decreases self.stack.len() - i,
        {
            if i > 0 {
                name.append("/");
                proof {
                    reveal_strlit("/");
                }
            }
            name.append(self.stack[i].name.as_str());
            proof {
                let t = stack_view.take(i + 1);
                assert(t.drop_last() =~= stack_view.take(i as int));
                assert(stack_view[i as int].name == self.stack@[i as int].name@);
            }
            i = i + 1;
        }
        assert(stack_view.take(stack_view.len() as int) =~= stack_view);
        let current = name.clone();
        self.current = Some(current);
        name_set_insert(&mut self.names, name);
    }
}


/// A bullet list item as read so far.
pub struct RawItem {
    pub parent_idx: Option<usize>,
    pub item_range: Span,
    pub list_depth: usize,
    pub set_name: Option<String>,
    /// The item's first block has not been read yet: its first line is the name.
    pub in_name_block: bool,
    /// Source range of that first block. Starts as the whole item and is cut back
    /// to where the next block (a nested list, a code block, …) begins.
    pub name_block: Span,
    /// Column the item's content starts at, used to dedent its description.
    pub content_indent: usize,
    pub link: Option<Filelink>,
    pub children: Vec<ChildBlock>,
    /// Index in `children` where the trailing nested lists — the subissues —
    /// begin; everything before it is description.
    pub subissue_split: usize,
    pub id_override: Option<u64>,
    pub content: IssueContent,
    pub name_span: Option<Span>,
    pub content_span: Option<Span>,
}

pub struct RawView {
    pub parent_idx: Option<usize>,
    pub item_range: Span,
    pub list_depth: usize,
    pub set_name: Option<Seq<char>>,
    pub in_name_block: bool,
    pub name_block: Span,
    pub content_indent: usize,
    pub link: Option<LinkView>,
    pub children: Seq<ChildBlock>,
    pub subissue_split: usize,
    pub id_override: Option<u64>,
    pub content: ContentView,
    pub name_span: Option<Span>,
    pub content_span: Option<Span>,
}

impl View for RawItem {
    type V = RawView;

    open spec fn view(&self) -> RawView {
        RawView {
            parent_idx: self.parent_idx,
            item_range: self.item_range,
            list_depth: self.list_depth,
            set_name: opt_chars(self.set_name),
            in_name_block: self.in_name_block,
            name_block: self.name_block,
            content_indent: self.content_indent,
            link: link_view(self.link),
            children: self.children@,
            subissue_split: self.subissue_split,
            id_override: self.id_override,
            content: self.content@,
            name_span: self.name_span,
            content_span: self.content_span,
        }
    }
}

pub open spec fn opt_span_in(sp: Option<Span>, len: int) -> bool {
    sp matches Some(s) ==> span_in(s, len)
}

/// The spans and indices an item holds stay inside the source (of `len` bytes)
/// and inside the list of `count` items read so far; its parent comes before it.
pub open spec fn raw_wf(r: RawView, len: int, index: int, count: int) -> bool {
    &&& r.parent_idx matches Some(p) ==> p < index
    &&& span_in(r.item_range, len)
    &&& r.name_block.start <= len
    &&& r.name_block.end <= len
    &&& !r.in_name_block ==> r.name_block.start <= r.name_block.end
    &&& r.link matches Some(l) ==> span_in(l.range, len)
    &&& forall|j: int| 0 <= j < r.children.len() ==> span_in(#[trigger] block_range(r.children[j]), len)
    &&& forall|j: int| 0 <= j < r.children.len() ==> (#[trigger] r.children[j] matches ChildBlock::List { items, .. } ==> span_in(items, count))
    &&& r.subissue_split <= r.children.len()
    &&& opt_span_in(r.name_span, len)
    &&& opt_span_in(r.content_span, len)
}

/// Absolute index of the last `](` inside `s..e`.
pub open spec fn last_link_mid(src: Seq<u8>, s: int, e: int) -> Option<int>
    decreases e - s,
{
    if e - s < 2 {
        None
    } else if src[e - 2] == 93 && src[e - 1] == 40 {
        Some(e - 2)
    } else {
        last_link_mid(src, s, e - 1)
    }
}

/// The label of the item's link and where the link ends, when the link has one.
pub open spec fn link_label(src: Seq<u8>, link: Option<LinkView>) -> Option<(Span, int)> {
    match link {
        Some(l) => match last_link_mid(src, l.range.start as int, l.range.end as int) {
            Some(mid) => if l.range.start + 1 <= mid {
                Some((Span { start: (l.range.start + 1) as usize, end: mid as usize }, l.range.end as int))
            } else {
                None
            },
            None => None,
        },
        None => None,
    }
}

/// Split the item's first block, which ends at `block_end`: its first line is
/// the issue name — the label of a `[name](file)` link when one opens it, kept
/// inside the item — and the remainder starts the description.
pub open spec fn finalize_name_spec(cur: RawView, src: Seq<u8>, block_end: int) -> RawView {
    let nb_end = if cur.name_block.end <= block_end { cur.name_block.end as int } else { block_end };
    let nb_end = if nb_end >= cur.name_block.start { nb_end } else { cur.name_block.start as int };
    let block = Span { start: cur.name_block.start, end: nb_end as usize };
    let line_end = first_newline(src, block.start as int, block.end as int);
    let (name, desc_start, link) = match link_label(src, cur.link) {
        Some((label, link_end)) => (label, link_end, cur.link),
        None => (Span { start: block.start, end: line_end as usize }, line_end, None),
    };
    let (id, span) = split_id(src, clamp_into(name, cur.item_range));
    let rest = trimmed(src, Span { start: desc_start as usize, end: block.end });
    RawView {
        in_name_block: false,
        name_block: block,
        link,
        name_span: Some(span),
        id_override: id,
        children: if rest.start < rest.end {
            cur.children.push(ChildBlock::Description(rest))
        } else {
            cur.children
        },
        ..cur
    }
}

/// Number of children before the trailing run of nested lists.
pub open spec fn split_point(children: Seq<ChildBlock>) -> nat
    decreases children.len(),
{
    if children.len() == 0 {
        0
    } else if children.last() is List {
        split_point(children.drop_last())
    } else {
        children.len()
    }
}

/// The description span of the item: from its first description block to the
/// last, kept inside the item and trimmed; `None` when that is empty.
pub open spec fn description_span(cur: RawView, src: Seq<u8>) -> Option<Span> {
    let split = split_point(cur.children);
    if split == 0 {
        None
    } else {
        let d = clamp_into(
            Span { start: block_range(cur.children[0]).start, end: block_range(cur.children[split - 1]).end },
            cur.item_range,
        );
        let t = trimmed(src, d);
        if t.start < t.end {
            Some(t)
        } else {
            None
        }
    }
}

/// Nested lists closing the item are its subissues; the blocks before them,
/// dedented to the item's content column, are its description.
pub open spec fn finalize_item_spec(cur: RawView, src: Seq<u8>) -> RawView {
    let span = description_span(cur, src);
    let text = match span {
        Some(sp) => Some(
            utf8_lossy(dedent(src.subrange(sp.start as int, sp.end as int), cur.content_indent as nat)),
        ),
        None => None,
    };
    RawView {
        subissue_split: split_point(cur.children) as usize,
        content: match cur.link {
            Some(l) => ContentView::Linked { file: l.dest, note: text },
            None => match text {
                Some(t) => ContentView::Inline(t),
                None => ContentView::Empty,
            },
        },
        content_span: span,
        link: None,
        ..cur
    }
}

/// A freshly opened item covering `range`.
pub open spec fn new_raw(src: Seq<u8>, parent: Option<usize>, range: Span, depth: usize, set_name: Option<Seq<char>>) -> RawView {
    let cs = content_start_of(src, range.start as int);
    RawView {
        parent_idx: parent,
        item_range: range,
        list_depth: depth,
        set_name,
        in_name_block: true,
        name_block: Span { start: cs as usize, end: range.end },
        content_indent: (cs - line_start(src, cs)) as usize,
        link: None,
        children: Seq::empty(),
        subissue_split: 0,
        id_override: None,
        content: ContentView::Empty,
        name_span: None,
        content_span: None,
    }
}

pub open spec fn push_child_spec(cur: RawView, block: ChildBlock) -> RawView {
    RawView { children: cur.children.push(block), ..cur }
}

proof fn lemma_split_point_le(children: Seq<ChildBlock>)
    ensures
        split_point(children) <= children.len(),
        split_point(children) > 0 ==> !(children[split_point(children) - 1] is List),
    decreases children.len(),
{
    if children.len() > 0 && children.last() is List {
        lemma_split_point_le(children.drop_last());
        if split_point(children) > 0 {
            assert(children.drop_last()[split_point(children) - 1] == children[split_point(children) - 1]);
        }
    }
}

proof fn lemma_last_link_mid_bounds(src: Seq<u8>, s: int, e: int)
    ensures
        last_link_mid(src, s, e) matches Some(m) ==> s <= m && m + 2 <= e,
    decreases e - s,
{
    if e - s >= 2 && !(src[e - 2] == 93 && src[e - 1] == 40) {
        lemma_last_link_mid_bounds(src, s, e - 1);
    }
}

fn last_link_mid_exec(src: &[u8], s: usize, e: usize) -> (r: Option<usize>)
    requires
        s <= e <= src@.len(),
    ensures
        r is None <==> last_link_mid(src@, s as int, e as int) is None,
        r matches Some(m) ==> last_link_mid(src@, s as int, e as int) == Some(m as int) && s <= m && m + 2 <= e,
{
    proof {
        lemma_last_link_mid_bounds(src@, s as int, e as int);
    }
    let mut end = e;
    while end - s >= 2
        invariant
            s <= end <= e <= src@.len(),
            last_link_mid(src@, s as int, e as int) == last_link_mid(src@, s as int, end as int),
        decreases end,
    {
        if src[end - 2] == 93 && src[end - 1] == 40 {
            return Some(end - 2);
        }
        end = end - 1;
    }
    None
}

fn link_label_exec(src: &[u8], link: &Option<Filelink>) -> (r: Option<(Span, usize)>)
    requires
        link_view(*link) matches Some(l) ==> span_in(l.range, src@.len() as int),
    ensures
        r == match link_label(src@, link_view(*link)) {
            Some((label, e)) => Some((label, e as usize)),
            None => None::<(Span, usize)>,
        },
        r matches Some((label, e)) ==> span_in(label, src@.len() as int) && e <= src@.len(),
{
    let ghost lv = link_view(*link);
    match link {
        Some(l) => {
            assert(lv == Some(LinkView { range: l.range, dest: l.dest@ }));
            let m = last_link_mid_exec(src, l.range.start, l.range.end);
            assert(lv->0.range == l.range);
            match m {
                Some(mid) => {
                    assert(last_link_mid(src@, l.range.start as int, l.range.end as int) == Some(mid as int));
                    if l.range.start + 1 <= mid {
                        Some((Span { start: l.range.start + 1, end: mid }, l.range.end))
                    } else {
                        None
                    }
                },
                None => None,
            }
        },
        None => None,
    }
}

impl RawItem {
    /// A freshly opened item covering `range`.
    fn new(src: &[u8], parent_idx: Option<usize>, item_range: Span, list_depth: usize, set_name: Option<String>) -> (item: Self)
        requires
            span_in(item_range, src@.len() as int),
        ensures
            item@ == new_raw(src@, parent_idx, item_range, list_depth, opt_chars(set_name)),
            item.name_block.start <= src@.len(),
    {
        let content_start = item_content_start(src, item_range.start);
        let name_block = Span { start: content_start, end: item_range.end };
        let indent = content_indent(src, content_start);
        RawItem {
            parent_idx,
            item_range,
            list_depth,
            set_name,
            in_name_block: true,
            name_block,
            content_indent: indent,
            link: None,
            children: Vec::new(),
            subissue_split: 0,
            id_override: None,
            content: IssueContent::Empty,
            name_span: None,
            content_span: None,
        }
    }

    fn push_child(&mut self, block: ChildBlock)
        ensures
            final(self)@ == push_child_spec(old(self)@, block),
    {
        self.children.push(block);
    }

    /// Split the item's first block, which ends at `block_end`, into the issue
    /// name and the start of the description.
    fn finalize_name(&mut self, src: &[u8], block_end: usize)
        requires
            span_in(old(self).item_range, src@.len() as int),
            old(self).name_block.start <= src@.len(),
            old(self).name_block.end <= src@.len(),
            block_end <= src@.len(),
            old(self)@.link matches Some(l) ==> span_in(l.range, src@.len() as int),
        ensures
            final(self)@ == finalize_name_spec(old(self)@, src@, block_end as int),
            forall|index: int, count: int|
                raw_wf(old(self)@, src@.len() as int, index, count) ==> raw_wf(
                    final(self)@,
                    src@.len() as int,
                    index,
                    count,
                ),
    {
        self.in_name_block = false;
        let mut end = if self.name_block.end <= block_end { self.name_block.end } else { block_end };
        if end < self.name_block.start {
            end = self.name_block.start;
        }
        self.name_block.end = end;
        let block = self.name_block;
        let line_end = first_line_end(src, block);
        let label = link_label_exec(src, &self.link);
        let (name, desc_start) = match label {
            Some((label, link_end)) => (label, link_end),
            None => {
                self.link = None;
                (Span { start: block.start, end: line_end }, line_end)
            },
        };
        let name = clamp_span_into(name, self.item_range);
        let (id, span) = split_id_prefix(src, name);
        self.name_span = Some(span);
        self.id_override = id;
        let rest = trim_span(src, Span { start: desc_start, end: block.end });
        if rest.start < rest.end {
            self.children.push(ChildBlock::Description(rest));
        }
    }

    /// Settle the item's subissues, description and content once it ends.
    fn finalize_item(&mut self, src: &[u8])
        requires
            span_in(old(self).item_range, src@.len() as int),
            forall|j: int| 0 <= j < old(self)@.children.len() ==> span_in(#[trigger] block_range(old(self)@.children[j]), src@.len() as int),
        ensures
            final(self)@ == finalize_item_spec(old(self)@, src@),
            forall|index: int, count: int|
                raw_wf(old(self)@, src@.len() as int, index, count) ==> raw_wf(
                    final(self)@,
                    src@.len() as int,
                    index,
                    count,
                ),
    {
        let n = self.children.len();
        let mut split = n;
        assert(self.children@.take(n as int) =~= self.children@);
        while split > 0 && is_list(&self.children[split - 1])
            invariant
                split <= n == self.children@.len(),
                split_point(self.children@.take(split as int)) == split_point(self.children@),
            decreases split,
        {
            assert(self.children@.take(split as int).drop_last() =~= self.children@.take(split - 1));
            split = split - 1;
        }
        proof {
            assert(self.children@.take(n as int) =~= self.children@);
            if split > 0 {
                assert(split_point(self.children@.take(split as int)) == split);
            } else {
                assert(split_point(self.children@.take(0)) == 0);
            }
        }
        self.subissue_split = split;
        let span: Option<Span> = if split > 0 {
            let first = child_range(&self.children[0]);
            let last = child_range(&self.children[split - 1]);
            let d = clamp_span_into(Span { start: first.start, end: last.end }, self.item_range);
            let t = trim_span(src, d);
            if t.start < t.end {
                Some(t)
            } else {
                None
            }
        } else {
            None
        };
        let text: Option<String> = match span {
            Some(sp) => {
                let bytes = dedent_lines(src, sp, self.content_indent);
                Some(decode_lossy(bytes.as_slice()))
            },
            None => None,
        };
        let mut link: Option<Filelink> = None;
        std::mem::swap(&mut link, &mut self.link);
        self.content = match link {
            Some(link) => IssueContent::Linked { file: link.dest, note: text },
            None => match text {
                Some(t) => IssueContent::Inline(t),
                None => IssueContent::Empty,
            },
        };
        self.content_span = span;
    }
}


/// Everything the reader keeps while it walks the events.
pub struct Reader {
    pub raw_items: Vec<RawItem>,
    pub item_stack: Vec<usize>,
    pub list_stack: Vec<OpenList>,
    pub list_depth: usize,
    /// Anything below an ordered list is content, however it is marked up.
    pub ordered_depth: usize,
    pub sets: SetTracker,
}

pub struct ReaderView {
    pub raw_items: Seq<RawView>,
    pub item_stack: Seq<usize>,
    pub list_stack: Seq<OpenList>,
    pub list_depth: usize,
    pub ordered_depth: usize,
    pub sets: SetsView,
}

pub open spec fn raws_view(items: Seq<RawItem>) -> Seq<RawView> {
    Seq::new(items.len(), |i: int| items[i]@)
}

impl View for Reader {
    type V = ReaderView;

    open spec fn view(&self) -> ReaderView {
        ReaderView {
            raw_items: raws_view(self.raw_items@),
            item_stack: self.item_stack@,
            list_stack: self.list_stack@,
            list_depth: self.list_depth,
            ordered_depth: self.ordered_depth,
            sets: self.sets@,
        }
    }
}

pub open spec fn count_ordered(lists: Seq<OpenList>) -> nat
    decreases lists.len(),
{
    if lists.len() == 0 {
        0
    } else {
        count_ordered(lists.drop_last()) + if lists.last().ordered { 1nat } else { 0nat }
    }
}

proof fn lemma_count_ordered_le(lists: Seq<OpenList>)
    ensures
        count_ordered(lists) <= lists.len(),
    decreases lists.len(),
{
    if lists.len() > 0 {
        lemma_count_ordered_le(lists.drop_last());
    }
}

/// Indices on the stacks point at items read so far, the depth counters agree
/// with the open lists, and every item is well formed.
pub open spec fn reader_wf(r: ReaderView, len: int) -> bool {
    &&& forall|i: int| 0 <= i < r.item_stack.len() ==> #[trigger] r.item_stack[i] < r.raw_items.len()
    &&& forall|i: int| 0 <= i < r.list_stack.len() ==> #[trigger] r.list_stack[i].first_item <= r.raw_items.len()
    &&& r.list_depth == r.list_stack.len()
    &&& r.ordered_depth == count_ordered(r.list_stack)
    &&& forall|i: int| 0 <= i < r.raw_items.len() ==> raw_wf(#[trigger] r.raw_items[i], len, i, r.raw_items.len() as int)
}

pub open spec fn initial_reader() -> ReaderView {
    ReaderView {
        raw_items: Seq::empty(),
        item_stack: Seq::empty(),
        list_stack: Seq::empty(),
        list_depth: 0,
        ordered_depth: 0,
        sets: SetsView {
            stack: Seq::empty(),
            current: None,
            names: Seq::empty(),
            open_level: None,
            text: Seq::empty(),
        },
    }
}

/// The event's range, cut to the source.
pub open spec fn clamp_span(ev: MdEventView, len: int) -> Span {
    let e = if ev.end <= len { ev.end } else { len as usize };
    let s = if ev.start <= e { ev.start } else { e };
    Span { start: s, end: e }
}

/// The item the reader is inside, if any.
pub open spec fn current_index(r: ReaderView) -> Option<int> {
    if r.item_stack.len() > 0 {
        Some(r.item_stack.last() as int)
    } else {
        None
    }
}

pub open spec fn with_item(r: ReaderView, i: int, item: RawView) -> ReaderView {
    ReaderView { raw_items: r.raw_items.update(i, item), ..r }
}

/// A nested list ends the item's name line, whatever it turns out to be.
pub open spec fn on_list_start(r: ReaderView, src: Seq<u8>, sp: Span, ordered: bool) -> ReaderView {
    let r1 = match current_index(r) {
        Some(i) => if r.list_depth == r.raw_items[i].list_depth && r.raw_items[i].in_name_block {
            with_item(r, i, finalize_name_spec(r.raw_items[i], src, sp.start as int))
        } else {
            r
        },
        None => r,
    };
    ReaderView {
        ordered_depth: (r1.ordered_depth + if ordered { 1int } else { 0int }) as usize,
        list_stack: r1.list_stack.push(OpenList { first_item: r1.raw_items.len() as usize, ordered }),
        list_depth: (r1.list_depth + 1) as usize,
        ..r1
    }
}

/// Only a bullet list can hold subissues; an ordered one is content.
pub open spec fn on_list_end(r: ReaderView, sp: Span) -> ReaderView {
    if r.list_stack.len() == 0 {
        r
    } else {
        let list = r.list_stack.last();
        let r1 = ReaderView {
            list_depth: (r.list_depth - 1) as usize,
            list_stack: r.list_stack.drop_last(),
            ordered_depth: (r.ordered_depth - if list.ordered { 1int } else { 0int }) as usize,
            ..r
        };
        match current_index(r1) {
            Some(i) => if r1.list_depth == r1.raw_items[i].list_depth {
                with_item(
                    r1,
                    i,
                    push_child_spec(
                        r1.raw_items[i],
                        if list.ordered {
                            ChildBlock::Description(sp)
                        } else {
                            ChildBlock::List {
                                range: sp,
                                items: Span { start: list.first_item, end: r1.raw_items.len() as usize },
                            }
                        },
                    ),
                )
            } else {
                r1
            },
            None => r1,
        }
    }
}

/// A block at the item's own level (a code block, a `---`, a heading) is
/// description content; it ends the name block if that is still open.
pub open spec fn on_block(r: ReaderView, src: Seq<u8>, sp: Span) -> ReaderView {
    match current_index(r) {
        Some(i) => if r.list_depth == r.raw_items[i].list_depth {
            let cur = r.raw_items[i];
            let c1 = if cur.in_name_block { finalize_name_spec(cur, src, sp.start as int) } else { cur };
            with_item(r, i, push_child_spec(c1, ChildBlock::Description(sp)))
        } else {
            r
        },
        None => r,
    }
}

/// Outside an item a heading opens a set scope; inside one it is description
/// content, except that a setext heading opening at the item's first line
/// keeps that line as the name.
pub open spec fn on_heading_start(r: ReaderView, src: Seq<u8>, sp: Span, level: usize) -> ReaderView {
    match current_index(r) {
        None => ReaderView { sets: sets_open(r.sets, level), ..r },
        Some(i) => {
            let cur = r.raw_items[i];
            if r.list_depth == cur.list_depth && cur.in_name_block && cur.name_block.start == sp.start {
                with_item(r, i, finalize_name_spec(cur, src, sp.end as int))
            } else {
                on_block(r, src, sp)
            }
        },
    }
}

pub open spec fn on_item_start(r: ReaderView, src: Seq<u8>, sp: Span) -> ReaderView {
    if r.ordered_depth == 0 {
        let parent = match current_index(r) {
            Some(i) => Some(i as usize),
            None => None,
        };
        let item = new_raw(src, parent, sp, r.list_depth, r.sets.current);
        ReaderView {
            raw_items: r.raw_items.push(item),
            item_stack: r.item_stack.push(r.raw_items.len() as usize),
            ..r
        }
    } else {
        r
    }
}

pub open spec fn on_item_end(r: ReaderView, src: Seq<u8>, sp: Span) -> ReaderView {
    if r.ordered_depth == 0 && r.item_stack.len() > 0 {
        let i = r.item_stack.last() as int;
        let r1 = ReaderView { item_stack: r.item_stack.drop_last(), ..r };
        let cur = r.raw_items[i];
        let c1 = if cur.in_name_block { finalize_name_spec(cur, src, sp.end as int) } else { cur };
        with_item(r1, i, finalize_item_spec(c1, src))
    } else {
        r
    }
}

pub open spec fn on_paragraph_start(r: ReaderView, sp: Span) -> ReaderView {
    match current_index(r) {
        Some(i) => if r.list_depth == r.raw_items[i].list_depth && !r.raw_items[i].in_name_block {
            with_item(r, i, push_child_spec(r.raw_items[i], ChildBlock::Description(sp)))
        } else {
            r
        },
        None => r,
    }
}

/// Only a loose list reports paragraphs; the end of one bounds the name block.
pub open spec fn on_paragraph_end(r: ReaderView, src: Seq<u8>, sp: Span) -> ReaderView {
    match current_index(r) {
        Some(i) => if r.raw_items[i].in_name_block {
            with_item(r, i, finalize_name_spec(r.raw_items[i], src, sp.end as int))
        } else {
            r
        },
        None => r,
    }
}

pub open spec fn on_text(r: ReaderView, text: Seq<char>) -> ReaderView {
    if r.sets.open_level is Some {
        ReaderView { sets: sets_push_text(r.sets, text), ..r }
    } else {
        r
    }
}

/// Only a link opening the name line makes the issue a linked one.
pub open spec fn on_link_start(r: ReaderView, sp: Span, dest: Seq<char>) -> ReaderView {
    match current_index(r) {
        Some(i) => if r.raw_items[i].in_name_block && r.raw_items[i].name_block.start == sp.start {
            with_item(r, i, RawView { link: Some(LinkView { range: sp, dest }), ..r.raw_items[i] })
        } else {
            r
        },
        None => r,
    }
}

/// What one event does to the reader.
pub open spec fn step_spec(r: ReaderView, src: Seq<u8>, ev: MdEventView) -> ReaderView {
    let sp = clamp_span(ev, src.len() as int);
    match ev.kind {
        MdKindView::ListStart { ordered } => on_list_start(r, src, sp, ordered),
        MdKindView::ListEnd => on_list_end(r, sp),
        MdKindView::HeadingStart { level } => on_heading_start(r, src, sp, level),
        MdKindView::HeadingEnd => ReaderView { sets: sets_close(r.sets), ..r },
        MdKindView::Rule => on_block(r, src, sp),
        MdKindView::ItemStart => on_item_start(r, src, sp),
        MdKindView::ItemEnd => on_item_end(r, src, sp),
        MdKindView::ParagraphStart => on_paragraph_start(r, sp),
        MdKindView::ParagraphEnd => on_paragraph_end(r, src, sp),
        MdKindView::CodeBlockStart => on_block(r, src, sp),
        MdKindView::Text(text) => on_text(r, text),
        MdKindView::Code(text) => on_text(r, text),
        MdKindView::LinkStart { dest } => on_link_start(r, sp, dest),
        MdKindView::Other => r,
    }
}

/// The reader after the events, one by one from the start.
pub open spec fn read_events(src: Seq<u8>, events: Seq<MdEventView>) -> ReaderView
    decreases events.len(),
{
    if events.len() == 0 {
        initial_reader()
    } else {
        step_spec(read_events(src, events.drop_last()), src, events.last())
    }
}

impl Reader {
    pub fn new() -> (r: Self)
        ensures
            r@ == initial_reader(),
            reader_wf(r@, 0),
    {
        let r = Reader {
            raw_items: Vec::new(),
            item_stack: Vec::new(),
            list_stack: Vec::new(),
            list_depth: 0,
            ordered_depth: 0,
            sets: SetTracker::new(),
        };
        assert(r@.raw_items =~= Seq::<RawView>::empty());
        r
    }

    fn current(&self) -> (cur: Option<usize>)
        ensures
            match current_index(self@) {
                Some(i) => cur == Some(i as usize),
                None => cur is None,
            },
    {
        let n = self.item_stack.len();
        if n > 0 {
            Some(self.item_stack[n - 1])
        } else {
            None
        }
    }

    fn finalize_name_at(&mut self, src: &[u8], idx: usize, block_end: usize)
        requires
            reader_wf(old(self)@, src@.len() as int),
            idx < old(self)@.raw_items.len(),
            block_end <= src@.len(),
        ensures
            final(self)@ == with_item(
                old(self)@,
                idx as int,
                finalize_name_spec(old(self)@.raw_items[idx as int], src@, block_end as int),
            ),
            reader_wf(final(self)@, src@.len() as int),
    {
        let ghost before = self@;
        assert(raw_wf(before.raw_items[idx as int], src@.len() as int, idx as int, before.raw_items.len() as int));
        self.raw_items[idx as usize].finalize_name(src, block_end);
        assert(self@.raw_items =~= before.raw_items.update(idx as int, self.raw_items@[idx as int]@));
    }

    fn push_child_at(&mut self, idx: usize, block: ChildBlock, Ghost(len): Ghost<int>)
        requires
            reader_wf(old(self)@, len),
            idx < old(self)@.raw_items.len(),
            span_in(block_range(block), len),
            block matches ChildBlock::List { items, .. } ==> span_in(items, old(self)@.raw_items.len() as int),
        ensures
            final(self)@ == with_item(old(self)@, idx as int, push_child_spec(old(self)@.raw_items[idx as int], block)),
            reader_wf(final(self)@, len),
    {
        let ghost before = self@;
        self.raw_items[idx as usize].push_child(block);
        assert(self@.raw_items =~= before.raw_items.update(idx as int, self.raw_items@[idx as int]@));
        let ghost item = self@.raw_items[idx as int];
        assert forall|j: int| 0 <= j < item.children.len() implies span_in(#[trigger] block_range(item.children[j]), len) by {
            if j < item.children.len() - 1 {
                assert(item.children[j] == before.raw_items[idx as int].children[j]);
            }
        }
        assert forall|j: int| 0 <= j < item.children.len() implies (#[trigger] item.children[j] matches ChildBlock::List { items, .. } ==> span_in(items, self@.raw_items.len() as int)) by {
            if j < item.children.len() - 1 {
                assert(item.children[j] == before.raw_items[idx as int].children[j]);
            }
        }
    }
}


impl Reader {
    fn list_start(&mut self, src: &[u8], sp: Span, ordered: bool)
        requires
            reader_wf(old(self)@, src@.len() as int),
            span_in(sp, src@.len() as int),
        ensures
            final(self)@ == on_list_start(old(self)@, src@, sp, ordered),
            reader_wf(final(self)@, src@.len() as int),
    {
        match self.current() {
            Some(i) => {
                if self.list_depth == self.raw_items[i].list_depth && self.raw_items[i].in_name_block {
                    self.finalize_name_at(src, i, sp.start);
                }
            },
            None => {},
        }
        let ghost mid = self@;
        proof {
            lemma_count_ordered_le(self.list_stack@);
        }
        self.list_stack.push(OpenList { first_item: self.raw_items.len(), ordered });
        let depth = self.list_stack.len();
        self.list_depth = depth;
        if ordered {
            self.ordered_depth = self.ordered_depth + 1;
        }
        assert(self.list_stack@.drop_last() =~= mid.list_stack);
    }

    fn list_end(&mut self, sp: Span, Ghost(len): Ghost<int>)
        requires
            reader_wf(old(self)@, len),
            span_in(sp, len),
        ensures
            final(self)@ == on_list_end(old(self)@, sp),
            reader_wf(final(self)@, len),
    {
        if self.list_stack.len() == 0 {
            return;
        }
        let list = self.list_stack.pop().unwrap();
        self.list_depth = self.list_depth - 1;
        if list.ordered {
            self.ordered_depth = self.ordered_depth - 1;
        }
        let item_count = self.raw_items.len();
        match self.current() {
            Some(i) => {
                if self.list_depth == self.raw_items[i].list_depth {
                    let block = if list.ordered {
                        ChildBlock::Description(sp)
                    } else {
                        ChildBlock::List { range: sp, items: Span { start: list.first_item, end: item_count } }
                    };
                    self.push_child_at(i, block, Ghost(len));
                }
            },
            None => {},
        }
    }

    fn block(&mut self, src: &[u8], sp: Span)
        requires
            reader_wf(old(self)@, src@.len() as int),
            span_in(sp, src@.len() as int),
        ensures
            final(self)@ == on_block(old(self)@, src@, sp),
            reader_wf(final(self)@, src@.len() as int),
    {
        let ghost r0 = self@;
        match self.current() {
            Some(i) => {
                if self.list_depth == self.raw_items[i].list_depth {
                    let ghost cur = r0.raw_items[i as int];
                    if self.raw_items[i].in_name_block {
                        self.finalize_name_at(src, i, sp.start);
                    }
                    let ghost c1 = if cur.in_name_block { finalize_name_spec(cur, src@, sp.start as int) } else { cur };
                    assert(self@.raw_items =~= r0.raw_items.update(i as int, c1));
                    self.push_child_at(i, ChildBlock::Description(sp), Ghost(src@.len() as int));
                    assert(self@.raw_items =~= r0.raw_items.update(i as int, push_child_spec(c1, ChildBlock::Description(sp))));
                }
            },
            None => {},
        }
    }

    fn heading_start(&mut self, src: &[u8], sp: Span, level: usize)
        requires
            reader_wf(old(self)@, src@.len() as int),
            span_in(sp, src@.len() as int),
        ensures
            final(self)@ == on_heading_start(old(self)@, src@, sp, level),
            reader_wf(final(self)@, src@.len() as int),
    {
        match self.current() {
            None => self.sets.open(level),
            Some(i) => {
                if self.list_depth == self.raw_items[i].list_depth && self.raw_items[i].in_name_block
                    && self.raw_items[i].name_block.start == sp.start {
                    self.finalize_name_at(src, i, sp.end);
                } else {
                    self.block(src, sp);
                }
            },
        }
    }

    fn item_start(&mut self, src: &[u8], sp: Span)
        requires
            reader_wf(old(self)@, src@.len() as int),
            span_in(sp, src@.len() as int),
        ensures
            final(self)@ == on_item_start(old(self)@, src@, sp),
            reader_wf(final(self)@, src@.len() as int),
    {
        if self.ordered_depth == 0 {
            let ghost before = self@;
            let parent = self.current();
            let set_name = match &self.sets.current {
                Some(name) => Some(name.clone()),
                None => None,
            };
            let item = RawItem::new(src, parent, sp, self.list_depth, set_name);
            let idx = self.raw_items.len();
            self.raw_items.push(item);
            self.item_stack.push(idx);
            assert(self@.raw_items =~= before.raw_items.push(item@));
            assert forall|i: int| 0 <= i < self@.raw_items.len() implies raw_wf(#[trigger] self@.raw_items[i], src@.len() as int, i, self@.raw_items.len() as int) by {
                if i < before.raw_items.len() {
                    assert(raw_wf(before.raw_items[i], src@.len() as int, i, before.raw_items.len() as int));
                }
            }
        }
    }

    fn item_end(&mut self, src: &[u8], sp: Span)
        requires
            reader_wf(old(self)@, src@.len() as int),
            span_in(sp, src@.len() as int),
        ensures
            final(self)@ == on_item_end(old(self)@, src@, sp),
            reader_wf(final(self)@, src@.len() as int),
    {
        if self.ordered_depth == 0 && self.item_stack.len() > 0 {
            let ghost r0 = self@;
            assert(r0.item_stack[r0.item_stack.len() - 1] < r0.raw_items.len());
            let idx = self.item_stack.pop().unwrap();
            assert(self@.item_stack =~= r0.item_stack.drop_last());
            let ghost cur = r0.raw_items[idx as int];
            if self.raw_items[idx].in_name_block {
                self.finalize_name_at(src, idx, sp.end);
            }
            let ghost c1 = if cur.in_name_block { finalize_name_spec(cur, src@, sp.end as int) } else { cur };
            let ghost before = self@;
            assert(before.raw_items =~= r0.raw_items.update(idx as int, c1));
            assert(raw_wf(before.raw_items[idx as int], src@.len() as int, idx as int, before.raw_items.len() as int));
            self.raw_items[idx].finalize_item(src);
            assert(self@.raw_items =~= before.raw_items.update(idx as int, self.raw_items@[idx as int]@));
            assert(self@.raw_items =~= r0.raw_items.update(idx as int, finalize_item_spec(c1, src@)));
        }
    }

    fn paragraph_start(&mut self, sp: Span, Ghost(len): Ghost<int>)
        requires
            reader_wf(old(self)@, len),
            span_in(sp, len),
        ensures
            final(self)@ == on_paragraph_start(old(self)@, sp),
            reader_wf(final(self)@, len),
    {
        match self.current() {
            Some(i) => {
                if self.list_depth == self.raw_items[i].list_depth && !self.raw_items[i].in_name_block {
                    self.push_child_at(i, ChildBlock::Description(sp), Ghost(len));
                }
            },
            None => {},
        }
    }

    fn paragraph_end(&mut self, src: &[u8], sp: Span)
        requires
            reader_wf(old(self)@, src@.len() as int),
            span_in(sp, src@.len() as int),
        ensures
            final(self)@ == on_paragraph_end(old(self)@, src@, sp),
            reader_wf(final(self)@, src@.len() as int),
    {
        match self.current() {
            Some(i) => {
                if self.raw_items[i].in_name_block {
                    self.finalize_name_at(src, i, sp.end);
                }
            },
            None => {},
        }
    }

    fn text(&mut self, text: &str)
        ensures
            final(self)@ == on_text(old(self)@, text@),
            forall|len: int| reader_wf(old(self)@, len) ==> reader_wf(final(self)@, len),
    {
        if self.sets.is_open() {
            self.sets.push_text(text);
        }
    }

    fn link_start(&mut self, sp: Span, dest: &str, Ghost(len): Ghost<int>)
        requires
            reader_wf(old(self)@, len),
            span_in(sp, len),
        ensures
            final(self)@ == on_link_start(old(self)@, sp, dest@),
            reader_wf(final(self)@, len),
    {
        match self.current() {
            Some(i) => {
                if self.raw_items[i].in_name_block && self.raw_items[i].name_block.start == sp.start {
                    let ghost before = self@;
                    self.raw_items[i].link = Some(Filelink { range: sp, dest: String::from_str(dest) });
                    assert(self@.raw_items =~= before.raw_items.update(i as int, self.raw_items@[i as int]@));
                }
            },
            None => {},
        }
    }

    /// What one event does to the reader.
    pub fn step(&mut self, src: &[u8], ev: &MdEvent)
        requires
            reader_wf(old(self)@, src@.len() as int),
        ensures
            final(self)@ == step_spec(old(self)@, src@, ev@),
            reader_wf(final(self)@, src@.len() as int),
    {
        let len = src.len();
        let end = if ev.end <= len { ev.end } else { len };
        let start = if ev.start <= end { ev.start } else { end };
        let sp = Span { start, end };
        let ghost l = src@.len() as int;
        match &ev.kind {
            MdKind::ListStart { first_number } => self.list_start(src, sp, first_number.is_some()),
            MdKind::ListEnd => self.list_end(sp, Ghost(l)),
            MdKind::HeadingStart { level } => self.heading_start(src, sp, *level),
            MdKind::HeadingEnd => self.sets.close(),
            MdKind::Rule => self.block(src, sp),
            MdKind::ItemStart => self.item_start(src, sp),
            MdKind::ItemEnd => self.item_end(src, sp),
            MdKind::ParagraphStart => self.paragraph_start(sp, Ghost(l)),
            MdKind::ParagraphEnd => self.paragraph_end(src, sp),
            MdKind::CodeBlockStart => self.block(src, sp),
            MdKind::Text(text) => self.text(text.as_str()),
            MdKind::Code(text) => self.text(text.as_str()),
            MdKind::LinkStart { dest } => self.link_start(sp, dest.as_str(), Ghost(l)),
            MdKind::Other => {},
        }
    }
}

} // verus!
