//! The CommonMark events the plan reader consumes, as `pulldown-cmark` reports
//! them for a source, each with the byte range it covers.
use pulldown_cmark::{Event, Options, Parser, Tag, TagEnd};
use vstd::prelude::*;

verus! {

#[verifier::external_type_specification]
#[verifier::external_body]
pub struct ExEvent<'a>(Event<'a>);

#[verifier::external_type_specification]
#[verifier::external_body]
pub struct ExTag<'a>(Tag<'a>);

#[verifier::external_type_specification]
#[verifier::external_body]
pub struct ExTagEnd(TagEnd);

/// What an event is, as far as the plan reader tells events apart.
#[derive(Debug)]
pub enum MdKind {
    /// Start of a list; an ordered one (`1.`) carries its first number.
    ListStart { first_number: Option<u64> },
    ListEnd,
    /// Start of a heading of level 1 to 6.
    HeadingStart { level: usize },
    HeadingEnd,
    /// A thematic break (`---`).
    Rule,
    ItemStart,
    ItemEnd,
    ParagraphStart,
    ParagraphEnd,
    CodeBlockStart,
    /// Text.
    Text(String),
    /// The content of an inline code span.
    Code(String),
    /// Start of a link to `dest`.
    LinkStart { dest: String },
    /// Any other event.
    Other,
}

pub enum MdKindView {
    ListStart { ordered: bool },
    ListEnd,
    HeadingStart { level: usize },
    HeadingEnd,
    Rule,
    ItemStart,
    ItemEnd,
    ParagraphStart,
    ParagraphEnd,
    CodeBlockStart,
    Text(Seq<char>),
    Code(Seq<char>),
    LinkStart { dest: Seq<char> },
    Other,
}

impl View for MdKind {
    type V = MdKindView;

    open spec fn view(&self) -> MdKindView {
        match self {
            MdKind::ListStart { first_number } => MdKindView::ListStart { ordered: first_number is Some },
            MdKind::ListEnd => MdKindView::ListEnd,
            MdKind::HeadingStart { level } => MdKindView::HeadingStart { level: *level },
            MdKind::HeadingEnd => MdKindView::HeadingEnd,
            MdKind::Rule => MdKindView::Rule,
            MdKind::ItemStart => MdKindView::ItemStart,
            MdKind::ItemEnd => MdKindView::ItemEnd,
            MdKind::ParagraphStart => MdKindView::ParagraphStart,
            MdKind::ParagraphEnd => MdKindView::ParagraphEnd,
            MdKind::CodeBlockStart => MdKindView::CodeBlockStart,
            MdKind::Text(text) => MdKindView::Text(text@),
            MdKind::Code(text) => MdKindView::Code(text@),
            MdKind::LinkStart { dest } => MdKindView::LinkStart { dest: dest@ },
            MdKind::Other => MdKindView::Other,
        }
    }
}

/// An event and the byte range `start..end` of the source it covers.
#[derive(Debug)]
pub struct MdEvent {
    pub kind: MdKind,
    pub start: usize,
    pub end: usize,
}

pub struct MdEventView {
    pub kind: MdKindView,
    pub start: usize,
    pub end: usize,
}

impl View for MdEvent {
    type V = MdEventView;

    open spec fn view(&self) -> MdEventView {
        MdEventView { kind: self.kind@, start: self.start, end: self.end }
    }
}

/// A list or a list item that the events have opened and not yet closed.
pub enum OpenBlock {
    Item,
    List { ordered: bool },
}

/// The blocks left open once `ev` follows events that left `open` open;
/// `None` when `ev` closes a list or an item that is not the innermost one
/// open. Events other than the starts and ends of lists and items leave the
/// blocks as they are.
pub open spec fn close_blocks(open: Seq<OpenBlock>, ev: MdEventView) -> Option<Seq<OpenBlock>> {
    match ev.kind {
        MdKindView::ItemStart => Some(open.push(OpenBlock::Item)),
        MdKindView::ListStart { ordered } => Some(open.push(OpenBlock::List { ordered })),
        MdKindView::ItemEnd => if open.len() > 0 && open.last() is Item {
            Some(open.drop_last())
        } else {
            None
        },
        MdKindView::ListEnd => if open.len() > 0 && open.last() is List {
            Some(open.drop_last())
        } else {
            None
        },
        _ => Some(open),
    }
}

/// The lists and items that `events` leave open, innermost last; `None` when
/// an event closes one out of turn.
pub open spec fn open_blocks(events: Seq<MdEventView>) -> Option<Seq<OpenBlock>>
    decreases events.len(),
{
    if events.len() == 0 {
        Some(Seq::empty())
    } else {
        match open_blocks(events.drop_last()) {
            Some(open) => close_blocks(open, events.last()),
            None => None,
        }
    }
}

/// Every list and every item that `events` open, they close again, innermost
/// first.
pub open spec fn balanced(events: Seq<MdEventView>) -> bool {
    open_blocks(events) == Some(Seq::<OpenBlock>::empty())
}

/// Bit of `pulldown_cmark::Options::ENABLE_TABLES`.
pub const ENABLE_TABLES: u32 = 2;

/// Bit of `pulldown_cmark::Options::ENABLE_FOOTNOTES`.
pub const ENABLE_FOOTNOTES: u32 = 4;

/// Bit of `pulldown_cmark::Options::ENABLE_STRIKETHROUGH`.
pub const ENABLE_STRIKETHROUGH: u32 = 8;

/// The events `pulldown-cmark` reports for `source` with the extensions whose
/// bits `options` holds enabled.
pub uninterp spec fn commonmark_events(source: Seq<char>, options: u32) -> Seq<MdEventView>;

/// Tells the start tags of `pulldown-cmark` apart.
#[verifier::external_body]
fn opening_kind(tag: Tag) -> MdKind {
    match tag {
        Tag::List(first_number) => MdKind::ListStart { first_number },
        Tag::Heading { level, .. } => MdKind::HeadingStart { level: level as usize },
        Tag::Item => MdKind::ItemStart,
        Tag::Paragraph => MdKind::ParagraphStart,
        Tag::CodeBlock(_) => MdKind::CodeBlockStart,
        Tag::Link { dest_url, .. } => MdKind::LinkStart { dest: dest_url.into_string() },
        _ => MdKind::Other,
    }
}

/// Tells the end tags of `pulldown-cmark` apart.
#[verifier::external_body]
fn closing_kind(tag: TagEnd) -> MdKind {
    match tag {
        TagEnd::List(_) => MdKind::ListEnd,
        TagEnd::Heading(_) => MdKind::HeadingEnd,
        TagEnd::Item => MdKind::ItemEnd,
        TagEnd::Paragraph => MdKind::ParagraphEnd,
        _ => MdKind::Other,
    }
}

/// Tells the events of `pulldown-cmark` apart.
#[verifier::external_body]
fn event_kind(event: Event) -> MdKind {
    match event {
        Event::Start(tag) => opening_kind(tag),
        Event::End(tag) => closing_kind(tag),
        Event::Text(text) => MdKind::Text(text.into_string()),
        Event::Code(text) => MdKind::Code(text.into_string()),
        Event::Rule => MdKind::Rule,
        _ => MdKind::Other,
    }
}

/// Runs `pulldown_cmark::Parser::new_ext(..).into_offset_iter()` over `source`,
/// with the options whose bits `options` holds (`Options::from_bits_truncate`),
/// and hands out each event with its byte range. Claims that the result is a
/// function of `source` and `options` alone, and that the starts and ends of
/// lists and list items nest, as the documentation of `Event::Start` promises
/// ("Start and end events are guaranteed to be balanced"). Nothing is claimed
/// of the ranges, nor of which events a given source yields.
#[verifier::external_body]
pub(crate) fn markdown_events(source: &str, options: u32) -> (events: Vec<MdEvent>)
    ensures
        events@.len() == commonmark_events(source@, options).len(),
        forall|i: int| 0 <= i < events@.len() ==> #[trigger] events@[i]@ == commonmark_events(source@, options)[i],
        balanced(crate::parse::events_view(events@)),
{
    let options = Options::from_bits_truncate(options);
    let events = Parser::new_ext(source, options).into_offset_iter();
    events.map(|(event, range)| MdEvent { kind: event_kind(event), start: range.start, end: range.end }).collect()
}

} // verus!
