//! The events that a markdown text is made of, read with `pulldown-cmark`.
//!
//! The parser hands out values of its own types. They are read here, once, into
//! the types of this module, which hold what the renderer needs as plain values.

use crate::table::Align;
use pulldown_cmark::{Alignment, CodeBlockKind, Event, Options, Parser, Tag, TagEnd};
use vstd::prelude::*;

verus! {

/// The start of an element.
pub enum MdTag {
    Paragraph,
    /// A heading of a level from one to six.
    Heading(u8),
    BlockQuote,
    /// A list; an ordered one with the number of its first item.
    List(Option<u64>),
    Item,
    /// A code block; a fenced one with its language, which may be empty.
    CodeBlock(Option<String>),
    Emphasis,
    Strong,
    Strikethrough,
    /// A link with its address.
    Link(String),
    /// An image with its address.
    Image(String),
    /// A table with the alignments of its columns.
    Table(Vec<Align>),
    TableHead,
    TableRow,
    TableCell,
    /// Any element that is not rendered specially.
    Other,
}

/// The end of an element.
#[derive(Clone, Copy, PartialEq, Eq, Debug, Structural)]
pub enum MdTagEnd {
    Paragraph,
    /// A heading of a level from one to six.
    Heading(u8),
    BlockQuote,
    List,
    Item,
    CodeBlock,
    Emphasis,
    Strong,
    Strikethrough,
    Link,
    Image,
    Table,
    TableHead,
    TableRow,
    TableCell,
    /// Any element that is not rendered specially.
    Other,
}

/// One event of a markdown text.
pub enum MdEvent {
    Start(MdTag),
    End(MdTagEnd),
    Text(String),
    /// Code inside a paragraph.
    Code(String),
    SoftBreak,
    HardBreak,
    Rule,
    /// The box of a task, and whether it is ticked.
    TaskListMarker(bool),
    /// Anything that is not rendered.
    Other,
}

/// What the start of an element says.
#[verifier::ext_equal]
pub enum TagView {
    Paragraph,
    Heading(u8),
    BlockQuote,
    List(Option<u64>),
    Item,
    CodeBlock(Option<Seq<char>>),
    Emphasis,
    Strong,
    Strikethrough,
    Link(Seq<char>),
    Image(Seq<char>),
    Table(Seq<Align>),
    TableHead,
    TableRow,
    TableCell,
    Other,
}

/// What an event says.
#[verifier::ext_equal]
pub enum EventView {
    Start(TagView),
    End(MdTagEnd),
    Text(Seq<char>),
    Code(Seq<char>),
    SoftBreak,
    HardBreak,
    Rule,
    TaskListMarker(bool),
    Other,
}

impl DeepView for MdTag {
    type V = TagView;

    open spec fn deep_view(&self) -> TagView {
        match self {
            MdTag::Paragraph => TagView::Paragraph,
            MdTag::Heading(level) => TagView::Heading(*level),
            MdTag::BlockQuote => TagView::BlockQuote,
            MdTag::List(first) => TagView::List(*first),
            MdTag::Item => TagView::Item,
            MdTag::CodeBlock(None) => TagView::CodeBlock(None),
            MdTag::CodeBlock(Some(lang)) => TagView::CodeBlock(Some(lang@)),
            MdTag::Emphasis => TagView::Emphasis,
            MdTag::Strong => TagView::Strong,
            MdTag::Strikethrough => TagView::Strikethrough,
            MdTag::Link(url) => TagView::Link(url@),
            MdTag::Image(url) => TagView::Image(url@),
            MdTag::Table(align) => TagView::Table(align@),
            MdTag::TableHead => TagView::TableHead,
            MdTag::TableRow => TagView::TableRow,
            MdTag::TableCell => TagView::TableCell,
            MdTag::Other => TagView::Other,
        }
    }
}

impl DeepView for MdEvent {
    type V = EventView;

    open spec fn deep_view(&self) -> EventView {
        match self {
            MdEvent::Start(tag) => EventView::Start(tag.deep_view()),
            MdEvent::End(tag) => EventView::End(*tag),
            MdEvent::Text(text) => EventView::Text(text@),
            MdEvent::Code(text) => EventView::Code(text@),
            MdEvent::SoftBreak => EventView::SoftBreak,
            MdEvent::HardBreak => EventView::HardBreak,
            MdEvent::Rule => EventView::Rule,
            MdEvent::TaskListMarker(done) => EventView::TaskListMarker(*done),
            MdEvent::Other => EventView::Other,
        }
    }
}

/// An event of the parser.
#[verifier::external_type_specification]
#[verifier::external_body]
pub struct ExEvent<'a>(Event<'a>);

/// The start of an element, as the parser gives it.
#[verifier::external_type_specification]
#[verifier::external_body]
pub struct ExTag<'a>(Tag<'a>);

/// The end of an element, as the parser gives it.
#[verifier::external_type_specification]
#[verifier::external_body]
pub struct ExTagEnd(TagEnd);

/// The alignment of a column, as the parser gives it.
#[verifier::external_type_specification]
#[verifier::external_body]
pub struct ExAlignment(Alignment);

/// The events of a text, as `pulldown_cmark::Parser` finds them with or without
/// tables, struck out text and task lists.
pub uninterp spec fn markdown_events(
    text: Seq<char>,
    tables: bool,
    strikethrough: bool,
    tasklists: bool,
) -> Seq<EventView>;

/// What an event of the parser says.
pub uninterp spec fn event_meaning(event: Event<'_>) -> EventView;

/// What the start of an element says.
pub uninterp spec fn tag_meaning(tag: Tag<'_>) -> TagView;

/// What the end of an element says.
pub uninterp spec fn tag_end_meaning(tag: TagEnd) -> MdTagEnd;

/// What the alignment of a column says.
pub uninterp spec fn alignment_meaning(align: Alignment) -> Align;

/// What the alignments of some columns say.
pub open spec fn alignments_meaning(align: Seq<Alignment>) -> Seq<Align> {
    Seq::new(align.len(), |i: int| alignment_meaning(align[i]))
}

/// Whether an element is one of the blocks that hold text or other blocks.
pub open spec fn is_block(tag: TagView) -> bool {
    match tag {
        TagView::Paragraph
        | TagView::Heading(_)
        | TagView::BlockQuote
        | TagView::List(_)
        | TagView::Item
        | TagView::CodeBlock(_)
        | TagView::Table(_) => true,
        _ => false,
    }
}

/// Whether the end of an element is that of a block.
pub open spec fn is_block_end(tag: MdTagEnd) -> bool {
    match tag {
        MdTagEnd::Paragraph
        | MdTagEnd::Heading(_)
        | MdTagEnd::BlockQuote
        | MdTagEnd::List
        | MdTagEnd::Item
        | MdTagEnd::CodeBlock
        | MdTagEnd::Table => true,
        _ => false,
    }
}

/// Whether the level of a heading that starts or ends here is one from one to six.
pub open spec fn is_leveled(event: EventView) -> bool {
    match event {
        EventView::Start(TagView::Heading(level)) => 1 <= level <= 6,
        EventView::End(MdTagEnd::Heading(level)) => 1 <= level <= 6,
        _ => true,
    }
}

/// Whether all headings have levels from one to six.
pub open spec fn are_leveled(events: Seq<EventView>) -> bool {
    forall|i: int| 0 <= i < events.len() ==> is_leveled(#[trigger] events[i])
}

/// An event of the parser, opened.
enum EventParts<'a, 'b> {
    Start(&'a Tag<'b>),
    End(&'a TagEnd),
    Plain(MdEvent),
}

/// The start of an element, opened as far as blocks go.
enum TagParts<'a> {
    Block(MdTag),
    Table(&'a Vec<Alignment>),
    Inline,
}

/// `pulldown_cmark::Parser::new_ext` with the given options, collected: the
/// events depend on the text and on the options alone.
#[verifier::external_body]
fn parse<'a>(text: &'a str, tables: bool, strikethrough: bool, tasklists: bool) -> (r: Vec<
    Event<'a>,
>)
    ensures
        r@.len() == markdown_events(text@, tables, strikethrough, tasklists).len(),
        forall|i: int|
            0 <= i < r@.len() ==> event_meaning(#[trigger] r@[i]) == markdown_events(
                text@,
                tables,
                strikethrough,
                tasklists,
            )[i],
{
    let mut options = Options::empty();
    options.set(Options::ENABLE_TABLES, tables);
    options.set(Options::ENABLE_STRIKETHROUGH, strikethrough);
    options.set(Options::ENABLE_TASKLISTS, tasklists);
    Parser::new_ext(text, options).collect()
}

/// Tells the variants of `pulldown_cmark::Event` apart. An event is what its
/// variant holds; those that are not rendered are `Other`. Only starts and ends of
/// elements have more to open.
#[verifier::external_body]
fn open_event<'a, 'b>(event: &'a Event<'b>) -> (r: EventParts<'a, 'b>)
    ensures
        match r {
            EventParts::Start(tag) => event_meaning(*event) == EventView::Start(tag_meaning(*tag)),
            EventParts::End(tag) => event_meaning(*event) == EventView::End(tag_end_meaning(*tag)),
            EventParts::Plain(plain) => event_meaning(*event) == plain.deep_view() && !(
            plain is Start || plain is End),
        },
{
    match event {
        Event::Start(tag) => EventParts::Start(tag),
        Event::End(tag) => EventParts::End(tag),
        Event::Text(text) => EventParts::Plain(MdEvent::Text(text.to_string())),
        Event::Code(text) => EventParts::Plain(MdEvent::Code(text.to_string())),
        Event::SoftBreak => EventParts::Plain(MdEvent::SoftBreak),
        Event::HardBreak => EventParts::Plain(MdEvent::HardBreak),
        Event::Rule => EventParts::Plain(MdEvent::Rule),
        Event::TaskListMarker(done) => EventParts::Plain(MdEvent::TaskListMarker(*done)),
        _ => EventParts::Plain(MdEvent::Other),
    }
}

/// Tells the blocks among the variants of `pulldown_cmark::Tag` apart. The level
/// of a heading is the number of its variant of `HeadingLevel`, which has those from
/// one to six.
#[verifier::external_body]
fn open_block<'a>(tag: &'a Tag<'_>) -> (r: TagParts<'a>)
    ensures
        match r {
            TagParts::Block(block) => tag_meaning(*tag) == block.deep_view() && is_leveled(
                EventView::Start(block.deep_view()),
            ),
            TagParts::Table(align) => tag_meaning(*tag) == TagView::Table(
                alignments_meaning(align@),
            ),
            TagParts::Inline => !is_block(tag_meaning(*tag)),
        },
{
    match tag {
        Tag::Paragraph => TagParts::Block(MdTag::Paragraph),
        Tag::Heading { level, .. } => TagParts::Block(MdTag::Heading(*level as u8)),
        Tag::BlockQuote(_) => TagParts::Block(MdTag::BlockQuote),
        Tag::List(first) => TagParts::Block(MdTag::List(*first)),
        Tag::Item => TagParts::Block(MdTag::Item),
        Tag::CodeBlock(CodeBlockKind::Indented) => TagParts::Block(MdTag::CodeBlock(None)),
        Tag::CodeBlock(CodeBlockKind::Fenced(lang)) => TagParts::Block(
            MdTag::CodeBlock(Some(lang.to_string())),
        ),
        Tag::Table(align) => TagParts::Table(align),
        _ => TagParts::Inline,
    }
}

/// Tells the variants of `pulldown_cmark::Tag` that are not blocks apart. Those
/// that are not rendered specially are `Other`.
#[verifier::external_body]
fn open_inline(tag: &Tag<'_>) -> (r: MdTag)
    ensures
        !is_block(tag_meaning(*tag)) ==> r.deep_view() == tag_meaning(*tag),
{
    match tag {
        Tag::Emphasis => MdTag::Emphasis,
        Tag::Strong => MdTag::Strong,
        Tag::Strikethrough => MdTag::Strikethrough,
        Tag::Link { dest_url, .. } => MdTag::Link(dest_url.to_string()),
        Tag::Image { dest_url, .. } => MdTag::Image(dest_url.to_string()),
        Tag::TableHead => MdTag::TableHead,
        Tag::TableRow => MdTag::TableRow,
        Tag::TableCell => MdTag::TableCell,
        _ => MdTag::Other,
    }
}

/// Tells the variants of `pulldown_cmark::Alignment` apart.
#[verifier::external_body]
fn open_alignment(align: &Alignment) -> (r: Align)
    ensures
        r == alignment_meaning(*align),
{
    match align {
        Alignment::None => Align::Unset,
        Alignment::Left => Align::Left,
        Alignment::Center => Align::Center,
        Alignment::Right => Align::Right,
    }
}

/// Tells the blocks among the variants of `pulldown_cmark::TagEnd` apart. The
/// level of a heading is the number of its variant of `HeadingLevel`, which has those
/// from one to six.
#[verifier::external_body]
fn open_block_end(tag: &TagEnd) -> (r: Option<MdTagEnd>)
    ensures
        match r {
            Some(end) => tag_end_meaning(*tag) == end && is_leveled(EventView::End(end)),
            None => !is_block_end(tag_end_meaning(*tag)),
        },
{
    match tag {
        TagEnd::Paragraph => Some(MdTagEnd::Paragraph),
        TagEnd::Heading(level) => Some(MdTagEnd::Heading(*level as u8)),
        TagEnd::BlockQuote(_) => Some(MdTagEnd::BlockQuote),
        TagEnd::List(_) => Some(MdTagEnd::List),
        TagEnd::Item => Some(MdTagEnd::Item),
        TagEnd::CodeBlock => Some(MdTagEnd::CodeBlock),
        TagEnd::Table => Some(MdTagEnd::Table),
        _ => None,
    }
}

/// Tells the variants of `pulldown_cmark::TagEnd` that are not blocks apart.
/// Those that are not rendered specially are `Other`.
#[verifier::external_body]
fn open_inline_end(tag: &TagEnd) -> (r: MdTagEnd)
    ensures
        !is_block_end(tag_end_meaning(*tag)) ==> r == tag_end_meaning(*tag),
{
    match tag {
        TagEnd::Emphasis => MdTagEnd::Emphasis,
        TagEnd::Strong => MdTagEnd::Strong,
        TagEnd::Strikethrough => MdTagEnd::Strikethrough,
        TagEnd::Link => MdTagEnd::Link,
        TagEnd::Image => MdTagEnd::Image,
        TagEnd::TableHead => MdTagEnd::TableHead,
        TagEnd::TableRow => MdTagEnd::TableRow,
        TagEnd::TableCell => MdTagEnd::TableCell,
        _ => MdTagEnd::Other,
    }
}

fn read_alignments(align: &Vec<Alignment>) -> (r: Vec<Align>)
    ensures
        r@ == alignments_meaning(align@),
{
    let mut out: Vec<Align> = Vec::new();
    let mut i: usize = 0;
    while i < align.len()
        invariant
            i <= align@.len(),
            out@ == alignments_meaning(align@).take(i as int),
        decreases align@.len() - i,
    {
        out.push(open_alignment(&align[i]));
        i += 1;
        assert(out@ =~= alignments_meaning(align@).take(i as int));
    }
    assert(out@ =~= alignments_meaning(align@));
    out
}

fn read_tag(tag: &Tag<'_>) -> (r: MdTag)
    ensures
        r.deep_view() == tag_meaning(*tag),
        is_leveled(EventView::Start(r.deep_view())),
{
    match open_block(tag) {
        TagParts::Block(block) => block,
        TagParts::Table(align) => MdTag::Table(read_alignments(align)),
        TagParts::Inline => open_inline(tag),
    }
}

fn read_tag_end(tag: &TagEnd) -> (r: MdTagEnd)
    ensures
        r == tag_end_meaning(*tag),
        is_leveled(EventView::End(r)),
{
    match open_block_end(tag) {
        Some(end) => end,
        None => open_inline_end(tag),
    }
}

fn read_event(event: &Event<'_>) -> (r: MdEvent)
    ensures
        r.deep_view() == event_meaning(*event),
        is_leveled(r.deep_view()),
{
    match open_event(event) {
        EventParts::Start(tag) => MdEvent::Start(read_tag(tag)),
        EventParts::End(tag) => MdEvent::End(read_tag_end(tag)),
        EventParts::Plain(plain) => plain,
    }
}

/// The events of a markdown text, with tables, struck out text and task lists. Its
/// headings have levels from one to six.
pub fn read_events(text: &str) -> (r: Vec<MdEvent>)
    ensures
        r.deep_view() == markdown_events(text@, true, true, true),
        are_leveled(r.deep_view()),
{
    let events = parse(text, true, true, true);
    let ghost wanted = markdown_events(text@, true, true, true);
    let mut out: Vec<MdEvent> = Vec::new();
    let mut i: usize = 0;
    while i < events.len()
        invariant
            i <= events@.len(),
            events@.len() == wanted.len(),
            forall|j: int|
                0 <= j < events@.len() ==> event_meaning(#[trigger] events@[j]) == wanted[j],
            out.deep_view() == wanted.take(i as int),
            are_leveled(out.deep_view()),
        decreases events@.len() - i,
    {
        let ghost before = out.deep_view();
        let event = read_event(&events[i]);
        assert(event.deep_view() == wanted[i as int]);
        out.push(event);
        assert(out.deep_view() =~= before.push(wanted[i as int]));
        i += 1;
        assert(out.deep_view() =~= wanted.take(i as int));
    }
    assert(out.deep_view() =~= wanted);
    out
}

} // verus!
