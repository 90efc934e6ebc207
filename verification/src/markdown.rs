//! From the events of a markdown text to styled lines.

use crate::document::{
    documents_are_in_order, headings_keep_their_levels, is_fresh, levels_ok,
};
use crate::events::{markdown_events, read_events, EventView, MdEvent, MdTag, MdTagEnd, TagView};
use crate::images::{Image, ImageView};
use crate::paths::{file_name, join_path, joined, name_of};
use crate::style::{
    colored, empty_line, heading_color, level_color, muted, muted_span, muted_style, plain,
    plain_style, raw, spans_text, styled_line, text_of_spans, text_of_spans_from, Color, Line,
    LineView, Span, SpanView, Style,
};
use crate::table::{Align, Table, TableView};
use crate::text::{
    chars_of, decimal, owned, push_decimal, repeat_char, repeat_text, repeated, repeated_text,
    same_text, split, split_text, string_of_range, trim_end, trimmed_len,
};
use vstd::prelude::*;

verus! {

/// An open inline element.
pub enum InlineStyle {
    Emphasis,
    Strong,
    Strike,
    /// A link: its address, and where its text starts among the open spans.
    Link { url: String, start: usize },
    /// An image: its address, and the text that describes it.
    Image { url: String, alt: String },
}

/// What an open inline element holds.
#[verifier::ext_equal]
pub enum InlineView {
    Emphasis,
    Strong,
    Strike,
    Link { url: Seq<char>, start: nat },
    Image { url: Seq<char>, alt: Seq<char> },
}

impl DeepView for InlineStyle {
    type V = InlineView;

    open spec fn deep_view(&self) -> InlineView {
        match self {
            InlineStyle::Emphasis => InlineView::Emphasis,
            InlineStyle::Strong => InlineView::Strong,
            InlineStyle::Strike => InlineView::Strike,
            InlineStyle::Link { url, start } => InlineView::Link {
                url: url@,
                start: *start as nat,
            },
            InlineStyle::Image { url, alt } => InlineView::Image { url: url@, alt: alt@ },
        }
    }
}

/// An open list, with the number of its next item.
#[derive(Clone, Copy, PartialEq, Eq, Debug, Structural)]
pub struct ListCtx {
    pub ordered: bool,
    pub number: u64,
}

/// A heading of the document, for the outline.
pub struct Heading {
    pub title: String,
    pub level: u8,
    /// The content line that holds the heading.
    pub content_line: usize,
    /// The display line that the heading starts at.
    pub line: usize,
}

/// What a heading says.
#[verifier::ext_equal]
pub struct HeadingView {
    pub title: Seq<char>,
    pub level: u8,
    pub content_line: nat,
    pub line: nat,
}

impl DeepView for Heading {
    type V = HeadingView;

    open spec fn deep_view(&self) -> HeadingView {
        HeadingView {
            title: self.title@,
            level: self.level,
            content_line: self.content_line as nat,
            line: self.line as nat,
        }
    }
}

/// A table that is still being read.
pub struct TableBuf {
    pub rows: Vec<Vec<Vec<Span>>>,
    pub header_rows: usize,
    pub align: Vec<Align>,
}

/// What a table that is still being read holds.
#[verifier::ext_equal]
pub struct TableBufView {
    pub rows: Seq<Seq<Seq<SpanView>>>,
    pub header_rows: nat,
    pub align: Seq<Align>,
}

impl DeepView for TableBuf {
    type V = TableBufView;

    open spec fn deep_view(&self) -> TableBufView {
        TableBufView {
            rows: self.rows.deep_view(),
            header_rows: self.header_rows as nat,
            align: self.align@,
        }
    }
}

/// Builds styled lines from the events of a markdown text.
pub struct Md {
    pub out: Vec<Line>,
    pub headings: Vec<Heading>,
    pub images: Vec<Image>,
    pub tables: Vec<Table>,
    pub next_image_id: u32,
    /// The directory that the paths of images start from.
    pub base: String,
    /// The open spans of the current paragraph or heading.
    pub buf: Vec<Span>,
    /// The open inline elements, the innermost last.
    pub styles: Vec<InlineStyle>,
    /// How many block quotes are open.
    pub quote: usize,
    /// The open lists, the innermost last.
    pub list: Vec<ListCtx>,
    /// Whether the marker of the current item was written.
    pub item_prefix_used: bool,
    pub item_number: Option<u64>,
    /// The level of the open heading.
    pub heading: Option<u8>,
    pub in_code: bool,
    pub code: String,
    pub code_lang: Option<String>,
    pub table: Option<TableBuf>,
    pub table_row: Vec<Vec<Span>>,
    /// The open spans of the current table cell.
    pub cell: Option<Vec<Span>>,
}

/// The state of the builder.
#[verifier::ext_equal]
pub struct MdView {
    pub out: Seq<LineView>,
    pub headings: Seq<HeadingView>,
    pub images: Seq<ImageView>,
    pub tables: Seq<TableView>,
    pub next_image_id: u32,
    pub base: Seq<char>,
    pub buf: Seq<SpanView>,
    pub styles: Seq<InlineView>,
    pub quote: nat,
    pub list: Seq<ListCtx>,
    pub item_prefix_used: bool,
    pub item_number: Option<u64>,
    pub heading: Option<u8>,
    pub in_code: bool,
    pub code: Seq<char>,
    pub code_lang: Option<Seq<char>>,
    pub table: Option<TableBufView>,
    pub table_row: Seq<Seq<SpanView>>,
    pub cell: Option<Seq<SpanView>>,
}

impl DeepView for Md {
    type V = MdView;

    open spec fn deep_view(&self) -> MdView {
        MdView {
            out: self.out.deep_view(),
            headings: self.headings.deep_view(),
            images: self.images.deep_view(),
            tables: self.tables.deep_view(),
            next_image_id: self.next_image_id,
            base: self.base@,
            buf: self.buf.deep_view(),
            styles: self.styles.deep_view(),
            quote: self.quote as nat,
            list: self.list@,
            item_prefix_used: self.item_prefix_used,
            item_number: self.item_number,
            heading: self.heading,
            in_code: self.in_code,
            code: self.code@,
            code_lang: match self.code_lang {
                Some(lang) => Some(lang@),
                None => None,
            },
            table: match self.table {
                Some(table) => Some(table.deep_view()),
                None => None,
            },
            table_row: self.table_row.deep_view(),
            cell: match self.cell {
                Some(cell) => Some(cell.deep_view()),
                None => None,
            },
        }
    }
}

/// The state before the first event.
pub open spec fn md_start(base: Seq<char>) -> MdView {
    MdView {
        out: Seq::empty(),
        headings: Seq::empty(),
        images: Seq::empty(),
        tables: Seq::empty(),
        next_image_id: 1,
        base,
        buf: Seq::empty(),
        styles: Seq::empty(),
        quote: 0,
        list: Seq::empty(),
        item_prefix_used: false,
        item_number: None,
        heading: None,
        in_code: false,
        code: Seq::empty(),
        code_lang: None,
        table: None,
        table_row: Seq::empty(),
        cell: None,
    }
}

/// The open spans: those of the table cell, or else of the paragraph.
pub open spec fn md_target(m: MdView) -> Seq<SpanView> {
    match m.cell {
        Some(cell) => cell,
        None => m.buf,
    }
}

/// One more open span.
pub open spec fn with_open_span(m: MdView, span: SpanView) -> MdView {
    match m.cell {
        Some(cell) => MdView { cell: Some(cell.push(span)), ..m },
        None => MdView { buf: m.buf.push(span), ..m },
    }
}

/// The style of text inside some open inline elements.
pub open spec fn inline_style(styles: Seq<InlineView>) -> Style
    decreases styles.len(),
{
    if styles.len() == 0 {
        plain_style()
    } else {
        let s = inline_style(styles.drop_last());
        match styles.last() {
            InlineView::Emphasis => Style { italic: true, ..s },
            InlineView::Strong => Style { bold: true, ..s },
            InlineView::Strike => Style { crossed_out: true, ..s },
            InlineView::Link { .. } => Style { fg: Some(Color::Cyan), underlined: true, ..s },
            InlineView::Image { .. } => s,
        }
    }
}

/// Lines followed by a blank one, unless there are none or the last is blank.
pub open spec fn spaced(out: Seq<LineView>) -> Seq<LineView> {
    if out.len() > 0 && out.last().spans.len() > 0 {
        out.push(empty_line())
    } else {
        out
    }
}

/// The marker of a list item.
pub open spec fn item_marker(list: Seq<ListCtx>, item_number: Option<u64>) -> Seq<char> {
    let indent = repeated_text("  "@, (list.len() - 1) as nat);
    if list.last().ordered {
        let number = match item_number {
            Some(n) => n,
            None => list.last().number,
        };
        indent + decimal(number as nat) + ". "@
    } else {
        indent + "• "@
    }
}

/// What stands in front of a line inside block quotes.
pub open spec fn quote_prefix(quote: nat) -> Seq<SpanView> {
    if quote > 0 {
        seq![muted_span(repeated_text("▎ "@, quote))]
    } else {
        Seq::empty()
    }
}

/// Whether the next line starts with the marker of a list item.
pub open spec fn wants_marker(m: MdView) -> bool {
    !m.item_prefix_used && m.list.len() > 0
}

/// What stands in front of the first line of a list item.
pub open spec fn marker_prefix(m: MdView) -> Seq<SpanView> {
    if wants_marker(m) {
        seq![muted_span(item_marker(m.list, m.item_number))]
    } else {
        Seq::empty()
    }
}

/// The open spans become one line, behind the marks of quotes and lists.
pub open spec fn flushed(m: MdView) -> MdView {
    if m.buf.len() == 0 {
        m
    } else {
        let line = LineView {
            spans: quote_prefix(m.quote) + marker_prefix(m) + m.buf,
            style: if m.quote > 0 {
                colored(Color::Gray)
            } else {
                plain_style()
            },
        };
        MdView {
            out: m.out.push(line),
            buf: Seq::empty(),
            item_prefix_used: m.item_prefix_used || wants_marker(m),
            ..m
        }
    }
}

/// Open spans become a line, and a blank line follows where one is due.
pub open spec fn flushed_and_spaced(m: MdView) -> MdView {
    MdView { out: spaced(flushed(m).out), ..flushed(m) }
}

/// Text goes to the open code block, to the description of the open image, or to
/// the open spans.
pub open spec fn with_text(m: MdView, text: Seq<char>) -> MdView {
    if m.in_code {
        MdView { code: m.code + text, ..m }
    } else if m.styles.len() > 0 && m.styles.last() is Image {
        let image = InlineView::Image {
            url: m.styles.last()->Image_url,
            alt: m.styles.last()->alt + text,
        };
        MdView { styles: m.styles.update(m.styles.len() - 1, image), ..m }
    } else {
        with_open_span(m, SpanView { content: text, style: inline_style(m.styles) })
    }
}

/// The style of the language of a code block.
pub open spec fn lang_style() -> Style {
    Style { italic: true, ..muted_style() }
}

/// The lines of code, each indented by two columns.
pub open spec fn code_lines(code: Seq<char>) -> Seq<LineView> {
    split(trim_end(code, '\n'), '\n').map_values(
        |l: Seq<char>| styled_line("  "@ + l, muted_style()),
    )
}

/// The open code becomes lines, below one with its language.
pub open spec fn code_flushed(m: MdView) -> MdView {
    let head = match m.code_lang {
        Some(lang) => seq![styled_line("  "@ + lang, lang_style())],
        None => Seq::empty(),
    };
    MdView { out: m.out + head + code_lines(m.code), code: Seq::empty(), code_lang: None, ..m }
}

/// A list item starts.
pub open spec fn item_started(m: MdView) -> MdView {
    let f = MdView { item_prefix_used: false, ..flushed(m) };
    if f.list.len() == 0 {
        f
    } else {
        let ctx = f.list.last();
        if ctx.ordered {
            let next = ListCtx { ordered: true, number: (ctx.number + 1) as u64 };
            MdView {
                item_number: Some(ctx.number),
                list: f.list.update(f.list.len() - 1, next),
                ..f
            }
        } else {
            MdView { item_number: None, ..f }
        }
    }
}

/// The language that is shown over a code block.
pub open spec fn shown_lang(kind: Option<Seq<char>>) -> Option<Seq<char>> {
    match kind {
        Some(lang) => if lang.len() > 0 {
            Some(lang)
        } else {
            None
        },
        None => None,
    }
}

/// The state after the start of an element.
pub open spec fn after_start(m: MdView, tag: TagView) -> MdView {
    match tag {
        TagView::Paragraph => flushed(m),
        TagView::Heading(level) => MdView { heading: Some(level), ..flushed_and_spaced(m) },
        TagView::BlockQuote => MdView { quote: m.quote + 1, ..flushed(m) },
        TagView::List(first) => {
            let f = flushed_and_spaced(m);
            let ctx = match first {
                Some(n) => ListCtx { ordered: true, number: n },
                None => ListCtx { ordered: false, number: 1 },
            };
            MdView { list: f.list.push(ctx), ..f }
        },
        TagView::Item => item_started(m),
        TagView::CodeBlock(kind) => MdView {
            in_code: true,
            code_lang: shown_lang(kind),
            ..flushed_and_spaced(m)
        },
        TagView::Emphasis => MdView { styles: m.styles.push(InlineView::Emphasis), ..m },
        TagView::Strong => MdView { styles: m.styles.push(InlineView::Strong), ..m },
        TagView::Strikethrough => MdView { styles: m.styles.push(InlineView::Strike), ..m },
        TagView::Link(url) => MdView {
            styles: m.styles.push(InlineView::Link { url, start: md_target(m).len() }),
            ..m
        },
        TagView::Image(url) => MdView {
            styles: m.styles.push(InlineView::Image { url, alt: Seq::empty() }),
            ..m
        },
        TagView::Table(align) => MdView {
            table: Some(TableBufView { rows: Seq::empty(), header_rows: 0, align }),
            ..flushed_and_spaced(m)
        },
        TagView::TableHead | TagView::TableRow => MdView { table_row: Seq::empty(), ..m },
        TagView::TableCell => MdView { cell: Some(Seq::empty()), ..m },
        TagView::Other => m,
    }
}

/// The style of a heading.
pub open spec fn heading_style(level: u8) -> Style {
    Style { bold: true, ..colored(level_color(level)) }
}

/// The state after the end of a heading.
pub open spec fn after_heading(m: MdView, level: u8) -> MdView {
    if m.heading is None {
        m
    } else if m.buf.len() == 0 {
        MdView { heading: None, ..m }
    } else {
        let line = LineView { spans: m.buf, style: heading_style(level) };
        let heading = HeadingView {
            title: spans_text(m.buf),
            level,
            content_line: m.out.len(),
            line: m.out.len(),
        };
        MdView {
            out: spaced(m.out.push(line)),
            buf: Seq::empty(),
            headings: m.headings.push(heading),
            heading: None,
            ..m
        }
    }
}

/// The innermost inline element is closed.
pub open spec fn style_popped(m: MdView) -> MdView {
    if m.styles.len() == 0 {
        m
    } else {
        MdView { styles: m.styles.drop_last(), ..m }
    }
}

/// What is shown for an image: its description, or else its file name.
pub open spec fn image_label(path: Seq<char>, alt: Seq<char>) -> Seq<char> {
    if alt.len() > 0 {
        alt
    } else {
        match file_name(path) {
            Some(name) => name,
            None => "image"@,
        }
    }
}

/// An image that is not decoded yet.
pub open spec fn new_image(id: u32, path: Seq<char>, content_line: nat) -> ImageView {
    ImageView {
        id,
        path,
        content_line,
        dims: None,
        cw: 0,
        ch: 0,
        png: None,
        png_dims: None,
    }
}

/// The line that stands for an image.
pub open spec fn placeholder(label: Seq<char>) -> LineView {
    styled_line("▦ "@ + label, muted_style())
}

/// The state after the end of an image.
pub open spec fn after_image(m: MdView) -> MdView {
    let p = style_popped(m);
    if m.styles.len() > 0 && m.styles.last() is Image {
        let path = joined(m.base, m.styles.last()->Image_url);
        MdView {
            out: m.out.push(placeholder(image_label(path, m.styles.last()->alt))),
            images: m.images.push(new_image(m.next_image_id, path, m.out.len())),
            next_image_id: (m.next_image_id + 1) as u32,
            ..p
        }
    } else {
        p
    }
}

/// The state after the end of a link: its address follows its text, unless the
/// two are the same.
pub open spec fn after_link(m: MdView) -> MdView {
    let p = style_popped(m);
    if m.styles.len() > 0 && m.styles.last() is Link {
        let url = m.styles.last()->Link_url;
        if spans_text(md_target(m).skip(m.styles.last()->start as int)) != url {
            with_open_span(p, muted_span(" ("@ + url + ")"@))
        } else {
            p
        }
    } else {
        p
    }
}

/// The state after the end of a table: an empty line stands for it.
pub open spec fn after_table(m: MdView) -> MdView {
    let p = MdView { table: None, ..m };
    if m.table is Some && m.table->0.rows.len() > 0 {
        let table = TableView {
            content_line: m.out.len(),
            rows: m.table->0.rows,
            header_rows: m.table->0.header_rows,
            align: m.table->0.align,
        };
        MdView { out: m.out.push(empty_line()), tables: m.tables.push(table), ..p }
    } else {
        MdView { out: spaced(m.out), ..p }
    }
}

/// The state after the end of a table row.
pub open spec fn after_row(m: MdView, header: bool) -> MdView {
    if m.table_row.len() > 0 && m.table is Some {
        let t = m.table->0;
        let table = TableBufView {
            rows: t.rows.push(m.table_row),
            header_rows: if header {
                t.header_rows + 1
            } else {
                t.header_rows
            },
            ..t
        };
        MdView { table: Some(table), table_row: Seq::empty(), ..m }
    } else {
        m
    }
}

/// The state after the end of a table cell.
pub open spec fn after_cell(m: MdView) -> MdView {
    match m.cell {
        Some(cell) => MdView { table_row: m.table_row.push(cell), cell: None, ..m },
        None => m,
    }
}

/// The state after the end of an element.
pub open spec fn after_end(m: MdView, tag: MdTagEnd) -> MdView {
    match tag {
        MdTagEnd::Paragraph | MdTagEnd::Item => flushed(m),
        MdTagEnd::Heading(level) => after_heading(m, level),
        MdTagEnd::BlockQuote => MdView {
            quote: if m.quote > 0 {
                (m.quote - 1) as nat
            } else {
                0
            },
            ..flushed_and_spaced(m)
        },
        MdTagEnd::List => MdView {
            list: if m.list.len() > 0 {
                m.list.drop_last()
            } else {
                m.list
            },
            ..flushed_and_spaced(m)
        },
        MdTagEnd::CodeBlock => MdView {
            out: spaced(code_flushed(m).out),
            in_code: false,
            ..code_flushed(m)
        },
        MdTagEnd::Emphasis | MdTagEnd::Strong | MdTagEnd::Strikethrough => style_popped(m),
        MdTagEnd::Image => after_image(m),
        MdTagEnd::Link => after_link(m),
        MdTagEnd::Table => after_table(m),
        MdTagEnd::TableHead => after_row(m, true),
        MdTagEnd::TableRow => after_row(m, false),
        MdTagEnd::TableCell => after_cell(m),
        MdTagEnd::Other => m,
    }
}

/// The line of a horizontal rule.
pub open spec fn rule_line() -> LineView {
    styled_line(repeated('─', 100), muted_style())
}

/// The box of a task.
pub open spec fn task_span(done: bool) -> SpanView {
    if done {
        SpanView { content: "[x] "@, style: colored(Color::Green) }
    } else {
        muted_span("[ ] "@)
    }
}

/// The state after an event.
pub open spec fn after_event(m: MdView, event: EventView) -> MdView {
    match event {
        EventView::Start(tag) => after_start(m, tag),
        EventView::End(tag) => after_end(m, tag),
        EventView::Text(text) => with_text(m, text),
        EventView::Code(text) => with_open_span(m, muted_span(text)),
        EventView::SoftBreak => with_open_span(m, raw(" "@)),
        EventView::HardBreak => flushed(m),
        EventView::Rule => MdView { out: spaced(flushed(m).out.push(rule_line())), ..flushed(m) },
        EventView::TaskListMarker(done) => with_open_span(m, task_span(done)),
        EventView::Other => m,
    }
}

/// Whether the builder can take an event. It cannot close a link whose text
/// started behind the end of the open spans, as after a hard break inside the
/// link, and it cannot count on past the largest numbers.
pub open spec fn accepts(m: MdView, event: EventView) -> bool {
    match event {
        EventView::Start(TagView::BlockQuote) => m.quote < usize::MAX,
        EventView::Start(TagView::Item) => m.list.len() > 0 && m.list.last().ordered
            ==> m.list.last().number < u64::MAX,
        EventView::End(MdTagEnd::Image) => m.styles.len() > 0 && m.styles.last() is Image
            ==> m.next_image_id < u32::MAX,
        EventView::End(MdTagEnd::Link) => m.styles.len() > 0 && m.styles.last() is Link
            ==> m.styles.last()->start <= md_target(m).len(),
        _ => true,
    }
}

/// The state after some events, unless the builder cannot take one of them.
pub open spec fn after_events(events: Seq<EventView>, base: Seq<char>) -> Option<MdView>
    decreases events.len(),
{
    if events.len() == 0 {
        Some(md_start(base))
    } else {
        match after_events(events.drop_last(), base) {
            Some(m) => if accepts(m, events.last()) {
                Some(after_event(m, events.last()))
            } else {
                None
            },
            None => None,
        }
    }
}

/// A rendered markdown text.
pub struct Document {
    /// The lines before they are wrapped.
    pub content: Vec<Line>,
    pub headings: Vec<Heading>,
    pub images: Vec<Image>,
    pub tables: Vec<Table>,
}

/// What a rendered markdown text holds.
#[verifier::ext_equal]
pub struct DocumentView {
    pub content: Seq<LineView>,
    pub headings: Seq<HeadingView>,
    pub images: Seq<ImageView>,
    pub tables: Seq<TableView>,
}

impl DeepView for Document {
    type V = DocumentView;

    open spec fn deep_view(&self) -> DocumentView {
        DocumentView {
            content: self.content.deep_view(),
            headings: self.headings.deep_view(),
            images: self.images.deep_view(),
            tables: self.tables.deep_view(),
        }
    }
}

/// The document that the builder holds at the end of the text.
pub open spec fn finished(m: MdView) -> DocumentView {
    let f = flushed(m);
    DocumentView { content: f.out, headings: f.headings, images: f.images, tables: f.tables }
}

/// The document that some events make, unless the builder cannot take one of
/// them.
pub open spec fn rendered(events: Seq<EventView>, base: Seq<char>) -> Option<DocumentView> {
    match after_events(events, base) {
        Some(m) => Some(finished(m)),
        None => None,
    }
}

/// The lines of code, each indented by two columns.
fn push_code(out: &mut Vec<Line>, code: &str)
    ensures
        final(out).deep_view() == old(out).deep_view() + code_lines(code@),
{
    let chars = chars_of(code);
    let text = string_of_range(&chars, 0, trimmed_len(&chars, '\n'));
    assert(text@ == trim_end(code@, '\n')) by {
        assert(text@ =~= chars@.take(text@.len() as int));
    }
    let lines = split_text(&chars_of(text.as_str()), '\n');
    let ghost wanted = code_lines(code@);
    let ghost before = out.deep_view();
    let mut i: usize = 0;
    assert(out.deep_view() =~= before + wanted.take(0));
    while i < lines.len()
        invariant
            i <= lines@.len(),
            wanted == code_lines(code@),
            lines.deep_view() == split(trim_end(code@, '\n'), '\n'),
            out.deep_view() == before + wanted.take(i as int),
        decreases lines@.len() - i,
    {
        let ghost so_far = out.deep_view();
        assert(lines.deep_view()[i as int] == lines[i as int]@);
        let mut line = owned("  ");
        line.append(lines[i].as_str());
        assert(line@ =~= "  "@ + lines.deep_view()[i as int]);
        out.push(Line::styled(line.as_str(), muted()));
        assert(out.deep_view() =~= so_far.push(wanted[i as int]));
        i += 1;
        assert(out.deep_view() =~= before + wanted.take(i as int));
    }
    assert(lines.deep_view().len() == lines@.len());
    assert(wanted.take(wanted.len() as int) =~= wanted);
}

impl Md {
    /// A builder for a text in the directory `base`.
    pub fn new(base: String) -> (r: Md)
        ensures
            r.deep_view() == md_start(base@),
    {
        let r = Md {
            out: Vec::new(),
            headings: Vec::new(),
            images: Vec::new(),
            tables: Vec::new(),
            next_image_id: 1,
            base,
            buf: Vec::new(),
            styles: Vec::new(),
            quote: 0,
            list: Vec::new(),
            item_prefix_used: false,
            item_number: None,
            heading: None,
            in_code: false,
            code: String::new(),
            code_lang: None,
            table: None,
            table_row: Vec::new(),
            cell: None,
        };
        assert(r.deep_view() =~= md_start(base@));
        r
    }

    /// Adds an open span.
    fn push_span(&mut self, span: Span)
        ensures
            final(self).deep_view() == with_open_span(old(self).deep_view(), span.deep_view()),
    {
        match &mut self.cell {
            Some(cell) => {
                cell.push(span);
            },
            None => {
                self.buf.push(span);
            },
        }
        assert(self.deep_view() =~~= with_open_span(old(self).deep_view(), span.deep_view()));
    }

    /// How many spans are open.
    fn target_len(&self) -> (r: usize)
        ensures
            r == md_target(self.deep_view()).len(),
    {
        match &self.cell {
            Some(cell) => cell.len(),
            None => self.buf.len(),
        }
    }

    /// The style of text inside the open inline elements.
    fn style_now(&self) -> (r: Style)
        ensures
            r == inline_style(self.deep_view().styles),
    {
        let ghost all = self.styles.deep_view();
        let mut s = plain();
        let mut i: usize = 0;
        assert(all.take(0) =~= Seq::empty());
        while i < self.styles.len()
            invariant
                i <= self.styles@.len(),
                all == self.styles.deep_view(),
                s == inline_style(all.take(i as int)),
            decreases self.styles@.len() - i,
        {
            assert(all.take(i + 1).drop_last() =~= all.take(i as int));
            assert(all.take(i + 1).last() == self.styles[i as int].deep_view());
            match &self.styles[i] {
                InlineStyle::Emphasis => {
                    s.italic = true;
                },
                InlineStyle::Strong => {
                    s.bold = true;
                },
                InlineStyle::Strike => {
                    s.crossed_out = true;
                },
                InlineStyle::Link { .. } => {
                    s.fg = Some(Color::Cyan);
                    s.underlined = true;
                },
                InlineStyle::Image { .. } => {},
            }
            i += 1;
        }
        assert(all.take(all.len() as int) =~= all);
        s
    }

    /// Adds a line.
    fn push_line(&mut self, line: Line)
        ensures
            final(self).deep_view() == (MdView {
                out: old(self).deep_view().out.push(line.deep_view()),
                ..old(self).deep_view()
            }),
    {
        self.out.push(line);
        assert(self.deep_view().out =~= old(self).deep_view().out.push(line.deep_view()));
    }

    /// Adds a blank line, unless there are no lines or the last one is blank.
    pub fn blank(&mut self)
        ensures
            final(self).deep_view() == (MdView {
                out: spaced(old(self).deep_view().out),
                ..old(self).deep_view()
            }),
    {
        let n = self.out.len();
        if n > 0 && self.out[n - 1].spans.len() > 0 {
            self.push_line(Line::empty());
        }
    }

    /// The marker of the current list item.
    fn marker(&self) -> (r: String)
        requires
            self.list@.len() > 0,
        ensures
            r@ == item_marker(self.list@, self.item_number),
    {
        let n = self.list.len();
        let ctx = self.list[n - 1];
        let mut s = repeat_text("  ", n - 1);
        if ctx.ordered {
            let number = match self.item_number {
                Some(number) => number,
                None => ctx.number,
            };
            push_decimal(&mut s, number);
            s.append(". ");
        } else {
            s.append("• ");
        }
        s
    }

    /// Makes the open spans one line, behind the marks of quotes and lists.
    fn flush(&mut self)
        ensures
            final(self).deep_view() == flushed(old(self).deep_view()),
    {
        if self.buf.len() == 0 {
            return ;
        }
        let ghost m = self.deep_view();
        let mut spans: Vec<Span> = Vec::new();
        if self.quote > 0 {
            spans.push(Span::styled(repeat_text("▎ ", self.quote), muted()));
        }
        assert(spans.deep_view() =~= quote_prefix(m.quote));
        if !self.item_prefix_used && self.list.len() > 0 {
            spans.push(Span::styled(self.marker(), muted()));
            self.item_prefix_used = true;
        }
        assert(spans.deep_view() =~= quote_prefix(m.quote) + marker_prefix(m));
        let mut buf: Vec<Span> = Vec::new();
        std::mem::swap(&mut buf, &mut self.buf);
        let ghost front = spans@;
        let ghost back = buf@;
        spans.append(&mut buf);
        assert(spans@ =~= front + back);
        assert(spans.deep_view() =~= quote_prefix(m.quote) + marker_prefix(m) + m.buf);
        let style = if self.quote > 0 {
            Style { fg: Some(Color::Gray), ..plain() }
        } else {
            plain()
        };
        self.push_line(Line { spans, style });
        assert(self.deep_view() =~= flushed(m));
    }

    /// Takes a piece of text.
    fn text(&mut self, t: &str)
        ensures
            final(self).deep_view() == with_text(old(self).deep_view(), t@),
    {
        let ghost m = self.deep_view();
        if self.in_code {
            self.code.append(t);
            return ;
        }
        let n = self.styles.len();
        if n > 0 {
            match &mut self.styles[n - 1] {
                InlineStyle::Image { alt, .. } => {
                    alt.append(t);
                    assert(self.deep_view().styles =~= with_text(m, t@).styles);
                    return ;
                },
                _ => {},
            }
            assert(m.styles.last() == old(self).styles[n - 1].deep_view());
            assert(self.styles@ =~= old(self).styles@);
        }
        let s = self.style_now();
        self.push_span(Span::styled(owned(t), s));
    }

    /// Makes the open code lines, below one with its language.
    fn flush_code(&mut self)
        ensures
            final(self).deep_view() == code_flushed(old(self).deep_view()),
    {
        let ghost m = self.deep_view();
        match self.code_lang.take() {
            Some(lang) => {
                let mut line = owned("  ");
                line.append(lang.as_str());
                let style = Style { italic: true, ..muted() };
                self.push_line(Line::styled(line.as_str(), style));
            },
            None => {},
        }
        push_code(&mut self.out, self.code.as_str());
        self.code = String::new();
        assert(self.deep_view() =~= code_flushed(m));
    }

    /// Starts a list item.
    fn item_start(&mut self)
        requires
            accepts(old(self).deep_view(), EventView::Start(TagView::Item)),
        ensures
            final(self).deep_view() == item_started(old(self).deep_view()),
    {
        self.flush();
        self.item_prefix_used = false;
        let n = self.list.len();
        if n > 0 {
            let ctx = self.list[n - 1];
            if ctx.ordered {
                self.item_number = Some(ctx.number);
                self.list.set(n - 1, ListCtx { ordered: true, number: ctx.number + 1 });
            } else {
                self.item_number = None;
            }
        }
    }

    /// Opens an inline element.
    fn push_style(&mut self, style: InlineStyle)
        ensures
            final(self).deep_view() == (MdView {
                styles: old(self).deep_view().styles.push(style.deep_view()),
                ..old(self).deep_view()
            }),
    {
        self.styles.push(style);
        assert(self.deep_view().styles =~= old(self).deep_view().styles.push(style.deep_view()));
    }

    /// Takes the start of an element.
    fn start(&mut self, tag: MdTag)
        requires
            accepts(old(self).deep_view(), EventView::Start(tag.deep_view())),
        ensures
            final(self).deep_view() == after_start(old(self).deep_view(), tag.deep_view()),
    {
        let ghost m = self.deep_view();
        match tag {
            MdTag::Paragraph => self.flush(),
            MdTag::Heading(level) => {
                self.flush();
                self.blank();
                self.heading = Some(level);
            },
            MdTag::BlockQuote => {
                self.flush();
                self.quote = self.quote + 1;
            },
            MdTag::List(first) => {
                self.flush();
                self.blank();
                let ctx = match first {
                    Some(number) => ListCtx { ordered: true, number },
                    None => ListCtx { ordered: false, number: 1 },
                };
                self.list.push(ctx);
            },
            MdTag::Item => self.item_start(),
            MdTag::CodeBlock(kind) => {
                self.flush();
                self.blank();
                self.in_code = true;
                self.code_lang = match kind {
                    Some(lang) => {
                        proof {
                            reveal_strlit("");
                            assert(lang@.len() == 0 ==> lang@ =~= ""@);
                        }
                        if same_text(lang.as_str(), "") {
                            None
                        } else {
                            Some(lang)
                        }
                    },
                    None => None,
                };
            },
            MdTag::Emphasis => self.push_style(InlineStyle::Emphasis),
            MdTag::Strong => self.push_style(InlineStyle::Strong),
            MdTag::Strikethrough => self.push_style(InlineStyle::Strike),
            MdTag::Link(url) => {
                let start = self.target_len();
                self.push_style(InlineStyle::Link { url, start });
            },
            MdTag::Image(url) => {
                let alt = String::new();
                self.push_style(InlineStyle::Image { url, alt });
            },
            MdTag::Table(align) => {
                self.flush();
                self.blank();
                self.table = Some(TableBuf { rows: Vec::new(), header_rows: 0, align });
            },
            MdTag::TableHead | MdTag::TableRow => {
                self.table_row = Vec::new();
            },
            MdTag::TableCell => {
                self.cell = Some(Vec::new());
            },
            MdTag::Other => {},
        }
        assert(self.deep_view() =~~= after_start(m, tag.deep_view()));
    }

    /// Closes a heading.
    fn end_heading(&mut self, level: u8)
        ensures
            final(self).deep_view() == after_heading(old(self).deep_view(), level),
    {
        let ghost m = self.deep_view();
        if self.heading.is_none() {
            return ;
        }
        if self.buf.len() > 0 {
            let title = text_of_spans(&self.buf);
            let content_line = self.out.len();
            let mut spans: Vec<Span> = Vec::new();
            std::mem::swap(&mut spans, &mut self.buf);
            let style = Style { bold: true, fg: Some(heading_color(level)), ..plain() };
            self.push_line(Line { spans, style });
            let heading = Heading { title, level, content_line, line: content_line };
            self.headings.push(heading);
            assert(self.headings.deep_view() =~= m.headings.push(heading.deep_view()));
            self.blank();
        }
        self.heading = None;
        assert(self.deep_view() =~~= after_heading(m, level));
    }

    /// Closes an image.
    fn end_image(&mut self)
        requires
            accepts(old(self).deep_view(), EventView::End(MdTagEnd::Image)),
        ensures
            final(self).deep_view() == after_image(old(self).deep_view()),
    {
        let ghost m = self.deep_view();
        let top = self.styles.pop();
        assert(self.deep_view() =~~= style_popped(m));
        if let Some(InlineStyle::Image { url, alt }) = top {
            assert(m.styles.last() == (InlineView::Image { url: url@, alt: alt@ }));
            let path = join_path(self.base.as_str(), url.as_str());
            proof {
                reveal_strlit("");
                assert(alt@.len() == 0 ==> alt@ =~= ""@);
            }
            let label = if same_text(alt.as_str(), "") {
                match name_of(path.as_str()) {
                    Some(name) => name,
                    None => owned("image"),
                }
            } else {
                alt
            };
            let content_line = self.out.len();
            let mut text = owned("▦ ");
            text.append(label.as_str());
            self.push_line(Line::styled(text.as_str(), muted()));
            let image = Image {
                id: self.next_image_id,
                path,
                content_line,
                dims: None,
                cw: 0,
                ch: 0,
                png: None,
                png_dims: None,
            };
            self.images.push(image);
            assert(self.images.deep_view() =~= m.images.push(image.deep_view()));
            self.next_image_id = self.next_image_id + 1;
        } else {
            assert(m.styles.len() > 0 ==> m.styles.last() !is Image);
        }
        assert(self.deep_view() =~~= after_image(m));
    }

    /// Closes a link.
    fn end_link(&mut self)
        requires
            accepts(old(self).deep_view(), EventView::End(MdTagEnd::Link)),
        ensures
            final(self).deep_view() == after_link(old(self).deep_view()),
    {
        let ghost m = self.deep_view();
        let top = self.styles.pop();
        assert(self.deep_view() =~~= style_popped(m));
        if let Some(InlineStyle::Link { url, start }) = top {
            assert(m.styles.last() == (InlineView::Link { url: url@, start: start as nat }));
            let text = match &self.cell {
                Some(cell) => text_of_spans_from(cell, start),
                None => text_of_spans_from(&self.buf, start),
            };
            if !same_text(text.as_str(), url.as_str()) {
                let mut note = owned(" (");
                note.append(url.as_str());
                note.append(")");
                self.push_span(Span::styled(note, muted()));
            }
        } else {
            assert(m.styles.len() > 0 ==> m.styles.last() !is Link);
        }
    }

    /// Closes a table.
    fn end_table(&mut self)
        ensures
            final(self).deep_view() == after_table(old(self).deep_view()),
    {
        let ghost m = self.deep_view();
        if let Some(table) = self.table.take() {
            if table.rows.len() > 0 {
                let content_line = self.out.len();
                self.push_line(Line::empty());
                let done = Table {
                    content_line,
                    rows: table.rows,
                    header_rows: table.header_rows,
                    align: table.align,
                };
                self.tables.push(done);
                assert(self.tables.deep_view() =~= m.tables.push(done.deep_view()));
            }
        }
        self.blank();
        assert(self.deep_view() =~~= after_table(m));
    }

    /// Closes a table row.
    fn end_row(&mut self, header: bool)
        requires
            old(self).table is Some ==> old(self).table->0.header_rows
                <= old(self).table->0.rows@.len(),
        ensures
            final(self).deep_view() == after_row(old(self).deep_view(), header),
    {
        let ghost m = self.deep_view();
        if self.table_row.len() > 0 {
            if let Some(mut table) = self.table.take() {
                let ghost t = table.deep_view();
                let mut row: Vec<Vec<Span>> = Vec::new();
                std::mem::swap(&mut row, &mut self.table_row);
                table.rows.push(row);
                assert(table.rows.deep_view() =~= t.rows.push(m.table_row));
                if header {
                    let count = table.rows.len();
                    assert(table.header_rows < count);
                    table.header_rows = table.header_rows + 1;
                }
                self.table = Some(table);
            }
        }
        assert(self.deep_view() =~~= after_row(m, header));
    }

    /// Closes a table cell.
    fn end_cell(&mut self)
        ensures
            final(self).deep_view() == after_cell(old(self).deep_view()),
    {
        let ghost m = self.deep_view();
        if let Some(cell) = self.cell.take() {
            self.table_row.push(cell);
            assert(self.table_row.deep_view() =~= m.table_row.push(cell.deep_view()));
        }
        assert(self.deep_view() =~~= after_cell(m));
    }

    /// Takes the end of an element.
    fn end(&mut self, tag: MdTagEnd)
        requires
            header_rows_ok(old(self).deep_view()),
            accepts(old(self).deep_view(), EventView::End(tag)),
        ensures
            final(self).deep_view() == after_end(old(self).deep_view(), tag),
    {
        let ghost m = self.deep_view();
        assert(self.table is Some ==> self.table->0.rows.deep_view().len()
            == self.table->0.rows@.len());
        match tag {
            MdTagEnd::Paragraph | MdTagEnd::Item => self.flush(),
            MdTagEnd::Heading(level) => self.end_heading(level),
            MdTagEnd::BlockQuote => {
                self.flush();
                self.quote = self.quote.saturating_sub(1);
                self.blank();
            },
            MdTagEnd::List => {
                self.flush();
                self.list.pop();
                self.blank();
            },
            MdTagEnd::CodeBlock => {
                self.flush_code();
                self.in_code = false;
                self.blank();
            },
            MdTagEnd::Emphasis | MdTagEnd::Strong | MdTagEnd::Strikethrough => {
                self.styles.pop();
            },
            MdTagEnd::Image => self.end_image(),
            MdTagEnd::Link => self.end_link(),
            MdTagEnd::Table => self.end_table(),
            MdTagEnd::TableHead => self.end_row(true),
            MdTagEnd::TableRow => self.end_row(false),
            MdTagEnd::TableCell => self.end_cell(),
            MdTagEnd::Other => {},
        }
        assert(self.deep_view() =~~= after_end(m, tag));
    }

    /// Takes an event.
    pub fn event(&mut self, event: MdEvent)
        requires
            header_rows_ok(old(self).deep_view()),
            accepts(old(self).deep_view(), event.deep_view()),
        ensures
            final(self).deep_view() == after_event(old(self).deep_view(), event.deep_view()),
            header_rows_ok(final(self).deep_view()),
    {
        let ghost m = self.deep_view();
        match event {
            MdEvent::Start(tag) => self.start(tag),
            MdEvent::End(tag) => self.end(tag),
            MdEvent::Text(text) => self.text(text.as_str()),
            MdEvent::Code(text) => self.push_span(Span::styled(text, muted())),
            MdEvent::SoftBreak => self.push_span(Span::raw(owned(" "))),
            MdEvent::HardBreak => self.flush(),
            MdEvent::Rule => {
                self.flush();
                self.push_line(Line::styled(repeat_char('─', 100).as_str(), muted()));
                self.blank();
            },
            MdEvent::TaskListMarker(done) => {
                let span = if done {
                    Span::styled(owned("[x] "), Style { fg: Some(Color::Green), ..plain() })
                } else {
                    Span::styled(owned("[ ] "), muted())
                };
                self.push_span(span);
            },
            MdEvent::Other => {},
        }
        proof {
            lemma_header_rows(m, event.deep_view());
        }
    }

    /// Whether the builder can take an event.
    pub fn can_take(&self, event: &MdEvent) -> (r: bool)
        ensures
            r == accepts(self.deep_view(), event.deep_view()),
    {
        match event {
            MdEvent::Start(MdTag::BlockQuote) => self.quote < usize::MAX,
            MdEvent::Start(MdTag::Item) => {
                let n = self.list.len();
                n == 0 || !self.list[n - 1].ordered || self.list[n - 1].number < u64::MAX
            },
            MdEvent::End(MdTagEnd::Image) => {
                let n = self.styles.len();
                if n == 0 {
                    return true;
                }
                assert(self.styles.deep_view().last() == self.styles[n - 1].deep_view());
                match &self.styles[n - 1] {
                    InlineStyle::Image { .. } => self.next_image_id < u32::MAX,
                    _ => true,
                }
            },
            MdEvent::End(MdTagEnd::Link) => {
                let n = self.styles.len();
                if n == 0 {
                    return true;
                }
                assert(self.styles.deep_view().last() == self.styles[n - 1].deep_view());
                match &self.styles[n - 1] {
                    InlineStyle::Link { start, .. } => *start <= self.target_len(),
                    _ => true,
                }
            },
            _ => true,
        }
    }

    /// The document at the end of the text.
    pub fn finish(self) -> (r: Document)
        ensures
            r.deep_view() == finished(self.deep_view()),
    {
        let mut md = self;
        md.flush();
        Document {
            content: md.out,
            headings: md.headings,
            images: md.images,
            tables: md.tables,
        }
    }
}

/// The open table has no more header rows than rows.
pub open spec fn header_rows_ok(m: MdView) -> bool {
    m.table is Some ==> m.table->0.header_rows <= m.table->0.rows.len()
}

proof fn lemma_header_rows(m: MdView, event: EventView)
    requires
        header_rows_ok(m),
    ensures
        header_rows_ok(after_event(m, event)),
{
}

/// The document that some events make. There is none where the builder cannot
/// take one of them.
pub fn render_events(events: Vec<MdEvent>, base: &str) -> (r: Option<Document>)
    ensures
        match r {
            Some(document) => rendered(events.deep_view(), base@) == Some(document.deep_view()),
            None => rendered(events.deep_view(), base@) is None,
        },
{
    let mut md = Md::new(owned(base));
    let ghost all = events.deep_view();
    assert(all.take(0) =~= Seq::empty());
    for event in it: events
        invariant
            it.seq() == events@,
            all == events.deep_view(),
            header_rows_ok(md.deep_view()),
            after_events(all.take(it.index()), base@) == Some(md.deep_view()),
    {
        let ghost i = it.index();
        proof {
            assert(all.take(i + 1).drop_last() =~= all.take(i));
            assert(all.take(i + 1).last() == event.deep_view());
        }
        if !md.can_take(&event) {
            proof {
                lemma_refused(all, base@, i + 1);
            }
            return None;
        }
        md.event(event);
    }
    assert(all.take(all.len() as int) =~= all);
    Some(md.finish())
}

proof fn lemma_refused(events: Seq<EventView>, base: Seq<char>, n: int)
    requires
        0 <= n <= events.len(),
        after_events(events.take(n), base) is None,
    ensures
        after_events(events, base) is None,
    decreases events.len() - n,
{
    if n < events.len() {
        assert(events.take(n + 1).drop_last() =~= events.take(n));
        lemma_refused(events, base, n + 1);
    } else {
        assert(events.take(n) =~= events);
    }
}

/// The document of a markdown text in the directory `base`. Its headings, images and
/// tables are in order, and its headings have levels from one to six.
pub fn render(md_text: &str, base: &str) -> (r: Option<Document>)
    ensures
        match r {
            Some(document) => rendered(markdown_events(md_text@, true, true, true), base@) == Some(
                document.deep_view(),
            ) && is_fresh(document.deep_view()) && levels_ok(document.deep_view().headings),
            None => rendered(markdown_events(md_text@, true, true, true), base@) is None,
        },
{
    let events = read_events(md_text);
    proof {
        documents_are_in_order(events.deep_view(), base@);
        headings_keep_their_levels(events.deep_view(), base@);
    }
    render_events(events, base)
}

} // verus!
