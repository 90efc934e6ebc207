//! What holds of every rendered document.

use crate::events::{are_leveled, is_leveled, EventView, MdTagEnd, TagView};
use crate::images::ImageView;
use crate::markdown::{
    accepts, after_end, after_event, after_events, after_heading, after_image, after_start,
    after_table, code_flushed, code_lines, finished, flushed, heading_style, image_label,
    lang_style, marker_prefix, md_start, md_target, new_image, placeholder, quote_prefix,
    rendered, rule_line, spaced, task_span, DocumentView, HeadingView, MdView,
};
use crate::paths::joined;
use crate::style::{
    empty_line, lemma_spans_text_concat, muted_style, spans_text, styled_line, LineView, SpanView,
    Style,
};
use crate::table::{column_count, TableView};
use crate::text::{lemma_split_nonempty, repeated, split, text_lines, trim_end};
use vstd::prelude::*;

verus! {

/// Every heading stands on a line of its own that shows its title in the style of
/// its level, and the headings stand in the order of the text.
pub open spec fn headings_ok(content: Seq<LineView>, headings: Seq<HeadingView>) -> bool {
    &&& forall|i: int|
        0 <= i < headings.len() ==> {
            let h = #[trigger] headings[i];
            &&& h.content_line < content.len()
            &&& content[h.content_line as int].spans.len() > 0
            &&& spans_text(content[h.content_line as int].spans) == h.title
            &&& content[h.content_line as int].style == heading_style(h.level)
        }
    &&& forall|i: int, j: int|
        0 <= i < j < headings.len() ==> (#[trigger] headings[i]).content_line < (
        #[trigger] headings[j]).content_line
}

/// The headings do not know of any layout yet.
pub open spec fn headings_fresh(headings: Seq<HeadingView>) -> bool {
    forall|i: int|
        0 <= i < headings.len() ==> (#[trigger] headings[i]).line == headings[i].content_line
}

/// The images are not decoded, sized or encoded yet.
pub open spec fn images_fresh(images: Seq<ImageView>) -> bool {
    forall|i: int|
        0 <= i < images.len() ==> #[trigger] images[i] == new_image(
            images[i].id,
            images[i].path,
            images[i].content_line,
        )
}

/// Every image has a line that stands for it, the images stand in the order of
/// the text, and they are numbered from one on.
pub open spec fn images_ok(content: Seq<LineView>, images: Seq<ImageView>) -> bool {
    &&& forall|i: int|
        0 <= i < images.len() ==> {
            let img = #[trigger] images[i];
            &&& img.content_line < content.len()
            &&& content[img.content_line as int].spans.len() > 0
            &&& img.id == i + 1
        }
    &&& forall|i: int, j: int|
        0 <= i < j < images.len() ==> (#[trigger] images[i]).content_line < (
        #[trigger] images[j]).content_line
}

/// The rows of a table all have cells.
pub open spec fn rows_ok(rows: Seq<Seq<Seq<SpanView>>>) -> bool {
    forall|r: int| 0 <= r < rows.len() ==> (#[trigger] rows[r]).len() > 0
}

/// Every table has rows, an empty line stands for it, and the tables stand in the
/// order of the text.
pub open spec fn tables_ok(content: Seq<LineView>, tables: Seq<TableView>) -> bool {
    &&& forall|i: int|
        0 <= i < tables.len() ==> {
            let t = #[trigger] tables[i];
            &&& t.content_line < content.len()
            &&& content[t.content_line as int] == empty_line()
            &&& t.rows.len() > 0
            &&& t.header_rows <= t.rows.len()
            &&& rows_ok(t.rows)
        }
    &&& forall|i: int, j: int|
        0 <= i < j < tables.len() ==> (#[trigger] tables[i]).content_line < (
        #[trigger] tables[j]).content_line
}

/// No line is that of a heading and of an image.
pub open spec fn apart(headings: Seq<HeadingView>, images: Seq<ImageView>) -> bool {
    forall|i: int, j: int|
        0 <= i < headings.len() && 0 <= j < images.len() ==> (
        #[trigger] headings[i]).content_line != (#[trigger] images[j]).content_line
}

/// Whether a line stands for a table.
pub open spec fn is_table_line(tables: Seq<TableView>, line: int) -> bool {
    exists|i: int| 0 <= i < tables.len() && (#[trigger] tables[i]).content_line == line
}

/// A line without spans that is neither below a line with spans nor stands for a
/// table does not occur.
pub open spec fn spacing_ok(content: Seq<LineView>, tables: Seq<TableView>) -> bool {
    forall|i: int|
        0 <= i < content.len() && (#[trigger] content[i]).spans.len() == 0 && (i == 0 || content[i
            - 1].spans.len() == 0) ==> is_table_line(tables, i)
}

/// What holds of every rendered document.
pub open spec fn document_ok(d: DocumentView) -> bool {
    &&& headings_ok(d.content, d.headings)
    &&& images_ok(d.content, d.images)
    &&& tables_ok(d.content, d.tables)
    &&& apart(d.headings, d.images)
    &&& spacing_ok(d.content, d.tables)
}

/// The document that the builder holds so far.
spec fn so_far(m: MdView) -> DocumentView {
    DocumentView { content: m.out, headings: m.headings, images: m.images, tables: m.tables }
}

spec fn builder_ok(m: MdView) -> bool {
    &&& document_ok(so_far(m))
    &&& headings_fresh(m.headings)
    &&& images_fresh(m.images)
    &&& m.next_image_id == m.images.len() + 1
    &&& m.table is Some ==> m.table->0.header_rows <= m.table->0.rows.len() && rows_ok(
        m.table->0.rows,
    )
}

/// Every table of a document has at least one column.
pub proof fn tables_have_columns(d: DocumentView, i: int)
    requires
        document_ok(d),
        0 <= i < d.tables.len(),
    ensures
        column_count(d.tables[i]) > 0,
{
    let rows = d.tables[i].rows;
    assert(rows[rows.len() - 1].len() > 0);
}

proof fn lemma_more_content(d: DocumentView, line: LineView)
    requires
        document_ok(d),
        line.spans.len() > 0 || (d.content.len() > 0 && d.content.last().spans.len() > 0),
    ensures
        document_ok((DocumentView { content: d.content.push(line), ..d })),
{
    let more = d.content.push(line);
    assert forall|i: int|
        0 <= i < more.len() && (#[trigger] more[i]).spans.len() == 0 && (i == 0 || more[i
            - 1].spans.len() == 0) implies is_table_line(d.tables, i) by {
        if i < d.content.len() {
            assert(d.content[i] == more[i]);
        }
    }
}

proof fn lemma_spaced(d: DocumentView)
    requires
        document_ok(d),
    ensures
        document_ok((DocumentView { content: spaced(d.content), ..d })),
{
    if d.content.len() > 0 && d.content.last().spans.len() > 0 {
        lemma_more_content(d, empty_line());
    }
}

proof fn lemma_more_lines(d: DocumentView, lines: Seq<LineView>)
    requires
        document_ok(d),
        forall|i: int| 0 <= i < lines.len() ==> (#[trigger] lines[i]).spans.len() > 0,
    ensures
        document_ok((DocumentView { content: d.content + lines, ..d })),
    decreases lines.len(),
{
    if lines.len() == 0 {
        assert(d.content + lines =~= d.content);
    } else {
        lemma_more_lines(d, lines.drop_last());
        assert(lines[lines.len() - 1].spans.len() > 0);
        lemma_more_content(
            (DocumentView { content: d.content + lines.drop_last(), ..d }),
            lines.last(),
        );
        assert((d.content + lines.drop_last()).push(lines.last()) =~= d.content + lines);
    }
}

proof fn lemma_one_piece(s: Seq<char>, sep: char)
    ensures
        split(s, sep).len() == 1 ==> split(s, sep)[0] == s,
    decreases s.len(),
{
    if s.len() == 0 {
        assert(s =~= Seq::empty());
    } else {
        lemma_one_piece(s.drop_last(), sep);
        lemma_split_nonempty(s.drop_last(), sep);
        assert(s.drop_last().push(s.last()) =~= s);
    }
}

proof fn lemma_styled_line(text: Seq<char>, style: Style)
    requires
        text.len() > 0,
    ensures
        styled_line(text, style).spans.len() > 0,
{
    lemma_split_nonempty(text, '\n');
    lemma_one_piece(text, '\n');
    assert(text_lines(text).len() > 0);
}

proof fn lemma_flushed(m: MdView)
    requires
        builder_ok(m),
    ensures
        builder_ok(flushed(m)),
{
    if m.buf.len() > 0 {
        lemma_more_content(so_far(m), flushed(m).out.last());
        assert(flushed(m).out =~= m.out.push(flushed(m).out.last()));
    }
}

proof fn lemma_code_flushed(m: MdView)
    requires
        builder_ok(m),
    ensures
        builder_ok(code_flushed(m)),
{
    reveal_strlit("  ");
    let lines = code_flushed(m).out.skip(m.out.len() as int);
    assert(code_flushed(m).out =~= m.out + lines);
    let pieces = split(trim_end(m.code, '\n'), '\n');
    let code = code_lines(m.code);
    assert forall|i: int| 0 <= i < code.len() implies (#[trigger] code[i]).spans.len() > 0 by {
        lemma_styled_line("  "@ + pieces[i], muted_style());
    }
    assert forall|i: int| 0 <= i < lines.len() implies (#[trigger] lines[i]).spans.len() > 0 by {
        match m.code_lang {
            Some(lang) => {
                lemma_styled_line("  "@ + lang, lang_style());
                if i > 0 {
                    assert(lines[i] == code[i - 1]);
                }
            },
            None => {
                assert(lines[i] == code[i]);
            },
        }
    }
    lemma_more_lines(so_far(m), lines);
}

proof fn lemma_after_heading(m: MdView, level: u8)
    requires
        builder_ok(m),
    ensures
        builder_ok(after_heading(m, level)),
{
    if m.heading is Some && m.buf.len() > 0 {
        let line = LineView { spans: m.buf, style: heading_style(level) };
        lemma_more_content(so_far(m), line);
        let d = DocumentView {
            content: m.out.push(line),
            headings: after_heading(m, level).headings,
            ..so_far(m)
        };
        assert(document_ok(d));
        lemma_spaced(d);
    }
}

proof fn lemma_after_image(m: MdView)
    requires
        builder_ok(m),
        accepts(m, EventView::End(MdTagEnd::Image)),
    ensures
        builder_ok(after_image(m)),
{
    if m.styles.len() > 0 && m.styles.last() is Image {
        reveal_strlit("▦ ");
        let line = after_image(m).out.last();
        let path = joined(m.base, m.styles.last()->Image_url);
        let label = image_label(path, m.styles.last()->alt);
        assert(line == placeholder(label));
        lemma_styled_line("▦ "@ + label, muted_style());
        lemma_more_content(so_far(m), line);
    }
}

proof fn lemma_after_table(m: MdView)
    requires
        builder_ok(m),
    ensures
        builder_ok(after_table(m)),
{
    if m.table is Some && m.table->0.rows.len() > 0 {
        let d = so_far(after_table(m));
        let n = m.out.len() as int;
        assert(d.tables[d.tables.len() - 1].content_line == n);
        assert forall|i: int|
            0 <= i < d.content.len() && (#[trigger] d.content[i]).spans.len() == 0 && (i == 0
                || d.content[i - 1].spans.len() == 0) implies is_table_line(d.tables, i) by {
            if i < n {
                assert(m.out[i] == d.content[i]);
                let k = choose|k: int|
                    0 <= k < m.tables.len() && (#[trigger] m.tables[k]).content_line == i;
                assert(d.tables[k] == m.tables[k]);
            }
        }
    } else {
        lemma_spaced(so_far(m));
    }
}

proof fn lemma_after_event(m: MdView, event: EventView)
    requires
        builder_ok(m),
        accepts(m, event),
    ensures
        builder_ok(after_event(m, event)),
{
    lemma_flushed(m);
    lemma_spaced(so_far(flushed(m)));
    match event {
        EventView::End(MdTagEnd::CodeBlock) => {
            lemma_code_flushed(m);
            lemma_spaced(so_far(code_flushed(m)));
        },
        EventView::End(MdTagEnd::Heading(level)) => {
            lemma_after_heading(m, level);
        },
        EventView::End(MdTagEnd::Image) => {
            lemma_after_image(m);
        },
        EventView::End(MdTagEnd::Table) => {
            lemma_after_table(m);
        },
        EventView::Rule => {
            lemma_styled_line(repeated('─', 100), muted_style());
            lemma_more_content(so_far(flushed(m)), rule_line());
            let d = DocumentView {
                content: flushed(m).out.push(rule_line()),
                ..so_far(flushed(m))
            };
            lemma_spaced(d);
        },
        _ => {},
    }
}

proof fn lemma_after_events(events: Seq<EventView>, base: Seq<char>)
    ensures
        match after_events(events, base) {
            Some(m) => builder_ok(m),
            None => true,
        },
    decreases events.len(),
{
    if events.len() > 0 {
        lemma_after_events(events.drop_last(), base);
        if let Some(m) = after_events(events.drop_last(), base) {
            if accepts(m, events.last()) {
                lemma_after_event(m, events.last());
            }
        }
    } else {
        assert(builder_ok(md_start(base)));
    }
}

/// What holds of a document that was just rendered.
pub open spec fn is_fresh(d: DocumentView) -> bool {
    document_ok(d) && headings_fresh(d.headings) && images_fresh(d.images)
}

/// In every rendered document the headings, images and tables have lines of their
/// own, in the order of the text, and blank lines only separate: none leads the
/// document or follows another, but for the lines that stand for tables.
pub proof fn documents_are_in_order(events: Seq<EventView>, base: Seq<char>)
    ensures
        match rendered(events, base) {
            Some(d) => is_fresh(d),
            None => true,
        },
{
    lemma_after_events(events, base);
    if let Some(m) = after_events(events, base) {
        lemma_flushed(m);
        assert(finished(m) == so_far(flushed(m)));
    }
}

/// Whether all headings have levels from one to six.
pub open spec fn levels_ok(headings: Seq<HeadingView>) -> bool {
    forall|i: int| 0 <= i < headings.len() ==> 1 <= (#[trigger] headings[i]).level <= 6
}

proof fn lemma_levels(events: Seq<EventView>, base: Seq<char>)
    requires
        are_leveled(events),
    ensures
        match after_events(events, base) {
            Some(m) => levels_ok(m.headings),
            None => true,
        },
    decreases events.len(),
{
    if events.len() > 0 {
        let front = events.drop_last();
        let event = events[events.len() - 1];
        assert forall|i: int| 0 <= i < front.len() implies is_leveled(#[trigger] front[i]) by {
            assert(front[i] == events[i]);
        }
        lemma_levels(front, base);
        assert(is_leveled(event));
        if let Some(m) = after_events(front, base) {
            match event {
                EventView::Start(tag) => lemma_start_only_adds(m, tag),
                _ => {},
            }
        }
    }
}

/// The headings of a document have levels from one to six, as those of the text.
pub proof fn headings_keep_their_levels(events: Seq<EventView>, base: Seq<char>)
    requires
        are_leveled(events),
    ensures
        match rendered(events, base) {
            Some(d) => levels_ok(d.headings),
            None => true,
        },
{
    lemma_levels(events, base);
}

/// The state of the builder after some more events.
pub open spec fn continued(m: MdView, events: Seq<EventView>) -> MdView
    decreases events.len(),
{
    if events.len() == 0 {
        m
    } else {
        after_event(continued(m, events.drop_last()), events.last())
    }
}

/// Whether an event adds text to a line or changes how it is drawn.
pub open spec fn is_inline(event: EventView) -> bool {
    match event {
        EventView::Text(_)
        | EventView::Code(_)
        | EventView::SoftBreak
        | EventView::TaskListMarker(_) => true,
        EventView::Start(tag) => tag == TagView::Emphasis || tag == TagView::Strong || tag
            == TagView::Strikethrough,
        EventView::End(tag) => tag == MdTagEnd::Emphasis || tag == MdTagEnd::Strong || tag
            == MdTagEnd::Strikethrough,
        _ => false,
    }
}

/// The text that some inline events add.
pub open spec fn inline_text(events: Seq<EventView>) -> Seq<char>
    decreases events.len(),
{
    if events.len() == 0 {
        Seq::empty()
    } else {
        let before = inline_text(events.drop_last());
        match events.last() {
            EventView::Text(text) => before + text,
            EventView::Code(text) => before + text,
            EventView::SoftBreak => before + " "@,
            EventView::TaskListMarker(done) => before + task_span(done).content,
            _ => before,
        }
    }
}

/// Whether no image is open, so that text goes to the page.
pub open spec fn no_open_image(m: MdView) -> bool {
    forall|i: int| 0 <= i < m.styles.len() ==> (#[trigger] m.styles[i]) !is Image
}

/// Text inside a paragraph or a table cell is kept, character by character and in
/// order, whatever emphasis it has.
pub proof fn inline_text_is_kept(m: MdView, events: Seq<EventView>)
    requires
        !m.in_code,
        no_open_image(m),
        forall|i: int| 0 <= i < events.len() ==> is_inline(#[trigger] events[i]),
    ensures
        ({
            let n = continued(m, events);
            &&& spans_text(md_target(n)) == spans_text(md_target(m)) + inline_text(events)
            &&& md_target(m).len() <= md_target(n).len()
            &&& n == (MdView { buf: n.buf, cell: n.cell, styles: n.styles, ..m })
            &&& n.cell is Some <==> m.cell is Some
            &&& n.cell is Some ==> n.buf == m.buf
            &&& no_open_image(n)
        }),
    decreases events.len(),
{
    if events.len() == 0 {
        assert(spans_text(md_target(m)) + inline_text(events) =~= spans_text(md_target(m)));
    } else {
        let front = events.drop_last();
        assert forall|i: int| 0 <= i < front.len() implies is_inline(#[trigger] front[i]) by {
            assert(front[i] == events[i]);
        }
        inline_text_is_kept(m, front);
        let p = continued(m, front);
        let event = events[events.len() - 1];
        assert(is_inline(event));
        lemma_inline_event(p, event);
        assert(spans_text(md_target(after_event(p, event))) =~= spans_text(md_target(m))
            + inline_text(events));
    }
}

proof fn lemma_inline_event(m: MdView, event: EventView)
    requires
        !m.in_code,
        no_open_image(m),
        is_inline(event),
    ensures
        ({
            let n = after_event(m, event);
            let added = match event {
                EventView::Text(text) => text,
                EventView::Code(text) => text,
                EventView::SoftBreak => " "@,
                EventView::TaskListMarker(done) => task_span(done).content,
                _ => Seq::empty(),
            };
            &&& spans_text(md_target(n)) == spans_text(md_target(m)) + added
            &&& md_target(m).len() <= md_target(n).len()
            &&& n == (MdView { buf: n.buf, cell: n.cell, styles: n.styles, ..m })
            &&& n.cell is Some <==> m.cell is Some
            &&& n.cell is Some ==> n.buf == m.buf
            &&& no_open_image(n)
        }),
{
    let n = after_event(m, event);
    match event {
        EventView::Start(_) | EventView::End(_) => {
            assert(spans_text(md_target(m)) + Seq::<char>::empty() =~= spans_text(md_target(m)));
        },
        _ => {
            assert(md_target(n).drop_last() =~= md_target(m));
        },
    }
}

/// A paragraph becomes one line that ends with its text, behind the marks of quotes
/// and lists. An empty one becomes nothing.
pub proof fn paragraphs_become_lines(m: MdView, events: Seq<EventView>)
    requires
        !m.in_code,
        no_open_image(m),
        m.buf.len() == 0,
        m.cell is None,
        forall|i: int| 0 <= i < events.len() ==> is_inline(#[trigger] events[i]),
    ensures
        ({
            let opened = after_event(m, EventView::Start(TagView::Paragraph));
            let n = after_event(
                continued(opened, events),
                EventView::End(MdTagEnd::Paragraph),
            );
            let marks = spans_text(quote_prefix(m.quote) + marker_prefix(m));
            &&& n.buf.len() == 0
            &&& inline_text(events).len() > 0 ==> n.out.len() == m.out.len() + 1
                && n.out.drop_last() == m.out && spans_text(n.out.last().spans) == marks
                + inline_text(events)
            &&& continued(opened, events).buf.len() == 0 ==> n.out == m.out
        }),
{
    let opened = after_event(m, EventView::Start(TagView::Paragraph));
    assert(opened == m);
    inline_text_is_kept(m, events);
    let p = continued(m, events);
    assert(spans_text(m.buf) =~= Seq::empty());
    assert(spans_text(p.buf) =~= inline_text(events));
    if p.buf.len() > 0 {
        let front = quote_prefix(m.quote) + marker_prefix(m);
        lemma_spans_text_concat(front, p.buf);
        assert(flushed(p).out.drop_last() =~= m.out);
    } else {
        assert(spans_text(p.buf) =~= Seq::empty());
    }
}

/// Whether an event is one that is not rendered.
pub open spec fn is_other(event: EventView) -> bool {
    match event {
        EventView::Other
        | EventView::Start(TagView::Other)
        | EventView::End(MdTagEnd::Other) => true,
        _ => false,
    }
}

/// An event never changes lines, headings, images or tables that are there: it only
/// adds to them. It keeps the directory of the document, it numbers images as it adds
/// them, and one that is not rendered changes nothing.
pub proof fn rendering_only_adds(m: MdView, event: EventView)
    ensures
        m.out.is_prefix_of(after_event(m, event).out),
        m.headings.is_prefix_of(after_event(m, event).headings),
        m.images.is_prefix_of(after_event(m, event).images),
        m.tables.is_prefix_of(after_event(m, event).tables),
        after_event(m, event).base == m.base,
        accepts(m, event) ==> after_event(m, event).next_image_id - after_event(
            m,
            event,
        ).images.len() == m.next_image_id - m.images.len(),
        is_other(event) ==> after_event(m, event) == m,
{
    match event {
        EventView::Start(tag) => lemma_start_only_adds(m, tag),
        EventView::End(tag) => lemma_end_only_adds(m, tag),
        _ => {
            let f = flushed(m).out;
            assert(m.out.is_prefix_of(f));
            assert(m.out.is_prefix_of(spaced(f.push(rule_line()))));
        },
    }
}

proof fn lemma_start_only_adds(m: MdView, tag: TagView)
    ensures
        m.out.is_prefix_of(after_start(m, tag).out),
        after_start(m, tag).headings == m.headings,
        after_start(m, tag).images == m.images,
        after_start(m, tag).tables == m.tables,
        after_start(m, tag).base == m.base,
        after_start(m, tag).next_image_id == m.next_image_id,
{
    let f = flushed(m).out;
    assert(m.out.is_prefix_of(f));
    assert(m.out.is_prefix_of(spaced(f)));
}

proof fn lemma_end_only_adds(m: MdView, tag: MdTagEnd)
    ensures
        m.out.is_prefix_of(after_end(m, tag).out),
        m.headings.is_prefix_of(after_end(m, tag).headings),
        m.images.is_prefix_of(after_end(m, tag).images),
        m.tables.is_prefix_of(after_end(m, tag).tables),
        after_end(m, tag).base == m.base,
        accepts(m, EventView::End(tag)) ==> after_end(m, tag).next_image_id - after_end(
            m,
            tag,
        ).images.len() == m.next_image_id - m.images.len(),
{
    let f = flushed(m).out;
    assert(m.out.is_prefix_of(f));
    assert(m.out.is_prefix_of(spaced(f)));
    assert(m.out.is_prefix_of(spaced(m.out)));
    match tag {
        MdTagEnd::CodeBlock => {
            assert(m.out.is_prefix_of(code_flushed(m).out));
        },
        MdTagEnd::Heading(level) => {
            let line = LineView { spans: m.buf, style: heading_style(level) };
            assert(m.out.is_prefix_of(spaced(m.out.push(line))));
        },
        _ => {},
    }
}

/// Space once made is not made again: a blank line comes only below a line with
/// text, so that none leads the document or follows another one.
pub proof fn space_is_made_once(out: Seq<LineView>)
    ensures
        spaced(spaced(out)) == spaced(out),
        out.len() == 0 || out.last().spans.len() == 0 ==> spaced(out) == out,
        out.len() > 0 && out.last().spans.len() > 0 ==> spaced(out) == out.push(empty_line()),
{
}

/// Whether an element only changes how the text inside it is drawn.
pub open spec fn is_emphasis(start: TagView, end: MdTagEnd) -> bool {
    ||| start == TagView::Emphasis && end == MdTagEnd::Emphasis
    ||| start == TagView::Strong && end == MdTagEnd::Strong
    ||| start == TagView::Strikethrough && end == MdTagEnd::Strikethrough
}

/// The end of an element takes back what its start did: nothing is left of an empty
/// emphasis, and quotes and lists are left as they were entered.
pub proof fn ends_take_back_starts(m: MdView, start: TagView, end: MdTagEnd, first: Option<u64>)
    ensures
        is_emphasis(start, end) ==> after_end(after_start(m, start), end) == m,
        after_end(after_start(m, TagView::BlockQuote), MdTagEnd::BlockQuote).quote == m.quote,
        after_end(after_start(m, TagView::List(first)), MdTagEnd::List).list == m.list,
{
    if is_emphasis(start, end) {
        let opened = after_start(m, start);
        assert(opened.styles.drop_last() =~= m.styles);
    }
    let opened = after_start(m, TagView::List(first));
    assert(opened.list.drop_last() =~= m.list);
}

} // verus!
