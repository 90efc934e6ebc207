//! What values show of themselves: every part of them, as it is.

use crate::app::{App, Entry, Picker};
use crate::browse::{entry_before, Keyed, KeyedView};
use crate::editor::optional_text;
use crate::events::{EventView, MdEvent, MdTag, MdTagEnd, TagView};
use crate::images::Image;
use crate::input::{Action, ActionView};
use crate::kitty::base64_len;
use crate::markdown::{Document, Heading, InlineStyle, InlineView, Md, TableBuf};
use crate::page::{position_pairs, positions};
use crate::placing::image_limits;
use crate::style::{Line, Span};
use crate::table::{nats, Table};
use crate::text::text_before;
use crate::wrap::Wrapping;
use vstd::prelude::*;

verus! {

/// A span shows its text and its style, a line its spans and its style.
pub proof fn lines_show_all_of_themselves(span: Span, line: Line, i: int)
    requires
        0 <= i < line.spans@.len(),
    ensures
        span.deep_view().content == span.content@,
        span.deep_view().style == span.style,
        line.deep_view().spans.len() == line.spans@.len(),
        line.deep_view().spans[i] == line.spans@[i].deep_view(),
        line.deep_view().style == line.style,
{
}

/// A heading, an image and an entry of the picker show all of their parts.
pub proof fn parts_of_documents_show_all_of_themselves(h: Heading, img: Image, e: Entry)
    ensures
        h.deep_view().title == h.title@,
        h.deep_view().level == h.level,
        h.deep_view().content_line == h.content_line,
        h.deep_view().line == h.line,
        img.deep_view().id == img.id,
        img.deep_view().path == img.path@,
        img.deep_view().content_line == img.content_line,
        img.deep_view().dims == img.dims,
        img.deep_view().cw == img.cw,
        img.deep_view().ch == img.ch,
        img.png is Some ==> img.deep_view().png == Some(img.png->0@),
        img.png is None ==> img.deep_view().png is None,
        img.deep_view().png_dims == img.png_dims,
        e.deep_view().name == e.name@,
        e.deep_view().path == e.path@,
        e.deep_view().is_dir == e.is_dir,
{
}

/// A table shows its rows, their cells and the spans of these.
pub proof fn tables_show_all_of_themselves(t: Table, b: TableBuf, r: int, c: int, k: int)
    ensures
        t.deep_view().content_line == t.content_line,
        t.deep_view().header_rows == t.header_rows,
        t.deep_view().align == t.align@,
        t.deep_view().rows.len() == t.rows@.len(),
        0 <= r < t.rows@.len() && 0 <= c < t.rows@[r]@.len() && 0 <= k < t.rows@[r]@[c]@.len()
            ==> t.deep_view().rows[r].len() == t.rows@[r]@.len() && t.deep_view().rows[r][c].len()
            == t.rows@[r]@[c]@.len() && t.deep_view().rows[r][c][k]
            == t.rows@[r]@[c]@[k].deep_view(),
        b.deep_view().header_rows == b.header_rows,
        b.deep_view().align == b.align@,
        b.deep_view().rows == b.rows.deep_view(),
{
}

/// A document shows all of its parts, in order.
pub proof fn documents_show_all_of_themselves(d: Document, i: int)
    ensures
        d.deep_view().content.len() == d.content@.len(),
        d.deep_view().headings.len() == d.headings@.len(),
        d.deep_view().images.len() == d.images@.len(),
        d.deep_view().tables.len() == d.tables@.len(),
        0 <= i < d.content@.len() ==> d.deep_view().content[i] == d.content@[i].deep_view(),
        0 <= i < d.headings@.len() ==> d.deep_view().headings[i] == d.headings@[i].deep_view(),
        0 <= i < d.images@.len() ==> d.deep_view().images[i] == d.images@[i].deep_view(),
        0 <= i < d.tables@.len() ==> d.deep_view().tables[i] == d.tables@[i].deep_view(),
{
}

/// A reader shows all of its state.
pub proof fn readers_show_all_of_themselves(app: App, i: int)
    ensures
        app.deep_view().content == app.content.deep_view(),
        app.deep_view().lines == app.lines.deep_view(),
        app.deep_view().headings == app.headings.deep_view(),
        app.deep_view().images == app.images.deep_view(),
        app.deep_view().tables == app.tables.deep_view(),
        app.deep_view().image_rows.len() == app.image_rows@.len(),
        0 <= i < app.image_rows@.len() ==> app.deep_view().image_rows[i] == (
            app.image_rows@[i].0 as nat,
            app.image_rows@[i].1 as nat,
        ),
        app.deep_view().image_placed == app.image_placed@,
        app.deep_view().wrap_width == app.wrap_width,
        app.deep_view().offset == app.offset,
        app.deep_view().viewport == app.viewport,
        app.deep_view().show_outline == app.show_outline,
        app.deep_view().selected == app.selected,
        app.deep_view().filename == app.filename@,
        app.deep_view().path == app.path@,
        app.deep_view().mode == app.mode,
        app.deep_view().query == app.query@,
        app.deep_view().matches == app.matches@,
        app.deep_view().content_x == app.content_x,
        app.deep_view().content_y == app.content_y,
        app.deep_view().content_w == app.content_w,
        app.status_msg is Some ==> app.deep_view().status_msg == Some(app.status_msg->0@),
        app.status_msg is None ==> app.deep_view().status_msg is None,
        app.deep_view().picker == app.picker.deep_view(),
{
}

/// A picker shows all of its state.
pub proof fn pickers_show_all_of_themselves(p: Picker)
    ensures
        p.deep_view().cwd == p.cwd@,
        p.deep_view().start == p.start@,
        p.deep_view().entries == p.entries.deep_view(),
        p.deep_view().selected == p.selected,
        p.deep_view().from_reader == p.from_reader,
        p.deep_view().show_hidden == p.show_hidden,
{
}

/// A builder shows all of its state.
pub proof fn builders_show_all_of_themselves(m: Md)
    ensures
        m.deep_view().out == m.out.deep_view(),
        m.deep_view().headings == m.headings.deep_view(),
        m.deep_view().images == m.images.deep_view(),
        m.deep_view().tables == m.tables.deep_view(),
        m.deep_view().next_image_id == m.next_image_id,
        m.deep_view().base == m.base@,
        m.deep_view().buf == m.buf.deep_view(),
        m.deep_view().styles == m.styles.deep_view(),
        m.deep_view().quote == m.quote,
        m.deep_view().list == m.list@,
        m.deep_view().item_prefix_used == m.item_prefix_used,
        m.deep_view().item_number == m.item_number,
        m.deep_view().heading == m.heading,
        m.deep_view().in_code == m.in_code,
        m.deep_view().code == m.code@,
        m.code_lang is Some ==> m.deep_view().code_lang == Some(m.code_lang->0@),
        m.code_lang is None ==> m.deep_view().code_lang is None,
        m.table is Some ==> m.deep_view().table == Some(m.table->0.deep_view()),
        m.table is None ==> m.deep_view().table is None,
        m.deep_view().table_row == m.table_row.deep_view(),
        m.cell is Some ==> m.deep_view().cell == Some(m.cell->0.deep_view()),
        m.cell is None ==> m.deep_view().cell is None,
{
}

/// An open inline element shows what it is, and an event what it says.
pub proof fn events_show_all_of_themselves(url: String, alt: String, start: usize, tag: MdTag)
    ensures
        InlineStyle::Emphasis.deep_view() == InlineView::Emphasis,
        InlineStyle::Strong.deep_view() == InlineView::Strong,
        InlineStyle::Strike.deep_view() == InlineView::Strike,
        (InlineStyle::Link { url, start }).deep_view() == (InlineView::Link {
            url: url@,
            start: start as nat,
        }),
        (InlineStyle::Image { url, alt }).deep_view() == (InlineView::Image {
            url: url@,
            alt: alt@,
        }),
        MdEvent::Text(url).deep_view() == EventView::Text(url@),
        MdEvent::Code(url).deep_view() == EventView::Code(url@),
        MdEvent::Start(tag).deep_view() == EventView::Start(tag.deep_view()),
        MdTag::Link(url).deep_view() == TagView::Link(url@),
        MdTag::Image(url).deep_view() == TagView::Image(url@),
        MdTag::CodeBlock(Some(url)).deep_view() == TagView::CodeBlock(Some(url@)),
        MdTag::CodeBlock(None).deep_view() == TagView::CodeBlock(None),
        Action::OpenFile(url).deep_view() == ActionView::OpenFile(url@),
{
}

/// The elements that hold no text show what they are.
pub proof fn elements_show_what_they_are(
    level: u8,
    first: Option<u64>,
    align: Vec<crate::table::Align>,
    end: MdTagEnd,
    done: bool,
)
    ensures
        MdTag::Paragraph.deep_view() == TagView::Paragraph,
        MdTag::Heading(level).deep_view() == TagView::Heading(level),
        MdTag::BlockQuote.deep_view() == TagView::BlockQuote,
        MdTag::List(first).deep_view() == TagView::List(first),
        MdTag::Item.deep_view() == TagView::Item,
        MdTag::Emphasis.deep_view() == TagView::Emphasis,
        MdTag::Strong.deep_view() == TagView::Strong,
        MdTag::Strikethrough.deep_view() == TagView::Strikethrough,
        MdTag::Table(align).deep_view() == TagView::Table(align@),
        MdTag::TableHead.deep_view() == TagView::TableHead,
        MdTag::TableRow.deep_view() == TagView::TableRow,
        MdTag::TableCell.deep_view() == TagView::TableCell,
        MdTag::Other.deep_view() == TagView::Other,
        MdEvent::End(end).deep_view() == EventView::End(end),
        MdEvent::SoftBreak.deep_view() == EventView::SoftBreak,
        MdEvent::HardBreak.deep_view() == EventView::HardBreak,
        MdEvent::Rule.deep_view() == EventView::Rule,
        MdEvent::TaskListMarker(done).deep_view() == EventView::TaskListMarker(done),
        MdEvent::Other.deep_view() == EventView::Other,
        Action::Continue.deep_view() == ActionView::Continue,
        Action::Quit.deep_view() == ActionView::Quit,
        Action::ListFiles.deep_view() == ActionView::ListFiles,
        Action::Edit.deep_view() == ActionView::Edit,
        Action::OpenPicker.deep_view() == ActionView::OpenPicker,
{
}

/// A line being wrapped shows all of its state.
pub proof fn wrappings_show_all_of_themselves(st: Wrapping)
    ensures
        st@.out == st.out.deep_view(),
        st@.cur == st.cur.deep_view(),
        st@.cur_w == st.cur_w,
        st@.pending == st.pending,
{
}

/// Numbers are the same as machine numbers and without a limit, and a text that may be
/// unset is the text where it is set.
pub proof fn numbers_stay_the_same(
    v: Seq<usize>,
    pairs: Seq<(usize, usize)>,
    limits: Seq<(usize, u32)>,
    s: &str,
    i: int,
)
    ensures
        positions(v).len() == v.len() && nats(v).len() == v.len(),
        0 <= i < v.len() ==> positions(v)[i] == v[i] && nats(v)[i] == v[i],
        position_pairs(pairs).len() == pairs.len(),
        0 <= i < pairs.len() ==> position_pairs(pairs)[i] == (pairs[i].0 as nat, pairs[i].1 as nat),
        image_limits(limits).len() == limits.len(),
        0 <= i < limits.len() ==> image_limits(limits)[i] == (limits[i].0 as nat, limits[i].1),
        optional_text(Some(s)) == Some(s@),
        optional_text(None) is None,
{
}

/// An entry with its sorting text shows both, and directories stand before files, each
/// by their sorting texts.
pub proof fn entries_are_ordered_by_their_keys(k: Keyed, a: KeyedView, b: KeyedView)
    ensures
        k.deep_view().entry == k.entry.deep_view(),
        k.deep_view().key == k.key@,
        a.entry.is_dir && !b.entry.is_dir ==> entry_before(a, b) && !entry_before(b, a),
        a.entry.is_dir == b.entry.is_dir ==> (entry_before(a, b) <==> text_before(a.key, b.key)),
{
}

/// The base64 text of some bytes has four characters for every three bytes begun.
pub proof fn base64_texts_are_a_third_longer(n: nat)
    ensures
        base64_len(3 * n) == 4 * n,
        base64_len(3 * n + 1) == 4 * n + 4,
        base64_len(3 * n + 2) == 4 * n + 4,
{
}

} // verus!
