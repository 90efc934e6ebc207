//! Tables of the text: what their cells, rows and columns hold.

use crate::document::{
    continued, inline_text, inline_text_is_kept, is_inline, no_open_image,
};
use crate::events::{EventView, MdTagEnd, TagView};
use crate::laws::blocks::{is_set_apart, lemma_continued_concat};
use crate::laws::inline::is_bare;
use crate::markdown::{after_event, MdView};
use crate::style::{spans_text, SpanView};
use crate::table::Align;
use vstd::prelude::*;

verus! {

/// A cell begins empty, and its end adds it to the row as it is, with all of its spans.
pub proof fn cells_are_added_whole(m: MdView)
    ensures
        after_event(m, EventView::Start(TagView::TableCell)) == (MdView {
            cell: Some(Seq::empty()),
            ..m
        }),
        ({
            let n = after_event(m, EventView::End(MdTagEnd::TableCell));
            match m.cell {
                Some(cell) => {
                    &&& n.table_row.len() == m.table_row.len() + 1
                    &&& n.table_row.drop_last() == m.table_row
                    &&& n.table_row.last() == cell
                    &&& n == (MdView { table_row: n.table_row, cell: None, ..m })
                },
                None => n == m,
            }
        }),
{
    let n = after_event(m, EventView::End(MdTagEnd::TableCell));
    assert(n.table_row.drop_last() =~= m.table_row || m.cell is None);
}

/// A cell keeps all of its text: when it is closed, the row has one more cell, and the
/// text of that is all the text since the cell was opened.
pub proof fn cells_keep_their_text(m: MdView, events: Seq<EventView>)
    requires
        !m.in_code,
        no_open_image(m),
        forall|i: int| 0 <= i < events.len() ==> is_inline(#[trigger] events[i]),
    ensures
        ({
            let opened = after_event(m, EventView::Start(TagView::TableCell));
            let n = after_event(continued(opened, events), EventView::End(MdTagEnd::TableCell));
            &&& n.table_row.len() == m.table_row.len() + 1
            &&& n.table_row.drop_last() == m.table_row
            &&& spans_text(n.table_row.last()) == inline_text(events)
            &&& n == (MdView { table_row: n.table_row, cell: None, styles: n.styles, ..m })
            &&& no_open_image(n)
        }),
{
    let opened = after_event(m, EventView::Start(TagView::TableCell));
    assert(opened.styles == m.styles);
    inline_text_is_kept(opened, events);
    let p = continued(opened, events);
    cells_are_added_whole(p);
    assert(spans_text(Seq::<SpanView>::empty()) =~= Seq::empty());
    assert(spans_text(p.cell->0) =~= inline_text(events));
}

/// A row begins empty. Its end adds all of its cells to the table as one more row, which
/// counts as a header where it is one; an empty row is left out.
pub proof fn rows_are_added_whole(m: MdView, header: bool)
    ensures
        after_event(m, EventView::Start(TagView::TableRow)) == (MdView {
            table_row: Seq::empty(),
            ..m
        }),
        after_event(m, EventView::Start(TagView::TableHead)) == (MdView {
            table_row: Seq::empty(),
            ..m
        }),
        ({
            let end = if header {
                MdTagEnd::TableHead
            } else {
                MdTagEnd::TableRow
            };
            let n = after_event(m, EventView::End(end));
            if m.table_row.len() > 0 && m.table is Some {
                &&& n.table is Some
                &&& n.table->0.rows.len() == m.table->0.rows.len() + 1
                &&& n.table->0.rows.drop_last() == m.table->0.rows
                &&& n.table->0.rows.last() == m.table_row
                &&& n.table->0.header_rows == m.table->0.header_rows + if header {
                    1int
                } else {
                    0int
                }
                &&& n.table->0.align == m.table->0.align
                &&& n == (MdView { table: n.table, table_row: Seq::empty(), ..m })
            } else {
                n == m
            }
        }),
{
    let end = if header {
        MdTagEnd::TableHead
    } else {
        MdTagEnd::TableRow
    };
    let n = after_event(m, EventView::End(end));
    if m.table_row.len() > 0 && m.table is Some {
        assert(n.table->0.rows.drop_last() =~= m.table->0.rows);
    }
}

/// A table begins without rows, below what stands above it. Its end adds it to the
/// document as it is, with an empty line that stands for it; one without rows is left
/// out.
pub proof fn tables_are_added_whole(m: MdView, align: Seq<Align>)
    ensures
        ({
            let e = after_event(m, EventView::HardBreak);
            let n = after_event(m, EventView::Start(TagView::Table(align)));
            &&& is_set_apart(e.out, n.out)
            &&& n == (MdView { out: n.out, table: n.table, ..e })
            &&& n.table is Some
            &&& n.table->0.rows.len() == 0
            &&& n.table->0.header_rows == 0
            &&& n.table->0.align == align
        }),
        ({
            let n = after_event(m, EventView::End(MdTagEnd::Table));
            &&& n.table is None
            &&& n == (MdView { out: n.out, tables: n.tables, table: None, ..m })
            &&& if m.table is Some && m.table->0.rows.len() > 0 {
                let t = n.tables.last();
                &&& n.out.len() == m.out.len() + 1
                &&& n.out.drop_last() == m.out
                &&& n.out.last().spans.len() == 0
                &&& is_bare(n.out.last().style)
                &&& n.tables.len() == m.tables.len() + 1
                &&& n.tables.drop_last() == m.tables
                &&& t.content_line == m.out.len()
                &&& t.rows == m.table->0.rows
                &&& t.header_rows == m.table->0.header_rows
                &&& t.align == m.table->0.align
            } else {
                is_set_apart(m.out, n.out) && n.tables == m.tables
            }
        }),
{
    let e = after_event(m, EventView::HardBreak);
    let s = after_event(m, EventView::Start(TagView::Table(align)));
    if e.out.len() > 0 && e.out.last().spans.len() > 0 {
        assert(s.out.drop_last() =~= e.out);
    }
    let n = after_event(m, EventView::End(MdTagEnd::Table));
    if m.table is Some && m.table->0.rows.len() > 0 {
        assert(n.out.drop_last() =~= m.out);
        assert(n.tables.drop_last() =~= m.tables);
    } else if m.out.len() > 0 && m.out.last().spans.len() > 0 {
        assert(n.out.drop_last() =~= m.out);
    }
}

/// The events of some cells, each with inline events.
pub open spec fn cell_events(cells: Seq<Seq<EventView>>) -> Seq<EventView>
    decreases cells.len(),
{
    if cells.len() == 0 {
        Seq::empty()
    } else {
        (cell_events(cells.drop_last()).push(EventView::Start(TagView::TableCell))
            + cells.last()).push(EventView::End(MdTagEnd::TableCell))
    }
}

proof fn lemma_cells(m: MdView, cells: Seq<Seq<EventView>>)
    requires
        !m.in_code,
        no_open_image(m),
        m.table_row.len() == 0,
        m.cell is None,
        forall|i: int, j: int|
            0 <= i < cells.len() && 0 <= j < cells[i].len() ==> is_inline(#[trigger] cells[i][j]),
    ensures
        ({
            let n = continued(m, cell_events(cells));
            &&& n == (MdView { table_row: n.table_row, styles: n.styles, ..m })
            &&& no_open_image(n)
            &&& n.table_row.len() == cells.len()
            &&& forall|k: int|
                0 <= k < cells.len() ==> spans_text(#[trigger] n.table_row[k]) == inline_text(
                    cells[k],
                )
        }),
    decreases cells.len(),
{
    if cells.len() > 0 {
        let front = cells.drop_last();
        let last = cells[cells.len() - 1];
        assert forall|i: int, j: int|
            0 <= i < front.len() && 0 <= j < front[i].len() implies is_inline(
            #[trigger] front[i][j],
        ) by {
            assert(front[i][j] == cells[i][j]);
        }
        lemma_cells(m, front);
        let p = continued(m, cell_events(front));
        assert forall|j: int| 0 <= j < last.len() implies is_inline(#[trigger] last[j]) by {
            assert(cells[cells.len() - 1][j] == last[j]);
        }
        cells_keep_their_text(p, last);
        let opened = after_event(p, EventView::Start(TagView::TableCell));
        let all = cell_events(cells);
        let start = cell_events(front).push(EventView::Start(TagView::TableCell));
        assert(start.drop_last() =~= cell_events(front));
        assert(continued(m, start) == opened);
        lemma_continued_concat(m, start, last);
        assert(all.drop_last() =~= start + last);
        let n = continued(m, all);
        assert(n == after_event(continued(opened, last), EventView::End(MdTagEnd::TableCell)));
        assert forall|k: int| 0 <= k < cells.len() implies spans_text(#[trigger] n.table_row[k])
            == inline_text(cells[k]) by {
            if k < front.len() {
                assert(n.table_row.drop_last()[k] == n.table_row[k]);
                assert(spans_text(p.table_row[k]) == inline_text(front[k]));
            }
        }
    }
}

/// A row of the text becomes one row of the table, with a cell for each of its cells
/// and all of their texts, in order.
pub proof fn rows_keep_their_cells(m: MdView, cells: Seq<Seq<EventView>>, header: bool)
    requires
        !m.in_code,
        no_open_image(m),
        m.cell is None,
        m.table is Some,
        cells.len() > 0,
        forall|i: int, j: int|
            0 <= i < cells.len() && 0 <= j < cells[i].len() ==> is_inline(#[trigger] cells[i][j]),
    ensures
        ({
            let (start, end) = if header {
                (TagView::TableHead, MdTagEnd::TableHead)
            } else {
                (TagView::TableRow, MdTagEnd::TableRow)
            };
            let opened = after_event(m, EventView::Start(start));
            let n = after_event(continued(opened, cell_events(cells)), EventView::End(end));
            let rows = n.table->0.rows;
            &&& n.table is Some
            &&& rows.len() == m.table->0.rows.len() + 1
            &&& rows.drop_last() == m.table->0.rows
            &&& rows.last().len() == cells.len()
            &&& forall|k: int|
                0 <= k < cells.len() ==> spans_text(#[trigger] rows.last()[k]) == inline_text(
                    cells[k],
                )
            &&& n.table->0.header_rows - m.table->0.header_rows == if header {
                1int
            } else {
                0int
            }
            &&& n.table->0.align == m.table->0.align
            &&& n.out == m.out
        }),
{
    let start = if header {
        TagView::TableHead
    } else {
        TagView::TableRow
    };
    rows_are_added_whole(m, header);
    let opened = after_event(m, EventView::Start(start));
    lemma_cells(opened, cells);
    let p = continued(opened, cell_events(cells));
    rows_are_added_whole(p, header);
}

} // verus!
