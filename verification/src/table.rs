//! Layout of tables: column widths, wrapped cells, borders.

use crate::style::{
    append_spans, bold_style, copy_spans, lemma_spans_text_concat, muted, muted_span, muted_style,
    plain, plain_style, raw, spans_columns, spans_text, styled_line, width_of_spans, Line,
    LineView, Span, SpanView, Style,
};
use crate::text::{chars_of, owned, push_repeated, repeat_char, repeated, split, text_lines};
use crate::width::{
    adds_up, cells, char_cells, is_narrow, is_plain, lemma_cells_concat, lemma_narrow_cells,
    plain_text_adds_up, text_cells, text_columns,
};
use crate::wrap::{
    accepts_pieces, all_pieces, lemma_one_span_ink, lemma_spaces_ink, line_cells, lines_ink,
    no_wider, spans_ink, spans_no_hidden, spans_satisfy, wrap_line, wrapped_line,
    wrapped_lines_keep_the_width, wrapping_keeps_text_and_styles, wrapping_only_cuts,
};
use vstd::prelude::*;

verus! {

/// The alignment of a table column.
#[derive(Clone, Copy, PartialEq, Eq, Debug, Structural)]
pub enum Align {
    Unset,
    Left,
    Center,
    Right,
}

/// A table of the document; it is laid out when the width is known.
pub struct Table {
    /// The content line that stands for the table.
    pub content_line: usize,
    pub rows: Vec<Vec<Vec<Span>>>,
    pub header_rows: usize,
    pub align: Vec<Align>,
}

/// What a table holds.
#[verifier::ext_equal]
pub struct TableView {
    pub content_line: nat,
    pub rows: Seq<Seq<Seq<SpanView>>>,
    pub header_rows: nat,
    pub align: Seq<Align>,
}

impl DeepView for Table {
    type V = TableView;

    open spec fn deep_view(&self) -> TableView {
        TableView {
            content_line: self.content_line as nat,
            rows: self.rows.deep_view(),
            header_rows: self.header_rows as nat,
            align: self.align@,
        }
    }
}

/// Splits the padding of a cell into what stands left and right of the text.
pub open spec fn split_padding(pad: nat, align: Align) -> (nat, nat) {
    match align {
        Align::Center => (pad / 2, (pad - pad / 2) as nat),
        Align::Right => (pad, 0),
        _ => (0, pad),
    }
}

/// A span of spaces, or nothing.
pub open spec fn padding(n: nat) -> Seq<SpanView> {
    if n == 0 {
        Seq::empty()
    } else {
        seq![raw(repeated(' ', n))]
    }
}

/// A line of a cell, filled up with spaces to the width of the column.
pub open spec fn padded(line: LineView, col_w: nat, align: Align) -> LineView {
    let w = spans_columns(line.spans);
    if w >= col_w {
        line
    } else {
        let (left, right) = split_padding((col_w - w) as nat, align);
        LineView { spans: padding(left) + line.spans + padding(right), style: line.style }
    }
}

/// The lines of a cell in a column of the width `col_w`.
pub open spec fn wrapped_cell(cell: Seq<SpanView>, col_w: nat, align: Align) -> Seq<LineView> {
    let lines = wrapped_line(LineView { spans: cell, style: plain_style() }, col_w);
    Seq::new(lines.len(), |i: int| padded(lines[i], col_w, align))
}

/// The length of the longest row.
pub open spec fn longest_row(rows: Seq<Seq<Seq<SpanView>>>) -> nat
    decreases rows.len(),
{
    if rows.len() == 0 {
        0
    } else {
        let before = longest_row(rows.drop_last());
        if rows.last().len() > before {
            rows.last().len()
        } else {
            before
        }
    }
}

/// The number of columns of a table.
pub open spec fn column_count(table: TableView) -> nat {
    let longest = longest_row(table.rows);
    if table.align.len() > longest {
        table.align.len()
    } else {
        longest
    }
}

/// The width of the widest cell in the column `c`.
pub open spec fn natural_width(rows: Seq<Seq<Seq<SpanView>>>, c: int) -> nat
    decreases rows.len(),
{
    if rows.len() == 0 {
        0
    } else {
        let before = natural_width(rows.drop_last(), c);
        let row = rows.last();
        if c < row.len() && spans_columns(row[c]) > before {
            spans_columns(row[c])
        } else {
            before
        }
    }
}

/// The widths of all columns, each as wide as its widest cell.
pub open spec fn natural_widths(table: TableView) -> Seq<nat> {
    Seq::new(column_count(table), |c: int| natural_width(table.rows, c))
}

/// The sum of some widths.
pub open spec fn total(widths: Seq<nat>) -> nat
    decreases widths.len(),
{
    if widths.len() == 0 {
        0
    } else {
        total(widths.drop_last()) + widths.last()
    }
}

/// The columns that the widest character of a text takes.
pub open spec fn widest_char(text: Seq<char>) -> nat
    decreases text.len(),
{
    if text.len() == 0 {
        0
    } else {
        let before = widest_char(text.drop_last());
        if cells(text.last()) > before {
            cells(text.last())
        } else {
            before
        }
    }
}

/// The columns that the widest character of some spans takes.
pub open spec fn spans_widest_char(spans: Seq<SpanView>) -> nat
    decreases spans.len(),
{
    if spans.len() == 0 {
        0
    } else {
        let before = spans_widest_char(spans.drop_last());
        let last = widest_char(spans.last().content);
        if last > before {
            last
        } else {
            before
        }
    }
}

/// The columns that the widest character in the column `c` takes, at least one:
/// the column cannot be narrower.
pub open spec fn floor_width(rows: Seq<Seq<Seq<SpanView>>>, c: int) -> nat
    decreases rows.len(),
{
    if rows.len() == 0 {
        1
    } else {
        let before = floor_width(rows.drop_last(), c);
        let row = rows.last();
        if c < row.len() && spans_widest_char(row[c]) > before {
            spans_widest_char(row[c])
        } else {
            before
        }
    }
}

/// The widths that the columns cannot be shrunk below.
pub open spec fn floor_widths(table: TableView) -> Seq<nat> {
    Seq::new(column_count(table), |c: int| floor_width(table.rows, c))
}

/// The position of the widest one of the first `n` columns that are wider than
/// their floors, the last one of several.
pub open spec fn widest(widths: Seq<nat>, floors: Seq<nat>, n: nat) -> Option<int>
    decreases n,
{
    if n == 0 {
        None
    } else {
        let before = widest(widths, floors, (n - 1) as nat);
        if widths[n - 1] <= floors[n - 1] {
            before
        } else {
            match before {
                Some(idx) => if widths[n - 1] >= widths[idx] {
                    Some(n - 1)
                } else {
                    before
                },
                None => Some(n - 1),
            }
        }
    }
}

/// Takes one column away from the widest column until the sum is within the
/// budget, or no column is wider than its floor.
pub open spec fn shrunk(widths: Seq<nat>, floors: Seq<nat>, budget: nat) -> Seq<nat>
    decreases total(widths),
{
    match widest(widths, floors, widths.len()) {
        Some(idx) => if total(widths) > budget {
            proof {
                lemma_widest(widths, floors, widths.len());
                lemma_total_update(widths, idx, (widths[idx] - 1) as nat);
            }
            shrunk(widths.update(idx, (widths[idx] - 1) as nat), floors, budget)
        } else {
            widths
        },
        None => widths,
    }
}

/// What the borders and the space around the cells take.
pub open spec fn border_columns(cols: nat) -> nat {
    3 * cols + 1
}

/// The widths of the columns in a table that is laid out for `width` columns.
pub open spec fn column_widths(table: TableView, width: nat) -> Seq<nat> {
    let natural = natural_widths(table);
    let borders = border_columns(column_count(table));
    if width > borders {
        shrunk(natural, floor_widths(table), (width - borders) as nat)
    } else {
        natural
    }
}

/// The first `n` columns of a border.
pub open spec fn border_part(widths: Seq<nat>, n: nat, middle: char, right: char) -> Seq<char>
    decreases n,
{
    if n == 0 {
        Seq::empty()
    } else {
        border_part(widths, (n - 1) as nat, middle, right) + repeated('─', widths[n - 1] + 2).push(
            if n == widths.len() {
                right
            } else {
                middle
            },
        )
    }
}

/// A horizontal border.
pub open spec fn border_line(widths: Seq<nat>, left: char, middle: char, right: char) -> LineView {
    styled_line(
        seq![left] + border_part(widths, widths.len(), middle, right),
        muted_style(),
    )
}

/// The content of the cell `c` of a row; nothing where the row is too short.
pub open spec fn cell_at(row: Seq<Seq<SpanView>>, c: int) -> Seq<SpanView> {
    if c < row.len() {
        row[c]
    } else {
        Seq::empty()
    }
}

/// The alignment of the column `c`.
pub open spec fn align_at(align: Seq<Align>, c: int) -> Align {
    if c < align.len() {
        align[c]
    } else {
        Align::Unset
    }
}

/// The wrapped cells of a row, one for each column.
pub open spec fn row_cells(
    row: Seq<Seq<SpanView>>,
    widths: Seq<nat>,
    align: Seq<Align>,
) -> Seq<Seq<LineView>> {
    Seq::new(
        widths.len(),
        |c: int| wrapped_cell(cell_at(row, c), widths[c], align_at(align, c)),
    )
}

/// The number of lines that some cells need: the longest, and at least one.
pub open spec fn height(cells: Seq<Seq<LineView>>) -> nat
    decreases cells.len(),
{
    if cells.len() == 0 {
        1
    } else {
        let before = height(cells.drop_last());
        if cells.last().len() > before {
            cells.last().len()
        } else {
            before
        }
    }
}

/// What a cell shows on the line `v` of its row; spaces below its last line.
pub open spec fn cell_spans(lines: Seq<LineView>, col_w: nat, v: int) -> Seq<SpanView> {
    if v < lines.len() {
        lines[v].spans
    } else {
        seq![raw(repeated(' ', col_w))]
    }
}

/// The first `n` cells of the line `v` of a row, with the separator behind each.
pub open spec fn row_part(
    cells: Seq<Seq<LineView>>,
    widths: Seq<nat>,
    v: int,
    n: nat,
) -> Seq<SpanView>
    decreases n,
{
    if n == 0 {
        seq![muted_span("│ "@)]
    } else {
        (row_part(cells, widths, v, (n - 1) as nat) + cell_spans(
            cells[n - 1],
            widths[n - 1],
            v,
        )).push(muted_span(" │ "@))
    }
}

/// The line `v` of a row. The last separator is the right border.
pub open spec fn row_line(
    cells: Seq<Seq<LineView>>,
    widths: Seq<nat>,
    v: int,
    header: bool,
) -> LineView {
    LineView {
        spans: row_part(cells, widths, v, widths.len()).drop_last().push(muted_span(" │"@)),
        style: if header {
            bold_style()
        } else {
            plain_style()
        },
    }
}

/// All lines of a row.
pub open spec fn row_lines(
    cells: Seq<Seq<LineView>>,
    widths: Seq<nat>,
    header: bool,
) -> Seq<LineView> {
    Seq::new(height(cells), |v: int| row_line(cells, widths, v, header))
}

/// Whether some row needs more than one line.
pub open spec fn any_tall(table: TableView, widths: Seq<nat>) -> bool {
    exists|r: int|
        0 <= r < table.rows.len() && height(
            row_cells(#[trigger] table.rows[r], widths, table.align),
        ) > 1
}

/// Whether a separator follows the row `r`: below the header, and between all
/// rows as soon as one of them is tall.
pub open spec fn separated(table: TableView, widths: Seq<nat>, r: int) -> bool {
    r + 1 < table.rows.len() && (any_tall(table, widths) || r + 1 == table.header_rows)
}

/// The lines of the first `n` rows.
pub open spec fn table_part(table: TableView, widths: Seq<nat>, n: nat) -> Seq<LineView>
    decreases n,
{
    if n == 0 {
        Seq::empty()
    } else {
        let r = n - 1;
        let lines = table_part(table, widths, r as nat) + row_lines(
            row_cells(table.rows[r], widths, table.align),
            widths,
            r < table.header_rows,
        );
        if separated(table, widths, r) {
            lines.push(border_line(widths, '├', '┼', '┤'))
        } else {
            lines
        }
    }
}

/// The lines of a table that is laid out for `width` columns.
pub open spec fn table_lines(table: TableView, width: nat) -> Seq<LineView> {
    let widths = column_widths(table, width);
    (seq![border_line(widths, '┌', '┬', '┐')] + table_part(
        table,
        widths,
        table.rows.len(),
    )).push(border_line(widths, '└', '┴', '┘'))
}

/// The widest column that is wider than its floor is one of the columns, and is
/// wider than its floor. Where there is none, no column is.
pub proof fn lemma_widest(widths: Seq<nat>, floors: Seq<nat>, n: nat)
    requires
        n <= widths.len(),
    ensures
        match widest(widths, floors, n) {
            Some(idx) => 0 <= idx < n && widths[idx] > floors[idx],
            None => forall|i: int| 0 <= i < n ==> #[trigger] widths[i] <= floors[i],
        },
    decreases n,
{
    if n > 0 {
        lemma_widest(widths, floors, (n - 1) as nat);
    }
}

/// Changing one width changes the sum by as much.
pub proof fn lemma_total_update(widths: Seq<nat>, i: int, w: nat)
    requires
        0 <= i < widths.len(),
    ensures
        total(widths.update(i, w)) == total(widths) - widths[i] + w,
    decreases widths.len(),
{
    if i == widths.len() - 1 {
        assert(widths.update(i, w).drop_last() =~= widths.drop_last());
    } else {
        assert(widths.update(i, w).drop_last() =~= widths.drop_last().update(i, w));
        lemma_total_update(widths.drop_last(), i, w);
    }
}

/// The padding left and right of the text of a cell.
fn padding_of(pad: usize, align: Align) -> (r: (usize, usize))
    ensures
        r.0 as nat == split_padding(pad as nat, align).0,
        r.1 as nat == split_padding(pad as nat, align).1,
{
    match align {
        Align::Center => (pad / 2, pad - pad / 2),
        Align::Right => (pad, 0),
        _ => (0, pad),
    }
}

/// Fills a line of a cell up to the width of the column.
fn pad_line(line: &Line, col_w: usize, align: Align) -> (r: Line)
    ensures
        r.deep_view() == padded(line.deep_view(), col_w as nat, align),
{
    let w = width_of_spans(&line.spans);
    if w >= col_w {
        return line.clone();
    }
    let (left, right) = padding_of(col_w - w, align);
    let mut spans: Vec<Span> = Vec::new();
    if left > 0 {
        spans.push(Span::raw(repeat_char(' ', left)));
    }
    assert(spans.deep_view() =~= padding(left as nat));
    append_spans(&mut spans, &line.spans);
    let ghost before = spans.deep_view();
    if right > 0 {
        spans.push(Span::raw(repeat_char(' ', right)));
    }
    assert(spans.deep_view() =~= before + padding(right as nat));
    Line { spans, style: line.style }
}

/// Wraps a cell to the width of its column, and fills each line up to that
/// width, so that the vertical borders stay aligned.
pub fn wrap_cell(cell: &Vec<Span>, col_w: usize, align: Align) -> (r: Vec<Line>)
    ensures
        r.deep_view() == wrapped_cell(cell.deep_view(), col_w as nat, align),
{
    let line = Line { spans: copy_spans(cell), style: plain() };
    let lines = wrap_line(&line, col_w);
    let ghost wanted = wrapped_cell(cell.deep_view(), col_w as nat, align);
    let mut out: Vec<Line> = Vec::new();
    let mut i: usize = 0;
    while i < lines.len()
        invariant
            i <= lines@.len(),
            wanted.len() == lines.deep_view().len(),
            forall|j: int|
                0 <= j < wanted.len() ==> #[trigger] wanted[j] == padded(
                    lines.deep_view()[j],
                    col_w as nat,
                    align,
                ),
            out.deep_view() == wanted.take(i as int),
        decreases lines@.len() - i,
    {
        let ghost before = out.deep_view();
        out.push(pad_line(&lines[i], col_w, align));
        assert(lines.deep_view()[i as int] == lines[i as int].deep_view());
        assert(out.deep_view() =~= before.push(wanted[i as int]));
        i += 1;
        assert(wanted.take(i as int) =~= wanted.take(i - 1).push(wanted[i - 1]));
    }
    assert(wanted.take(wanted.len() as int) =~= wanted);
    out
}

/// Machine numbers as mathematical ones.
pub open spec fn nats(v: Seq<usize>) -> Seq<nat> {
    Seq::new(v.len(), |i: int| v[i] as nat)
}

/// The number of columns of a table.
fn count_columns(table: &Table) -> (r: usize)
    ensures
        r == column_count(table.deep_view()),
{
    let ghost rows = table.rows.deep_view();
    let mut longest: usize = 0;
    let mut i: usize = 0;
    assert(rows.take(0) =~= Seq::empty());
    while i < table.rows.len()
        invariant
            i <= table.rows@.len(),
            rows == table.rows.deep_view(),
            longest == longest_row(rows.take(i as int)),
        decreases table.rows@.len() - i,
    {
        assert(rows.take(i + 1).drop_last() =~= rows.take(i as int));
        assert(rows.take(i + 1).last() == table.rows[i as int].deep_view());
        let n = table.rows[i].len();
        if n > longest {
            longest = n;
        }
        i += 1;
    }
    assert(rows.take(rows.len() as int) =~= rows);
    if table.align.len() > longest {
        table.align.len()
    } else {
        longest
    }
}

/// The width of the widest cell in the column `c`.
fn widest_cell(rows: &Vec<Vec<Vec<Span>>>, c: usize) -> (r: usize)
    ensures
        r == natural_width(rows.deep_view(), c as int),
{
    let ghost all = rows.deep_view();
    let mut max: usize = 0;
    let mut i: usize = 0;
    assert(all.take(0) =~= Seq::empty());
    while i < rows.len()
        invariant
            i <= rows@.len(),
            all == rows.deep_view(),
            max == natural_width(all.take(i as int), c as int),
        decreases rows@.len() - i,
    {
        assert(all.take(i + 1).drop_last() =~= all.take(i as int));
        assert(all.take(i + 1).last() == rows[i as int].deep_view());
        if c < rows[i].len() {
            let w = width_of_spans(&rows[i][c]);
            assert(rows[i as int].deep_view()[c as int] == rows[i as int][c as int].deep_view());
            if w > max {
                max = w;
            }
        }
        i += 1;
    }
    assert(all.take(all.len() as int) =~= all);
    max
}

/// The sum of some widths.
fn sum_widths(widths: &Vec<usize>) -> (r: u128)
    ensures
        r == total(nats(widths@)),
{
    let ghost all = nats(widths@);
    let mut sum: u128 = 0;
    let mut i: usize = 0;
    assert(all.take(0) =~= Seq::empty());
    while i < widths.len()
        invariant
            i <= widths@.len(),
            all == nats(widths@),
            sum == total(all.take(i as int)),
            sum <= i * 0xffff_ffff_ffff_ffff,
        decreases widths@.len() - i,
    {
        assert(all.take(i + 1).drop_last() =~= all.take(i as int));
        sum = sum + widths[i] as u128;
        i += 1;
    }
    assert(all.take(all.len() as int) =~= all);
    sum
}

/// The columns that the widest character of some spans takes.
fn widest_char_of(spans: &Vec<Span>) -> (r: usize)
    ensures
        r == spans_widest_char(spans.deep_view()),
{
    let ghost all = spans.deep_view();
    let mut max: usize = 0;
    let mut i: usize = 0;
    assert(all.take(0) =~= Seq::empty());
    while i < spans.len()
        invariant
            i <= spans@.len(),
            all == spans.deep_view(),
            max == spans_widest_char(all.take(i as int)),
        decreases spans@.len() - i,
    {
        assert(all.take(i + 1).drop_last() =~= all.take(i as int));
        assert(all.take(i + 1).last() == spans@[i as int].deep_view());
        let text = chars_of(spans[i].content.as_str());
        let mut widest: usize = 0;
        let mut k: usize = 0;
        assert(text@.take(0) =~= Seq::empty());
        while k < text.len()
            invariant
                k <= text@.len(),
                widest == widest_char(text@.take(k as int)),
            decreases text@.len() - k,
        {
            assert(text@.take(k + 1).drop_last() =~= text@.take(k as int));
            let w = char_cells(text[k]);
            if w > widest {
                widest = w;
            }
            k += 1;
        }
        assert(text@.take(text@.len() as int) =~= text@);
        if widest > max {
            max = widest;
        }
        i += 1;
    }
    assert(all.take(all.len() as int) =~= all);
    max
}

/// The width that the column `c` cannot be shrunk below.
fn floor_of(rows: &Vec<Vec<Vec<Span>>>, c: usize) -> (r: usize)
    ensures
        r == floor_width(rows.deep_view(), c as int),
{
    let ghost all = rows.deep_view();
    let mut max: usize = 1;
    let mut i: usize = 0;
    assert(all.take(0) =~= Seq::empty());
    while i < rows.len()
        invariant
            i <= rows@.len(),
            all == rows.deep_view(),
            max == floor_width(all.take(i as int), c as int),
        decreases rows@.len() - i,
    {
        assert(all.take(i + 1).drop_last() =~= all.take(i as int));
        assert(all.take(i + 1).last() == rows@[i as int].deep_view());
        assert(rows@[i as int].deep_view().len() == rows@[i as int]@.len());
        if c < rows[i].len() {
            assert(rows@[i as int].deep_view()[c as int] == rows@[i as int]@[c as int].deep_view());
            let w = widest_char_of(&rows[i][c]);
            if w > max {
                max = w;
            }
        }
        i += 1;
    }
    assert(all.take(all.len() as int) =~= all);
    max
}

/// The position of the widest column that is wider than its floor.
fn find_widest(widths: &Vec<usize>, floors: &Vec<usize>) -> (r: Option<usize>)
    requires
        widths@.len() == floors@.len(),
    ensures
        match r {
            Some(idx) => widest(nats(widths@), nats(floors@), widths@.len()) == Some(idx as int)
                && idx < widths@.len() && widths@[idx as int] > floors@[idx as int],
            None => widest(nats(widths@), nats(floors@), widths@.len()) is None,
        },
{
    let ghost all = nats(widths@);
    let ghost low = nats(floors@);
    let mut best: Option<usize> = None;
    let mut i: usize = 0;
    while i < widths.len()
        invariant
            i <= widths@.len() == floors@.len(),
            all == nats(widths@),
            low == nats(floors@),
            match best {
                Some(idx) => widest(all, low, i as nat) == Some(idx as int) && idx < i
                    && widths@[idx as int] > floors@[idx as int],
                None => widest(all, low, i as nat) is None,
            },
        decreases widths@.len() - i,
    {
        if widths[i] > floors[i] {
            match best {
                Some(idx) => {
                    if widths[i] >= widths[idx] {
                        best = Some(i);
                    }
                },
                None => {
                    best = Some(i);
                },
            }
        }
        i += 1;
    }
    best
}

/// Takes columns away from the widest column until the sum is within the
/// budget, or no column is wider than its floor.
fn shrink_widths(widths: &mut Vec<usize>, floors: &Vec<usize>, budget: usize)
    requires
        old(widths)@.len() == floors@.len(),
    ensures
        nats(final(widths)@) == shrunk(nats(old(widths)@), nats(floors@), budget as nat),
{
    let ghost low = nats(floors@);
    let ghost wanted = shrunk(nats(widths@), low, budget as nat);
    let mut sum = sum_widths(widths);
    loop
        invariant
            widths@.len() == floors@.len(),
            low == nats(floors@),
            sum == total(nats(widths@)),
            shrunk(nats(widths@), low, budget as nat) == wanted,
        ensures
            nats(widths@) == wanted,
        decreases sum,
    {
        if sum <= budget as u128 {
            break;
        }
        match find_widest(widths, floors) {
            Some(idx) => {
                let ghost before = nats(widths@);
                let w = widths[idx];
                widths.set(idx, w - 1);
                proof {
                    lemma_total_update(before, idx as int, (w - 1) as nat);
                    assert(nats(widths@) =~= before.update(idx as int, (w - 1) as nat));
                }
                sum = sum - 1;
            },
            None => {
                break;
            },
        }
    }
}

/// The widths of the columns in a table that is laid out for `width` columns.
fn fit_columns(table: &Table, width: usize) -> (r: Vec<usize>)
    ensures
        nats(r@) == column_widths(table.deep_view(), width as nat),
{
    let cols = count_columns(table);
    let ghost wanted = natural_widths(table.deep_view());
    let ghost low = floor_widths(table.deep_view());
    let mut widths: Vec<usize> = Vec::new();
    let mut floors: Vec<usize> = Vec::new();
    let mut c: usize = 0;
    while c < cols
        invariant
            c <= cols,
            wanted == natural_widths(table.deep_view()),
            low == floor_widths(table.deep_view()),
            cols == wanted.len() == low.len(),
            nats(widths@) == wanted.take(c as int),
            nats(floors@) == low.take(c as int),
        decreases cols - c,
    {
        let ghost before = nats(widths@);
        let ghost low_before = nats(floors@);
        let w = widest_cell(&table.rows, c);
        let f = floor_of(&table.rows, c);
        widths.push(w);
        floors.push(f);
        assert(nats(widths@) =~= before.push(w as nat));
        assert(nats(floors@) =~= low_before.push(f as nat));
        c += 1;
        assert(wanted.take(c as int) =~= wanted.take(c - 1).push(wanted[c - 1]));
        assert(low.take(c as int) =~= low.take(c - 1).push(low[c - 1]));
    }
    assert(wanted.take(wanted.len() as int) =~= wanted);
    assert(low.take(low.len() as int) =~= low);
    assert(nats(widths@).len() == widths@.len());
    assert(nats(floors@).len() == floors@.len());
    // The borders take `3 * cols + 1` columns.
    if width > 0 && cols <= (width - 1) / 3 {
        let borders = 3 * cols + 1;
        if width > borders {
            shrink_widths(&mut widths, &floors, width - borders);
        }
    }
    widths
}

/// A horizontal border.
fn draw_border(widths: &Vec<usize>, left: char, middle: char, right: char) -> (r: Line)
    ensures
        r.deep_view() == border_line(nats(widths@), left, middle, right),
{
    let ghost all = nats(widths@);
    let mut s = String::new();
    s.push(left);
    let mut i: usize = 0;
    assert(s@ =~= seq![left] + border_part(all, 0, middle, right));
    while i < widths.len()
        invariant
            i <= widths@.len(),
            all == nats(widths@),
            s@ == seq![left] + border_part(all, i as nat, middle, right),
        decreases widths@.len() - i,
    {
        let ghost before = s@;
        push_repeated(&mut s, '─', widths[i]);
        s.push('─');
        s.push('─');
        assert(s@ =~= before + repeated('─', all[i as int] + 2));
        if i + 1 == widths.len() {
            s.push(right);
        } else {
            s.push(middle);
        }
        i += 1;
        assert(s@ =~= seq![left] + border_part(all, i as nat, middle, right));
    }
    Line::styled(s.as_str(), muted())
}

/// The wrapped cells of a row.
fn wrap_row(row: &Vec<Vec<Span>>, widths: &Vec<usize>, align: &Vec<Align>) -> (r: Vec<Vec<Line>>)
    ensures
        r.deep_view() == row_cells(row.deep_view(), nats(widths@), align@),
{
    let ghost wanted = row_cells(row.deep_view(), nats(widths@), align@);
    let empty: Vec<Span> = Vec::new();
    assert(empty.deep_view() =~= Seq::empty());
    let mut out: Vec<Vec<Line>> = Vec::new();
    let mut c: usize = 0;
    while c < widths.len()
        invariant
            c <= widths@.len(),
            wanted == row_cells(row.deep_view(), nats(widths@), align@),
            empty.deep_view() == Seq::<SpanView>::empty(),
            out.deep_view() == wanted.take(c as int),
        decreases widths@.len() - c,
    {
        let ghost before = out.deep_view();
        let a = if c < align.len() {
            align[c]
        } else {
            Align::Unset
        };
        let lines = if c < row.len() {
            assert(row.deep_view()[c as int] == row[c as int].deep_view());
            wrap_cell(&row[c], widths[c], a)
        } else {
            wrap_cell(&empty, widths[c], a)
        };
        assert(lines.deep_view() == wanted[c as int]);
        out.push(lines);
        assert(out.deep_view() =~= before.push(wanted[c as int]));
        c += 1;
        assert(wanted.take(c as int) =~= wanted.take(c - 1).push(wanted[c - 1]));
    }
    assert(wanted.take(wanted.len() as int) =~= wanted);
    out
}

/// The number of lines that the cells of a row need.
fn row_height(cells: &Vec<Vec<Line>>) -> (r: usize)
    ensures
        r == height(cells.deep_view()),
{
    let ghost all = cells.deep_view();
    let mut max: usize = 1;
    let mut i: usize = 0;
    assert(all.take(0) =~= Seq::empty());
    while i < cells.len()
        invariant
            i <= cells@.len(),
            all == cells.deep_view(),
            max == height(all.take(i as int)),
        decreases cells@.len() - i,
    {
        assert(all.take(i + 1).drop_last() =~= all.take(i as int));
        assert(all.take(i + 1).last() == cells[i as int].deep_view());
        let n = cells[i].len();
        if n > max {
            max = n;
        }
        i += 1;
    }
    assert(all.take(all.len() as int) =~= all);
    max
}

/// The line `v` of a row.
fn draw_row_line(cells: &Vec<Vec<Line>>, widths: &Vec<usize>, v: usize, header: bool) -> (r: Line)
    requires
        cells@.len() == widths@.len(),
    ensures
        r.deep_view() == row_line(cells.deep_view(), nats(widths@), v as int, header),
{
    let ghost all = cells.deep_view();
    let ghost w = nats(widths@);
    let mut spans: Vec<Span> = Vec::new();
    spans.push(Span::styled(owned("│ "), muted()));
    assert(spans.deep_view() =~= row_part(all, w, v as int, 0));
    let mut c: usize = 0;
    while c < cells.len()
        invariant
            c <= cells@.len(),
            cells@.len() == widths@.len(),
            all == cells.deep_view(),
            w == nats(widths@),
            spans.deep_view() == row_part(all, w, v as int, c as nat),
        decreases cells@.len() - c,
    {
        let ghost before = spans.deep_view();
        assert(all[c as int] == cells[c as int].deep_view());
        if v < cells[c].len() {
            append_spans(&mut spans, &cells[c][v].spans);
            assert(all[c as int][v as int] == cells[c as int][v as int].deep_view());
        } else {
            spans.push(Span::raw(repeat_char(' ', widths[c])));
        }
        assert(spans.deep_view() =~= before + cell_spans(all[c as int], w[c as int], v as int));
        let ghost cell_end = spans.deep_view();
        spans.push(Span::styled(owned(" │ "), muted()));
        assert(spans.deep_view() =~= cell_end.push(muted_span(" │ "@)));
        c += 1;
    }
    let ghost part = spans.deep_view();
    let _ = spans.pop();
    assert(spans.deep_view() =~= part.drop_last());
    spans.push(Span::styled(owned(" │"), muted()));
    assert(spans.deep_view() =~= part.drop_last().push(muted_span(" │"@)));
    let style = if header {
        Style { bold: true, ..plain() }
    } else {
        plain()
    };
    Line { spans, style }
}

/// Lays a table out for `width` columns: the widest columns are made narrower
/// until the table fits, and cells that are too wide for their column are
/// wrapped, so that the borders stay whole.
pub fn render_table(table: &Table, width: usize) -> (r: Vec<Line>)
    ensures
        r.deep_view() == table_lines(table.deep_view(), width as nat),
{
    let widths = fit_columns(table, width);
    let ghost t = table.deep_view();
    let ghost w = nats(widths@);
    let count = table.rows.len();
    let mut wrapped: Vec<Vec<Vec<Line>>> = Vec::new();
    let mut full_grid = false;
    let mut i: usize = 0;
    while i < count
        invariant
            i <= count,
            count == table.rows@.len(),
            t == table.deep_view(),
            w == nats(widths@),
            wrapped@.len() == i,
            forall|r: int|
                0 <= r < i ==> (#[trigger] wrapped@[r]).deep_view() == row_cells(
                    t.rows[r],
                    w,
                    t.align,
                ) && wrapped@[r]@.len() == widths@.len(),
            full_grid <==> exists|r: int|
                0 <= r < i && height(row_cells(#[trigger] t.rows[r], w, t.align)) > 1,
        decreases count - i,
    {
        assert(t.rows[i as int] == table.rows[i as int].deep_view());
        let cells = wrap_row(&table.rows[i], &widths, &table.align);
        assert(cells@.len() == cells.deep_view().len());
        if row_height(&cells) > 1 {
            full_grid = true;
        }
        wrapped.push(cells);
        i += 1;
    }
    assert(full_grid == any_tall(t, w));

    let mut lines: Vec<Line> = Vec::new();
    lines.push(draw_border(&widths, '┌', '┬', '┐'));
    let ghost top = seq![border_line(w, '┌', '┬', '┐')];
    assert(lines.deep_view() =~= top + table_part(t, w, 0));
    let mut r: usize = 0;
    while r < count
        invariant
            r <= count,
            count == table.rows@.len(),
            t == table.deep_view(),
            w == nats(widths@),
            wrapped@.len() == count,
            forall|k: int|
                0 <= k < count ==> (#[trigger] wrapped@[k]).deep_view() == row_cells(
                    t.rows[k],
                    w,
                    t.align,
                ) && wrapped@[k]@.len() == widths@.len(),
            full_grid == any_tall(t, w),
            lines.deep_view() == top + table_part(t, w, r as nat),
        decreases count - r,
    {
        let ghost before = lines.deep_view();
        let header = r < table.header_rows;
        let h = row_height(&wrapped[r]);
        let ghost all = row_lines(wrapped[r as int].deep_view(), w, header);
        let mut v: usize = 0;
        assert(before + all.take(0) =~= before);
        while v < h
            invariant
                v <= h,
                r < count,
                wrapped@.len() == count,
                wrapped@[r as int]@.len() == widths@.len(),
                w == nats(widths@),
                h == height(wrapped@[r as int].deep_view()),
                all == row_lines(wrapped@[r as int].deep_view(), w, header),
                lines.deep_view() == before + all.take(v as int),
            decreases h - v,
        {
            let ghost so_far = lines.deep_view();
            lines.push(draw_row_line(&wrapped[r], &widths, v, header));
            assert(lines.deep_view() =~= so_far.push(all[v as int]));
            v += 1;
            assert(before + all.take(v as int) =~= (before + all.take(v - 1)).push(all[v - 1]));
        }
        assert(all.take(all.len() as int) =~= all);
        let ghost with_row = lines.deep_view();
        if r + 1 < count && (full_grid || r + 1 == table.header_rows) {
            lines.push(draw_border(&widths, '├', '┼', '┤'));
            assert(lines.deep_view() =~= with_row.push(border_line(w, '├', '┼', '┤')));
        }
        assert(wrapped@[r as int].deep_view() == row_cells(t.rows[r as int], w, t.align));
        assert(lines.deep_view() =~= top + table_part(t, w, (r + 1) as nat));
        r += 1;
    }
    let ghost body = lines.deep_view();
    lines.push(draw_border(&widths, '└', '┴', '┘'));
    assert(lines.deep_view() =~= body.push(border_line(w, '└', '┴', '┘')));
    lines
}

/// Shrinking keeps every column at most as wide as it was, and at least as wide
/// as the narrower of its old width and its floor. Afterwards the columns are
/// within the budget, unless none of them is wider than its floor.
pub proof fn shrinking_keeps_to_the_budget(widths: Seq<nat>, floors: Seq<nat>, budget: nat)
    ensures
        shrunk(widths, floors, budget).len() == widths.len(),
        forall|i: int|
            0 <= i < widths.len() ==> #[trigger] shrunk(widths, floors, budget)[i] <= widths[i]
                && (shrunk(widths, floors, budget)[i] >= floors[i] || shrunk(
                widths,
                floors,
                budget,
            )[i] == widths[i]),
        total(shrunk(widths, floors, budget)) <= budget || forall|i: int|
            0 <= i < widths.len() ==> #[trigger] shrunk(widths, floors, budget)[i] <= floors[i],
    decreases total(widths),
{
    lemma_widest(widths, floors, widths.len());
    if let Some(idx) = widest(widths, floors, widths.len()) {
        if total(widths) > budget {
            let less = widths.update(idx, (widths[idx] - 1) as nat);
            lemma_total_update(widths, idx, (widths[idx] - 1) as nat);
            shrinking_keeps_to_the_budget(less, floors, budget);
            let s = shrunk(widths, floors, budget);
            assert(s == shrunk(less, floors, budget));
            assert forall|i: int| 0 <= i < widths.len() implies #[trigger] s[i] <= widths[i] && (
            s[i] >= floors[i] || s[i] == widths[i]) by {
                assert(s[i] <= less[i]);
            }
        }
    }
}

/// Wider columns take more together.
pub proof fn lemma_total_ordered(a: Seq<nat>, b: Seq<nat>)
    requires
        a.len() == b.len(),
        forall|i: int| 0 <= i < a.len() ==> #[trigger] a[i] <= b[i],
    ensures
        total(a) <= total(b),
    decreases a.len(),
{
    if a.len() > 0 {
        assert forall|i: int| 0 <= i < a.drop_last().len() implies #[trigger] a.drop_last()[i]
            <= b.drop_last()[i] by {
            assert(a[i] <= b[i]);
        }
        lemma_total_ordered(a.drop_last(), b.drop_last());
        assert(a[a.len() - 1] <= b[b.len() - 1]);
    }
}

/// The narrowest columns that others can be shrunk to: those that are wider than
/// their floors become as wide as these.
pub open spec fn narrowest(widths: Seq<nat>, floors: Seq<nat>) -> Seq<nat> {
    Seq::new(
        widths.len(),
        |i: int|
            if widths[i] > floors[i] {
                floors[i]
            } else {
                widths[i]
            },
    )
}

/// Some floors, each raised to two where it is below.
pub open spec fn at_least_two(floors: Seq<nat>) -> Seq<nat> {
    floors.map_values(
        |n: nat|
            if n < 2 {
                2
            } else {
                n
            },
    )
}

/// The widest column that can be shrunk is at least as wide as any other one.
pub proof fn lemma_widest_of_all(widths: Seq<nat>, floors: Seq<nat>, n: nat)
    requires
        n <= widths.len(),
    ensures
        forall|i: int|
            0 <= i < n && widths[i] > #[trigger] floors[i] ==> widest(widths, floors, n) is Some
                && widths[i] <= widths[widest(widths, floors, n)->0],
    decreases n,
{
    if n > 0 {
        lemma_widest_of_all(widths, floors, (n - 1) as nat);
        lemma_widest(widths, floors, (n - 1) as nat);
    }
}

/// A column is shrunk to less than two only where the columns do not fit with two
/// each.
pub proof fn columns_keep_two_where_two_fit(widths: Seq<nat>, floors: Seq<nat>, budget: nat)
    requires
        floors.len() == widths.len(),
        total(narrowest(widths, at_least_two(floors))) <= budget,
    ensures
        forall|i: int|
            0 <= i < widths.len() ==> #[trigger] shrunk(widths, floors, budget)[i] >= 2 || shrunk(
                widths,
                floors,
                budget,
            )[i] == widths[i],
    decreases total(widths),
{
    let raised = at_least_two(floors);
    lemma_widest(widths, floors, widths.len());
    lemma_widest_of_all(widths, floors, widths.len());
    if let Some(idx) = widest(widths, floors, widths.len()) {
        if total(widths) > budget {
            assert(exists|c: int| 0 <= c < widths.len() && widths[c] > #[trigger] raised[c]) by {
                if forall|c: int| 0 <= c < widths.len() ==> widths[c] <= #[trigger] raised[c] {
                    assert(narrowest(widths, raised) =~= widths);
                }
            }
            let c = choose|c: int| 0 <= c < widths.len() && widths[c] > #[trigger] raised[c];
            assert(widths[c] > floors[c]);
            let less = widths.update(idx, (widths[idx] - 1) as nat);
            lemma_total_update(widths, idx, (widths[idx] - 1) as nat);
            assert(narrowest(less, raised) =~= narrowest(widths, raised));
            columns_keep_two_where_two_fit(less, floors, budget);
            let s = shrunk(widths, floors, budget);
            assert(s == shrunk(less, floors, budget));
            assert forall|i: int| 0 <= i < widths.len() implies #[trigger] s[i] >= 2 || s[i]
                == widths[i] by {
                assert(s[i] >= 2 || s[i] == less[i]);
            }
        }
    }
}

/// The columns that a table takes at the least: its borders, and in each column
/// the widest character.
pub open spec fn least_width(table: TableView) -> nat {
    border_columns(column_count(table)) + total(
        narrowest(natural_widths(table), floor_widths(table)),
    )
}

/// Whether the width of a text is the sum of the widths of its characters.
pub open spec fn is_sum(text: Seq<char>) -> bool {
    text_columns(text) == text_cells(text)
}

/// Whether the widths of the characters of a cell add up.
pub open spec fn is_regular_cell(cell: Seq<SpanView>) -> bool {
    forall|k: int| 0 <= k < cell.len() ==> adds_up((#[trigger] cell[k]).content)
}

/// Whether all cells of a table are regular.
pub open spec fn is_regular_table(table: TableView) -> bool {
    forall|r: int, c: int|
        0 <= r < table.rows.len() && 0 <= c < table.rows[r].len() ==> is_regular_cell(
            #[trigger] table.rows[r][c],
        )
}

/// A table of plain text is regular.
pub proof fn plain_tables_are_regular(table: TableView)
    requires
        forall|r: int, c: int, k: int|
            0 <= r < table.rows.len() && 0 <= c < table.rows[r].len() && 0 <= k
                < table.rows[r][c].len() ==> is_plain((#[trigger] table.rows[r][c][k]).content),
    ensures
        is_regular_table(table),
{
    assert forall|r: int, c: int|
        0 <= r < table.rows.len() && 0 <= c < table.rows[r].len() implies is_regular_cell(
        #[trigger] table.rows[r][c],
    ) by {
        let cell = table.rows[r][c];
        assert forall|k: int| 0 <= k < cell.len() implies adds_up(
            (#[trigger] cell[k]).content,
        ) by {
            assert(is_plain(table.rows[r][c][k].content));
            plain_text_adds_up(cell[k].content);
        }
    }
}

proof fn lemma_regular_columns(spans: Seq<SpanView>)
    requires
        spans_satisfy(spans, |t: Seq<char>| is_sum(t)),
    ensures
        text_cells(spans_text(spans)) <= usize::MAX ==> spans_columns(spans) == text_cells(
            spans_text(spans),
        ),
        text_cells(spans_text(spans)) > usize::MAX ==> spans_columns(spans) == usize::MAX,
    decreases spans.len(),
{
    if spans.len() > 0 {
        let q = |t: Seq<char>| is_sum(t);
        let front = spans.drop_last();
        assert forall|k: int| 0 <= k < front.len() implies q((#[trigger] front[k]).content) by {
            assert(front[k] == spans[k]);
        }
        lemma_regular_columns(front);
        let last = spans[spans.len() - 1].content;
        assert(q(last));
        lemma_cells_concat(spans_text(front), last);
    }
}

proof fn lemma_regular_cell(cell: Seq<SpanView>)
    requires
        is_regular_cell(cell),
    ensures
        accepts_pieces(cell, |t: Seq<char>| is_sum(t)),
        spans_satisfy(cell, |t: Seq<char>| is_sum(t)),
{
    let q = |t: Seq<char>| is_sum(t);
    assert forall|n: nat| q(#[trigger] repeated(' ', n)) by {
        lemma_narrow_cells(repeated(' ', n));
    }
    assert forall|k: int| 0 <= k < cell.len() implies all_pieces((#[trigger] cell[k]).content, q)
        && q(cell[k].content) by {
        let text = cell[k].content;
        assert(adds_up(text));
        assert(text.subrange(0, text.len() as int) =~= text);
    }
}

proof fn lemma_spans_text_one(span: SpanView)
    ensures
        spans_text(seq![span]) == span.content,
{
    assert(seq![span].drop_last() =~= Seq::empty());
    assert(spans_text(Seq::<SpanView>::empty()) =~= Seq::empty());
    assert(spans_text(seq![span]) =~= span.content);
}

proof fn lemma_padding_cells(n: nat)
    ensures
        text_cells(spans_text(padding(n))) == n,
{
    if n == 0 {
        assert(spans_text(Seq::<SpanView>::empty()) =~= Seq::empty());
    } else {
        lemma_spans_text_one(raw(repeated(' ', n)));
        lemma_narrow_cells(repeated(' ', n));
    }
}

proof fn lemma_padded_cells(line: LineView, col_w: nat, align: Align)
    requires
        col_w <= usize::MAX,
        spans_satisfy(line.spans, |t: Seq<char>| is_sum(t)),
        line_cells(line) <= col_w,
    ensures
        line_cells(padded(line, col_w, align)) == col_w,
{
    lemma_regular_columns(line.spans);
    let w = spans_columns(line.spans);
    if w < col_w {
        let (left, right) = split_padding((col_w - w) as nat, align);
        lemma_padding_cells(left);
        lemma_padding_cells(right);
        lemma_spans_text_concat(padding(left), line.spans);
        lemma_spans_text_concat(padding(left) + line.spans, padding(right));
        lemma_cells_concat(spans_text(padding(left)), spans_text(line.spans));
        lemma_cells_concat(
            spans_text(padding(left) + line.spans),
            spans_text(padding(right)),
        );
    }
}

/// The cells of a column that is `col_w` wide can be wrapped to that width: an
/// empty column has empty cells, and no character is wider than another column.
pub open spec fn cell_fits(cell: Seq<SpanView>, col_w: nat) -> bool {
    &&& col_w <= usize::MAX
    &&& is_regular_cell(cell)
    &&& col_w == 0 ==> text_cells(spans_text(cell)) == 0
    &&& spans_widest_char(cell) <= col_w
}

proof fn lemma_widest_char(text: Seq<char>)
    ensures
        no_wider(text, widest_char(text)),
        widest_char(text) <= text_cells(text),
    decreases text.len(),
{
    if text.len() > 0 {
        lemma_widest_char(text.drop_last());
        assert forall|i: int| 0 <= i < text.len() implies cells(#[trigger] text[i]) <= widest_char(
            text,
        ) by {
            if i < text.len() - 1 {
                assert(text[i] == text.drop_last()[i]);
            }
        }
    }
}

proof fn lemma_spans_widest_char(spans: Seq<SpanView>)
    ensures
        forall|k: int|
            0 <= k < spans.len() ==> widest_char((#[trigger] spans[k]).content)
                <= spans_widest_char(spans),
        spans_widest_char(spans) <= text_cells(spans_text(spans)),
    decreases spans.len(),
{
    if spans.len() > 0 {
        lemma_spans_widest_char(spans.drop_last());
        lemma_widest_char(spans.last().content);
        lemma_cells_concat(spans_text(spans.drop_last()), spans.last().content);
        assert forall|k: int| 0 <= k < spans.len() implies widest_char(
            (#[trigger] spans[k]).content,
        ) <= spans_widest_char(spans) by {
            if k < spans.len() - 1 {
                assert(spans[k] == spans.drop_last()[k]);
            }
        }
    }
}

proof fn lemma_floor_width_bound(rows: Seq<Seq<Seq<SpanView>>>, r: int, c: int)
    requires
        0 <= r < rows.len(),
        0 <= c < rows[r].len(),
    ensures
        spans_widest_char(rows[r][c]) <= floor_width(rows, c),
    decreases rows.len(),
{
    if r < rows.len() - 1 {
        lemma_floor_width_bound(rows.drop_last(), r, c);
    }
}

proof fn lemma_wrapped_cell_cells(cell: Seq<SpanView>, col_w: nat, align: Align, v: int)
    requires
        cell_fits(cell, col_w),
        0 <= v < wrapped_cell(cell, col_w, align).len(),
    ensures
        line_cells(wrapped_cell(cell, col_w, align)[v]) == col_w,
{
    let line = LineView { spans: cell, style: plain_style() };
    let lines = wrapped_line(line, col_w);
    let q = |t: Seq<char>| is_sum(t);
    lemma_regular_cell(cell);
    wrapping_only_cuts(line, col_w, q);
    assert(spans_satisfy(lines[v].spans, q));
    if col_w == 0 {
        assert(spans_text(Seq::<SpanView>::empty()) =~= Seq::empty());
    } else {
        assert forall|k: int| 0 <= k < cell.len() implies no_wider(
            (#[trigger] cell[k]).content,
            col_w,
        ) by {
            lemma_spans_widest_char(cell);
            lemma_widest_char(cell[k].content);
        }
        wrapped_lines_keep_the_width(line, col_w);
    }
    lemma_padded_cells(lines[v], col_w, align);
}

/// The sum of the first `n` widths.
pub open spec fn total_to(widths: Seq<nat>, n: nat) -> nat {
    total(widths.take(n as int))
}

proof fn lemma_total_to(widths: Seq<nat>, n: nat)
    requires
        n < widths.len(),
    ensures
        total_to(widths, (n + 1) as nat) == total_to(widths, n) + widths[n as int],
{
    assert(widths.take(n as int + 1).drop_last() =~= widths.take(n as int));
}

proof fn lemma_row_part_cells(
    row: Seq<Seq<SpanView>>,
    widths: Seq<nat>,
    align: Seq<Align>,
    v: int,
    n: nat,
)
    requires
        n <= widths.len(),
        v >= 0,
        forall|c: int| 0 <= c < widths.len() ==> cell_fits(#[trigger] cell_at(row, c), widths[c]),
    ensures
        text_cells(spans_text(row_part(row_cells(row, widths, align), widths, v, n)))
            == total_to(widths, n) + 3 * n + 2,
        row_part(row_cells(row, widths, align), widths, v, n).len() > 0,
        n > 0 ==> row_part(row_cells(row, widths, align), widths, v, n).last() == muted_span(
            " │ "@,
        ),
    decreases n,
{
    reveal_strlit("│ ");
    reveal_strlit(" │ ");
    let cells = row_cells(row, widths, align);
    let part = row_part(cells, widths, v, n);
    if n == 0 {
        lemma_spans_text_one(muted_span("│ "@));
        lemma_narrow_cells("│ "@);
        assert(widths.take(0) =~= Seq::empty());
    } else {
        let c = n - 1;
        lemma_row_part_cells(row, widths, align, v, c as nat);
        let before = row_part(cells, widths, v, c as nat);
        let shown = cell_spans(cells[c], widths[c], v);
        assert(cell_fits(cell_at(row, c), widths[c]));
        if v < cells[c].len() {
            lemma_wrapped_cell_cells(cell_at(row, c), widths[c], align_at(align, c), v);
        } else {
            lemma_spans_text_one(raw(repeated(' ', widths[c])));
            lemma_narrow_cells(repeated(' ', widths[c]));
        }
        assert(text_cells(spans_text(shown)) == widths[c]);
        lemma_spans_text_concat(before, shown);
        lemma_cells_concat(spans_text(before), spans_text(shown));
        assert(part.drop_last() =~= before + shown);
        lemma_cells_concat(spans_text(before + shown), " │ "@);
        lemma_narrow_cells(" │ "@);
        lemma_total_to(widths, c as nat);
    }
}

proof fn lemma_row_line_cells(
    row: Seq<Seq<SpanView>>,
    widths: Seq<nat>,
    align: Seq<Align>,
    v: int,
    header: bool,
)
    requires
        widths.len() > 0,
        v >= 0,
        forall|c: int| 0 <= c < widths.len() ==> cell_fits(#[trigger] cell_at(row, c), widths[c]),
    ensures
        line_cells(row_line(row_cells(row, widths, align), widths, v, header)) == total(widths)
            + border_columns(widths.len()),
{
    reveal_strlit(" │ ");
    reveal_strlit(" │");
    let cells = row_cells(row, widths, align);
    let part = row_part(cells, widths, v, widths.len());
    lemma_row_part_cells(row, widths, align, v, widths.len());
    assert(widths.take(widths.len() as int) =~= widths);
    lemma_cells_concat(spans_text(part.drop_last()), " │ "@);
    lemma_narrow_cells(" │ "@);
    let line = part.drop_last().push(muted_span(" │"@));
    assert(line.drop_last() =~= part.drop_last());
    lemma_cells_concat(spans_text(part.drop_last()), " │"@);
    lemma_narrow_cells(" │"@);
}

proof fn lemma_no_line_feed(s: Seq<char>)
    requires
        forall|i: int| 0 <= i < s.len() ==> #[trigger] s[i] != '\n',
    ensures
        split(s, '\n') == seq![s],
    decreases s.len(),
{
    if s.len() > 0 {
        lemma_no_line_feed(s.drop_last());
        let before = split(s.drop_last(), '\n');
        assert(s[s.len() - 1] != '\n');
        assert(before.last() == s.drop_last());
        assert(before.last().push(s.last()) =~= s);
        assert(split(s, '\n') =~= seq![s]);
    } else {
        assert(s =~= Seq::empty());
    }
}

proof fn lemma_border_part(widths: Seq<nat>, n: nat, middle: char, right: char)
    requires
        n <= widths.len(),
        is_narrow(middle),
        is_narrow(right),
    ensures
        border_part(widths, n, middle, right).len() == total_to(widths, n) + 3 * n,
        forall|i: int|
            0 <= i < border_part(widths, n, middle, right).len() ==> is_narrow(
                #[trigger] border_part(widths, n, middle, right)[i],
            ),
    decreases n,
{
    if n == 0 {
        assert(widths.take(0) =~= Seq::empty());
    } else {
        lemma_border_part(widths, (n - 1) as nat, middle, right);
        lemma_total_to(widths, (n - 1) as nat);
    }
}

proof fn lemma_border_cells(widths: Seq<nat>, left: char, middle: char, right: char)
    requires
        is_narrow(left),
        is_narrow(middle),
        is_narrow(right),
    ensures
        line_cells(border_line(widths, left, middle, right)) == total(widths) + border_columns(
            widths.len(),
        ),
{
    let part = border_part(widths, widths.len(), middle, right);
    let text = seq![left] + part;
    lemma_border_part(widths, widths.len(), middle, right);
    assert(widths.take(widths.len() as int) =~= widths);
    assert forall|i: int| 0 <= i < text.len() implies is_narrow(#[trigger] text[i]) by {
        if i > 0 {
            assert(text[i] == part[i - 1]);
        }
    }
    lemma_narrow_cells(text);
    lemma_no_line_feed(text);
    assert(text_lines(text) =~= seq![text]);
    lemma_spans_text_one(raw(text));
    assert(border_line(widths, left, middle, right).spans =~= seq![raw(text)]);
}

proof fn lemma_natural_width_bound(rows: Seq<Seq<Seq<SpanView>>>, r: int, c: int)
    requires
        0 <= r < rows.len(),
        0 <= c < rows[r].len(),
    ensures
        spans_columns(rows[r][c]) <= natural_width(rows, c),
    decreases rows.len(),
{
    if r < rows.len() - 1 {
        lemma_natural_width_bound(rows.drop_last(), r, c);
    }
}

proof fn lemma_spans_columns_limit(spans: Seq<SpanView>)
    ensures
        spans_columns(spans) <= usize::MAX,
{
}

proof fn lemma_natural_width_limit(rows: Seq<Seq<Seq<SpanView>>>, c: int)
    ensures
        natural_width(rows, c) <= usize::MAX,
    decreases rows.len(),
{
    if rows.len() > 0 {
        lemma_natural_width_limit(rows.drop_last(), c);
        if c < rows.last().len() {
            lemma_spans_columns_limit(rows.last()[c]);
        }
    }
}

proof fn lemma_floor_width_low(rows: Seq<Seq<Seq<SpanView>>>, c: int)
    ensures
        floor_width(rows, c) >= 1,
    decreases rows.len(),
{
    if rows.len() > 0 {
        lemma_floor_width_low(rows.drop_last(), c);
    }
}

proof fn lemma_text_char_limit(text: Seq<char>)
    ensures
        widest_char(text) <= 3,
    decreases text.len(),
{
    if text.len() > 0 {
        lemma_text_char_limit(text.drop_last());
    }
}

proof fn lemma_char_limit(spans: Seq<SpanView>)
    ensures
        spans_widest_char(spans) <= 3,
    decreases spans.len(),
{
    if spans.len() > 0 {
        lemma_char_limit(spans.drop_last());
        lemma_text_char_limit(spans.last().content);
    }
}

proof fn lemma_cells_fit(table: TableView, width: nat, r: int, c: int)
    requires
        is_regular_table(table),
        0 <= r < table.rows.len(),
        0 <= c < column_count(table),
    ensures
        cell_fits(cell_at(table.rows[r], c), column_widths(table, width)[c]),
{
    let row = table.rows[r];
    let cell = cell_at(row, c);
    let natural = natural_widths(table);
    let borders = border_columns(column_count(table));
    if width > borders {
        shrinking_keeps_to_the_budget(natural, floor_widths(table), (width - borders) as nat);
        assert(column_widths(table, width)[c] <= natural[c]);
    }
    lemma_natural_width_limit(table.rows, c);
    if c < row.len() {
        assert(table.rows[r][c] == cell);
        lemma_natural_width_bound(table.rows, r, c);
        lemma_floor_width_bound(table.rows, r, c);
        lemma_regular_cell(cell);
        lemma_regular_columns(cell);
        lemma_spans_widest_char(cell);
        lemma_floor_width_low(table.rows, c);
        lemma_char_limit(cell);
    } else {
        assert(spans_text(Seq::<SpanView>::empty()) =~= Seq::empty());
    }
}

/// A layout has a width for each column.
pub proof fn lemma_column_widths_len(table: TableView, width: nat)
    ensures
        column_widths(table, width).len() == column_count(table),
{
    let natural = natural_widths(table);
    let borders = border_columns(column_count(table));
    if width > borders {
        shrinking_keeps_to_the_budget(natural, floor_widths(table), (width - borders) as nat);
    }
}

proof fn lemma_table_part_cells(table: TableView, width: nat, n: nat)
    requires
        is_regular_table(table),
        column_count(table) > 0,
        n <= table.rows.len(),
    ensures
        forall|i: int|
            0 <= i < table_part(table, column_widths(table, width), n).len() ==> line_cells(
                #[trigger] table_part(table, column_widths(table, width), n)[i],
            ) == total(column_widths(table, width)) + border_columns(column_count(table)),
    decreases n,
{
    let widths = column_widths(table, width);
    let all = total(widths) + border_columns(column_count(table));
    lemma_column_widths_len(table, width);
    if n > 0 {
        let r = n - 1;
        lemma_table_part_cells(table, width, r as nat);
        let before = table_part(table, widths, r as nat);
        let row = table.rows[r];
        let header = r < table.header_rows;
        let lines = row_lines(row_cells(row, widths, table.align), widths, header);
        assert forall|c: int| 0 <= c < widths.len() implies cell_fits(
            #[trigger] cell_at(row, c),
            widths[c],
        ) by {
            lemma_cells_fit(table, width, r, c);
        }
        lemma_border_cells(widths, '├', '┼', '┤');
        let part = table_part(table, widths, n);
        assert forall|i: int| 0 <= i < part.len() implies line_cells(#[trigger] part[i])
            == all by {
            if i < before.len() {
                assert(part[i] == before[i]);
            } else if i < before.len() + lines.len() {
                assert(part[i] == lines[i - before.len()]);
                lemma_row_line_cells(row, widths, table.align, i - before.len(), header);
            }
        }
    }
}

/// The borders of a table stay aligned: all lines of a regular table take the same
/// number of columns, the sum of the widths of its columns and of its borders.
pub proof fn table_lines_are_aligned(table: TableView, width: nat)
    requires
        is_regular_table(table),
        column_count(table) > 0,
    ensures
        forall|i: int|
            0 <= i < table_lines(table, width).len() ==> line_cells(
                #[trigger] table_lines(table, width)[i],
            ) == total(column_widths(table, width)) + border_columns(column_count(table)),
{
    let widths = column_widths(table, width);
    lemma_column_widths_len(table, width);
    lemma_table_part_cells(table, width, table.rows.len());
    lemma_border_cells(widths, '┌', '┬', '┐');
    lemma_border_cells(widths, '└', '┴', '┘');
    let part = table_part(table, widths, table.rows.len());
    let lines = table_lines(table, width);
    assert forall|i: int| 0 <= i < lines.len() implies line_cells(#[trigger] lines[i]) == total(
        widths,
    ) + border_columns(column_count(table)) by {
        if 0 < i < lines.len() - 1 {
            assert(lines[i] == part[i - 1]);
        }
    }
}

/// A regular table is never wider than the width it is laid out for, so that its
/// borders never wrap, as soon as the width is enough for it at all: no layout of
/// it is narrower than its least width.
pub proof fn table_lines_keep_the_width(table: TableView, width: nat)
    requires
        is_regular_table(table),
        column_count(table) > 0,
    ensures
        forall|i: int|
            0 <= i < table_lines(table, width).len() ==> line_cells(
                #[trigger] table_lines(table, width)[i],
            ) >= least_width(table),
        width >= least_width(table) ==> forall|i: int|
            0 <= i < table_lines(table, width).len() ==> line_cells(
                #[trigger] table_lines(table, width)[i],
            ) <= width,
{
    table_lines_are_aligned(table, width);
    let natural = natural_widths(table);
    let floors = floor_widths(table);
    let least = narrowest(natural, floors);
    let borders = border_columns(column_count(table));
    let widths = column_widths(table, width);
    if width > borders {
        let budget = (width - borders) as nat;
        shrinking_keeps_to_the_budget(natural, floors, budget);
        lemma_total_ordered(least, widths);
        if total(widths) > budget {
            assert(widths =~= least);
        }
    } else {
        lemma_total_ordered(least, natural);
        if width == borders && total(least) == 0 {
            lemma_total_zero(least);
            assert forall|c: int| 0 <= c < natural.len() implies natural[c] == least[c] by {
                lemma_floor_width_low(table.rows, c);
                assert(least[c] == 0);
            }
            assert(natural =~= least);
        }
    }
}

/// Whether all characters of a table take at most one column.
pub open spec fn is_one_column_table(table: TableView) -> bool {
    forall|r: int, c: int, k: int|
        0 <= r < table.rows.len() && 0 <= c < table.rows[r].len() && 0 <= k
            < table.rows[r][c].len() ==> no_wider((#[trigger] table.rows[r][c][k]).content, 1)
}

proof fn lemma_widest_char_at_most(text: Seq<char>, n: nat)
    requires
        no_wider(text, n),
    ensures
        widest_char(text) <= n,
    decreases text.len(),
{
    if text.len() > 0 {
        assert(cells(text[text.len() - 1]) <= n);
        lemma_widest_char_at_most(text.drop_last(), n);
    }
}

proof fn lemma_spans_widest_char_at_most(spans: Seq<SpanView>, n: nat)
    requires
        forall|k: int| 0 <= k < spans.len() ==> no_wider((#[trigger] spans[k]).content, n),
    ensures
        spans_widest_char(spans) <= n,
    decreases spans.len(),
{
    if spans.len() > 0 {
        assert forall|k: int| 0 <= k < spans.len() - 1 implies no_wider(
            (#[trigger] spans.drop_last()[k]).content,
            n,
        ) by {
            assert(spans.drop_last()[k] == spans[k]);
        }
        lemma_spans_widest_char_at_most(spans.drop_last(), n);
        lemma_widest_char_at_most(spans[spans.len() - 1].content, n);
    }
}

proof fn lemma_one_column_floor(rows: Seq<Seq<Seq<SpanView>>>, c: int)
    requires
        c >= 0,
        forall|r: int, k: int|
            0 <= r < rows.len() && c < rows[r].len() && 0 <= k < rows[r][c].len() ==> no_wider(
                (#[trigger] rows[r][c][k]).content,
                1,
            ),
    ensures
        floor_width(rows, c) == 1,
    decreases rows.len(),
{
    if rows.len() > 0 {
        let front = rows.drop_last();
        assert forall|r: int, k: int|
            0 <= r < front.len() && c < front[r].len() && 0 <= k
                < front[r][c].len() implies no_wider((#[trigger] front[r][c][k]).content, 1) by {
            assert(front[r][c][k] == rows[r][c][k]);
        }
        lemma_one_column_floor(front, c);
        let row = rows.last();
        if c < row.len() {
            assert forall|k: int| 0 <= k < row[c].len() implies no_wider(
                (#[trigger] row[c][k]).content,
                1,
            ) by {
                assert(rows[rows.len() - 1][c][k] == row[c][k]);
            }
            lemma_spans_widest_char_at_most(row[c], 1);
        }
    }
}

proof fn lemma_total_of_ones(widths: Seq<nat>)
    requires
        forall|i: int| 0 <= i < widths.len() ==> #[trigger] widths[i] <= 1,
    ensures
        total(widths) <= widths.len(),
    decreases widths.len(),
{
    if widths.len() > 0 {
        assert forall|i: int| 0 <= i < widths.len() - 1 implies #[trigger] widths.drop_last()[i]
            <= 1 by {
            assert(widths[i] <= 1);
        }
        lemma_total_of_ones(widths.drop_last());
        assert(widths[widths.len() - 1] <= 1);
    }
}

/// A table of characters that take one column each fits every width that leaves
/// room for its borders and one character in each column.
pub proof fn one_column_tables_fit(table: TableView, width: nat)
    requires
        is_regular_table(table),
        is_one_column_table(table),
        column_count(table) > 0,
        width >= 4 * column_count(table) + 1,
    ensures
        forall|i: int|
            0 <= i < table_lines(table, width).len() ==> line_cells(
                #[trigger] table_lines(table, width)[i],
            ) <= width,
{
    let least = narrowest(natural_widths(table), floor_widths(table));
    assert forall|c: int| 0 <= c < least.len() implies #[trigger] least[c] <= 1 by {
        lemma_one_column_floor(table.rows, c);
    }
    lemma_total_of_ones(least);
    table_lines_keep_the_width(table, width);
}

/// A table of narrow characters, such as those of printable ASCII, fits every width
/// that leaves room for its borders and one character in each column.
pub proof fn narrow_tables_fit(table: TableView, width: nat)
    requires
        forall|r: int, c: int, k: int, i: int|
            0 <= r < table.rows.len() && 0 <= c < table.rows[r].len() && 0 <= k
                < table.rows[r][c].len() && 0 <= i < table.rows[r][c][k].content.len()
                ==> is_narrow(#[trigger] table.rows[r][c][k].content[i]),
        column_count(table) > 0,
        width >= 4 * column_count(table) + 1,
    ensures
        forall|i: int|
            0 <= i < table_lines(table, width).len() ==> line_cells(
                #[trigger] table_lines(table, width)[i],
            ) <= width,
{
    plain_tables_are_regular(table);
    one_column_tables_fit(table, width);
}

proof fn lemma_total_zero(widths: Seq<nat>)
    requires
        total(widths) == 0,
    ensures
        forall|i: int| 0 <= i < widths.len() ==> #[trigger] widths[i] == 0,
    decreases widths.len(),
{
    if widths.len() > 0 {
        lemma_total_zero(widths.drop_last());
        assert forall|i: int| 0 <= i < widths.len() implies #[trigger] widths[i] == 0 by {
            if i < widths.len() - 1 {
                assert(widths.drop_last()[i] == 0);
            }
        }
    }
}

proof fn lemma_padded_ink(line: LineView, col_w: nat, align: Align)
    ensures
        spans_ink(padded(line, col_w, align).spans) == spans_ink(line.spans),
{
    let w = spans_columns(line.spans);
    if w < col_w {
        let (left, right) = split_padding((col_w - w) as nat, align);
        lemma_padding_ink(left);
        lemma_padding_ink(right);
        lemma_spans_ink_concat(padding(left), line.spans);
        lemma_spans_ink_concat(padding(left) + line.spans, padding(right));
        assert(spans_ink(padded(line, col_w, align).spans) =~= spans_ink(line.spans));
    }
}

proof fn lemma_padding_ink(n: nat)
    ensures
        spans_ink(padding(n)) == Seq::<(char, Style)>::empty(),
{
    if n > 0 {
        lemma_spaces_ink(n, plain_style());
        lemma_one_span_ink(raw(repeated(' ', n)));
    }
}

proof fn lemma_spans_ink_concat(a: Seq<SpanView>, b: Seq<SpanView>)
    ensures
        spans_ink(a + b) == spans_ink(a) + spans_ink(b),
    decreases b.len(),
{
    if b.len() == 0 {
        assert(a + b =~= a);
        assert(spans_ink(a) + spans_ink(b) =~= spans_ink(a));
    } else {
        assert((a + b).drop_last() =~= a + b.drop_last());
        lemma_spans_ink_concat(a, b.drop_last());
        assert(spans_ink(a + b) =~= spans_ink(a) + spans_ink(b));
    }
}

proof fn lemma_padded_lines_ink(
    lines: Seq<LineView>,
    shown: Seq<LineView>,
    col_w: nat,
    align: Align,
)
    requires
        shown.len() == lines.len(),
        forall|i: int|
            0 <= i < lines.len() ==> #[trigger] shown[i] == padded(lines[i], col_w, align),
    ensures
        lines_ink(shown) == lines_ink(lines),
    decreases lines.len(),
{
    if lines.len() > 0 {
        assert forall|i: int| 0 <= i < lines.len() - 1 implies #[trigger] shown.drop_last()[i]
            == padded(lines.drop_last()[i], col_w, align) by {
            assert(shown.drop_last()[i] == shown[i]);
        }
        lemma_padded_lines_ink(lines.drop_last(), shown.drop_last(), col_w, align);
        assert(shown[lines.len() - 1] == padded(lines[lines.len() - 1], col_w, align));
        lemma_padded_ink(lines.last(), col_w, align);
    }
}

/// A cell stays fully visible: apart from white space, its wrapped lines hold
/// the same characters in the same styles and the same order.
pub proof fn wrapped_cells_stay_visible(cell: Seq<SpanView>, col_w: nat, align: Align)
    requires
        col_w == 0 || spans_no_hidden(cell),
    ensures
        lines_ink(wrapped_cell(cell, col_w, align)) == spans_ink(cell),
{
    let line = LineView { spans: cell, style: plain_style() };
    wrapping_keeps_text_and_styles(line, col_w);
    lemma_padded_lines_ink(
        wrapped_line(line, col_w),
        wrapped_cell(cell, col_w, align),
        col_w,
        align,
    );
}

/// The display line of a table on which the row `r` begins.
pub open spec fn row_start(table: TableView, width: nat, r: int) -> nat {
    1 + table_part(table, column_widths(table, width), r as nat).len()
}

/// The number of display lines of the row `r` of a table.
pub open spec fn row_height_at(table: TableView, width: nat, r: int) -> nat {
    height(row_cells(table.rows[r], column_widths(table, width), table.align))
}

/// The separator in front of the column `c`.
pub open spec fn separator_before(c: int) -> SpanView {
    if c == 0 {
        muted_span("│ "@)
    } else {
        muted_span(" │ "@)
    }
}

/// The separator behind the column `c` of `cols`.
pub open spec fn separator_behind(c: int, cols: nat) -> SpanView {
    if c == cols - 1 {
        muted_span(" │"@)
    } else {
        muted_span(" │ "@)
    }
}

/// Where the column `c` begins on the display line `v` of the row `r`.
pub open spec fn column_start(table: TableView, width: nat, r: int, c: int, v: int) -> nat {
    let widths = column_widths(table, width);
    row_part(row_cells(table.rows[r], widths, table.align), widths, v, c as nat).len()
}

/// Where the column `c` ends on the display line `v` of the row `r`: before the next
/// separator.
pub open spec fn column_end(table: TableView, width: nat, r: int, c: int, v: int) -> int {
    column_start(table, width, r, c + 1, v) - 1
}

/// The segment of the column `c` on the display line `v` of the row `r`.
pub open spec fn column_segment(
    table: TableView,
    width: nat,
    r: int,
    c: int,
    v: int,
) -> Seq<SpanView> {
    table_lines(table, width)[row_start(table, width, r) + v].spans.subrange(
        column_start(table, width, r, c, v) as int,
        column_end(table, width, r, c, v),
    )
}

/// What the column `c` shows on the first `n` display lines of the row `r`, but for
/// white space.
pub open spec fn column_ink(table: TableView, width: nat, r: int, c: int, n: nat) -> Seq<
    (char, Style),
>
    decreases n,
{
    if n == 0 {
        Seq::empty()
    } else {
        column_ink(table, width, r, c, (n - 1) as nat) + spans_ink(
            column_segment(table, width, r, c, n - 1),
        )
    }
}

proof fn lemma_height(cells: Seq<Seq<LineView>>, c: int)
    requires
        0 <= c < cells.len(),
    ensures
        cells[c].len() <= height(cells),
    decreases cells.len(),
{
    if c < cells.len() - 1 {
        lemma_height(cells.drop_last(), c);
    }
}

/// Where a row stands among the lines of a table.
pub proof fn lemma_table_part_row(table: TableView, widths: Seq<nat>, n: nat, r: int, v: int)
    requires
        0 <= r < n <= table.rows.len(),
        0 <= v < height(row_cells(table.rows[r], widths, table.align)),
    ensures
        table_part(table, widths, r as nat).len() + v < table_part(table, widths, n).len(),
        table_part(table, widths, n)[table_part(table, widths, r as nat).len() + v] == row_line(
            row_cells(table.rows[r], widths, table.align),
            widths,
            v,
            r < table.header_rows,
        ),
    decreases n,
{
    if r < n - 1 {
        lemma_table_part_row(table, widths, (n - 1) as nat, r, v);
    }
}

proof fn lemma_row_part_prefix(
    cells: Seq<Seq<LineView>>,
    widths: Seq<nat>,
    v: int,
    m: nat,
    n: nat,
)
    requires
        m <= n,
    ensures
        row_part(cells, widths, v, m).len() > 0,
        row_part(cells, widths, v, m).is_prefix_of(row_part(cells, widths, v, n)),
        row_part(cells, widths, v, m).last() == separator_before(m as int),
    decreases n,
{
    if m < n {
        lemma_row_part_prefix(cells, widths, v, m, (n - 1) as nat);
        let before = row_part(cells, widths, v, (n - 1) as nat);
        assert(before.is_prefix_of(row_part(cells, widths, v, n)));
        assert(row_part(cells, widths, v, m) =~= row_part(cells, widths, v, n).take(
            row_part(cells, widths, v, m).len() as int,
        ));
    } else if m > 0 {
        lemma_row_part_prefix(cells, widths, v, (m - 1) as nat, (m - 1) as nat);
    }
}

/// A row of a table shows its cells side by side: on each of its display lines every
/// column has a segment between two separators, which holds the line of the wrapped
/// cell, or spaces below its last one.
pub proof fn rows_show_their_cells(table: TableView, width: nat, r: int, c: int, v: int)
    requires
        0 <= r < table.rows.len(),
        0 <= c < column_count(table),
        0 <= v < row_height_at(table, width, r),
    ensures
        ({
            let widths = column_widths(table, width);
            let at = row_start(table, width, r) + v;
            let line = table_lines(table, width)[at];
            let from = column_start(table, width, r, c, v) as int;
            let to = column_end(table, width, r, c, v);
            &&& 0 < at < table_lines(table, width).len() - 1
            &&& 0 < from <= to < line.spans.len()
            &&& line.spans[from - 1] == separator_before(c)
            &&& line.spans[to] == separator_behind(c, column_count(table))
            &&& c == column_count(table) - 1 ==> to == line.spans.len() - 1
            &&& column_segment(table, width, r, c, v) == cell_spans(
                wrapped_cell(cell_at(table.rows[r], c), widths[c], align_at(table.align, c)),
                widths[c],
                v,
            )
        }),
{
    let widths = column_widths(table, width);
    let cells = row_cells(table.rows[r], widths, table.align);
    let cols = column_count(table);
    lemma_column_widths_len(table, width);
    lemma_table_part_row(table, widths, table.rows.len(), r, v);
    let at = row_start(table, width, r) + v;
    let line = table_lines(table, width)[at];
    assert(line == row_line(cells, widths, v, r < table.header_rows));
    lemma_row_part_prefix(cells, widths, v, c as nat, (c + 1) as nat);
    lemma_row_part_prefix(cells, widths, v, (c + 1) as nat, cols);
    let head = row_part(cells, widths, v, c as nat);
    let more = row_part(cells, widths, v, (c + 1) as nat);
    let all = row_part(cells, widths, v, cols);
    let shown = cell_spans(cells[c], widths[c], v);
    assert(more == (head + shown).push(muted_span(" │ "@)));
    assert(more =~= all.take(more.len() as int));
    let from = head.len() as int;
    let to = more.len() - 1;
    assert forall|i: int| 0 <= i < more.len() implies #[trigger] more[i] == all[i] by {
        assert(all.take(more.len() as int)[i] == all[i]);
    }
    assert forall|i: int| 0 <= i < to implies #[trigger] line.spans[i] == more[i] by {
        assert(line.spans[i] == all[i]);
    }
    assert(line.spans[from - 1] == more[from - 1]);
    assert(more[from - 1] == head.last());
    if c == cols - 1 {
        assert(more =~= all);
    } else {
        lemma_row_part_prefix(cells, widths, v, (c + 2) as nat, cols);
        assert(all.len() > more.len());
        assert(line.spans[to] == all[to]);
    }
    assert(line.spans.subrange(from, to) =~= shown);
}

proof fn lemma_column_ink(table: TableView, width: nat, r: int, c: int, n: nat)
    requires
        0 <= r < table.rows.len(),
        0 <= c < column_count(table),
        n <= row_height_at(table, width, r),
    ensures
        ({
            let widths = column_widths(table, width);
            let lines = wrapped_cell(
                cell_at(table.rows[r], c),
                widths[c],
                align_at(table.align, c),
            );
            column_ink(table, width, r, c, n) == lines_ink(
                lines.take(
                    if n < lines.len() {
                        n as int
                    } else {
                        lines.len() as int
                    },
                ),
            )
        }),
    decreases n,
{
    let widths = column_widths(table, width);
    let lines = wrapped_cell(cell_at(table.rows[r], c), widths[c], align_at(table.align, c));
    if n == 0 {
        assert(lines.take(0) =~= Seq::empty());
    } else {
        lemma_column_ink(table, width, r, c, (n - 1) as nat);
        rows_show_their_cells(table, width, r, c, n - 1);
        if n <= lines.len() {
            assert(lines.take(n as int).drop_last() =~= lines.take(n - 1));
        } else {
            lemma_spaces_ink(widths[c], plain_style());
            lemma_one_span_ink(raw(repeated(' ', widths[c])));
            assert(column_ink(table, width, r, c, n) =~= column_ink(
                table,
                width,
                r,
                c,
                (n - 1) as nat,
            ));
        }
    }
}

/// Nothing of a cell is lost in a table: over the display lines of a row, the segments
/// of a column hold the characters of its cell, apart from white space, in the same
/// styles and the same order.
pub proof fn tables_show_every_cell(table: TableView, width: nat, r: int, c: int)
    requires
        0 <= r < table.rows.len(),
        0 <= c < column_count(table),
        column_widths(table, width)[c] == 0 || spans_no_hidden(cell_at(table.rows[r], c)),
    ensures
        column_ink(table, width, r, c, row_height_at(table, width, r)) == spans_ink(
            cell_at(table.rows[r], c),
        ),
{
    let widths = column_widths(table, width);
    let cell = cell_at(table.rows[r], c);
    let lines = wrapped_cell(cell, widths[c], align_at(table.align, c));
    let cells = row_cells(table.rows[r], widths, table.align);
    lemma_column_widths_len(table, width);
    assert(cells[c] == lines);
    lemma_height(cells, c);
    lemma_column_ink(table, width, r, c, row_height_at(table, width, r));
    assert(lines.take(lines.len() as int) =~= lines);
    wrapped_cells_stay_visible(cell, widths[c], align_at(table.align, c));
}

} // verus!
