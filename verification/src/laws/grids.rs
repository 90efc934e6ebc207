//! The layout of tables: columns, rows, borders, and the place of text in cells.

use crate::laws::inline::{is_bare, is_gray};
use crate::laws::texts::single_lines_are_single_spans;
use crate::style::{raw, spans_columns, spans_text, LineView, SpanView, Style};
use crate::table::{
    border_line, border_part, column_count, column_end, column_segment, column_start,
    column_widths, floor_width, height, lemma_column_widths_len, lemma_table_part_row,
    lemma_total_update, lemma_widest, lemma_widest_of_all, longest_row, natural_width,
    natural_widths, row_cells, row_height_at, row_start, rows_show_their_cells,
    shrinking_keeps_to_the_budget, shrunk, table_lines, table_part, total, widest, widest_char,
    wrapped_cell, Align, TableView,
};
use crate::text::repeated;
use crate::width::cells;
use crate::wrap::wrapped_line;
use vstd::prelude::*;

verus! {

/// Where the border in front of the column `c` stands.
pub open spec fn edge(widths: Seq<nat>, c: nat) -> nat
    decreases c,
{
    if c == 0 {
        0
    } else {
        edge(widths, (c - 1) as nat) + widths[c - 1] + 3
    }
}

/// Whether a line is a border: dashes, with a corner at each end and a joint at every
/// edge between two columns.
pub open spec fn is_border(
    line: LineView,
    widths: Seq<nat>,
    left: char,
    joint: char,
    right: char,
) -> bool {
    let text = spans_text(line.spans);
    let n = widths.len();
    &&& is_gray(line.style)
    &&& text.len() == edge(widths, n) + 1
    &&& text[0] == left
    &&& text.last() == right
    &&& forall|c: nat| 0 < c < n ==> text[#[trigger] edge(widths, c) as int] == joint
    &&& forall|c: nat, j: int|
        c < n && 1 <= j <= widths[c as int] + 2 ==> #[trigger] text[edge(widths, c) + j] == '─'
}

proof fn lemma_border_part_chars(widths: Seq<nat>, n: nat, joint: char, right: char)
    requires
        n <= widths.len(),
    ensures
        ({
            let part = border_part(widths, n, joint, right);
            &&& part.len() == edge(widths, n)
            &&& forall|c: nat|
                0 < c <= n ==> part[#[trigger] edge(widths, c) - 1] == if c == widths.len() {
                    right
                } else {
                    joint
                }
            &&& forall|c: nat, j: int|
                c < n && 0 <= j < widths[c as int] + 2 ==> #[trigger] part[edge(widths, c) + j]
                    == '─'
        }),
    decreases n,
{
    if n > 0 {
        let m = (n - 1) as nat;
        lemma_border_part_chars(widths, m, joint, right);
        let before = border_part(widths, m, joint, right);
        let part = border_part(widths, n, joint, right);
        assert forall|c: nat| 0 < c <= n implies part[#[trigger] edge(widths, c) - 1] == if c
            == widths.len() {
            right
        } else {
            joint
        } by {
            if c < n {
                lemma_edges(widths, c, m);
                lemma_edges(widths, 0, c);
                assert(part[edge(widths, c) - 1] == before[edge(widths, c) - 1]);
            }
        }
        assert forall|c: nat, j: int|
            c < n && 0 <= j < widths[c as int] + 2 implies #[trigger] part[edge(widths, c) + j]
            == '─' by {
            if c < m {
                lemma_edges(widths, c + 1, m);
                assert(part[edge(widths, c) + j] == before[edge(widths, c) + j]);
            }
        }
    }
}

proof fn lemma_edges(widths: Seq<nat>, a: nat, b: nat)
    requires
        a <= b,
    ensures
        edge(widths, a) + 3 * (b - a) <= edge(widths, b),
    decreases b,
{
    if a < b {
        lemma_edges(widths, a, (b - 1) as nat);
    }
}

proof fn lemma_border(widths: Seq<nat>, left: char, joint: char, right: char)
    requires
        widths.len() > 0,
        left != '\n',
        joint != '\n',
        right != '\n',
    ensures
        is_border(border_line(widths, left, joint, right), widths, left, joint, right),
{
    let n = widths.len();
    let part = border_part(widths, n, joint, right);
    let text = seq![left] + part;
    lemma_border_part_chars(widths, n, joint, right);
    lemma_no_feed(widths, n, joint, right);
    assert forall|i: int| 0 <= i < text.len() implies #[trigger] text[i] != '\n' by {
        if i > 0 {
            assert(text[i] == part[i - 1]);
        }
    }
    single_lines_are_single_spans(text, crate::style::muted_style());
    lemma_edges(widths, 0, n);
    assert(text.last() == part[edge(widths, n) - 1]);
    assert forall|c: nat| 0 < c < n implies text[#[trigger] edge(widths, c) as int] == joint by {
        lemma_edges(widths, 0, c);
        lemma_edges(widths, c, n);
        assert(text[edge(widths, c) as int] == part[edge(widths, c) - 1]);
    }
    assert forall|c: nat, j: int|
        c < n && 1 <= j <= widths[c as int] + 2 implies #[trigger] text[edge(widths, c) + j]
        == '─' by {
        lemma_edges(widths, c + 1, n);
        assert(part[edge(widths, c) + (j - 1)] == '─');
    }
}

proof fn lemma_no_feed(widths: Seq<nat>, n: nat, joint: char, right: char)
    requires
        joint != '\n',
        right != '\n',
    ensures
        forall|i: int|
            0 <= i < border_part(widths, n, joint, right).len() ==> #[trigger] border_part(
                widths,
                n,
                joint,
                right,
            )[i] != '\n',
    decreases n,
{
    if n > 0 {
        lemma_no_feed(widths, (n - 1) as nat, joint, right);
        let before = border_part(widths, (n - 1) as nat, joint, right);
        let part = border_part(widths, n, joint, right);
        let dashes = repeated('─', widths[n - 1] + 2);
        assert forall|i: int| 0 <= i < part.len() implies #[trigger] part[i] != '\n' by {
            if i < before.len() {
                assert(part[i] == before[i]);
            } else if i - before.len() < dashes.len() {
                assert(part[i] == dashes[i - before.len()]);
            }
        }
    }
}

/// Whether a row of the table takes more than one line.
pub open spec fn has_tall_row(table: TableView, width: nat) -> bool {
    exists|r: int| 0 <= r < table.rows.len() && #[trigger] row_height_at(table, width, r) > 1
}

/// A table stands between a border above and one below. Its rows follow each other, and
/// a border stands below the header, and between all rows as soon as one of them takes
/// more than one line. The lines of the header are bold, all others are not.
#[verifier::spinoff_prover]
#[verifier::rlimit(60)]
pub proof fn tables_are_ruled(table: TableView, width: nat, r: int, v: int)
    requires
        column_count(table) > 0,
        0 <= r < table.rows.len(),
        0 <= v < row_height_at(table, width, r),
    ensures
        ({
            let widths = column_widths(table, width);
            let lines = table_lines(table, width);
            let start = row_start(table, width, r);
            let end = start + row_height_at(table, width, r);
            let ruled = r + 1 < table.rows.len() && (r + 1 == table.header_rows || has_tall_row(
                table,
                width,
            ));
            &&& is_border(lines[0], widths, '┌', '┬', '┐')
            &&& is_border(lines.last(), widths, '└', '┴', '┘')
            &&& row_start(table, width, 0) == 1
            &&& row_start(table, width, r + 1) == end + if ruled {
                1int
            } else {
                0int
            }
            &&& ruled ==> is_border(lines[end as int], widths, '├', '┼', '┤')
            &&& row_start(table, width, table.rows.len() as int) + 1 == lines.len()
            &&& r < table.header_rows ==> lines[start + v].style.bold && is_bare(
                Style { bold: false, ..lines[start + v].style },
            )
            &&& r >= table.header_rows ==> is_bare(lines[start + v].style)
        }),
{
    let widths = column_widths(table, width);
    let lines = table_lines(table, width);
    let n = table.rows.len();
    lemma_column_widths_len(table, width);
    lemma_border(widths, '┌', '┬', '┐');
    lemma_border(widths, '└', '┴', '┘');
    lemma_border(widths, '├', '┼', '┤');
    lemma_table_part_row(table, widths, n, r, v);
    let part = table_part(table, widths, n);
    let start = row_start(table, width, r);
    assert(lines[start + v] == part[start - 1 + v]);
    assert(lines.last() == border_line(widths, '└', '┴', '┘'));
    lemma_tall(table, width);
    let next = table_part(table, widths, (r + 1) as nat);
    let h = row_height_at(table, width, r);
    if crate::table::separated(table, widths, r) {
        lemma_part_prefix(table, widths, (r + 1) as nat, n);
        assert(next.last() == border_line(widths, '├', '┼', '┤'));
        assert(part[next.len() - 1] == next[next.len() - 1]);
        assert(lines[(start + h) as int] == part[start - 1 + h]);
    }
}

proof fn lemma_tall(table: TableView, width: nat)
    ensures
        crate::table::any_tall(table, column_widths(table, width)) <==> has_tall_row(table, width),
{
    let widths = column_widths(table, width);
    if crate::table::any_tall(table, widths) {
        let r = choose|r: int|
            0 <= r < table.rows.len() && height(
                row_cells(#[trigger] table.rows[r], widths, table.align),
            ) > 1;
        assert(row_height_at(table, width, r) > 1);
    }
    if has_tall_row(table, width) {
        let r = choose|r: int|
            0 <= r < table.rows.len() && #[trigger] row_height_at(table, width, r) > 1;
        assert(height(row_cells(table.rows[r], widths, table.align)) > 1);
    }
}

proof fn lemma_part_prefix(table: TableView, widths: Seq<nat>, m: nat, n: nat)
    requires
        m <= n,
    ensures
        table_part(table, widths, m).len() <= table_part(table, widths, n).len(),
        forall|i: int|
            0 <= i < table_part(table, widths, m).len() ==> #[trigger] table_part(
                table,
                widths,
                n,
            )[i] == table_part(table, widths, m)[i],
    decreases n,
{
    if m < n {
        lemma_part_prefix(table, widths, m, (n - 1) as nat);
    }
}

/// A row is as tall as its tallest cell, and takes one line at the least.
pub proof fn rows_are_as_tall_as_their_cells(all: Seq<Seq<LineView>>)
    ensures
        height(all) >= 1,
        forall|c: int| 0 <= c < all.len() ==> (#[trigger] all[c]).len() <= height(all),
        height(all) == 1 || exists|c: int|
            0 <= c < all.len() && (#[trigger] all[c]).len() == height(all),
    decreases all.len(),
{
    if all.len() > 0 {
        let front = all.drop_last();
        rows_are_as_tall_as_their_cells(front);
        assert forall|c: int| 0 <= c < all.len() implies (#[trigger] all[c]).len() <= height(
            all,
        ) by {
            if c < front.len() {
                assert(front[c] == all[c]);
            }
        }
        if height(all) > 1 {
            if all.last().len() > height(front) {
                assert(all[all.len() - 1].len() == height(all));
            } else {
                let c = choose|c: int|
                    0 <= c < front.len() && (#[trigger] front[c]).len() == height(front);
                assert(all[c].len() == height(all));
            }
        }
    }
}

/// A table has as many columns as its longest row or its alignments, whichever are
/// more.
pub proof fn tables_have_all_columns(table: TableView)
    ensures
        column_count(table) >= table.align.len(),
        forall|r: int| 0 <= r < table.rows.len() ==> (#[trigger] table.rows[r]).len()
            <= column_count(table),
        column_count(table) == table.align.len() || exists|r: int|
            0 <= r < table.rows.len() && (#[trigger] table.rows[r]).len() == column_count(table),
{
    lemma_longest(table.rows);
}

proof fn lemma_longest(rows: Seq<Seq<Seq<SpanView>>>)
    ensures
        forall|r: int| 0 <= r < rows.len() ==> (#[trigger] rows[r]).len() <= longest_row(rows),
        longest_row(rows) == 0 || exists|r: int|
            0 <= r < rows.len() && (#[trigger] rows[r]).len() == longest_row(rows),
    decreases rows.len(),
{
    if rows.len() > 0 {
        let front = rows.drop_last();
        lemma_longest(front);
        assert forall|r: int| 0 <= r < rows.len() implies (#[trigger] rows[r]).len()
            <= longest_row(rows) by {
            if r < front.len() {
                assert(front[r] == rows[r]);
            }
        }
        if longest_row(rows) > 0 {
            if rows.last().len() > longest_row(front) {
                assert(rows[rows.len() - 1].len() == longest_row(rows));
            } else {
                let r = choose|r: int|
                    0 <= r < front.len() && (#[trigger] front[r]).len() == longest_row(front);
                assert(rows[r].len() == longest_row(rows));
            }
        }
    }
}

/// A column is as wide as its widest cell.
pub proof fn columns_are_as_wide_as_their_cells(table: TableView, c: int)
    requires
        0 <= c < column_count(table),
    ensures
        natural_widths(table).len() == column_count(table),
        forall|r: int|
            0 <= r < table.rows.len() && c < table.rows[r].len() ==> spans_columns(
                #[trigger] table.rows[r][c],
            ) <= natural_widths(table)[c],
        natural_widths(table)[c] == 0 || exists|r: int|
            0 <= r < table.rows.len() && c < table.rows[r].len() && spans_columns(
                #[trigger] table.rows[r][c],
            ) == natural_widths(table)[c],
{
    lemma_natural(table.rows, c);
}

proof fn lemma_natural(rows: Seq<Seq<Seq<SpanView>>>, c: int)
    requires
        c >= 0,
    ensures
        forall|r: int|
            0 <= r < rows.len() && c < rows[r].len() ==> spans_columns(#[trigger] rows[r][c])
                <= natural_width(rows, c),
        natural_width(rows, c) == 0 || exists|r: int|
            0 <= r < rows.len() && c < rows[r].len() && spans_columns(#[trigger] rows[r][c])
                == natural_width(rows, c),
    decreases rows.len(),
{
    if rows.len() > 0 {
        let front = rows.drop_last();
        let last = rows.len() - 1;
        lemma_natural(front, c);
        assert forall|r: int| 0 <= r < rows.len() && c < rows[r].len() implies spans_columns(
            #[trigger] rows[r][c],
        ) <= natural_width(rows, c) by {
            if r < last {
                assert(front[r][c] == rows[r][c]);
            }
        }
        if natural_width(rows, c) > 0 {
            if c < rows.last().len() && spans_columns(rows.last()[c]) > natural_width(front, c) {
                assert(spans_columns(rows[last][c]) == natural_width(rows, c));
            } else {
                let r = choose|r: int|
                    0 <= r < front.len() && c < front[r].len() && spans_columns(
                        #[trigger] front[r][c],
                    ) == natural_width(front, c);
                assert(spans_columns(rows[r][c]) == natural_width(rows, c));
            }
        }
    }
}

proof fn lemma_edge_is_total(widths: Seq<nat>, n: nat)
    requires
        n <= widths.len(),
    ensures
        edge(widths, n) == total(widths.take(n as int)) + 3 * n,
    decreases n,
{
    if n > 0 {
        lemma_edge_is_total(widths, (n - 1) as nat);
        assert(widths.take(n as int).drop_last() =~= widths.take(n - 1));
    }
}

/// A table that fits is not shrunk: its columns are as wide as their cells.
pub proof fn tables_that_fit_are_not_shrunk(table: TableView, width: nat)
    requires
        edge(natural_widths(table), column_count(table)) + 1 <= width,
    ensures
        column_widths(table, width) == natural_widths(table),
{
    let natural = natural_widths(table);
    lemma_edge_is_total(natural, natural.len());
    assert(natural.take(natural.len() as int) =~= natural);
}

/// A table that does not fit is shrunk until it does, and no further, as far as its
/// columns allow; the widest ones are shrunk first, so that of two columns a shrunk one
/// is at most one narrower than any that could still be shrunk.
pub proof fn tables_are_shrunk_as_needed(widths: Seq<nat>, floors: Seq<nat>, budget: nat)
    requires
        floors.len() == widths.len(),
    ensures
        ({
            let s = shrunk(widths, floors, budget);
            &&& s.len() == widths.len()
            &&& total(widths) <= budget ==> s == widths
            &&& total(widths) > budget ==> total(s) >= budget
            &&& forall|i: int, j: int|
                0 <= i < widths.len() && 0 <= j < widths.len() && #[trigger] s[i] < widths[i]
                    && #[trigger] s[j] > floors[j] ==> s[j] <= s[i] + 1
        }),
    decreases total(widths),
{
    let s = shrunk(widths, floors, budget);
    lemma_widest(widths, floors, widths.len());
    lemma_widest_of_all(widths, floors, widths.len());
    if let Some(idx) = widest(widths, floors, widths.len()) {
        if total(widths) > budget {
            let less = widths.update(idx, (widths[idx] - 1) as nat);
            lemma_total_update(widths, idx, (widths[idx] - 1) as nat);
            tables_are_shrunk_as_needed(less, floors, budget);
            shrinking_keeps_to_the_budget(less, floors, budget);
            assert(s == shrunk(less, floors, budget));
            assert forall|i: int, j: int|
                0 <= i < widths.len() && 0 <= j < widths.len() && #[trigger] s[i] < widths[i]
                    && #[trigger] s[j] > floors[j] implies s[j] <= s[i] + 1 by {
                if i == idx && s[i] == less[i] {
                    assert(s[j] <= less[j]);
                    assert(widths[j] > floors[j]);
                    assert(widths[j] <= widths[idx]);
                }
            }
        }
    } else {
        assert forall|i: int| 0 <= i < widths.len() implies widths[i] <= #[trigger] floors[i] by {
            assert(widths[i] <= floors[i]);
        }
    }
}

/// The narrowest that the columns of a table can be: each as wide as its widest
/// character, or as its cells where they are narrower.
pub open spec fn least_columns(table: TableView) -> Seq<nat> {
    Seq::new(
        column_count(table),
        |c: int|
            if natural_widths(table)[c] > floor_width(table.rows, c) {
                floor_width(table.rows, c)
            } else {
                natural_widths(table)[c]
            },
    )
}

/// A table that does not fit is laid out over the whole width, where its columns can be
/// made as narrow, and no column is made narrower than it can be. Where there is no room
/// for any text, nothing is shrunk.
#[verifier::spinoff_prover]
#[verifier::rlimit(60)]
pub proof fn wide_tables_use_the_whole_width(table: TableView, width: nat)
    ensures
        ({
            let natural = natural_widths(table);
            let s = column_widths(table, width);
            let n = column_count(table);
            &&& s.len() == n
            &&& edge(natural, n) + 1 > width && edge(least_columns(table), n) + 1 <= width
                && width > 3 * n + 1 ==> edge(s, n) + 1 == width
            &&& edge(least_columns(table), n) + 1 > width > 3 * n + 1 ==> s == least_columns(
                table,
            )
            &&& width <= 3 * n + 1 ==> s == natural
            &&& forall|c: int|
                0 <= c < n ==> least_columns(table)[c] <= #[trigger] s[c] <= natural[c]
            &&& forall|i: int, j: int|
                0 <= i < n && 0 <= j < n && #[trigger] s[i] < natural[i] && #[trigger] s[j]
                    > floor_width(table.rows, j) ==> s[j] <= s[i] + 1
        }),
{
    let natural = natural_widths(table);
    let floors = crate::table::floor_widths(table);
    let least = least_columns(table);
    let s = column_widths(table, width);
    let n = column_count(table);
    lemma_column_widths_len(table, width);
    lemma_edge_is_total(natural, n);
    lemma_edge_is_total(s, n);
    lemma_edge_is_total(least, n);
    assert(natural.take(n as int) =~= natural);
    assert(s.take(n as int) =~= s);
    assert(least.take(n as int) =~= least);
    if width > 3 * n + 1 {
        let budget = (width - (3 * n + 1)) as nat;
        assert(s == shrunk(natural, floors, budget));
        tables_are_shrunk_as_needed(natural, floors, budget);
        shrinking_keeps_to_the_budget(natural, floors, budget);
        crate::table::lemma_total_ordered(least, s);
        if total(s) > budget {
            assert(s =~= least);
        }
        assert forall|i: int, j: int|
            0 <= i < n && 0 <= j < n && #[trigger] s[i] < natural[i] && #[trigger] s[j]
                > floor_width(table.rows, j) implies s[j] <= s[i] + 1 by {
            assert(floors[j] == floor_width(table.rows, j));
        }
    }
}

/// Widths add up.
pub proof fn widths_add_up(widths: Seq<nat>, w: nat)
    ensures
        total(Seq::empty()) == 0,
        total(widths.push(w)) == total(widths) + w,
{
    assert(widths.push(w).drop_last() =~= widths);
}

/// A column can be shrunk to its widest character, and to one column at the least.
pub proof fn columns_keep_their_characters(rows: Seq<Seq<Seq<SpanView>>>, c: int)
    requires
        c >= 0,
    ensures
        floor_width(rows, c) >= 1,
        forall|r: int, k: int, i: int|
            0 <= r < rows.len() && c < rows[r].len() && 0 <= k < rows[r][c].len() && 0 <= i
                < rows[r][c][k].content.len() ==> cells(#[trigger] rows[r][c][k].content[i])
                <= floor_width(rows, c),
        floor_width(rows, c) == 1 || exists|r: int, k: int, i: int|
            0 <= r < rows.len() && c < rows[r].len() && 0 <= k < rows[r][c].len() && 0 <= i
                < rows[r][c][k].content.len() && cells(#[trigger] rows[r][c][k].content[i])
                == floor_width(rows, c),
    decreases rows.len(),
{
    if rows.len() > 0 {
        let front = rows.drop_last();
        let last = rows.len() - 1;
        columns_keep_their_characters(front, c);
        let row = rows.last();
        if c < row.len() {
            lemma_spans_char(row[c]);
        }
        assert forall|r: int, k: int, i: int|
            0 <= r < rows.len() && c < rows[r].len() && 0 <= k < rows[r][c].len() && 0 <= i
                < rows[r][c][k].content.len() implies cells(#[trigger] rows[r][c][k].content[i])
            <= floor_width(rows, c) by {
            if r < last {
                assert(front[r][c][k].content[i] == rows[r][c][k].content[i]);
            } else {
                assert(row[c][k].content[i] == rows[r][c][k].content[i]);
            }
        }
        if floor_width(rows, c) > 1 {
            if c < row.len() && crate::table::spans_widest_char(row[c]) > floor_width(front, c) {
                let (k, i) = choose|k: int, i: int|
                    0 <= k < row[c].len() && 0 <= i < row[c][k].content.len() && cells(
                        #[trigger] row[c][k].content[i],
                    ) == crate::table::spans_widest_char(row[c]);
                assert(cells(rows[last][c][k].content[i]) == floor_width(rows, c));
            } else {
                let (r, k, i) = choose|r: int, k: int, i: int|
                    0 <= r < front.len() && c < front[r].len() && 0 <= k < front[r][c].len() && 0
                        <= i < front[r][c][k].content.len() && cells(
                        #[trigger] front[r][c][k].content[i],
                    ) == floor_width(front, c);
                assert(cells(rows[r][c][k].content[i]) == floor_width(rows, c));
            }
        }
    }
}

proof fn lemma_text_char(text: Seq<char>)
    ensures
        forall|i: int| 0 <= i < text.len() ==> cells(#[trigger] text[i]) <= widest_char(text),
        widest_char(text) == 0 || exists|i: int|
            0 <= i < text.len() && cells(#[trigger] text[i]) == widest_char(text),
    decreases text.len(),
{
    if text.len() > 0 {
        let front = text.drop_last();
        lemma_text_char(front);
        assert forall|i: int| 0 <= i < text.len() implies cells(#[trigger] text[i])
            <= widest_char(text) by {
            if i < front.len() {
                assert(front[i] == text[i]);
            }
        }
        if widest_char(text) > 0 {
            if cells(text.last()) > widest_char(front) {
                assert(cells(text[text.len() - 1]) == widest_char(text));
            } else {
                let i = choose|i: int|
                    0 <= i < front.len() && cells(#[trigger] front[i]) == widest_char(front);
                assert(cells(text[i]) == widest_char(text));
            }
        }
    }
}

proof fn lemma_spans_char(spans: Seq<SpanView>)
    ensures
        forall|k: int, i: int|
            0 <= k < spans.len() && 0 <= i < spans[k].content.len() ==> cells(
                #[trigger] spans[k].content[i],
            ) <= crate::table::spans_widest_char(spans),
        crate::table::spans_widest_char(spans) == 0 || exists|k: int, i: int|
            0 <= k < spans.len() && 0 <= i < spans[k].content.len() && cells(
                #[trigger] spans[k].content[i],
            ) == crate::table::spans_widest_char(spans),
    decreases spans.len(),
{
    if spans.len() > 0 {
        let front = spans.drop_last();
        let last = spans.len() - 1;
        let most = crate::table::spans_widest_char(spans);
        lemma_spans_char(front);
        lemma_text_char(spans.last().content);
        assert forall|k: int, i: int|
            0 <= k < spans.len() && 0 <= i < spans[k].content.len() implies cells(
            #[trigger] spans[k].content[i],
        ) <= most by {
            if k < last {
                assert(front[k].content[i] == spans[k].content[i]);
            } else {
                assert(spans.last().content[i] == spans[k].content[i]);
            }
        }
        if most > 0 {
            if widest_char(spans.last().content) > crate::table::spans_widest_char(front) {
                let i = choose|i: int|
                    0 <= i < spans.last().content.len() && cells(
                        #[trigger] spans.last().content[i],
                    ) == widest_char(spans.last().content);
                assert(cells(spans[last].content[i]) == most);
            } else {
                let (k, i) = choose|k: int, i: int|
                    0 <= k < front.len() && 0 <= i < front[k].content.len() && cells(
                        #[trigger] front[k].content[i],
                    ) == crate::table::spans_widest_char(front);
                assert(cells(spans[k].content[i]) == most);
            }
        }
    }
}

/// What a row shows of a cell on one of its lines: that line of the cell, or, below its
/// last one, as many spaces as the column is wide.
pub proof fn rows_show_the_lines_of_their_cells(
    table: TableView,
    width: nat,
    r: int,
    c: int,
    v: int,
)
    requires
        0 <= r < table.rows.len(),
        0 <= c < column_count(table),
        0 <= v < row_height_at(table, width, r),
    ensures
        ({
            let col_w = column_widths(table, width)[c];
            let cell = if c < table.rows[r].len() {
                table.rows[r][c]
            } else {
                Seq::empty()
            };
            let align = if c < table.align.len() {
                table.align[c]
            } else {
                Align::Unset
            };
            let lines = wrapped_cell(cell, col_w, align);
            let shown = column_segment(table, width, r, c, v);
            let spans = table_lines(table, width)[row_start(table, width, r) + v].spans;
            let before = spans[column_start(table, width, r, c, v) - 1];
            let behind = spans[column_end(table, width, r, c, v)];
            &&& column_start(table, width, r, 0, v) == 1
            &&& is_gray(before.style) && is_gray(behind.style)
            &&& before.content == if c == 0 {
                seq!['│', ' ']
            } else {
                seq![' ', '│', ' ']
            }
            &&& behind.content == if c + 1 == column_count(table) {
                seq![' ', '│']
            } else {
                seq![' ', '│', ' ']
            }
            &&& v < lines.len() ==> shown == lines[v].spans
            &&& v >= lines.len() ==> shown.len() == 1 && is_bare(shown[0].style)
                && shown[0].content == Seq::new(col_w, |i: int| ' ')
        }),
{
    rows_show_their_cells(table, width, r, c, v);
    let col_w = column_widths(table, width)[c];
    assert(repeated(' ', col_w) =~= Seq::new(col_w, |i: int| ' '));
    reveal_strlit("│ ");
    reveal_strlit(" │ ");
    reveal_strlit(" │");
    assert("│ "@ =~= seq!['│', ' ']);
    assert(" │ "@ =~= seq![' ', '│', ' ']);
    assert(" │"@ =~= seq![' ', '│']);
}

/// Some spaces as a span of their own, where there are any.
pub open spec fn blanks(n: int) -> Seq<SpanView> {
    if n <= 0 {
        Seq::empty()
    } else {
        seq![raw(Seq::new(n as nat, |i: int| ' '))]
    }
}

/// The lines of a cell are those of its text wrapped to the column, each filled up with
/// spaces: behind the text, before it in a column that is aligned right, and on both
/// sides in a centred one, where an odd space goes behind the text.
pub proof fn cells_are_aligned(
    cell: Seq<SpanView>,
    style: Style,
    col_w: nat,
    align: Align,
    i: int,
    left: int,
    right: int,
)
    requires
        is_bare(style),
        0 <= i < wrapped_line(LineView { spans: cell, style }, col_w).len(),
        left >= 0 && right >= 0,
        left + right == col_w - spans_columns(
            wrapped_line(LineView { spans: cell, style }, col_w)[i].spans,
        ),
        match align {
            Align::Right => right == 0,
            Align::Center => left <= right <= left + 1,
            _ => left == 0,
        },
    ensures
        ({
            let lines = wrapped_line(LineView { spans: cell, style }, col_w);
            let shown = wrapped_cell(cell, col_w, align);
            &&& shown.len() == lines.len()
            &&& shown[i].spans == blanks(left) + lines[i].spans + blanks(right)
            &&& shown[i].style == lines[i].style
        }),
{
    assert(style == crate::style::plain_style());
    let lines = wrapped_line(LineView { spans: cell, style }, col_w);
    let shown = wrapped_cell(cell, col_w, align);
    assert(repeated(' ', left as nat) =~= Seq::new(left as nat, |i: int| ' '));
    assert(repeated(' ', right as nat) =~= Seq::new(right as nat, |i: int| ' '));
    assert(shown[i].spans =~= blanks(left) + lines[i].spans + blanks(right));
}

/// The lines of a cell that fill the column are shown as they are.
pub proof fn full_lines_are_not_padded(
    cell: Seq<SpanView>,
    style: Style,
    col_w: nat,
    align: Align,
    i: int,
)
    requires
        is_bare(style),
        0 <= i < wrapped_line(LineView { spans: cell, style }, col_w).len(),
        spans_columns(wrapped_line(LineView { spans: cell, style }, col_w)[i].spans) >= col_w,
    ensures
        wrapped_cell(cell, col_w, align)[i] == wrapped_line(
            LineView { spans: cell, style },
            col_w,
        )[i],
{
    assert(style == crate::style::plain_style());
}

} // verus!
