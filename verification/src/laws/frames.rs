//! Frames: the text and its position, the outline, the picker, the status bar, and the
//! documents that they show.

use crate::app::{
    document_of, file_loaded, file_reloaded, heading_selected, new_picker, new_reader, reflowed,
    AppView, EntryView, Mode, PickerView,
};
use crate::document::{document_ok, is_table_line};
use crate::images::{cell_size, ImageView};
use crate::laws::inline::is_bare;
use crate::laws::screen::{larger, smaller};
use crate::markdown::{DocumentView, HeadingView};
use crate::page::{full_page, image_block, is_image_line, page, sized_image};
use crate::paths::display_name;
use crate::style::{Color, LineView, Style};
use crate::table::table_lines;
use crate::text::decimal;
use crate::ui::{
    at_most_u16, entry_line, is_searching, max_offset, outline, outline_offset, outline_visible,
    picker_status, prepared, scroll_positions, searched, shown_lines, status_text, titled,
};
use crate::wrap::wrapped_line;
use vstd::prelude::*;

verus! {

/// Before a frame the text is laid out for its area, but for one column for the
/// scrollbar, and only where it is not laid out for that already. It stays where it is,
/// unless its end would be above the bottom of the area.
pub proof fn frames_fit_their_area(a: AppView, x: u16, y: u16, w: u16, h: u16)
    ensures
        ({
            let b = prepared(a, x, y, w, h);
            let width = larger(w - 1, 0);
            let p = full_page(document_of(a), width as nat);
            &&& b.content_x == x && b.content_y == y && b.content_w == w
            &&& b.viewport == h
            &&& b.wrap_width == width
            &&& a.wrap_width == width ==> b.lines == a.lines && document_of(b) == document_of(a)
                && b.image_rows == a.image_rows
            &&& a.wrap_width != width ==> b.lines == p.lines && b.image_rows == p.image_rows
                && b.images == p.images && b.content == a.content && b.tables == a.tables
                && b.headings.len() == a.headings.len()
            &&& a.wrap_width != width ==> forall|i: int|
                0 <= i < a.headings.len() ==> #[trigger] b.headings[i] == (HeadingView {
                    line: p.offsets[a.headings[i].content_line as int],
                    ..a.headings[i]
                })
            &&& b.lines.len() <= usize::MAX ==> b.offset == smaller(
                a.offset as int,
                larger(b.lines.len() - h, 0),
            )
            &&& b == (AppView {
                content_x: x,
                content_y: y,
                content_w: w,
                viewport: b.viewport,
                wrap_width: b.wrap_width,
                lines: b.lines,
                headings: b.headings,
                images: b.images,
                image_rows: b.image_rows,
                offset: b.offset,
                ..a
            })
        }),
{
}

/// A layout gives the reader the page of its document, and leaves everything else as it
/// is.
pub proof fn layouts_give_the_page(a: AppView, width: nat)
    ensures
        ({
            let b = reflowed(a, width);
            let p = full_page(document_of(a), width);
            &&& b.lines == p.lines
            &&& b.images == p.images
            &&& b.image_rows == p.image_rows
            &&& b.headings.len() == a.headings.len()
            &&& forall|i: int|
                0 <= i < a.headings.len() ==> #[trigger] b.headings[i] == (HeadingView {
                    line: p.offsets[a.headings[i].content_line as int],
                    ..a.headings[i]
                })
            &&& b == (AppView {
                lines: b.lines,
                images: b.images,
                image_rows: b.image_rows,
                headings: b.headings,
                ..a
            })
        }),
{
}

proof fn lemma_page_grows(d: DocumentView, width: nat, n: nat, i: int)
    requires
        0 <= i < n,
    ensures
        page(d, width, n).offsets.len() == n,
        page(d, width, n).offsets[i] == page(d, width, i as nat).lines.len(),
    decreases n,
{
    crate::page::lemma_page_shape(d, width, n);
    crate::page::lemma_page_shape(d, width, (n - 1) as nat);
    if i < n - 1 {
        lemma_page_grows(d, width, (n - 1) as nat, i);
    }
}

/// The number of display lines of the content line `i`.
pub open spec fn lines_taken(d: DocumentView, width: nat, i: int) -> nat {
    let p = full_page(d, width);
    if i + 1 < d.content.len() {
        (p.offsets[i + 1] - p.offsets[i]) as nat
    } else {
        (p.lines.len() - p.offsets[i]) as nat
    }
}

/// A page begins at its first line and holds nothing but its content: text takes the
/// lines that it is wrapped to, a table those of its layout, and an image those of its
/// placeholder, and as many more as it has rows behind the first.
#[verifier::spinoff_prover]
#[verifier::rlimit(80)]
pub proof fn pages_hold_nothing_else(d: DocumentView, width: nat, i: int)
    requires
        document_ok(d),
        0 <= i < d.content.len(),
    ensures
        full_page(d, width).offsets[0] == 0,
        full_page(d, width).offsets.len() == d.content.len(),
        !is_image_line(d.images, i) && !is_table_line(d.tables, i) ==> lines_taken(d, width, i)
            == wrapped_line(d.content[i], width).len(),
        forall|k: int|
            0 <= k < d.tables.len() && (#[trigger] d.tables[k]).content_line == i ==> lines_taken(
                d,
                width,
                i,
            ) == table_lines(d.tables[k], width).len(),
        forall|k: int|
            0 <= k < d.images.len() && (#[trigger] d.images[k]).content_line == i ==> lines_taken(
                d,
                width,
                i,
            ) == wrapped_line(d.content[i], width).len() + larger(
                cell_size(d.images[k].dims, width).1 - 1,
                0,
            ),
{
    let n = d.content.len();
    lemma_page_grows(d, width, n, 0);
    lemma_page_grows(d, width, n, i);
    if i + 1 < n {
        lemma_page_grows(d, width, n, i + 1);
    }
    let p = page(d, width, i as nat);
    let q = page(d, width, (i + 1) as nat);
    assert(lines_taken(d, width, i) == q.lines.len() - p.lines.len());
    crate::page::lemma_page(d, width, i as nat);
    crate::page::lemma_page(d, width, (i + 1) as nat);
    let img = p.image_rows.len() as int;
    let tbl = p.tables_done as int;
    assert forall|k: int|
        0 <= k < d.images.len() && (#[trigger] d.images[k]).content_line == i implies k == img by {
        if k < img {
            assert(p.image_rows[k] == (k as nat, p.offsets[d.images[k].content_line as int]));
        } else if k > img {
            assert(d.images[img].content_line < d.images[k].content_line);
        }
    }
    assert forall|k: int|
        0 <= k < d.tables.len() && (#[trigger] d.tables[k]).content_line == i implies k == tbl by {
        if k < tbl {
            assert(d.tables[k].content_line < i);
        } else if k > tbl {
            assert(d.tables[tbl].content_line < d.tables[k].content_line);
        }
    }
    let is_image = img < d.images.len() && d.images[img].content_line == i;
    let is_table = tbl < d.tables.len() && d.tables[tbl].content_line == i;
    if is_table {
        assert(d.content[i].spans.len() == 0);
        if is_image {
            assert(d.content[i].spans.len() > 0);
        }
    }
    if is_image {
        assert(is_image_line(d.images, i));
    } else if is_table {
        assert(is_table_line(d.tables, i));
    }
}

/// The room of an image: its placeholder, and empty lines below.
pub proof fn images_get_empty_lines(line: LineView, img: ImageView, width: nat, k: int)
    requires
        0 <= k < image_block(line, img, width).len(),
    ensures
        ({
            let block = image_block(line, img, width);
            let head = wrapped_line(line, width);
            &&& block.len() == head.len() + larger(cell_size(img.dims, width).1 - 1, 0)
            &&& k < head.len() ==> block[k] == head[k]
            &&& k >= head.len() ==> block[k].spans.len() == 0 && is_bare(block[k].style)
        }),
{
}

/// An image is as wide as the page leaves room for, between ten and sixty columns, but
/// no wider than its pixels, and as tall as keeps its proportions, between three and
/// thirty rows, where a row is as tall as two columns are wide.
pub proof fn images_keep_their_proportions(w: u32, h: u32, width: nat)
    requires
        w > 0,
        h > 0,
    ensures
        ({
            let (cw, ch) = cell_size(Some((w, h)), width);
            let room = smaller(larger(width - 4, 10), 60);
            &&& cw == smaller(room, w as int)
            &&& 3 <= ch <= 30
            &&& ch > 3 ==> 2 * w * (2 * ch - 1) <= 2 * cw * h
            &&& ch < 30 ==> 2 * cw * h < 2 * w * (2 * ch + 1)
        }),
        cell_size(Some((0, h)), width) == (0nat, 0nat),
        cell_size(Some((w, 0)), width) == (0nat, 0nat),
        cell_size(None, width) == (0nat, 0nat),
{
    let (cw, ch) = cell_size(Some((w, h)), width);
    let n = cw * h as nat;
    let d = 2 * w as nat;
    let q = (2 * n + d) / (2 * d);
    vstd::arithmetic::div_mod::lemma_fundamental_div_mod((2 * n + d) as int, (2 * d) as int);
    vstd::arithmetic::div_mod::lemma_mod_bound((2 * n + d) as int, (2 * d) as int);
    assert(2 * d * q <= 2 * n + d < 2 * d * q + 2 * d);
    assert(2 * w * (2 * q - 1) == 2 * d * q - d) by (nonlinear_arith)
        requires
            d == 2 * w,
    ;
    assert(2 * w * (2 * q + 1) == 2 * d * q + d) by (nonlinear_arith)
        requires
            d == 2 * w,
    ;
    assert(2 * cw * h == 2 * n) by (nonlinear_arith)
        requires
            n == cw * h,
    ;
    if ch > 3 && ch < q {
        assert(2 * w * (2 * ch - 1) <= 2 * w * (2 * q - 1)) by (nonlinear_arith)
            requires
                ch <= q,
        ;
    }
    if ch < 30 && ch > q {
        assert(2 * w * (2 * q + 1) <= 2 * w * (2 * ch + 1)) by (nonlinear_arith)
            requires
                q <= ch,
        ;
    }
}

/// An image on a page has that size, and is otherwise as it was.
pub proof fn images_are_sized_for_the_page(img: ImageView, width: nat)
    ensures
        sized_image(img, width).cw == cell_size(img.dims, width).0,
        sized_image(img, width).ch == cell_size(img.dims, width).1,
        sized_image(img, width) == (ImageView {
            cw: sized_image(img, width).cw,
            ch: sized_image(img, width).ch,
            ..img
        }),
{
    match img.dims {
        Some((w, h)) => {
            if w > 0 && h > 0 {
                crate::images::cell_sizes_are_bounded(w, h, width);
            }
        },
        None => {},
    }
}

/// The outline shows every heading on a line of its own, indented by its level, in its
/// colour, and marks the selected one, and only this.
pub proof fn outlines_show_all_headings(a: AppView, i: int)
    requires
        0 <= i < a.headings.len(),
        a.headings[i].level > 0,
    ensures
        ({
            let h = a.headings[i];
            let line = outline(a)[i];
            let indent = Seq::new((2 * (h.level - 1)) as nat, |j: int| ' ');
            let mark = if i == a.selected {
                seq!['▸', ' ']
            } else {
                seq![' ', ' ']
            };
            &&& outline(a).len() == a.headings.len()
            &&& line.spans.len() == 2
            &&& line.spans[0].content == mark
            &&& line.spans[0].style.fg == Some(
                if i == a.selected {
                    Color::Yellow
                } else {
                    Color::DarkGray
                },
            )
            &&& line.spans[1].content == indent + h.title
            &&& line.spans[1].style.fg == Some(
                match h.level {
                    1 => Color::Yellow,
                    2 => Color::Green,
                    _ => Color::Cyan,
                },
            )
            &&& is_bare(Style { fg: None, ..line.spans[0].style })
            &&& is_bare(Style { fg: None, ..line.spans[1].style })
            &&& line.style.bg == if i == a.selected {
                Some(Color::DarkGray)
            } else {
                None
            }
            &&& is_bare(Style { bg: None, ..line.style })
        }),
{
    reveal_strlit("▸ ");
    reveal_strlit("  ");
    assert("▸ "@ =~= seq!['▸', ' ']);
    assert("  "@ =~= seq![' ', ' ']);
    lemma_indent((a.headings[i].level - 1) as nat);
}

proof fn lemma_indent(depth: nat)
    ensures
        crate::text::repeated_text("  "@, depth) == Seq::new(2 * depth, |i: int| ' '),
    decreases depth,
{
    reveal_strlit("  ");
    if depth > 0 {
        lemma_indent((depth - 1) as nat);
    }
    assert(crate::text::repeated_text("  "@, depth) =~= Seq::new(2 * depth, |i: int| ' '));
}

/// The outline stands beside the text where it is asked for and there are headings.
pub proof fn outlines_need_headings(a: AppView)
    ensures
        outline_visible(a) <==> (a.show_outline && a.headings.len() > 0),
        crate::ui::outline_columns(a) == if a.show_outline && a.headings.len() > 0 {
            24u16
        } else {
            0u16
        },
{
}

/// The outline is scrolled no further than its end, and keeps the selected heading in
/// the middle where there are enough headings above and below.
pub proof fn outlines_are_centred(a: AppView, height: nat)
    ensures
        a.headings.len() <= height ==> outline_offset(a, height) == 0,
        a.headings.len() > height ==> outline_offset(a, height) + height <= a.headings.len(),
        a.selected <= height / 2 ==> outline_offset(a, height) == 0,
        height / 2 <= a.selected && a.selected - height / 2 + height <= a.headings.len()
            ==> outline_offset(a, height) == a.selected - height / 2,
        a.selected - height / 2 + height > a.headings.len() > height ==> outline_offset(a, height)
            + height == a.headings.len(),
{
}

/// The text can be scrolled until its last line is at the bottom of the screen.
pub proof fn texts_are_scrolled_to_their_end(a: AppView, n: nat)
    ensures
        a.lines.len() >= a.viewport ==> max_offset(a) + a.viewport == a.lines.len(),
        a.lines.len() < a.viewport ==> max_offset(a) == 0,
        n <= 0xffff ==> at_most_u16(n) == n,
        n > 0xffff ==> at_most_u16(n) == 0xffff,
{
}

/// The scrollbar has a position for every offset, and a title has a space on each side.
pub proof fn scrollbars_have_all_positions(a: AppView, text: Seq<char>)
    ensures
        a.lines.len() < usize::MAX ==> scroll_positions(a) == larger(
            a.lines.len() - a.viewport,
            0,
        ) + 1,
        titled(text) == seq![' '] + text + seq![' '],
{
    reveal_strlit(" ");
    assert(" "@ =~= seq![' ']);
}

/// Only a search with a query looks for matches; otherwise the text is shown as it is.
pub proof fn only_searches_mark_lines(a: AppView)
    ensures
        is_searching(a) <==> (a.mode == Mode::Search && a.query.len() > 0),
        !is_searching(a) ==> searched(a) == a && shown_lines(a) == a.lines,
        searched(a) == (AppView { matches: searched(a).matches, ..a }),
        is_searching(a) && a.lines.len() <= usize::MAX ==> shown_lines(a).len() == a.lines.len(),
{
    if is_searching(a) && a.lines.len() <= usize::MAX {
        crate::ui::searches_find_the_query(a);
        crate::ui::lemma_shown_len(a);
    }
}

/// The status bar of a search shows the query and the number of its matches.
pub proof fn status_bars_show_the_search(a: AppView)
    ensures
        a.mode == Mode::Search ==> status_text(a) == "search: "@ + a.query + " ("@ + decimal(
            a.matches.len(),
        ) + ") · Enter jump · Esc cancel"@,
        a.mode != Mode::Search && a.show_outline ==> status_text(a)
            == "↑/↓ j/k select & jump · Enter/→ jump · o/Tab toggle · / search · p open · e edit · q quit"@,
        a.mode != Mode::Search && !a.show_outline ==> status_text(a)
            == "↑/↓ j/k scroll · PgUp/PgDn space page · o/Tab outline · / search · p open · e edit · g/G top/bottom · q quit"@,
{
}

/// The status bar of the picker tells whether hidden entries are shown.
pub proof fn picker_bars_tell_of_hidden_entries(p: PickerView)
    ensures
        picker_status(p) == "↑/↓ j/k select · Enter open · Backspace/Esc up · h hidden:"@ + (
        if p.show_hidden {
            "on"@
        } else {
            "off"@
        }) + " · q quit"@,
{
}

/// Whether a text ends with another one.
pub open spec fn is_at_the_end(s: Seq<char>, end: Seq<char>) -> bool {
    end.len() <= s.len() && s.subrange(s.len() - end.len(), s.len() as int) == end
}

/// An entry of the picker is one span: a directory has an arrow and a slash and is cyan,
/// a markdown file is green, and any other file plain.
pub proof fn entries_show_what_they_are(e: EntryView)
    ensures
        ({
            let line = entry_line(e);
            let span = line.spans[0];
            let is_md = is_at_the_end(e.name, seq!['.', 'm', 'd']) || is_at_the_end(
                e.name,
                seq!['.', 'm', 'a', 'r', 'k', 'd', 'o', 'w', 'n'],
            );
            &&& line.spans.len() == 1
            &&& is_bare(line.style)
            &&& is_bare(Style { fg: None, ..span.style })
            &&& e.is_dir ==> span.content == seq!['▸', ' '] + e.name + seq!['/'] && span.style.fg
                == Some(Color::Cyan)
            &&& !e.is_dir ==> span.content == e.name
            &&& !e.is_dir && is_md ==> span.style.fg == Some(Color::Green)
            &&& !e.is_dir && !is_md ==> span.style.fg is None
        }),
{
    reveal_strlit("▸ ");
    reveal_strlit("/");
    reveal_strlit(".md");
    reveal_strlit(".markdown");
    assert("▸ "@ =~= seq!['▸', ' ']);
    assert("/"@ =~= seq!['/']);
    assert(".md"@ =~= seq!['.', 'm', 'd']);
    assert(".markdown"@ =~= seq!['.', 'm', 'a', 'r', 'k', 'd', 'o', 'w', 'n']);
    assert forall|end: Seq<char>| #[trigger] is_at_the_end(e.name, end) == crate::text::ends_with(
        e.name,
        end,
    ) by {
        if end.len() <= e.name.len() {
            assert(e.name.skip(e.name.len() - end.len()) =~= e.name.subrange(
                e.name.len() - end.len(),
                e.name.len() as int,
            ));
        }
    }
}

/// A reader begins at the top of its document, with the outline and without a layout.
pub proof fn readers_begin_at_the_top(d: DocumentView, filename: Seq<char>, cwd: Seq<char>)
    ensures
        ({
            let a = new_reader(d, filename);
            &&& document_of(a) == d
            &&& a.filename == filename
            &&& a.offset == 0 && a.selected == 0 && a.viewport == 0
            &&& a.show_outline
            &&& a.mode == Mode::Reader
            &&& a.wrap_width == usize::MAX
            &&& a.lines.len() == 0 && a.image_rows.len() == 0
            &&& a.query.len() == 0 && a.matches.len() == 0
            &&& a.status_msg is None
            &&& a.image_placed.len() == d.images.len()
            &&& forall|i: int| 0 <= i < d.images.len() ==> !#[trigger] a.image_placed[i]
        }),
        ({
            let p = new_picker(cwd);
            &&& p.cwd == cwd && p.start == cwd
            &&& p.entries.len() == 0 && p.selected == 0
            &&& !p.from_reader && !p.show_hidden
        }),
{
}

/// Another file is shown from its top, as by a new reader; what was typed and found, and
/// the picker, stay.
pub proof fn other_files_begin_at_the_top(a: AppView, d: DocumentView, path: Seq<char>)
    ensures
        ({
            let b = file_loaded(a, d, path);
            let fresh = new_reader(d, display_name(path));
            &&& b.path == path
            &&& b == (AppView {
                path: b.path,
                query: a.query,
                matches: a.matches,
                picker: a.picker,
                content_x: a.content_x,
                content_y: a.content_y,
                content_w: a.content_w,
                status_msg: a.status_msg,
                ..fresh
            })
        }),
{
}

/// A new reading of the file is laid out anew and keeps the position; the selection
/// stays, as far as there are headings.
pub proof fn new_readings_are_laid_out_anew(a: AppView, d: DocumentView)
    requires
        d.headings.len() <= usize::MAX,
    ensures
        ({
            let b = file_reloaded(a, d);
            &&& document_of(b) == d
            &&& b.wrap_width == usize::MAX
            &&& b.lines.len() == 0 && b.image_rows.len() == 0
            &&& b.image_placed.len() == d.images.len()
            &&& forall|i: int| 0 <= i < d.images.len() ==> !#[trigger] b.image_placed[i]
            &&& b.filename == display_name(a.path)
            &&& b.selected == smaller(a.selected as int, larger(d.headings.len() - 1, 0))
            &&& b == (AppView {
                content: b.content,
                headings: b.headings,
                images: b.images,
                tables: b.tables,
                image_placed: b.image_placed,
                image_rows: b.image_rows,
                lines: b.lines,
                wrap_width: b.wrap_width,
                selected: b.selected,
                filename: b.filename,
                ..a
            })
        }),
{
}

/// A heading is selected together with the line where it starts, the last one at most.
pub proof fn headings_are_selected_with_their_lines(a: AppView, idx: usize)
    requires
        a.headings.len() <= usize::MAX,
        forall|i: int| 0 <= i < a.headings.len() ==> (#[trigger] a.headings[i]).line <= usize::MAX,
    ensures
        ({
            let b = heading_selected(a, idx);
            let i = smaller(idx as int, a.headings.len() - 1);
            &&& a.headings.len() == 0 ==> b == a
            &&& a.headings.len() > 0 ==> b.selected == i && b.offset == a.headings[i].line && b
                == (AppView { selected: b.selected, offset: b.offset, ..a })
        }),
{
    assert forall|i: int| 0 <= i < a.headings.len() implies a.headings[i].line as usize
        == #[trigger] a.headings[i].line by {}
}

} // verus!
