//! The display lines of a document: wrapped text, tables, and room for images.

use crate::document::{document_ok, images_ok, is_table_line, tables_ok};
use crate::images::{cell_size, image_cell_size, Image, ImageView};
use crate::markdown::{DocumentView, HeadingView};
use crate::style::{empty_line, spans_text, Line, LineView};
use crate::table::{
    column_count, is_regular_table, least_width, render_table, table_lines,
    table_lines_keep_the_width, Table,
};
use crate::wrap::{
    line_cells, spans_no_wider, wrap_line, wrapped_line, wrapped_lines_keep_the_width,
    wrapping_gives_a_line,
};
use vstd::prelude::*;

verus! {

/// The display lines of a document, or of the first of its content lines.
#[verifier::ext_equal]
pub struct PageView {
    pub lines: Seq<LineView>,
    /// Where the display lines of each content line start.
    pub offsets: Seq<nat>,
    /// The images, with their sizes in cells.
    pub images: Seq<ImageView>,
    /// The images, by their positions, and the display lines that they start at.
    pub image_rows: Seq<(nat, nat)>,
    /// How many tables were laid out.
    pub tables_done: nat,
}

/// `n` empty lines.
pub open spec fn empty_lines(n: nat) -> Seq<LineView> {
    Seq::new(n, |i: int| empty_line())
}

/// An image with its size on a page of the given width.
pub open spec fn sized_image(img: ImageView, width: nat) -> ImageView {
    let size = cell_size(img.dims, width);
    ImageView { cw: size.0 as u16, ch: size.1 as u16, ..img }
}

/// The display lines of an image: the line that stands for it, and empty ones
/// down to the height of the image.
pub open spec fn image_block(line: LineView, img: ImageView, width: nat) -> Seq<LineView> {
    let ch = cell_size(img.dims, width).1;
    wrapped_line(line, width) + empty_lines(if ch > 0 {
        (ch - 1) as nat
    } else {
        0
    })
}

/// The page of the first `n` content lines of a document.
pub open spec fn page(d: DocumentView, width: nat, n: nat) -> PageView
    decreases n,
{
    if n == 0 {
        PageView {
            lines: Seq::empty(),
            offsets: Seq::empty(),
            images: d.images,
            image_rows: Seq::empty(),
            tables_done: 0,
        }
    } else {
        let p = page(d, width, (n - 1) as nat);
        let line = d.content[n - 1];
        let offsets = p.offsets.push(p.lines.len());
        let img = p.image_rows.len();
        let tbl = p.tables_done;
        if img < d.images.len() && d.images[img as int].content_line == n - 1 {
            PageView {
                lines: p.lines + image_block(line, d.images[img as int], width),
                offsets,
                images: p.images.update(img as int, sized_image(p.images[img as int], width)),
                image_rows: p.image_rows.push((img, p.lines.len())),
                tables_done: tbl,
            }
        } else if tbl < d.tables.len() && d.tables[tbl as int].content_line == n - 1 {
            PageView {
                lines: p.lines + table_lines(d.tables[tbl as int], width),
                offsets,
                tables_done: tbl + 1,
                ..p
            }
        } else {
            PageView { lines: p.lines + wrapped_line(line, width), offsets, ..p }
        }
    }
}

/// The whole page of a document.
pub open spec fn full_page(d: DocumentView, width: nat) -> PageView {
    page(d, width, d.content.len())
}

/// The headings with the display lines that they start at.
pub open spec fn placed_headings(headings: Seq<HeadingView>, offsets: Seq<nat>) -> Seq<
    HeadingView,
> {
    Seq::new(
        headings.len(),
        |i: int|
            HeadingView { line: offsets[headings[i].content_line as int], ..headings[i] },
    )
}

/// The display lines of a document.
pub struct Page {
    pub lines: Vec<Line>,
    pub offsets: Vec<usize>,
    pub image_rows: Vec<(usize, usize)>,
}

/// Positions as natural numbers.
pub open spec fn positions(v: Seq<usize>) -> Seq<nat> {
    Seq::new(v.len(), |i: int| v[i] as nat)
}

/// Pairs of positions as natural numbers.
pub open spec fn position_pairs(v: Seq<(usize, usize)>) -> Seq<(nat, nat)> {
    Seq::new(v.len(), |i: int| (v[i].0 as nat, v[i].1 as nat))
}

/// Lays out a document for a page of `width` columns, and sets the sizes of its
/// images.
pub fn lay_out(
    content: &Vec<Line>,
    images: &mut Vec<Image>,
    tables: &Vec<Table>,
    width: usize,
) -> (r: Page)
    ensures
        ({
            let d = DocumentView {
                content: content.deep_view(),
                headings: Seq::empty(),
                images: old(images).deep_view(),
                tables: tables.deep_view(),
            };
            let p = full_page(d, width as nat);
            &&& r.lines.deep_view() == p.lines
            &&& positions(r.offsets@) == p.offsets
            &&& final(images).deep_view() == p.images
            &&& position_pairs(r.image_rows@) == p.image_rows
        }),
{
    let ghost d = DocumentView {
        content: content.deep_view(),
        headings: Seq::empty(),
        images: images.deep_view(),
        tables: tables.deep_view(),
    };
    let ghost w = width as nat;
    let mut lines: Vec<Line> = Vec::new();
    let mut offsets: Vec<usize> = Vec::new();
    let mut image_rows: Vec<(usize, usize)> = Vec::new();
    let mut tables_done: usize = 0;
    let mut i: usize = 0;
    assert(lines.deep_view() =~= page(d, w, 0).lines);
    assert(positions(offsets@) =~= page(d, w, 0).offsets);
    assert(position_pairs(image_rows@) =~= page(d, w, 0).image_rows);
    while i < content.len()
        invariant
            i <= content@.len(),
            w == width,
            d.content == content.deep_view(),
            d.tables == tables.deep_view(),
            d.images.len() == images@.len(),
            image_rows@.len() <= images@.len(),
            tables_done <= tables@.len(),
            lines.deep_view() == page(d, w, i as nat).lines,
            positions(offsets@) == page(d, w, i as nat).offsets,
            images.deep_view() == page(d, w, i as nat).images,
            position_pairs(image_rows@) == page(d, w, i as nat).image_rows,
            tables_done == page(d, w, i as nat).tables_done,
            forall|j: int|
                #![trigger d.images[j]]
                0 <= j < d.images.len() ==> images@[j].content_line == d.images[j].content_line
                    && images@[j].dims == d.images[j].dims,
        decreases content@.len() - i,
    {
        let ghost p = page(d, w, i as nat);
        let ghost next = page(d, w, (i + 1) as nat);
        let ghost lines_before = lines.deep_view();
        assert(content.deep_view()[i as int] == content[i as int].deep_view());
        offsets.push(lines.len());
        assert(lines.deep_view().len() == lines@.len());
        assert(positions(offsets@) =~= p.offsets.push(p.lines.len()));
        let img = image_rows.len();
        assert(position_pairs(image_rows@).len() == img);
        assert(img < d.images.len() ==> images@[img as int].content_line
            == d.images[img as int].content_line);
        assert(tables_done < tables@.len() ==> d.tables[tables_done as int]
            == tables@[tables_done as int].deep_view());
        if img < images.len() && images[img].content_line == i {
            let (cw, ch) = image_cell_size(&images[img], width);
            let ghost images_before = images.deep_view();
            assert(images.deep_view()[img as int] == images@[img as int].deep_view());
            images[img].cw = cw;
            images[img].ch = ch;
            assert(images.deep_view() =~= images_before.update(
                img as int,
                sized_image(images_before[img as int], w),
            ));
            image_rows.push((img, lines.len()));
            assert(position_pairs(image_rows@) =~= p.image_rows.push(
                (img as nat, p.lines.len()),
            ));
            let mut block = wrap_line(&content[i], width);
            append_lines(&mut lines, &mut block);
            append_empty(&mut lines, if ch > 0 {
                ch - 1
            } else {
                0
            });
            assert(lines.deep_view() =~= lines_before + image_block(
                d.content[i as int],
                d.images[img as int],
                w,
            ));
        } else if tables_done < tables.len() && tables[tables_done].content_line == i {
            let mut block = render_table(&tables[tables_done], width);
            append_lines(&mut lines, &mut block);
            tables_done += 1;
        } else {
            let mut block = wrap_line(&content[i], width);
            append_lines(&mut lines, &mut block);
        }
        i += 1;
    }
    assert(content.deep_view().len() == content@.len());
    Page { lines, offsets, image_rows }
}

/// Moves the lines of `more` behind those of `lines`.
fn append_lines(lines: &mut Vec<Line>, more: &mut Vec<Line>)
    ensures
        final(lines).deep_view() == old(lines).deep_view() + old(more).deep_view(),
{
    lines.append(more);
    assert(lines.deep_view() =~= old(lines).deep_view() + old(more).deep_view());
}

/// Appends `n` empty lines.
fn append_empty(lines: &mut Vec<Line>, n: u16)
    ensures
        final(lines).deep_view() == old(lines).deep_view() + empty_lines(n as nat),
{
    let ghost before = lines.deep_view();
    let mut i: u16 = 0;
    assert(lines.deep_view() =~= before + empty_lines(0));
    while i < n
        invariant
            i <= n,
            lines.deep_view() == before + empty_lines(i as nat),
        decreases n - i,
    {
        let ghost so_far = lines.deep_view();
        lines.push(Line::empty());
        assert(lines.deep_view() =~= so_far.push(empty_line()));
        i += 1;
        assert(lines.deep_view() =~= before + empty_lines(i as nat));
    }
}

/// The page of a document does not depend on its headings.
pub proof fn lemma_headings_do_not_matter(a: DocumentView, b: DocumentView, width: nat, n: nat)
    requires
        a.content == b.content,
        a.images == b.images,
        a.tables == b.tables,
    ensures
        page(a, width, n) == page(b, width, n),
    decreases n,
{
    if n > 0 {
        lemma_headings_do_not_matter(a, b, width, (n - 1) as nat);
    }
}

/// A page has an offset for each content line, all images with their PNGs, and
/// rows of images that there are.
pub proof fn lemma_page_shape(d: DocumentView, width: nat, n: nat)
    ensures
        page(d, width, n).offsets.len() == n,
        page(d, width, n).images.len() == d.images.len(),
        forall|k: int|
            0 <= k < d.images.len() ==> (#[trigger] page(d, width, n).images[k]).png
                == d.images[k].png,
        forall|k: int|
            0 <= k < page(d, width, n).image_rows.len() ==> (#[trigger] page(
                d,
                width,
                n,
            ).image_rows[k]).0 < d.images.len(),
    decreases n,
{
    if n > 0 {
        lemma_page_shape(d, width, (n - 1) as nat);
    }
}

/// Whether a block of lines stands in a page from the line `at` on.
pub open spec fn shown_at(lines: Seq<LineView>, at: nat, block: Seq<LineView>) -> bool {
    at + block.len() <= lines.len() && lines.subrange(at as int, (at + block.len()) as int) == block
}

/// Whether a line stands for an image.
pub open spec fn is_image_line(images: Seq<ImageView>, line: int) -> bool {
    exists|i: int| 0 <= i < images.len() && (#[trigger] images[i]).content_line == line
}

/// How many lines an image of some height takes: at least the one that stands for
/// it.
pub open spec fn rows_taken(ch: u16) -> nat {
    if ch > 0 {
        ch as nat
    } else {
        1
    }
}

/// Every content line is shown, in order: the line of an image with the room that
/// the image takes, the line of a table as that table, any other one wrapped.
pub open spec fn page_ok(d: DocumentView, width: nat, p: PageView, n: nat) -> bool {
    &&& p.offsets.len() == n
    &&& forall|i: int| 0 <= i < n ==> #[trigger] p.offsets[i] < p.lines.len()
    &&& forall|i: int, j: int| 0 <= i < j < n ==> #[trigger] p.offsets[i] < #[trigger] p.offsets[j]
    &&& p.images.len() == d.images.len()
    &&& p.image_rows.len() <= d.images.len()
    &&& p.tables_done <= d.tables.len()
    &&& forall|k: int|
        0 <= k < p.image_rows.len() ==> {
            &&& #[trigger] p.image_rows[k] == (
                k as nat,
                p.offsets[d.images[k].content_line as int],
            )
            &&& d.images[k].content_line < n
            &&& p.images[k] == sized_image(d.images[k], width)
            &&& p.image_rows[k].1 + rows_taken(p.images[k].ch) <= p.lines.len()
            &&& shown_at(
                p.lines,
                p.image_rows[k].1,
                image_block(d.content[d.images[k].content_line as int], d.images[k], width),
            )
        }
    &&& forall|k: int, l: int|
        0 <= k < l < p.image_rows.len() ==> (#[trigger] p.image_rows[k]).1 + rows_taken(
            p.images[k].ch,
        ) <= (#[trigger] p.image_rows[l]).1
    &&& forall|k: int|
        0 <= k < p.tables_done ==> {
            &&& (#[trigger] d.tables[k]).content_line < n
            &&& shown_at(
                p.lines,
                p.offsets[d.tables[k].content_line as int],
                table_lines(d.tables[k], width),
            )
        }
    &&& forall|i: int|
        0 <= i < n && !is_image_line(d.images, i) && !is_table_line(d.tables, i) ==> shown_at(
            p.lines,
            #[trigger] p.offsets[i],
            wrapped_line(d.content[i], width),
        )
}

proof fn lemma_shown_longer(
    lines: Seq<LineView>,
    more: Seq<LineView>,
    at: nat,
    block: Seq<LineView>,
)
    requires
        shown_at(lines, at, block),
    ensures
        shown_at(lines + more, at, block),
{
    assert((lines + more).subrange(at as int, (at + block.len()) as int) =~= lines.subrange(
        at as int,
        (at + block.len()) as int,
    ));
}

#[verifier::spinoff_prover]
proof fn lemma_block(d: DocumentView, width: nat, n: nat)
    requires
        images_ok(d.content, d.images),
        tables_ok(d.content, d.tables),
        n < d.content.len(),
        page_ok(d, width, page(d, width, n), n),
        page(d, width, n).image_rows.len() < d.images.len() ==> d.images[page(
            d,
            width,
            n,
        ).image_rows.len() as int].content_line >= n,
        page(d, width, n).tables_done < d.tables.len() ==> d.tables[page(
            d,
            width,
            n,
        ).tables_done as int].content_line >= n,
    ensures
        page_ok(d, width, page(d, width, n + 1), n + 1),
        page(d, width, n + 1).image_rows.len() < d.images.len() ==> d.images[page(
            d,
            width,
            n + 1,
        ).image_rows.len() as int].content_line >= n + 1,
        page(d, width, n + 1).tables_done < d.tables.len() ==> d.tables[page(
            d,
            width,
            n + 1,
        ).tables_done as int].content_line >= n + 1,
{
    let p = page(d, width, n);
    let q = page(d, width, n + 1);
    let line = d.content[n as int];
    let img = p.image_rows.len() as int;
    let tbl = p.tables_done as int;
    wrapping_gives_a_line(line, width);
    let block = q.lines.skip(p.lines.len() as int);
    assert(q.lines =~= p.lines + block);
    assert(block.len() > 0 && shown_at(q.lines, p.lines.len(), block)) by {
        assert(q.lines.subrange(p.lines.len() as int, q.lines.len() as int) =~= block);
    }
    let is_image = img < d.images.len() && d.images[img].content_line == n;
    let is_table = !is_image && tbl < d.tables.len() && d.tables[tbl].content_line == n;
    if is_image {
        assert(block =~= image_block(line, d.images[img], width));
        assert(d.content[n as int].spans.len() > 0);
        if tbl < d.tables.len() {
            assert(d.content[d.tables[tbl].content_line as int] == empty_line());
        }
    } else if is_table {
        assert(block =~= table_lines(d.tables[tbl], width));
    } else {
        assert(block =~= wrapped_line(line, width));
    }
    assert(q.offsets == p.offsets.push(p.lines.len()));
    assert forall|i: int| 0 <= i < n + 1 implies #[trigger] q.offsets[i] < q.lines.len() by {
        if i < n {
            assert(q.offsets[i] == p.offsets[i]);
        }
    }
    assert forall|i: int, j: int| 0 <= i < j < n + 1 implies #[trigger] q.offsets[i]
        < #[trigger] q.offsets[j] by {
        assert(q.offsets[i] == p.offsets[i]);
        if j < n {
            assert(q.offsets[j] == p.offsets[j]);
        }
    }
    assert forall|k: int| 0 <= k < q.image_rows.len() implies {
        &&& #[trigger] q.image_rows[k] == (k as nat, q.offsets[d.images[k].content_line as int])
        &&& d.images[k].content_line < n + 1
        &&& q.images[k] == sized_image(d.images[k], width)
        &&& q.image_rows[k].1 + rows_taken(q.images[k].ch) <= q.lines.len()
        &&& shown_at(
            q.lines,
            q.image_rows[k].1,
            image_block(d.content[d.images[k].content_line as int], d.images[k], width),
        )
    } by {
        if k < img {
            assert(q.image_rows[k] == p.image_rows[k]);
            assert(q.images[k] == p.images[k]);
            lemma_shown_longer(
                p.lines,
                block,
                p.image_rows[k].1,
                image_block(d.content[d.images[k].content_line as int], d.images[k], width),
            );
        } else {
            assert(is_image);
            lemma_not_sized(d, width, n, img);
        }
    }
    assert forall|k: int, l: int| 0 <= k < l < q.image_rows.len() implies (
    #[trigger] q.image_rows[k]).1 + rows_taken(q.images[k].ch) <= (
    #[trigger] q.image_rows[l]).1 by {
        assert(q.image_rows[k] == p.image_rows[k]);
        assert(q.images[k] == p.images[k]);
        if l < img {
            assert(q.image_rows[l] == p.image_rows[l]);
        }
    }
    assert forall|k: int| 0 <= k < q.tables_done implies {
        &&& (#[trigger] d.tables[k]).content_line < n + 1
        &&& shown_at(
            q.lines,
            q.offsets[d.tables[k].content_line as int],
            table_lines(d.tables[k], width),
        )
    } by {
        if k < tbl {
            let at = d.tables[k].content_line as int;
            assert(q.offsets[at] == p.offsets[at]);
            lemma_shown_longer(p.lines, block, p.offsets[at], table_lines(d.tables[k], width));
        }
    }
    assert forall|i: int|
        0 <= i < n + 1 && !is_image_line(d.images, i) && !is_table_line(
            d.tables,
            i,
        ) implies shown_at(
        q.lines,
        #[trigger] q.offsets[i],
        wrapped_line(d.content[i], width),
    ) by {
        if i < n {
            assert(q.offsets[i] == p.offsets[i]);
            lemma_shown_longer(p.lines, block, p.offsets[i], wrapped_line(d.content[i], width));
        } else {
            if is_image {
                assert(d.images[img].content_line == i);
            } else if is_table {
                assert(d.tables[tbl].content_line == i);
            }
        }
    }
}

proof fn lemma_not_sized(d: DocumentView, width: nat, n: nat, k: int)
    requires
        page(d, width, n).image_rows.len() <= k < d.images.len(),
    ensures
        page(d, width, n).images.len() == d.images.len(),
        page(d, width, n).images[k] == d.images[k],
    decreases n,
{
    if n > 0 {
        lemma_not_sized(d, width, (n - 1) as nat, k);
    }
}

/// What holds of the page of the first `n` content lines.
pub proof fn lemma_page(d: DocumentView, width: nat, n: nat)
    requires
        images_ok(d.content, d.images),
        tables_ok(d.content, d.tables),
        n <= d.content.len(),
    ensures
        page_ok(d, width, page(d, width, n), n),
        page(d, width, n).image_rows.len() < d.images.len() ==> d.images[page(
            d,
            width,
            n,
        ).image_rows.len() as int].content_line >= n,
        page(d, width, n).tables_done < d.tables.len() ==> d.tables[page(
            d,
            width,
            n,
        ).tables_done as int].content_line >= n,
    decreases n,
{
    if n > 0 {
        lemma_page(d, width, (n - 1) as nat);
        lemma_block(d, width, (n - 1) as nat);
    }
}

/// The page of a document shows every content line, in order, lays out all of its
/// tables, and leaves every image room for its height, below the image before it.
pub proof fn pages_show_everything(d: DocumentView, width: nat)
    requires
        document_ok(d),
    ensures
        page_ok(d, width, full_page(d, width), d.content.len()),
        full_page(d, width).image_rows.len() == d.images.len(),
        full_page(d, width).tables_done == d.tables.len(),
{
    lemma_page(d, width, d.content.len());
}

/// Whether a document can be shown in `width` columns: no character is wider, and
/// every table of it is regular and no wider at the least.
pub open spec fn can_fit(d: DocumentView, width: nat) -> bool {
    &&& width > 0
    &&& forall|i: int|
        0 <= i < d.content.len() ==> width >= 3 || spans_no_wider(
            (#[trigger] d.content[i]).spans,
            width,
        )
    &&& forall|k: int|
        0 <= k < d.tables.len() ==> {
            let t = #[trigger] d.tables[k];
            &&& is_regular_table(t)
            &&& column_count(t) > 0
            &&& width >= least_width(t)
        }
}

proof fn lemma_page_width(d: DocumentView, width: nat, n: nat)
    requires
        can_fit(d, width),
        n <= d.content.len(),
    ensures
        forall|i: int|
            0 <= i < page(d, width, n).lines.len() ==> line_cells(
                #[trigger] page(d, width, n).lines[i],
            ) <= width,
    decreases n,
{
    if n > 0 {
        lemma_page_width(d, width, (n - 1) as nat);
        let p = page(d, width, (n - 1) as nat);
        let q = page(d, width, n);
        let line = d.content[n - 1];
        let wrapped = wrapped_line(line, width);
        assert(width >= 3 || spans_no_wider(line.spans, width));
        wrapped_lines_keep_the_width(line, width);
        let img = p.image_rows.len() as int;
        let tbl = p.tables_done as int;
        let is_image = img < d.images.len() && d.images[img].content_line == n - 1;
        let is_table = !is_image && tbl < d.tables.len() && d.tables[tbl].content_line == n - 1;
        if is_table {
            table_lines_keep_the_width(d.tables[tbl], width);
        }
        assert forall|i: int| 0 <= i < q.lines.len() implies line_cells(#[trigger] q.lines[i])
            <= width by {
            let j = i - p.lines.len();
            if j < 0 {
                assert(q.lines[i] == p.lines[i]);
            } else if is_table {
                assert(q.lines[i] == table_lines(d.tables[tbl], width)[j]);
            } else if j < wrapped.len() {
                assert(q.lines[i] == wrapped[j]);
            } else {
                assert(q.lines[i] == empty_line());
                assert(spans_text(empty_line().spans) =~= Seq::empty());
            }
        }
    }
}

/// No display line is wider than the page.
pub proof fn pages_keep_the_width(d: DocumentView, width: nat)
    requires
        can_fit(d, width),
    ensures
        forall|i: int|
            0 <= i < full_page(d, width).lines.len() ==> line_cells(
                #[trigger] full_page(d, width).lines[i],
            ) <= width,
{
    lemma_page_width(d, width, d.content.len());
}

/// Whether two documents are the same but for the sizes of their images in cells
/// and the display lines of their headings.
pub open spec fn same_source(a: DocumentView, b: DocumentView) -> bool {
    &&& a.content == b.content
    &&& a.tables == b.tables
    &&& a.images.len() == b.images.len()
    &&& forall|k: int|
        #![trigger a.images[k]]
        #![trigger b.images[k]]
        0 <= k < a.images.len() ==> b.images[k] == (ImageView {
            cw: b.images[k].cw,
            ch: b.images[k].ch,
            ..a.images[k]
        })
}

proof fn lemma_same_source(a: DocumentView, b: DocumentView, width: nat, n: nat)
    requires
        same_source(a, b),
    ensures
        page(a, width, n).lines == page(b, width, n).lines,
        page(a, width, n).offsets == page(b, width, n).offsets,
        page(a, width, n).image_rows == page(b, width, n).image_rows,
        page(a, width, n).tables_done == page(b, width, n).tables_done,
    decreases n,
{
    if n > 0 {
        lemma_same_source(a, b, width, (n - 1) as nat);
        let img = page(a, width, (n - 1) as nat).image_rows.len() as int;
        if img < a.images.len() {
            assert(b.images[img].dims == a.images[img].dims);
        }
    }
}

/// A layout sets the sizes of the images that get rows, and changes nothing else of
/// the images.
pub proof fn lemma_page_images(d: DocumentView, width: nat, n: nat)
    ensures
        page(d, width, n).image_rows.len() <= d.images.len(),
        page(d, width, n).images.len() == d.images.len(),
        forall|k: int|
            0 <= k < d.images.len() ==> #[trigger] page(d, width, n).images[k] == if k < page(
                d,
                width,
                n,
            ).image_rows.len() {
                sized_image(d.images[k], width)
            } else {
                d.images[k]
            },
    decreases n,
{
    if n > 0 {
        lemma_page_images(d, width, (n - 1) as nat);
    }
}

proof fn lemma_rows_at_any_width(d: DocumentView, first: nat, last: nat, n: nat)
    ensures
        page(d, first, n).image_rows.len() == page(d, last, n).image_rows.len(),
        page(d, first, n).tables_done == page(d, last, n).tables_done,
    decreases n,
{
    if n > 0 {
        lemma_rows_at_any_width(d, first, last, (n - 1) as nat);
    }
}

/// A layout depends on the document and on the width alone: it is the same
/// whatever layouts came before, but for images that no layout gives a row.
pub proof fn layouts_do_not_depend_on_earlier_ones(a: DocumentView, b: DocumentView, width: nat)
    requires
        same_source(a, b),
    ensures
        full_page(a, width).lines == full_page(b, width).lines,
        full_page(a, width).offsets == full_page(b, width).offsets,
        full_page(a, width).image_rows == full_page(b, width).image_rows,
        full_page(a, width).tables_done == full_page(b, width).tables_done,
        forall|k: int|
            0 <= k < full_page(a, width).image_rows.len() ==> #[trigger] full_page(
                a,
                width,
            ).images[k] == full_page(b, width).images[k],
        document_ok(a) && document_ok(b) ==> full_page(a, width) == full_page(b, width),
{
    lemma_same_source(a, b, width, a.content.len());
    lemma_page_images(a, width, a.content.len());
    lemma_page_images(b, width, b.content.len());
    let p = full_page(a, width);
    let q = full_page(b, width);
    assert forall|k: int| 0 <= k < p.image_rows.len() implies #[trigger] p.images[k]
        == q.images[k] by {
        assert(b.images[k].dims == a.images[k].dims);
    }
    if document_ok(a) && document_ok(b) {
        pages_show_everything(a, width);
        assert(p.images =~= q.images);
    }
}

/// A second layout of a document takes no notice of the first one.
pub proof fn second_layouts_replace_first_ones(
    a: DocumentView,
    b: DocumentView,
    first: nat,
    last: nat,
)
    requires
        b.content == a.content,
        b.tables == a.tables,
        b.images == full_page(a, first).images,
    ensures
        full_page(b, last) == full_page(a, last),
{
    let n = a.content.len();
    lemma_page_images(a, first, n);
    lemma_page_images(a, last, n);
    lemma_page_images(b, last, n);
    lemma_rows_at_any_width(a, first, last, n);
    assert(same_source(a, b));
    lemma_same_source(a, b, last, n);
    assert(full_page(b, last).images =~= full_page(a, last).images);
}

/// After the layout of a document every heading points at the display line where
/// its own content line starts.
pub proof fn headings_point_at_their_lines(d: DocumentView, width: nat, i: int)
    requires
        document_ok(d),
        0 <= i < d.headings.len(),
    ensures
        shown_at(
            full_page(d, width).lines,
            placed_headings(d.headings, full_page(d, width).offsets)[i].line,
            wrapped_line(d.content[d.headings[i].content_line as int], width),
        ),
{
    pages_show_everything(d, width);
    let p = full_page(d, width);
    let at = d.headings[i].content_line as int;
    assert(placed_headings(d.headings, p.offsets)[i].line == p.offsets[at]);
    assert(!is_image_line(d.images, at));
    assert(d.content[at].spans.len() > 0);
    assert(!is_table_line(d.tables, at));
}

} // verus!
