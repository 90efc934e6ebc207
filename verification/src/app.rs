//! The state of the reader, and how it follows the document.

use crate::document::{
    apart, document_ok, documents_are_in_order, headings_ok, images_ok, is_fresh, levels_ok,
};
use crate::events::{markdown_events, EventView};
use crate::images::{Image, ImageView};
use crate::kitty::{base64_len, can_transmit};
use crate::markdown::{
    new_image, render, rendered, Document, DocumentView, Heading, HeadingView,
};
use crate::page::{
    full_page, lay_out, lemma_headings_do_not_matter, lemma_page_images, lemma_page_shape,
    placed_headings, position_pairs, positions, same_source, second_layouts_replace_first_ones,
};
use crate::paths::{base_dir, base_dir_of, display_name, display_name_of};
use crate::style::{Line, LineView};
use crate::table::{Table, TableView};
use crate::text::owned;
use vstd::prelude::*;

verus! {

/// What the reader is doing.
#[derive(Clone, Copy, PartialEq, Eq, Debug, Structural)]
pub enum Mode {
    Reader,
    Search,
    Picker,
}

/// A file or a directory in the file picker.
pub struct Entry {
    pub name: String,
    pub path: String,
    pub is_dir: bool,
}

/// What an entry of the file picker says.
#[verifier::ext_equal]
pub struct EntryView {
    pub name: Seq<char>,
    pub path: Seq<char>,
    pub is_dir: bool,
}

impl DeepView for Entry {
    type V = EntryView;

    open spec fn deep_view(&self) -> EntryView {
        EntryView { name: self.name@, path: self.path@, is_dir: self.is_dir }
    }
}

/// The file picker.
pub struct Picker {
    /// The directory that is shown.
    pub cwd: String,
    /// The directory that the picker was opened in.
    pub start: String,
    pub entries: Vec<Entry>,
    pub selected: usize,
    /// Whether the picker was opened over a document.
    pub from_reader: bool,
    pub show_hidden: bool,
}

/// The state of the file picker.
#[verifier::ext_equal]
pub struct PickerView {
    pub cwd: Seq<char>,
    pub start: Seq<char>,
    pub entries: Seq<EntryView>,
    pub selected: usize,
    pub from_reader: bool,
    pub show_hidden: bool,
}

impl DeepView for Picker {
    type V = PickerView;

    open spec fn deep_view(&self) -> PickerView {
        PickerView {
            cwd: self.cwd@,
            start: self.start@,
            entries: self.entries.deep_view(),
            selected: self.selected,
            from_reader: self.from_reader,
            show_hidden: self.show_hidden,
        }
    }
}

/// A picker that was just opened in a directory.
pub open spec fn new_picker(cwd: Seq<char>) -> PickerView {
    PickerView {
        cwd,
        start: cwd,
        entries: Seq::empty(),
        selected: 0,
        from_reader: false,
        show_hidden: false,
    }
}

impl Picker {
    /// A picker that was just opened in a directory.
    pub fn new(cwd: String) -> (r: Picker)
        ensures
            r.deep_view() == new_picker(cwd@),
    {
        let start = cwd.clone();
        let r = Picker {
            cwd,
            start,
            entries: Vec::new(),
            selected: 0,
            from_reader: false,
            show_hidden: false,
        };
        assert(r.deep_view() =~= new_picker(cwd@));
        r
    }
}

/// The state of the reader.
pub struct App {
    /// The lines of the document before they are wrapped.
    pub content: Vec<Line>,
    /// The display lines.
    pub lines: Vec<Line>,
    pub headings: Vec<Heading>,
    pub images: Vec<Image>,
    pub tables: Vec<Table>,
    /// The images, by their positions, and the display lines that they start at.
    pub image_rows: Vec<(usize, usize)>,
    /// Whether each image was transmitted and placed in the last frame.
    pub image_placed: Vec<bool>,
    /// The width of the current layout, `usize::MAX` before the first one.
    pub wrap_width: usize,
    /// The first display line on the screen.
    pub offset: usize,
    /// How many display lines fit on the screen.
    pub viewport: usize,
    pub show_outline: bool,
    /// The selected heading.
    pub selected: usize,
    pub filename: String,
    /// The path of the open file.
    pub path: String,
    pub mode: Mode,
    pub query: String,
    /// The display lines that the query was found on.
    pub matches: Vec<usize>,
    pub picker: Picker,
    /// Where the text area starts on the screen, and how wide it is.
    pub content_x: u16,
    pub content_y: u16,
    pub content_w: u16,
    /// A message in the status bar.
    pub status_msg: Option<String>,
}

/// What the reader holds.
#[verifier::ext_equal]
pub struct AppView {
    pub content: Seq<LineView>,
    pub lines: Seq<LineView>,
    pub headings: Seq<HeadingView>,
    pub images: Seq<ImageView>,
    pub tables: Seq<TableView>,
    pub image_rows: Seq<(nat, nat)>,
    pub image_placed: Seq<bool>,
    pub wrap_width: usize,
    pub offset: usize,
    pub viewport: usize,
    pub show_outline: bool,
    pub selected: usize,
    pub filename: Seq<char>,
    pub path: Seq<char>,
    pub mode: Mode,
    pub query: Seq<char>,
    pub matches: Seq<usize>,
    pub picker: PickerView,
    pub content_x: u16,
    pub content_y: u16,
    pub content_w: u16,
    pub status_msg: Option<Seq<char>>,
}

impl DeepView for App {
    type V = AppView;

    open spec fn deep_view(&self) -> AppView {
        AppView {
            content: self.content.deep_view(),
            lines: self.lines.deep_view(),
            headings: self.headings.deep_view(),
            images: self.images.deep_view(),
            tables: self.tables.deep_view(),
            image_rows: position_pairs(self.image_rows@),
            image_placed: self.image_placed@,
            wrap_width: self.wrap_width,
            offset: self.offset,
            viewport: self.viewport,
            show_outline: self.show_outline,
            selected: self.selected,
            filename: self.filename@,
            path: self.path@,
            mode: self.mode,
            query: self.query@,
            matches: self.matches@,
            picker: self.picker.deep_view(),
            content_x: self.content_x,
            content_y: self.content_y,
            content_w: self.content_w,
            status_msg: match self.status_msg {
                Some(msg) => Some(msg@),
                None => None,
            },
        }
    }
}

/// `n` times `false`.
pub open spec fn none_placed(n: nat) -> Seq<bool> {
    Seq::new(n, |i: int| false)
}

/// The reader before its first frame.
pub open spec fn new_reader(d: DocumentView, filename: Seq<char>) -> AppView {
    AppView {
        content: d.content,
        lines: Seq::empty(),
        headings: d.headings,
        images: d.images,
        tables: d.tables,
        image_rows: Seq::empty(),
        image_placed: none_placed(d.images.len()),
        wrap_width: usize::MAX,
        offset: 0,
        viewport: 0,
        show_outline: true,
        selected: 0,
        filename,
        path: "."@,
        mode: Mode::Reader,
        query: Seq::empty(),
        matches: Seq::empty(),
        picker: new_picker("."@),
        content_x: 0,
        content_y: 0,
        content_w: 0,
        status_msg: None,
    }
}

/// The document that the reader holds.
pub open spec fn document_of(a: AppView) -> DocumentView {
    DocumentView { content: a.content, headings: a.headings, images: a.images, tables: a.tables }
}

/// The content line of every heading is one of the content lines.
pub open spec fn headings_in_range(content: Seq<LineView>, headings: Seq<HeadingView>) -> bool {
    forall|i: int|
        0 <= i < headings.len() ==> (#[trigger] headings[i]).content_line < content.len()
}

/// Every PNG is short enough for its base64 text to be held in memory.
pub open spec fn pngs_fit(images: Seq<ImageView>) -> bool {
    forall|i: int|
        0 <= i < images.len() && (#[trigger] images[i]).png is Some ==> base64_len(
            images[i].png->0.len(),
        ) <= isize::MAX
}

/// Whether the reader can show a document.
pub open spec fn can_show(d: DocumentView) -> bool {
    headings_in_range(d.content, d.headings) && pngs_fit(d.images)
}

/// The reader knows of every image whether it is on the screen, and has rows of
/// images that there are.
pub open spec fn images_known(a: AppView) -> bool {
    &&& a.image_placed.len() == a.images.len()
    &&& forall|k: int|
        0 <= k < a.image_rows.len() ==> (#[trigger] a.image_rows[k]).0 < a.images.len()
}

/// What the reader keeps: it can show its document, and it knows of every image
/// whether it is on the screen.
pub open spec fn app_ok(a: AppView) -> bool {
    can_show(document_of(a)) && images_known(a)
}

/// `n` times `false`.
pub(crate) fn unplaced(n: usize) -> (r: Vec<bool>)
    ensures
        r@ == none_placed(n as nat),
{
    let mut v: Vec<bool> = Vec::new();
    let mut i: usize = 0;
    while i < n
        invariant
            i <= n,
            v@ == none_placed(i as nat),
        decreases n - i,
    {
        v.push(false);
        i += 1;
        assert(v@ =~= none_placed(i as nat));
    }
    v
}

impl App {
    /// The reader before its first frame.
    pub fn reader(
        content: Vec<Line>,
        headings: Vec<Heading>,
        filename: String,
        images: Vec<Image>,
        tables: Vec<Table>,
    ) -> (r: App)
        ensures
            r.deep_view() == new_reader(
                DocumentView {
                    content: content.deep_view(),
                    headings: headings.deep_view(),
                    images: images.deep_view(),
                    tables: tables.deep_view(),
                },
                filename@,
            ),
            can_show(document_of(r.deep_view())) ==> app_ok(r.deep_view()),
    {
        let n = images.len();
        let ghost d = DocumentView {
            content: content.deep_view(),
            headings: headings.deep_view(),
            images: images.deep_view(),
            tables: tables.deep_view(),
        };
        let r = App {
            content,
            lines: Vec::new(),
            headings,
            images,
            tables,
            image_rows: Vec::new(),
            image_placed: unplaced(n),
            wrap_width: usize::MAX,
            offset: 0,
            viewport: 0,
            show_outline: true,
            selected: 0,
            filename,
            path: owned("."),
            mode: Mode::Reader,
            query: String::new(),
            matches: Vec::new(),
            picker: Picker::new(owned(".")),
            content_x: 0,
            content_y: 0,
            content_w: 0,
            status_msg: None,
        };
        assert(r.deep_view() =~= new_reader(d, filename@));
        r
    }
}

/// Whether the reader is as it should be.
pub fn is_consistent(app: &App) -> (r: bool)
    ensures
        r == app_ok(app.deep_view()),
{
    let ghost a = app.deep_view();
    assert(a.headings.len() == app.headings@.len());
    assert(a.content.len() == app.content@.len());
    assert(a.images.len() == app.images@.len());
    assert(a.image_rows.len() == app.image_rows@.len());
    if app.image_placed.len() != app.images.len() {
        return false;
    }
    let mut i: usize = 0;
    while i < app.headings.len()
        invariant
            i <= app.headings@.len() == a.headings.len(),
            a == app.deep_view(),
            a.content.len() == app.content@.len(),
            forall|j: int|
                0 <= j < i ==> (#[trigger] a.headings[j]).content_line < a.content.len(),
        decreases app.headings@.len() - i,
    {
        assert(a.headings[i as int] == app.headings@[i as int].deep_view());
        if app.headings[i].content_line >= app.content.len() {
            return false;
        }
        i += 1;
    }
    let mut k: usize = 0;
    while k < app.images.len()
        invariant
            k <= app.images@.len() == a.images.len(),
            a == app.deep_view(),
            forall|j: int|
                0 <= j < k && (#[trigger] a.images[j]).png is Some ==> base64_len(
                    a.images[j].png->0.len(),
                ) <= isize::MAX,
        decreases app.images@.len() - k,
    {
        assert(a.images[k as int] == app.images@[k as int].deep_view());
        if let Some(png) = &app.images[k].png {
            if !can_transmit(png) {
                return false;
            }
        }
        k += 1;
    }
    let mut n: usize = 0;
    while n < app.image_rows.len()
        invariant
            n <= app.image_rows@.len() == a.image_rows.len(),
            a == app.deep_view(),
            a.images.len() == app.images@.len(),
            forall|j: int| 0 <= j < n ==> (#[trigger] a.image_rows[j]).0 < a.images.len(),
        decreases app.image_rows@.len() - n,
    {
        assert(a.image_rows[n as int].0 == app.image_rows@[n as int].0);
        if app.image_rows[n].0 >= app.images.len() {
            return false;
        }
        n += 1;
    }
    true
}

/// The reader after a layout for `width` columns.
pub open spec fn reflowed(a: AppView, width: nat) -> AppView {
    let p = full_page(document_of(a), width);
    AppView {
        lines: p.lines,
        headings: placed_headings(a.headings, p.offsets),
        images: p.images,
        image_rows: p.image_rows,
        ..a
    }
}

/// Lays the document out for `width` columns.
pub fn reflow(app: &mut App, width: usize)
    requires
        headings_in_range(old(app).deep_view().content, old(app).deep_view().headings),
    ensures
        final(app).deep_view() == reflowed(old(app).deep_view(), width as nat),
        app_ok(old(app).deep_view()) ==> app_ok(final(app).deep_view()),
{
    let ghost a = app.deep_view();
    let ghost p = full_page(document_of(a), width as nat);
    let page = lay_out(&app.content, &mut app.images, &app.tables, width);
    proof {
        let bare = DocumentView { headings: Seq::empty(), ..document_of(a) };
        lemma_headings_do_not_matter(document_of(a), bare, width as nat, a.content.len());
        lemma_page_shape(document_of(a), width as nat, a.content.len());
    }
    app.lines = page.lines;
    app.image_rows = page.image_rows;
    let ghost wanted = placed_headings(a.headings, p.offsets);
    let mut i: usize = 0;
    while i < app.headings.len()
        invariant
            i <= app.headings@.len() == a.headings.len() == wanted.len(),
            wanted == placed_headings(a.headings, p.offsets),
            headings_in_range(a.content, a.headings),
            positions(page.offsets@) == p.offsets,
            p.offsets.len() == a.content.len(),
            forall|j: int|
                0 <= j < app.headings@.len() ==> (#[trigger] app.headings@[j]).deep_view() == if j
                    < i {
                    wanted[j]
                } else {
                    a.headings[j]
                },
            app.deep_view() == (AppView {
                lines: p.lines,
                images: p.images,
                image_rows: p.image_rows,
                headings: app.headings.deep_view(),
                ..a
            }),
        decreases app.headings@.len() - i,
    {
        let ghost before = *app;
        assert(app.headings@[i as int].deep_view() == a.headings[i as int]);
        let at = app.headings[i].content_line;
        assert(at < page.offsets@.len()) by {
            assert(positions(page.offsets@).len() == page.offsets@.len());
        }
        assert(p.offsets[at as int] == page.offsets@[at as int]);
        app.headings[i].line = page.offsets[at];
        assert(app.headings@[i as int].deep_view() =~= wanted[i as int]);
        i += 1;
    }
    assert(app.headings.deep_view() =~= wanted);
}

/// The reader with another heading selected, and scrolled to it.
pub open spec fn heading_selected(a: AppView, idx: usize) -> AppView {
    if a.headings.len() == 0 {
        a
    } else {
        let selected = if idx < a.headings.len() {
            idx
        } else {
            (a.headings.len() - 1) as usize
        };
        AppView { selected, offset: a.headings[selected as int].line as usize, ..a }
    }
}

/// Selects a heading, the last one at most, and scrolls to it.
pub fn select_heading(app: &mut App, idx: usize)
    ensures
        final(app).deep_view() == heading_selected(old(app).deep_view(), idx),
{
    let n = app.headings.len();
    if n == 0 {
        return ;
    }
    app.selected = if idx < n {
        idx
    } else {
        n - 1
    };
    let ghost selected = app.headings@[app.selected as int];
    assert(app.headings.deep_view()[app.selected as int] == selected.deep_view());
    app.offset = app.headings[app.selected].line;
}

/// The last of the first `n` headings that starts at or above the line `offset`,
/// or the first heading.
pub open spec fn heading_above(headings: Seq<HeadingView>, offset: nat, n: nat) -> nat
    decreases n,
{
    if n == 0 {
        0
    } else if headings[n - 1].line <= offset {
        (n - 1) as nat
    } else {
        heading_above(headings, offset, (n - 1) as nat)
    }
}

/// The reader with the outline shown or hidden. Where it is shown, the heading
/// above the first line on the screen is selected.
pub open spec fn outline_toggled(a: AppView) -> AppView {
    if a.show_outline {
        AppView { show_outline: false, ..a }
    } else {
        AppView {
            show_outline: true,
            selected: heading_above(a.headings, a.offset as nat, a.headings.len()) as usize,
            ..a
        }
    }
}

/// Shows or hides the outline.
pub fn toggle_outline(app: &mut App)
    ensures
        final(app).deep_view() == outline_toggled(old(app).deep_view()),
{
    app.show_outline = !app.show_outline;
    if app.show_outline {
        let ghost all = app.headings.deep_view();
        let mut n = app.headings.len();
        while n > 0
            invariant_except_break
                n <= app.headings@.len(),
                all == app.headings.deep_view(),
                heading_above(all, app.offset as nat, n as nat) == heading_above(
                    all,
                    app.offset as nat,
                    all.len(),
                ),
            ensures
                n <= app.headings@.len(),
                n > 0 ==> n - 1 == heading_above(all, app.offset as nat, all.len()),
                n == 0 ==> heading_above(all, app.offset as nat, all.len()) == 0,
            decreases n,
        {
            assert(all[n - 1] == app.headings[n - 1].deep_view());
            if app.headings[n - 1].line <= app.offset {
                break ;
            }
            n -= 1;
        }
        app.selected = if n > 0 {
            n - 1
        } else {
            0
        };
    }
}

/// The document of a markdown text in the file `path`.
pub fn render_file(md_text: &str, path: &str) -> (r: Option<Document>)
    ensures
        match r {
            Some(document) => rendered(
                markdown_events(md_text@, true, true, true),
                base_dir(path@),
            ) == Some(document.deep_view()) && is_fresh(document.deep_view()) && levels_ok(
                document.deep_view().headings,
            ),
            None => rendered(markdown_events(md_text@, true, true, true), base_dir(path@)) is None,
        },
{
    let base = base_dir_of(path);
    render(md_text, base.as_str())
}

/// The reader with the document of another file.
pub open spec fn file_loaded(a: AppView, d: DocumentView, path: Seq<char>) -> AppView {
    AppView {
        content: d.content,
        headings: d.headings,
        images: d.images,
        tables: d.tables,
        image_placed: none_placed(d.images.len()),
        image_rows: Seq::empty(),
        lines: Seq::empty(),
        wrap_width: usize::MAX,
        offset: 0,
        viewport: 0,
        show_outline: true,
        selected: 0,
        filename: display_name(path),
        path,
        mode: Mode::Reader,
        ..a
    }
}

/// Shows the document of another file, from its start.
pub fn load_file(app: &mut App, document: Document, path: &str)
    ensures
        final(app).deep_view() == file_loaded(
            old(app).deep_view(),
            document.deep_view(),
            path@,
        ),
        can_show(document.deep_view()) ==> app_ok(final(app).deep_view()),
{
    let ghost a = app.deep_view();
    app.image_placed = unplaced(document.images.len());
    app.content = document.content;
    app.headings = document.headings;
    app.images = document.images;
    app.tables = document.tables;
    app.image_rows = Vec::new();
    app.lines = Vec::new();
    app.wrap_width = usize::MAX;
    app.offset = 0;
    app.viewport = 0;
    app.show_outline = true;
    app.selected = 0;
    app.filename = display_name_of(path);
    app.path = owned(path);
    app.mode = Mode::Reader;
    assert(app.deep_view() =~= file_loaded(a, document.deep_view(), path@));
}

/// The reader with a new reading of its file: the position is kept.
pub open spec fn file_reloaded(a: AppView, d: DocumentView) -> AppView {
    AppView {
        content: d.content,
        headings: d.headings,
        images: d.images,
        tables: d.tables,
        image_placed: none_placed(d.images.len()),
        image_rows: Seq::empty(),
        lines: Seq::empty(),
        wrap_width: usize::MAX,
        selected: if d.headings.len() == 0 {
            0
        } else if a.selected < d.headings.len() {
            a.selected
        } else {
            (d.headings.len() - 1) as usize
        },
        filename: display_name(a.path),
        ..a
    }
}

/// Shows a new reading of the open file, at the same position.
pub fn reload(app: &mut App, document: Document)
    ensures
        final(app).deep_view() == file_reloaded(old(app).deep_view(), document.deep_view()),
        can_show(document.deep_view()) ==> app_ok(final(app).deep_view()),
{
    let ghost a = app.deep_view();
    app.image_placed = unplaced(document.images.len());
    app.content = document.content;
    app.headings = document.headings;
    app.images = document.images;
    app.tables = document.tables;
    app.image_rows = Vec::new();
    app.lines = Vec::new();
    app.wrap_width = usize::MAX;
    let n = app.headings.len();
    if n == 0 {
        app.selected = 0;
    } else if app.selected >= n {
        app.selected = n - 1;
    }
    app.filename = display_name_of(app.path.as_str());
    assert(app.deep_view() =~= file_reloaded(a, document.deep_view()));
}

/// The reader can show every document that was rendered.
pub proof fn rendered_documents_can_be_shown(
    events: Seq<EventView>,
    base: Seq<char>,
    filename: Seq<char>,
)
    ensures
        match rendered(events, base) {
            Some(d) => can_show(d) && app_ok(new_reader(d, filename)),
            None => true,
        },
{
    documents_are_in_order(events, base);
    if let Some(d) = rendered(events, base) {
        assert forall|i: int| 0 <= i < d.images.len() implies (
        #[trigger] d.images[i]).png is None by {
            let img = d.images[i];
            assert(img == new_image(img.id, img.path, img.content_line));
        }
    }
}

/// A layout keeps the document as it is, but for the sizes of its images and the
/// display lines of its headings, and keeps the position.
pub proof fn reflowing_keeps_the_document(a: AppView, width: nat)
    ensures
        same_source(document_of(a), document_of(reflowed(a, width))),
        reflowed(a, width).offset == a.offset,
        reflowed(a, width).selected == a.selected,
        reflowed(a, width).headings.len() == a.headings.len(),
        forall|i: int|
            0 <= i < a.headings.len() ==> #[trigger] reflowed(a, width).headings[i] == (
            HeadingView { line: reflowed(a, width).headings[i].line, ..a.headings[i] }),
        headings_in_range(a.content, a.headings) ==> headings_in_range(
            reflowed(a, width).content,
            reflowed(a, width).headings,
        ),
        document_ok(document_of(a)) ==> document_ok(document_of(reflowed(a, width))),
{
    let d = document_of(a);
    let e = document_of(reflowed(a, width));
    let p = full_page(d, width);
    lemma_page_images(d, width, d.content.len());
    assert(same_source(d, e));
    assert forall|i: int| 0 <= i < d.headings.len() implies #[trigger] e.headings[i] == (
    HeadingView { line: e.headings[i].line, ..d.headings[i] }) by {}
    assert forall|i: int| 0 <= i < e.headings.len() implies (#[trigger] e.headings[i]).content_line
        == d.headings[i].content_line by {}
    if document_ok(d) {
        assert(headings_ok(e.content, e.headings));
        assert forall|k: int| 0 <= k < d.images.len() implies (
        #[trigger] e.images[k]).content_line == d.images[k].content_line && e.images[k].id
            == d.images[k].id by {}
        assert(images_ok(e.content, e.images));
        assert(apart(e.headings, e.images)) by {
            assert forall|i: int, j: int|
                0 <= i < e.headings.len() && 0 <= j < e.images.len() implies (
            #[trigger] e.headings[i]).content_line != (#[trigger] e.images[j]).content_line by {
                assert(d.headings[i].content_line != d.images[j].content_line);
            }
        }
    }
}

/// A layout undoes the layouts before it: only the last width counts.
pub proof fn last_reflow_counts(a: AppView, first: nat, last: nat)
    ensures
        reflowed(reflowed(a, first), last) == reflowed(a, last),
{
    let b = reflowed(a, first);
    second_layouts_replace_first_ones(document_of(a), document_of(b), first, last);
    assert(reflowed(b, last).headings =~= reflowed(a, last).headings);
}

/// The selected heading of a shown outline is the last one that starts at or above
/// the first line on the screen.
pub proof fn outline_shows_the_position(a: AppView, i: int)
    requires
        !a.show_outline,
        0 <= i < a.headings.len(),
        a.headings[i].line <= a.offset,
        a.headings.len() <= usize::MAX,
    ensures
        i <= outline_toggled(a).selected < a.headings.len(),
        a.headings[outline_toggled(a).selected as int].line <= a.offset,
{
    lemma_heading_above(a.headings, a.offset as nat, a.headings.len(), i);
}

proof fn lemma_heading_above(headings: Seq<HeadingView>, offset: nat, n: nat, i: int)
    requires
        0 <= i < n <= headings.len(),
        headings[i].line <= offset,
    ensures
        i <= heading_above(headings, offset, n) < n,
        headings[heading_above(headings, offset, n) as int].line <= offset,
    decreases n,
{
    if headings[n - 1].line > offset {
        lemma_heading_above(headings, offset, (n - 1) as nat, i);
    }
}

/// The outline goes back to the heading that was jumped to, however often it is
/// hidden and shown: the headings start at different lines.
pub proof fn outline_finds_the_selected_heading(a: AppView, idx: usize)
    requires
        a.show_outline,
        idx < a.headings.len() <= usize::MAX,
        forall|i: int, j: int|
            0 <= i < j < a.headings.len() ==> (#[trigger] a.headings[i]).line < (
            #[trigger] a.headings[j]).line,
        forall|i: int| 0 <= i < a.headings.len() ==> (#[trigger] a.headings[i]).line <= usize::MAX,
    ensures
        outline_toggled(outline_toggled(heading_selected(a, idx))) == heading_selected(a, idx),
{
    let b = outline_toggled(heading_selected(a, idx));
    assert(a.headings[idx as int].line <= usize::MAX);
    outline_shows_the_position(b, idx as int);
}

/// A new reading of the open file keeps the position, and selects one of the
/// headings that are left.
pub proof fn reloading_keeps_the_position(a: AppView, d: DocumentView)
    requires
        d.headings.len() <= usize::MAX,
    ensures
        file_reloaded(a, d).offset == a.offset,
        document_of(file_reloaded(a, d)) == d,
        d.headings.len() > 0 ==> file_reloaded(a, d).selected < d.headings.len(),
        a.selected < d.headings.len() ==> file_reloaded(a, d).selected == a.selected,
{
}

} // verus!
