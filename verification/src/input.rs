//! What keys and the mouse wheel do.

use crate::app::{
    app_ok, document_of, file_loaded, file_reloaded, heading_selected, new_picker, none_placed,
    outline_toggled, reflowed, select_heading, toggle_outline, unplaced, App, AppView, EntryView,
    Mode, PickerView,
};
use crate::markdown::DocumentView;
use crate::paths::{
    below, going_up_stays_below, joined, parent_undoes_join, popped, popped_path, same, same_path,
    trimmed,
};
use crate::text::owned;
use vstd::prelude::*;

verus! {

/// A key that was pressed.
#[derive(Clone, Copy, PartialEq, Eq, Debug, Structural)]
pub enum Key {
    Char(char),
    Esc,
    Enter,
    Backspace,
    Tab,
    Up,
    Down,
    Right,
    PageUp,
    PageDown,
    Home,
    /// Any other key.
    Other,
}

/// What has to be done outside the reader after a key.
pub enum Action {
    Continue,
    /// The reader is left.
    Quit,
    /// The directory of the file picker has to be read.
    ListFiles,
    /// A file has to be read and shown.
    OpenFile(String),
    /// The open file has to be edited.
    Edit,
    /// The file picker has to be opened in the current directory.
    OpenPicker,
}

/// What has to be done after a key.
#[verifier::ext_equal]
pub enum ActionView {
    Continue,
    Quit,
    ListFiles,
    OpenFile(Seq<char>),
    Edit,
    OpenPicker,
}

impl DeepView for Action {
    type V = ActionView;

    open spec fn deep_view(&self) -> ActionView {
        match self {
            Action::Continue => ActionView::Continue,
            Action::Quit => ActionView::Quit,
            Action::ListFiles => ActionView::ListFiles,
            Action::OpenFile(path) => ActionView::OpenFile(path@),
            Action::Edit => ActionView::Edit,
            Action::OpenPicker => ActionView::OpenPicker,
        }
    }
}

/// `n + m`, at most `usize::MAX`.
pub open spec fn plus(n: usize, m: usize) -> usize {
    if n + m > usize::MAX {
        usize::MAX
    } else {
        (n + m) as usize
    }
}

/// `n - m`, at least zero.
pub open spec fn minus(n: usize, m: usize) -> usize {
    if n > m {
        (n - m) as usize
    } else {
        0
    }
}

/// The last position among `len`, or zero.
pub open spec fn last_index(len: nat) -> usize {
    if len > 0 {
        (len - 1) as usize
    } else {
        0
    }
}

/// The position `n`, or the last one among `len`.
pub open spec fn at_most_last(n: usize, len: nat) -> usize {
    if n < last_index(len) {
        n
    } else {
        last_index(len)
    }
}

/// The picker with another entry selected.
pub open spec fn entry_selected(a: AppView, selected: usize) -> AppView {
    AppView { picker: PickerView { selected, ..a.picker }, ..a }
}

/// The picker in another directory.
pub open spec fn in_directory(a: AppView, cwd: Seq<char>) -> AppView {
    AppView { picker: PickerView { cwd, ..a.picker }, ..a }
}

/// Whether the picker is in the directory that it was opened in.
pub open spec fn at_start(a: AppView) -> bool {
    same(a.picker.cwd, a.picker.start)
}

/// The next entry, `n` further down, where there are any.
pub open spec fn entries_down(a: AppView, n: usize) -> AppView {
    if a.picker.entries.len() > 0 {
        entry_selected(a, at_most_last(plus(a.picker.selected, n), a.picker.entries.len()))
    } else {
        a
    }
}

/// What a key does in the file picker.
pub open spec fn picker_key(a: AppView, key: Key) -> (AppView, ActionView) {
    let p = a.picker;
    match key {
        Key::Char('q') => (a, ActionView::Quit),
        Key::Esc => if !at_start(a) {
            (in_directory(a, popped(p.cwd)), ActionView::ListFiles)
        } else if p.from_reader {
            (AppView { mode: Mode::Reader, wrap_width: usize::MAX, ..a }, ActionView::Continue)
        } else {
            (a, ActionView::Quit)
        },
        Key::Backspace => if !at_start(a) {
            (in_directory(a, popped(p.cwd)), ActionView::ListFiles)
        } else {
            (a, ActionView::Continue)
        },
        Key::Char('j') | Key::Down => (entries_down(a, 1), ActionView::Continue),
        Key::Char('k') | Key::Up => (entry_selected(a, minus(p.selected, 1)), ActionView::Continue),
        Key::PageDown => (
            entry_selected(a, at_most_last(plus(p.selected, 10), p.entries.len())),
            ActionView::Continue,
        ),
        Key::PageUp => (entry_selected(a, minus(p.selected, 10)), ActionView::Continue),
        Key::Char('g') => (entry_selected(a, 0), ActionView::Continue),
        Key::Char('G') => (entry_selected(a, last_index(p.entries.len())), ActionView::Continue),
        Key::Char('h') => (
            AppView { picker: PickerView { show_hidden: !p.show_hidden, ..p }, ..a },
            ActionView::ListFiles,
        ),
        Key::Enter => if p.selected < p.entries.len() {
            let e = p.entries[p.selected as int];
            if e.is_dir {
                (in_directory(a, e.path), ActionView::ListFiles)
            } else {
                (a, ActionView::OpenFile(e.path))
            }
        } else {
            (a, ActionView::Continue)
        },
        _ => (a, ActionView::Continue),
    }
}

/// The reader without a search.
pub open spec fn search_closed(a: AppView) -> AppView {
    AppView { query: Seq::empty(), matches: Seq::empty(), mode: Mode::Reader, ..a }
}

/// What a key does while a query is typed.
pub open spec fn search_key(a: AppView, key: Key) -> (AppView, ActionView) {
    match key {
        Key::Esc => (search_closed(a), ActionView::Continue),
        Key::Enter => {
            let offset = if a.matches.len() > 0 {
                a.matches[0]
            } else {
                a.offset
            };
            (AppView { offset, ..search_closed(a) }, ActionView::Continue)
        },
        Key::Backspace => {
            let query = if a.query.len() > 0 {
                a.query.drop_last()
            } else {
                a.query
            };
            (AppView { query, ..a }, ActionView::Continue)
        },
        Key::Char(c) => (AppView { query: a.query.push(c), ..a }, ActionView::Continue),
        _ => (a, ActionView::Continue),
    }
}

/// How far a page is scrolled: one line less than the screen, at least one.
pub open spec fn page_step(a: AppView) -> usize {
    if a.viewport > 2 {
        (a.viewport - 1) as usize
    } else {
        1
    }
}

/// What a key does while a document is read.
pub open spec fn reader_key(a: AppView, key: Key) -> (AppView, ActionView) {
    match key {
        Key::Char('q') => (a, ActionView::Quit),
        Key::Esc => if a.show_outline {
            (AppView { show_outline: false, ..a }, ActionView::Continue)
        } else {
            (a, ActionView::Quit)
        },
        Key::Char('/') => (
            AppView { mode: Mode::Search, ..search_closed(a) },
            ActionView::Continue,
        ),
        Key::Char('e') => (a, ActionView::Edit),
        Key::Char('p') => (a, ActionView::OpenPicker),
        Key::Char('o') | Key::Tab => (outline_toggled(a), ActionView::Continue),
        Key::Char('j') | Key::Down => if a.show_outline {
            (heading_selected(a, plus(a.selected, 1)), ActionView::Continue)
        } else {
            (AppView { offset: plus(a.offset, 1), ..a }, ActionView::Continue)
        },
        Key::Char('k') | Key::Up => if a.show_outline {
            (heading_selected(a, minus(a.selected, 1)), ActionView::Continue)
        } else {
            (AppView { offset: minus(a.offset, 1), ..a }, ActionView::Continue)
        },
        Key::Enter | Key::Char('l') | Key::Right => if a.show_outline {
            (heading_selected(a, a.selected), ActionView::Continue)
        } else {
            (a, ActionView::Continue)
        },
        Key::PageDown | Key::Char(' ') => (
            AppView { offset: plus(a.offset, page_step(a)), ..a },
            ActionView::Continue,
        ),
        Key::PageUp => (
            AppView { offset: minus(a.offset, page_step(a)), ..a },
            ActionView::Continue,
        ),
        Key::Char('g') | Key::Home => (AppView { offset: 0, ..a }, ActionView::Continue),
        Key::Char('G') => (AppView { offset: usize::MAX, ..a }, ActionView::Continue),
        _ => (a, ActionView::Continue),
    }
}

/// What a key does. Any key but `e` clears the message in the status bar.
pub open spec fn after_key(a: AppView, key: Key) -> (AppView, ActionView) {
    let b = if key == Key::Char('e') {
        a
    } else {
        AppView { status_msg: None, ..a }
    };
    match b.mode {
        Mode::Picker => picker_key(b, key),
        Mode::Search => search_key(b, key),
        Mode::Reader => reader_key(b, key),
    }
}

fn last_position(len: usize) -> (r: usize)
    ensures
        r == last_index(len as nat),
{
    if len > 0 {
        len - 1
    } else {
        0
    }
}

fn move_selection(app: &mut App, selected: usize)
    ensures
        final(app).deep_view() == entry_selected(
            old(app).deep_view(),
            at_most_last(selected, old(app).deep_view().picker.entries.len()),
        ),
{
    assert(app.picker.entries.deep_view().len() == app.picker.entries@.len());
    let last = last_position(app.picker.entries.len());
    app.picker.selected = if selected < last {
        selected
    } else {
        last
    };
}

/// The picker goes one directory up, unless it is where it was opened.
fn go_up(app: &mut App) -> (r: bool)
    ensures
        r == !at_start(old(app).deep_view()),
        final(app).deep_view() == if r {
            in_directory(old(app).deep_view(), popped(old(app).deep_view().picker.cwd))
        } else {
            old(app).deep_view()
        },
{
    if same_path(app.picker.cwd.as_str(), app.picker.start.as_str()) {
        return false;
    }
    app.picker.cwd = popped_path(app.picker.cwd.as_str());
    true
}

/// A key in the file picker.
fn key_in_picker(app: &mut App, key: Key) -> (r: Action)
    ensures
        (final(app).deep_view(), r.deep_view()) == picker_key(old(app).deep_view(), key),
{
    assert(app.picker.entries.deep_view().len() == app.picker.entries@.len());
    match key {
        Key::Char('q') => return Action::Quit,
        Key::Esc => {
            if go_up(app) {
                return Action::ListFiles;
            }
            if !app.picker.from_reader {
                return Action::Quit;
            }
            app.mode = Mode::Reader;
            app.wrap_width = usize::MAX;
        },
        Key::Backspace => {
            if go_up(app) {
                return Action::ListFiles;
            }
        },
        Key::Char('j') | Key::Down => {
            if app.picker.entries.len() > 0 {
                let next = app.picker.selected.saturating_add(1);
                move_selection(app, next);
            }
        },
        Key::Char('k') | Key::Up => {
            app.picker.selected = app.picker.selected.saturating_sub(1);
        },
        Key::PageDown => {
            let next = app.picker.selected.saturating_add(10);
            move_selection(app, next);
        },
        Key::PageUp => {
            app.picker.selected = app.picker.selected.saturating_sub(10);
        },
        Key::Char('g') => {
            app.picker.selected = 0;
        },
        Key::Char('G') => {
            app.picker.selected = last_position(app.picker.entries.len());
        },
        Key::Char('h') => {
            app.picker.show_hidden = !app.picker.show_hidden;
            return Action::ListFiles;
        },
        Key::Enter => {
            let i = app.picker.selected;
            if i < app.picker.entries.len() {
                assert(app.picker.entries.deep_view()[i as int]
                    == app.picker.entries@[i as int].deep_view());
                let path = app.picker.entries[i].path.clone();
                if app.picker.entries[i].is_dir {
                    app.picker.cwd = path;
                    return Action::ListFiles;
                }
                return Action::OpenFile(path);
            }
        },
        _ => {},
    }
    Action::Continue
}

/// A key while a query is typed.
fn key_in_search(app: &mut App, key: Key) -> (r: Action)
    ensures
        (final(app).deep_view(), r.deep_view()) == search_key(old(app).deep_view(), key),
{
    let ghost a = app.deep_view();
    match key {
        Key::Esc => {
            app.query = String::new();
            app.matches = Vec::new();
            app.mode = Mode::Reader;
        },
        Key::Enter => {
            if app.matches.len() > 0 {
                app.offset = app.matches[0];
            }
            app.query = String::new();
            app.matches = Vec::new();
            app.mode = Mode::Reader;
        },
        Key::Backspace => {
            app.query.pop();
        },
        Key::Char(c) => {
            app.query.push(c);
        },
        _ => {},
    }
    assert(app.deep_view() =~= search_key(a, key).0);
    Action::Continue
}

/// A key while a document is read.
fn key_in_reader(app: &mut App, key: Key) -> (r: Action)
    ensures
        (final(app).deep_view(), r.deep_view()) == reader_key(old(app).deep_view(), key),
{
    let ghost a = app.deep_view();
    let step = if app.viewport > 2 {
        app.viewport - 1
    } else {
        1
    };
    match key {
        Key::Char('q') => return Action::Quit,
        Key::Esc => {
            if !app.show_outline {
                return Action::Quit;
            }
            app.show_outline = false;
        },
        Key::Char('/') => {
            app.query = String::new();
            app.matches = Vec::new();
            app.mode = Mode::Search;
            assert(app.deep_view() =~= reader_key(a, key).0);
        },
        Key::Char('e') => return Action::Edit,
        Key::Char('p') => return Action::OpenPicker,
        Key::Char('o') | Key::Tab => toggle_outline(app),
        Key::Char('j') | Key::Down => {
            if app.show_outline {
                let next = app.selected.saturating_add(1);
                select_heading(app, next);
            } else {
                app.offset = app.offset.saturating_add(1);
            }
        },
        Key::Char('k') | Key::Up => {
            if app.show_outline {
                let next = app.selected.saturating_sub(1);
                select_heading(app, next);
            } else {
                app.offset = app.offset.saturating_sub(1);
            }
        },
        Key::Enter | Key::Char('l') | Key::Right => {
            if app.show_outline {
                let selected = app.selected;
                select_heading(app, selected);
            }
        },
        Key::PageDown | Key::Char(' ') => {
            app.offset = app.offset.saturating_add(step);
        },
        Key::PageUp => {
            app.offset = app.offset.saturating_sub(step);
        },
        Key::Char('g') | Key::Home => {
            app.offset = 0;
        },
        Key::Char('G') => {
            app.offset = usize::MAX;
        },
        _ => {},
    }
    Action::Continue
}

/// Takes a key, and tells what has to be done outside the reader.
pub fn handle_key(app: &mut App, key: Key) -> (r: Action)
    ensures
        (final(app).deep_view(), r.deep_view()) == after_key(old(app).deep_view(), key),
        app_ok(old(app).deep_view()) ==> app_ok(final(app).deep_view()),
{
    match key {
        Key::Char('e') => {},
        _ => {
            app.status_msg = None;
        },
    }
    match app.mode {
        Mode::Picker => key_in_picker(app, key),
        Mode::Search => key_in_search(app, key),
        Mode::Reader => key_in_reader(app, key),
    }
}

/// What the mouse wheel does.
pub open spec fn after_scroll(a: AppView, down: bool) -> AppView {
    if a.mode == Mode::Picker {
        if down {
            entries_down(a, 3)
        } else {
            entry_selected(a, minus(a.picker.selected, 3))
        }
    } else if down {
        AppView { offset: plus(a.offset, 3), ..a }
    } else {
        AppView { offset: minus(a.offset, 3), ..a }
    }
}

/// Takes a turn of the mouse wheel.
pub fn handle_scroll(app: &mut App, down: bool)
    ensures
        final(app).deep_view() == after_scroll(old(app).deep_view(), down),
        app_ok(old(app).deep_view()) ==> app_ok(final(app).deep_view()),
{
    assert(app.picker.entries.deep_view().len() == app.picker.entries@.len());
    match app.mode {
        Mode::Picker => {
            if down {
                if app.picker.entries.len() > 0 {
                    let next = app.picker.selected.saturating_add(3);
                    move_selection(app, next);
                }
            } else {
                app.picker.selected = app.picker.selected.saturating_sub(3);
            }
        },
        _ => {
            if down {
                app.offset = app.offset.saturating_add(3);
            } else {
                app.offset = app.offset.saturating_sub(3);
            }
        },
    }
}

/// The reader after the terminal got another size: it has no images any more.
pub open spec fn resized(a: AppView) -> AppView {
    AppView { image_placed: none_placed(a.image_placed.len()), ..a }
}

/// Takes a new size of the terminal, which then has no images any more.
pub fn handle_resize(app: &mut App)
    ensures
        final(app).deep_view() == resized(old(app).deep_view()),
        app_ok(old(app).deep_view()) ==> app_ok(final(app).deep_view()),
{
    let ghost a = app.deep_view();
    let mut i: usize = 0;
    while i < app.image_placed.len()
        invariant
            i <= app.image_placed@.len() == a.image_placed.len(),
            forall|j: int| 0 <= j < i ==> !#[trigger] app.image_placed@[j],
            app.deep_view() == (AppView { image_placed: app.image_placed@, ..a }),
        decreases app.image_placed@.len() - i,
    {
        app.image_placed.set(i, false);
        i += 1;
    }
    assert(app.image_placed@ =~= none_placed(a.image_placed.len()));
}

/// The reader with the file picker opened over the document.
pub open spec fn picker_opened(a: AppView, cwd: Seq<char>) -> AppView {
    AppView {
        image_placed: none_placed(a.images.len()),
        image_rows: Seq::empty(),
        picker: PickerView { from_reader: true, cwd, start: cwd, ..a.picker },
        mode: Mode::Picker,
        ..a
    }
}

/// Opens the file picker over the document.
pub fn open_picker(app: &mut App, cwd: &str)
    ensures
        final(app).deep_view() == picker_opened(old(app).deep_view(), cwd@),
        app_ok(old(app).deep_view()) ==> app_ok(final(app).deep_view()),
{
    let ghost a = app.deep_view();
    app.image_placed = unplaced(app.images.len());
    app.image_rows = Vec::new();
    app.picker.from_reader = true;
    app.picker.cwd = owned(cwd);
    app.picker.start = owned(cwd);
    app.mode = Mode::Picker;
    assert(app.deep_view() =~= picker_opened(a, cwd@));
}

/// Every key but `e` clears the message in the status bar, and `e` keeps it.
pub proof fn keys_clear_the_message(a: AppView, key: Key)
    ensures
        after_key(a, key).0.status_msg == if key == Key::Char('e') {
            a.status_msg
        } else {
            None
        },
{
}

/// A key never changes the document.
pub proof fn keys_keep_the_document(a: AppView, key: Key)
    ensures
        document_of(after_key(a, key).0) == document_of(a),
        after_key(a, key).0.lines == a.lines,
        after_key(a, key).0.path == a.path,
{
}

/// Whether the selected entry of the picker is one of its entries, or the first
/// one where there are none.
pub open spec fn selection_ok(p: PickerView) -> bool {
    p.selected < p.entries.len() || p.selected == 0
}

/// Keys and the mouse wheel keep the selection of the picker inside its entries.
pub proof fn picker_selection_stays_inside(a: AppView, key: Key, down: bool)
    requires
        selection_ok(a.picker),
        a.picker.entries.len() <= usize::MAX,
    ensures
        selection_ok(after_key(a, key).0.picker),
        selection_ok(after_scroll(a, down).picker),
{
}

/// Whether the picker is below the directory that it was opened in, and lists no
/// directory that is not.
pub open spec fn stays_below(p: PickerView) -> bool {
    &&& below(p.cwd, p.start)
    &&& forall|i: int|
        0 <= i < p.entries.len() && (#[trigger] p.entries[i]).is_dir ==> below(
            p.entries[i].path,
            p.start,
        )
}

/// No key and no turn of the mouse wheel takes the picker above the directory that
/// it was opened in.
pub proof fn picker_stays_below_the_start(a: AppView, key: Key, down: bool)
    requires
        stays_below(a.picker),
    ensures
        stays_below(after_key(a, key).0.picker),
        stays_below(after_scroll(a, down).picker),
        after_key(a, key).0.picker.start == a.picker.start,
        after_scroll(a, down).picker.start == a.picker.start,
{
    if !at_start(a) {
        going_up_stays_below(a.picker.cwd, a.picker.start);
    }
}

/// A picker is opened where it starts, over a document as well as without one.
pub proof fn pickers_open_at_the_start(a: AppView, cwd: Seq<char>)
    ensures
        at_start(picker_opened(a, cwd)),
        below(cwd, cwd),
        stays_below(new_picker(cwd)),
{
}

/// Nothing that happens to the document moves the picker.
pub proof fn documents_leave_the_picker(a: AppView, d: DocumentView, path: Seq<char>, width: nat)
    ensures
        file_loaded(a, d, path).picker == a.picker,
        file_reloaded(a, d).picker == a.picker,
        reflowed(a, width).picker == a.picker,
{
}

/// A page up undoes a page down.
pub proof fn page_up_undoes_page_down(a: AppView)
    requires
        a.mode == Mode::Reader,
        a.offset + page_step(a) <= usize::MAX,
    ensures
        after_key(after_key(a, Key::PageDown).0, Key::PageUp).0.offset == a.offset,
{
}

/// An abandoned search leaves the position as it was, and the query that was typed
/// is gone.
pub proof fn abandoned_searches_change_nothing(a: AppView, c: char)
    requires
        a.mode == Mode::Reader,
    ensures
        ({
            let typed = after_key(after_key(a, Key::Char('/')).0, Key::Char(c)).0;
            let b = after_key(typed, Key::Esc).0;
            &&& typed.mode == Mode::Search
            &&& typed.query == seq![c]
            &&& b.mode == Mode::Reader
            &&& b.offset == a.offset
            &&& b.query.len() == 0
            &&& b.matches.len() == 0
        }),
{
    assert(Seq::empty().push(c) =~= seq![c]);
}

/// Going up undoes going into a directory that was listed.
pub proof fn backspace_leaves_the_entered_directory(a: AppView, name: Seq<char>)
    requires
        a.mode == Mode::Picker,
        a.picker.selected < a.picker.entries.len(),
        a.picker.entries[a.picker.selected as int] == (EntryView {
            name,
            path: joined(a.picker.cwd, name),
            is_dir: true,
        }),
        name.len() > 0,
        !name.contains('/'),
        name != seq!['.'],
        !same(joined(a.picker.cwd, name), a.picker.start),
    ensures
        ({
            let b = after_key(after_key(a, Key::Enter).0, Key::Backspace);
            &&& b.0.picker.cwd == trimmed(a.picker.cwd)
            &&& b.1 == ActionView::ListFiles
        }),
{
    parent_undoes_join(a.picker.cwd, name);
}

} // verus!
