//! What keys and the mouse wheel are for.

use crate::app::{outline_toggled, AppView, Mode, PickerView};
use crate::input::{after_key, after_scroll, picker_opened, resized, ActionView, Key};
use crate::paths::{popped, same};
use vstd::prelude::*;

verus! {

/// The reader without a message in its status bar.
pub open spec fn silent(a: AppView) -> AppView {
    AppView { status_msg: None, ..a }
}

/// Whether a number is `n` more than another, or as large as a number can be.
pub open spec fn is_more(m: usize, n: int, r: usize) -> bool {
    r == m + n || (r == usize::MAX && m + n > usize::MAX)
}

/// Whether a number is `n` less than another, or zero.
pub open spec fn is_less(m: usize, n: int, r: usize) -> bool {
    r == m - n || (r == 0 && m < n)
}

/// Whether a key only scrolls the text.
pub open spec fn only_scrolls(a: AppView, key: Key) -> bool {
    let (b, action) = after_key(a, key);
    action == ActionView::Continue && b == (AppView { offset: b.offset, ..silent(a) })
}

/// Without the outline the arrows and `j` and `k` scroll the text by one line.
pub proof fn arrows_scroll_by_a_line(a: AppView)
    requires
        a.mode == Mode::Reader,
        !a.show_outline,
    ensures
        only_scrolls(a, Key::Down) && is_more(a.offset, 1, after_key(a, Key::Down).0.offset),
        only_scrolls(a, Key::Up) && is_less(a.offset, 1, after_key(a, Key::Up).0.offset),
        after_key(a, Key::Char('j')) == after_key(a, Key::Down),
        after_key(a, Key::Char('k')) == after_key(a, Key::Up),
{
}

/// A page is scrolled by one line less than the screen shows, and by at least one.
pub proof fn pages_overlap_by_a_line(a: AppView)
    requires
        a.mode == Mode::Reader,
    ensures
        ({
            let step = if a.viewport >= 2 {
                a.viewport - 1
            } else {
                1
            };
            &&& only_scrolls(a, Key::PageDown) && is_more(
                a.offset,
                step,
                after_key(a, Key::PageDown).0.offset,
            )
            &&& only_scrolls(a, Key::PageUp) && is_less(
                a.offset,
                step,
                after_key(a, Key::PageUp).0.offset,
            )
            &&& after_key(a, Key::Char(' ')) == after_key(a, Key::PageDown)
        }),
{
}

/// `g` scrolls to the top, and `G` beyond every line.
pub proof fn ends_are_reached(a: AppView)
    requires
        a.mode == Mode::Reader,
    ensures
        only_scrolls(a, Key::Char('g')) && after_key(a, Key::Char('g')).0.offset == 0,
        only_scrolls(a, Key::Char('G')) && after_key(a, Key::Char('G')).0.offset == usize::MAX,
        after_key(a, Key::Home) == after_key(a, Key::Char('g')),
{
}

/// Whether a key selects the heading `idx` and scrolls to the line where it starts.
pub open spec fn jumps_to(a: AppView, key: Key, idx: int) -> bool {
    let (b, action) = after_key(a, key);
    &&& action == ActionView::Continue
    &&& b.selected == idx
    &&& b.offset == a.headings[idx].line
    &&& b == (AppView { selected: b.selected, offset: b.offset, ..silent(a) })
}

/// Beside the outline the arrows jump to the next heading and to the one before, as far
/// as there are any, and Enter jumps to the selected one.
pub proof fn outline_keys_jump_to_headings(a: AppView)
    requires
        a.mode == Mode::Reader,
        a.show_outline,
        0 < a.headings.len() <= usize::MAX,
        forall|i: int| 0 <= i < a.headings.len() ==> (#[trigger] a.headings[i]).line <= usize::MAX,
    ensures
        a.selected + 1 < a.headings.len() ==> jumps_to(a, Key::Down, a.selected + 1),
        a.selected + 1 >= a.headings.len() ==> jumps_to(a, Key::Down, a.headings.len() - 1),
        a.selected == 0 ==> jumps_to(a, Key::Up, 0),
        0 < a.selected <= a.headings.len() ==> jumps_to(a, Key::Up, a.selected - 1),
        a.selected > a.headings.len() ==> jumps_to(a, Key::Up, a.headings.len() - 1),
        a.selected < a.headings.len() ==> jumps_to(a, Key::Enter, a.selected as int),
        a.selected >= a.headings.len() ==> jumps_to(a, Key::Enter, a.headings.len() - 1),
        after_key(a, Key::Char('j')) == after_key(a, Key::Down),
        after_key(a, Key::Char('k')) == after_key(a, Key::Up),
        after_key(a, Key::Char('l')) == after_key(a, Key::Enter),
        after_key(a, Key::Right) == after_key(a, Key::Enter),
{
    assert forall|i: int| 0 <= i < a.headings.len() implies a.headings[i].line as usize
        == #[trigger] a.headings[i].line by {}
}

/// Without headings, or without the outline, there is nothing to jump to.
pub proof fn without_headings_nothing_is_jumped_to(a: AppView, key: Key)
    requires
        a.mode == Mode::Reader,
        key == Key::Enter || key == Key::Right || key == Key::Char('l') || (a.show_outline && (key
            == Key::Down || key == Key::Up || key == Key::Char('j') || key == Key::Char('k'))),
        !a.show_outline || a.headings.len() == 0,
    ensures
        after_key(a, key) == (silent(a), ActionView::Continue),
{
}

/// `o` shows and hides the outline, and leaves the text where it is.
pub proof fn the_outline_is_shown_and_hidden(a: AppView)
    requires
        a.mode == Mode::Reader,
        a.headings.len() <= usize::MAX,
    ensures
        ({
            let (b, action) = after_key(a, Key::Char('o'));
            &&& action == ActionView::Continue
            &&& b.show_outline == !a.show_outline
            &&& b == (AppView {
                show_outline: b.show_outline,
                selected: b.selected,
                ..silent(a)
            })
            &&& a.show_outline ==> b.selected == a.selected
            &&& !a.show_outline && (forall|i: int|
                0 <= i < a.headings.len() ==> (#[trigger] a.headings[i]).line > a.offset)
                ==> b.selected == 0
            &&& after_key(a, Key::Tab) == (b, action)
            &&& b == silent(outline_toggled(a))
        }),
        ({
            let (b, action) = after_key(a, Key::Esc);
            &&& a.show_outline ==> action == ActionView::Continue && b == (AppView {
                show_outline: false,
                ..silent(a)
            })
            &&& !a.show_outline ==> action == ActionView::Quit && b == silent(a)
        }),
{
    if !a.show_outline && (forall|i: int|
        0 <= i < a.headings.len() ==> (#[trigger] a.headings[i]).line > a.offset) {
        lemma_none_above(a, a.headings.len());
    }
}

proof fn lemma_none_above(a: AppView, n: nat)
    requires
        n <= a.headings.len(),
        forall|i: int| 0 <= i < a.headings.len() ==> (#[trigger] a.headings[i]).line > a.offset,
    ensures
        crate::app::heading_above(a.headings, a.offset as nat, n) == 0,
    decreases n,
{
    if n > 0 {
        assert(a.headings[n - 1].line > a.offset);
        lemma_none_above(a, (n - 1) as nat);
    }
}

/// `q` leaves, `e` edits, `p` opens the file picker, and `/` begins an empty search;
/// none of them moves the text.
pub proof fn reader_keys_ask_for_more(a: AppView)
    requires
        a.mode == Mode::Reader,
    ensures
        after_key(a, Key::Char('q')) == (silent(a), ActionView::Quit),
        after_key(a, Key::Char('e')) == (a, ActionView::Edit),
        after_key(a, Key::Char('p')) == (silent(a), ActionView::OpenPicker),
        after_key(a, Key::Char('/')).1 == ActionView::Continue,
        after_key(a, Key::Char('/')).0 == (AppView {
            mode: Mode::Search,
            query: Seq::empty(),
            matches: Seq::empty(),
            ..silent(a)
        }),
{
}

/// The keys that the reader takes.
pub open spec fn is_reader_key(key: Key) -> bool {
    match key {
        Key::Char(c) => c == 'q' || c == '/' || c == 'e' || c == 'p' || c == 'o' || c == 'j' || c
            == 'k' || c == 'l' || c == ' ' || c == 'g' || c == 'G',
        Key::Backspace => false,
        Key::Other => false,
        _ => true,
    }
}

/// Every other key does nothing.
pub proof fn other_reader_keys_do_nothing(a: AppView, key: Key)
    requires
        a.mode == Mode::Reader,
        !is_reader_key(key),
    ensures
        after_key(a, key) == (silent(a), ActionView::Continue),
{
}

/// A query is what was typed: a character is added at its end, and Backspace takes the
/// last one away. Neither moves the text.
pub proof fn queries_are_typed(a: AppView, c: char)
    requires
        a.mode == Mode::Search,
    ensures
        ({
            let (b, action) = after_key(a, Key::Char(c));
            &&& action == ActionView::Continue
            &&& b.query.len() == a.query.len() + 1
            &&& b.query.drop_last() == a.query
            &&& b.query.last() == c
            &&& b == (AppView { query: b.query, status_msg: b.status_msg, ..a })
        }),
        after_key(after_key(a, Key::Char(c)).0, Key::Backspace).0.query == a.query,
        a.query.len() == 0 ==> after_key(a, Key::Backspace).0 == silent(a),
        ({
            let (b, action) = after_key(a, Key::Backspace);
            &&& action == ActionView::Continue
            &&& b == (AppView { query: b.query, ..silent(a) })
        }),
{
    assert(a.query.push(c).drop_last() =~= a.query);
}

/// Enter in a search scrolls to the first of its matches, where it has any, and ends
/// it; Esc ends it where the text is.
pub proof fn searches_jump_to_the_first_match(a: AppView)
    requires
        a.mode == Mode::Search,
    ensures
        a.matches.len() > 0 ==> after_key(a, Key::Enter).0.offset == a.matches[0],
        a.matches.len() == 0 ==> after_key(a, Key::Enter).0.offset == a.offset,
        after_key(a, Key::Enter).0 == (AppView {
            offset: after_key(a, Key::Enter).0.offset,
            query: Seq::empty(),
            matches: Seq::empty(),
            mode: Mode::Reader,
            ..silent(a)
        }),
        after_key(a, Key::Esc).0 == (AppView {
            query: Seq::empty(),
            matches: Seq::empty(),
            mode: Mode::Reader,
            ..silent(a)
        }),
        after_key(a, Key::Enter).1 == ActionView::Continue,
        after_key(a, Key::Esc).1 == ActionView::Continue,
{
}

/// In a search every key that is no character, Backspace, Enter or Esc does nothing.
pub proof fn other_search_keys_do_nothing(a: AppView, key: Key)
    requires
        a.mode == Mode::Search,
        key !is Char,
        key != Key::Backspace && key != Key::Enter && key != Key::Esc,
    ensures
        after_key(a, key) == (silent(a), ActionView::Continue),
{
}

/// Whether a key only selects another entry of the picker.
pub open spec fn selects_entry(a: AppView, key: Key, idx: int) -> bool {
    let (b, action) = after_key(a, key);
    &&& action == ActionView::Continue
    &&& b.picker.selected == idx
    &&& b == (AppView {
        picker: PickerView { selected: b.picker.selected, ..a.picker },
        ..silent(a)
    })
}

/// The arrows select the next entry of the picker and the one before, a page is ten
/// entries, and `g` and `G` select the first and the last one.
pub proof fn picker_keys_select_entries(a: AppView)
    requires
        a.mode == Mode::Picker,
        a.picker.selected < a.picker.entries.len() <= usize::MAX,
    ensures
        ({
            let n = a.picker.entries.len() as int;
            let s = a.picker.selected as int;
            &&& selects_entry(a, Key::Down, if s + 1 < n { s + 1 } else { n - 1 })
            &&& selects_entry(a, Key::Up, if s > 0 { s - 1 } else { 0 })
            &&& selects_entry(a, Key::PageDown, if s + 10 < n { s + 10 } else { n - 1 })
            &&& selects_entry(a, Key::PageUp, if s > 10 { s - 10 } else { 0 })
            &&& selects_entry(a, Key::Char('g'), 0)
            &&& selects_entry(a, Key::Char('G'), n - 1)
            &&& after_key(a, Key::Char('j')) == after_key(a, Key::Down)
            &&& after_key(a, Key::Char('k')) == after_key(a, Key::Up)
        }),
{
}

/// Without entries the keys of the picker select nothing.
pub proof fn empty_pickers_select_nothing(a: AppView)
    requires
        a.mode == Mode::Picker,
        a.picker.entries.len() == 0,
        a.picker.selected == 0,
    ensures
        after_key(a, Key::Down) == (silent(a), ActionView::Continue),
        after_key(a, Key::Char('j')) == (silent(a), ActionView::Continue),
        after_key(a, Key::Up) == (silent(a), ActionView::Continue),
        after_key(a, Key::Char('k')) == (silent(a), ActionView::Continue),
        after_key(a, Key::PageDown) == (silent(a), ActionView::Continue),
        after_key(a, Key::PageUp) == (silent(a), ActionView::Continue),
        after_key(a, Key::Char('g')) == (silent(a), ActionView::Continue),
        after_key(a, Key::Char('G')) == (silent(a), ActionView::Continue),
        after_key(a, Key::Enter) == (silent(a), ActionView::Continue),
{
}

/// Enter opens the selected entry: it enters a directory, and reads a file.
pub proof fn enter_opens_the_selected_entry(a: AppView)
    requires
        a.mode == Mode::Picker,
        a.picker.selected < a.picker.entries.len(),
    ensures
        ({
            let e = a.picker.entries[a.picker.selected as int];
            let (b, action) = after_key(a, Key::Enter);
            &&& e.is_dir ==> action == ActionView::ListFiles && b == (AppView {
                picker: PickerView { cwd: e.path, ..a.picker },
                ..silent(a)
            })
            &&& !e.is_dir ==> action == ActionView::OpenFile(e.path) && b == silent(a)
        }),
{
}

/// Backspace and Esc go one directory up, as far as the one that the picker was opened
/// in. There Esc goes back to the document, where there is one, and leaves otherwise;
/// the document is laid out anew.
pub proof fn pickers_are_left_by_the_way_they_were_entered(a: AppView)
    requires
        a.mode == Mode::Picker,
    ensures
        ({
            let up = AppView {
                picker: PickerView { cwd: popped(a.picker.cwd), ..a.picker },
                ..silent(a)
            };
            if same(a.picker.cwd, a.picker.start) {
                &&& after_key(a, Key::Backspace) == (silent(a), ActionView::Continue)
                &&& a.picker.from_reader ==> after_key(a, Key::Esc) == (
                    (AppView { mode: Mode::Reader, wrap_width: usize::MAX, ..silent(a) }),
                    ActionView::Continue,
                )
                &&& !a.picker.from_reader ==> after_key(a, Key::Esc) == (
                    silent(a),
                    ActionView::Quit,
                )
            } else {
                &&& after_key(a, Key::Backspace) == (up, ActionView::ListFiles)
                &&& after_key(a, Key::Esc) == (up, ActionView::ListFiles)
            }
        }),
        after_key(a, Key::Char('q')) == (silent(a), ActionView::Quit),
{
}

/// `h` shows hidden entries, or hides them again, and the directory is listed anew.
pub proof fn hidden_entries_are_shown_on_demand(a: AppView)
    requires
        a.mode == Mode::Picker,
    ensures
        ({
            let (b, action) = after_key(a, Key::Char('h'));
            &&& action == ActionView::ListFiles
            &&& b.picker.show_hidden == !a.picker.show_hidden
            &&& b == (AppView {
                picker: PickerView { show_hidden: b.picker.show_hidden, ..a.picker },
                ..silent(a)
            })
            &&& after_key(b, Key::Char('h')).0 == silent(a)
        }),
{
}

/// The keys that the picker takes.
pub open spec fn is_picker_key(key: Key) -> bool {
    match key {
        Key::Char(c) => c == 'q' || c == 'j' || c == 'k' || c == 'g' || c == 'G' || c == 'h',
        Key::Tab => false,
        Key::Right => false,
        Key::Home => false,
        Key::Other => false,
        _ => true,
    }
}

/// Every other key does nothing in the picker; `e` even keeps the message.
pub proof fn other_picker_keys_do_nothing(a: AppView, key: Key)
    requires
        a.mode == Mode::Picker,
        !is_picker_key(key),
    ensures
        key != Key::Char('e') ==> after_key(a, key) == (silent(a), ActionView::Continue),
        key == Key::Char('e') ==> after_key(a, key) == (a, ActionView::Continue),
{
}

/// The mouse wheel scrolls the text by three lines, and selects three entries further
/// in the picker.
pub proof fn the_wheel_moves_by_three(a: AppView, down: bool)
    requires
        a.picker.selected < a.picker.entries.len() <= usize::MAX || (a.picker.selected == 0
            && a.picker.entries.len() == 0),
    ensures
        ({
            let b = after_scroll(a, down);
            let n = a.picker.entries.len() as int;
            let s = a.picker.selected as int;
            if a.mode == Mode::Picker {
                &&& b == (AppView {
                    picker: PickerView { selected: b.picker.selected, ..a.picker },
                    ..a
                })
                &&& down && s + 3 < n ==> b.picker.selected == s + 3
                &&& down && s + 3 >= n && n > 0 ==> b.picker.selected == n - 1
                &&& n == 0 ==> b.picker.selected == 0
                &&& !down && s >= 3 ==> b.picker.selected == s - 3
                &&& !down && s < 3 ==> b.picker.selected == 0
            } else {
                &&& b == (AppView { offset: b.offset, ..a })
                &&& down ==> is_more(a.offset, 3, b.offset)
                &&& !down ==> is_less(a.offset, 3, b.offset)
            }
        }),
{
}

/// A terminal of another size has no images: none counts as drawn, and nothing else
/// changes.
pub proof fn resized_terminals_have_no_images(a: AppView, i: int)
    ensures
        resized(a).image_placed.len() == a.image_placed.len(),
        0 <= i < a.image_placed.len() ==> !resized(a).image_placed[i],
        resized(a) == (AppView { image_placed: resized(a).image_placed, ..a }),
{
}

/// A picker that is opened over a document starts in the given directory, takes all
/// images off the screen, and keeps the document and the position.
pub proof fn pickers_are_opened_over_documents(a: AppView, cwd: Seq<char>)
    ensures
        ({
            let b = picker_opened(a, cwd);
            &&& b.mode == Mode::Picker
            &&& b.picker.cwd == cwd
            &&& b.picker.start == cwd
            &&& b.picker.from_reader
            &&& b.picker.show_hidden == a.picker.show_hidden
            &&& b.image_rows.len() == 0
            &&& b.image_placed.len() == a.images.len()
            &&& forall|i: int| 0 <= i < b.image_placed.len() ==> !#[trigger] b.image_placed[i]
            &&& b == (AppView {
                mode: b.mode,
                picker: b.picker,
                image_rows: b.image_rows,
                image_placed: b.image_placed,
                ..a
            })
        }),
{
}

} // verus!
