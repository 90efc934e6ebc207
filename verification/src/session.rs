//! What holds during a whole session, whatever happens in it.

use crate::app::{file_loaded, file_reloaded, AppView, EntryView, Mode, PickerView};
use crate::browse::{
    is_entry_of, lemma_listed_len, listings_stay_below_the_start, with_keys, with_listing,
};
use crate::input::{
    after_key, after_scroll, at_start, picker_opened, picker_selection_stays_inside,
    picker_stays_below_the_start, pickers_open_at_the_start, resized, selection_ok, stays_below,
    ActionView, Key,
};
use crate::markdown::DocumentView;
use crate::placing::{with_drawn, with_png};
use crate::ui::{prepared, searched};
use vstd::prelude::*;

verus! {

/// What comes from outside when a key asks for something: the entries of a
/// directory, a document, the current directory, the message of an editor.
pub struct Reply {
    pub found: Seq<EntryView>,
    pub document: Option<DocumentView>,
    pub cwd: Seq<char>,
    pub message: Option<Seq<char>>,
}

/// What happens in a session.
pub enum Happening {
    /// A key is pressed, and what it asks for is done.
    Key(Key, Reply),
    /// The mouse wheel is turned, down or up.
    Scroll(bool),
    /// The terminal gets another size.
    Resize,
    /// A frame is drawn, with the text in an area.
    Frame(u16, u16, u16, u16),
    /// An image is encoded, with its size in pixels.
    Encoded(int, Seq<u8>, u32, u32),
    /// The images of a frame are drawn: those that are on the screen then.
    Drawn(Seq<bool>),
}

/// The reader after what a key asked for is done.
pub open spec fn performed(a: AppView, action: ActionView, reply: Reply) -> AppView {
    match action {
        ActionView::Continue | ActionView::Quit => a,
        ActionView::ListFiles => with_listing(a, reply.found),
        ActionView::OpenFile(path) => match reply.document {
            Some(d) => file_loaded(a, d, path),
            None => a,
        },
        ActionView::Edit => {
            let told = AppView { status_msg: reply.message, ..a };
            match reply.document {
                Some(d) => file_reloaded(told, d),
                None => told,
            }
        },
        ActionView::OpenPicker => with_listing(picker_opened(a, reply.cwd), reply.found),
    }
}

/// The reader after something has happened.
pub open spec fn after_happening(a: AppView, h: Happening) -> AppView {
    match h {
        Happening::Key(key, reply) => {
            let (b, action) = after_key(a, key);
            performed(b, action, reply)
        },
        Happening::Scroll(down) => after_scroll(a, down),
        Happening::Resize => resized(a),
        Happening::Frame(x, y, w, h) => if a.mode == Mode::Picker {
            a
        } else {
            searched(prepared(a, x, y, w, h))
        },
        Happening::Encoded(idx, png, w, h) => with_png(a, idx, png, w, h),
        Happening::Drawn(visible) => with_drawn(a, visible),
    }
}

/// Whether something can happen: a listing holds entries of the directory that was
/// asked for.
pub open spec fn can_happen(a: AppView, h: Happening) -> bool {
    match h {
        Happening::Key(key, reply) => {
            let (b, action) = after_key(a, key);
            let dir = if action == ActionView::OpenPicker {
                reply.cwd
            } else {
                b.picker.cwd
            };
            action == ActionView::ListFiles || action == ActionView::OpenPicker ==> {
                &&& reply.found.len() <= usize::MAX
                &&& forall|i: int|
                    0 <= i < reply.found.len() ==> is_entry_of(#[trigger] reply.found[i], dir)
            }
        },
        _ => true,
    }
}

/// The reader after some things have happened, one after the other.
pub open spec fn after_all(a: AppView, happenings: Seq<Happening>) -> AppView
    decreases happenings.len(),
{
    if happenings.len() == 0 {
        a
    } else {
        after_happening(after_all(a, happenings.drop_last()), happenings.last())
    }
}

/// Whether some things can happen, one after the other.
pub open spec fn can_all_happen(a: AppView, happenings: Seq<Happening>) -> bool {
    forall|n: int|
        0 <= n < happenings.len() ==> can_happen(
            after_all(a, happenings.take(n)),
            #[trigger] happenings[n],
        )
}

/// Whether the selection of the picker is inside its entries, and the picker is below
/// the directory that it was opened in.
pub open spec fn picker_ok(p: PickerView) -> bool {
    &&& selection_ok(p)
    &&& stays_below(p)
    &&& p.entries.len() <= usize::MAX
}

proof fn lemma_listing_ok(a: AppView, found: Seq<EntryView>)
    requires
        stays_below(a.picker) || at_start(a),
        found.len() <= usize::MAX,
        forall|i: int| 0 <= i < found.len() ==> is_entry_of(#[trigger] found[i], a.picker.cwd),
    ensures
        picker_ok(with_listing(a, found).picker),
{
    lemma_listed_len(with_keys(found), a.picker.show_hidden);
    listings_stay_below_the_start(a, found);
}

proof fn lemma_happening(a: AppView, h: Happening)
    requires
        picker_ok(a.picker),
        can_happen(a, h),
    ensures
        picker_ok(after_happening(a, h).picker),
{
    match h {
        Happening::Key(key, reply) => {
            let (b, action) = after_key(a, key);
            picker_selection_stays_inside(a, key, true);
            picker_stays_below_the_start(a, key, true);
            match action {
                ActionView::ListFiles => {
                    lemma_listing_ok(b, reply.found);
                },
                ActionView::OpenPicker => {
                    pickers_open_at_the_start(b, reply.cwd);
                    lemma_listing_ok(picker_opened(b, reply.cwd), reply.found);
                },
                _ => {},
            }
        },
        Happening::Scroll(down) => {
            picker_selection_stays_inside(a, Key::Other, down);
            picker_stays_below_the_start(a, Key::Other, down);
        },
        _ => {},
    }
}

/// Whatever happens in a session, and at every moment of it, the selection of the
/// picker is inside its entries, and the picker is not above the directory that it was
/// opened in.
pub proof fn the_picker_keeps_its_bounds(a: AppView, happenings: Seq<Happening>)
    requires
        picker_ok(a.picker),
        can_all_happen(a, happenings),
    ensures
        forall|n: int|
            0 <= n <= happenings.len() ==> picker_ok(
                #[trigger] after_all(a, happenings.take(n)).picker,
            ),
    decreases happenings.len(),
{
    if happenings.len() > 0 {
        let front = happenings.drop_last();
        let last = happenings.len() - 1;
        assert forall|n: int| 0 <= n <= last implies #[trigger] front.take(n) == happenings.take(
            n,
        ) by {
            assert(front.take(n) =~= happenings.take(n));
        }
        assert forall|n: int| 0 <= n < front.len() implies can_happen(
            after_all(a, front.take(n)),
            #[trigger] front[n],
        ) by {
            assert(can_happen(after_all(a, happenings.take(n)), happenings[n]));
        }
        the_picker_keeps_its_bounds(a, front);
        assert(front.take(last) =~= front);
        assert(happenings.take(last) =~= front);
        assert(picker_ok(after_all(a, front.take(last)).picker));
        assert(can_happen(after_all(a, happenings.take(last)), happenings[last]));
        lemma_happening(after_all(a, front), happenings[last]);
        assert forall|n: int| 0 <= n <= happenings.len() implies picker_ok(
            #[trigger] after_all(a, happenings.take(n)).picker,
        ) by {
            if n == happenings.len() {
                assert(happenings.take(n) =~= happenings);
            } else {
                assert(front.take(n) == happenings.take(n));
                assert(picker_ok(after_all(a, front.take(n)).picker));
            }
        }
    } else {
        assert(happenings.take(0) =~= happenings);
    }
}

} // verus!
