//! The entries of the file picker.

use crate::app::{app_ok, App, AppView, Entry, EntryView, PickerView};
use crate::input::{selection_ok, stays_below};
use crate::paths::{below, below_is_transitive, joined, joined_paths_are_below};
use crate::text::{begins_with, comes_before, lower, text_before, text_begins_with};
use vstd::prelude::*;

verus! {

/// An entry with the text that it is sorted by.
pub struct Keyed {
    pub entry: Entry,
    pub key: String,
}

/// What an entry and its sorting text say.
#[verifier::ext_equal]
pub struct KeyedView {
    pub entry: EntryView,
    pub key: Seq<char>,
}

impl DeepView for Keyed {
    type V = KeyedView;

    open spec fn deep_view(&self) -> KeyedView {
        KeyedView { entry: self.entry.deep_view(), key: self.key@ }
    }
}

/// Whether an entry stands before another one: directories before files, each by
/// their sorting texts.
pub open spec fn entry_before(a: KeyedView, b: KeyedView) -> bool {
    if a.entry.is_dir != b.entry.is_dir {
        a.entry.is_dir
    } else {
        text_before(a.key, b.key)
    }
}

/// Where an entry goes among the first `n` of some sorted ones: behind those that
/// it does not stand before.
pub open spec fn entry_position(entries: Seq<KeyedView>, e: KeyedView, n: nat) -> nat
    decreases n,
{
    if n == 0 || !entry_before(e, entries[n - 1]) {
        n
    } else {
        entry_position(entries, e, (n - 1) as nat)
    }
}

/// Sorted entries with one more.
pub open spec fn with_entry(entries: Seq<KeyedView>, e: KeyedView) -> Seq<KeyedView> {
    entries.insert(entry_position(entries, e, entries.len()) as int, e)
}

/// Whether an entry is hidden.
pub open spec fn is_hidden(e: EntryView) -> bool {
    begins_with(e.name, "."@)
}

/// The entries that are shown out of those that were found, in their order. Those
/// with equal sorting texts stay as they were found.
pub open spec fn listed(found: Seq<KeyedView>, show_hidden: bool) -> Seq<KeyedView>
    decreases found.len(),
{
    if found.len() == 0 {
        Seq::empty()
    } else {
        let before = listed(found.drop_last(), show_hidden);
        if !show_hidden && is_hidden(found.last().entry) {
            before
        } else {
            with_entry(before, found.last())
        }
    }
}

/// Entries without their sorting texts.
pub open spec fn entries_of(list: Seq<KeyedView>) -> Seq<EntryView> {
    list.map_values(|k: KeyedView| k.entry)
}

/// Entries with their names in lower case as sorting texts.
pub open spec fn with_keys(found: Seq<EntryView>) -> Seq<KeyedView> {
    found.map_values(|e: EntryView| KeyedView { entry: e, key: lower(e.name) })
}

/// Whether an entry stands before another one.
fn stands_before(a: &Keyed, b: &Keyed) -> (r: bool)
    ensures
        r == entry_before(a.deep_view(), b.deep_view()),
{
    if a.entry.is_dir != b.entry.is_dir {
        return a.entry.is_dir;
    }
    comes_before(a.key.as_str(), b.key.as_str())
}

/// Adds an entry to sorted ones.
fn insert_entry(entries: &mut Vec<Keyed>, e: Keyed)
    ensures
        final(entries).deep_view() == with_entry(old(entries).deep_view(), e.deep_view()),
{
    let ghost all = entries.deep_view();
    let mut n = entries.len();
    while n > 0 && stands_before(&e, &entries[n - 1])
        invariant
            n <= entries@.len(),
            all == entries.deep_view(),
            entry_position(all, e.deep_view(), n as nat) == entry_position(
                all,
                e.deep_view(),
                all.len(),
            ),
        decreases n,
    {
        assert(all[n - 1] == entries@[n - 1].deep_view());
        n -= 1;
    }
    assert(n > 0 ==> all[n - 1] == entries@[n - 1].deep_view());
    entries.insert(n, e);
    assert(entries.deep_view() =~= all.insert(n as int, e.deep_view()));
}

/// The entries that are shown out of those that were found, sorted.
pub fn sort_entries(found: Vec<Keyed>, show_hidden: bool) -> (r: Vec<Entry>)
    ensures
        r.deep_view() == entries_of(listed(found.deep_view(), show_hidden)),
{
    let ghost all = found.deep_view();
    let mut sorted: Vec<Keyed> = Vec::new();
    assert(all.take(0) =~= Seq::empty());
    assert(sorted.deep_view() =~= listed(all.take(0), show_hidden));
    for e in it: found
        invariant
            it.seq() == found@,
            all == found.deep_view(),
            sorted.deep_view() == listed(all.take(it.index()), show_hidden),
    {
        let ghost i = it.index();
        proof {
            assert(all.take(i + 1).drop_last() =~= all.take(i));
            assert(all.take(i + 1).last() == e.deep_view());
        }
        if show_hidden || !text_begins_with(e.entry.name.as_str(), ".") {
            insert_entry(&mut sorted, e);
        }
    }
    assert(all.take(all.len() as int) =~= all);
    let ghost list = sorted.deep_view();
    let mut out: Vec<Entry> = Vec::new();
    assert(out.deep_view() =~= entries_of(list).take(0));
    for e in it: sorted
        invariant
            it.seq() == sorted@,
            list == sorted.deep_view(),
            out.deep_view() == entries_of(list).take(it.index()),
    {
        let ghost i = it.index();
        let ghost before = out.deep_view();
        assert(list[i] == e.deep_view());
        out.push(e.entry);
        assert(out.deep_view() =~= before.push(entries_of(list)[i]));
        assert(out.deep_view() =~= entries_of(list).take(i + 1));
    }
    assert(out.deep_view() =~= entries_of(list));
    out
}

/// The reader with the entries that were found in the directory of its picker.
pub open spec fn with_listing(a: AppView, found: Seq<EntryView>) -> AppView {
    AppView {
        picker: PickerView {
            entries: entries_of(listed(with_keys(found), a.picker.show_hidden)),
            selected: 0,
            ..a.picker
        },
        ..a
    }
}

/// Lists the entries that were found in the directory of the picker.
pub fn refresh_picker(app: &mut App, found: Vec<Entry>)
    ensures
        final(app).deep_view() == with_listing(old(app).deep_view(), found.deep_view()),
        app_ok(old(app).deep_view()) ==> app_ok(final(app).deep_view()),
{
    let ghost a = app.deep_view();
    let ghost wanted = with_keys(found.deep_view());
    let mut keyed: Vec<Keyed> = Vec::new();
    assert(keyed.deep_view() =~= wanted.take(0));
    for entry in it: found
        invariant
            it.seq() == found@,
            wanted == with_keys(found.deep_view()),
            keyed.deep_view() == wanted.take(it.index()),
    {
        let ghost i = it.index();
        let ghost before = keyed.deep_view();
        assert(found.deep_view()[i] == entry.deep_view());
        let key = entry.name.as_str().to_lowercase();
        keyed.push(Keyed { entry, key });
        assert(keyed.deep_view() =~= before.push(wanted[i]));
        assert(keyed.deep_view() =~= wanted.take(i + 1));
    }
    assert(keyed.deep_view() =~= wanted);
    app.picker.entries = sort_entries(keyed, app.picker.show_hidden);
    app.picker.selected = 0;
    assert(app.deep_view() =~= with_listing(a, found.deep_view()));
}

proof fn lemma_text_before_transitive(a: Seq<char>, b: Seq<char>, c: Seq<char>)
    requires
        text_before(a, b),
        text_before(b, c),
    ensures
        text_before(a, c),
    decreases a.len(),
{
    if a.len() > 0 && b.len() > 0 && c.len() > 0 && a[0] == b[0] && b[0] == c[0] {
        lemma_text_before_transitive(a.drop_first(), b.drop_first(), c.drop_first());
    }
}

proof fn lemma_entry_before_transitive(a: KeyedView, b: KeyedView, c: KeyedView)
    requires
        entry_before(a, b),
        entry_before(b, c),
    ensures
        entry_before(a, c),
{
    if a.entry.is_dir == b.entry.is_dir && b.entry.is_dir == c.entry.is_dir {
        lemma_text_before_transitive(a.key, b.key, c.key);
    }
}

/// Whether no entry stands behind one that it should stand before.
pub open spec fn in_order(entries: Seq<KeyedView>) -> bool {
    forall|i: int, j: int|
        0 <= i < j < entries.len() ==> !entry_before(
            #[trigger] entries[j],
            #[trigger] entries[i],
        )
}

/// Where an entry goes among sorted ones.
pub proof fn lemma_entry_position(entries: Seq<KeyedView>, e: KeyedView, n: nat)
    requires
        n <= entries.len(),
        in_order(entries),
        n < entries.len() ==> entry_before(e, entries[n as int]),
    ensures
        ({
            let at = entry_position(entries, e, n);
            &&& at <= n
            &&& forall|i: int| 0 <= i < at ==> !entry_before(e, #[trigger] entries[i])
            &&& at < entries.len() ==> entry_before(e, entries[at as int])
        }),
    decreases n,
{
    if n > 0 && entry_before(e, entries[n - 1]) {
        lemma_entry_position(entries, e, (n - 1) as nat);
    } else if n > 0 {
        assert forall|i: int| 0 <= i < n implies !entry_before(e, #[trigger] entries[i]) by {
            if i < n - 1 && entry_before(e, entries[i]) {
                assert(!entry_before(entries[n - 1], entries[i]));
                lemma_not_before(entries[i], entries[n - 1], e);
            }
        }
    }
}

proof fn lemma_text_before_total(a: Seq<char>, b: Seq<char>)
    ensures
        text_before(a, b) || text_before(b, a) || a == b,
    decreases a.len(),
{
    if a.len() > 0 && b.len() > 0 && a[0] == b[0] {
        lemma_text_before_total(a.drop_first(), b.drop_first());
        if a.drop_first() == b.drop_first() {
            assert(a =~= seq![a[0]] + a.drop_first());
            assert(b =~= seq![b[0]] + b.drop_first());
        }
    } else if a.len() == 0 && b.len() == 0 {
        assert(a =~= b);
    }
}

/// What stands before an entry stands before all that do not stand before that
/// entry.
proof fn lemma_not_before(a: KeyedView, b: KeyedView, e: KeyedView)
    requires
        entry_before(e, a),
        !entry_before(b, a),
    ensures
        entry_before(e, b),
{
    if e.entry.is_dir == a.entry.is_dir && a.entry.is_dir == b.entry.is_dir {
        lemma_text_before_total(a.key, b.key);
        if text_before(a.key, b.key) {
            lemma_text_before_transitive(e.key, a.key, b.key);
        }
    }
}

proof fn lemma_with_entry(entries: Seq<KeyedView>, e: KeyedView)
    requires
        in_order(entries),
    ensures
        in_order(with_entry(entries, e)),
        with_entry(entries, e).to_multiset() == entries.to_multiset().insert(e),
{
    lemma_entry_position(entries, e, entries.len());
    let at = entry_position(entries, e, entries.len()) as int;
    let more = with_entry(entries, e);
    assert forall|i: int, j: int| 0 <= i < j < more.len() implies !entry_before(
        #[trigger] more[j],
        #[trigger] more[i],
    ) by {
        let x = if i < at {
            i
        } else {
            i - 1
        };
        let y = if j < at {
            j
        } else {
            j - 1
        };
        if i == at {
            if entry_before(entries[y], e) {
                lemma_entry_before_transitive(entries[y], e, entries[at]);
                if y > at {
                    assert(!entry_before(entries[y], entries[at]));
                } else {
                    lemma_not_self(entries[at]);
                }
            }
        } else if j == at {
            assert(more[i] == entries[i]);
        } else {
            assert(!entry_before(entries[y], entries[x]));
        }
    }
    vstd::seq_lib::to_multiset_insert(entries, at, e);
}

proof fn lemma_not_self(e: KeyedView)
    ensures
        !entry_before(e, e),
{
    lemma_text_not_before_self(e.key);
}

proof fn lemma_text_not_before_self(a: Seq<char>)
    ensures
        !text_before(a, a),
    decreases a.len(),
{
    if a.len() > 0 {
        lemma_text_not_before_self(a.drop_first());
    }
}

/// The entries that are shown, as they were found.
pub open spec fn unhidden(found: Seq<KeyedView>, show_hidden: bool) -> Seq<KeyedView> {
    found.filter(|e: KeyedView| show_hidden || !is_hidden(e.entry))
}

/// A listing holds every entry that was found and is not hidden, once, with the
/// directories first and by name.
pub proof fn listings_are_sorted(found: Seq<KeyedView>, show_hidden: bool)
    ensures
        in_order(listed(found, show_hidden)),
        listed(found, show_hidden).to_multiset() == unhidden(found, show_hidden).to_multiset(),
    decreases found.len(),
{
    reveal(Seq::filter);
    broadcast use vstd::seq_lib::group_to_multiset_ensures;

    if found.len() > 0 {
        listings_are_sorted(found.drop_last(), show_hidden);
        let before = unhidden(found.drop_last(), show_hidden);
        if show_hidden || !is_hidden(found.last().entry) {
            lemma_with_entry(listed(found.drop_last(), show_hidden), found.last());
            assert(unhidden(found, show_hidden) == before.push(found.last()));
        } else {
            assert(unhidden(found, show_hidden) == before);
        }
    }
}

/// A listing has no more entries than were found.
pub proof fn lemma_listed_len(found: Seq<KeyedView>, show_hidden: bool)
    ensures
        listed(found, show_hidden).len() <= found.len(),
    decreases found.len(),
{
    if found.len() > 0 {
        let list = listed(found.drop_last(), show_hidden);
        lemma_listed_len(found.drop_last(), show_hidden);
        listings_are_sorted(found.drop_last(), show_hidden);
        lemma_entry_position(list, found.last(), list.len());
    }
}

/// Whether an entry is one of a directory.
pub open spec fn is_entry_of(e: EntryView, dir: Seq<char>) -> bool {
    e.name.len() > 0 && !e.name.contains('/') && e.path == joined(dir, e.name)
}

proof fn lemma_listed_below(found: Seq<KeyedView>, show_hidden: bool, start: Seq<char>)
    requires
        forall|i: int| 0 <= i < found.len() ==> below((#[trigger] found[i]).entry.path, start),
    ensures
        forall|i: int|
            0 <= i < listed(found, show_hidden).len() ==> below(
                (#[trigger] listed(found, show_hidden)[i]).entry.path,
                start,
            ),
    decreases found.len(),
{
    if found.len() > 0 {
        let front = found.drop_last();
        assert forall|i: int| 0 <= i < front.len() implies below(
            (#[trigger] front[i]).entry.path,
            start,
        ) by {
            assert(front[i] == found[i]);
        }
        lemma_listed_below(front, show_hidden, start);
        let list = listed(front, show_hidden);
        let e = found[found.len() - 1];
        assert(below(e.entry.path, start));
        listings_are_sorted(front, show_hidden);
        lemma_entry_position(list, e, list.len());
        let at = entry_position(list, e, list.len()) as int;
        let more = with_entry(list, e);
        assert forall|i: int| 0 <= i < more.len() implies below(
            (#[trigger] more[i]).entry.path,
            start,
        ) by {
            if i < at {
                assert(more[i] == list[i]);
            } else if i > at {
                assert(more[i] == list[i - 1]);
            }
        }
    }
}

/// A listing of a directory below the one that the picker was opened in leads to no
/// directory above that one, and selects the first entry.
pub proof fn listings_stay_below_the_start(a: AppView, found: Seq<EntryView>)
    requires
        below(a.picker.cwd, a.picker.start),
        forall|i: int|
            0 <= i < found.len() ==> is_entry_of(#[trigger] found[i], a.picker.cwd),
    ensures
        stays_below(with_listing(a, found).picker),
        selection_ok(with_listing(a, found).picker),
{
    let start = a.picker.start;
    let keyed = with_keys(found);
    assert forall|i: int| 0 <= i < keyed.len() implies below(
        (#[trigger] keyed[i]).entry.path,
        start,
    ) by {
        assert(is_entry_of(found[i], a.picker.cwd));
        joined_paths_are_below(a.picker.cwd, found[i].name);
        below_is_transitive(found[i].path, a.picker.cwd, start);
    }
    lemma_listed_below(keyed, a.picker.show_hidden, start);
    let list = listed(keyed, a.picker.show_hidden);
    assert forall|i: int| 0 <= i < entries_of(list).len() implies below(
        (#[trigger] entries_of(list)[i]).path,
        start,
    ) by {
        assert(entries_of(list)[i] == list[i].entry);
    }
}

/// Whether two entries have the same place in the order.
pub open spec fn same_rank(a: KeyedView, b: KeyedView) -> bool {
    !entry_before(a, b) && !entry_before(b, a)
}

proof fn lemma_filter_concat(a: Seq<KeyedView>, b: Seq<KeyedView>, p: spec_fn(KeyedView) -> bool)
    ensures
        (a + b).filter(p) == a.filter(p) + b.filter(p),
    decreases b.len(),
{
    reveal(Seq::filter);
    if b.len() == 0 {
        assert(a + b =~= a);
        assert(a.filter(p) + b.filter(p) =~= a.filter(p));
    } else {
        assert((a + b).drop_last() =~= a + b.drop_last());
        lemma_filter_concat(a, b.drop_last(), p);
        assert((a + b).filter(p) =~= a.filter(p) + b.filter(p));
    }
}

proof fn lemma_filter_none(a: Seq<KeyedView>, p: spec_fn(KeyedView) -> bool)
    requires
        forall|i: int| 0 <= i < a.len() ==> !p(#[trigger] a[i]),
    ensures
        a.filter(p) == Seq::<KeyedView>::empty(),
    decreases a.len(),
{
    reveal(Seq::filter);
    if a.len() > 0 {
        assert forall|i: int| 0 <= i < a.drop_last().len() implies !p(
            #[trigger] a.drop_last()[i],
        ) by {
            assert(a.drop_last()[i] == a[i]);
        }
        lemma_filter_none(a.drop_last(), p);
        assert(!p(a[a.len() - 1]));
    }
}

proof fn lemma_with_entry_stable(entries: Seq<KeyedView>, e: KeyedView, k: KeyedView)
    requires
        in_order(entries),
    ensures
        with_entry(entries, e).filter(|x: KeyedView| same_rank(x, k)) == entries.push(e).filter(
            |x: KeyedView| same_rank(x, k),
        ),
{
    let p = |x: KeyedView| same_rank(x, k);
    lemma_entry_position(entries, e, entries.len());
    let at = entry_position(entries, e, entries.len()) as int;
    let front = entries.take(at);
    let back = entries.skip(at);
    assert(with_entry(entries, e) =~= front + seq![e] + back);
    assert(entries.push(e) =~= front + back + seq![e]);
    lemma_filter_concat(front + seq![e], back, p);
    lemma_filter_concat(front, seq![e], p);
    lemma_filter_concat(front + back, seq![e], p);
    lemma_filter_concat(front, back, p);
    if p(e) {
        assert forall|i: int| 0 <= i < back.len() implies !p(#[trigger] back[i]) by {
            let x = entries[at + i];
            if i > 0 {
                assert(!entry_before(entries[at + i], entries[at]));
                lemma_not_before(entries[at], x, e);
            }
            if same_rank(x, k) {
                lemma_not_before(x, k, e);
            }
        }
        lemma_filter_none(back, p);
    } else {
        assert forall|i: int| 0 <= i < seq![e].len() implies !p(#[trigger] seq![e][i]) by {}
        lemma_filter_none(seq![e], p);
    }
    assert(with_entry(entries, e).filter(p) =~= entries.push(e).filter(p));
}

/// Entries with the same place in the order stay as they were found.
pub proof fn listings_are_stable(found: Seq<KeyedView>, show_hidden: bool, k: KeyedView)
    ensures
        listed(found, show_hidden).filter(|x: KeyedView| same_rank(x, k)) == unhidden(
            found,
            show_hidden,
        ).filter(|x: KeyedView| same_rank(x, k)),
    decreases found.len(),
{
    reveal(Seq::filter);
    if found.len() > 0 {
        let p = |x: KeyedView| same_rank(x, k);
        let front = found.drop_last();
        listings_are_stable(front, show_hidden, k);
        listings_are_sorted(front, show_hidden);
        let e = found.last();
        let list = listed(front, show_hidden);
        let plain = unhidden(front, show_hidden);
        if show_hidden || !is_hidden(e.entry) {
            lemma_with_entry_stable(list, e, k);
            assert(unhidden(found, show_hidden) == plain.push(e));
            assert(list.push(e).drop_last() =~= list);
            assert(plain.push(e).drop_last() =~= plain);
            assert(list.push(e).filter(p) == plain.push(e).filter(p));
        } else {
            assert(unhidden(found, show_hidden) == plain);
        }
    }
}

} // verus!
