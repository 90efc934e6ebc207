//! Files: paths, the entries of the picker, the choice of an editor, the pixels of
//! images.

use crate::app::{AppView, EntryView, PickerView};
use crate::browse::{
    entries_of, entry_before, entry_position, lemma_entry_position, listed, listings_are_sorted,
    with_keys, with_listing,
};
use crate::editor::{
    commands_to_try, editor_message, first_present, is_present, no_editor_message, program_places,
    usual_editors, with_command, with_message, with_usual, EditorOutcome,
};
use crate::images::{
    can_scale, can_scale_samples, decoded_image, file_dims, file_png, image_height, image_width,
    is_scalable, longer, measured, path_format, png_of, rgba_bytes, rgba_words, scaled_side,
    side_share, thumbnail_of, too_large, ImageView, Samples,
};
use crate::laws::texts::{unbroken_texts_are_words, white_space_separates_words};
use crate::paths::{
    absolute, base_dir, components, display_name, file_name, joined, lemma_components_push,
    lemma_components_tail, lemma_tail_at, parent, parent_undoes_join, popped, same, tail_start,
    trimmed,
};
use crate::sums::{column_sum, sample_at, widened, window_sum, windows_fit};
use crate::text::{lower, split, text_before, words};
use image::{DynamicImage, ImageFormat};
use vstd::prelude::*;

verus! {

/// A path below a directory is the directory, a slash and the path, without a slash
/// where the directory ends with one or is empty; a path from the root stands for
/// itself.
pub proof fn paths_are_joined_with_one_slash(dir: Seq<char>, path: Seq<char>)
    ensures
        path.len() > 0 && path[0] == '/' ==> joined(dir, path) == path,
        absolute(path) <==> path.len() > 0 && path[0] == '/',
        (path.len() == 0 || path[0] != '/') && dir.len() == 0 ==> joined(dir, path) == path,
        (path.len() == 0 || path[0] != '/') && dir.len() > 0 && dir.last() == '/' ==> joined(
            dir,
            path,
        ) == dir + path,
        (path.len() == 0 || path[0] != '/') && dir.len() > 0 && dir.last() != '/' ==> joined(
            dir,
            path,
        ) == dir + seq!['/'] + path,
{
    assert(Seq::<char>::empty() + path =~= path);
    if dir.len() == 0 {
        assert(dir + path =~= path);
    }
    assert(dir.push('/') + path =~= dir + seq!['/'] + path);
}

/// Whether a text is the name of a file: it is not empty, has no slash and is not made
/// of one or two dots.
pub open spec fn is_name(name: Seq<char>) -> bool {
    &&& name.len() > 0
    &&& !name.contains('/')
    &&& name != seq!['.']
    &&& name != seq!['.', '.']
}

/// A file in a directory has its own name, is shown under it, and lies in that
/// directory.
pub proof fn files_have_their_names(dir: Seq<char>, name: Seq<char>)
    requires
        is_name(name),
    ensures
        file_name(joined(dir, name)) == Some(name),
        display_name(joined(dir, name)) == name,
        parent(joined(dir, name)) == Some(trimmed(dir)),
        base_dir(joined(dir, name)) == trimmed(dir),
        popped(joined(dir, name)) == trimmed(dir),
{
    parent_undoes_join(dir, name);
    let path = joined(dir, name);
    let at = path.len() - name.len();
    assert forall|i: int| 0 <= i < name.len() implies #[trigger] name[i] != '/' by {
        assert(name.contains(name[i]));
    }
    assert(name[0] != '/');
    assert(forall|i: int| 0 <= i < name.len() ==> #[trigger] path[at + i] == name[i]);
    assert(path.last() == name[name.len() - 1]);
    if name.len() == 1 {
        assert(name =~= seq![name[0]]);
    } else {
        assert(path[path.len() - 2] == name[name.len() - 2]);
    }
    assert(trimmed(path) == path);
    lemma_tail_at(path, at as nat);
    assert(path.skip(at as int) =~= name);
}

/// A path that names no file lies in the current directory, is shown as it is, and has
/// nothing above it.
#[verifier::spinoff_prover]
#[verifier::rlimit(60)]
pub proof fn paths_without_names_stand_for_themselves(path: Seq<char>)
    ensures
        parent(path) is None ==> base_dir(path) == seq!['.'] && popped(path) == path,
        file_name(path) is None ==> display_name(path) == path,
        parent(Seq::empty()) is None,
        parent(seq!['/']) is None,
        file_name(Seq::empty()) is None,
        file_name(seq!['/']) is None,
        file_name(seq!['.']) is None,
        file_name(seq!['.', '.']) is None,
{
    reveal_strlit(".");
    assert("."@ =~= seq!['.']);
    let none = Seq::<char>::empty();
    let root = seq!['/'];
    let dot = seq!['.'];
    let dots = seq!['.', '.'];
    assert(trimmed(none) == none);
    assert(trimmed(root) == root);
    assert(trimmed(dot) == dot);
    assert(dots.last() == '.' && dots[0] == '.');
    assert(trimmed(dots) == dots);
    assert(tail_start(none) == 0);
    assert(root.last() == '/');
    assert(tail_start(root) == 1);
    assert(dot.drop_last() =~= none);
    assert(dot.last() == '.');
    assert(tail_start(dot) == tail_start(dot.drop_last()));
    assert(dots.drop_last() =~= dot);
    assert(tail_start(dots) == tail_start(dots.drop_last()));
    assert(none.skip(0).len() == 0);
    assert(root.skip(1).len() == 0);
    assert(dot.skip(0) =~= dot);
    assert(dots.skip(0) =~= dots);
}

/// Slashes at the end of a path, and dots behind them, say nothing; anything else does.
pub proof fn ends_of_paths_are_trimmed(path: Seq<char>)
    requires
        path.len() > 0,
    ensures
        trimmed(path.push('/')) == trimmed(path),
        trimmed(path.push('/').push('.')) == trimmed(path),
        path.last() != '/' && (path.last() != '.' || path.len() < 2 || path[path.len() - 2] != '/')
            ==> trimmed(path) == path,
        same(path, path.push('/')),
{
    assert(path.push('/').drop_last() =~= path);
    assert(path.push('/').push('.').drop_last() =~= path.push('/'));
    lemma_components_push(path.push('/'), split(path, '/'), Seq::empty());
}

/// A path has one part more than its directory, its name; two paths in one directory
/// are the same just where their names are, and a directory is not what lies in it.
pub proof fn paths_are_told_apart_by_their_names(dir: Seq<char>, a: Seq<char>, b: Seq<char>)
    requires
        is_name(a),
        is_name(b),
    ensures
        components(joined(dir, a)).len() == components(dir).len() + 1,
        components(joined(dir, a)).drop_last() == components(dir),
        components(joined(dir, a)).last() == a,
        same(joined(dir, a), joined(dir, b)) <==> a == b,
        !same(joined(dir, a), dir),
        same(dir, dir),
        same(a, b) ==> (absolute(a) <==> absolute(b)),
        dir.len() > 0 ==> same(joined(joined(dir, seq!['.']), a), joined(dir, a)),
{
    lemma_join_components(dir, a);
    lemma_join_components(dir, b);
    let d = components(dir);
    assert(d.push(a).drop_last() =~= d);
    if d.push(a) == d.push(b) {
        assert(d.push(a).last() == d.push(b).last());
    }
    if d.push(a) == d {
        assert(d.push(a).len() == d.len());
    }
    if dir.len() > 0 {
        let dot = seq!['.'];
        assert forall|i: int| 0 <= i < dot.len() implies #[trigger] dot[i] != '/' by {}
        let head = if dir.last() == '/' {
            dir
        } else {
            dir.push('/')
        };
        lemma_components_tail(head, dot);
        lemma_components_tail(head, Seq::empty());
        assert(head + Seq::<char>::empty() =~= head);
        if dir.last() != '/' {
            assert(dir.push('/').drop_last() =~= dir);
            lemma_components_push(dir.push('/'), split(dir, '/'), Seq::empty());
        }
        assert(joined(dir, dot) == head + dot);
        assert(joined(dir, dot)[0] == dir[0]);
        lemma_join_components(joined(dir, dot), a);
    }
}

proof fn lemma_join_components(dir: Seq<char>, name: Seq<char>)
    requires
        is_name(name),
    ensures
        components(joined(dir, name)) == components(dir).push(name),
        absolute(joined(dir, name)) == absolute(dir),
{
    assert forall|i: int| 0 <= i < name.len() implies #[trigger] name[i] != '/' by {
        assert(name.contains(name[i]));
    }
    assert(name[0] != '/');
    if dir.len() == 0 || dir.last() == '/' {
        lemma_components_tail(dir, name);
    } else {
        lemma_components_tail(dir.push('/'), name);
        assert(dir.push('/').drop_last() =~= dir);
        lemma_components_push(dir.push('/'), split(dir, '/'), Seq::empty());
    }
    if dir.len() > 0 {
        assert(joined(dir, name)[0] == dir[0]);
    }
}

/// Texts are ordered by the first character in which they differ; one that ends there
/// comes first.
pub proof fn texts_are_ordered_by_their_first_difference(
    c: Seq<char>,
    a: Seq<char>,
    b: Seq<char>,
)
    requires
        a.len() == 0 || b.len() == 0 || a[0] != b[0],
    ensures
        text_before(c + a, c + b) <==> b.len() > 0 && (a.len() == 0 || a[0] < b[0]),
    decreases c.len(),
{
    if c.len() == 0 {
        assert(c + a =~= a);
        assert(c + b =~= b);
    } else {
        let rest = c.drop_first();
        texts_are_ordered_by_their_first_difference(rest, a, b);
        assert((c + a).drop_first() =~= rest + a);
        assert((c + b).drop_first() =~= rest + b);
    }
}

/// Whether an entry should stand before another one: directories before files, and each
/// by their names, without regard to case.
pub open spec fn goes_before(a: EntryView, b: EntryView) -> bool {
    if a.is_dir == b.is_dir {
        text_before(lower(a.name), lower(b.name))
    } else {
        a.is_dir
    }
}

/// Whether an entry is listed: one whose name begins with a dot only on demand.
pub open spec fn is_listed(e: EntryView, show_hidden: bool) -> bool {
    show_hidden || e.name.len() == 0 || e.name[0] != '.'
}

proof fn lemma_listing(found: Seq<EntryView>, show_hidden: bool)
    ensures
        ({
            let list = listed(with_keys(found), show_hidden);
            &&& entries_of(list).to_multiset() == found.filter(
                |e: EntryView| is_listed(e, show_hidden),
            ).to_multiset()
            &&& forall|i: int|
                0 <= i < list.len() ==> (#[trigger] list[i]).key == lower(list[i].entry.name)
        }),
    decreases found.len(),
{
    reveal(Seq::filter);
    broadcast use vstd::seq_lib::group_to_multiset_ensures;

    let keyed = with_keys(found);
    let list = listed(keyed, show_hidden);
    let p = |e: EntryView| is_listed(e, show_hidden);
    if found.len() == 0 {
        assert(entries_of(list) =~= found.filter(p));
    } else {
        let front = found.drop_last();
        let e = found.last();
        let k = keyed.last();
        assert(keyed.drop_last() =~= with_keys(front));
        lemma_listing(front, show_hidden);
        let before = listed(with_keys(front), show_hidden);
        reveal_strlit(".");
        assert(crate::browse::is_hidden(e) <==> (e.name.len() > 0 && e.name[0] == '.')) by {
            if e.name.len() > 0 {
                assert(e.name.take(1) =~= seq![e.name[0]]);
                assert("."@ =~= seq!['.']);
                if e.name[0] != '.' {
                    assert(e.name.take(1)[0] != "."@[0]);
                }
            }
        }
        if is_listed(e, show_hidden) {
            listings_are_sorted(with_keys(front), show_hidden);
            lemma_entry_position(before, k, before.len());
            let at = entry_position(before, k, before.len()) as int;
            assert(list == before.insert(at, k));
            assert(entries_of(list) =~= entries_of(before).insert(at, e));
            vstd::seq_lib::to_multiset_insert(entries_of(before), at, e);
            assert(found.filter(p) =~= front.filter(p).push(e));
            assert forall|i: int| 0 <= i < list.len() implies (#[trigger] list[i]).key == lower(
                list[i].entry.name,
            ) by {
                if i < at {
                    assert(list[i] == before[i]);
                } else if i > at {
                    assert(list[i] == before[i - 1]);
                }
            }
        } else {
            assert(found.filter(p) =~= front.filter(p));
        }
    }
}

/// A listing shows every entry that was found, once, but for hidden ones where these are
/// not asked for, with the directories first and by name, and selects the first one.
pub proof fn listings_show_what_was_found(a: AppView, found: Seq<EntryView>)
    ensures
        ({
            let b = with_listing(a, found);
            let shown = b.picker.entries;
            &&& shown.to_multiset() == found.filter(
                |e: EntryView| is_listed(e, a.picker.show_hidden),
            ).to_multiset()
            &&& forall|i: int, j: int|
                0 <= i < j < shown.len() ==> !goes_before(#[trigger] shown[j], #[trigger] shown[i])
            &&& b.picker.selected == 0
            &&& b == (AppView {
                picker: PickerView { entries: shown, selected: 0, ..a.picker },
                ..a
            })
        }),
{
    let list = listed(with_keys(found), a.picker.show_hidden);
    lemma_listing(found, a.picker.show_hidden);
    listings_are_sorted(with_keys(found), a.picker.show_hidden);
    let shown = entries_of(list);
    assert forall|i: int, j: int| 0 <= i < j < shown.len() implies !goes_before(
        #[trigger] shown[j],
        #[trigger] shown[i],
    ) by {
        assert(!entry_before(list[j], list[i]));
        assert(shown[j] == list[j].entry);
        assert(shown[i] == list[i].entry);
    }
}

/// The commands of an editor: its words, where there are any.
pub open spec fn command_of(text: Option<Seq<char>>) -> Seq<Seq<Seq<char>>> {
    match text {
        Some(t) => if words(t).len() > 0 {
            seq![words(t)]
        } else {
            Seq::empty()
        },
        None => Seq::empty(),
    }
}

/// The usual editors with their arguments.
pub open spec fn usual_commands() -> Seq<Seq<Seq<char>>> {
    seq![
        seq!["nvim"@],
        seq!["vim"@],
        seq!["vi"@],
        seq!["nano"@],
        seq!["emacs"@],
        seq!["micro"@],
        seq!["code"@, "-w"@],
        seq!["subl"@, "-w"@],
        seq!["kate"@],
        seq!["gedit"@],
    ]
}

proof fn lemma_usual_words()
    ensures
        words("nvim"@) == seq!["nvim"@],
        words("vim"@) == seq!["vim"@],
        words("vi"@) == seq!["vi"@],
        words("nano"@) == seq!["nano"@],
        words("emacs"@) == seq!["emacs"@],
        words("micro"@) == seq!["micro"@],
        words("code -w"@) == seq!["code"@, "-w"@],
        words("subl -w"@) == seq!["subl"@, "-w"@],
        words("kate"@) == seq!["kate"@],
        words("gedit"@) == seq!["gedit"@],
{
    reveal_strlit("nvim");
    reveal_strlit("vim");
    reveal_strlit("vi");
    reveal_strlit("nano");
    reveal_strlit("emacs");
    reveal_strlit("micro");
    reveal_strlit("code");
    reveal_strlit("subl");
    reveal_strlit("-w");
    reveal_strlit("code -w");
    reveal_strlit("subl -w");
    reveal_strlit("kate");
    reveal_strlit("gedit");
    unbroken_texts_are_words("nvim"@);
    unbroken_texts_are_words("vim"@);
    unbroken_texts_are_words("vi"@);
    unbroken_texts_are_words("nano"@);
    unbroken_texts_are_words("emacs"@);
    unbroken_texts_are_words("micro"@);
    unbroken_texts_are_words("code"@);
    unbroken_texts_are_words("subl"@);
    unbroken_texts_are_words("-w"@);
    unbroken_texts_are_words("kate"@);
    unbroken_texts_are_words("gedit"@);
    assert("code -w"@ =~= "code"@.push(' ') + "-w"@);
    assert("subl -w"@ =~= "subl"@.push(' ') + "-w"@);
    white_space_separates_words("code"@, ' ', "-w"@);
    white_space_separates_words("subl"@, ' ', "-w"@);
    assert(words("code -w"@) =~= seq!["code"@, "-w"@]);
    assert(words("subl -w"@) =~= seq!["subl"@, "-w"@]);
}

/// The editors are tried in this order: that of `$VISUAL`, that of `$EDITOR`, and the
/// usual ones.
pub proof fn editors_are_tried_in_order(visual: Option<Seq<char>>, editor: Option<Seq<char>>)
    ensures
        commands_to_try(visual, editor) == command_of(visual) + command_of(editor)
            + usual_commands(),
{
    lemma_usual_words();
    reveal_with_fuel(with_usual, 11);
    let set = with_command(with_command(Seq::empty(), visual), editor);
    assert(set =~= command_of(visual) + command_of(editor));
    let usual = usual_editors();
    assert(usual.len() == 10);
    assert(commands_to_try(visual, editor) =~= set + usual_commands());
}

/// The first of the commands whose program is present is taken, and none where no
/// program is.
pub proof fn the_first_editor_is_taken(commands: Seq<Seq<Seq<char>>>, present: Seq<bool>, i: int)
    requires
        present.len() == commands.len(),
    ensures
        0 <= i < commands.len() && present[i] && (forall|j: int|
            0 <= j < i ==> !#[trigger] present[j]) ==> first_present(commands, present, 0) == Some(
            commands[i],
        ),
        (forall|j: int| 0 <= j < commands.len() ==> !#[trigger] present[j]) ==> first_present(
            commands,
            present,
            0,
        ) is None,
{
    lemma_first_present(commands, present, i, 0);
}

proof fn lemma_first_present(
    commands: Seq<Seq<Seq<char>>>,
    present: Seq<bool>,
    i: int,
    n: nat,
)
    requires
        present.len() == commands.len(),
        n <= commands.len(),
    ensures
        n <= i < commands.len() && present[i] && (forall|j: int|
            0 <= j < i ==> !#[trigger] present[j]) ==> first_present(commands, present, n) == Some(
            commands[i],
        ),
        (forall|j: int| 0 <= j < commands.len() ==> !#[trigger] present[j]) ==> first_present(
            commands,
            present,
            n,
        ) is None,
    decreases commands.len() - n,
{
    if n < commands.len() {
        lemma_first_present(commands, present, i, n + 1);
        assert(present[n as int] || !present[n as int]);
    }
}

/// A program that is named with a slash is looked for at that place, any other one in
/// each of the given directories, in their order.
pub proof fn programs_are_looked_for_in_order(prog: Seq<char>, dirs: Seq<Seq<char>>, i: int)
    requires
        0 <= i < dirs.len(),
    ensures
        prog.contains('/') ==> program_places(prog, dirs) == seq![prog],
        !prog.contains('/') ==> program_places(prog, dirs).len() == dirs.len() && program_places(
            prog,
            dirs,
        )[i] == joined(dirs[i], prog),
{
}

/// A program is present where one of its places holds an executable file.
pub proof fn programs_are_present_at_any_place(executable: Seq<bool>, i: int)
    ensures
        0 <= i < executable.len() && executable[i] ==> is_present(executable),
        (forall|j: int| 0 <= j < executable.len() ==> !#[trigger] executable[j]) ==> !is_present(
            executable,
        ),
{
}

/// A message takes the place of the one before, and nothing else changes.
pub proof fn messages_replace_each_other(a: AppView, message: Option<Seq<char>>)
    ensures
        with_message(a, message).status_msg == message,
        with_message(a, message) == (AppView {
            status_msg: with_message(a, message).status_msg,
            ..a
        }),
        no_editor_message() == "no editor found: set $EDITOR (e.g. export EDITOR=nvim)"@,
{
}

/// An editor that did its work leaves no message, any other one says why it did not.
pub proof fn editors_tell_why_they_failed(status: String)
    ensures
        editor_message(EditorOutcome::Success) is None,
        editor_message(EditorOutcome::Exited(status)) == Some("editor exited with "@ + status@),
        editor_message(EditorOutcome::NotStarted(status)) == Some(
            "editor failed to start: "@ + status@,
        ),
{
}

/// An image is too large where one of its sides is longer than the limit; an image with
/// transparency is scaled by its samples where the windows of pixels that go into one
/// pixel of the copy sum up.
pub proof fn large_images_are_told_apart(
    w: u32,
    h: u32,
    max_px: u32,
    samples: Seq<u16>,
    bytes: Seq<u8>,
    i: int,
)
    ensures
        too_large(w, h, max_px) <==> w > max_px || h > max_px,
        can_scale_samples(w, h, samples, max_px) ==> w > 0 && h > 0 && windows_fit(
            samples,
            w as nat,
            h as nat,
            side_share(w as nat, longer(w, h), max_px),
            side_share(h as nat, longer(w, h), max_px),
        ),
        0 < w < 0x100_0000 && 0 < h < 0x100_0000 && windows_fit(
            samples,
            w as nat,
            h as nat,
            side_share(w as nat, longer(w, h), max_px),
            side_share(h as nat, longer(w, h), max_px),
        ) ==> can_scale_samples(w, h, samples, max_px),
        longer(w, h) >= w && longer(w, h) >= h && (longer(w, h) == w || longer(w, h) == h),
        widened(bytes).len() == bytes.len(),
        0 <= i < bytes.len() ==> widened(bytes)[i] == bytes[i],
{
    if w < 0x100_0000 && h < 0x100_0000 {
        assert(w as nat * h as nat <= 0x1_0000_0000_0000) by (nonlinear_arith)
            requires
                w < 0x100_0000,
                h < 0x100_0000,
        ;
    }
}

/// The samples of an image with transparency count where it has them, in sixteen bits or
/// in eight.
pub proof fn samples_of_transparent_images_count(img: DynamicImage, max_px: u32)
    ensures
        ({
            let w = image_width(img);
            let h = image_height(img);
            let whole = can_scale(w, h, crate::images::image_samples(img), max_px);
            let by_words = rgba_words(img) is Some && can_scale_samples(
                w,
                h,
                rgba_words(img)->0,
                max_px,
            );
            let by_bytes = rgba_words(img) is None && rgba_bytes(img) is Some && can_scale_samples(
                w,
                h,
                widened(rgba_bytes(img)->0),
                max_px,
            );
            is_scalable(img, max_px) <==> whole || by_words || by_bytes
        }),
{
}

/// An image is sent as it is where it is within the limit, and as a smaller copy where
/// it is not and can be scaled; a file that is no image gives none.
pub proof fn images_are_sent_within_the_limit(
    path: Seq<char>,
    bytes: Seq<u8>,
    format: ImageFormat,
    img: DynamicImage,
    max_px: u32,
)
    requires
        path_format(path) == Some(format),
    ensures
        decoded_image(bytes, format) is None ==> file_png(path, bytes, max_px) is None
            && file_dims(path, bytes) is None,
        decoded_image(bytes, format) == Some(img) ==> file_dims(path, bytes) == Some(
            (image_width(img), image_height(img)),
        ),
        decoded_image(bytes, format) == Some(img) && image_width(img) <= max_px && image_height(img)
            <= max_px ==> match png_of(img) {
            Some(png) => file_png(path, bytes, max_px) == Some(
                (png, image_width(img), image_height(img)),
            ),
            None => file_png(path, bytes, max_px) is None,
        },
        decoded_image(bytes, format) == Some(img) && (image_width(img) > max_px || image_height(img)
            > max_px) && is_scalable(img, max_px) ==> match png_of(thumbnail_of(img, max_px)) {
            Some(png) => file_png(path, bytes, max_px) == Some(
                (
                    png,
                    image_width(thumbnail_of(img, max_px)),
                    image_height(thumbnail_of(img, max_px)),
                ),
            ),
            None => file_png(path, bytes, max_px) is None,
        },
        can_scale(
            image_width(img),
            image_height(img),
            crate::images::image_samples(img),
            max_px,
        ) ==> is_scalable(img, max_px),
{
}

/// A file without the extension of an image format is no image.
pub proof fn other_files_are_no_images(path: Seq<char>, bytes: Seq<u8>, max_px: u32)
    requires
        path_format(path) is None,
    ensures
        file_png(path, bytes, max_px) is None,
        file_dims(path, bytes) is None,
{
}

/// An image gets the size of its file where that could be read, and is otherwise as it
/// was.
pub proof fn images_get_the_size_of_their_files(img: ImageView, bytes: Option<Seq<u8>>)
    ensures
        measured(img, bytes) == (ImageView { dims: measured(img, bytes).dims, ..img }),
        bytes is None ==> measured(img, bytes).dims is None,
        bytes is Some ==> measured(img, bytes).dims == file_dims(img.path, bytes->0),
{
}

/// Whether the samples of `n` pixels, all at their largest, can be summed up.
pub open spec fn fits_in_a_sum(samples: Samples, n: nat) -> bool {
    match samples {
        Samples::Bytes => 255 * n + n / 2 <= 0xffff_ffff,
        Samples::Words => 65535 * n + n / 2 <= 0xffff_ffff,
        Samples::Floats => n <= 0xffff_ffff,
    }
}

proof fn lemma_share(side: nat, long: nat, max_px: u32, k: nat)
    requires
        side > 0,
        long > 0,
        k > 0,
        k == 1 || 2 * k * long < 2 * side * max_px + long,
    ensures
        side_share(side, long, max_px) <= side / k + side / 0x40_0000 + 2,
        side_share(side, long, max_px) <= side,
{
    let scaled = scaled_side(side, long, max_px);
    let num = 2 * side * max_px as nat + long - 1;
    assert(scaled >= k) by {
        if k > 1 {
            assert(num / (2 * long as int) >= k) by {
                vstd::arithmetic::div_mod::lemma_div_is_ordered(
                    (2 * k * long) as int,
                    num,
                    (2 * long) as int,
                );
                assert(2 * k * long == k * (2 * long)) by (nonlinear_arith);
                vstd::arithmetic::div_mod::lemma_div_multiples_vanish(
                    k as int,
                    (2 * long) as int,
                );
                assert(k * (2 * long) == (2 * long) * k) by (nonlinear_arith);
            }
        }
    }
    vstd::arithmetic::div_mod::lemma_div_is_ordered_by_denominator(
        side as int,
        k as int,
        scaled as int,
    );
}

/// An image can be scaled wherever the pixels that go into one pixel of the copy can be
/// summed up, whatever they hold: about as many as the image is larger than the copy,
/// on either side.
pub proof fn images_can_be_scaled(
    w: u32,
    h: u32,
    samples: Samples,
    max_px: u32,
    kw: nat,
    kh: nat,
)
    requires
        0 < w <= 0xff_ffff,
        0 < h <= 0xff_ffff,
        kw > 0,
        kh > 0,
        ({
            let long = if w > h {
                w as nat
            } else {
                h as nat
            };
            &&& kw == 1 || 2 * kw * long < 2 * w * max_px + long
            &&& kh == 1 || 2 * kh * long < 2 * h * max_px + long
        }),
        fits_in_a_sum(samples, (w as nat / kw + 6) * (h as nat / kh + 6)) || fits_in_a_sum(
            samples,
            w as nat * h as nat,
        ),
    ensures
        can_scale(w, h, samples, max_px),
{
    let long = if w > h {
        w as nat
    } else {
        h as nat
    };
    lemma_share(w as nat, long, max_px, kw);
    lemma_share(h as nat, long, max_px, kh);
    let a = side_share(w as nat, long, max_px);
    let b = side_share(h as nat, long, max_px);
    assert(a * b <= w as nat * h as nat) by (nonlinear_arith)
        requires
            a <= w,
            b <= h,
    ;
    assert(a * b <= (w as nat / kw + 6) * (h as nat / kh + 6)) by (nonlinear_arith)
        requires
            a <= w as nat / kw + 6,
            b <= h as nat / kh + 6,
    ;
    assert(w as nat * h as nat <= 0x1_0000_0000_0000) by (nonlinear_arith)
        requires
            w <= 0xff_ffff,
            h <= 0xff_ffff,
    ;
}

proof fn lemma_share_low(side: nat, long: nat, max_px: u32, k: nat)
    requires
        side > 0,
        long > 0,
        k > 0,
        2 * k * long >= 2 * side * max_px + long - 1,
    ensures
        side_share(side, long, max_px) >= side / k,
{
    let scaled = scaled_side(side, long, max_px);
    let num = 2 * side * max_px as nat + long - 1;
    assert(num >= 0) by (nonlinear_arith)
        requires
            num == 2 * side * max_px as nat + long - 1,
            long > 0,
    ;
    assert(scaled <= k) by {
        vstd::arithmetic::div_mod::lemma_div_is_ordered(
            num,
            (2 * k * long) as int,
            (2 * long) as int,
        );
        assert(2 * k * long == (2 * long) * k) by (nonlinear_arith);
        assert(k * (2 * long) == (2 * long) * k) by (nonlinear_arith);
        vstd::arithmetic::div_mod::lemma_div_multiples_vanish(k as int, (2 * long) as int);
    }
    vstd::arithmetic::div_mod::lemma_div_is_ordered_by_denominator(
        side as int,
        scaled as int,
        k as int,
    );
    assert(side / k <= side) by (nonlinear_arith)
        requires
            k > 0,
    ;
}

/// An image is not scaled where the pixels that go into one pixel of the copy may not
/// be summed up: at least as many as the image is larger than the copy, on either side.
pub proof fn images_are_not_scaled_too_far(
    w: u32,
    h: u32,
    samples: Samples,
    max_px: u32,
    kw: nat,
    kh: nat,
)
    requires
        w > 0,
        h > 0,
        kw > 0,
        kh > 0,
        ({
            let long = if w > h {
                w as nat
            } else {
                h as nat
            };
            &&& 2 * kw * long >= 2 * w * max_px + long - 1
            &&& 2 * kh * long >= 2 * h * max_px + long - 1
        }),
        can_scale(w, h, samples, max_px),
    ensures
        fits_in_a_sum(samples, (w as nat / kw) * (h as nat / kh)),
{
    let long = if w > h {
        w as nat
    } else {
        h as nat
    };
    lemma_share_low(w as nat, long, max_px, kw);
    lemma_share_low(h as nat, long, max_px, kh);
    let a = side_share(w as nat, long, max_px);
    let b = side_share(h as nat, long, max_px);
    let p = w as nat / kw;
    let q = h as nat / kh;
    assert(p * q <= a * b) by (nonlinear_arith)
        requires
            0 <= p <= a,
            0 <= q <= b,
    ;
}

/// The sums of samples add up: a window of one pixel is its sample, and a window is the
/// sum of the windows that it is cut into, from side to side or from top to bottom.
pub proof fn windows_add_up(
    samples: Seq<u16>,
    w: nat,
    c: int,
    x: int,
    y: int,
    a: nat,
    b: nat,
    n: nat,
)
    ensures
        window_sum(samples, w, c, x, y, 1, 1) == samples[4 * (y * w + x) + c],
        window_sum(samples, w, c, x, y, a + b, n) == window_sum(samples, w, c, x, y, a, n)
            + window_sum(samples, w, c, x + a, y, b, n),
        window_sum(samples, w, c, x, y, n, a + b) == window_sum(samples, w, c, x, y, n, a)
            + window_sum(samples, w, c, x, y + a, n, b),
{
    assert(window_sum(samples, w, c, x, y, 0, 1) == 0);
    assert(column_sum(samples, w, c, x, y, 0) == 0);
    assert(column_sum(samples, w, c, x, y, 1) == sample_at(samples, w, c, x, y));
    lemma_windows_beside(samples, w, c, x, y, a, b, n);
    lemma_windows_below(samples, w, c, x, y, n, a, b);
}

proof fn lemma_windows_beside(
    samples: Seq<u16>,
    w: nat,
    c: int,
    x: int,
    y: int,
    a: nat,
    b: nat,
    n: nat,
)
    ensures
        window_sum(samples, w, c, x, y, a + b, n) == window_sum(samples, w, c, x, y, a, n)
            + window_sum(samples, w, c, x + a, y, b, n),
    decreases b,
{
    if b > 0 {
        lemma_windows_beside(samples, w, c, x, y, a, (b - 1) as nat, n);
        assert(x + a + b - 1 == x + (a + b) - 1);
    }
}

proof fn lemma_columns_below(
    samples: Seq<u16>,
    w: nat,
    c: int,
    x: int,
    y: int,
    a: nat,
    b: nat,
)
    ensures
        column_sum(samples, w, c, x, y, a + b) == column_sum(samples, w, c, x, y, a) + column_sum(
            samples,
            w,
            c,
            x,
            y + a,
            b,
        ),
    decreases b,
{
    if b > 0 {
        lemma_columns_below(samples, w, c, x, y, a, (b - 1) as nat);
    }
}

proof fn lemma_windows_below(
    samples: Seq<u16>,
    w: nat,
    c: int,
    x: int,
    y: int,
    n: nat,
    a: nat,
    b: nat,
)
    ensures
        window_sum(samples, w, c, x, y, n, a + b) == window_sum(samples, w, c, x, y, n, a)
            + window_sum(samples, w, c, x, y + a, n, b),
    decreases n,
{
    if n > 0 {
        lemma_windows_below(samples, w, c, x, y, (n - 1) as nat, a, b);
        lemma_columns_below(samples, w, c, x + n - 1, y, a, b);
    }
}

/// An image with transparency is scaled by its samples just where every window of
/// pixels, in each of the four channels, sums up.
pub proof fn every_window_has_to_sum_up(
    samples: Seq<u16>,
    w: nat,
    h: nat,
    cols: nat,
    rows: nat,
)
    ensures
        windows_fit(samples, w, h, cols, rows) <==> samples.len() >= 4 * (w * h) && cols * rows
            <= 0xffff_ffff && forall|c: int, x: int, y: int|
            0 <= c < 4 && 0 <= x <= w - cols && 0 <= y <= h - rows ==> #[trigger] window_sum(
                samples,
                w,
                c,
                x,
                y,
                cols,
                rows,
            ) + cols * rows / 2 <= 0xffff_ffff,
{
    if windows_fit(samples, w, h, cols, rows) {
        assert forall|c: int, x: int, y: int|
            0 <= c < 4 && 0 <= x <= w - cols && 0 <= y <= h - rows implies #[trigger] window_sum(
            samples,
            w,
            c,
            x,
            y,
            cols,
            rows,
        ) + cols * rows / 2 <= 0xffff_ffff by {
            assert(c == 0 || c == 1 || c == 2 || c == 3);
        }
    }
}

} // verus!
