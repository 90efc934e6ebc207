//! Which editor opens the file, and what is said of it.

use crate::app::{app_ok, App, AppView};
use crate::paths::{join_path, joined};
use crate::text::{chars_of, owned, words, words_of};
use vstd::prelude::*;

verus! {

/// The editors that are tried when none is set, in this order.
pub open spec fn usual_editors() -> Seq<Seq<char>> {
    seq![
        "nvim"@,
        "vim"@,
        "vi"@,
        "nano"@,
        "emacs"@,
        "micro"@,
        "code -w"@,
        "subl -w"@,
        "kate"@,
        "gedit"@,
    ]
}

/// The text of a variable that may be unset.
pub open spec fn optional_text(s: Option<&str>) -> Option<Seq<char>> {
    match s {
        Some(text) => Some(text@),
        None => None,
    }
}

/// Some commands with one more, a program and its arguments; an empty one is left
/// out.
pub open spec fn with_command(commands: Seq<Seq<Seq<char>>>, spec_text: Option<Seq<char>>) -> Seq<
    Seq<Seq<char>>,
> {
    match spec_text {
        Some(text) => if words(text).len() > 0 {
            commands.push(words(text))
        } else {
            commands
        },
        None => commands,
    }
}

/// Some commands with the first `n` of the usual editors.
pub open spec fn with_usual(commands: Seq<Seq<Seq<char>>>, n: nat) -> Seq<Seq<Seq<char>>>
    decreases n,
{
    if n == 0 {
        commands
    } else {
        with_command(with_usual(commands, (n - 1) as nat), Some(usual_editors()[n - 1]))
    }
}

/// The commands that are tried: that of `$VISUAL`, that of `$EDITOR`, and the
/// usual ones.
pub open spec fn commands_to_try(visual: Option<Seq<char>>, editor: Option<Seq<char>>) -> Seq<
    Seq<Seq<char>>,
> {
    with_usual(with_command(with_command(Seq::empty(), visual), editor), usual_editors().len())
}

fn push_command(commands: &mut Vec<Vec<String>>, text: &str)
    ensures
        final(commands).deep_view() == with_command(old(commands).deep_view(), Some(text@)),
{
    let parts = words_of(text);
    assert(parts.deep_view().len() == parts@.len());
    if parts.len() > 0 {
        commands.push(parts);
        assert(commands.deep_view() =~= old(commands).deep_view().push(words(text@)));
    }
}

/// The commands that are tried, with the values of `$VISUAL` and `$EDITOR`.
pub fn editor_commands(visual: Option<&str>, editor: Option<&str>) -> (r: Vec<Vec<String>>)
    ensures
        r.deep_view() == commands_to_try(optional_text(visual), optional_text(editor)),
{
    let mut commands: Vec<Vec<String>> = Vec::new();
    assert(commands.deep_view() =~= Seq::empty());
    if let Some(text) = visual {
        push_command(&mut commands, text);
    }
    if let Some(text) = editor {
        push_command(&mut commands, text);
    }
    let ghost set = commands.deep_view();
    push_command(&mut commands, "nvim");
    push_command(&mut commands, "vim");
    push_command(&mut commands, "vi");
    push_command(&mut commands, "nano");
    push_command(&mut commands, "emacs");
    push_command(&mut commands, "micro");
    push_command(&mut commands, "code -w");
    push_command(&mut commands, "subl -w");
    push_command(&mut commands, "kate");
    push_command(&mut commands, "gedit");
    proof {
        reveal_with_fuel(with_usual, 11);
    }
    commands
}

/// Every command that is tried names a program, and that of `$VISUAL` comes first.
pub proof fn commands_name_programs(visual: Option<Seq<char>>, editor: Option<Seq<char>>)
    ensures
        forall|i: int|
            0 <= i < commands_to_try(visual, editor).len() ==> (#[trigger] commands_to_try(
                visual,
                editor,
            )[i]).len() > 0,
        visual is Some && words(visual->0).len() > 0 ==> commands_to_try(visual, editor).len() > 0
            && commands_to_try(visual, editor)[0] == words(visual->0),
{
    let set = with_command(with_command(Seq::empty(), visual), editor);
    lemma_with_usual(set, usual_editors().len());
}

proof fn lemma_with_usual(commands: Seq<Seq<Seq<char>>>, n: nat)
    requires
        forall|i: int| 0 <= i < commands.len() ==> (#[trigger] commands[i]).len() > 0,
    ensures
        forall|i: int|
            0 <= i < with_usual(commands, n).len() ==> (#[trigger] with_usual(commands, n)[i]).len()
                > 0,
        commands.len() <= with_usual(commands, n).len(),
        forall|i: int|
            0 <= i < commands.len() ==> #[trigger] with_usual(commands, n)[i] == commands[i],
    decreases n,
{
    if n > 0 {
        lemma_with_usual(commands, (n - 1) as nat);
    }
}

/// The first of the commands whose program is present.
pub open spec fn first_present(commands: Seq<Seq<Seq<char>>>, present: Seq<bool>, n: nat) -> Option<
    Seq<Seq<char>>,
>
    decreases commands.len() - n,
{
    if n >= commands.len() {
        None
    } else if present[n as int] {
        Some(commands[n as int])
    } else {
        first_present(commands, present, n + 1)
    }
}

fn copy_texts(texts: &Vec<String>) -> (r: Vec<String>)
    ensures
        r.deep_view() == texts.deep_view(),
{
    let mut out: Vec<String> = Vec::new();
    let mut i: usize = 0;
    while i < texts.len()
        invariant
            i <= texts@.len(),
            out.deep_view() == texts.deep_view().take(i as int),
        decreases texts@.len() - i,
    {
        let ghost before = out.deep_view();
        out.push(texts[i].clone());
        assert(out.deep_view() =~= before.push(texts.deep_view()[i as int]));
        i += 1;
        assert(out.deep_view() =~= texts.deep_view().take(i as int));
    }
    assert(out.deep_view() =~= texts.deep_view());
    out
}

/// The first of the commands whose program is present.
pub fn find_editor(commands: &Vec<Vec<String>>, present: &Vec<bool>) -> (r: Option<Vec<String>>)
    requires
        commands@.len() == present@.len(),
    ensures
        match r {
            Some(command) => first_present(commands.deep_view(), present@, 0) == Some(
                command.deep_view(),
            ),
            None => first_present(commands.deep_view(), present@, 0) is None,
        },
{
    let ghost all = commands.deep_view();
    let mut i: usize = 0;
    while i < commands.len()
        invariant
            i <= commands@.len() == present@.len(),
            all == commands.deep_view(),
            first_present(all, present@, i as nat) == first_present(all, present@, 0),
        decreases commands@.len() - i,
    {
        if present[i] {
            assert(all[i as int] == commands@[i as int].deep_view());
            return Some(copy_texts(&commands[i]));
        }
        i += 1;
    }
    None
}

/// The places of a program in some directories.
pub open spec fn places_in(dirs: Seq<Seq<char>>, prog: Seq<char>) -> Seq<Seq<char>> {
    dirs.map_values(|dir: Seq<char>| joined(dir, prog))
}

/// The places where a program is looked for: the place that it names, or the
/// directories of `$PATH`.
pub open spec fn program_places(prog: Seq<char>, dirs: Seq<Seq<char>>) -> Seq<Seq<char>> {
    if prog.contains('/') {
        seq![prog]
    } else {
        places_in(dirs, prog)
    }
}

/// The places where a program is looked for, with the directories of `$PATH`.
pub fn search_places(prog: &str, dirs: &Vec<String>) -> (r: Vec<String>)
    ensures
        r.deep_view() == program_places(prog@, dirs.deep_view()),
{
    let chars = chars_of(prog);
    let mut out: Vec<String> = Vec::new();
    let mut i: usize = 0;
    while i < chars.len()
        invariant
            i <= chars@.len(),
            chars@ == prog@,
            forall|j: int| 0 <= j < i ==> #[trigger] chars@[j] != '/',
            out.deep_view().len() == 0,
        decreases chars@.len() - i,
    {
        if chars[i] == '/' {
            assert(prog@.contains(chars@[i as int]));
            out.push(owned(prog));
            assert(out.deep_view() =~= seq![prog@]);
            return out;
        }
        i += 1;
    }
    assert(!prog@.contains('/'));
    let ghost all = dirs.deep_view();
    let ghost wanted = places_in(all, prog@);
    let mut k: usize = 0;
    assert(out.deep_view() =~= wanted.take(0));
    while k < dirs.len()
        invariant
            k <= dirs@.len() == wanted.len(),
            dirs.deep_view() == all,
            wanted == places_in(all, prog@),
            out.deep_view() == wanted.take(k as int),
        decreases dirs@.len() - k,
    {
        let ghost before = out.deep_view();
        assert(all[k as int] == dirs@[k as int]@);
        out.push(join_path(dirs[k].as_str(), prog));
        assert(out.deep_view() =~= before.push(wanted[k as int]));
        k += 1;
        assert(out.deep_view() =~= wanted.take(k as int));
    }
    assert(out.deep_view() =~= wanted);
    out
}

/// Whether a program is present: one of its places holds an executable file.
pub open spec fn is_present(executable: Seq<bool>) -> bool {
    executable.contains(true)
}

/// Whether a program is present, by what its places hold.
pub fn in_path(executable: &Vec<bool>) -> (r: bool)
    ensures
        r == is_present(executable@),
{
    let mut i: usize = 0;
    while i < executable.len()
        invariant
            i <= executable@.len(),
            forall|j: int| 0 <= j < i ==> !#[trigger] executable@[j],
        decreases executable@.len() - i,
    {
        if executable[i] {
            assert(executable@[i as int]);
            return true;
        }
        i += 1;
    }
    false
}

/// How an editor ended.
pub enum EditorOutcome {
    Success,
    /// It ended with this status.
    Exited(String),
    /// It could not be started, for this reason.
    NotStarted(String),
}

/// What is said of an editor that ended.
pub open spec fn editor_message(outcome: EditorOutcome) -> Option<Seq<char>> {
    match outcome {
        EditorOutcome::Success => None,
        EditorOutcome::Exited(status) => Some("editor exited with "@ + status@),
        EditorOutcome::NotStarted(reason) => Some("editor failed to start: "@ + reason@),
    }
}

/// The reader with another message in its status bar, or without one.
pub open spec fn with_message(a: AppView, message: Option<Seq<char>>) -> AppView {
    AppView { status_msg: message, ..a }
}

/// What is said where there is no editor.
pub open spec fn no_editor_message() -> Seq<char> {
    "no editor found: set $EDITOR (e.g. export EDITOR=nvim)"@
}

/// Shows what is to be said of an editor that ended.
pub fn note_editor(app: &mut App, outcome: EditorOutcome)
    ensures
        final(app).deep_view() == with_message(
            old(app).deep_view(),
            editor_message(outcome),
        ),
        app_ok(old(app).deep_view()) ==> app_ok(final(app).deep_view()),
{
    app.status_msg = match outcome {
        EditorOutcome::Success => None,
        EditorOutcome::Exited(status) => {
            let mut s = owned("editor exited with ");
            s.append(status.as_str());
            Some(s)
        },
        EditorOutcome::NotStarted(reason) => {
            let mut s = owned("editor failed to start: ");
            s.append(reason.as_str());
            Some(s)
        },
    };
}

/// Shows that there is no editor.
pub fn note_no_editor(app: &mut App)
    ensures
        final(app).deep_view() == with_message(
            old(app).deep_view(),
            Some(no_editor_message()),
        ),
        app_ok(old(app).deep_view()) ==> app_ok(final(app).deep_view()),
{
    app.status_msg = Some(owned("no editor found: set $EDITOR (e.g. export EDITOR=nvim)"));
}

} // verus!
