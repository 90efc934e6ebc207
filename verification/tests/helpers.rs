use mdterm::app::App;
use mdterm::editor::{
    editor_commands, find_editor, in_path, note_editor, note_no_editor, search_places, EditorOutcome,
};
use mdterm::paths::{
    base_dir_of, display_name_of, is_absolute, join_path, name_of, parent_of, popped_path, same_path,
};
use mdterm::text::{comes_before, contains_text, is_white_char, lines_of, words_of};
use std::path::{Path, PathBuf};

fn paths() -> Vec<String> {
    let parts = ["", ".", "..", "a", "b.md", "/"];
    let mut all: Vec<String> = Vec::new();
    for x in parts {
        for y in parts {
            for z in parts {
                all.push(format!("{x}/{y}/{z}"));
                all.push(format!("{x}{y}/{z}"));
                all.push(format!("{x}/{y}{z}"));
                all.push(format!("{x}{y}{z}"));
            }
        }
    }
    all
}

#[test]
fn parents_and_names_as_in_std() {
    for p in paths() {
        let path = Path::new(&p);
        let parent = path.parent().map(|q| q.to_str().unwrap().to_string());
        assert_eq!(parent_of(&p), parent, "{p:?}");
        let name = path.file_name().map(|q| q.to_str().unwrap().to_string());
        assert_eq!(name_of(&p), name, "{p:?}");
        assert_eq!(is_absolute(&p), path.is_absolute(), "{p:?}");
        let mut popped = PathBuf::from(&p);
        popped.pop();
        assert_eq!(popped_path(&p), popped.to_str().unwrap(), "{p:?}");
    }
}

#[test]
fn joins_and_equality_as_in_std() {
    let all = paths();
    for p in &all {
        for q in all.iter().step_by(7) {
            assert_eq!(join_path(p, q), Path::new(p).join(q).to_str().unwrap(), "{p:?} {q:?}");
            assert_eq!(same_path(p, q), Path::new(p) == Path::new(q), "{p:?} {q:?}");
        }
    }
}

#[test]
fn names_and_directories_of_files() {
    assert_eq!(display_name_of("a/b.md"), "b.md");
    assert_eq!(display_name_of(".."), "..");
    assert_eq!(display_name_of("/"), "/");
    assert_eq!(base_dir_of("a/b.md"), "a");
    assert_eq!(base_dir_of("b.md"), "");
    assert_eq!(base_dir_of("/"), ".");
    assert_eq!(base_dir_of(""), ".");
}

#[test]
fn lines_and_words_as_in_std() {
    for s in ["", "a", "a\nb", "a\r\nb\r\n", "\n", "\r\n\n", "a\rb", "\n\r", "x\n\n y"] {
        let lines: Vec<&str> = s.lines().collect();
        assert_eq!(lines_of(s), lines, "{s:?}");
    }
    for s in ["", " ", "a b", "  a\t\u{a0}b \u{3000}c\u{85}d ", "x\u{200b}y"] {
        let words: Vec<&str> = s.split_whitespace().collect();
        assert_eq!(words_of(s), words, "{s:?}");
    }
}

#[test]
fn text_order_and_search_as_in_std() {
    let texts = ["", "a", "ab", "b", "B", "é", "\u{ffff}", "\u{10000}", "aé", "ba"];
    for a in texts {
        for b in texts {
            assert_eq!(comes_before(a, b), a < b, "{a:?} {b:?}");
            assert_eq!(contains_text(a, b), a.contains(b), "{a:?} {b:?}");
        }
    }
}

#[test]
fn editors_from_the_environment_come_first() {
    let commands = editor_commands(Some("  code --wait "), Some("ed"));
    assert_eq!(commands[0], vec!["code", "--wait"]);
    assert_eq!(commands[1], vec!["ed"]);
    assert_eq!(commands[2], vec!["nvim"]);
    assert_eq!(commands[8], vec!["code", "-w"]);
    assert_eq!(commands.len(), 12);
    let usual: Vec<String> = editor_commands(Some("   "), None).iter().map(|c| c.join(" ")).collect();
    assert_eq!(
        usual,
        vec!["nvim", "vim", "vi", "nano", "emacs", "micro", "code -w", "subl -w", "kate", "gedit"]
    );
}

#[test]
fn the_first_present_editor_is_taken() {
    let commands = editor_commands(None, Some("missing -x"));
    let mut present = vec![false; commands.len()];
    assert!(find_editor(&commands, &present).is_none());
    present[7] = true;
    present[9] = true;
    assert_eq!(find_editor(&commands, &present).unwrap(), vec!["code", "-w"]);
}

#[test]
fn programs_are_looked_for_in_the_path() {
    let dirs = |texts: &[&str]| texts.iter().map(|t| t.to_string()).collect::<Vec<String>>();
    assert_eq!(search_places("/bin/sh", &dirs(&["/usr/bin"])), vec!["/bin/sh"]);
    assert_eq!(search_places("./sh", &dirs(&[])), vec!["./sh"]);
    assert_eq!(
        search_places("sh", &dirs(&["/usr/bin", "/bin/", "", "x"])),
        vec!["/usr/bin/sh", "/bin/sh", "sh", "x/sh"]
    );
    assert!(search_places("sh", &dirs(&[])).is_empty());
    assert!(in_path(&vec![false, true]));
    assert!(!in_path(&vec![false, false]));
    assert!(!in_path(&Vec::new()));
}

#[test]
fn editors_that_fail_leave_a_message() {
    let mut app = App::reader(Vec::new(), Vec::new(), "t".to_string(), Vec::new(), Vec::new());
    note_no_editor(&mut app);
    assert_eq!(
        app.status_msg.as_deref(),
        Some("no editor found: set $EDITOR (e.g. export EDITOR=nvim)")
    );
    note_editor(&mut app, EditorOutcome::Exited("exit status: 1".to_string()));
    assert_eq!(app.status_msg.as_deref(), Some("editor exited with exit status: 1"));
    note_editor(&mut app, EditorOutcome::NotStarted("not found".to_string()));
    assert_eq!(app.status_msg.as_deref(), Some("editor failed to start: not found"));
    note_editor(&mut app, EditorOutcome::Success);
    assert_eq!(app.status_msg, None);
}

#[test]
fn white_space_as_in_std() {
    for c in '\0'..=char::MAX {
        assert_eq!(is_white_char(c), c.is_whitespace(), "{c:?}");
    }
}
