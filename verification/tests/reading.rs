use mdterm::app::{
    is_consistent, load_file, reflow, reload, render_file, select_heading, toggle_outline, App,
    Entry, Mode, Picker,
};
use mdterm::browse::{refresh_picker, sort_entries, Keyed};
use mdterm::input::{handle_key, handle_resize, handle_scroll, open_picker, Action, Key};
use mdterm::markdown::render;
use mdterm::style::{muted, plain, Color, Line, Style};
use mdterm::ui::{
    display_lines, find_texts, frame_title, mark_lines, message_width, outline_lines,
    outline_scroll, outline_width, picker_lines, picker_status_line, prepare_frame, scroll_position,
    scrollbar_length, shows_outline, status_line,
};

fn text_of(lines: &[Line]) -> Vec<String> {
    lines
        .iter()
        .map(|l| l.spans.iter().map(|s| s.content.clone()).collect::<String>())
        .collect()
}

fn reader(md: &str) -> App {
    let d = render(md, ".").unwrap();
    App::reader(d.content, d.headings, "t".to_string(), d.images, d.tables)
}

fn long_text() -> String {
    let mut s = "# One\n\n".to_string();
    for i in 0..20 {
        s.push_str(&format!("line {i}\n\n"));
    }
    s.push_str("## Two\n\nend\n");
    s
}

fn entry(name: &str, is_dir: bool) -> Entry {
    Entry { name: name.to_string(), path: format!("/home/{name}"), is_dir }
}

fn in_picker(entries: Vec<Entry>) -> App {
    let mut app = App::reader(Vec::new(), Vec::new(), "picker".to_string(), Vec::new(), Vec::new());
    app.picker = Picker::new("/home".to_string());
    app.mode = Mode::Picker;
    refresh_picker(&mut app, entries);
    app
}

fn press(app: &mut App, keys: &[Key]) {
    for key in keys {
        assert!(matches!(handle_key(app, *key), Action::Continue), "{key:?}");
    }
}

#[test]
fn reload_keeps_position_and_content() {
    let d = render_file("# A\n\nsome text", "/tmp/md_reload_test.md").unwrap();
    let mut app = App::reader(d.content, d.headings, "t".to_string(), d.images, d.tables);
    app.path = "/tmp/md_reload_test.md".to_string();
    app.offset = 2;
    reflow(&mut app, 40);
    assert_eq!(app.offset, 2);

    let edited = render_file("# A\n\nnew line added\n\nsome text", &app.path).unwrap();
    reload(&mut app, edited);
    let texts = text_of(&app.content);
    assert!(
        texts.iter().any(|t| t.contains("new line added")),
        "reload should pick up edits, got: {texts:?}"
    );
    reflow(&mut app, 40);
    assert_eq!(app.offset, 2);
    assert!(app.offset <= app.lines.len());
    assert_eq!(app.filename, "md_reload_test.md");
}

#[test]
fn reload_keeps_the_selection_inside() {
    let mut app = reader("# A\n\n# B\n\n# C");
    app.selected = 2;
    reload(&mut app, render("# A\n\n# B", ".").unwrap());
    assert_eq!(app.selected, 1);
    reload(&mut app, render("text", ".").unwrap());
    assert_eq!(app.selected, 0);
    assert_eq!(app.wrap_width, usize::MAX);
}

#[test]
fn new_reader() {
    let app = reader("![a](b.png)");
    assert_eq!(app.image_placed, vec![false]);
    assert_eq!(app.wrap_width, usize::MAX);
    assert_eq!((app.offset, app.viewport, app.selected), (0, 0, 0));
    assert!(app.show_outline && app.mode == Mode::Reader && app.status_msg.is_none());
    assert_eq!((app.path.as_str(), app.picker.cwd.as_str()), (".", "."));
    let p = Picker::new("/x".to_string());
    assert_eq!((p.cwd.as_str(), p.start.as_str(), p.selected), ("/x", "/x", 0));
    assert!(!p.from_reader && !p.show_hidden && p.entries.is_empty());
}

#[test]
fn load_file_starts_at_the_top() {
    let mut app = reader(&long_text());
    app.offset = 7;
    app.selected = 1;
    app.show_outline = false;
    app.mode = Mode::Picker;
    let d = render_file("# X\n\n![i](p.png)", "notes/x.md").unwrap();
    load_file(&mut app, d, "notes/x.md");
    assert_eq!((app.offset, app.selected, app.viewport), (0, 0, 0));
    assert!(app.show_outline && app.mode == Mode::Reader);
    assert_eq!((app.filename.as_str(), app.path.as_str()), ("x.md", "notes/x.md"));
    assert_eq!(app.images[0].path, "notes/p.png");
    assert_eq!(app.image_placed, vec![false]);
    assert!(app.lines.is_empty());
}

#[test]
fn headings_are_selected_and_shown() {
    let mut app = reader(&long_text());
    reflow(&mut app, 40);
    select_heading(&mut app, 1);
    assert_eq!((app.selected, app.offset), (1, app.headings[1].line));
    select_heading(&mut app, 99);
    assert_eq!(app.selected, 1);
    toggle_outline(&mut app);
    assert!(!app.show_outline);
    toggle_outline(&mut app);
    assert!(app.show_outline);
    assert_eq!(app.selected, 1);
    app.offset = app.headings[1].line - 1;
    app.show_outline = false;
    toggle_outline(&mut app);
    assert_eq!(app.selected, 0);
    let mut plain_text = reader("no headings");
    select_heading(&mut plain_text, 3);
    assert_eq!((plain_text.selected, plain_text.offset), (0, 0));
}

#[test]
fn frames_are_laid_out_for_their_width() {
    let mut app = reader(&long_text());
    app.offset = 1000;
    prepare_frame(&mut app, 3, 4, 41, 10);
    assert_eq!(app.wrap_width, 40);
    assert_eq!((app.content_x, app.content_y, app.content_w), (3, 4, 41));
    assert_eq!(app.viewport, 10);
    assert_eq!(app.offset, app.lines.len() - 10);
    let before = text_of(&app.lines);
    prepare_frame(&mut app, 3, 4, 41, 1000);
    assert_eq!(app.offset, 0);
    assert_eq!(text_of(&app.lines), before);
    assert_eq!(scrollbar_length(&app), 1);
    app.viewport = 10;
    assert_eq!(scrollbar_length(&app), app.lines.len() - 10 + 1);
    prepare_frame(&mut app, 0, 0, 0, 0);
    assert_eq!(app.wrap_width, 0);
}

#[test]
fn the_outline_marks_the_selection() {
    let mut app = reader("# A\n\n### B");
    app.selected = 1;
    assert!(shows_outline(&app));
    assert_eq!(outline_width(&app), 24);
    let lines = outline_lines(&app);
    assert_eq!(text_of(&lines), vec!["  A", "▸     B"]);
    assert_eq!(lines[0].style, plain());
    assert_eq!(lines[0].spans[0].style, muted());
    assert_eq!(lines[1].style, Style { bg: Some(Color::DarkGray), ..plain() });
    assert_eq!(lines[1].spans[0].style, Style { fg: Some(Color::Yellow), ..plain() });
    assert_eq!(lines[1].spans[1].style, Style { fg: Some(Color::Cyan), ..plain() });
    app.show_outline = false;
    assert!(!shows_outline(&app));
    assert_eq!(outline_width(&app), 0);
    assert!(!shows_outline(&reader("text")));
}

#[test]
fn the_outline_scrolls_with_the_selection() {
    let mut app = reader(&"# A\n\n".repeat(30));
    for (selected, expected) in [(0, 0), (5, 0), (6, 1), (20, 15), (25, 20), (29, 20)] {
        app.selected = selected;
        assert_eq!(outline_scroll(&app, 10), expected, "{selected}");
    }
    assert_eq!(outline_scroll(&app, 100), 0);
}

#[test]
fn searches_mark_their_matches() {
    let mut app = reader("Alpha\n\nbeta\n\nALPHA beta");
    reflow(&mut app, 40);
    press(&mut app, &[Key::Char('/'), Key::Char('a'), Key::Char('l'), Key::Char('X'), Key::Backspace]);
    assert_eq!(app.query, "al");
    let lines = display_lines(&mut app);
    assert_eq!(app.matches, vec![0, 2]);
    let yellow = Style { bg: Some(Color::Yellow), ..plain() };
    assert_eq!((lines[0].style, lines[1].style, lines[2].style), (yellow, plain(), yellow));
    assert_eq!(status_line(&app), "search: al (2) · Enter jump · Esc cancel");
    press(&mut app, &[Key::Enter]);
    assert_eq!((app.offset, app.mode == Mode::Reader, app.query.as_str()), (0, true, ""));
    assert!(app.matches.is_empty());
    let unmarked = display_lines(&mut app);
    assert!(unmarked.iter().all(|l| l.style == plain()));
}

#[test]
fn searches_are_blind_to_case() {
    let mut app = reader("straße ÄÖÜ");
    reflow(&mut app, 40);
    press(&mut app, &[Key::Char('/'), Key::Char('ä'), Key::Char('Ö')]);
    display_lines(&mut app);
    assert_eq!(app.matches, vec![0]);
}

#[test]
fn abandoned_searches_keep_the_position() {
    let mut app = reader(&long_text());
    app.offset = 5;
    press(&mut app, &[Key::Char('/'), Key::Char('q'), Key::Home, Key::Esc]);
    assert_eq!((app.offset, app.mode == Mode::Reader, app.query.as_str()), (5, true, ""));
    press(&mut app, &[Key::Char('/'), Key::Enter]);
    assert_eq!(app.offset, 5);
}

#[test]
fn reader_keys_scroll() {
    let mut app = reader(&long_text());
    reflow(&mut app, 40);
    press(&mut app, &[Key::Esc]);
    assert!(!app.show_outline);
    app.viewport = 10;
    press(&mut app, &[Key::Char('j'), Key::Down, Key::Down, Key::Up]);
    assert_eq!(app.offset, 2);
    press(&mut app, &[Key::PageDown]);
    assert_eq!(app.offset, 11);
    press(&mut app, &[Key::Char(' '), Key::PageUp, Key::PageUp]);
    assert_eq!(app.offset, 2);
    press(&mut app, &[Key::Char('k'), Key::Char('k'), Key::Char('k')]);
    assert_eq!(app.offset, 0);
    press(&mut app, &[Key::Char('G')]);
    assert_eq!(app.offset, usize::MAX);
    assert_eq!(scroll_position(&app), u16::MAX);
    press(&mut app, &[Key::Char('j')]);
    assert_eq!(app.offset, usize::MAX);
    press(&mut app, &[Key::Char('g')]);
    assert_eq!(app.offset, 0);
    app.offset = 9;
    press(&mut app, &[Key::Home, Key::Enter, Key::Right, Key::Char('l'), Key::Other]);
    assert_eq!(app.offset, 0);
    app.viewport = 0;
    press(&mut app, &[Key::PageDown]);
    assert_eq!(app.offset, 1);
    assert!(matches!(handle_key(&mut app, Key::Esc), Action::Quit));
    assert!(matches!(handle_key(&mut app, Key::Char('q')), Action::Quit));
}

#[test]
fn outline_keys_jump() {
    let mut app = reader(&long_text());
    reflow(&mut app, 40);
    press(&mut app, &[Key::Down]);
    assert_eq!((app.selected, app.offset), (1, app.headings[1].line));
    press(&mut app, &[Key::Char('j')]);
    assert_eq!(app.selected, 1);
    press(&mut app, &[Key::Char('k')]);
    assert_eq!((app.selected, app.offset), (0, 0));
    app.offset = 4;
    press(&mut app, &[Key::Char('l')]);
    assert_eq!(app.offset, 0);
    press(&mut app, &[Key::Tab, Key::Char('o')]);
    assert!(app.show_outline);
}

#[test]
fn keys_ask_for_outside_work() {
    let mut app = reader("text");
    app.status_msg = Some("old".to_string());
    assert!(matches!(handle_key(&mut app, Key::Char('e')), Action::Edit));
    assert_eq!(app.status_msg.as_deref(), Some("old"));
    assert!(matches!(handle_key(&mut app, Key::Char('p')), Action::OpenPicker));
    assert_eq!(app.status_msg, None);
}

#[test]
fn status_lines() {
    let mut app = reader("text");
    assert_eq!(
        status_line(&app),
        "↑/↓ j/k select & jump · Enter/→ jump · o/Tab toggle · / search · p open · e edit · q quit"
    );
    app.show_outline = false;
    assert_eq!(
        status_line(&app),
        "↑/↓ j/k scroll · PgUp/PgDn space page · o/Tab outline · / search · p open · e edit · g/G top/bottom · q quit"
    );
    assert_eq!(frame_title("a.md"), " a.md ");
    assert_eq!(message_width("grün"), 4);
    assert_eq!(message_width(&"x".repeat(65537)), 1);
}

#[test]
fn the_wheel_scrolls_by_three() {
    let mut app = reader("text");
    handle_scroll(&mut app, true);
    assert_eq!(app.offset, 3);
    handle_scroll(&mut app, false);
    handle_scroll(&mut app, false);
    assert_eq!(app.offset, 0);
    let mut picker = in_picker((0..5).map(|i| entry(&format!("f{i}"), false)).collect());
    handle_scroll(&mut picker, true);
    assert_eq!(picker.picker.selected, 3);
    handle_scroll(&mut picker, true);
    assert_eq!(picker.picker.selected, 4);
    handle_scroll(&mut picker, false);
    assert_eq!((picker.picker.selected, picker.offset), (1, 0));
    let mut empty = in_picker(Vec::new());
    handle_scroll(&mut empty, true);
    assert_eq!(empty.picker.selected, 0);
}

#[test]
fn a_resize_forgets_the_images() {
    let mut app = reader("![a](b)\n\n![c](d)");
    app.image_placed = vec![true, false];
    handle_resize(&mut app);
    assert_eq!(app.image_placed, vec![false, false]);
}

#[test]
fn the_picker_opens_over_the_document() {
    let mut app = reader("![a](b)");
    app.image_placed = vec![true];
    app.image_rows = vec![(0, 0)];
    open_picker(&mut app, "/home/me");
    assert_eq!(app.image_placed, vec![false]);
    assert!(app.image_rows.is_empty() && app.mode == Mode::Picker && app.picker.from_reader);
    assert_eq!((app.picker.cwd.as_str(), app.picker.start.as_str()), ("/home/me", "/home/me"));
    app.wrap_width = 10;
    press(&mut app, &[Key::Esc]);
    assert!(app.mode == Mode::Reader);
    assert_eq!(app.wrap_width, usize::MAX);
}

#[test]
fn an_opened_picker_has_one_flag_for_each_image() {
    let mut app = reader("![a](a.png)\n\n![b](b.png)");
    app.image_placed = Vec::new();
    open_picker(&mut app, "/home");
    assert_eq!(app.image_placed, vec![false, false]);
}

#[test]
fn frames_of_the_same_width_are_not_laid_out_again() {
    let mut app = reader("# A\n\ntext");
    prepare_frame(&mut app, 0, 0, 21, 5);
    app.headings[0].content_line = 99;
    prepare_frame(&mut app, 1, 2, 21, 6);
    assert_eq!((app.content_x, app.content_y, app.viewport), (1, 2, 6));
    assert_eq!(text_of(&app.lines), vec!["A", "", "text"]);
}

#[test]
fn listings_have_directories_first() {
    let app = in_picker(vec![
        entry("beta.md", false),
        entry(".git", true),
        entry("Alpha", false),
        entry("zoo", true),
        entry("alpha", false),
        entry("Bin", true),
        entry(".env", false),
    ]);
    let names: Vec<&str> = app.picker.entries.iter().map(|e| e.name.as_str()).collect();
    assert_eq!(names, vec!["Bin", "zoo", "Alpha", "alpha", "beta.md"]);
    assert_eq!(app.picker.selected, 0);
}

#[test]
fn hidden_entries_can_be_shown() {
    let mut app = in_picker(vec![entry("a", false)]);
    assert!(matches!(handle_key(&mut app, Key::Char('h')), Action::ListFiles));
    assert!(app.picker.show_hidden);
    refresh_picker(&mut app, vec![entry("a", false), entry(".b", false), entry("..c", true)]);
    let names: Vec<&str> = app.picker.entries.iter().map(|e| e.name.as_str()).collect();
    assert_eq!(names, vec!["..c", ".b", "a"]);
    assert_eq!(
        picker_status_line(&app),
        "↑/↓ j/k select · Enter open · Backspace/Esc up · h hidden:on · q quit"
    );
    app.picker.show_hidden = false;
    assert_eq!(
        picker_status_line(&app),
        "↑/↓ j/k select · Enter open · Backspace/Esc up · h hidden:off · q quit"
    );
}

#[test]
fn picker_lines_show_what_entries_are() {
    let app = in_picker(vec![
        entry("dir", true),
        entry("a.md", false),
        entry("b.markdown", false),
        entry("c.txt", false),
        entry("d.MD", false),
    ]);
    let lines = picker_lines(&app);
    assert_eq!(text_of(&lines), vec!["▸ dir/", "a.md", "b.markdown", "c.txt", "d.MD"]);
    let colors: Vec<Option<Color>> = lines.iter().map(|l| l.spans[0].style.fg).collect();
    assert_eq!(
        colors,
        vec![Some(Color::Cyan), Some(Color::Green), Some(Color::Green), None, None]
    );
}

#[test]
fn picker_keys_move_the_selection() {
    let mut app = in_picker((0..30).map(|i| entry(&format!("f{i:02}"), false)).collect());
    press(&mut app, &[Key::Up, Key::Down, Key::Char('j')]);
    assert_eq!(app.picker.selected, 2);
    press(&mut app, &[Key::PageDown]);
    assert_eq!(app.picker.selected, 12);
    press(&mut app, &[Key::Char('G'), Key::Down, Key::PageDown]);
    assert_eq!(app.picker.selected, 29);
    press(&mut app, &[Key::PageUp, Key::Char('k')]);
    assert_eq!(app.picker.selected, 18);
    press(&mut app, &[Key::Char('g')]);
    assert_eq!(app.picker.selected, 0);
    assert!(matches!(handle_key(&mut app, Key::Char('q')), Action::Quit));
    let mut empty = in_picker(Vec::new());
    press(&mut empty, &[Key::Down, Key::PageDown, Key::Char('G'), Key::Enter]);
    assert_eq!(empty.picker.selected, 0);
}

#[test]
fn picker_keys_walk_directories() {
    let mut app = in_picker(vec![entry("docs", true), entry("a.md", false)]);
    press(&mut app, &[Key::Backspace]);
    assert_eq!(app.picker.cwd, "/home");
    assert!(matches!(handle_key(&mut app, Key::Enter), Action::ListFiles));
    assert_eq!(app.picker.cwd, "/home/docs");
    assert!(matches!(handle_key(&mut app, Key::Backspace), Action::ListFiles));
    assert_eq!(app.picker.cwd, "/home");
    app.picker.cwd = "/home/docs/x".to_string();
    assert!(matches!(handle_key(&mut app, Key::Esc), Action::ListFiles));
    assert_eq!(app.picker.cwd, "/home/docs");
    app.picker.cwd = "/home/./".to_string();
    assert!(matches!(handle_key(&mut app, Key::Esc), Action::Quit));
    app.picker.selected = 1;
    match handle_key(&mut app, Key::Enter) {
        Action::OpenFile(path) => assert_eq!(path, "/home/a.md"),
        _ => panic!("a file should be opened"),
    }
}

#[test]
fn the_picker_stays_below_its_start() {
    let mut app = in_picker(vec![entry("docs", true)]);
    assert!(matches!(handle_key(&mut app, Key::Enter), Action::ListFiles));
    let deep = Entry {
        name: "more".to_string(),
        path: "/home/docs/more".to_string(),
        is_dir: true,
    };
    refresh_picker(&mut app, vec![deep]);
    assert!(matches!(handle_key(&mut app, Key::Enter), Action::ListFiles));
    let mut seen = vec![app.picker.cwd.clone()];
    for key in [Key::Backspace, Key::Esc] {
        assert!(matches!(handle_key(&mut app, key), Action::ListFiles));
        refresh_picker(&mut app, Vec::new());
        seen.push(app.picker.cwd.clone());
    }
    assert_eq!(seen, vec!["/home/docs/more", "/home/docs", "/home"]);
    for _ in 0..3 {
        assert!(matches!(handle_key(&mut app, Key::Backspace), Action::Continue));
        assert_eq!(app.picker.cwd, "/home");
    }
    assert!(matches!(handle_key(&mut app, Key::Esc), Action::Quit));
    assert_eq!(app.picker.cwd, "/home");
}

#[test]
fn texts_are_found_and_marked() {
    let texts: Vec<String> = ["abc", "xbx", "ac", ""].map(String::from).to_vec();
    assert_eq!(find_texts(&texts, "b"), vec![0, 1]);
    assert_eq!(find_texts(&texts, ""), vec![0, 1, 2, 3]);
    assert!(find_texts(&texts, "zz").is_empty());
    let lines = reader("one\n\ntwo").content;
    let marked = mark_lines(&lines, &vec![1]);
    assert_eq!(marked[0].style, plain());
    assert_eq!(marked[1].style, Style { bg: Some(Color::Yellow), ..plain() });
    assert_eq!(text_of(&marked), vec!["one", "two"]);
}

#[test]
fn entries_are_sorted_by_their_keys() {
    let keyed = |name: &str, is_dir: bool, key: &str| Keyed {
        entry: entry(name, is_dir),
        key: key.to_string(),
    };
    let found = vec![
        keyed("x", false, "2"),
        keyed("y", true, "9"),
        keyed("z", false, "1"),
        keyed("w", false, "2"),
        keyed(".v", true, "0"),
    ];
    let names: Vec<String> = sort_entries(found, false).into_iter().map(|e| e.name).collect();
    assert_eq!(names, vec!["y", "z", "x", "w"]);
}

#[test]
fn inconsistent_readers_are_told_apart() {
    let mut app = reader("# A\n\n![i](x.png)");
    assert!(is_consistent(&app));
    app.image_rows = vec![(1, 0)];
    assert!(!is_consistent(&app));
    app.image_rows = vec![(0, 0)];
    assert!(is_consistent(&app));
    app.image_placed = Vec::new();
    assert!(!is_consistent(&app));
    app.image_placed = vec![true];
    app.headings[0].content_line = app.content.len();
    assert!(!is_consistent(&app));
}
