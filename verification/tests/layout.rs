use mdterm::app::{reflow, App};
use mdterm::markdown::render;
use mdterm::style::{muted, plain, Color, Line, Span, Style};
use mdterm::table::{render_table, wrap_cell, Align, Table};
use mdterm::width::char_cells;
use mdterm::wrap::wrap_line;
use unicode_width::UnicodeWidthChar;

fn text_of(lines: &[Line]) -> Vec<String> {
    lines
        .iter()
        .map(|l| l.spans.iter().map(|s| s.content.clone()).collect::<String>())
        .collect()
}

fn line(text: &str) -> Line {
    Line { spans: vec![Span::raw(text.to_string())], style: plain() }
}

fn cell(text: &str) -> Vec<Span> {
    vec![Span::raw(text.to_string())]
}

#[test]
fn widths_of_the_known_ranges() {
    for c in (' '..='~').chain('\u{ae}'..='\u{2ff}').chain('\u{370}'..='\u{482}').chain('\u{2500}'..='\u{257f}') {
        assert_eq!(c.width(), Some(1), "{c:?}");
        assert_eq!(char_cells(c), 1);
    }
    for c in '\u{4e00}'..='\u{9fff}' {
        assert_eq!(c.width(), Some(2), "{c:?}");
        assert_eq!(char_cells(c), 2);
    }
    assert_eq!(char_cells('\u{301}'), 0);
    assert_eq!(char_cells('\u{1f600}'), 2);
    assert_eq!(char_cells('\n'), 0);
    assert_eq!(char_cells('\u{17d8}'), 3);
}

#[test]
fn spans_are_measured_as_text() {
    assert_eq!(Span::raw("ab漢".to_string()).width(), 4);
    assert_eq!(Span::raw(String::new()).width(), 0);
    assert_eq!(Span::raw("e\u{301}".to_string()).width(), 1);
}

#[test]
fn wrapping_counts_wide_characters() {
    assert_eq!(text_of(&wrap_line(&line("漢字漢字"), 5)), vec!["漢字", "漢字"]);
    assert_eq!(text_of(&wrap_line(&line("a漢b"), 2)), vec!["a", "漢", "b"]);
}

#[test]
fn wrapping_keeps_styles() {
    let red = Style { fg: Some(Color::Red), ..plain() };
    let l = Line {
        spans: vec![Span::raw("one ".to_string()), Span::styled("two".to_string(), red)],
        style: muted(),
    };
    let wrapped = wrap_line(&l, 4);
    assert_eq!(text_of(&wrapped), vec!["one", "two"]);
    assert_eq!(wrapped[1].spans[0].style, red);
    assert_eq!(wrapped[0].style, muted());
    assert_eq!(wrapped[1].style, muted());
}

#[test]
fn wrapping_drops_spaces_at_breaks() {
    assert_eq!(text_of(&wrap_line(&line("  a   b  "), 10)), vec!["a   b"]);
    assert_eq!(text_of(&wrap_line(&line("aaaa   bbbb"), 6)), vec!["aaaa", "bbbb"]);
}

#[test]
fn wrapping_again_keeps_the_lines() {
    let red = Style { fg: Some(Color::Red), ..plain() };
    let l = Line {
        spans: vec![
            Span::raw("  one two   three ".to_string()),
            Span::styled("four漢字漢字漢字 a".to_string(), red),
            Span::styled("b \u{301} c".to_string(), muted()),
        ],
        style: red,
    };
    for width in 2..24 {
        for wrapped in wrap_line(&l, width) {
            let again = wrap_line(&wrapped, width);
            assert_eq!(again.len(), 1, "{width}");
            assert_eq!(again[0].style, wrapped.style, "{width}");
            let spans = |l: &Line| {
                l.spans.iter().map(|s| (s.content.clone(), s.style)).collect::<Vec<_>>()
            };
            assert_eq!(spans(&again[0]), spans(&wrapped), "{width}");
        }
    }
}

#[test]
fn wrapped_lines_have_no_white_space_around() {
    let l = line("  one\ttwo   three \u{3000} fourfivesix \u{301} seven  ");
    for width in 1..30 {
        for text in text_of(&wrap_line(&l, width)) {
            assert_eq!(text.trim(), text, "{width}");
        }
    }
}

#[test]
fn columns_keep_two_where_two_fit() {
    let table = Table {
        content_line: 0,
        rows: vec![vec![cell("abcdef"), cell("x"), cell("uvw")]],
        header_rows: 0,
        align: Vec::new(),
    };
    assert_eq!(text_of(&render_table(&table, 15))[0], "┌────┬───┬────┐");
    assert_eq!(text_of(&render_table(&table, 14))[0], "┌────┬───┬───┐");
    assert_eq!(text_of(&render_table(&table, 13))[0], "┌───┬───┬───┐");
}

#[test]
fn tables_show_all_of_their_cells() {
    let table = Table {
        content_line: 0,
        rows: vec![
            vec![cell("alpha beta gamma"), cell("one")],
            vec![cell("d"), cell("two three four five"), cell("six")],
        ],
        header_rows: 1,
        align: vec![Align::Right, Align::Center],
    };
    for width in 13..50 {
        let mut shown = vec![vec![String::new(); 3]; 2];
        let mut row = 0;
        for text in &text_of(&render_table(&table, width))[1..] {
            if text.starts_with('├') {
                row += 1;
            } else if text.starts_with('│') {
                for (c, part) in text.trim_matches('│').split('│').enumerate() {
                    shown[row][c].push_str(&part.replace(' ', ""));
                }
            }
        }
        assert_eq!(shown[0], vec!["alphabetagamma", "one", ""], "{width}");
        assert_eq!(shown[1], vec!["d", "twothreefourfive", "six"], "{width}");
    }
}

#[test]
fn wrapping_to_no_width_or_nothing() {
    assert_eq!(text_of(&wrap_line(&line("a b"), 0)), vec!["a b"]);
    assert_eq!(text_of(&wrap_line(&Line::empty(), 5)), vec![""]);
    assert_eq!(text_of(&wrap_line(&line("   "), 5)), vec![""]);
}

#[test]
fn words_without_width_are_dropped() {
    assert_eq!(text_of(&wrap_line(&line("a \u{301} b"), 10)), vec!["a  b"]);
}

#[test]
fn cells_are_padded() {
    assert_eq!(text_of(&wrap_cell(&cell("ab"), 5, Align::Left)), vec!["ab   "]);
    assert_eq!(text_of(&wrap_cell(&cell("ab"), 5, Align::Unset)), vec!["ab   "]);
    assert_eq!(text_of(&wrap_cell(&cell("ab"), 5, Align::Right)), vec!["   ab"]);
    assert_eq!(text_of(&wrap_cell(&cell("ab"), 5, Align::Center)), vec![" ab  "]);
    assert_eq!(text_of(&wrap_cell(&cell("ab cd"), 2, Align::Left)), vec!["ab", "cd"]);
    assert_eq!(text_of(&wrap_cell(&Vec::new(), 2, Align::Left)), vec!["  "]);
}

fn small_table() -> Table {
    Table {
        content_line: 0,
        rows: vec![
            vec![cell("key"), cell("value")],
            vec![cell("a"), cell("one two three")],
            vec![cell("b")],
        ],
        header_rows: 1,
        align: vec![Align::Left, Align::Right],
    }
}

#[test]
fn tables_that_fit_have_one_separator() {
    assert_eq!(
        text_of(&render_table(&small_table(), 40)),
        vec![
            "┌─────┬───────────────┐",
            "│ key │         value │",
            "├─────┼───────────────┤",
            "│ a   │ one two three │",
            "│ b   │               │",
            "└─────┴───────────────┘",
        ]
    );
    let lines = render_table(&small_table(), 40);
    assert!(lines[1].style.bold);
    assert!(!lines[3].style.bold);
    assert_eq!(lines[0].style, muted());
}

#[test]
fn tables_that_wrap_have_a_full_grid() {
    assert_eq!(
        text_of(&render_table(&small_table(), 18)),
        vec![
            "┌─────┬──────────┐",
            "│ key │    value │",
            "├─────┼──────────┤",
            "│ a   │  one two │",
            "│     │    three │",
            "├─────┼──────────┤",
            "│ b   │          │",
            "└─────┴──────────┘",
        ]
    );
}

#[test]
fn columns_are_shrunk_to_their_widest_character() {
    let ascii = Table {
        content_line: 0,
        rows: vec![vec![cell("abc"), cell("xyz")]],
        header_rows: 0,
        align: vec![Align::Left, Align::Left],
    };
    assert_eq!(
        text_of(&render_table(&ascii, 9)),
        vec!["┌───┬───┐", "│ a │ x │", "│ b │ y │", "│ c │ z │", "└───┴───┘"]
    );
    assert_eq!(text_of(&render_table(&ascii, 10))[0], "┌────┬───┐");
    // There is no narrower layout, and without any room for text none is tried.
    assert_eq!(text_of(&render_table(&ascii, 8))[0], "┌───┬───┐");
    assert_eq!(text_of(&render_table(&ascii, 7))[0], "┌─────┬─────┐");
    let wide = Table {
        content_line: 0,
        rows: vec![vec![cell("漢字"), cell("x")], vec![cell("ab"), cell("yz")]],
        header_rows: 0,
        align: Vec::new(),
    };
    assert_eq!(
        text_of(&render_table(&wide, 10)),
        vec![
            "┌────┬───┐", "│ 漢 │ x │", "│ 字 │   │", "├────┼───┤", "│ ab │ y │", "│    │ z │",
            "└────┴───┘",
        ]
    );
}

#[test]
fn all_lines_of_a_table_are_as_wide() {
    for width in 9..40 {
        let lines = text_of(&render_table(&small_table(), width));
        let w = lines[0].chars().count();
        assert!(w <= width, "{width}: {lines:?}");
        assert!(lines.iter().all(|l| l.chars().count() == w), "{width}: {lines:?}");
    }
}

#[test]
fn pages_show_every_line_in_order() {
    let d = render("# Title here\n\nsome words\n\n| a |\n|---|\n| 1 |\n\nend", ".").unwrap();
    let mut app = App::reader(d.content, d.headings, "t".to_string(), d.images, d.tables);
    reflow(&mut app, 6);
    assert_eq!(
        text_of(&app.lines),
        vec![
            "Title", "here", "", "some", "words", "", "┌───┐", "│ a │", "├───┤", "│ 1 │", "└───┘", "end",
        ]
    );
    assert_eq!(app.headings[0].line, 0);
}

#[test]
fn the_last_width_counts() {
    let md = "# One two three\n\nfour five six seven\n\n## Eight nine\n\nten";
    let d = render(md, ".").unwrap();
    let e = render(md, ".").unwrap();
    let mut a = App::reader(d.content, d.headings, "t".to_string(), d.images, d.tables);
    let mut b = App::reader(e.content, e.headings, "t".to_string(), e.images, e.tables);
    reflow(&mut a, 5);
    reflow(&mut a, 9);
    reflow(&mut b, 9);
    assert_eq!(text_of(&a.lines), text_of(&b.lines));
    assert_eq!(a.headings[1].line, b.headings[1].line);
    assert_eq!(text_of(&a.lines)[a.headings[1].line], "Eight");
}
