use mdterm::app::{reflow, App};
use mdterm::events::{read_events, MdEvent, MdTag, MdTagEnd};
use mdterm::markdown::{render, render_events, Document, Md};
use mdterm::style::{muted, plain, Color, Line, Style};
use mdterm::table::Align;
use mdterm::wrap::wrap_line;

fn text_of(lines: &[Line]) -> Vec<String> {
    lines
        .iter()
        .map(|l| l.spans.iter().map(|s| s.content.clone()).collect::<String>())
        .collect()
}

fn rendered(md: &str) -> Document {
    render(md, ".").unwrap()
}

fn reader(d: Document) -> App {
    App::reader(d.content, d.headings, "t".to_string(), d.images, d.tables)
}

fn fg(color: Color) -> Style {
    Style { fg: Some(color), ..plain() }
}

#[test]
fn headings_and_paragraphs() {
    let d = rendered("# Title\n\nSome *em* **strong** text.");
    let t = text_of(&d.content).join("\n");
    assert!(t.contains("Title"));
    assert!(t.contains("Some em strong text."));
}

#[test]
fn inline_styles() {
    let d = rendered("**bold** and *italic* and ~~strike~~");
    let line = &d.content[0];
    let bold = line.spans.iter().find(|s| s.content == "bold").unwrap();
    assert!(bold.style.bold);
    let italic = line.spans.iter().find(|s| s.content == "italic").unwrap();
    assert!(italic.style.italic);
    let strike = line.spans.iter().find(|s| s.content == "strike").unwrap();
    assert!(strike.style.crossed_out);
}

#[test]
fn lists_and_tasks() {
    let d = rendered("- one\n- two\n\n1. first\n2. second");
    let t = text_of(&d.content).join("\n");
    assert!(t.contains("• one"));
    assert!(t.contains("• two"));
    assert!(t.contains("1. first"));
    assert!(t.contains("2. second"));
}

#[test]
fn code_block_with_language() {
    let d = rendered("```rust\nfn main() {}\n```");
    let t = text_of(&d.content);
    assert!(t[0].contains("rust"), "got: {t:?}");
    assert!(t[1].contains("fn main() {}"), "got: {t:?}");
}

#[test]
fn code_block_without_language() {
    let d = rendered("```\nplain\n```");
    let t = text_of(&d.content);
    assert!(t.iter().any(|l| l.contains("plain")), "got: {t:?}");
    assert!(!t.iter().any(|l| l.contains("rust")), "got: {t:?}");
}

#[test]
fn links() {
    let d = rendered("[ratatui](https://ratatui.rs)");
    assert!(text_of(&d.content).join("\n").contains("ratatui (https://ratatui.rs)"));
}

#[test]
fn tables() {
    let d = rendered("| a | b |\n|---|--:|\n| 1 | 2 |");
    let mut app = App::reader(d.content, Vec::new(), "t".to_string(), Vec::new(), d.tables);
    reflow(&mut app, 40);
    let t = text_of(&app.lines).join("\n");
    assert!(t.contains("┌───┬───┐"), "got: {t:?}");
    assert!(t.contains("│ a │ b │"), "got: {t:?}");
    assert!(t.contains("├───┼───┤"), "got: {t:?}");
    assert!(t.contains("│ 1 │ 2 │"), "got: {t:?}");
    assert!(t.contains("└───┴───┘"), "got: {t:?}");
}

#[test]
fn table_columns_align() {
    let d = rendered("| item | n |\n|------|--:|\n| a    | 2 |\n| b    | 100 |");
    let mut app = App::reader(d.content, Vec::new(), "t".to_string(), Vec::new(), d.tables);
    reflow(&mut app, 40);
    let t = text_of(&app.lines).join("\n");
    assert!(t.contains("│ a    │   2 │"), "got: {t:?}");
    assert!(t.contains("│ b    │ 100 │"), "got: {t:?}");
}

#[test]
fn wide_table_wraps_cells() {
    let long = "x".repeat(120);
    let md = format!("| key | value |\n|---|---|\n| a | {long} |");
    let d = rendered(&md);
    let mut app = App::reader(d.content, Vec::new(), "t".to_string(), Vec::new(), d.tables);
    reflow(&mut app, 30);
    let t = text_of(&app.lines);
    for line in &t {
        assert!(line.chars().count() <= 30, "table line exceeds width: {line:?}");
    }
    assert!(t[0].starts_with('┌') && t[0].ends_with('┐'), "got: {t:?}");
    assert!(t.last().unwrap().starts_with('└'), "got: {t:?}");
    assert!(
        t.iter().filter(|l| l.starts_with('├')).count() >= 1,
        "wrapped rows need grid separators, got: {t:?}"
    );
    let all: String = t.join("");
    assert!(
        all.chars().filter(|&c| c == 'x').count() >= 120,
        "long cell should be fully visible, got: {t:?}"
    );
}

#[test]
fn blockquote() {
    let d = rendered("> hello");
    assert!(text_of(&d.content).join("\n").contains("▎ hello"));
}

#[test]
fn images_emit_placeholder() {
    let d = rendered("![alt text](img.png)");
    let t = text_of(&d.content);
    assert!(t.iter().any(|l| l.contains("alt text")), "got: {t:?}");
    assert_eq!(d.images.len(), 1);
    assert_eq!(d.images[0].content_line, 0);
    assert!(d.images[0].dims.is_none());
}

#[test]
fn outline_tracks_headings() {
    let d = rendered("# Title\n\n## Sub\n\n### Deep");
    assert_eq!(d.headings.len(), 3);
    assert_eq!(d.headings[0].title, "Title");
    assert_eq!(d.headings[0].level, 1);
    assert_eq!(d.headings[0].content_line, 0);
    assert_eq!(d.headings[1].title, "Sub");
    assert_eq!(d.headings[1].level, 2);
    assert_eq!(d.headings[2].title, "Deep");
    assert_eq!(d.headings[2].level, 3);
}

#[test]
fn wrap_breaks_words() {
    let d = rendered("one two three four");
    let wrapped = wrap_line(&d.content[0], 7);
    let t = text_of(&wrapped);
    assert_eq!(t, vec!["one two", "three", "four"], "got: {t:?}");
}

#[test]
fn wrap_hard_breaks_long_words() {
    let d = rendered("abcdefghij");
    let wrapped = wrap_line(&d.content[0], 4);
    let t = text_of(&wrapped);
    assert_eq!(t, vec!["abcd", "efgh", "ij"], "got: {t:?}");
}

#[test]
fn reflow_updates_heading_lines() {
    let d = rendered("# Title\n\nlong paragraph text here");
    let mut app = App::reader(d.content, d.headings, "test".to_string(), Vec::new(), Vec::new());
    reflow(&mut app, 8);
    assert_eq!(app.headings[0].line, 0);
    assert!(app.lines.len() > app.content.len());
}

#[test]
fn blank_lines_separate_blocks() {
    let d = rendered("# A\n\npara\n\n```\ncode\n```\n\n> quote\n\nend");
    assert_eq!(
        text_of(&d.content),
        vec!["A", "", "para", "", "  code", "", "▎ quote", "", "end"]
    );
}

#[test]
fn paragraphs_are_not_separated() {
    let d = rendered("one\n\ntwo");
    assert_eq!(text_of(&d.content), vec!["one", "two"]);
}

#[test]
fn heading_styles_by_level() {
    let d = rendered("# A\n\n## B\n\n### C\n\n###### F");
    let style = |i: usize| d.content[d.headings[i].content_line].style;
    assert_eq!(style(0), Style { bold: true, ..fg(Color::Yellow) });
    assert_eq!(style(1), Style { bold: true, ..fg(Color::Green) });
    assert_eq!(style(2), Style { bold: true, ..fg(Color::Cyan) });
    assert_eq!(style(3), Style { bold: true, ..fg(Color::Cyan) });
    assert_eq!(d.headings[3].level, 6);
    assert_eq!(d.headings[3].line, d.headings[3].content_line);
}

#[test]
fn headings_have_levels_from_one_to_six() {
    let md = "# a\n\n## b\n\n### c\n\n#### d\n\n##### e\n\n###### f\n\n####### g\n\nh\n=";
    let levels: Vec<u8> = rendered(md).headings.iter().map(|h| h.level).collect();
    assert_eq!(levels, vec![1, 2, 3, 4, 5, 6, 1]);
}

#[test]
fn space_is_made_once() {
    let d = rendered("# A\n\n***\n\n- b\n\n> c\n\n```\nd\n```\n\n# E");
    let lines = text_of(&d.content);
    assert_eq!(lines[1], "");
    for i in 1..lines.len() {
        assert!(!lines[i].is_empty() || !lines[i - 1].is_empty(), "{lines:?}");
    }
}

#[test]
fn blank_lines_are_not_doubled() {
    let mut m = Md::new(".".to_string());
    m.blank();
    assert!(m.out.is_empty());
    m.event(MdEvent::Rule);
    let n = m.out.len();
    m.blank();
    m.blank();
    assert_eq!(m.out.len(), n);
    assert_eq!(n, 2);
}

#[test]
fn events_that_are_not_rendered_change_nothing() {
    let events = |between: Vec<MdEvent>| {
        let mut all = vec![MdEvent::Start(MdTag::Paragraph), MdEvent::Text("a".to_string())];
        all.extend(between);
        all.push(MdEvent::Text("b".to_string()));
        all.push(MdEvent::End(MdTagEnd::Paragraph));
        render_events(all, ".").unwrap()
    };
    let with = events(vec![
        MdEvent::Other,
        MdEvent::Start(MdTag::Other),
        MdEvent::End(MdTagEnd::Other),
    ]);
    let without = events(Vec::new());
    assert_eq!(text_of(&with.content), vec!["ab"]);
    assert_eq!(with.content[0].spans.len(), without.content[0].spans.len());
}

#[test]
fn quote_lines_are_gray() {
    let d = rendered("> a\n> > b");
    assert_eq!(text_of(&d.content)[0], "▎ a");
    assert_eq!(text_of(&d.content)[1], "▎ ▎ b");
    assert_eq!(d.content[0].style, fg(Color::Gray));
    assert_eq!(d.content[0].spans[0].style, muted());
}

#[test]
fn nested_lists_are_indented() {
    let d = rendered("- a\n  - b\n    1. c");
    let t = text_of(&d.content);
    assert!(t.contains(&"• a".to_string()), "got: {t:?}");
    assert!(t.contains(&"  • b".to_string()), "got: {t:?}");
    assert!(t.contains(&"    1. c".to_string()), "got: {t:?}");
}

#[test]
fn ordered_lists_start_where_they_say() {
    let d = rendered("7. a\n8. b");
    assert_eq!(text_of(&d.content)[..2], ["7. a".to_string(), "8. b".to_string()]);
}

#[test]
fn task_boxes() {
    let d = rendered("- [x] done\n- [ ] open");
    let t = text_of(&d.content);
    assert_eq!(t[0], "• [x] done");
    assert_eq!(t[1], "• [ ] open");
    assert_eq!(d.content[0].spans[1].style, fg(Color::Green));
    assert_eq!(d.content[1].spans[1].style, muted());
}

#[test]
fn rules_are_a_hundred_columns() {
    let d = rendered("a\n\n---\n\nb");
    assert_eq!(text_of(&d.content)[1], "─".repeat(100));
    assert_eq!(text_of(&d.content)[2], "");
    assert_eq!(d.content[1].style, muted());
}

#[test]
fn autolinks_are_not_repeated() {
    let d = rendered("<https://ratatui.rs>");
    assert_eq!(text_of(&d.content), vec!["https://ratatui.rs"]);
    assert_eq!(
        d.content[0].spans[0].style,
        Style { underlined: true, ..fg(Color::Cyan) }
    );
}

#[test]
fn inline_code_and_breaks() {
    let d = rendered("a `b` c\nd  \ne");
    assert_eq!(text_of(&d.content), vec!["a b c d", "e"]);
    assert_eq!(d.content[0].spans[1].style, muted());
}

#[test]
fn link_with_a_hard_break_has_no_rendering() {
    assert!(render("x *y* [a  \nb](u)", ".").is_none());
    assert_eq!(text_of(&rendered("[a  \nb](u)").content), vec!["a", "b (u)"]);
}

#[test]
fn code_keeps_its_lines() {
    let d = rendered("```sh\na\n\nb\n\n\n```");
    assert_eq!(text_of(&d.content)[..4], ["  sh", "  a", "  ", "  b"].map(String::from));
    assert_eq!(d.content[0].style, Style { italic: true, ..muted() });
    assert_eq!(d.content[1].style, muted());
}

#[test]
fn image_paths_and_labels() {
    let d = render("![](pics/cat.png)\n\n![x](/abs/dog.png)\n\n![](..)", "docs").unwrap();
    assert_eq!(d.images[0].path, "docs/pics/cat.png");
    assert_eq!(d.images[1].path, "/abs/dog.png");
    assert_eq!(d.images[2].path, "docs/..");
    assert_eq!(text_of(&d.content), vec!["▦ cat.png", "▦ x", "▦ image"]);
    assert_eq!(d.images.iter().map(|i| i.id).collect::<Vec<u32>>(), vec![1, 2, 3]);
    assert_eq!(d.images.iter().map(|i| i.content_line).collect::<Vec<usize>>(), vec![0, 1, 2]);
}

#[test]
fn tables_are_read_with_alignments() {
    let d = rendered("| a | b | c | d |\n|---|:--|:-:|--:|\n| 1 | *2* | 3 | 4 |");
    assert_eq!(d.tables.len(), 1);
    let t = &d.tables[0];
    assert_eq!(t.content_line, 0);
    assert_eq!(t.header_rows, 1);
    assert_eq!(t.rows.len(), 2);
    assert_eq!(t.align, vec![Align::Unset, Align::Left, Align::Center, Align::Right]);
    assert!(t.rows[1][1][0].style.italic);
}

#[test]
fn tables_stand_for_one_line_each() {
    let d = rendered("x\n\n| a |\n|---|\n| 1 |\n\n| b |\n|---|\n| 2 |\n\ny");
    assert_eq!(d.tables.len(), 2);
    assert_eq!(text_of(&d.content), vec!["x", "", "", "", "y"]);
    assert_eq!(d.tables[0].content_line, 2);
    assert_eq!(d.tables[1].content_line, 3);
}

#[test]
fn events_of_a_text() {
    let events = read_events("# A\n\n| a |\n|:-:|\n\n![x](y)\n\n```rs\nz\n```");
    assert!(matches!(events[0], MdEvent::Start(MdTag::Heading(1))));
    assert!(matches!(&events[1], MdEvent::Text(t) if t == "A"));
    assert!(matches!(events[2], MdEvent::End(MdTagEnd::Heading(1))));
    assert!(events.iter().any(|e| matches!(e, MdEvent::Start(MdTag::Table(a)) if *a == vec![Align::Center])));
    assert!(events.iter().any(|e| matches!(e, MdEvent::Start(MdTag::Image(u)) if u == "y")));
    assert!(events.iter().any(|e| matches!(e, MdEvent::Start(MdTag::CodeBlock(Some(l))) if l == "rs")));
    assert!(events.iter().any(|e| matches!(e, MdEvent::End(MdTagEnd::CodeBlock))));
}

#[test]
fn every_kind_of_event_is_read() {
    let events = read_events(
        "> a **b** ~~c~~ *d* `e` [f](g)\n> h  \n> i\n\n1. j\n\n- [x] k\n\n    l\n\n---\n\n    m\n\n<p>n</p>",
    );
    assert!(events.iter().any(|e| matches!(e, MdEvent::Start(MdTag::BlockQuote))));
    assert!(events.iter().any(|e| matches!(e, MdEvent::End(MdTagEnd::BlockQuote))));
    assert!(events.iter().any(|e| matches!(e, MdEvent::Start(MdTag::Paragraph))));
    assert!(events.iter().any(|e| matches!(e, MdEvent::End(MdTagEnd::Paragraph))));
    assert!(events.iter().any(|e| matches!(e, MdEvent::Start(MdTag::Strong))));
    assert!(events.iter().any(|e| matches!(e, MdEvent::End(MdTagEnd::Strong))));
    assert!(events.iter().any(|e| matches!(e, MdEvent::Start(MdTag::Strikethrough))));
    assert!(events.iter().any(|e| matches!(e, MdEvent::End(MdTagEnd::Strikethrough))));
    assert!(events.iter().any(|e| matches!(e, MdEvent::Start(MdTag::Emphasis))));
    assert!(events.iter().any(|e| matches!(e, MdEvent::End(MdTagEnd::Emphasis))));
    assert!(events.iter().any(|e| matches!(e, MdEvent::Start(MdTag::Link(u)) if u == "g")));
    assert!(events.iter().any(|e| matches!(e, MdEvent::End(MdTagEnd::Link))));
    assert!(events.iter().any(|e| matches!(e, MdEvent::Code(c) if c == "e")));
    assert!(events.iter().any(|e| matches!(e, MdEvent::SoftBreak)));
    assert!(events.iter().any(|e| matches!(e, MdEvent::HardBreak)));
    assert!(events.iter().any(|e| matches!(e, MdEvent::Rule)));
    assert!(events.iter().any(|e| matches!(e, MdEvent::TaskListMarker(true))));
    assert!(events.iter().any(|e| matches!(e, MdEvent::Start(MdTag::List(Some(1))))));
    assert!(events.iter().any(|e| matches!(e, MdEvent::Start(MdTag::List(None)))));
    assert!(events.iter().any(|e| matches!(e, MdEvent::End(MdTagEnd::List))));
    assert!(events.iter().any(|e| matches!(e, MdEvent::Start(MdTag::Item))));
    assert!(events.iter().any(|e| matches!(e, MdEvent::End(MdTagEnd::Item))));
    assert!(events.iter().any(|e| matches!(e, MdEvent::Start(MdTag::CodeBlock(None)))));
    assert!(events.iter().any(|e| matches!(e, MdEvent::Start(MdTag::Other))));
    assert!(events.iter().any(|e| matches!(e, MdEvent::End(MdTagEnd::Other))));
    assert!(events.iter().any(|e| matches!(e, MdEvent::Other)));
    let table = read_events("| a | b |\n|:--|--:|\n| 1 | 2 |");
    assert!(table.iter().any(|e| matches!(e, MdEvent::Start(MdTag::TableHead))));
    assert!(table.iter().any(|e| matches!(e, MdEvent::End(MdTagEnd::TableHead))));
    assert!(table.iter().any(|e| matches!(e, MdEvent::Start(MdTag::TableRow))));
    assert!(table.iter().any(|e| matches!(e, MdEvent::End(MdTagEnd::TableRow))));
    assert!(table.iter().any(|e| matches!(e, MdEvent::Start(MdTag::TableCell))));
    assert!(table.iter().any(|e| matches!(e, MdEvent::End(MdTagEnd::TableCell))));
    assert!(table.iter().any(|e| matches!(e, MdEvent::End(MdTagEnd::Table))));
    assert!(events.iter().any(|e| matches!(e, MdEvent::End(MdTagEnd::CodeBlock))));
    let image = read_events("![x](y)");
    assert!(image.iter().any(|e| matches!(e, MdEvent::End(MdTagEnd::Image))));
}

#[test]
fn stray_ends_are_ignored() {
    let d = render_events(
        vec![
            MdEvent::End(MdTagEnd::Link),
            MdEvent::End(MdTagEnd::Image),
            MdEvent::End(MdTagEnd::List),
            MdEvent::End(MdTagEnd::BlockQuote),
            MdEvent::End(MdTagEnd::TableCell),
            MdEvent::End(MdTagEnd::TableRow),
            MdEvent::End(MdTagEnd::Table),
            MdEvent::End(MdTagEnd::Heading(1)),
            MdEvent::Text("a".to_string()),
        ],
        ".",
    )
    .unwrap();
    assert_eq!(text_of(&d.content), vec!["a"]);
}

#[test]
fn counters_do_not_overflow() {
    let start = MdEvent::Start(MdTag::List(Some(u64::MAX)));
    assert!(render_events(vec![start, MdEvent::Start(MdTag::Item)], ".").is_none());
    let d = render_events(
        vec![
            MdEvent::Start(MdTag::List(Some(u64::MAX - 1))),
            MdEvent::Start(MdTag::Item),
            MdEvent::Text("a".to_string()),
        ],
        ".",
    )
    .unwrap();
    assert_eq!(text_of(&d.content), vec!["18446744073709551614. a"]);
}

#[test]
fn documents_keep_their_order() {
    let d = rendered("# A\n\n![i](x.png)\n\n| t |\n|---|\n| 1 |\n\n## B\n\n![j](y.png)\n\ntext");
    let t = text_of(&d.content);
    assert_eq!(t[d.headings[0].content_line], "A");
    assert_eq!(t[d.headings[1].content_line], "B");
    assert_eq!(t[d.images[0].content_line], "▦ i");
    assert_eq!(t[d.images[1].content_line], "▦ j");
    assert_eq!(t[d.tables[0].content_line], "");
    assert!(d.headings[0].content_line < d.images[0].content_line);
    assert!(d.images[0].content_line < d.tables[0].content_line);
    assert!(d.tables[0].content_line < d.headings[1].content_line);
    assert!(d.headings[1].content_line < d.images[1].content_line);
}

#[test]
fn empty_text_renders_to_nothing() {
    let d = rendered("");
    assert_eq!(d.content.len(), 0);
    let mut app = reader(d);
    reflow(&mut app, 10);
    assert_eq!(app.lines.len(), 0);
}
