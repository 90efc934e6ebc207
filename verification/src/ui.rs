//! What a frame shows: the text, the outline, the file picker, the status bar.

use crate::app::{
    app_ok, headings_in_range, reflow, reflowed, App, AppView, EntryView, Mode, PickerView,
};
use crate::markdown::HeadingView;
use crate::placing::low16;
use crate::style::{
    colored, heading_color, level_color, muted, muted_style, on_color, plain, plain_style, raw,
    spans_text, Color, Line, LineView, Span, SpanView, Style,
};
use crate::text::{
    chars_of, contains_text, decimal, ends_with, has_text, lower, owned, push_decimal, repeat_text,
    repeated_text, same_text, text_ends_with,
};
use vstd::prelude::*;

verus! {

/// Whether the outline stands beside the text.
pub open spec fn outline_visible(a: AppView) -> bool {
    a.show_outline && a.headings.len() > 0
}

/// Whether the outline stands beside the text.
pub fn shows_outline(app: &App) -> (r: bool)
    ensures
        r == outline_visible(app.deep_view()),
{
    app.show_outline && app.headings.len() > 0
}

/// The columns that the outline takes beside the text, with its border.
pub open spec fn outline_columns(a: AppView) -> u16 {
    if outline_visible(a) {
        24
    } else {
        0
    }
}

/// The columns that the outline takes beside the text.
pub fn outline_width(app: &App) -> (r: u16)
    ensures
        r == outline_columns(app.deep_view()),
{
    if shows_outline(app) {
        24
    } else {
        0
    }
}

/// The furthest that the text can be scrolled.
pub open spec fn max_offset(a: AppView) -> nat {
    if a.lines.len() > a.viewport {
        (a.lines.len() - a.viewport) as nat
    } else {
        0
    }
}

/// The reader with the text laid out for `width` columns.
pub open spec fn fitted(a: AppView, width: usize) -> AppView {
    if width == a.wrap_width {
        a
    } else {
        AppView { wrap_width: width, ..reflowed(a, width as nat) }
    }
}

/// The columns for the text in an area of `w` columns: one is left for the
/// scrollbar.
pub open spec fn text_width(w: u16) -> usize {
    if w > 0 {
        (w - 1) as usize
    } else {
        0
    }
}

/// The reader before a frame in which the text has the given area. The text is
/// scrolled no further than its end.
pub open spec fn prepared(a: AppView, x: u16, y: u16, w: u16, h: u16) -> AppView {
    let b = AppView {
        viewport: h as usize,
        ..fitted(AppView { content_x: x, content_y: y, content_w: w, ..a }, text_width(w))
    };
    AppView {
        offset: if b.offset > max_offset(b) {
            max_offset(b) as usize
        } else {
            b.offset
        },
        ..b
    }
}

/// Prepares a frame in which the text has the given area.
pub fn prepare_frame(app: &mut App, x: u16, y: u16, w: u16, h: u16)
    requires
        old(app).wrap_width != text_width(w) ==> headings_in_range(
            old(app).deep_view().content,
            old(app).deep_view().headings,
        ),
    ensures
        final(app).deep_view() == prepared(old(app).deep_view(), x, y, w, h),
        app_ok(old(app).deep_view()) ==> app_ok(final(app).deep_view()),
{
    app.content_x = x;
    app.content_y = y;
    app.content_w = w;
    let width = w.saturating_sub(1) as usize;
    if width != app.wrap_width {
        reflow(app, width);
        app.wrap_width = width;
    }
    app.viewport = h as usize;
    assert(app.lines.deep_view().len() == app.lines@.len());
    let max = app.lines.len().saturating_sub(app.viewport);
    if app.offset > max {
        app.offset = max;
    }
}

/// In a prepared frame the screen shows lines that there are: it starts at most so
/// far down that the last line is at its bottom.
pub proof fn frames_stay_in_the_text(a: AppView, x: u16, y: u16, w: u16, h: u16)
    requires
        prepared(a, x, y, w, h).lines.len() <= usize::MAX,
    ensures
        ({
            let p = prepared(a, x, y, w, h);
            &&& p.offset == 0 || p.offset + p.viewport <= p.lines.len()
            &&& p.offset <= a.offset
            &&& p.viewport == h
            &&& p.wrap_width == text_width(w)
        }),
{
}

/// The marker in front of a heading of the outline.
pub open spec fn outline_marker(selected: bool) -> SpanView {
    if selected {
        SpanView { content: "▸ "@, style: colored(Color::Yellow) }
    } else {
        SpanView { content: "  "@, style: muted_style() }
    }
}

/// The line of a heading in the outline.
pub open spec fn outline_line(h: HeadingView, selected: bool) -> LineView {
    let depth = if h.level > 0 {
        (h.level - 1) as nat
    } else {
        0
    };
    let title = SpanView {
        content: repeated_text("  "@, depth) + h.title,
        style: colored(level_color(h.level)),
    };
    LineView {
        spans: seq![outline_marker(selected), title],
        style: if selected {
            on_color(Color::DarkGray)
        } else {
            plain_style()
        },
    }
}

/// The lines of the outline.
pub open spec fn outline(a: AppView) -> Seq<LineView> {
    Seq::new(a.headings.len(), |i: int| outline_line(a.headings[i], i == a.selected))
}

/// The lines of the outline.
pub fn outline_lines(app: &App) -> (r: Vec<Line>)
    ensures
        r.deep_view() == outline(app.deep_view()),
{
    let ghost wanted = outline(app.deep_view());
    let mut out: Vec<Line> = Vec::new();
    let mut i: usize = 0;
    assert(wanted.len() == app.headings@.len());
    while i < app.headings.len()
        invariant
            i <= app.headings@.len() == wanted.len(),
            wanted == outline(app.deep_view()),
            out.deep_view() == wanted.take(i as int),
        decreases app.headings@.len() - i,
    {
        let ghost before = out.deep_view();
        let h = &app.headings[i];
        assert(app.headings.deep_view()[i as int] == h.deep_view());
        let selected = i == app.selected;
        let marker = if selected {
            Span::styled(owned("▸ "), Style { fg: Some(Color::Yellow), ..plain() })
        } else {
            Span::styled(owned("  "), muted())
        };
        let mut title = repeat_text("  ", h.level.saturating_sub(1) as usize);
        title.append(h.title.as_str());
        let color = Style { fg: Some(heading_color(h.level)), ..plain() };
        let mut spans: Vec<Span> = Vec::new();
        spans.push(marker);
        spans.push(Span::styled(title, color));
        let style = if selected {
            Style { bg: Some(Color::DarkGray), ..plain() }
        } else {
            plain()
        };
        let line = Line { spans, style };
        assert(line.deep_view().spans =~= wanted[i as int].spans);
        out.push(line);
        assert(out.deep_view() =~= before.push(wanted[i as int]));
        i += 1;
        assert(out.deep_view() =~= wanted.take(i as int));
    }
    assert(out.deep_view() =~= wanted);
    out
}

/// How far the outline is scrolled in an area of some height: the selected heading
/// is in the middle, as far as there are headings around it.
pub open spec fn outline_offset(a: AppView, height: nat) -> nat {
    let max = if a.headings.len() > height {
        (a.headings.len() - height) as nat
    } else {
        0
    };
    let wanted = if a.selected > height / 2 {
        (a.selected - height / 2) as nat
    } else {
        0
    };
    if wanted < max {
        wanted
    } else {
        max
    }
}

/// The number, at most `u16::MAX`.
pub open spec fn at_most_u16(n: nat) -> u16 {
    if n > u16::MAX {
        u16::MAX
    } else {
        n as u16
    }
}

fn capped_u16(n: usize) -> (r: u16)
    ensures
        r == at_most_u16(n as nat),
{
    if n > u16::MAX as usize {
        u16::MAX
    } else {
        n as u16
    }
}

/// How far the outline is scrolled in an area of some height.
pub fn outline_scroll(app: &App, height: u16) -> (r: u16)
    ensures
        r == at_most_u16(outline_offset(app.deep_view(), height as nat)),
{
    assert(app.headings.deep_view().len() == app.headings@.len());
    let max = app.headings.len().saturating_sub(height as usize);
    let wanted = app.selected.saturating_sub(height as usize / 2);
    capped_u16(if wanted < max {
        wanted
    } else {
        max
    })
}

/// The selected heading is in the area of the outline.
pub proof fn selected_heading_is_visible(a: AppView, height: nat)
    requires
        height > 0,
        a.selected < a.headings.len(),
    ensures
        outline_offset(a, height) <= a.selected < outline_offset(a, height) + height,
{
}

/// The positions of those of the first `n` texts that hold `needle`.
pub open spec fn found(texts: Seq<Seq<char>>, needle: Seq<char>, n: nat) -> Seq<usize>
    decreases n,
{
    if n == 0 {
        Seq::empty()
    } else if has_text(texts[n - 1], needle) {
        found(texts, needle, (n - 1) as nat).push((n - 1) as usize)
    } else {
        found(texts, needle, (n - 1) as nat)
    }
}

/// The positions of the texts that hold `needle`.
pub fn find_texts(texts: &Vec<String>, needle: &str) -> (r: Vec<usize>)
    ensures
        r@ == found(texts.deep_view(), needle@, texts@.len()),
{
    let mut out: Vec<usize> = Vec::new();
    let mut i: usize = 0;
    while i < texts.len()
        invariant
            i <= texts@.len(),
            out@ == found(texts.deep_view(), needle@, i as nat),
        decreases texts@.len() - i,
    {
        assert(texts.deep_view()[i as int] == texts@[i as int]@);
        if contains_text(texts[i].as_str(), needle) {
            out.push(i);
        }
        i += 1;
    }
    out
}

/// The texts of some lines in lower case.
pub open spec fn lowered(lines: Seq<LineView>) -> Seq<Seq<char>> {
    lines.map_values(|l: LineView| lower(spans_text(l.spans)))
}

fn lower_texts(lines: &Vec<Line>) -> (r: Vec<String>)
    ensures
        r.deep_view() == lowered(lines.deep_view()),
{
    let ghost wanted = lowered(lines.deep_view());
    let mut out: Vec<String> = Vec::new();
    let mut i: usize = 0;
    assert(wanted.len() == lines@.len());
    while i < lines.len()
        invariant
            i <= lines@.len() == wanted.len(),
            wanted == lowered(lines.deep_view()),
            out.deep_view() == wanted.take(i as int),
        decreases lines@.len() - i,
    {
        let ghost before = out.deep_view();
        assert(lines.deep_view()[i as int] == lines@[i as int].deep_view());
        let text = lines[i].text();
        out.push(text.as_str().to_lowercase());
        assert(out.deep_view() =~= before.push(wanted[i as int]));
        i += 1;
        assert(out.deep_view() =~= wanted.take(i as int));
    }
    assert(out.deep_view() =~= wanted);
    out
}

/// Whether the display lines are searched.
pub open spec fn is_searching(a: AppView) -> bool {
    a.mode == Mode::Search && a.query.len() > 0
}

/// The display lines that hold the query, in upper or lower case.
pub open spec fn query_matches(a: AppView) -> Seq<usize> {
    found(lowered(a.lines), lower(a.query), a.lines.len())
}

/// The reader with the matches of its query.
pub open spec fn searched(a: AppView) -> AppView {
    if is_searching(a) {
        AppView { matches: query_matches(a), ..a }
    } else {
        a
    }
}

/// Lines with those at the first `n` of some positions marked: they stand on
/// yellow.
pub open spec fn marked(lines: Seq<LineView>, matches: Seq<usize>, n: nat) -> Seq<LineView>
    decreases n,
{
    if n == 0 {
        lines
    } else {
        let before = marked(lines, matches, (n - 1) as nat);
        let i = matches[n - 1] as int;
        before.update(i, LineView { style: on_color(Color::Yellow), ..before[i] })
    }
}

/// The display lines as they are shown: with the matches of the query marked.
pub open spec fn shown_lines(a: AppView) -> Seq<LineView> {
    if is_searching(a) {
        marked(a.lines, query_matches(a), query_matches(a).len())
    } else {
        a.lines
    }
}

fn copy_lines(lines: &Vec<Line>) -> (r: Vec<Line>)
    ensures
        r.deep_view() == lines.deep_view(),
{
    let mut out: Vec<Line> = Vec::new();
    let mut i: usize = 0;
    while i < lines.len()
        invariant
            i <= lines@.len(),
            out.deep_view() == lines.deep_view().take(i as int),
        decreases lines@.len() - i,
    {
        let ghost before = out.deep_view();
        out.push(lines[i].clone());
        assert(out.deep_view() =~= before.push(lines.deep_view()[i as int]));
        i += 1;
        assert(out.deep_view() =~= lines.deep_view().take(i as int));
    }
    assert(out.deep_view() =~= lines.deep_view());
    out
}

/// Marks the lines at some positions: they stand on yellow.
pub fn mark_lines(lines: &Vec<Line>, matches: &Vec<usize>) -> (r: Vec<Line>)
    requires
        forall|k: int| 0 <= k < matches@.len() ==> #[trigger] matches@[k] < lines@.len(),
    ensures
        r.deep_view() == marked(lines.deep_view(), matches@, matches@.len()),
{
    let mut out = copy_lines(lines);
    assert(out.deep_view().len() == out@.len());
    assert(lines.deep_view().len() == lines@.len());
    let mut k: usize = 0;
    while k < matches.len()
        invariant
            k <= matches@.len(),
            out@.len() == lines@.len(),
            forall|k: int| 0 <= k < matches@.len() ==> #[trigger] matches@[k] < lines@.len(),
            out.deep_view() == marked(lines.deep_view(), matches@, k as nat),
        decreases matches@.len() - k,
    {
        let ghost before = out.deep_view();
        let i = matches[k];
        assert(before[i as int] == out@[i as int].deep_view());
        out[i].style = Style { bg: Some(Color::Yellow), ..plain() };
        assert(out.deep_view() =~= before.update(
            i as int,
            LineView { style: on_color(Color::Yellow), ..before[i as int] },
        ));
        k += 1;
    }
    out
}

/// The display lines as they are shown. The matches of the query are found anew.
pub fn display_lines(app: &mut App) -> (r: Vec<Line>)
    ensures
        final(app).deep_view() == searched(old(app).deep_view()),
        r.deep_view() == shown_lines(old(app).deep_view()),
{
    let ghost a = app.deep_view();
    proof {
        reveal_strlit("");
        assert(a.query.len() == 0 ==> a.query =~= ""@);
    }
    let searching = match app.mode {
        Mode::Search => !same_text(app.query.as_str(), ""),
        _ => false,
    };
    if !searching {
        return copy_lines(&app.lines);
    }
    let texts = lower_texts(&app.lines);
    let needle = app.query.as_str().to_lowercase();
    assert(texts.deep_view().len() == texts@.len());
    assert(app.lines.deep_view().len() == app.lines@.len());
    app.matches = find_texts(&texts, needle.as_str());
    proof {
        lemma_found(texts.deep_view(), needle@, texts@.len());
    }
    mark_lines(&app.lines, &app.matches)
}

/// Those texts are found that hold what is looked for, all of them, from the first on.
pub proof fn lemma_found(texts: Seq<Seq<char>>, needle: Seq<char>, n: nat)
    requires
        n <= texts.len() <= usize::MAX,
    ensures
        forall|k: int|
            0 <= k < found(texts, needle, n).len() ==> #[trigger] found(texts, needle, n)[k] < n
                && has_text(texts[found(texts, needle, n)[k] as int], needle),
        forall|i: int|
            0 <= i < n && has_text(texts[i], needle) ==> #[trigger] found(
                texts,
                needle,
                n,
            ).contains(i as usize),
        forall|k: int, l: int|
            0 <= k < l < found(texts, needle, n).len() ==> #[trigger] found(texts, needle, n)[k]
                < #[trigger] found(texts, needle, n)[l],
    decreases n,
{
    if n > 0 {
        let m = (n - 1) as nat;
        lemma_found(texts, needle, m);
        let before = found(texts, needle, m);
        let now = found(texts, needle, n);
        if has_text(texts[n - 1], needle) {
            assert(now == before.push((n - 1) as usize));
            assert(now[before.len() as int] == (n - 1) as usize);
        }
        assert forall|i: int|
            0 <= i < n && has_text(texts[i], needle) implies #[trigger] now.contains(
            i as usize,
        ) by {
            if i < m {
                assert(before.contains(i as usize));
                let k = choose|k: int| 0 <= k < before.len() && before[k] == i as usize;
                assert(now[k] == i as usize);
            } else {
                assert(now[before.len() as int] == i as usize);
            }
        }
    }
}

/// Exactly the lines at the given positions are marked, and keep their text.
pub proof fn lemma_marked(lines: Seq<LineView>, matches: Seq<usize>, n: nat)
    requires
        n <= matches.len(),
        forall|k: int| 0 <= k < matches.len() ==> #[trigger] matches[k] < lines.len(),
    ensures
        marked(lines, matches, n).len() == lines.len(),
        forall|i: int|
            #![trigger marked(lines, matches, n)[i]]
            0 <= i < lines.len() ==> marked(lines, matches, n)[i] == if exists|k: int|
                0 <= k < n && #[trigger] matches[k] == i {
                LineView { style: on_color(Color::Yellow), ..lines[i] }
            } else {
                lines[i]
            },
    decreases n,
{
    if n > 0 {
        let m = (n - 1) as nat;
        lemma_marked(lines, matches, m);
        let now = marked(lines, matches, n);
        let at = matches[n - 1] as int;
        assert forall|i: int| #![trigger now[i]] 0 <= i < lines.len() implies now[i]
            == if exists|k: int| 0 <= k < n && #[trigger] matches[k] == i {
            LineView { style: on_color(Color::Yellow), ..lines[i] }
        } else {
            lines[i]
        } by {
            if i == at {
                assert(matches[n - 1] == i);
                assert(marked(lines, matches, m)[i].spans == lines[i].spans);
            } else {
                assert(now[i] == marked(lines, matches, m)[i]);
                if exists|k: int| 0 <= k < m && #[trigger] matches[k] == i {
                    let k = choose|k: int| 0 <= k < m && #[trigger] matches[k] == i;
                    assert(0 <= k < n && matches[k] == i);
                }
            }
        }
    }
}

/// A search finds exactly the lines that hold the query, from the top down, and
/// exactly these are marked. Neither cares for upper and lower case.
pub proof fn searches_find_the_query(a: AppView)
    requires
        is_searching(a),
        a.lines.len() <= usize::MAX,
    ensures
        forall|i: int|
            0 <= i < a.lines.len() ==> (has_text(
                lower(spans_text((#[trigger] a.lines[i]).spans)),
                lower(a.query),
            ) <==> searched(a).matches.contains(i as usize)),
        forall|i: int|
            #![trigger shown_lines(a)[i]]
            0 <= i < a.lines.len() ==> shown_lines(a)[i] == if searched(a).matches.contains(
                i as usize,
            ) {
                LineView { style: on_color(Color::Yellow), ..a.lines[i] }
            } else {
                a.lines[i]
            },
        forall|k: int, l: int|
            0 <= k < l < searched(a).matches.len() ==> #[trigger] searched(a).matches[k]
                < #[trigger] searched(a).matches[l],
{
    let texts = lowered(a.lines);
    let matches = searched(a).matches;
    lemma_found(texts, lower(a.query), texts.len());
    lemma_marked(a.lines, matches, matches.len());
    assert forall|i: int| 0 <= i < a.lines.len() implies (has_text(
        lower(spans_text((#[trigger] a.lines[i]).spans)),
        lower(a.query),
    ) <==> matches.contains(i as usize)) by {
        assert(texts[i] == lower(spans_text(a.lines[i].spans)));
    }
    assert forall|i: int| #![trigger shown_lines(a)[i]] 0 <= i < a.lines.len() implies shown_lines(
        a,
    )[i] == if matches.contains(i as usize) {
        LineView { style: on_color(Color::Yellow), ..a.lines[i] }
    } else {
        a.lines[i]
    } by {
        assert(shown_lines(a)[i] == marked(a.lines, matches, matches.len())[i]);
        if matches.contains(i as usize) {
            let k = choose|k: int| 0 <= k < matches.len() && matches[k] == i as usize;
            assert(matches[k] == i);
        }
    }
}

/// As many lines are shown as there are.
pub proof fn lemma_shown_len(a: AppView)
    requires
        is_searching(a),
        a.lines.len() <= usize::MAX,
    ensures
        shown_lines(a).len() == a.lines.len(),
{
    let texts = lowered(a.lines);
    lemma_found(texts, lower(a.query), texts.len());
    lemma_marked(a.lines, query_matches(a), query_matches(a).len());
}

/// How far the text is scrolled, as far as the terminal can tell.
pub fn scroll_position(app: &App) -> (r: u16)
    ensures
        r == at_most_u16(app.offset as nat),
{
    capped_u16(app.offset)
}

/// The number of positions that the scrollbar has: one for each offset from zero
/// to the furthest one.
pub open spec fn scroll_positions(a: AppView) -> nat {
    if max_offset(a) < usize::MAX {
        max_offset(a) + 1
    } else {
        usize::MAX as nat
    }
}

/// The number of positions that the scrollbar has.
pub fn scrollbar_length(app: &App) -> (r: usize)
    ensures
        r == scroll_positions(app.deep_view()),
{
    assert(app.lines.deep_view().len() == app.lines@.len());
    app.lines.len().saturating_sub(app.viewport).saturating_add(1)
}

/// The text of the status bar.
pub open spec fn status_text(a: AppView) -> Seq<char> {
    if a.mode == Mode::Search {
        "search: "@ + a.query + " ("@ + decimal(a.matches.len())
            + ") · Enter jump · Esc cancel"@
    } else if a.show_outline {
        "↑/↓ j/k select & jump · Enter/→ jump · o/Tab toggle · / search · p open · e edit · q quit"@
    } else {
        "↑/↓ j/k scroll · PgUp/PgDn space page · o/Tab outline · / search · p open · e edit · g/G top/bottom · q quit"@
    }
}

/// The text of the status bar.
pub fn status_line(app: &App) -> (r: String)
    ensures
        r@ == status_text(app.deep_view()),
{
    if let Mode::Search = app.mode {
        let mut s = owned("search: ");
        s.append(app.query.as_str());
        s.append(" (");
        push_decimal(&mut s, app.matches.len() as u64);
        s.append(") · Enter jump · Esc cancel");
        s
    } else if app.show_outline {
        owned(
            "↑/↓ j/k select & jump · Enter/→ jump · o/Tab toggle · / search · p open · e edit · q quit",
        )
    } else {
        owned(
            "↑/↓ j/k scroll · PgUp/PgDn space page · o/Tab outline · / search · p open · e edit · g/G top/bottom · q quit",
        )
    }
}

/// The columns that are given to a message in the status bar: one for each of its
/// characters.
pub fn message_width(msg: &str) -> (r: u16)
    ensures
        r == low16(msg@.len()),
{
    let n = chars_of(msg).len();
    (n % 0x10000) as u16
}

/// The title of a framed area.
pub open spec fn titled(text: Seq<char>) -> Seq<char> {
    " "@ + text + " "@
}

/// The title of a framed area.
pub fn frame_title(text: &str) -> (r: String)
    ensures
        r@ == titled(text@),
{
    let mut s = owned(" ");
    s.append(text);
    s.append(" ");
    s
}

/// Whether a file is a markdown file, by its name.
pub open spec fn is_markdown(name: Seq<char>) -> bool {
    ends_with(name, ".md"@) || ends_with(name, ".markdown"@)
}

/// The line of an entry in the file picker.
pub open spec fn entry_line(e: EntryView) -> LineView {
    let span = if e.is_dir {
        SpanView { content: "▸ "@ + e.name + "/"@, style: colored(Color::Cyan) }
    } else if is_markdown(e.name) {
        SpanView { content: e.name, style: colored(Color::Green) }
    } else {
        raw(e.name)
    };
    LineView { spans: seq![span], style: plain_style() }
}

/// The lines of the file picker.
pub fn picker_lines(app: &App) -> (r: Vec<Line>)
    ensures
        r.deep_view() == app.deep_view().picker.entries.map_values(|e: EntryView| entry_line(e)),
{
    let ghost entries = app.picker.entries.deep_view();
    let ghost wanted = entries.map_values(|e: EntryView| entry_line(e));
    let mut out: Vec<Line> = Vec::new();
    let mut i: usize = 0;
    assert(wanted.len() == app.picker.entries@.len());
    while i < app.picker.entries.len()
        invariant
            i <= app.picker.entries@.len() == wanted.len(),
            entries == app.picker.entries.deep_view(),
            wanted == entries.map_values(|e: EntryView| entry_line(e)),
            out.deep_view() == wanted.take(i as int),
        decreases app.picker.entries@.len() - i,
    {
        let ghost before = out.deep_view();
        let e = &app.picker.entries[i];
        assert(entries[i as int] == e.deep_view());
        let span = if e.is_dir {
            let mut s = owned("▸ ");
            s.append(e.name.as_str());
            s.append("/");
            Span::styled(s, Style { fg: Some(Color::Cyan), ..plain() })
        } else if text_ends_with(e.name.as_str(), ".md") || text_ends_with(
            e.name.as_str(),
            ".markdown",
        ) {
            Span::styled(e.name.clone(), Style { fg: Some(Color::Green), ..plain() })
        } else {
            Span::raw(e.name.clone())
        };
        let mut spans: Vec<Span> = Vec::new();
        spans.push(span);
        let line = Line { spans, style: plain() };
        assert(line.deep_view().spans =~= wanted[i as int].spans);
        out.push(line);
        assert(out.deep_view() =~= before.push(wanted[i as int]));
        i += 1;
        assert(out.deep_view() =~= wanted.take(i as int));
    }
    assert(out.deep_view() =~= wanted);
    out
}

/// The text of the status bar of the file picker.
pub open spec fn picker_status(p: PickerView) -> Seq<char> {
    let hidden = if p.show_hidden {
        "on"@
    } else {
        "off"@
    };
    "↑/↓ j/k select · Enter open · Backspace/Esc up · h hidden:"@ + hidden + " · q quit"@
}

/// The text of the status bar of the file picker.
pub fn picker_status_line(app: &App) -> (r: String)
    ensures
        r@ == picker_status(app.deep_view().picker),
{
    let mut s = owned("↑/↓ j/k select · Enter open · Backspace/Esc up · h hidden:");
    s.append(if app.picker.show_hidden {
        "on"
    } else {
        "off"
    });
    s.append(" · q quit");
    s
}

} // verus!
