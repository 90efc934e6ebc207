//! Styled text: spans of one style, and lines of spans.

use crate::text::{lines_of, text_lines};
use crate::width::{text_columns, text_width};
use vstd::prelude::*;

verus! {

/// A terminal colour.
#[derive(Clone, Copy, PartialEq, Eq, Debug, Structural)]
pub enum Color {
    Yellow,
    Green,
    Cyan,
    Gray,
    DarkGray,
    White,
    Red,
}

/// How a piece of text is drawn. A colour that is absent is left as it is.
#[derive(Clone, Copy, PartialEq, Eq, Debug, Structural)]
pub struct Style {
    pub fg: Option<Color>,
    pub bg: Option<Color>,
    pub bold: bool,
    pub italic: bool,
    pub underlined: bool,
    pub crossed_out: bool,
}

/// The style that changes nothing.
pub open spec fn plain_style() -> Style {
    Style {
        fg: None,
        bg: None,
        bold: false,
        italic: false,
        underlined: false,
        crossed_out: false,
    }
}

/// The style of secondary text: markers, borders, code.
pub open spec fn muted_style() -> Style {
    colored(Color::DarkGray)
}

/// A piece of text in one style.
pub struct Span {
    pub content: String,
    pub style: Style,
}

/// One line of styled text. Its own style lies under the styles of its spans.
pub struct Line {
    pub spans: Vec<Span>,
    pub style: Style,
}

/// What a span shows.
#[verifier::ext_equal]
pub struct SpanView {
    pub content: Seq<char>,
    pub style: Style,
}

/// What a line shows.
#[verifier::ext_equal]
pub struct LineView {
    pub spans: Seq<SpanView>,
    pub style: Style,
}

impl DeepView for Span {
    type V = SpanView;

    open spec fn deep_view(&self) -> SpanView {
        SpanView { content: self.content@, style: self.style }
    }
}

impl DeepView for Line {
    type V = LineView;

    open spec fn deep_view(&self) -> LineView {
        LineView { spans: self.spans.deep_view(), style: self.style }
    }
}

/// The style that changes nothing.
pub fn plain() -> (r: Style)
    ensures
        r == plain_style(),
{
    Style {
        fg: None,
        bg: None,
        bold: false,
        italic: false,
        underlined: false,
        crossed_out: false,
    }
}

/// The style of secondary text.
pub fn muted() -> (r: Style)
    ensures
        r == muted_style(),
{
    Style { fg: Some(Color::DarkGray), ..plain() }
}

/// The style that only sets the text colour.
pub open spec fn colored(color: Color) -> Style {
    Style { fg: Some(color), ..plain_style() }
}

/// The style that only sets the background.
pub open spec fn on_color(color: Color) -> Style {
    Style { bg: Some(color), ..plain_style() }
}

/// The style that only sets bold.
pub open spec fn bold_style() -> Style {
    Style { bold: true, ..plain_style() }
}

/// The colour of a heading by its level, in the text and in the outline.
pub open spec fn level_color(level: u8) -> Color {
    if level == 1 {
        Color::Yellow
    } else if level == 2 {
        Color::Green
    } else {
        Color::Cyan
    }
}

/// The colour of a heading by its level.
pub fn heading_color(level: u8) -> (r: Color)
    ensures
        r == level_color(level),
{
    match level {
        1 => Color::Yellow,
        2 => Color::Green,
        _ => Color::Cyan,
    }
}

/// A span in the style that changes nothing.
pub open spec fn raw(content: Seq<char>) -> SpanView {
    SpanView { content, style: plain_style() }
}

/// A span in the secondary style.
pub open spec fn muted_span(content: Seq<char>) -> SpanView {
    SpanView { content, style: muted_style() }
}

/// The line without any span, in the style that changes nothing.
pub open spec fn empty_line() -> LineView {
    LineView { spans: Seq::empty(), style: plain_style() }
}

/// A line of one style: a raw span for each line of the text.
pub open spec fn styled_line(text: Seq<char>, style: Style) -> LineView {
    LineView { spans: text_lines(text).map_values(|l: Seq<char>| raw(l)), style }
}

/// The text of some spans, without their styles.
pub open spec fn spans_text(spans: Seq<SpanView>) -> Seq<char>
    decreases spans.len(),
{
    if spans.len() == 0 {
        Seq::empty()
    } else {
        spans_text(spans.drop_last()) + spans.last().content
    }
}

/// The text of some spans and some more is the text of both.
pub proof fn lemma_spans_text_concat(a: Seq<SpanView>, b: Seq<SpanView>)
    ensures
        spans_text(a + b) == spans_text(a) + spans_text(b),
    decreases b.len(),
{
    if b.len() == 0 {
        assert(a + b =~= a);
        assert(spans_text(a) + spans_text(b) =~= spans_text(a));
    } else {
        assert((a + b).drop_last() =~= a + b.drop_last());
        lemma_spans_text_concat(a, b.drop_last());
        assert(spans_text(a + b) =~= spans_text(a) + spans_text(b));
    }
}

/// The columns that some spans take, each measured by itself, at most
/// `usize::MAX`.
pub open spec fn spans_columns(spans: Seq<SpanView>) -> nat
    decreases spans.len(),
{
    if spans.len() == 0 {
        0
    } else {
        let sum = spans_columns(spans.drop_last()) + text_columns(spans.last().content);
        if sum <= usize::MAX {
            sum
        } else {
            usize::MAX as nat
        }
    }
}

impl Span {
    /// A span in the style that changes nothing.
    pub fn raw(content: String) -> (r: Span)
        ensures
            r.deep_view() == raw(content@),
    {
        Span { content, style: plain() }
    }

    /// A span in the given style.
    pub fn styled(content: String, style: Style) -> (r: Span)
        ensures
            r.deep_view() == (SpanView { content: content@, style }),
    {
        Span { content, style }
    }

    /// The columns that the span takes.
    pub fn width(&self) -> (r: usize)
        ensures
            r == text_columns(self.content@),
    {
        text_width(self.content.as_str())
    }
}

impl Clone for Span {
    fn clone(&self) -> (r: Self)
        ensures
            r == *self,
    {
        Span { content: self.content.clone(), style: self.style }
    }
}

/// A copy of some spans.
pub fn copy_spans(spans: &Vec<Span>) -> (r: Vec<Span>)
    ensures
        r.deep_view() == spans.deep_view(),
{
    let mut out: Vec<Span> = Vec::new();
    let mut i: usize = 0;
    while i < spans.len()
        invariant
            i <= spans@.len(),
            out@ == spans@.take(i as int),
        decreases spans@.len() - i,
    {
        out.push(spans[i].clone());
        i += 1;
        assert(out@ =~= spans@.take(i as int));
    }
    assert(out@ =~= spans@);
    assert(out.deep_view() =~= spans.deep_view());
    out
}

/// Appends the spans of `more` to `spans`.
pub fn append_spans(spans: &mut Vec<Span>, more: &Vec<Span>)
    ensures
        final(spans).deep_view() == old(spans).deep_view() + more.deep_view(),
{
    let mut i: usize = 0;
    while i < more.len()
        invariant
            i <= more@.len(),
            spans@ == old(spans)@ + more@.take(i as int),
        decreases more@.len() - i,
    {
        spans.push(more[i].clone());
        i += 1;
        assert(spans@ =~= old(spans)@ + more@.take(i as int));
    }
    assert(more@.take(more@.len() as int) =~= more@);
    assert(spans.deep_view() =~= old(spans).deep_view() + more.deep_view());
}

/// The text of some spans, without their styles.
pub fn text_of_spans(spans: &Vec<Span>) -> (r: String)
    ensures
        r@ == spans_text(spans.deep_view()),
{
    assert(spans.deep_view().skip(0) =~= spans.deep_view());
    text_of_spans_from(spans, 0)
}

/// The text of the spans from the position `from` on.
pub fn text_of_spans_from(spans: &Vec<Span>, from: usize) -> (r: String)
    requires
        from <= spans@.len(),
    ensures
        r@ == spans_text(spans.deep_view().skip(from as int)),
{
    let ghost all = spans.deep_view().skip(from as int);
    let mut s = String::new();
    let mut i: usize = from;
    assert(all.take(0) =~= Seq::empty());
    while i < spans.len()
        invariant
            from <= i <= spans@.len(),
            all == spans.deep_view().skip(from as int),
            s@ == spans_text(all.take(i - from)),
        decreases spans@.len() - i,
    {
        s.append(spans[i].content.as_str());
        assert(all.take(i + 1 - from).drop_last() =~= all.take(i - from));
        assert(all.take(i + 1 - from).last() == spans.deep_view()[i as int]);
        i += 1;
    }
    assert(all.take(all.len() as int) =~= all);
    s
}

/// The columns that some spans take together, at most `usize::MAX`.
pub fn width_of_spans(spans: &Vec<Span>) -> (r: usize)
    ensures
        r == spans_columns(spans.deep_view()),
{
    let ghost all = spans.deep_view();
    let mut sum: usize = 0;
    let mut i: usize = 0;
    assert(all.take(0) =~= Seq::empty());
    while i < spans.len()
        invariant
            i <= spans@.len(),
            all == spans.deep_view(),
            sum == spans_columns(all.take(i as int)),
        decreases spans@.len() - i,
    {
        let w = spans[i].width();
        assert(all.take(i + 1).drop_last() =~= all.take(i as int));
        assert(all.take(i + 1).last() == spans.deep_view()[i as int]);
        sum = sum.saturating_add(w);
        i += 1;
    }
    assert(all.take(all.len() as int) =~= all);
    sum
}

impl Line {
    /// The line without any span.
    pub fn empty() -> (r: Line)
        ensures
            r.deep_view() == empty_line(),
    {
        let r = Line { spans: Vec::new(), style: plain() };
        assert(r.spans.deep_view() =~= Seq::empty());
        r
    }

    /// A line of one style: a raw span for each line of the text.
    pub fn styled(content: &str, style: Style) -> (r: Line)
        ensures
            r.deep_view() == styled_line(content@, style),
    {
        let lines = lines_of(content);
        let ghost wanted = styled_line(content@, style).spans;
        let mut spans: Vec<Span> = Vec::new();
        let mut i: usize = 0;
        while i < lines.len()
            invariant
                i <= lines@.len(),
                lines.deep_view() == text_lines(content@),
                wanted == text_lines(content@).map_values(|l: Seq<char>| raw(l)),
                spans.deep_view() == wanted.take(i as int),
            decreases lines@.len() - i,
        {
            let ghost before = spans.deep_view();
            spans.push(Span::raw(lines[i].clone()));
            assert(lines.deep_view()[i as int] == lines[i as int]@);
            assert(spans.deep_view() =~= before.push(wanted[i as int]));
            i += 1;
            assert(wanted.take(i as int) =~= wanted.take(i - 1).push(wanted[i - 1]));
        }
        assert(lines@.len() == lines.deep_view().len());
        assert(wanted.take(wanted.len() as int) =~= wanted);
        Line { spans, style }
    }

    /// The text of the line, without its styles.
    pub fn text(&self) -> (r: String)
        ensures
            r@ == spans_text(self.deep_view().spans),
    {
        text_of_spans(&self.spans)
    }
}

impl Clone for Line {
    fn clone(&self) -> (r: Self)
        ensures
            r.deep_view() == self.deep_view(),
    {
        Line { spans: copy_spans(&self.spans), style: self.style }
    }
}

} // verus!
