//! How text is broken into lines.

use crate::style::{raw, LineView, SpanView, Style};
use crate::text::{is_white, repeated};
use crate::width::{cells, text_cells};
use crate::wrap::{
    broken, cut, hard_broken, lemma_cut_grows, lemma_cut_is_full, lemma_with_spans_width,
    line_cells, spans_no_wider, with_chars, with_span, with_spans, with_word, wrap_start,
    wrapped_line, WrapView,
};
use vstd::prelude::*;

verus! {

/// Whether a text is made of white space alone.
pub open spec fn is_blank(text: Seq<char>) -> bool {
    forall|i: int| 0 <= i < text.len() ==> is_white(#[trigger] text[i])
}

/// Whether a text is a single word that takes room.
pub open spec fn is_visible_word(text: Seq<char>) -> bool {
    text.len() > 0 && text_cells(text) > 0 && forall|i: int|
        0 <= i < text.len() ==> !is_white(#[trigger] text[i])
}

/// Some spaces as a span of their own, where there are any.
pub open spec fn gap_of(n: nat) -> Seq<SpanView> {
    if n == 0 {
        Seq::empty()
    } else {
        seq![raw(Seq::new(n, |i: int| ' '))]
    }
}

proof fn lemma_word_chars(
    st: WrapView,
    word: Seq<char>,
    style: Style,
    base: Style,
    width: nat,
)
    requires
        forall|i: int| 0 <= i < word.len() ==> !is_white(#[trigger] word[i]),
    ensures
        with_chars(st, word, style, base, width) == (st, word),
    decreases word.len(),
{
    if word.len() == 0 {
        assert(word =~= Seq::empty());
    } else {
        let front = word.drop_last();
        assert forall|i: int| 0 <= i < front.len() implies !is_white(#[trigger] front[i]) by {
            assert(front[i] == word[i]);
        }
        lemma_word_chars(st, front, style, base, width);
        assert(!is_white(word[word.len() - 1]));
        assert(front.push(word.last()) =~= word);
    }
}

proof fn lemma_blank_chars(
    st: WrapView,
    blank: Seq<char>,
    style: Style,
    base: Style,
    width: nat,
)
    requires
        is_blank(blank),
        st.cur.len() > 0,
        st.pending + blank.len() <= usize::MAX,
    ensures
        with_chars(st, blank, style, base, width) == (
            (WrapView { pending: st.pending + blank.len(), ..st }),
            Seq::<char>::empty(),
        ),
    decreases blank.len(),
{
    if blank.len() > 0 {
        let front = blank.drop_last();
        assert forall|i: int| 0 <= i < front.len() implies is_white(#[trigger] front[i]) by {
            assert(front[i] == blank[i]);
        }
        lemma_blank_chars(st, front, style, base, width);
        assert(is_white(blank[blank.len() - 1]));
    }
}

proof fn lemma_hard_broken_out(
    out: Seq<LineView>,
    word: Seq<char>,
    style: Style,
    base: Style,
    width: nat,
)
    ensures
        ({
            let h = hard_broken(out, word, style, base, width);
            let e = hard_broken(Seq::empty(), word, style, base, width);
            &&& h.out == out + e.out
            &&& h == (WrapView { out: h.out, ..e })
            &&& e.cur.len() == 1
            &&& e.pending == 0
        }),
    decreases word.len(),
{
    let n = cut(word, width, 1);
    if n >= word.len() {
        assert(out + Seq::<LineView>::empty() =~= out);
    } else {
        lemma_cut_grows(word, width, 1);
        let piece = SpanView { content: word.take(n as int), style };
        let line = LineView { spans: seq![piece], style: base };
        let rest = word.skip(n as int);
        lemma_hard_broken_out(out.push(line), rest, style, base, width);
        lemma_hard_broken_out(Seq::empty().push(line), rest, style, base, width);
        let e = hard_broken(Seq::empty(), rest, style, base, width);
        assert(out.push(line) + e.out =~= out + (Seq::empty().push(line) + e.out));
    }
}

proof fn lemma_word_ends(spans: Seq<SpanView>, base: Style, width: nat)
    requires
        spans.len() > 0,
        is_visible_word(spans.last().content),
    ensures
        ({
            let st = with_spans(spans, base, width);
            st.cur.len() > 0 && st.pending == 0
        }),
{
    let last = spans.last();
    let st = with_spans(spans.drop_last(), base, width);
    lemma_word_chars(st, last.content, last.style, base, width);
    lemma_hard_broken_out(broken(st, base).out, last.content, last.style, base, width);
}

/// Lines are filled word by word: a word that follows some white space goes to the last
/// line behind as many spaces, where it fits there, else to a line of its own; one that
/// is wider than a line is broken as it is by itself.
#[verifier::spinoff_prover]
#[verifier::rlimit(60)]
pub proof fn lines_are_filled_word_by_word(
    spans: Seq<SpanView>,
    blank: SpanView,
    word: SpanView,
    base: Style,
    width: nat,
)
    requires
        width > 0,
        width >= 3 || spans_no_wider(spans, width),
        spans.len() > 0,
        is_visible_word(spans.last().content),
        is_blank(blank.content),
        blank.content.len() <= usize::MAX,
        is_visible_word(word.content),
    ensures
        ({
            let before = wrapped_line(LineView { spans, style: base }, width);
            let after = wrapped_line(
                LineView { spans: spans.push(blank).push(word), style: base },
                width,
            );
            let alone = wrapped_line(LineView { spans: seq![word], style: base }, width);
            let n = blank.content.len();
            let w = text_cells(word.content);
            &&& before.len() > 0
            &&& line_cells(before.last()) + n + w <= width ==> after == before.drop_last().push(
                LineView { spans: before.last().spans + gap_of(n) + seq![word], style: base },
            )
            &&& line_cells(before.last()) + n + w > width ==> after == before + alone
            &&& w <= width ==> alone == seq![LineView { spans: seq![word], style: base }]
        }),
{
    let st = with_spans(spans, base, width);
    assert(spans_no_wider(spans, width));
    lemma_with_spans_width(spans, base, width);
    lemma_word_ends(spans, base, width);
    let before = wrapped_line(LineView { spans, style: base }, width);
    let n = blank.content.len();
    let w = text_cells(word.content);
    let all = spans.push(blank).push(word);
    assert(all.drop_last() =~= spans.push(blank));
    assert(spans.push(blank).drop_last() =~= spans);
    lemma_blank_chars(st, blank.content, blank.style, base, width);
    let gapped = WrapView { pending: n, ..st };
    assert(with_spans(spans.push(blank), base, width) == gapped);
    lemma_word_chars(gapped, word.content, word.style, base, width);
    let end = with_spans(all, base, width);
    assert(end == with_word(gapped, word.content, word.style, base, width));
    assert(before == st.out.push(LineView { spans: st.cur, style: base }));
    assert(before.drop_last() =~= st.out);
    let after = wrapped_line(LineView { spans: all, style: base }, width);
    let alone = wrapped_line(LineView { spans: seq![word], style: base }, width);
    assert(seq![word].drop_last() =~= Seq::empty());
    assert(with_spans(seq![word].drop_last(), base, width) == wrap_start());
    assert(seq![word].last() == word);
    lemma_word_chars(wrap_start(), word.content, word.style, base, width);
    assert(with_spans(seq![word], base, width) == with_word(
        wrap_start(),
        word.content,
        word.style,
        base,
        width,
    ));
    assert(SpanView { content: word.content, style: word.style } == word);
    let out = broken(gapped, base).out;
    assert(out == before);
    lemma_hard_broken_out(out, word.content, word.style, base, width);
    if w <= width {
        assert(Seq::empty().push(word) =~= seq![word]);
        assert(alone =~= seq![LineView { spans: seq![word], style: base }]);
    }
    if st.cur_w + n + w <= width {
        assert(repeated(' ', n) =~= Seq::new(n, |i: int| ' '));
        assert(end.cur =~= st.cur + gap_of(n) + seq![word]);
    } else if w <= width {
        assert(end.cur =~= seq![word]);
        assert(after =~= before + alone);
    } else {
        let e = hard_broken(Seq::empty(), word.content, word.style, base, width);
        assert(after =~= before + alone);
    }
}

proof fn lemma_hard_broken_full(word: Seq<char>, style: Style, base: Style, width: nat)
    requires
        word.len() > 0,
    ensures
        ({
            let e = hard_broken(Seq::empty(), word, style, base, width);
            let lines = e.out.push(LineView { spans: e.cur, style: base });
            &&& e.cur.len() == 1
            &&& forall|i: int| 0 <= i < lines.len() ==> (#[trigger] lines[i]).spans.len() == 1
                && lines[i].spans[0].style == style && lines[i].spans[0].content.len() > 0
                && lines[i].style == base
            &&& lines[0].spans[0].content[0] == word[0]
            &&& forall|i: int|
                0 <= i < lines.len() - 1 ==> text_cells(
                    (#[trigger] lines[i]).spans[0].content,
                ) + cells(lines[i + 1].spans[0].content[0]) > width
        }),
    decreases word.len(),
{
    let n = cut(word, width, 1);
    let e = hard_broken(Seq::empty(), word, style, base, width);
    let lines = e.out.push(LineView { spans: e.cur, style: base });
    lemma_cut_grows(word, width, 1);
    if n < word.len() {
        let piece = SpanView { content: word.take(n as int), style };
        let line = LineView { spans: seq![piece], style: base };
        let rest = word.skip(n as int);
        lemma_hard_broken_out(Seq::empty().push(line), rest, style, base, width);
        lemma_hard_broken_full(rest, style, base, width);
        let f = hard_broken(Seq::empty(), rest, style, base, width);
        let more = f.out.push(LineView { spans: f.cur, style: base });
        assert(lines =~= seq![line] + more);
        lemma_cut_is_full(word, width, 1);
        assert(word.take(n as int + 1).drop_last() =~= word.take(n as int));
        assert(rest[0] == word[n as int]);
        assert forall|i: int| 0 <= i < lines.len() implies (#[trigger] lines[i]).spans.len() == 1
            && lines[i].spans[0].style == style && lines[i].spans[0].content.len() > 0
            && lines[i].style == base by {
            if i > 0 {
                assert(lines[i] == more[i - 1]);
            }
        }
        assert forall|i: int| 0 <= i < lines.len() - 1 implies text_cells(
            (#[trigger] lines[i]).spans[0].content,
        ) + cells(lines[i + 1].spans[0].content[0]) > width by {
            assert(lines[i + 1] == more[i]);
            if i > 0 {
                assert(lines[i] == more[i - 1]);
            }
        }
    }
}

/// A word that is wider than a line fills its lines: none of them has room for the
/// character that the next one begins with.
pub proof fn long_words_fill_their_lines(word: SpanView, base: Style, width: nat, i: int)
    requires
        width > 0,
        is_visible_word(word.content),
        text_cells(word.content) > width,
        0 <= i < wrapped_line(LineView { spans: seq![word], style: base }, width).len(),
    ensures
        ({
            let lines = wrapped_line(LineView { spans: seq![word], style: base }, width);
            &&& lines[i].style == base
            &&& lines[i].spans.len() == 1
            &&& lines[i].spans[0].style == word.style
            &&& lines[i].spans[0].content.len() > 0
            &&& i + 1 < lines.len() ==> text_cells(lines[i].spans[0].content) + cells(
                lines[i + 1].spans[0].content[0],
            ) > width
        }),
{
    assert(seq![word].drop_last() =~= Seq::empty());
    assert(with_spans(seq![word].drop_last(), base, width) == wrap_start());
    assert(seq![word].last() == word);
    lemma_word_chars(wrap_start(), word.content, word.style, base, width);
    lemma_hard_broken_full(word.content, word.style, base, width);
}

proof fn lemma_chars_after(
    st: WrapView,
    a: Seq<char>,
    b: Seq<char>,
    style: Style,
    base: Style,
    width: nat,
)
    requires
        with_chars(st, a, style, base, width).1.len() == 0,
    ensures
        with_chars(st, a + b, style, base, width) == with_chars(
            with_chars(st, a, style, base, width).0,
            b,
            style,
            base,
            width,
        ),
    decreases b.len(),
{
    if b.len() == 0 {
        assert(a + b =~= a);
        let (s, w) = with_chars(st, a, style, base, width);
        assert(w =~= Seq::empty());
    } else {
        assert((a + b).drop_last() =~= a + b.drop_last());
        lemma_chars_after(st, a, b.drop_last(), style, base, width);
    }
}

proof fn lemma_blank_ends(
    st: WrapView,
    x: Seq<char>,
    blank: Seq<char>,
    style: Style,
    other: Style,
    base: Style,
    width: nat,
)
    requires
        is_blank(blank),
        blank.len() > 0,
    ensures
        ({
            let s = SpanView { content: x, style };
            let g = SpanView { content: blank, style: other };
            &&& with_chars(st, x + blank, style, base, width).1.len() == 0
            &&& with_chars(st, x + blank, style, base, width).0 == with_span(
                with_span(st, s, base, width),
                g,
                base,
                width,
            )
            &&& with_chars(with_span(st, s, base, width), blank, other, base, width).1.len() == 0
        }),
    decreases blank.len(),
{
    let s = SpanView { content: x, style };
    let front = blank.drop_last();
    let f = SpanView { content: front, style: other };
    assert((x + blank).drop_last() =~= x + front);
    assert(is_white(blank[blank.len() - 1]));
    if front.len() > 0 {
        assert forall|i: int| 0 <= i < front.len() implies is_white(#[trigger] front[i]) by {
            assert(front[i] == blank[i]);
        }
        lemma_blank_ends(st, x, front, style, other, base, width);
    } else {
        assert(x + front =~= x);
        let t = with_span(st, s, base, width);
        assert(front =~= Seq::empty());
        assert(with_chars(t, front, other, base, width) == (t, Seq::<char>::empty()));
    }
    let (before, word) = with_chars(st, x + front, style, base, width);
    assert((x + blank).last() == blank.last());
}

proof fn lemma_span_parts(
    st: WrapView,
    x: Seq<char>,
    blank: Seq<char>,
    y: Seq<char>,
    style: Style,
    other: Style,
    base: Style,
    width: nat,
)
    requires
        is_blank(blank),
        blank.len() > 0,
    ensures
        with_span(st, SpanView { content: x + blank + y, style }, base, width) == with_span(
            with_span(
                with_span(st, SpanView { content: x, style }, base, width),
                SpanView { content: blank, style: other },
                base,
                width,
            ),
            SpanView { content: y, style },
            base,
            width,
        ),
{
    lemma_blank_ends(st, x, blank, style, other, base, width);
    lemma_chars_after(st, x + blank, y, style, base, width);
}

/// White space ends words wherever it stands: a span is wrapped as the text before some
/// white space, the white space, and the text behind it would be as spans of their own.
pub proof fn white_space_ends_words(
    before: Seq<SpanView>,
    x: Seq<char>,
    blank: Seq<char>,
    y: Seq<char>,
    behind: Seq<SpanView>,
    style: Style,
    other: Style,
    base: Style,
    width: nat,
)
    requires
        width > 0,
        is_blank(blank),
        blank.len() > 0,
    ensures
        ({
            let whole = before.push(SpanView { content: x + blank + y, style }) + behind;
            let parts = before.push(SpanView { content: x, style }).push(
                SpanView { content: blank, style: other },
            ).push(SpanView { content: y, style }) + behind;
            wrapped_line(LineView { spans: whole, style: base }, width) == wrapped_line(
                LineView { spans: parts, style: base },
                width,
            )
        }),
{
    let a = before.push(SpanView { content: x, style });
    let b = a.push(SpanView { content: blank, style: other });
    let c = b.push(SpanView { content: y, style });
    let w = before.push(SpanView { content: x + blank + y, style });
    assert(a.drop_last() =~= before);
    assert(b.drop_last() =~= a);
    assert(c.drop_last() =~= b);
    assert(w.drop_last() =~= before);
    let st = with_spans(before, base, width);
    lemma_span_parts(st, x, blank, y, style, other, base, width);
    let first = with_span(st, SpanView { content: x, style }, base, width);
    let second = with_span(first, SpanView { content: blank, style: other }, base, width);
    assert(with_spans(a, base, width) == first);
    assert(with_spans(b, base, width) == second);
    assert(with_spans(c, base, width) == with_span(
        second,
        SpanView { content: y, style },
        base,
        width,
    ));
    assert(with_spans(w, base, width) == with_span(
        st,
        SpanView { content: x + blank + y, style },
        base,
        width,
    ));
    lemma_same_behind(w, c, behind, base, width);
}

proof fn lemma_same_behind(
    a: Seq<SpanView>,
    b: Seq<SpanView>,
    behind: Seq<SpanView>,
    base: Style,
    width: nat,
)
    requires
        with_spans(a, base, width) == with_spans(b, base, width),
    ensures
        with_spans(a + behind, base, width) == with_spans(b + behind, base, width),
    decreases behind.len(),
{
    if behind.len() == 0 {
        assert(a + behind =~= a);
        assert(b + behind =~= b);
    } else {
        lemma_same_behind(a, b, behind.drop_last(), base, width);
        assert((a + behind).drop_last() =~= a + behind.drop_last());
        assert((b + behind).drop_last() =~= b + behind.drop_last());
    }
}

/// White space, empty spans and words without width in front of a line are not shown:
/// the line is wrapped as if it began behind them.
pub proof fn lines_begin_with_their_first_word(
    blank: SpanView,
    spans: Seq<SpanView>,
    base: Style,
    width: nat,
)
    requires
        width > 0,
        spans.len() > 0,
        is_blank(blank.content),
    ensures
        wrapped_line(LineView { spans: seq![blank] + spans, style: base }, width) == wrapped_line(
            LineView { spans, style: base },
            width,
        ),
{
    assert(seq![blank].drop_last() =~= Seq::empty());
    assert(seq![blank].last() == blank);
    assert(with_spans(seq![blank].drop_last(), base, width) == wrap_start());
    lemma_leading_blank(blank.content, blank.style, base, width);
    assert(with_spans(seq![blank], base, width) == wrap_start());
    lemma_same_behind(seq![blank], Seq::empty(), spans, base, width);
    assert(Seq::<SpanView>::empty() + spans =~= spans);
}

proof fn lemma_leading_blank(blank: Seq<char>, style: Style, base: Style, width: nat)
    requires
        is_blank(blank),
    ensures
        with_chars(wrap_start(), blank, style, base, width) == (
            wrap_start(),
            Seq::<char>::empty(),
        ),
    decreases blank.len(),
{
    if blank.len() > 0 {
        let front = blank.drop_last();
        assert forall|i: int| 0 <= i < front.len() implies is_white(#[trigger] front[i]) by {
            assert(front[i] == blank[i]);
        }
        lemma_leading_blank(front, style, base, width);
        assert(is_white(blank[blank.len() - 1]));
    }
}

/// A single word that fits is a line, white space behind the last word is not shown, and
/// a line without words is empty.
pub proof fn lines_end_with_their_last_word(
    spans: Seq<SpanView>,
    blank: SpanView,
    base: Style,
    width: nat,
)
    requires
        width > 0,
        spans.len() > 0,
        is_visible_word(spans.last().content),
        is_blank(blank.content),
        blank.content.len() <= usize::MAX,
    ensures
        wrapped_line(LineView { spans: spans.push(blank), style: base }, width) == wrapped_line(
            LineView { spans, style: base },
            width,
        ),
        ({
            let empty = wrapped_line(LineView { spans: seq![blank], style: base }, width);
            empty.len() == 1 && empty[0].spans.len() == 0
        }),
        ({
            let empty = wrapped_line(LineView { spans: Seq::empty(), style: base }, width);
            empty.len() == 1 && empty[0].spans.len() == 0
        }),
{
    let st = with_spans(spans, base, width);
    lemma_word_ends(spans, base, width);
    assert(spans.push(blank).drop_last() =~= spans);
    lemma_blank_chars(st, blank.content, blank.style, base, width);
    assert(seq![blank].drop_last() =~= Seq::empty());
    assert(seq![blank].last() == blank);
    assert(with_spans(seq![blank].drop_last(), base, width) == wrap_start());
    lemma_leading_blank(blank.content, blank.style, base, width);
}

/// Empty spans, and words without width behind a word, are not shown.
pub proof fn nothing_is_made_of_nothing(
    before: Seq<SpanView>,
    hidden: SpanView,
    behind: Seq<SpanView>,
    base: Style,
    width: nat,
)
    requires
        width > 0,
        before.len() + behind.len() > 0,
        text_cells(hidden.content) == 0,
        forall|i: int| 0 <= i < hidden.content.len() ==> !is_white(#[trigger] hidden.content[i]),
    ensures
        wrapped_line(LineView { spans: before.push(hidden) + behind, style: base }, width)
            == wrapped_line(LineView { spans: before + behind, style: base }, width),
{
    let st = with_spans(before, base, width);
    assert(before.push(hidden).drop_last() =~= before);
    lemma_word_chars(st, hidden.content, hidden.style, base, width);
    assert(with_spans(before.push(hidden), base, width) == st);
    lemma_same_behind(before.push(hidden), before, behind, base, width);
}

/// A line is left as it is where there is no width to wrap it to.
pub proof fn lines_without_width_stay(line: LineView)
    requires
        line.spans.len() > 0,
    ensures
        wrapped_line(line, 0) == seq![line],
{
}

} // verus!
