//! Wrapping of styled lines at word boundaries.

use crate::style::{
    empty_line, plain_style, raw, spans_text, Line, LineView, Span, SpanView, Style,
};
use crate::text::{
    chars_of, is_white, is_white_char, repeat_char, repeated, string_of, string_of_range, words,
};
use crate::width::{cells, char_cells, lemma_cells_concat, text_cells};
use vstd::prelude::*;

verus! {

/// A line being wrapped: the finished lines, the spans of the current line, the
/// columns that they take, and the white space that follows them but has not
/// been written yet.
#[verifier::ext_equal]
pub struct WrapView {
    pub out: Seq<LineView>,
    pub cur: Seq<SpanView>,
    pub cur_w: nat,
    pub pending: nat,
}

/// The state in which wrapping begins.
pub open spec fn wrap_start() -> WrapView {
    WrapView { out: Seq::empty(), cur: Seq::empty(), cur_w: 0, pending: 0 }
}

/// Counts one more white space character; the count stops at `usize::MAX`.
pub open spec fn one_more(n: nat) -> nat {
    if n < usize::MAX {
        n + 1
    } else {
        n
    }
}

/// White space is remembered, except at the beginning of a line.
pub open spec fn with_space(st: WrapView) -> WrapView {
    if st.cur.len() == 0 {
        st
    } else {
        WrapView { pending: one_more(st.pending), ..st }
    }
}

/// Puts a word on the current line, after the pending spaces.
pub open spec fn placed(st: WrapView, word: Seq<char>, style: Style) -> WrapView {
    let gap = if st.pending > 0 {
        st.cur.push(raw(repeated(' ', st.pending)))
    } else {
        st.cur
    };
    WrapView {
        cur: gap.push(SpanView { content: word, style }),
        cur_w: st.cur_w + st.pending + text_cells(word),
        pending: 0,
        ..st
    }
}

/// Ends the current line, if there is anything on it.
pub open spec fn broken(st: WrapView, base: Style) -> WrapView {
    if st.cur.len() == 0 {
        st
    } else {
        WrapView {
            out: st.out.push(LineView { spans: st.cur, style: base }),
            cur: Seq::empty(),
            cur_w: 0,
            pending: 0,
        }
    }
}

/// How many characters of a word fit on one line, when `n` are taken already.
pub open spec fn cut(word: Seq<char>, width: nat, n: nat) -> nat
    decreases word.len() - n,
{
    if n < word.len() && text_cells(word.take(n as int + 1)) <= width {
        cut(word, width, n + 1)
    } else {
        n
    }
}

/// Cuts a word that is wider than a line: every piece takes as many characters
/// as fit, and at least one. All pieces but the last become lines of their own.
pub open spec fn hard_broken(
    out: Seq<LineView>,
    word: Seq<char>,
    style: Style,
    base: Style,
    width: nat,
) -> WrapView
    decreases word.len(),
{
    let n = cut(word, width, 1);
    if n >= word.len() {
        WrapView {
            out,
            cur: seq![SpanView { content: word, style }],
            cur_w: text_cells(word),
            pending: 0,
        }
    } else {
        proof {
            lemma_cut_grows(word, width, 1);
        }
        let piece = SpanView { content: word.take(n as int), style };
        hard_broken(
            out.push(LineView { spans: seq![piece], style: base }),
            word.skip(n as int),
            style,
            base,
            width,
        )
    }
}

/// A piece takes at least what it has begun with, never more than the word, and
/// fits on the line if it takes more than what it has begun with.
pub proof fn lemma_cut_grows(word: Seq<char>, width: nat, n: nat)
    ensures
        n <= cut(word, width, n),
        n <= word.len() ==> cut(word, width, n) <= word.len(),
        cut(word, width, n) > n ==> text_cells(word.take(cut(word, width, n) as int)) <= width,
    decreases word.len() - n,
{
    if n < word.len() && text_cells(word.take(n as int + 1)) <= width {
        lemma_cut_grows(word, width, n + 1);
    }
}

/// Adds a word: to the current line if it fits there, else to a new line, cut
/// into pieces if it is wider than a line. A word without width is dropped.
pub open spec fn with_word(
    st: WrapView,
    word: Seq<char>,
    style: Style,
    base: Style,
    width: nat,
) -> WrapView {
    let w = text_cells(word);
    if w == 0 {
        st
    } else if st.cur_w + st.pending + w <= width {
        placed(st, word, style)
    } else if w <= width {
        placed(broken(st, base), word, style)
    } else {
        hard_broken(broken(st, base).out, word, style, base, width)
    }
}

/// Adds the characters of a span: the state, and the word that is not ended yet.
pub open spec fn with_chars(
    st: WrapView,
    chars: Seq<char>,
    style: Style,
    base: Style,
    width: nat,
) -> (WrapView, Seq<char>)
    decreases chars.len(),
{
    if chars.len() == 0 {
        (st, Seq::empty())
    } else {
        let (before, word) = with_chars(st, chars.drop_last(), style, base, width);
        if is_white(chars.last()) {
            let ended = if word.len() == 0 {
                before
            } else {
                with_word(before, word, style, base, width)
            };
            (with_space(ended), Seq::empty())
        } else {
            (before, word.push(chars.last()))
        }
    }
}

/// Adds a span; a word does not reach beyond its span.
pub open spec fn with_span(st: WrapView, span: SpanView, base: Style, width: nat) -> WrapView {
    let (before, word) = with_chars(st, span.content, span.style, base, width);
    if word.len() == 0 {
        before
    } else {
        with_word(before, word, span.style, base, width)
    }
}

/// Adds some spans, one after the other.
pub open spec fn with_spans(spans: Seq<SpanView>, base: Style, width: nat) -> WrapView
    decreases spans.len(),
{
    if spans.len() == 0 {
        wrap_start()
    } else {
        with_span(with_spans(spans.drop_last(), base, width), spans.last(), base, width)
    }
}

/// The lines that a line becomes when it is wrapped to `width` columns. The
/// width zero leaves it as it is.
pub open spec fn wrapped_line(line: LineView, width: nat) -> Seq<LineView> {
    if line.spans.len() == 0 {
        seq![empty_line()]
    } else if width == 0 {
        seq![line]
    } else {
        let lines = broken(with_spans(line.spans, line.style, width), line.style).out;
        if lines.len() == 0 {
            seq![empty_line()]
        } else {
            lines
        }
    }
}

/// A line being wrapped.
pub struct Wrapping {
    pub out: Vec<Line>,
    pub cur: Vec<Span>,
    pub cur_w: usize,
    pub pending: usize,
}

impl View for Wrapping {
    type V = WrapView;

    open spec fn view(&self) -> WrapView {
        WrapView {
            out: self.out.deep_view(),
            cur: self.cur.deep_view(),
            cur_w: self.cur_w as nat,
            pending: self.pending as nat,
        }
    }
}

/// What holds between two words: an empty line is zero columns wide and no
/// space is pending.
pub open spec fn wrap_ok(st: WrapView) -> bool {
    st.cur.len() == 0 ==> st.cur_w == 0 && st.pending == 0
}

/// The sum of the columns of some characters, if it is representable.
fn word_cells(word: &Vec<char>) -> (r: Option<usize>)
    ensures
        r is Some <==> text_cells(word@) <= usize::MAX,
        r matches Some(w) ==> w == text_cells(word@),
{
    let mut sum: usize = 0;
    let mut i: usize = 0;
    assert(word@.take(0) =~= Seq::empty());
    while i < word.len()
        invariant
            i <= word@.len(),
            sum == text_cells(word@.take(i as int)),
        decreases word@.len() - i,
    {
        assert(word@.take(i + 1).drop_last() =~= word@.take(i as int));
        proof {
            crate::width::lemma_cells_take(word@, i + 1, word@.len() as int);
            assert(word@.take(word@.len() as int) =~= word@);
        }
        match sum.checked_add(char_cells(word[i])) {
            Some(s) => {
                sum = s;
            },
            None => {
                return None;
            },
        }
        i += 1;
    }
    assert(word@.take(word@.len() as int) =~= word@);
    Some(sum)
}

impl Wrapping {
    fn new() -> (r: Wrapping)
        ensures
            r@ == wrap_start(),
    {
        let r = Wrapping { out: Vec::new(), cur: Vec::new(), cur_w: 0, pending: 0 };
        assert(r@ =~= wrap_start());
        r
    }

    fn space(&mut self)
        ensures
            final(self)@ == with_space(old(self)@),
    {
        assert(self.cur@.len() == self@.cur.len());
        if self.cur.len() > 0 {
            self.pending = self.pending.saturating_add(1);
        }
    }

    fn place(&mut self, word: String, w: usize, style: Style)
        requires
            w == text_cells(word@),
            old(self).cur_w + old(self).pending + w <= usize::MAX,
        ensures
            final(self)@ == placed(old(self)@, word@, style),
    {
        let ghost before = self@;
        if self.pending > 0 {
            self.cur.push(Span::raw(repeat_char(' ', self.pending)));
            assert(self.cur.deep_view() =~= before.cur.push(raw(repeated(' ', before.pending))));
        }
        self.cur_w = self.cur_w + self.pending + w;
        self.pending = 0;
        let ghost gap = self.cur.deep_view();
        self.cur.push(Span::styled(word, style));
        assert(self.cur.deep_view() =~= gap.push(SpanView { content: word@, style }));
    }

    fn break_line(&mut self, base: Style)
        ensures
            final(self)@ == broken(old(self)@, base),
    {
        assert(self.cur@.len() == self@.cur.len());
        if self.cur.len() > 0 {
            let ghost before = self@;
            let mut spans: Vec<Span> = Vec::new();
            std::mem::swap(&mut spans, &mut self.cur);
            self.out.push(Line { spans, style: base });
            self.cur_w = 0;
            self.pending = 0;
            assert(self.out.deep_view() =~= before.out.push(
                LineView { spans: before.cur, style: base },
            ));
            assert(self.cur.deep_view() =~= Seq::empty());
        }
    }

    fn hard_break(&mut self, word: &Vec<char>, style: Style, base: Style, width: usize)
        requires
            word@.len() > 0,
            old(self)@.cur.len() == 0,
            old(self)@.cur_w == 0,
            old(self)@.pending == 0,
        ensures
            final(self)@ == hard_broken(old(self)@.out, word@, style, base, width as nat),
    {
        let ghost wanted = hard_broken(self@.out, word@, style, base, width as nat);
        let len = word.len();
        let mut pos: usize = 0;
        assert(word@.skip(0) =~= word@);
        loop
            invariant_except_break
                pos < word@.len(),
                self@.cur.len() == 0,
                self@.cur_w == 0,
                self@.pending == 0,
                hard_broken(self@.out, word@.skip(pos as int), style, base, width as nat)
                    == wanted,
            invariant
                len == word@.len(),
            ensures
                self@ == wanted,
            decreases word@.len() - pos,
        {
            let ghost before = self@;
            let ghost rest = word@.skip(pos as int);
            let mut end: usize = pos + 1;
            let mut w: usize = char_cells(word[pos]);
            assert(rest.take(1).drop_last() =~= Seq::empty());
            assert(text_cells(rest.take(1)) == text_cells(Seq::empty()) + cells(rest[0]));
            while end < len && w <= width && char_cells(word[end]) <= width - w
                invariant
                    len == word@.len(),
                    pos < end <= len,
                    rest == word@.skip(pos as int),
                    w == text_cells(rest.take(end - pos)),
                    cut(rest, width as nat, 1) == cut(rest, width as nat, (end - pos) as nat),
                decreases word@.len() - end,
            {
                assert(rest.take(end + 1 - pos).drop_last() =~= rest.take(end - pos));
                w = w + char_cells(word[end]);
                end += 1;
            }
            assert(end < word@.len() ==> rest.take(end + 1 - pos).drop_last() =~= rest.take(
                end - pos,
            ));
            assert(cut(rest, width as nat, 1) == end - pos);
            let piece = string_of_range(word, pos, end);
            assert(piece@ =~= rest.take(end - pos));
            self.cur.push(Span::styled(piece, style));
            self.cur_w = w;
            assert(self.cur.deep_view() =~= seq![SpanView { content: piece@, style }]);
            if end == len {
                assert(rest.take(end - pos) =~= rest);
                assert(self@ =~= wanted);
                break;
            }
            self.break_line(base);
            assert(rest.skip(end - pos) =~= word@.skip(end as int));
            pos = end;
        }
    }

    /// Adds a word to the line being wrapped.
    pub fn push_word(&mut self, word: &Vec<char>, style: Style, base: Style, width: usize)
        requires
            wrap_ok(old(self)@),
        ensures
            final(self)@ == with_word(old(self)@, word@, style, base, width as nat),
            wrap_ok(final(self)@),
    {
        assert(self.cur@.len() == self@.cur.len());
        let w = match word_cells(word) {
            Some(w) => w,
            None => {
                assert(word@.len() > 0);
                self.break_line(base);
                self.hard_break(word, style, base, width);
                proof {
                    lemma_hard_broken_ok(old(self)@.out, word@, style, base, width as nat);
                    lemma_hard_broken_ok(
                        broken(old(self)@, base).out,
                        word@,
                        style,
                        base,
                        width as nat,
                    );
                }
                return;
            },
        };
        if w == 0 {
            return;
        }
        assert(word@.len() > 0);
        if w <= width && self.pending <= width - w && self.cur_w <= width - w - self.pending {
            self.place(string_of(word), w, style);
            return;
        }
        self.break_line(base);
        if w <= width {
            self.place(string_of(word), w, style);
            return;
        }
        self.hard_break(word, style, base, width);
        proof {
            lemma_hard_broken_ok(broken(old(self)@, base).out, word@, style, base, width as nat);
        }
    }

    fn push_span(&mut self, span: &Span, base: Style, width: usize)
        requires
            wrap_ok(old(self)@),
        ensures
            final(self)@ == with_span(old(self)@, span.deep_view(), base, width as nat),
            wrap_ok(final(self)@),
    {
        let chars = chars_of(span.content.as_str());
        let mut word: Vec<char> = Vec::new();
        let mut i: usize = 0;
        assert(chars@.take(0) =~= Seq::empty());
        while i < chars.len()
            invariant
                i <= chars@.len(),
                wrap_ok(self@),
                (self@, word@) == with_chars(
                    old(self)@,
                    chars@.take(i as int),
                    span.style,
                    base,
                    width as nat,
                ),
            decreases chars@.len() - i,
        {
            let c = chars[i];
            assert(chars@.take(i + 1).drop_last() =~= chars@.take(i as int));
            if is_white_char(c) {
                if word.len() > 0 {
                    self.push_word(&word, span.style, base, width);
                    word = Vec::new();
                }
                self.space();
                assert(word@ =~= Seq::empty());
            } else {
                word.push(c);
            }
            i += 1;
        }
        assert(chars@.take(chars@.len() as int) =~= chars@);
        if word.len() > 0 {
            self.push_word(&word, span.style, base, width);
        }
    }
}

proof fn lemma_hard_broken_ok(
    out: Seq<LineView>,
    word: Seq<char>,
    style: Style,
    base: Style,
    width: nat,
)
    ensures
        hard_broken(out, word, style, base, width).cur.len() == 1,
    decreases word.len(),
{
    let n = cut(word, width, 1);
    if n < word.len() {
        lemma_cut_grows(word, width, 1);
        let piece = SpanView { content: word.take(n as int), style };
        lemma_hard_broken_ok(
            out.push(LineView { spans: seq![piece], style: base }),
            word.skip(n as int),
            style,
            base,
            width,
        );
    }
}

/// Wraps a line to `width` columns at word boundaries, and cuts the words that
/// are wider than that. The styles of the spans are kept.
pub fn wrap_line(line: &Line, width: usize) -> (r: Vec<Line>)
    ensures
        r.deep_view() == wrapped_line(line.deep_view(), width as nat),
{
    assert(line.spans@.len() == line.deep_view().spans.len());
    if line.spans.len() == 0 {
        let mut r: Vec<Line> = Vec::new();
        r.push(Line::empty());
        assert(r.deep_view() =~= seq![empty_line()]);
        return r;
    }
    if width == 0 {
        let mut r: Vec<Line> = Vec::new();
        r.push(line.clone());
        assert(r.deep_view() =~= seq![line.deep_view()]);
        return r;
    }
    let base = line.style;
    let ghost spans = line.deep_view().spans;
    let mut st = Wrapping::new();
    let mut i: usize = 0;
    assert(spans.take(0) =~= Seq::empty());
    while i < line.spans.len()
        invariant
            i <= line.spans@.len(),
            spans == line.spans.deep_view(),
            wrap_ok(st@),
            st@ == with_spans(spans.take(i as int), base, width as nat),
        decreases line.spans@.len() - i,
    {
        assert(spans.take(i + 1).drop_last() =~= spans.take(i as int));
        assert(spans.take(i + 1).last() == line.spans[i as int].deep_view());
        st.push_span(&line.spans[i], base, width);
        i += 1;
    }
    assert(spans.take(spans.len() as int) =~= spans);
    st.break_line(base);
    assert(st.out@.len() == st@.out.len());
    if st.out.len() == 0 {
        st.out.push(Line::empty());
        assert(st.out.deep_view() =~= seq![empty_line()]);
    }
    st.out
}

/// The columns of the characters of a line.
pub open spec fn line_cells(line: LineView) -> nat {
    text_cells(spans_text(line.spans))
}

/// No character of the text takes more than `width` columns.
pub open spec fn no_wider(text: Seq<char>, width: nat) -> bool {
    forall|i: int| 0 <= i < text.len() ==> cells(#[trigger] text[i]) <= width
}

/// The finished lines and the current line keep to the width.
pub open spec fn keeps_width(st: WrapView, width: nat) -> bool {
    &&& st.cur_w == text_cells(spans_text(st.cur))
    &&& st.cur_w <= width
    &&& forall|i: int| 0 <= i < st.out.len() ==> line_cells(#[trigger] st.out[i]) <= width
}

proof fn lemma_spans_text_push(spans: Seq<SpanView>, span: SpanView)
    ensures
        spans_text(spans.push(span)) == spans_text(spans) + span.content,
{
    assert(spans.push(span).drop_last() =~= spans);
}

proof fn lemma_spaces_cells(n: nat)
    ensures
        text_cells(repeated(' ', n)) == n,
{
    crate::width::lemma_narrow_cells(repeated(' ', n));
}

proof fn lemma_placed_width(st: WrapView, word: Seq<char>, style: Style, width: nat)
    requires
        keeps_width(st, width),
        st.cur_w + st.pending + text_cells(word) <= width,
    ensures
        keeps_width(placed(st, word, style), width),
{
    let spaces = raw(repeated(' ', st.pending));
    lemma_spaces_cells(st.pending);
    lemma_spans_text_push(st.cur, spaces);
    lemma_cells_concat(spans_text(st.cur), spaces.content);
    let gap = if st.pending > 0 {
        st.cur.push(spaces)
    } else {
        st.cur
    };
    lemma_spans_text_push(gap, SpanView { content: word, style });
    lemma_cells_concat(spans_text(gap), word);
}

proof fn lemma_one_span_text(span: SpanView)
    ensures
        spans_text(seq![span]) == span.content,
{
    lemma_spans_text_push(Seq::empty(), span);
    assert(Seq::<SpanView>::empty().push(span) =~= seq![span]);
    assert(spans_text(Seq::<SpanView>::empty()) + span.content =~= span.content);
}

proof fn lemma_hard_broken_width(
    out: Seq<LineView>,
    word: Seq<char>,
    style: Style,
    base: Style,
    width: nat,
)
    requires
        word.len() > 0,
        no_wider(word, width),
        forall|i: int| 0 <= i < out.len() ==> line_cells(#[trigger] out[i]) <= width,
    ensures
        keeps_width(hard_broken(out, word, style, base, width), width),
    decreases word.len(),
{
    let n = cut(word, width, 1);
    lemma_cut_grows(word, width, 1);
    assert(word.take(1).drop_last() =~= Seq::empty());
    assert(text_cells(word.take(1)) == text_cells(Seq::empty()) + cells(word[0]));
    assert(text_cells(word.take(n as int)) <= width);
    if n >= word.len() {
        assert(word.take(n as int) =~= word);
        lemma_one_span_text(SpanView { content: word, style });
    } else {
        let piece = SpanView { content: word.take(n as int), style };
        lemma_one_span_text(piece);
        let more = out.push(LineView { spans: seq![piece], style: base });
        assert forall|i: int| 0 <= i < more.len() implies line_cells(#[trigger] more[i])
            <= width by {
            if i < out.len() {
                assert(more[i] == out[i]);
            }
        }
        let rest = word.skip(n as int);
        assert forall|i: int| 0 <= i < rest.len() implies cells(#[trigger] rest[i]) <= width by {
            assert(rest[i] == word[i + n]);
        }
        lemma_hard_broken_width(more, rest, style, base, width);
    }
}

proof fn lemma_broken_width(st: WrapView, base: Style, width: nat)
    requires
        keeps_width(st, width),
        wrap_ok(st),
    ensures
        keeps_width(broken(st, base), width),
        wrap_ok(broken(st, base)),
{
    let b = broken(st, base);
    assert forall|i: int| 0 <= i < b.out.len() implies line_cells(#[trigger] b.out[i]) <= width by {
        if i < st.out.len() {
            assert(b.out[i] == st.out[i]);
        }
    }
}

proof fn lemma_with_word_width(
    st: WrapView,
    word: Seq<char>,
    style: Style,
    base: Style,
    width: nat,
)
    requires
        keeps_width(st, width),
        wrap_ok(st),
        no_wider(word, width),
    ensures
        keeps_width(with_word(st, word, style, base, width), width),
        wrap_ok(with_word(st, word, style, base, width)),
{
    lemma_broken_width(st, base, width);
    if st.cur_w + st.pending + text_cells(word) <= width {
        lemma_placed_width(st, word, style, width);
    } else if text_cells(word) <= width {
        lemma_placed_width(broken(st, base), word, style, width);
    } else {
        lemma_hard_broken_width(broken(st, base).out, word, style, base, width);
        lemma_hard_broken_ok(broken(st, base).out, word, style, base, width);
    }
}

proof fn lemma_with_chars_width(
    st: WrapView,
    chars: Seq<char>,
    style: Style,
    base: Style,
    width: nat,
)
    requires
        keeps_width(st, width),
        wrap_ok(st),
        no_wider(chars, width),
    ensures
        keeps_width(with_chars(st, chars, style, base, width).0, width),
        wrap_ok(with_chars(st, chars, style, base, width).0),
        no_wider(with_chars(st, chars, style, base, width).1, width),
    decreases chars.len(),
{
    if chars.len() > 0 {
        assert forall|i: int| 0 <= i < chars.drop_last().len() implies cells(
            #[trigger] chars.drop_last()[i],
        ) <= width by {
            assert(chars.drop_last()[i] == chars[i]);
        }
        lemma_with_chars_width(st, chars.drop_last(), style, base, width);
        let (before, word) = with_chars(st, chars.drop_last(), style, base, width);
        lemma_with_word_width(before, word, style, base, width);
        assert(cells(chars.last()) <= width);
    }
}

/// The texts of some spans have no character wider than `width` columns.
pub open spec fn spans_no_wider(spans: Seq<SpanView>, width: nat) -> bool {
    forall|i: int| 0 <= i < spans.len() ==> no_wider((#[trigger] spans[i]).content, width)
}

/// The state after some spans keeps to the width.
pub proof fn lemma_with_spans_width(spans: Seq<SpanView>, base: Style, width: nat)
    requires
        spans_no_wider(spans, width),
    ensures
        keeps_width(with_spans(spans, base, width), width),
        wrap_ok(with_spans(spans, base, width)),
    decreases spans.len(),
{
    if spans.len() > 0 {
        assert forall|i: int| 0 <= i < spans.drop_last().len() implies no_wider(
            (#[trigger] spans.drop_last()[i]).content,
            width,
        ) by {
            assert(spans.drop_last()[i] == spans[i]);
        }
        lemma_with_spans_width(spans.drop_last(), base, width);
        let st = with_spans(spans.drop_last(), base, width);
        let last = spans.last();
        assert(no_wider(spans[spans.len() - 1].content, width));
        lemma_with_chars_width(st, last.content, last.style, base, width);
        let (before, word) = with_chars(st, last.content, last.style, base, width);
        lemma_with_word_width(before, word, last.style, base, width);
    } else {
        assert(spans_text(Seq::<SpanView>::empty()) =~= Seq::empty());
    }
}

/// No line that wrapping makes is wider than the width it was wrapped to, as
/// long as every single character fits: in three columns every character does.
pub proof fn wrapped_lines_keep_the_width(line: LineView, width: nat)
    requires
        width > 0,
        width >= 3 || spans_no_wider(line.spans, width),
    ensures
        forall|i: int|
            0 <= i < wrapped_line(line, width).len() ==> line_cells(
                #[trigger] wrapped_line(line, width)[i],
            ) <= width,
{
    assert(spans_no_wider(line.spans, width));
    lemma_with_spans_width(line.spans, line.style, width);
    lemma_broken_width(with_spans(line.spans, line.style, width), line.style, width);
    assert(spans_text(Seq::<SpanView>::empty()) =~= Seq::empty());
}

/// The characters of a text that are not white space, each with the style.
pub open spec fn ink(text: Seq<char>, style: Style) -> Seq<(char, Style)>
    decreases text.len(),
{
    if text.len() == 0 {
        Seq::empty()
    } else if is_white(text.last()) {
        ink(text.drop_last(), style)
    } else {
        ink(text.drop_last(), style).push((text.last(), style))
    }
}

/// The characters of some spans that are not white space, with their styles.
pub open spec fn spans_ink(spans: Seq<SpanView>) -> Seq<(char, Style)>
    decreases spans.len(),
{
    if spans.len() == 0 {
        Seq::empty()
    } else {
        spans_ink(spans.drop_last()) + ink(spans.last().content, spans.last().style)
    }
}

/// The characters of some lines that are not white space, with their styles.
pub open spec fn lines_ink(lines: Seq<LineView>) -> Seq<(char, Style)>
    decreases lines.len(),
{
    if lines.len() == 0 {
        Seq::empty()
    } else {
        lines_ink(lines.drop_last()) + spans_ink(lines.last().spans)
    }
}

/// What has been written so far.
pub open spec fn wrap_ink(st: WrapView) -> Seq<(char, Style)> {
    lines_ink(st.out) + spans_ink(st.cur)
}

/// Every word of a text takes at least one column.
pub open spec fn no_hidden(text: Seq<char>) -> bool {
    forall|i: int| 0 <= i < words(text).len() ==> text_cells(#[trigger] words(text)[i]) > 0
}

/// Whether a text ends inside a word.
spec fn ends_in_word(text: Seq<char>) -> bool {
    text.len() > 0 && !is_white(text.last())
}

/// Every word of a text that has ended takes at least one column.
spec fn no_hidden_so_far(text: Seq<char>) -> bool {
    forall|i: int|
        0 <= i < words(text).len() && (i < words(text).len() - 1 || !ends_in_word(text))
            ==> text_cells(#[trigger] words(text)[i]) > 0
}

proof fn lemma_ink_concat(a: Seq<char>, b: Seq<char>, style: Style)
    ensures
        ink(a + b, style) == ink(a, style) + ink(b, style),
    decreases b.len(),
{
    if b.len() == 0 {
        assert(a + b =~= a);
        assert(ink(a, style) + ink(b, style) =~= ink(a, style));
    } else {
        assert((a + b).drop_last() =~= a + b.drop_last());
        lemma_ink_concat(a, b.drop_last(), style);
        assert(ink(a + b, style) =~= ink(a, style) + ink(b, style));
    }
}

proof fn lemma_spans_ink_push(spans: Seq<SpanView>, span: SpanView)
    ensures
        spans_ink(spans.push(span)) == spans_ink(spans) + ink(span.content, span.style),
{
    assert(spans.push(span).drop_last() =~= spans);
}

proof fn lemma_lines_ink_push(lines: Seq<LineView>, line: LineView)
    ensures
        lines_ink(lines.push(line)) == lines_ink(lines) + spans_ink(line.spans),
{
    assert(lines.push(line).drop_last() =~= lines);
}

/// Spaces are not visible.
pub proof fn lemma_spaces_ink(n: nat, style: Style)
    ensures
        ink(repeated(' ', n), style) == Seq::<(char, Style)>::empty(),
    decreases n,
{
    if n > 0 {
        assert(repeated(' ', n).drop_last() =~= repeated(' ', (n - 1) as nat));
        lemma_spaces_ink((n - 1) as nat, style);
    }
}

proof fn lemma_placed_ink(st: WrapView, word: Seq<char>, style: Style)
    ensures
        wrap_ink(placed(st, word, style)) == wrap_ink(st) + ink(word, style),
{
    let spaces = raw(repeated(' ', st.pending));
    lemma_spaces_ink(st.pending, plain_style());
    lemma_spans_ink_push(st.cur, spaces);
    let gap = if st.pending > 0 {
        st.cur.push(spaces)
    } else {
        st.cur
    };
    assert(spans_ink(gap) =~= spans_ink(st.cur));
    lemma_spans_ink_push(gap, SpanView { content: word, style });
    assert(wrap_ink(placed(st, word, style)) =~= wrap_ink(st) + ink(word, style));
}

proof fn lemma_broken_ink(st: WrapView, base: Style)
    ensures
        wrap_ink(broken(st, base)) == wrap_ink(st),
        broken(st, base).cur.len() == 0,
{
    if st.cur.len() > 0 {
        lemma_lines_ink_push(st.out, LineView { spans: st.cur, style: base });
        assert(wrap_ink(broken(st, base)) =~= wrap_ink(st));
    }
}

/// The visible characters of a single span.
pub proof fn lemma_one_span_ink(span: SpanView)
    ensures
        spans_ink(seq![span]) == ink(span.content, span.style),
{
    lemma_spans_ink_push(Seq::empty(), span);
    assert(Seq::<SpanView>::empty().push(span) =~= seq![span]);
    assert(spans_ink(seq![span]) =~= ink(span.content, span.style));
}

proof fn lemma_hard_broken_ink(
    out: Seq<LineView>,
    word: Seq<char>,
    style: Style,
    base: Style,
    width: nat,
)
    ensures
        wrap_ink(hard_broken(out, word, style, base, width)) == lines_ink(out) + ink(word, style),
    decreases word.len(),
{
    let n = cut(word, width, 1);
    if n >= word.len() {
        lemma_one_span_ink(SpanView { content: word, style });
    } else {
        lemma_cut_grows(word, width, 1);
        let piece = SpanView { content: word.take(n as int), style };
        let line = LineView { spans: seq![piece], style: base };
        lemma_one_span_ink(piece);
        lemma_lines_ink_push(out, line);
        lemma_hard_broken_ink(out.push(line), word.skip(n as int), style, base, width);
        lemma_ink_concat(word.take(n as int), word.skip(n as int), style);
        assert(word.take(n as int) + word.skip(n as int) =~= word);
        assert(wrap_ink(hard_broken(out, word, style, base, width)) =~= lines_ink(out) + ink(
            word,
            style,
        ));
    }
}

proof fn lemma_with_word_ink(
    st: WrapView,
    word: Seq<char>,
    style: Style,
    base: Style,
    width: nat,
)
    requires
        text_cells(word) > 0,
    ensures
        wrap_ink(with_word(st, word, style, base, width)) == wrap_ink(st) + ink(word, style),
{
    lemma_broken_ink(st, base);
    if st.cur_w + st.pending + text_cells(word) <= width {
        lemma_placed_ink(st, word, style);
    } else if text_cells(word) <= width {
        lemma_placed_ink(broken(st, base), word, style);
    } else {
        let b = broken(st, base);
        lemma_hard_broken_ink(b.out, word, style, base, width);
        assert(spans_ink(b.cur) =~= Seq::empty());
        assert(lines_ink(b.out) =~= wrap_ink(b));
    }
}

proof fn lemma_with_chars_ink(
    st: WrapView,
    chars: Seq<char>,
    style: Style,
    base: Style,
    width: nat,
)
    requires
        no_hidden_so_far(chars),
    ensures
        ({
            let (end, word) = with_chars(st, chars, style, base, width);
            &&& wrap_ink(end) + ink(word, style) == wrap_ink(st) + ink(chars, style)
            &&& word.len() > 0 <==> ends_in_word(chars)
            &&& word.len() > 0 ==> words(chars).len() > 0 && word == words(chars).last()
        }),
    decreases chars.len(),
{
    let (end, word) = with_chars(st, chars, style, base, width);
    if chars.len() == 0 {
        assert(wrap_ink(end) + ink(word, style) =~= wrap_ink(st) + ink(chars, style));
    } else {
        let front = chars.drop_last();
        assert forall|i: int|
            0 <= i < words(front).len() && (i < words(front).len() - 1 || !ends_in_word(
                front,
            )) implies text_cells(#[trigger] words(front)[i]) > 0 by {
            assert(words(chars)[i] == words(front)[i]);
        }
        lemma_with_chars_ink(st, front, style, base, width);
        let (before, open) = with_chars(st, chars.drop_last(), style, base, width);
        if is_white(chars.last()) {
            if open.len() > 0 {
                assert(words(chars)[words(chars).len() - 1] == open);
                lemma_with_word_ink(before, open, style, base, width);
            }
            assert(wrap_ink(end) + ink(word, style) =~= wrap_ink(before) + ink(open, style));
        } else {
            assert(word.drop_last() =~= open);
            assert(wrap_ink(end) + ink(word, style) =~= (wrap_ink(before) + ink(open, style)).push(
                (chars.last(), style),
            ));
            assert(wrap_ink(st) + ink(chars, style) =~= (wrap_ink(st) + ink(
                chars.drop_last(),
                style,
            )).push((chars.last(), style)));
        }
    }
}

/// The texts of some spans have no words without width.
pub open spec fn spans_no_hidden(spans: Seq<SpanView>) -> bool {
    forall|i: int| 0 <= i < spans.len() ==> no_hidden((#[trigger] spans[i]).content)
}

proof fn lemma_with_spans_ink(spans: Seq<SpanView>, base: Style, width: nat)
    requires
        spans_no_hidden(spans),
    ensures
        wrap_ink(with_spans(spans, base, width)) == spans_ink(spans),
    decreases spans.len(),
{
    if spans.len() == 0 {
        assert(wrap_ink(with_spans(spans, base, width)) =~= spans_ink(spans));
    } else {
        assert forall|i: int| 0 <= i < spans.drop_last().len() implies no_hidden(
            (#[trigger] spans.drop_last()[i]).content,
        ) by {
            assert(spans.drop_last()[i] == spans[i]);
        }
        lemma_with_spans_ink(spans.drop_last(), base, width);
        let st = with_spans(spans.drop_last(), base, width);
        let last = spans.last();
        assert(no_hidden(spans[spans.len() - 1].content));
        lemma_with_chars_ink(st, last.content, last.style, base, width);
        let (before, word) = with_chars(st, last.content, last.style, base, width);
        if word.len() > 0 {
            assert(words(last.content)[words(last.content).len() - 1] == word);
            lemma_with_word_ink(before, word, last.style, base, width);
        } else {
            assert(wrap_ink(before) + ink(word, last.style) =~= wrap_ink(before));
        }
    }
}

proof fn lemma_one_line_ink(line: LineView)
    ensures
        lines_ink(seq![line]) == spans_ink(line.spans),
{
    lemma_lines_ink_push(Seq::empty(), line);
    assert(Seq::<LineView>::empty().push(line) =~= seq![line]);
    assert(lines_ink(seq![line]) =~= spans_ink(line.spans));
}

/// Wrapping keeps the text and its styles: apart from white space, the wrapped
/// lines hold the same characters in the same styles and the same order. Words
/// without width are the exception: they are dropped.
pub proof fn wrapping_keeps_text_and_styles(line: LineView, width: nat)
    requires
        width == 0 || spans_no_hidden(line.spans),
    ensures
        lines_ink(wrapped_line(line, width)) == spans_ink(line.spans),
{
    let lines = wrapped_line(line, width);
    if line.spans.len() == 0 || width == 0 {
        lemma_one_line_ink(lines[0]);
        assert(lines =~= seq![lines[0]]);
    } else {
        let st = with_spans(line.spans, line.style, width);
        lemma_with_spans_ink(line.spans, line.style, width);
        lemma_broken_ink(st, line.style);
        let b = broken(st, line.style);
        assert(wrap_ink(b) =~= lines_ink(b.out));
        if b.out.len() == 0 {
            lemma_one_line_ink(empty_line());
        }
    }
}

/// Every finished line has the style of the line being wrapped.
pub open spec fn all_based(lines: Seq<LineView>, base: Style) -> bool {
    forall|i: int| 0 <= i < lines.len() ==> (#[trigger] lines[i]).style == base
}

proof fn lemma_hard_broken_based(
    out: Seq<LineView>,
    word: Seq<char>,
    style: Style,
    base: Style,
    width: nat,
)
    requires
        all_based(out, base),
    ensures
        all_based(hard_broken(out, word, style, base, width).out, base),
    decreases word.len(),
{
    let n = cut(word, width, 1);
    if n < word.len() {
        lemma_cut_grows(word, width, 1);
        let piece = SpanView { content: word.take(n as int), style };
        let line = LineView { spans: seq![piece], style: base };
        lemma_hard_broken_based(out.push(line), word.skip(n as int), style, base, width);
    }
}

proof fn lemma_with_word_based(
    st: WrapView,
    word: Seq<char>,
    style: Style,
    base: Style,
    width: nat,
)
    requires
        all_based(st.out, base),
    ensures
        all_based(with_word(st, word, style, base, width).out, base),
{
    lemma_hard_broken_based(broken(st, base).out, word, style, base, width);
}

proof fn lemma_with_chars_based(
    st: WrapView,
    chars: Seq<char>,
    style: Style,
    base: Style,
    width: nat,
)
    requires
        all_based(st.out, base),
    ensures
        all_based(with_chars(st, chars, style, base, width).0.out, base),
    decreases chars.len(),
{
    if chars.len() > 0 {
        lemma_with_chars_based(st, chars.drop_last(), style, base, width);
        let (before, word) = with_chars(st, chars.drop_last(), style, base, width);
        lemma_with_word_based(before, word, style, base, width);
    }
}

proof fn lemma_with_spans_based(spans: Seq<SpanView>, base: Style, width: nat)
    ensures
        all_based(with_spans(spans, base, width).out, base),
    decreases spans.len(),
{
    if spans.len() > 0 {
        lemma_with_spans_based(spans.drop_last(), base, width);
        let st = with_spans(spans.drop_last(), base, width);
        let last = spans.last();
        lemma_with_chars_based(st, last.content, last.style, base, width);
        let (before, word) = with_chars(st, last.content, last.style, base, width);
        lemma_with_word_based(before, word, last.style, base, width);
    }
}

/// Every line that wrapping makes has the style of the line it came from, or is
/// the empty line in the style that changes nothing.
pub proof fn wrapped_lines_keep_the_line_style(line: LineView, width: nat)
    ensures
        forall|i: int|
            0 <= i < wrapped_line(line, width).len() ==> (#[trigger] wrapped_line(
                line,
                width,
            )[i]).style == line.style || wrapped_line(line, width)[i] == empty_line(),
{
    lemma_with_spans_based(line.spans, line.style, width);
}

/// Whether `q` accepts every piece of a text.
pub open spec fn all_pieces(text: Seq<char>, q: spec_fn(Seq<char>) -> bool) -> bool {
    forall|i: int, j: int| 0 <= i <= j <= text.len() ==> q(#[trigger] text.subrange(i, j))
}

/// Whether `q` accepts the texts of some spans.
pub open spec fn spans_satisfy(spans: Seq<SpanView>, q: spec_fn(Seq<char>) -> bool) -> bool {
    forall|k: int| 0 <= k < spans.len() ==> q((#[trigger] spans[k]).content)
}

/// Whether `q` accepts the texts of all spans of some lines.
pub open spec fn lines_satisfy(lines: Seq<LineView>, q: spec_fn(Seq<char>) -> bool) -> bool {
    forall|i: int| 0 <= i < lines.len() ==> spans_satisfy((#[trigger] lines[i]).spans, q)
}

/// Whether `q` accepts spaces, and every piece of the texts of some spans.
pub open spec fn accepts_pieces(spans: Seq<SpanView>, q: spec_fn(Seq<char>) -> bool) -> bool {
    &&& forall|n: nat| q(#[trigger] repeated(' ', n))
    &&& forall|k: int| 0 <= k < spans.len() ==> all_pieces((#[trigger] spans[k]).content, q)
}

proof fn lemma_whole_piece(text: Seq<char>, q: spec_fn(Seq<char>) -> bool)
    requires
        all_pieces(text, q),
    ensures
        q(text),
{
    assert(text.subrange(0, text.len() as int) =~= text);
}

proof fn lemma_pieces_of_piece(text: Seq<char>, from: int, to: int, q: spec_fn(Seq<char>) -> bool)
    requires
        all_pieces(text, q),
        0 <= from <= to <= text.len(),
    ensures
        all_pieces(text.subrange(from, to), q),
{
    let piece = text.subrange(from, to);
    assert forall|i: int, j: int| 0 <= i <= j <= piece.len() implies q(
        #[trigger] piece.subrange(i, j),
    ) by {
        assert(piece.subrange(i, j) =~= text.subrange(from + i, from + j));
    }
}

proof fn lemma_hard_broken_pieces(
    out: Seq<LineView>,
    word: Seq<char>,
    style: Style,
    base: Style,
    width: nat,
    q: spec_fn(Seq<char>) -> bool,
)
    requires
        lines_satisfy(out, q),
        all_pieces(word, q),
    ensures
        lines_satisfy(hard_broken(out, word, style, base, width).out, q),
        spans_satisfy(hard_broken(out, word, style, base, width).cur, q),
    decreases word.len(),
{
    let n = cut(word, width, 1);
    lemma_whole_piece(word, q);
    if n < word.len() {
        lemma_cut_grows(word, width, 1);
        let piece = SpanView { content: word.take(n as int), style };
        let line = LineView { spans: seq![piece], style: base };
        assert(word.take(n as int) =~= word.subrange(0, n as int));
        assert(spans_satisfy(line.spans, q));
        assert(word.skip(n as int) =~= word.subrange(n as int, word.len() as int));
        lemma_pieces_of_piece(word, n as int, word.len() as int, q);
        lemma_hard_broken_pieces(out.push(line), word.skip(n as int), style, base, width, q);
    }
}

proof fn lemma_with_word_pieces(
    st: WrapView,
    word: Seq<char>,
    style: Style,
    base: Style,
    width: nat,
    q: spec_fn(Seq<char>) -> bool,
)
    requires
        forall|n: nat| q(#[trigger] repeated(' ', n)),
        lines_satisfy(st.out, q),
        spans_satisfy(st.cur, q),
        all_pieces(word, q),
    ensures
        lines_satisfy(with_word(st, word, style, base, width).out, q),
        spans_satisfy(with_word(st, word, style, base, width).cur, q),
{
    let b = broken(st, base);
    assert(lines_satisfy(b.out, q));
    lemma_whole_piece(word, q);
    lemma_hard_broken_pieces(b.out, word, style, base, width, q);
    assert(q(repeated(' ', st.pending)));
    assert(q(repeated(' ', b.pending)));
}

proof fn lemma_with_chars_pieces(
    st: WrapView,
    chars: Seq<char>,
    style: Style,
    base: Style,
    width: nat,
    q: spec_fn(Seq<char>) -> bool,
)
    requires
        forall|n: nat| q(#[trigger] repeated(' ', n)),
        lines_satisfy(st.out, q),
        spans_satisfy(st.cur, q),
        all_pieces(chars, q),
    ensures
        lines_satisfy(with_chars(st, chars, style, base, width).0.out, q),
        spans_satisfy(with_chars(st, chars, style, base, width).0.cur, q),
        with_chars(st, chars, style, base, width).1.len() <= chars.len(),
        with_chars(st, chars, style, base, width).1 == chars.subrange(
            chars.len() - with_chars(st, chars, style, base, width).1.len(),
            chars.len() as int,
        ),
    decreases chars.len(),
{
    if chars.len() == 0 {
        assert(chars.subrange(0, 0) =~= Seq::empty());
    } else {
        let n = chars.len() as int;
        assert(chars.drop_last() =~= chars.subrange(0, n - 1));
        lemma_pieces_of_piece(chars, 0, n - 1, q);
        lemma_with_chars_pieces(st, chars.drop_last(), style, base, width, q);
        let (before, word) = with_chars(st, chars.drop_last(), style, base, width);
        if is_white(chars.last()) {
            assert(chars.subrange(n, n) =~= Seq::empty());
            lemma_pieces_of_piece(chars.drop_last(), n - 1 - word.len(), n - 1, q);
            lemma_with_word_pieces(before, word, style, base, width, q);
        } else {
            assert(word.push(chars.last()) =~= chars.subrange(n - 1 - word.len(), n));
        }
    }
}

proof fn lemma_with_spans_pieces(
    spans: Seq<SpanView>,
    base: Style,
    width: nat,
    q: spec_fn(Seq<char>) -> bool,
)
    requires
        accepts_pieces(spans, q),
    ensures
        lines_satisfy(with_spans(spans, base, width).out, q),
        spans_satisfy(with_spans(spans, base, width).cur, q),
    decreases spans.len(),
{
    if spans.len() > 0 {
        let front = spans.drop_last();
        assert forall|k: int| 0 <= k < front.len() implies all_pieces(
            (#[trigger] front[k]).content,
            q,
        ) by {
            assert(front[k] == spans[k]);
        }
        lemma_with_spans_pieces(front, base, width, q);
        let st = with_spans(front, base, width);
        let last = spans.last();
        let n = last.content.len() as int;
        assert(all_pieces(spans[spans.len() - 1].content, q));
        lemma_with_chars_pieces(st, last.content, last.style, base, width, q);
        let (before, word) = with_chars(st, last.content, last.style, base, width);
        lemma_pieces_of_piece(last.content, n - word.len(), n, q);
        lemma_with_word_pieces(before, word, last.style, base, width, q);
    }
}

/// Wrapping only cuts: every span of a wrapped line is a piece of a span of the
/// line, or made of spaces. So whatever holds of all of these holds of it.
pub proof fn wrapping_only_cuts(line: LineView, width: nat, q: spec_fn(Seq<char>) -> bool)
    requires
        accepts_pieces(line.spans, q),
    ensures
        lines_satisfy(wrapped_line(line, width), q),
{
    lemma_with_spans_pieces(line.spans, line.style, width, q);
    let st = with_spans(line.spans, line.style, width);
    let b = broken(st, line.style);
    assert forall|i: int| 0 <= i < b.out.len() implies spans_satisfy(
        (#[trigger] b.out[i]).spans,
        q,
    ) by {
        if i < st.out.len() {
            assert(b.out[i] == st.out[i]);
        }
    }
    assert forall|k: int| 0 <= k < line.spans.len() implies q(
        (#[trigger] line.spans[k]).content,
    ) by {
        lemma_whole_piece(line.spans[k].content, q);
    }
}

/// Whether a text is a single word; a visible one takes at least one column.
spec fn is_word(text: Seq<char>, visible: bool) -> bool {
    text.len() > 0 && no_white(text) && (visible ==> text_cells(text) > 0)
}

spec fn no_white(text: Seq<char>) -> bool {
    forall|i: int| 0 <= i < text.len() ==> !is_white(#[trigger] text[i])
}

/// Whether a span is made of spaces alone, as they stand between two words.
spec fn is_gap(span: SpanView) -> bool {
    let n = span.content.len();
    0 < n <= usize::MAX && span == raw(repeated(' ', n))
}

/// Whether some spans are words, with at most one gap between two of them.
spec fn is_neat(spans: Seq<SpanView>, visible: bool) -> bool
    decreases spans.len(),
{
    if spans.len() == 0 {
        true
    } else {
        let front = spans.drop_last();
        &&& is_word(spans.last().content, visible)
        &&& is_neat(front, visible) || {
            &&& front.len() > 1
            &&& is_gap(front.last())
            &&& is_neat(front.drop_last(), visible)
        }
    }
}

/// Whether some lines are neat and not empty.
spec fn lines_neat(lines: Seq<LineView>, visible: bool) -> bool {
    forall|i: int|
        0 <= i < lines.len() ==> (#[trigger] lines[i]).spans.len() > 0 && is_neat(
            lines[i].spans,
            visible,
        )
}

/// The finished lines and the current line are neat.
spec fn keeps_neat(st: WrapView, visible: bool) -> bool {
    &&& wrap_ok(st)
    &&& is_neat(st.cur, visible)
    &&& st.pending <= usize::MAX
    &&& lines_neat(st.out, visible)
}

proof fn lemma_placed_neat(st: WrapView, word: Seq<char>, style: Style, visible: bool)
    requires
        keeps_neat(st, visible),
        is_word(word, visible),
    ensures
        keeps_neat(placed(st, word, style), visible),
{
    let spaces = raw(repeated(' ', st.pending));
    let span = SpanView { content: word, style };
    if st.pending > 0 {
        let gap = st.cur.push(spaces);
        assert(gap.push(span).drop_last() =~= gap);
        assert(gap.drop_last() =~= st.cur);
    } else {
        assert(st.cur.push(span).drop_last() =~= st.cur);
    }
}

proof fn lemma_one_word_neat(word: Seq<char>, style: Style, visible: bool)
    requires
        is_word(word, visible),
    ensures
        is_neat(seq![SpanView { content: word, style }], visible),
{
    let span = SpanView { content: word, style };
    assert(seq![span].drop_last() =~= Seq::empty());
    assert(is_neat(seq![span].drop_last(), visible));
    assert(seq![span].last() == span);
}

/// A piece of a word takes all that fits.
pub proof fn lemma_cut_is_full(word: Seq<char>, width: nat, n: nat)
    requires
        cut(word, width, n) < word.len(),
    ensures
        text_cells(word.take(cut(word, width, n) as int + 1)) > width,
    decreases word.len() - n,
{
    if n < word.len() && text_cells(word.take(n as int + 1)) <= width {
        lemma_cut_is_full(word, width, n + 1);
    }
}

proof fn lemma_hard_broken_neat(
    out: Seq<LineView>,
    word: Seq<char>,
    style: Style,
    base: Style,
    width: nat,
    visible: bool,
)
    requires
        is_word(word, visible),
        visible ==> no_wider(word, width),
        lines_neat(out, visible),
    ensures
        keeps_neat(hard_broken(out, word, style, base, width), visible),
    decreases word.len(),
{
    let n = cut(word, width, 1) as int;
    assert(word.len() > 0);
    lemma_cut_grows(word, width, 1);
    if n >= word.len() {
        lemma_one_word_neat(word, style, visible);
    } else {
        let piece = word.take(n);
        let rest = word.skip(n);
        lemma_cut_is_full(word, width, 1);
        assert(word.take(1).drop_last() =~= Seq::empty());
        assert(text_cells(word.take(1)) == text_cells(Seq::empty()) + cells(word[0]));
        assert(word.take(n + 1).drop_last() =~= piece);
        assert(text_cells(word.take(n + 1)) == text_cells(piece) + cells(word[n]));
        assert(visible ==> cells(word[n]) <= width);
        assert(rest.take(1).drop_last() =~= Seq::empty());
        assert(text_cells(rest.take(1)) == text_cells(Seq::empty()) + cells(rest[0]));
        lemma_cells_concat(rest.take(1), rest.skip(1));
        assert(rest.take(1) + rest.skip(1) =~= rest);
        assert(is_word(piece, visible));
        assert forall|i: int| 0 <= i < rest.len() implies !is_white(#[trigger] rest[i]) && (visible
            ==> cells(rest[i]) <= width) by {
            assert(rest[i] == word[i + n]);
        }
        lemma_one_word_neat(piece, style, visible);
        let line = LineView { spans: seq![SpanView { content: piece, style }], style: base };
        lemma_hard_broken_neat(out.push(line), rest, style, base, width, visible);
    }
}

proof fn lemma_with_word_neat(
    st: WrapView,
    word: Seq<char>,
    style: Style,
    base: Style,
    width: nat,
    visible: bool,
)
    requires
        keeps_neat(st, visible),
        no_white(word),
        visible ==> no_wider(word, width),
    ensures
        keeps_neat(with_word(st, word, style, base, width), visible),
{
    let b = broken(st, base);
    assert(keeps_neat(b, visible));
    if text_cells(word) > 0 {
        assert(word.len() > 0);
        if st.cur_w + st.pending + text_cells(word) <= width {
            lemma_placed_neat(st, word, style, visible);
        } else if text_cells(word) <= width {
            lemma_placed_neat(b, word, style, visible);
        } else {
            lemma_hard_broken_neat(b.out, word, style, base, width, visible);
        }
    }
}

proof fn lemma_with_chars_neat(
    st: WrapView,
    chars: Seq<char>,
    style: Style,
    base: Style,
    width: nat,
    visible: bool,
)
    requires
        keeps_neat(st, visible),
        visible ==> no_wider(chars, width),
    ensures
        keeps_neat(with_chars(st, chars, style, base, width).0, visible),
        no_white(with_chars(st, chars, style, base, width).1),
        visible ==> no_wider(with_chars(st, chars, style, base, width).1, width),
    decreases chars.len(),
{
    if chars.len() > 0 {
        let front = chars.drop_last();
        assert forall|i: int| 0 <= i < front.len() && visible implies cells(
            #[trigger] front[i],
        ) <= width by {
            assert(front[i] == chars[i]);
        }
        lemma_with_chars_neat(st, front, style, base, width, visible);
        let (before, word) = with_chars(st, front, style, base, width);
        lemma_with_word_neat(before, word, style, base, width, visible);
        assert(visible ==> cells(chars[chars.len() - 1]) <= width);
    }
}

proof fn lemma_with_spans_neat(spans: Seq<SpanView>, base: Style, width: nat, visible: bool)
    requires
        visible ==> spans_no_wider(spans, width),
    ensures
        keeps_neat(with_spans(spans, base, width), visible),
    decreases spans.len(),
{
    if spans.len() > 0 {
        let front = spans.drop_last();
        assert forall|i: int| 0 <= i < front.len() && visible implies no_wider(
            (#[trigger] front[i]).content,
            width,
        ) by {
            assert(front[i] == spans[i]);
        }
        lemma_with_spans_neat(front, base, width, visible);
        let st = with_spans(front, base, width);
        let last = spans.last();
        assert(visible ==> no_wider(spans[spans.len() - 1].content, width));
        lemma_with_chars_neat(st, last.content, last.style, base, width, visible);
        let (before, word) = with_chars(st, last.content, last.style, base, width);
        lemma_with_word_neat(before, word, last.style, base, width, visible);
    }
}

proof fn lemma_chars_of_word(
    st: WrapView,
    word: Seq<char>,
    style: Style,
    base: Style,
    width: nat,
)
    requires
        no_white(word),
    ensures
        with_chars(st, word, style, base, width) == (st, word),
    decreases word.len(),
{
    if word.len() == 0 {
        assert(word =~= Seq::empty());
    } else {
        let front = word.drop_last();
        assert forall|i: int| 0 <= i < front.len() implies !is_white(#[trigger] front[i]) by {
            assert(front[i] == word[i]);
        }
        lemma_chars_of_word(st, front, style, base, width);
        assert(!is_white(word[word.len() - 1]));
        assert(front.push(word.last()) =~= word);
    }
}

proof fn lemma_chars_of_gap(st: WrapView, n: nat, style: Style, base: Style, width: nat)
    requires
        st.cur.len() > 0,
        st.pending == 0,
        n <= usize::MAX,
    ensures
        with_chars(st, repeated(' ', n), style, base, width) == (
            (WrapView { pending: n, ..st }),
            Seq::<char>::empty(),
        ),
    decreases n,
{
    if n > 0 {
        assert(repeated(' ', n).drop_last() =~= repeated(' ', (n - 1) as nat));
        lemma_chars_of_gap(st, (n - 1) as nat, style, base, width);
    }
}

/// A neat line that keeps to the width is put together again as it was.
proof fn lemma_neat_again(spans: Seq<SpanView>, base: Style, width: nat)
    requires
        is_neat(spans, true),
        text_cells(spans_text(spans)) <= width,
    ensures
        with_spans(spans, base, width) == (WrapView {
            out: Seq::empty(),
            cur: spans,
            cur_w: text_cells(spans_text(spans)),
            pending: 0,
        }),
    decreases spans.len(),
{
    if spans.len() == 0 {
        assert(spans =~= Seq::empty());
        assert(spans_text(spans) =~= Seq::empty());
    } else {
        let front = spans.drop_last();
        let last = spans.last();
        lemma_spans_text_push(front, last);
        assert(front.push(last) =~= spans);
        lemma_cells_concat(spans_text(front), last.content);
        let st = with_spans(front, base, width);
        lemma_chars_of_word(st, last.content, last.style, base, width);
        assert(last.content.len() > 0);
        if is_neat(front, true) {
            lemma_neat_again(front, base, width);
        } else {
            let before = front.drop_last();
            let gap = front.last();
            let n = gap.content.len();
            lemma_spans_text_push(before, gap);
            assert(before.push(gap) =~= front);
            lemma_cells_concat(spans_text(before), gap.content);
            lemma_spaces_cells(n);
            lemma_neat_again(before, base, width);
            lemma_chars_of_gap(with_spans(before, base, width), n, gap.style, base, width);
        }
    }
}

/// Wrapping a line that wrapping has made gives it back, as long as every single
/// character of it fits: in three columns every character does.
pub proof fn wrapping_again_changes_nothing(line: LineView, width: nat, i: int)
    requires
        width == 0 || width >= 3 || spans_no_wider(line.spans, width),
        0 <= i < wrapped_line(line, width).len(),
    ensures
        wrapped_line(wrapped_line(line, width)[i], width) == seq![wrapped_line(line, width)[i]],
{
    let made = wrapped_line(line, width)[i];
    if width > 0 && line.spans.len() > 0 {
        assert(spans_no_wider(line.spans, width));
        wrapped_lines_keep_the_width(line, width);
        wrapped_lines_keep_the_line_style(line, width);
        let st = with_spans(line.spans, line.style, width);
        lemma_with_spans_neat(line.spans, line.style, width, true);
        assert(lines_neat(broken(st, line.style).out, true));
        assert(is_neat(made.spans, true));
        if made.spans.len() > 0 {
            lemma_neat_again(made.spans, made.style, width);
            let again = broken(with_spans(made.spans, made.style, width), made.style).out;
            assert(again =~= seq![made]);
        }
    }
}

/// Whether a text neither begins nor ends with white space.
pub open spec fn is_trimmed(text: Seq<char>) -> bool {
    text.len() > 0 ==> !is_white(text[0]) && !is_white(text.last())
}

proof fn lemma_neat_is_trimmed(spans: Seq<SpanView>)
    requires
        is_neat(spans, false),
        spans.len() > 0,
    ensures
        spans_text(spans).len() > 0,
        is_trimmed(spans_text(spans)),
    decreases spans.len(),
{
    let front = spans.drop_last();
    let last = spans.last();
    let text = spans_text(spans);
    assert(text == spans_text(front) + last.content);
    assert(!is_white(last.content[last.content.len() - 1]));
    assert(text.last() == last.content.last());
    if front.len() == 0 {
        assert(spans_text(front) =~= Seq::empty());
        assert(text[0] == last.content[0]);
    } else if is_neat(front, false) {
        lemma_neat_is_trimmed(front);
        assert(text[0] == spans_text(front)[0]);
    } else {
        lemma_neat_is_trimmed(front.drop_last());
        assert(spans_text(front) == spans_text(front.drop_last()) + front.last().content);
        assert(text[0] == spans_text(front.drop_last())[0]);
    }
}

/// No line that wrapping makes begins or ends with white space, and a line that has
/// spans has text.
pub proof fn wrapped_lines_are_trimmed(line: LineView, width: nat, i: int)
    requires
        width > 0,
        0 <= i < wrapped_line(line, width).len(),
    ensures
        is_trimmed(spans_text(wrapped_line(line, width)[i].spans)),
        wrapped_line(line, width)[i].spans.len() > 0 ==> spans_text(
            wrapped_line(line, width)[i].spans,
        ).len() > 0,
{
    let made = wrapped_line(line, width)[i];
    let st = with_spans(line.spans, line.style, width);
    lemma_with_spans_neat(line.spans, line.style, width, false);
    assert(lines_neat(broken(st, line.style).out, false));
    if made.spans.len() > 0 {
        lemma_neat_is_trimmed(made.spans);
    } else {
        assert(spans_text(made.spans) =~= Seq::empty());
    }
}

/// Wrapping gives at least one line.
pub proof fn wrapping_gives_a_line(line: LineView, width: nat)
    ensures
        wrapped_line(line, width).len() >= 1,
{
}

} // verus!
