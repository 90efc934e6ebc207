//! Texts: spans put together, numbers, repetition, splitting, words, search.

use crate::style::{
    bold_style, colored, empty_line, level_color, muted_style, on_color, plain_style, raw,
    spans_columns, spans_text, styled_line, Color, SpanView, Style,
};
use crate::text::{
    ascii_lower, begins_with, decimal, digit, ends_with, has_text, is_white, lower, repeated,
    repeated_text, split, text_lines, trim_end, words,
};
use crate::width::text_columns;
use vstd::prelude::*;

verus! {

/// The text of spans is that of each of them, one after the other.
pub proof fn spans_are_read_in_order(span: SpanView, a: Seq<SpanView>, b: Seq<SpanView>)
    ensures
        spans_text(Seq::empty()) == Seq::<char>::empty(),
        spans_text(seq![span]) == span.content,
        spans_text(a + b) == spans_text(a) + spans_text(b),
{
    crate::style::lemma_spans_text_concat(a, b);
    assert(seq![span].drop_last() =~= Seq::empty());
    assert(spans_text(seq![span].drop_last()) =~= Seq::empty());
    assert(spans_text(seq![span]) =~= span.content);
}

/// Spans are as wide as all of them together, as far as that can be counted.
pub proof fn spans_are_as_wide_as_their_sum(spans: Seq<SpanView>, span: SpanView)
    ensures
        spans_columns(Seq::empty()) == 0,
        spans_columns(spans) + text_columns(span.content) <= usize::MAX ==> spans_columns(
            spans.push(span),
        ) == spans_columns(spans) + text_columns(span.content),
{
    assert(spans.push(span).drop_last() =~= spans);
}

/// The number that some decimal digits stand for.
pub open spec fn value_of(digits: Seq<char>) -> nat
    decreases digits.len(),
{
    if digits.len() == 0 {
        0
    } else {
        10 * value_of(digits.drop_last()) + (digits.last() as nat - '0' as nat) as nat
    }
}

/// A number in decimal is read back as the number, is made of digits, and has no
/// leading zero.
pub proof fn decimals_are_read_back(n: nat)
    ensures
        value_of(decimal(n)) == n,
        decimal(n).len() > 0,
        forall|i: int| 0 <= i < decimal(n).len() ==> '0' <= #[trigger] decimal(n)[i] <= '9',
        decimal(n).len() > 1 ==> decimal(n)[0] != '0',
    decreases n,
{
    if n < 10 {
        assert(seq![digit(n)].drop_last() =~= Seq::empty());
        assert(value_of(seq![digit(n)].drop_last()) == 0);
        assert(decimal(n).last() == digit(n));
    } else {
        decimals_are_read_back(n / 10);
        let front = decimal(n / 10);
        assert(decimal(n) == front.push(digit(n % 10)));
        assert(decimal(n).drop_last() =~= front);
        assert(decimal(n)[0] == front[0]);
        if front.len() == 1 {
            assert(front.drop_last() =~= Seq::empty());
            assert(value_of(front.drop_last()) == 0);
            assert(n / 10 > 0);
        }
    }
}

/// A repeated text is as long as its repetitions, and holds the text in each of them.
pub proof fn repetitions_repeat(t: Seq<char>, n: nat, k: int)
    requires
        0 <= k < n,
    ensures
        repeated_text(t, 0).len() == 0,
        repeated_text(t, n).len() == n * t.len(),
        repeated_text(t, n).subrange(k * t.len(), (k + 1) * t.len()) == t,
    decreases n,
{
    let m = (n - 1) as nat;
    lemma_repeated_len(t, m);
    lemma_repeated_len(t, n);
    let at = m * t.len();
    assert((m + 1) * t.len() == at + t.len()) by (nonlinear_arith)
        requires
            at == m * t.len(),
    ;
    if k == m {
        assert(repeated_text(t, n).subrange(at as int, (at + t.len()) as int) =~= t);
    } else {
        repetitions_repeat(t, m, k);
        let from = k * t.len();
        let to = (k + 1) * t.len();
        assert(0 <= from <= to <= at) by (nonlinear_arith)
            requires
                0 <= k < m,
                from == k * t.len(),
                to == (k + 1) * t.len(),
                at == m * t.len(),
        ;
        assert(repeated_text(t, n).subrange(from, to) =~= repeated_text(t, m).subrange(from, to));
    }
}

proof fn lemma_repeated_len(t: Seq<char>, n: nat)
    ensures
        repeated_text(t, n).len() == n * t.len(),
    decreases n,
{
    if n > 0 {
        lemma_repeated_len(t, (n - 1) as nat);
        assert((n - 1) * t.len() + t.len() == n * t.len()) by (nonlinear_arith);
    } else {
        assert(0 * t.len() == 0) by (nonlinear_arith);
    }
}

/// A repeated character fills its length.
pub proof fn repeated_characters_fill(c: char, n: nat)
    ensures
        repeated(c, n).len() == n,
        forall|i: int| 0 <= i < n ==> #[trigger] repeated(c, n)[i] == c,
{
}

/// Some texts put together, with a character between each two of them.
pub open spec fn put_together(parts: Seq<Seq<char>>, sep: char) -> Seq<char>
    decreases parts.len(),
{
    if parts.len() == 0 {
        Seq::empty()
    } else if parts.len() == 1 {
        parts[0]
    } else {
        put_together(parts.drop_last(), sep).push(sep) + parts.last()
    }
}

/// Splitting loses nothing: the parts put together are the text, and no part holds the
/// separator.
pub proof fn splits_are_put_together(s: Seq<char>, sep: char)
    ensures
        split(s, sep).len() > 0,
        put_together(split(s, sep), sep) == s,
        forall|k: int, i: int|
            0 <= k < split(s, sep).len() && 0 <= i < split(s, sep)[k].len() ==> #[trigger] split(
                s,
                sep,
            )[k][i] != sep,
    decreases s.len(),
{
    let parts = split(s, sep);
    if s.len() == 0 {
        assert(put_together(parts, sep) =~= s);
    } else {
        let front = s.drop_last();
        splits_are_put_together(front, sep);
        let before = split(front, sep);
        let last = before.len() - 1;
        assert(front.push(s.last()) =~= s);
        if s.last() == sep {
            assert(parts.drop_last() =~= before);
            assert(put_together(parts, sep) =~= s);
        } else {
            assert(parts.drop_last() =~= before.drop_last());
            assert(put_together(parts, sep) =~= s);
            assert forall|k: int, i: int|
                0 <= k < parts.len() && 0 <= i < parts[k].len() implies #[trigger] parts[k][i]
                != sep by {
                if k < last || i < before[k].len() {
                    assert(parts[k][i] == before[k][i]);
                }
            }
        }
    }
}

/// Trimming takes away the character at the end, all of it, and nothing else.
pub proof fn trimming_takes_the_end(s: Seq<char>, c: char)
    ensures
        trim_end(s, c).is_prefix_of(s),
        trim_end(s, c).len() > 0 ==> trim_end(s, c).last() != c,
        forall|i: int| trim_end(s, c).len() <= i < s.len() ==> #[trigger] s[i] == c,
    decreases s.len(),
{
    if s.len() > 0 && s.last() == c {
        let front = s.drop_last();
        trimming_takes_the_end(front, c);
        assert(trim_end(s, c) =~= s.take(trim_end(s, c).len() as int));
        assert forall|i: int| trim_end(s, c).len() <= i < s.len() implies #[trigger] s[i] == c by {
            if i < front.len() {
                assert(front[i] == s[i]);
            }
        }
    } else {
        assert(s =~= s.take(s.len() as int));
    }
}

/// A text without line feeds is one line: a single span that holds all of it.
pub proof fn single_lines_are_single_spans(text: Seq<char>, style: Style)
    requires
        text.len() > 0,
        forall|i: int| 0 <= i < text.len() ==> #[trigger] text[i] != '\n',
    ensures
        styled_line(text, style).spans.len() == 1,
        styled_line(text, style).spans[0].content == text,
        styled_line(text, style).spans[0].style == plain_style(),
        styled_line(text, style).style == style,
        spans_text(styled_line(text, style).spans) == text,
{
    lemma_one_part(text, '\n');
    let lines = text_lines(text);
    assert(lines =~= seq![text]);
    let spans = styled_line(text, style).spans;
    assert(spans =~= seq![spans[0]]);
    spans_are_read_in_order(spans[0], spans, spans);
}

/// A text without the separator is split into one part.
pub proof fn lemma_one_part(s: Seq<char>, sep: char)
    requires
        forall|i: int| 0 <= i < s.len() ==> #[trigger] s[i] != sep,
    ensures
        split(s, sep) == seq![s],
    decreases s.len(),
{
    if s.len() == 0 {
        assert(s =~= Seq::empty());
    } else {
        let front = s.drop_last();
        assert forall|i: int| 0 <= i < front.len() implies #[trigger] front[i] != sep by {
            assert(front[i] == s[i]);
        }
        lemma_one_part(front, sep);
        assert(s[s.len() - 1] != sep);
        assert(front.push(s.last()) =~= s);
        assert(split(s, sep) =~= seq![s]);
    }
}

/// White space is what Unicode calls so.
pub proof fn white_space_is_what_unicode_calls_so(c: char)
    ensures
        is_white(c) <==> {
            let n = c as u32;
            ||| 9 <= n <= 13
            ||| n == 32
            ||| n == 0x85
            ||| n == 0xa0
            ||| n == 0x1680
            ||| 0x2000 <= n <= 0x200a
            ||| n == 0x2028
            ||| n == 0x2029
            ||| n == 0x202f
            ||| n == 0x205f
            ||| n == 0x3000
        },
{
}

proof fn lemma_split_front(a: Seq<char>, sep: char, b: Seq<char>)
    requires
        forall|i: int| 0 <= i < a.len() ==> #[trigger] a[i] != sep,
    ensures
        split(a.push(sep) + b, sep) == seq![a] + split(b, sep),
    decreases b.len(),
{
    let all = a.push(sep) + b;
    if b.len() == 0 {
        assert(all =~= a.push(sep));
        assert(all.drop_last() =~= a);
        lemma_one_part(a, sep);
        assert(split(all, sep) =~= seq![a] + split(b, sep));
    } else {
        let front = b.drop_last();
        lemma_split_front(a, sep, front);
        splits_are_put_together(front, sep);
        assert(all.drop_last() =~= a.push(sep) + front);
        assert(split(all, sep) =~= seq![a] + split(b, sep));
    }
}

/// A line feed ends a line, and a carriage return in front of it is no part of the line;
/// what follows are the lines of the rest.
pub proof fn line_feeds_end_lines(a: Seq<char>, b: Seq<char>)
    requires
        forall|i: int| 0 <= i < a.len() ==> #[trigger] a[i] != '\n',
    ensures
        text_lines(Seq::empty()) == Seq::<Seq<char>>::empty(),
        a.len() > 0 ==> text_lines(a) == seq![a],
        a.len() == 0 || a.last() != '\r' ==> text_lines(a.push('\n') + b) == seq![a] + text_lines(
            b,
        ),
        a.len() > 0 && a.last() == '\r' ==> text_lines(a.push('\n') + b) == seq![a.drop_last()]
            + text_lines(b),
{
    lemma_one_part(a, '\n');
    lemma_split_front(a, '\n', b);
    splits_are_put_together(b, '\n');
    let none = Seq::<char>::empty();
    lemma_one_part(none, '\n');
    assert(text_lines(none) =~= Seq::empty());
    if a.len() > 0 {
        assert(text_lines(a) =~= seq![a]);
    }
    let pieces = split(a.push('\n') + b, '\n');
    let rest = split(b, '\n');
    assert(pieces.last() == rest.last());
    assert(pieces.drop_last() =~= seq![a] + rest.drop_last());
    let head = crate::text::without_cr(a);
    assert(text_lines(a.push('\n') + b) =~= seq![head] + text_lines(b));
}

/// Some texts, one after the other.
pub open spec fn run_together(parts: Seq<Seq<char>>) -> Seq<char>
    decreases parts.len(),
{
    if parts.len() == 0 {
        Seq::empty()
    } else {
        run_together(parts.drop_last()) + parts.last()
    }
}

/// A text without its white space.
pub open spec fn without_white(s: Seq<char>) -> Seq<char>
    decreases s.len(),
{
    if s.len() == 0 {
        Seq::empty()
    } else if is_white(s.last()) {
        without_white(s.drop_last())
    } else {
        without_white(s.drop_last()).push(s.last())
    }
}

/// The words of a text hold all of it but white space, in order; no word is empty or
/// holds white space, and a text without white space is one word.
pub proof fn words_hold_the_text(s: Seq<char>)
    ensures
        run_together(words(s)) == without_white(s),
        forall|k: int| 0 <= k < words(s).len() ==> (#[trigger] words(s)[k]).len() > 0,
        forall|k: int, i: int|
            0 <= k < words(s).len() && 0 <= i < words(s)[k].len() ==> !is_white(
                #[trigger] words(s)[k][i],
            ),
        s.len() > 0 && !is_white(s.last()) ==> words(s).len() > 0,
    decreases s.len(),
{
    if s.len() > 0 {
        let front = s.drop_last();
        words_hold_the_text(front);
        let before = words(front);
        let now = words(s);
        if !is_white(s.last()) {
            if s.len() == 1 || is_white(s[s.len() - 2]) {
                assert(now.drop_last() =~= before);
                assert(run_together(now) =~= without_white(s));
            } else {
                let last = before.len() - 1;
                assert(front.last() == s[s.len() - 2]);
                assert(now.drop_last() =~= before.drop_last());
                assert(run_together(now) =~= without_white(s));
                assert forall|k: int, i: int|
                    0 <= k < now.len() && 0 <= i < now[k].len() implies !is_white(
                    #[trigger] now[k][i],
                ) by {
                    if k < last || i < before[k].len() {
                        assert(now[k][i] == before[k][i]);
                    }
                }
            }
        }
    }
}

/// White space separates words: a text, white space and another text have the words of
/// both.
pub proof fn white_space_separates_words(a: Seq<char>, c: char, b: Seq<char>)
    requires
        is_white(c),
    ensures
        words(a.push(c) + b) == words(a) + words(b),
    decreases b.len(),
{
    if b.len() == 0 {
        assert(a.push(c) + b =~= a.push(c));
        assert(a.push(c).drop_last() =~= a);
        assert(words(a) + words(b) =~= words(a));
    } else {
        let all = a.push(c) + b;
        let front = b.drop_last();
        white_space_separates_words(a, c, front);
        assert(all.drop_last() =~= a.push(c) + front);
        words_hold_the_text(front);
        if is_white(b.last()) {
        } else if b.len() == 1 {
            assert(all[all.len() - 2] == c);
            assert(words(all) =~= words(a) + words(b));
        } else {
            assert(all[all.len() - 2] == b[b.len() - 2]);
            assert(front.last() == b[b.len() - 2]);
            assert(words(all) =~= words(a) + words(b));
        }
    }
}

/// A text without white space is one word.
pub proof fn unbroken_texts_are_words(s: Seq<char>)
    requires
        s.len() > 0,
        forall|i: int| 0 <= i < s.len() ==> !is_white(#[trigger] s[i]),
    ensures
        words(s) == seq![s],
    decreases s.len(),
{
    assert(!is_white(s[s.len() - 1]));
    if s.len() == 1 {
        assert(words(s.drop_last()) =~= Seq::empty());
        assert(s =~= seq![s.last()]);
        assert(words(s) =~= seq![s]);
    } else {
        let front = s.drop_last();
        assert forall|i: int| 0 <= i < front.len() implies !is_white(#[trigger] front[i]) by {
            assert(front[i] == s[i]);
        }
        unbroken_texts_are_words(front);
        assert(!is_white(s[s.len() - 2]));
        assert(front.push(s.last()) =~= s);
        assert(words(s) =~= seq![s]);
    }
}

/// A text holds every piece of it, begins with what it begins with and ends with what
/// it ends with, and holds nothing that is longer.
pub proof fn texts_hold_their_pieces(a: Seq<char>, b: Seq<char>, c: Seq<char>)
    ensures
        has_text(a + b + c, b),
        begins_with(a + b, a),
        ends_with(a + b, b),
        has_text(a, b) ==> b.len() <= a.len(),
        begins_with(a, b) ==> b.len() <= a.len() && forall|i: int|
            0 <= i < b.len() ==> #[trigger] a[i] == b[i],
        ends_with(a, b) ==> b.len() <= a.len() && forall|i: int|
            0 <= i < b.len() ==> #[trigger] b[i] == a[a.len() - b.len() + i],
        has_text(a, b) ==> exists|i: int|
            0 <= i <= a.len() - b.len() && #[trigger] a.subrange(i, i + b.len()) =~= b,
{
    let all = a + b + c;
    let at = a.len() as int;
    assert(all.subrange(at, at + b.len()) =~= b);
    assert((a + b).take(at) =~= a);
    assert((a + b).skip((a + b).len() - b.len()) =~= b);
    if begins_with(a, b) {
        assert forall|i: int| 0 <= i < b.len() implies #[trigger] a[i] == b[i] by {
            assert(a.take(b.len() as int)[i] == a[i]);
        }
    }
    if ends_with(a, b) {
        assert forall|i: int| 0 <= i < b.len() implies #[trigger] b[i] == a[a.len() - b.len()
            + i] by {
            assert(a.skip(a.len() - b.len())[i] == a[a.len() - b.len() + i]);
        }
    }
}

/// Lower case turns the capital letters of an ASCII text into the small ones, one by
/// one, and keeps all others; so two texts that differ in case alone have the same.
pub proof fn lower_case_forgets_capitals(a: Seq<char>, b: Seq<char>)
    requires
        a.len() == b.len(),
        forall|i: int| 0 <= i < a.len() ==> #[trigger] a[i] < '\u{80}',
        forall|i: int| 0 <= i < b.len() ==> #[trigger] b[i] < '\u{80}',
        forall|i: int|
            #![trigger a[i]]
            0 <= i < a.len() ==> a[i] == b[i] || ('A' <= a[i] <= 'Z' && b[i] as int == a[i] as int
                + 32),
    ensures
        lower(a) == lower(b),
        lower(b).len() == b.len(),
        forall|i: int|
            0 <= i < b.len() && !('A' <= b[i] <= 'Z') ==> #[trigger] lower(b)[i] == b[i],
        forall|i: int|
            0 <= i < b.len() && 'A' <= b[i] <= 'Z' ==> (#[trigger] lower(b)[i]) as int
                == b[i] as int + 32,
{
    assert forall|i: int| 0 <= i < a.len() implies ascii_lower(#[trigger] a[i]) == ascii_lower(
        b[i],
    ) by {
        if a[i] != b[i] {
            assert(b[i] as u32 == a[i] as u32 + 32);
            assert((a[i] as u32 + 32) as char == b[i]);
        }
    }
    assert(lower(a) =~= lower(b));
}

/// The styles that the reader uses set what they are named after, and nothing else.
pub proof fn styles_set_one_thing(color: Color, text: Seq<char>)
    ensures
        plain_style() == (Style {
            fg: None,
            bg: None,
            bold: false,
            italic: false,
            underlined: false,
            crossed_out: false,
        }),
        colored(color) == (Style { fg: Some(color), ..plain_style() }),
        on_color(color) == (Style { bg: Some(color), ..plain_style() }),
        bold_style() == (Style { bold: true, ..plain_style() }),
        muted_style() == (Style { fg: Some(Color::DarkGray), ..plain_style() }),
        raw(text).content == text && raw(text).style == plain_style(),
        empty_line().spans.len() == 0 && empty_line().style == plain_style(),
{
}

/// The first two levels of headings have colours of their own, all others share one.
pub proof fn levels_have_colors(level: u8)
    ensures
        level_color(level) == match level {
            1 => Color::Yellow,
            2 => Color::Green,
            _ => Color::Cyan,
        },
{
}

} // verus!
