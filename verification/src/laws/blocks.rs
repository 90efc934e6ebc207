//! Blocks: paragraphs, headings, quotes, lists, code, images, rules.

use crate::document::{
    continued, inline_text, inline_text_is_kept, is_inline, no_open_image,
};
use crate::events::{EventView, MdTagEnd, TagView};
use crate::laws::inline::{
    inline_starts_open_elements, is_bare, is_gray, links_end_with_their_address,
};
use crate::laws::texts::{
    put_together, single_lines_are_single_spans, spans_are_read_in_order, splits_are_put_together,
    trimming_takes_the_end,
};
use crate::markdown::{accepts, after_event, after_events, finished, md_start, rendered, MdView};
use crate::paths::{file_name, joined};
use crate::style::{spans_text, Color, LineView, Style};
use crate::text::{decimal, repeated, repeated_text, split, trim_end};
use vstd::prelude::*;

verus! {

/// One bar for each open quote.
pub open spec fn bars(quote: nat) -> Seq<char> {
    Seq::new(
        2 * quote,
        |i: int|
            if i % 2 == 0 {
                '▎'
            } else {
                ' '
            },
    )
}

/// What stands in front of an item of a list, `depth` lists deep.
pub open spec fn bullet(depth: nat, number: Option<u64>) -> Seq<char> {
    let indent = Seq::new((2 * (depth - 1)) as nat, |i: int| ' ');
    match number {
        Some(n) => indent + decimal(n as nat) + seq!['.', ' '],
        None => indent + seq!['•', ' '],
    }
}

/// The number of the next item of the innermost list, where it is an ordered one.
pub open spec fn shown_number(m: MdView) -> Option<u64> {
    if m.list.last().ordered {
        match m.item_number {
            Some(n) => Some(n),
            None => Some(m.list.last().number),
        }
    } else {
        None
    }
}

/// What stands in front of the next line: bars for quotes, and the bullet of a list
/// item on its first line.
pub open spec fn marks(m: MdView) -> Seq<char> {
    if !m.item_prefix_used && m.list.len() > 0 {
        bars(m.quote) + bullet(m.list.len(), shown_number(m))
    } else {
        bars(m.quote)
    }
}

/// Whether a line shows the open spans behind their marks, which are gray.
pub open spec fn shows_open_spans(m: MdView, line: LineView) -> bool {
    let k = line.spans.len() - m.buf.len();
    &&& k >= 0
    &&& line.spans.skip(k) == m.buf
    &&& spans_text(line.spans.take(k)) == marks(m)
    &&& forall|i: int| 0 <= i < k ==> is_gray((#[trigger] line.spans[i]).style)
    &&& m.quote == 0 ==> is_bare(line.style)
    &&& m.quote > 0 ==> line.style.fg == Some(Color::Gray) && is_bare(
        Style { fg: None, ..line.style },
    )
}

/// Whether `n` is `m` with its open spans ended: they have become one more line.
pub open spec fn is_ended(m: MdView, n: MdView) -> bool {
    if m.buf.len() == 0 {
        n == m
    } else {
        &&& n.out.len() == m.out.len() + 1
        &&& n.out.drop_last() == m.out
        &&& shows_open_spans(m, n.out.last())
        &&& n.item_prefix_used == (m.item_prefix_used || m.list.len() > 0)
        &&& n == (MdView {
            out: n.out,
            buf: Seq::empty(),
            item_prefix_used: n.item_prefix_used,
            ..m
        })
    }
}

/// Whether `more` is `out` with a blank line below, unless that would be the first line
/// or follow another blank one.
pub open spec fn is_set_apart(out: Seq<LineView>, more: Seq<LineView>) -> bool {
    if out.len() == 0 || out.last().spans.len() == 0 {
        more == out
    } else {
        &&& more.len() == out.len() + 1
        &&& more.drop_last() == out
        &&& more.last().spans.len() == 0
        &&& is_bare(more.last().style)
    }
}

proof fn lemma_bars(quote: nat)
    ensures
        repeated_text("▎ "@, quote) == bars(quote),
    decreases quote,
{
    reveal_strlit("▎ ");
    if quote > 0 {
        lemma_bars((quote - 1) as nat);
    }
    assert(repeated_text("▎ "@, quote) =~= bars(quote));
}

proof fn lemma_indent(depth: nat)
    ensures
        repeated_text("  "@, depth) == Seq::new(2 * depth, |i: int| ' '),
    decreases depth,
{
    reveal_strlit("  ");
    if depth > 0 {
        lemma_indent((depth - 1) as nat);
    }
    assert(repeated_text("  "@, depth) =~= Seq::new(2 * depth, |i: int| ' '));
}

proof fn lemma_ended(m: MdView)
    ensures
        is_ended(m, crate::markdown::flushed(m)),
{
    if m.buf.len() > 0 {
        let n = crate::markdown::flushed(m);
        let line = n.out.last();
        let quotes = crate::markdown::quote_prefix(m.quote);
        let marker = crate::markdown::marker_prefix(m);
        let front = quotes + marker;
        let k = line.spans.len() - m.buf.len();
        assert(n.out.drop_last() =~= m.out);
        assert(line.spans == front + m.buf);
        assert(line.spans.skip(k) =~= m.buf);
        assert(line.spans.take(k) =~= front);
        crate::style::lemma_spans_text_concat(quotes, marker);
        lemma_bars(m.quote);
        assert(spans_text(quotes) =~= bars(m.quote)) by {
            if m.quote > 0 {
                spans_are_read_in_order(quotes[0], quotes, quotes);
                assert(quotes =~= seq![quotes[0]]);
            }
        }
        if !m.item_prefix_used && m.list.len() > 0 {
            spans_are_read_in_order(marker[0], marker, marker);
            assert(marker =~= seq![marker[0]]);
            lemma_indent((m.list.len() - 1) as nat);
            reveal_strlit(". ");
            reveal_strlit("• ");
            assert(". "@ =~= seq!['.', ' ']);
            assert("• "@ =~= seq!['•', ' ']);
            assert(spans_text(marker) == bullet(m.list.len(), shown_number(m)));
        } else {
            assert(marker =~= Seq::empty());
            assert(spans_text(marker) =~= Seq::empty());
            assert(bars(m.quote) + Seq::<char>::empty() =~= bars(m.quote));
        }
        assert forall|i: int| 0 <= i < k implies is_gray((#[trigger] line.spans[i]).style) by {
            assert(line.spans[i] == front[i]);
        }
    }
}

/// A paragraph, an item, a hard break, and the end of the text end the open line: all
/// of its spans are shown, behind the marks of quotes and lists.
pub proof fn lines_show_their_spans(m: MdView)
    ensures
        is_ended(m, after_event(m, EventView::HardBreak)),
        is_ended(m, after_event(m, EventView::Start(TagView::Paragraph))),
        is_ended(m, after_event(m, EventView::End(MdTagEnd::Paragraph))),
        is_ended(m, after_event(m, EventView::End(MdTagEnd::Item))),
        ({
            let d = finished(m);
            let n = after_event(m, EventView::HardBreak);
            &&& d.content == n.out
            &&& d.headings == m.headings
            &&& d.images == m.images
            &&& d.tables == m.tables
        }),
{
    lemma_ended(m);
}

/// A quote ends the open line and is entered, and is left with a blank line below; the
/// outermost one cannot be left twice.
pub proof fn quotes_are_entered_and_left(m: MdView)
    ensures
        ({
            let e = after_event(m, EventView::HardBreak);
            let n = after_event(m, EventView::Start(TagView::BlockQuote));
            n == (MdView { quote: m.quote + 1, ..e })
        }),
        ({
            let e = after_event(m, EventView::HardBreak);
            let n = after_event(m, EventView::End(MdTagEnd::BlockQuote));
            &&& m.quote > 0 ==> n.quote + 1 == m.quote
            &&& m.quote == 0 ==> n.quote == 0
            &&& is_set_apart(e.out, n.out)
            &&& n == (MdView { out: n.out, quote: n.quote, ..e })
        }),
{
    let e = after_event(m, EventView::HardBreak);
    let n = after_event(m, EventView::End(MdTagEnd::BlockQuote));
    lemma_set_apart(e.out);
}

proof fn lemma_set_apart(out: Seq<LineView>)
    ensures
        is_set_apart(out, crate::markdown::spaced(out)),
{
    if out.len() > 0 && out.last().spans.len() > 0 {
        assert(crate::markdown::spaced(out).drop_last() =~= out);
    }
}

/// A list is set apart from what stands above and below. Its items are numbered from
/// the number that it starts with, one by one.
pub proof fn lists_count_their_items(m: MdView, first: Option<u64>)
    ensures
        ({
            let e = after_event(m, EventView::HardBreak);
            let n = after_event(m, EventView::Start(TagView::List(first)));
            &&& is_set_apart(e.out, n.out)
            &&& n == (MdView { out: n.out, list: n.list, ..e })
            &&& n.list.len() == m.list.len() + 1
            &&& n.list.drop_last() == m.list
            &&& n.list.last().ordered <==> first is Some
            &&& first is Some ==> n.list.last().number == first->0
        }),
        ({
            let e = after_event(m, EventView::HardBreak);
            let n = after_event(m, EventView::End(MdTagEnd::List));
            &&& is_set_apart(e.out, n.out)
            &&& n == (MdView { out: n.out, list: n.list, ..e })
            &&& m.list.len() == 0 ==> n.list == m.list
            &&& m.list.len() > 0 ==> n.list == m.list.drop_last()
        }),
        ({
            let e = after_event(m, EventView::HardBreak);
            let n = after_event(m, EventView::Start(TagView::Item));
            &&& !n.item_prefix_used
            &&& n == (MdView {
                item_prefix_used: false,
                item_number: n.item_number,
                list: n.list,
                ..e
            })
            &&& n.list.len() == m.list.len()
            &&& m.list.len() == 0 ==> n.item_number == m.item_number && n.list == m.list
            &&& m.list.len() > 0 ==> n.list.drop_last() == m.list.drop_last()
            &&& m.list.len() > 0 && !m.list.last().ordered ==> n.item_number is None
                && n.list.last() == m.list.last()
            &&& m.list.len() > 0 && m.list.last().ordered && m.list.last().number < u64::MAX
                ==> n.item_number == Some(m.list.last().number) && n.list.last().ordered
                && n.list.last().number == m.list.last().number + 1
        }),
{
    let e = after_event(m, EventView::HardBreak);
    lemma_set_apart(e.out);
    let started = after_event(m, EventView::Start(TagView::List(first)));
    assert(started.list.drop_last() =~= m.list);
    let item = after_event(m, EventView::Start(TagView::Item));
    if m.list.len() > 0 {
        assert(item.list.drop_last() =~= m.list.drop_last());
        assert(item.list =~= item.list.drop_last().push(item.list.last()));
        if !m.list.last().ordered {
            assert(item.list == m.list);
        }
    }
}

/// The state of a builder in which a new block can begin: nothing is half read.
pub open spec fn is_ready(m: MdView) -> bool {
    &&& !m.in_code
    &&& no_open_image(m)
    &&& m.cell is None
}

/// A heading keeps all of its text: it is shown on a line of its own, in bold and in
/// the colour of its level, and is one more entry of the outline with that text.
#[verifier::spinoff_prover]
#[verifier::rlimit(60)]
pub proof fn headings_keep_their_text(m: MdView, level: u8, events: Seq<EventView>)
    requires
        is_ready(m),
        forall|i: int| 0 <= i < events.len() ==> is_inline(#[trigger] events[i]),
        inline_text(events).len() > 0,
    ensures
        ({
            let e = after_event(m, EventView::HardBreak);
            let opened = after_event(m, EventView::Start(TagView::Heading(level)));
            let n = after_event(
                continued(opened, events),
                EventView::End(MdTagEnd::Heading(level)),
            );
            let at = opened.out.len() as int;
            &&& is_set_apart(e.out, opened.out)
            &&& n.out.len() == at + 2
            &&& n.out.take(at) == opened.out
            &&& spans_text(n.out[at].spans) == inline_text(events)
            &&& n.out[at].style.bold
            &&& n.out[at].style.fg == Some(
                match level {
                    1 => Color::Yellow,
                    2 => Color::Green,
                    _ => Color::Cyan,
                },
            )
            &&& is_bare(Style { fg: None, bold: false, ..n.out[at].style })
            &&& n.out[at + 1].spans.len() == 0
            &&& is_bare(n.out[at + 1].style)
            &&& n.headings.len() == m.headings.len() + 1
            &&& n.headings.drop_last() == m.headings
            &&& n.headings.last().title == inline_text(events)
            &&& n.headings.last().level == level
            &&& n.headings.last().content_line == at
            &&& n.headings.last().line == at
            &&& n.buf.len() == 0
            &&& n.images == m.images
            &&& n.tables == m.tables
        }),
{
    let e = after_event(m, EventView::HardBreak);
    let opened = after_event(m, EventView::Start(TagView::Heading(level)));
    lemma_set_apart(e.out);
    lemma_ended(m);
    inline_text_is_kept(opened, events);
    let p = continued(opened, events);
    assert(opened.buf.len() == 0);
    assert(spans_text(opened.buf) =~= Seq::empty());
    assert(spans_text(p.buf) =~= inline_text(events));
    assert(p.buf.len() > 0) by {
        if p.buf.len() == 0 {
            assert(spans_text(p.buf) =~= Seq::empty());
        }
    }
    let n = after_event(p, EventView::End(MdTagEnd::Heading(level)));
    assert(n.out.take(opened.out.len() as int) =~= opened.out);
    assert(n.headings.drop_last() =~= m.headings);
}

/// The end of a heading takes all open spans to its line as they are.
pub proof fn headings_keep_their_spans(m: MdView, level: u8)
    requires
        m.heading is Some,
    ensures
        ({
            let n = after_event(m, EventView::End(MdTagEnd::Heading(level)));
            &&& n.heading is None
            &&& m.buf.len() == 0 ==> n == (MdView { heading: None, ..m })
            &&& m.buf.len() > 0 ==> {
                &&& n.out.len() == m.out.len() + 2
                &&& n.out[m.out.len() as int].spans == m.buf
                &&& n == (MdView {
                    out: n.out,
                    headings: n.headings,
                    buf: Seq::empty(),
                    heading: None,
                    ..m
                })
            }
        }),
{
}

/// The end of a heading that was not begun changes nothing.
pub proof fn stray_heading_ends_change_nothing(m: MdView, level: u8)
    requires
        m.heading is None,
    ensures
        after_event(m, EventView::End(MdTagEnd::Heading(level))) == m,
{
}

/// An item of a list becomes one line: the marks, and all of its text.
#[verifier::spinoff_prover]
#[verifier::rlimit(60)]
pub proof fn items_become_lines(m: MdView, events: Seq<EventView>)
    requires
        is_ready(m),
        m.buf.len() == 0,
        m.list.len() > 0,
        m.list.last().ordered ==> m.list.last().number < u64::MAX,
        forall|i: int| 0 <= i < events.len() ==> is_inline(#[trigger] events[i]),
        inline_text(events).len() > 0,
    ensures
        ({
            let opened = after_event(m, EventView::Start(TagView::Item));
            let n = after_event(continued(opened, events), EventView::End(MdTagEnd::Item));
            let number = if m.list.last().ordered {
                Some(m.list.last().number)
            } else {
                None
            };
            &&& n.out.len() == m.out.len() + 1
            &&& n.out.drop_last() == m.out
            &&& spans_text(n.out.last().spans) == bars(m.quote) + bullet(m.list.len(), number)
                + inline_text(events)
            &&& n.list.len() == m.list.len()
            &&& n.list.last().ordered == m.list.last().ordered
            &&& m.list.last().ordered ==> n.list.last().number == m.list.last().number + 1
            &&& n.quote == m.quote
            &&& n.buf.len() == 0
            &&& is_ready(n)
        }),
{
    let opened = after_event(m, EventView::Start(TagView::Item));
    lists_count_their_items(m, None);
    lines_show_their_spans(m);
    inline_text_is_kept(opened, events);
    let p = continued(opened, events);
    assert(spans_text(opened.buf) =~= Seq::empty());
    assert(spans_text(p.buf) =~= inline_text(events));
    assert(p.buf.len() > 0) by {
        if p.buf.len() == 0 {
            assert(spans_text(p.buf) =~= Seq::empty());
        }
    }
    lines_show_their_spans(p);
    let n = after_event(p, EventView::End(MdTagEnd::Item));
    let line = n.out.last();
    let k = line.spans.len() - p.buf.len();
    assert(line.spans.take(k) + line.spans.skip(k) =~= line.spans);
    crate::style::lemma_spans_text_concat(line.spans.take(k), line.spans.skip(k));
    assert(p.out == m.out);
}

/// A link keeps its text and shows its address behind it, wherever in a paragraph or a
/// cell it stands; one whose text is its address is shown once.
#[verifier::spinoff_prover]
#[verifier::rlimit(60)]
pub proof fn links_keep_their_text(m: MdView, url: Seq<char>, events: Seq<EventView>)
    requires
        !m.in_code,
        no_open_image(m),
        forall|i: int| 0 <= i < events.len() ==> is_inline(#[trigger] events[i]),
        ({
            let opened = after_event(m, EventView::Start(TagView::Link(url)));
            continued(opened, events).styles == opened.styles
        }),
    ensures
        ({
            let opened = after_event(m, EventView::Start(TagView::Link(url)));
            let n = after_event(continued(opened, events), EventView::End(MdTagEnd::Link));
            let before = if m.cell is Some {
                m.cell->0
            } else {
                m.buf
            };
            let after = if m.cell is Some {
                n.cell->0
            } else {
                n.buf
            };
            let address = if inline_text(events) == url {
                Seq::empty()
            } else {
                seq![' ', '('] + url + seq![')']
            };
            &&& spans_text(after) == spans_text(before) + inline_text(events) + address
            &&& n.cell is Some <==> m.cell is Some
            &&& n.styles == m.styles
            &&& n == (MdView { buf: n.buf, cell: n.cell, ..m })
        }),
{
    let opened = after_event(m, EventView::Start(TagView::Link(url)));
    inline_starts_open_elements(m, url);
    assert forall|i: int| 0 <= i < opened.styles.len() implies (
    #[trigger] opened.styles[i]) !is Image by {
        if i < m.styles.len() {
            assert(opened.styles.drop_last()[i] == opened.styles[i]);
        }
    }
    inline_text_is_kept(opened, events);
    lemma_inline_prefix(opened, events);
    let p = continued(opened, events);
    let before = if m.cell is Some {
        m.cell->0
    } else {
        m.buf
    };
    let spans = if m.cell is Some {
        p.cell->0
    } else {
        p.buf
    };
    let text = spans.skip(before.len() as int);
    assert(before + text =~= spans);
    crate::style::lemma_spans_text_concat(before, text);
    assert(spans_text(text) =~= inline_text(events)) by {
        let whole = spans_text(spans);
        assert(whole.skip(spans_text(before).len() as int) =~= spans_text(text));
        assert((spans_text(before) + inline_text(events)).skip(spans_text(before).len() as int)
            =~= inline_text(events));
    }
    links_end_with_their_address(p, before, text, crate::style::muted_style());
    let n = after_event(p, EventView::End(MdTagEnd::Link));
    let after = if m.cell is Some {
        n.cell->0
    } else {
        n.buf
    };
    if inline_text(events) == url {
        assert(spans_text(before) + inline_text(events) + Seq::<char>::empty() =~= spans_text(
            spans,
        ));
    } else {
        assert(after.drop_last() =~= spans);
    }
}

proof fn lemma_inline_prefix(m: MdView, events: Seq<EventView>)
    requires
        !m.in_code,
        no_open_image(m),
        forall|i: int| 0 <= i < events.len() ==> is_inline(#[trigger] events[i]),
    ensures
        m.cell is Some ==> continued(m, events).cell is Some && m.cell->0.is_prefix_of(
            continued(m, events).cell->0,
        ),
        m.cell is None ==> m.buf.is_prefix_of(continued(m, events).buf),
    decreases events.len(),
{
    if events.len() > 0 {
        let front = events.drop_last();
        assert forall|i: int| 0 <= i < front.len() implies is_inline(#[trigger] front[i]) by {
            assert(front[i] == events[i]);
        }
        inline_text_is_kept(m, front);
        lemma_inline_prefix(m, front);
        assert(is_inline(events[events.len() - 1]));
        let p = continued(m, front);
        let n = continued(m, events);
        if m.cell is Some {
            assert(p.cell->0.is_prefix_of(n.cell->0));
            assert(m.cell->0 =~= n.cell->0.take(m.cell->0.len() as int));
        } else {
            assert(p.buf.is_prefix_of(n.buf));
            assert(m.buf =~= n.buf.take(m.buf.len() as int));
        }
    } else {
        assert(m.buf =~= m.buf.take(m.buf.len() as int));
        if m.cell is Some {
            assert(m.cell->0 =~= m.cell->0.take(m.cell->0.len() as int));
        }
    }
}

/// The events of some items of a list, each with inline events.
pub open spec fn item_events(items: Seq<Seq<EventView>>) -> Seq<EventView>
    decreases items.len(),
{
    if items.len() == 0 {
        Seq::empty()
    } else {
        (item_events(items.drop_last()).push(EventView::Start(TagView::Item)) + items.last()).push(
            EventView::End(MdTagEnd::Item),
        )
    }
}

/// Events one after the other lead where all of them lead.
pub proof fn lemma_continued_concat(m: MdView, a: Seq<EventView>, b: Seq<EventView>)
    ensures
        continued(m, a + b) == continued(continued(m, a), b),
    decreases b.len(),
{
    if b.len() == 0 {
        assert(a + b =~= a);
    } else {
        assert((a + b).drop_last() =~= a + b.drop_last());
        lemma_continued_concat(m, a, b.drop_last());
    }
}

/// Every item of a list becomes one line, in order, and those of an ordered list are
/// numbered from its first number on.
pub proof fn lists_show_their_items(m: MdView, items: Seq<Seq<EventView>>, k: int)
    requires
        is_ready(m),
        m.buf.len() == 0,
        m.list.len() > 0,
        m.list.last().ordered ==> m.list.last().number + items.len() <= u64::MAX,
        forall|i: int, j: int|
            0 <= i < items.len() && 0 <= j < items[i].len() ==> is_inline(#[trigger] items[i][j]),
        forall|i: int| 0 <= i < items.len() ==> inline_text(#[trigger] items[i]).len() > 0,
        0 <= k < items.len(),
    ensures
        ({
            let n = continued(m, item_events(items));
            let number = if m.list.last().ordered {
                Some((m.list.last().number + k) as u64)
            } else {
                None
            };
            &&& n.out.len() == m.out.len() + items.len()
            &&& n.out.take(m.out.len() as int) == m.out
            &&& spans_text(n.out[m.out.len() + k].spans) == bars(m.quote) + bullet(
                m.list.len(),
                number,
            ) + inline_text(items[k])
        }),
{
    lemma_items(m, items);
}

#[verifier::spinoff_prover]
#[verifier::rlimit(60)]
proof fn lemma_items(m: MdView, items: Seq<Seq<EventView>>)
    requires
        is_ready(m),
        m.buf.len() == 0,
        m.list.len() > 0,
        m.list.last().ordered ==> m.list.last().number + items.len() <= u64::MAX,
        forall|i: int, j: int|
            0 <= i < items.len() && 0 <= j < items[i].len() ==> is_inline(#[trigger] items[i][j]),
        forall|i: int| 0 <= i < items.len() ==> inline_text(#[trigger] items[i]).len() > 0,
    ensures
        ({
            let n = continued(m, item_events(items));
            &&& is_ready(n)
            &&& n.buf.len() == 0
            &&& n.quote == m.quote
            &&& n.list.len() == m.list.len()
            &&& n.list.last().ordered == m.list.last().ordered
            &&& m.list.last().ordered ==> n.list.last().number == m.list.last().number
                + items.len()
            &&& n.out.len() == m.out.len() + items.len()
            &&& n.out.take(m.out.len() as int) == m.out
            &&& forall|k: int|
                0 <= k < items.len() ==> spans_text(
                    (#[trigger] n.out[m.out.len() + k]).spans,
                ) == bars(m.quote) + bullet(
                    m.list.len(),
                    if m.list.last().ordered {
                        Some((m.list.last().number + k) as u64)
                    } else {
                        None
                    },
                ) + inline_text(items[k])
        }),
    decreases items.len(),
{
    if items.len() == 0 {
        assert(m.out.take(m.out.len() as int) =~= m.out);
    } else {
        let front = items.drop_last();
        let last = items[items.len() - 1];
        assert forall|i: int, j: int|
            0 <= i < front.len() && 0 <= j < front[i].len() implies is_inline(
            #[trigger] front[i][j],
        ) by {
            assert(front[i][j] == items[i][j]);
        }
        assert forall|i: int| 0 <= i < front.len() implies inline_text(#[trigger] front[i]).len()
            > 0 by {
            assert(front[i] == items[i]);
        }
        lemma_items(m, front);
        let p = continued(m, item_events(front));
        assert forall|j: int| 0 <= j < last.len() implies is_inline(#[trigger] last[j]) by {
            assert(items[items.len() - 1][j] == last[j]);
        }
        assert(inline_text(items[items.len() - 1]).len() > 0);
        items_become_lines(p, last);
        let opened = after_event(p, EventView::Start(TagView::Item));
        let all = item_events(items);
        let start = item_events(front).push(EventView::Start(TagView::Item));
        assert(start.drop_last() =~= item_events(front));
        assert(continued(m, start) == opened);
        lemma_continued_concat(m, start, last);
        assert(all.drop_last() =~= start + last);
        let n = continued(m, all);
        assert(n == after_event(continued(opened, last), EventView::End(MdTagEnd::Item)));
        assert(n.out.take(m.out.len() as int) =~= m.out) by {
            assert(n.out.drop_last() == p.out);
            assert forall|i: int| 0 <= i < m.out.len() implies #[trigger] n.out[i] == m.out[i] by {
                assert(n.out.drop_last()[i] == n.out[i]);
                assert(p.out.take(m.out.len() as int)[i] == p.out[i]);
            }
        }
        assert forall|k: int| 0 <= k < items.len() implies spans_text(
            (#[trigger] n.out[m.out.len() + k]).spans,
        ) == bars(m.quote) + bullet(
            m.list.len(),
            if m.list.last().ordered {
                Some((m.list.last().number + k) as u64)
            } else {
                None
            },
        ) + inline_text(items[k]) by {
            if k < front.len() {
                assert(n.out.drop_last()[m.out.len() + k] == n.out[m.out.len() + k]);
                assert(front[k] == items[k]);
                assert(spans_text(p.out[m.out.len() + k].spans) == bars(m.quote) + bullet(
                    m.list.len(),
                    if m.list.last().ordered {
                        Some((m.list.last().number + k) as u64)
                    } else {
                        None
                    },
                ) + inline_text(front[k]));
            }
        }
    }
}

/// A rule is a line of a hundred dashes, below what stands above it and set apart from
/// what follows.
pub proof fn rules_are_long_lines(m: MdView)
    ensures
        ({
            let e = after_event(m, EventView::HardBreak);
            let n = after_event(m, EventView::Rule);
            let at = e.out.len() as int;
            &&& n == (MdView { out: n.out, ..e })
            &&& n.out.len() == at + 2
            &&& n.out.take(at) == e.out
            &&& spans_text(n.out[at].spans) == repeated('─', 100)
            &&& is_gray(n.out[at].style)
            &&& n.out[at + 1].spans.len() == 0
            &&& is_bare(n.out[at + 1].style)
        }),
{
    let e = after_event(m, EventView::HardBreak);
    let n = after_event(m, EventView::Rule);
    single_lines_are_single_spans(repeated('─', 100), crate::style::muted_style());
    assert(n.out.take(e.out.len() as int) =~= e.out);
}

/// The lines of a code block: the language, where there is one, then the code.
pub open spec fn code_texts(lang: Option<Seq<char>>, code: Seq<char>) -> Seq<Seq<char>> {
    let pieces = split(trim_end(code, '\n'), '\n');
    match lang {
        Some(l) => seq![l] + pieces,
        None => pieces,
    }
}

/// A code block begins with the language of its fence, and shows every line of its
/// code, indented by two columns and gray, and is set apart from what follows. The
/// lines, put together, are the code, but for line feeds at its end.
#[verifier::spinoff_prover]
#[verifier::rlimit(60)]
pub proof fn code_blocks_show_their_code(m: MdView, lang: Option<Seq<char>>, i: int)
    requires
        m.code_lang == lang,
        lang is Some ==> forall|k: int| 0 <= k < lang->0.len() ==> #[trigger] lang->0[k] != '\n',
        0 <= i < code_texts(lang, m.code).len(),
    ensures
        ({
            let n = after_event(m, EventView::End(MdTagEnd::CodeBlock));
            let texts = code_texts(lang, m.code);
            let at = m.out.len() as int;
            let pieces = if lang is Some {
                texts.skip(1)
            } else {
                texts
            };
            &&& n.out.len() == at + texts.len() + 1
            &&& n.out.take(at) == m.out
            &&& spans_text(n.out[at + i].spans) == seq![' ', ' '] + texts[i]
            &&& lang is Some ==> texts[0] == lang->0
            &&& is_gray(Style { italic: false, ..n.out[at + i].style })
            &&& n.out[at + i].style.italic <==> (lang is Some && i == 0)
            &&& n.out.last().spans.len() == 0
            &&& is_bare(n.out.last().style)
            &&& put_together(pieces, '\n').is_prefix_of(m.code)
            &&& put_together(pieces, '\n').len() > 0 ==> put_together(pieces, '\n').last() != '\n'
            &&& forall|k: int|
                put_together(pieces, '\n').len() <= k < m.code.len() ==> #[trigger] m.code[k]
                    == '\n'
            &&& forall|k: int, j: int|
                0 <= k < pieces.len() && 0 <= j < pieces[k].len() ==> #[trigger] pieces[k][j]
                    != '\n'
            &&& n == (MdView {
                out: n.out,
                in_code: false,
                code: Seq::empty(),
                code_lang: None,
                ..m
            })
        }),
{
    let n = after_event(m, EventView::End(MdTagEnd::CodeBlock));
    let f = crate::markdown::code_flushed(m);
    let texts = code_texts(lang, m.code);
    let pieces = split(trim_end(m.code, '\n'), '\n');
    let at = m.out.len() as int;
    reveal_strlit("  ");
    assert("  "@ =~= seq![' ', ' ']);
    trimming_takes_the_end(m.code, '\n');
    splits_are_put_together(trim_end(m.code, '\n'), '\n');
    if lang is Some {
        assert(texts.skip(1) =~= pieces);
    }
    lemma_code_line(m, lang, i);
    lemma_code_line(m, lang, texts.len() - 1);
    assert(f.out.len() == at + texts.len());
    assert(f.out.last().spans.len() > 0) by {
        assert(f.out.last() == f.out[at + texts.len() - 1]);
    }
    assert(n.out == f.out.push(crate::style::empty_line()));
    assert(n.out.take(at) =~= m.out);
}

proof fn lemma_code_line(m: MdView, lang: Option<Seq<char>>, i: int)
    requires
        m.code_lang == lang,
        lang is Some ==> forall|k: int| 0 <= k < lang->0.len() ==> #[trigger] lang->0[k] != '\n',
        0 <= i < code_texts(lang, m.code).len(),
    ensures
        ({
            let f = crate::markdown::code_flushed(m);
            let texts = code_texts(lang, m.code);
            let line = f.out[m.out.len() + i];
            &&& f.out.len() == m.out.len() + texts.len()
            &&& line.spans.len() == 1
            &&& spans_text(line.spans) == seq![' ', ' '] + texts[i]
            &&& is_gray(Style { italic: false, ..line.style })
            &&& line.style.italic <==> (lang is Some && i == 0)
        }),
{
    let f = crate::markdown::code_flushed(m);
    let texts = code_texts(lang, m.code);
    let pieces = split(trim_end(m.code, '\n'), '\n');
    let code = crate::markdown::code_lines(m.code);
    reveal_strlit("  ");
    assert("  "@ =~= seq![' ', ' ']);
    splits_are_put_together(trim_end(m.code, '\n'), '\n');
    let text = "  "@ + texts[i];
    let j = if lang is Some {
        i - 1
    } else {
        i
    };
    assert forall|k: int| 0 <= k < text.len() implies #[trigger] text[k] != '\n' by {
        if k >= 2 {
            assert(text[k] == texts[i][k - 2]);
            if j >= 0 {
                assert(texts[i] == pieces[j]);
                assert(pieces[j][k - 2] != '\n');
            }
        }
    }
    if j >= 0 {
        single_lines_are_single_spans(text, crate::style::muted_style());
        assert(f.out[m.out.len() + i] == code[j]);
        assert(code[j] == crate::style::styled_line(
            "  "@ + pieces[j],
            crate::style::muted_style(),
        ));
    } else {
        single_lines_are_single_spans(text, crate::markdown::lang_style());
    }
}

/// The start of a code block ends the open line and sets the block apart; a fence
/// without a language has none.
pub proof fn code_blocks_are_set_apart(m: MdView, kind: Option<Seq<char>>)
    ensures
        ({
            let e = after_event(m, EventView::HardBreak);
            let n = after_event(m, EventView::Start(TagView::CodeBlock(kind)));
            &&& is_set_apart(e.out, n.out)
            &&& n == (MdView { out: n.out, in_code: true, code_lang: n.code_lang, ..e })
            &&& n.code_lang == if kind is Some && kind->0.len() > 0 {
                kind
            } else {
                None
            }
        }),
{
    lemma_set_apart(after_event(m, EventView::HardBreak).out);
}

/// An image becomes a line of its own that shows its description, or else the name of
/// its file, and is one more image of the document, with the next number and the path
/// below the directory of the document.
#[verifier::spinoff_prover]
#[verifier::rlimit(60)]
pub proof fn images_are_announced(m: MdView, label: Seq<char>)
    requires
        m.styles.len() > 0,
        m.styles.last() is Image,
        m.next_image_id < u32::MAX,
        label == if m.styles.last()->alt.len() > 0 {
            m.styles.last()->alt
        } else {
            match file_name(joined(m.base, m.styles.last()->Image_url)) {
                Some(name) => name,
                None => seq!['i', 'm', 'a', 'g', 'e'],
            }
        },
        forall|k: int| 0 <= k < label.len() ==> #[trigger] label[k] != '\n',
    ensures
        ({
            let n = after_event(m, EventView::End(MdTagEnd::Image));
            let img = n.images.last();
            &&& n.out.len() == m.out.len() + 1
            &&& n.out.drop_last() == m.out
            &&& spans_text(n.out.last().spans) == seq!['▦', ' '] + label
            &&& is_gray(n.out.last().style)
            &&& n.images.len() == m.images.len() + 1
            &&& n.images.drop_last() == m.images
            &&& img.id == m.next_image_id
            &&& img.path == joined(m.base, m.styles.last()->Image_url)
            &&& img.content_line == m.out.len()
            &&& img.dims is None && img.png is None && img.png_dims is None
            &&& img.cw == 0 && img.ch == 0
            &&& n.next_image_id == m.next_image_id + 1
            &&& n == (MdView {
                out: n.out,
                images: n.images,
                next_image_id: n.next_image_id,
                styles: m.styles.drop_last(),
                ..m
            })
        }),
{
    let n = after_event(m, EventView::End(MdTagEnd::Image));
    reveal_strlit("▦ ");
    reveal_strlit("image");
    assert("▦ "@ =~= seq!['▦', ' ']);
    assert("image"@ =~= seq!['i', 'm', 'a', 'g', 'e']);
    let text = "▦ "@ + label;
    assert forall|k: int| 0 <= k < text.len() implies #[trigger] text[k] != '\n' by {
        if k >= 2 {
            assert(text[k] == label[k - 2]);
        }
    }
    single_lines_are_single_spans(text, crate::style::muted_style());
    assert(n.out.drop_last() =~= m.out);
    assert(n.images.drop_last() =~= m.images);
}

/// The end of an image that is not open closes the innermost element.
pub proof fn stray_image_ends_close_elements(m: MdView)
    requires
        m.styles.len() > 0 ==> m.styles.last() !is Image,
    ensures
        m.styles.len() == 0 ==> after_event(m, EventView::End(MdTagEnd::Image)) == m,
        m.styles.len() > 0 ==> after_event(m, EventView::End(MdTagEnd::Image)) == (MdView {
            styles: m.styles.drop_last(),
            ..m
        }),
{
}

/// A builder begins with nothing, and counts images from one.
pub proof fn builders_begin_empty(base: Seq<char>)
    ensures
        ({
            let m = md_start(base);
            &&& m.out.len() == 0 && m.headings.len() == 0 && m.images.len() == 0
            &&& m.tables.len() == 0 && m.buf.len() == 0 && m.styles.len() == 0
            &&& m.list.len() == 0 && m.table_row.len() == 0 && m.code.len() == 0
            &&& m.quote == 0 && !m.in_code && !m.item_prefix_used
            &&& m.item_number is None && m.heading is None && m.code_lang is None
            &&& m.table is None && m.cell is None
            &&& m.next_image_id == 1
            &&& m.base == base
        }),
{
}

/// An event is refused only where a counter would pass its largest number, or where a
/// link ends that started behind the end of the open spans.
pub proof fn few_events_are_refused(m: MdView, event: EventView)
    requires
        m.quote < usize::MAX,
        m.next_image_id < u32::MAX,
        m.list.len() > 0 ==> m.list.last().number < u64::MAX,
        m.styles.len() > 0 && m.styles.last() is Link ==> m.styles.last()->start
            <= if m.cell is Some {
            m.cell->0.len()
        } else {
            m.buf.len()
        },
    ensures
        accepts(m, event),
{
}

/// A text is rendered event by event, from an empty builder; it has a document unless
/// one of its events is refused.
pub proof fn texts_are_rendered_event_by_event(events: Seq<EventView>, base: Seq<char>)
    ensures
        match after_events(events, base) {
            Some(m) => rendered(events, base) == Some(finished(m)),
            None => rendered(events, base) is None,
        },
        match after_events(events, base) {
            Some(m) => m == continued(md_start(base), events) && forall|n: int|
                0 <= n < events.len() ==> accepts(
                    continued(md_start(base), events.take(n)),
                    #[trigger] events[n],
                ),
            None => exists|n: int|
                0 <= n < events.len() && !accepts(
                    continued(md_start(base), events.take(n)),
                    #[trigger] events[n],
                ),
        },
    decreases events.len(),
{
    if events.len() > 0 {
        let front = events.drop_last();
        let last = events.len() - 1;
        texts_are_rendered_event_by_event(front, base);
        assert(events.take(last) =~= front);
        assert forall|n: int| 0 <= n < last implies #[trigger] events.take(n) == front.take(n)
            && events[n] == front[n] by {
            assert(events.take(n) =~= front.take(n));
        }
        match after_events(front, base) {
            Some(m) => {
                if accepts(m, events.last()) {
                    assert forall|n: int| 0 <= n < events.len() implies accepts(
                        continued(md_start(base), events.take(n)),
                        #[trigger] events[n],
                    ) by {
                        if n < last {
                            assert(events.take(n) == front.take(n));
                            assert(accepts(
                                continued(md_start(base), front.take(n)),
                                front[n],
                            ));
                        }
                    }
                } else {
                    assert(!accepts(
                        continued(md_start(base), events.take(last)),
                        events[last],
                    ));
                }
            },
            None => {
                let n = choose|n: int|
                    0 <= n < front.len() && !accepts(
                        continued(md_start(base), front.take(n)),
                        #[trigger] front[n],
                    );
                assert(events.take(n) == front.take(n));
                assert(!accepts(continued(md_start(base), events.take(n)), events[n]));
            },
        }
    }
}

} // verus!
