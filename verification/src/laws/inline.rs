//! Text inside paragraphs, headings and cells: what is kept of it, and how it is drawn.

use crate::events::{EventView, MdTagEnd, TagView};
use crate::markdown::{after_event, InlineView, MdView};
use crate::style::{spans_text, Color, SpanView, Style};
use vstd::prelude::*;

verus! {

/// Whether `n` is `m` with one more open span, in the open cell or else in the open
/// paragraph.
pub open spec fn has_one_more(m: MdView, n: MdView, span: SpanView) -> bool {
    match m.cell {
        Some(cell) => n == (MdView { cell: Some(cell.push(span)), ..m }),
        None => n == (MdView { buf: m.buf.push(span), ..m }),
    }
}

/// Whether a link is open.
pub open spec fn in_link(m: MdView) -> bool {
    exists|i: int| 0 <= i < m.styles.len() && #[trigger] m.styles[i] is Link
}

/// Whether an inline element of some kind is open.
pub open spec fn is_open(m: MdView, kind: InlineView) -> bool {
    exists|i: int| 0 <= i < m.styles.len() && #[trigger] m.styles[i] == kind
}

/// Whether a style only sets the colour of secondary text.
pub open spec fn is_gray(style: Style) -> bool {
    &&& style.fg == Some(Color::DarkGray)
    &&& style.bg is None
    &&& !style.bold
    &&& !style.italic
    &&& !style.underlined
    &&& !style.crossed_out
}

/// Whether a style changes nothing.
pub open spec fn is_bare(style: Style) -> bool {
    &&& style.fg is None
    &&& style.bg is None
    &&& !style.bold
    &&& !style.italic
    &&& !style.underlined
    &&& !style.crossed_out
}

/// Whether text is drawn as the open elements ask for: italic inside an emphasis, bold
/// inside a strong one, and so on, however they are nested.
pub open spec fn is_drawn_as_open(m: MdView, style: Style) -> bool {
    &&& style.italic <==> is_open(m, InlineView::Emphasis)
    &&& style.bold <==> is_open(m, InlineView::Strong)
    &&& style.crossed_out <==> is_open(m, InlineView::Strike)
    &&& style.underlined <==> in_link(m)
    &&& style.fg == if in_link(m) {
        Some(Color::Cyan)
    } else {
        None
    }
    &&& style.bg is None
}

proof fn lemma_inline_style(m: MdView)
    ensures
        is_drawn_as_open(m, crate::markdown::inline_style(m.styles)),
    decreases m.styles.len(),
{
    if m.styles.len() > 0 {
        let p = MdView { styles: m.styles.drop_last(), ..m };
        lemma_inline_style(p);
        let last = m.styles.len() - 1;
        assert forall|i: int| 0 <= i < p.styles.len() implies #[trigger] p.styles[i]
            == m.styles[i] by {}
        assert forall|kind: InlineView| #[trigger] is_open(m, kind) <==> (is_open(p, kind)
            || m.styles[last] == kind) by {
            if is_open(m, kind) {
                let i = choose|i: int| 0 <= i < m.styles.len() && #[trigger] m.styles[i] == kind;
                if i < last {
                    assert(p.styles[i] == kind);
                }
            }
            if is_open(p, kind) {
                let i = choose|i: int| 0 <= i < p.styles.len() && #[trigger] p.styles[i] == kind;
                assert(m.styles[i] == kind);
            }
        }
        assert(in_link(m) <==> (in_link(p) || m.styles[last] is Link)) by {
            if in_link(m) {
                let i = choose|i: int| 0 <= i < m.styles.len() && #[trigger] m.styles[i] is Link;
                if i < last {
                    assert(p.styles[i] is Link);
                }
            }
            if in_link(p) {
                let i = choose|i: int| 0 <= i < p.styles.len() && #[trigger] p.styles[i] is Link;
                assert(m.styles[i] is Link);
            }
        }
    }
}

/// Text on the page is one more span that holds all of it and is drawn as the open
/// elements ask for.
pub proof fn text_is_drawn_as_its_elements_ask(m: MdView, text: Seq<char>, span: SpanView)
    requires
        !m.in_code,
        m.styles.len() > 0 ==> m.styles.last() !is Image,
        span.content == text,
        is_drawn_as_open(m, span.style),
    ensures
        has_one_more(m, after_event(m, EventView::Text(text)), span),
{
    lemma_inline_style(m);
    assert(span.style == crate::markdown::inline_style(m.styles));
}

/// Text inside a code block goes to the code, and nowhere else.
pub proof fn text_of_code_is_kept(m: MdView, text: Seq<char>)
    requires
        m.in_code,
    ensures
        after_event(m, EventView::Text(text)) == (MdView { code: m.code + text, ..m }),
{
}

/// Text inside an image describes it, and is not shown on the page.
pub proof fn text_of_images_describes_them(m: MdView, text: Seq<char>)
    requires
        !m.in_code,
        m.styles.len() > 0,
        m.styles.last() is Image,
    ensures
        ({
            let n = after_event(m, EventView::Text(text));
            &&& n == (MdView { styles: n.styles, ..m })
            &&& n.styles.len() == m.styles.len()
            &&& n.styles.drop_last() == m.styles.drop_last()
            &&& n.styles.last() is Image
            &&& n.styles.last()->alt == m.styles.last()->alt + text
            &&& n.styles.last()->Image_url == m.styles.last()->Image_url
        }),
{
    let n = after_event(m, EventView::Text(text));
    assert(n.styles.drop_last() =~= m.styles.drop_last());
}

/// Code inside a paragraph is one more gray span, a line break in the source is a
/// space, and the box of a task shows whether it is done.
pub proof fn inline_marks_are_spans(m: MdView, text: Seq<char>, style: Style, bare: Style)
    requires
        is_gray(style),
        is_bare(bare),
    ensures
        has_one_more(
            m,
            after_event(m, EventView::Code(text)),
            SpanView { content: text, style },
        ),
        has_one_more(
            m,
            after_event(m, EventView::SoftBreak),
            SpanView { content: seq![' '], style: bare },
        ),
        has_one_more(
            m,
            after_event(m, EventView::TaskListMarker(false)),
            SpanView { content: seq!['[', ' ', ']', ' '], style },
        ),
        has_one_more(
            m,
            after_event(m, EventView::TaskListMarker(true)),
            SpanView {
                content: seq!['[', 'x', ']', ' '],
                style: Style { fg: Some(Color::Green), ..bare },
            },
        ),
{
    reveal_strlit(" ");
    reveal_strlit("[ ] ");
    reveal_strlit("[x] ");
    assert(" "@ =~= seq![' ']);
    assert("[ ] "@ =~= seq!['[', ' ', ']', ' ']);
    assert("[x] "@ =~= seq!['[', 'x', ']', ' ']);
}

/// The start of an inline element opens it inside those that are open, and changes
/// nothing else.
pub proof fn inline_starts_open_elements(m: MdView, url: Seq<char>)
    ensures
        after_event(m, EventView::Start(TagView::Emphasis)) == (MdView {
            styles: m.styles.push(InlineView::Emphasis),
            ..m
        }),
        after_event(m, EventView::Start(TagView::Strong)) == (MdView {
            styles: m.styles.push(InlineView::Strong),
            ..m
        }),
        after_event(m, EventView::Start(TagView::Strikethrough)) == (MdView {
            styles: m.styles.push(InlineView::Strike),
            ..m
        }),
        ({
            let n = after_event(m, EventView::Start(TagView::Link(url)));
            &&& n == (MdView { styles: n.styles, ..m })
            &&& n.styles.len() == m.styles.len() + 1
            &&& n.styles.drop_last() == m.styles
            &&& n.styles.last() is Link
            &&& n.styles.last()->Link_url == url
            &&& n.styles.last()->start == if m.cell is Some {
                m.cell->0.len()
            } else {
                m.buf.len()
            }
        }),
        ({
            let n = after_event(m, EventView::Start(TagView::Image(url)));
            &&& n == (MdView { styles: n.styles, ..m })
            &&& n.styles.len() == m.styles.len() + 1
            &&& n.styles.drop_last() == m.styles
            &&& n.styles.last() is Image
            &&& n.styles.last()->Image_url == url
            &&& n.styles.last()->alt.len() == 0
        }),
{
    let link = after_event(m, EventView::Start(TagView::Link(url)));
    assert(link.styles.drop_last() =~= m.styles);
    let image = after_event(m, EventView::Start(TagView::Image(url)));
    assert(image.styles.drop_last() =~= m.styles);
}

/// The end of an inline element closes the innermost one, and changes nothing else.
pub proof fn inline_ends_close_elements(m: MdView, end: MdTagEnd)
    requires
        end == MdTagEnd::Emphasis || end == MdTagEnd::Strong || end == MdTagEnd::Strikethrough,
    ensures
        m.styles.len() == 0 ==> after_event(m, EventView::End(end)) == m,
        m.styles.len() > 0 ==> after_event(m, EventView::End(end)) == (MdView {
            styles: m.styles.drop_last(),
            ..m
        }),
{
}

/// The end of a link shows its address behind its text, wherever the link started,
/// but for a link whose text is its address.
pub proof fn links_end_with_their_address(
    m: MdView,
    before: Seq<SpanView>,
    text: Seq<SpanView>,
    style: Style,
)
    requires
        m.styles.len() > 0,
        m.styles.last() is Link,
        m.styles.last()->start == before.len(),
        m.cell is Some ==> m.cell->0 == before + text,
        m.cell is None ==> m.buf == before + text,
        is_gray(style),
    ensures
        ({
            let url = m.styles.last()->Link_url;
            let closed = MdView { styles: m.styles.drop_last(), ..m };
            let n = after_event(m, EventView::End(MdTagEnd::Link));
            &&& spans_text(text) == url ==> n == closed
            &&& spans_text(text) != url ==> has_one_more(
                closed,
                n,
                SpanView { content: seq![' ', '('] + url + seq![')'], style },
            )
        }),
{
    reveal_strlit(" (");
    reveal_strlit(")");
    assert(" ("@ =~= seq![' ', '(']);
    assert(")"@ =~= seq![')']);
    assert((before + text).skip(before.len() as int) =~= text);
}

/// The end of a link that is not open closes the innermost element, as other ends do.
pub proof fn stray_link_ends_close_elements(m: MdView)
    requires
        m.styles.len() > 0 ==> m.styles.last() !is Link,
    ensures
        m.styles.len() == 0 ==> after_event(m, EventView::End(MdTagEnd::Link)) == m,
        m.styles.len() > 0 ==> after_event(m, EventView::End(MdTagEnd::Link)) == (MdView {
            styles: m.styles.drop_last(),
            ..m
        }),
{
}

} // verus!
