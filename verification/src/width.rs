//! How many terminal columns characters and texts take.
//!
//! Single characters are measured by the crate `unicode_width`, texts by the
//! spans of `ratatui`. The two can differ: an emoji sequence is not as wide as
//! the sum of its characters. On plain text they agree.

use unicode_width::UnicodeWidthChar;
use vstd::prelude::*;

verus! {

/// Characters that take one column on their own and do not join with their
/// neighbours: printable ASCII, the Latin blocks, Greek, the first part of the
/// Cyrillic block, and the box drawing characters.
pub open spec fn is_narrow(c: char) -> bool {
    ||| ' ' <= c <= '~'
    ||| '\u{ae}' <= c <= '\u{2ff}'
    ||| '\u{370}' <= c <= '\u{482}'
    ||| '\u{2500}' <= c <= '\u{257f}'
}

/// Characters that take two columns on their own and do not join with their
/// neighbours: the CJK unified ideographs.
pub open spec fn is_wide(c: char) -> bool {
    '\u{4e00}' <= c <= '\u{9fff}'
}

/// Text whose width is the sum of the widths of its characters.
pub open spec fn is_plain(text: Seq<char>) -> bool {
    forall|i: int| 0 <= i < text.len() ==> is_narrow(#[trigger] text[i]) || is_wide(text[i])
}

/// What `UnicodeWidthChar::width` answers for a character that is neither
/// narrow nor wide in the sense of this module.
pub uninterp spec fn other_columns(c: char) -> Option<usize>;

/// What `Span::width` answers for a text that is not plain.
pub uninterp spec fn other_text_columns(text: Seq<char>) -> usize;

/// The columns that a character takes, three at most; none for a control character.
pub open spec fn cells(c: char) -> nat {
    if is_narrow(c) {
        1
    } else if is_wide(c) {
        2
    } else {
        match other_columns(c) {
            Some(w) => if w <= 3 {
                w as nat
            } else {
                3
            },
            None => 0,
        }
    }
}

/// The sum of the columns of the characters of a text.
pub open spec fn text_cells(text: Seq<char>) -> nat
    decreases text.len(),
{
    if text.len() == 0 {
        0
    } else {
        text_cells(text.drop_last()) + cells(text.last())
    }
}

/// The columns that a text takes as a whole.
pub open spec fn text_columns(text: Seq<char>) -> nat {
    if is_plain(text) {
        text_cells(text)
    } else {
        other_text_columns(text) as nat
    }
}

/// Whether the widths of the characters of every piece of a text add up to the
/// width of the piece.
pub open spec fn adds_up(text: Seq<char>) -> bool {
    forall|i: int, j: int|
        0 <= i <= j <= text.len() ==> text_columns(#[trigger] text.subrange(i, j)) == text_cells(
            text.subrange(i, j),
        )
}

/// In plain text the widths add up.
pub proof fn plain_text_adds_up(text: Seq<char>)
    requires
        is_plain(text),
    ensures
        adds_up(text),
{
    assert forall|i: int, j: int| 0 <= i <= j <= text.len() implies text_columns(
        #[trigger] text.subrange(i, j),
    ) == text_cells(text.subrange(i, j)) by {
        let piece = text.subrange(i, j);
        assert forall|k: int| 0 <= k < piece.len() implies is_narrow(#[trigger] piece[k])
            || is_wide(piece[k]) by {
            assert(piece[k] == text[i + k]);
        }
    }
}

/// `UnicodeWidthChar::width`: one for the narrow characters, two for the wide
/// ones, and of the others it depends on the character alone. No character takes
/// more than three columns.
#[verifier::external_body]
fn char_width(c: char) -> (r: Option<usize>)
    ensures
        is_narrow(c) ==> r == Some(1usize),
        is_wide(c) ==> r == Some(2usize),
        !is_narrow(c) && !is_wide(c) ==> r == other_columns(c),
        r matches Some(w) ==> w <= 3,
{
    c.width()
}

/// `ratatui::text::Span::width` of an unstyled span: the sum of the widths of
/// the characters for a plain text, and for the others a number that depends on
/// the text alone.
#[verifier::external_body]
pub(crate) fn text_width(text: &str) -> (r: usize)
    ensures
        is_plain(text@) ==> r == text_cells(text@),
        !is_plain(text@) ==> r == other_text_columns(text@),
{
    ratatui::text::Span::raw(text).width()
}

/// The columns that a character takes, with none for a control character.
pub fn char_cells(c: char) -> (r: usize)
    ensures
        r == cells(c),
{
    match char_width(c) {
        Some(w) => w,
        None => 0,
    }
}

/// The width of a concatenation is the sum of the widths.
pub proof fn lemma_cells_concat(a: Seq<char>, b: Seq<char>)
    ensures
        text_cells(a + b) == text_cells(a) + text_cells(b),
    decreases b.len(),
{
    if b.len() == 0 {
        assert(a + b =~= a);
    } else {
        assert((a + b).drop_last() =~= a + b.drop_last());
        lemma_cells_concat(a, b.drop_last());
    }
}

/// A longer beginning of a text is at least as wide.
pub proof fn lemma_cells_take(text: Seq<char>, i: int, j: int)
    requires
        0 <= i <= j <= text.len(),
    ensures
        text_cells(text.take(i)) <= text_cells(text.take(j)),
{
    assert(text.take(j) =~= text.take(i) + text.subrange(i, j));
    lemma_cells_concat(text.take(i), text.subrange(i, j));
}

/// A text of narrow characters is as wide as it is long.
pub proof fn lemma_narrow_cells(text: Seq<char>)
    requires
        forall|i: int| 0 <= i < text.len() ==> is_narrow(#[trigger] text[i]),
    ensures
        is_plain(text),
        text_cells(text) == text.len(),
        text_columns(text) == text.len(),
    decreases text.len(),
{
    if text.len() > 0 {
        lemma_narrow_cells(text.drop_last());
    }
}

} // verus!
