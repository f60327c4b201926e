//! How wide a text is on a terminal.

use unicode_width::UnicodeWidthStr;
use vstd::prelude::*;

verus! {

/// The number of terminal columns that a text takes.
pub uninterp spec fn text_width(text: Seq<char>) -> usize;

/// `unicode_width::UnicodeWidthStr::width`: the number of terminal columns that
/// a text takes, by the tables of that crate; a function of the text alone.
#[verifier::external_body]
fn display_width(text: &str) -> (w: usize)
    ensures
        w == text_width(text@),
{
    text.width()
}

/// The number of terminal columns that a text takes, in sixteen bits: what is
/// beyond 65535 starts again at 0.
pub open spec fn columns(text: Seq<char>) -> int {
    text_width(text) as int % 65536
}

/// The number of terminal columns that a text takes, in sixteen bits.
pub(crate) fn text_columns(text: &str) -> (w: u16)
    ensures
        w == columns(text@),
{
    (display_width(text) % 65536) as u16
}

/// A text of fewer than 65536 columns takes as many columns as its width says.
pub proof fn texts_take_their_width(text: Seq<char>)
    ensures
        text_width(text) < 65_536 ==> columns(text) == text_width(text),
        0 <= columns(text) < 65_536,
{
}

} // verus!
