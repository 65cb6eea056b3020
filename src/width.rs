//! Display widths of characters and strings, as the `unicode-width` tables give them.
use unicode_width::{UnicodeWidthChar, UnicodeWidthStr};
use vstd::prelude::*;

verus! {

/// The column count that `unicode-width` gives a string.
pub uninterp spec fn str_columns(s: Seq<char>) -> usize;

/// The column count that `unicode-width` gives a single character (`None` for controls).
pub uninterp spec fn char_columns(c: char) -> Option<usize>;

/// Relies on `UnicodeWidthStr::width`: the string's display width, which depends on its
/// characters alone; a fold over no characters gives 0.
#[verifier::external_body]
pub(crate) fn str_width(s: &str) -> (r: usize)
    ensures
        r == str_columns(s@),
        s@.len() == 0 ==> r == 0,
{
    UnicodeWidthStr::width(s)
}

/// Columns of one character, a control character counting 0.
pub open spec fn char_cols(c: char) -> int {
    match char_columns(c) {
        Some(n) => n as int,
        None => 0,
    }
}

/// Relies on `UnicodeWidthChar::width`: a table lookup on the character alone; printable
/// ASCII is one column and the codes below a space are controls.
#[verifier::external_body]
pub(crate) fn char_width(c: char) -> (r: Option<usize>)
    ensures
        r == char_columns(c),
        ' ' <= c < '\u{7F}' ==> r == Some(1usize),
        c < ' ' ==> r is None,
{
    UnicodeWidthChar::width(c)
}

} // verus!
