//! Character classes that the scanner distinguishes.

use vstd::prelude::*;

verus! {

/// Whether `c` has the Unicode `White_Space` property.
pub uninterp spec fn unicode_whitespace(c: char) -> bool;

/// Whether `c` is alphabetic or numeric in Unicode's sense.
pub uninterp spec fn unicode_alphanumeric(c: char) -> bool;

/// Specifies `char::is_whitespace`: the answer depends on the character
/// alone and is the Unicode `White_Space` property, which this crate names
/// `unicode_whitespace` without spelling out the table.
pub assume_specification[ char::is_whitespace ](c: char) -> (b: bool)
    ensures
        b == unicode_whitespace(c),
;

/// Specifies `char::is_alphanumeric`: the answer depends on the character
/// alone and is named `unicode_alphanumeric`.
pub assume_specification[ char::is_alphanumeric ](c: char) -> (b: bool)
    ensures
        b == unicode_alphanumeric(c),
;

/// A character that may occur in a rule name.
pub open spec fn is_ident_char(c: char) -> bool {
    unicode_alphanumeric(c) || c == '_'
}

/// Decides `is_ident_char`.
pub fn ident_char(c: char) -> (b: bool)
    ensures
        b == is_ident_char(c),
{
    c.is_alphanumeric() || c == '_'
}

} // verus!
