//! Character classes used by the lexer and the rewriter.
use vstd::prelude::*;

verus! {

/// The Unicode `White_Space` property, which `char::is_whitespace` follows.
pub open spec fn spec_is_whitespace(c: char) -> bool {
    ||| ('\u{9}' <= c && c <= '\u{d}')
    ||| c == ' '
    ||| c == '\u{85}'
    ||| c == '\u{a0}'
    ||| c == '\u{1680}'
    ||| ('\u{2000}' <= c && c <= '\u{200a}')
    ||| c == '\u{2028}'
    ||| c == '\u{2029}'
    ||| c == '\u{202f}'
    ||| c == '\u{205f}'
    ||| c == '\u{3000}'
}

/// Whether `c` is Unicode white space.
pub fn is_whitespace(c: char) -> (r: bool)
    ensures
        r == spec_is_whitespace(c),
{
    ('\u{9}' <= c && c <= '\u{d}') || c == ' ' || c == '\u{85}' || c == '\u{a0}' || c == '\u{1680}'
        || ('\u{2000}' <= c && c <= '\u{200a}') || c == '\u{2028}' || c == '\u{2029}' || c
        == '\u{202f}' || c == '\u{205f}' || c == '\u{3000}'
}

} // verus!

verus! {

/// The Unicode `Alphabetic` property of a character beyond ASCII, which
/// `char::is_alphabetic` reads from Unicode's tables.
pub uninterp spec fn unicode_alphabetic(c: char) -> bool;

/// Whether a character beyond ASCII is in one of the Unicode numeric
/// categories (`Nd`, `Nl`, `No`), which `char::is_numeric` reads from
/// Unicode's tables.
pub uninterp spec fn unicode_numeric(c: char) -> bool;

/// What `char::is_alphabetic` gives: within ASCII, exactly the letters `a`
/// to `z` and `A` to `Z`; beyond it, the Unicode `Alphabetic` property.
pub open spec fn spec_is_alphabetic(c: char) -> bool {
    if c <= '\u{7f}' {
        ('a' <= c && c <= 'z') || ('A' <= c && c <= 'Z')
    } else {
        unicode_alphabetic(c)
    }
}

/// What `char::is_numeric` gives: within ASCII, exactly the digits `0` to
/// `9`; beyond it, the Unicode numeric categories.
pub open spec fn spec_is_numeric(c: char) -> bool {
    if c <= '\u{7f}' {
        '0' <= c && c <= '9'
    } else {
        unicode_numeric(c)
    }
}

/// Calls `char::is_alphabetic`. Its result is the Unicode `Alphabetic`
/// property, which within ASCII holds of the letters and nothing else; the
/// tables beyond ASCII are not written out here, so that part of the result
/// is given the name `unicode_alphabetic`.
#[verifier::external_body]
pub(crate) fn is_alphabetic(c: char) -> (r: bool)
    ensures
        r == if c <= '\u{7f}' {
            ('a' <= c && c <= 'z') || ('A' <= c && c <= 'Z')
        } else {
            unicode_alphabetic(c)
        },
{
    c.is_alphabetic()
}

/// Calls `char::is_numeric`. Its result is whether `c` is in a Unicode
/// numeric category, which within ASCII holds of the digits and nothing
/// else; the tables beyond ASCII are not written out here, so that part of
/// the result is given the name `unicode_numeric`.
#[verifier::external_body]
pub(crate) fn is_numeric(c: char) -> (r: bool)
    ensures
        r == if c <= '\u{7f}' {
            '0' <= c && c <= '9'
        } else {
            unicode_numeric(c)
        },
{
    c.is_numeric()
}

} // verus!
