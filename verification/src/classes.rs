//! The two character classes the grammar speaks of.

use vstd::prelude::*;

verus! {

/// Blank characters: space, tab, line feed, vertical tab, form feed and
/// carriage return. These may precede a marker on its line.
pub open spec fn is_blank(c: char) -> bool {
    c == ' ' || c == '\t' || c == '\n' || c == '\u{b}' || c == '\u{c}' || c == '\r'
}

/// Characters with the Unicode property `White_Space`. These are what
/// trimming removes from both ends of a text.
pub open spec fn is_whitespace(c: char) -> bool {
    ||| '\u{9}' <= c <= '\u{d}'
    ||| c == ' '
    ||| c == '\u{85}'
    ||| c == '\u{a0}'
    ||| c == '\u{1680}'
    ||| '\u{2000}' <= c <= '\u{200a}'
    ||| c == '\u{2028}'
    ||| c == '\u{2029}'
    ||| c == '\u{202f}'
    ||| c == '\u{205f}'
    ||| c == '\u{3000}'
}

/// Tells whether the byte `x` is a blank character.
pub fn blank_byte(x: u8) -> (b: bool)
    ensures
        b == is_blank(x as char),
{
    x == 0x20 || (0x09 <= x && x <= 0x0d)
}

/// Tells whether `c` has the Unicode property `White_Space`.
pub fn whitespace(c: char) -> (b: bool)
    ensures
        b == is_whitespace(c),
{
    ('\u{9}' <= c && c <= '\u{d}') || c == ' ' || c == '\u{85}' || c == '\u{a0}' || c == '\u{1680}'
        || ('\u{2000}' <= c && c <= '\u{200a}') || c == '\u{2028}' || c == '\u{2029}' || c
        == '\u{202f}' || c == '\u{205f}' || c == '\u{3000}'
}

/// Every blank character is whitespace.
pub proof fn lemma_blank_is_whitespace(c: char)
    ensures
        is_blank(c) ==> is_whitespace(c),
{
}

} // verus!
