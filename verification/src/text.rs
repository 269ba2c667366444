//! White space, which separates words and shows nothing.

use vstd::prelude::*;

verus! {

/// `c` has the property `White_Space`.
pub open spec fn white(c: char) -> bool {
    let point = c as int;
    ||| 0x09 <= point <= 0x0d
    ||| point == 0x20
    ||| point == 0x85
    ||| point == 0xa0
    ||| point == 0x1680
    ||| 0x2000 <= point <= 0x200a
    ||| point == 0x2028
    ||| point == 0x2029
    ||| point == 0x202f
    ||| point == 0x205f
    ||| point == 0x3000
}

/// All of `text` is white space.
pub open spec fn blank(text: Seq<char>) -> bool {
    forall|i: int| 0 <= i < text.len() ==> white(#[trigger] text[i])
}

/// Whether `c` is white space.
pub fn is_white(c: char) -> (yes: bool)
    ensures
        yes == white(c),
{
    let point: u32 = c as u32;
    (0x09 <= point && point <= 0x0d) || point == 0x20 || point == 0x85 || point == 0xa0 || point == 0x1680 || (0x2000 <= point
        && point <= 0x200a) || point == 0x2028 || point == 0x2029 || point == 0x202f || point == 0x205f || point == 0x3000
}

/// Whether nothing is left of `text` without its white space.
pub fn is_blank(text: &str) -> (yes: bool)
    ensures
        yes == blank(text@),
{
    let len = text.unicode_len();
    let mut at: usize = 0;
    while at < len
        invariant
            at <= len,
            len == text@.len(),
            forall|i: int| 0 <= i < at ==> white(#[trigger] text@[i]),
        decreases len - at,
    {
        if !is_white(text.get_char(at)) {
            return false;
        }
        at = at + 1;
    }
    true
}

/// The characters that are white space: the controls from a tab to a carriage return, the
/// space, the next line, the spaces that do not break and the ones of a fixed width, and what
/// separates lines and paragraphs. No letter, digit or mark is.
pub proof fn white_space_is_what_shows_nothing(c: char)
    ensures
        white(c) <==> {
            ||| c == '\t' || c == '\n' || c == '\u{b}' || c == '\u{c}' || c == '\r'
            ||| c == ' ' || c == '\u{85}' || c == '\u{a0}' || c == '\u{1680}'
            ||| '\u{2000}' <= c && c <= '\u{200a}'
            ||| c == '\u{2028}' || c == '\u{2029}' || c == '\u{202f}' || c == '\u{205f}' || c == '\u{3000}'
        },
{
}

} // verus!
