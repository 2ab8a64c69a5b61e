//! What layout decides apart from geometry: the kind of box a node becomes,
//! and the character classes by which the font metrics size a glyph (each
//! class has its own advance, as a fraction of the font size).
use vstd::prelude::*;
use crate::hb_css::cascade::Display;

verus! {

/// The kinds of layout box.
#[derive(Debug, Clone, Copy, PartialEq, Eq, Structural)]
pub enum BoxKind {
    Block,
    InlineText,
    Anonymous,
    Document,
}

/// The box a node is laid out as: a text node is a run of inline text; an
/// element that is not displayed leaves an empty anonymous box; any other
/// element is a block holding its children's boxes.
pub fn box_kind(is_text: bool, display: Display) -> (r: BoxKind)
    ensures
        r == (if is_text {
            BoxKind::InlineText
        } else if display is Hidden {
            BoxKind::Anonymous
        } else {
            BoxKind::Block
        }),
{
    if is_text {
        BoxKind::InlineText
    } else {
        match display {
            Display::Hidden => BoxKind::Anonymous,
            _ => BoxKind::Block,
        }
    }
}

#[derive(Debug, Clone, Copy, PartialEq, Eq, Structural)]
pub enum AdvanceClass {
    Space,
    Punctuation,
    Ascii,
    Other,
}

/// `char::is_ascii_whitespace`: space, tab, line feed, form feed, carriage
/// return.
pub open spec fn is_ascii_ws(c: char) -> bool {
    c == ' ' || c == '\t' || c == '\n' || c == '\x0C' || c == '\r'
}

/// `char::is_ascii_punctuation`: the printable ASCII characters that are
/// neither letters, digits nor space.
pub open spec fn is_ascii_punct(c: char) -> bool {
    ||| ('!' <= c && c <= '/')
    ||| (':' <= c && c <= '@')
    ||| ('[' <= c && c <= '`')
    ||| ('{' <= c && c <= '~')
}

pub open spec fn advance_class(c: char) -> AdvanceClass {
    if is_ascii_ws(c) {
        AdvanceClass::Space
    } else if is_ascii_punct(c) {
        AdvanceClass::Punctuation
    } else if (c as u32) < 0x80 {
        AdvanceClass::Ascii
    } else {
        AdvanceClass::Other
    }
}

/// The class of `c`: ASCII whitespace, then ASCII punctuation, then any
/// other ASCII character, then everything else.
pub fn classify(c: char) -> (r: AdvanceClass)
    ensures
        r == advance_class(c),
{
    if c == ' ' || c == '\t' || c == '\n' || c == '\x0C' || c == '\r' {
        AdvanceClass::Space
    } else if ('!' <= c && c <= '/') || (':' <= c && c <= '@') || ('[' <= c && c <= '`') || ('{'
        <= c && c <= '~') {
        AdvanceClass::Punctuation
    } else if (c as u32) < 0x80 {
        AdvanceClass::Ascii
    } else {
        AdvanceClass::Other
    }
}

} // verus!
