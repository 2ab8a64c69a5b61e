use aevrix::hb_css::cascade::Display;
use aevrix::hb_layout::{box_kind, classify, AdvanceClass, BoxKind};

#[test]
fn characters_fall_into_advance_classes() {
    for c in [' ', '\t', '\n', '\x0C', '\r'] {
        assert_eq!(classify(c), AdvanceClass::Space);
    }
    for c in ['!', '/', ':', '@', '[', '`', '{', '~', '.', ','] {
        assert_eq!(classify(c), AdvanceClass::Punctuation);
    }
    for c in ['a', 'Z', '0', '9', '\x0B', '\x7F', '\0'] {
        assert_eq!(classify(c), AdvanceClass::Ascii);
    }
    for c in ['é', '\u{A0}', '中', '\u{2003}'] {
        assert_eq!(classify(c), AdvanceClass::Other);
    }
}

#[test]
fn classes_agree_with_std() {
    for u in 0u32..0x100 {
        let c = char::from_u32(u).unwrap();
        let expected = if c.is_ascii_whitespace() {
            AdvanceClass::Space
        } else if c.is_ascii_punctuation() {
            AdvanceClass::Punctuation
        } else if c.is_ascii() {
            AdvanceClass::Ascii
        } else {
            AdvanceClass::Other
        };
        assert_eq!(classify(c), expected, "U+{:04X}", u);
    }
}

#[test]
fn nodes_become_boxes_by_kind_and_display() {
    assert_eq!(box_kind(true, Display::Hidden), BoxKind::InlineText);
    assert_eq!(box_kind(true, Display::Block), BoxKind::InlineText);
    assert_eq!(box_kind(false, Display::Hidden), BoxKind::Anonymous);
    assert_eq!(box_kind(false, Display::Block), BoxKind::Block);
    assert_eq!(box_kind(false, Display::Inline), BoxKind::Block);
}
