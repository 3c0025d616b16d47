use clonehero_maker::text::{char_is_control, char_is_whitespace, trim};

#[test]
fn char_classes_match_std_on_every_char() {
    for u in 0..=0x10FFFFu32 {
        if let Some(c) = char::from_u32(u) {
            assert_eq!(char_is_whitespace(c), c.is_whitespace(), "{u:#x}");
            assert_eq!(char_is_control(c), c.is_control(), "{u:#x}");
        }
    }
}

#[test]
fn trim_matches_std() {
    for s in ["  a b  ", "\u{85}x\u{3000}", "", "   ", "\u{200B}z", "\tq\n"] {
        assert_eq!(trim(s), s.trim(), "{s:?}");
    }
}
