use mdrender::markdown::slugify;
use mdrender::text::is_whitespace;

#[test]
fn whitespace_matches_std_everywhere() {
    for code in 0u32..=0x10FFFF {
        if let Some(c) = char::from_u32(code) {
            assert_eq!(is_whitespace(c), c.is_whitespace(), "U+{:04X}", code);
        }
    }
}

#[test]
fn unicode_spaces_separate_words() {
    assert_eq!(slugify("a\u{3000}b\u{a0}c"), "a-b-c");
    assert_eq!(slugify("x\u{200b}y"), "xy");
}
