use s3_client::text::{is_whitespace, trimmed};

#[test]
fn white_space_agrees_with_char_is_whitespace_everywhere() {
    for v in 0u32..=0x10FFFF {
        if let Some(c) = char::from_u32(v) {
            assert_eq!(is_whitespace(c), c.is_whitespace(), "U+{:04X}", v);
        }
    }
}

#[test]
fn trimming_removes_unicode_white_space_only() {
    assert_eq!(trimmed("\u{a0}\t bucket \u{2028}"), "bucket");
    assert_eq!(trimmed("\u{200b}x"), "\u{200b}x");
}
