use gritql::text::trim_chars;

#[test]
fn whitespace_matches_the_standard_library_on_every_char() {
    for code in 0u32..=0x10FFFF {
        if let Some(c) = char::from_u32(code) {
            let trimmed = trim_chars(&vec![c]);
            assert_eq!(trimmed.is_empty(), c.is_whitespace(), "U+{:04X}", code);
        }
    }
}

#[test]
fn trim_drops_unicode_spaces_at_both_ends() {
    let s: Vec<char> = "\u{3000}\t a b\u{2028}\u{85}".chars().collect();
    assert_eq!(trim_chars(&s), vec!['a', ' ', 'b']);
    let s: Vec<char> = "\u{200B}x".chars().collect();
    assert_eq!(trim_chars(&s), s);
}
