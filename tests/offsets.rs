use kak_lsp::offset::{character_to_offset, offset_to_character, OffsetEncoding};
use kak_lsp::text::Text;

#[test]
fn lines_split_after_newlines() {
    let text = Text::from_str("ab\ncd\n");
    assert_eq!(text.len_lines(), 3);
    assert_eq!(text.line_to_byte(0), 0);
    assert_eq!(text.line_to_byte(1), 3);
    assert_eq!(text.line_to_byte(2), 6);
    assert_eq!(text.line_end(1), 6);
    assert_eq!(text.len_bytes(), 6);
}

#[test]
fn utf8_columns_are_bytes() {
    let text = Text::from_str("h\u{e9}llo\nx");
    assert_eq!(character_to_offset(OffsetEncoding::Utf8, &text, 0, 3), Some(3));
    assert_eq!(character_to_offset(OffsetEncoding::Utf8, &text, 0, 7), Some(7));
    assert_eq!(character_to_offset(OffsetEncoding::Utf8, &text, 0, 8), None);
    assert_eq!(offset_to_character(OffsetEncoding::Utf8, &text, 1, 1), Some(1));
    assert_eq!(offset_to_character(OffsetEncoding::Utf8, &text, 1, 2), None);
}

#[test]
fn utf16_columns_are_characters() {
    let text = Text::from_str("h\u{e9}llo\nx");
    assert_eq!(character_to_offset(OffsetEncoding::Utf16, &text, 0, 2), Some(3));
    assert_eq!(character_to_offset(OffsetEncoding::Utf16, &text, 0, 6), Some(7));
    assert_eq!(character_to_offset(OffsetEncoding::Utf16, &text, 0, 7), None);
    assert_eq!(offset_to_character(OffsetEncoding::Utf16, &text, 0, 3), Some(2));
    assert_eq!(offset_to_character(OffsetEncoding::Utf16, &text, 0, 8), None);
}

#[test]
fn every_unicode_line_break_starts_a_line() {
    let text = Text::from_str("a\rb\r\nc\u{2028}d\u{85}e\u{b}f\u{c}g\u{2029}");
    assert_eq!(text.len_lines(), 8);
    let starts: Vec<usize> = (0..8).map(|i| text.line_to_byte(i)).collect();
    assert_eq!(starts, vec![0, 2, 5, 9, 12, 14, 16, 20]);
    assert_eq!(text.line_end(2), 9);
}

#[test]
fn crlf_is_one_break() {
    let text = Text::from_str("x\r\ny");
    assert_eq!(text.len_lines(), 2);
    assert_eq!(text.line_to_byte(1), 3);
}
