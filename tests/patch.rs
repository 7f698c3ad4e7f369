use kak_lsp::edit::{Position, Range, TextEdit};
use kak_lsp::offset::OffsetEncoding;
use kak_lsp::patch::{patch_text, PatchError};
use kak_lsp::text::Text;

fn edit(sl: u32, sc: u32, el: u32, ec: u32, new_text: &str) -> TextEdit {
    TextEdit {
        range: Range {
            start: Position { line: sl, character: sc },
            end: Position { line: el, character: ec },
        },
        new_text: new_text.to_string(),
    }
}

#[test]
fn patch_splices_edits_in_order() {
    let text = Text::from_str("hello world\nsecond line\n");
    let edits = vec![edit(0, 0, 0, 5, "bye"), edit(0, 6, 1, 6, "new"), edit(2, 0, 2, 0, "end")];
    let r = patch_text(&text, edits, OffsetEncoding::Utf8);
    assert_eq!(r, Ok(b"bye new line\nend".to_vec()));
}

#[test]
fn patch_without_edits_keeps_content() {
    let text = Text::from_str("same\n");
    let edits: Vec<TextEdit> = vec![];
    assert_eq!(patch_text(&text, edits, OffsetEncoding::Utf8), Ok(b"same\n".to_vec()));
}

#[test]
fn patch_counts_characters_in_utf16() {
    let text = Text::from_str("h\u{e9}llo");
    let r = patch_text(&text, vec![edit(0, 2, 0, 3, "L")], OffsetEncoding::Utf16);
    assert_eq!(r, Ok("h\u{e9}Llo".as_bytes().to_vec()));
}

#[test]
fn patch_rejects_line_past_end() {
    let text = Text::from_str("one\ntwo");
    let r = patch_text(&text, vec![edit(0, 0, 2, 0, "x")], OffsetEncoding::Utf8);
    assert_eq!(r, Err(PatchError::RangeOutOfBounds));
    assert_eq!(
        PatchError::RangeOutOfBounds.message(),
        "Text edit range extends past end of file."
    );
}

#[test]
fn patch_rejects_column_past_line_end() {
    let text = Text::from_str("one\ntwo");
    let r = patch_text(&text, vec![edit(1, 0, 1, 4, "x")], OffsetEncoding::Utf8);
    assert_eq!(r, Err(PatchError::ColumnOutOfBounds));
}

#[test]
fn patch_rejects_edits_out_of_order() {
    let text = Text::from_str("abcdef");
    let r = patch_text(&text, vec![edit(0, 3, 0, 4, "x"), edit(0, 0, 0, 1, "y")], OffsetEncoding::Utf8);
    assert_eq!(r, Err(PatchError::OutOfOrder));
}

#[test]
fn patch_rounds_byte_column_down_to_character_start() {
    let text = Text::from_str("h\u{e9}llo");
    let r = patch_text(&text, vec![edit(0, 2, 0, 3, "X")], OffsetEncoding::Utf8);
    assert_eq!(r, Ok(b"hXllo".to_vec()));
}

#[test]
fn patch_error_messages() {
    assert_eq!(
        PatchError::ColumnOutOfBounds.message(),
        "Text edit range points past end of line."
    );
    assert_eq!(
        PatchError::OutOfOrder.message(),
        "Text edit range starts before the previous edit ends."
    );
}

#[test]
fn patch_accepts_utf16_column_at_line_end() {
    let text = Text::from_str("ab");
    let r = patch_text(&text, vec![edit(0, 2, 0, 2, "c")], OffsetEncoding::Utf16);
    assert_eq!(r, Ok(b"abc".to_vec()));
}
