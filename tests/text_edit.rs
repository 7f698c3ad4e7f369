use kak_lsp::edit::{AnnotatedTextEdit, OneOf, Position, Range, TextEdit};
use kak_lsp::offset::OffsetEncoding;
use kak_lsp::patch::PatchError;
use kak_lsp::script::{apply_text_edits_to_buffer, buffer_command};
use kak_lsp::text::Text;

fn edit(
    start_line: u32,
    start_character: u32,
    end_line: u32,
    end_character: u32,
    new_text: &str,
) -> OneOf<TextEdit, AnnotatedTextEdit> {
    OneOf::Left(TextEdit {
        range: Range {
            start: Position {
                line: start_line,
                character: start_character,
            },
            end: Position {
                line: end_line,
                character: end_character,
            },
        },
        new_text: new_text.to_string(),
    })
}

#[test]
pub fn apply_text_edits_to_buffer_issue_521() {
    let text_edits = vec![
        edit(0, 4, 0, 7, "std"),
        edit(0, 7, 0, 9, ""),
        edit(0, 9, 0, 12, ""),
        edit(0, 14, 0, 21, "ffi"),
        edit(0, 21, 0, 21, "::"),
        edit(0, 21, 0, 21, "{CStr, CString}"),
    ];
    let buffer = Text::from_str("use std::ffi::CString;");
    let result =
        apply_text_edits_to_buffer(&None, None, text_edits, &buffer, OffsetEncoding::Utf8);
    let expected = [
        "eval -draft -save-regs ^ 'select 1.5,1.12 1.15,1.21\n",
        "exec -save-regs \"\" Z\n",
        "exec \"z<space>\"\n",
        "lsp-replace-selection ''std''\n",
        "exec \"z1)<space>\"\n",
        "lsp-replace-selection ''ffi::{CStr, CString}'''"
    ].concat()
    .to_string();
    assert_eq!(result, Some(expected));
}

#[test]
pub fn apply_text_edits_to_buffer_insert_adjacent_to_replace() {
    let text_edits = vec![edit(0, 1, 0, 1, "inserted"), edit(0, 2, 0, 3, "replaced")];
    let buffer = Text::from_str("0123");
    let result =
        apply_text_edits_to_buffer(&None, None, text_edits, &buffer, OffsetEncoding::Utf8);
    let expected = [
        "eval -draft -save-regs ^ 'select 1.2,1.2 1.3,1.3\n",
        "exec -save-regs \"\" Z\n",
        "exec \"z<space>\"\n",
        "lsp-insert-before-selection ''inserted''\n",
        "exec \"z1)<space>\"\n",
        "lsp-replace-selection ''replaced'''"
    ].concat()
    .to_string();
    assert_eq!(result, Some(expected));
}

#[test]
pub fn apply_text_edits_to_buffer_issue_527() {
    let text_edits = vec![
        edit(0, 4, 0, 9, "if"),
        edit(0, 10, 0, 13, "let"),
        edit(0, 13, 0, 13, " "),
        edit(0, 13, 0, 13, "Test::Foo"),
        edit(0, 13, 0, 13, " "),
        edit(0, 13, 0, 13, "="),
        edit(0, 13, 0, 13, " "),
        edit(0, 13, 0, 13, "foo"),
        edit(1, 8, 1, 12, "println"),
        edit(1, 12, 1, 14, ""),
    ];

    let buffer = Text::from_str(
        "    match foo {
        Test::Foo => println!(\"foo\"),
        _ => {}
    }",
    );
    let result =
        apply_text_edits_to_buffer(&None, None, text_edits, &buffer, OffsetEncoding::Utf8);
    let expected = [
        "eval -draft -save-regs ^ 'select 1.5,1.9 1.11,1.13 2.9,2.14\n",
        "exec -save-regs \"\" Z\n",
        "exec \"z<space>\"\n",
        "lsp-replace-selection ''if''\n",
        "exec \"z1)<space>\"\n",
        "lsp-replace-selection ''let Test::Foo = foo''\n",
        "exec \"z2)<space>\"\n",
        "lsp-replace-selection ''println'''"
    ].concat()
    .to_string();
    assert_eq!(result, Some(expected));
}

#[test]
pub fn apply_text_edits_to_buffer_merge_imports() {
    let text_edits = vec![
            edit(0, 4, 0, 7, "std"),
            edit(0, 7, 0, 9, ""),
            edit(0, 9, 0, 13, ""),
            edit(0, 13, 0, 15, ""),
            edit(0, 15, 0, 19, ""),
            edit(0, 19, 0, 19, "::"),
            edit(0, 19, 0, 19, "{path::Path, process::Stdio}"),
            edit(1, 0, 1, 24, "\n"),
            edit(1, 24, 1, 24, "fn main() {\n    let matches = App::new(\"kak-lsp\").get_matches();\n\n    if matches.is_present(\"kakoune\") {}\n}"),
            edit(3, 3, 3, 7, "kakoune"),
            edit(4, 8, 4, 15, "script"),
            edit(4, 15, 4, 15, ":"),
            edit(4, 16, 4, 16, "&str"),
            edit(4, 16, 4, 16, " "),
            edit(4, 18, 4, 21, "include_str"),
            edit(4, 21, 4, 23, ""),
            edit(4, 23, 4, 26, ""),
            edit(4, 26, 4, 37, ""),
            edit(4, 37, 4, 38, "!"),
            edit(4, 38, 4, 49, "("),
            edit(4, 49, 4, 49, "\"../rc/lsp.kak\""),
            edit(4, 49, 4, 49, ")"),
            edit(4, 49, 4, 51, ""),
            edit(4, 52, 6, 4, "\n    "),
            edit(6, 4, 6, 6, "let"),
            edit(6, 7, 6, 14, "args"),
            edit(6, 14, 6, 15, ""),
            edit(6, 15, 6, 25, ""),
            edit(6, 25, 6, 36, ""),
            edit(6, 37, 6, 39, "="),
            edit(6, 39, 6, 39, " "),
            edit(6, 39, 6, 39, "env::args().skip(1)"),
            edit(6, 39, 6, 39, ";"),
            edit(7, 1, 9, 0, "\n"),
            edit(9, 0, 12, 1, ""),
            edit(12, 1, 13, 0, ""),
    ];
    let buffer = Text::from_str(&[
        "use std::path::Path;\n",
        "use std::process::Stdio;\n",
        "\n",
        "fn main() {\n",
        "    let matches = App::new(\"kak-lsp\").get_matches();\n",
        "\n",
        "    if matches.is_present(\"kakoune\") {}\n",
        "}\n",
        "\n",
        "fn kakoune() {\n",
        "    let script: &str = include_str!(\"../rc/lsp.kak\");\n",
        "    let args = env::args().skip(1);\n",
        "}\n"
    ].concat());
    let result =
        apply_text_edits_to_buffer(&None, None, text_edits, &buffer, OffsetEncoding::Utf8);

    let expected = [
        "eval -draft -save-regs ^ 'select 1.5,1.19 2.1,2.24 4.4,4.7 5.9,5.15 5.17,5.17 5.19,5.51 5.53,7.6 7.8,7.36 7.38,7.39 8.2,13.1000000\n",
        "exec -save-regs \"\" Z\n",
        "exec \"z<space>\"\n",
        "lsp-replace-selection ''std::{path::Path, process::Stdio}''\n",
        "exec \"z1)<space>\"\n",
        "lsp-replace-selection ''\n",
        "fn main() {\n",
        "    let matches = App::new(\"kak-lsp\").get_matches();\n",
        "\n",
        "    if matches.is_present(\"kakoune\") {}\n",
        "}''\n",
        "exec \"z2)<space>\"\n",
        "lsp-replace-selection ''kakoune''\n",
        "exec \"z3)<space>\"\n",
        "lsp-replace-selection ''script:''\n",
        "exec \"z4)<space>\"\n",
        "lsp-insert-before-selection ''&str ''\n",
        "exec \"z5)<space>\"\n",
        "lsp-replace-selection ''include_str!(\"../rc/lsp.kak\")''\n",
        "exec \"z6)<space>\"\n",
        "lsp-replace-selection ''\n",
        "    let''\n",
        "exec \"z7)<space>\"\n",
        "lsp-replace-selection ''args''\n",
        "exec \"z8)<space>\"\n",
        "lsp-replace-selection ''= env::args().skip(1);''\n",
        "exec \"z9)<space>\"\n",
        "lsp-replace-selection ''\n",
        "'''"
    ].concat()
    .to_string();
    assert_eq!(result, Some(expected));
}

#[test]
fn empty_edit_list_gives_nop() {
    let buffer = Text::from_str("abc");
    let edits: Vec<TextEdit> = vec![];
    assert_eq!(
        buffer_command(&None, None, edits, &buffer, OffsetEncoding::Utf8),
        Ok("nop".to_string())
    );
    let edits: Vec<TextEdit> = vec![];
    assert_eq!(
        apply_text_edits_to_buffer(&None, None, edits, &buffer, OffsetEncoding::Utf8),
        None
    );
}

#[test]
fn nonempty_edit_list_command_is_the_script() {
    let buffer = Text::from_str("abc");
    let command = buffer_command(&None, None, vec![edit(0, 0, 0, 1, "x")], &buffer, OffsetEncoding::Utf8);
    assert_eq!(
        command,
        Ok("eval -draft -save-regs ^ 'select 1.1,1.1\nexec -save-regs \"\" Z\nexec \"z<space>\"\nlsp-replace-selection ''x'''".to_string())
    );
}

#[test]
fn buffer_command_rejects_line_past_end() {
    let buffer = Text::from_str("abc");
    let command = buffer_command(&None, None, vec![edit(0, 0, 1, 0, "x")], &buffer, OffsetEncoding::Utf8);
    assert_eq!(command, Err(PatchError::RangeOutOfBounds));
}

#[test]
fn equal_ranges_keep_input_order() {
    let buffer = Text::from_str("abc");
    let result = apply_text_edits_to_buffer(
        &None,
        None,
        vec![edit(0, 1, 0, 1, "first"), edit(0, 1, 0, 1, "second")],
        &buffer,
        OffsetEncoding::Utf8,
    );
    assert_eq!(
        result,
        Some("eval -draft -save-regs ^ 'select 1.2,1.2\nexec -save-regs \"\" Z\nexec \"z<space>\"\nlsp-insert-before-selection ''firstsecond'''".to_string())
    );
}

#[test]
fn unsorted_edits_are_sorted_first() {
    let buffer = Text::from_str("abcdef");
    let result = apply_text_edits_to_buffer(
        &None,
        None,
        vec![edit(0, 4, 0, 5, "E"), edit(0, 0, 0, 1, "A")],
        &buffer,
        OffsetEncoding::Utf8,
    );
    assert_eq!(
        result,
        Some("eval -draft -save-regs ^ 'select 1.1,1.1 1.5,1.5\nexec -save-regs \"\" Z\nexec \"z<space>\"\nlsp-replace-selection ''A''\nexec \"z1)<space>\"\nlsp-replace-selection ''E'''".to_string())
    );
}

#[test]
fn adjacent_edits_are_merged() {
    let buffer = Text::from_str("abcdef");
    let result = apply_text_edits_to_buffer(
        &None,
        None,
        vec![edit(0, 1, 0, 2, "X"), edit(0, 2, 0, 4, "YZ")],
        &buffer,
        OffsetEncoding::Utf8,
    );
    assert_eq!(
        result,
        Some("eval -draft -save-regs ^ 'select 1.2,1.4\nexec -save-regs \"\" Z\nexec \"z<space>\"\nlsp-replace-selection ''XYZ'''".to_string())
    );
}

#[test]
fn redundant_single_line_edit_is_dropped() {
    let buffer = Text::from_str("abc");
    let result = apply_text_edits_to_buffer(
        &None,
        None,
        vec![edit(0, 0, 0, 1, "a")],
        &buffer,
        OffsetEncoding::Utf8,
    );
    assert_eq!(result, Some("eval -draft -save-regs ^ ''".to_string()));
}

#[test]
fn identical_multi_line_edit_is_kept() {
    let buffer = Text::from_str("ab\ncd");
    let result = apply_text_edits_to_buffer(
        &None,
        None,
        vec![edit(0, 1, 1, 1, "b\nc")],
        &buffer,
        OffsetEncoding::Utf8,
    );
    assert_eq!(
        result,
        Some("eval -draft -save-regs ^ 'select 1.2,2.1\nexec -save-regs \"\" Z\nexec \"z<space>\"\nlsp-replace-selection ''b\nc'''".to_string())
    );
}

#[test]
fn quotes_in_text_are_doubled() {
    let buffer = Text::from_str("abc");
    let result = apply_text_edits_to_buffer(
        &None,
        None,
        vec![edit(0, 0, 0, 1, "'")],
        &buffer,
        OffsetEncoding::Utf8,
    );
    assert_eq!(
        result,
        Some("eval -draft -save-regs ^ 'select 1.1,1.1\nexec -save-regs \"\" Z\nexec \"z<space>\"\nlsp-replace-selection '''''''''".to_string())
    );
}

#[test]
fn utf16_columns_count_characters() {
    let buffer = Text::from_str("h\u{e9}llo");
    let result = apply_text_edits_to_buffer(
        &None,
        None,
        vec![edit(0, 2, 0, 3, "L")],
        &buffer,
        OffsetEncoding::Utf16,
    );
    assert_eq!(
        result,
        Some("eval -draft -save-regs ^ 'select 1.4,1.4\nexec -save-regs \"\" Z\nexec \"z<space>\"\nlsp-replace-selection ''L'''".to_string())
    );
}

#[test]
fn column_past_line_end_counts_as_zero_in_buffers() {
    let buffer = Text::from_str("ab\ncd");
    let result = apply_text_edits_to_buffer(
        &None,
        None,
        vec![edit(0, 9, 1, 1, "x")],
        &buffer,
        OffsetEncoding::Utf8,
    );
    assert_eq!(
        result,
        Some("eval -draft -save-regs ^ 'select 1.1,2.1\nexec -save-regs \"\" Z\nexec \"z<space>\"\nlsp-replace-selection ''x'''".to_string())
    );
}

#[test]
fn client_and_file_wrap_the_script() {
    let buffer = Text::from_str("abc");
    let uri = lsp_types::Url::parse("file:///tmp/a.rs").unwrap();
    let result = apply_text_edits_to_buffer(
        &Some("client0".to_string()),
        Some(&uri),
        vec![edit(0, 0, 0, 1, "x")],
        &buffer,
        OffsetEncoding::Utf8,
    );
    assert_eq!(
        result,
        Some("eval -client client0 -draft -save-regs ^ 'edit -existing -- ''/tmp/a.rs''\nselect 1.1,1.1\nexec -save-regs \"\" Z\nexec \"z<space>\"\nlsp-replace-selection ''x'''".to_string())
    );
}

#[test]
fn file_without_client_runs_in_its_buffer() {
    let buffer = Text::from_str("abc");
    let uri = lsp_types::Url::parse("file:///tmp/a.rs").unwrap();
    let result = apply_text_edits_to_buffer(
        &None,
        Some(&uri),
        vec![OneOf::Right(AnnotatedTextEdit {
            text_edit: TextEdit {
                range: Range {
                    start: Position { line: 0, character: 0 },
                    end: Position { line: 0, character: 1 },
                },
                new_text: "x".to_string(),
            },
            annotation_id: "note".to_string(),
        })],
        &buffer,
        OffsetEncoding::Utf8,
    );
    assert_eq!(
        result,
        Some("eval -buffer '/tmp/a.rs' -save-regs ^ 'select 1.1,1.1\nexec -save-regs \"\" Z\nexec \"z<space>\"\nlsp-replace-selection ''x'''".to_string())
    );
}
