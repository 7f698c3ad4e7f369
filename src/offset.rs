//! Conversion between a language-server column and a byte offset in a line.
use vstd::prelude::*;
use crate::text::{line_bytes, line_count, lemma_line_bounds, Text};

verus! {

/// How a language server counts columns.
#[derive(PartialEq, Eq, Structural, Clone, Copy, Debug)]
pub enum OffsetEncoding {
    /// Columns count UTF-8 bytes.
    Utf8,
    /// Columns count characters (UTF-16 approximated by code points).
    Utf16,
}

/// Whether `b` begins a UTF-8 character (it is no continuation byte).
pub open spec fn is_char_start(b: u8) -> bool {
    b < 0x80 || b >= 0xC0
}

/// Number of characters in `s`.
pub open spec fn char_count(s: Seq<u8>) -> nat
    decreases s.len(),
{
    if s.len() == 0 {
        0
    } else {
        (if is_char_start(s[0]) { 1nat } else { 0nat }) + char_count(s.drop_first())
    }
}

/// Byte offset where the character numbered `k` of `s` begins, or the end of
/// `s` when `k` counts all of its characters.
pub open spec fn char_offset(s: Seq<u8>, k: nat) -> int
    decreases s.len(),
{
    if s.len() == 0 {
        0
    } else if is_char_start(s[0]) && k == 0 {
        0
    } else if is_char_start(s[0]) {
        1 + char_offset(s.drop_first(), (k - 1) as nat)
    } else {
        1 + char_offset(s.drop_first(), k)
    }
}

/// Byte offset in `line` of the column `character`, if the column lies within the line.
pub open spec fn column_offset(enc: OffsetEncoding, line: Seq<u8>, character: int) -> Option<int> {
    match enc {
        OffsetEncoding::Utf8 => if 0 <= character <= line.len() {
            Some(character)
        } else {
            None
        },
        OffsetEncoding::Utf16 => if 0 <= character <= char_count(line) {
            Some(char_offset(line, character as nat))
        } else {
            None
        },
    }
}

/// Column of the byte offset `offset` in `line`, if the offset lies within the line.
pub open spec fn offset_column(enc: OffsetEncoding, line: Seq<u8>, offset: int) -> Option<int> {
    if 0 <= offset <= line.len() {
        match enc {
            OffsetEncoding::Utf8 => Some(offset),
            OffsetEncoding::Utf16 => Some(char_count(line.take(offset)) as int),
        }
    } else {
        None
    }
}

/// A character offset never passes the end of the bytes.
pub proof fn lemma_char_offset_bound(s: Seq<u8>, k: nat)
    ensures
        0 <= char_offset(s, k) <= s.len(),
    decreases s.len(),
{
    if s.len() > 0 {
        if is_char_start(s[0]) && k > 0 {
            lemma_char_offset_bound(s.drop_first(), (k - 1) as nat);
        } else if !is_char_start(s[0]) {
            lemma_char_offset_bound(s.drop_first(), k);
        }
    }
}

/// Counting characters splits over a concatenation.
pub proof fn lemma_char_count_add(a: Seq<u8>, b: Seq<u8>)
    ensures
        char_count(a + b) == char_count(a) + char_count(b),
    decreases a.len(),
{
    if a.len() > 0 {
        assert((a + b).drop_first() == a.drop_first() + b);
        lemma_char_count_add(a.drop_first(), b);
    } else {
        assert(a + b == b);
    }
}

/// Forward conversion: the byte offset within line `line` of `text` of the
/// column `character`, or `None` when the column lies past the line's end.
pub fn character_to_offset(enc: OffsetEncoding, text: &Text, line: usize, character: u32) -> (r:
    Option<usize>)
    requires
        line < line_count(text@),
    ensures
        match r {
            Some(o) => column_offset(enc, line_bytes(text@, line as int), character as int) == Some(
                o as int,
            ),
            None => column_offset(enc, line_bytes(text@, line as int), character as int) is None,
        },
{
    let from = text.line_to_byte(line);
    let to = text.line_end(line);
    proof {
        lemma_line_bounds(text@, line as int);
    }
    let ghost seg = line_bytes(text@, line as int);
    match enc {
        OffsetEncoding::Utf8 => {
            if (character as usize) <= to - from {
                Some(character as usize)
            } else {
                None
            }
        },
        OffsetEncoding::Utf16 => {
            let k = character as usize;
            let mut i: usize = from;
            let mut cnt: usize = 0;
            while i < to
                invariant
                    from <= i <= to <= text@.len(),
                    seg == text@.subrange(from as int, to as int),
                    seg == line_bytes(text@, line as int),
                    enc == OffsetEncoding::Utf16,
                    k == character as usize,
                    cnt <= k,
                    char_offset(seg, k as nat) == (i - from) + char_offset(
                        text@.subrange(i as int, to as int),
                        (k - cnt) as nat,
                    ),
                    char_count(seg) == cnt + char_count(text@.subrange(i as int, to as int)),
                decreases to - i,
            {
                let b = text.byte(i);
                let ghost rest = text@.subrange(i as int, to as int);
                assert(rest.drop_first() == text@.subrange(i + 1, to as int));
                assert(rest[0] == b);
                if b < 0x80 || b >= 0xC0 {
                    if cnt == k {
                        assert(char_offset(rest, 0) == 0);
                        return Some(i - from);
                    }
                    cnt = cnt + 1;
                }
                i = i + 1;
            }
            if cnt == k {
                Some(to - from)
            } else {
                None
            }
        },
    }
}

/// Reverse conversion: the column within line `line` of `text` of the byte
/// offset `offset` (counted from the line's start), or `None` when the offset
/// lies past the line's end.
pub fn offset_to_character(enc: OffsetEncoding, text: &Text, line: usize, offset: usize) -> (r:
    Option<usize>)
    requires
        line < line_count(text@),
    ensures
        match r {
            Some(c) => offset_column(enc, line_bytes(text@, line as int), offset as int) == Some(
                c as int,
            ),
            None => offset_column(enc, line_bytes(text@, line as int), offset as int) is None,
        },
{
    let from = text.line_to_byte(line);
    let to = text.line_end(line);
    proof {
        lemma_line_bounds(text@, line as int);
    }
    let ghost seg = line_bytes(text@, line as int);
    if offset > to - from {
        return None;
    }
    match enc {
        OffsetEncoding::Utf8 => Some(offset),
        OffsetEncoding::Utf16 => {
            let mut i: usize = 0;
            let mut cnt: usize = 0;
            while i < offset
                invariant
                    i <= offset <= to - from,
                    from <= to <= text@.len(),
                    seg == text@.subrange(from as int, to as int),
                    enc == OffsetEncoding::Utf16,
                    seg == line_bytes(text@, line as int),
                    cnt <= i,
                    cnt == char_count(seg.take(i as int)),
                decreases offset - i,
            {
                let b = text.byte(from + i);
                proof {
                    assert(seg[i as int] == b);
                    assert(seg.take(i + 1) == seg.take(i as int) + seq![b]);
                    assert(char_count(seq![b].drop_first()) == 0);
                    lemma_char_count_add(seg.take(i as int), seq![b]);
                }
                if b < 0x80 || b >= 0xC0 {
                    cnt = cnt + 1;
                }
                i = i + 1;
            }
            Some(cnt)
        },
    }
}

} // verus!
