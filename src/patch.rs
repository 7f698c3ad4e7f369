//! Applying edits, in the order given, to the whole content of a file.
use vstd::prelude::*;
use vstd::utf8::encode_utf8;
use crate::edit::{edit_models, EditModel, TextEditish};
use crate::offset::{
    character_to_offset, column_offset, is_char_start, lemma_char_offset_bound, OffsetEncoding,
};
use crate::text::{lemma_line_bounds, line_bytes, line_count, line_start, Text};

verus! {

/// Why a list of edits cannot be applied to a file.
#[derive(PartialEq, Eq, Structural, Clone, Copy, Debug)]
pub enum PatchError {
    /// An edit names a line past the end of the file.
    RangeOutOfBounds,
    /// An edit names a column past the end of its line.
    ColumnOutOfBounds,
    /// An edit starts before the end of the edit before it.
    OutOfOrder,
}

/// The description of each error.
pub open spec fn error_message(e: PatchError) -> Seq<char> {
    match e {
        PatchError::RangeOutOfBounds => "Text edit range extends past end of file."@,
        PatchError::ColumnOutOfBounds => "Text edit range points past end of line."@,
        PatchError::OutOfOrder => "Text edit range starts before the previous edit ends."@,
    }
}

impl PatchError {
    /// A description of the error.
    pub fn message(&self) -> (r: &'static str)
        ensures
            r@ == error_message(*self),
    {
        match self {
            PatchError::RangeOutOfBounds => "Text edit range extends past end of file.",
            PatchError::ColumnOutOfBounds => "Text edit range points past end of line.",
            PatchError::OutOfOrder => "Text edit range starts before the previous edit ends.",
        }
    }
}

/// Byte offset in `text` of the column `character` of line `line`, if both exist.
#[verifier::opaque]
pub open spec fn checked_offset(text: Seq<u8>, enc: OffsetEncoding, line: int, character: int) -> Option<int> {
    if line >= line_count(text) {
        None
    } else {
        match column_offset(enc, line_bytes(text, line), character) {
            Some(o) => Some(line_start(text, line) + char_floor(line_bytes(text, line), o)),
            None => None,
        }
    }
}

/// The start of the character that holds byte `c` of `line` (`c` itself when
/// it starts a character or is the end of the line). A column that counts
/// bytes and falls inside a character so moves back to that character's start.
pub open spec fn char_floor(line: Seq<u8>, c: int) -> int
    decreases c,
{
    if c <= 0 || c >= line.len() || is_char_start(line[c]) {
        c
    } else {
        char_floor(line, c - 1)
    }
}

/// Rounding down stays between the line's start and the byte itself.
pub proof fn lemma_char_floor_bound(line: Seq<u8>, c: int)
    requires
        0 <= c,
    ensures
        0 <= char_floor(line, c) <= c,
    decreases c,
{
    if c > 0 && c < line.len() && !is_char_start(line[c]) {
        lemma_char_floor_bound(line, c - 1);
    }
}

/// The output written so far and the offset up to which `text` is consumed,
/// after applying the edits of `s` in order; or the first error.
pub open spec fn patch_state(text: Seq<u8>, enc: OffsetEncoding, s: Seq<EditModel>) -> Result<
    (Seq<u8>, int),
    PatchError,
>
    decreases s.len(),
{
    if s.len() == 0 {
        Ok((Seq::empty(), 0))
    } else {
        match patch_state(text, enc, s.drop_last()) {
            Err(err) => Err(err),
            Ok((out, cursor)) => {
                let e = s.last();
                let so = checked_offset(text, enc, e.range.start.line as int, e.range.start.character as int);
                let eo = checked_offset(text, enc, e.range.end.line as int, e.range.end.character as int);
                if e.range.start.line >= line_count(text) || e.range.end.line >= line_count(text) {
                    Err(PatchError::RangeOutOfBounds)
                } else if so is None || eo is None {
                    Err(PatchError::ColumnOutOfBounds)
                } else if so->0 < cursor {
                    Err(PatchError::OutOfOrder)
                } else {
                    Ok((out + text.subrange(cursor, so->0) + encode_utf8(e.text), eo->0))
                }
            },
        }
    }
}

/// The content of `text` after the edits of `s`, applied left to right.
pub open spec fn patched(text: Seq<u8>, enc: OffsetEncoding, s: Seq<EditModel>) -> Result<Seq<u8>, PatchError> {
    match patch_state(text, enc, s) {
        Ok((out, cursor)) => Ok(out + text.subrange(cursor, text.len() as int)),
        Err(err) => Err(err),
    }
}

/// A checked offset lies within the text.
pub proof fn lemma_offset_bound(text: Seq<u8>, enc: OffsetEncoding, line: int, character: int)
    requires
        0 <= line < line_count(text),
    ensures
        checked_offset(text, enc, line, character) is Some ==> line_start(text, line)
            <= checked_offset(text, enc, line, character)->0 <= text.len(),
{
    reveal(checked_offset);
    lemma_line_bounds(text, line);
    lemma_char_offset_bound(line_bytes(text, line), character as nat);
    if let Some(o) = column_offset(enc, line_bytes(text, line), character) {
        lemma_char_floor_bound(line_bytes(text, line), o);
    }
}

fn checked_offset_exec(text: &Text, enc: OffsetEncoding, line: u32, character: u32) -> (r: Option<usize>)
    requires
        line < line_count(text@),
    ensures
        r matches Some(o) ==> checked_offset(text@, enc, line as int, character as int) == Some(o as int),
        r is None ==> checked_offset(text@, enc, line as int, character as int) is None,
{
    proof {
        reveal(checked_offset);
    }
    let l = line as usize;
    let start = text.line_to_byte(l);
    let end = text.line_end(l);
    proof {
        lemma_line_bounds(text@, l as int);
        lemma_char_offset_bound(line_bytes(text@, l as int), character as nat);
    }
    let ghost seg = line_bytes(text@, l as int);
    match character_to_offset(enc, text, l, character) {
        Some(o) => {
            assert(o <= end - start);
            let mut k: usize = o;
            while k > 0 && k < end - start
                invariant
                    k <= o <= end - start,
                    start <= end <= text@.len(),
                    seg == text@.subrange(start as int, end as int),
                    char_floor(seg, o as int) == char_floor(seg, k as int),
                ensures
                    char_floor(seg, o as int) == k,
                decreases k,
            {
                let b = text.byte(start + k);
                assert(seg[k as int] == b);
                if b < 0x80 || b >= 0xC0 {
                    break;
                }
                k = k - 1;
            }
            Some(start + k)
        },
        None => None,
    }
}

fn push_text_range(out: &mut Vec<u8>, text: &Text, from: usize, to: usize)
    requires
        from <= to <= text@.len(),
    ensures
        final(out)@ == old(out)@ + text@.subrange(from as int, to as int),
{
    let ghost start = out@;
    let mut i: usize = from;
    while i < to
        invariant
            from <= i <= to <= text@.len(),
            out@ == start + text@.subrange(from as int, i as int),
        decreases to - i,
    {
        out.push(text.byte(i));
        i = i + 1;
        assert(out@ =~= start + text@.subrange(from as int, i as int));
    }
}

fn push_bytes(out: &mut Vec<u8>, b: &[u8])
    ensures
        final(out)@ == old(out)@ + b@,
{
    let ghost start = out@;
    let mut i: usize = 0;
    while i < b.len()
        invariant
            i <= b@.len(),
            out@ == start + b@.take(i as int),
        decreases b@.len() - i,
    {
        out.push(b[i]);
        i = i + 1;
        assert(out@ =~= start + b@.take(i as int));
    }
    assert(b@.take(i as int) =~= b@);
}

/// The content of `text` after `text_edits`, applied in the order given: the
/// text before each edit is copied, then the edit's replacement, and the text
/// after the last edit. An edit naming a line or a column that `text` lacks,
/// or starting before the previous edit ends, is an error.
pub fn patch_text<T: TextEditish>(text: &Text, text_edits: Vec<T>, offset_encoding: OffsetEncoding) -> (r: Result<Vec<u8>, PatchError>)
    ensures
        match r {
            Ok(v) => patched(text@, offset_encoding, edit_models(text_edits@)) == Ok::<Seq<u8>, PatchError>(v@),
            Err(err) => patched(text@, offset_encoding, edit_models(text_edits@)) == Err::<Seq<u8>, PatchError>(err),
        },
{
    let ghost input = edit_models(text_edits@);
    let mut rest = text_edits;
    let mut out: Vec<u8> = Vec::new();
    let mut cursor: usize = 0;
    let ghost mut n: int = 0;
    assert(input.take(0) =~= Seq::<EditModel>::empty());
    while rest.len() > 0
        invariant
            0 <= n <= input.len(),
            input.len() == n + rest@.len(),
            forall|i: int| 0 <= i < rest@.len() ==> #[trigger] rest@[i].edit() == input[n + i],
            input == edit_models(text_edits@),
            patch_state(text@, offset_encoding, input.take(n)) == Ok::<(Seq<u8>, int), PatchError>((out@, cursor as int)),
            cursor <= text@.len(),
        decreases rest@.len(),
    {
        let item = rest.remove(0);
        let e = item.as_ref();
        assert(e@ == input[n]);
        assert(input.take(n + 1).drop_last() == input.take(n));
        assert(input.take(n + 1).last() == input[n]);
        let lines = text.len_lines();
        if e.range.start.line as usize >= lines || e.range.end.line as usize >= lines {
            proof {
                lemma_patch_prefix_err(text@, offset_encoding, input, n + 1, PatchError::RangeOutOfBounds);
            }
            return Err(PatchError::RangeOutOfBounds);
        }
        let so = checked_offset_exec(text, offset_encoding, e.range.start.line, e.range.start.character);
        let eo = checked_offset_exec(text, offset_encoding, e.range.end.line, e.range.end.character);
        proof {
            lemma_offset_bound(text@, offset_encoding, e.range.start.line as int, e.range.start.character as int);
            lemma_offset_bound(text@, offset_encoding, e.range.end.line as int, e.range.end.character as int);
        }
        match (so, eo) {
            (Some(so), Some(eo)) => {
                if so < cursor {
                    proof {
                        lemma_patch_prefix_err(text@, offset_encoding, input, n + 1, PatchError::OutOfOrder);
                    }
                    return Err(PatchError::OutOfOrder);
                }
                push_text_range(&mut out, text, cursor, so);
                let nb = e.new_text.as_str().as_bytes();
                push_bytes(&mut out, nb);
                cursor = eo;
            },
            _ => {
                proof {
                    lemma_patch_prefix_err(text@, offset_encoding, input, n + 1, PatchError::ColumnOutOfBounds);
                }
                return Err(PatchError::ColumnOutOfBounds);
            },
        }
        proof {
            n = n + 1;
        }
    }
    assert(input.take(n) == input);
    let len = text.len_bytes();
    push_text_range(&mut out, text, cursor, len);
    Ok(out)
}

/// Once a prefix of the edits fails, the whole list fails with the same error.
pub proof fn lemma_patch_prefix_err(
    text: Seq<u8>,
    enc: OffsetEncoding,
    s: Seq<EditModel>,
    k: int,
    err: PatchError,
)
    requires
        0 <= k <= s.len(),
        patch_state(text, enc, s.take(k)) == Err::<(Seq<u8>, int), PatchError>(err),
    ensures
        patched(text, enc, s) == Err::<Seq<u8>, PatchError>(err),
    decreases s.len() - k,
{
    if k < s.len() {
        assert(s.take(k + 1).drop_last() == s.take(k));
        lemma_patch_prefix_err(text, enc, s, k + 1, err);
    } else {
        assert(s.take(k) == s);
    }
}

/// Byte offset in `text` where `e` starts, if its line and column exist.
pub open spec fn start_offset(text: Seq<u8>, enc: OffsetEncoding, e: EditModel) -> Option<int> {
    checked_offset(text, enc, e.range.start.line as int, e.range.start.character as int)
}

/// Byte offset in `text` where `e` ends, if its line and column exist.
pub open spec fn end_offset(text: Seq<u8>, enc: OffsetEncoding, e: EditModel) -> Option<int> {
    checked_offset(text, enc, e.range.end.line as int, e.range.end.character as int)
}

/// Every edit of `s` names lines and columns that `text` has, and each edit
/// starts no earlier than the edit before it ends.
pub open spec fn applies_in_order(text: Seq<u8>, enc: OffsetEncoding, s: Seq<EditModel>) -> bool {
    &&& forall|i: int|
        0 <= i < s.len() ==> {
            &&& (#[trigger] s[i]).range.start.line < line_count(text)
            &&& s[i].range.end.line < line_count(text)
            &&& start_offset(text, enc, s[i]) is Some
            &&& end_offset(text, enc, s[i]) is Some
        }
    &&& forall|i: int|
        0 < i < s.len() ==> #[trigger] start_offset(text, enc, s[i])->0 >= end_offset(
            text,
            enc,
            s[i - 1],
        )->0
}

proof fn lemma_patch_step(text: Seq<u8>, enc: OffsetEncoding, s: Seq<EditModel>)
    requires
        s.len() > 0,
        patch_state(text, enc, s.drop_last()) is Ok,
        s.last().range.start.line < line_count(text),
        s.last().range.end.line < line_count(text),
        start_offset(text, enc, s.last()) is Some,
        end_offset(text, enc, s.last()) is Some,
        start_offset(text, enc, s.last())->0 >= patch_state(text, enc, s.drop_last())->Ok_0.1,
    ensures
        patch_state(text, enc, s) is Ok,
        patched(text, enc, s) is Ok,
        patch_state(text, enc, s)->Ok_0.1 == end_offset(text, enc, s.last())->0,
{
}

/// Edits that name existing lines and columns, in left-to-right order, always
/// apply; the result is the splice of the file's bytes and the edits.
pub proof fn lemma_in_order_edits_apply(text: Seq<u8>, enc: OffsetEncoding, s: Seq<EditModel>)
    requires
        applies_in_order(text, enc, s),
    ensures
        patched(text, enc, s) is Ok,
        s.len() > 0 ==> patch_state(text, enc, s)->Ok_0.1 == end_offset(text, enc, s.last())->0,
    decreases s.len(),
{
    if s.len() > 0 {
        let t = s.drop_last();
        assert forall|i: int| 0 <= i < t.len() implies t[i] == s[i] by {}
        assert forall|i: int| 0 < i < t.len() implies #[trigger] start_offset(text, enc, t[i])->0
            >= end_offset(text, enc, t[i - 1])->0 by {
            assert(t[i] == s[i] && t[i - 1] == s[i - 1]);
            assert(start_offset(text, enc, s[i])->0 >= end_offset(text, enc, s[i - 1])->0);
        }
        assert(applies_in_order(text, enc, t));
        lemma_in_order_edits_apply(text, enc, t);
        let e = s.last();
        assert(e == s[s.len() - 1]);
        if t.len() > 0 {
            assert(t.last() == s[s.len() - 2]);
            assert(start_offset(text, enc, s[s.len() - 1])->0 >= end_offset(text, enc, s[s.len() - 2])->0);
        } else {
            assert(patch_state(text, enc, t) == Ok::<(Seq<u8>, int), PatchError>((Seq::<u8>::empty(), 0)));
            lemma_offset_bound(text, enc, e.range.start.line as int, e.range.start.character as int);
            lemma_line_bounds(text, e.range.start.line as int);
        }
        lemma_patch_step(text, enc, s);
    } else {
        assert(patch_state(text, enc, s) is Ok);
    }
}

} // verus!
