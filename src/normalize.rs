//! Turning a raw edit list into ordered, coalesced, non-redundant edits.
use vstd::prelude::*;
use vstd::string::StringExecFns;
use vstd::utf8::encode_utf8;
use crate::edit::{EditModel, Position, Range, TextEdit};
use crate::offset::{character_to_offset, column_offset, lemma_char_offset_bound, OffsetEncoding};
use crate::text::{lemma_line_bounds, line_bytes, line_count, line_end, line_start, Text};

verus! {

/// Byte offset of `p` in `text`; a column past its line's end counts as column zero.
pub open spec fn position_offset(text: Seq<u8>, enc: OffsetEncoding, p: Position) -> int {
    line_start(text, p.line as int) + match column_offset(
        enc,
        line_bytes(text, p.line as int),
        p.character as int,
    ) {
        Some(o) => o,
        None => 0,
    }
}

/// Every edit of `s` names lines of `text`.
pub open spec fn lines_in_bounds(text: Seq<u8>, s: Seq<EditModel>) -> bool {
    forall|i: int|
        0 <= i < s.len() ==> (#[trigger] s[i]).range.start.line < line_count(text)
            && s[i].range.end.line < line_count(text)
}

/// `a` followed by `b`, as one edit.
pub open spec fn merge(a: EditModel, b: EditModel) -> EditModel {
    EditModel { range: Range { start: a.range.start, end: b.range.end }, text: a.text + b.text }
}

/// Walks `s` in order; an edit that starts where the previous one ended is
/// merged into the last entry, any other edit starts a new entry.
pub open spec fn coalesce(text: Seq<u8>, enc: OffsetEncoding, s: Seq<EditModel>) -> Seq<EditModel>
    decreases s.len(),
{
    if s.len() == 0 {
        s
    } else {
        let prev = coalesce(text, enc, s.drop_last());
        if s.len() > 1 && position_offset(text, enc, s[s.len() - 2].range.end) == position_offset(
            text,
            enc,
            s.last().range.start,
        ) {
            prev.update(prev.len() - 1, merge(prev.last(), s.last()))
        } else {
            prev.push(s.last())
        }
    }
}

/// A single-line edit whose replacement bytes equal the bytes it replaces.
pub open spec fn is_redundant(text: Seq<u8>, enc: OffsetEncoding, e: EditModel) -> bool {
    let sb = position_offset(text, enc, e.range.start);
    let eb = position_offset(text, enc, e.range.end);
    &&& e.range.start.line == e.range.end.line
    &&& sb <= eb
    &&& text.subrange(sb, eb) == encode_utf8(e.text)
}

/// The edits of `s` that are not redundant, in order.
pub open spec fn drop_redundant(text: Seq<u8>, enc: OffsetEncoding, s: Seq<EditModel>) -> Seq<
    EditModel,
> {
    s.filter(|e: EditModel| !is_redundant(text, enc, e))
}

/// Coalescing a non-empty list gives a non-empty list.
pub proof fn lemma_coalesce_nonempty(text: Seq<u8>, enc: OffsetEncoding, s: Seq<EditModel>)
    ensures
        s.len() > 0 ==> coalesce(text, enc, s).len() > 0,
        coalesce(text, enc, s).len() <= s.len(),
    decreases s.len(),
{
    if s.len() > 0 {
        lemma_coalesce_nonempty(text, enc, s.drop_last());
    }
}

/// Byte offset of `p` in `text`, as `position_offset` gives it.
pub fn position_to_offset(text: &Text, enc: OffsetEncoding, p: &Position) -> (r: usize)
    requires
        p.line < line_count(text@),
    ensures
        r == position_offset(text@, enc, *p),
        line_start(text@, p.line as int) <= r <= text@.len(),
        text@.len() < usize::MAX,
{
    let line = p.line as usize;
    let start = text.line_to_byte(line);
    let end = text.line_end(line);
    proof {
        lemma_line_bounds(text@, line as int);
        let seg = line_bytes(text@, line as int);
        lemma_char_offset_bound(seg, p.character as nat);
    }
    match character_to_offset(enc, text, line, p.character) {
        Some(o) => {
            assert(o <= end - start);
            start + o
        },
        None => start,
    }
}

/// Merges, in order, each edit that starts where the previous one ended.
pub fn coalesce_edits(text: &Text, enc: OffsetEncoding, sorted: Vec<TextEdit>) -> (r: Vec<
    TextEdit,
>)
    requires
        lines_in_bounds(text@, sorted@.map_values(|e: TextEdit| e@)),
    ensures
        r@.map_values(|e: TextEdit| e@) == coalesce(
            text@,
            enc,
            sorted@.map_values(|e: TextEdit| e@),
        ),
{
    let ghost input = sorted@.map_values(|e: TextEdit| e@);
    let mut rest = sorted;
    let mut out: Vec<TextEdit> = Vec::new();
    let mut offset: usize = 0;
    let ghost mut n: int = 0;
    assert(input.take(0) =~= out@.map_values(|e: TextEdit| e@));
    while rest.len() > 0
        invariant
            0 <= n <= input.len(),
            input.len() == n + rest@.len(),
            forall|i: int| 0 <= i < rest@.len() ==> #[trigger] rest@[i]@ == input[n + i],
            lines_in_bounds(text@, input),
            out@.map_values(|e: TextEdit| e@) == coalesce(text@, enc, input.take(n)),
            n > 0 ==> offset == position_offset(text@, enc, input[n - 1].range.end),
            n > 0 <==> out@.len() > 0,
        decreases rest@.len(),
    {
        let ghost prev = out@.map_values(|e: TextEdit| e@);
        let e = rest.remove(0);
        assert(e@ == input[n]);
        assert(input.take(n + 1).drop_last() == input.take(n));
        proof {
            lemma_coalesce_nonempty(text@, enc, input.take(n));
        }
        let so = position_to_offset(text, enc, &e.range.start);
        let eo = position_to_offset(text, enc, &e.range.end);
        if offset == so && out.len() > 0 {
            let mut last = out.pop().unwrap();
            assert(last@ == prev.last());
            last.range.end = e.range.end;
            last.new_text.append(e.new_text.as_str());
            out.push(last);
            assert(out@.map_values(|e: TextEdit| e@) =~= coalesce(text@, enc, input.take(n + 1)));
        } else {
            out.push(e);
            assert(out@.map_values(|e: TextEdit| e@) =~= coalesce(text@, enc, input.take(n + 1)));
        }
        offset = eo;
        proof {
            n = n + 1;
        }
    }
    assert(input.take(n) == input);
    out
}

/// Whether `e` is a single-line edit that would write back the bytes it replaces.
pub fn edit_is_redundant(text: &Text, enc: OffsetEncoding, e: &TextEdit) -> (r: bool)
    requires
        e.range.start.line < line_count(text@),
        e.range.end.line < line_count(text@),
    ensures
        r == is_redundant(text@, enc, e@),
{
    if e.range.start.line != e.range.end.line {
        return false;
    }
    let sb = position_to_offset(text, enc, &e.range.start);
    let eb = position_to_offset(text, enc, &e.range.end);
    if sb > eb {
        return false;
    }
    let nb = e.new_text.as_str().as_bytes();
    assert(nb@ == encode_utf8(e@.text));
    if nb.len() != eb - sb {
        return false;
    }
    let mut i: usize = 0;
    while i < nb.len()
        invariant
            i <= nb@.len() == eb - sb,
            sb <= eb <= text@.len(),
            nb@ == encode_utf8(e@.text),
            sb == position_offset(text@, enc, e.range.start),
            eb == position_offset(text@, enc, e.range.end),
            e.range.start.line == e.range.end.line,
            forall|k: int| 0 <= k < i ==> text@[sb + k] == #[trigger] nb@[k],
        decreases nb@.len() - i,
    {
        if text.byte(sb + i) != nb[i] {
            assert(text@.subrange(sb as int, eb as int)[i as int] != nb@[i as int]);
            return false;
        }
        i = i + 1;
    }
    assert(text@.subrange(sb as int, eb as int) =~= nb@);
    true
}

/// Keeps, in order, the edits that are not redundant.
pub fn drop_redundant_edits(text: &Text, enc: OffsetEncoding, edits: Vec<TextEdit>) -> (r: Vec<
    TextEdit,
>)
    requires
        lines_in_bounds(text@, edits@.map_values(|e: TextEdit| e@)),
    ensures
        r@.map_values(|e: TextEdit| e@) == drop_redundant(
            text@,
            enc,
            edits@.map_values(|e: TextEdit| e@),
        ),
{
    let ghost input = edits@.map_values(|e: TextEdit| e@);
    let mut rest = edits;
    let mut out: Vec<TextEdit> = Vec::new();
    let ghost mut n: int = 0;
    proof {
        reveal(Seq::filter);
    }
    assert(drop_redundant(text@, enc, input.take(0)) =~= out@.map_values(|e: TextEdit| e@));
    while rest.len() > 0
        invariant
            0 <= n <= input.len(),
            input.len() == n + rest@.len(),
            forall|i: int| 0 <= i < rest@.len() ==> #[trigger] rest@[i]@ == input[n + i],
            lines_in_bounds(text@, input),
            out@.map_values(|e: TextEdit| e@) == drop_redundant(text@, enc, input.take(n)),
        decreases rest@.len(),
    {
        let e = rest.remove(0);
        assert(e@ == input[n]);
        assert(input.take(n + 1).drop_last() == input.take(n));
        proof {
            reveal(Seq::filter);
        }
        if !edit_is_redundant(text, enc, &e) {
            out.push(e);
            assert(out@.map_values(|e: TextEdit| e@) =~= drop_redundant(text@, enc, input.take(n + 1)));
        } else {
            assert(out@.map_values(|e: TextEdit| e@) =~= drop_redundant(text@, enc, input.take(n + 1)));
        }
        proof {
            n = n + 1;
        }
    }
    assert(input.take(n) == input);
    out
}

/// An edit that starts at the byte offset where the edit before it ends is
/// merged into it: the merged range runs from the first start to the second
/// end, and its text is the first text followed by the second.
pub proof fn lemma_adjacent_edits_merge(text: Seq<u8>, enc: OffsetEncoding, a: EditModel, b: EditModel)
    requires
        position_offset(text, enc, a.range.end) == position_offset(text, enc, b.range.start),
    ensures
        coalesce(text, enc, seq![a, b]) == seq![
            EditModel { range: Range { start: a.range.start, end: b.range.end }, text: a.text + b.text },
        ],
{
    let s = seq![a, b];
    assert(s.drop_last() =~= seq![a]);
    assert(seq![a].drop_last() =~= Seq::<EditModel>::empty());
    assert(coalesce(text, enc, seq![a].drop_last()).len() == 0);
    assert(coalesce(text, enc, seq![a]) =~= seq![a]);
    assert(coalesce(text, enc, s) =~= seq![merge(a, b)]);
}

/// An edit that does not start where the edit before it ends stays apart.
pub proof fn lemma_separate_edits_stay(text: Seq<u8>, enc: OffsetEncoding, a: EditModel, b: EditModel)
    requires
        position_offset(text, enc, a.range.end) != position_offset(text, enc, b.range.start),
    ensures
        coalesce(text, enc, seq![a, b]) == seq![a, b],
{
    let s = seq![a, b];
    assert(s.drop_last() =~= seq![a]);
    assert(seq![a].drop_last() =~= Seq::<EditModel>::empty());
    assert(coalesce(text, enc, seq![a].drop_last()).len() == 0);
    assert(coalesce(text, enc, seq![a]) =~= seq![a]);
    assert(coalesce(text, enc, s) =~= seq![a, b]);
}

/// After dropping redundant edits no kept edit is redundant, every
/// multi-line edit is kept, and so is every edit that changes its bytes.
pub proof fn lemma_drop_redundant(text: Seq<u8>, enc: OffsetEncoding, s: Seq<EditModel>)
    ensures
        forall|i: int|
            0 <= i < drop_redundant(text, enc, s).len() ==> !is_redundant(
                text,
                enc,
                #[trigger] drop_redundant(text, enc, s)[i],
            ),
        forall|i: int|
            0 <= i < s.len() && (#[trigger] s[i]).range.start.line != s[i].range.end.line
                ==> drop_redundant(text, enc, s).contains(s[i]),
        forall|i: int|
            0 <= i < s.len() && !is_redundant(text, enc, #[trigger] s[i]) ==> drop_redundant(
                text,
                enc,
                s,
            ).contains(s[i]),
{
    let pred = |e: EditModel| !is_redundant(text, enc, e);
    assert forall|i: int| 0 <= i < drop_redundant(text, enc, s).len() implies !is_redundant(
        text,
        enc,
        #[trigger] drop_redundant(text, enc, s)[i],
    ) by {
        s.lemma_filter_pred(pred, i);
    }
    assert forall|i: int| 0 <= i < s.len() && !is_redundant(text, enc, #[trigger] s[i]) implies drop_redundant(
        text,
        enc,
        s,
    ).contains(s[i]) by {
        s.lemma_filter_contains(pred, i);
    }
}

} // verus!
