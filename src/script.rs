//! Editor scripts that select the ranges of normalized edits and apply them.
use vstd::prelude::*;
use vstd::string::StringExecFns;
use vstd::std_specs::iter::IteratorSpec;
use crate::edit::{
    edit_models, is_stable_sort, sort_edits, stable_sorted, with_range, EditModel, Range,
    TextEdit, TextEditish,
};
use crate::normalize::{
    coalesce, coalesce_edits, drop_redundant, drop_redundant_edits, is_redundant,
    lemma_drop_redundant, lines_in_bounds,
    position_offset, position_to_offset, lemma_coalesce_nonempty,
};
use crate::offset::OffsetEncoding;
use crate::patch::PatchError;
use crate::text::{line_count, line_start, Text};

verus! {

/// Column that stands for "end of line": larger than any real line, so that
/// edits earlier on the same line cannot move it.
pub const EOL_OFFSET: u64 = 1000000;

/// A position in the editor: line and byte column, both counted from one.
#[derive(PartialEq, Eq, Structural, Clone, Copy, Debug)]
pub struct KakounePosition {
    pub line: u64,
    pub column: u64,
}

/// An inclusive selection in the editor.
#[derive(PartialEq, Eq, Structural, Clone, Copy, Debug)]
pub struct KakouneRange {
    pub start: KakounePosition,
    pub end: KakounePosition,
}

/// What the editor does with a selection.
#[derive(PartialEq, Eq, Structural, Clone, Copy, Debug)]
pub enum KakouneTextEditCommand {
    /// Insert the text before the selection (the edit's range is empty).
    InsertBefore,
    /// Replace the selection with the text.
    Replace,
}

/// An edit in the editor's own terms.
pub struct KakouneTextEdit {
    pub range: KakouneRange,
    pub new_text: String,
    pub command: KakouneTextEditCommand,
}

/// What an editor edit says.
pub struct KakouneEditModel {
    pub range: KakouneRange,
    pub text: Seq<char>,
    pub command: KakouneTextEditCommand,
}

impl View for KakouneTextEdit {
    type V = KakouneEditModel;

    open spec fn view(&self) -> KakouneEditModel {
        KakouneEditModel { range: self.range, text: self.new_text@, command: self.command }
    }
}

/// Byte column of `p` within its line; a column past the line's end counts as zero.
pub open spec fn byte_column(text: Seq<u8>, enc: OffsetEncoding, p: crate::edit::Position) -> int {
    position_offset(text, enc, p) - line_start(text, p.line as int)
}

/// The selection for `r`: an empty range selects the character at its start;
/// otherwise the selection ends on the last byte of the range, and a range that
/// ends at a line's start ends at the end of the line before.
pub open spec fn kakoune_range(text: Seq<u8>, enc: OffsetEncoding, r: Range) -> KakouneRange {
    let start = KakounePosition {
        line: (r.start.line + 1) as u64,
        column: (byte_column(text, enc, r.start) + 1) as u64,
    };
    let ec = byte_column(text, enc, r.end);
    if r.start == r.end {
        KakouneRange { start, end: start }
    } else if ec > 0 {
        KakouneRange {
            start,
            end: KakounePosition { line: (r.end.line + 1) as u64, column: ec as u64 },
        }
    } else {
        KakouneRange { start, end: KakounePosition { line: r.end.line as u64, column: EOL_OFFSET } }
    }
}

/// The editor edit for `e`.
pub open spec fn kakoune_edit(text: Seq<u8>, enc: OffsetEncoding, e: EditModel) -> KakouneEditModel {
    KakouneEditModel {
        range: kakoune_range(text, enc, e.range),
        text: e.text,
        command: if e.range.start == e.range.end {
            KakouneTextEditCommand::InsertBefore
        } else {
            KakouneTextEditCommand::Replace
        },
    }
}

/// The decimal digit `d`.
pub open spec fn digit(d: int) -> char {
    if d == 0 {
        '0'
    } else if d == 1 {
        '1'
    } else if d == 2 {
        '2'
    } else if d == 3 {
        '3'
    } else if d == 4 {
        '4'
    } else if d == 5 {
        '5'
    } else if d == 6 {
        '6'
    } else if d == 7 {
        '7'
    } else if d == 8 {
        '8'
    } else {
        '9'
    }
}

/// `n` written in decimal.
pub open spec fn decimal(n: nat) -> Seq<char>
    decreases n,
{
    if n < 10 {
        seq![digit(n as int)]
    } else {
        decimal(n / 10).push(digit(n as int % 10))
    }
}

/// `s` with each single quote doubled.
pub open spec fn escape(s: Seq<char>) -> Seq<char>
    decreases s.len(),
{
    if s.len() == 0 {
        s
    } else {
        escape(s.drop_last()) + if s.last() == '\'' {
            seq!['\'', '\'']
        } else {
            seq![s.last()]
        }
    }
}

/// `s` as a single-quoted token of the editor's command language.
pub open spec fn quote(s: Seq<char>) -> Seq<char> {
    seq!['\''] + escape(s) + seq!['\'']
}

/// A selection written as `line.column,line.column`.
pub open spec fn range_desc(r: KakouneRange) -> Seq<char> {
    decimal(r.start.line as nat) + seq!['.'] + decimal(r.start.column as nat) + seq![',']
        + decimal(r.end.line as nat) + seq!['.'] + decimal(r.end.column as nat)
}

/// The selections of `rs`, space-separated, each run of equal neighbours written once.
pub open spec fn select_list(rs: Seq<KakouneRange>) -> Seq<char>
    decreases rs.len(),
{
    if rs.len() == 0 {
        Seq::empty()
    } else if rs.len() == 1 {
        range_desc(rs[0])
    } else if rs.last() == rs[rs.len() - 2] {
        select_list(rs.drop_last())
    } else {
        select_list(rs.drop_last()) + seq![' '] + range_desc(rs.last())
    }
}

/// The editor command that performs `cmd`.
pub open spec fn command_name(cmd: KakouneTextEditCommand) -> Seq<char> {
    match cmd {
        KakouneTextEditCommand::InsertBefore => "lsp-insert-before-selection"@,
        KakouneTextEditCommand::Replace => "lsp-replace-selection"@,
    }
}

/// Restore the saved selections, keep the one numbered `i`, and apply `e` to it.
pub open spec fn edit_command(i: nat, e: KakouneEditModel) -> Seq<char> {
    "exec \"z"@ + (if i > 0 {
        decimal(i) + seq![')']
    } else {
        Seq::empty()
    }) + "<space>\"\n"@ + command_name(e.command) + seq![' '] + quote(e.text)
}

/// The commands of all edits, one per line.
pub open spec fn edit_commands(es: Seq<KakouneEditModel>) -> Seq<char>
    decreases es.len(),
{
    if es.len() == 0 {
        Seq::empty()
    } else if es.len() == 1 {
        edit_command(0, es[0])
    } else {
        edit_commands(es.drop_last()) + seq!['\n'] + edit_command(
            (es.len() - 1) as nat,
            es.last(),
        )
    }
}

/// Select every range, save the selections, then apply each edit in turn.
pub open spec fn apply_script(es: Seq<KakouneEditModel>) -> Seq<char> {
    if es.len() == 0 {
        Seq::empty()
    } else {
        "select "@ + select_list(es.map_values(|e: KakouneEditModel| e.range))
            + "\nexec -save-regs \"\" Z\n"@ + edit_commands(es)
    }
}

/// Runs `apply` in the right place: in the named client (first opening the
/// file, if known), else in the file's buffer, else in a draft context.
pub open spec fn wrap_script(
    client: Option<Seq<char>>,
    buffile: Option<Seq<char>>,
    apply: Seq<char>,
) -> Seq<char> {
    match client {
        None => match buffile {
            Some(b) => "eval -buffer "@ + quote(b) + " -save-regs ^ "@ + quote(apply),
            None => "eval -draft -save-regs ^ "@ + quote(apply),
        },
        Some(c) => {
            let inner = match buffile {
                Some(b) => "edit -existing -- "@ + quote(b) + "\n"@ + apply,
                None => apply,
            };
            "eval -client "@ + c + " -draft -save-regs ^ "@ + quote(inner)
        },
    }
}

/// The whole script for the normalized edits `kept`.
pub open spec fn edit_script(
    text: Seq<u8>,
    enc: OffsetEncoding,
    client: Option<Seq<char>>,
    buffile: Option<Seq<char>>,
    kept: Seq<EditModel>,
) -> Seq<char> {
    wrap_script(
        client,
        buffile,
        apply_script(kept.map_values(|e: EditModel| kakoune_edit(text, enc, e))),
    )
}

/// The characters of an optional string.
pub open spec fn opt_chars(s: Option<String>) -> Option<Seq<char>> {
    match s {
        Some(t) => Some(t@),
        None => None,
    }
}

/// The normalized form of `edits`: stably sorted, coalesced, without redundant edits.
pub open spec fn normalized(
    text: Seq<u8>,
    enc: OffsetEncoding,
    sorted: Seq<EditModel>,
) -> Seq<EditModel> {
    drop_redundant(text, enc, coalesce(text, enc, sorted))
}

/// The characters of `s`, in order.
fn chars_of(s: &str) -> (r: Vec<char>)
    ensures
        r@ == s@,
{
    broadcast use vstd::string::group_string_axioms;

    let mut it = s.chars();
    let mut out: Vec<char> = Vec::new();
    loop
        invariant
            it.obeys_prophetic_iter_laws(),
            out@ + it.remaining() == s@,
        ensures
            out@ == s@,
        decreases s@.len() - out@.len(),
    {
        match it.next() {
            Some(c) => {
                out.push(c);
            },
            None => {
                assert(it.remaining().len() == 0);
                assert(out@ =~= s@);
                break;
            },
        }
    }
    out
}

/// The editor edits that the script for `input` selects and applies, in order.
pub open spec fn script_edits(text: Seq<u8>, enc: OffsetEncoding, input: Seq<EditModel>) -> Seq<
    KakouneEditModel,
> {
    normalized(text, enc, stable_sorted(input)).map_values(|e: EditModel| kakoune_edit(text, enc, e))
}

/// The command of each edit appears in the edits' commands.
pub proof fn lemma_edit_command_in(es: Seq<KakouneEditModel>, i: int)
    requires
        0 <= i < es.len(),
    ensures
        exists|pre: Seq<char>, post: Seq<char>|
            edit_commands(es) == #[trigger] (pre + edit_command(i as nat, es[i]) + post),
    decreases es.len(),
{
    let e = Seq::<char>::empty();
    if i == es.len() - 1 {
        if es.len() == 1 {
            assert(edit_commands(es) == e + edit_command(i as nat, es[i]) + e);
        } else {
            let pre = edit_commands(es.drop_last()) + seq!['\n'];
            assert(edit_commands(es) == pre + edit_command(i as nat, es[i]) + e);
        }
    } else {
        let d = es.drop_last();
        lemma_edit_command_in(d, i);
        assert(d[i] == es[i]);
        let (pre, post) = choose|pre: Seq<char>, post: Seq<char>|
            edit_commands(d) == #[trigger] (pre + edit_command(i as nat, d[i]) + post);
        let post2 = post + seq!['\n'] + edit_command((es.len() - 1) as nat, es.last());
        assert(edit_commands(es) == pre + edit_command(i as nat, es[i]) + post2);
    }
}

/// Every selection appears in the select list.
pub proof fn lemma_range_desc_in(rs: Seq<KakouneRange>, i: int)
    requires
        0 <= i < rs.len(),
    ensures
        exists|pre: Seq<char>, post: Seq<char>|
            select_list(rs) == #[trigger] (pre + range_desc(rs[i]) + post),
    decreases rs.len(),
{
    let e = Seq::<char>::empty();
    if rs.len() == 1 {
        assert(select_list(rs) == e + range_desc(rs[i]) + e);
    } else if i == rs.len() - 1 && rs.last() != rs[rs.len() - 2] {
        let pre = select_list(rs.drop_last()) + seq![' '];
        assert(select_list(rs) == pre + range_desc(rs[i]) + e);
    } else {
        let d = rs.drop_last();
        let j = if i == rs.len() - 1 { i - 1 } else { i };
        assert(d[j] == rs[i]);
        lemma_range_desc_in(d, j);
        let (pre, post) = choose|pre: Seq<char>, post: Seq<char>|
            select_list(d) == #[trigger] (pre + range_desc(d[j]) + post);
        if rs.last() == rs[rs.len() - 2] {
            assert(select_list(rs) == pre + range_desc(rs[i]) + post);
        } else {
            let post2 = post + seq![' '] + range_desc(rs.last());
            assert(select_list(rs) == pre + range_desc(rs[i]) + post2);
        }
    }
}

/// The script body for `input` selects the range of every coalesced edit that
/// spans several lines, or that changes its bytes, and applies that edit to
/// it; a redundant single-line edit is not among the edits the script applies.
pub proof fn lemma_script_keeps_and_drops(
    text: Seq<u8>,
    enc: OffsetEncoding,
    input: Seq<EditModel>,
    m: EditModel,
)
    requires
        coalesce(text, enc, stable_sorted(input)).contains(m),
    ensures
        (m.range.start.line != m.range.end.line || !is_redundant(text, enc, m)) ==> {
            let es = script_edits(text, enc, input);
            &&& es.contains(kakoune_edit(text, enc, m))
            &&& exists|pre: Seq<char>, post: Seq<char>|
                apply_script(es) == #[trigger] (pre + range_desc(kakoune_range(text, enc, m.range))
                    + post)
            &&& exists|j: nat, pre: Seq<char>, post: Seq<char>|
                apply_script(es) == #[trigger] (pre + edit_command(j, kakoune_edit(text, enc, m))
                    + post)
        },
        is_redundant(text, enc, m) ==> !normalized(text, enc, stable_sorted(input)).contains(m),
{
    let c = coalesce(text, enc, stable_sorted(input));
    let kept = normalized(text, enc, stable_sorted(input));
    lemma_drop_redundant(text, enc, c);
    let i = choose|i: int| 0 <= i < c.len() && c[i] == m;
    if is_redundant(text, enc, m) {
        if kept.contains(m) {
            let k = choose|k: int| 0 <= k < kept.len() && kept[k] == m;
            assert(!is_redundant(text, enc, kept[k]));
        }
    }
    if m.range.start.line != m.range.end.line || !is_redundant(text, enc, m) {
        assert(kept.contains(c[i]));
        let k = choose|k: int| 0 <= k < kept.len() && kept[k] == m;
        let es = script_edits(text, enc, input);
        assert(es[k] == kakoune_edit(text, enc, m));
        let rs = es.map_values(|e: KakouneEditModel| e.range);
        assert(rs[k] == kakoune_range(text, enc, m.range));
        lemma_range_desc_in(rs, k);
        let (p1, q1) = choose|pre: Seq<char>, post: Seq<char>|
            select_list(rs) == #[trigger] (pre + range_desc(rs[k]) + post);
        let head = "select "@;
        let mid = "\nexec -save-regs \"\" Z\n"@;
        assert(apply_script(es) == (head + p1) + range_desc(rs[k]) + (q1 + mid + edit_commands(es)));
        lemma_edit_command_in(es, k);
        let (p2, q2) = choose|pre: Seq<char>, post: Seq<char>|
            edit_commands(es) == #[trigger] (pre + edit_command(k as nat, es[k]) + post);
        assert(apply_script(es) == (head + select_list(rs) + mid + p2) + edit_command(
            k as nat,
            es[k],
        ) + q2);
    }
}

/// Relies on String's FromIterator<char>: the string of the characters `v`, in order.
#[verifier::external_body]
fn string_of(v: Vec<char>) -> (r: String)
    ensures
        r@ == v@,
{
    v.into_iter().collect()
}

fn push_chars(out: &mut Vec<char>, v: &Vec<char>)
    ensures
        final(out)@ == old(out)@ + v@,
{
    let ghost start = out@;
    let mut i: usize = 0;
    while i < v.len()
        invariant
            i <= v@.len(),
            out@ == start + v@.take(i as int),
        decreases v@.len() - i,
    {
        out.push(v[i]);
        i = i + 1;
        assert(out@ =~= start + v@.take(i as int));
    }
    assert(v@.take(i as int) =~= v@);
}

fn push_str(out: &mut Vec<char>, s: &str)
    ensures
        final(out)@ == old(out)@ + s@,
{
    let v = chars_of(s);
    push_chars(out, &v);
}

fn digit_char(d: u64) -> (r: char)
    requires
        d < 10,
    ensures
        r == digit(d as int),
{
    if d == 0 {
        '0'
    } else if d == 1 {
        '1'
    } else if d == 2 {
        '2'
    } else if d == 3 {
        '3'
    } else if d == 4 {
        '4'
    } else if d == 5 {
        '5'
    } else if d == 6 {
        '6'
    } else if d == 7 {
        '7'
    } else if d == 8 {
        '8'
    } else {
        '9'
    }
}

fn push_decimal(out: &mut Vec<char>, n: u64)
    ensures
        final(out)@ == old(out)@ + decimal(n as nat),
    decreases n,
{
    if n >= 10 {
        push_decimal(out, n / 10);
        out.push(digit_char(n % 10));
        assert(decimal(n as nat) == decimal((n / 10) as nat).push(digit((n % 10) as int)));
        assert(final(out)@ =~= old(out)@ + decimal(n as nat));
    } else {
        out.push(digit_char(n));
        assert(final(out)@ =~= old(out)@ + decimal(n as nat));
    }
}

fn push_quoted(out: &mut Vec<char>, v: &Vec<char>)
    ensures
        final(out)@ == old(out)@ + quote(v@),
{
    let ghost start = out@;
    out.push('\'');
    let mut i: usize = 0;
    while i < v.len()
        invariant
            i <= v@.len(),
            out@ == start + seq!['\''] + escape(v@.take(i as int)),
        decreases v@.len() - i,
    {
        let c = v[i];
        assert(v@.take(i + 1).drop_last() == v@.take(i as int));
        if c == '\'' {
            out.push('\'');
            out.push('\'');
        } else {
            out.push(c);
        }
        i = i + 1;
        assert(out@ =~= start + seq!['\''] + escape(v@.take(i as int)));
    }
    assert(v@.take(i as int) =~= v@);
    out.push('\'');
    assert(out@ =~= start + quote(v@));
}

fn push_range(out: &mut Vec<char>, r: &KakouneRange)
    ensures
        final(out)@ == old(out)@ + range_desc(*r),
{
    let ghost start = out@;
    push_decimal(out, r.start.line);
    out.push('.');
    push_decimal(out, r.start.column);
    out.push(',');
    push_decimal(out, r.end.line);
    out.push('.');
    push_decimal(out, r.end.column);
    assert(out@ =~= start + range_desc(*r));
}

/// The editor selection for the range `range`.
pub fn lsp_range_to_kakoune(range: &Range, text: &Text, enc: OffsetEncoding) -> (r: KakouneRange)
    requires
        range.start.line < line_count(text@),
        range.end.line < line_count(text@),
    ensures
        r == kakoune_range(text@, enc, *range),
{
    let sc = position_to_offset(text, enc, &range.start) - text.line_to_byte(
        range.start.line as usize,
    );
    let ec = position_to_offset(text, enc, &range.end) - text.line_to_byte(
        range.end.line as usize,
    );
    let start = KakounePosition { line: range.start.line as u64 + 1, column: sc as u64 + 1 };
    if range.start == range.end {
        KakouneRange { start, end: start }
    } else if ec > 0 {
        KakouneRange {
            start,
            end: KakounePosition { line: range.end.line as u64 + 1, column: ec as u64 },
        }
    } else {
        KakouneRange { start, end: KakounePosition { line: range.end.line as u64, column: EOL_OFFSET } }
    }
}

/// The editor edit for `text_edit`.
pub fn lsp_text_edit_to_kakoune(text_edit: TextEdit, text: &Text, enc: OffsetEncoding) -> (r:
    KakouneTextEdit)
    requires
        text_edit.range.start.line < line_count(text@),
        text_edit.range.end.line < line_count(text@),
    ensures
        r@ == kakoune_edit(text@, enc, text_edit@),
{
    let range = lsp_range_to_kakoune(&text_edit.range, text, enc);
    let command = if text_edit.range.start == text_edit.range.end {
        KakouneTextEditCommand::InsertBefore
    } else {
        KakouneTextEditCommand::Replace
    };
    KakouneTextEdit { range, new_text: text_edit.new_text, command }
}

/// The sorted edits name only lines that the input named.
proof fn lemma_sorted_in_bounds(text: Seq<u8>, input: Seq<EditModel>, out: Seq<EditModel>)
    requires
        is_stable_sort(input, out),
        lines_in_bounds(text, input),
    ensures
        lines_in_bounds(text, out),
{
    assert forall|i: int| 0 <= i < out.len() implies (#[trigger] out[i]).range.start.line
        < line_count(text) && out[i].range.end.line < line_count(text) by {
        let r = out[i].range;
        let pred = |e: EditModel| e.range == r;
        out.lemma_filter_contains(pred, i);
        assert(with_range(out, r) == with_range(input, r));
        input.lemma_filter_contains_rev(pred, out[i]);
        let k = choose|k: int| 0 <= k < input.len() && input[k] == out[i];
        assert(input[k].range.start.line < line_count(text));
    }
}

/// Coalescing keeps every line within the text.
proof fn lemma_coalesce_in_bounds(text: Seq<u8>, enc: OffsetEncoding, s: Seq<EditModel>)
    requires
        lines_in_bounds(text, s),
    ensures
        lines_in_bounds(text, coalesce(text, enc, s)),
    decreases s.len(),
{
    if s.len() > 0 {
        let t = s.drop_last();
        assert forall|i: int| 0 <= i < t.len() implies (#[trigger] t[i]).range.start.line
            < line_count(text) && t[i].range.end.line < line_count(text) by {
            assert(t[i] == s[i]);
        }
        lemma_coalesce_in_bounds(text, enc, t);
        lemma_coalesce_nonempty(text, enc, t);
        assert(s.last() == s[s.len() - 1]);
    }
}

/// Dropping edits keeps every line within the text.
proof fn lemma_drop_in_bounds(text: Seq<u8>, enc: OffsetEncoding, s: Seq<EditModel>)
    requires
        lines_in_bounds(text, s),
    ensures
        lines_in_bounds(text, drop_redundant(text, enc, s)),
{
    let out = drop_redundant(text, enc, s);
    assert forall|i: int| 0 <= i < out.len() implies (#[trigger] out[i]).range.start.line
        < line_count(text) && out[i].range.end.line < line_count(text) by {
        let pred = |e: EditModel| !crate::normalize::is_redundant(text, enc, e);
        assert(out.contains(out[i]));
        s.lemma_filter_contains_rev(pred, out[i]);
        let k = choose|k: int| 0 <= k < s.len() && s[k] == out[i];
        assert(s[k].range.start.line < line_count(text));
    }
}

fn push_command_name(out: &mut Vec<char>, cmd: KakouneTextEditCommand)
    ensures
        final(out)@ == old(out)@ + command_name(cmd),
{
    match cmd {
        KakouneTextEditCommand::InsertBefore => push_str(out, "lsp-insert-before-selection"),
        KakouneTextEditCommand::Replace => push_str(out, "lsp-replace-selection"),
    }
}

fn push_edit_command(out: &mut Vec<char>, i: usize, e: &KakouneTextEdit)
    ensures
        final(out)@ == old(out)@ + edit_command(i as nat, e@),
{
    let ghost start = out@;
    push_str(out, "exec \"z");
    let ghost a = out@;
    if i > 0 {
        push_decimal(out, i as u64);
        out.push(')');
    }
    let ghost b = out@;
    assert(b =~= a + (if i > 0 {
        decimal(i as nat) + seq![')']
    } else {
        Seq::<char>::empty()
    }));
    push_str(out, "<space>\"\n");
    push_command_name(out, e.command);
    out.push(' ');
    let cs = chars_of(e.new_text.as_str());
    push_quoted(out, &cs);
    assert(out@ =~= start + edit_command(i as nat, e@));
}

/// The script body that selects the ranges of `kes` and applies each edit.
fn build_apply_script(kes: &Vec<KakouneTextEdit>) -> (r: Vec<char>)
    ensures
        r@ == apply_script(kes@.map_values(|e: KakouneTextEdit| e@)),
{
    let ghost es = kes@.map_values(|e: KakouneTextEdit| e@);
    let ghost rs = es.map_values(|e: KakouneEditModel| e.range);
    let mut out: Vec<char> = Vec::new();
    if kes.len() == 0 {
        return out;
    }
    push_str(&mut out, "select ");
    let ghost head = out@;
    let mut i: usize = 0;
    assert(rs.take(0) =~= Seq::<KakouneRange>::empty());
    assert(out@ =~= head + select_list(rs.take(0)));
    while i < kes.len()
        invariant
            i <= kes@.len(),
            es == kes@.map_values(|e: KakouneTextEdit| e@),
            rs == es.map_values(|e: KakouneEditModel| e.range),
            out@ == head + select_list(rs.take(i as int)),
        decreases kes@.len() - i,
    {
        let ghost t = rs.take(i + 1);
        assert(t.drop_last() =~= rs.take(i as int));
        assert(t.last() == kes@[i as int].range);
        if i > 0 {
            assert(t[i - 1] == kes@[i - 1].range);
        }
        if i == 0 || kes[i].range != kes[i - 1].range {
            if i > 0 {
                out.push(' ');
            }
            push_range(&mut out, &kes[i].range);
        }
        i = i + 1;
        assert(out@ =~= head + select_list(rs.take(i as int)));
    }
    assert(rs.take(i as int) =~= rs);
    push_str(&mut out, "\nexec -save-regs \"\" Z\n");
    let ghost mid = out@;
    let mut j: usize = 0;
    assert(out@ =~= mid + edit_commands(es.take(0)));
    while j < kes.len()
        invariant
            j <= kes@.len(),
            es == kes@.map_values(|e: KakouneTextEdit| e@),
            out@ == mid + edit_commands(es.take(j as int)),
        decreases kes@.len() - j,
    {
        let ghost t = es.take(j + 1);
        assert(t.drop_last() =~= es.take(j as int));
        assert(t.last() == kes@[j as int]@);
        if j > 0 {
            out.push('\n');
        }
        push_edit_command(&mut out, j, &kes[j]);
        j = j + 1;
        assert(out@ =~= mid + edit_commands(es.take(j as int)));
    }
    assert(es.take(j as int) =~= es);
    assert(out@ =~= apply_script(es));
    out
}

/// Wraps `apply` so that it runs in the right client, buffer or draft context.
fn wrap(client: &Option<String>, buffile: &Option<String>, apply: Vec<char>) -> (r: Vec<char>)
    ensures
        r@ == wrap_script(opt_chars(*client), opt_chars(*buffile), apply@),
{
    let mut out: Vec<char> = Vec::new();
    match client {
        None => match buffile {
            Some(b) => {
                push_str(&mut out, "eval -buffer ");
                let bc = chars_of(b.as_str());
                push_quoted(&mut out, &bc);
                push_str(&mut out, " -save-regs ^ ");
                push_quoted(&mut out, &apply);
            },
            None => {
                push_str(&mut out, "eval -draft -save-regs ^ ");
                push_quoted(&mut out, &apply);
            },
        },
        Some(c) => {
            let mut inner: Vec<char> = Vec::new();
            match buffile {
                Some(b) => {
                    push_str(&mut inner, "edit -existing -- ");
                    let bc = chars_of(b.as_str());
                    push_quoted(&mut inner, &bc);
                    push_str(&mut inner, "\n");
                    push_chars(&mut inner, &apply);
                },
                None => {
                    push_chars(&mut inner, &apply);
                },
            }
            push_str(&mut out, "eval -client ");
            let cc = chars_of(c.as_str());
            push_chars(&mut out, &cc);
            push_str(&mut out, " -draft -save-regs ^ ");
            push_quoted(&mut out, &inner);
        },
    }
    assert(out@ =~= wrap_script(opt_chars(*client), opt_chars(*buffile), apply@));
    out
}

/// The editor script that applies `text_edits` to the buffer holding `text`,
/// for the file `buffile` if known, in the client `client` if named: the
/// edits are stably sorted by range, coalesced, and stripped of redundant
/// single-line edits first. `None` when there are no edits at all.
pub fn buffer_edit_script<T: TextEditish>(
    client: &Option<String>,
    buffile: Option<String>,
    text_edits: Vec<T>,
    text: &Text,
    offset_encoding: OffsetEncoding,
) -> (r: Option<String>)
    requires
        lines_in_bounds(text@, edit_models(text_edits@)),
    ensures
        r is None <==> text_edits@.len() == 0,
        r is Some ==> r->0@ == edit_script(
            text@,
            offset_encoding,
            opt_chars(*client),
            opt_chars(buffile),
            normalized(text@, offset_encoding, stable_sorted(edit_models(text_edits@))),
        ),
{
    if text_edits.len() == 0 {
        return None;
    }
    let ghost input = edit_models(text_edits@);
    let sorted = sort_edits(text_edits);
    let ghost sorted_model = sorted@.map_values(|e: TextEdit| e@);
    proof {
        lemma_sorted_in_bounds(text@, input, sorted_model);
        lemma_coalesce_in_bounds(text@, offset_encoding, sorted_model);
        lemma_drop_in_bounds(text@, offset_encoding, coalesce(text@, offset_encoding, sorted_model));
    }
    let coalesced = coalesce_edits(text, offset_encoding, sorted);
    let kept = drop_redundant_edits(text, offset_encoding, coalesced);
    let ghost kept_model = kept@.map_values(|e: TextEdit| e@);
    assert(kept_model == normalized(text@, offset_encoding, sorted_model));
    let mut rest = kept;
    let mut kes: Vec<KakouneTextEdit> = Vec::new();
    let ghost mut n: int = 0;
    assert(kes@.map_values(|e: KakouneTextEdit| e@) =~= kept_model.take(0).map_values(
        |e: EditModel| kakoune_edit(text@, offset_encoding, e),
    ));
    while rest.len() > 0
        invariant
            0 <= n <= kept_model.len(),
            kept_model.len() == n + rest@.len(),
            forall|i: int| 0 <= i < rest@.len() ==> #[trigger] rest@[i]@ == kept_model[n + i],
            lines_in_bounds(text@, kept_model),
            kes@.map_values(|e: KakouneTextEdit| e@) == kept_model.take(n).map_values(
                |e: EditModel| kakoune_edit(text@, offset_encoding, e),
            ),
        decreases rest@.len(),
    {
        let e = rest.remove(0);
        assert(e@ == kept_model[n]);
        let ke = lsp_text_edit_to_kakoune(e, text, offset_encoding);
        assert(ke@ == kakoune_edit(text@, offset_encoding, kept_model[n]));
        let ghost before = kes@;
        assert(before.map_values(|e: KakouneTextEdit| e@).len() == n);
        assert(before.len() == n);
        kes.push(ke);
        proof {
            n = n + 1;
            assert forall|i: int| 0 <= i < n implies #[trigger] kes@[i]@ == kakoune_edit(
                text@,
                offset_encoding,
                kept_model[i],
            ) by {
                if i < n - 1 {
                    assert(kes@[i] == before[i]);
                    assert(before.map_values(|e: KakouneTextEdit| e@)[i] == kept_model.take(
                        n - 1,
                    ).map_values(|e: EditModel| kakoune_edit(text@, offset_encoding, e))[i]);
                }
            }
        }
        assert(kes@.map_values(|e: KakouneTextEdit| e@) =~= kept_model.take(n).map_values(
            |e: EditModel| kakoune_edit(text@, offset_encoding, e),
        ));
    }
    assert(kept_model.take(n) == kept_model);
    let apply = build_apply_script(&kes);
    let script = wrap(client, &buffile, apply);
    Some(string_of(script))
}

#[verifier::external_type_specification]
#[verifier::external_body]
pub struct ExUrl(lsp_types::Url);

/// Relies on url::Url::to_file_path and std's Path::to_str: the local file
/// path that `uri` names, when it names one and the path is UTF-8.
#[verifier::external_body]
fn buffile_of(uri: &lsp_types::Url) -> (r: Option<String>) {
    match uri.to_file_path() {
        Ok(path) => path.to_str().map(String::from),
        Err(_) => None,
    }
}

/// The editor script that applies `text_edits` to the buffer holding `text`
/// of the document `uri`, as `buffer_edit_script` makes it for the file path
/// that `uri` names (none without a `uri`). `None` when there are no edits.
pub fn apply_text_edits_to_buffer<T: TextEditish>(
    client: &Option<String>,
    uri: Option<&lsp_types::Url>,
    text_edits: Vec<T>,
    text: &Text,
    offset_encoding: OffsetEncoding,
) -> (r: Option<String>)
    requires
        lines_in_bounds(text@, edit_models(text_edits@)),
    ensures
        r is None <==> text_edits@.len() == 0,
        r is Some ==> exists|buffile: Option<Seq<char>>|
            (uri is None ==> buffile is None) && r->0@ == edit_script(
                text@,
                offset_encoding,
                opt_chars(*client),
                buffile,
                normalized(text@, offset_encoding, stable_sorted(edit_models(text_edits@))),
            ),
{
    let buffile = match uri {
        Some(u) => buffile_of(u),
        None => None,
    };
    buffer_edit_script(client, buffile, text_edits, text, offset_encoding)
}

/// Whether every edit of `text_edits` names lines that `text` has.
pub fn lines_within<T: TextEditish>(text: &Text, text_edits: &Vec<T>) -> (r: bool)
    ensures
        r == lines_in_bounds(text@, edit_models(text_edits@)),
{
    let lines = text.len_lines();
    let ghost models = edit_models(text_edits@);
    let mut i: usize = 0;
    while i < text_edits.len()
        invariant
            i <= text_edits@.len(),
            lines == line_count(text@),
            models == edit_models(text_edits@),
            forall|k: int|
                0 <= k < i ==> (#[trigger] models[k]).range.start.line < line_count(text@)
                    && models[k].range.end.line < line_count(text@),
        decreases text_edits@.len() - i,
    {
        let e = text_edits[i].as_ref();
        assert(e@ == models[i as int]);
        if e.range.start.line as usize >= lines || e.range.end.line as usize >= lines {
            return false;
        }
        i = i + 1;
    }
    true
}

/// The command to send to the editor for `text_edits`: the script of
/// `apply_text_edits_to_buffer`, or a no-op when there are no edits, so that
/// an editor waiting for an answer always gets one. An edit naming a line
/// that `text` lacks is an error.
pub fn buffer_command<T: TextEditish>(
    client: &Option<String>,
    uri: Option<&lsp_types::Url>,
    text_edits: Vec<T>,
    text: &Text,
    offset_encoding: OffsetEncoding,
) -> (r: Result<String, PatchError>)
    ensures
        r is Err <==> !lines_in_bounds(text@, edit_models(text_edits@)),
        r matches Err(e) ==> e == PatchError::RangeOutOfBounds,
        text_edits@.len() == 0 ==> (r is Ok && r->Ok_0@ == "nop"@),
        (r is Ok && text_edits@.len() > 0) ==> exists|buffile: Option<Seq<char>>|
            (uri is None ==> buffile is None) && r->Ok_0@ == edit_script(
                text@,
                offset_encoding,
                opt_chars(*client),
                buffile,
                normalized(text@, offset_encoding, stable_sorted(edit_models(text_edits@))),
            ),
{
    if !lines_within(text, &text_edits) {
        return Err(PatchError::RangeOutOfBounds);
    }
    match apply_text_edits_to_buffer(client, uri, text_edits, text, offset_encoding) {
        Some(cmd) => Ok(cmd),
        None => Ok(String::from_str("nop")),
    }
}

} // verus!
