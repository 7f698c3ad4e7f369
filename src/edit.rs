//! Text edits as a language server sends them, and their left-to-right order.
use vstd::prelude::*;

verus! {

/// A line and a column, both counted from zero.
#[derive(PartialEq, Eq, Structural, Clone, Copy, Debug)]
pub struct Position {
    pub line: u32,
    pub character: u32,
}

/// The half-open span `[start, end)`.
#[derive(PartialEq, Eq, Structural, Clone, Copy, Debug)]
pub struct Range {
    pub start: Position,
    pub end: Position,
}

/// Replace the text of `range` with `new_text`.
#[derive(Clone, Debug)]
pub struct TextEdit {
    pub range: Range,
    pub new_text: String,
}

/// A text edit that also names a change annotation, which edits ignore.
#[derive(Clone, Debug)]
pub struct AnnotatedTextEdit {
    pub text_edit: TextEdit,
    pub annotation_id: String,
}

/// One of two shapes.
#[derive(Clone, Debug)]
pub enum OneOf<A, B> {
    Left(A),
    Right(B),
}

/// What an edit says: a range and its replacement characters.
pub struct EditModel {
    pub range: Range,
    pub text: Seq<char>,
}

impl View for TextEdit {
    type V = EditModel;

    open spec fn view(&self) -> EditModel {
        EditModel { range: self.range, text: self.new_text@ }
    }
}

/// The shapes in which an edit arrives, each seen as a plain text edit.
pub trait TextEditish: Sized {
    /// The plain edit that this value carries.
    spec fn edit(&self) -> EditModel;

    fn text_edit(self) -> (r: TextEdit)
        ensures
            r@ == self.edit(),
    ;

    fn as_ref(&self) -> (r: &TextEdit)
        ensures
            r@ == self.edit(),
    ;
}

impl TextEditish for TextEdit {
    open spec fn edit(&self) -> EditModel {
        self@
    }

    fn text_edit(self) -> (r: TextEdit) {
        self
    }

    fn as_ref(&self) -> (r: &TextEdit) {
        self
    }
}

impl TextEditish for AnnotatedTextEdit {
    open spec fn edit(&self) -> EditModel {
        self.text_edit@
    }

    fn text_edit(self) -> (r: TextEdit) {
        self.text_edit
    }

    fn as_ref(&self) -> (r: &TextEdit) {
        &self.text_edit
    }
}

impl TextEditish for OneOf<TextEdit, AnnotatedTextEdit> {
    open spec fn edit(&self) -> EditModel {
        match self {
            OneOf::Left(e) => e@,
            OneOf::Right(a) => a.text_edit@,
        }
    }

    fn text_edit(self) -> (r: TextEdit) {
        match self {
            OneOf::Left(e) => e,
            OneOf::Right(a) => a.text_edit,
        }
    }

    fn as_ref(&self) -> (r: &TextEdit) {
        match self {
            OneOf::Left(e) => e,
            OneOf::Right(a) => &a.text_edit,
        }
    }
}

/// The plain edits carried by a sequence of edits of any shape.
pub open spec fn edit_models<T: TextEditish>(s: Seq<T>) -> Seq<EditModel> {
    s.map_values(|t: T| t.edit())
}

/// Position order: by line, then by column.
pub open spec fn position_lt(a: Position, b: Position) -> bool {
    a.line < b.line || (a.line == b.line && a.character < b.character)
}

/// Range order: by start, then by end.
pub open spec fn range_le(a: Range, b: Range) -> bool {
    position_lt(a.start, b.start) || (a.start == b.start && (position_lt(a.end, b.end) || a.end
        == b.end))
}

/// The edits of `s` whose range is exactly `r`, in the order of `s`.
pub open spec fn with_range(s: Seq<EditModel>, r: Range) -> Seq<EditModel> {
    s.filter(|e: EditModel| e.range == r)
}

/// `out` holds the edits of `input` ordered by range, and edits with equal
/// ranges keep their order from `input`.
pub open spec fn is_stable_sort(input: Seq<EditModel>, out: Seq<EditModel>) -> bool {
    &&& forall|i: int, j: int|
        0 <= i < j < out.len() ==> range_le(#[trigger] out[i].range, #[trigger] out[j].range)
    &&& forall|r: Range| #[trigger] with_range(out, r) == with_range(input, r)
}

/// The stable sort of `input`; there is exactly one (`lemma_stable_sort_unique`).
pub open spec fn stable_sorted(input: Seq<EditModel>) -> Seq<EditModel> {
    choose|s: Seq<EditModel>| is_stable_sort(input, s)
}

fn position_lt_exec(a: &Position, b: &Position) -> (r: bool)
    ensures
        r == position_lt(*a, *b),
{
    a.line < b.line || (a.line == b.line && a.character < b.character)
}

fn range_le_exec(a: &Range, b: &Range) -> (r: bool)
    ensures
        r == range_le(*a, *b),
{
    position_lt_exec(&a.start, &b.start) || (a.start == b.start && (position_lt_exec(
        &a.end,
        &b.end,
    ) || a.end == b.end))
}

proof fn lemma_with_range_split(s: Seq<EditModel>, p: int, r: Range)
    requires
        0 <= p <= s.len(),
    ensures
        with_range(s, r) == with_range(s.take(p), r) + with_range(s.skip(p), r),
{
    assert(s == s.take(p) + s.skip(p));
    Seq::filter_distributes_over_add(s.take(p), s.skip(p), |e: EditModel| e.range == r);
}

proof fn lemma_with_range_one(e: EditModel, r: Range)
    ensures
        with_range(seq![e], r) == (if e.range == r {
            seq![e]
        } else {
            Seq::<EditModel>::empty()
        }),
{
    reveal(Seq::filter);
    let one = seq![e];
    let none = Seq::<EditModel>::empty();
    assert(one.drop_last() =~= none);
    assert(none.filter(|x: EditModel| x.range == r) =~= none);
    assert(one.last() == e);
    if e.range == r {
        assert(none.push(e) =~= one);
    }
}

proof fn lemma_with_range_none(s: Seq<EditModel>, r: Range)
    requires
        forall|i: int| 0 <= i < s.len() ==> (#[trigger] s[i]).range != r,
    ensures
        with_range(s, r) == Seq::<EditModel>::empty(),
    decreases s.len(),
{
    reveal(Seq::filter);
    if s.len() > 0 {
        let t = s.drop_last();
        assert forall|i: int| 0 <= i < t.len() implies (#[trigger] t[i]).range != r by {
            assert(t[i] == s[i]);
        }
        lemma_with_range_none(t, r);
        assert(s.last().range != r);
    } else {
        assert(s.filter(|e: EditModel| e.range == r) =~= Seq::<EditModel>::empty());
    }
}

/// Orders edits of any shape by range, keeping the order of edits whose
/// ranges are equal, and hands them out as plain edits.
pub fn sort_edits<T: TextEditish>(edits: Vec<T>) -> (r: Vec<TextEdit>)
    ensures
        is_stable_sort(edit_models(edits@), r@.map_values(|e: TextEdit| e@)),
        r@.map_values(|e: TextEdit| e@) == stable_sorted(edit_models(edits@)),
{
    let ghost input = edit_models(edits@);
    let mut rest = edits;
    let mut out: Vec<TextEdit> = Vec::new();
    let ghost mut n: int = 0;
    assert(input.take(0) =~= out@.map_values(|e: TextEdit| e@));
    while rest.len() > 0
        invariant
            0 <= n <= input.len(),
            input.len() == n + rest@.len(),
            forall|i: int| 0 <= i < rest@.len() ==> #[trigger] rest@[i].edit() == input[n + i],
            is_stable_sort(input.take(n), out@.map_values(|e: TextEdit| e@)),
        decreases rest@.len(),
    {
        let ghost before = out@.map_values(|e: TextEdit| e@);
        let item = rest.remove(0);
        let e = item.text_edit();
        assert(e@ == input[n]);
        let mut p: usize = out.len();
        while p > 0 && !range_le_exec(&out[p - 1].range, &e.range)
            invariant
                p <= out@.len(),
                before == out@.map_values(|e: TextEdit| e@),
                forall|q: int| p <= q < out@.len() ==> !range_le(#[trigger] out@[q].range, e.range),
            decreases p,
        {
            p = p - 1;
        }
        let ghost er = e.range;
        let ghost em = e@;
        out.insert(p, e);
        proof {
            let after = out@.map_values(|e: TextEdit| e@);
            let sorted_in = input.take(n);
            assert(input.take(n + 1) == sorted_in + seq![em]);
            assert(after == before.take(p as int) + seq![em] + before.skip(p as int));
            assert forall|i: int| 0 <= i < p implies range_le(#[trigger] before[i].range, er) by {
                if p > 0 {
                    assert(range_le(before[i].range, before[p - 1].range) || i == p - 1);
                }
            }
            assert forall|i: int, j: int|
                0 <= i < j < after.len() implies range_le(
                #[trigger] after[i].range,
                #[trigger] after[j].range,
            ) by {
                if j < p {
                    assert(after[i] == before[i] && after[j] == before[j]);
                } else if j == p {
                    assert(after[i] == before[i]);
                } else if i < p {
                    assert(after[i] == before[i] && after[j] == before[j - 1]);
                    assert(range_le(before[i].range, er));
                    assert(!range_le(out@[j].range, er));
                } else if i == p {
                    assert(after[j] == before[j - 1]);
                    assert(!range_le(before[j - 1].range, er));
                } else {
                    assert(after[i] == before[i - 1] && after[j] == before[j - 1]);
                }
            }
            assert forall|r: Range| #[trigger] with_range(after, r) == with_range(input.take(n + 1), r) by {
                lemma_with_range_split(before, p as int, r);
                let left = before.take(p as int);
                let right = before.skip(p as int);
                Seq::filter_distributes_over_add(left, seq![em], |e: EditModel| e.range == r);
                Seq::filter_distributes_over_add(left + seq![em], right, |e: EditModel| e.range == r);
                Seq::filter_distributes_over_add(sorted_in, seq![em], |e: EditModel| e.range == r);
                lemma_with_range_one(em, r);
                if er == r {
                    assert forall|i: int| 0 <= i < right.len() implies (#[trigger] right[i]).range != r by {
                        assert(right[i] == before[p + i]);
                        assert(!range_le(out@[p + i + 1].range, er));
                    }
                    lemma_with_range_none(right, r);
                    assert(with_range(right, r) == Seq::<EditModel>::empty());
                }
            }
            n = n + 1;
        }
    }
    assert(input.take(n) == input);
    proof {
        let done = out@.map_values(|e: TextEdit| e@);
        assert(is_stable_sort(input, done));
        lemma_stable_sort_unique(input, done, stable_sorted(input));
    }
    out
}

proof fn lemma_with_range_all(s: Seq<EditModel>, r: Range)
    requires
        forall|i: int| 0 <= i < s.len() ==> (#[trigger] s[i]).range == r,
    ensures
        with_range(s, r) == s,
    decreases s.len(),
{
    reveal(Seq::filter);
    if s.len() > 0 {
        let t = s.drop_last();
        assert forall|i: int| 0 <= i < t.len() implies (#[trigger] t[i]).range == r by {
            assert(t[i] == s[i]);
        }
        lemma_with_range_all(t, r);
        assert(t.push(s.last()) =~= s);
    }
}

/// Two edits with the same range come out of a stable sort in the order
/// in which they went in.
pub proof fn lemma_equal_ranges_keep_order(a: EditModel, b: EditModel, out: Seq<EditModel>)
    requires
        a.range == b.range,
        is_stable_sort(seq![a, b], out),
    ensures
        out == seq![a, b],
{
    let r = a.range;
    let input = seq![a, b];
    lemma_with_range_all(input, r);
    assert forall|i: int| 0 <= i < out.len() implies (#[trigger] out[i]).range == r by {
        let q = out[i].range;
        if q != r {
            let pred = |e: EditModel| e.range == q;
            out.lemma_filter_contains(pred, i);
            assert(with_range(out, q) == with_range(input, q));
            assert(input[0].range != q && input[1].range != q);
            lemma_with_range_none(input, q);
            assert(with_range(input, q).len() == 0);
            assert(false);
        }
    }
    lemma_with_range_all(out, r);
    assert(with_range(out, r) == with_range(input, r));
}

/// Ordered by range.
pub open spec fn is_sorted(s: Seq<EditModel>) -> bool {
    forall|i: int, j: int| 0 <= i < j < s.len() ==> range_le(#[trigger] s[i].range, #[trigger] s[j].range)
}

proof fn lemma_with_range_last(s: Seq<EditModel>, r: Range)
    requires
        s.len() > 0,
    ensures
        s.last().range == r ==> with_range(s, r) == with_range(s.drop_last(), r).push(s.last()),
        s.last().range != r ==> with_range(s, r) == with_range(s.drop_last(), r),
{
    reveal(Seq::filter);
}

proof fn lemma_in_sorted(s: Seq<EditModel>, e: EditModel)
    requires
        is_sorted(s),
        s.len() > 0,
        s.contains(e),
    ensures
        range_le(e.range, s.last().range),
{
    let j = choose|j: int| 0 <= j < s.len() && s[j] == e;
    if j < s.len() - 1 {
        assert(range_le(s[j].range, s[s.len() - 1].range));
    }
}

proof fn lemma_last_in_other(a: Seq<EditModel>, b: Seq<EditModel>)
    requires
        a.len() > 0,
        is_sorted(b),
        forall|r: Range| #[trigger] with_range(a, r) == with_range(b, r),
    ensures
        b.len() > 0,
        range_le(a.last().range, b.last().range),
{
    let x = a.last();
    let r = x.range;
    let pred = |e: EditModel| e.range == r;
    a.lemma_filter_contains(pred, a.len() - 1);
    assert(with_range(a, r) == with_range(b, r));
    b.lemma_filter_contains_rev(pred, x);
    lemma_in_sorted(b, x);
}

/// Two sequences ordered by range that hold the same edits of each range in
/// the same order are equal.
pub proof fn lemma_same_groups_equal(a: Seq<EditModel>, b: Seq<EditModel>)
    requires
        is_sorted(a),
        is_sorted(b),
        forall|r: Range| #[trigger] with_range(a, r) == with_range(b, r),
    ensures
        a == b,
    decreases a.len(),
{
    if a.len() == 0 {
        if b.len() > 0 {
            lemma_last_in_other(b, a);
        }
        assert(a =~= b);
    } else {
        lemma_last_in_other(a, b);
        lemma_last_in_other(b, a);
        let x = a.last();
        let y = b.last();
        let r = x.range;
        assert(x.range == y.range);
        let a1 = a.drop_last();
        let b1 = b.drop_last();
        assert forall|q: Range| #[trigger] with_range(a1, q) == with_range(b1, q) by {
            lemma_with_range_last(a, q);
            lemma_with_range_last(b, q);
            assert(with_range(a, q) == with_range(b, q));
            if q == r {
                assert(with_range(a1, q) == with_range(a, q).drop_last());
                assert(with_range(b1, q) == with_range(b, q).drop_last());
            }
        }
        lemma_with_range_last(a, r);
        lemma_with_range_last(b, r);
        assert(with_range(a, r) == with_range(b, r));
        assert(x == with_range(a, r).last());
        assert(y == with_range(b, r).last());
        assert(is_sorted(a1));
        assert(is_sorted(b1));
        lemma_same_groups_equal(a1, b1);
        assert(a =~= a1.push(x));
        assert(b =~= b1.push(y));
    }
}

/// A list of edits has exactly one stable sort.
pub proof fn lemma_stable_sort_unique(input: Seq<EditModel>, a: Seq<EditModel>, b: Seq<EditModel>)
    requires
        is_stable_sort(input, a),
        is_stable_sort(input, b),
    ensures
        a == b,
{
    assert forall|r: Range| #[trigger] with_range(a, r) == with_range(b, r) by {
        assert(with_range(a, r) == with_range(input, r));
        assert(with_range(b, r) == with_range(input, r));
    }
    lemma_same_groups_equal(a, b);
}

} // verus!
