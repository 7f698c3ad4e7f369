//! A document held as UTF-8 bytes, with a table of where each line starts.
use vstd::prelude::*;
use vstd::string::StringSliceAdditionalSpecFns;

verus! {

/// Whether a line break ends just before byte offset `k` of `s`. Breaks are
/// LF, CR not followed by LF (a CRLF pair is one break, ending after its LF),
/// VT, FF, and the UTF-8 forms of NEL (U+0085), LINE SEPARATOR (U+2028) and
/// PARAGRAPH SEPARATOR (U+2029).
pub open spec fn breaks_before(s: Seq<u8>, k: int) -> bool {
    1 <= k <= s.len() && {
        let b = s[k - 1];
        ||| b == 0x0A
        ||| b == 0x0D && (k == s.len() || s[k] != 0x0A)
        ||| b == 0x0B
        ||| b == 0x0C
        ||| (k >= 2 && s[k - 2] == 0xC2 && b == 0x85)
        ||| (k >= 3 && s[k - 3] == 0xE2 && s[k - 2] == 0x80 && (b == 0xA8 || b == 0xA9))
    }
}

/// Offsets at which lines start, among `0..=n`: the first line at 0, and one
/// more line after each break that ends at or before `n`.
pub open spec fn starts_upto(s: Seq<u8>, n: int) -> Seq<int>
    decreases n,
{
    if n <= 0 {
        seq![0int]
    } else {
        let p = starts_upto(s, n - 1);
        if breaks_before(s, n) {
            p.push(n)
        } else {
            p
        }
    }
}

/// Byte offsets at which the lines of `s` start (so a text ending in a line
/// break has an empty last line).
pub open spec fn line_starts(s: Seq<u8>) -> Seq<int> {
    starts_upto(s, s.len() as int)
}

/// Number of lines of `s`.
pub open spec fn line_count(s: Seq<u8>) -> nat {
    line_starts(s).len()
}

/// Offset of the first byte of line `i`.
pub open spec fn line_start(s: Seq<u8>, i: int) -> int {
    line_starts(s)[i]
}

/// Offset just past line `i`, its line break included.
pub open spec fn line_end(s: Seq<u8>, i: int) -> int {
    if i + 1 < line_count(s) {
        line_starts(s)[i + 1]
    } else {
        s.len() as int
    }
}

/// The bytes of line `i`, its line break included.
pub open spec fn line_bytes(s: Seq<u8>, i: int) -> Seq<u8> {
    s.subrange(line_start(s, i), line_end(s, i))
}

/// Line starts up to `n` begin at 0, grow strictly, and stay within `0..=n`.
pub proof fn lemma_starts_upto_ordered(s: Seq<u8>, n: int)
    requires
        0 <= n,
    ensures
        starts_upto(s, n).len() >= 1,
        starts_upto(s, n)[0] == 0,
        forall|i: int| 0 <= i < starts_upto(s, n).len() ==> 0 <= #[trigger] starts_upto(s, n)[i] <= n,
        forall|i: int|
            0 <= i < starts_upto(s, n).len() - 1 ==> #[trigger] starts_upto(s, n)[i] < starts_upto(
                s,
                n,
            )[i + 1],
    decreases n,
{
    if n > 0 {
        lemma_starts_upto_ordered(s, n - 1);
    }
}

/// Line starts begin at 0, grow strictly, and stay within the text.
pub proof fn lemma_line_starts_ordered(s: Seq<u8>)
    ensures
        line_starts(s).len() >= 1,
        line_starts(s)[0] == 0,
        forall|i: int| 0 <= i < line_starts(s).len() ==> 0 <= #[trigger] line_starts(s)[i] <= s.len(),
        forall|i: int|
            0 <= i < line_starts(s).len() - 1 ==> #[trigger] line_starts(s)[i] < line_starts(s)[i + 1],
{
    lemma_starts_upto_ordered(s, s.len() as int);
}

/// Every line lies within the text and starts no later than it ends.
pub proof fn lemma_line_bounds(s: Seq<u8>, i: int)
    requires
        0 <= i < line_count(s),
    ensures
        0 <= line_start(s, i) <= line_end(s, i) <= s.len(),
{
    lemma_line_starts_ordered(s);
    if i + 1 < line_count(s) {
        assert(line_starts(s)[i] < line_starts(s)[i + 1]);
    }
}

/// A document: its bytes, and the start of each of its lines.
pub struct Text {
    bytes: Vec<u8>,
    starts: Vec<usize>,
}

fn breaks_before_exec(s: &Vec<u8>, k: usize) -> (r: bool)
    requires
        1 <= k <= s@.len(),
    ensures
        r == breaks_before(s@, k as int),
{
    let b = s[k - 1];
    if b == 0x0A || b == 0x0B || b == 0x0C {
        return true;
    }
    if b == 0x0D {
        return k == s.len() || s[k] != 0x0A;
    }
    if k >= 2 && s[k - 2] == 0xC2 && b == 0x85 {
        return true;
    }
    k >= 3 && s[k - 3] == 0xE2 && s[k - 2] == 0x80 && (b == 0xA8 || b == 0xA9)
}

impl View for Text {
    type V = Seq<u8>;

    open spec fn view(&self) -> Seq<u8> {
        self.content()
    }
}

impl Text {
    /// The bytes of the document.
    pub closed spec fn content(&self) -> Seq<u8> {
        self.bytes@
    }

    #[verifier::type_invariant]
    closed spec fn inv(&self) -> bool {
        &&& self.bytes@.len() < usize::MAX
        &&& self.starts@.len() == line_count(self.bytes@)
        &&& forall|i: int|
            0 <= i < self.starts@.len() ==> #[trigger] self.starts@[i] as int == line_starts(
                self.bytes@,
            )[i]
    }

    /// Builds the document holding the UTF-8 bytes of `s`.
    pub fn from_str(s: &str) -> (r: Text)
        requires
            s.spec_bytes().len() < usize::MAX,
        ensures
            r@ == s.spec_bytes(),
    {
        let b = s.as_bytes();
        let mut bytes: Vec<u8> = Vec::new();
        let mut i: usize = 0;
        while i < b.len()
            invariant
                i <= b@.len(),
                bytes@ == b@.take(i as int),
            decreases b@.len() - i,
        {
            bytes.push(b[i]);
            i = i + 1;
            assert(bytes@ =~= b@.take(i as int));
        }
        assert(bytes@ =~= b@);
        let mut starts: Vec<usize> = Vec::new();
        starts.push(0);
        let mut k: usize = 1;
        while k <= bytes.len()
            invariant
                1 <= k <= bytes@.len() + 1,
                bytes@.len() < usize::MAX,
                starts@.len() == starts_upto(bytes@, k - 1).len(),
                forall|j: int|
                    0 <= j < starts@.len() ==> #[trigger] starts@[j] as int == starts_upto(
                        bytes@,
                        k - 1,
                    )[j],
            decreases bytes@.len() + 1 - k,
        {
            if breaks_before_exec(&bytes, k) {
                starts.push(k);
            }
            k = k + 1;
        }
        Text { bytes, starts }
    }

    /// Number of lines.
    pub fn len_lines(&self) -> (r: usize)
        ensures
            r == line_count(self@),
    {
        proof {
            use_type_invariant(self);
        }
        self.starts.len()
    }

    /// Number of bytes.
    pub fn len_bytes(&self) -> (r: usize)
        ensures
            r == self@.len(),
            r < usize::MAX,
    {
        proof {
            use_type_invariant(self);
        }
        self.bytes.len()
    }

    /// The byte at offset `i`.
    pub fn byte(&self, i: usize) -> (r: u8)
        requires
            i < self@.len(),
        ensures
            r == self@[i as int],
    {
        self.bytes[i]
    }

    /// Offset of the first byte of line `i`.
    pub fn line_to_byte(&self, i: usize) -> (r: usize)
        requires
            i < line_count(self@),
        ensures
            r == line_start(self@, i as int),
            self@.len() < usize::MAX,
    {
        proof {
            use_type_invariant(self);
        }
        self.starts[i]
    }

    /// Offset just past line `i`, its line break included.
    pub fn line_end(&self, i: usize) -> (r: usize)
        requires
            i < line_count(self@),
        ensures
            r == line_end(self@, i as int),
    {
        proof {
            use_type_invariant(self);
        }
        if i < self.starts.len() - 1 {
            self.starts[i + 1]
        } else {
            self.bytes.len()
        }
    }
}

} // verus!
