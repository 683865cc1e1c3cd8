use vstd::prelude::*;
use vstd::string::StringSliceAdditionalSpecFns;

verus! {

/// A half-open byte range `[start, end)` in a module's source text.
#[derive(Clone, Copy, Debug, PartialEq, Eq)]
pub struct Span {
    pub start: usize,
    pub end: usize,
}

impl Span {
    /// Whether `byte_index` lies inside the span (start inclusive, end exclusive).
    pub fn contains(&self, byte_index: usize) -> (r: bool)
        ensures
            r == (self.start <= byte_index && byte_index < self.end),
    {
        byte_index >= self.start && byte_index < self.end
    }
}

/// A 1-based line and column; the column counts bytes from the line's start.
#[derive(Clone, Copy, Debug, PartialEq, Eq)]
pub struct LineColumn {
    pub line: usize,
    pub column: usize,
}

/// Offsets just past each line break of `bytes`, in increasing order.
pub open spec fn break_offsets(bytes: Seq<u8>) -> Seq<usize>
    decreases bytes.len(),
{
    if bytes.len() == 0 {
        Seq::empty()
    } else if bytes.last() == 10u8 {
        break_offsets(bytes.drop_last()).push(bytes.len() as usize)
    } else {
        break_offsets(bytes.drop_last())
    }
}

/// Offset 0 followed by every offset that follows a line break.
pub open spec fn all_line_starts(bytes: Seq<u8>) -> Seq<usize> {
    seq![0usize] + break_offsets(bytes)
}

/// The line table kept for a text: empty for an empty text.
pub open spec fn line_starts_of(bytes: Seq<u8>) -> Seq<usize> {
    if bytes.len() > 0 {
        all_line_starts(bytes)
    } else {
        Seq::empty()
    }
}

/// The start offset of the text's last line (0 for a text without line breaks).
pub open spec fn last_start_of(bytes: Seq<u8>) -> usize {
    all_line_starts(bytes).last()
}

/// Number of elements of `s` below `b`.
pub open spec fn rank(s: Seq<usize>, b: usize) -> nat
    decreases s.len(),
{
    if s.len() == 0 {
        0
    } else {
        rank(s.drop_last(), b) + if s.last() < b { 1nat } else { 0nat }
    }
}

/// The 1-based line holding byte `b` of `bytes`, as the line table answers it:
/// a line start answers its own line; any other offset answers the number of line
/// starts below it, unless that number is not below the last line's start offset.
pub open spec fn line_of(bytes: Seq<u8>, b: usize) -> Option<nat> {
    let s = line_starts_of(bytes);
    if s.contains(b) {
        Some(rank(s, b) + 1)
    } else if rank(s, b) >= last_start_of(bytes) {
        None
    } else {
        Some(rank(s, b))
    }
}

/// Line and column of byte `b`; the column is `b` minus the line's start, plus one.
pub open spec fn line_col_of(bytes: Seq<u8>, b: usize) -> Option<LineColumn> {
    match line_of(bytes, b) {
        Some(line) => {
            let s = line_starts_of(bytes);
            let base: int = if 1 <= line <= s.len() { s[line - 1] as int } else { 0 };
            Some(LineColumn { line: line as usize, column: (b - base + 1) as usize })
        },
        None => None,
    }
}

/// Whether byte `b` of `bytes` has a line and column that fit the machine's integers.
pub open spec fn resolvable(bytes: Seq<u8>, b: usize) -> bool {
    line_of(bytes, b) is Some && b < usize::MAX
}

/// The byte offset of `character` bytes into 0-based line `line`, or the text's
/// length where there is no such line.
pub open spec fn byte_index_of(bytes: Seq<u8>, line: usize, character: usize) -> int {
    let s = line_starts_of(bytes);
    if line < s.len() {
        s[line as int] + character
    } else {
        bytes.len() as int
    }
}

pub open spec fn strictly_increasing(s: Seq<usize>) -> bool {
    forall|i: int, j: int| 0 <= i < j < s.len() ==> s[i] < s[j]
}

/// Maps byte offsets of a text to lines and columns and back.
pub struct LineNumbers {
    line_starts: Vec<usize>,
    length: usize,
    last: Option<usize>,
    text: Ghost<Seq<u8>>,
}

proof fn lemma_break_offsets(bytes: Seq<u8>)
    requires
        bytes.len() <= usize::MAX,
    ensures
        strictly_increasing(break_offsets(bytes)),
        forall|i: int|
            0 <= i < break_offsets(bytes).len() ==> 0 < #[trigger] break_offsets(bytes)[i]
                <= bytes.len(),
    decreases bytes.len(),
{
    if bytes.len() > 0 {
        lemma_break_offsets(bytes.drop_last());
    }
}

proof fn lemma_line_starts_increasing(bytes: Seq<u8>)
    requires
        bytes.len() <= usize::MAX,
    ensures
        strictly_increasing(line_starts_of(bytes)),
        strictly_increasing(all_line_starts(bytes)),
        forall|i: int|
            0 <= i < all_line_starts(bytes).len() ==> #[trigger] all_line_starts(bytes)[i]
                <= bytes.len(),
{
    lemma_break_offsets(bytes);
    let b = break_offsets(bytes);
    let a = all_line_starts(bytes);
    assert forall|i: int, j: int| 0 <= i < j < a.len() implies a[i] < a[j] by {
        if i > 0 {
            assert(a[i] == b[i - 1]);
        }
        assert(a[j] == b[j - 1]);
    }
    assert forall|i: int| 0 <= i < a.len() implies #[trigger] a[i] <= bytes.len() by {
        if i > 0 {
            assert(a[i] == b[i - 1]);
        }
    }
}

/// In a strictly increasing sequence, the rank of `b` is the index that splits the
/// elements below `b` from the rest.
proof fn lemma_rank_split(s: Seq<usize>, b: usize, k: int)
    requires
        strictly_increasing(s),
        0 <= k <= s.len(),
        forall|j: int| 0 <= j < k ==> s[j] < b,
        forall|j: int| k <= j < s.len() ==> s[j] >= b,
    ensures
        rank(s, b) == k,
    decreases s.len(),
{
    if s.len() > 0 {
        if k == s.len() {
            lemma_rank_split(s.drop_last(), b, k - 1);
        } else {
            lemma_rank_split(s.drop_last(), b, k);
        }
    }
}

impl LineNumbers {
    /// The text this table was built from, as bytes.
    pub closed spec fn text(&self) -> Seq<u8> {
        self.text@
    }

    pub closed spec fn wf(&self) -> bool {
        &&& self.line_starts@ == line_starts_of(self.text@)
        &&& self.length as int == self.text@.len()
        &&& self.last == Some(last_start_of(self.text@))
        &&& strictly_increasing(self.line_starts@)
        &&& self.line_starts@.len() <= usize::MAX
    }

    /// Builds the line table of `src`.
    pub fn new(src: &str) -> (r: LineNumbers)
        ensures
            r.wf(),
            r.text() == src.spec_bytes(),
    {
        let bytes = src.as_bytes();
        let ghost all = bytes@;
        let mut starts: Vec<usize> = Vec::new();
        starts.push(0);
        let mut i: usize = 0;
        while i < bytes.len()
            invariant
                i <= bytes.len(),
                bytes@ == all,
                starts@ == all_line_starts(all.take(i as int)),
            decreases bytes.len() - i,
        {
            assert(all.take(i + 1).drop_last() == all.take(i as int));
            if bytes[i] == 10u8 {
                starts.push(i + 1);
            }
            i = i + 1;
            assert(all_line_starts(all.take(i as int)) == seq![0usize] + break_offsets(
                all.take(i as int),
            ));
        }
        assert(all.take(i as int) == all);
        proof {
            lemma_line_starts_increasing(all);
        }
        let length = src.len();
        let last = Some(starts[starts.len() - 1]);
        let line_starts = if length > 0 {
            starts
        } else {
            Vec::new()
        };
        assert(line_starts@.len() == line_starts.len());
        LineNumbers { line_starts, length, last, text: Ghost(all) }
    }

    /// Position of `b` among the line starts: `Ok(i)` where it is the i-th start,
    /// else `Err(k)` with `k` the number of starts below it.
    fn search(&self, b: usize) -> (r: Result<usize, usize>)
        requires
            self.wf(),
        ensures
            match r {
                Ok(i) => i < self.line_starts@.len() && self.line_starts@[i as int] == b,
                Err(k) => !self.line_starts@.contains(b) && k == rank(self.line_starts@, b),
            },
    {
        let s = &self.line_starts;
        let mut lo: usize = 0;
        let mut hi: usize = s.len();
        while lo < hi
            invariant
                self.wf(),
                s == &self.line_starts,
                lo <= hi <= s@.len(),
                forall|j: int| 0 <= j < lo ==> s@[j] < b,
                forall|j: int| hi <= j < s@.len() ==> s@[j] > b,
            decreases hi - lo,
        {
            let mid = lo + (hi - lo) / 2;
            if s[mid] == b {
                return Ok(mid);
            } else if s[mid] < b {
                lo = mid + 1;
            } else {
                hi = mid;
            }
        }
        proof {
            lemma_rank_split(s@, b, lo as int);
        }
        Err(lo)
    }

    /// The 1-based line of byte `b`, or `None` where the table has no answer.
    pub fn line_number(&self, b: usize) -> (r: Option<usize>)
        requires
            self.wf(),
        ensures
            r is Some <==> line_of(self.text(), b) is Some,
            r matches Some(l) ==> line_of(self.text(), b) == Some(l as nat),
            r matches Some(l) ==> 1 <= l <= line_starts_of(self.text()).len(),
    {
        proof {
            lemma_rank_prefix(self.line_starts@, b);
            lemma_rank_le_len(self.line_starts@, b);
        }
        match self.search(b) {
            Ok(i) => {
                proof {
                    let s = self.line_starts@;
                    lemma_rank_split(s, b, i as int);
                }
                Some(i + 1)
            },
            Err(k) => {
                match self.last {
                    Some(last) => {
                        if k >= last {
                            None
                        } else {
                            proof {
                                let s = self.line_starts@;
                                if s.len() > 0 {
                                    assert(s[0] == 0);
                                    if k == 0 {
                                        assert(s[0] >= b);
                                        assert(s[0] == b);
                                    }
                                }
                            }
                            Some(k)
                        }
                    },
                    None => None,
                }
            },
        }
    }

    /// Line and column of byte `b`.
    pub fn line_and_column_number(&self, b: usize) -> (r: Option<LineColumn>)
        requires
            self.wf(),
            b < usize::MAX,
        ensures
            r == line_col_of(self.text(), b),
    {
        let line = match self.line_number(b) {
            Some(l) => l,
            None => return None,
        };
        let base = self.line_starts[line - 1];
        proof {
            lemma_rank_le_len(self.line_starts@, b);
            lemma_base_below(self.line_starts@, b, line);
        }
        let column = b - base + 1;
        Some(LineColumn { line, column })
    }

    /// Byte offset of `character` bytes into the 0-based `line`; the text's length
    /// where there is no such line.
    pub fn byte_index(&self, line: usize, character: usize) -> (r: usize)
        requires
            self.wf(),
            line < line_starts_of(self.text()).len() ==> line_starts_of(self.text())[line as int]
                + character <= usize::MAX,
        ensures
            r as int == byte_index_of(self.text(), line, character),
    {
        if line < self.line_starts.len() {
            self.line_starts[line] + character
        } else {
            self.length
        }
    }

    /// Whether `byte_index` of `line` and `character` fits the machine's integers.
    pub fn byte_index_fits(&self, line: usize, character: usize) -> (r: bool)
        requires
            self.wf(),
        ensures
            r == (line < line_starts_of(self.text()).len() ==> line_starts_of(self.text())[line as int]
                + character <= usize::MAX),
    {
        if line < self.line_starts.len() {
            self.line_starts[line].checked_add(character).is_some()
        } else {
            true
        }
    }

    /// Number of lines in the table.
    pub fn line_count(&self) -> (r: usize)
        requires
            self.wf(),
        ensures
            r == line_starts_of(self.text()).len(),
    {
        self.line_starts.len()
    }
}

proof fn lemma_rank_le_len(s: Seq<usize>, b: usize)
    ensures
        rank(s, b) <= s.len(),
    decreases s.len(),
{
    if s.len() > 0 {
        lemma_rank_le_len(s.drop_last(), b);
    }
}

/// The start of the line that `line_of` answers is at or below the byte.
proof fn lemma_base_below(s: Seq<usize>, b: usize, line: usize)
    requires
        strictly_increasing(s),
        1 <= line <= s.len(),
        s.contains(b) ==> line == rank(s, b) + 1,
        !s.contains(b) ==> line == rank(s, b),
    ensures
        s[line - 1] <= b,
{
    lemma_rank_prefix(s, b);
    if s.contains(b) {
        let idx = choose|idx: int| 0 <= idx < s.len() && s[idx] == b;
        let r = rank(s, b) as int;
        assert(idx >= r);
        if r < idx {
            assert(s[r] < s[idx]);
        }
    }
}

/// In a strictly increasing sequence every element before index `rank` is below `b`.
proof fn lemma_rank_prefix(s: Seq<usize>, b: usize)
    requires
        strictly_increasing(s),
    ensures
        forall|j: int| 0 <= j < rank(s, b) ==> s[j] < b,
        forall|j: int| rank(s, b) <= j < s.len() ==> s[j] >= b,
    decreases s.len(),
{
    if s.len() > 0 {
        let t = s.drop_last();
        assert(strictly_increasing(t));
        lemma_rank_prefix(t, b);
        lemma_rank_le_len(t, b);
        let rt = rank(t, b) as int;
        if s.last() < b {
            if rt < t.len() {
                assert(t[rt] >= b);
                assert(s[rt] < s[s.len() - 1]);
            }
            assert(rt == t.len());
            assert forall|j: int| 0 <= j < rank(s, b) implies s[j] < b by {
                if j < t.len() {
                    assert(s[j] == t[j]);
                }
            }
        } else {
            assert forall|j: int| 0 <= j < rank(s, b) implies s[j] < b by {
                assert(s[j] == t[j]);
            }
            assert forall|j: int| rank(s, b) <= j < s.len() implies s[j] >= b by {
                if j < t.len() {
                    assert(s[j] == t[j]);
                }
            }
        }
    }
}

/// Going from a byte to its line and column and back gives the byte again: the byte
/// offset of the column within the line is the byte itself.
pub proof fn lemma_byte_index_of_line_col(bytes: Seq<u8>, b: usize)
    requires
        bytes.len() <= usize::MAX,
        line_starts_of(bytes).len() <= usize::MAX,
        line_col_of(bytes, b) is Some,
        b < usize::MAX,
    ensures
        ({
            let lc = line_col_of(bytes, b)->Some_0;
            byte_index_of(bytes, (lc.line - 1) as usize, (lc.column - 1) as usize) == b
        }),
{
    let s = line_starts_of(bytes);
    lemma_line_starts_increasing(bytes);
    lemma_rank_prefix(s, b);
    lemma_rank_le_len(s, b);
    let line = line_of(bytes, b)->Some_0;
    if s.len() > 0 {
        assert(s[0] == 0);
    }
    if !s.contains(b) && s.len() > 0 && rank(s, b) == 0 {
        assert(s[0] >= b);
        assert(s[0] == b);
    }
    assert(1 <= line <= s.len());
    lemma_base_below(s, b, line as usize);
}

/// A zero-based line and column as an editor counts them.
#[derive(Clone, Copy, Debug, PartialEq, Eq)]
pub struct Position {
    pub line: u32,
    pub character: u32,
}

/// A range between two editor positions.
#[derive(Clone, Copy, Debug, PartialEq, Eq)]
pub struct Range {
    pub start: Position,
    pub end: Position,
}

/// The editor position of byte `b`: line and column made zero-based, cut to 32 bits.
pub open spec fn position_of(bytes: Seq<u8>, b: usize) -> Position {
    let lc = line_col_of(bytes, b)->Some_0;
    Position { line: (lc.line - 1) as u32, character: (lc.column - 1) as u32 }
}

/// The editor range of a span.
pub open spec fn range_of(bytes: Seq<u8>, span: Span) -> Range {
    Range { start: position_of(bytes, span.start), end: position_of(bytes, span.end) }
}

/// Whether byte `b` has a line and column in the table's text.
pub fn is_resolvable(line_numbers: &LineNumbers, b: usize) -> (r: bool)
    requires
        line_numbers.wf(),
    ensures
        r == resolvable(line_numbers.text(), b),
{
    b < usize::MAX && line_numbers.line_number(b).is_some()
}

/// The editor position of byte `b` of the text `line_numbers` was built from.
pub fn position_at(line_numbers: &LineNumbers, b: usize) -> (r: Position)
    requires
        line_numbers.wf(),
        resolvable(line_numbers.text(), b),
    ensures
        r == position_of(line_numbers.text(), b),
{
    let lc = line_numbers.line_and_column_number(b);
    match lc {
        Some(lc) => {
            proof {
                lemma_line_col_positive(line_numbers.text(), b);
            }
            Position { line: (lc.line - 1) as u32, character: (lc.column - 1) as u32 }
        },
        None => Position { line: 0, character: 0 },
    }
}

/// Where a byte has a line, its line and column are at least 1.
pub proof fn lemma_line_col_positive(bytes: Seq<u8>, b: usize)
    requires
        resolvable(bytes, b),
        bytes.len() <= usize::MAX,
        line_starts_of(bytes).len() <= usize::MAX,
    ensures
        line_col_of(bytes, b)->Some_0.line >= 1,
        line_col_of(bytes, b)->Some_0.column >= 1,
{
    let s = line_starts_of(bytes);
    lemma_line_starts_increasing(bytes);
    lemma_rank_prefix(s, b);
    lemma_rank_le_len(s, b);
    if s.len() > 0 {
        assert(s[0] == 0);
    }
    let line = line_of(bytes, b)->Some_0;
    if !s.contains(b) && s.len() > 0 && rank(s, b) == 0 {
        assert(s[0] >= b);
        assert(s[0] == b);
    }
    if 1 <= line <= s.len() {
        lemma_base_below(s, b, line as usize);
    }
}

/// The editor range that a span covers.
pub fn span_to_lsp_range(span: Span, line_numbers: &LineNumbers) -> (r: Range)
    requires
        line_numbers.wf(),
        resolvable(line_numbers.text(), span.start),
        resolvable(line_numbers.text(), span.end),
    ensures
        r == range_of(line_numbers.text(), span),
{
    Range { start: position_at(line_numbers, span.start), end: position_at(line_numbers, span.end) }
}

} // verus!
