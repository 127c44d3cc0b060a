//! Byte-offset spans, and the mapping from byte offsets to line/column
//! locations.

use vstd::prelude::*;

verus! {

use vstd::string::StringSliceAdditionalSpecFns;

/// A byte offset range in the source text.
#[derive(Debug, Clone, Copy, PartialEq, Eq, Structural)]
pub struct Span {
    pub start: usize,
    pub end: usize,
}

impl Span {
    pub fn new(start: usize, end: usize) -> (s: Self)
        ensures
            s == (Span { start, end }),
    {
        Span { start, end }
    }

    /// The smallest span covering both inputs: least start, greatest end.
    pub fn merge(self, other: Span) -> (r: Span)
        ensures
            r == spec_merge(self, other),
    {
        Span {
            start: if self.start <= other.start {
                self.start
            } else {
                other.start
            },
            end: if self.end >= other.end {
                self.end
            } else {
                other.end
            },
        }
    }

    /// A zero-width span at the given offset.
    pub fn empty(offset: usize) -> (s: Self)
        ensures
            s == (Span { start: offset, end: offset }),
    {
        Span { start: offset, end: offset }
    }
}

/// Merged spans take the least start and the greatest end.
pub open spec fn spec_merge(a: Span, b: Span) -> Span {
    Span {
        start: if a.start <= b.start {
            a.start
        } else {
            b.start
        },
        end: if a.end >= b.end {
            a.end
        } else {
            b.end
        },
    }
}

/// A line and column location in the source text (1-indexed).
#[derive(Debug, Clone, Copy, PartialEq, Eq, Structural)]
pub struct Location {
    pub line: usize,
    pub column: usize,
}

impl Location {
    pub fn new(line: usize, column: usize) -> (l: Self)
        ensures
            l == (Location { line, column }),
    {
        Location { line, column }
    }
}

/// The byte offsets at which lines begin: offset `0`, then one entry just past
/// each newline byte, in ascending order.
pub open spec fn line_starts_spec(bytes: Seq<u8>) -> Seq<int>
    decreases bytes.len(),
{
    if bytes.len() == 0 {
        seq![0int]
    } else {
        line_starts_spec(bytes.drop_last()) + if bytes.last() == 10u8 {
            seq![bytes.len() as int]
        } else {
            Seq::empty()
        }
    }
}

/// The index of the line containing a byte offset: the greatest index whose
/// line start is at or before the offset (assuming a sorted start table whose
/// first entry is 0).
pub open spec fn line_index_of(starts: Seq<int>, offset: int) -> int
    decreases starts.len(),
{
    if starts.len() <= 1 {
        0
    } else if starts.last() <= offset {
        starts.len() - 1
    } else {
        line_index_of(starts.drop_last(), offset)
    }
}

proof fn lemma_line_starts_sorted(bytes: Seq<u8>)
    ensures
        line_starts_spec(bytes).len() >= 1,
        line_starts_spec(bytes)[0] == 0,
        forall|i: int, j: int|
            0 <= i < j < line_starts_spec(bytes).len() ==> line_starts_spec(bytes)[i]
                < line_starts_spec(bytes)[j],
        forall|i: int|
            0 <= i < line_starts_spec(bytes).len() ==> 0 <= #[trigger] line_starts_spec(bytes)[i]
                <= bytes.len(),
    decreases bytes.len(),
{
    if bytes.len() > 0 {
        lemma_line_starts_sorted(bytes.drop_last());
    }
}

proof fn lemma_line_index_bounds(starts: Seq<int>, offset: int)
    requires
        starts.len() >= 1,
        starts[0] <= offset,
    ensures
        0 <= line_index_of(starts, offset) < starts.len(),
        starts[line_index_of(starts, offset)] <= offset,
        forall|j: int| line_index_of(starts, offset) < j < starts.len() ==> starts[j] > offset,
    decreases starts.len(),
{
    if starts.len() > 1 && starts.last() > offset {
        lemma_line_index_bounds(starts.drop_last(), offset);
        assert forall|j: int|
            line_index_of(starts, offset) < j < starts.len() implies starts[j] > offset by {
            if j < starts.len() - 1 {
                assert(starts.drop_last()[j] == starts[j]);
            }
        }
    }
}

/// Maps byte offsets to line/column locations.
pub struct SourceMap {
    line_starts: Vec<usize>,
}

impl SourceMap {
    /// The line start table, as mathematical integers.
    pub closed spec fn starts(&self) -> Seq<int> {
        self.line_starts@.map_values(|x: usize| x as int)
    }

    /// Well-formed tables are non-empty, begin at offset 0, and ascend.
    pub closed spec fn wf(&self) -> bool {
        &&& self.starts().len() >= 1
        &&& self.starts()[0] == 0
        &&& forall|i: int, j: int|
            0 <= i < j < self.starts().len() ==> self.starts()[i] < self.starts()[j]
    }

    pub fn new(source: &str) -> (m: SourceMap)
        ensures
            m.wf(),
            m.starts() == line_starts_spec(source.spec_bytes()),
    {
        let bytes = source.as_bytes();
        let n = bytes.len();
        let mut line_starts: Vec<usize> = Vec::new();
        line_starts.push(0);
        let mut i: usize = 0;
        while i < n
            invariant
                i <= n,
                n == bytes@.len(),
                bytes@ == source.spec_bytes(),
                line_starts@.map_values(|x: usize| x as int) == line_starts_spec(bytes@.take(i as int)),
            decreases n - i,
        {
            let ghost prev = line_starts@.map_values(|x: usize| x as int);
            assert(bytes@.take(i + 1).drop_last() =~= bytes@.take(i as int));
            assert(bytes@.take(i + 1).last() == bytes@[i as int]);
            if bytes[i] == 10 {
                line_starts.push(i + 1);
                assert(line_starts@.map_values(|x: usize| x as int) =~= prev + seq![i + 1int]);
            }
            assert(line_starts@.map_values(|x: usize| x as int) =~= line_starts_spec(
                bytes@.take(i + 1),
            ));
            i += 1;
        }
        assert(bytes@.take(n as int) =~= bytes@);
        let m = SourceMap { line_starts };
        proof {
            lemma_line_starts_sorted(source.spec_bytes());
        }
        m
    }

    /// The 1-indexed line and column of a byte offset: the line is the index
    /// of the last line start at or before the offset, and the column counts
    /// bytes from that line start.
    pub fn location(&self, offset: usize) -> (loc: Location)
        requires
            self.wf(),
            offset < usize::MAX,
        ensures
            ({
                let idx = line_index_of(self.starts(), offset as int);
                loc.line == idx + 1 && loc.column == offset - self.starts()[idx] + 1
            }),
    {
        let n = self.line_starts.len();
        let mut lo: usize = 0;
        let mut hi: usize = n;
        while lo < hi
            invariant
                0 <= lo <= hi <= n,
                n == self.starts().len(),
                self.wf(),
                forall|j: int| 0 <= j < lo ==> self.starts()[j] <= offset,
                forall|j: int| hi <= j < n ==> self.starts()[j] > offset,
            decreases hi - lo,
        {
            let mid = lo + (hi - lo) / 2;
            if self.line_starts[mid] <= offset {
                proof {
                    assert forall|j: int| 0 <= j < mid + 1 implies self.starts()[j] <= offset by {
                        if j < mid {
                            assert(self.starts()[j] < self.starts()[mid as int]);
                        }
                    }
                }
                lo = mid + 1;
            } else {
                proof {
                    assert forall|j: int| mid <= j < n implies self.starts()[j] > offset by {
                        if j > mid {
                            assert(self.starts()[mid as int] < self.starts()[j]);
                        }
                    }
                }
                hi = mid;
            }
        }
        let line = lo - 1;
        proof {
            lemma_line_index_bounds(self.starts(), offset as int);
            let idx = line_index_of(self.starts(), offset as int);
            // Both `line` and `idx` are the greatest index at or before the
            // offset, so they coincide.
            assert(self.starts()[line as int] <= offset);
            assert(idx <= line as int || self.starts()[idx] > offset);
            assert(line as int <= idx || self.starts()[line as int] > offset);
        }
        let column = offset - self.line_starts[line];
        Location::new(line + 1, column + 1)
    }
}

} // verus!
