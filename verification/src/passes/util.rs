use vstd::prelude::*;
use crate::parser::span::ByteRange;
use crate::text::{newlines_before, bytes, slice_ok, nl_from, lemma_nl_from, rfind_byte, find_byte, lemma_ascii_boundaries};

verus! {

broadcast use vstd::utf8::encode_utf8_valid_utf8;

/// The offset just after the last newline before `i`, or 0: where the line
/// holding offset `i` begins.
pub open spec fn line_begin(b: Seq<u8>, i: int) -> int
    decreases i,
{
    if i <= 0 {
        0
    } else if i <= b.len() && b[i - 1] == 0x0a {
        i
    } else {
        line_begin(b, i - 1)
    }
}

/// The offset just after the first newline at or after `i`, or `i` itself
/// when no newline follows.
pub open spec fn line_stop(b: Seq<u8>, i: int) -> int {
    if nl_from(b, i) < b.len() {
        nl_from(b, i) + 1
    } else {
        i
    }
}

/// The offsets at which the lines of `b[..n]` start: 0, and one past every
/// newline.
pub open spec fn line_start_seq(b: Seq<u8>, n: int) -> Seq<usize>
    decreases n,
{
    if n <= 0 {
        seq![0usize]
    } else if b[n - 1] == 0x0a {
        line_start_seq(b, n - 1).push(n as usize)
    } else {
        line_start_seq(b, n - 1)
    }
}

/// `r` is how many elements of `s` are at most `x`, for ascending `s`.
pub open spec fn count_at_most(s: Seq<usize>, x: usize, r: int) -> bool {
    &&& 0 <= r <= s.len()
    &&& forall|i: int| 0 <= i < r ==> s[i] <= x
    &&& forall|i: int| r <= i < s.len() ==> s[i] > x
}

/// The 1-based line of byte `offset` (offsets past the end count as the end).
pub open spec fn line_number(b: Seq<u8>, offset: int) -> int {
    1 + newlines_before(b, if offset < b.len() { offset } else { b.len() as int }) as int
}

/// The line starts of `b[..n]` at or before `x` are exactly the first
/// `line_number(b[..n], x)` of them.
pub proof fn lemma_line_starts_count(b: Seq<u8>, n: int, x: usize)
    requires
        0 <= n <= b.len(),
        b.len() <= usize::MAX,
    ensures
        count_at_most(line_start_seq(b, n), x, 1 + newlines_before(b, if x < n { x as int } else { n }) as int),
    decreases n,
{
    lemma_line_starts_ascending(b, n);
    if n > 0 {
        lemma_line_starts_count(b, n - 1, x);
        lemma_line_starts_ascending(b, n - 1);
        let s = line_start_seq(b, n - 1);
        let c1 = 1 + newlines_before(b, if x < n - 1 { x as int } else { n - 1 }) as int;
        let c = 1 + newlines_before(b, if x < n { x as int } else { n }) as int;
        assert(count_at_most(s, x, c1));
        if x >= n {
            assert(newlines_before(b, n) == newlines_before(b, n - 1) + if b[n - 1] == 0x0a {
                1nat
            } else {
                0nat
            });
            assert forall|i: int| 0 <= i < s.len() implies s[i] <= x by {
                assert(s[i] <= n - 1);
            }
            assert(c1 == s.len()) by {
                if c1 < s.len() {
                    assert(s[c1] > x);
                    assert(s[c1] <= n - 1);
                }
            }
            if b[n - 1] == 0x0a {
                assert(line_start_seq(b, n) == s.push(n as usize));
                assert(c == c1 + 1);
            } else {
                assert(line_start_seq(b, n) == s);
                assert(c == c1);
            }
        } else {
            assert(c == c1);
            if b[n - 1] == 0x0a {
                assert(line_start_seq(b, n) == s.push(n as usize));
                assert(line_start_seq(b, n)[s.len() as int] == n);
            } else {
                assert(line_start_seq(b, n) == s);
            }
        }
    } else {
        assert(line_start_seq(b, 0) == seq![0usize]);
    }
}

pub proof fn lemma_newlines_bound(b: Seq<u8>, e: int)
    requires
        0 <= e <= b.len(),
    ensures
        newlines_before(b, e) <= e,
    decreases e,
{
    if e > 0 {
        lemma_newlines_bound(b, e - 1);
    }
}

/// Maps byte offsets of a text to 1-based line numbers.
pub struct LineIndex {
    line_starts: Vec<usize>,
    text: Ghost<Seq<u8>>,
}

impl LineIndex {
    #[verifier::type_invariant]
    closed spec fn well_formed(self) -> bool {
        &&& self.line_starts@ == line_start_seq(self.text@, self.text@.len() as int)
        &&& self.text@.len() <= usize::MAX
    }

    /// The text the index was built for.
    pub closed spec fn text(&self) -> Seq<u8> {
        self.text@
    }

    /// The offsets at which its lines start.
    pub closed spec fn starts(&self) -> Seq<usize> {
        self.line_starts@
    }

    /// Indexes the line starts of `source`.
    pub fn new(source: &str) -> (idx: LineIndex)
        ensures
            idx.text() == bytes(source),
            idx.starts() == line_start_seq(bytes(source), bytes(source).len() as int),
    {
        let b = source.as_bytes();
        let mut line_starts: Vec<usize> = Vec::new();
        line_starts.push(0);
        let mut i: usize = 0;
        while i < b.len()
            invariant
                i <= b@.len(),
                b@ == bytes(source),
                line_starts@ == line_start_seq(b@, i as int),
            decreases b.len() - i,
        {
            if b[i] == 0x0a {
                line_starts.push(i + 1);
            }
            i += 1;
        }
        LineIndex { line_starts, text: Ghost(b@) }
    }

    /// The 1-based line holding byte `offset`: the number of line starts at
    /// or before it.
    pub fn line_of(&self, offset: usize) -> (r: usize)
        ensures
            count_at_most(self.starts(), offset, r as int),
            r == line_number(self.text(), offset as int),
            r >= 1,
    {
        proof {
            use_type_invariant(self);
            lemma_line_starts_ascending(self.text@, self.text@.len() as int);
            lemma_line_starts_count(self.text@, self.text@.len() as int, offset);
        }
        let s = &self.line_starts;
        let mut lo: usize = 0;
        let mut hi: usize = s.len();
        while lo < hi
            invariant
                0 <= lo <= hi <= s@.len(),
                forall|i: int| 0 <= i < lo ==> s@[i] <= offset,
                forall|i: int| hi <= i < s@.len() ==> s@[i] > offset,
                forall|i: int, j: int| 0 <= i < j < s@.len() ==> s@[i] < s@[j],
            decreases hi - lo,
        {
            let mid = lo + (hi - lo) / 2;
            if s[mid] <= offset {
                lo = mid + 1;
            } else {
                hi = mid;
            }
        }
        proof {
            assert(s@[0] == 0);
            let c = line_number(self.text@, offset as int);
            assert(lo == c) by {
                if lo < c {
                    assert(s@[lo as int] > offset);
                } else if lo > c {
                    assert(s@[c] <= offset);
                }
            }
        }
        lo
    }
}

/// Line starts are strictly ascending and begin with 0.
pub proof fn lemma_line_starts_ascending(b: Seq<u8>, n: int)
    requires
        n <= b.len(),
        b.len() <= usize::MAX,
    ensures
        line_start_seq(b, n).len() >= 1,
        line_start_seq(b, n)[0] == 0,
        forall|i: int, j: int|
            0 <= i < j < line_start_seq(b, n).len() ==> line_start_seq(b, n)[i] < line_start_seq(
                b,
                n,
            )[j],
        forall|i: int|
            0 <= i < line_start_seq(b, n).len() ==> line_start_seq(b, n)[i] <= (if n < 0 {
                0
            } else {
                n
            }),
    decreases n,
{
    if n > 0 {
        lemma_line_starts_ascending(b, n - 1);
    }
}

/// Widens `range` to whole lines: back to the start of its first line, and
/// forward past the newline that ends its last line (if there is one).
pub fn extend_to_line(source: &str, range: ByteRange) -> (r: ByteRange)
    requires
        range.start <= range.end,
        slice_ok(bytes(source), range.start as int, range.end as int),
    ensures
        r.start == line_begin(bytes(source), range.start as int),
        r.end == line_stop(bytes(source), range.end as int),
        r.start <= range.start,
        range.end <= r.end <= bytes(source).len(),
        slice_ok(bytes(source), r.start as int, r.end as int),
{
    let b = source.as_bytes();
    let n = b.len();
    let start = match rfind_byte(b, 0x0a, range.start) {
        Some(i) => i + 1,
        None => 0,
    };
    proof {
        lemma_line_begin(b@, range.start as int);
        lemma_nl_from(b@, range.end as int);
    }
    let end = match find_byte(b, 0x0a, range.end) {
        Some(i) => {
            assert(i < n);
            i + 1
        },
        None => range.end,
    };
    proof {
        let ls = line_begin(b@, range.start as int);
        assert(start == ls) by {
            if start < ls {
                assert(b@[ls - 1] == 0x0a);
            } else if start > ls {
                assert(b@[start - 1] == 0x0a);
            }
        }
        let nl = nl_from(b@, range.end as int);
        if nl < b@.len() {
            assert(end == nl + 1) by {
                if end - 1 < nl {
                    assert(b@[end - 1] == 0x0a);
                }
            }
        } else {
            assert(end == range.end) by {
                if end != range.end {
                    assert(b@[end - 1] == 0x0a);
                }
            }
        }
        if start > 0 {
            lemma_ascii_boundaries(b@, start - 1);
        }
        if end > range.end {
            lemma_ascii_boundaries(b@, end - 1);
        }
    }
    ByteRange::new(start, end)
}

pub proof fn lemma_line_begin(b: Seq<u8>, i: int)
    requires
        0 <= i <= b.len(),
    ensures
        0 <= line_begin(b, i) <= i,
        line_begin(b, i) > 0 ==> b[line_begin(b, i) - 1] == 0x0a,
        forall|j: int| line_begin(b, i) <= j < i ==> b[j] != 0x0a,
    decreases i,
{
    if i > 0 && b[i - 1] != 0x0a {
        lemma_line_begin(b, i - 1);
    }
}

proof fn lemma_newlines_monotone(b: Seq<u8>, x: int, y: int)
    requires
        0 <= x <= y,
    ensures
        newlines_before(b, x) <= newlines_before(b, y),
    decreases y,
{
    if y > b.len() {
        if x > b.len() {
        } else {
            lemma_newlines_monotone(b, x, b.len() as int);
        }
    } else if x < y {
        lemma_newlines_monotone(b, x, y - 1);
    }
}

/// Later offsets never lie on earlier lines.
pub proof fn line_number_monotone(b: Seq<u8>, x: int, y: int)
    requires
        0 <= x <= y,
    ensures
        line_number(b, x) <= line_number(b, y),
{
    let cx = if x < b.len() { x } else { b.len() as int };
    let cy = if y < b.len() { y } else { b.len() as int };
    lemma_newlines_monotone(b, cx, cy);
}

proof fn lemma_no_newlines_between(b: Seq<u8>, x: int, y: int)
    requires
        0 <= x <= y <= b.len(),
        forall|j: int| x <= j < y ==> b[j] != 0x0a,
    ensures
        newlines_before(b, x) == newlines_before(b, y),
    decreases y - x,
{
    if x < y {
        lemma_no_newlines_between(b, x, y - 1);
    }
}

/// The start of the line that holds an offset is on that same line: line
/// extension never moves a range's start to another line.
pub proof fn line_begin_same_line(b: Seq<u8>, i: int)
    requires
        0 <= i <= b.len(),
    ensures
        line_number(b, line_begin(b, i)) == line_number(b, i),
{
    lemma_line_begin(b, i);
    lemma_no_newlines_between(b, line_begin(b, i), i);
}

/// A line-extended range starts at the start of a line, and ends after a
/// newline or where the range ended when no newline follows.
pub proof fn extension_reaches_line_ends(b: Seq<u8>, s: int, e: int)
    requires
        0 <= s <= e <= b.len(),
    ensures
        line_begin(b, s) == 0 || b[line_begin(b, s) - 1] == 0x0a,
        line_stop(b, e) == e || (e < line_stop(b, e) <= b.len() && b[line_stop(b, e) - 1] == 0x0a),
        line_stop(b, e) == e ==> forall|j: int| e <= j < b.len() ==> b[j] != 0x0a,
{
    lemma_line_begin(b, s);
    lemma_nl_from(b, e);
}

} // verus!
