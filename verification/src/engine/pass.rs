use vstd::prelude::*;
use vstd::utf8::*;
use std::ops::Range;
use crate::engine::context::CoverageData;
use crate::text::{bytes, sbytes, slice_ok, substr, push_str, to_owned_string};

verus! {

broadcast use vstd::utf8::encode_utf8_valid_utf8;

/// A proposed edit of a source text: replace the bytes in `range` by
/// `replacement` (a removal when the replacement is empty).
#[derive(Debug)]
pub struct Candidate {
    pub range: Range<usize>,
    pub replacement: String,
}

/// The text that replacing `src[start..end]` by `repl` gives.
pub open spec fn spliced(src: Seq<u8>, start: int, end: int, repl: Seq<u8>) -> Seq<u8> {
    src.subrange(0, start) + repl + src.subrange(end, src.len() as int)
}

impl Candidate {
    /// The candidate that removes `range`.
    pub fn removal(range: Range<usize>) -> (c: Candidate)
        ensures
            c.range == range,
            c.replacement@ == Seq::<char>::empty(),
    {
        Candidate { range, replacement: String::new() }
    }

    /// The candidate that replaces `range` by `replacement`.
    pub fn new(range: Range<usize>, replacement: &str) -> (c: Candidate)
        ensures
            c.range == range,
            c.replacement@ == replacement@,
    {
        Candidate { range, replacement: to_owned_string(replacement) }
    }

    /// The edited text, or `None` when the range does not lie within the
    /// text, is reversed, or cuts through a character.
    pub fn apply(&self, source: &str) -> (r: Option<String>)
        ensures
            r is Some <==> slice_ok(bytes(source), self.range.start as int, self.range.end as int),
            r matches Some(s) ==> sbytes(&s) == spliced(
                bytes(source),
                self.range.start as int,
                self.range.end as int,
                sbytes(&self.replacement),
            ),
    {
        let start = self.range.start;
        let end = self.range.end;
        let n = source.as_bytes().len();
        if start > n || end > n {
            return None;
        }
        if start > end {
            return None;
        }
        if !source.is_char_boundary(start) || !source.is_char_boundary(end) {
            return None;
        }
        proof {
            is_char_boundary_start_end_of_seq(bytes(source));
        }
        let mut result = to_owned_string(substr(source, 0, start));
        push_str(&mut result, self.replacement.as_str());
        push_str(&mut result, substr(source, end, n));
        Some(result)
    }
}

impl Clone for Candidate {
    fn clone(&self) -> (c: Candidate)
        ensures
            c.range == self.range,
            c.replacement == self.replacement,
    {
        Candidate { range: self.range.start..self.range.end, replacement: self.replacement.clone() }
    }
}

/// An edit as a candidate proposes it: replace `start..end` by the bytes.
pub type Edit = (int, int, Seq<u8>);

/// The edit a candidate proposes.
pub open spec fn edit_of(c: Candidate) -> Edit {
    (c.range.start as int, c.range.end as int, sbytes(&c.replacement))
}

/// `c` removes exactly the bytes `span.0..span.1`.
pub open spec fn is_removal_of(c: Candidate, span: (int, int)) -> bool {
    &&& c.range.start == span.0
    &&& c.range.end == span.1
    &&& c.replacement@.len() == 0
}

/// `cs` are the removals of `spans`, in order.
pub open spec fn removals_of(cs: Seq<Candidate>, spans: Seq<(int, int)>) -> bool {
    &&& cs.len() == spans.len()
    &&& forall|i: int| 0 <= i < cs.len() ==> is_removal_of(#[trigger] cs[i], spans[i])
}

/// A source of reduction candidates. Each pass looks at the current text
/// (and, when it has them, the original program's coverage counts) and
/// proposes edits; the pipeline decides which ones to keep.
pub trait ReductionPass {
    /// The pass may propose `r` for the text `source` with the coverage
    /// counts `coverage`. A pass that states nothing of its proposals keeps
    /// this default, under which it may propose anything.
    open spec fn proposes(&self, source: Seq<char>, coverage: Option<CoverageData>, r: Seq<Candidate>) -> bool {
        true
    }

    /// The candidates the pass proposes for `source`.
    fn apply(&self, source: &str, coverage: Option<&CoverageData>) -> (r: Vec<Candidate>)
        ensures
            self.proposes(source@, coverage_value(coverage), r@),
    ;
}

/// The coverage counts a pass is handed, as a value.
pub open spec fn coverage_value(coverage: Option<&CoverageData>) -> Option<CoverageData> {
    match coverage {
        Some(c) => Some(*c),
        None => None,
    }
}

/// Removing `start..end` from a text shortens it by exactly that many
/// bytes, and keeps what lies before and after.
pub proof fn removal_shortens(src: Seq<u8>, start: int, end: int)
    requires
        0 <= start <= end <= src.len(),
    ensures
        spliced(src, start, end, Seq::<u8>::empty()).len() == src.len() - (end - start),
        spliced(src, start, end, Seq::<u8>::empty()).subrange(0, start) == src.subrange(0, start),
        spliced(src, start, end, Seq::<u8>::empty()).subrange(start, src.len() - (end - start)) == src.subrange(
            end,
            src.len() as int,
        ),
{
    let r = spliced(src, start, end, Seq::<u8>::empty());
    assert(r.subrange(0, start) =~= src.subrange(0, start));
    assert(r.subrange(start, src.len() - (end - start)) =~= src.subrange(end, src.len() as int));
}

/// Replacing an empty range by nothing leaves the text as it is.
pub proof fn empty_edit_is_identity(src: Seq<u8>, at: int)
    requires
        0 <= at <= src.len(),
    ensures
        spliced(src, at, at, Seq::<u8>::empty()) == src,
{
    assert(spliced(src, at, at, Seq::<u8>::empty()) =~= src);
}

/// Replacing a range by the text it already holds leaves the text as it is.
pub proof fn replacing_by_itself_is_identity(src: Seq<u8>, start: int, end: int)
    requires
        0 <= start <= end <= src.len(),
    ensures
        spliced(src, start, end, src.subrange(start, end)) == src,
{
    assert(spliced(src, start, end, src.subrange(start, end)) =~= src);
}

} // verus!
