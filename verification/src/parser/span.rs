use vstd::prelude::*;
use std::ops::Range;
use crate::text::{bytes, slice_ok, str_get};
use vstd::std_specs::convert::FromSpecImpl;

verus! {

/// A half-open range `start..end` of byte offsets into a source text.
#[derive(Debug, Clone, Copy, PartialEq, Eq, Hash)]
pub struct ByteRange {
    pub start: usize,
    pub end: usize,
}

impl ByteRange {
    /// Builds the range `start..end`; the start must not lie after the end.
    pub fn new(start: usize, end: usize) -> (r: ByteRange)
        requires
            start <= end,
        ensures
            r.start == start,
            r.end == end,
    {
        ByteRange { start, end }
    }

    /// The text of `source` covered by this range, when the range lies
    /// within the text and both of its ends fall on character boundaries.
    pub fn extract<'a>(&self, source: &'a str) -> (r: Option<&'a str>)
        ensures
            r is Some <==> slice_ok(bytes(source), self.start as int, self.end as int),
            r matches Some(s) ==> bytes(s) == bytes(source).subrange(
                self.start as int,
                self.end as int,
            ),
    {
        str_get(source, self.start, self.end)
    }

    /// The same range as a `std::ops::Range`.
    pub fn to_range(&self) -> (r: Range<usize>)
        ensures
            r.start == self.start,
            r.end == self.end,
    {
        self.start..self.end
    }
}

impl From<Range<usize>> for ByteRange {
    fn from(range: Range<usize>) -> (r: ByteRange) {
        ByteRange { start: range.start, end: range.end }
    }
}

impl FromSpecImpl<Range<usize>> for ByteRange {
    open spec fn obeys_from_spec() -> bool {
        true
    }

    open spec fn from_spec(range: Range<usize>) -> ByteRange {
        ByteRange { start: range.start, end: range.end }
    }
}

impl From<ByteRange> for Range<usize> {
    fn from(range: ByteRange) -> (r: Range<usize>) {
        range.start..range.end
    }
}

impl FromSpecImpl<ByteRange> for Range<usize> {
    open spec fn obeys_from_spec() -> bool {
        true
    }

    open spec fn from_spec(range: ByteRange) -> Range<usize> {
        Range { start: range.start, end: range.end }
    }
}

} // verus!
