use vstd::prelude::*;
use crate::engine::context::CoverageData;
use crate::engine::pass::{Candidate, ReductionPass, removals_of, is_removal_of};
use crate::parser::span::ByteRange;
use crate::passes::util::{extend_to_line, line_begin, line_stop};
use crate::text::{bytes, slice_ok, lines, lines_from, line_end, next_line, trimmed, trim_bounds, starts_with, range_starts_with, byte_from, find_byte_or_end, line_offset, lemma_nl_from, lemma_byte_from, lemma_lines_from_shape};

verus! {

broadcast use vstd::utf8::encode_utf8_valid_utf8;

/// Removes `typedef` declarations, one line-based candidate per typedef.
#[derive(Debug, Default)]
pub struct TypedefPass;

/// A line whose trimmed text starts with `typedef `.
pub open spec fn is_typedef_line(b: Seq<u8>, l: (int, int)) -> bool {
    starts_with(trimmed(b, l.0, l.1), bytes("typedef "))
}

/// Where a typedef that starts at `off` ends: just after the next `;`, or
/// `len` bytes after `off` when no `;` follows.
pub open spec fn typedef_end(b: Seq<u8>, off: int, len: int) -> int {
    if byte_from(b, 0x3b, off) < b.len() {
        byte_from(b, 0x3b, off) + 1
    } else {
        off + len
    }
}

/// The removal spans for the typedef lines among the first `k` lines `ls`;
/// a line is located at the offset that counting one byte per line ending
/// gives, and skipped where that offset and the typedef's end are not
/// character boundaries of the text.
pub open spec fn typedef_spans(b: Seq<u8>, ls: Seq<(int, int)>, k: int) -> Seq<(int, int)>
    decreases k,
{
    if k <= 0 {
        seq![]
    } else {
        let off = line_offset(ls, k - 1);
        let end = typedef_end(b, off, ls[k - 1].1 - ls[k - 1].0);
        typedef_spans(b, ls, k - 1) + if is_typedef_line(b, ls[k - 1]) && slice_ok(b, off, end) {
            seq![(line_begin(b, off), line_stop(b, end))]
        } else {
            seq![]
        }
    }
}

impl TypedefPass {
    /// One removal per line that starts a typedef, in line order.
    pub fn candidates(&self, source: &str) -> (r: Vec<Candidate>)
        ensures
            removals_of(r@, typedef_spans(bytes(source), lines(bytes(source)), lines(bytes(source)).len() as int)),
    {
        let b = source.as_bytes();
        let n = b.len();
        let ghost ls = lines(b@);
        let ghost mut k: int = 0;
        let mut candidates: Vec<Candidate> = Vec::new();
        let mut from: usize = 0;
        let mut off: usize = 0;
        proof {
            lemma_lines_from_shape(b@, 0);
            assert(ls.subrange(0, ls.len() as int) =~= ls);
        }
        while from < n
            invariant
                b@ == bytes(source),
                n == b@.len(),
                ls == lines(b@),
                0 <= k <= ls.len(),
                from <= n,
                lines_from(b@, from as int) == ls.subrange(k, ls.len() as int),
                from < n ==> off == line_offset(ls, k),
                off <= from,
                from < n ==> k < ls.len(),
                from >= n ==> k == ls.len(),
                removals_of(candidates@, typedef_spans(b@, ls, k)),
            decreases n - from,
        {
            proof {
                lemma_nl_from(b@, from as int);
                assert(ls[k] == lines_from(b@, from as int)[0]);
            }
            let (end, nl) = next_line(b, from);
            let (ts, te) = trim_bounds(b, from, end);
            let ghost before = typedef_spans(b@, ls, k);
            if range_starts_with(b, ts, te, "typedef ".as_bytes()) {
                let semi = find_byte_or_end(b, 0x3b, off);
                proof {
                    lemma_byte_from(b@, 0x3b, off as int);
                }
                let tend = if semi < n {
                    semi + 1
                } else {
                    off + (end - from)
                };
                if tend <= n && source.is_char_boundary(off) && source.is_char_boundary(tend) {
                    let extended = extend_to_line(source, ByteRange::new(off, tend));
                    candidates.push(Candidate::removal(extended.to_range()));
                }
            }
            proof {
                let next = typedef_spans(b@, ls, k + 1);
                assert forall|j: int| 0 <= j < candidates@.len() implies is_removal_of(
                    #[trigger] candidates@[j],
                    next[j],
                ) by {
                    if j < before.len() {
                        assert(next[j] == before[j]);
                    }
                }
                let rest = lines_from(b@, nl + 1);
                assert(lines_from(b@, from as int) == seq![(from as int, line_end(b@, from as int))] + rest);
                assert(ls.subrange(k + 1, ls.len() as int) =~= ls.subrange(k, ls.len() as int).drop_first());
                k = k + 1;
            }
            if nl >= n {
                proof {
                    assert(lines_from(b@, nl + 1) == Seq::<(int, int)>::empty());
                }
                from = n;
            } else {
                off = off + (end - from) + 1;
                from = nl + 1;
            }
        }
        candidates
    }
}

impl ReductionPass for TypedefPass {
    /// One removal per line that the pass removes, in line order.
    open spec fn proposes(&self, source: Seq<char>, coverage: Option<CoverageData>, r: Seq<Candidate>) -> bool {
        let b = vstd::utf8::encode_utf8(source);
        removals_of(r, typedef_spans(b, lines(b), lines(b).len() as int))
    }

    fn apply(&self, source: &str, _coverage: Option<&CoverageData>) -> (r: Vec<Candidate>)
        ensures
            removals_of(r@, typedef_spans(bytes(source), lines(bytes(source)), lines(bytes(source)).len() as int)),
    {
        self.candidates(source)
    }
}

} // verus!
