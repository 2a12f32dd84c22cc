use vstd::prelude::*;
use std::collections::HashSet;
use crate::engine::pass::{Candidate, removals_of, is_removal_of};
use crate::parser::span::ByteRange;
use crate::passes::util::{extend_to_line, line_begin, line_stop};
use crate::text::{INCLUDE_SP, INCLUDE_TAB, bytes, slice_ok, lines, lines_from, line_end, next_line, trimmed, trim_bounds, starts_with, range_starts_with, line_offset, lemma_nl_from, lemma_lines_from_shape};

verus! {

broadcast use {vstd::utf8::encode_utf8_valid_utf8, vstd::std_specs::hash::group_hash_axioms};

/// Removes the preprocessor inclusion directives that clangd reports as unused.
#[derive(Debug, Default)]
pub struct HeaderRemovalPass;

/// A line whose trimmed text starts with the inclusion directive and a
/// space or a tab.
pub open spec fn is_include_directive(b: Seq<u8>, l: (int, int)) -> bool {
    starts_with(trimmed(b, l.0, l.1), INCLUDE_SP@) || starts_with(
        trimmed(b, l.0, l.1),
        INCLUDE_TAB@,
    )
}

/// The removal spans for the include lines among the first `k` lines `ls`
/// whose 0-based number is in `unused`; a line is located at the offset
/// that counting one byte per line ending gives, and skipped where that
/// offset and the line's end are not character boundaries of the text.
pub open spec fn unused_include_spans(
    b: Seq<u8>,
    ls: Seq<(int, int)>,
    unused: Set<usize>,
    k: int,
) -> Seq<(int, int)>
    decreases k,
{
    if k <= 0 {
        seq![]
    } else {
        let off = line_offset(ls, k - 1);
        let end = off + (ls[k - 1].1 - ls[k - 1].0);
        unused_include_spans(b, ls, unused, k - 1) + if is_include_directive(b, ls[k - 1])
            && unused.contains((k - 1) as usize) && slice_ok(b, off, end) {
            seq![(line_begin(b, off), line_stop(b, end))]
        } else {
            seq![]
        }
    }
}

impl HeaderRemovalPass {
    /// One removal per inclusion directive line whose 0-based line number is in
    /// `unused_lines` (the lines clangd flags with `unused-includes`), in
    /// line order.
    pub fn candidates(&self, source: &str, unused_lines: &HashSet<usize>) -> (r: Vec<Candidate>)
        ensures
            removals_of(
                r@,
                unused_include_spans(
                    bytes(source),
                    lines(bytes(source)),
                    unused_lines@,
                    lines(bytes(source)).len() as int,
                ),
            ),
    {
        let b = source.as_bytes();
        let n = b.len();
        let ghost ls = lines(b@);
        let ghost mut k: int = 0;
        let mut candidates: Vec<Candidate> = Vec::new();
        let mut from: usize = 0;
        let mut off: usize = 0;
        let mut line_num: usize = 0;
        proof {
            lemma_lines_from_shape(b@, 0);
            assert(ls.subrange(0, ls.len() as int) =~= ls);
        }
        while from < n
            invariant
                b@ == bytes(source),
                n == b@.len(),
                ls == lines(b@),
                0 <= k <= ls.len(),
                from <= n,
                lines_from(b@, from as int) == ls.subrange(k, ls.len() as int),
                from < n ==> off == line_offset(ls, k),
                from < n ==> line_num == k,
                line_num <= from,
                off <= from,
                from < n ==> k < ls.len(),
                from >= n ==> k == ls.len(),
                removals_of(candidates@, unused_include_spans(b@, ls, unused_lines@, k)),
            decreases n - from,
        {
            proof {
                lemma_nl_from(b@, from as int);
                assert(ls[k] == lines_from(b@, from as int)[0]);
            }
            let (end, nl) = next_line(b, from);
            let (ts, te) = trim_bounds(b, from, end);
            let ghost before = unused_include_spans(b@, ls, unused_lines@, k);
            let is_include = range_starts_with(b, ts, te, &INCLUDE_SP)
                || range_starts_with(b, ts, te, &INCLUDE_TAB);
            if is_include && unused_lines.contains(&line_num) {
                let tend = off + (end - from);
                if tend <= n && source.is_char_boundary(off) && source.is_char_boundary(tend) {
                    let extended = extend_to_line(source, ByteRange::new(off, tend));
                    candidates.push(Candidate::removal(extended.to_range()));
                }
            }
            proof {
                let next = unused_include_spans(b@, ls, unused_lines@, k + 1);
                assert forall|j: int| 0 <= j < candidates@.len() implies is_removal_of(
                    #[trigger] candidates@[j],
                    next[j],
                ) by {
                    if j < before.len() {
                        assert(next[j] == before[j]);
                    }
                }
                let rest = lines_from(b@, nl + 1);
                assert(lines_from(b@, from as int) == seq![(from as int, line_end(b@, from as int))] + rest);
                assert(ls.subrange(k + 1, ls.len() as int) =~= ls.subrange(k, ls.len() as int).drop_first());
                k = k + 1;
            }
            if nl >= n {
                proof {
                    assert(lines_from(b@, nl + 1) == Seq::<(int, int)>::empty());
                }
                from = n;
            } else {
                off = off + (end - from) + 1;
                line_num = line_num + 1;
                from = nl + 1;
            }
        }
        candidates
    }
}

} // verus!
