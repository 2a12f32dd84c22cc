//! What a reduction reports.
use vstd::prelude::*;
use std::time::Duration;
use crate::text::{bytes, lines, lines_from, line_end, next_line, trimmed, is_blank, lemma_nl_from, lemma_lines_from_shape};

verus! {

/// What one pass did during a reduction.
#[derive(Debug)]
pub struct PassStats {
    pub name: String,
    pub lines_removed: u32,
    pub duration: Duration,
    pub candidates_tried: u32,
    pub candidates_valid: u32,
}

/// How many of the lines `ls[..k]` of `b` are not blank.
pub open spec fn nonblank_lines(b: Seq<u8>, ls: Seq<(int, int)>, k: int) -> nat
    decreases k,
{
    if k <= 0 {
        0
    } else {
        nonblank_lines(b, ls, k - 1) + if trimmed(b, ls[k - 1].0, ls[k - 1].1).len() > 0 {
            1nat
        } else {
            0nat
        }
    }
}

/// The number of non-blank lines of `source` (as `str::lines` splits it),
/// as a `u32` (wrapping past `u32::MAX`).
pub fn count_lines(source: &str) -> (r: u32)
    ensures
        r == (nonblank_lines(bytes(source), lines(bytes(source)), lines(bytes(source)).len() as int) % 0x1_0000_0000),
{
    let b = source.as_bytes();
    let n = b.len();
    let ghost ls = lines(b@);
    let ghost mut k: int = 0;
    let mut count: u32 = 0;
    let mut from: usize = 0;
    proof {
        lemma_lines_from_shape(b@, 0);
        assert(ls.subrange(0, ls.len() as int) =~= ls);
    }
    while from < n
        invariant
            b@ == bytes(source),
            n == b@.len(),
            ls == lines(b@),
            0 <= k <= ls.len(),
            from <= n,
            lines_from(b@, from as int) == ls.subrange(k, ls.len() as int),
            from < n ==> k < ls.len(),
            from >= n ==> k == ls.len(),
            count == nonblank_lines(b@, ls, k) % 0x1_0000_0000,
        decreases n - from,
    {
        proof {
            lemma_nl_from(b@, from as int);
            assert(ls[k] == lines_from(b@, from as int)[0]);
        }
        let (end, nl) = next_line(b, from);
        if !is_blank(b, from, end) {
            count = count.wrapping_add(1);
        }
        proof {
            let rest = lines_from(b@, nl + 1);
            assert(lines_from(b@, from as int) == seq![(from as int, line_end(b@, from as int))] + rest);
            assert(ls.subrange(k + 1, ls.len() as int) =~= ls.subrange(k, ls.len() as int).drop_first());
            k = k + 1;
        }
        if nl >= n {
            proof {
                assert(lines_from(b@, nl + 1) == Seq::<(int, int)>::empty());
            }
            from = n;
        } else {
            from = nl + 1;
        }
    }
    count
}

} // verus!
