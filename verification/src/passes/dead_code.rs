use vstd::prelude::*;
use crate::engine::context::{CoverageData, line_executed};
use crate::engine::pass::{Candidate, is_removal_of};
use crate::parser::ast::{ParsedUnit, Statement, StatementKind};
use crate::passes::util::{extend_to_line, line_begin, line_stop, line_number};
use crate::text::{bytes, slice_ok, newlines_before, trimmed, is_blank};

verus! {

broadcast use {vstd::utf8::encode_utf8_valid_utf8, vstd::std_specs::hash::group_hash_axioms};

/// Removes statements that the coverage run never executed, one by one and
/// as blocks of adjacent dead statements.
#[derive(Debug, Default)]
pub struct DeadCodePass;

/// Some line in `lo..=hi` executed.
pub open spec fn any_executed(hits: Map<u32, u64>, lo: int, hi: int) -> bool {
    exists|l: int| lo <= l <= hi && #[trigger] line_executed(hits, l as u32)
}

/// Some line in `lo..=hi` has a hit count (is executable).
pub open spec fn any_executable(hits: Map<u32, u64>, lo: int, hi: int) -> bool {
    exists|l: int| lo <= l <= hi && #[trigger] hits.contains_key(l as u32)
}

/// A statement after the header region, other than a block, none of whose
/// lines executed though one of them is executable.
pub open spec fn is_dead(b: Seq<u8>, hits: Map<u32, u64>, header_end: usize, s: Statement) -> bool {
    let lo = line_number(b, s.range.start as int);
    let hi = line_number(b, s.range.end as int);
    &&& s.range.start >= header_end
    &&& !(s.kind is Compound)
    &&& !any_executed(hits, lo, hi)
    &&& any_executable(hits, lo, hi)
}

/// The line-extended ranges of the dead statements among `stmts[..n]`.
pub open spec fn dead_spans(
    b: Seq<u8>,
    hits: Map<u32, u64>,
    header_end: usize,
    stmts: Seq<Statement>,
    n: int,
) -> Seq<(int, int)>
    decreases n,
{
    if n <= 0 {
        seq![]
    } else {
        dead_spans(b, hits, header_end, stmts, n - 1) + if is_dead(b, hits, header_end, stmts[n - 1]) {
            seq![(line_begin(b, stmts[n - 1].range.start as int), line_stop(b, stmts[n - 1].range.end as int))]
        } else {
            seq![]
        }
    }
}

/// `span` is the line-extended range of a statement among `stmts[..n]`
/// after the header region, other than a block, one of whose lines has a
/// hit count and none of whose lines executed.
pub open spec fn span_of_unexecuted_statement(
    b: Seq<u8>,
    hits: Map<u32, u64>,
    header_end: usize,
    stmts: Seq<Statement>,
    n: int,
    span: (int, int),
) -> bool {
    exists|i: int|
        0 <= i < n && {
            let s = #[trigger] stmts[i];
            let lo = line_number(b, s.range.start as int);
            let hi = line_number(b, s.range.end as int);
            &&& s.range.start >= header_end
            &&& !(s.kind is Compound)
            &&& exists|l: int| lo <= l <= hi && #[trigger] hits.contains_key(l as u32)
            &&& forall|l: int| lo <= l <= hi && #[trigger] hits.contains_key(l as u32) ==> hits[l as u32] == 0
            &&& span == (line_begin(b, s.range.start as int), line_stop(b, s.range.end as int))
        }
}

/// The pass proposes a statement only where the counts show it dead: one
/// of its lines is executable (has a count) and none of them has a count
/// above zero. A statement on lines with no counts at all is left alone.
pub proof fn removes_only_unexecuted_statements(
    b: Seq<u8>,
    hits: Map<u32, u64>,
    header_end: usize,
    stmts: Seq<Statement>,
    n: int,
)
    requires
        0 <= n <= stmts.len(),
    ensures
        forall|k: int|
            0 <= k < dead_spans(b, hits, header_end, stmts, n).len() ==> span_of_unexecuted_statement(
                b,
                hits,
                header_end,
                stmts,
                n,
                #[trigger] dead_spans(b, hits, header_end, stmts, n)[k],
            ),
    decreases n,
{
    if n > 0 {
        removes_only_unexecuted_statements(b, hits, header_end, stmts, n - 1);
        let prev = dead_spans(b, hits, header_end, stmts, n - 1);
        let all = dead_spans(b, hits, header_end, stmts, n);
        assert forall|k: int| 0 <= k < all.len() implies span_of_unexecuted_statement(
            b,
            hits,
            header_end,
            stmts,
            n,
            #[trigger] all[k],
        ) by {
            if k < prev.len() {
                assert(all[k] == prev[k]);
                assert(span_of_unexecuted_statement(b, hits, header_end, stmts, n - 1, prev[k]));
            } else {
                let s = stmts[n - 1];
                let lo = line_number(b, s.range.start as int);
                let hi = line_number(b, s.range.end as int);
                assert(is_dead(b, hits, header_end, s));
                assert forall|l: int| lo <= l <= hi && #[trigger] hits.contains_key(l as u32) implies hits[l as u32] == 0 by {
                    assert(!line_executed(hits, l as u32));
                }
                assert(all[k] == (line_begin(b, s.range.start as int), line_stop(b, s.range.end as int)));
            }
        }
    }
}

/// Where `x` goes when inserted into `s` after every element whose start is
/// not greater than `x`'s: scanning from the end.
pub open spec fn insert_pos(s: Seq<(usize, usize)>, x: (usize, usize)) -> int
    decreases s.len(),
{
    if s.len() == 0 {
        0
    } else if s.last().0 <= x.0 {
        s.len() as int
    } else {
        insert_pos(s.drop_last(), x)
    }
}

/// `s` sorted by start, stably (equal starts keep their order).
pub open spec fn sort_by_start(s: Seq<(usize, usize)>) -> Seq<(usize, usize)>
    decreases s.len(),
{
    if s.len() == 0 {
        s
    } else {
        let t = sort_by_start(s.drop_last());
        t.insert(insert_pos(t, s.last()), s.last())
    }
}

/// Where a run of ranges that starts at `dr[j - 1]` and reaches `end` stops:
/// the run takes in `dr[j]` when only whitespace lies between `end` and it.
pub open spec fn run_end(b: Seq<u8>, dr: Seq<(usize, usize)>, j: int, end: int) -> (int, int)
    decreases dr.len() - j,
{
    if j >= dr.len() || j < 0 {
        (j, end)
    } else if end <= dr[j].0 && trimmed(b, end, dr[j].0 as int).len() == 0 {
        run_end(b, dr, j + 1, dr[j].1 as int)
    } else {
        (j, end)
    }
}

/// Every gap that the run search looks at is a proper range of the text.
pub open spec fn runs_ok(b: Seq<u8>, dr: Seq<(usize, usize)>, j: int, end: int) -> bool
    decreases dr.len() - j,
{
    if j >= dr.len() || j < 0 {
        true
    } else {
        &&& end <= dr[j].0 <= b.len()
        &&& slice_ok(b, end, dr[j].0 as int)
        &&& (trimmed(b, end, dr[j].0 as int).len() == 0 ==> runs_ok(b, dr, j + 1, dr[j].1 as int))
    }
}

/// The blocks of two or more ranges of `dr[i..]` joined by whitespace.
pub open spec fn blocks(b: Seq<u8>, dr: Seq<(usize, usize)>, i: int) -> Seq<(int, int)>
    decreases dr.len() - i,
{
    if i >= dr.len() || i < 0 {
        seq![]
    } else {
        let (j, e) = run_end(b, dr, i + 1, dr[i].1 as int);
        proof {
            lemma_run_end(b, dr, i + 1, dr[i].1 as int);
        }
        (if j - i > 1 {
            seq![(dr[i].0 as int, e)]
        } else {
            seq![]
        }) + blocks(b, dr, j)
    }
}

/// All the runs that the block search walks through are proper ranges.
pub open spec fn blocks_ok(b: Seq<u8>, dr: Seq<(usize, usize)>, i: int) -> bool
    decreases dr.len() - i,
{
    if i >= dr.len() || i < 0 {
        true
    } else {
        let (j, e) = run_end(b, dr, i + 1, dr[i].1 as int);
        proof {
            lemma_run_end(b, dr, i + 1, dr[i].1 as int);
        }
        runs_ok(b, dr, i + 1, dr[i].1 as int) && blocks_ok(b, dr, j)
    }
}

pub proof fn lemma_run_end(b: Seq<u8>, dr: Seq<(usize, usize)>, j: int, end: int)
    requires
        0 <= j,
    ensures
        j <= run_end(b, dr, j, end).0,
        j <= dr.len() ==> run_end(b, dr, j, end).0 <= dr.len(),
    decreases dr.len() - j,
{
    if j < dr.len() && end <= dr[j].0 && trimmed(b, end, dr[j].0 as int).len() == 0 {
        lemma_run_end(b, dr, j + 1, dr[j].1 as int);
    }
}

/// The pass's spans: each dead statement, then each block of dead
/// statements (sorted by start) that only whitespace separates.
pub open spec fn dead_code_spans(b: Seq<u8>, hits: Map<u32, u64>, unit: &ParsedUnit) -> Seq<(int, int)> {
    let singles = dead_spans(b, hits, unit.header_end, unit.statements@, unit.statements@.len() as int);
    singles + blocks(b, sort_by_start(as_pairs(singles)), 0)
}

/// Spans as pairs of offsets.
pub open spec fn as_pairs(s: Seq<(int, int)>) -> Seq<(usize, usize)> {
    s.map_values(|p: (int, int)| (p.0 as usize, p.1 as usize))
}

/// What the pass needs of one statement: when it inspects it, its ends
/// fall on character boundaries (or past the end of the text); when it
/// removes it, it lies in the text.
pub open spec fn statement_fits(b: Seq<u8>, hits: Map<u32, u64>, header_end: usize, s: Statement) -> bool {
    &&& (s.range.start >= header_end && !(s.kind is Compound)) ==> {
        &&& slice_ok(b, 0, if s.range.start < b.len() { s.range.start as int } else { b.len() as int })
        &&& slice_ok(b, 0, if s.range.end < b.len() { s.range.end as int } else { b.len() as int })
    }
    &&& is_dead(b, hits, header_end, s) ==> (s.range.start <= s.range.end && slice_ok(
        b,
        s.range.start as int,
        s.range.end as int,
    ))
}

/// What the pass needs of the parse to read it without failing: the
/// statements it inspects start and end on character boundaries (or past
/// the end), the ones it removes lie in the text, and the gaps between the
/// sorted dead ranges that it inspects are proper ranges.
pub open spec fn dead_code_ok(b: Seq<u8>, hits: Map<u32, u64>, unit: &ParsedUnit) -> bool {
    &&& forall|i: int|
        0 <= i < unit.statements@.len() ==> statement_fits(b, hits, unit.header_end, #[trigger] unit.statements@[i])
    &&& blocks_ok(
        b,
        sort_by_start(
            as_pairs(dead_spans(b, hits, unit.header_end, unit.statements@, unit.statements@.len() as int)),
        ),
        0,
    )
}

/// The 1-based line of byte `offset` in `source`.
pub fn byte_offset_to_line(source: &str, offset: usize) -> (r: usize)
    requires
        bytes(source).len() < usize::MAX,
        slice_ok(bytes(source), 0, if offset < bytes(source).len() { offset as int } else { bytes(source).len() as int }),
    ensures
        r == line_number(bytes(source), offset as int),
{
    let b = source.as_bytes();
    let end = if offset < b.len() { offset } else { b.len() };
    let mut count: usize = 0;
    let mut i: usize = 0;
    while i < end
        invariant
            end <= b@.len(),
            i <= end,
            count == newlines_before(b@, i as int),
            count <= i,
        decreases end - i,
    {
        if b[i] == 0x0a {
            count += 1;
        }
        i += 1;
    }
    count + 1
}

fn any_line_executed(cov: &CoverageData, lo: usize, hi: usize) -> (r: bool)
    ensures
        r == any_executed(cov.line_hits@, lo as int, hi as int),
{
    let mut line: usize = lo;
    while line <= hi
        invariant
            lo <= line,
            forall|l: int| lo <= l < line ==> !#[trigger] line_executed(cov.line_hits@, l as u32),
        decreases hi + 1 - line,
    {
        if cov.is_line_executed(line as u32) {
            return true;
        }
        if line == hi {
            return false;
        }
        line += 1;
    }
    false
}

fn any_line_executable(cov: &CoverageData, lo: usize, hi: usize) -> (r: bool)
    ensures
        r == any_executable(cov.line_hits@, lo as int, hi as int),
{
    let mut line: usize = lo;
    while line <= hi
        invariant
            lo <= line,
            forall|l: int| lo <= l < line ==> !#[trigger] cov.line_hits@.contains_key(l as u32),
        decreases hi + 1 - line,
    {
        if cov.has_line(line as u32) {
            return true;
        }
        if line == hi {
            return false;
        }
        line += 1;
    }
    false
}

fn sort_pairs(v: &Vec<(usize, usize)>) -> (r: Vec<(usize, usize)>)
    ensures
        r@ == sort_by_start(v@),
{
    let mut r: Vec<(usize, usize)> = Vec::new();
    let mut i: usize = 0;
    while i < v.len()
        invariant
            i <= v@.len(),
            r@ == sort_by_start(v@.subrange(0, i as int)),
        decreases v.len() - i,
    {
        let x = v[i];
        let mut p: usize = r.len();
        proof {
            assert(r@.subrange(0, p as int) =~= r@);
        }
        while p > 0 && r[p - 1].0 > x.0
            invariant
                p <= r@.len(),
                insert_pos(r@.subrange(0, p as int), x) == insert_pos(r@, x),
            decreases p,
        {
            proof {
                assert(r@.subrange(0, p - 1) =~= r@.subrange(0, p as int).drop_last());
            }
            p -= 1;
        }
        proof {
            assert(insert_pos(r@.subrange(0, p as int), x) == p);
            assert(v@.subrange(0, i + 1).drop_last() =~= v@.subrange(0, i as int));
        }
        r.insert(p, x);
        i += 1;
    }
    proof {
        assert(v@.subrange(0, i as int) =~= v@);
    }
    r
}

impl DeadCodePass {
    /// Whether the pass can read this parse with these counts without
    /// failing (see `dead_code_ok`): the check a caller makes before
    /// `candidates`.
    pub fn fits(&self, source: &str, unit: &ParsedUnit, coverage: &CoverageData) -> (r: bool)
        requires
            bytes(source).len() < usize::MAX,
        ensures
            r == dead_code_ok(bytes(source), coverage.line_hits@, unit),
    {
        let ghost hits = coverage.line_hits@;
        let b = source.as_bytes();
        let n = b.len();
        let header_end = unit.header_end();
        let stmts = unit.statements();
        let mut dead_ranges: Vec<(usize, usize)> = Vec::new();
        let mut i: usize = 0;
        while i < stmts.len()
            invariant
                stmts@ == unit.statements@,
                header_end == unit.header_end,
                b@ == bytes(source),
                n == b@.len(),
                hits == coverage.line_hits@,
                bytes(source).len() < usize::MAX,
                i <= stmts@.len(),
                forall|k: int| 0 <= k < i ==> statement_fits(b@, hits, header_end, #[trigger] stmts@[k]),
                dead_ranges@ == as_pairs(dead_spans(b@, hits, header_end, stmts@, i as int)),
            decreases stmts.len() - i,
        {
            let stmt = &stmts[i];
            let is_compound = match stmt.kind {
                StatementKind::Compound => true,
                _ => false,
            };
            if stmt.range.start >= header_end && !is_compound {
                let e1 = if stmt.range.start < n { stmt.range.start } else { n };
                let e2 = if stmt.range.end < n { stmt.range.end } else { n };
                if !source.is_char_boundary(e1) || !source.is_char_boundary(e2) {
                    proof {
                        assert(!statement_fits(b@, hits, header_end, stmts@[i as int]));
                    }
                    return false;
                }
                proof {
                    vstd::utf8::is_char_boundary_start_end_of_seq(b@);
                }
                let start_line = byte_offset_to_line(source, stmt.range.start);
                let end_line = byte_offset_to_line(source, stmt.range.end);
                if !any_line_executed(coverage, start_line, end_line)
                    && any_line_executable(coverage, start_line, end_line) {
                    if stmt.range.start > stmt.range.end || stmt.range.end > n
                        || !source.is_char_boundary(stmt.range.start) || !source.is_char_boundary(stmt.range.end) {
                        proof {
                            assert(!statement_fits(b@, hits, header_end, stmts@[i as int]));
                        }
                        return false;
                    }
                    let extended = extend_to_line(source, stmt.range);
                    dead_ranges.push((extended.start, extended.end));
                }
            }
            proof {
                assert(dead_ranges@ =~= as_pairs(dead_spans(b@, hits, header_end, stmts@, i + 1)));
            }
            i += 1;
        }
        proof {
            assert forall|k: int| 0 <= k < unit.statements@.len() implies statement_fits(
                b@,
                hits,
                header_end,
                #[trigger] unit.statements@[k],
            ) by {
                assert(stmts@[k] == unit.statements@[k]);
            }
        }
        let dr = sort_pairs(&dead_ranges);
        let ghost stmts_fit = forall|k: int|
            0 <= k < unit.statements@.len() ==> statement_fits(b@, hits, header_end, #[trigger] unit.statements@[k]);
        let mut i: usize = 0;
        while i < dr.len()
            invariant
                b@ == bytes(source),
                n == b@.len(),
                i <= dr@.len(),
                stmts_fit,
                stmts_fit == forall|k: int|
                    0 <= k < unit.statements@.len() ==> statement_fits(b@, hits, header_end, #[trigger] unit.statements@[k]),
                header_end == unit.header_end,
                hits == coverage.line_hits@,
                dr@ == sort_by_start(as_pairs(dead_spans(b@, hits, header_end, unit.statements@, unit.statements@.len() as int))),
                blocks_ok(b@, dr@, 0) == blocks_ok(b@, dr@, i as int),
            decreases dr.len() - i,
        {
            proof {
                lemma_run_end(b@, dr@, i + 1, dr@[i as int].1 as int);
            }
            let mut end = dr[i].1;
            let mut j = i + 1;
            while j < dr.len()
                invariant
                    b@ == bytes(source),
                    n == b@.len(),
                    i < j <= dr@.len(),
                    run_end(b@, dr@, j as int, end as int) == run_end(b@, dr@, i + 1, dr@[i as int].1 as int),
                    runs_ok(b@, dr@, j as int, end as int) == runs_ok(b@, dr@, i + 1, dr@[i as int].1 as int),
                    blocks_ok(b@, dr@, 0) == blocks_ok(b@, dr@, i as int),
                    hits == coverage.line_hits@,
                    dr@ == sort_by_start(as_pairs(dead_spans(b@, hits, unit.header_end, unit.statements@, unit.statements@.len() as int))),
                ensures
                    run_end(b@, dr@, j as int, end as int) == (j as int, end as int),
                    runs_ok(b@, dr@, j as int, end as int),
                decreases dr.len() - j,
            {
                let next = dr[j].0;
                if end > next || next > n || !source.is_char_boundary(end) || !source.is_char_boundary(next) {
                    proof {
                        assert(!runs_ok(b@, dr@, j as int, end as int));
                        assert(!blocks_ok(b@, dr@, i as int));
                    }
                    return false;
                }
                if is_blank(b, end, next) {
                    end = dr[j].1;
                    j += 1;
                } else {
                    break;
                }
            }
            i = j;
        }
        true
    }

    /// Without coverage, nothing. With it: a removal for each dead
    /// statement, in order, then one for each block of two or more dead
    /// statements that only whitespace separates.
    pub fn candidates(&self, source: &str, unit: &ParsedUnit, coverage: Option<&CoverageData>) -> (r: Vec<Candidate>)
        requires
            bytes(source).len() < usize::MAX,
            coverage matches Some(c) ==> dead_code_ok(bytes(source), c.line_hits@, unit),
        ensures
            coverage is None ==> r@.len() == 0,
            coverage matches Some(c) ==> {
                let spans = dead_code_spans(bytes(source), c.line_hits@, unit);
                &&& r@.len() == spans.len()
                &&& forall|i: int| 0 <= i < r@.len() ==> is_removal_of(#[trigger] r@[i], spans[i])
            },
    {
        let coverage = match coverage {
            Some(cov) => cov,
            None => return Vec::new(),
        };
        let ghost hits = coverage.line_hits@;
        let b = source.as_bytes();
        let header_end = unit.header_end();
        let stmts = unit.statements();
        let mut candidates: Vec<Candidate> = Vec::new();
        let mut dead_ranges: Vec<(usize, usize)> = Vec::new();
        let mut i: usize = 0;
        while i < stmts.len()
            invariant
                stmts@ == unit.statements@,
                header_end == unit.header_end,
                b@ == bytes(source),
                hits == coverage.line_hits@,
                dead_code_ok(bytes(source), hits, unit),
                bytes(source).len() < usize::MAX,
                i <= stmts@.len(),
                candidates@.len() == dead_spans(b@, hits, header_end, stmts@, i as int).len(),
                forall|k: int| 0 <= k < candidates@.len() ==> is_removal_of(
                    #[trigger] candidates@[k],
                    dead_spans(b@, hits, header_end, stmts@, i as int)[k],
                ),
                dead_ranges@ == as_pairs(dead_spans(b@, hits, header_end, stmts@, i as int)),
            decreases stmts.len() - i,
        {
            let stmt = &stmts[i];
            let ghost before = dead_spans(b@, hits, header_end, stmts@, i as int);
            let is_compound = match stmt.kind {
                StatementKind::Compound => true,
                _ => false,
            };
            if stmt.range.start >= header_end && !is_compound {
                let start_line = byte_offset_to_line(source, stmt.range.start);
                let end_line = byte_offset_to_line(source, stmt.range.end);
                if !any_line_executed(coverage, start_line, end_line)
                    && any_line_executable(coverage, start_line, end_line) {
                    let extended = extend_to_line(source, stmt.range);
                    dead_ranges.push((extended.start, extended.end));
                    candidates.push(Candidate::removal(extended.to_range()));
                }
            }
            proof {
                let next = dead_spans(b@, hits, header_end, stmts@, i + 1);
                assert forall|k: int| 0 <= k < candidates@.len() implies is_removal_of(
                    #[trigger] candidates@[k],
                    next[k],
                ) by {
                    if k < before.len() {
                        assert(next[k] == before[k]);
                    }
                }
                assert(dead_ranges@ =~= as_pairs(next));
            }
            i += 1;
        }
        let ghost singles = dead_spans(b@, hits, header_end, stmts@, stmts@.len() as int);
        let dr = sort_pairs(&dead_ranges);
        let ghost n_singles = candidates@.len();
        let ghost mut acc: Seq<(int, int)> = seq![];
        let mut i: usize = 0;
        proof {
            assert(acc + blocks(b@, dr@, 0) =~= blocks(b@, dr@, 0));
        }
        while i < dr.len()
            invariant
                b@ == bytes(source),
                dr@ == sort_by_start(as_pairs(singles)),
                i <= dr@.len(),
                blocks_ok(b@, dr@, i as int),
                acc + blocks(b@, dr@, i as int) == blocks(b@, dr@, 0),
                candidates@.len() == n_singles + acc.len(),
                n_singles == singles.len(),
                forall|k: int| 0 <= k < n_singles ==> is_removal_of(#[trigger] candidates@[k], singles[k]),
                forall|k: int| 0 <= k < acc.len() ==> is_removal_of(#[trigger] candidates@[n_singles + k], acc[k]),
            decreases dr.len() - i,
        {
            proof {
                lemma_run_end(b@, dr@, i + 1, dr@[i as int].1 as int);
            }
            let block_start = dr[i].0;
            let mut block_end = dr[i].1;
            let mut j = i + 1;
            while j < dr.len() && block_end <= dr[j].0 && is_blank(b, block_end, dr[j].0)
                invariant
                    b@ == bytes(source),
                    i < j <= dr@.len(),
                    run_end(b@, dr@, j as int, block_end as int) == run_end(b@, dr@, i + 1, dr@[i as int].1 as int),
                    runs_ok(b@, dr@, j as int, block_end as int),
                decreases dr.len() - j,
            {
                block_end = dr[j].1;
                j += 1;
            }
            let ghost next_acc = acc + if j - i > 1 {
                seq![(block_start as int, block_end as int)]
            } else {
                seq![]
            };
            if j - i > 1 {
                candidates.push(Candidate::removal(block_start..block_end));
            }
            proof {
                assert(run_end(b@, dr@, j as int, block_end as int) == (j as int, block_end as int));
                assert(next_acc + blocks(b@, dr@, j as int) =~= acc + blocks(b@, dr@, i as int));
                assert forall|k: int| 0 <= k < next_acc.len() implies is_removal_of(
                    #[trigger] candidates@[n_singles + k],
                    next_acc[k],
                ) by {
                    if k < acc.len() {
                        assert(next_acc[k] == acc[k]);
                    }
                }
                acc = next_acc;
            }
            i = j;
        }
        proof {
            assert(acc =~= blocks(b@, dr@, 0));
            let spans = dead_code_spans(bytes(source), hits, unit);
            assert forall|k: int| 0 <= k < candidates@.len() implies is_removal_of(#[trigger] candidates@[k], spans[k]) by {
                if k < n_singles {
                    assert(spans[k] == singles[k]);
                } else {
                    assert(spans[k] == acc[k - n_singles]);
                    assert(candidates@[k] == candidates@[n_singles + (k - n_singles)]);
                }
            }
        }
        candidates
    }
}

} // verus!
