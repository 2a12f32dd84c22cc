//! Line coverage as gcov reports it.
use vstd::prelude::*;
use std::collections::HashMap;
use vstd::utf8::*;
use vstd::string::StrSliceExecFns;
use crate::text::{bytes, to_owned_string, str_eq, substr, lines, lines_from, line_end, next_line, lemma_nl_from, lemma_lines_from_shape, lemma_ascii_boundaries};
use crate::numbers::{unsigned_value, parse_u64, parse_usize};
use crate::engine::context::CoverageData;
use crate::validator::pattern::{pattern_captures, captures, groups_are, opt_view};

verus! {

broadcast use {vstd::std_specs::hash::group_hash_axioms, vstd::utf8::encode_utf8_valid_utf8};

/// Coverage of a single line.
#[derive(Debug, Clone, Copy, PartialEq, Eq)]
pub enum LineCoverage {
    /// The line ran this many times.
    Executed(u64),
    /// The line could run but did not.
    NotExecuted,
    /// The line holds no code (comments, declarations and the like).
    NonExecutable,
}

impl LineCoverage {
    pub fn is_executed(&self) -> (r: bool)
        ensures
            r == (*self is Executed),
    {
        match self {
            LineCoverage::Executed(_) => true,
            _ => false,
        }
    }

    pub fn is_executable(&self) -> (r: bool)
        ensures
            r == !(*self is NonExecutable),
    {
        match self {
            LineCoverage::NonExecutable => false,
            _ => true,
        }
    }

    pub fn count(&self) -> (r: Option<u64>)
        ensures
            r == match *self {
                LineCoverage::Executed(n) => Some(n),
                _ => None::<u64>,
            },
    {
        match self {
            LineCoverage::Executed(n) => Some(*n),
            _ => None,
        }
    }
}

/// The coverage of one source file.
#[derive(Debug)]
pub struct CoverageReport {
    pub source_path: String,
    pub lines: HashMap<usize, LineCoverage>,
    pub executable_lines: usize,
    pub executed_lines: usize,
}

/// The coverage a report records for `line` (not executable when it
/// records none).
pub open spec fn coverage_at(lines: Map<usize, LineCoverage>, line: usize) -> LineCoverage {
    if lines.contains_key(line) {
        lines[line]
    } else {
        LineCoverage::NonExecutable
    }
}

/// The report records `line` as executed.
pub open spec fn executed_at(lines: Map<usize, LineCoverage>, line: usize) -> bool {
    coverage_at(lines, line) is Executed
}

/// The report records `line` as executable (whether it ran or not).
pub open spec fn executable_at(lines: Map<usize, LineCoverage>, line: usize) -> bool {
    !(coverage_at(lines, line) is NonExecutable)
}

impl CoverageReport {
    /// An empty report for `source_path`.
    pub fn new(source_path: &str) -> (r: CoverageReport)
        ensures
            r.source_path@ == source_path@,
            r.lines@ == Map::<usize, LineCoverage>::empty(),
            r.executable_lines == 0,
            r.executed_lines == 0,
    {
        CoverageReport {
            source_path: to_owned_string(source_path),
            lines: HashMap::new(),
            executable_lines: 0,
            executed_lines: 0,
        }
    }

    /// The coverage of `line` (see `coverage_at`).
    pub fn line_coverage(&self, line: usize) -> (r: LineCoverage)
        ensures
            r == coverage_at(self.lines@, line),
    {
        match self.lines.get(&line) {
            Some(c) => *c,
            None => LineCoverage::NonExecutable,
        }
    }

    /// Whether `line` ran at least once.
    pub fn is_line_executed(&self, line: usize) -> (r: bool)
        ensures
            r == executed_at(self.lines@, line),
    {
        self.line_coverage(line).is_executed()
    }

    /// The lines that ran, each once, in no particular order.
    pub fn executed_line_numbers(&self) -> (r: Vec<usize>)
        ensures
            r@.no_duplicates(),
            forall|l: usize| r@.contains(l) <==> executed_at(self.lines@, l),
    {
        let mut r: Vec<usize> = Vec::new();
        for l in it: self.lines.keys()
            invariant
                it.seq().no_duplicates(),
                r@.no_duplicates(),
                forall|x: usize| r@.contains(x) ==> executed_at(self.lines@, x),
                forall|x: usize| r@.contains(x) ==> exists|j: int| 0 <= j < it.index() && *it.seq()[j] == x,
                forall|j: int| 0 <= j < it.index() && executed_at(self.lines@, *it.seq()[j]) ==> r@.contains(*it.seq()[j]),
        {
            let ghost before = r@;
            let ghost idx = it.index();
            if self.is_line_executed(*l) {
                proof {
                    assert(*it.seq()[idx] == *l);
                    if before.contains(*l) {
                        let j = choose|j: int| 0 <= j < idx && *it.seq()[j] == *l;
                        assert(it.seq()[j] == it.seq()[idx]);
                    }
                }
                r.push(*l);
                proof {
                    assert forall|x: usize| r@.contains(x) implies executed_at(self.lines@, x)
                        && exists|j: int| 0 <= j < idx + 1 && *it.seq()[j] == x by {
                        if x != *l {
                            let k = choose|k: int| 0 <= k < r@.len() && r@[k] == x;
                            assert(k < before.len());
                            assert(before[k] == x);
                            assert(before.contains(x));
                        } else {
                            assert(*it.seq()[idx] == x);
                        }
                    }
                }
            }
            proof {
                assert forall|j: int| 0 <= j < idx + 1 && executed_at(self.lines@, *it.seq()[j]) implies r@.contains(
                    *it.seq()[j],
                ) by {
                    assert(*it.seq()[idx] == *l);
                    if j < idx {
                        assert(before.contains(*it.seq()[j]));
                        let k = choose|k: int| 0 <= k < before.len() && before[k] == *it.seq()[j];
                        assert(r@[k] == before[k]);
                    } else {
                        assert(r@[r@.len() - 1] == *l);
                    }
                }
            }
        }
        r
    }

    /// The executable lines, each once, in no particular order.
    pub(crate) fn executable_line_numbers(&self) -> (r: Vec<usize>)
        ensures
            r@.no_duplicates(),
            forall|l: usize| r@.contains(l) <==> executable_at(self.lines@, l),
    {
        let mut r: Vec<usize> = Vec::new();
        for l in it: self.lines.keys()
            invariant
                it.seq().no_duplicates(),
                r@.no_duplicates(),
                forall|x: usize| r@.contains(x) ==> executable_at(self.lines@, x),
                forall|x: usize| r@.contains(x) ==> exists|j: int| 0 <= j < it.index() && *it.seq()[j] == x,
                forall|j: int| 0 <= j < it.index() && executable_at(self.lines@, *it.seq()[j]) ==> r@.contains(*it.seq()[j]),
        {
            let ghost before = r@;
            let ghost idx = it.index();
            if self.line_coverage(*l).is_executable() {
                proof {
                    assert(*it.seq()[idx] == *l);
                    if before.contains(*l) {
                        let j = choose|j: int| 0 <= j < idx && *it.seq()[j] == *l;
                        assert(it.seq()[j] == it.seq()[idx]);
                    }
                }
                r.push(*l);
                proof {
                    assert forall|x: usize| r@.contains(x) implies executable_at(self.lines@, x)
                        && exists|j: int| 0 <= j < idx + 1 && *it.seq()[j] == x by {
                        if x != *l {
                            let k = choose|k: int| 0 <= k < r@.len() && r@[k] == x;
                            assert(k < before.len());
                            assert(before[k] == x);
                            assert(before.contains(x));
                        } else {
                            assert(*it.seq()[idx] == x);
                        }
                    }
                }
            }
            proof {
                assert forall|j: int| 0 <= j < idx + 1 && executable_at(self.lines@, *it.seq()[j]) implies r@.contains(
                    *it.seq()[j],
                ) by {
                    assert(*it.seq()[idx] == *l);
                    if j < idx {
                        assert(before.contains(*it.seq()[j]));
                        let k = choose|k: int| 0 <= k < before.len() && before[k] == *it.seq()[j];
                        assert(r@[k] == before[k]);
                    } else {
                        assert(r@[r@.len() - 1] == *l);
                    }
                }
            }
        }
        r
    }
}

/// The lines that ran in `original` but not in `reduced`, each once, in
/// no particular order.
pub fn missing_coverage(original: &CoverageReport, reduced: &CoverageReport) -> (r: Vec<usize>)
    ensures
        r@.no_duplicates(),
        forall|l: usize| r@.contains(l) <==> (executed_at(original.lines@, l) && !executed_at(reduced.lines@, l)),
{
    let mut r: Vec<usize> = Vec::new();
    for l in it: original.lines.keys()
        invariant
            it.seq().no_duplicates(),
            r@.no_duplicates(),
            forall|x: usize| r@.contains(x) ==> executed_at(original.lines@, x) && !executed_at(reduced.lines@, x),
            forall|x: usize| r@.contains(x) ==> exists|j: int| 0 <= j < it.index() && *it.seq()[j] == x,
            forall|j: int|
                0 <= j < it.index() && executed_at(original.lines@, *it.seq()[j]) && !executed_at(
                    reduced.lines@,
                    *it.seq()[j],
                ) ==> r@.contains(*it.seq()[j]),
    {
        let ghost before = r@;
        let ghost idx = it.index();
        if original.is_line_executed(*l) && !reduced.is_line_executed(*l) {
            proof {
                assert(*it.seq()[idx] == *l);
                if before.contains(*l) {
                    let j = choose|j: int| 0 <= j < idx && *it.seq()[j] == *l;
                    assert(it.seq()[j] == it.seq()[idx]);
                }
            }
            r.push(*l);
            proof {
                assert forall|x: usize| r@.contains(x) implies (executed_at(original.lines@, x) && !executed_at(
                    reduced.lines@,
                    x,
                )) && exists|j: int| 0 <= j < idx + 1 && *it.seq()[j] == x by {
                    if x != *l {
                        let k = choose|k: int| 0 <= k < r@.len() && r@[k] == x;
                        assert(k < before.len());
                        assert(before[k] == x);
                        assert(before.contains(x));
                    } else {
                        assert(*it.seq()[idx] == x);
                    }
                }
            }
        }
        proof {
            assert forall|j: int|
                0 <= j < idx + 1 && executed_at(original.lines@, *it.seq()[j]) && !executed_at(
                    reduced.lines@,
                    *it.seq()[j],
                ) implies r@.contains(*it.seq()[j]) by {
                assert(*it.seq()[idx] == *l);
                if j < idx {
                    assert(before.contains(*it.seq()[j]));
                    let k = choose|k: int| 0 <= k < before.len() && before[k] == *it.seq()[j];
                    assert(r@[k] == before[k]);
                } else {
                    assert(r@[r@.len() - 1] == *l);
                }
            }
        }
    }
    r
}

/// The pattern a gcov line is read with: a count (`-`, `#####` or a
/// number), a colon, a line number, a colon.
pub open spec fn gcov_pattern() -> Seq<char> {
    "^\\s*([#\\d-]+):\\s*(\\d+):"@
}

/// The coverage a gcov count stands for: `-` for no code, `#...` for code
/// that did not run, a number for how often it ran.
pub open spec fn coverage_of(count: Seq<char>) -> LineCoverage {
    if count == seq!['-'] {
        LineCoverage::NonExecutable
    } else if count.len() > 0 && count[0] == '#' {
        LineCoverage::NotExecuted
    } else {
        match unsigned_value(count) {
            Some(v) => if v <= u64::MAX {
                if v > 0 {
                    LineCoverage::Executed(v as u64)
                } else {
                    LineCoverage::NotExecuted
                }
            } else {
                LineCoverage::NonExecutable
            },
            None => LineCoverage::NonExecutable,
        }
    }
}

/// What the groups a gcov line's pattern captured record: the line number
/// (group 2, above zero) and the coverage its count (group 1) stands for.
pub open spec fn gcov_groups_entry(g: Seq<Option<Seq<char>>>) -> Option<(usize, LineCoverage)> {
    if g.len() > 2 && g[1] is Some && g[2] is Some {
        let num = match unsigned_value(g[2]->0) {
            Some(v) => if v <= usize::MAX {
                v
            } else {
                0
            },
            None => 0,
        };
        if num == 0 {
            None
        } else {
            Some((num as usize, coverage_of(g[1]->0)))
        }
    } else {
        None
    }
}

/// What one line of gcov output records: a line number (above zero) and
/// its coverage.
pub open spec fn gcov_entry(line: Seq<char>) -> Option<(usize, LineCoverage)> {
    match pattern_captures(gcov_pattern(), line) {
        Some(g) => gcov_groups_entry(g),
        None => None,
    }
}

/// What the first lines of a gcov file record.
pub struct GcovTotals {
    pub lines: Map<usize, LineCoverage>,
    pub executable: nat,
    pub executed: nat,
}

/// The coverage the lines `ls[..k]` of `b` record: the last entry for a
/// line number wins, and every entry counts towards the totals.
pub open spec fn gcov_fold(b: Seq<u8>, ls: Seq<(int, int)>, k: int) -> GcovTotals
    decreases k,
{
    if k <= 0 {
        GcovTotals { lines: Map::empty(), executable: 0, executed: 0 }
    } else {
        let t = gcov_fold(b, ls, k - 1);
        match gcov_entry(decode_utf8(b.subrange(ls[k - 1].0, ls[k - 1].1))) {
            None => t,
            Some((n, c)) => GcovTotals {
                lines: t.lines.insert(n, c),
                executable: t.executable + if c is NonExecutable {
                    0nat
                } else {
                    1nat
                },
                executed: t.executed + if c is Executed {
                    1nat
                } else {
                    0nat
                },
            },
        }
    }
}

/// The coverage a gcov count stands for (see `coverage_of`).
fn count_coverage(count: &str) -> (r: LineCoverage)
    ensures
        r == coverage_of(count@),
{
    let dash = "-";
    proof {
        reveal_strlit("-");
    }
    if str_eq(count, dash) {
        return LineCoverage::NonExecutable;
    }
    if count.unicode_len() > 0 && count.get_char(0) == '#' {
        return LineCoverage::NotExecuted;
    }
    match parse_u64(count) {
        Some(v) => if v > 0 {
            LineCoverage::Executed(v)
        } else {
            LineCoverage::NotExecuted
        },
        None => LineCoverage::NonExecutable,
    }
}

/// The line number and coverage that the groups of a gcov line record
/// (see `gcov_groups_entry`).
pub fn gcov_entry_of_groups(groups: &[Option<String>]) -> (r: Option<(usize, LineCoverage)>)
    ensures
        r == gcov_groups_entry(groups@.map_values(|o: Option<String>| opt_view(o))),
{
    if groups.len() <= 2 {
        return None;
    }
    let count = match &groups[1] {
        Some(c) => c,
        None => {
            return None;
        },
    };
    let num_text = match &groups[2] {
        Some(t) => t,
        None => {
            return None;
        },
    };
    let num = match parse_usize(num_text.as_str()) {
        Some(v) => v,
        None => 0,
    };
    if num == 0 {
        return None;
    }
    Some((num, count_coverage(count.as_str())))
}

/// What one line of gcov output records (see `gcov_entry`).
pub fn gcov_line_entry(line: &str) -> (r: Option<(usize, LineCoverage)>)
    ensures
        r == gcov_entry(line@),
{
    let pattern = "^\\s*([#\\d-]+):\\s*(\\d+):";
    match captures(pattern, line) {
        Some(groups) => {
            let r = gcov_entry_of_groups(groups.as_slice());
            proof {
                let g = choose|g: Seq<Option<Seq<char>>>| pattern_captures(pattern@, line@) == Some(g) && groups_are(groups@, g);
                assert(groups@.map_values(|o: Option<String>| opt_view(o)) =~= g);
            }
            r
        },
        None => None,
    }
}

/// Reads the coverage of `source_path` from the text of its gcov file
/// (see `gcov_fold`).
pub fn parse_gcov(content: &str, source_path: &str) -> (r: CoverageReport)
    ensures
        r.source_path@ == source_path@,
        r.lines@ == gcov_fold(bytes(content), lines(bytes(content)), lines(bytes(content)).len() as int).lines,
        r.executable_lines == gcov_fold(bytes(content), lines(bytes(content)), lines(bytes(content)).len() as int).executable,
        r.executed_lines == gcov_fold(bytes(content), lines(bytes(content)), lines(bytes(content)).len() as int).executed,
{
    let mut report = CoverageReport::new(source_path);
    let b = content.as_bytes();
    let n = b.len();
    let ghost ls = lines(b@);
    let ghost mut k: int = 0;
    let mut from: usize = 0;
    proof {
        lemma_lines_from_shape(b@, 0);
        assert(ls.subrange(0, ls.len() as int) =~= ls);
        is_char_boundary_start_end_of_seq(b@);
        assert(report.lines@ =~= gcov_fold(b@, ls, 0).lines);
    }
    while from < n
        invariant
            b@ == bytes(content),
            n == b@.len(),
            ls == lines(b@),
            0 <= k <= ls.len(),
            k <= from <= n,
            is_char_boundary(b@, from as int),
            lines_from(b@, from as int) == ls.subrange(k, ls.len() as int),
            from < n ==> k < ls.len(),
            from >= n ==> k == ls.len(),
            report.source_path@ == source_path@,
            report.lines@ == gcov_fold(b@, ls, k).lines,
            report.executable_lines == gcov_fold(b@, ls, k).executable,
            report.executed_lines == gcov_fold(b@, ls, k).executed,
            report.executable_lines <= k,
            report.executed_lines <= k,
        decreases n - from,
    {
        proof {
            lemma_nl_from(b@, from as int);
            assert(ls[k] == lines_from(b@, from as int)[0]);
        }
        let (end, nl) = next_line(b, from);
        proof {
            if nl < n {
                lemma_ascii_boundaries(b@, nl as int);
            }
            if end < nl {
                lemma_ascii_boundaries(b@, end as int);
            }
            is_char_boundary_start_end_of_seq(b@);
        }
        let line = substr(content, from, end);
        proof {
            encode_utf8_decode_utf8(line@);
            assert(line@ == decode_utf8(b@.subrange(ls[k].0, ls[k].1)));
        }
        match gcov_line_entry(line) {
            Some((num, cov)) => {
                report.lines.insert(num, cov);
                if cov.is_executable() {
                    report.executable_lines = report.executable_lines + 1;
                }
                if cov.is_executed() {
                    report.executed_lines = report.executed_lines + 1;
                }
            },
            None => {},
        }
        proof {
            let rest = lines_from(b@, nl + 1);
            assert(lines_from(b@, from as int) == seq![(from as int, line_end(b@, from as int))] + rest);
            assert(ls.subrange(k + 1, ls.len() as int) =~= ls.subrange(k, ls.len() as int).drop_first());
            k = k + 1;
        }
        if nl >= n {
            proof {
                assert(lines_from(b@, nl + 1) == Seq::<(int, int)>::empty());
            }
            from = n;
        } else {
            from = nl + 1;
        }
    }
    report
}

/// The hit count a report records for `line`, or 0.
pub open spec fn hits_at(lines: Map<usize, LineCoverage>, line: usize) -> u64 {
    match coverage_at(lines, line) {
        LineCoverage::Executed(n) => n,
        _ => 0,
    }
}

/// The execution counts the passes read, from a coverage report: every
/// executable line with its count, 0 for one that did not run (line
/// numbers as `u32`), and no function counts.
pub fn coverage_data_from_report(report: &CoverageReport) -> (r: CoverageData)
    ensures
        forall|k: u32| r.line_hits@.contains_key(k) <==> exists|l: usize| executable_at(report.lines@, l) && l as u32 == k,
        forall|l: usize|
            executable_at(report.lines@, l) && (forall|l2: usize| executable_at(report.lines@, l2) && l2 as u32 == l as u32 ==> l2 == l)
                ==> r.line_hits@[l as u32] == hits_at(report.lines@, l),
        r.function_hits@.len() == 0,
{
    let mut line_hits: HashMap<u32, u64> = HashMap::new();
    let lines = report.executable_line_numbers();
    let mut i: usize = 0;
    while i < lines.len()
        invariant
            i <= lines@.len(),
            forall|l: usize| lines@.contains(l) <==> executable_at(report.lines@, l),
            forall|k: u32| line_hits@.contains_key(k) ==> exists|j: int|
                0 <= j < i && (#[trigger] lines@[j]) as u32 == k && line_hits@[k] == hits_at(report.lines@, lines@[j]),
            forall|j: int| 0 <= j < i ==> line_hits@.contains_key((#[trigger] lines@[j]) as u32),
        decreases lines.len() - i,
    {
        let l = lines[i];
        let ghost before = line_hits@;
        let count = match report.line_coverage(l) {
            LineCoverage::Executed(n) => n,
            _ => 0,
        };
        line_hits.insert(l as u32, count);
        proof {
            assert forall|k: u32| line_hits@.contains_key(k) implies exists|j: int|
                0 <= j < i + 1 && (#[trigger] lines@[j]) as u32 == k && line_hits@[k] == hits_at(report.lines@, lines@[j]) by {
                if k == l as u32 {
                    assert(lines@[i as int] == l);
                } else {
                    assert(before.contains_key(k));
                }
            }
            assert forall|j: int| 0 <= j < i + 1 implies line_hits@.contains_key((#[trigger] lines@[j]) as u32) by {
                if j < i {
                    assert(before.contains_key(lines@[j] as u32));
                }
            }
        }
        i += 1;
    }
    proof {
        assert forall|k: u32| line_hits@.contains_key(k) <==> exists|l: usize| executable_at(report.lines@, l) && l as u32 == k by {
            if line_hits@.contains_key(k) {
                let j = choose|j: int| 0 <= j < i && (#[trigger] lines@[j]) as u32 == k && line_hits@[k] == hits_at(
                    report.lines@,
                    lines@[j],
                );
                assert(lines@.contains(lines@[j]));
            }
            if exists|l: usize| executable_at(report.lines@, l) && l as u32 == k {
                let l = choose|l: usize| executable_at(report.lines@, l) && l as u32 == k;
                assert(lines@.contains(l));
                let j = choose|j: int| 0 <= j < lines@.len() && lines@[j] == l;
                assert(line_hits@.contains_key(lines@[j] as u32));
            }
        }
        assert forall|l: usize|
            executable_at(report.lines@, l) && (forall|l2: usize| executable_at(report.lines@, l2) && l2 as u32 == l as u32 ==> l2 == l)
                implies line_hits@[l as u32] == hits_at(report.lines@, l) by {
            assert(lines@.contains(l));
            let j0 = choose|j: int| 0 <= j < lines@.len() && lines@[j] == l;
            assert(line_hits@.contains_key(lines@[j0] as u32));
            let j = choose|j: int| 0 <= j < i && (#[trigger] lines@[j]) as u32 == l as u32 && line_hits@[l as u32] == hits_at(
                report.lines@,
                lines@[j],
            );
            assert(lines@.contains(lines@[j]));
            assert(lines@[j] == l);
        }
    }
    CoverageData { line_hits, function_hits: HashMap::new() }
}

/// A gcov file never reports more executed lines than executable ones,
/// and every line it records as executed ran a positive number of times.
pub proof fn gcov_counts_consistent(b: Seq<u8>, ls: Seq<(int, int)>, k: int)
    ensures
        gcov_fold(b, ls, k).executed <= gcov_fold(b, ls, k).executable,
        forall|l: usize|
            gcov_fold(b, ls, k).lines.contains_key(l) && (#[trigger] gcov_fold(b, ls, k).lines[l]) is Executed
                ==> gcov_fold(b, ls, k).lines[l]->Executed_0 > 0,
    decreases k,
{
    if k > 0 {
        gcov_counts_consistent(b, ls, k - 1);
        let t = gcov_fold(b, ls, k - 1);
        match gcov_entry(decode_utf8(b.subrange(ls[k - 1].0, ls[k - 1].1))) {
            None => {},
            Some((n, c)) => {
                let count = match pattern_captures(gcov_pattern(), decode_utf8(b.subrange(ls[k - 1].0, ls[k - 1].1))) {
                    Some(g) => g[1]->0,
                    None => seq![],
                };
                assert(c == coverage_of(count));
                assert forall|l: usize|
                    gcov_fold(b, ls, k).lines.contains_key(l) && (#[trigger] gcov_fold(b, ls, k).lines[l]) is Executed
                        implies gcov_fold(b, ls, k).lines[l]->Executed_0 > 0 by {
                    if l != n {
                        assert(gcov_fold(b, ls, k).lines[l] == t.lines[l]);
                    }
                }
            },
        }
    }
}

} // verus!
