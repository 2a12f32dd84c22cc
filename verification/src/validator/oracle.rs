//! The decisions of the validation oracle: what it expects of a reduced
//! program, learnt from the original, and whether a run meets it.
use vstd::prelude::*;
use crate::text::{bytes, sbytes, trimmed, trim_bounds};
use crate::validator::compiler::CompilerConfig;
use crate::validator::executor::{TimeoutConfig, ExecutionResult};
use crate::validator::coverage::{CoverageReport, missing_coverage, executed_at};

verus! {

/// What the oracle checks.
#[derive(Debug, Clone)]
pub struct OracleConfig {
    pub compiler: CompilerConfig,
    pub timeout: TimeoutConfig,
    pub check_coverage: bool,
    pub expected_stdout: Option<String>,
    pub expected_stderr: Option<String>,
    pub expected_exit_code: Option<i32>,
}

impl Default for OracleConfig {
    /// The default compiler and time limit, coverage checked, and exit code
    /// 0 expected; the outputs are learnt from the original program.
    fn default() -> (c: OracleConfig)
        ensures
            c.check_coverage,
            c.expected_stdout is None,
            c.expected_stderr is None,
            c.expected_exit_code == Some(0i32),
    {
        OracleConfig {
            compiler: CompilerConfig::default(),
            timeout: TimeoutConfig::default(),
            check_coverage: true,
            expected_stdout: None,
            expected_stderr: None,
            expected_exit_code: Some(0),
        }
    }
}

/// How the original program's run sets the expectations: a run that
/// timed out makes the oracle expect time-outs and check nothing else;
/// otherwise each expectation that is not set yet is taken from the run.
pub open spec fn learnt(c: OracleConfig, run: ExecutionResult) -> (OracleConfig, bool) {
    if run.timed_out {
        (
            OracleConfig {
                check_coverage: false,
                expected_stdout: None,
                expected_stderr: None,
                expected_exit_code: None,
                ..c
            },
            true,
        )
    } else {
        (
            OracleConfig {
                expected_stdout: if c.expected_stdout is None {
                    Some(run.stdout)
                } else {
                    c.expected_stdout
                },
                expected_stderr: if c.expected_stderr is None {
                    Some(run.stderr)
                } else {
                    c.expected_stderr
                },
                expected_exit_code: if c.expected_exit_code is None {
                    run.exit_code
                } else {
                    c.expected_exit_code
                },
                ..c
            },
            false,
        )
    }
}

impl OracleConfig {
    /// Coverage is not checked.
    pub fn without_coverage(self) -> (c: OracleConfig)
        ensures
            c == (OracleConfig { check_coverage: false, ..self }),
    {
        let mut c = self;
        c.check_coverage = false;
        c
    }

    /// Sets the expectations from the original program's run (see
    /// `learnt`); the result says whether time-outs are expected.
    pub fn learn_from_original(&mut self, run: &ExecutionResult) -> (expect_timeout: bool)
        ensures
            (*final(self), expect_timeout) == learnt(*old(self), *run),
    {
        if run.timed_out {
            self.check_coverage = false;
            self.expected_stdout = None;
            self.expected_stderr = None;
            self.expected_exit_code = None;
            return true;
        }
        if self.expected_stdout.is_none() {
            self.expected_stdout = Some(run.stdout.clone());
        }
        if self.expected_stderr.is_none() {
            self.expected_stderr = Some(run.stderr.clone());
        }
        if self.expected_exit_code.is_none() {
            self.expected_exit_code = run.exit_code;
        }
        false
    }
}

/// What the oracle concludes from one run of a reduced program that
/// compiled.
#[derive(Debug, Clone, Copy, PartialEq, Eq)]
pub enum RunVerdict {
    Reject,
    Accept,
    /// The run matches; the coverage of the reduced program decides.
    CheckCoverage,
}

/// Two outputs are the same once trimmed.
pub open spec fn same_output(a: Seq<u8>, b: Seq<u8>) -> bool {
    trimmed(a, 0, a.len() as int) == trimmed(b, 0, b.len() as int)
}

/// The run meets every expectation that is set.
pub open spec fn meets(c: OracleConfig, run: ExecutionResult) -> bool {
    &&& (c.expected_stdout matches Some(o) ==> same_output(sbytes(&run.stdout), sbytes(&o)))
    &&& (c.expected_stderr matches Some(e) ==> same_output(sbytes(&run.stderr), sbytes(&e)))
    &&& (c.expected_exit_code matches Some(x) ==> run.exit_code == Some(x))
}

/// The verdict on a run: when time-outs are expected, a time-out is
/// accepted and anything else rejected; otherwise the run must complete
/// and meet the expectations, and then coverage decides when it is checked
/// and the original's coverage is known.
pub open spec fn verdict(c: OracleConfig, expect_timeout: bool, has_coverage: bool, run: ExecutionResult) -> RunVerdict {
    if expect_timeout {
        if run.timed_out {
            RunVerdict::Accept
        } else {
            RunVerdict::Reject
        }
    } else if run.timed_out || !run.completed || !meets(c, run) {
        RunVerdict::Reject
    } else if c.check_coverage && has_coverage {
        RunVerdict::CheckCoverage
    } else {
        RunVerdict::Accept
    }
}

/// Whether two outputs are the same once trimmed.
fn same_trimmed(a: &str, b: &str) -> (r: bool)
    ensures
        r == same_output(bytes(a), bytes(b)),
{
    let x = a.as_bytes();
    let y = b.as_bytes();
    let (xs, xe) = trim_bounds(x, 0, x.len());
    let (ys, ye) = trim_bounds(y, 0, y.len());
    let ghost tx = x@.subrange(xs as int, xe as int);
    let ghost ty = y@.subrange(ys as int, ye as int);
    proof {
        assert(tx == trimmed(x@, 0, x@.len() as int));
        assert(ty == trimmed(y@, 0, y@.len() as int));
    }
    if xe - xs != ye - ys {
        proof {
            assert(trimmed(x@, 0, x@.len() as int).len() != trimmed(y@, 0, y@.len() as int).len());
        }
        return false;
    }
    let mut k: usize = 0;
    while k < xe - xs
        invariant
            xs <= xe <= x@.len(),
            ys <= ye <= y@.len(),
            xe - xs == ye - ys,
            k <= xe - xs,
            tx == x@.subrange(xs as int, xe as int),
            ty == y@.subrange(ys as int, ye as int),
            tx == trimmed(x@, 0, x@.len() as int),
            ty == trimmed(y@, 0, y@.len() as int),
            x@ == bytes(a),
            y@ == bytes(b),
            forall|j: int| 0 <= j < k ==> #[trigger] tx[j] == ty[j],
        decreases xe - xs - k,
    {
        if x[xs + k] != y[ys + k] {
            proof {
                assert(tx[k as int] != ty[k as int]);
            }
            return false;
        }
        k += 1;
    }
    proof {
        assert(tx =~= ty);
    }
    true
}

/// The verdict on a run of a reduced program (see `verdict`).
pub fn judge_run(config: &OracleConfig, expect_timeout: bool, has_coverage: bool, run: &ExecutionResult) -> (r: RunVerdict)
    ensures
        r == verdict(*config, expect_timeout, has_coverage, *run),
{
    if expect_timeout {
        return if run.timed_out {
            RunVerdict::Accept
        } else {
            RunVerdict::Reject
        };
    }
    if run.timed_out || !run.completed {
        return RunVerdict::Reject;
    }
    match &config.expected_stdout {
        Some(o) => {
            if !same_trimmed(run.stdout.as_str(), o.as_str()) {
                return RunVerdict::Reject;
            }
        },
        None => {},
    }
    match &config.expected_stderr {
        Some(e) => {
            if !same_trimmed(run.stderr.as_str(), e.as_str()) {
                return RunVerdict::Reject;
            }
        },
        None => {},
    }
    match config.expected_exit_code {
        Some(x) => {
            let same = match run.exit_code {
                Some(c) => c == x,
                None => false,
            };
            if !same {
                return RunVerdict::Reject;
            }
        },
        None => {},
    }
    if config.check_coverage && has_coverage {
        RunVerdict::CheckCoverage
    } else {
        RunVerdict::Accept
    }
}

/// Every line that ran in the original program runs in the reduced one.
pub open spec fn coverage_kept(original: &CoverageReport, reduced: &CoverageReport) -> bool {
    forall|l: usize| executed_at(original.lines@, l) ==> executed_at(reduced.lines@, l)
}

/// Whether the reduced program still runs every line the original ran.
pub fn coverage_preserved(original: &CoverageReport, reduced: &CoverageReport) -> (r: bool)
    ensures
        r == coverage_kept(original, reduced),
{
    let missing = missing_coverage(original, reduced);
    proof {
        if missing@.len() > 0 {
            assert(missing@.contains(missing@[0]));
        } else {
            assert forall|l: usize| executed_at(original.lines@, l) implies executed_at(reduced.lines@, l) by {
                if !executed_at(reduced.lines@, l) {
                    assert(missing@.contains(l));
                }
            }
        }
    }
    missing.len() == 0
}

/// Keeping coverage is reflexive: a program keeps its own coverage.
pub proof fn coverage_kept_reflexive(r: &CoverageReport)
    ensures
        coverage_kept(r, r),
{
}

/// Keeping coverage is transitive: reductions that each keep the coverage
/// of the program before them keep the coverage of the first.
pub proof fn coverage_kept_transitive(a: &CoverageReport, b: &CoverageReport, c: &CoverageReport)
    requires
        coverage_kept(a, b),
        coverage_kept(b, c),
    ensures
        coverage_kept(a, c),
{
}

/// The oracle built from a run of the original program accepts that same
/// run: with time-outs expected when it timed out, and otherwise whenever
/// the exit code it was told to expect (if any) is the one the run gave;
/// coverage, when checked, is then compared with the original's own.
pub proof fn original_run_accepted(c: OracleConfig, run: ExecutionResult, has_coverage: bool)
    requires
        run.timed_out || run.completed,
        !run.timed_out ==> (c.expected_stdout is None || c.expected_stdout == Some(run.stdout)),
        !run.timed_out ==> (c.expected_stderr is None || c.expected_stderr == Some(run.stderr)),
        !run.timed_out ==> (c.expected_exit_code is None || c.expected_exit_code == run.exit_code),
    ensures
        ({
            let (learnt_config, expect_timeout) = learnt(c, run);
            verdict(learnt_config, expect_timeout, has_coverage, run) != RunVerdict::Reject
        }),
{
}

} // verus!
