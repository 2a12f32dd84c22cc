use slicer::engine::result::count_lines;
use slicer::numbers::{parse_u64, parse_usize, push_decimal};
use slicer::passes::clangd::{
    compile_command, diagnostics_from_messages, lsp_bodies, lsp_frame, names_with_code, quoted_name, Diagnostic,
    LspDiagnostic, LspMessage,
};
use slicer::validator::compiler::{compile_args, CompilerConfig};
use slicer::validator::coverage::{
    gcov_entry_of_groups, coverage_data_from_report, gcov_line_entry, missing_coverage, parse_gcov, CoverageReport, LineCoverage,
};
use slicer::validator::cycles::{cycles_from_perf, cycles_of_groups, pad_source};
use slicer::validator::executor::ExecutionResult;
use slicer::validator::oracle::{coverage_preserved, judge_run, OracleConfig, RunVerdict};

fn run(stdout: &str, stderr: &str, exit_code: Option<i32>, timed_out: bool) -> ExecutionResult {
    ExecutionResult {
        completed: !timed_out,
        timed_out,
        stdout: stdout.to_string(),
        stderr: stderr.to_string(),
        exit_code,
    }
}

fn report(entries: &[(usize, LineCoverage)]) -> CoverageReport {
    let mut r = CoverageReport::new("prog.c");
    for (line, cov) in entries {
        r.lines.insert(*line, *cov);
    }
    r
}

const GCOV: &str = "        -:    0:Source:prog.c\n        1:    1:int main() {\n    #####:    2:    if (0) return 1;\n        3:    3:    return 0;\n        -:    4:}\n";

#[test]
fn decimal_text_round_trip() {
    for n in [0u64, 7, 42, 1000, u64::MAX] {
        let mut s = String::new();
        push_decimal(&mut s, n);
        assert_eq!(s, n.to_string());
        assert_eq!(parse_u64(&s), Some(n));
    }
    assert_eq!(parse_u64(""), None);
    assert_eq!(parse_u64("12a"), None);
    assert_eq!(parse_u64("18446744073709551616"), None);
    assert_eq!(parse_usize("0042"), Some(42));
}

#[test]
fn frame_is_read_back() {
    let content = "{\"jsonrpc\":\"2.0\",\"method\":\"exit\"}";
    let framed = lsp_frame(content);
    assert_eq!(framed, format!("Content-Length: {}\r\n\r\n{}", content.len(), content));
    assert_eq!(lsp_bodies(&framed), vec![content]);
}

#[test]
fn several_frames_give_their_bodies_in_order() {
    let out = format!("{}{}", lsp_frame("{\"id\":1}"), lsp_frame("{\"id\":2}"));
    assert_eq!(lsp_bodies(&out), vec!["{\"id\":1}", "{\"id\":2}"]);
    assert_eq!(lsp_bodies("no header here"), Vec::<&str>::new());
    assert_eq!(lsp_bodies("Content-Length: 3 without blank line"), Vec::<&str>::new());
}

#[test]
fn clangd_compile_command_lists_flags() {
    assert_eq!(compile_command(&["-Wall", "-O2"], "/tmp/d/input.c"), "cc -Wall -O2 -c /tmp/d/input.c");
    assert_eq!(compile_command(&[], "a.c"), "cc -c a.c");
}

#[test]
fn only_published_diagnostics_with_a_line_are_kept() {
    let messages = vec![
        LspMessage { method: Some("window/logMessage".to_string()), diagnostics: None },
        LspMessage {
            method: Some("textDocument/publishDiagnostics".to_string()),
            diagnostics: Some(vec![
                LspDiagnostic {
                    line: Some(2),
                    code: Some("-Wunused-variable".to_string()),
                    message: Some("unused variable 'y'".to_string()),
                },
                LspDiagnostic { line: None, code: Some("x".to_string()), message: None },
                LspDiagnostic { line: Some(0), code: None, message: None },
            ]),
        },
    ];
    let diags = diagnostics_from_messages(&messages);
    assert_eq!(diags.len(), 2);
    assert_eq!((diags[0].line, diags[0].code.as_str()), (2, "-Wunused-variable"));
    assert_eq!((diags[1].line, diags[1].code.as_str(), diags[1].message.as_str()), (0, "", ""));
}

#[test]
fn diagnostic_names_are_quoted() {
    assert_eq!(quoted_name("Variable 'foo' set but not used"), Some("foo".to_string()));
    assert_eq!(quoted_name("no quotes"), None);
    assert_eq!(quoted_name("one ' quote"), None);
    let diags = vec![
        Diagnostic { line: 1, code: "-Wunused-variable".to_string(), message: "unused variable 'a'".to_string() },
        Diagnostic { line: 2, code: "-Wunused-parameter".to_string(), message: "unused parameter 'b'".to_string() },
    ];
    assert_eq!(names_with_code(&diags, "-Wunused-variable"), vec!["a".to_string()]);
}

#[test]
fn gcov_lines_are_read() {
    assert_eq!(gcov_line_entry("        1:    1:int main() {"), Some((1, LineCoverage::Executed(1))));
    assert_eq!(gcov_line_entry("    #####:    2:x"), Some((2, LineCoverage::NotExecuted)));
    assert_eq!(gcov_line_entry("        -:    4:}"), Some((4, LineCoverage::NonExecutable)));
    assert_eq!(gcov_line_entry("        0:    5:y"), Some((5, LineCoverage::NotExecuted)));
    assert_eq!(gcov_line_entry("        -:    0:Source:prog.c"), None);
    assert_eq!(gcov_line_entry("not a gcov line"), None);
}

#[test]
fn gcov_file_totals() {
    let r = parse_gcov(GCOV, "prog.c");
    assert_eq!(r.source_path, "prog.c");
    assert_eq!(r.lines.len(), 4);
    assert_eq!(r.line_coverage(1), LineCoverage::Executed(1));
    assert_eq!(r.line_coverage(2), LineCoverage::NotExecuted);
    assert_eq!(r.line_coverage(3), LineCoverage::Executed(3));
    assert_eq!(r.line_coverage(4), LineCoverage::NonExecutable);
    assert_eq!(r.executable_lines, 3);
    assert_eq!(r.executed_lines, 2);
    let mut executed = r.executed_line_numbers();
    executed.sort();
    assert_eq!(executed, vec![1, 3]);
    let data = coverage_data_from_report(&r);
    assert_eq!(data.line_hits.len(), 3);
    assert_eq!(data.line_hits.get(&3), Some(&3));
    assert_eq!(data.line_hits.get(&2), Some(&0));
    assert_eq!(data.line_hits.get(&4), None);
    assert!(data.function_hits.is_empty());
}

#[test]
fn coverage_is_kept_by_the_same_run() {
    let a = parse_gcov(GCOV, "prog.c");
    let b = parse_gcov(GCOV, "prog.c");
    assert!(coverage_preserved(&a, &b));
    assert!(missing_coverage(&a, &b).is_empty());
}

#[test]
fn coverage_lost_is_reported() {
    let original = report(&[(1, LineCoverage::Executed(1)), (3, LineCoverage::Executed(2)), (4, LineCoverage::NotExecuted)]);
    let reduced = report(&[(1, LineCoverage::Executed(5)), (3, LineCoverage::NotExecuted)]);
    assert_eq!(missing_coverage(&original, &reduced), vec![3]);
    assert!(!coverage_preserved(&original, &reduced));
    assert!(coverage_preserved(&reduced, &original));
}

#[test]
fn oracle_accepts_the_original_run() {
    let original = run("hello\n", "", Some(0), false);
    let mut config = OracleConfig::default();
    let expect_timeout = config.learn_from_original(&original);
    assert!(!expect_timeout);
    assert_eq!(config.expected_stdout.as_deref(), Some("hello\n"));
    assert_eq!(config.expected_exit_code, Some(0));
    assert_eq!(judge_run(&config, expect_timeout, true, &original), RunVerdict::CheckCoverage);
    assert_eq!(judge_run(&config, expect_timeout, false, &original), RunVerdict::Accept);
}

#[test]
fn oracle_compares_trimmed_output() {
    let mut config = OracleConfig::default().without_coverage();
    let expect_timeout = config.learn_from_original(&run("42\n", "", Some(0), false));
    assert_eq!(judge_run(&config, expect_timeout, true, &run("  42", "", Some(0), false)), RunVerdict::Accept);
    assert_eq!(judge_run(&config, expect_timeout, true, &run("43\n", "", Some(0), false)), RunVerdict::Reject);
    assert_eq!(judge_run(&config, expect_timeout, true, &run("42\n", "", Some(1), false)), RunVerdict::Reject);
    assert_eq!(judge_run(&config, expect_timeout, true, &run("42\n", "", None, true)), RunVerdict::Reject);
}

#[test]
fn oracle_expects_timeouts_after_a_timed_out_original() {
    let mut config = OracleConfig::default();
    let expect_timeout = config.learn_from_original(&run("", "", None, true));
    assert!(expect_timeout);
    assert!(!config.check_coverage);
    assert_eq!(config.expected_exit_code, None);
    assert_eq!(judge_run(&config, expect_timeout, true, &run("", "", None, true)), RunVerdict::Accept);
    assert_eq!(judge_run(&config, expect_timeout, true, &run("", "", Some(0), false)), RunVerdict::Reject);
}

#[test]
fn compiler_arguments_in_order() {
    let config = CompilerConfig::default().with_flag("-O2".to_string()).with_include("/inc".to_string());
    assert_eq!(compile_args(&config, "in.c", "a.out"), vec!["in.c", "-o", "a.out", "-w", "-O2", "-I", "/inc"]);
    let cov = CompilerConfig::default().with_coverage();
    assert_eq!(cov.flags, vec!["-w", "--coverage", "-fprofile-arcs", "-ftest-coverage"]);
}

#[test]
fn perf_cycles_are_read() {
    assert_eq!(cycles_from_perf("12345,,cpu-cycles,1000,100.00,,\n"), Some(12345));
    assert_eq!(cycles_from_perf("<not counted>,,cpu-cycles\n"), None);
    assert_eq!(cycles_from_perf("99999999999999999999,,cpu-cycles"), None);
}

#[test]
fn padding_goes_after_the_brace_of_main() {
    let padded = pad_source("int main() {\n    return 0;\n}\n", 10000).unwrap();
    assert_eq!(
        padded,
        "int main() {\n    { volatile int _pad = 0; for (long _i = 0; _i < 10000; _i++) _pad += (int)_i; }\n\n    return 0;\n}\n"
    );
    assert_eq!(pad_source("int main() { return 0; }", 0), None);
    assert_eq!(pad_source("void f() {}", 5), None);
}

#[test]
fn nonblank_lines_are_counted() {
    assert_eq!(count_lines("line1\nline2\nline3\nline4\nline5\n"), 5);
    assert_eq!(count_lines("line1\nline3\n"), 2);
    assert_eq!(count_lines("a\n\n   \n\tb\r\n"), 2);
    assert_eq!(count_lines(""), 0);
}

#[test]
fn test_coverage_report() {
    let mut report = CoverageReport::new("test.c");
    report.lines.insert(1, LineCoverage::Executed(1));
    report.lines.insert(2, LineCoverage::NotExecuted);
    report.lines.insert(3, LineCoverage::NonExecutable);
    report.executable_lines = 2;
    report.executed_lines = 1;

    assert!(report.is_line_executed(1));
    assert!(!report.is_line_executed(2));
}

fn groups(texts: &[Option<&str>]) -> Vec<Option<String>> {
    texts.iter().map(|t| t.map(|s| s.to_string())).collect()
}

#[test]
fn gcov_groups_give_line_and_coverage() {
    assert_eq!(gcov_entry_of_groups(&groups(&[Some("x"), Some("5"), Some("12")])), Some((12, LineCoverage::Executed(5))));
    assert_eq!(gcov_entry_of_groups(&groups(&[Some("x"), Some("#####"), Some("3")])), Some((3, LineCoverage::NotExecuted)));
    assert_eq!(gcov_entry_of_groups(&groups(&[Some("x"), Some("-"), Some("4")])), Some((4, LineCoverage::NonExecutable)));
    assert_eq!(gcov_entry_of_groups(&groups(&[Some("x"), Some("1"), Some("0")])), None);
    assert_eq!(gcov_entry_of_groups(&groups(&[Some("x"), Some("1"), None])), None);
    assert_eq!(gcov_entry_of_groups(&groups(&[Some("x"), Some("1")])), None);
}

#[test]
fn cycle_groups_give_the_count() {
    assert_eq!(cycles_of_groups(&groups(&[Some("7,,cpu-cycles"), Some("7")])), Some(7));
    assert_eq!(cycles_of_groups(&groups(&[Some("x"), None])), None);
    assert_eq!(cycles_of_groups(&groups(&[Some("x")])), None);
    assert_eq!(cycles_of_groups(&groups(&[Some("x"), Some("99999999999999999999")])), None);
}
