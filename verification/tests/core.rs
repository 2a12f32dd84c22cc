use std::collections::HashMap;
use std::ops::Range;
use std::time::Duration;

use slicer::engine::config::{PipelineConfig, Policy};
use slicer::engine::context::CoverageData;
use slicer::engine::pass::{Candidate, ReductionPass};
use slicer::engine::pipeline::Pipeline;
use slicer::parser::error::ParseError;
use slicer::parser::span::ByteRange;
use slicer::passes::util::{extend_to_line, LineIndex};
use slicer::validator::coverage::LineCoverage;
use slicer::validator::executor::TimeoutConfig;

#[test]
fn test_default_config() {
    let config = PipelineConfig::default();
    assert_eq!(config.policy, Policy::Aggressive);
    assert_eq!(config.max_iterations, 20);
    assert!(config.is_pass_enabled("dead_code"));
}

#[test]
fn test_builder() {
    let config = PipelineConfig::builder()
        .policy(Policy::Conservative)
        .max_iterations(10)
        .build();

    assert_eq!(config.policy, Policy::Conservative);
    assert_eq!(config.max_iterations, 10);
}

#[test]
fn test_pass_filtering() {
    let config = PipelineConfig::builder()
        .disabled_passes(vec!["delta_debug".to_string()])
        .build();

    assert!(config.is_pass_enabled("dead_code"));
    assert!(!config.is_pass_enabled("delta_debug"));
}

#[test]
fn test_coverage_data() {
    let mut cov = CoverageData::default();
    cov.line_hits.insert(1, 5);
    cov.line_hits.insert(2, 0);
    assert!(cov.is_line_executed(1));
    assert!(!cov.is_line_executed(2));
    assert!(!cov.is_line_executed(3));
}

#[test]
fn test_candidate_remove() {
    let source = "int x = 0; int y = 1;";
    let candidate = Candidate::removal(0..11);
    let result = candidate.apply(source).unwrap();
    assert_eq!(result, "int y = 1;");
}

#[test]
fn test_candidate_replace() {
    let source = "x + 0";
    let candidate = Candidate::new(0..5, "x");
    let result = candidate.apply(source).unwrap();
    assert_eq!(result, "x");
}

#[test]
fn test_candidate_out_of_bounds() {
    let source = "short";
    let candidate = Candidate::removal(0..100);
    assert!(candidate.apply(source).is_none());
}

struct RemoveFirstLinePass;

impl ReductionPass for RemoveFirstLinePass {
    fn apply(&self, source: &str, _coverage: Option<&CoverageData>) -> Vec<Candidate> {
        let lines: Vec<_> = source.lines().collect();
        if lines.len() > 1 {
            let first_line_end = lines[0].len() + 1;
            vec![Candidate::removal(0..first_line_end.min(source.len()))]
        } else {
            Vec::new()
        }
    }
}

#[test]
fn test_pipeline_reduces() {
    let pipeline = Pipeline::new(vec![Box::new(RemoveFirstLinePass)], 10);
    let source = "line1\nline2\nline3\n";
    let result = pipeline.reduce(source, None, &mut |_: &str| true);
    assert_eq!(result, "line3\n");
}

#[test]
fn candidates_tried_in_order_on_the_current_text() {
    let pipeline = Pipeline::new(Vec::new(), 1);
    let candidates = vec![
        Candidate::removal(6..12),
        Candidate::removal(100..200),
        Candidate::new(0..5, "first"),
    ];
    let start = std::time::Instant::now();
    let mut asked: Vec<String> = Vec::new();
    let result = pipeline.try_candidates("line1\nline2\nline3\n".to_string(), &candidates, &start, &mut |t: &str| {
        asked.push(t.to_string());
        !t.starts_with("first")
    });
    assert_eq!(asked, vec!["line1\nline3\n".to_string(), "first\nline3\n".to_string()]);
    assert_eq!(result, "line1\nline3\n");
}

#[test]
fn test_pipeline_oracle_rejects() {
    let pipeline = Pipeline::new(vec![Box::new(RemoveFirstLinePass)], 10);
    let source = "line1\nline2\n";
    let result = pipeline.reduce(source, None, &mut |_: &str| false);
    assert_eq!(result, source);
}

#[test]
fn error_test_error_display() {
    let err = ParseError::clang("failed to init");
    assert!(err.message().contains("clang error"));
}

#[test]
fn test_byte_range() {
    let range = ByteRange::new(10, 20);
    assert_eq!(range.extract("0123456789abcdefghij"), Some("abcdefghij"));
}

#[test]
fn test_to_range() {
    let range = ByteRange::new(5, 15);
    let std_range: Range<usize> = range.into();
    assert_eq!(std_range, 5..15);
}

#[test]
fn test_extend_to_line() {
    let source = "line1\nline2\nline3";
    let range = ByteRange::new(7, 10);
    let extended = extend_to_line(source, range);
    assert_eq!(extended.start, 6);
    assert_eq!(extended.end, 12);
}

#[test]
fn test_line_index_single_line() {
    let idx = LineIndex::new("hello");
    assert_eq!(idx.line_of(0), 1);
    assert_eq!(idx.line_of(3), 1);
}

#[test]
fn test_line_index_multi_line() {
    let source = "line1\nline2\nline3\n";
    let idx = LineIndex::new(source);
    assert_eq!(idx.line_of(0), 1);
    assert_eq!(idx.line_of(5), 1);
    assert_eq!(idx.line_of(6), 2);
    assert_eq!(idx.line_of(12), 3);
}

#[test]
fn test_line_index_empty() {
    let idx = LineIndex::new("");
    assert_eq!(idx.line_of(0), 1);
}

#[test]
fn test_line_coverage() {
    assert!(LineCoverage::Executed(5).is_executed());
    assert!(!LineCoverage::NotExecuted.is_executed());
    assert!(!LineCoverage::NonExecutable.is_executable());
    assert_eq!(LineCoverage::Executed(10).count(), Some(10));
}

#[test]
fn test_timeout_config() {
    let config = TimeoutConfig::new(10);
    assert_eq!(config.execution_timeout, Duration::from_secs(10));
}

#[test]
fn coverage_data_counts_only_positive_hits() {
    let mut line_hits = HashMap::new();
    line_hits.insert(7u32, 3u64);
    let cov = CoverageData { line_hits, function_hits: HashMap::new() };
    assert!(cov.is_line_executed(7));
    assert!(cov.has_line(7));
    assert!(!cov.has_line(8));
}
