use slicer::engine::context::CoverageData;
use slicer::engine::pass::ReductionPass;
use slicer::passes::argument_removal::{find_matching_paren, split_params, identifier_occurs, extract_param_name};
use slicer::passes::global_removal::count_identifier_occurrences;
use slicer::passes::include_pass::IncludePass;
use slicer::passes::statement_merge::StatementMergePass;
use slicer::passes::typedef::TypedefPass;
use slicer::passes::unused_variable::{extract_var_name, is_simple_assignment_to};

#[test]
fn test_split_params() {
    assert_eq!(split_params("int a, int b"), vec!["int a", "int b"]);
    assert_eq!(split_params("int a"), vec!["int a"]);
    assert!(split_params("").is_empty());
    assert!(split_params("void").is_empty());
    assert_eq!(
        split_params("int (*fp)(int, int), int b"),
        vec!["int (*fp)(int, int)", "int b"]
    );
}

#[test]
fn test_find_matching_paren() {
    assert_eq!(find_matching_paren("(a, b)", 0), Some(5));
    assert_eq!(find_matching_paren("(a, (b, c))", 0), Some(10));
    assert_eq!(find_matching_paren("x(y)", 1), Some(3));
}

#[test]
fn matching_paren_missing_or_unbalanced() {
    assert_eq!(find_matching_paren("(a, (b)", 0), None);
    assert_eq!(find_matching_paren(")(x)", 0), None);
    assert_eq!(find_matching_paren("abc", 10), None);
}

#[test]
fn split_params_trims_and_keeps_brackets() {
    assert_eq!(split_params("  int a[2, 3] ,char c  "), vec!["int a[2, 3]", "char c"]);
    assert_eq!(split_params("  void  "), Vec::<&str>::new());
    assert_eq!(split_params("a,,b"), vec!["a", "", "b"]);
}

#[test]
fn identifier_occurs_whole_words_only() {
    assert!(identifier_occurs("return a + b;", "b"));
    assert!(!identifier_occurs("return ab;", "b"));
    assert!(!identifier_occurs("anything", ""));
    assert!(identifier_occurs("x", "x"));
}

#[test]
fn extract_param_name_reads_quotes() {
    assert_eq!(extract_param_name("Unused parameter 'b'"), Some("b".to_string()));
    assert_eq!(extract_param_name("Unused parameter 'b"), None);
}

#[test]
fn test_count_identifier_occurrences() {
    assert_eq!(count_identifier_occurrences("int x = 1; return x;", "x"), 2);
    assert_eq!(count_identifier_occurrences("int xyz = 1;", "x"), 0);
    assert_eq!(count_identifier_occurrences("int x = 1;", "x"), 1);
    assert_eq!(count_identifier_occurrences("x + x + x", "x"), 3);
}

#[test]
fn test_remove_include() {
    let source = "#include <stdio.h>\n#include <stdlib.h>\n\nint main() {\n    return 0;\n}\n";
    let pass = IncludePass::new();
    let candidates = pass.apply(source, None);
    assert!(candidates.len() >= 2);
    for candidate in &candidates {
        let result = candidate.apply(source).unwrap();
        let removed_stdio = !result.contains("stdio.h");
        let removed_stdlib = !result.contains("stdlib.h");
        assert!(removed_stdio || removed_stdlib);
    }
}

#[test]
fn test_no_includes() {
    let source = "int main() { return 0; }";
    let pass = IncludePass::new();
    let candidates = pass.apply(source, None);
    assert!(candidates.is_empty());
}

#[test]
fn include_removal_spans_whole_lines() {
    let source = "  #include \"a.h\"\nint x;\n";
    let candidates = IncludePass::new().candidates(source);
    assert_eq!(candidates.len(), 1);
    assert_eq!(candidates[0].range, 0..17);
    assert_eq!(candidates[0].apply(source).unwrap(), "int x;\n");
}

#[test]
fn test_remove_typedef() {
    let source = "typedef int MyInt;\n\nint main() {\n    int x = 0;\n    return x;\n}\n";
    let pass = TypedefPass;
    let candidates = pass.apply(source, None);
    assert!(!candidates.is_empty());
    let has_removal = candidates.iter().any(|c| {
        c.apply(source)
            .map(|r| !r.contains("typedef"))
            .unwrap_or(false)
    });
    assert!(has_removal);
}

#[test]
fn test_typedef_candidate_for_used() {
    let source = "typedef int MyInt;\n\nint main() {\n    MyInt x = 0;\n    return x;\n}\n";
    let pass = TypedefPass;
    let candidates = pass.apply(source, None::<&CoverageData>);
    assert!(!candidates.is_empty());
}

#[test]
fn typedef_removal_exact_range() {
    let source = "typedef int MyInt;\nint x;\n";
    let candidates = TypedefPass.candidates(source);
    assert_eq!(candidates.len(), 1);
    assert_eq!(candidates[0].range, 0..19);
    assert!(candidates[0].replacement.is_empty());
}

#[test]
fn test_extract_var_name() {
    assert_eq!(
        extract_var_name("Variable 'foo' set but not used"),
        Some("foo".to_string())
    );
    assert_eq!(
        extract_var_name("Unused variable 'bar'"),
        Some("bar".to_string())
    );
    assert_eq!(extract_var_name("no quotes here"), None);
}

#[test]
fn test_is_simple_assignment() {
    assert!(is_simple_assignment_to("x = 99;", "x"));
    assert!(is_simple_assignment_to("  x = 99;  ", "x"));
    assert!(!is_simple_assignment_to("x += 1;", "x"));
    assert!(!is_simple_assignment_to("x == 1;", "x"));
    assert!(!is_simple_assignment_to("y = 99;", "x"));
}

#[test]
fn simple_assignment_edge_cases() {
    assert!(!is_simple_assignment_to("= 3;", "x"));
    assert!(is_simple_assignment_to("x = 1;;;", "x"));
    assert!(!is_simple_assignment_to("x", "x"));
}

#[test]
fn test_parse_assignment_rejects_compound() {
    assert!(StatementMergePass::parse_assignment("x += 1;").is_none());
    assert!(StatementMergePass::parse_assignment("x == 1;").is_none());
}

#[test]
fn parse_assignment_splits_name_and_value() {
    assert_eq!(
        StatementMergePass::parse_assignment("  x = 42 ;"),
        Some(("x".to_string(), "42".to_string()))
    );
    assert_eq!(StatementMergePass::parse_assignment("x = 42"), None);
    assert_eq!(StatementMergePass::parse_assignment("a.b = 1;"), None);
    assert_eq!(StatementMergePass::parse_assignment("x = ;"), None);
}

#[test]
fn expr_body_strips_one_semicolon() {
    assert_eq!(StatementMergePass::extract_expr_body(" a = 1 ; "), Some("a = 1"));
    assert_eq!(StatementMergePass::extract_expr_body("a = 1"), None);
    assert_eq!(StatementMergePass::extract_expr_body(" ; "), None);
}
