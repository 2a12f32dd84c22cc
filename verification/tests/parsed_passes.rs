use std::collections::HashMap;

use slicer::engine::context::CoverageData;
use slicer::parser::ast::{
    Declaration, DeclarationKind, Expression, ExpressionKind, Function, Parameter, ParsedUnit, Statement,
    StatementKind, StructField, TypeInfo,
};
use slicer::parser::span::ByteRange;
use slicer::parser::visitor::{AstEntity, ClangDiagnostic, EntityKind, Severity};
use slicer::passes::argument_removal::ArgumentRemovalPass;
use slicer::passes::clangd::{lines_with_code, Diagnostic};
use slicer::passes::dead_code::DeadCodePass;
use slicer::passes::dead_function::DeadFunctionPass;
use slicer::passes::enum_struct_removal::EnumStructRemovalPass;
use slicer::passes::expression::ExpressionSimplifyPass;
use slicer::passes::global_removal::GlobalRemovalPass;
use slicer::passes::header_removal::HeaderRemovalPass;
use slicer::passes::statement::StatementPass;
use slicer::passes::statement_merge::StatementMergePass;
use slicer::passes::struct_member_removal::StructMemberRemovalPass;
use slicer::passes::unused_variable::UnusedVariablePass;

/// The range of the `n`-th occurrence (from 0) of `text` in `source`.
fn nth(source: &str, text: &str, n: usize) -> ByteRange {
    let mut from = 0;
    let mut found = 0;
    loop {
        let p = from + source[from..].find(text).expect("text occurs");
        if found == n {
            return ByteRange { start: p, end: p + text.len() };
        }
        found += 1;
        from = p + 1;
    }
}

fn at(source: &str, text: &str) -> ByteRange {
    nth(source, text, 0)
}

fn ty(name: &str) -> TypeInfo {
    TypeInfo { name: name.to_string(), is_pointer: false, is_const: false }
}

fn empty_unit(source: &str) -> ParsedUnit {
    ParsedUnit {
        source: source.to_string(),
        main_file: "input.c".to_string(),
        functions: Vec::new(),
        declarations: Vec::new(),
        function_calls: Vec::new(),
        used_identifiers: Vec::new(),
        includes: Vec::new(),
        statements: Vec::new(),
        expressions: Vec::new(),
        struct_fields: Vec::new(),
        header_end: 0,
        has_errors: false,
        diagnostics: Vec::new(),
    }
}

fn function(source: &str, name: &str, text: &str, params: &[&str]) -> Function {
    let range = at(source, text);
    let brace = text.find('{').unwrap();
    Function {
        name: name.to_string(),
        return_type: ty("int"),
        parameters: params
            .iter()
            .map(|p| Parameter { name: p.to_string(), type_info: ty("int") })
            .collect(),
        range,
        body_range: Some(ByteRange { start: range.start + brace, end: range.end }),
        is_definition: true,
    }
}

fn variable(name: &str, range: ByteRange) -> Declaration {
    Declaration { name: name.to_string(), kind: DeclarationKind::Variable { type_info: ty("int") }, range }
}

fn stmt(kind: StatementKind, range: ByteRange) -> Statement {
    Statement { kind, range }
}

fn diag(line: usize, code: &str, message: &str) -> Diagnostic {
    Diagnostic { line, code: code.to_string(), message: message.to_string() }
}

fn make_coverage(dead_lines: &[u32], live_lines: &[u32]) -> CoverageData {
    let mut line_hits = HashMap::new();
    for &line in dead_lines {
        line_hits.insert(line, 0);
    }
    for &line in live_lines {
        line_hits.insert(line, 1);
    }
    CoverageData { line_hits, function_hits: HashMap::new() }
}

// ---- argument removal ----

fn foo_unit(source: &str) -> ParsedUnit {
    let mut unit = empty_unit(source);
    let foo_text = &source[..source.find("}\n").unwrap() + 1];
    unit.functions.push(function(source, "foo", foo_text, &["a", "b"]));
    let main_start = source.find("int main").unwrap();
    let main_text = &source[main_start..source.len() - 1];
    unit.functions.push(function(source, "main", main_text, &[]));
    unit
}

#[test]
fn test_detect_unused_param() {
    let source =
        "int foo(int a, int b) {\n    return a;\n}\n\nint main() {\n    return foo(1, 2);\n}\n";
    let pass = ArgumentRemovalPass;
    let diags = vec![diag(0, "-Wunused-parameter", "Unused parameter 'b'")];
    let candidates = pass.candidates(source, &foo_unit(source), &diags);
    let has_b_removal = candidates
        .iter()
        .any(|c| !c.replacement.contains("int b") && c.replacement.contains("int a"));
    assert!(has_b_removal, "should produce candidate removing unused param b");
}

#[test]
fn test_call_site_updated() {
    let source =
        "int foo(int a, int b) {\n    return a;\n}\n\nint main() {\n    return foo(1, 2);\n}\n";
    let pass = ArgumentRemovalPass;
    let diags = vec![diag(0, "-Wunused-parameter", "Unused parameter 'b'")];
    let candidates = pass.candidates(source, &foo_unit(source), &diags);
    let updated = candidates.iter().find(|c| !c.replacement.contains("int b"));
    assert!(updated.is_some());
    let new_source = &updated.unwrap().replacement;
    assert!(new_source.contains("foo(1)"), "call site should be updated to foo(1), got: {}", new_source);
}

#[test]
fn argument_removal_exact_rewrite() {
    let source =
        "int foo(int a, int b) {\n    return a;\n}\n\nint main() {\n    return foo(1, 2) + xfoo(3, 4);\n}\n";
    let mut unit = empty_unit(source);
    unit.functions.push(function(source, "foo", "int foo(int a, int b) {\n    return a;\n}", &["a", "b"]));
    let diags = vec![diag(0, "-Wunused-parameter", "Unused parameter 'b'")];
    let candidates = ArgumentRemovalPass.candidates(source, &unit, &diags);
    assert_eq!(candidates.len(), 1);
    assert_eq!(candidates[0].range, 0..source.len());
    assert_eq!(
        candidates[0].replacement,
        "int foo(int a) {\n    return a;\n}\n\nint main() {\n    return foo(1) + xfoo(3, 4);\n}\n"
    );
}

#[test]
fn call_sites_before_the_definition_are_rewritten() {
    let source = "int foo(int a, int b);\nint main() {\n    return foo(1, 2);\n}\nint foo(int a, int b) {\n    return a;\n}\n";
    let mut unit = empty_unit(source);
    unit.functions.push(function(source, "foo", "int foo(int a, int b) {\n    return a;\n}", &["a", "b"]));
    let diags = vec![diag(4, "-Wunused-parameter", "Unused parameter 'b'")];
    let candidates = ArgumentRemovalPass.candidates(source, &unit, &diags);
    assert_eq!(candidates.len(), 1);
    assert_eq!(candidates[0].range, 0..source.len());
    assert_eq!(
        candidates[0].replacement,
        "int foo(int a);\nint main() {\n    return foo(1);\n}\nint foo(int a) {\n    return a;\n}\n"
    );
}

#[test]
fn test_skip_all_used_params() {
    let source = "int add(int a, int b) {\n    return a + b;\n}\n\nint main() {\n    return add(1, 2);\n}\n";
    let pass = ArgumentRemovalPass;
    let mut unit = empty_unit(source);
    unit.functions.push(function(source, "add", "int add(int a, int b) {\n    return a + b;\n}", &["a", "b"]));
    let candidates = pass.candidates(source, &unit, &[]);
    assert!(candidates.is_empty(), "should not remove used parameters");
}

#[test]
fn test_skip_main() {
    let source = "int main(int argc, char **argv) {\n    return 0;\n}\n";
    let pass = ArgumentRemovalPass;
    let mut unit = empty_unit(source);
    unit.functions.push(function(source, "main", "int main(int argc, char **argv) {\n    return 0;\n}", &["argc", "argv"]));
    let diags = vec![
        diag(0, "-Wunused-parameter", "Unused parameter 'argc'"),
        diag(0, "-Wunused-parameter", "Unused parameter 'argv'"),
    ];
    let candidates = pass.candidates(source, &unit, &diags);
    assert!(candidates.is_empty(), "should never modify main");
}

// ---- dead code ----

#[test]
fn test_remove_dead_statement() {
    let source = "int main() {\n    int x = 1;\n    int y = 2;\n    return x;\n}\n";
    let mut unit = empty_unit(source);
    unit.statements.push(stmt(StatementKind::Compound, at(source, "{\n    int x = 1;\n    int y = 2;\n    return x;\n}")));
    unit.statements.push(stmt(StatementKind::Declaration, at(source, "int x = 1;")));
    unit.statements.push(stmt(StatementKind::Declaration, at(source, "int y = 2;")));
    unit.statements.push(stmt(StatementKind::Return, at(source, "return x")));
    let cov = make_coverage(&[3], &[2, 4]);
    let pass = DeadCodePass;
    let candidates = pass.candidates(source, &unit, Some(&cov));
    assert!(!candidates.is_empty());
    let has_dead_removal = candidates.iter().any(|c| c.apply(source).map(|r| !r.contains("int y")).unwrap_or(false));
    assert!(has_dead_removal);
}

#[test]
fn nested_dead_statements_do_not_fit() {
    let source = "int main() {\n    if (x) {\n        y = 1;\n    }\n    return 0;\n}\n";
    let mut unit = empty_unit(source);
    unit.statements.push(stmt(StatementKind::If { has_else: false }, at(source, "if (x) {\n        y = 1;\n    }")));
    unit.statements.push(stmt(StatementKind::Expression, at(source, "y = 1")));
    unit.statements.push(stmt(StatementKind::Return, at(source, "return 0")));
    let pass = DeadCodePass;
    // The `if` and the assignment inside it are both dead: their ranges nest.
    assert!(!pass.fits(source, &unit, &make_coverage(&[2, 3], &[5])));
    // With only the assignment dead, the pass can read the parse.
    assert!(pass.fits(source, &unit, &make_coverage(&[3], &[2, 5])));
    let candidates = pass.candidates(source, &unit, Some(&make_coverage(&[3], &[2, 5])));
    assert_eq!(candidates.len(), 1);
    assert_eq!(candidates[0].apply(source).unwrap(), "int main() {\n    if (x) {\n    }\n    return 0;\n}\n");
}

#[test]
fn test_no_candidates_without_coverage() {
    let source = "int main() {\n    int x = 1;\n    return x;\n}\n";
    let mut unit = empty_unit(source);
    unit.statements.push(stmt(StatementKind::Declaration, at(source, "int x = 1;")));
    unit.statements.push(stmt(StatementKind::Return, at(source, "return x")));
    let pass = DeadCodePass;
    let candidates = pass.candidates(source, &unit, None);
    assert!(candidates.is_empty());
}

#[test]
fn test_no_candidates_all_live() {
    let source = "int main() {\n    int x = 1;\n    return x;\n}\n";
    let mut unit = empty_unit(source);
    unit.statements.push(stmt(StatementKind::Declaration, at(source, "int x = 1;")));
    unit.statements.push(stmt(StatementKind::Return, at(source, "return x")));
    let cov = make_coverage(&[], &[2, 3]);
    let pass = DeadCodePass;
    let candidates = pass.candidates(source, &unit, Some(&cov));
    assert!(candidates.is_empty());
}

#[test]
fn test_dead_block_removal() {
    let source = "int main() {\n    int x = 1;\n    int a = 10;\n    int b = 20;\n    int c = 30;\n    return x;\n}\n";
    let mut unit = empty_unit(source);
    for text in ["int x = 1;", "int a = 10;", "int b = 20;", "int c = 30;"] {
        unit.statements.push(stmt(StatementKind::Declaration, at(source, text)));
    }
    unit.statements.push(stmt(StatementKind::Return, at(source, "return x")));
    let cov = make_coverage(&[3, 4, 5], &[2, 6]);
    let pass = DeadCodePass;
    let candidates = pass.candidates(source, &unit, Some(&cov));
    let block_candidates: Vec<_> = candidates
        .iter()
        .filter(|c| {
            let range_size = c.range.end - c.range.start;
            range_size > 30
        })
        .collect();
    assert!(!block_candidates.is_empty(), "should generate block removal candidate for contiguous dead statements");
}

// ---- dead function ----

#[test]
fn test_remove_uncalled_function() {
    let source = "\nvoid unused() {\n    int x = 1;\n}\n\nint main() {\n    return 0;\n}\n";
    let mut unit = empty_unit(source);
    unit.functions.push(function(source, "unused", "void unused() {\n    int x = 1;\n}", &[]));
    unit.functions.push(function(source, "main", "int main() {\n    return 0;\n}", &[]));
    let pass = DeadFunctionPass;
    let candidates = pass.candidates(source, &unit);
    let result = candidates[0].apply(source).expect("should apply");
    assert!(!result.contains("unused"));
    assert!(result.contains("main"));
}

#[test]
fn test_keep_called_function() {
    let source = "\nint helper() {\n    return 42;\n}\n\nint main() {\n    return helper();\n}\n";
    let mut unit = empty_unit(source);
    unit.functions.push(function(source, "helper", "int helper() {\n    return 42;\n}", &[]));
    unit.functions.push(function(source, "main", "int main() {\n    return helper();\n}", &[]));
    unit.function_calls.push("helper".to_string());
    let pass = DeadFunctionPass;
    let candidates = pass.candidates(source, &unit);
    assert!(
        candidates.is_empty()
            || candidates.iter().all(|c| c.apply(source).map(|r| r.contains("helper")).unwrap_or(true))
    );
}

#[test]
fn test_never_remove_main() {
    let source = "int main() { return 0; }";
    let mut unit = empty_unit(source);
    unit.functions.push(function(source, "main", source, &[]));
    let pass = DeadFunctionPass;
    let candidates = pass.candidates(source, &unit);
    assert!(candidates.is_empty());
}

// ---- enum and struct removal ----

fn type_decl(name: &str, kind: DeclarationKind, range: ByteRange) -> Declaration {
    Declaration { name: name.to_string(), kind, range }
}

#[test]
fn test_remove_unused_struct() {
    let source = "struct Unused {\n    int x;\n    int y;\n};\n\nint main() {\n    return 0;\n}\n";
    let mut unit = empty_unit(source);
    unit.declarations.push(type_decl("Unused", DeclarationKind::Struct, at(source, "struct Unused {\n    int x;\n    int y;\n}")));
    let pass = EnumStructRemovalPass;
    let candidates = pass.candidates(source, &unit);
    assert!(!candidates.is_empty(), "should find unused struct");
    let result = candidates[0].apply(source).unwrap();
    assert!(!result.contains("Unused"), "should remove unused struct");
    assert!(result.contains("main"));
}

#[test]
fn test_remove_unused_enum() {
    let source = "enum Color { RED, GREEN, BLUE };\n\nint main() {\n    return 0;\n}\n";
    let mut unit = empty_unit(source);
    unit.declarations.push(type_decl("Color", DeclarationKind::Enum, at(source, "enum Color { RED, GREEN, BLUE }")));
    let pass = EnumStructRemovalPass;
    let candidates = pass.candidates(source, &unit);
    assert!(!candidates.is_empty(), "should find unused enum");
}

#[test]
fn test_keep_used_struct() {
    let source = "struct Point {\n    int x;\n    int y;\n};\n\nint main() {\n    struct Point p;\n    p.x = 1;\n    return p.x;\n}\n";
    let mut unit = empty_unit(source);
    unit.declarations.push(type_decl("Point", DeclarationKind::Struct, at(source, "struct Point {\n    int x;\n    int y;\n}")));
    let pass = EnumStructRemovalPass;
    let candidates = pass.candidates(source, &unit);
    let removes_point = candidates.iter().any(|c| c.apply(source).map(|r| !r.contains("struct Point")).unwrap_or(false));
    assert!(!removes_point, "should not remove used struct");
}

#[test]
fn test_keep_used_enum() {
    let source = "enum Dir { UP, DOWN };\n\nint main() {\n    enum Dir d = UP;\n    return d;\n}\n";
    let mut unit = empty_unit(source);
    unit.declarations.push(type_decl("Dir", DeclarationKind::Enum, at(source, "enum Dir { UP, DOWN }")));
    let pass = EnumStructRemovalPass;
    let candidates = pass.candidates(source, &unit);
    let removes_dir = candidates.iter().any(|c| c.apply(source).map(|r| !r.contains("enum Dir")).unwrap_or(false));
    assert!(!removes_dir, "should not remove used enum");
}

// ---- global removal ----

#[test]
fn test_remove_unused_global() {
    let source = "int unused_global = 42;\n\nint main() {\n    return 0;\n}\n";
    let mut unit = empty_unit(source);
    unit.declarations.push(variable("unused_global", at(source, "int unused_global = 42")));
    unit.header_end = source.find("int main").unwrap();
    let pass = GlobalRemovalPass;
    let candidates = pass.candidates(source, &unit);
    assert!(!candidates.is_empty(), "should find unused global");
    let removed = candidates[0].apply(source).unwrap();
    assert!(!removed.contains("unused_global"));
    assert!(removed.contains("main"));
}

#[test]
fn test_keep_used_global() {
    let source = "int used_global = 42;\n\nint main() {\n    return used_global;\n}\n";
    let mut unit = empty_unit(source);
    unit.declarations.push(variable("used_global", at(source, "int used_global = 42")));
    unit.header_end = source.find("int main").unwrap();
    let pass = GlobalRemovalPass;
    let candidates = pass.candidates(source, &unit);
    let removes_it = candidates.iter().any(|c| c.apply(source).map(|r| !r.contains("used_global")).unwrap_or(false));
    assert!(!removes_it, "should not remove used global variable");
}

#[test]
fn test_multiple_unused_globals() {
    let source = "int a = 1;\nint b = 2;\nint c = 3;\n\nint main() {\n    return a;\n}\n";
    let mut unit = empty_unit(source);
    unit.declarations.push(variable("a", at(source, "int a = 1")));
    unit.declarations.push(variable("b", at(source, "int b = 2")));
    unit.declarations.push(variable("c", at(source, "int c = 3")));
    unit.header_end = source.find("int main").unwrap();
    let pass = GlobalRemovalPass;
    let candidates = pass.candidates(source, &unit);
    assert!(candidates.len() >= 2, "should find at least 2 unused globals, got {}", candidates.len());
}

// ---- header removal ----

fn include_diags() -> Vec<Diagnostic> {
    vec![
        diag(1, "unused-includes", "Included header stdlib.h is not used directly"),
        diag(2, "unused-includes", "Included header string.h is not used directly"),
        diag(5, "-Wformat", "Format string is not a string literal"),
    ]
}

#[test]
fn test_find_unused_includes() {
    let unused = lines_with_code(&include_diags(), "unused-includes");
    assert!(unused.contains(&1) || unused.contains(&2), "clangd should flag stdlib.h or string.h as unused, got: {:?}", unused);
    assert!(!unused.contains(&0), "stdio.h is used (printf), should not be flagged");
}

#[test]
fn test_only_removes_unused() {
    let source = "#include <stdio.h>\n#include <stdlib.h>\n\nint main() {\n    printf(\"hi\");\n    return 0;\n}\n";
    let unused = lines_with_code(&[diag(1, "unused-includes", "Included header stdlib.h is not used directly")], "unused-includes");
    let pass = HeaderRemovalPass;
    let candidates = pass.candidates(source, &unused);
    assert_eq!(candidates.len(), 1);
    for c in &candidates {
        let result = c.apply(source).expect("should apply");
        assert!(result.contains("#include <stdio.h>"), "should not remove used stdio.h");
    }
}

// ---- statement merge ----

#[test]
fn test_merge_same_type_declarations() {
    let source = "\nint main() {\n    int x;\n    int y;\n    return 0;\n}\n";
    let mut unit = empty_unit(source);
    unit.header_end = 1;
    unit.declarations.push(variable("x", at(source, "int x")));
    unit.declarations.push(variable("y", at(source, "int y")));
    unit.statements.push(stmt(StatementKind::Compound, at(source, "{\n    int x;\n    int y;\n    return 0;\n}")));
    unit.statements.push(stmt(StatementKind::Declaration, at(source, "int x;")));
    unit.statements.push(stmt(StatementKind::Declaration, at(source, "int y;")));
    unit.statements.push(stmt(StatementKind::Return, at(source, "return 0")));
    let pass = StatementMergePass;
    let candidates = pass.candidates(source, &unit);
    let c = candidates.iter().find(|c| c.replacement.contains("int x, y;")).expect("should find merge candidate");
    assert!(c.replacement.contains("int x, y;"));
}

#[test]
fn test_merge_many_expressions() {
    let source = "\nint main() {\n    int a, b, c, d;\n    a = 1;\n    b = 2;\n    c = 3;\n    d = 4;\n    return 0;\n}\n";
    let mut unit = empty_unit(source);
    unit.header_end = 1;
    unit.declarations.push(variable("a", at(source, "int a")));
    unit.statements.push(stmt(StatementKind::Compound, nth(source, "{", 0)));
    for text in ["a = 1;", "b = 2;", "c = 3;", "d = 4;"] {
        unit.statements.push(stmt(StatementKind::Expression, at(source, text)));
    }
    unit.statements.push(stmt(StatementKind::Declaration, at(source, "int a, b, c, d;")));
    unit.statements.push(stmt(StatementKind::Return, at(source, "return 0")));
    let pass = StatementMergePass;
    let candidates = pass.candidates(source, &unit);
    let c = candidates
        .iter()
        .find(|c| c.replacement.contains("a = 1, b = 2, c = 3, d = 4;"))
        .expect("should merge all 4 expressions");
    assert!(c.replacement.contains("a = 1, b = 2, c = 3, d = 4;"));
}

#[test]
fn merge_declaration_with_following_assignment() {
    let source = "int main() {\n    int x;\n    x = 42;\n    return x;\n}\n";
    let mut unit = empty_unit(source);
    unit.declarations.push(variable("x", at(source, "int x")));
    unit.statements.push(stmt(StatementKind::Declaration, at(source, "int x;")));
    unit.statements.push(stmt(StatementKind::Expression, at(source, "x = 42;")));
    let candidates = StatementMergePass.candidates(source, &unit);
    assert_eq!(candidates.len(), 1);
    assert_eq!(candidates[0].replacement, "int x = 42;");
    assert_eq!(candidates[0].range, at(source, "int x;").start..at(source, "x = 42;").end);
}

// ---- statement and expression passes ----

fn statement_unit(source: &str) -> ParsedUnit {
    let mut unit = empty_unit(source);
    unit.header_end = 1;
    unit
}

#[test]
fn test_remove_expression_statement() {
    let source = "\nint main() {\n    int x = 1;\n    x = 2;\n    return 0;\n}\n";
    let mut unit = statement_unit(source);
    unit.statements.push(stmt(StatementKind::Compound, at(source, "{\n    int x = 1;\n    x = 2;\n    return 0;\n}")));
    unit.statements.push(stmt(StatementKind::Expression, at(source, "x = 2;")));
    unit.statements.push(stmt(StatementKind::Declaration, at(source, "int x = 1;")));
    unit.statements.push(stmt(StatementKind::Return, at(source, "return 0")));
    let pass = StatementPass::new();
    let candidates = pass.candidates(source, &unit);
    assert!(!candidates.is_empty());
}

#[test]
fn test_simplify_empty_block() {
    let source = "\nint main() {\n    if (1) {}\n    return 0;\n}\n";
    let mut unit = statement_unit(source);
    unit.statements.push(stmt(StatementKind::If { has_else: false }, at(source, "if (1) {}")));
    unit.statements.push(stmt(StatementKind::Compound, at(source, "{}")));
    let pass = StatementPass::new();
    let candidates = pass.candidates(source, &unit);
    let _ = candidates;
}

#[test]
fn empty_block_becomes_semicolon() {
    let source = "\nint main() {\n    if (1) {}\n    return 0;\n}\n";
    let mut unit = statement_unit(source);
    unit.statements.push(stmt(StatementKind::Compound, at(source, "{}")));
    unit.statements.push(stmt(StatementKind::Return, at(source, "return 0")));
    let candidates = StatementPass::new().candidates(source, &unit);
    assert_eq!(candidates.len(), 2);
    assert_eq!(candidates[0].replacement, ";");
    assert_eq!(candidates[1].replacement, "return 0;");
}

#[test]
fn test_remove_local_declaration() {
    let source = "\nint main() {\n    int unused = 42;\n    return 0;\n}\n";
    let mut unit = statement_unit(source);
    unit.statements.push(stmt(StatementKind::Declaration, at(source, "int unused = 42;")));
    let pass = StatementPass::new();
    let candidates = pass.candidates(source, &unit);
    assert!(!candidates.is_empty());
}

fn expression(kind: ExpressionKind, range: ByteRange) -> Expression {
    Expression { kind, range, type_info: Some(ty("int")) }
}

#[test]
fn test_simplify_binary_to_constant() {
    let source = "int main() { return 1 + 2; }";
    let mut unit = empty_unit(source);
    unit.expressions.push(expression(ExpressionKind::Binary { operator: "+".to_string() }, at(source, "1 + 2")));
    unit.expressions.push(expression(ExpressionKind::IntegerLiteral(0), at(source, "1")));
    let pass = ExpressionSimplifyPass::new();
    let candidates = pass.candidates(source, &unit);
    assert!(!candidates.is_empty());
}

#[test]
fn test_simplify_parens() {
    let source = "int main() { int x = 1; return (x); }";
    let mut unit = empty_unit(source);
    unit.expressions.push(expression(ExpressionKind::Paren, at(source, "(x)")));
    let pass = ExpressionSimplifyPass::new();
    let _ = pass.candidates(source, &unit);
}

#[test]
fn parens_around_a_word_are_dropped() {
    let source = "int main() { int x = 1; return (x) + (x + 1); }";
    let mut unit = empty_unit(source);
    unit.expressions.push(expression(ExpressionKind::Paren, at(source, "(x)")));
    unit.expressions.push(expression(ExpressionKind::Paren, at(source, "(x + 1)")));
    unit.expressions.push(expression(ExpressionKind::Binary { operator: "=".to_string() }, at(source, "x = 1")));
    unit.expressions.push(expression(ExpressionKind::Call { function: "printf".to_string(), arg_count: 1 }, at(source, "1")));
    let candidates = ExpressionSimplifyPass::new().candidates(source, &unit);
    assert_eq!(candidates.len(), 1);
    assert_eq!(candidates[0].replacement, "x");
}

// ---- struct members ----

fn field(source: &str, name: &str, text: &str) -> StructField {
    StructField { name: name.to_string(), range: at(source, text) }
}

#[test]
fn test_remove_unused_field() {
    let source = "struct Point {\n    int x;\n    int y;\n    int unused_z;\n};\n\nint main() {\n    struct Point p;\n    p.x = 1;\n    p.y = 2;\n    return p.x + p.y;\n}\n";
    let mut unit = empty_unit(source);
    unit.struct_fields.push(field(source, "x", "int x"));
    unit.struct_fields.push(field(source, "y", "int y"));
    unit.struct_fields.push(field(source, "unused_z", "int unused_z"));
    let pass = StructMemberRemovalPass;
    let candidates = pass.candidates(source, &unit);
    let removes_z = candidates.iter().any(|c| {
        c.apply(source)
            .map(|r| !r.contains("unused_z") && r.contains("int x") && r.contains("int y"))
            .unwrap_or(false)
    });
    assert!(removes_z, "should remove unused field unused_z");
}

#[test]
fn test_keep_used_fields() {
    let source = "struct Vec2 {\n    int x;\n    int y;\n};\n\nint main() {\n    struct Vec2 v;\n    v.x = 10;\n    v.y = 20;\n    return v.x + v.y;\n}\n";
    let mut unit = empty_unit(source);
    unit.struct_fields.push(field(source, "x", "int x"));
    unit.struct_fields.push(field(source, "y", "int y"));
    let pass = StructMemberRemovalPass;
    let candidates = pass.candidates(source, &unit);
    assert!(candidates.is_empty(), "should not remove any used fields, got {} candidates", candidates.len());
}

#[test]
fn test_remove_arrow_accessed_field() {
    let source = "struct Node {\n    int value;\n    int unused_flag;\n    struct Node *next;\n};\n\nint main() {\n    struct Node n;\n    n.value = 42;\n    n.next = 0;\n    return n.value;\n}\n";
    let mut unit = empty_unit(source);
    unit.struct_fields.push(field(source, "value", "int value"));
    unit.struct_fields.push(field(source, "unused_flag", "int unused_flag"));
    unit.struct_fields.push(field(source, "next", "struct Node *next"));
    let pass = StructMemberRemovalPass;
    let candidates = pass.candidates(source, &unit);
    let removes_flag = candidates.iter().any(|c| c.apply(source).map(|r| !r.contains("unused_flag")).unwrap_or(false));
    assert!(removes_flag, "should remove unused field unused_flag");
}

#[test]
fn test_no_false_positive_substring() {
    let source = "struct S {\n    int x;\n    int xy;\n};\n\nint main() {\n    struct S s;\n    s.xy = 1;\n    return s.xy;\n}\n";
    let mut unit = empty_unit(source);
    unit.struct_fields.push(field(source, "x", "int x"));
    unit.struct_fields.push(field(source, "xy", "int xy"));
    let pass = StructMemberRemovalPass;
    let candidates = pass.candidates(source, &unit);
    let removes_x = candidates.iter().any(|c| c.apply(source).map(|r| !r.contains("int x;")).unwrap_or(false));
    assert!(removes_x, "should remove unused field x (xy access should not count)");
    let removes_xy = candidates.iter().any(|c| c.apply(source).map(|r| !r.contains("int xy;")).unwrap_or(false));
    assert!(!removes_xy, "should NOT remove used field xy");
}

// ---- unused variables ----

#[test]
fn test_remove_unused_variable() {
    let source = "int main() {\n    int x = 1;\n    int y = 2;\n    return x;\n}\n";
    let mut unit = empty_unit(source);
    unit.statements.push(stmt(StatementKind::Declaration, at(source, "int x = 1;")));
    unit.statements.push(stmt(StatementKind::Declaration, at(source, "int y = 2;")));
    let diags = vec![diag(2, "-Wunused-variable", "Unused variable 'y'")];
    let pass = UnusedVariablePass;
    let candidates = pass.candidates(source, &unit, &diags);
    assert!(!candidates.is_empty(), "should find unused variable y");
    let has_y_removal =
        candidates.iter().any(|c| c.apply(source).map(|r| !r.contains("int y") && r.contains("int x")).unwrap_or(false));
    assert!(has_y_removal, "should remove y but keep x");
}

#[test]
fn test_no_candidates_all_used() {
    let source = "#include <stdio.h>\nint main() {\n    int x = 1;\n    printf(\"%d\", x);\n    return 0;\n}\n";
    let mut unit = empty_unit(source);
    unit.statements.push(stmt(StatementKind::Declaration, at(source, "int x = 1;")));
    let pass = UnusedVariablePass;
    let candidates = pass.candidates(source, &unit, &[]);
    let removes_x = candidates.iter().any(|c| c.apply(source).map(|r| !r.contains("int x")).unwrap_or(false));
    assert!(!removes_x, "should not remove used variable x");
}

#[test]
fn test_remove_set_but_unused() {
    let source = "int main() {\n    int x = 1;\n    int y = 2;\n    y = 3;\n    return x;\n}\n";
    let mut unit = empty_unit(source);
    unit.statements.push(stmt(StatementKind::Expression, at(source, "y = 3;")));
    unit.statements.push(stmt(StatementKind::Declaration, at(source, "int x = 1;")));
    unit.statements.push(stmt(StatementKind::Declaration, at(source, "int y = 2;")));
    let diags = vec![diag(2, "-Wunused-but-set-variable", "Variable 'y' set but not used")];
    let pass = UnusedVariablePass;
    let candidates = pass.candidates(source, &unit, &diags);
    let has_y_decl_removal = candidates.iter().any(|c| c.apply(source).map(|r| !r.contains("int y")).unwrap_or(false));
    assert!(has_y_decl_removal, "should remove set-but-unused variable y declaration");
    let has_y_assign_removal = candidates.iter().any(|c| c.apply(source).map(|r| !r.contains("y = 3")).unwrap_or(false));
    assert!(has_y_assign_removal, "should remove assignment to set-but-unused variable y");
}

// ---- the traversal ----

fn node(kind: EntityKind, range: Option<ByteRange>, children: Vec<AstEntity>) -> AstEntity {
    AstEntity {
        kind,
        file: Some("input.c".to_string()),
        range,
        name: None,
        reference_name: None,
        is_definition: false,
        type_info: None,
        result_type: None,
        underlying_type: None,
        arguments: None,
        children,
    }
}

fn function_node(source: &str, name: &str, text: &str, body: Vec<AstEntity>) -> AstEntity {
    let mut f = node(EntityKind::FunctionDecl, Some(at(source, text)), body);
    f.name = Some(name.to_string());
    f.is_definition = true;
    f.result_type = Some(ty("int"));
    f.arguments = Some(Vec::new());
    f
}

fn root(children: Vec<AstEntity>) -> AstEntity {
    let mut r = node(EntityKind::Other, None, children);
    r.file = None;
    r
}

#[test]
fn test_parse_simple() {
    let source = "int main() { return 0; }";
    let ret = node(EntityKind::ReturnStmt, Some(at(source, "return 0")), vec![node(EntityKind::IntegerLiteral, Some(at(source, "0")), vec![])]);
    let body = node(EntityKind::CompoundStmt, Some(at(source, "{ return 0; }")), vec![ret]);
    let tree = root(vec![function_node(source, "main", source, vec![body])]);
    let unit = ParsedUnit::extract(&tree, source, "input.c", &[]);
    let functions = unit.functions();

    assert_eq!(functions.len(), 1);
    assert_eq!(functions[0].name, "main");
    assert!(functions[0].is_definition);
}

#[test]
fn test_find_function_calls() {
    let source = "\nvoid foo() {}\nvoid bar() {}\nint main() {\n    foo();\n    return 0;\n}\n";
    let mut call = node(EntityKind::CallExpr, Some(nth(source, "foo()", 1)), vec![]);
    call.reference_name = Some("foo".to_string());
    let body = node(
        EntityKind::CompoundStmt,
        Some(at(source, "{\n    foo();\n    return 0;\n}")),
        vec![call, node(EntityKind::ReturnStmt, Some(at(source, "return 0")), vec![])],
    );
    let tree = root(vec![
        function_node(source, "foo", "void foo() {}", vec![]),
        function_node(source, "bar", "void bar() {}", vec![]),
        function_node(source, "main", "int main() {\n    foo();\n    return 0;\n}", vec![body]),
    ]);
    let unit = ParsedUnit::extract(&tree, source, "input.c", &[]);
    let calls = unit.function_calls();

    assert!(calls.iter().any(|c| c == "foo"));
    assert!(!calls.iter().any(|c| c == "bar"));
    assert_eq!(unit.statements().len(), 3);
    assert!(matches!(unit.statements()[1].kind, StatementKind::Expression));
    assert_eq!(unit.statements()[1].range, at(source, "foo();"));
}

#[test]
fn test_multiple_functions() {
    let source = "\nint add(int a, int b) {\n    return a + b;\n}\n\nint main() {\n    return add(1, 2);\n}\n";
    let tree = root(vec![
        function_node(source, "add", "int add(int a, int b) {\n    return a + b;\n}", vec![]),
        function_node(source, "main", "int main() {\n    return add(1, 2);\n}", vec![]),
    ]);
    let unit = ParsedUnit::extract(&tree, source, "input.c", &[]);
    let functions = unit.functions();

    assert_eq!(functions.len(), 2);
    let names: Vec<_> = functions.iter().map(|f| &f.name).collect();
    assert!(names.contains(&&"add".to_string()));
    assert!(names.contains(&&"main".to_string()));
}

#[test]
fn traversal_tracks_header_and_errors() {
    let source = "int g;\nint f(void);\nint main() { return 0; }\n";
    let mut g = node(EntityKind::VarDecl, Some(at(source, "int g")), vec![]);
    g.name = Some("g".to_string());
    let mut proto = node(EntityKind::FunctionDecl, Some(at(source, "int f(void)")), vec![]);
    proto.name = Some("f".to_string());
    let mut header_var = node(EntityKind::VarDecl, Some(ByteRange { start: 0, end: 3 }), vec![]);
    header_var.name = Some("stdin".to_string());
    header_var.file = Some("/usr/include/stdio.h".to_string());
    let tree = root(vec![header_var, g, proto, function_node(source, "main", "int main() { return 0; }", vec![])]);
    let diags = vec![
        ClangDiagnostic { severity: Severity::Warning, file: Some("input.c".to_string()), text: "w".to_string() },
        ClangDiagnostic { severity: Severity::Error, file: Some("other.h".to_string()), text: "e".to_string() },
    ];
    let unit = ParsedUnit::extract(&tree, source, "input.c", &diags);
    assert_eq!(unit.header_end(), source.find("int main").unwrap());
    assert_eq!(unit.declarations().len(), 1);
    assert!(!unit.has_errors());
    assert_eq!(unit.diagnostics().len(), 2);
    assert_eq!(ParsedUnit::extract_binary_operator("a <= b"), "<=");
    assert_eq!(ParsedUnit::extract_unary_operator("x++"), "++");
    assert_eq!(ParsedUnit::extract_unary_operator("y"), "?");
}

fn var_node(source: &str, name: &str, text: &str) -> AstEntity {
    let mut v = node(EntityKind::VarDecl, Some(at(source, text)), vec![]);
    v.name = Some(name.to_string());
    v.type_info = Some(ty("int"));
    v
}

#[test]
fn parsed_declaration_and_assignment_merge() {
    let source = "\nint main() {\n    int x;\n    x = 42;\n    return x;\n}\n";
    let decl = node(EntityKind::DeclStmt, Some(at(source, "int x;")), vec![var_node(source, "x", "int x")]);
    let assign = node(EntityKind::BinaryOperator, Some(at(source, "x = 42")), vec![]);
    let ret = node(EntityKind::ReturnStmt, Some(at(source, "return x")), vec![]);
    let body = node(EntityKind::CompoundStmt, Some(nth(source, "{", 0)), vec![decl, assign, ret]);
    let mut body = body;
    body.range = Some(ByteRange { start: source.find('{').unwrap(), end: source.len() - 1 });
    let main_text = &source[1..source.len() - 1];
    let tree = root(vec![function_node(source, "main", main_text, vec![body])]);
    let unit = ParsedUnit::extract(&tree, source, "input.c", &[]);
    let candidates = StatementMergePass.candidates(source, &unit);
    assert_eq!(candidates.len(), 1);
    assert_eq!(candidates[0].replacement, "int x = 42;");
    assert_eq!(candidates[0].range, at(source, "int x;").start..at(source, "x = 42;").end);
}

#[test]
fn parsed_declarations_keep_initializers() {
    let source = "\nint main() {\n    int i = 5;\n    int j = 6;\n    return i + j;\n}\n";
    let d1 = node(EntityKind::DeclStmt, Some(at(source, "int i = 5;")), vec![var_node(source, "i", "int i = 5")]);
    let d2 = node(EntityKind::DeclStmt, Some(at(source, "int j = 6;")), vec![var_node(source, "j", "int j = 6")]);
    let ret = node(EntityKind::ReturnStmt, Some(at(source, "return i + j")), vec![]);
    let mut body = node(EntityKind::CompoundStmt, None, vec![d1, d2, ret]);
    body.range = Some(ByteRange { start: source.find('{').unwrap(), end: source.len() - 1 });
    let main_text = &source[1..source.len() - 1];
    let tree = root(vec![function_node(source, "main", main_text, vec![body])]);
    let unit = ParsedUnit::extract(&tree, source, "input.c", &[]);
    let candidates = StatementMergePass.candidates(source, &unit);
    assert!(candidates.iter().any(|c| c.replacement == "int i = 5, j = 6;"));
    assert!(!candidates.iter().any(|c| c.replacement == "int i, j = 6;"));
}
