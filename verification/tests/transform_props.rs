//! Scenario and edge-case tests of the transform: exact expected outputs,
//! brace balance, pass-through handling, no double bracing, idempotence on
//! input without opener candidates, and the end-of-input flush order.

use braceless::parser::ScopeKind;
use braceless::BracelessParser;

#[test]
fn test_simple_if_scenario() {
    let parser = BracelessParser::new();
    let out = parser.process("if (x > 0)\n    action();");
    // The condition header gains a brace; the call statement itself matches
    // the function-definition heuristic (parentheses, none of the excluded
    // names), so it opens a scope of its own too.
    assert_eq!(out, "if (x > 0) {\n    action(); {\n    }\n}");
    assert!(out.starts_with("if (x > 0) {\n    action();"));
    assert_eq!(out.matches('{').count(), out.matches('}').count());
}

#[test]
fn test_for_loop_scenario() {
    let parser = BracelessParser::new();
    let out = parser.process("for (int i = 0; i < 10; i++)\n    process(i);");
    let first = out.lines().next().unwrap();
    let last = out.lines().last().unwrap();
    assert!(first.ends_with("for (int i = 0; i < 10; i++) {"));
    assert_eq!(last, "}");
}

#[test]
fn test_lambda_scenario() {
    let parser = BracelessParser::new();
    let out = parser.process("auto lambda = [&] (int m)\n    process(m);");
    let first = out.lines().next().unwrap();
    let last = out.lines().last().unwrap();
    assert_eq!(first, "auto lambda = [&] (int m) {");
    assert_eq!(last, "};");
}

#[test]
fn test_nested_if_else_scenario() {
    let parser = BracelessParser::new();
    let out =
        parser.process("if (a > 0)\n    if (b > 0)\n        action();\n    else\n        other_action();");
    assert!(out.matches('{').count() >= 2);
    assert_eq!(out.matches('{').count(), out.matches('}').count());
}

#[test]
fn test_end_of_file_flush_deepest_first() {
    let parser = BracelessParser::new();
    // The input ends with two scopes still open and no dedent line: both
    // closers are still emitted, the deeper (origin indentation 4) first.
    let out = parser.process("if (a)\n    if (b)\n        c = 2;");
    assert_eq!(out, "if (a) {\n    if (b) {\n        c = 2;\n    }\n}");
}

#[test]
fn test_brace_balance_on_balanced_input() {
    let parser = BracelessParser::new();
    let input = "namespace n\n    class C\npublic:\n    void f();\nint g()\n    return 1;";
    assert_eq!(input.matches('{').count(), input.matches('}').count());
    let out = parser.process(input);
    assert_eq!(out.matches('{').count(), out.matches('}').count());
}

#[test]
fn test_brace_surplus_preserved() {
    let parser = BracelessParser::new();
    // One unmatched `}` in the input stays unmatched in the output.
    let input = "x = 1;\n}";
    let out = parser.process(input);
    let surplus_in = input.matches('}').count() - input.matches('{').count();
    let surplus_out = out.matches('}').count() - out.matches('{').count();
    assert_eq!(surplus_in, surplus_out);
}

#[test]
fn test_pass_through_skips_scope_closing() {
    let parser = BracelessParser::new();
    // A directive at column 0 inside an indented block does not close the
    // block: the synthetic closer comes only at the next Code line.
    let out = parser.process("if (a)\n    b = 1;\n#define X\nc = 2;");
    assert_eq!(out, "if (a) {\n    b = 1;\n#define X\n}\nc = 2;");
}

#[test]
fn test_no_double_bracing_on_braced_line() {
    let parser = BracelessParser::new();
    let r = parser.should_open_scope("if (condition) {");
    assert!(matches!(r, None));
    let out = parser.process("while (x) {");
    assert_eq!(out, "while (x) {");
}

#[test]
fn test_idempotent_without_opener_candidates() {
    let parser = BracelessParser::new();
    // Every block already braced, and no line triggers the opener
    // detection: the output equals the input.
    let input = "if (x) {\n    y = 1;\n}";
    let once = parser.process(input);
    assert_eq!(once, input);
    let twice = parser.process(&once);
    assert_eq!(twice, once);
}

#[test]
fn test_empty_and_blank_input() {
    let parser = BracelessParser::new();
    assert_eq!(parser.process(""), "");
    assert_eq!(parser.process("\n"), "");
    assert_eq!(parser.process("x = 1;"), "x = 1;");
    // A final line terminator is optional and adds no empty output line.
    assert_eq!(parser.process("x = 1;\n"), "x = 1;");
    assert_eq!(parser.process("// only a comment"), "// only a comment");
}

#[test]
fn test_crlf_terminators_are_normalized() {
    let parser = BracelessParser::new();
    let out = parser.process("if (x)\r\n    y = 1;");
    assert_eq!(out, "if (x) {\n    y = 1;\n}");
}

#[test]
fn test_indent_counts_tabs_and_spaces_alike() {
    let parser = BracelessParser::new();
    assert_eq!(parser.get_indent_level("\t  x"), 3);
    assert_eq!(parser.get_indent_level("    y"), 4);
    assert_eq!(parser.get_indent_level("z"), 0);
    assert_eq!(parser.get_indent_level(""), 0);
    // A tab and two spaces are different depths even if visually aligned.
    let out = parser.process("if (a)\n\tb = 1;\nc = 2;");
    assert_eq!(out, "if (a) {\n\tb = 1;\n}\nc = 2;");
}

#[test]
fn test_keyword_is_word_but_exclusion_is_substring() {
    let parser = BracelessParser::new();
    // `whileLoop` is no keyword word, and the `while` substring disables
    // the function heuristic: no scope opens.
    assert!(matches!(parser.should_open_scope("x = whileLoop(1) + 2"), None));
    // The same shape without the excluded substring opens one.
    assert!(matches!(
        parser.should_open_scope("x = foo(1) + 2"),
        Some(ScopeKind::Ordinary)
    ));
    // A keyword as a separate word opens a scope even mid-line.
    assert!(matches!(
        parser.should_open_scope("} else"),
        Some(ScopeKind::Ordinary)
    ));
}

#[test]
fn test_lambda_detection() {
    let parser = BracelessParser::new();
    assert!(parser.is_lambda("auto f = [&] (int m)"));
    assert!(!parser.is_lambda("auto f = [&] (int m);"));
    assert!(!parser.is_lambda("f(a, b)"));
    assert!(matches!(
        parser.should_open_scope("auto f = [&] (int m)"),
        Some(ScopeKind::Lambda)
    ));
}

#[test]
fn test_label_and_header_openers() {
    let parser = BracelessParser::new();
    assert!(matches!(parser.should_open_scope("public:"), Some(ScopeKind::Ordinary)));
    assert!(matches!(parser.should_open_scope("if (x > 0)"), Some(ScopeKind::Ordinary)));
    assert!(matches!(parser.should_open_scope("return x;"), None));
}
