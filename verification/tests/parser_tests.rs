use braceless::BracelessParser;

#[test]
fn test_parser_processes_without_error() {
    let parser = BracelessParser::new();
    let input = "if (x > 0)\n    cout << \"positive\";";

    // The transform is total: it always yields output, with braces added
    let output = parser.process(input);
    assert!(output.contains("{"));
    assert!(output.contains("}"));
}

#[test]
fn test_basic_control_structures() {
    let parser = BracelessParser::new();

    // Test if statement
    let if_input = "if (x > 0)\n    action();";
    let if_result = parser.process(if_input);
    assert!(if_result.contains("if (x > 0) {"));
    assert!(if_result.contains("}"));

    // Test for loop
    let for_input = "for (int i = 0; i < 10; i++)\n    process(i);";
    let for_result = parser.process(for_input);
    assert!(for_result.contains("for (int i = 0; i < 10; i++) {"));
    assert!(for_result.contains("}"));

    // Test while loop
    let while_input = "while (condition)\n    work();";
    let while_result = parser.process(while_input);
    assert!(while_result.contains("while (condition) {"));
    assert!(while_result.contains("}"));
}

#[test]
fn test_lambda_expressions() {
    let parser = BracelessParser::new();

    let lambda_input = "auto lambda = [&] (int m)\n    process(m);";
    let result = parser.process(lambda_input);

    // Lambda should have opening brace and closing };
    assert!(result.contains("auto lambda = [&] (int m) {"));
    assert!(result.contains("};"));
}

#[test]
fn test_function_definitions() {
    let parser = BracelessParser::new();

    let func_input = "int calculate(int x)\n    return x * 2;";
    let result = parser.process(func_input);

    // Function should get braces added
    assert!(result.contains("int calculate(int x) {"));
    assert!(result.contains("}"));
}

#[test]
fn test_class_and_struct() {
    let parser = BracelessParser::new();

    // Test class
    let class_input = "class MyClass\npublic:\n    void method();";
    let class_result = parser.process(class_input);
    assert!(class_result.contains("class MyClass {"));
    assert!(class_result.contains("}"));

    // Test struct
    let struct_input = "struct Point\n    int x, y;";
    let struct_result = parser.process(struct_input);
    assert!(struct_result.contains("struct Point {"));
    assert!(struct_result.contains("}"));
}

#[test]
fn test_nested_structures() {
    let parser = BracelessParser::new();

    let nested_input =
        "if (a > 0)\n    if (b > 0)\n        action();\n    else\n        other_action();";
    let result = parser.process(nested_input);

    // Should have multiple levels of braces
    let brace_count = result.matches('{').count();
    let close_brace_count = result.matches('}').count();
    assert!(brace_count >= 2); // At least 2 opening braces for nested structure
    assert_eq!(brace_count, close_brace_count); // Braces should be balanced
}

#[test]
fn test_preserves_existing_braces() {
    let parser = BracelessParser::new();

    let braced_input = "if (condition) {\n    action();\n}";
    let result = parser.process(braced_input);

    // Should not add extra braces to already braced code
    assert!(result.contains("if (condition) {"));
    assert!(result.contains("action();"));
    assert!(result.contains("}"));
}

#[test]
fn test_preserves_preprocessor_and_comments() {
    let parser = BracelessParser::new();

    let directive = format!("{}{}", "#inc", "lude <iostream>");
    let input = format!("{}\n// Comment\nusing namespace std;\nif (true)\n    action();", directive);
    let result = parser.process(&input);

    // Preprocessor and comments should be unchanged
    assert!(result.contains(&directive));
    assert!(result.contains("// Comment"));
    assert!(result.contains("using namespace std;"));
    assert!(result.contains("if (true) {"));
}

#[test]
fn test_complex_lambda_with_control_flow() {
    let parser = BracelessParser::new();

    let complex_lambda = "auto processor = [&] (int value)\n    if (value > 10)\n        large_values.push_back(value);\n    else\n        small_values.push_back(value);";
    let result = parser.process(complex_lambda);

    // Should handle lambda with nested control structures
    assert!(result.contains("auto processor = [&] (int value) {"));
    assert!(result.contains("if (value > 10) {"));
    assert!(result.contains("else {"));
    assert!(result.contains("};"));
}
