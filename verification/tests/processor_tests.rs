//! The argument-planning side: which arguments are eligible, where each
//! temporary file goes, and how an argument list is rewritten.

use braceless::CompilerInvoker;
use braceless::FileProcessor;

#[test]
fn test_is_bpp_file() {
    let p = FileProcessor::new();
    assert!(p.is_bpp_file("main.bpp"));
    assert!(p.is_bpp_file("dir/sub/main.bpp"));
    assert!(p.is_bpp_file("a.b.bpp"));
    assert!(!p.is_bpp_file("main.cpp"));
    assert!(!p.is_bpp_file("main"));
    assert!(!p.is_bpp_file(".bpp"));
    assert!(!p.is_bpp_file("dir.bpp/main"));
    assert!(!p.is_bpp_file(""));
    // The extension comparison is case-sensitive.
    assert!(!p.is_bpp_file("main.BPP"));
}

#[test]
fn test_create_temp_path() {
    let p = FileProcessor::new();
    assert_eq!(p.create_temp_path("main.bpp"), ".main.cpp");
    assert_eq!(p.create_temp_path("dir/main.bpp"), "dir/.main.cpp");
    assert_eq!(p.create_temp_path("a/b/x.y.bpp"), "a/b/.x.y.cpp");
}

#[test]
fn test_extract_source_file() {
    let p = FileProcessor::new();
    assert_eq!(p.extract_source_file("-O2", true), None);
    assert_eq!(p.extract_source_file("main.bpp", false), None);
    assert_eq!(p.extract_source_file("main.bpp", true), Some("main.bpp".to_string()));
}

#[test]
fn test_process_args_rewrites_eligible_arguments() {
    let mut p = FileProcessor::new();
    let args = vec![
        "clang++".to_string(),
        "main.bpp".to_string(),
        "-O2".to_string(),
        "other.cpp".to_string(),
        "src/extra.bpp".to_string(),
    ];
    let is_file = vec![false, true, true, true, true];
    let modified = p.process_args(args.clone(), is_file);
    assert_eq!(
        modified,
        vec![
            "clang++".to_string(),
            ".main.cpp".to_string(),
            "-O2".to_string(),
            "other.cpp".to_string(),
            "src/.extra.cpp".to_string(),
        ]
    );
    assert_eq!(
        p.temp_files(),
        &vec![".main.cpp".to_string(), "src/.extra.cpp".to_string()]
    );
}

#[test]
fn test_process_args_without_eligible_arguments() {
    let mut p = FileProcessor::new();
    let args = vec!["cc".to_string(), "x.c".to_string()];
    let modified = p.process_args(args.clone(), vec![false, true]);
    assert_eq!(modified, args);
    assert!(p.temp_files().is_empty());
}

#[test]
fn test_args_valid() {
    let invoker = CompilerInvoker::new();
    assert!(!invoker.args_valid(&Vec::new()));
    assert!(invoker.args_valid(&vec!["cc".to_string()]));
}

#[test]
fn test_process_content_delegates_to_the_transform() {
    let p = FileProcessor::new();
    let out = p.process_content("if (x)\n    y = 1;");
    assert_eq!(out, "if (x) {\n    y = 1;\n}");
}
