use rds::console::{ConsoleOutput, LineStyle, PieceStyle};
use rds::types::{Dependency, DependencyKind, DependencyTree};

#[test]
fn test_console_print_tree_captured_output() {
    let out = ConsoleOutput::new();

    let mut tree = DependencyTree::new();
    tree.insert(
        "a.js".to_string(),
        Some(vec![Dependency {
            issuer: "a.js".to_string(),
            request: "b.js".to_string(),
            kind: DependencyKind::StaticImport,
            id: Some("b.js".to_string()),
        }]),
    );

    let entries = vec!["a.js".to_string()];

    let mut buf = String::new();
    out.print_tree_to(&mut buf, &tree, &entries);
    let s = buf;

    assert!(s.contains("Dependencies Tree"));
    assert!(s.contains("a.js"));
    assert!(s.contains("b.js"));
}

#[test]
fn test_print_builtin_module_via_print_tree_to() {
    let out = ConsoleOutput::new();
    let mut tree = DependencyTree::new();

    tree.insert("fs".to_string(), None);

    let entries = vec!["fs".to_string(), "fs".to_string()];
    let mut buf = String::new();
    out.print_tree_to(&mut buf, &tree, &entries);
    let s = buf;
    assert!(s.contains("fs"));
}

#[test]
fn tree_lines_number_modules_and_mark_repeats() {
    let out = ConsoleOutput::new();
    let dep = |i: &str, r: &str, id: Option<&str>| Dependency {
        issuer: i.to_string(),
        request: r.to_string(),
        kind: DependencyKind::StaticImport,
        id: id.map(|s| s.to_string()),
    };
    let mut tree = DependencyTree::new();
    tree.insert("a.js".to_string(), Some(vec![dep("a.js", "./b", Some("b.js")), dep("a.js", "fs", None)]));
    tree.insert("b.js".to_string(), Some(vec![dep("b.js", "./a", Some("a.js")), dep("b.js", "./missing", None)]));

    let lines = out.tree_lines(&tree, &vec!["a.js".to_string()]);
    let shown: Vec<(String, String, LineStyle)> = lines.into_iter().map(|l| (l.head, l.node, l.style)).collect();
    assert_eq!(
        shown,
        vec![
            ("  - 0) ".to_string(), "a.js".to_string(), LineStyle::Plain),
            ("      - 1) ".to_string(), "b.js".to_string(), LineStyle::Plain),
            ("      ·   - 0) ".to_string(), "a.js".to_string(), LineStyle::Dim),
            ("      ·   - 2) ".to_string(), "./missing".to_string(), LineStyle::Yellow),
            ("      - 3) ".to_string(), "fs".to_string(), LineStyle::Blue),
        ]
    );
}

#[test]
fn entries_are_matched_to_tree_keys_for_display() {
    let out = ConsoleOutput::new();
    let mut tree = DependencyTree::new();
    tree.insert("src/app.js".to_string(), None);
    let lines = out.tree_lines(&tree, &vec!["./src/app.js".to_string()]);
    assert_eq!(lines.len(), 1);
    assert_eq!(lines[0].node, "src/app.js");
}

#[test]
fn display_form_uses_backslashes_without_leading_dot() {
    let out = ConsoleOutput::new();
    assert_eq!(out.normalize_path_for_display("./a/./b.js"), "a\\b.js");
    assert_eq!(out.normalize_path_for_display("x/y"), "x\\y");
}

#[test]
fn builtin_modules_are_recognised() {
    let out = ConsoleOutput::new();
    assert!(out.is_builtin_module("fs"));
    assert!(out.is_builtin_module("child_process"));
    assert!(!out.is_builtin_module("react"));
}

fn texts(lines: &[Vec<rds::console::Piece>]) -> Vec<String> {
    lines.iter().map(|l| l.iter().map(|p| p.text.clone()).collect::<String>()).collect()
}

#[test]
fn test_console_print_circular_empty() {
    let out = ConsoleOutput::new();
    let report = out.circular_report(&Vec::new(), None, None);
    assert_eq!(
        texts(&report),
        vec![
            "🔄 Circular Dependencies".to_string(),
            "  ✅ Congratulations, no circular dependency was found in your project.".to_string(),
            "".to_string(),
        ]
    );
    assert_eq!(report[0][0].style, PieceStyle::BoldGreen);
}

#[test]
fn test_print_circular_with_entries_and_limit() {
    let out = ConsoleOutput::new();
    let circulars = vec![vec!["A".to_string(), "B".to_string()], vec!["C".to_string(), "D".to_string()]];
    let report = out.circular_report(&circulars, Some(1), Some(1));
    assert_eq!(
        texts(&report),
        vec![
            "⚠️  Circular Dependencies".to_string(),
            "  1) A → B".to_string(),
            "  ... and 1 more".to_string(),
            "  At least 1 circular dependencies found (search limit reached)".to_string(),
            "".to_string(),
        ]
    );
}

#[test]
fn cycle_numbers_are_padded_to_the_count() {
    let out = ConsoleOutput::new();
    let circulars: Vec<Vec<String>> = (0..10).map(|i| vec![format!("m{}", i)]).collect();
    let report = out.circular_report(&circulars, None, None);
    assert_eq!(texts(&report)[1], "  01) m0");
    assert_eq!(texts(&report)[10], "  10) m9");
    assert_eq!(report.len(), 12);
}

#[test]
fn tests_test_print_circular_dependencies_empty() {
    let out = ConsoleOutput::new();
    let lines = out.circular_report(&vec![], None, None);
    assert_eq!(lines.len(), 3);
}

#[test]
fn tests_test_print_circular_dependencies_compact() {
    let out = ConsoleOutput::new();
    let lines = out.circular_report(&vec![], None, Some(3));
    assert_eq!(lines.len(), 3);
}
