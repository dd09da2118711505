use rds::config::ParseOptions;
use rds::runner::AnalysisRunner;
use rds::types::{count_total_dependencies, Dependency, DependencyKind, DependencyTree, ProgressEvent, SkipDynamicImports};
use rds::watch::WatchRunner;

fn small_tree() -> DependencyTree {
    let mut tree = DependencyTree::new();
    tree.insert("file1.js".to_string(), Some(vec![]));
    tree.insert("file2.js".to_string(), None);
    tree
}

#[test]
fn dependency_tree_insert_and_get() {
    let mut tree = DependencyTree::new();
    tree.insert(
        "x.js".to_string(),
        Some(vec![Dependency {
            issuer: "x.js".into(),
            request: "y.js".into(),
            kind: DependencyKind::StaticImport,
            id: None,
        }]),
    );
    assert!(tree.contains_key("x.js"));
    let val = tree.get("x.js").unwrap();
    assert!(val.is_some());
}

#[test]
fn analysis_runner_test_count_total_dependencies() {
    let tree = small_tree();
    assert_eq!(AnalysisRunner::count_total_dependencies(&tree), 0);
}

#[test]
fn tests_test_count_total_dependencies() {
    let tree = small_tree();
    assert_eq!(AnalysisRunner::count_total_dependencies(&tree), 0);
    assert_eq!(WatchRunner::count_total_dependencies(&tree), 0);
}

#[test]
fn watch_test_count_total_dependencies() {
    let tree = small_tree();
    assert_eq!(WatchRunner::count_total_dependencies(&tree), 0);
}

#[test]
fn total_counts_every_dependency() {
    let d = |r: &str| Dependency { issuer: "a".into(), request: r.into(), kind: DependencyKind::CommonJS, id: None };
    let mut tree = DependencyTree::new();
    tree.insert("a".to_string(), Some(vec![d("x"), d("y")]));
    tree.insert("b".to_string(), None);
    tree.insert("c".to_string(), Some(vec![d("z")]));
    assert_eq!(count_total_dependencies(&tree), 3);
}

#[test]
fn insert_replaces_in_place() {
    let mut tree = DependencyTree::new();
    tree.insert("a".to_string(), None);
    tree.insert("b".to_string(), None);
    tree.insert("a".to_string(), Some(vec![]));
    assert_eq!(tree.len(), 2);
    assert_eq!(tree.keys(), vec!["a".to_string(), "b".to_string()]);
    assert!(tree.get("a").unwrap().is_some());
}

#[test]
fn parse_options_debug_and_enums() {
    let opts = ParseOptions::default_in("/work".to_string());
    let s = format!("{:?}", opts);
    assert!(s.contains("extensions"));
    assert_eq!(SkipDynamicImports::Never, SkipDynamicImports::Never);
    let ev = ProgressEvent::Start;
    let s2 = format!("{:?}", ev);
    assert!(s2.contains("Start"));
}
