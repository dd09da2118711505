use rds::circular::CircularAnalyzer;
use rds::types::{Dependency, DependencyKind, DependencyTree, SkipDynamicImports};

fn dep(issuer: &str, request: &str, kind: DependencyKind, id: Option<&str>) -> Dependency {
    Dependency {
        issuer: issuer.to_string(),
        request: request.to_string(),
        kind,
        id: id.map(|s| s.to_string()),
    }
}

#[test]
fn test_simple_cycle_detection() {
    let a = "A".to_string();
    let b = "B".to_string();

    let dep_ab = dep(&a, "./b", DependencyKind::StaticImport, Some(&b));
    let dep_ba = dep(&b, "./a", DependencyKind::StaticImport, Some(&a));

    let mut tree = DependencyTree::new();
    tree.insert(a.clone(), Some(vec![dep_ab]));
    tree.insert(b.clone(), Some(vec![dep_ba]));

    let analyzer = CircularAnalyzer::new();
    let cycles = analyzer.find_circular_dependencies(&tree, &SkipDynamicImports::Never, None);

    assert!(!cycles.is_empty());
    assert!(cycles.iter().any(|c| c.len() == 2 && c.contains(&a) && c.contains(&b)));
}

#[test]
fn test_skip_dynamic_imports_circular() {
    let a = "A".to_string();
    let b = "B".to_string();

    let dep_ab = dep(&a, "./b", DependencyKind::DynamicImport, Some(&b));
    let dep_ba = dep(&b, "./a", DependencyKind::StaticImport, Some(&a));

    let mut tree = DependencyTree::new();
    tree.insert(a.clone(), Some(vec![dep_ab]));
    tree.insert(b.clone(), Some(vec![dep_ba]));

    let analyzer = CircularAnalyzer::new();
    let cycles = analyzer.find_circular_dependencies(&tree, &SkipDynamicImports::Circular, None);
    assert!(cycles.is_empty());
}

#[test]
fn test_max_count_limit() {
    let mut tree = DependencyTree::new();

    for (x, y) in &[("A", "B"), ("C", "D"), ("E", "F")] {
        let dep_xy = dep(x, &format!("./{}", y.to_lowercase()), DependencyKind::StaticImport, Some(y));
        let dep_yx = dep(y, &format!("./{}", x.to_lowercase()), DependencyKind::StaticImport, Some(x));
        tree.insert(x.to_string(), Some(vec![dep_xy]));
        tree.insert(y.to_string(), Some(vec![dep_yx]));
    }

    let analyzer = CircularAnalyzer::new();
    let cycles = analyzer.find_circular_dependencies(&tree, &SkipDynamicImports::Never, Some(1));
    assert_eq!(cycles.len(), 1);
}

#[test]
fn test_dependency_without_id_ignored() {
    let a = "A".to_string();
    let b = "B".to_string();

    let dep_ab = dep(&a, "./b", DependencyKind::StaticImport, None);
    let dep_ba = dep(&b, "./a", DependencyKind::StaticImport, Some(&a));

    let mut tree = DependencyTree::new();
    tree.insert(a.clone(), Some(vec![dep_ab]));
    tree.insert(b.clone(), Some(vec![dep_ba]));

    let analyzer = CircularAnalyzer::new();
    let cycles = analyzer.find_circular_dependencies(&tree, &SkipDynamicImports::Never, None);
    assert!(cycles.is_empty());
}

#[test]
fn test_three_node_cycle_canonicalization() {
    let a = "A".to_string();
    let b = "B".to_string();
    let c = "C".to_string();

    let dep_ab = dep(&a, "./b", DependencyKind::StaticImport, Some(&b));
    let dep_bc = dep(&b, "./c", DependencyKind::StaticImport, Some(&c));
    let dep_ca = dep(&c, "./a", DependencyKind::StaticImport, Some(&a));

    let mut tree = DependencyTree::new();
    tree.insert(a.clone(), Some(vec![dep_ab]));
    tree.insert(b.clone(), Some(vec![dep_bc]));
    tree.insert(c.clone(), Some(vec![dep_ca]));

    let analyzer = CircularAnalyzer::new();
    let cycles = analyzer.find_circular_dependencies(&tree, &SkipDynamicImports::Never, None);
    assert!(cycles
        .iter()
        .any(|cyc| cyc.len() == 3 && cyc.contains(&a) && cyc.contains(&b) && cyc.contains(&c)));
}

#[test]
fn three_node_cycle_is_reported_once_from_its_largest_rotation() {
    let mut tree = DependencyTree::new();
    tree.insert("A".to_string(), Some(vec![dep("A", "./b", DependencyKind::StaticImport, Some("B"))]));
    tree.insert("B".to_string(), Some(vec![dep("B", "./c", DependencyKind::StaticImport, Some("C"))]));
    tree.insert("C".to_string(), Some(vec![dep("C", "./a", DependencyKind::StaticImport, Some("A"))]));

    let cycles = CircularAnalyzer::new().find_circular_dependencies(&tree, &SkipDynamicImports::Never, None);
    assert_eq!(cycles.len(), 1);
    assert_eq!(cycles[0], vec!["C".to_string(), "A".to_string(), "B".to_string()]);
}

#[test]
fn acyclic_tree_has_no_cycles() {
    let mut tree = DependencyTree::new();
    tree.insert("A".to_string(), Some(vec![dep("A", "./b", DependencyKind::StaticImport, Some("B"))]));
    tree.insert("B".to_string(), Some(vec![dep("B", "./c", DependencyKind::StaticImport, Some("C"))]));
    tree.insert("C".to_string(), None);

    let cycles = CircularAnalyzer::new().find_circular_dependencies(&tree, &SkipDynamicImports::Never, None);
    assert!(cycles.is_empty());
}

#[test]
fn zero_limit_reports_nothing() {
    let mut tree = DependencyTree::new();
    tree.insert("A".to_string(), Some(vec![dep("A", "./b", DependencyKind::StaticImport, Some("B"))]));
    tree.insert("B".to_string(), Some(vec![dep("B", "./a", DependencyKind::StaticImport, Some("A"))]));

    let cycles = CircularAnalyzer::new().find_circular_dependencies(&tree, &SkipDynamicImports::Never, Some(0));
    assert!(cycles.is_empty());
}

#[test]
fn self_import_is_a_cycle_of_one() {
    let mut tree = DependencyTree::new();
    tree.insert("A".to_string(), Some(vec![dep("A", "./a", DependencyKind::StaticImport, Some("A"))]));

    let cycles = CircularAnalyzer::new().find_circular_dependencies(&tree, &SkipDynamicImports::Never, None);
    assert_eq!(cycles, vec![vec!["A".to_string()]]);
}

#[test]
fn without_a_limit_every_closed_cycle_is_reported_in_search_order() {
    let mut tree = DependencyTree::new();
    for (x, y) in &[("A", "B"), ("C", "D"), ("E", "F")] {
        let dep_xy = dep(x, &format!("./{}", y.to_lowercase()), DependencyKind::StaticImport, Some(y));
        let dep_yx = dep(y, &format!("./{}", x.to_lowercase()), DependencyKind::StaticImport, Some(x));
        tree.insert(x.to_string(), Some(vec![dep_xy]));
        tree.insert(y.to_string(), Some(vec![dep_yx]));
    }
    let analyzer = CircularAnalyzer::new();
    let cycles = analyzer.find_circular_dependencies(&tree, &SkipDynamicImports::Never, None);
    let s = |v: &[&str]| v.iter().map(|x| x.to_string()).collect::<Vec<String>>();
    assert_eq!(cycles, vec![s(&["B", "A"]), s(&["D", "C"]), s(&["F", "E"])]);
    let limited = analyzer.find_circular_dependencies(&tree, &SkipDynamicImports::Never, Some(2));
    assert_eq!(limited, vec![s(&["B", "A"]), s(&["D", "C"])]);
}

#[test]
fn a_cycle_closed_twice_is_reported_once() {
    let mut tree = DependencyTree::new();
    tree.insert("A".to_string(), Some(vec![dep("A", "./b", DependencyKind::StaticImport, Some("B"))]));
    tree.insert(
        "B".to_string(),
        Some(vec![
            dep("B", "./a", DependencyKind::StaticImport, Some("A")),
            dep("B", "./a.js", DependencyKind::DynamicImport, Some("A")),
        ]),
    );
    let analyzer = CircularAnalyzer::new();
    let cycles = analyzer.find_circular_dependencies(&tree, &SkipDynamicImports::Never, None);
    assert_eq!(cycles, vec![vec!["B".to_string(), "A".to_string()]]);
}

fn ids(v: &[&str]) -> Vec<String> {
    v.iter().map(|x| x.to_string()).collect()
}

#[test]
fn canonical_form_is_the_same_from_any_entry_and_direction() {
    let (c0, k0) = rds::circular::canonicalize(&ids(&["a", "b", "c"]));
    for other in [&["b", "c", "a"], &["c", "a", "b"], &["c", "b", "a"], &["a", "c", "b"]] {
        let (c, k) = rds::circular::canonicalize(&ids(other));
        assert_eq!(c, c0);
        assert_eq!(k, k0);
    }
    assert_eq!(c0, ids(&["c", "a", "b"]));
}

#[test]
fn canonical_key_is_the_same_even_where_ids_hold_the_separator() {
    let (c1, k1) = rds::circular::canonicalize(&ids(&["a", "a->a"]));
    let (c2, k2) = rds::circular::canonicalize(&ids(&["a->a", "a"]));
    assert_eq!(k1, k2);
    assert_ne!(c1, c2);
}
