use rds::resolve::{apply_resolutions, shorten_tree, unresolved_requests};
use rds::types::{Dependency, DependencyKind, DependencyTree};

fn dep(issuer: &str, request: &str, id: Option<&str>) -> Dependency {
    Dependency { issuer: issuer.to_string(), request: request.to_string(), kind: DependencyKind::StaticImport, id: id.map(|s| s.to_string()) }
}

#[test]
fn shorten_tree_strips_the_context() {
    let mut tree = DependencyTree::new();
    tree.insert("/proj/src/a.js".to_string(), Some(vec![dep("/proj/src/a.js", "./b", Some("/proj/src/b.js")), dep("/proj/src/a.js", "x", None)]));
    tree.insert("/other/c.js".to_string(), None);
    let short = shorten_tree("/proj", tree);
    assert_eq!(short.keys(), vec!["src/a.js".to_string(), "/other/c.js".to_string()]);
    let deps = short.get("src/a.js").unwrap().as_ref().unwrap();
    assert_eq!(deps[0].issuer, "src/a.js");
    assert_eq!(deps[0].id.as_deref(), Some("src/b.js"));
    assert_eq!(deps[1].id, None);
}

#[test]
fn unresolved_requests_are_listed_with_their_directory() {
    let mut tree = DependencyTree::new();
    tree.insert("src/a.js".to_string(), Some(vec![dep("src/a.js", "./b", None), dep("src/a.js", "./c", Some("src/c.js"))]));
    tree.insert("top.js".to_string(), Some(vec![dep("top.js", "lib", None)]));
    let tasks = unresolved_requests(&tree);
    assert_eq!(
        tasks,
        vec![
            ("src/a.js".to_string(), "./b".to_string(), "src".to_string()),
            ("top.js".to_string(), "lib".to_string(), "".to_string()),
        ]
    );
}

#[test]
fn resolutions_fill_the_first_matching_request() {
    let mut tree = DependencyTree::new();
    tree.insert("a.js".to_string(), Some(vec![dep("a.js", "./b", None), dep("a.js", "./b", None), dep("a.js", "./c", None)]));
    tree.insert("n.js".to_string(), None);
    let res = vec![
        ("a.js".to_string(), "./b".to_string(), "b.js".to_string()),
        ("a.js".to_string(), "./c".to_string(), "c.js".to_string()),
        ("n.js".to_string(), "./x".to_string(), "x.js".to_string()),
        ("missing.js".to_string(), "./y".to_string(), "y.js".to_string()),
    ];
    apply_resolutions(&mut tree, &res);
    let deps = tree.get("a.js").unwrap().as_ref().unwrap();
    assert_eq!(deps[0].id.as_deref(), Some("b.js"));
    assert_eq!(deps[1].id, None);
    assert_eq!(deps[2].id.as_deref(), Some("c.js"));
    assert!(tree.get("n.js").unwrap().is_none());
    assert_eq!(tree.len(), 2);
}

#[test]
fn resolved_ids_are_written_back_by_position() {
    let d = |r: &str| rds::types::Dependency {
        issuer: "a.js".to_string(),
        request: r.to_string(),
        kind: rds::types::DependencyKind::StaticImport,
        id: None,
    };
    let mut deps = vec![d("./b"), d("./c"), d("./d")];
    let results = vec![(2usize, Some("d.js".to_string())), (0usize, None), (7usize, Some("x.js".to_string())), (1usize, Some("c.js".to_string()))];
    rds::resolve::set_resolved_ids(&mut deps, &results);
    assert_eq!(deps[0].id, None);
    assert_eq!(deps[1].id, Some("c.js".to_string()));
    assert_eq!(deps[2].id, Some("d.js".to_string()));
    assert_eq!(deps[2].request, "./d");
}

#[test]
fn shorten_tree_keeps_the_last_of_colliding_ids() {
    let mut tree = DependencyTree::new();
    tree.insert("/proj/src/a.js".to_string(), None);
    tree.insert("src\\a.js".to_string(), Some(vec![]));
    let short = shorten_tree("/proj", tree);
    assert_eq!(short.keys(), vec!["src/a.js".to_string()]);
    assert_eq!(short.get("src/a.js").unwrap().as_ref().map(|d| d.len()), Some(0));
}
