use rds::reverse_index::ReverseIndex;
use rds::types::{Dependency, DependencyKind, DependencyTree};

fn dep(issuer: &str, id: Option<&str>) -> Dependency {
    Dependency { issuer: issuer.to_string(), request: "./x".to_string(), kind: DependencyKind::StaticImport, id: id.map(|s| s.to_string()) }
}

fn sorted(mut v: Vec<String>) -> Vec<String> {
    v.sort();
    v
}

fn chain_tree() -> DependencyTree {
    // c imports b, b imports a, d imports a
    let mut tree = DependencyTree::new();
    tree.insert("src/a.js".to_string(), Some(vec![]));
    tree.insert("src/b.js".to_string(), Some(vec![dep("src/b.js", Some("src/a.js"))]));
    tree.insert("src/c.js".to_string(), Some(vec![dep("src/c.js", Some("src/b.js"))]));
    tree.insert("src/d.js".to_string(), Some(vec![dep("src/d.js", Some("src/a.js")), dep("src/d.js", None)]));
    tree
}

#[test]
fn index_maps_each_id_to_its_importers() {
    let idx = ReverseIndex::from_tree(&chain_tree());
    assert_eq!(sorted(idx.keys()), vec!["src/a.js".to_string(), "src/b.js".to_string()]);
    assert_eq!(sorted(idx.get_parents("src/a.js").unwrap()), vec!["src/b.js".to_string(), "src/d.js".to_string()]);
    assert_eq!(idx.get_parents("src/c.js"), None);
    assert!(!idx.is_empty());
    assert!(ReverseIndex::new().is_empty());
}

#[test]
fn affected_set_is_the_change_and_its_importers() {
    let idx = ReverseIndex::from_tree(&chain_tree());
    let affected = sorted(idx.compute_affected_set(&vec!["src/a.js".to_string()]));
    assert_eq!(
        affected,
        vec!["src/a.js".to_string(), "src/b.js".to_string(), "src/c.js".to_string(), "src/d.js".to_string()]
    );
    let affected_b = sorted(idx.compute_affected_set(&vec!["src/b.js".to_string()]));
    assert_eq!(affected_b, vec!["src/b.js".to_string(), "src/c.js".to_string()]);
}

#[test]
fn affected_set_finds_ids_by_file_name() {
    let idx = ReverseIndex::from_tree(&chain_tree());
    let affected = sorted(idx.compute_affected_set(&vec!["/elsewhere/b.js".to_string()]));
    assert_eq!(affected, vec!["/elsewhere/b.js".to_string(), "src/b.js".to_string(), "src/c.js".to_string()]);
}

#[test]
fn empty_index_affects_nothing() {
    let idx = ReverseIndex::new();
    assert!(idx.compute_affected_set(&vec!["src/a.js".to_string()]).is_empty());
}

#[test]
fn merging_a_partial_tree_updates_the_importers() {
    let mut full = chain_tree();
    let mut idx = ReverseIndex::from_tree(&full);
    // c now imports a instead of b
    let mut partial = DependencyTree::new();
    partial.insert("src/c.js".to_string(), Some(vec![dep("src/c.js", Some("src/a.js"))]));
    idx.merge_partial_into_full(&partial, &mut full);

    assert_eq!(idx.get_parents("src/b.js"), None);
    assert_eq!(
        sorted(idx.get_parents("src/a.js").unwrap()),
        vec!["src/b.js".to_string(), "src/c.js".to_string(), "src/d.js".to_string()]
    );
    assert_eq!(full.len(), 4);
    // the merged index is the index of the merged tree
    let rebuilt = ReverseIndex::from_tree(&full);
    assert_eq!(sorted(rebuilt.keys()), sorted(idx.keys()));
    for k in rebuilt.keys() {
        assert_eq!(sorted(rebuilt.get_parents(&k).unwrap()), sorted(idx.get_parents(&k).unwrap()));
    }
}

#[test]
fn prune_keeps_only_modules_of_the_tree() {
    let mut idx = ReverseIndex::from_tree(&chain_tree());
    let mut smaller = DependencyTree::new();
    smaller.insert("src/b.js".to_string(), None);
    idx.prune(&smaller);
    assert_eq!(idx.keys(), vec!["src/a.js".to_string()]);
    assert_eq!(idx.get_parents("src/a.js"), Some(vec!["src/b.js".to_string()]));
}

#[test]
fn update_for_issuer_moves_its_mappings() {
    let mut idx = ReverseIndex::from_tree(&chain_tree());
    let prev = vec![dep("src/c.js", Some("src/b.js"))];
    let next = vec![dep("src/c.js", Some("src/d.js"))];
    idx.update_mappings_for_issuer("src/c.js", Some(&prev), Some(&next));
    assert_eq!(idx.get_parents("src/b.js"), None);
    assert_eq!(idx.get_parents("src/d.js"), Some(vec!["src/c.js".to_string()]));
}

#[test]
fn remove_id_drops_one_entry() {
    let mut idx = ReverseIndex::from_tree(&chain_tree());
    idx.remove_id("src/a.js");
    assert_eq!(idx.keys(), vec!["src/b.js".to_string()]);
}
