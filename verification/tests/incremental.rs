use rds::incremental::{
    fallback_affected, fallback_seeds, map_to_tree_keys, plan_incremental, same_request_sets, IncrementalPlan,
    IncrementalState,
};
use rds::types::{Dependency, DependencyKind, DependencyTree};

fn dep(issuer: &str, request: &str, id: Option<&str>) -> Dependency {
    Dependency { issuer: issuer.to_string(), request: request.to_string(), kind: DependencyKind::StaticImport, id: id.map(|s| s.to_string()) }
}

fn sorted(mut v: Vec<String>) -> Vec<String> {
    v.sort();
    v
}

#[test]
fn request_sets_ignore_order_and_repeats() {
    let a = vec![dep("x", "./a", None), dep("x", "./b", None), dep("x", "./a", None)];
    let b = vec![dep("x", "./b", Some("b.js")), dep("x", "./a", None)];
    let c = vec![dep("x", "./b", None)];
    assert!(same_request_sets(&a, &b));
    assert!(!same_request_sets(&a, &c));
    assert!(same_request_sets(&vec![], &vec![]));
}

#[test]
fn plan_takes_partial_rebuilds_only_for_small_sets() {
    assert_eq!(plan_incremental(true, 3, 100), IncrementalPlan::Full);
    assert_eq!(plan_incremental(false, 0, 100), IncrementalPlan::Full);
    assert_eq!(plan_incremental(false, 25, 100), IncrementalPlan::Partial);
    assert_eq!(plan_incremental(false, 26, 100), IncrementalPlan::Full);
    assert_eq!(plan_incremental(false, 500, 0), IncrementalPlan::Partial);
    assert_eq!(plan_incremental(false, 501, 0), IncrementalPlan::Full);
    assert_eq!(plan_incremental(false, 501, 1_000_000), IncrementalPlan::Full);
}

fn last_tree() -> DependencyTree {
    let mut t = DependencyTree::new();
    t.insert("src/a.vue".to_string(), Some(vec![]));
    t.insert("src/b.js".to_string(), Some(vec![dep("src/b.js", "./a.vue", Some("src/a.vue"))]));
    t.insert("src/c.js".to_string(), Some(vec![dep("src/c.js", "./b", Some("src/b.js"))]));
    t.insert("src/d.js".to_string(), Some(vec![dep("src/d.js", "components/Header.vue", None)]));
    t
}

#[test]
fn fallback_scan_follows_ids_and_request_suffixes() {
    let t = last_tree();
    let seeds = fallback_seeds(&vec!["src/a.vue".to_string()]);
    assert_eq!(seeds, vec!["src/a.vue".to_string(), "a.vue".to_string()]);
    let aff = sorted(fallback_affected(&t, &seeds));
    assert_eq!(aff, vec!["a.vue".to_string(), "src/a.vue".to_string(), "src/b.js".to_string(), "src/c.js".to_string()]);

    let aff2 = sorted(fallback_affected(&t, &vec!["Header.vue".to_string()]));
    assert_eq!(aff2, vec!["Header.vue".to_string(), "src/d.js".to_string()]);
}

#[test]
fn fallback_names_map_to_tree_keys() {
    let t = last_tree();
    let mapped = map_to_tree_keys(&t, &vec!["a.vue".to_string(), "src/c.js".to_string()]);
    assert_eq!(mapped, vec!["src/a.vue".to_string(), "src/c.js".to_string()]);
}

#[test]
fn state_reuses_the_tree_when_requests_are_unchanged() {
    let mut st = IncrementalState::new();
    let t = last_tree();
    st.remember_analysis("src/b.js".to_string(), &t);
    assert_eq!(st.cached_file(), Some("src/b.js".to_string()));
    let same = vec![dep("src/b.js", "./a.vue", None)];
    let other = vec![dep("src/b.js", "./z", None)];
    assert!(st.reusable_tree("src/b.js", Some(&same)).is_some());
    assert!(st.reusable_tree("src/b.js", Some(&other)).is_none());
    assert!(st.reusable_tree("src/c.js", Some(&same)).is_none());
    assert!(st.reusable_tree("src/b.js", None).is_none());
    assert_eq!(st.total_files_estimate(), 4);
}

#[test]
fn state_merges_partial_trees_into_the_full_one() {
    let mut st = IncrementalState::new();
    assert_eq!(st.plan(1), IncrementalPlan::Full);
    st.record_full_build(&last_tree());
    assert_eq!(sorted(st.compute_affected_set(&vec!["src/b.js".to_string()])), vec!["src/b.js".to_string(), "src/c.js".to_string()]);

    let mut partial = DependencyTree::new();
    partial.insert("src/c.js".to_string(), Some(vec![dep("src/c.js", "./a.vue", Some("src/a.vue"))]));
    let merged = st.merge_partial(&partial);
    assert_eq!(merged.len(), 4);
    assert_eq!(sorted(st.compute_affected_set(&vec!["src/b.js".to_string()])), vec!["src/b.js".to_string()]);
    assert_eq!(
        sorted(st.compute_affected_set(&vec!["src/a.vue".to_string()])),
        vec!["src/a.vue".to_string(), "src/b.js".to_string(), "src/c.js".to_string()]
    );
}

#[test]
fn fallback_targets_need_a_full_tree() {
    let mut st = IncrementalState::new();
    assert_eq!(st.fallback_targets(&vec!["src/a.vue".to_string()]), None);
    st.record_full_build(&last_tree());
    assert_eq!(
        st.fallback_targets(&vec!["src/a.vue".to_string()]),
        Some(vec!["src/a.vue".to_string(), "src/b.js".to_string(), "src/c.js".to_string()])
    );
}

#[test]
fn full_build_index_lists_importers() {
    let mut st = IncrementalState::new();
    assert!(st.reverse_index_keys().is_empty());
    st.record_full_build(&last_tree());
    assert_eq!(st.reverse_index_parents("src/a.vue"), Some(vec!["src/b.js".to_string()]));
    assert_eq!(st.reverse_index_parents("src/b.js"), Some(vec!["src/c.js".to_string()]));
    assert!(st.reverse_index_parents("src/c.js").is_none());
    assert!(st.reverse_index_keys().contains(&"src/a.vue".to_string()));
}
