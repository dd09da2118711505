use rds::watch::{WatchRunner, WatchState};

fn sorted(mut v: Vec<String>) -> Vec<String> {
    v.sort();
    v
}

#[test]
fn changes_are_gathered_and_logged_once() {
    let mut st = WatchState::new();
    let first = st.apply_relevant_changes(&vec!["a.js".to_string(), "b.js".to_string(), "a.js".to_string()]);
    assert_eq!(first, vec!["a.js".to_string(), "b.js".to_string()]);
    let second = st.apply_relevant_changes(&vec!["b.js".to_string(), "c.js".to_string()]);
    assert_eq!(second, vec!["c.js".to_string()]);
}

#[test]
fn tick_waits_for_the_debounce_and_starts_a_full_scan_first() {
    let mut st = WatchState::new();
    let all = vec!["x.js".to_string(), "y.js".to_string()];
    assert!(st.on_tick(1000, &all).is_none());
    st.apply_relevant_changes(&vec!["a.js".to_string()]);
    assert!(st.on_tick(299, &all).is_none());
    let job = st.on_tick(300, &all).unwrap();
    assert_eq!(job.changed_files, vec!["a.js".to_string()]);
    assert_eq!(job.all_files, all);
    assert!(st.on_tick(1000, &all).is_none());

    let logged = st.apply_relevant_changes(&vec!["a.js".to_string(), "b.js".to_string()]);
    assert_eq!(logged, vec!["a.js".to_string(), "b.js".to_string()]);
    let job2 = st.on_tick(500, &all).unwrap();
    assert_eq!(sorted(job2.changed_files), vec!["a.js".to_string(), "b.js".to_string()]);
    assert!(job2.all_files.is_empty());
}

#[test]
fn large_change_sets_clear_all_caches() {
    assert!(!WatchRunner::clears_all_caches(100));
    assert!(WatchRunner::clears_all_caches(101));
}
