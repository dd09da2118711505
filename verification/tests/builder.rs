use rds::builder::{
    accepts_file, contains_glob, finish_expanded, is_by_extension, is_selected, regex_is_match, sorted_all, sorted_unique,
    BuildQueue,
};

fn s(x: &str) -> String {
    x.to_string()
}

#[test]
fn regex_match_and_selection() {
    assert!(regex_is_match("ab+c", "xxabbbc"));
    assert!(!regex_is_match("ab+c", "ac"));
    assert!(!regex_is_match("(", "anything"));
    assert!(is_selected(".*", "node_modules", "src/a.js"));
    assert!(!is_selected(".*", "node_modules", "node_modules/x/a.js"));
    assert!(!is_selected("^will_not_match$", "exclude_me", "somefile.js"));
}

#[test]
fn extension_filter_uses_dotted_extensions() {
    let exts = vec![s(".js"), s(".ts")];
    assert!(is_by_extension("a/b.js", &exts));
    assert!(!is_by_extension("a/b.jsx", &exts));
    assert!(!is_by_extension("a/b", &exts));
    assert!(accepts_file(".*", "skip", &exts, "keep.js"));
    assert!(!accepts_file(".*", "skip", &exts, "skip.js"));
    assert!(!accepts_file("keep", "skip", &exts, "other.js"));
}

#[test]
fn glob_entries_are_recognised() {
    assert!(contains_glob("*.ts"));
    assert!(contains_glob("pack/?"));
    assert!(contains_glob("src/[ab].js"));
    assert!(!contains_glob("src/a.js"));
}

#[test]
fn entries_sorted_and_unique() {
    let got = sorted_unique(&vec![s("b.ts"), s("a.js"), s("subdir/c.js"), s("a.js"), s("B.js")]);
    assert_eq!(got, vec![s("B.js"), s("a.js"), s("b.ts"), s("subdir/c.js")]);
}

#[test]
fn expanded_paths_relative_to_context() {
    let found = vec![s("/ctx/b.ts"), s("/ctx/a.js"), s("/ctx/subdir/c.js"), s("/elsewhere/x.js"), s("/ctx/a.js")];
    let got = finish_expanded(&found, "/ctx");
    assert_eq!(got, vec![s("/elsewhere/x.js"), s("a.js"), s("b.ts"), s("subdir/c.js")]);
}

#[test]
fn build_queue_takes_each_file_once() {
    let mut q = BuildQueue::new();
    assert!(q.take_up(s("/p/a.js")));
    assert!(!q.take_up(s("/p/a.js")));
    assert!(q.is_processed("/p/a.js"));
    q.discover(s("/p/a.js"));
    q.discover(s("/p/b.js"));
    q.discover(s("/p/b.js"));
    q.discover(s("/p/c.js"));
    assert_eq!(q.take_pending(), vec![s("/p/b.js"), s("/p/c.js")]);
    assert!(q.take_pending().is_empty());
    assert_eq!(q.processed_count(), 1);
}

#[test]
fn expanded_paths_count_each_path_once() {
    let found = vec![s("/ctx/src/a.js"), s("/ctx/src//a.js"), s("/ctx/src/./a.js"), s("/ctx/b.js")];
    let got = finish_expanded(&found, "/ctx");
    assert_eq!(got, vec![s("b.js"), s("src/a.js")]);
}

#[test]
fn sort_keeps_repeats() {
    let got = sorted_all(&vec![s("b"), s("a"), s("b"), s("A")]);
    assert_eq!(got, vec![s("A"), s("a"), s("b"), s("b")]);
}
