use rds::cli::Cli;
use rds::runner::AnalysisRunner;

#[test]
fn progress_is_shown_when_asked_or_on_a_terminal_outside_ci() {
    assert!(AnalysisRunner::show_progress(true, false, true));
    assert!(AnalysisRunner::show_progress(false, true, false));
    assert!(!AnalysisRunner::show_progress(false, true, true));
    assert!(!AnalysisRunner::show_progress(false, false, false));
}

#[test]
fn circulars_are_shown_unless_only_the_tree_is_asked() {
    let mut c = Cli::default();
    assert!(AnalysisRunner::show_circular(&c));
    c.tree = true;
    assert!(!AnalysisRunner::show_circular(&c));
    c.circular = true;
    assert!(AnalysisRunner::show_circular(&c));
}

#[test]
fn throw_fails_only_with_cycles() {
    let mut c = Cli::default();
    c.throw = true;
    assert!(!AnalysisRunner::fails_on_circulars(&c, &vec![]));
    assert!(AnalysisRunner::fails_on_circulars(&c, &vec![vec!["a".to_string()]]));
}
