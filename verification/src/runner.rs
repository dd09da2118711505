//! The decisions of a single analysis run: whether to show progress, what
//! to show, and whether the run fails on circular dependencies.
use vstd::prelude::*;
use crate::cli::Cli;
use crate::types::{count_total_dependencies as count_in_tree, total_dependencies, DependencyTree};

verus! {

/// Runs an analysis once and reports it.
pub struct AnalysisRunner;

impl AnalysisRunner {
    /// The number of dependencies in the tree, over all its modules.
    pub fn count_total_dependencies(tree: &DependencyTree) -> (n: usize)
        requires
            total_dependencies(tree.entry_list()) <= usize::MAX,
        ensures
            n == total_dependencies(tree.entry_list()),
    {
        count_in_tree(tree)
    }

    /// Whether a progress bar is shown: when asked for, else when the
    /// output is a terminal and the run is not under CI.
    pub fn show_progress(progress_flag: bool, stdout_is_terminal: bool, ci_set: bool) -> (b: bool)
        ensures
            b == (progress_flag || (stdout_is_terminal && !ci_set)),
    {
        if progress_flag {
            true
        } else {
            stdout_is_terminal && !ci_set
        }
    }

    /// Whether the circular dependencies are shown: when asked for, and
    /// also when the tree is not.
    pub fn show_circular(cli: &Cli) -> (b: bool)
        ensures
            b == (cli.circular || (!cli.circular && !cli.tree)),
    {
        cli.circular || (!cli.circular && !cli.tree)
    }

    /// Whether the run fails with exit code 1: `--throw` was given and
    /// circular dependencies were found.
    pub fn fails_on_circulars(cli: &Cli, circulars: &Vec<Vec<String>>) -> (b: bool)
        ensures
            b == (cli.throw && circulars@.len() > 0),
    {
        cli.throw && circulars.len() > 0
    }
}

} // verus!
