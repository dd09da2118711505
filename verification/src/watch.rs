//! The decisions of watch mode: which changes to gather, when the gathered
//! changes are analyzed, and how caches are invalidated before a run.
use vstd::prelude::*;
use crate::setmap::list_contains;
use crate::types::{count_total_dependencies as count_in_tree, strs_view, total_dependencies, DependencyTree};

verus! {

/// How long after the last change the gathered changes are analyzed, in
/// milliseconds.
pub const DEBOUNCE_MILLIS: u64 = 300;

/// Above this many changed files all caches are cleared rather than
/// invalidated file by file.
pub const INVALIDATE_THRESHOLD: usize = 100;

/// Watches files and analyzes them again on change.
pub struct WatchRunner;

impl WatchRunner {
    /// The number of dependencies in the tree, over all its modules.
    pub fn count_total_dependencies(tree: &DependencyTree) -> (n: usize)
        requires
            total_dependencies(tree.entry_list()) <= usize::MAX,
        ensures
            n == total_dependencies(tree.entry_list()),
    {
        count_in_tree(tree)
    }

    /// Whether every cache is cleared before analyzing `changed_len`
    /// changed files (rather than only theirs).
    pub fn clears_all_caches(changed_len: usize) -> (b: bool)
        ensures
            b == (changed_len > INVALIDATE_THRESHOLD),
    {
        changed_len > INVALIDATE_THRESHOLD
    }
}

/// A run of analysis to start: the changed files, and all the files when
/// a full scan is wanted (empty otherwise).
#[derive(Debug)]
pub struct AnalysisJob {
    pub changed_files: Vec<String>,
    pub all_files: Vec<String>,
}

/// The gathered state of watch mode: the changed files not yet analyzed,
/// the files already reported as changed, and whether no analysis has been
/// started yet.
#[derive(Debug)]
pub struct WatchState {
    changed_files: Vec<String>,
    logged_files: Vec<String>,
    first_incremental_run: bool,
}

impl WatchState {
    /// The changed files not yet analyzed.
    pub closed spec fn changed(self) -> Set<Seq<char>> {
        strs_view(self.changed_files@).to_set()
    }

    /// The files already reported as changed.
    pub closed spec fn logged(self) -> Set<Seq<char>> {
        strs_view(self.logged_files@).to_set()
    }

    /// No analysis has been started yet.
    pub closed spec fn first_run(self) -> bool {
        self.first_incremental_run
    }

    /// The lists hold each file once.
    #[verifier::type_invariant]
    closed spec fn distinct(self) -> bool {
        strs_view(self.changed_files@).no_duplicates() && strs_view(self.logged_files@).no_duplicates()
    }

    /// Nothing gathered, before any analysis.
    pub fn new() -> (s: Self)
        ensures
            s.changed() == Set::<Seq<char>>::empty(),
            s.logged() == Set::<Seq<char>>::empty(),
            s.first_run(),
    {
        let s = WatchState { changed_files: Vec::new(), logged_files: Vec::new(), first_incremental_run: true };
        assert(strs_view(s.changed_files@) =~= Seq::<Seq<char>>::empty());
        assert(strs_view(s.logged_files@) =~= Seq::<Seq<char>>::empty());
        s
    }

    /// Gathers the relevant changes of an event. Returns the files to
    /// report as changed: those not reported since the last analysis, in
    /// the order of the event, each once. (The caller also restarts the
    /// debounce clock and stops a running analysis.)
    pub fn apply_relevant_changes(&mut self, relevant_changes: &Vec<String>) -> (to_log: Vec<String>)
        ensures
            final(self).changed() == old(self).changed().union(strs_view(relevant_changes@).to_set()),
            final(self).logged() == old(self).logged().union(strs_view(relevant_changes@).to_set()),
            final(self).first_run() == old(self).first_run(),
            strs_view(to_log@).no_duplicates(),
            strs_view(to_log@).to_set() == strs_view(relevant_changes@).to_set().difference(old(self).logged()),
    {
        proof {
            use_type_invariant(&*self);
        }
        let ghost rv = strs_view(relevant_changes@);
        let ghost c0 = self.changed();
        let ghost l0 = self.logged();
        let mut changed: Vec<String> = Vec::new();
        let mut logged: Vec<String> = Vec::new();
        std::mem::swap(&mut changed, &mut self.changed_files);
        std::mem::swap(&mut logged, &mut self.logged_files);
        let mut to_log: Vec<String> = Vec::new();
        let mut i: usize = 0;
        while i < relevant_changes.len()
            invariant
                rv == strs_view(relevant_changes@),
                i <= rv.len(),
                strs_view(changed@).no_duplicates(),
                strs_view(logged@).no_duplicates(),
                strs_view(to_log@).no_duplicates(),
                strs_view(changed@).to_set() == c0.union(rv.subrange(0, i as int).to_set()),
                strs_view(logged@).to_set() == l0.union(rv.subrange(0, i as int).to_set()),
                strs_view(to_log@).to_set() == rv.subrange(0, i as int).to_set().difference(l0),
            decreases rv.len() - i,
        {
            let file = &relevant_changes[i];
            let ghost s0 = rv.subrange(0, i as int);
            let ghost s1 = rv.subrange(0, i + 1);
            proof {
                assert(s1 =~= s0.push(file@));
                s0.lemma_push_to_set_commute(file@);
            }
            let ghost cb = strs_view(changed@);
            if !list_contains(&changed, file.as_str()) {
                changed.push(file.clone());
                proof {
                    assert(strs_view(changed@) =~= cb.push(file@));
                    cb.lemma_push_to_set_commute(file@);
                }
            } else {
                assert(cb.to_set().insert(file@) =~= cb.to_set());
            }
            let ghost lb = strs_view(logged@);
            let ghost tb = strs_view(to_log@);
            if !list_contains(&logged, file.as_str()) {
                logged.push(file.clone());
                to_log.push(file.clone());
                proof {
                    assert(strs_view(logged@) =~= lb.push(file@));
                    lb.lemma_push_to_set_commute(file@);
                    assert(strs_view(to_log@) =~= tb.push(file@));
                    tb.lemma_push_to_set_commute(file@);
                    assert(!tb.contains(file@)) by {
                        if tb.contains(file@) {
                            assert(tb.to_set().contains(file@));
                            assert(s0.to_set().contains(file@));
                            assert(lb.to_set().contains(file@));
                            assert(lb.contains(file@));
                        }
                    }
                    assert(strs_view(to_log@).to_set() =~= s1.to_set().difference(l0));
                }
            } else {
                proof {
                    assert(lb.to_set().insert(file@) =~= lb.to_set());
                    assert(strs_view(to_log@).to_set() =~= s1.to_set().difference(l0)) by {
                        assert(lb.contains(file@));
                        assert(lb.to_set().contains(file@));
                        if !l0.contains(file@) {
                            assert(s0.to_set().contains(file@));
                        }
                    }
                }
            }
            proof {
                assert(strs_view(changed@).to_set() =~= c0.union(s1.to_set()));
                assert(strs_view(logged@).to_set() =~= l0.union(s1.to_set()));
            }
            i = i + 1;
        }
        proof {
            assert(rv.subrange(0, i as int) =~= rv);
        }
        self.changed_files = changed;
        self.logged_files = logged;
        to_log
    }

    /// On a tick of the debounce clock, `elapsed_millis` after the last
    /// change: when changes are gathered and the clock has run out, starts
    /// an analysis of them, forgetting what was reported; the very first
    /// analysis also gets all the watched files, for a full scan.
    pub fn on_tick(&mut self, elapsed_millis: u64, expanded_files: &Vec<String>) -> (job: Option<AnalysisJob>)
        ensures
            match job {
                Some(j) => old(self).changed() != Set::<Seq<char>>::empty() && elapsed_millis >= DEBOUNCE_MILLIS
                    && strs_view(j.changed_files@).no_duplicates()
                    && strs_view(j.changed_files@).to_set() == old(self).changed()
                    && strs_view(j.all_files@) == (if old(self).first_run() { strs_view(expanded_files@) } else { Seq::empty() })
                    && final(self).changed() == Set::<Seq<char>>::empty()
                    && final(self).logged() == Set::<Seq<char>>::empty()
                    && !final(self).first_run(),
                None => !(old(self).changed() != Set::<Seq<char>>::empty() && elapsed_millis >= DEBOUNCE_MILLIS)
                    && final(self).changed() == old(self).changed()
                    && final(self).logged() == old(self).logged()
                    && final(self).first_run() == old(self).first_run(),
            },
    {
        proof {
            use_type_invariant(&*self);
        }
        if self.changed_files.len() == 0 || elapsed_millis < DEBOUNCE_MILLIS {
            proof {
                if self.changed_files@.len() == 0 {
                    assert(strs_view(self.changed_files@) =~= Seq::<Seq<char>>::empty());
                    assert(self.changed() =~= Set::<Seq<char>>::empty());
                }
            }
            return None;
        }
        proof {
            assert(self.changed().contains(strs_view(self.changed_files@)[0]));
        }
        let mut files: Vec<String> = Vec::new();
        std::mem::swap(&mut files, &mut self.changed_files);
        self.logged_files = Vec::new();
        let all = if self.first_incremental_run {
            self.first_incremental_run = false;
            crate::types::clone_strings(expanded_files)
        } else {
            let e: Vec<String> = Vec::new();
            assert(strs_view(e@) =~= Seq::<Seq<char>>::empty());
            e
        };
        proof {
            assert(strs_view(self.changed_files@) =~= Seq::<Seq<char>>::empty());
            assert(strs_view(self.logged_files@) =~= Seq::<Seq<char>>::empty());
            assert(self.changed() =~= Set::<Seq<char>>::empty());
            assert(self.logged() =~= Set::<Seq<char>>::empty());
        }
        Some(AnalysisJob { changed_files: files, all_files: all })
    }
}

} // verus!
