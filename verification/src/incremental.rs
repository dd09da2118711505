//! The decisions of an incremental rebuild: when the last tree can be
//! reused as it is, when a partial rebuild is worth it, which modules a
//! change reaches when the reverse index has nothing, and how a partial
//! tree joins the full one.
use vstd::prelude::*;
use crate::paths::{file_name, std_file_name};
use crate::reverse_index::{base_names_of, reverse_of, ReverseIndex};
use crate::setmap::list_contains;
use crate::text::{ends_with, is_suffix, str_eq};
use crate::types::{deps_view, strs_view, Dependency, DependencyTree, DependencyView};

verus! {

/// The requests of a list of dependencies, as a set.
pub open spec fn request_set(ds: Seq<DependencyView>) -> Set<Seq<char>> {
    Set::new(|r: Seq<char>| exists|j: int| 0 <= j < ds.len() && (#[trigger] ds[j]).request == r)
}

/// Whether every request of `a` is a request of `b`.
fn requests_within(a: &Vec<Dependency>, b: &Vec<Dependency>) -> (r: bool)
    ensures
        r == request_set(deps_view(a@)).subset_of(request_set(deps_view(b@))),
{
    let ghost av = deps_view(a@);
    let ghost bv = deps_view(b@);
    let mut i: usize = 0;
    while i < a.len()
        invariant
            av == deps_view(a@),
            bv == deps_view(b@),
            i <= a@.len(),
            forall|k: int| 0 <= k < i ==> request_set(bv).contains(#[trigger] av[k].request),
        decreases a@.len() - i,
    {
        let mut found = false;
        let mut j: usize = 0;
        while j < b.len()
            invariant
                av == deps_view(a@),
                bv == deps_view(b@),
                i < a@.len(),
                j <= b@.len(),
                found ==> request_set(bv).contains(av[i as int].request),
                !found ==> forall|k: int| 0 <= k < j ==> bv[k].request != av[i as int].request,
            decreases b@.len() - j,
        {
            if !found && str_eq(b[j].request.as_str(), a[i].request.as_str()) {
                found = true;
                proof {
                    assert(bv[j as int] == b@[j as int]@);
                    assert(av[i as int] == a@[i as int]@);
                    assert(bv[j as int].request == av[i as int].request);
                }
            }
            j = j + 1;
        }
        if !found {
            proof {
                assert(av[i as int] == a@[i as int]@);
                assert(!request_set(bv).contains(av[i as int].request)) by {
                    if request_set(bv).contains(av[i as int].request) {
                        let k = choose|k: int| 0 <= k < bv.len() && (#[trigger] bv[k]).request == av[i as int].request;
                        assert(bv[k].request != av[i as int].request);
                    }
                }
                assert(request_set(av).contains(av[i as int].request));
            }
            return false;
        }
        i = i + 1;
    }
    proof {
        assert forall|r: Seq<char>| request_set(av).contains(r) implies request_set(bv).contains(r) by {
            let k = choose|k: int| 0 <= k < av.len() && (#[trigger] av[k]).request == r;
            assert(request_set(bv).contains(av[k].request));
        }
    }
    true
}

/// Whether two lists of dependencies make the same set of requests.
pub fn same_request_sets(a: &Vec<Dependency>, b: &Vec<Dependency>) -> (r: bool)
    ensures
        r == (request_set(deps_view(a@)) == request_set(deps_view(b@))),
{
    let x = requests_within(a, b);
    let y = requests_within(b, a);
    proof {
        if x && y {
            assert(request_set(deps_view(a@)) =~= request_set(deps_view(b@)));
        }
    }
    x && y
}

/// The size above which an affected set is no longer rebuilt on its own.
pub const MAX_AFFECTED: usize = 500;

/// What an incremental run does with the affected set.
#[derive(Clone, Copy, Debug, PartialEq, Eq, Structural)]
pub enum IncrementalPlan {
    /// Rebuild from the changed files (after trying the fallback scan when
    /// nothing was affected).
    Full,
    /// Rebuild the affected modules only and merge them into the full tree.
    Partial,
}

/// The largest affected set rebuilt on its own for a project of about
/// `total` files: a quarter of them, or [`MAX_AFFECTED`] when the size is
/// unknown (0).
pub open spec fn relative_threshold(total: nat) -> nat {
    if total > 0 {
        total / 4
    } else {
        MAX_AFFECTED as nat
    }
}

/// A partial rebuild is chosen when the reverse index is not empty and the
/// affected set is neither empty nor larger than [`MAX_AFFECTED`] or the
/// relative threshold.
pub open spec fn plan_spec(index_empty: bool, affected_len: nat, total: nat) -> IncrementalPlan {
    if index_empty || affected_len == 0 || affected_len > MAX_AFFECTED || affected_len > relative_threshold(total) {
        IncrementalPlan::Full
    } else {
        IncrementalPlan::Partial
    }
}

/// Chooses between a partial and a full rebuild (see [`plan_spec`]).
pub fn plan_incremental(index_empty: bool, affected_len: usize, total_files_estimate: usize) -> (p: IncrementalPlan)
    ensures
        p == plan_spec(index_empty, affected_len as nat, total_files_estimate as nat),
{
    let relative = if total_files_estimate > 0 {
        total_files_estimate / 4
    } else {
        MAX_AFFECTED
    };
    if index_empty || affected_len == 0 || affected_len > MAX_AFFECTED || affected_len > relative {
        IncrementalPlan::Full
    } else {
        IncrementalPlan::Partial
    }
}

/// A dependency points at `curr` for the fallback scan: its id is `curr`,
/// or, unresolved, its request ends with `curr`.
pub open spec fn points_to(d: DependencyView, curr: Seq<char>) -> bool {
    match d.id {
        Some(id) => id == curr,
        None => is_suffix(curr, d.request),
    }
}

/// Module `f` of the tree has a dependency that points at `curr`.
pub open spec fn fallback_edge(t: Map<Seq<char>, Option<Seq<DependencyView>>>, f: Seq<char>, curr: Seq<char>) -> bool {
    t.contains_key(f) && t[f] is Some && exists|j: int| 0 <= j < t[f]->0.len() && points_to(#[trigger] t[f]->0[j], curr)
}

/// Step `i` of `path` goes to a module that points at the previous one.
pub open spec fn fallback_step(t: Map<Seq<char>, Option<Seq<DependencyView>>>, path: Seq<Seq<char>>, i: int) -> bool {
    fallback_edge(t, path[i + 1], path[i])
}

/// `y` is a seed or points, through modules of the tree, at a seed.
pub open spec fn fallback_reaches(t: Map<Seq<char>, Option<Seq<DependencyView>>>, seeds: Set<Seq<char>>, y: Seq<char>) -> bool {
    exists|path: Seq<Seq<char>>| #[trigger] fallback_chain(t, path) && seeds.contains(path[0]) && path.last() == y
}

/// `path` is a non-empty walk along [`fallback_edge`].
pub open spec fn fallback_chain(t: Map<Seq<char>, Option<Seq<DependencyView>>>, path: Seq<Seq<char>>) -> bool {
    path.len() > 0 && forall|i: int| 0 <= i < path.len() - 1 ==> #[trigger] fallback_step(t, path, i)
}

/// The seeds and every module of the tree that points at one, directly or not.
pub open spec fn fallback_closure(t: Map<Seq<char>, Option<Seq<DependencyView>>>, seeds: Set<Seq<char>>) -> Set<Seq<char>> {
    Set::new(|y: Seq<char>| fallback_reaches(t, seeds, y))
}

proof fn lemma_fallback_seed(t: Map<Seq<char>, Option<Seq<DependencyView>>>, seeds: Set<Seq<char>>, s: Seq<char>)
    requires
        seeds.contains(s),
    ensures
        fallback_reaches(t, seeds, s),
{
    let path = seq![s];
    assert(fallback_chain(t, path));
}

proof fn lemma_fallback_step(t: Map<Seq<char>, Option<Seq<DependencyView>>>, seeds: Set<Seq<char>>, x: Seq<char>, f: Seq<char>)
    requires
        fallback_reaches(t, seeds, x),
        fallback_edge(t, f, x),
    ensures
        fallback_reaches(t, seeds, f),
{
    let path = choose|path: Seq<Seq<char>>| #[trigger] fallback_chain(t, path) && seeds.contains(path[0]) && path.last() == x;
    let path2 = path.push(f);
    assert forall|i: int| 0 <= i < path2.len() - 1 implies #[trigger] fallback_step(t, path2, i) by {
        if i < path.len() - 1 {
            assert(fallback_step(t, path, i));
        }
    }
    assert(fallback_chain(t, path2));
}

proof fn lemma_fallback_chain_stays(t: Map<Seq<char>, Option<Seq<DependencyView>>>, a: Set<Seq<char>>, path: Seq<Seq<char>>)
    requires
        fallback_chain(t, path),
        a.contains(path[0]),
        forall|x: Seq<char>, f: Seq<char>| a.contains(x) && #[trigger] fallback_edge(t, f, x) ==> a.contains(f),
    ensures
        a.contains(path.last()),
    decreases path.len(),
{
    if path.len() > 1 {
        let q = path.drop_last();
        assert forall|i: int| 0 <= i < q.len() - 1 implies #[trigger] fallback_step(t, q, i) by {
            assert(fallback_step(t, path, i));
        }
        lemma_fallback_chain_stays(t, a, q);
        assert(fallback_step(t, path, path.len() - 2));
    }
}

/// The fallback closure is the least set that holds the seeds and every
/// module of the tree that points at one of its members.
pub proof fn lemma_fallback_closure_least(t: Map<Seq<char>, Option<Seq<DependencyView>>>, seeds: Set<Seq<char>>, a: Set<Seq<char>>)
    requires
        seeds.subset_of(a),
        forall|x: Seq<char>, f: Seq<char>| a.contains(x) && #[trigger] fallback_edge(t, f, x) ==> a.contains(f),
    ensures
        fallback_closure(t, seeds).subset_of(a),
{
    assert forall|y: Seq<char>| fallback_closure(t, seeds).contains(y) implies a.contains(y) by {
        let path = choose|path: Seq<Seq<char>>| #[trigger] fallback_chain(t, path) && seeds.contains(path[0]) && path.last() == y;
        lemma_fallback_chain_stays(t, a, path);
    }
}

/// Whether some dependency of `deps` points at `curr`.
fn any_points_to(deps: &Vec<Dependency>, curr: &str) -> (r: bool)
    ensures
        r == exists|j: int| 0 <= j < deps@.len() && points_to(#[trigger] deps_view(deps@)[j], curr@),
{
    let ghost dv = deps_view(deps@);
    let mut j: usize = 0;
    while j < deps.len()
        invariant
            dv == deps_view(deps@),
            j <= deps@.len(),
            forall|k: int| 0 <= k < j ==> !points_to(#[trigger] dv[k], curr@),
        decreases deps@.len() - j,
    {
        let hit = match &deps[j].id {
            Some(id) => str_eq(id.as_str(), curr),
            None => ends_with(deps[j].request.as_str(), curr),
        };
        assert(dv[j as int] == deps@[j as int]@);
        if hit {
            return true;
        }
        j = j + 1;
    }
    false
}

/// Every module reached from `seeds` by the fallback scan over `tree`:
/// the seeds and, repeatedly, each module of the tree with a dependency
/// that points at one already reached.
#[verifier::spinoff_prover]
pub fn fallback_affected(tree: &DependencyTree, seeds: &Vec<String>) -> (r: Vec<String>)
    ensures
        strs_view(r@).no_duplicates(),
        strs_view(r@).to_set() == fallback_closure(tree@, strs_view(seeds@).to_set()),
{
    proof {
        use_type_invariant(tree);
        DependencyTree::lemma_view(*tree);
    }
    let ghost t = tree@;
    let ghost sv = strs_view(seeds@);
    let ghost ss = sv.to_set();
    let ghost univ = ss.union(tree.key_list().to_set());
    proof {
        vstd::seq_lib::seq_to_set_is_finite(sv);
        vstd::seq_lib::seq_to_set_is_finite(tree.key_list());
    }
    let mut stack: Vec<String> = crate::types::clone_strings(seeds);
    let mut affected: Vec<String> = Vec::new();
    let es_len = tree.len();
    proof {
        assert forall|k: int| 0 <= k < strs_view(stack@).len() implies #[trigger] fallback_reaches(t, ss, strs_view(stack@)[k])
            && univ.contains(strs_view(stack@)[k]) by {
            assert(sv[k] == strs_view(stack@)[k]);
            assert(ss.contains(sv[k]));
            lemma_fallback_seed(t, ss, sv[k]);
        }
        assert forall|s: Seq<char>| ss.contains(s) implies strs_view(stack@).contains(s) by {
            let k = choose|k: int| 0 <= k < sv.len() && sv[k] == s;
            assert(strs_view(stack@)[k] == s);
        }
    }
    while stack.len() > 0
        invariant
            t == tree@,
            ss == strs_view(seeds@).to_set(),
            univ == ss.union(tree.key_list().to_set()),
            univ.finite(),
            tree.keys_distinct(),
            t.dom() == tree.key_list().to_set(),
            es_len == tree.entry_list().len(),
            forall|k: int| 0 <= k < strs_view(stack@).len() ==> #[trigger] fallback_reaches(t, ss, strs_view(stack@)[k])
                && univ.contains(strs_view(stack@)[k]),
            strs_view(affected@).no_duplicates(),
            forall|y: Seq<char>| #[trigger] strs_view(affected@).contains(y) ==> fallback_reaches(t, ss, y) && univ.contains(y),
            forall|s: Seq<char>| ss.contains(s) ==> strs_view(affected@).contains(s) || strs_view(stack@).contains(s),
            forall|x: Seq<char>, f: Seq<char>| strs_view(affected@).contains(x) && #[trigger] fallback_edge(t, f, x)
                ==> strs_view(affected@).contains(f) || strs_view(stack@).contains(f),
        decreases univ.difference(strs_view(affected@).to_set()).len(), stack@.len(),
    {
        let ghost sv0 = strs_view(stack@);
        let ghost av0 = strs_view(affected@);
        let curr = stack.pop().unwrap();
        let ghost sv1 = strs_view(stack@);
        proof {
            assert(sv1 =~= sv0.drop_last());
            assert(curr@ == sv0.last());
            assert(fallback_reaches(t, ss, sv0[sv0.len() - 1]));
            assert forall|y: Seq<char>| sv0.contains(y) && y != curr@ implies sv1.contains(y) by {
                let k = choose|k: int| 0 <= k < sv0.len() && sv0[k] == y;
                assert(k < sv0.len() - 1);
                assert(sv1[k] == y);
            }
            assert forall|k: int| 0 <= k < sv1.len() implies #[trigger] fallback_reaches(t, ss, sv1[k]) && univ.contains(sv1[k]) by {
                assert(sv1[k] == sv0[k]);
            }
        }
        if list_contains(&affected, curr.as_str()) {
            proof {
                assert forall|s: Seq<char>| ss.contains(s) implies av0.contains(s) || sv1.contains(s) by {
                    if sv0.contains(s) && s != curr@ {
                    }
                }
                assert forall|x: Seq<char>, f: Seq<char>| av0.contains(x) && #[trigger] fallback_edge(t, f, x)
                    implies av0.contains(f) || sv1.contains(f) by {
                    if sv0.contains(f) && f != curr@ {
                    }
                }
            }
            continue;
        }
        affected.push(curr.clone());
        proof {
            assert(strs_view(affected@) =~= av0.push(curr@));
            av0.lemma_push_to_set_commute(curr@);
            assert(univ.difference(strs_view(affected@).to_set()) =~= univ.difference(av0.to_set()).remove(curr@));
            vstd::set::axiom_set_difference_finite(univ, av0.to_set());
        }
        let mut i: usize = 0;
        while i < es_len
            invariant
                t == tree@,
                ss == strs_view(seeds@).to_set(),
                univ == ss.union(tree.key_list().to_set()),
                tree.keys_distinct(),
                t.dom() == tree.key_list().to_set(),
                es_len == tree.entry_list().len(),
                i <= es_len,
                sv1.is_prefix_of(strs_view(stack@)),
                fallback_reaches(t, ss, curr@),
                strs_view(affected@).contains(curr@),
                forall|k: int| 0 <= k < strs_view(stack@).len() ==> #[trigger] fallback_reaches(t, ss, strs_view(stack@)[k])
                    && univ.contains(strs_view(stack@)[k]),
                forall|a: int| 0 <= a < i && #[trigger] fallback_edge(t, tree.key_list()[a], curr@)
                    ==> strs_view(affected@).contains(tree.key_list()[a]) || strs_view(stack@).contains(tree.key_list()[a]),
            decreases es_len - i,
        {
            let (file, deps_opt) = tree.entry_at(i);
            let ghost before = strs_view(stack@);
            proof {
                DependencyTree::lemma_view(*tree);
                assert(tree.entry_list()[i as int].0 == file@);
            }
            assert(tree.key_list()[i as int] == file@);
            if !list_contains(&affected, file.as_str()) {
                match deps_opt {
                    Some(deps) => {
                        if any_points_to(deps, curr.as_str()) {
                            stack.push(file.clone());
                            proof {
                                assert(strs_view(stack@) =~= before.push(file@));
                                assert(t[file@] == tree.entry_list()[i as int].1);
                                assert(t.dom().contains(file@)) by {
                                    assert(tree.key_list().to_set().contains(file@));
                                }
                                let j = choose|j: int| 0 <= j < deps@.len() && points_to(#[trigger] deps_view(deps@)[j], curr@);
                                assert(t[file@]->0[j] == deps_view(deps@)[j]);
                                assert(fallback_edge(t, file@, curr@));
                                lemma_fallback_step(t, ss, curr@, file@);
                                assert(univ.contains(file@));
                                assert(strs_view(stack@)[before.len() as int] == file@);
                                assert(fallback_reaches(t, ss, file@));
                                assert forall|k: int| 0 <= k < strs_view(stack@).len() implies #[trigger] fallback_reaches(t, ss, strs_view(stack@)[k])
                                    && univ.contains(strs_view(stack@)[k]) by {
                                    if k < before.len() {
                                        assert(strs_view(stack@)[k] == before[k]);
                                        assert(fallback_reaches(t, ss, before[k]) && univ.contains(before[k]));
                                    } else {
                                        assert(strs_view(stack@)[k] == file@);
                                    }
                                }
                            }
                        } else {
                            proof {
                                assert(t[file@] == tree.entry_list()[i as int].1);
                                if fallback_edge(t, file@, curr@) {
                                    let j = choose|j: int| 0 <= j < t[file@]->0.len() && points_to(#[trigger] t[file@]->0[j], curr@);
                                    assert(deps_view(deps@)[j] == t[file@]->0[j]);
                                }
                            }
                        }
                    },
                    None => {
                        proof {
                            assert(t[file@] == tree.entry_list()[i as int].1);
                        }
                    },
                }
            }
            proof {
                assert forall|a: int| 0 <= a < i + 1 && #[trigger] fallback_edge(t, tree.key_list()[a], curr@)
                    implies strs_view(affected@).contains(tree.key_list()[a]) || strs_view(stack@).contains(tree.key_list()[a]) by {
                    if a < i && !strs_view(affected@).contains(tree.key_list()[a]) {
                        assert(before.contains(tree.key_list()[a]));
                        let k = choose|k: int| 0 <= k < before.len() && before[k] == tree.key_list()[a];
                        assert(strs_view(stack@)[k] == before[k]);
                    }
                    if a == i && !strs_view(affected@).contains(tree.key_list()[a]) {
                        assert(strs_view(stack@).contains(file@)) by {
                            assert(strs_view(stack@)[before.len() as int] == file@);
                        }
                    }
                }
                assert(sv1.is_prefix_of(strs_view(stack@))) by {
                    assert forall|k: int| 0 <= k < sv1.len() implies sv1[k] == strs_view(stack@)[k] by {
                        assert(sv1[k] == before[k]);
                    }
                }
            }
            i = i + 1;
        }
        proof {
            let av1 = strs_view(affected@);
            let sv2 = strs_view(stack@);
            assert forall|y: Seq<char>| #[trigger] av1.contains(y) implies fallback_reaches(t, ss, y) && univ.contains(y) by {
                let k = choose|k: int| 0 <= k < av1.len() && av1[k] == y;
                if k < av0.len() {
                    assert(av0[k] == y);
                    assert(av0.contains(y));
                }
            }
            assert forall|y: Seq<char>| sv1.contains(y) implies sv2.contains(y) by {
                let k = choose|k: int| 0 <= k < sv1.len() && sv1[k] == y;
                assert(sv2[k] == y);
            }
            assert forall|y: Seq<char>| av0.contains(y) implies av1.contains(y) by {
                let k = choose|k: int| 0 <= k < av0.len() && av0[k] == y;
                assert(av1[k] == y);
            }
            assert forall|s: Seq<char>| ss.contains(s) implies av1.contains(s) || sv2.contains(s) by {
                if !av0.contains(s) && s != curr@ {
                    assert(sv1.contains(s));
                }
            }
            assert forall|x: Seq<char>, f: Seq<char>| av1.contains(x) && #[trigger] fallback_edge(t, f, x)
                implies av1.contains(f) || sv2.contains(f) by {
                if x == curr@ {
                    assert(t.dom().contains(f));
                    assert(tree.key_list().to_set().contains(f));
                    let a = choose|a: int| 0 <= a < tree.key_list().len() && tree.key_list()[a] == f;
                    assert(fallback_edge(t, tree.key_list()[a], curr@));
                } else {
                    let k = choose|k: int| 0 <= k < av1.len() && av1[k] == x;
                    assert(k < av0.len());
                    assert(av0[k] == x);
                    assert(av0.contains(x));
                    if !av0.contains(f) && f != curr@ {
                        assert(sv1.contains(f));
                    }
                }
            }
        }
    }
    proof {
        let a = strs_view(affected@).to_set();
        assert forall|x: Seq<char>, f: Seq<char>| a.contains(x) && #[trigger] fallback_edge(t, f, x) implies a.contains(f) by {
            assert(strs_view(affected@).contains(x));
        }
        assert forall|s: Seq<char>| ss.contains(s) implies a.contains(s) by {}
        lemma_fallback_closure_least(t, ss, a);
        assert(a =~= fallback_closure(t, ss));
    }
    affected
}

} // verus!

verus! {

/// The seeds of the fallback scan for a list of changed (normalized)
/// paths: each path, followed by its file name when it has one.
pub open spec fn fallback_seed_list(nfs: Seq<Seq<char>>) -> Seq<Seq<char>>
    decreases nfs.len(),
{
    if nfs.len() == 0 {
        Seq::empty()
    } else {
        fallback_seed_list(nfs.drop_last()) + match std_file_name(nfs.last()) {
            Some(b) => seq![nfs.last(), b],
            None => seq![nfs.last()],
        }
    }
}

/// The seeds of the fallback scan (see [`fallback_seed_list`]).
pub fn fallback_seeds(normalized_changed: &Vec<String>) -> (r: Vec<String>)
    ensures
        strs_view(r@) == fallback_seed_list(strs_view(normalized_changed@)),
{
    let ghost nv = strs_view(normalized_changed@);
    let mut r: Vec<String> = Vec::new();
    let mut i: usize = 0;
    while i < normalized_changed.len()
        invariant
            nv == strs_view(normalized_changed@),
            i <= nv.len(),
            strs_view(r@) == fallback_seed_list(nv.subrange(0, i as int)),
        decreases nv.len() - i,
    {
        let nf = &normalized_changed[i];
        let ghost before = strs_view(r@);
        let ghost s1 = nv.subrange(0, i + 1);
        proof {
            assert(s1.drop_last() =~= nv.subrange(0, i as int));
            assert(s1.last() == nf@);
        }
        r.push(nf.clone());
        match file_name(nf.as_str()) {
            Some(b) => {
                r.push(b);
                assert(strs_view(r@) =~= before + seq![nf@, b@]);
            },
            None => {
                assert(strs_view(r@) =~= before + seq![nf@]);
            },
        }
        i = i + 1;
    }
    proof {
        assert(nv.subrange(0, i as int) =~= nv);
    }
    r
}

/// A module id of the tree is named by the fallback scan's result: itself,
/// or its file name, is in it.
pub open spec fn named_by(aff: Set<Seq<char>>, k: Seq<char>) -> bool {
    aff.contains(k) || (std_file_name(k) matches Some(b) && aff.contains(b))
}

/// The module ids of the tree, in order, that the fallback scan's result
/// names (see [`named_by`]).
pub open spec fn mapped_keys(keys: Seq<Seq<char>>, aff: Set<Seq<char>>) -> Seq<Seq<char>> {
    keys.filter_map(|k: Seq<char>| if named_by(aff, k) { Some(k) } else { None })
}

/// The module ids of the tree that the fallback scan's result names, in
/// the tree's order (see [`mapped_keys`]).
pub fn map_to_tree_keys(tree: &DependencyTree, affected: &Vec<String>) -> (r: Vec<String>)
    ensures
        strs_view(r@) == mapped_keys(tree.key_list(), strs_view(affected@).to_set()),
{
    let ghost aff = strs_view(affected@).to_set();
    let ghost kl = tree.key_list();
    let ghost f = |k: Seq<char>| if named_by(aff, k) { Some(k) } else { None::<Seq<char>> };
    let mut r: Vec<String> = Vec::new();
    let n = tree.len();
    let mut i: usize = 0;
    while i < n
        invariant
            aff == strs_view(affected@).to_set(),
            kl == tree.key_list(),
            n == kl.len(),
            i <= n,
            f == (|k: Seq<char>| if named_by(aff, k) { Some(k) } else { None::<Seq<char>> }),
            strs_view(r@) == kl.subrange(0, i as int).filter_map(f),
        decreases n - i,
    {
        let (file, _deps) = tree.entry_at(i);
        let ghost s1 = kl.subrange(0, i + 1);
        proof {
            assert(kl[i as int] == file@);
            assert(s1.drop_last() =~= kl.subrange(0, i as int));
            assert(s1.last() == file@);
        }
        let named = if list_contains(affected, file.as_str()) {
            true
        } else {
            match file_name(file.as_str()) {
                Some(b) => list_contains(affected, b.as_str()),
                None => false,
            }
        };
        proof {
            assert(named == named_by(aff, file@));
        }
        if named {
            let ghost before = strs_view(r@);
            r.push(file.clone());
            assert(strs_view(r@) =~= before + seq![file@]);
        }
        i = i + 1;
    }
    proof {
        assert(kl.subrange(0, i as int) =~= kl);
    }
    r
}

/// The tree of the last analysis can be given again for a change of the
/// single file `nf` whose dependencies are now `new_deps`: that analysis
/// was of `nf`, `nf` was parsed then and now, and its set of requests is
/// unchanged.
pub open spec fn can_reuse(
    cached: Option<(Seq<char>, Map<Seq<char>, Option<Seq<DependencyView>>>)>,
    nf: Seq<char>,
    new_deps: Option<Seq<DependencyView>>,
) -> bool {
    match cached {
        Some(c) => c.0 == nf && match new_deps {
            Some(nd) => c.1.contains_key(nf) && match c.1[nf] {
                Some(od) => request_set(od) == request_set(nd),
                None => false,
            },
            None => false,
        },
        None => false,
    }
}

/// What an incremental analysis remembers between runs: the last analysis
/// of a single changed file (its normalized path and tree), the reverse
/// index, and the last full tree.
#[derive(Debug)]
pub struct IncrementalState {
    last_analysis_cache: Option<(String, DependencyTree)>,
    reverse_index: ReverseIndex,
    last_full_tree: Option<DependencyTree>,
}

impl IncrementalState {
    /// The last analysis of a single changed file.
    pub closed spec fn cached(self) -> Option<(Seq<char>, Map<Seq<char>, Option<Seq<DependencyView>>>)> {
        match self.last_analysis_cache {
            Some((f, t)) => Some((f@, t@)),
            None => None,
        }
    }

    /// The reverse index.
    pub closed spec fn index(self) -> crate::reverse_index::SetMap {
        self.reverse_index.index()
    }

    /// The base-name map of the reverse index.
    pub closed spec fn base_names(self) -> crate::reverse_index::SetMap {
        self.reverse_index.base_names()
    }

    /// The last full tree.
    pub closed spec fn full_tree(self) -> Option<Map<Seq<char>, Option<Seq<DependencyView>>>> {
        match self.last_full_tree {
            Some(t) => Some(t@),
            None => None,
        }
    }

    /// The module ids of the last full tree, in order (empty without one).
    pub closed spec fn full_key_list(self) -> Seq<Seq<char>> {
        match self.last_full_tree {
            Some(t) => t.key_list(),
            None => Seq::empty(),
        }
    }

    /// The reverse index is that of the last full tree (empty without one).
    pub open spec fn index_matches_tree(self) -> bool {
        match self.full_tree() {
            Some(t) => self.index() == reverse_of(t),
            None => self.index() == crate::reverse_index::SetMap::empty(),
        }
    }

    /// Nothing remembered.
    pub fn new() -> (s: Self)
        ensures
            s.index_matches_tree(),
            s.cached() is None,
            s.index() == crate::reverse_index::SetMap::empty(),
            s.full_tree() is None,
    {
        IncrementalState { last_analysis_cache: None, reverse_index: ReverseIndex::new(), last_full_tree: None }
    }

    /// After a full build: the reverse index is that of the tree, which
    /// becomes the last full tree.
    pub fn record_full_build(&mut self, tree_for_index: &DependencyTree)
        ensures
            final(self).index_matches_tree(),
            final(self).index() == reverse_of(tree_for_index@),
            final(self).base_names() == base_names_of(reverse_of(tree_for_index@)),
            final(self).full_tree() == Some(tree_for_index@),
            final(self).cached() == old(self).cached(),
    {
        self.reverse_index = ReverseIndex::from_tree(tree_for_index);
        self.last_full_tree = Some(tree_for_index.clone());
    }

    /// The ids of the reverse index.
    pub fn reverse_index_keys(&self) -> (r: Vec<String>)
        ensures
            strs_view(r@).no_duplicates(),
            strs_view(r@).to_set() == self.index().dom(),
    {
        self.reverse_index.keys()
    }

    /// The modules that import `id` by the reverse index, if it has `id`.
    pub fn reverse_index_parents(&self, id: &str) -> (r: Option<Vec<String>>)
        ensures
            match r {
                Some(v) => self.index().contains_key(id@) && strs_view(v@).no_duplicates()
                    && strs_view(v@).to_set() == self.index()[id@],
                None => !self.index().contains_key(id@),
            },
    {
        self.reverse_index.get_parents(id)
    }

    /// The normalized path of the last analysis of a single changed file.
    pub fn cached_file(&self) -> (r: Option<String>)
        ensures
            match r {
                Some(f) => self.cached() matches Some(c) && c.0 == f@,
                None => self.cached() is None,
            },
    {
        match &self.last_analysis_cache {
            Some((f, _t)) => Some(f.clone()),
            None => None,
        }
    }

    /// The tree of the last analysis, when it can be given again for a
    /// change of the single file `normalized_changed` whose dependencies
    /// are now `new_deps`: the last analysis was of that file, the file was
    /// parsed, and its set of requests is unchanged.
    pub fn reusable_tree(&self, normalized_changed: &str, new_deps: Option<&Vec<Dependency>>) -> (r: Option<DependencyTree>)
        ensures
            r is Some <==> can_reuse(self.cached(), normalized_changed@, crate::reverse_index::opt_deps_ref_view(new_deps)),
            r matches Some(t) ==> self.cached() matches Some(c) && t@ == c.1,
    {
        match &self.last_analysis_cache {
            Some((f, t)) => {
                if !str_eq(f.as_str(), normalized_changed) {
                    return None;
                }
                match new_deps {
                    Some(nd) => {
                        match t.get(normalized_changed) {
                            Some(Some(od)) => {
                                if same_request_sets(od, nd) {
                                    Some(t.clone())
                                } else {
                                    None
                                }
                            },
                            _ => None,
                        }
                    },
                    None => None,
                }
            },
            None => None,
        }
    }

    /// What the changed (normalized) paths affect by the reverse index.
    pub fn compute_affected_set(&self, normalized_changed: &Vec<String>) -> (r: Vec<String>)
        ensures
            strs_view(r@).no_duplicates(),
            strs_view(r@).to_set() == crate::reverse_index::affected_set(self.index(), self.base_names(), strs_view(normalized_changed@)),
    {
        self.reverse_index.compute_affected_set(normalized_changed)
    }

    /// The size of the last single-file analysis's tree (0 without one),
    /// used as an estimate of the project's size.
    pub fn total_files_estimate(&self) -> (n: usize)
        ensures
            n == match self.cached() {
                Some(c) => c.1.len(),
                None => 0,
            },
    {
        match &self.last_analysis_cache {
            Some((_f, t)) => t.len(),
            None => 0,
        }
    }

    /// Chooses between a partial and a full rebuild for an affected set of
    /// `affected_len` modules (see [`plan_spec`]).
    pub fn plan(&self, affected_len: usize) -> (p: IncrementalPlan)
        ensures
            p == plan_spec(self.index().dom() == Set::<Seq<char>>::empty(), affected_len as nat, match self.cached() {
                Some(c) => c.1.len(),
                None => 0,
            }),
    {
        let empty = self.reverse_index.is_empty();
        let total = self.total_files_estimate();
        plan_incremental(empty, affected_len, total)
    }

    /// When nothing was affected: the modules of the last full tree that
    /// the fallback scan from the changed (normalized) paths names, if it
    /// finds any; `None` without a last full tree or when it finds nothing.
    pub fn fallback_targets(&self, normalized_changed: &Vec<String>) -> (r: Option<Vec<String>>)
        ensures
            match self.full_tree() {
                Some(lt) => {
                    let aff = fallback_closure(lt, fallback_seed_list(strs_view(normalized_changed@)).to_set());
                    match r {
                        Some(v) => aff != Set::<Seq<char>>::empty() && strs_view(v@) == mapped_keys(self.full_key_list(), aff),
                        None => aff == Set::<Seq<char>>::empty(),
                    }
                },
                None => r is None,
            },
    {
        match &self.last_full_tree {
            Some(lt) => {
                let seeds = fallback_seeds(normalized_changed);
                let aff = fallback_affected(lt, &seeds);
                if aff.len() == 0 {
                    proof {
                        assert(strs_view(aff@).to_set() =~= Set::<Seq<char>>::empty());
                    }
                    None
                } else {
                    proof {
                        assert(strs_view(aff@).to_set().contains(strs_view(aff@)[0]));
                    }
                    Some(map_to_tree_keys(lt, &aff))
                }
            },
            None => None,
        }
    }

    /// Takes in a partial tree rebuilt for the affected modules and gives
    /// the tree to report. With a last full tree, the partial tree is
    /// merged into it (its entries replace the old ones), the reverse index
    /// follows the merge and is pruned to the modules of the merged tree,
    /// and the merged tree is given. Without one, the partial tree becomes
    /// the last full tree, the index is built from it, and it is given.
    pub fn merge_partial(&mut self, partial: &DependencyTree) -> (r: DependencyTree)
        ensures
            final(self).cached() == old(self).cached(),
            final(self).full_tree() == Some(r@),
            match old(self).full_tree() {
                Some(lt) => r@ == lt.union_prefer_right(partial@),
                None => r@ == partial@,
            },
            crate::reverse_index::all_nonempty(final(self).index()),
            old(self).index_matches_tree() ==> final(self).index_matches_tree(),
            old(self).full_tree() is None ==> final(self).index_matches_tree(),
    {
        let ghost m0 = self.reverse_index.index();
        let mut taken: Option<DependencyTree> = None;
        std::mem::swap(&mut taken, &mut self.last_full_tree);
        match taken {
            Some(mut lt) => {
                let ghost t0 = lt@;
                self.reverse_index.merge_partial_into_full(partial, &mut lt);
                let ghost m1 = self.reverse_index.index();
                self.reverse_index.prune(&lt);
                proof {
                    if m0 == reverse_of(t0) {
                        crate::reverse_index::lemma_merge_keeps_reverse(m0, m1, t0, partial@);
                        crate::reverse_index::lemma_prune_keeps_reverse(m1, self.reverse_index.index(), lt@);
                    }
                }
                let r = lt.clone();
                self.last_full_tree = Some(lt);
                r
            },
            None => {
                self.last_full_tree = Some(partial.clone());
                self.reverse_index = ReverseIndex::from_tree(partial);
                let ghost m1 = self.reverse_index.index();
                proof {
                    crate::reverse_index::lemma_reverse_of(partial@);
                }
                self.reverse_index.prune(partial);
                proof {
                    crate::reverse_index::lemma_prune_keeps_reverse(m1, self.reverse_index.index(), partial@);
                }
                partial.clone()
            },
        }
    }

    /// Remembers the tree of the analysis of the single changed file `key`.
    pub fn remember_analysis(&mut self, key: String, tree: &DependencyTree)
        ensures
            final(self).cached() == Some((key@, tree@)),
            old(self).index_matches_tree() ==> final(self).index_matches_tree(),
            final(self).index() == old(self).index(),
            final(self).base_names() == old(self).base_names(),
            final(self).full_tree() == old(self).full_tree(),
    {
        self.last_analysis_cache = Some((key, tree.clone()));
    }
}

} // verus!
