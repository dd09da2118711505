//! The reverse index of a dependency tree: for each resolved id, the
//! modules that import it; used to find what a change affects.
use vstd::prelude::*;
use crate::paths::{file_name, std_file_name};
use crate::setmap::StringSetMap;
use crate::setmap::list_contains;
use crate::text::{ends_with, is_suffix};
use crate::types::{Dependency, DependencyTree, DependencyView, strs_view};

verus! {

/// A map from a string to a set of strings.
pub type SetMap = Map<Seq<char>, Set<Seq<char>>>;

/// `p` is in the set of `id`.
pub open spec fn mem(m: SetMap, id: Seq<char>, p: Seq<char>) -> bool {
    m.contains_key(id) && m[id].contains(p)
}

/// No key of the map has an empty set.
pub open spec fn all_nonempty(m: SetMap) -> bool {
    forall|id: Seq<char>| #[trigger] m.contains_key(id) ==> m[id] != Set::<Seq<char>>::empty()
}

/// Two maps without empty sets are equal when they relate the same pairs.
pub proof fn lemma_mem_ext(m1: SetMap, m2: SetMap)
    requires
        all_nonempty(m1),
        all_nonempty(m2),
        forall|id: Seq<char>, p: Seq<char>| #![trigger mem(m1, id, p)] #![trigger mem(m2, id, p)] mem(m1, id, p) <==> mem(m2, id, p),
    ensures
        m1 == m2,
{
    assert forall|id: Seq<char>| #[trigger] m1.contains_key(id) implies m2.contains_key(id) by {
        assert(m1[id] != Set::<Seq<char>>::empty());
        let p = m1[id].choose();
        assert(m1[id].contains(p)) by {
            if !m1[id].contains(p) {
                assert(m1[id] =~= Set::<Seq<char>>::empty());
            }
        }
        assert(mem(m1, id, p));
    }
    assert forall|id: Seq<char>| #[trigger] m2.contains_key(id) implies m1.contains_key(id) by {
        assert(m2[id] != Set::<Seq<char>>::empty());
        let p = m2[id].choose();
        assert(m2[id].contains(p)) by {
            if !m2[id].contains(p) {
                assert(m2[id] =~= Set::<Seq<char>>::empty());
            }
        }
        assert(mem(m2, id, p));
    }
    assert forall|id: Seq<char>| #[trigger] m1.contains_key(id) implies m1[id] == m2[id] by {
        assert forall|p: Seq<char>| m1[id].contains(p) == m2[id].contains(p) by {
            assert(mem(m1, id, p) == mem(m2, id, p));
        }
        assert(m1[id] =~= m2[id]);
    }
    assert(m1.dom() =~= m2.dom());
    assert(m1 =~= m2);
}

/// Some dependency of the list resolved to `id`.
pub open spec fn lists_id(ds: Seq<DependencyView>, id: Seq<char>) -> bool {
    exists|j: int| 0 <= j < ds.len() && (#[trigger] ds[j]).id == Some(id)
}

/// Some dependency of `deps` resolved to `id` (`None`: none).
pub open spec fn opt_lists_id(deps: Option<Seq<DependencyView>>, id: Seq<char>) -> bool {
    deps matches Some(ds) && lists_id(ds, id)
}

/// Module `k` of the tree has a dependency resolved to `id`.
pub open spec fn depends_on(t: Map<Seq<char>, Option<Seq<DependencyView>>>, k: Seq<char>, id: Seq<char>) -> bool {
    t.contains_key(k) && opt_lists_id(t[k], id)
}

/// The reverse of a tree: each resolved id with the modules that import it.
pub open spec fn reverse_of(t: Map<Seq<char>, Option<Seq<DependencyView>>>) -> SetMap {
    Map::new(
        |id: Seq<char>| exists|k: Seq<char>| depends_on(t, k, id),
        |id: Seq<char>| Set::new(|k: Seq<char>| depends_on(t, k, id)),
    )
}

/// The pairs of the reverse of a tree are its dependencies, and it has no
/// empty set.
pub proof fn lemma_reverse_of(t: Map<Seq<char>, Option<Seq<DependencyView>>>)
    ensures
        all_nonempty(reverse_of(t)),
        forall|id: Seq<char>, k: Seq<char>| #[trigger] mem(reverse_of(t), id, k) <==> depends_on(t, k, id),
{
    assert forall|id: Seq<char>| #[trigger] reverse_of(t).contains_key(id) implies reverse_of(t)[id] != Set::<Seq<char>>::empty() by {
        let k = choose|k: Seq<char>| depends_on(t, k, id);
        assert(reverse_of(t)[id].contains(k));
    }
}

/// The base-name map of an index: each file name with the ids of the index
/// that have it.
pub open spec fn base_names_of(m: SetMap) -> SetMap {
    Map::new(
        |b: Seq<char>| exists|id: Seq<char>| m.contains_key(id) && std_file_name(id) == Some(b),
        |b: Seq<char>| Set::new(|id: Seq<char>| m.contains_key(id) && std_file_name(id) == Some(b)),
    )
}

/// The map with `p` added to the set of `id`.
pub open spec fn add_pair(m: SetMap, id: Seq<char>, p: Seq<char>) -> SetMap {
    m.insert(id, if m.contains_key(id) { m[id] } else { Set::empty() }.insert(p))
}

proof fn lemma_add_pair(m: SetMap, id: Seq<char>, p: Seq<char>)
    ensures
        forall|x: Seq<char>, q: Seq<char>| #[trigger] mem(add_pair(m, id, p), x, q) <==> mem(m, x, q) || (x == id && q == p),
        all_nonempty(m) ==> all_nonempty(add_pair(m, id, p)),
{
    let m2 = add_pair(m, id, p);
    assert(m2[id].contains(p));
    assert forall|x: Seq<char>| #[trigger] m2.contains_key(x) && all_nonempty(m) implies m2[x] != Set::<Seq<char>>::empty() by {
        if x == id {
            assert(m2[x].contains(p));
        }
    }
}

/// The map with `p` removed from the set of `id` (the key stays).
pub open spec fn remove_pair(m: SetMap, id: Seq<char>, p: Seq<char>) -> SetMap {
    if m.contains_key(id) {
        m.insert(id, m[id].remove(p))
    } else {
        m
    }
}

proof fn lemma_remove_pair(m: SetMap, id: Seq<char>, p: Seq<char>)
    ensures
        forall|x: Seq<char>, q: Seq<char>| #[trigger] mem(remove_pair(m, id, p), x, q) <==> mem(m, x, q) && !(x == id && q == p),
{
}

/// The map without its empty sets.
pub open spec fn without_empty(m: SetMap) -> SetMap {
    m.restrict(m.dom().filter(|k: Seq<char>| m[k] != Set::<Seq<char>>::empty()))
}

proof fn lemma_without_empty(m: SetMap)
    ensures
        forall|x: Seq<char>, q: Seq<char>| #[trigger] mem(without_empty(m), x, q) <==> mem(m, x, q),
        all_nonempty(without_empty(m)),
{
    assert forall|x: Seq<char>, q: Seq<char>| #[trigger] mem(without_empty(m), x, q) <==> mem(m, x, q) by {
        if mem(m, x, q) {
            assert(m[x] != Set::<Seq<char>>::empty()) by {
                if m[x] == Set::<Seq<char>>::empty() {
                    assert(!Set::<Seq<char>>::empty().contains(q));
                }
            }
        }
    }
}

/// Step `i` of `path` goes from a module to one of its importers.
pub open spec fn importer_step(m: SetMap, path: Seq<Seq<char>>, i: int) -> bool {
    mem(m, path[i], path[i + 1])
}

/// `path` is a non-empty walk from a module up through its importers.
pub open spec fn importer_chain(m: SetMap, path: Seq<Seq<char>>) -> bool {
    path.len() > 0 && forall|i: int| 0 <= i < path.len() - 1 ==> #[trigger] importer_step(m, path, i)
}

/// `y` is one of `seeds` or imports, directly or not, one of them.
pub open spec fn reaches(m: SetMap, seeds: Set<Seq<char>>, y: Seq<char>) -> bool {
    exists|path: Seq<Seq<char>>| #[trigger] importer_chain(m, path) && seeds.contains(path[0]) && path.last() == y
}

/// The seeds and everything that imports one of them, directly or not.
pub open spec fn importers_closure(m: SetMap, seeds: Set<Seq<char>>) -> Set<Seq<char>> {
    Set::new(|y: Seq<char>| reaches(m, seeds, y))
}

/// A seed reaches itself.
proof fn lemma_seed_reaches(m: SetMap, seeds: Set<Seq<char>>, s: Seq<char>)
    requires
        seeds.contains(s),
    ensures
        reaches(m, seeds, s),
{
    let path = seq![s];
    assert(importer_chain(m, path));
}

/// What reaches a module also reaches its importers.
proof fn lemma_reaches_step(m: SetMap, seeds: Set<Seq<char>>, x: Seq<char>, p: Seq<char>)
    requires
        reaches(m, seeds, x),
        mem(m, x, p),
    ensures
        reaches(m, seeds, p),
{
    let path = choose|path: Seq<Seq<char>>| #[trigger] importer_chain(m, path) && seeds.contains(path[0]) && path.last() == x;
    let path2 = path.push(p);
    assert forall|i: int| 0 <= i < path2.len() - 1 implies #[trigger] importer_step(m, path2, i) by {
        if i < path.len() - 1 {
            assert(importer_step(m, path, i));
        }
    }
    assert(importer_chain(m, path2));
}

/// A walk that starts in a set closed under importers stays in it.
proof fn lemma_chain_stays(m: SetMap, a: Set<Seq<char>>, path: Seq<Seq<char>>)
    requires
        importer_chain(m, path),
        a.contains(path[0]),
        forall|x: Seq<char>, p: Seq<char>| a.contains(x) && #[trigger] mem(m, x, p) ==> a.contains(p),
    ensures
        a.contains(path.last()),
    decreases path.len(),
{
    if path.len() > 1 {
        let q = path.drop_last();
        assert forall|i: int| 0 <= i < q.len() - 1 implies #[trigger] importer_step(m, q, i) by {
            assert(importer_step(m, path, i));
        }
        lemma_chain_stays(m, a, q);
        assert(importer_step(m, path, path.len() - 2));
    }
}

/// The closure is the least set that holds the seeds and is closed under importers.
pub proof fn lemma_closure_least(m: SetMap, seeds: Set<Seq<char>>, a: Set<Seq<char>>)
    requires
        seeds.subset_of(a),
        forall|x: Seq<char>, p: Seq<char>| a.contains(x) && #[trigger] mem(m, x, p) ==> a.contains(p),
    ensures
        importers_closure(m, seeds).subset_of(a),
{
    assert forall|y: Seq<char>| importers_closure(m, seeds).contains(y) implies a.contains(y) by {
        let path = choose|path: Seq<Seq<char>>| #[trigger] importer_chain(m, path) && seeds.contains(path[0]) && path.last() == y;
        lemma_chain_stays(m, a, path);
    }
}

/// `key` matches a changed path `nf` (with file name `base`) by suffix.
pub open spec fn key_matches(key: Seq<char>, nf: Seq<char>, base: Option<Seq<char>>) -> bool {
    is_suffix(nf, key) || is_suffix(key, nf) || (base matches Some(b) && is_suffix(b, key))
}

/// The modules a changed path `nf` starts from: itself, and, when it is not
/// an id of the index, the ids of the index with its file name, or, when no
/// id has that name, the ids that match it by suffix.
pub open spec fn seeds_of_change(m: SetMap, bn: SetMap, nf: Seq<char>) -> Set<Seq<char>> {
    Set::new(|y: Seq<char>| y == nf || (!m.contains_key(nf) && match std_file_name(nf) {
        Some(base) => if bn.contains_key(base) {
            bn[base].contains(y)
        } else {
            m.contains_key(y) && key_matches(y, nf, Some(base))
        },
        None => m.contains_key(y) && key_matches(y, nf, None),
    }))
}

/// The modules a list of changed paths starts from.
pub open spec fn seeds_of(m: SetMap, bn: SetMap, nfs: Seq<Seq<char>>) -> Set<Seq<char>> {
    Set::new(|y: Seq<char>| exists|i: int| 0 <= i < nfs.len() && #[trigger] seeds_of_change(m, bn, nfs[i]).contains(y))
}

/// What a list of changed (normalized) paths affects: nothing when the index
/// is empty, else the seeds of the changes and everything that imports one of
/// them, directly or not.
pub open spec fn affected_set(m: SetMap, bn: SetMap, nfs: Seq<Seq<char>>) -> Set<Seq<char>> {
    if m.dom() == Set::<Seq<char>>::empty() {
        Set::empty()
    } else {
        importers_closure(m, seeds_of(m, bn, nfs))
    }
}

/// Appends `x` to `queue` unless it is already there.
fn push_new(queue: &mut Vec<String>, x: &String)
    requires
        strs_view(old(queue)@).no_duplicates(),
    ensures
        strs_view(final(queue)@).no_duplicates(),
        strs_view(final(queue)@).to_set() == strs_view(old(queue)@).to_set().insert(x@),
        strs_view(old(queue)@).is_prefix_of(strs_view(final(queue)@)),
{
    if !list_contains(queue, x.as_str()) {
        let ghost before = strs_view(queue@);
        queue.push(x.clone());
        assert(strs_view(queue@) =~= before.push(x@));
        assert forall|y: Seq<char>| strs_view(queue@).to_set().contains(y) == before.to_set().insert(x@).contains(y) by {
            if before.contains(y) {
                let j = choose|j: int| 0 <= j < before.len() && before[j] == y;
                assert(strs_view(queue@)[j] == y);
            }
            if strs_view(queue@).contains(y) {
                let j = choose|j: int| 0 <= j < strs_view(queue@).len() && strs_view(queue@)[j] == y;
                if j < before.len() {
                    assert(before[j] == y);
                }
            }
            if y == x@ {
                assert(strs_view(queue@)[before.len() as int] == y);
            }
        }
        assert(strs_view(queue@).to_set() =~= before.to_set().insert(x@));
        assert(before.is_prefix_of(strs_view(queue@)));
    } else {
        assert(strs_view(queue@).to_set() =~= strs_view(queue@).to_set().insert(x@));
        assert(strs_view(queue@).is_prefix_of(strs_view(queue@)));
    }
}

/// The reverse index: for each resolved id, the modules that import it; and
/// for each file name, the ids of the index with that name (filled when the
/// index is built from a whole tree).
#[derive(Debug)]
pub struct ReverseIndex {
    idx: StringSetMap,
    base_name_map: StringSetMap,
}

impl ReverseIndex {
    /// Each resolved id with the modules that import it.
    pub closed spec fn index(self) -> SetMap {
        self.idx@
    }

    /// Each file name with the ids that have it.
    pub closed spec fn base_names(self) -> SetMap {
        self.base_name_map@
    }

    /// An empty index.
    pub fn new() -> (r: Self)
        ensures
            r.index() == SetMap::empty(),
            r.base_names() == SetMap::empty(),
    {
        ReverseIndex { idx: StringSetMap::new(), base_name_map: StringSetMap::new() }
    }

    /// The reverse index of a tree: each resolved id with the modules whose
    /// dependencies resolved to it, and each file name of those ids with
    /// the ids that have it.
    pub fn from_tree(tree: &DependencyTree) -> (r: Self)
        ensures
            r.index() == reverse_of(tree@),
            r.base_names() == base_names_of(reverse_of(tree@)),
    {
        proof {
            use_type_invariant(tree);
            DependencyTree::lemma_view(*tree);
            lemma_reverse_of(tree@);
        }
        let ghost es = tree.entry_list();
        let ghost t = tree@;
        let mut ri = ReverseIndex::new();
        let n = tree.len();
        let mut i: usize = 0;
        while i < n
            invariant
                es == tree.entry_list(),
                t == tree@,
                n == es.len(),
                i <= n,
                forall|a: int| 0 <= a < es.len() ==> #[trigger] t[es[a].0] == es[a].1,
                t.dom() == tree.key_list().to_set(),
                all_nonempty(ri.idx@),
                forall|id: Seq<char>, p: Seq<char>| #[trigger] mem(ri.idx@, id, p) <==> exists|a: int|
                    0 <= a < i && es[a].0 == p && #[trigger] opt_lists_id(es[a].1, id),
                forall|b: Seq<char>, id: Seq<char>| #[trigger] mem(ri.base_name_map@, b, id) <==> ri.idx@.contains_key(id)
                    && std_file_name(id) == Some(b),
                all_nonempty(ri.base_name_map@),
            decreases n - i,
        {
            let (key, deps_opt) = tree.entry_at(i);
            match deps_opt {
                Some(deps) => {
                    let mut j: usize = 0;
                    let ghost dv = crate::types::deps_view(deps@);
                    while j < deps.len()
                        invariant
                            es == tree.entry_list(),
                            n == es.len(),
                            i < n,
                            key@ == es[i as int].0,
                            es[i as int].1 == Some(dv),
                            dv == crate::types::deps_view(deps@),
                            j <= deps@.len(),
                            all_nonempty(ri.idx@),
                            forall|id: Seq<char>, p: Seq<char>| #[trigger] mem(ri.idx@, id, p) <==> (exists|a: int|
                                0 <= a < i && es[a].0 == p && #[trigger] opt_lists_id(es[a].1, id))
                                || (p == key@ && exists|b: int| 0 <= b < j && (#[trigger] dv[b]).id == Some(id)),
                            forall|b: Seq<char>, id: Seq<char>| #[trigger] mem(ri.base_name_map@, b, id) <==> ri.idx@.contains_key(id)
                                && std_file_name(id) == Some(b),
                            all_nonempty(ri.base_name_map@),
                        decreases deps@.len() - j,
                    {
                        match &deps[j].id {
                            Some(id) => {
                                let ghost m0 = ri.idx@;
                                let ghost bm0 = ri.base_name_map@;
                                ri.idx.add_member(id.as_str(), key.clone());
                                proof {
                                    lemma_add_pair(m0, id@, key@);
                                    assert(ri.idx@ == add_pair(m0, id@, key@));
                                    assert(dv[j as int].id == Some(id@));
                                    assert forall|x: Seq<char>, p: Seq<char>| #[trigger] mem(ri.idx@, x, p) <==> (exists|a: int|
                                        0 <= a < i && es[a].0 == p && #[trigger] opt_lists_id(es[a].1, x))
                                        || (p == key@ && exists|b: int| 0 <= b < j + 1 && (#[trigger] dv[b]).id == Some(x)) by {
                                        if p == key@ && x == id@ {
                                            assert(dv[j as int].id == Some(x));
                                        }
                                        if p == key@ && exists|b: int| 0 <= b < j + 1 && (#[trigger] dv[b]).id == Some(x) {
                                            let b = choose|b: int| 0 <= b < j + 1 && (#[trigger] dv[b]).id == Some(x);
                                            if b < j {
                                                assert(mem(m0, x, p));
                                            }
                                        }
                                    }
                                }
                                match file_name(id.as_str()) {
                                    Some(base) => {
                                        ri.base_name_map.add_member(base.as_str(), id.clone());
                                        proof {
                                            lemma_add_pair(bm0, base@, id@);
                                            assert(ri.base_name_map@ == add_pair(bm0, base@, id@));
                                            assert forall|b: Seq<char>, x: Seq<char>| #[trigger] mem(ri.base_name_map@, b, x) <==> ri.idx@.contains_key(x)
                                                && std_file_name(x) == Some(b) by {
                                                if x == id@ {
                                                    assert(mem(ri.idx@, x, key@));
                                                }
                                            }
                                        }
                                    },
                                    None => {
                                        proof {
                                            assert forall|b: Seq<char>, x: Seq<char>| #[trigger] mem(ri.base_name_map@, b, x) <==> ri.idx@.contains_key(x)
                                                && std_file_name(x) == Some(b) by {
                                                if x == id@ {
                                                    assert(mem(ri.idx@, x, key@));
                                                } else {
                                                    assert(ri.idx@.contains_key(x) == m0.contains_key(x));
                                                }
                                            }
                                        }
                                    },
                                }
                            },
                            None => {
                                proof {
                                    assert forall|x: Seq<char>, p: Seq<char>| #[trigger] mem(ri.idx@, x, p) <==> (exists|a: int|
                                        0 <= a < i && es[a].0 == p && #[trigger] opt_lists_id(es[a].1, x))
                                        || (p == key@ && exists|b: int| 0 <= b < j + 1 && (#[trigger] dv[b]).id == Some(x)) by {
                                        if p == key@ && exists|b: int| 0 <= b < j + 1 && (#[trigger] dv[b]).id == Some(x) {
                                            let b = choose|b: int| 0 <= b < j + 1 && (#[trigger] dv[b]).id == Some(x);
                                            assert(b < j) by {
                                                if b == j {
                                                    assert(dv[b] == deps@[j as int]@);
                                                }
                                            }
                                        }
                                    }
                                }
                            },
                        }
                        j = j + 1;
                    }
                    proof {
                        assert forall|x: Seq<char>, p: Seq<char>| #[trigger] mem(ri.idx@, x, p) <==> exists|a: int|
                            0 <= a < i + 1 && es[a].0 == p && #[trigger] opt_lists_id(es[a].1, x) by {
                            if p == key@ && exists|b: int| 0 <= b < j && (#[trigger] dv[b]).id == Some(x) {
                                assert(opt_lists_id(es[i as int].1, x));
                            }
                            if exists|a: int| 0 <= a < i + 1 && es[a].0 == p && #[trigger] opt_lists_id(es[a].1, x) {
                                let a = choose|a: int| 0 <= a < i + 1 && es[a].0 == p && #[trigger] opt_lists_id(es[a].1, x);
                                if a == i {
                                    let b = choose|b: int| 0 <= b < dv.len() && (#[trigger] dv[b]).id == Some(x);
                                    assert(dv[b].id == Some(x));
                                }
                            }
                        }
                    }
                },
                None => {
                    proof {
                        assert forall|x: Seq<char>, p: Seq<char>| #[trigger] mem(ri.idx@, x, p) <==> exists|a: int|
                            0 <= a < i + 1 && es[a].0 == p && #[trigger] opt_lists_id(es[a].1, x) by {
                            if exists|a: int| 0 <= a < i + 1 && es[a].0 == p && #[trigger] opt_lists_id(es[a].1, x) {
                                let a = choose|a: int| 0 <= a < i + 1 && es[a].0 == p && #[trigger] opt_lists_id(es[a].1, x);
                                assert(a != i);
                            }
                        }
                    }
                },
            }
            i = i + 1;
        }
        proof {
            let rt = reverse_of(t);
            assert forall|x: Seq<char>, p: Seq<char>| #![trigger mem(ri.idx@, x, p)] #![trigger mem(rt, x, p)] mem(ri.idx@, x, p) <==> mem(rt, x, p) by {
                if mem(ri.idx@, x, p) {
                    let a = choose|a: int| 0 <= a < i && es[a].0 == p && #[trigger] opt_lists_id(es[a].1, x);
                    assert(tree.key_list()[a] == p);
                    assert(t.dom().contains(p));
                    assert(depends_on(t, p, x));
                }
                if mem(rt, x, p) {
                    assert(depends_on(t, p, x));
                    assert(tree.key_list().to_set().contains(p));
                    let a = choose|a: int| 0 <= a < tree.key_list().len() && tree.key_list()[a] == p;
                    assert(t[es[a].0] == es[a].1);
                    assert(opt_lists_id(es[a].1, x));
                }
            }
            lemma_mem_ext(ri.idx@, rt);
            let bt = base_names_of(rt);
            assert forall|b: Seq<char>| #[trigger] bt.contains_key(b) implies bt[b] != Set::<Seq<char>>::empty() by {
                let x = choose|x: Seq<char>| rt.contains_key(x) && std_file_name(x) == Some(b);
                assert(bt[b].contains(x));
            }
            assert forall|b: Seq<char>, x: Seq<char>| #![trigger mem(ri.base_name_map@, b, x)] #![trigger mem(bt, b, x)] mem(ri.base_name_map@, b, x) <==> mem(bt, b, x) by {
                if mem(ri.base_name_map@, b, x) {
                    assert(bt.contains_key(b));
                }
            }
            lemma_mem_ext(ri.base_name_map@, bt);
        }
        ri
    }
}

impl ReverseIndex {
    /// The modules that import `id`, if `id` is in the index.
    pub fn get_parents(&self, id: &str) -> (r: Option<Vec<String>>)
        ensures
            match r {
                Some(v) => self.index().contains_key(id@) && strs_view(v@).no_duplicates()
                    && strs_view(v@).to_set() == self.index()[id@],
                None => !self.index().contains_key(id@),
            },
    {
        proof {
            use_type_invariant(&self.idx);
            StringSetMap::lemma_view(self.idx);
        }
        match self.idx.get(id) {
            Some(list) => Some(crate::types::clone_strings(list)),
            None => None,
        }
    }

    /// The ids of the index.
    pub fn keys(&self) -> (r: Vec<String>)
        ensures
            strs_view(r@).no_duplicates(),
            strs_view(r@).to_set() == self.index().dom(),
    {
        proof {
            use_type_invariant(&self.idx);
            StringSetMap::lemma_view(self.idx);
        }
        self.idx.keys()
    }

    /// Whether the index has no id.
    pub fn is_empty(&self) -> (b: bool)
        ensures
            b == (self.index().dom() == Set::<Seq<char>>::empty()),
    {
        self.idx.is_empty()
    }

    /// Removes `id` and the modules recorded for it.
    pub fn remove_id(&mut self, id: &str)
        ensures
            final(self).index() == old(self).index().remove(id@),
            final(self).base_names() == old(self).base_names(),
    {
        self.idx.remove_key(id);
        assert(self.idx@ =~= old(self).idx@.remove(id@));
    }

    /// Takes `issuer` out of the set of every id that one of `deps` resolved to.
    fn remove_issuer_from(&mut self, issuer: &str, deps: &Vec<Dependency>)
        ensures
            forall|x: Seq<char>, p: Seq<char>| #[trigger] mem(final(self).index(), x, p) <==> mem(old(self).index(), x, p)
                && !(p == issuer@ && lists_id(crate::types::deps_view(deps@), x)),
            final(self).index().dom() == old(self).index().dom(),
            final(self).base_names() == old(self).base_names(),
    {
        let ghost dv = crate::types::deps_view(deps@);
        let mut j: usize = 0;
        while j < deps.len()
            invariant
                dv == crate::types::deps_view(deps@),
                j <= deps@.len(),
                self.base_names() == old(self).base_names(),
                self.index().dom() == old(self).index().dom(),
                forall|x: Seq<char>, p: Seq<char>| #[trigger] mem(self.index(), x, p) <==> mem(old(self).index(), x, p)
                    && !(p == issuer@ && exists|b: int| 0 <= b < j && (#[trigger] dv[b]).id == Some(x)),
            decreases deps@.len() - j,
        {
            let ghost m0 = self.idx@;
            match &deps[j].id {
                Some(id) => {
                    self.idx.remove_member(id.as_str(), issuer);
                    proof {
                        assert(self.idx@ == remove_pair(m0, id@, issuer@));
                        lemma_remove_pair(m0, id@, issuer@);
                        assert(dv[j as int].id == Some(id@));
                    }
                },
                None => {
                    proof {
                        assert(dv[j as int].id is None);
                    }
                },
            }
            proof {
                assert forall|x: Seq<char>, p: Seq<char>| #[trigger] mem(self.index(), x, p) <==> mem(old(self).index(), x, p)
                    && !(p == issuer@ && exists|b: int| 0 <= b < j + 1 && (#[trigger] dv[b]).id == Some(x)) by {
                    if p == issuer@ && exists|b: int| 0 <= b < j + 1 && (#[trigger] dv[b]).id == Some(x) {
                        let b = choose|b: int| 0 <= b < j + 1 && (#[trigger] dv[b]).id == Some(x);
                        if b < j {
                            assert(!mem(m0, x, p));
                        }
                    }
                }
            }
            j = j + 1;
        }
    }

    /// Puts `issuer` into the set of every id that one of `deps` resolved to.
    fn add_issuer_to(&mut self, issuer: &String, deps: &Vec<Dependency>)
        ensures
            forall|x: Seq<char>, p: Seq<char>| #[trigger] mem(final(self).index(), x, p) <==> mem(old(self).index(), x, p)
                || (p == issuer@ && lists_id(crate::types::deps_view(deps@), x)),
            all_nonempty(old(self).index()) ==> all_nonempty(final(self).index()),
            final(self).base_names() == old(self).base_names(),
    {
        let ghost dv = crate::types::deps_view(deps@);
        let mut j: usize = 0;
        while j < deps.len()
            invariant
                dv == crate::types::deps_view(deps@),
                j <= deps@.len(),
                self.base_names() == old(self).base_names(),
                all_nonempty(old(self).index()) ==> all_nonempty(self.index()),
                forall|x: Seq<char>, p: Seq<char>| #[trigger] mem(self.index(), x, p) <==> mem(old(self).index(), x, p)
                    || (p == issuer@ && exists|b: int| 0 <= b < j && (#[trigger] dv[b]).id == Some(x)),
            decreases deps@.len() - j,
        {
            let ghost m0 = self.index();
            match &deps[j].id {
                Some(id) => {
                    self.idx.add_member(id.as_str(), issuer.clone());
                    proof {
                        assert(self.idx@ == add_pair(m0, id@, issuer@));
                        lemma_add_pair(m0, id@, issuer@);
                        assert(dv[j as int].id == Some(id@));
                        assert forall|x: Seq<char>, p: Seq<char>| #[trigger] mem(self.index(), x, p) <==> mem(old(self).index(), x, p)
                            || (p == issuer@ && exists|b: int| 0 <= b < j + 1 && (#[trigger] dv[b]).id == Some(x)) by {
                            assert(mem(self.index(), x, p) == mem(add_pair(m0, id@, issuer@), x, p));
                            if p == issuer@ && exists|b: int| 0 <= b < j + 1 && (#[trigger] dv[b]).id == Some(x) {
                                let b = choose|b: int| 0 <= b < j + 1 && (#[trigger] dv[b]).id == Some(x);
                                if b < j {
                                    assert(mem(m0, x, p));
                                }
                            }
                        }
                    }
                },
                None => {
                    proof {
                        assert(dv[j as int].id is None);
                        assert forall|x: Seq<char>, p: Seq<char>| #[trigger] mem(self.index(), x, p) <==> mem(old(self).index(), x, p)
                            || (p == issuer@ && exists|b: int| 0 <= b < j + 1 && (#[trigger] dv[b]).id == Some(x)) by {
                            if p == issuer@ && exists|b: int| 0 <= b < j + 1 && (#[trigger] dv[b]).id == Some(x) {
                                let b = choose|b: int| 0 <= b < j + 1 && (#[trigger] dv[b]).id == Some(x);
                                assert(b < j);
                                assert(mem(m0, x, p));
                            }
                        }
                    }
                },
            }
            j = j + 1;
        }
    }

    /// Removes every id whose set of modules is empty.
    fn drop_empty(&mut self)
        ensures
            final(self).index() == without_empty(old(self).index()),
            final(self).base_names() == old(self).base_names(),
    {
        self.idx.remove_empty();
    }

    /// Replaces the mappings derived from `issuer`'s dependencies
    /// `prev_deps_opt` by those derived from `new_deps_opt`: `issuer` leaves
    /// the set of each id of the former, ids left without modules are
    /// removed, then `issuer` joins the set of each id of the latter.
    pub fn update_mappings_for_issuer(
        &mut self,
        issuer: &str,
        prev_deps_opt: Option<&Vec<Dependency>>,
        new_deps_opt: Option<&Vec<Dependency>>,
    )
        ensures
            all_nonempty(final(self).index()),
            forall|x: Seq<char>, p: Seq<char>| #[trigger] mem(final(self).index(), x, p) <==> (mem(old(self).index(), x, p)
                && !(p == issuer@ && opt_lists_id(opt_deps_ref_view(prev_deps_opt), x)))
                || (p == issuer@ && opt_lists_id(opt_deps_ref_view(new_deps_opt), x)),
            final(self).base_names() == old(self).base_names(),
    {
        let ghost m0 = self.idx@;
        match prev_deps_opt {
            Some(prev) => self.remove_issuer_from(issuer, prev),
            None => {},
        }
        let ghost m1 = self.idx@;
        self.drop_empty();
        proof {
            lemma_without_empty(m1);
        }
        let ghost m2 = self.idx@;
        let owned_issuer = crate::text::owned(issuer);
        match new_deps_opt {
            Some(new_deps) => self.add_issuer_to(&owned_issuer, new_deps),
            None => {},
        }
    }

    /// Keeps, for each id, only the modules that are module ids of
    /// `last_full_tree`, and removes the ids left without modules.
    pub fn prune(&mut self, last_full_tree: &DependencyTree)
        ensures
            all_nonempty(final(self).index()),
            forall|x: Seq<char>, p: Seq<char>| #[trigger] mem(final(self).index(), x, p) <==> mem(old(self).index(), x, p)
                && last_full_tree@.contains_key(p),
            final(self).base_names() == old(self).base_names(),
    {
        self.idx.retain_members_in(last_full_tree);
        let ghost m1 = self.idx@;
        self.idx.remove_empty();
        proof {
            assert(self.idx@ == without_empty(m1));
            lemma_without_empty(m1);
        }
    }

    /// Merges a partial tree into the full tree: the entry of each module of
    /// `partial` replaces the one in `last_full_tree`, and the index follows:
    /// each such module leaves the sets of the ids its previous entry
    /// resolved to and joins those of the ids its new entry resolves to;
    /// then ids left without modules are removed.
    pub fn merge_partial_into_full(&mut self, partial: &DependencyTree, last_full_tree: &mut DependencyTree)
        ensures
            final(last_full_tree)@ == old(last_full_tree)@.union_prefer_right(partial@),
            all_nonempty(final(self).index()),
            forall|x: Seq<char>, p: Seq<char>| #[trigger] mem(final(self).index(), x, p) <==> if partial@.contains_key(p) {
                (mem(old(self).index(), x, p) && !depends_on(old(last_full_tree)@, p, x)) || depends_on(partial@, p, x)
            } else {
                mem(old(self).index(), x, p)
            },
            final(self).base_names() == old(self).base_names(),
    {
        proof {
            use_type_invariant(partial);
            DependencyTree::lemma_view(*partial);
        }
        let ghost es = partial.entry_list();
        let ghost m0 = self.idx@;
        let ghost t0 = last_full_tree@;
        let n = partial.len();
        let mut i: usize = 0;
        while i < n
            invariant
                es == partial.entry_list(),
                n == es.len(),
                i <= n,
                partial.keys_distinct(),
                partial@.dom() == partial.key_list().to_set(),
                forall|a: int| 0 <= a < es.len() ==> #[trigger] partial@[es[a].0] == es[a].1,
                m0 == old(self).index(),
                t0 == old(last_full_tree)@,
                self.base_names() == old(self).base_names(),
                last_full_tree@ == t0.union_prefer_right(partial@.restrict(partial.key_list().subrange(0, i as int).to_set())),
                forall|x: Seq<char>, p: Seq<char>| #[trigger] mem(self.index(), x, p) <==> if partial.key_list().subrange(0, i as int).contains(p) {
                    (mem(m0, x, p) && !depends_on(t0, p, x)) || depends_on(partial@, p, x)
                } else {
                    mem(m0, x, p)
                },
            decreases n - i,
        {
            let (key, v) = partial.entry_at(i);
            let ghost k = key@;
            let ghost pre = partial.key_list().subrange(0, i as int);
            let ghost pre1 = partial.key_list().subrange(0, i + 1);
            assert(pre1 =~= pre.push(k)) by {
                assert(partial.key_list()[i as int] == k);
            }
            assert(!pre.contains(k)) by {
                if pre.contains(k) {
                    let j = choose|j: int| 0 <= j < pre.len() && pre[j] == k;
                    assert(partial.key_list()[j] == k);
                }
            }
            let ghost lt = last_full_tree@;
            assert(lt.contains_key(k) == t0.contains_key(k) && (t0.contains_key(k) ==> lt[k] == t0[k])) by {
                assert(!partial@.restrict(pre.to_set()).contains_key(k));
            }
            let ghost mi = self.idx@;
            match last_full_tree.get(key.as_str()) {
                Some(prev_opt) => {
                    match prev_opt {
                        Some(prev) => {
                            self.remove_issuer_from(key.as_str(), prev);
                        },
                        None => {},
                    }
                },
                None => {},
            }
            let ghost mr = self.idx@;
            assert forall|x: Seq<char>, p: Seq<char>| #[trigger] mem(mr, x, p) <==> mem(mi, x, p) && !(p == k && depends_on(t0, p, x)) by {
            }
            last_full_tree.insert(key.clone(), crate::types::clone_opt_deps(v));
            match v {
                Some(new_deps) => {
                    self.add_issuer_to(key, new_deps);
                },
                None => {},
            }
            proof {
                assert(partial@[k] == es[i as int].1);
                assert(pre1.to_set() =~= pre.to_set().insert(k)) by {
                    assert forall|q: Seq<char>| pre1.to_set().contains(q) == pre.to_set().insert(k).contains(q) by {
                        if pre1.contains(q) {
                            let j = choose|j: int| 0 <= j < pre1.len() && pre1[j] == q;
                            if j < i {
                                assert(pre[j] == q);
                            }
                        }
                        if pre.contains(q) {
                            let j = choose|j: int| 0 <= j < pre.len() && pre[j] == q;
                            assert(pre1[j] == q);
                        }
                        if q == k {
                            assert(pre1[i as int] == q);
                        }
                    }
                }
                assert(partial@.contains_key(k)) by {
                    assert(partial.key_list()[i as int] == k);
                    assert(partial.key_list().to_set().contains(k));
                }
                let ra = partial@.restrict(pre.to_set());
                let rb = partial@.restrict(pre1.to_set());
                assert(rb =~= ra.insert(k, partial@[k]));
                assert(last_full_tree@ == lt.insert(k, partial@[k]));
                assert(t0.union_prefer_right(rb) =~= t0.union_prefer_right(ra).insert(k, partial@[k]));
                assert(last_full_tree@ =~= t0.union_prefer_right(partial@.restrict(pre1.to_set())));
                assert forall|x: Seq<char>, p: Seq<char>| #[trigger] mem(self.index(), x, p) <==> if pre1.contains(p) {
                    (mem(m0, x, p) && !depends_on(t0, p, x)) || depends_on(partial@, p, x)
                } else {
                    mem(m0, x, p)
                } by {
                    if p != k {
                        if pre1.contains(p) {
                            let j = choose|j: int| 0 <= j < pre1.len() && pre1[j] == p;
                            assert(pre[j] == p);
                        }
                        if pre.contains(p) {
                            let j = choose|j: int| 0 <= j < pre.len() && pre[j] == p;
                            assert(pre1[j] == p);
                        }
                    } else {
                        assert(pre1[i as int] == p);
                        assert(partial@.contains_key(k)) by {
                            assert(partial.key_list().to_set().contains(k));
                        }
                    }
                }
            }
            i = i + 1;
        }
        let ghost m1 = self.idx@;
        self.drop_empty();
        proof {
            lemma_without_empty(m1);
            assert(partial.key_list().subrange(0, n as int) =~= partial.key_list());
            assert(partial@.restrict(partial.key_list().to_set()) =~= partial@);
            assert forall|p: Seq<char>| partial.key_list().contains(p) == partial@.contains_key(p) by {
                assert(partial.key_list().to_set().contains(p) == partial.key_list().contains(p));
            }
        }
    }
}

impl ReverseIndex {
    /// Appends to `queue` each id of the index that matches `nf` (with file
    /// name `base`) by suffix.
    fn push_matching_keys(&self, nf: &String, base: Option<&String>, queue: &mut Vec<String>)
        requires
            strs_view(old(queue)@).no_duplicates(),
        ensures
            strs_view(final(queue)@).no_duplicates(),
            strs_view(final(queue)@).to_set() == strs_view(old(queue)@).to_set().union(
                Set::new(|y: Seq<char>| self.index().contains_key(y) && key_matches(y, nf@, opt_ref_str_view(base)))),
    {
        proof {
            use_type_invariant(&self.idx);
            StringSetMap::lemma_view(self.idx);
        }
        let ghost bv = opt_ref_str_view(base);
        let ghost q0 = strs_view(queue@).to_set();
        let ks = self.idx.keys();
        let ghost kv = strs_view(ks@);
        let mut j: usize = 0;
        while j < ks.len()
            invariant
                kv == strs_view(ks@),
                kv.to_set() == self.index().dom(),
                bv == opt_ref_str_view(base),
                j <= ks@.len(),
                strs_view(queue@).no_duplicates(),
                strs_view(queue@).to_set() == q0.union(
                    Set::new(|y: Seq<char>| exists|a: int| 0 <= a < j && kv[a] == y && key_matches(y, nf@, bv))),
            decreases ks@.len() - j,
        {
            let k = &ks[j];
            let hit = ends_with(k.as_str(), nf.as_str()) || ends_with(nf.as_str(), k.as_str()) || match base {
                Some(b) => ends_with(k.as_str(), b.as_str()),
                None => false,
            };
            let ghost qb = strs_view(queue@).to_set();
            if hit {
                push_new(queue, k);
            }
            proof {
                assert(kv[j as int] == k@);
                assert(hit == key_matches(k@, nf@, bv));
                assert(strs_view(queue@).to_set() =~= q0.union(
                    Set::new(|y: Seq<char>| exists|a: int| 0 <= a < j + 1 && kv[a] == y && key_matches(y, nf@, bv)))) by {
                    assert forall|y: Seq<char>| #![trigger key_matches(y, nf@, bv)] (exists|a: int| 0 <= a < j + 1 && kv[a] == y && key_matches(y, nf@, bv))
                        <==> (exists|a: int| 0 <= a < j && kv[a] == y && key_matches(y, nf@, bv)) || (hit && y == k@) by {
                        if exists|a: int| 0 <= a < j + 1 && kv[a] == y && key_matches(y, nf@, bv) {
                            let a = choose|a: int| 0 <= a < j + 1 && kv[a] == y && key_matches(y, nf@, bv);
                            if a < j {
                                assert(exists|a: int| 0 <= a < j && kv[a] == y && key_matches(y, nf@, bv));
                            }
                        }
                        if hit && y == k@ {
                            assert(kv[j as int] == y);
                        }
                    }
                }
            }
            j = j + 1;
        }
        proof {
            assert forall|y: Seq<char>| #![trigger key_matches(y, nf@, bv)] (exists|a: int| 0 <= a < j && kv[a] == y && key_matches(y, nf@, bv))
                <==> self.index().contains_key(y) && key_matches(y, nf@, bv) by {
                if self.index().contains_key(y) && key_matches(y, nf@, bv) {
                    assert(kv.to_set().contains(y));
                    let a = choose|a: int| 0 <= a < kv.len() && kv[a] == y;
                    assert(kv[a] == y);
                }
                if exists|a: int| 0 <= a < j && kv[a] == y && key_matches(y, nf@, bv) {
                    let a = choose|a: int| 0 <= a < j && kv[a] == y && key_matches(y, nf@, bv);
                    assert(kv.to_set().contains(kv[a]));
                }
            }
            assert(strs_view(queue@).to_set() =~= q0.union(
                Set::new(|y: Seq<char>| self.index().contains_key(y) && key_matches(y, nf@, bv))));
        }
    }

    /// Appends to `queue` the modules that the changed path `nf` starts from.
    fn push_seeds(&self, nf: &String, queue: &mut Vec<String>)
        requires
            strs_view(old(queue)@).no_duplicates(),
        ensures
            strs_view(final(queue)@).no_duplicates(),
            strs_view(final(queue)@).to_set() == strs_view(old(queue)@).to_set().union(
                seeds_of_change(self.index(), self.base_names(), nf@)),
    {
        proof {
            use_type_invariant(&self.idx);
            use_type_invariant(&self.base_name_map);
            StringSetMap::lemma_view(self.idx);
            StringSetMap::lemma_view(self.base_name_map);
        }
        let ghost m = self.index();
        let ghost bn = self.base_names();
        let ghost q0 = strs_view(queue@).to_set();
        let ghost sc = seeds_of_change(m, bn, nf@);
        push_new(queue, nf);
        if self.idx.contains_key(nf.as_str()) {
            assert(strs_view(queue@).to_set() =~= q0.union(sc));
            return;
        }
        match file_name(nf.as_str()) {
            Some(base) => {
                match self.base_name_map.get(base.as_str()) {
                    Some(keys) => {
                        let ghost kv = strs_view(keys@);
                        assert(kv.to_set() == bn[base@]);
                        let ghost q1 = strs_view(queue@).to_set();
                        let mut j: usize = 0;
                        while j < keys.len()
                            invariant
                                kv == strs_view(keys@),
                                j <= keys@.len(),
                                strs_view(queue@).no_duplicates(),
                                strs_view(queue@).to_set() == q1.union(kv.subrange(0, j as int).to_set()),
                            decreases keys@.len() - j,
                        {
                            push_new(queue, &keys[j]);
                            proof {
                                assert(kv.subrange(0, j + 1) =~= kv.subrange(0, j as int).push(kv[j as int]));
                                kv.subrange(0, j as int).lemma_push_to_set_commute(kv[j as int]);
                            }
                            j = j + 1;
                        }
                        proof {
                            assert(kv.subrange(0, j as int) =~= kv);
                            assert(strs_view(queue@).to_set() =~= q0.union(sc));
                        }
                    },
                    None => {
                        self.push_matching_keys(nf, Some(&base), queue);
                        proof {
                            let bo: Option<&String> = Some(&base);
                            assert(opt_ref_str_view(bo) == Some(base@));
                            assert(strs_view(queue@).to_set() =~= q0.union(sc));
                        }
                    },
                }
            },
            None => {
                self.push_matching_keys(nf, None, queue);
                proof {
                    let bo: Option<&String> = None;
                    assert(opt_ref_str_view(bo) == None::<Seq<char>>);
                    assert(strs_view(queue@).to_set() =~= q0.union(sc));
                }
            },
        }
    }

    /// Every module reached from `queue` through importers: the modules of
    /// `queue` and, breadth first, those that import a module already reached.
    #[verifier::spinoff_prover]
    fn bfs_traverse(&self, queue: Vec<String>) -> (affected: Vec<String>)
        ensures
            strs_view(affected@).no_duplicates(),
            strs_view(affected@).to_set() == importers_closure(self.index(), strs_view(queue@).to_set()),
    {
        proof {
            use_type_invariant(&self.idx);
            StringSetMap::lemma_view(self.idx);
            StringSetMap::lemma_members(self.idx);
        }
        let ghost m = self.index();
        let ghost seeds = strs_view(queue@).to_set();
        let ghost q0 = strs_view(queue@);
        let ghost univ = seeds.union(self.idx.members());
        proof {
            vstd::seq_lib::seq_to_set_is_finite(q0);
            assert forall|k: int| 0 <= k < q0.len() implies #[trigger] reaches(m, seeds, q0[k]) && univ.contains(q0[k]) by {
                assert(seeds.contains(q0[k]));
                lemma_seed_reaches(m, seeds, q0[k]);
            }
            assert(q0.is_prefix_of(q0));
        }
        let mut queue = queue;
        let mut affected: Vec<String> = Vec::new();
        let mut head: usize = 0;
        while head < queue.len()
            invariant
                m == self.index(),
                seeds == q0.to_set(),
                univ == seeds.union(self.idx.members()),
                univ.finite(),
                forall|x: Seq<char>, p: Seq<char>| #![trigger m[x].contains(p)] m.contains_key(x) && m[x].contains(p) ==> self.idx.members().contains(p),
                q0.is_prefix_of(strs_view(queue@)),
                head <= queue@.len(),
                forall|k: int| 0 <= k < queue@.len() ==> #[trigger] reaches(m, seeds, strs_view(queue@)[k])
                    && univ.contains(strs_view(queue@)[k]),
                forall|k: int| 0 <= k < head ==> strs_view(affected@).contains(#[trigger] strs_view(queue@)[k]),
                strs_view(affected@).no_duplicates(),
                forall|y: Seq<char>| #[trigger] strs_view(affected@).contains(y) ==> reaches(m, seeds, y) && univ.contains(y),
                forall|x: Seq<char>, p: Seq<char>| strs_view(affected@).contains(x) && #[trigger] mem(m, x, p)
                    ==> strs_view(affected@).contains(p) || strs_view(queue@).contains(p),
            decreases univ.difference(strs_view(affected@).to_set()).len(), queue@.len() - head,
        {
            let ghost qv = strs_view(queue@);
            let ghost av = strs_view(affected@);
            let curr = queue[head].clone();
            assert(curr@ == qv[head as int]);
            if list_contains(&affected, curr.as_str()) {
                head = head + 1;
            } else {
                affected.push(curr.clone());
                proof {
                    assert(strs_view(affected@) =~= av.push(curr@));
                    av.lemma_push_to_set_commute(curr@);
                    assert(univ.difference(strs_view(affected@).to_set()) =~= univ.difference(av.to_set()).remove(curr@));
                    vstd::set::axiom_set_difference_finite(univ, av.to_set());
                }
                match self.idx.get(curr.as_str()) {
                    Some(parents) => {
                        let ghost pv = strs_view(parents@);
                        assert(pv.to_set() == m[curr@]);
                        let ghost qa = strs_view(queue@);
                        let mut j: usize = 0;
                        while j < parents.len()
                            invariant
                                pv == strs_view(parents@),
                                pv.to_set() == m[curr@],
                                m.contains_key(curr@),
                                j <= parents@.len(),
                                qa.is_prefix_of(strs_view(queue@)),
                                head < qa.len(),
                                forall|k: int| 0 <= k < queue@.len() ==> #[trigger] reaches(m, seeds, strs_view(queue@)[k])
                                    && univ.contains(strs_view(queue@)[k]),
                                reaches(m, seeds, curr@),
                                m == self.index(),
                                univ == seeds.union(self.idx.members()),
                                forall|x: Seq<char>, p: Seq<char>| #![trigger m[x].contains(p)] m.contains_key(x) && m[x].contains(p) ==> self.idx.members().contains(p),
                                forall|a: int| 0 <= a < j ==> strs_view(affected@).contains(#[trigger] pv[a]) || strs_view(queue@).contains(pv[a]),
                            decreases parents@.len() - j,
                        {
                            let ghost qj = strs_view(queue@);
                            if !list_contains(&affected, parents[j].as_str()) {
                                queue.push(parents[j].clone());
                                proof {
                                    assert(strs_view(queue@) =~= qj.push(pv[j as int]));
                                    assert(pv.to_set().contains(pv[j as int]));
                                    assert(mem(m, curr@, pv[j as int]));
                                    lemma_reaches_step(m, seeds, curr@, pv[j as int]);
                                    assert(m[curr@].contains(pv[j as int]));
                                    assert forall|k: int| 0 <= k < queue@.len() implies #[trigger] reaches(m, seeds, strs_view(queue@)[k])
                                        && univ.contains(strs_view(queue@)[k]) by {
                                        if k < qj.len() {
                                            assert(strs_view(queue@)[k] == qj[k]);
                                        }
                                    }
                                    assert(strs_view(queue@)[qj.len() as int] == pv[j as int]);
                                    assert forall|a: int| 0 <= a < j + 1 implies strs_view(affected@).contains(#[trigger] pv[a]) || strs_view(queue@).contains(pv[a]) by {
                                        if a < j && strs_view(queue@).contains(pv[a]) == false {
                                            if qj.contains(pv[a]) {
                                                let k = choose|k: int| 0 <= k < qj.len() && qj[k] == pv[a];
                                                assert(strs_view(queue@)[k] == pv[a]);
                                            }
                                        }
                                    }
                                    assert(qa.is_prefix_of(strs_view(queue@))) by {
                                        assert forall|k: int| 0 <= k < qa.len() implies qa[k] == strs_view(queue@)[k] by {
                                            assert(qa[k] == qj[k]);
                                        }
                                    }
                                }
                            }
                            j = j + 1;
                        }
                        proof {
                            assert forall|p: Seq<char>| #[trigger] mem(m, curr@, p) implies strs_view(affected@).contains(p) || strs_view(queue@).contains(p) by {
                                assert(pv.to_set().contains(p));
                                let a = choose|a: int| 0 <= a < pv.len() && pv[a] == p;
                                assert(strs_view(affected@).contains(pv[a]) || strs_view(queue@).contains(pv[a]));
                            }
                        }
                    },
                    None => {},
                }
                proof {
                    let qv2 = strs_view(queue@);
                    let av2 = strs_view(affected@);
                    assert forall|k: int| 0 <= k < qv.len() implies qv[k] == qv2[k] by {}
                    assert forall|k: int| 0 <= k < head + 1 implies av2.contains(#[trigger] qv2[k]) by {
                        assert(qv2[k] == qv[k]);
                        if k < head {
                            assert(av.contains(qv[k]));
                            let a = choose|a: int| 0 <= a < av.len() && av[a] == qv[k];
                            assert(av2[a] == qv[k]);
                        } else {
                            assert(av2[av.len() as int] == curr@);
                        }
                    }
                    assert forall|y: Seq<char>| #[trigger] av2.contains(y) implies reaches(m, seeds, y) && univ.contains(y) by {
                        let a = choose|a: int| 0 <= a < av2.len() && av2[a] == y;
                        if a < av.len() {
                            assert(av[a] == y);
                            assert(av.contains(y));
                        } else {
                            assert(qv[head as int] == y);
                            assert(qv2[head as int] == y);
                            assert(reaches(m, seeds, qv2[head as int]));
                        }
                    }
                    assert forall|x: Seq<char>, p: Seq<char>| av2.contains(x) && #[trigger] mem(m, x, p)
                        implies av2.contains(p) || qv2.contains(p) by {
                        if x == curr@ {
                            if !m.contains_key(x) {
                                assert(!mem(m, x, p));
                            }
                        } else {
                            let a = choose|a: int| 0 <= a < av2.len() && av2[a] == x;
                            assert(a < av.len());
                            assert(av[a] == x);
                            assert(av.contains(x));
                            if av.contains(p) {
                                let b = choose|b: int| 0 <= b < av.len() && av[b] == p;
                                assert(av2[b] == p);
                            } else {
                                assert(qv.contains(p));
                                let b = choose|b: int| 0 <= b < qv.len() && qv[b] == p;
                                assert(qv2[b] == p);
                            }
                        }
                    }
                    assert(q0.is_prefix_of(qv2)) by {
                        assert forall|k: int| 0 <= k < q0.len() implies q0[k] == qv2[k] by {
                            assert(q0[k] == qv[k]);
                        }
                    }
                }
                head = head + 1;
            }
        }
        proof {
            let av = strs_view(affected@);
            let a = av.to_set();
            assert forall|x: Seq<char>, p: Seq<char>| a.contains(x) && #[trigger] mem(m, x, p) implies a.contains(p) by {
                assert(av.contains(x));
                if strs_view(queue@).contains(p) && !av.contains(p) {
                    let k = choose|k: int| 0 <= k < strs_view(queue@).len() && strs_view(queue@)[k] == p;
                    assert(av.contains(strs_view(queue@)[k]));
                }
            }
            assert forall|y: Seq<char>| seeds.contains(y) implies a.contains(y) by {
                let k = choose|k: int| 0 <= k < q0.len() && q0[k] == y;
                assert(strs_view(queue@)[k] == y);
                assert(av.contains(strs_view(queue@)[k]));
            }
            lemma_closure_least(m, seeds, a);
            assert(a =~= importers_closure(m, seeds));
        }
        affected
    }

    /// What the changed files, given as normalized paths, affect: nothing
    /// when the index is empty; otherwise the modules each change starts from
    /// (the path itself and, unless it is an id of the index, the ids with
    /// its file name or, failing that, those that match it by suffix) and,
    /// breadth first, every module that imports one already affected.
    pub fn compute_affected_set(&self, normalized_changed: &Vec<String>) -> (r: Vec<String>)
        ensures
            strs_view(r@).no_duplicates(),
            strs_view(r@).to_set() == affected_set(self.index(), self.base_names(), strs_view(normalized_changed@)),
    {
        let ghost m = self.index();
        let ghost bn = self.base_names();
        let ghost nfs = strs_view(normalized_changed@);
        if self.idx.is_empty() {
            let r: Vec<String> = Vec::new();
            assert(strs_view(r@).to_set() =~= Set::<Seq<char>>::empty());
            return r;
        }
        let mut queue: Vec<String> = Vec::new();
        let mut i: usize = 0;
        while i < normalized_changed.len()
            invariant
                nfs == strs_view(normalized_changed@),
                m == self.index(),
                bn == self.base_names(),
                i <= nfs.len(),
                strs_view(queue@).no_duplicates(),
                strs_view(queue@).to_set() == seeds_of(m, bn, nfs.subrange(0, i as int)),
            decreases nfs.len() - i,
        {
            let ghost q0 = strs_view(queue@).to_set();
            self.push_seeds(&normalized_changed[i], &mut queue);
            proof {
                let s0 = nfs.subrange(0, i as int);
                let s1 = nfs.subrange(0, i + 1);
                assert forall|y: Seq<char>| seeds_of(m, bn, s1).contains(y) == (seeds_of(m, bn, s0).contains(y)
                    || seeds_of_change(m, bn, nfs[i as int]).contains(y)) by {
                    if seeds_of(m, bn, s1).contains(y) {
                        let a = choose|a: int| 0 <= a < s1.len() && #[trigger] seeds_of_change(m, bn, s1[a]).contains(y);
                        if a < i {
                            assert(s0[a] == s1[a]);
                        }
                    }
                    if seeds_of(m, bn, s0).contains(y) {
                        let a = choose|a: int| 0 <= a < s0.len() && #[trigger] seeds_of_change(m, bn, s0[a]).contains(y);
                        assert(s0[a] == s1[a]);
                    }
                    if seeds_of_change(m, bn, nfs[i as int]).contains(y) {
                        assert(s1[i as int] == nfs[i as int]);
                    }
                }
                assert(strs_view(queue@).to_set() =~= seeds_of(m, bn, s1));
            }
            i = i + 1;
        }
        proof {
            assert(nfs.subrange(0, i as int) =~= nfs);
        }
        self.bfs_traverse(queue)
    }
}

/// The view of an optional borrowed string.
pub open spec fn opt_ref_str_view(o: Option<&String>) -> Option<Seq<char>> {
    match o {
        Some(s) => Some(s@),
        None => None,
    }
}

/// The view of an optional borrowed dependency list.
pub open spec fn opt_deps_ref_view(o: Option<&Vec<Dependency>>) -> Option<Seq<DependencyView>> {
    match o {
        Some(v) => Some(crate::types::deps_view(v@)),
        None => None,
    }
}

/// Merging keeps the index the reverse of the full tree: if it was the
/// reverse of the full tree before, it is the reverse of the merged tree after.
pub proof fn lemma_merge_keeps_reverse(
    before: SetMap,
    after: SetMap,
    last: Map<Seq<char>, Option<Seq<DependencyView>>>,
    partial: Map<Seq<char>, Option<Seq<DependencyView>>>,
)
    requires
        before == reverse_of(last),
        all_nonempty(after),
        forall|x: Seq<char>, p: Seq<char>| #[trigger] mem(after, x, p) <==> if partial.contains_key(p) {
            (mem(before, x, p) && !depends_on(last, p, x)) || depends_on(partial, p, x)
        } else {
            mem(before, x, p)
        },
    ensures
        after == reverse_of(last.union_prefer_right(partial)),
{
    let merged = last.union_prefer_right(partial);
    lemma_reverse_of(last);
    lemma_reverse_of(merged);
    assert forall|x: Seq<char>, p: Seq<char>| #![trigger mem(after, x, p)] #![trigger mem(reverse_of(merged), x, p)]
        mem(after, x, p) <==> mem(reverse_of(merged), x, p) by {
        if partial.contains_key(p) {
            assert(merged[p] == partial[p]);
        } else {
            if last.contains_key(p) {
                assert(merged[p] == last[p]);
            }
        }
    }
    lemma_mem_ext(after, reverse_of(merged));
}

} // verus!

verus! {

/// Pruning by its own tree leaves a reverse index unchanged: every module
/// recorded as an importer is a module of the tree.
pub proof fn lemma_prune_keeps_reverse(
    before: SetMap,
    after: SetMap,
    t: Map<Seq<char>, Option<Seq<DependencyView>>>,
)
    requires
        before == reverse_of(t),
        all_nonempty(after),
        forall|x: Seq<char>, p: Seq<char>| #[trigger] mem(after, x, p) <==> mem(before, x, p) && t.contains_key(p),
    ensures
        after == reverse_of(t),
{
    lemma_reverse_of(t);
    assert forall|x: Seq<char>, p: Seq<char>| #![trigger mem(after, x, p)] #![trigger mem(reverse_of(t), x, p)]
        mem(after, x, p) <==> mem(reverse_of(t), x, p) by {
        if mem(before, x, p) {
            assert(depends_on(t, p, x));
        }
    }
    lemma_mem_ext(after, reverse_of(t));
}

/// When the index is not empty, every changed path is affected.
pub proof fn lemma_changes_are_affected(m: SetMap, bn: SetMap, nfs: Seq<Seq<char>>, i: int)
    requires
        m.dom() != Set::<Seq<char>>::empty(),
        0 <= i < nfs.len(),
    ensures
        affected_set(m, bn, nfs).contains(nfs[i]),
{
    assert(seeds_of_change(m, bn, nfs[i]).contains(nfs[i]));
    assert(seeds_of(m, bn, nfs).contains(nfs[i]));
    lemma_seed_reaches(m, seeds_of(m, bn, nfs), nfs[i]);
}

/// What imports an affected module is affected too.
pub proof fn lemma_affected_closed(m: SetMap, bn: SetMap, nfs: Seq<Seq<char>>, x: Seq<char>, p: Seq<char>)
    requires
        affected_set(m, bn, nfs).contains(x),
        mem(m, x, p),
    ensures
        affected_set(m, bn, nfs).contains(p),
{
    lemma_reaches_step(m, seeds_of(m, bn, nfs), x, p);
}

/// With the index of a tree, changing a module affects every module of the
/// tree that imports it, directly or not.
pub proof fn lemma_importers_of_change_affected(
    t: Map<Seq<char>, Option<Seq<DependencyView>>>,
    bn: SetMap,
    nfs: Seq<Seq<char>>,
    id: Seq<char>,
    k: Seq<char>,
)
    requires
        affected_set(reverse_of(t), bn, nfs).contains(id),
        depends_on(t, k, id),
    ensures
        affected_set(reverse_of(t), bn, nfs).contains(k),
{
    lemma_reverse_of(t);
    assert(mem(reverse_of(t), id, k));
    lemma_affected_closed(reverse_of(t), bn, nfs, id, k);
}

/// Everything affected is a changed path, a module the change names, or
/// an importer, directly or not, of one of them: the affected set is the
/// least set closed under importers that holds the seeds.
pub proof fn lemma_affected_least(m: SetMap, bn: SetMap, nfs: Seq<Seq<char>>, a: Set<Seq<char>>)
    requires
        seeds_of(m, bn, nfs).subset_of(a),
        forall|x: Seq<char>, p: Seq<char>| a.contains(x) && #[trigger] mem(m, x, p) ==> a.contains(p),
    ensures
        affected_set(m, bn, nfs).subset_of(a),
{
    lemma_closure_least(m, seeds_of(m, bn, nfs), a);
}

} // verus!
