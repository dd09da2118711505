//! Work on a parsed tree around module resolution: which requests are still
//! unresolved, how resolved ids are written back, and how ids are shortened
//! relative to the analysis context.
use vstd::prelude::*;
use crate::paths::{parent, std_parent, std_strip_prefix, strip_prefix};
use crate::text::{replace_char, replace_char_spec};
use crate::types::{
    clone_opt_string, deps_view, opt_deps_view, Dependency, DependencyTree, DependencyView,
};

verus! {

/// A path made relative to `ctx` when `ctx` is a prefix of it, with `\`
/// written as `/`.
pub open spec fn shorten_path(p: Seq<char>, ctx: Seq<char>) -> Seq<char> {
    replace_char_spec(
        match std_strip_prefix(p, ctx) {
            Some(r) => r,
            None => p,
        },
        '\\',
        '/',
    )
}

/// A dependency of the module now known as `issuer`, with its id shortened.
pub open spec fn shorten_dep(d: DependencyView, issuer: Seq<char>, ctx: Seq<char>) -> DependencyView {
    DependencyView {
        issuer: issuer,
        request: d.request,
        kind: d.kind,
        id: match d.id {
            Some(id) => Some(shorten_path(id, ctx)),
            None => None,
        },
    }
}

/// The dependencies of a module now known as `issuer`, shortened.
pub open spec fn shorten_deps(o: Option<Seq<DependencyView>>, issuer: Seq<char>, ctx: Seq<char>) -> Option<Seq<DependencyView>> {
    match o {
        Some(ds) => Some(ds.map_values(|d: DependencyView| shorten_dep(d, issuer, ctx))),
        None => None,
    }
}

/// `path` relative to `context` when `context` is a prefix of it, else
/// `path` itself; `\` written as `/`.
fn shorten_path_exec(path: &str, context: &str) -> (r: String)
    ensures
        r@ == shorten_path(path@, context@),
{
    match strip_prefix(path, context) {
        Some(rel) => replace_char(rel.as_str(), '\\', '/'),
        None => replace_char(path, '\\', '/'),
    }
}

/// The dependencies of a module now known as `issuer`, with `issuer` set and
/// each resolved id shortened.
fn shorten_dep_list(deps: &Vec<Dependency>, issuer: &String, context: &str) -> (r: Vec<Dependency>)
    ensures
        deps_view(r@) == deps_view(deps@).map_values(|d: DependencyView| shorten_dep(d, issuer@, context@)),
{
    let mut r: Vec<Dependency> = Vec::new();
    let mut j: usize = 0;
    while j < deps.len()
        invariant
            j <= deps@.len(),
            deps_view(r@) == deps_view(deps@).subrange(0, j as int).map_values(
                |d: DependencyView| shorten_dep(d, issuer@, context@)),
        decreases deps@.len() - j,
    {
        let d = &deps[j];
        let id = match &d.id {
            Some(i) => Some(shorten_path_exec(i.as_str(), context)),
            None => None,
        };
        let nd = Dependency { issuer: issuer.clone(), request: d.request.clone(), kind: d.kind, id: id };
        let ghost before = r@;
        r.push(nd);
        proof {
            assert(deps_view(r@) =~= deps_view(before).push(nd@));
            assert(deps_view(deps@)[j as int] == d@);
            assert(nd@ == shorten_dep(d@, issuer@, context@));
            assert(deps_view(deps@).subrange(0, j + 1) =~= deps_view(deps@).subrange(0, j as int).push(d@));
            assert(deps_view(r@) =~= deps_view(deps@).subrange(0, j + 1).map_values(
                |d: DependencyView| shorten_dep(d, issuer@, context@)));
        }
        j = j + 1;
    }
    assert(deps_view(deps@).subrange(0, j as int) =~= deps_view(deps@));
    r
}

/// The position of the last of the first `n` keys that shortens to `s`
/// (-1 where none does).
pub open spec fn last_shortening_to(keys: Seq<Seq<char>>, ctx: Seq<char>, s: Seq<char>, n: int) -> int
    decreases n,
{
    if n <= 0 {
        -1
    } else if shorten_path(keys[n - 1], ctx) == s {
        n - 1
    } else {
        last_shortening_to(keys, ctx, s, n - 1)
    }
}

proof fn lemma_last_shortening_to(keys: Seq<Seq<char>>, ctx: Seq<char>, s: Seq<char>, n: int, a: int)
    requires
        0 <= a < n <= keys.len(),
        shorten_path(keys[a], ctx) == s,
    ensures
        a <= last_shortening_to(keys, ctx, s, n) < n,
        shorten_path(keys[last_shortening_to(keys, ctx, s, n)], ctx) == s,
    decreases n,
{
    if shorten_path(keys[n - 1], ctx) != s {
        lemma_last_shortening_to(keys, ctx, s, n - 1, a);
    }
}

/// The tree with every module id, issuer and resolved id made relative to
/// `context` (where `context` is a prefix of it) and written with `/`.
/// When several ids of the tree shorten to the same text, the entry of the
/// last of them in the tree's order is kept.
pub fn shorten_tree(context: &str, tree: DependencyTree) -> (r: DependencyTree)
    ensures
        r@.dom() == tree@.dom().map(|k: Seq<char>| shorten_path(k, context@)),
        forall|s: Seq<char>| #[trigger] r@.contains_key(s) ==> r@[s] == shorten_deps(
            tree@[tree.key_list()[last_shortening_to(tree.key_list(), context@, s, tree.key_list().len() as int)]],
            s,
            context@,
        ),
{
    proof {
        use_type_invariant(&tree);
        DependencyTree::lemma_view(tree);
    }
    let ghost es = tree.entry_list();
    let ghost c = context@;
    let mut r = DependencyTree::new();
    let n = tree.len();
    let mut i: usize = 0;
    while i < n
        invariant
            es == tree.entry_list(),
            c == context@,
            n == es.len(),
            i <= n,
            tree@.dom() == tree.key_list().to_set(),
            forall|a: int| 0 <= a < es.len() ==> #[trigger] tree@[es[a].0] == es[a].1,
            forall|s: Seq<char>| #[trigger] r@.contains_key(s) <==> exists|a: int| 0 <= a < i && shorten_path(es[a].0, c) == s,
            forall|s: Seq<char>| #[trigger] r@.contains_key(s) ==> exists|a: int|
                0 <= a < i && shorten_path(es[a].0, c) == s && r@[s] == #[trigger] shorten_deps(es[a].1, s, c),
            tree.key_list().len() == n,
            forall|a: int| 0 <= a < n ==> #[trigger] tree.key_list()[a] == es[a].0,
            forall|s: Seq<char>| #[trigger] r@.contains_key(s) ==> r@[s] == shorten_deps(
                es[last_shortening_to(tree.key_list(), c, s, i as int)].1, s, c),
        decreases n - i,
    {
        let (key, deps_opt) = tree.entry_at(i);
        let short_key = shorten_path_exec(key.as_str(), context);
        let shortened = match deps_opt {
            Some(deps) => Some(shorten_dep_list(deps, &short_key, context)),
            None => None,
        };
        let ghost r0 = r@;
        let ghost sk = short_key@;
        proof {
            assert(opt_deps_view(shortened) == shorten_deps(es[i as int].1, sk, c));
        }
        r.insert(short_key, shortened);
        proof {
            assert(r@ == r0.insert(sk, shorten_deps(es[i as int].1, sk, c)));
            assert forall|s: Seq<char>| #[trigger] r@.contains_key(s) <==> exists|a: int| 0 <= a < i + 1 && shorten_path(es[a].0, c) == s by {
                if s != sk && r@.contains_key(s) {
                    assert(r0.contains_key(s));
                }
                if exists|a: int| 0 <= a < i + 1 && shorten_path(es[a].0, c) == s {
                    let a = choose|a: int| 0 <= a < i + 1 && shorten_path(es[a].0, c) == s;
                    if a < i {
                        assert(r0.contains_key(s));
                    }
                }
            }
            assert forall|s: Seq<char>| #[trigger] r@.contains_key(s) implies exists|a: int|
                0 <= a < i + 1 && shorten_path(es[a].0, c) == s && r@[s] == #[trigger] shorten_deps(es[a].1, s, c) by {
                if s == sk {
                    assert(shorten_path(es[i as int].0, c) == s);
                } else {
                    assert(r0.contains_key(s));
                    let a = choose|a: int| 0 <= a < i && shorten_path(es[a].0, c) == s && r0[s] == #[trigger] shorten_deps(es[a].1, s, c);
                    assert(r@[s] == shorten_deps(es[a].1, s, c));
                }
            }
            assert forall|s: Seq<char>| #[trigger] r@.contains_key(s) implies r@[s] == shorten_deps(
                es[last_shortening_to(tree.key_list(), c, s, i + 1)].1, s, c) by {
                assert(tree.key_list()[i as int] == es[i as int].0);
                if s != sk {
                    assert(r0.contains_key(s));
                }
            }
        }
        i = i + 1;
    }
    proof {
        assert forall|s: Seq<char>| r@.dom().contains(s) == tree@.dom().map(|k: Seq<char>| shorten_path(k, c)).contains(s) by {
            if r@.contains_key(s) {
                let a = choose|a: int| 0 <= a < i && shorten_path(es[a].0, c) == s;
                assert(tree.key_list()[a] == es[a].0);
                assert(tree@.dom().contains(es[a].0));
            }
            if tree@.dom().map(|k: Seq<char>| shorten_path(k, c)).contains(s) {
                let k = choose|k: Seq<char>| tree@.dom().contains(k) && shorten_path(k, c) == s;
                let a = choose|a: int| 0 <= a < tree.key_list().len() && tree.key_list()[a] == k;
                assert(es[a].0 == k);
            }
        }
        assert(r@.dom() =~= tree@.dom().map(|k: Seq<char>| shorten_path(k, c)));
        assert forall|s: Seq<char>| #[trigger] r@.contains_key(s) implies r@[s] == shorten_deps(
            tree@[tree.key_list()[last_shortening_to(tree.key_list(), c, s, n as int)]], s, c) by {
            let a = choose|a: int| 0 <= a < i && shorten_path(es[a].0, c) == s && r@[s] == #[trigger] shorten_deps(es[a].1, s, c);
            assert(tree.key_list()[a] == es[a].0);
            lemma_last_shortening_to(tree.key_list(), c, s, n as int, a);
            let l = last_shortening_to(tree.key_list(), c, s, n as int);
            assert(tree.key_list()[l] == es[l].0);
            assert(tree@[es[l].0] == es[l].1);
        }
    }
    r
}

} // verus!

verus! {

/// The directory that requests of module `k` are resolved from: its parent,
/// or `.` when it has none.
pub open spec fn request_context(k: Seq<char>) -> Seq<char> {
    match std_parent(k) {
        Some(p) => p,
        None => seq!['.'],
    }
}

/// The unresolved requests of one module, each with the module and the
/// directory it is resolved from.
pub open spec fn unresolved_in(k: Seq<char>, o: Option<Seq<DependencyView>>) -> Seq<(Seq<char>, Seq<char>, Seq<char>)> {
    match o {
        Some(ds) => ds.filter_map(|d: DependencyView| if d.id is None {
            Some((k, d.request, request_context(k)))
        } else {
            None
        }),
        None => Seq::empty(),
    }
}

/// The unresolved requests of a list of entries, entry by entry.
pub open spec fn unresolved_of(es: Seq<(Seq<char>, Option<Seq<DependencyView>>)>) -> Seq<(Seq<char>, Seq<char>, Seq<char>)>
    decreases es.len(),
{
    if es.len() == 0 {
        Seq::empty()
    } else {
        unresolved_of(es.drop_last()) + unresolved_in(es.last().0, es.last().1)
    }
}

/// The views of a list of string triples.
pub open spec fn triples_view(v: Seq<(String, String, String)>) -> Seq<(Seq<char>, Seq<char>, Seq<char>)> {
    v.map_values(|t: (String, String, String)| (t.0@, t.1@, t.2@))
}

/// Every dependency of the tree without a resolved id, as (module,
/// request, directory to resolve from), module by module in the tree's order.
pub fn unresolved_requests(tree: &DependencyTree) -> (r: Vec<(String, String, String)>)
    ensures
        triples_view(r@) == unresolved_of(tree.entry_list()),
{
    let ghost es = tree.entry_list();
    let mut r: Vec<(String, String, String)> = Vec::new();
    let n = tree.len();
    let mut i: usize = 0;
    while i < n
        invariant
            es == tree.entry_list(),
            n == es.len(),
            i <= n,
            triples_view(r@) == unresolved_of(es.subrange(0, i as int)),
        decreases n - i,
    {
        let (key, deps_opt) = tree.entry_at(i);
        let ghost r0 = triples_view(r@);
        match deps_opt {
            Some(deps) => {
                let context = match parent(key.as_str()) {
                    Some(p) => p,
                    None => crate::text::owned("."),
                };
                proof {
                    reveal_strlit(".");
                    assert(context@ == request_context(key@));
                }
                let ghost dv = deps_view(deps@);
                let ghost f = |d: DependencyView| if d.id is None {
                    Some((key@, d.request, request_context(key@)))
                } else {
                    None::<(Seq<char>, Seq<char>, Seq<char>)>
                };
                let mut j: usize = 0;
                while j < deps.len()
                    invariant
                        dv == deps_view(deps@),
                        j <= deps@.len(),
                        context@ == request_context(key@),
                        triples_view(r@) == r0 + dv.subrange(0, j as int).filter_map(f),
                        f == (|d: DependencyView| if d.id is None {
                            Some((key@, d.request, request_context(key@)))
                        } else {
                            None::<(Seq<char>, Seq<char>, Seq<char>)>
                        }),
                    decreases deps@.len() - j,
                {
                    let ghost before = triples_view(r@);
                    let ghost sub = dv.subrange(0, j as int);
                    let ghost sub1 = dv.subrange(0, j + 1);
                    proof {
                        assert(sub1.drop_last() =~= sub);
                        assert(sub1.last() == dv[j as int]);
                        assert(dv[j as int] == deps@[j as int]@);
                    }
                    if deps[j].id.is_none() {
                        r.push((key.clone(), deps[j].request.clone(), context.clone()));
                        proof {
                            assert(triples_view(r@) =~= before.push((key@, deps@[j as int].request@, context@)));
                            assert(sub1.filter_map(f) =~= sub.filter_map(f) + seq![(key@, dv[j as int].request, request_context(key@))]);
                        }
                    } else {
                        proof {
                            assert(sub1.filter_map(f) == sub.filter_map(f));
                        }
                    }
                    j = j + 1;
                }
                proof {
                    assert(dv.subrange(0, j as int) =~= dv);
                    assert(es[i as int].0 == key@);
                    assert(es[i as int].1 == Some(dv));
                }
            },
            None => {},
        }
        proof {
            let s1 = es.subrange(0, i + 1);
            assert(s1.drop_last() =~= es.subrange(0, i as int));
            assert(s1.last() == es[i as int]);
            assert(es[i as int].0 == key@);
        }
        i = i + 1;
    }
    proof {
        assert(es.subrange(0, i as int) =~= es);
    }
    r
}

} // verus!

verus! {

/// `j` is the first dependency of `ds` written as `req`.
pub open spec fn is_first_request(ds: Seq<DependencyView>, req: Seq<char>, j: int) -> bool {
    0 <= j < ds.len() && ds[j].request == req && forall|a: int| 0 <= a < j ==> ds[a].request != req
}

/// `ds` with the first dependency written as `req` resolved to `id`
/// (unchanged when there is none).
pub open spec fn resolve_first(ds: Seq<DependencyView>, req: Seq<char>, id: Seq<char>) -> Seq<DependencyView> {
    if exists|j: int| is_first_request(ds, req, j) {
        let j = choose|j: int| is_first_request(ds, req, j);
        ds.update(j, DependencyView { issuer: ds[j].issuer, request: ds[j].request, kind: ds[j].kind, id: Some(id) })
    } else {
        ds
    }
}

/// The tree after writing back one resolution (module, request, id): the
/// first dependency of the module written as the request gets the id; a
/// module that is absent or was not parsed is left as it is.
pub open spec fn apply_resolution(
    t: Map<Seq<char>, Option<Seq<DependencyView>>>,
    res: (Seq<char>, Seq<char>, Seq<char>),
) -> Map<Seq<char>, Option<Seq<DependencyView>>> {
    if t.contains_key(res.0) && t[res.0] is Some {
        t.insert(res.0, Some(resolve_first(t[res.0]->0, res.1, res.2)))
    } else {
        t
    }
}

/// The tree after writing back each resolution in turn.
pub open spec fn apply_resolutions_spec(
    t: Map<Seq<char>, Option<Seq<DependencyView>>>,
    rs: Seq<(Seq<char>, Seq<char>, Seq<char>)>,
) -> Map<Seq<char>, Option<Seq<DependencyView>>>
    decreases rs.len(),
{
    if rs.len() == 0 {
        t
    } else {
        apply_resolution(apply_resolutions_spec(t, rs.drop_last()), rs.last())
    }
}

/// The position of the first dependency written as `request`, if any.
fn first_request(deps: &Vec<Dependency>, request: &str) -> (r: Option<usize>)
    ensures
        match r {
            Some(j) => is_first_request(deps_view(deps@), request@, j as int),
            None => !exists|j: int| is_first_request(deps_view(deps@), request@, j),
        },
{
    let ghost dv = deps_view(deps@);
    let mut j: usize = 0;
    while j < deps.len()
        invariant
            dv == deps_view(deps@),
            j <= deps@.len(),
            forall|a: int| 0 <= a < j ==> dv[a].request != request@,
        decreases deps@.len() - j,
    {
        if crate::text::str_eq(deps[j].request.as_str(), request) {
            assert(dv[j as int] == deps@[j as int]@);
            return Some(j);
        }
        assert(dv[j as int] == deps@[j as int]@);
        j = j + 1;
    }
    proof {
        assert forall|k: int| !is_first_request(dv, request@, k) by {
            if 0 <= k < dv.len() {
                assert(dv[k].request != request@);
            }
        }
    }
    None
}

/// Writes back one resolution: the first dependency of `file_id` written as
/// `request` gets `resolved_id`.
fn apply_resolution_exec(tree: &mut DependencyTree, file_id: &String, request: &String, resolved_id: &String)
    ensures
        final(tree)@ == apply_resolution(old(tree)@, (file_id@, request@, resolved_id@)),
{
    let found = match tree.get(file_id.as_str()) {
        Some(Some(deps)) => {
            let mut nd = crate::types::clone_deps(deps);
            match first_request(deps, request.as_str()) {
                Some(j) => {
                    let d = Dependency {
                        issuer: nd[j].issuer.clone(),
                        request: nd[j].request.clone(),
                        kind: nd[j].kind,
                        id: Some(resolved_id.clone()),
                    };
                    let ghost before = nd@;
                    nd.set(j, d);
                    proof {
                        assert(deps_view(nd@) =~= deps_view(before).update(j as int, d@));
                    }
                },
                None => {},
            }
            Some(nd)
        },
        _ => None,
    };
    match found {
        Some(nd) => {
            tree.insert(file_id.clone(), Some(nd));
        },
        None => {},
    }
}

/// Writes back each resolution (module, request, id) in turn: the first
/// dependency of the module written as the request gets the id.
pub fn apply_resolutions(tree: &mut DependencyTree, resolutions: &Vec<(String, String, String)>)
    ensures
        final(tree)@ == apply_resolutions_spec(old(tree)@, triples_view(resolutions@)),
{
    let ghost rs = triples_view(resolutions@);
    let mut i: usize = 0;
    while i < resolutions.len()
        invariant
            rs == triples_view(resolutions@),
            i <= resolutions@.len(),
            tree@ == apply_resolutions_spec(old(tree)@, rs.subrange(0, i as int)),
        decreases resolutions@.len() - i,
    {
        let (file_id, request, resolved_id) = &resolutions[i];
        apply_resolution_exec(tree, file_id, request, resolved_id);
        proof {
            let s1 = rs.subrange(0, i + 1);
            assert(s1.drop_last() =~= rs.subrange(0, i as int));
            assert(s1.last() == rs[i as int]);
        }
        i = i + 1;
    }
    proof {
        assert(rs.subrange(0, i as int) =~= rs);
    }
}

/// The views of resolution results: a position and, where the request
/// there was resolved, its id.
pub open spec fn results_view(v: Seq<(usize, Option<String>)>) -> Seq<(usize, Option<Seq<char>>)> {
    v.map_values(|r: (usize, Option<String>)| (r.0, crate::types::opt_str_view(r.1)))
}

/// The dependencies with each resolved result written back in turn: the
/// dependency at the result's position gets the id; results without an id,
/// or at no position of the list, change nothing.
pub open spec fn with_resolved_ids(ds: Seq<DependencyView>, rs: Seq<(usize, Option<Seq<char>>)>) -> Seq<DependencyView>
    decreases rs.len(),
{
    if rs.len() == 0 {
        ds
    } else {
        let d = with_resolved_ids(ds, rs.drop_last());
        let r = rs.last();
        match r.1 {
            Some(id) => if r.0 < d.len() {
                d.update(r.0 as int, DependencyView { issuer: d[r.0 as int].issuer, request: d[r.0 as int].request, kind: d[r.0 as int].kind, id: Some(id) })
            } else {
                d
            },
            None => d,
        }
    }
}

/// Writes the resolved ids of `results` back into the dependencies of one
/// module (see [`with_resolved_ids`]).
pub fn set_resolved_ids(deps: &mut Vec<Dependency>, results: &Vec<(usize, Option<String>)>)
    ensures
        deps_view(final(deps)@) == with_resolved_ids(deps_view(old(deps)@), results_view(results@)),
{
    let ghost rv = results_view(results@);
    let mut k: usize = 0;
    proof {
        assert(rv.subrange(0, 0) =~= Seq::<(usize, Option<Seq<char>>)>::empty());
    }
    while k < results.len()
        invariant
            k <= results@.len(),
            rv == results_view(results@),
            deps_view(deps@) == with_resolved_ids(deps_view(old(deps)@), rv.subrange(0, k as int)),
        decreases results@.len() - k,
    {
        let ghost d0 = deps_view(deps@);
        proof {
            assert(rv.subrange(0, k + 1).drop_last() =~= rv.subrange(0, k as int));
            assert(rv.subrange(0, k + 1).last() == rv[k as int]);
        }
        let i = results[k].0;
        match &results[k].1 {
            Some(id) => {
                if i < deps.len() {
                    let old_dep = deps[i].clone();
                    let nd = Dependency {
                        issuer: old_dep.issuer,
                        request: old_dep.request,
                        kind: old_dep.kind,
                        id: Some(crate::text::owned(id.as_str())),
                    };
                    deps.set(i, nd);
                    assert(deps_view(deps@) =~= d0.update(i as int, DependencyView {
                        issuer: d0[i as int].issuer,
                        request: d0[i as int].request,
                        kind: d0[i as int].kind,
                        id: Some(id@),
                    }));
                }
            },
            None => {},
        }
        k = k + 1;
    }
    assert(rv.subrange(0, results@.len() as int) =~= rv);
}

} // verus!
