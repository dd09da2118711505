//! Detection of circular dependencies: a depth-first search over the
//! dependency tree that reports each cycle it closes once, in a canonical
//! rotation and direction.
use vstd::prelude::*;
use vstd::hash_map::StringHashMap;
use vstd::hash_set::StringHashSet;
use crate::text::{chars_of, extend_chars, lex_le, lex_le_exec};
use crate::types::{DependencyKind, DependencyTree, DependencyView, EntryView, SkipDynamicImports, strs_view};

verus! {

broadcast use vstd::hash_map::group_hash_map_axioms;

/// The dependency tree as a map from module id to its dependencies.
pub type TreeMap = Map<Seq<char>, Option<Seq<DependencyView>>>;

/// Whether a dependency takes part in cycle detection: dynamic imports are
/// left out when `skip` is `Circular`.
pub open spec fn considered(d: DependencyView, skip: SkipDynamicImports) -> bool {
    !(skip == SkipDynamicImports::Circular && d.kind == DependencyKind::DynamicImport)
}

/// Whether the `j`-th dependency of `u` leads to `v`.
pub open spec fn edge_at(t: TreeMap, skip: SkipDynamicImports, u: Seq<char>, j: int, v: Seq<char>) -> bool {
    &&& t.contains_key(u)
    &&& t[u] is Some
    &&& 0 <= j < t[u]->0.len()
    &&& t[u]->0[j].id == Some(v)
    &&& considered(t[u]->0[j], skip)
}

/// `u` depends on `v`: some considered dependency of `u` resolved to `v`.
pub open spec fn has_edge(t: TreeMap, skip: SkipDynamicImports, u: Seq<char>, v: Seq<char>) -> bool {
    exists|j: int| edge_at(t, skip, u, j, v)
}

/// Consecutive elements of `p` depend on each other.
pub open spec fn is_path(t: TreeMap, skip: SkipDynamicImports, p: Seq<Seq<char>>) -> bool {
    forall|i: int| 0 <= i < p.len() - 1 ==> #[trigger] has_edge(t, skip, p[i], p[i + 1])
}

/// `c` is a closed walk: a non-empty path whose last element depends on
/// its first (ids may repeat).
pub open spec fn is_closed_walk(t: TreeMap, skip: SkipDynamicImports, c: Seq<Seq<char>>) -> bool {
    &&& c.len() > 0
    &&& is_path(t, skip, c)
    &&& has_edge(t, skip, c.last(), c[0])
}

/// `c` is a simple cycle: a closed walk through pairwise distinct ids.
pub open spec fn is_simple_cycle(t: TreeMap, skip: SkipDynamicImports, c: Seq<Seq<char>>) -> bool {
    is_closed_walk(t, skip, c) && c.no_duplicates()
}

/// The tree has no closed walk (and so no cycle).
pub open spec fn acyclic(t: TreeMap, skip: SkipDynamicImports) -> bool {
    forall|c: Seq<Seq<char>>| !is_closed_walk(t, skip, c)
}

/// The parts joined with `sep` between them (std `join`).
pub open spec fn join(parts: Seq<Seq<char>>, sep: Seq<char>) -> Seq<char>
    decreases parts.len(),
{
    if parts.len() == 0 {
        Seq::empty()
    } else if parts.len() == 1 {
        parts[0]
    } else {
        join(parts.drop_last(), sep) + sep + parts.last()
    }
}

/// The separator of the text key of a cycle.
pub open spec fn arrow() -> Seq<char> {
    seq!['-', '>']
}

/// The text key of a cycle: its ids joined by `->`.
pub open spec fn cycle_key(c: Seq<Seq<char>>) -> Seq<char> {
    join(c, arrow())
}

/// `c` rotated left by `i` (std `rotate_left`).
pub open spec fn rotate(c: Seq<Seq<char>>, i: int) -> Seq<Seq<char>> {
    c.subrange(i, c.len() as int) + c.subrange(0, i)
}

/// Among the rotations by `0..k`, the one whose key is greatest; of equal
/// keys, the later rotation.
pub open spec fn best_rotation(c: Seq<Seq<char>>, k: nat) -> int
    decreases k,
{
    if k <= 1 {
        0
    } else {
        let b = best_rotation(c, (k - 1) as nat);
        if lex_le(cycle_key(rotate(c, b)), cycle_key(rotate(c, k - 1))) {
            k - 1
        } else {
            b
        }
    }
}

/// The rotation of `c` that the analysis keeps.
pub open spec fn max_rotation(c: Seq<Seq<char>>) -> Seq<Seq<char>> {
    rotate(c, best_rotation(c, c.len()))
}

/// The canonical form of a cycle: the kept rotation of the cycle or of its
/// reverse, whichever key is smaller (the forward one on equal keys).
pub open spec fn canonical(c: Seq<Seq<char>>) -> Seq<Seq<char>> {
    let f = max_rotation(c);
    let b = max_rotation(c.reverse());
    if lex_le(cycle_key(f), cycle_key(b)) {
        f
    } else {
        b
    }
}

/// The views of a list of cycles.
pub open spec fn cycles_view(v: Seq<Vec<String>>) -> Seq<Seq<Seq<char>>> {
    v.map_values(|c: Vec<String>| strs_view(c@))
}

proof fn lemma_best_rotation_range(c: Seq<Seq<char>>, k: nat)
    ensures
        k >= 1 ==> 0 <= best_rotation(c, k) < k,
        k == 0 ==> best_rotation(c, k) == 0,
    decreases k,
{
    if k > 1 {
        lemma_best_rotation_range(c, (k - 1) as nat);
    }
}

/// The strings of `parts` joined with `sep` between them.
pub fn join_with(parts: &Vec<String>, sep: &Vec<char>) -> (r: Vec<char>)
    ensures
        r@ == join(strs_view(parts@), sep@),
{
    let mut out: Vec<char> = Vec::new();
    let mut i: usize = 0;
    while i < parts.len()
        invariant
            i <= parts@.len(),
            out@ == join(strs_view(parts@).subrange(0, i as int), sep@),
        decreases parts@.len() - i,
    {
        let ghost pre = strs_view(parts@).subrange(0, i as int);
        let ghost next = strs_view(parts@).subrange(0, i + 1);
        assert(next.drop_last() =~= pre);
        assert(next.last() == parts@[i as int]@);
        if i > 0 {
            extend_chars(&mut out, sep.as_slice());
            assert(out@ =~= join(pre, sep@) + sep@);
        } else {
            assert(pre.len() == 0);
        }
        let part = chars_of(parts[i].as_str());
        extend_chars(&mut out, &part);
        if i == 0 {
            assert(next.len() == 1);
            assert(out@ =~= next[0]);
        }
        i = i + 1;
    }
    assert(strs_view(parts@).subrange(0, parts@.len() as int) =~= strs_view(parts@));
    out
}

/// The ids of a cycle joined by `->`.
pub fn join_arrow(parts: &Vec<String>) -> (r: Vec<char>)
    ensures
        r@ == cycle_key(strs_view(parts@)),
{
    let sep: Vec<char> = vec!['-', '>'];
    assert(sep@ =~= arrow());
    join_with(parts, &sep)
}

/// `v` rotated left by `k`.
pub fn rotate_exec(v: &Vec<String>, k: usize) -> (r: Vec<String>)
    requires
        k <= v@.len(),
    ensures
        strs_view(r@) == rotate(strs_view(v@), k as int),
{
    let mut r: Vec<String> = Vec::new();
    let mut i = k;
    while i < v.len()
        invariant
            k <= i <= v@.len(),
            strs_view(r@) == strs_view(v@).subrange(k as int, i as int),
        decreases v@.len() - i,
    {
        let s = v[i].clone();
        let ghost before = r@;
        r.push(s);
        assert(strs_view(r@) =~= strs_view(before).push(s@));
        assert(strs_view(v@).subrange(k as int, i + 1) =~= strs_view(v@).subrange(k as int, i as int).push(v@[i as int]@));
        i = i + 1;
    }
    let mut j: usize = 0;
    let ghost first = strs_view(r@);
    while j < k
        invariant
            j <= k <= v@.len(),
            strs_view(r@) == first + strs_view(v@).subrange(0, j as int),
        decreases k - j,
    {
        let s = v[j].clone();
        let ghost before = r@;
        r.push(s);
        assert(strs_view(r@) =~= strs_view(before).push(s@));
        assert(strs_view(v@).subrange(0, j + 1) =~= strs_view(v@).subrange(0, j as int).push(v@[j as int]@));
        j = j + 1;
    }
    r
}

/// The kept rotation of `v` (see [`max_rotation`]).
pub fn max_rotation_exec(v: &Vec<String>) -> (r: Vec<String>)
    requires
        v@.len() > 0,
    ensures
        strs_view(r@) == max_rotation(strs_view(v@)),
{
    let ghost c = strs_view(v@);
    let mut best: usize = 0;
    let mut best_rot = rotate_exec(v, 0);
    let mut best_key = join_arrow(&best_rot);
    let mut i: usize = 1;
    while i < v.len()
        invariant
            c == strs_view(v@),
            1 <= i <= v@.len(),
            best == best_rotation(c, i as nat),
            strs_view(best_rot@) == rotate(c, best as int),
            best_key@ == cycle_key(rotate(c, best as int)),
        decreases v@.len() - i,
    {
        let r = rotate_exec(v, i);
        let key = join_arrow(&r);
        if lex_le_exec(&best_key, &key) {
            best = i;
            best_rot = r;
            best_key = key;
        }
        i = i + 1;
    }
    best_rot
}

/// The reverse of `v`.
pub fn reverse_exec(v: &Vec<String>) -> (r: Vec<String>)
    ensures
        strs_view(r@) == strs_view(v@).reverse(),
{
    let mut r: Vec<String> = Vec::new();
    let mut i = v.len();
    while i > 0
        invariant
            i <= v@.len(),
            strs_view(r@) == strs_view(v@).subrange(i as int, v@.len() as int).reverse(),
        decreases i,
    {
        i = i - 1;
        let s = v[i].clone();
        let ghost before = r@;
        r.push(s);
        assert(strs_view(r@) =~= strs_view(before).push(s@));
        assert(strs_view(v@).subrange(i as int, v@.len() as int).reverse() =~= strs_view(v@).subrange(i + 1, v@.len() as int).reverse().push(v@[i as int]@));
    }
    assert(strs_view(v@).subrange(0, v@.len() as int) =~= strs_view(v@));
    r
}

/// The canonical form of a non-empty cycle (see [`canonical`]) with its key.
pub fn canonicalize(cyc: &Vec<String>) -> (r: (Vec<String>, Vec<char>))
    requires
        cyc@.len() > 0,
    ensures
        strs_view(r.0@) == canonical(strs_view(cyc@)),
        r.1@ == cycle_key(canonical(strs_view(cyc@))),
{
    let forward = max_rotation_exec(cyc);
    let rev = reverse_exec(cyc);
    assert(strs_view(rev@).len() == rev@.len() && strs_view(cyc@).len() == cyc@.len());
    let backward = max_rotation_exec(&rev);
    let forward_key = join_arrow(&forward);
    let backward_key = join_arrow(&backward);
    if lex_le_exec(&forward_key, &backward_key) {
        (forward, forward_key)
    } else {
        (backward, backward_key)
    }
}

/// The resolved ids among a list of dependencies, in order.
pub open spec fn dep_ids(ds: Seq<DependencyView>) -> Seq<Seq<char>>
    decreases ds.len(),
{
    if ds.len() == 0 {
        Seq::empty()
    } else {
        dep_ids(ds.drop_last()) + match ds.last().id {
            Some(v) => seq![v],
            None => Seq::empty(),
        }
    }
}

/// The ids that one entry mentions: its key and its resolved dependencies.
pub open spec fn entry_nodes(e: EntryView) -> Seq<Seq<char>> {
    seq![e.0] + match e.1 {
        Some(ds) => dep_ids(ds),
        None => Seq::empty(),
    }
}

/// All ids that a list of entries mentions.
pub open spec fn all_nodes(es: Seq<EntryView>) -> Seq<Seq<char>>
    decreases es.len(),
{
    if es.len() == 0 {
        Seq::empty()
    } else {
        all_nodes(es.drop_last()) + entry_nodes(es.last())
    }
}

/// All ids that a tree mentions.
pub open spec fn universe(t: DependencyTree) -> Set<Seq<char>> {
    all_nodes(t.entry_list()).to_set()
}

proof fn lemma_dep_ids_contains(ds: Seq<DependencyView>, j: int)
    requires
        0 <= j < ds.len(),
        ds[j].id is Some,
    ensures
        dep_ids(ds).contains(ds[j].id->0),
    decreases ds.len(),
{
    let v = ds[j].id->0;
    if j == ds.len() - 1 {
        let tail = seq![v];
        assert((dep_ids(ds.drop_last()) + tail)[dep_ids(ds.drop_last()).len() as int] == v);
    } else {
        assert(ds.drop_last()[j] == ds[j]);
        lemma_dep_ids_contains(ds.drop_last(), j);
        let k = choose|k: int| 0 <= k < dep_ids(ds.drop_last()).len() && dep_ids(ds.drop_last())[k] == v;
        let tail = match ds.last().id {
            Some(w) => seq![w],
            None => Seq::<Seq<char>>::empty(),
        };
        assert((dep_ids(ds.drop_last()) + tail)[k] == v);
    }
}

proof fn lemma_all_nodes_contains(es: Seq<EntryView>, i: int)
    requires
        0 <= i < es.len(),
    ensures
        all_nodes(es).contains(es[i].0),
        forall|j: int| #![trigger es[i].1->0[j]] es[i].1 is Some && 0 <= j < es[i].1->0.len() && es[i].1->0[j].id is Some
            ==> all_nodes(es).contains(es[i].1->0[j].id->0),
    decreases es.len(),
{
    let pre = all_nodes(es.drop_last());
    if i == es.len() - 1 {
        let en = entry_nodes(es[i]);
        assert((pre + en)[pre.len() as int] == es[i].0);
        assert forall|j: int| #![trigger es[i].1->0[j]] es[i].1 is Some && 0 <= j < es[i].1->0.len() && es[i].1->0[j].id is Some
            implies all_nodes(es).contains(es[i].1->0[j].id->0) by {
            let ds = es[i].1->0;
            lemma_dep_ids_contains(ds, j);
            let k = choose|k: int| 0 <= k < dep_ids(ds).len() && dep_ids(ds)[k] == ds[j].id->0;
            assert(en[k + 1] == ds[j].id->0);
            assert((pre + en)[pre.len() + k + 1] == ds[j].id->0);
        }
    } else {
        assert(es.drop_last()[i] == es[i]);
        lemma_all_nodes_contains(es.drop_last(), i);
        let en = entry_nodes(es.last());
        let k = choose|k: int| 0 <= k < pre.len() && pre[k] == es[i].0;
        assert((pre + en)[k] == es[i].0);
        assert forall|j: int| #![trigger es[i].1->0[j]] es[i].1 is Some && 0 <= j < es[i].1->0.len() && es[i].1->0[j].id is Some
            implies all_nodes(es).contains(es[i].1->0[j].id->0) by {
            assert(es.drop_last()[i].1->0[j] == es[i].1->0[j]);
            let k2 = choose|k2: int| 0 <= k2 < pre.len() && pre[k2] == es[i].1->0[j].id->0;
            assert((pre + en)[k2] == es[i].1->0[j].id->0);
        }
    }
}

/// Both ends of an edge of a tree lie in its universe.
proof fn lemma_edge_in_universe(t: DependencyTree, skip: SkipDynamicImports, u: Seq<char>, v: Seq<char>)
    requires
        t.keys_distinct(),
        has_edge(t@, skip, u, v),
    ensures
        universe(t).contains(u),
        universe(t).contains(v),
{
    DependencyTree::lemma_view(t);
    let j = choose|j: int| edge_at(t@, skip, u, j, v);
    assert(t.key_list().to_set().contains(u));
    let i = choose|i: int| 0 <= i < t.key_list().len() && t.key_list()[i] == u;
    let es = t.entry_list();
    assert(t@[es[i].0] == es[i].1);
    lemma_all_nodes_contains(es, i);
    assert(es[i].1->0[j].id == Some(v));
}

/// The dependencies of every module id of the tree are at the recorded
/// position of the entries.
pub open spec fn index_ok(index: Map<Seq<char>, usize>, t: DependencyTree) -> bool {
    &&& forall|k: Seq<char>| #[trigger] index.contains_key(k) <==> t@.contains_key(k)
    &&& forall|k: Seq<char>| #[trigger] index.contains_key(k) ==> index[k] < t.entry_list().len()
        && t.entry_list()[index[k] as int].0 == k
}

/// Builds the position index of the tree's module ids.
fn build_index(tree: &DependencyTree) -> (index: StringHashMap<usize>)
    ensures
        index_ok(index@, *tree),
{
    proof {
        use_type_invariant(tree);
        DependencyTree::lemma_view(*tree);
    }
    let mut index: StringHashMap<usize> = StringHashMap::new();
    let n = tree.len();
    let mut i: usize = 0;
    while i < n
        invariant
            n == tree.entry_list().len(),
            i <= n,
            tree.keys_distinct(),
            tree@.dom() == tree.key_list().to_set(),
            forall|k: Seq<char>| #[trigger] index@.contains_key(k) <==> tree.key_list().subrange(0, i as int).contains(k),
            forall|k: Seq<char>| #[trigger] index@.contains_key(k) ==> index@[k] < i
                && tree.entry_list()[index@[k] as int].0 == k,
        decreases n - i,
    {
        let (key, _) = tree.entry_at(i);
        let ghost old_index = index@;
        index.insert(key.clone(), i);
        proof {
            assert(tree.key_list()[i as int] == key@);
            let pre = tree.key_list().subrange(0, i as int);
            assert(tree.key_list().subrange(0, i + 1) =~= pre.push(key@));
            assert forall|k: Seq<char>| #[trigger] index@.contains_key(k) <==> tree.key_list().subrange(0, i + 1).contains(k) by {
                if k == key@ {
                    assert(pre.push(key@)[i as int] == key@);
                } else {
                    if pre.push(key@).contains(k) {
                        let j = choose|j: int| 0 <= j < pre.push(key@).len() && pre.push(key@)[j] == k;
                        assert(pre[j] == k);
                    }
                    if pre.contains(k) {
                        let j = choose|j: int| 0 <= j < pre.len() && pre[j] == k;
                        assert(pre.push(key@)[j] == k);
                    }
                }
            }
            assert forall|k: Seq<char>| #[trigger] index@.contains_key(k) implies index@[k] < i + 1
                && tree.entry_list()[index@[k] as int].0 == k by {
                if k != key@ {
                    assert(old_index.contains_key(k));
                }
            }
        }
        i = i + 1;
    }
    proof {
        assert(tree.key_list().subrange(0, n as int) =~= tree.key_list());
        assert forall|k: Seq<char>| #[trigger] index@.contains_key(k) <==> tree@.contains_key(k) by {
        }
    }
    index
}

proof fn lemma_rotate_no_duplicates(c: Seq<Seq<char>>, i: int)
    requires
        c.no_duplicates(),
        0 <= i <= c.len(),
    ensures
        rotate(c, i).no_duplicates(),
{
    let r = rotate(c, i);
    let n = c.len() as int;
    assert forall|a: int, b: int| 0 <= a < b < r.len() implies r[a] != r[b] by {
        let ia = if a < n - i { a + i } else { a - (n - i) };
        let ib = if b < n - i { b + i } else { b - (n - i) };
        assert(r[a] == c[ia]);
        assert(r[b] == c[ib]);
        assert(ia != ib);
    }
}

proof fn lemma_reverse_no_duplicates(c: Seq<Seq<char>>)
    requires
        c.no_duplicates(),
    ensures
        c.reverse().no_duplicates(),
{
    let r = c.reverse();
    assert forall|a: int, b: int| 0 <= a < b < r.len() implies r[a] != r[b] by {
        assert(r[a] == c[c.len() - 1 - a]);
        assert(r[b] == c[c.len() - 1 - b]);
    }
}

/// The canonical form of a cycle through distinct ids has distinct ids.
proof fn lemma_canonical_no_duplicates(c: Seq<Seq<char>>)
    requires
        c.no_duplicates(),
    ensures
        canonical(c).no_duplicates(),
{
    lemma_best_rotation_range(c, c.len());
    lemma_rotate_no_duplicates(c, best_rotation(c, c.len()));
    lemma_reverse_no_duplicates(c);
    lemma_best_rotation_range(c.reverse(), c.reverse().len());
    lemma_rotate_no_duplicates(c.reverse(), best_rotation(c.reverse(), c.reverse().len()));
}

/// `s` holds the key separator `->`.
pub open spec fn has_arrow(s: Seq<char>) -> bool {
    exists|p: int| 0 <= p < s.len() - 1 && #[trigger] s[p] == '-' && s[p + 1] == '>'
}

/// No id of `c` holds the key separator.
pub open spec fn no_arrows(c: Seq<Seq<char>>) -> bool {
    forall|k: int| 0 <= k < c.len() ==> !has_arrow(#[trigger] c[k])
}

/// `y` is the cycle `x` entered at another id, or read the other way.
pub open spec fn same_cycle(x: Seq<Seq<char>>, y: Seq<Seq<char>>) -> bool {
    exists|a: int| #![trigger rotate(x, a)] #![trigger rotate(x.reverse(), a)]
        0 <= a < x.len() && (y == rotate(x, a) || y == rotate(x.reverse(), a))
}

/// Where no id holds the separator, lists of the same length with the same
/// key are equal.
proof fn lemma_join_injective(a: Seq<Seq<char>>, b: Seq<Seq<char>>)
    requires
        a.len() == b.len(),
        a.len() > 0,
        no_arrows(a),
        no_arrows(b),
        join(a, arrow()) == join(b, arrow()),
    ensures
        a == b,
    decreases a.len(),
{
    if a.len() == 1 {
        assert(a =~= b);
    } else {
        let j = join(a, arrow());
        let pa = join(a.drop_last(), arrow()).len() as int;
        let pb = join(b.drop_last(), arrow()).len() as int;
        assert(j == join(a.drop_last(), arrow()) + arrow() + a.last());
        assert(j == join(b.drop_last(), arrow()) + arrow() + b.last());
        assert(j[pa] == '-' && j[pa + 1] == '>');
        assert(j[pb] == '-' && j[pb + 1] == '>');
        if pa < pb {
            assert(!has_arrow(a.last())) by {
                assert(a[a.len() - 1] == a.last());
            }
            if pb == pa + 1 {
                assert(j[pb] == '>');
            } else {
                let p = pb - pa - 2;
                assert(a.last()[p] == j[pb] && a.last()[p + 1] == j[pb + 1]);
            }
        }
        if pb < pa {
            assert(!has_arrow(b.last())) by {
                assert(b[b.len() - 1] == b.last());
            }
            if pa == pb + 1 {
                assert(j[pa] == '>');
            } else {
                let p = pa - pb - 2;
                assert(b.last()[p] == j[pa] && b.last()[p + 1] == j[pa + 1]);
            }
        }
        assert(pa == pb);
        assert(a.last() =~= j.subrange(pa + 2, j.len() as int));
        assert(b.last() =~= j.subrange(pb + 2, j.len() as int));
        assert(join(a.drop_last(), arrow()) =~= j.subrange(0, pa));
        assert(join(b.drop_last(), arrow()) =~= j.subrange(0, pb));
        assert(no_arrows(a.drop_last())) by {
            assert forall|k: int| 0 <= k < a.drop_last().len() implies !has_arrow(#[trigger] a.drop_last()[k]) by {
                assert(a.drop_last()[k] == a[k]);
            }
        }
        assert(no_arrows(b.drop_last())) by {
            assert forall|k: int| 0 <= k < b.drop_last().len() implies !has_arrow(#[trigger] b.drop_last()[k]) by {
                assert(b.drop_last()[k] == b[k]);
            }
        }
        lemma_join_injective(a.drop_last(), b.drop_last());
        assert(a =~= a.drop_last().push(a.last()));
        assert(b =~= b.drop_last().push(b.last()));
    }
}

proof fn lemma_rotate_index(c: Seq<Seq<char>>, i: int, k: int)
    requires
        0 <= i <= c.len(),
        0 <= k < c.len(),
    ensures
        rotate(c, i).len() == c.len(),
        rotate(c, i)[k] == if i + k < c.len() { c[i + k] } else { c[i + k - c.len()] },
{
}

/// Rotating twice rotates by the sum.
proof fn lemma_rotate_rotate(c: Seq<Seq<char>>, a: int, b: int)
    requires
        0 <= a < c.len(),
        0 <= b < c.len(),
    ensures
        rotate(rotate(c, a), b) == rotate(c, if a + b < c.len() { a + b } else { a + b - c.len() }),
{
    let n = c.len() as int;
    let ab = if a + b < n { a + b } else { a + b - n };
    assert forall|k: int| 0 <= k < n implies #[trigger] rotate(rotate(c, a), b)[k] == rotate(c, ab)[k] by {
        lemma_rotate_index(rotate(c, a), b, k);
        lemma_rotate_index(c, ab, k);
        let m = if b + k < n { b + k } else { b + k - n };
        lemma_rotate_index(c, a, m);
    }
    assert(rotate(rotate(c, a), b) =~= rotate(c, ab));
}

/// A rotated cycle read the other way is a rotation of the cycle read the
/// other way.
proof fn lemma_reverse_rotate(c: Seq<Seq<char>>, a: int)
    requires
        0 <= a < c.len(),
    ensures
        rotate(c, a).reverse() == rotate(c.reverse(), if a == 0 { 0 } else { c.len() - a }),
{
    let n = c.len() as int;
    let b = if a == 0 { 0 } else { n - a };
    assert forall|k: int| 0 <= k < n implies #[trigger] rotate(c, a).reverse()[k] == rotate(c.reverse(), b)[k] by {
        lemma_rotate_index(c, a, n - 1 - k);
        lemma_rotate_index(c.reverse(), b, k);
    }
    assert(rotate(c, a).reverse() =~= rotate(c.reverse(), b));
}

proof fn lemma_lex_refl(a: Seq<char>)
    ensures
        lex_le(a, a),
{
    crate::text::lemma_lex_total(a, a);
}

/// The kept rotation among the first `k` has the greatest key.
proof fn lemma_best_rotation_max(c: Seq<Seq<char>>, k: nat, i: int)
    requires
        0 <= i < k <= c.len(),
    ensures
        lex_le(cycle_key(rotate(c, i)), cycle_key(rotate(c, best_rotation(c, k)))),
    decreases k,
{
    lemma_best_rotation_range(c, k);
    if k == 1 {
        lemma_lex_refl(cycle_key(rotate(c, 0)));
    } else {
        let b = best_rotation(c, (k - 1) as nat);
        lemma_best_rotation_range(c, (k - 1) as nat);
        if lex_le(cycle_key(rotate(c, b)), cycle_key(rotate(c, k - 1))) {
            if i < k - 1 {
                lemma_best_rotation_max(c, (k - 1) as nat, i);
                crate::text::lemma_lex_transitive(cycle_key(rotate(c, i)), cycle_key(rotate(c, b)), cycle_key(rotate(c, k - 1)));
            } else {
                lemma_lex_refl(cycle_key(rotate(c, k - 1)));
            }
        } else {
            crate::text::lemma_lex_total(cycle_key(rotate(c, b)), cycle_key(rotate(c, k - 1)));
            if i < k - 1 {
                lemma_best_rotation_max(c, (k - 1) as nat, i);
            }
        }
    }
}

proof fn lemma_rotate_no_arrows(c: Seq<Seq<char>>, i: int)
    requires
        0 <= i < c.len(),
        no_arrows(c),
    ensures
        no_arrows(rotate(c, i)),
        no_arrows(c.reverse()),
{
    assert forall|k: int| 0 <= k < c.len() implies !has_arrow(#[trigger] rotate(c, i)[k]) by {
        lemma_rotate_index(c, i, k);
    }
    assert forall|k: int| 0 <= k < c.len() implies !has_arrow(#[trigger] c.reverse()[k]) by {
        assert(c.reverse()[k] == c[c.len() - 1 - k]);
    }
}

/// The kept rotation of a cycle has the same key from every rotation of it.
proof fn lemma_max_rotation_key_rotate(c: Seq<Seq<char>>, a: int)
    requires
        0 <= a < c.len(),
    ensures
        cycle_key(max_rotation(rotate(c, a))) == cycle_key(max_rotation(c)),
{
    let n = c.len() as int;
    let d = rotate(c, a);
    lemma_best_rotation_range(c, c.len());
    lemma_best_rotation_range(d, d.len());
    let bc = best_rotation(c, c.len());
    let bd = best_rotation(d, d.len());
    lemma_rotate_rotate(c, a, bd);
    let i = if a + bd < n { a + bd } else { a + bd - n };
    lemma_best_rotation_max(c, c.len(), i);
    let j = if bc >= a { bc - a } else { bc - a + n };
    lemma_rotate_rotate(c, a, j);
    lemma_best_rotation_max(d, d.len(), j);
    crate::text::lemma_lex_antisymmetric(cycle_key(max_rotation(c)), cycle_key(max_rotation(d)));
}

/// The kept rotation of a cycle is the same from every rotation of it,
/// where no id holds the key separator.
proof fn lemma_max_rotation_rotate(c: Seq<Seq<char>>, a: int)
    requires
        0 <= a < c.len(),
        no_arrows(c),
    ensures
        max_rotation(rotate(c, a)) == max_rotation(c),
{
    let n = c.len() as int;
    let d = rotate(c, a);
    lemma_max_rotation_key_rotate(c, a);
    lemma_best_rotation_range(c, c.len());
    lemma_best_rotation_range(d, d.len());
    let bd = best_rotation(d, d.len());
    lemma_rotate_rotate(c, a, bd);
    lemma_rotate_no_arrows(c, best_rotation(c, c.len()));
    lemma_rotate_no_arrows(c, if a + bd < n { a + bd } else { a + bd - n });
    lemma_join_injective(max_rotation(c), max_rotation(d));
}

/// The key of the canonical form of a cycle does not depend on the id at
/// which the cycle is entered or on the direction in which it is read.
pub proof fn lemma_canonical_key_same_cycle(x: Seq<Seq<char>>, y: Seq<Seq<char>>)
    requires
        same_cycle(x, y),
    ensures
        cycle_key(canonical(y)) == cycle_key(canonical(x)),
{
    let n = x.len() as int;
    let a = choose|a: int| #![trigger rotate(x, a)] #![trigger rotate(x.reverse(), a)]
        0 <= a < x.len() && (y == rotate(x, a) || y == rotate(x.reverse(), a));
    let xr = x.reverse();
    assert(xr.reverse() =~= x);
    let kf = cycle_key(max_rotation(x));
    let kb = cycle_key(max_rotation(xr));
    if y == rotate(x, a) {
        lemma_max_rotation_key_rotate(x, a);
        lemma_reverse_rotate(x, a);
        lemma_max_rotation_key_rotate(xr, if a == 0 { 0 } else { n - a });
    } else {
        lemma_max_rotation_key_rotate(xr, a);
        lemma_reverse_rotate(xr, a);
        lemma_max_rotation_key_rotate(x, if a == 0 { 0 } else { n - a });
        crate::text::lemma_lex_total(kf, kb);
        if lex_le(kf, kb) && lex_le(kb, kf) {
            crate::text::lemma_lex_antisymmetric(kf, kb);
        }
    }
}

/// The canonical form of a cycle does not depend on the id at which the
/// cycle is entered or on the direction in which it is read, where no id
/// holds the key separator `->`.
pub proof fn lemma_canonical_same_cycle(x: Seq<Seq<char>>, y: Seq<Seq<char>>)
    requires
        no_arrows(x),
        same_cycle(x, y),
    ensures
        canonical(y) == canonical(x),
{
    let n = x.len() as int;
    let a = choose|a: int| #![trigger rotate(x, a)] #![trigger rotate(x.reverse(), a)]
        0 <= a < x.len() && (y == rotate(x, a) || y == rotate(x.reverse(), a));
    lemma_rotate_no_arrows(x, 0);
    let xr = x.reverse();
    assert(xr.reverse() =~= x);
    let fx = max_rotation(x);
    let bx = max_rotation(xr);
    lemma_best_rotation_range(x, x.len());
    lemma_best_rotation_range(xr, xr.len());
    lemma_rotate_no_arrows(x, best_rotation(x, x.len()));
    lemma_rotate_no_arrows(xr, best_rotation(xr, xr.len()));
    if y == rotate(x, a) {
        lemma_max_rotation_rotate(x, a);
        lemma_reverse_rotate(x, a);
        lemma_max_rotation_rotate(xr, if a == 0 { 0 } else { n - a });
    } else {
        lemma_max_rotation_rotate(xr, a);
        lemma_reverse_rotate(xr, a);
        lemma_max_rotation_rotate(x, if a == 0 { 0 } else { n - a });
        if cycle_key(fx) == cycle_key(bx) {
            lemma_join_injective(fx, bx);
        } else {
            crate::text::lemma_lex_total(cycle_key(fx), cycle_key(bx));
            if lex_le(cycle_key(fx), cycle_key(bx)) && lex_le(cycle_key(bx), cycle_key(fx)) {
                crate::text::lemma_lex_antisymmetric(cycle_key(fx), cycle_key(bx));
            }
        }
    }
}

/// The canonical form of a cycle is the cycle entered at some id, read one
/// way or the other.
proof fn lemma_canonical_is_same_cycle(x: Seq<Seq<char>>)
    requires
        x.len() > 0,
    ensures
        same_cycle(x, canonical(x)),
{
    lemma_best_rotation_range(x, x.len());
    lemma_best_rotation_range(x.reverse(), x.len());
    let b = best_rotation(x, x.len());
    let br = best_rotation(x.reverse(), x.len());
    assert(rotate(x, b) == max_rotation(x));
    assert(rotate(x.reverse(), br) == max_rotation(x.reverse()));
}

/// Whether the search has found as many cycles as it may.
pub open spec fn limit_reached(found: nat, max_count: Option<usize>) -> bool {
    match max_count {
        Some(m) => found >= m,
        None => false,
    }
}

fn limit_reached_exec(found: usize, max_count: Option<usize>) -> (r: bool)
    ensures
        r == limit_reached(found as nat, max_count),
{
    match max_count {
        Some(m) => found >= m,
        None => false,
    }
}

/// The keys of a list of cycles.
pub open spec fn key_set(cs: Seq<Seq<Seq<char>>>) -> Set<Seq<char>> {
    Set::new(|k: Seq<char>| exists|i: int| 0 <= i < cs.len() && cycle_key(cs[i]) == k)
}

/// No two cycles of the list have the same key.
pub open spec fn keys_distinct(cs: Seq<Seq<Seq<char>>>) -> bool {
    forall|i: int, j: int| 0 <= i < j < cs.len() ==> cycle_key(#[trigger] cs[i]) != cycle_key(#[trigger] cs[j])
}

/// Each element of the list is the canonical form of a simple cycle of
/// the tree.
pub open spec fn canonical_cycles(t: TreeMap, skip: SkipDynamicImports, cs: Seq<Seq<Seq<char>>>) -> bool {
    forall|i: int| 0 <= i < cs.len() ==> exists|x: Seq<Seq<char>>| is_simple_cycle(t, skip, x) && #[trigger] cs[i] == canonical(x)
}

/// The state of the search as the specification follows it: the colour of
/// each id met (1 while on the current path, 2 once finished), the current
/// path, and the cycles found so far.
pub type Search = (Map<Seq<char>, u8>, Seq<Seq<char>>, Seq<Seq<Seq<char>>>);

/// The recorded dependencies of `u`, in order (none when `u` is not a
/// module of the tree or has none recorded).
pub open spec fn deps_of(t: TreeMap, u: Seq<char>) -> Seq<DependencyView> {
    if t.contains_key(u) && t[u] is Some {
        t[u]->0
    } else {
        Seq::empty()
    }
}

/// The position of `id` on the path `p`.
pub open spec fn path_pos(p: Seq<Seq<char>>, id: Seq<char>) -> int {
    choose|k: int| 0 <= k < p.len() && p[k] == id
}

/// Records the cycle closed by a dependency on `id`, an id on the path: the
/// path from `id` on, in canonical form, unless a cycle with the same key was
/// found before.
pub open spec fn close_cycle(s: Search, id: Seq<char>) -> Search {
    let c = canonical(s.1.subrange(path_pos(s.1, id), s.1.len() as int));
    if key_set(s.2).contains(cycle_key(c)) {
        s
    } else {
        (s.0, s.1, s.2.push(c))
    }
}

/// Visits `node` from the state `s`: unless the limit is reached, puts it on
/// the path, follows its dependencies and finishes it. `fuel` bounds the depth
/// of the search; it does not run out when it is at least the number of ids
/// not yet met.
pub open spec fn visit(
    t: TreeMap,
    skip: SkipDynamicImports,
    max_count: Option<usize>,
    fuel: nat,
    node: Seq<char>,
    s: Search,
) -> Search
    decreases fuel, 0int, 0int,
{
    if fuel == 0 || limit_reached(s.2.len(), max_count) {
        s
    } else {
        visit_deps(t, skip, max_count, (fuel - 1) as nat, node, 0, (s.0.insert(node, 1u8), s.1.push(node), s.2))
    }
}

/// Follows the dependency `d` of the id on top of the path: a considered
/// dependency on an id on the path closes a cycle, one on an id not yet met
/// is visited, one on a finished id is passed over, as is an unresolved or
/// left-out one.
pub open spec fn follow(
    t: TreeMap,
    skip: SkipDynamicImports,
    max_count: Option<usize>,
    fuel: nat,
    d: DependencyView,
    s: Search,
) -> Search
    decreases fuel, 1int, 0int,
{
    match d.id {
        Some(v) => if !considered(d, skip) {
            s
        } else if s.0.contains_key(v) && s.0[v] == 1 {
            close_cycle(s, v)
        } else if s.0.contains_key(v) {
            s
        } else {
            visit(t, skip, max_count, fuel, v, s)
        },
        None => s,
    }
}

/// Follows the dependencies of `node` from the `j`-th on, then finishes it
/// (colour 2, off the path); no dependency is followed once the limit is
/// reached.
pub open spec fn visit_deps(
    t: TreeMap,
    skip: SkipDynamicImports,
    max_count: Option<usize>,
    fuel: nat,
    node: Seq<char>,
    j: int,
    s: Search,
) -> Search
    decreases fuel, 2int, deps_of(t, node).len() - j,
{
    let deps = deps_of(t, node);
    if j < 0 || j >= deps.len() || limit_reached(s.2.len(), max_count) {
        (s.0.insert(node, 2u8), s.1.drop_last(), s.2)
    } else {
        visit_deps(t, skip, max_count, fuel, node, j + 1, follow(t, skip, max_count, fuel, deps[j], s))
    }
}

/// Starts a visit from each of `keys[i..]` in turn that is not yet met,
/// until the limit is reached.
pub open spec fn search_keys(
    t: TreeMap,
    skip: SkipDynamicImports,
    max_count: Option<usize>,
    fuel: nat,
    keys: Seq<Seq<char>>,
    i: int,
    s: Search,
) -> Search
    decreases keys.len() - i,
{
    if i < 0 || i >= keys.len() || limit_reached(s.2.len(), max_count) {
        s
    } else if s.0.contains_key(keys[i]) {
        search_keys(t, skip, max_count, fuel, keys, i + 1, s)
    } else {
        search_keys(t, skip, max_count, fuel, keys, i + 1, visit(t, skip, max_count, fuel, keys[i], s))
    }
}

/// The cycles that the depth-first search reports on `tree`: a visit from
/// each module id in the tree's order, over all ids from an empty state.
pub open spec fn search_cycles(tree: DependencyTree, skip: SkipDynamicImports, max_count: Option<usize>) -> Seq<Seq<Seq<char>>> {
    search_keys(tree@, skip, max_count, universe(tree).len(), tree.key_list(), 0, (Map::empty(), Seq::empty(), Seq::empty())).2
}

/// `r` keeps the cycles of `s` and may add more after them.
spec fn extends(r: Search, s: Search) -> bool {
    s.2.len() <= r.2.len() && r.2.subrange(0, s.2.len() as int) == s.2
}

proof fn lemma_extends_trans(a: Search, b: Search, c: Search)
    requires
        extends(a, b),
        extends(b, c),
    ensures
        extends(a, c),
{
    assert(a.2.subrange(0, c.2.len() as int) =~= a.2.subrange(0, b.2.len() as int).subrange(0, c.2.len() as int));
}

proof fn lemma_follow_extends(
    t: TreeMap,
    skip: SkipDynamicImports,
    max_count: Option<usize>,
    fuel: nat,
    d: DependencyView,
    s: Search,
)
    ensures
        extends(follow(t, skip, max_count, fuel, d, s), s),
    decreases fuel, 1int, 0int,
{
    assert(s.2.subrange(0, s.2.len() as int) =~= s.2);
    match d.id {
        Some(v) => if considered(d, skip) && !(s.0.contains_key(v)) {
            lemma_visit_extends(t, skip, max_count, fuel, v, s);
        } else if considered(d, skip) && s.0.contains_key(v) && s.0[v] == 1 {
            let r = close_cycle(s, v);
            assert(r.2.subrange(0, s.2.len() as int) =~= s.2);
        },
        None => {},
    }
}

proof fn lemma_visit_extends(
    t: TreeMap,
    skip: SkipDynamicImports,
    max_count: Option<usize>,
    fuel: nat,
    node: Seq<char>,
    s: Search,
)
    ensures
        extends(visit(t, skip, max_count, fuel, node, s), s),
    decreases fuel, 0int, 0int,
{
    assert(s.2.subrange(0, s.2.len() as int) =~= s.2);
    if fuel > 0 && !limit_reached(s.2.len(), max_count) {
        lemma_visit_deps_extends(t, skip, max_count, (fuel - 1) as nat, node, 0, (s.0.insert(node, 1u8), s.1.push(node), s.2));
    }
}

proof fn lemma_visit_deps_extends(
    t: TreeMap,
    skip: SkipDynamicImports,
    max_count: Option<usize>,
    fuel: nat,
    node: Seq<char>,
    j: int,
    s: Search,
)
    ensures
        extends(visit_deps(t, skip, max_count, fuel, node, j, s), s),
    decreases fuel, 2int, deps_of(t, node).len() - j,
{
    assert(s.2.subrange(0, s.2.len() as int) =~= s.2);
    let deps = deps_of(t, node);
    if !(j < 0 || j >= deps.len() || limit_reached(s.2.len(), max_count)) {
        let next = follow(t, skip, max_count, fuel, deps[j], s);
        lemma_follow_extends(t, skip, max_count, fuel, deps[j], s);
        lemma_visit_deps_extends(t, skip, max_count, fuel, node, j + 1, next);
        lemma_extends_trans(visit_deps(t, skip, max_count, fuel, node, j + 1, next), next, s);
    }
}

proof fn lemma_search_keys_extends(
    t: TreeMap,
    skip: SkipDynamicImports,
    max_count: Option<usize>,
    fuel: nat,
    keys: Seq<Seq<char>>,
    i: int,
    s: Search,
)
    ensures
        extends(search_keys(t, skip, max_count, fuel, keys, i, s), s),
    decreases keys.len() - i,
{
    assert(s.2.subrange(0, s.2.len() as int) =~= s.2);
    if !(i < 0 || i >= keys.len() || limit_reached(s.2.len(), max_count)) {
        if s.0.contains_key(keys[i]) {
            lemma_search_keys_extends(t, skip, max_count, fuel, keys, i + 1, s);
        } else {
            let v = visit(t, skip, max_count, fuel, keys[i], s);
            lemma_visit_extends(t, skip, max_count, fuel, keys[i], s);
            lemma_search_keys_extends(t, skip, max_count, fuel, keys, i + 1, v);
            lemma_extends_trans(search_keys(t, skip, max_count, fuel, keys, i + 1, v), v, s);
        }
    }
}

/// The search limited to `m` cycles (`l`) and the unlimited one (`u`) agree:
/// in all where `u` has found fewer than `m`, else in the first `m` cycles.
spec fn agrees(l: Search, u: Search, m: nat) -> bool {
    &&& u.2.len() < m ==> l == u
    &&& u.2.len() >= m ==> l.2 == u.2.take(m as int)
}

/// Where the unlimited search has found at least `m` cycles past `n`, the
/// search limited to `m` that stopped at `n` agrees with it.
proof fn lemma_agrees_after(l: Search, n: Search, u: Search, m: nat)
    requires
        n.2.len() >= m,
        l.2 == n.2.take(m as int),
        extends(u, n),
    ensures
        agrees(l, u, m),
{
    assert(u.2.take(m as int) =~= n.2.take(m as int)) by {
        assert forall|k: int| 0 <= k < m implies u.2[k] == n.2[k] by {
            assert(u.2.subrange(0, n.2.len() as int)[k] == u.2[k]);
        }
    }
}

proof fn lemma_follow_agrees(t: TreeMap, skip: SkipDynamicImports, m: usize, fuel: nat, d: DependencyView, s: Search)
    requires
        s.2.len() < m,
    ensures
        agrees(follow(t, skip, Some(m), fuel, d, s), follow(t, skip, None, fuel, d, s), m as nat),
    decreases fuel, 1int, 0int,
{
    match d.id {
        Some(v) => if considered(d, skip) && !(s.0.contains_key(v)) {
            lemma_visit_agrees(t, skip, m, fuel, v, s);
        } else if considered(d, skip) && s.0.contains_key(v) && s.0[v] == 1 {
            let r = close_cycle(s, v);
            assert(r.2.take(r.2.len() as int) =~= r.2);
        },
        None => {},
    }
}

proof fn lemma_visit_agrees(t: TreeMap, skip: SkipDynamicImports, m: usize, fuel: nat, node: Seq<char>, s: Search)
    requires
        s.2.len() < m,
    ensures
        agrees(visit(t, skip, Some(m), fuel, node, s), visit(t, skip, None, fuel, node, s), m as nat),
    decreases fuel, 0int, 0int,
{
    if fuel > 0 {
        lemma_visit_deps_agrees(t, skip, m, (fuel - 1) as nat, node, 0, (s.0.insert(node, 1u8), s.1.push(node), s.2));
    }
}

proof fn lemma_visit_deps_agrees(
    t: TreeMap,
    skip: SkipDynamicImports,
    m: usize,
    fuel: nat,
    node: Seq<char>,
    j: int,
    s: Search,
)
    requires
        s.2.len() < m,
    ensures
        agrees(visit_deps(t, skip, Some(m), fuel, node, j, s), visit_deps(t, skip, None, fuel, node, j, s), m as nat),
    decreases fuel, 2int, deps_of(t, node).len() - j,
{
    let deps = deps_of(t, node);
    if !(j < 0 || j >= deps.len()) {
        let nl = follow(t, skip, Some(m), fuel, deps[j], s);
        let nu = follow(t, skip, None, fuel, deps[j], s);
        lemma_follow_agrees(t, skip, m, fuel, deps[j], s);
        if nu.2.len() < m {
            lemma_visit_deps_agrees(t, skip, m, fuel, node, j + 1, nu);
        } else {
            lemma_visit_deps_extends(t, skip, None, fuel, node, j + 1, nu);
            lemma_agrees_after(
                visit_deps(t, skip, Some(m), fuel, node, j + 1, nl),
                nu,
                visit_deps(t, skip, None, fuel, node, j + 1, nu),
                m as nat,
            );
        }
    }
}

proof fn lemma_search_keys_agrees(
    t: TreeMap,
    skip: SkipDynamicImports,
    m: usize,
    fuel: nat,
    keys: Seq<Seq<char>>,
    i: int,
    s: Search,
)
    requires
        s.2.len() < m,
    ensures
        agrees(search_keys(t, skip, Some(m), fuel, keys, i, s), search_keys(t, skip, None, fuel, keys, i, s), m as nat),
    decreases keys.len() - i,
{
    if !(i < 0 || i >= keys.len()) {
        if s.0.contains_key(keys[i]) {
            lemma_search_keys_agrees(t, skip, m, fuel, keys, i + 1, s);
        } else {
            let vl = visit(t, skip, Some(m), fuel, keys[i], s);
            let vu = visit(t, skip, None, fuel, keys[i], s);
            lemma_visit_agrees(t, skip, m, fuel, keys[i], s);
            if vu.2.len() < m {
                lemma_search_keys_agrees(t, skip, m, fuel, keys, i + 1, vu);
            } else {
                lemma_search_keys_extends(t, skip, None, fuel, keys, i + 1, vu);
                lemma_agrees_after(
                    search_keys(t, skip, Some(m), fuel, keys, i + 1, vl),
                    vu,
                    search_keys(t, skip, None, fuel, keys, i + 1, vu),
                    m as nat,
                );
            }
        }
    }
}

/// With a limit of `m` cycles the search reports the first `m` of the
/// cycles it reports without a limit, or all of them where there are no
/// more than `m`.
pub proof fn lemma_limit_keeps_first_cycles(tree: DependencyTree, skip: SkipDynamicImports, m: usize)
    ensures
        search_cycles(tree, skip, Some(m)) == if search_cycles(tree, skip, None).len() <= m {
            search_cycles(tree, skip, None)
        } else {
            search_cycles(tree, skip, None).take(m as int)
        },
{
    let all = search_cycles(tree, skip, None);
    let init: Search = (Map::empty(), Seq::empty(), Seq::empty());
    if m == 0 {
        assert(all.take(0) =~= Seq::<Seq<Seq<char>>>::empty());
    } else {
        lemma_search_keys_agrees(tree@, skip, m, universe(tree).len(), tree.key_list(), 0, init);
        assert(all.take(all.len() as int) =~= all);
    }
}

/// The state of the search: colours (1 on the stack, 2 done), the stack of
/// the current path with each id's position, the cycles found with their
/// keys, and, as a proof aid, the order in which ids were finished.
struct DfsState {
    color: StringHashMap<u8>,
    stack: Vec<String>,
    stack_indices: StringHashMap<usize>,
    circulars: Vec<Vec<String>>,
    seen_cycles: StringHashSet,
    finish: Ghost<Map<Seq<char>, nat>>,
    clock: Ghost<nat>,
}

impl DfsState {
    spec fn path(self) -> Seq<Seq<char>> {
        strs_view(self.stack@)
    }

    spec fn found(self) -> Seq<Seq<Seq<char>>> {
        cycles_view(self.circulars@)
    }

    spec fn search(self) -> Search {
        (self.color@, self.path(), self.found())
    }

    spec fn black(self, u: Seq<char>) -> bool {
        self.color@.contains_key(u) && self.color@[u] == 2
    }

    spec fn gray(self, u: Seq<char>) -> bool {
        self.color@.contains_key(u) && self.color@[u] == 1
    }

    /// Every finished id lies before the clock, and each of its successors
    /// is finished, and earlier.
    spec fn closed(self, t: TreeMap, skip: SkipDynamicImports) -> bool {
        forall|u: Seq<char>| #[trigger] self.black(u) ==> {
            &&& self.finish@.contains_key(u)
            &&& self.finish@[u] < self.clock@
            &&& forall|v: Seq<char>| #[trigger] has_edge(t, skip, u, v) ==> self.black(v) && self.finish@.contains_key(v)
                && self.finish@[v] < self.finish@[u]
        }
    }

    spec fn inv(self, t: DependencyTree, skip: SkipDynamicImports, max_count: Option<usize>) -> bool {
        let s = self.path();
        let cs = self.found();
        &&& s.no_duplicates()
        &&& forall|i: int| 0 <= i < s.len() ==> #[trigger] self.stack_indices@.contains_key(s[i])
            && self.stack_indices@[s[i]] == i
        &&& forall|n: Seq<char>| #[trigger] self.stack_indices@.contains_key(n) ==> s.contains(n)
        &&& forall|n: Seq<char>| #[trigger] self.color@.contains_key(n) ==> self.color@[n] == 1 || self.color@[n] == 2
        &&& forall|n: Seq<char>| #[trigger] self.gray(n) <==> s.contains(n)
        &&& forall|n: Seq<char>| #[trigger] self.black(n) ==> self.finish@.contains_key(n)
        &&& is_path(t@, skip, s)
        &&& self.color@.dom().subset_of(universe(t))
        &&& self.seen_cycles@ == key_set(cs)
        &&& keys_distinct(cs)
        &&& canonical_cycles(t@, skip, cs)
        &&& (max_count matches Some(m) ==> cs.len() <= m)
        &&& (cs.len() == 0 && max_count != Some(0usize)) ==> self.closed(t@, skip)
    }
}

proof fn lemma_closed_path(st: DfsState, t: TreeMap, skip: SkipDynamicImports, c: Seq<Seq<char>>, k: int)
    requires
        st.closed(t, skip),
        is_path(t, skip, c),
        0 <= k < c.len(),
        st.black(c[0]),
    ensures
        st.black(c[k]),
        st.finish@.contains_key(c[k]),
        st.finish@[c[k]] + k <= st.finish@[c[0]],
    decreases k,
{
    if k > 0 {
        lemma_closed_path(st, t, skip, c, k - 1);
        let i = k - 1;
        assert(has_edge(t, skip, c[i], c[i + 1]));
    }
}

/// When every module id is finished in a closed state, the tree is acyclic.
proof fn lemma_closed_acyclic(st: DfsState, t: DependencyTree, skip: SkipDynamicImports)
    requires
        st.closed(t@, skip),
        forall|k: Seq<char>| t@.contains_key(k) ==> #[trigger] st.black(k),
    ensures
        acyclic(t@, skip),
{
    assert forall|c: Seq<Seq<char>>| !is_closed_walk(t@, skip, c) by {
        if is_closed_walk(t@, skip, c) {
            let n = c.len();
            if n > 1 {
                let i = 0int;
                assert(has_edge(t@, skip, c[i], c[i + 1]));
            } else {
                assert(has_edge(t@, skip, c[0], c[0]));
            }
            assert(t@.contains_key(c[0]));
            assert(st.black(c[0]));
            lemma_closed_path(st, t@, skip, c, n - 1);
            assert(has_edge(t@, skip, c[n - 1], c[0]));
        }
    }
}

/// Records a cycle in canonical form unless one with the same key was
/// recorded before.
fn record_cycle(seen: &mut StringHashSet, circulars: &mut Vec<Vec<String>>, cyc: &Vec<String>)
    requires
        cyc@.len() > 0,
        old(seen)@ == key_set(cycles_view(old(circulars)@)),
    ensures
        old(seen)@.contains(cycle_key(canonical(strs_view(cyc@)))) ==> final(circulars)@ == old(circulars)@
            && final(seen)@ == old(seen)@,
        !old(seen)@.contains(cycle_key(canonical(strs_view(cyc@)))) ==> cycles_view(final(circulars)@)
            == cycles_view(old(circulars)@).push(canonical(strs_view(cyc@)))
            && final(seen)@ == old(seen)@.insert(cycle_key(canonical(strs_view(cyc@)))),
{
    let (canon, key) = canonicalize(cyc);
    let key_string = crate::text::string_from_chars(&key);
    if !seen.contains(key_string.as_str()) {
        seen.insert(key_string);
        let ghost before = circulars@;
        circulars.push(canon);
        assert(cycles_view(circulars@) =~= cycles_view(before).push(canonical(strs_view(cyc@))));
    }
}

/// The ids `v[from..]`.
fn suffix_from(v: &Vec<String>, from: usize) -> (r: Vec<String>)
    requires
        from <= v@.len(),
    ensures
        strs_view(r@) == strs_view(v@).subrange(from as int, v@.len() as int),
{
    let mut r: Vec<String> = Vec::new();
    let mut i = from;
    while i < v.len()
        invariant
            from <= i <= v@.len(),
            strs_view(r@) == strs_view(v@).subrange(from as int, i as int),
        decreases v@.len() - i,
    {
        let s = v[i].clone();
        let ghost before = r@;
        r.push(s);
        assert(strs_view(r@) =~= strs_view(before).push(s@));
        assert(strs_view(v@).subrange(from as int, i + 1) =~= strs_view(v@).subrange(from as int, i as int).push(v@[i as int]@));
        i = i + 1;
    }
    r
}

/// What the search keeps between the state before visiting an id and a
/// later state: the stack, the colours already given (finished ids keep
/// their finishing time), the clock and the cycles found.
spec fn grows(a: DfsState, b: DfsState) -> bool {
    &&& a.color@.dom().subset_of(b.color@.dom())
    &&& forall|u: Seq<char>| #[trigger] a.black(u) ==> (b.black(u) && b.finish@ == b.finish@ && (a.finish@.contains_key(u)
        ==> b.finish@.contains_key(u) && b.finish@[u] == a.finish@[u]))
    &&& a.clock@ <= b.clock@
    &&& a.found().len() <= b.found().len()
}

proof fn lemma_grows_trans(a: DfsState, b: DfsState, c: DfsState)
    requires
        grows(a, b),
        grows(b, c),
    ensures
        grows(a, c),
{
    assert forall|u: Seq<char>| #[trigger] a.black(u) implies (c.black(u) && c.finish@ == c.finish@ && (a.finish@.contains_key(u)
        ==> c.finish@.contains_key(u) && c.finish@[u] == a.finish@[u])) by {
        assert(b.black(u));
    }
}

proof fn lemma_inv_after_record(a: DfsState, b: DfsState, t: DependencyTree, skip: SkipDynamicImports, max_count: Option<usize>)
    requires
        a.inv(t, skip, max_count),
        b.color == a.color,
        b.stack == a.stack,
        b.stack_indices == a.stack_indices,
        b.finish == a.finish,
        b.clock == a.clock,
        b.seen_cycles@ == key_set(b.found()),
        keys_distinct(b.found()),
        canonical_cycles(t@, skip, b.found()),
        max_count matches Some(m) ==> b.found().len() <= m,
        a.found().len() <= b.found().len(),
    ensures
        b.inv(t, skip, max_count),
        grows(a, b),
{
    assert forall|n: Seq<char>| #[trigger] b.gray(n) <==> b.path().contains(n) by {
        assert(a.gray(n) == b.gray(n));
    }
    assert forall|n: Seq<char>| #[trigger] b.black(n) implies b.finish@.contains_key(n) by {
        assert(a.black(n));
    }
    if b.found().len() == 0 && max_count != Some(0usize) {
        assert forall|u: Seq<char>| #[trigger] b.black(u) implies {
            &&& b.finish@.contains_key(u)
            &&& b.finish@[u] < b.clock@
            &&& forall|v: Seq<char>| #[trigger] has_edge(t@, skip, u, v) ==> b.black(v) && b.finish@.contains_key(v)
                && b.finish@[v] < b.finish@[u]
        } by {
            assert(a.black(u));
            assert forall|v: Seq<char>| #[trigger] has_edge(t@, skip, u, v) implies b.black(v) && b.finish@.contains_key(v)
                && b.finish@[v] < b.finish@[u] by {
                assert(a.black(v));
            }
        }
    }
    assert forall|u: Seq<char>| #[trigger] a.black(u) implies (b.black(u) && b.finish@ == b.finish@ && (a.finish@.contains_key(u)
        ==> b.finish@.contains_key(u) && b.finish@[u] == a.finish@[u])) by {
    }
}

/// Visits `node`: marks it on the stack, follows each considered resolved
/// dependency (recording a cycle for each one that leads back onto the stack),
/// then marks it finished.
#[verifier::spinoff_prover]
fn dfs(
    node: &String,
    tree: &DependencyTree,
    index: &StringHashMap<usize>,
    skip: SkipDynamicImports,
    max_count: Option<usize>,
    st: &mut DfsState,
    Ghost(fuel): Ghost<nat>,
)
    requires
        tree.keys_distinct(),
        index_ok(index@, *tree),
        old(st).inv(*tree, skip, max_count),
        !old(st).color@.contains_key(node@),
        universe(*tree).contains(node@),
        old(st).path().len() > 0 ==> has_edge(tree@, skip, old(st).path().last(), node@),
        fuel >= universe(*tree).difference(old(st).color@.dom()).len(),
    ensures
        final(st).search() == visit(tree@, skip, max_count, fuel, node@, old(st).search()),
        final(st).inv(*tree, skip, max_count),
        final(st).path() == old(st).path(),
        grows(*old(st), *final(st)),
        (final(st).found().len() == 0 && max_count != Some(0usize)) ==> final(st).black(node@),
    decreases universe(*tree).difference(old(st).color@.dom()).len(),
{
    if limit_reached_exec(st.circulars.len(), max_count) {
        return;
    }
    let ghost t = tree@;
    let ghost s0 = st.path();
    let ghost st0 = *st;
    proof {
        DependencyTree::lemma_view(*tree);
        vstd::seq_lib::seq_to_set_is_finite(all_nodes(tree.entry_list()));
    }
    st.color.insert(node.clone(), 1);
    let depth = st.stack.len();
    let ghost si_before = st.stack_indices@;
    st.stack_indices.insert(node.clone(), depth);
    assert(st.stack_indices@ == si_before.insert(node@, depth));
    assert(si_before == st0.stack_indices@);
    assert(depth == s0.len());
    let ghost sb = st.stack@;
    st.stack.push(node.clone());
    proof {
        assert(st.path() =~= s0.push(node@));
        assert(!s0.contains(node@)) by {
            if s0.contains(node@) {
                assert(st0.gray(node@));
            }
        }
        assert forall|n: Seq<char>| #[trigger] st.gray(n) <==> st.path().contains(n) by {
            if n != node@ {
                assert(st.gray(n) == st0.gray(n));
                if s0.contains(n) {
                    let k = choose|k: int| 0 <= k < s0.len() && s0[k] == n;
                    assert(st.path()[k] == n);
                }
                if st.path().contains(n) {
                    let k = choose|k: int| 0 <= k < st.path().len() && st.path()[k] == n;
                    assert(s0[k] == n);
                }
            } else {
                assert(st.path()[s0.len() as int] == n);
            }
        }
        assert forall|i: int| 0 <= i < st.path().len() implies #[trigger] st.stack_indices@.contains_key(st.path()[i])
            && st.stack_indices@[st.path()[i]] == i by {
            if i < s0.len() {
                assert(st.path()[i] == s0[i]);
                assert(s0[i] != node@) by {
                    assert(s0.contains(s0[i]));
                }
                assert(st0.stack_indices@.contains_key(s0[i]) && st0.stack_indices@[s0[i]] == i);
                assert(st.stack_indices@[s0[i]] == st0.stack_indices@[s0[i]]);
            } else {
                assert(st.path()[i] == node@);
                assert(st.stack_indices@[node@] == depth);
            }
        }
        assert forall|n: Seq<char>| #[trigger] st.stack_indices@.contains_key(n) implies st.path().contains(n) by {
            if n == node@ {
                assert(st.path()[s0.len() as int] == n);
            } else {
                assert(st0.stack_indices@.contains_key(n));
                let k = choose|k: int| 0 <= k < s0.len() && s0[k] == n;
                assert(st.path()[k] == n);
            }
        }
        assert forall|i: int| 0 <= i < st.path().len() - 1 implies #[trigger] has_edge(t, skip, st.path()[i], st.path()[i + 1]) by {
            if i < s0.len() - 1 {
                assert(has_edge(t, skip, s0[i], s0[i + 1]));
            } else {
                assert(st.path()[i] == s0.last());
            }
        }
        assert(st.path().no_duplicates());
        if st.found().len() == 0 && max_count != Some(0usize) {
            assert forall|u: Seq<char>| #[trigger] st.black(u) implies {
                &&& st.finish@.contains_key(u)
                &&& st.finish@[u] < st.clock@
                &&& forall|v: Seq<char>| #[trigger] has_edge(t, skip, u, v) ==> st.black(v) && st.finish@.contains_key(v)
                    && st.finish@[v] < st.finish@[u]
            } by {
                assert(st0.black(u));
                assert forall|v: Seq<char>| #[trigger] has_edge(t, skip, u, v) implies st.black(v) && st.finish@.contains_key(v)
                    && st.finish@[v] < st.finish@[u] by {
                    assert(st0.black(v));
                }
            }
        }
        assert(st.found() == st0.found());
        assert forall|n: Seq<char>| #[trigger] st.black(n) implies st.finish@.contains_key(n) by {
            assert(st0.black(n));
        }
        assert(st.inv(*tree, skip, max_count));
        assert(universe(*tree).difference(st.color@.dom()) =~= universe(*tree).difference(st0.color@.dom()).remove(node@));
        assert(universe(*tree).difference(st.color@.dom()).len() < universe(*tree).difference(st0.color@.dom()).len());
        assert(st.search() == (st0.color@.insert(node@, 1u8), st0.path().push(node@), st0.found()));
    }
    let ghost st1 = *st;
    let ghost f = (fuel - 1) as nat;
    let ghost goal = visit_deps(t, skip, max_count, f, node@, 0, st1.search());
    assert(visit(t, skip, max_count, fuel, node@, st0.search()) == goal);
    let pos = index.get(node.as_str());
    match pos {
        Some(p) => {
            let (_, deps_opt) = tree.entry_at(*p);
            match deps_opt {
                Some(deps) => {
                    proof {
                        assert(t[node@] == tree.entry_list()[*p as int].1);
                    }
                    let mut j: usize = 0;
                    while j < deps.len() && !limit_reached_exec(st.circulars.len(), max_count)
                        invariant
                            tree.keys_distinct(),
                            index_ok(index@, *tree),
                            t == tree@,
                            t.contains_key(node@),
                            t[node@] == Some(crate::types::deps_view(deps@)),
                            j <= deps@.len(),
                            st.inv(*tree, skip, max_count),
                            st.path() == s0.push(node@),
                            grows(st1, *st),
                            st1.color@.contains_key(node@),
                            st.color@.dom().len() >= 0,
                            universe(*tree).finite(),
                            st0 == *old(st),
                            universe(*tree).difference(st1.color@.dom()).len() < universe(*tree).difference(st0.color@.dom()).len(),
                            fuel >= universe(*tree).difference(st0.color@.dom()).len(),
                            f == fuel - 1,
                            goal == visit_deps(t, skip, max_count, f, node@, j as int, st.search()),
                            (st.found().len() == 0 && max_count != Some(0usize)) ==> forall|k: int, v: Seq<char>|
                                0 <= k < j && #[trigger] edge_at(t, skip, node@, k, v) ==> st.black(v)
                                    && st.finish@.contains_key(v) && st.finish@[v] < st.clock@,
                        decreases deps@.len() - j,
                    {
                        let dep = &deps[j];
                        let ghost stj = *st;
                        let ghost d = crate::types::deps_view(deps@)[j as int];
                        assert(d == deps@[j as int]@);
                        match &dep.id {
                            Some(dep_id) => {
                                let skipped = skip == SkipDynamicImports::Circular && dep.kind == DependencyKind::DynamicImport;
                                if !skipped {
                                    proof {
                                        assert(crate::types::deps_view(deps@)[j as int] == deps@[j as int]@);
                                        assert(edge_at(t, skip, node@, j as int, dep_id@));
                                        assert(has_edge(t, skip, node@, dep_id@));
                                        lemma_edge_in_universe(*tree, skip, node@, dep_id@);
                                    }
                                    let state: u8 = match st.color.get(dep_id.as_str()) {
                                        Some(c) => *c,
                                        None => 0,
                                    };
                                    if state == 1 {
                                        proof {
                                            assert(st.gray(dep_id@));
                                        }
                                        match st.stack_indices.get(dep_id.as_str()) {
                                            Some(pidx) => {
                                                let ghost sp = st.path();
                                                proof {
                                                    let k = choose|k: int| 0 <= k < sp.len() && sp[k] == dep_id@;
                                                    assert(st.stack_indices@[sp[k]] == k);
                                                    assert(*pidx as int == k);
                                                }
                                                let cyc = suffix_from(&st.stack, *pidx);
                                                let ghost x = strs_view(cyc@);
                                                proof {
                                                    assert(x.len() > 0);
                                                    assert(x[0] == dep_id@);
                                                    assert(x.last() == node@);
                                                    assert forall|i: int| 0 <= i < x.len() - 1 implies #[trigger] has_edge(t, skip, x[i], x[i + 1]) by {
                                                        assert(x[i] == sp[*pidx + i]);
                                                        assert(x[i + 1] == sp[*pidx + i + 1]);
                                                        assert(has_edge(t, skip, sp[*pidx + i], sp[*pidx + i + 1]));
                                                    }
                                                    assert(is_closed_walk(t, skip, x));
                                                    assert(x =~= sp.subrange(*pidx as int, sp.len() as int));
                                                    assert(x.no_duplicates()) by {
                                                        assert forall|a: int, b: int| 0 <= a < b < x.len() implies x[a] != x[b] by {
                                                            assert(x[a] == sp[*pidx + a]);
                                                            assert(x[b] == sp[*pidx + b]);
                                                        }
                                                    }
                                                    assert(is_simple_cycle(t, skip, x));
                                                    assert(cyc@.len() == x.len());
                                                }
                                                let ghost before = st.found();
                                                record_cycle(&mut st.seen_cycles, &mut st.circulars, &cyc);
                                                proof {
                                                    let c = canonical(x);
                                                    let key = cycle_key(c);
                                                    if !stj.seen_cycles@.contains(key) {
                                                        assert(st.found() == before.push(c));
                                                        assert(st.seen_cycles@ =~= key_set(st.found())) by {
                                                            assert forall|k2: Seq<char>| #[trigger] key_set(st.found()).contains(k2) ==
                                                                stj.seen_cycles@.insert(key).contains(k2) by {
                                                                if key_set(st.found()).contains(k2) {
                                                                    let i = choose|i: int| 0 <= i < st.found().len() && cycle_key(st.found()[i]) == k2;
                                                                    if i < before.len() {
                                                                        assert(st.found()[i] == before[i]);
                                                                        assert(key_set(before).contains(k2));
                                                                    }
                                                                }
                                                                if key_set(before).contains(k2) {
                                                                    let i = choose|i: int| 0 <= i < before.len() && cycle_key(before[i]) == k2;
                                                                    assert(st.found()[i] == before[i]);
                                                                }
                                                                if k2 == key {
                                                                    assert(st.found()[before.len() as int] == c);
                                                                }
                                                            }
                                                        }
                                                        assert forall|i: int, j2: int| 0 <= i < j2 < st.found().len() implies
                                                            cycle_key(#[trigger] st.found()[i]) != cycle_key(#[trigger] st.found()[j2]) by {
                                                            if j2 == before.len() {
                                                                assert(st.found()[i] == before[i]);
                                                                if cycle_key(before[i]) == key {
                                                                    assert(key_set(before).contains(key));
                                                                }
                                                            } else {
                                                                assert(st.found()[i] == before[i]);
                                                                assert(st.found()[j2] == before[j2]);
                                                            }
                                                        }
                                                        assert forall|i: int| 0 <= i < st.found().len() implies exists|y: Seq<Seq<char>>|
                                                            is_simple_cycle(t, skip, y) && #[trigger] st.found()[i] == canonical(y) by {
                                                            if i < before.len() {
                                                                assert(st.found()[i] == before[i]);
                                                            } else {
                                                                assert(st.found()[i] == canonical(x));
                                                            }
                                                        }
                                                        assert(keys_distinct(st.found()));
                                                        assert(canonical_cycles(t, skip, st.found()));
                                                        assert(!limit_reached(before.len(), max_count));
                                                    } else {
                                                        assert(st.found() == before);
                                                        assert(key_set(before).contains(key));
                                                        assert(before.len() > 0);
                                                    }
                                                    lemma_inv_after_record(stj, *st, *tree, skip, max_count);
                                                    assert(sp[*pidx as int] == dep_id@);
                                                    let k = path_pos(sp, dep_id@);
                                                    assert(0 <= k < sp.len() && sp[k] == dep_id@);
                                                    assert(k == *pidx as int);
                                                    assert(sp.subrange(k, sp.len() as int) == x);
                                                    assert(stj.search().1 == sp);
                                                    assert(st.search() == close_cycle(stj.search(), dep_id@));
                                                    assert(st.search() == follow(t, skip, max_count, f, d, stj.search()));
                                                }
                                            },
                                            None => {
                                                proof {
                                                    let k = choose|k: int| 0 <= k < st.path().len() && st.path()[k] == dep_id@;
                                                    assert(st.stack_indices@.contains_key(st.path()[k]));
                                                    assert(false);
                                                }
                                            },
                                        }
                                    } else if state == 0 {
                                        proof {
                                            assert(!st.color@.contains_key(dep_id@));
                                            assert(st.path().last() == node@);
                                            assert(st1.color@.dom().subset_of(st.color@.dom()));
                                            assert(universe(*tree).difference(st.color@.dom()).subset_of(universe(*tree).difference(st1.color@.dom())));
                                            vstd::set_lib::lemma_len_subset(
                                                universe(*tree).difference(st.color@.dom()),
                                                universe(*tree).difference(st1.color@.dom()),
                                            );
                                        }
                                        proof {
                                            vstd::set::axiom_set_difference_finite(universe(*tree), st1.color@.dom());
                                            assert(universe(*tree).difference(st.color@.dom()).len() < universe(*tree).difference(old(st).color@.dom()).len());
                                        }
                                        dfs(dep_id, tree, index, skip, max_count, st, Ghost(f));
                                        proof {
                                            assert(!stj.search().0.contains_key(dep_id@));
                                            assert(st.search() == follow(t, skip, max_count, f, d, stj.search()));
                                        }
                                    } else {
                                        proof {
                                            assert(st.black(dep_id@));
                                            assert(st.search() == follow(t, skip, max_count, f, d, stj.search()));
                                        }
                                    }
                                } else {
                                    proof {
                                        assert(!considered(d, skip));
                                        assert(st.search() == follow(t, skip, max_count, f, d, stj.search()));
                                    }
                                }
                            },
                            None => {
                                proof {
                                    assert(st.search() == follow(t, skip, max_count, f, d, stj.search()));
                                }
                            },
                        }
                        proof {
                            assert(st.search() == follow(t, skip, max_count, f, d, stj.search()));
                            assert(deps_of(t, node@) == crate::types::deps_view(deps@));
                            assert(goal == visit_deps(t, skip, max_count, f, node@, j + 1, st.search()));
                            if st.found().len() == 0 && max_count != Some(0usize) {
                                assert(stj.found().len() == 0);
                                assert forall|k: int, v: Seq<char>|
                                    0 <= k < j + 1 && #[trigger] edge_at(t, skip, node@, k, v) implies st.black(v)
                                        && st.finish@.contains_key(v) && st.finish@[v] < st.clock@ by {
                                    if k < j {
                                        assert(stj.black(v));
                                    } else {
                                        assert(deps@[j as int]@ == crate::types::deps_view(deps@)[j as int]);
                                        assert(st.black(v));
                                    }
                                }
                            }
                        }
                        j = j + 1;
                    }
                    proof {
                        if st.found().len() == 0 && max_count != Some(0usize) {
                            assert(!limit_reached(0, max_count));
                            assert(j == deps@.len());
                        }
                        assert(deps_of(t, node@) == crate::types::deps_view(deps@));
                        assert(goal == (st.color@.insert(node@, 2u8), st.path().drop_last(), st.found()));
                    }
                },
                None => {
                    proof {
                        assert(t[node@] == tree.entry_list()[*p as int].1);
                        assert(deps_of(t, node@).len() == 0);
                        assert(goal == (st.color@.insert(node@, 2u8), st.path().drop_last(), st.found()));
                    }
                },
            }
        },
        None => {
            proof {
                assert(!t.contains_key(node@));
                assert(deps_of(t, node@).len() == 0);
                assert(goal == (st.color@.insert(node@, 2u8), st.path().drop_last(), st.found()));
            }
        },
    }
    proof {
        assert(goal == (st.color@.insert(node@, 2u8), st.path().drop_last(), st.found()));
        assert(st.path() == s0.push(node@));
        if st.found().len() == 0 && max_count != Some(0usize) {
            assert forall|v: Seq<char>| #[trigger] has_edge(t, skip, node@, v) implies st.black(v)
                && st.finish@.contains_key(v) && st.finish@[v] < st.clock@ by {
                let k = choose|k: int| edge_at(t, skip, node@, k, v);
                assert(edge_at(t, skip, node@, k, v));
            }
        }
    }
    let ghost st2 = *st;
    st.stack.pop();
    st.stack_indices.remove(node.as_str());
    st.color.insert(node.clone(), 2);
    proof {
        st.finish@ = st.finish@.insert(node@, st.clock@);
        st.clock@ = st.clock@ + 1;
        assert(st.stack@ == st2.stack@.drop_last());
        assert(st.path() =~= st2.path().drop_last());
        assert(st.path() =~= s0);
        assert(st.search() == goal);
        lemma_finish_node(st2, *st, *tree, skip, max_count, node@, s0);
        assert(grows(st0, st1)) by {
            assert forall|u: Seq<char>| #[trigger] st0.black(u) implies (st1.black(u) && st1.finish@ == st1.finish@ && (st0.finish@.contains_key(u)
                ==> st1.finish@.contains_key(u) && st1.finish@[u] == st0.finish@[u])) by {
            }
        }
        lemma_grows_trans(st0, st1, st2);
        lemma_grows_trans(st0, st2, *st);
    }
}

proof fn lemma_finish_node(
    a: DfsState,
    b: DfsState,
    t: DependencyTree,
    skip: SkipDynamicImports,
    max_count: Option<usize>,
    node: Seq<char>,
    s0: Seq<Seq<char>>,
)
    requires
        a.inv(t, skip, max_count),
        a.path() == s0.push(node),
        b.path() == s0,
        b.stack_indices@ == a.stack_indices@.remove(node),
        b.color@ == a.color@.insert(node, 2),
        b.finish@ == a.finish@.insert(node, a.clock@),
        b.clock@ == a.clock@ + 1,
        b.circulars == a.circulars,
        b.seen_cycles == a.seen_cycles,
        (a.found().len() == 0 && max_count != Some(0usize)) ==> forall|v: Seq<char>| #[trigger] has_edge(t@, skip, node, v)
            ==> a.black(v) && a.finish@.contains_key(v) && a.finish@[v] < a.clock@,
    ensures
        b.inv(t, skip, max_count),
        grows(a, b),
        (b.found().len() == 0 && max_count != Some(0usize)) ==> b.black(node),
{
    let s = a.path();
    assert(s[s0.len() as int] == node);
    assert(a.gray(node));
    assert(!s0.contains(node)) by {
        if s0.contains(node) {
            let k = choose|k: int| 0 <= k < s0.len() && s0[k] == node;
            assert(s[k] == node);
        }
    }
    assert forall|i: int| 0 <= i < s0.len() implies #[trigger] b.stack_indices@.contains_key(s0[i])
        && b.stack_indices@[s0[i]] == i by {
        assert(s[i] == s0[i]);
        assert(s0[i] != node) by { assert(s0.contains(s0[i])); }
    }
    assert forall|n: Seq<char>| #[trigger] b.stack_indices@.contains_key(n) implies s0.contains(n) by {
        assert(a.stack_indices@.contains_key(n));
        let k = choose|k: int| 0 <= k < s.len() && s[k] == n;
        if k == s0.len() {
        } else {
            assert(s0[k] == n);
        }
    }
    assert forall|n: Seq<char>| #[trigger] b.gray(n) <==> s0.contains(n) by {
        if n != node {
            assert(a.gray(n) == b.gray(n));
            if s0.contains(n) {
                let k = choose|k: int| 0 <= k < s0.len() && s0[k] == n;
                assert(s[k] == n);
            }
            if a.path().contains(n) {
                let k = choose|k: int| 0 <= k < s.len() && s[k] == n;
                assert(s0[k] == n);
            }
        }
    }
    assert forall|i: int| 0 <= i < s0.len() - 1 implies #[trigger] has_edge(t@, skip, s0[i], s0[i + 1]) by {
        assert(has_edge(t@, skip, s[i], s[i + 1]));
    }
    assert forall|n: Seq<char>| #[trigger] b.black(n) implies b.finish@.contains_key(n) by {
        if n != node {
            assert(a.black(n));
        }
    }
    assert(b.color@.dom() =~= a.color@.dom());
    assert(s0.no_duplicates()) by {
        assert forall|i: int, j: int| 0 <= i < s0.len() && 0 <= j < s0.len() && i != j implies s0[i] != s0[j] by {
            assert(s[i] == s0[i] && s[j] == s0[j]);
        }
    }
    assert(b.found() == a.found());
    assert(forall|n: Seq<char>| #[trigger] b.color@.contains_key(n) ==> b.color@[n] == 1 || b.color@[n] == 2);
    assert(is_path(t@, skip, s0));
    if b.found().len() == 0 && max_count != Some(0usize) {
        assert forall|u: Seq<char>| #[trigger] b.black(u) implies {
            &&& b.finish@.contains_key(u)
            &&& b.finish@[u] < b.clock@
            &&& forall|v: Seq<char>| #[trigger] has_edge(t@, skip, u, v) ==> b.black(v) && b.finish@.contains_key(v)
                && b.finish@[v] < b.finish@[u]
        } by {
            if u == node {
                assert forall|v: Seq<char>| #[trigger] has_edge(t@, skip, u, v) implies b.black(v) && b.finish@.contains_key(v)
                    && b.finish@[v] < b.finish@[u] by {
                    assert(a.black(v));
                }
            } else {
                assert(a.black(u));
                assert forall|v: Seq<char>| #[trigger] has_edge(t@, skip, u, v) implies b.black(v) && b.finish@.contains_key(v)
                    && b.finish@[v] < b.finish@[u] by {
                    assert(a.black(v));
                }
            }
        }
    }
    assert forall|u: Seq<char>| #[trigger] a.black(u) implies (b.black(u) && b.finish@ == b.finish@ && (a.finish@.contains_key(u)
        ==> b.finish@.contains_key(u) && b.finish@[u] == a.finish@[u])) by {
        assert(u != node);
    }
}

/// Finds circular dependencies in a dependency tree.
pub struct CircularAnalyzer;

impl CircularAnalyzer {
    /// A new analyzer.
    pub fn new() -> Self {
        CircularAnalyzer
    }

    /// Finds circular dependencies: a depth-first search from each module id in
    /// the tree's order that, over the resolved dependencies (dynamic imports
    /// left out when `skip_dynamic_imports` is `Circular`), reports a cycle for
    /// each dependency that leads back onto the current path. Each cycle is
    /// reported once, in canonical form ([`canonical`]), in the order found;
    /// the search stops once `max_count` cycles are found.
    ///
    /// The result is exactly the list [`search_cycles`] describes. Every
    /// reported cycle is the canonical form of a simple cycle of the
    /// tree, so its ids are pairwise distinct; no two have the same key,
    /// and no two are the same cycle entered at another id or read the other
    /// way; there are at most `max_count`, and (unless `max_count` is
    /// `Some(0)`) none is reported exactly when the tree has no cycle.
    pub fn find_circular_dependencies(
        &self,
        tree: &DependencyTree,
        skip_dynamic_imports: &SkipDynamicImports,
        max_count: Option<usize>,
    ) -> (r: Vec<Vec<String>>)
        ensures
            cycles_view(r@) == search_cycles(*tree, *skip_dynamic_imports, max_count),
            canonical_cycles(tree@, *skip_dynamic_imports, cycles_view(r@)),
            forall|i: int| 0 <= i < r@.len() ==> (#[trigger] cycles_view(r@)[i]).no_duplicates(),
            keys_distinct(cycles_view(r@)),
            max_count matches Some(m) ==> r@.len() <= m,
            max_count != Some(0usize) ==> (r@.len() == 0 <==> acyclic(tree@, *skip_dynamic_imports)),
            forall|i: int, j: int|
                0 <= i < j < r@.len() ==> !same_cycle(#[trigger] cycles_view(r@)[i], #[trigger] cycles_view(r@)[j]),
    {
        let skip = *skip_dynamic_imports;
        proof {
            use_type_invariant(tree);
            DependencyTree::lemma_view(*tree);
        }
        let index = build_index(tree);
        let mut st = DfsState {
            color: StringHashMap::new(),
            stack: Vec::new(),
            stack_indices: StringHashMap::new(),
            circulars: Vec::new(),
            seen_cycles: StringHashSet::new(),
            finish: Ghost(Map::empty()),
            clock: Ghost(0),
        };
        proof {
            assert(st.path() =~= Seq::<Seq<char>>::empty());
            assert(st.found() =~= Seq::<Seq<Seq<char>>>::empty());
            assert(st.seen_cycles@ =~= key_set(st.found()));
            assert(st.color@.dom() =~= Set::<Seq<char>>::empty());
        }
        let ghost fuel = universe(*tree).len();
        let ghost keys = tree.key_list();
        let ghost init: Search = (Map::empty(), Seq::empty(), Seq::empty());
        proof {
            assert(st.search() == init);
            vstd::seq_lib::seq_to_set_is_finite(all_nodes(tree.entry_list()));
        }
        let n = tree.len();
        let mut i: usize = 0;
        while i < n && !limit_reached_exec(st.circulars.len(), max_count)
            invariant
                keys == tree.key_list(),
                keys.len() == n,
                fuel == universe(*tree).len(),
                universe(*tree).finite(),
                search_keys(tree@, skip, max_count, fuel, keys, 0, init)
                    == search_keys(tree@, skip, max_count, fuel, keys, i as int, st.search()),
                tree.keys_distinct(),
                tree@.dom() == tree.key_list().to_set(),
                n == tree.entry_list().len(),
                i <= n,
                index_ok(index@, *tree),
                st.inv(*tree, skip, max_count),
                st.path() == Seq::<Seq<char>>::empty(),
                (st.found().len() == 0 && max_count != Some(0usize)) ==> forall|k: int|
                    0 <= k < i ==> #[trigger] st.black(tree.key_list()[k]),
            decreases n - i,
        {
            let (key, _) = tree.entry_at(i);
            let ghost sti = st;
            let known = st.color.get(key.as_str()).is_some();
            proof {
                assert(tree.key_list()[i as int] == key@);
                assert(tree.key_list().to_set().contains(key@));
                let es = tree.entry_list();
                lemma_all_nodes_contains(es, i as int);
            }
            if !known {
                proof {
                    vstd::set_lib::lemma_len_subset(universe(*tree).difference(st.color@.dom()), universe(*tree));
                }
                dfs(key, tree, &index, skip, max_count, &mut st, Ghost(fuel));
            } else {
                proof {
                    assert(!st.gray(key@));
                }
            }
            proof {
                if st.found().len() == 0 && max_count != Some(0usize) {
                    assert forall|k: int| 0 <= k < i + 1 implies #[trigger] st.black(tree.key_list()[k]) by {
                        if k < i {
                            assert(sti.black(tree.key_list()[k]));
                        }
                    }
                }
            }
            proof {
                assert(search_keys(tree@, skip, max_count, fuel, keys, i as int, sti.search())
                    == search_keys(tree@, skip, max_count, fuel, keys, i + 1, st.search()));
            }
            i = i + 1;
        }
        proof {
            assert(st.found() == search_cycles(*tree, skip, max_count));
            if st.found().len() == 0 && max_count != Some(0usize) {
                assert(!limit_reached(0, max_count));
                assert forall|k: Seq<char>| tree@.contains_key(k) implies #[trigger] st.black(k) by {
                    let j = choose|j: int| 0 <= j < tree.key_list().len() && tree.key_list()[j] == k;
                    assert(st.black(tree.key_list()[j]));
                }
                lemma_closed_acyclic(st, *tree, skip);
            }
            if st.found().len() > 0 {
                let x = choose|x: Seq<Seq<char>>| is_simple_cycle(tree@, skip, x) && #[trigger] st.found()[0] == canonical(x);
                assert(is_closed_walk(tree@, skip, x));
            }
            assert forall|i: int| 0 <= i < st.found().len() implies (#[trigger] st.found()[i]).no_duplicates() by {
                let x = choose|x: Seq<Seq<char>>| is_simple_cycle(tree@, skip, x) && #[trigger] st.found()[i] == canonical(x);
                lemma_canonical_no_duplicates(x);
            }
            let cs = st.found();
            assert forall|i: int, j: int| 0 <= i < j < cs.len() implies !same_cycle(#[trigger] cs[i], #[trigger] cs[j]) by {
                let xi = choose|x: Seq<Seq<char>>| is_simple_cycle(tree@, skip, x) && #[trigger] cs[i] == canonical(x);
                let xj = choose|x: Seq<Seq<char>>| is_simple_cycle(tree@, skip, x) && #[trigger] cs[j] == canonical(x);
                lemma_canonical_is_same_cycle(xi);
                lemma_canonical_is_same_cycle(xj);
                lemma_canonical_key_same_cycle(xi, cs[i]);
                lemma_canonical_key_same_cycle(xj, cs[j]);
                if same_cycle(cs[i], cs[j]) {
                    lemma_canonical_key_same_cycle(cs[i], cs[j]);
                    assert(cycle_key(cs[i]) == cycle_key(cs[j]));
                }
            }
        }
        st.circulars
    }
}

} // verus!
