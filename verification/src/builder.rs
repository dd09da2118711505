//! The decisions of building a dependency tree: which files the include and
//! exclude patterns select, which entries are globs, the order and
//! uniqueness of the expanded entry list, and the bookkeeping of the
//! breadth-first build (files taken up, files found for the next round).
use vstd::prelude::*;
use vstd::hash_set::StringHashSet;
use crate::parser::{regex_captures, regex_captures_spec};
use crate::paths::{std_extension, std_path_eq, std_strip_prefix};
use crate::text::{chars_of, lemma_lex_antisymmetric, lemma_lex_total, lemma_lex_transitive, lex_le, lex_le_exec,
    owned, replace_char, replace_char_spec};
use crate::types::strs_view;

verus! {

/// Whether `pattern` compiles and matches somewhere in `text`: a match
/// exists exactly where the capture sets of the pattern in the text are
/// not empty.
pub open spec fn regex_matches(pattern: Seq<char>, text: Seq<char>) -> bool {
    match regex_captures_spec(pattern, text) {
        Some(caps) => caps.len() > 0,
        None => false,
    }
}

/// Whether `pattern` matches somewhere in `text` (see [`regex_matches`]).
pub fn regex_is_match(pattern: &str, text: &str) -> (b: bool)
    ensures
        b == regex_matches(pattern@, text@),
{
    match regex_captures(pattern, text) {
        Some(caps) => caps.len() > 0,
        None => false,
    }
}

/// Whether a file is taken into the analysis: the include pattern matches
/// its path and the exclude pattern does not.
pub open spec fn selected(pattern_in: Seq<char>, exclude: Seq<char>, path: Seq<char>) -> bool {
    regex_matches(pattern_in, path) && !regex_matches(exclude, path)
}

/// Whether the file at `path` is taken into the analysis (see
/// [`selected`]).
pub fn is_selected(pattern_in: &str, exclude: &str, path: &str) -> (b: bool)
    ensures
        b == selected(pattern_in@, exclude@, path@),
{
    regex_is_match(pattern_in, path) && !regex_is_match(exclude, path)
}

/// Whether the extension of `path`, with a leading dot, is one of `exts`.
pub open spec fn by_extension(path: Seq<char>, exts: Seq<Seq<char>>) -> bool {
    match std_extension(path) {
        Some(e) => exts.contains(seq!['.'] + e),
        None => false,
    }
}

/// Whether the extension of `path` is one of `exts` (see
/// [`by_extension`]).
pub fn is_by_extension(path: &str, exts: &Vec<String>) -> (b: bool)
    ensures
        b == by_extension(path@, strs_view(exts@)),
{
    match crate::paths::extension(path) {
        Some(e) => {
            let mut dotted: Vec<char> = vec!['.'];
            let ec = chars_of(e.as_str());
            crate::text::extend_chars(&mut dotted, &ec);
            assert(dotted@ =~= seq!['.'] + e@);
            let ghost ev = strs_view(exts@);
            let mut i: usize = 0;
            while i < exts.len()
                invariant
                    i <= exts@.len(),
                    ev == strs_view(exts@),
                    std_extension(path@) == Some(e@),
                    dotted@ == seq!['.'] + e@,
                    forall|j: int| 0 <= j < i ==> ev[j] != dotted@,
                decreases exts@.len() - i,
            {
                let xc = chars_of(exts[i].as_str());
                if crate::text::seq_starts_with(&xc, &dotted) && xc.len() == dotted.len() {
                    assert(xc@.subrange(0, dotted@.len() as int) =~= xc@);
                    assert(ev[i as int] == dotted@);
                    assert(ev.contains(dotted@));
                    return true;
                }
                proof {
                    if ev[i as int] == dotted@ {
                        assert(xc@ == dotted@);
                        assert(xc@.subrange(0, dotted@.len() as int) =~= xc@);
                    }
                }
                i = i + 1;
            }
            false
        },
        None => false,
    }
}

/// Whether a file found while expanding the entries is kept: it is
/// selected by the patterns and has one of the extensions.
pub open spec fn kept_file(pattern_in: Seq<char>, exclude: Seq<char>, exts: Seq<Seq<char>>, path: Seq<char>) -> bool {
    selected(pattern_in, exclude, path) && by_extension(path, exts)
}

/// Whether a file found while expanding the entries is kept (see
/// [`kept_file`]).
pub fn accepts_file(pattern_in: &str, exclude: &str, exts: &Vec<String>, path: &str) -> (b: bool)
    ensures
        b == kept_file(pattern_in@, exclude@, strs_view(exts@), path@),
{
    is_selected(pattern_in, exclude, path) && is_by_extension(path, exts)
}

/// Whether an entry is a glob pattern: it holds `*`, `?` or `[`.
pub open spec fn is_glob(entry: Seq<char>) -> bool {
    entry.contains('*') || entry.contains('?') || entry.contains('[')
}

/// Whether `entry` is a glob pattern (see [`is_glob`]).
pub fn contains_glob(entry: &str) -> (b: bool)
    ensures
        b == is_glob(entry@),
{
    let cs = chars_of(entry);
    let mut i: usize = 0;
    while i < cs.len()
        invariant
            i <= cs@.len(),
            cs@ == entry@,
            forall|j: int| 0 <= j < i ==> cs@[j] != '*' && cs@[j] != '?' && cs@[j] != '[',
        decreases cs@.len() - i,
    {
        if cs[i] == '*' || cs[i] == '?' || cs[i] == '[' {
            assert(entry@[i as int] == cs[i as int]);
            return true;
        }
        i = i + 1;
    }
    false
}

/// Strictly increasing in the lexicographic order: sorted and free of
/// repeats.
pub open spec fn strictly_sorted(v: Seq<Seq<char>>) -> bool {
    forall|i: int, j: int| 0 <= i < j < v.len() ==> lex_le(#[trigger] v[i], #[trigger] v[j]) && v[i] != v[j]
}

/// The strings of `items`, each once, in increasing lexicographic order
/// (the order of std's `sort` on strings).
pub fn sorted_unique(items: &Vec<String>) -> (r: Vec<String>)
    ensures
        strictly_sorted(strs_view(r@)),
        strs_view(r@).to_set() == strs_view(items@).to_set(),
{
    let ghost iv = strs_view(items@);
    let mut out: Vec<String> = Vec::new();
    let mut outc: Vec<Vec<char>> = Vec::new();
    let mut i: usize = 0;
    while i < items.len()
        invariant
            i <= items@.len(),
            iv == strs_view(items@),
            outc@.len() == out@.len(),
            forall|k: int| 0 <= k < out@.len() ==> (#[trigger] outc@[k])@ == out@[k]@,
            strictly_sorted(strs_view(out@)),
            strs_view(out@).to_set() == iv.subrange(0, i as int).to_set(),
        decreases items@.len() - i,
    {
        let ghost ov = strs_view(out@);
        let ic = chars_of(items[i].as_str());
        proof {
            assert(iv.subrange(0, i + 1) =~= iv.subrange(0, i as int).push(ic@));
            iv.subrange(0, i as int).lemma_push_to_set_commute(ic@);
        }
        // the first position whose string is not below the item
        let mut k: usize = 0;
        while k < outc.len() && !lex_le_exec(&ic, &outc[k])
            invariant
                k <= outc@.len(),
                outc@.len() == out@.len(),
                forall|q: int| 0 <= q < out@.len() ==> (#[trigger] outc@[q])@ == out@[q]@,
                ov == strs_view(out@),
                forall|q: int| 0 <= q < k ==> !lex_le(ic@, #[trigger] ov[q]),
            decreases outc@.len() - k,
        {
            assert(outc@[k as int]@ == ov[k as int]);
            k = k + 1;
        }
        if k < outc.len() && crate::text::str_eq(out[k].as_str(), items[i].as_str()) {
            proof {
                assert(ov[k as int] == ic@);
                assert(ov.to_set().contains(ic@));
                assert(ov.to_set().insert(ic@) =~= ov.to_set());
            }
        } else {
            let ghost before = ov;
            proof {
                if k < outc@.len() {
                    assert(outc@[k as int]@ == ov[k as int]);
                    assert(lex_le(ic@, ov[k as int]));
                    assert(ov[k as int] != ic@);
                }
            }
            let copy = owned(items[i].as_str());
            let ghost o0 = out@;
            let ghost oc0 = outc@;
            out.insert(k, copy);
            let icc = ic.clone();
            outc.insert(k, icc);
            proof {
                let nv = strs_view(out@);
                assert(out@ == o0.insert(k as int, copy));
                assert(outc@ == oc0.insert(k as int, icc));
                assert(nv =~= before.insert(k as int, ic@));
                assert forall|q: int| 0 <= q < out@.len() implies (#[trigger] outc@[q])@ == out@[q]@ by {
                    if q < k {
                        assert(outc@[q] == oc0[q] && out@[q] == o0[q]);
                    } else if q == k {
                    } else {
                        assert(outc@[q] == oc0[q - 1] && out@[q] == o0[q - 1]);
                    }
                }
                assert forall|a: int, b: int| 0 <= a < b < nv.len() implies lex_le(#[trigger] nv[a], #[trigger] nv[b]) && nv[a] != nv[b] by {
                    lemma_insert_keeps_sorted(before, ic@, k as int, a, b);
                }
                assert(nv.to_set() =~= before.to_set().insert(ic@)) by {
                    assert forall|x: Seq<char>| nv.to_set().contains(x) == before.to_set().insert(ic@).contains(x) by {
                        if nv.to_set().contains(x) {
                            let q = choose|q: int| 0 <= q < nv.len() && nv[q] == x;
                            if q < k {
                                assert(before[q] == x);
                            } else if q > k {
                                assert(before[q - 1] == x);
                            }
                        }
                        if before.to_set().contains(x) {
                            let q = choose|q: int| 0 <= q < before.len() && before[q] == x;
                            if q < k {
                                assert(nv[q] == x);
                            } else {
                                assert(nv[q + 1] == x);
                            }
                        }
                        if x == ic@ {
                            assert(nv[k as int] == x);
                        }
                    }
                }
            }
        }
        i = i + 1;
    }
    assert(iv.subrange(0, items@.len() as int) =~= iv);
    out
}

/// Inserting `x` at the first position whose string is not below it keeps
/// a strictly sorted sequence strictly sorted.
proof fn lemma_insert_keeps_sorted(v: Seq<Seq<char>>, x: Seq<char>, k: int, a: int, b: int)
    requires
        strictly_sorted(v),
        0 <= k <= v.len(),
        forall|q: int| 0 <= q < k ==> !lex_le(x, #[trigger] v[q]),
        k < v.len() ==> lex_le(x, v[k]) && v[k] != x,
        0 <= a < b < v.len() + 1,
    ensures
        lex_le(v.insert(k, x)[a], v.insert(k, x)[b]) && v.insert(k, x)[a] != v.insert(k, x)[b],
{
    let nv = v.insert(k, x);
    if b < k {
        assert(nv[a] == v[a] && nv[b] == v[b]);
    } else if b == k {
        assert(nv[a] == v[a] && nv[b] == x);
        lemma_lex_total(x, v[a]);
        assert(v[a] != x);
    } else if a == k {
        assert(nv[a] == x && nv[b] == v[b - 1]);
        if b - 1 == k {
        } else {
            assert(lex_le(v[k], v[b - 1]) && v[k] != v[b - 1]);
            lemma_lex_transitive(x, v[k], v[b - 1]);
            if x == v[b - 1] {
                lemma_lex_antisymmetric(v[k], x);
            }
        }
    } else if a < k {
        assert(nv[a] == v[a] && nv[b] == v[b - 1]);
    } else {
        assert(nv[a] == v[a - 1] && nv[b] == v[b - 1]);
    }
}

/// Sorted in lexicographic order, repeats allowed.
pub open spec fn sorted(v: Seq<Seq<char>>) -> bool {
    forall|i: int, j: int| 0 <= i < j < v.len() ==> lex_le(#[trigger] v[i], #[trigger] v[j])
}

/// The strings of `items` in increasing lexicographic order, repeats kept
/// (std `sort` on strings).
pub fn sorted_all(items: &Vec<String>) -> (r: Vec<String>)
    ensures
        sorted(strs_view(r@)),
        strs_view(r@).to_multiset() == strs_view(items@).to_multiset(),
{
    let ghost iv = strs_view(items@);
    let mut out: Vec<String> = Vec::new();
    let mut outc: Vec<Vec<char>> = Vec::new();
    let mut i: usize = 0;
    proof {
        assert(iv.subrange(0, 0) =~= Seq::<Seq<char>>::empty());
        assert(strs_view(out@) =~= Seq::<Seq<char>>::empty());
    }
    while i < items.len()
        invariant
            i <= items@.len(),
            iv == strs_view(items@),
            outc@.len() == out@.len(),
            forall|k: int| 0 <= k < out@.len() ==> (#[trigger] outc@[k])@ == out@[k]@,
            sorted(strs_view(out@)),
            strs_view(out@).to_multiset() == iv.subrange(0, i as int).to_multiset(),
        decreases items@.len() - i,
    {
        let ghost ov = strs_view(out@);
        let ic = chars_of(items[i].as_str());
        proof {
            assert(iv.subrange(0, i + 1) =~= iv.subrange(0, i as int).push(ic@));
            vstd::seq_lib::to_multiset_build(iv.subrange(0, i as int), ic@);
        }
        // the first position whose string is above the item
        let mut k: usize = 0;
        while k < outc.len() && lex_le_exec(&outc[k], &ic)
            invariant
                k <= outc@.len(),
                outc@.len() == out@.len(),
                forall|q: int| 0 <= q < out@.len() ==> (#[trigger] outc@[q])@ == out@[q]@,
                ov == strs_view(out@),
                forall|q: int| 0 <= q < k ==> lex_le(#[trigger] ov[q], ic@),
            decreases outc@.len() - k,
        {
            assert(outc@[k as int]@ == ov[k as int]);
            k = k + 1;
        }
        proof {
            if k < outc@.len() {
                assert(outc@[k as int]@ == ov[k as int]);
                assert(!lex_le(ov[k as int], ic@));
                lemma_lex_total(ov[k as int], ic@);
            }
        }
        let copy = owned(items[i].as_str());
        let ghost o0 = out@;
        let ghost oc0 = outc@;
        out.insert(k, copy);
        let icc = ic.clone();
        outc.insert(k, icc);
        proof {
            let nv = strs_view(out@);
            assert(out@ == o0.insert(k as int, copy));
            assert(outc@ == oc0.insert(k as int, icc));
            assert(nv =~= ov.insert(k as int, ic@));
            vstd::seq_lib::to_multiset_insert(ov, k as int, ic@);
            assert forall|q: int| 0 <= q < out@.len() implies (#[trigger] outc@[q])@ == out@[q]@ by {
                if q < k {
                    assert(outc@[q] == oc0[q] && out@[q] == o0[q]);
                } else if q == k {
                } else {
                    assert(outc@[q] == oc0[q - 1] && out@[q] == o0[q - 1]);
                }
            }
            assert forall|a: int, b: int| 0 <= a < b < nv.len() implies lex_le(#[trigger] nv[a], #[trigger] nv[b]) by {
                lemma_insert_keeps_order(ov, ic@, k as int, a, b);
            }
        }
        i = i + 1;
    }
    assert(iv.subrange(0, items@.len() as int) =~= iv);
    out
}

/// Inserting `x` before the first string above it keeps a sorted sequence
/// sorted.
proof fn lemma_insert_keeps_order(v: Seq<Seq<char>>, x: Seq<char>, k: int, a: int, b: int)
    requires
        sorted(v),
        0 <= k <= v.len(),
        forall|q: int| 0 <= q < k ==> lex_le(#[trigger] v[q], x),
        k < v.len() ==> lex_le(x, v[k]),
        0 <= a < b < v.len() + 1,
    ensures
        lex_le(v.insert(k, x)[a], v.insert(k, x)[b]),
{
    let nv = v.insert(k, x);
    if b < k {
        assert(nv[a] == v[a] && nv[b] == v[b]);
    } else if b == k {
        assert(nv[a] == v[a] && nv[b] == x);
    } else if a == k {
        assert(nv[a] == x && nv[b] == v[b - 1]);
        if b - 1 > k {
            assert(lex_le(v[k], v[b - 1]));
            lemma_lex_transitive(x, v[k], v[b - 1]);
        }
    } else if a < k {
        assert(nv[a] == v[a] && nv[b] == v[b - 1]);
        assert(lex_le(v[a], x));
        if b - 1 >= k {
            assert(lex_le(x, v[k]));
            lemma_lex_transitive(v[a], x, v[k]);
            if b - 1 > k {
                assert(lex_le(v[k], v[b - 1]));
                lemma_lex_transitive(v[a], v[k], v[b - 1]);
            }
        }
    } else {
        assert(nv[a] == v[a - 1] && nv[b] == v[b - 1]);
    }
}

/// A path found while expanding the entries, relative to the context
/// where it lies inside it.
pub open spec fn relative_entry(path: Seq<char>, ctx_abs: Seq<char>) -> Seq<char> {
    match std_strip_prefix(path, ctx_abs) {
        Some(r) => r,
        None => path,
    }
}

/// The found paths made relative to the context.
pub open spec fn relative_entries(found: Seq<Seq<char>>, ctx_abs: Seq<char>) -> Seq<Seq<char>> {
    found.map_values(|f: Seq<char>| relative_entry(f, ctx_abs))
}

/// The paths of `ps`, each kept the first time it occurs: a path equal
/// (component by component) to one kept before is left out.
pub open spec fn distinct_paths(ps: Seq<Seq<char>>) -> Seq<Seq<char>>
    decreases ps.len(),
{
    if ps.len() == 0 {
        Seq::empty()
    } else {
        let kept = distinct_paths(ps.drop_last());
        if exists|k: int| 0 <= k < kept.len() && std_path_eq(#[trigger] kept[k], ps.last()) {
            kept
        } else {
            kept.push(ps.last())
        }
    }
}

/// A path of the expanded list as written: with `/` as separator.
pub open spec fn slashed(p: Seq<char>) -> Seq<char> {
    replace_char_spec(p, '\\', '/')
}

/// The paths of the expanded list, before sorting: the found paths made
/// relative to the context, each path once, written with `/`.
pub open spec fn expanded_texts(found: Seq<Seq<char>>, ctx_abs: Seq<char>) -> Seq<Seq<char>> {
    distinct_paths(relative_entries(found, ctx_abs)).map_values(|p: Seq<char>| slashed(p))
}

/// No path of [`distinct_paths`] equals one kept before it.
pub proof fn lemma_distinct_paths(ps: Seq<Seq<char>>)
    ensures
        forall|a: int, b: int| 0 <= a < b < distinct_paths(ps).len() ==>
            !std_path_eq(#[trigger] distinct_paths(ps)[a], #[trigger] distinct_paths(ps)[b]),
    decreases ps.len(),
{
    if ps.len() > 0 {
        lemma_distinct_paths(ps.drop_last());
        let kept = distinct_paths(ps.drop_last());
        let d = distinct_paths(ps);
        if !(exists|k: int| 0 <= k < kept.len() && std_path_eq(#[trigger] kept[k], ps.last())) {
            assert(d == kept.push(ps.last()));
            assert forall|a: int, b: int| 0 <= a < b < d.len() implies !std_path_eq(#[trigger] d[a], #[trigger] d[b]) by {
                assert(d[a] == kept[a]);
                if b < kept.len() {
                    assert(d[b] == kept[b]);
                } else {
                    assert(d[b] == ps.last());
                }
            }
        }
    }
}

/// The expanded entry list from the paths found: each made relative to
/// `ctx_abs` where it lies inside it, paths that are the same path
/// (component by component) taken once, each written with `/`, and all in
/// increasing order (see [`expanded_texts`]).
pub fn finish_expanded(found: &Vec<String>, ctx_abs: &str) -> (r: Vec<String>)
    ensures
        sorted(strs_view(r@)),
        strs_view(r@).to_multiset() == expanded_texts(strs_view(found@), ctx_abs@).to_multiset(),
        forall|a: int, b: int| 0 <= a < b < distinct_paths(relative_entries(strs_view(found@), ctx_abs@)).len() ==>
            !std_path_eq(#[trigger] distinct_paths(relative_entries(strs_view(found@), ctx_abs@))[a],
                #[trigger] distinct_paths(relative_entries(strs_view(found@), ctx_abs@))[b]),
{
    let ghost rels = relative_entries(strs_view(found@), ctx_abs@);
    let mut kept: Vec<String> = Vec::new();
    let mut i: usize = 0;
    proof {
        assert(rels.subrange(0, 0) =~= Seq::<Seq<char>>::empty());
        assert(strs_view(kept@) =~= Seq::<Seq<char>>::empty());
    }
    while i < found.len()
        invariant
            i <= found@.len(),
            rels == relative_entries(strs_view(found@), ctx_abs@),
            strs_view(kept@) == distinct_paths(rels.subrange(0, i as int)),
        decreases found@.len() - i,
    {
        let rel = match crate::paths::strip_prefix(found[i].as_str(), ctx_abs) {
            Some(r) => r,
            None => owned(found[i].as_str()),
        };
        let ghost kv = strs_view(kept@);
        proof {
            assert(rel@ == rels[i as int]);
            assert(rels.subrange(0, i + 1).drop_last() =~= rels.subrange(0, i as int));
            assert(rels.subrange(0, i + 1).last() == rel@);
        }
        let mut k: usize = 0;
        let mut dup = false;
        while k < kept.len()
            invariant
                k <= kept@.len(),
                kv == strs_view(kept@),
                dup == exists|q: int| 0 <= q < k && std_path_eq(#[trigger] kv[q], rel@),
            decreases kept@.len() - k,
        {
            if crate::paths::same_path(kept[k].as_str(), rel.as_str()) {
                assert(std_path_eq(kv[k as int], rel@));
                dup = true;
            }
            k = k + 1;
        }
        if !dup {
            kept.push(rel);
            assert(strs_view(kept@) =~= kv.push(rels[i as int]));
        }
        i = i + 1;
    }
    assert(rels.subrange(0, found@.len() as int) =~= rels);
    let mut listed: Vec<String> = Vec::new();
    let mut j: usize = 0;
    while j < kept.len()
        invariant
            j <= kept@.len(),
            strs_view(listed@) == strs_view(kept@).subrange(0, j as int).map_values(|p: Seq<char>| slashed(p)),
        decreases kept@.len() - j,
    {
        let t = replace_char(kept[j].as_str(), '\\', '/');
        let ghost l0 = strs_view(listed@);
        listed.push(t);
        assert(strs_view(listed@) =~= l0.push(t@));
        assert(strs_view(kept@).subrange(0, j + 1).map_values(|p: Seq<char>| slashed(p))
            =~= strs_view(kept@).subrange(0, j as int).map_values(|p: Seq<char>| slashed(p)).push(slashed(kept@[j as int]@)));
        j = j + 1;
    }
    assert(strs_view(kept@).subrange(0, kept@.len() as int) =~= strs_view(kept@));
    proof {
        lemma_distinct_paths(rels);
    }
    sorted_all(&listed)
}

/// The bookkeeping of a breadth-first build: the files already taken up,
/// by normalised path, and the files found for the next round, each once
/// and in the order found.
pub struct BuildQueue {
    processed: StringHashSet,
    pending: Vec<String>,
}

impl BuildQueue {
    /// The files taken up.
    pub closed spec fn processed(self) -> Set<Seq<char>> {
        self.processed@
    }

    /// The files found for the next round.
    pub closed spec fn pending(self) -> Seq<Seq<char>> {
        strs_view(self.pending@)
    }

    /// Nothing taken up, nothing found.
    pub fn new() -> (q: Self)
        ensures
            q.processed() == Set::<Seq<char>>::empty(),
            q.pending() == Seq::<Seq<char>>::empty(),
    {
        let q = BuildQueue { processed: StringHashSet::new(), pending: Vec::new() };
        assert(strs_view(q.pending@) =~= Seq::<Seq<char>>::empty());
        q
    }

    /// Whether the file with normalised path `normalized` was taken up.
    pub fn is_processed(&self, normalized: &str) -> (b: bool)
        ensures
            b == self.processed().contains(normalized@),
    {
        self.processed.contains(normalized)
    }

    /// The number of files taken up.
    pub fn processed_count(&self) -> (n: usize)
        ensures
            n == self.processed().len(),
    {
        self.processed.len()
    }

    /// Takes up the file with normalised path `normalized` unless it was
    /// taken up before; says whether it is new.
    pub fn take_up(&mut self, normalized: String) -> (fresh: bool)
        ensures
            fresh == !old(self).processed().contains(normalized@),
            final(self).processed() == old(self).processed().insert(normalized@),
            final(self).pending() == old(self).pending(),
    {
        if self.processed.contains(normalized.as_str()) {
            false
        } else {
            self.processed.insert(normalized);
            true
        }
    }

    /// Records a file found as a dependency for the next round, unless it
    /// was taken up or is already recorded.
    pub fn discover(&mut self, id: String)
        ensures
            final(self).processed() == old(self).processed(),
            final(self).pending() == (if old(self).processed().contains(id@) || old(self).pending().contains(id@) {
                old(self).pending()
            } else {
                old(self).pending().push(id@)
            }),
    {
        if self.processed.contains(id.as_str()) {
            return;
        }
        let ghost pv = strs_view(self.pending@);
        let mut i: usize = 0;
        while i < self.pending.len()
            invariant
                i <= self.pending@.len(),
                pv == strs_view(self.pending@),
                forall|j: int| 0 <= j < i ==> pv[j] != id@,
            decreases self.pending@.len() - i,
        {
            if crate::text::str_eq(self.pending[i].as_str(), id.as_str()) {
                assert(pv[i as int] == id@);
                return;
            }
            i = i + 1;
        }
        self.pending.push(id);
        assert(strs_view(self.pending@) =~= pv.push(id@));
    }

    /// Hands out the files found for the next round and forgets them.
    pub fn take_pending(&mut self) -> (r: Vec<String>)
        ensures
            strs_view(r@) == old(self).pending(),
            final(self).pending() == Seq::<Seq<char>>::empty(),
            final(self).processed() == old(self).processed(),
    {
        let mut out: Vec<String> = Vec::new();
        std::mem::swap(&mut out, &mut self.pending);
        assert(strs_view(self.pending@) =~= Seq::<Seq<char>>::empty());
        out
    }
}

/// A file taken up is not queued again: after `take_up(x)`, `discover(x)`
/// leaves the files found for the next round as they were.
pub proof fn lemma_taken_up_not_queued(processed: Set<Seq<char>>, pending: Seq<Seq<char>>, x: Seq<char>)
    ensures
        (if processed.insert(x).contains(x) || pending.contains(x) { pending } else { pending.push(x) }) == pending,
{
}

} // verus!
