//! The decisions of module resolution: lexical normalisation of a path,
//! which requests the tsconfig aliases apply to and which paths an alias
//! maps a request to, which file of a directory a request names, which
//! entry of a package manifest is its main module, and the resolver's
//! memo and caches with their invalidation.
use vstd::prelude::*;
use crate::circular::{join, join_with};
use crate::paths::{std_file_name, std_is_absolute, std_join, std_parent};
use crate::strmap::StrMap;
use crate::text::{chars_of, extend_chars, is_prefix, is_suffix, owned, replace_char, replace_char_spec,
    split_char, split_on, str_eq, string_from_chars};
use crate::types::strs_view;

verus! {

/// The path component `..`.
pub open spec fn dot_dot() -> Seq<char> {
    seq!['.', '.']
}

/// The path component `.`.
pub open spec fn dot() -> Seq<char> {
    seq!['.']
}

/// The components kept by lexical normalisation of `parts`, read from
/// left to right: empty parts and `.` are dropped, `..` removes the last
/// kept component unless there is none or it is itself `..`.
pub open spec fn fold_parts(parts: Seq<Seq<char>>) -> Seq<Seq<char>>
    decreases parts.len(),
{
    if parts.len() == 0 {
        Seq::empty()
    } else {
        let acc = fold_parts(parts.drop_last());
        let p = parts.last();
        if p.len() == 0 || p == dot() {
            acc
        } else if p == dot_dot() {
            if acc.len() > 0 && acc.last() != dot_dot() {
                acc.drop_last()
            } else {
                acc.push(p)
            }
        } else {
            acc.push(p)
        }
    }
}

/// A path normalised lexically with `/` as separator: backslashes become
/// slashes, the components are folded by [`fold_parts`] and joined with
/// `/`, and a leading `/` is kept.
pub open spec fn normalized(path: Seq<char>) -> Seq<char> {
    let n = replace_char_spec(path, '\\', '/');
    let body = join(fold_parts(split_on(n, '/')), seq!['/']);
    if n.len() > 0 && n[0] == '/' {
        seq!['/'] + body
    } else {
        body
    }
}

fn is_dot_dot(s: &str) -> (b: bool)
    ensures
        b == (s@ == dot_dot()),
{
    let cs = chars_of(s);
    let b = cs.len() == 2 && cs[0] == '.' && cs[1] == '.';
    if b {
        assert(cs@ =~= dot_dot());
    }
    b
}

/// Lexical normalisation of a path (see [`normalized`]).
pub fn normalize_path(path: &str) -> (r: String)
    ensures
        r@ == normalized(path@),
{
    let n = replace_char(path, '\\', '/');
    let parts = split_char(n.as_str(), '/');
    let mut kept: Vec<String> = Vec::new();
    let mut i: usize = 0;
    while i < parts.len()
        invariant
            i <= parts@.len(),
            strs_view(kept@) == fold_parts(strs_view(parts@).subrange(0, i as int)),
        decreases parts@.len() - i,
    {
        let ghost pre = strs_view(parts@).subrange(0, i as int);
        let ghost next = strs_view(parts@).subrange(0, i + 1);
        let ghost k0 = strs_view(kept@);
        proof {
            assert(next.drop_last() =~= pre);
            assert(next.last() == parts@[i as int]@);
        }
        let pc = chars_of(parts[i].as_str());
        if pc.len() == 0 || (pc.len() == 1 && pc[0] == '.') {
            proof {
                if pc@.len() == 1 {
                    assert(pc@ =~= dot());
                }
            }
        } else if pc.len() == 2 && pc[0] == '.' && pc[1] == '.' {
            assert(pc@ =~= dot_dot());
            let pops = kept.len() > 0 && !is_dot_dot(kept[kept.len() - 1].as_str());
            if pops {
                kept.pop();
                assert(strs_view(kept@) =~= k0.drop_last());
            } else {
                kept.push(owned(parts[i].as_str()));
                assert(strs_view(kept@) =~= k0.push(parts@[i as int]@));
            }
        } else {
            proof {
                if pc@.len() == 1 {
                    assert(pc@ != dot()) by {
                        assert(pc@[0] != dot()[0]);
                    }
                }
                if pc@.len() == 2 {
                    assert(pc@ != dot_dot()) by {
                        if pc@[0] != '.' {
                            assert(pc@[0] != dot_dot()[0]);
                        } else {
                            assert(pc@[1] != dot_dot()[1]);
                        }
                    }
                }
            }
            kept.push(owned(parts[i].as_str()));
            assert(strs_view(kept@) =~= k0.push(parts@[i as int]@));
        }
        i = i + 1;
    }
    assert(strs_view(parts@).subrange(0, parts@.len() as int) =~= strs_view(parts@));
    let sep: Vec<char> = vec!['/'];
    assert(sep@ =~= seq!['/']);
    let body = join_with(&kept, &sep);
    let nc = chars_of(n.as_str());
    assert(body@ == join(fold_parts(split_on(n@, '/')), seq!['/']));
    if nc.len() > 0 && nc[0] == '/' {
        let mut out: Vec<char> = vec!['/'];
        assert(out@ =~= seq!['/']);
        extend_chars(&mut out, &body);
        string_from_chars(&out)
    } else {
        string_from_chars(&body)
    }
}

/// Whether `r` names a scoped package (`@scope/name`): it starts with `@`
/// but not with `@/`, holds a `/`, and the part after its first `/` is not
/// empty. The tsconfig aliases are not tried for such a request.
pub open spec fn is_scoped_package(r: Seq<char>) -> bool {
    &&& r.len() > 0
    &&& r[0] == '@'
    &&& !(r.len() >= 2 && r[1] == '/')
    &&& split_on(r, '/').len() >= 2
    &&& split_on(r, '/')[1].len() > 0
}

/// Whether `request` names a scoped package (see [`is_scoped_package`]).
pub fn is_scoped_package_request(request: &str) -> (b: bool)
    ensures
        b == is_scoped_package(request@),
{
    let cs = chars_of(request);
    if cs.len() == 0 || cs[0] != '@' {
        return false;
    }
    if cs.len() >= 2 && cs[1] == '/' {
        return false;
    }
    let parts = split_char(request, '/');
    if parts.len() < 2 {
        return false;
    }
    let second = chars_of(parts[1].as_str());
    second.len() > 0
}

/// The suffix `/*` of a wildcard pattern.
pub open spec fn star_suffix() -> Seq<char> {
    seq!['/', '*']
}

/// The path an alias target names, relative to the directory of its
/// tsconfig: a target starting with `./` is joined without those two
/// characters, one starting with `/` stands as it is, another is joined.
pub open spec fn alias_target_path(base_dir: Seq<char>, target: Seq<char>) -> Seq<char> {
    if is_prefix(seq!['.', '/'], target) {
        std_join(base_dir, target.subrange(2, target.len() as int))
    } else if is_prefix(seq!['/'], target) {
        target
    } else {
        std_join(base_dir, target)
    }
}

/// The target path of a wildcard alias extended by what the request has
/// after the pattern's prefix (`rest`): nothing for an empty rest or `/`,
/// the rest without its leading `/`, or the rest as it is.
pub open spec fn with_rest(target_path: Seq<char>, rest: Seq<char>) -> Seq<char> {
    if rest.len() == 0 || rest == seq!['/'] {
        target_path
    } else if rest[0] == '/' {
        std_join(target_path, rest.subrange(1, rest.len() as int))
    } else {
        std_join(target_path, rest)
    }
}

/// The candidate paths of a wildcard alias for the request's `rest`: one
/// for each string target ending in `/*`, in order.
pub open spec fn wildcard_candidates(base_dir: Seq<char>, rest: Seq<char>, targets: Seq<Option<Seq<char>>>) -> Seq<Seq<char>>
    decreases targets.len(),
{
    if targets.len() == 0 {
        Seq::empty()
    } else {
        let prev = wildcard_candidates(base_dir, rest, targets.drop_last());
        match targets.last() {
            Some(t) => if is_suffix(star_suffix(), t) {
                prev.push(with_rest(alias_target_path(base_dir, t.subrange(0, t.len() - 2)), rest))
            } else {
                prev
            },
            None => prev,
        }
    }
}

/// The candidate paths of an exact alias: one for each string target, in
/// order.
pub open spec fn exact_candidates(base_dir: Seq<char>, targets: Seq<Option<Seq<char>>>) -> Seq<Seq<char>>
    decreases targets.len(),
{
    if targets.len() == 0 {
        Seq::empty()
    } else {
        let prev = exact_candidates(base_dir, targets.drop_last());
        match targets.last() {
            Some(t) => prev.push(alias_target_path(base_dir, t)),
            None => prev,
        }
    }
}

/// The paths, in the order they are tried, that a tsconfig `paths` entry
/// (`pattern` with its `targets`; `None` for a target that is not a string)
/// maps `request` to. A pattern ending in `/*` applies to requests that
/// start with what precedes the `/*`; another pattern to the request equal
/// to it.
pub open spec fn alias_candidates(base_dir: Seq<char>, request: Seq<char>, pattern: Seq<char>,
    targets: Seq<Option<Seq<char>>>) -> Seq<Seq<char>>
{
    if is_suffix(star_suffix(), pattern) {
        let prefix = pattern.subrange(0, pattern.len() - 2);
        if is_prefix(prefix, request) {
            wildcard_candidates(base_dir, request.subrange(prefix.len() as int, request.len() as int), targets)
        } else {
            Seq::empty()
        }
    } else if request == pattern {
        exact_candidates(base_dir, targets)
    } else {
        Seq::empty()
    }
}

/// Views of optional strings.
pub open spec fn opt_strs_view(v: Seq<Option<String>>) -> Seq<Option<Seq<char>>> {
    v.map_values(|o: Option<String>| crate::types::opt_str_view(o))
}

fn join_target(base_dir: &str, target: &[char]) -> (r: String)
    ensures
        r@ == alias_target_path(base_dir@, target@),
{
    let n = target.len();
    if n >= 2 && target[0] == '.' && target[1] == '/' {
        assert(is_prefix(seq!['.', '/'], target@)) by {
            assert(target@.subrange(0, 2) =~= seq!['.', '/']);
        }
        let tail = crate::text::slice_chars(target, 2, n);
        let ts = string_from_chars(&tail);
        crate::paths::join(base_dir, ts.as_str())
    } else if n >= 1 && target[0] == '/' {
        proof {
            assert(!is_prefix(seq!['.', '/'], target@)) by {
                if target@.len() >= 2 {
                    assert(target@.subrange(0, 2)[0] != '.');
                }
            }
            assert(target@.subrange(0, 1) =~= seq!['/']);
        }
        string_from_chars(target)
    } else {
        proof {
            assert(!is_prefix(seq!['.', '/'], target@)) by {
                if target@.len() >= 2 && target@.subrange(0, 2) == seq!['.', '/'] {
                    assert(target@.subrange(0, 2)[0] == '.');
                    assert(target@.subrange(0, 2)[1] == '/');
                }
            }
            assert(!is_prefix(seq!['/'], target@)) by {
                if target@.len() >= 1 && target@.subrange(0, 1) == seq!['/'] {
                    assert(target@.subrange(0, 1)[0] == '/');
                }
            }
        }
        let ts = string_from_chars(target);
        crate::paths::join(base_dir, ts.as_str())
    }
}

fn join_rest(target_path: String, rest: &[char]) -> (r: String)
    ensures
        r@ == with_rest(target_path@, rest@),
{
    let n = rest.len();
    if n == 0 || (n == 1 && rest[0] == '/') {
        proof {
            if n == 1 {
                assert(rest@ =~= seq!['/']);
            }
        }
        target_path
    } else if rest[0] == '/' {
        proof {
            assert(rest@ != seq!['/']) by {
                assert(rest@.len() != 1);
            }
        }
        let tail = crate::text::slice_chars(rest, 1, n);
        let ts = string_from_chars(&tail);
        crate::paths::join(target_path.as_str(), ts.as_str())
    } else {
        proof {
            assert(rest@ != seq!['/']) by {
                assert(rest@[0] != '/');
            }
        }
        let ts = string_from_chars(rest);
        crate::paths::join(target_path.as_str(), ts.as_str())
    }
}

/// The paths that the tsconfig `paths` entry `pattern` with `targets`
/// (`None` for a target that is not a string) maps `request` to, in the
/// order they are tried, with `base_dir` the directory of the tsconfig
/// (see [`alias_candidates`]).
pub fn match_ts_path_pattern(base_dir: &str, request: &str, pattern: &str, targets: &Vec<Option<String>>) -> (r: Vec<String>)
    ensures
        strs_view(r@) == alias_candidates(base_dir@, request@, pattern@, opt_strs_view(targets@)),
{
    let pc = chars_of(pattern);
    let rc = chars_of(request);
    let ghost tv = opt_strs_view(targets@);
    let star: Vec<char> = vec!['/', '*'];
    let mut out: Vec<String> = Vec::new();
    assert(star@ =~= star_suffix());
    if crate::text::seq_ends_with(&pc, &star) {
        let prefix = crate::text::slice_chars(&pc, 0, pc.len() - 2);
        if !crate::text::seq_starts_with(&rc, &prefix) {
            return out;
        }
        let rest = crate::text::slice_chars(&rc, prefix.len(), rc.len());
        let mut i: usize = 0;
        while i < targets.len()
            invariant
                i <= targets@.len(),
                tv == opt_strs_view(targets@),
                star@ == star_suffix(),
                strs_view(out@) == wildcard_candidates(base_dir@, rest@, tv.subrange(0, i as int)),
            decreases targets@.len() - i,
        {
            let ghost pre = tv.subrange(0, i as int);
            let ghost next = tv.subrange(0, i + 1);
            let ghost o0 = strs_view(out@);
            proof {
                assert(next.drop_last() =~= pre);
                assert(next.last() == tv[i as int]);
            }
            match &targets[i] {
                Some(t) => {
                    let tc = chars_of(t.as_str());
                    assert(tv[i as int] == Some(t@));
                    if crate::text::seq_ends_with(&tc, &star) {
                        let base = crate::text::slice_chars(&tc, 0, tc.len() - 2);
                        let tp = join_target(base_dir, &base);
                        let full = join_rest(tp, &rest);
                        out.push(full);
                        assert(strs_view(out@) =~= o0.push(full@));
                    }
                },
                None => {},
            }
            i = i + 1;
        }
        assert(tv.subrange(0, targets@.len() as int) =~= tv);
        out
    } else {
        if !crate::text::str_eq(request, pattern) {
            return out;
        }
        let mut i: usize = 0;
        while i < targets.len()
            invariant
                i <= targets@.len(),
                tv == opt_strs_view(targets@),
                strs_view(out@) == exact_candidates(base_dir@, tv.subrange(0, i as int)),
            decreases targets@.len() - i,
        {
            let ghost pre = tv.subrange(0, i as int);
            let ghost next = tv.subrange(0, i + 1);
            let ghost o0 = strs_view(out@);
            proof {
                assert(next.drop_last() =~= pre);
                assert(next.last() == tv[i as int]);
            }
            match &targets[i] {
                Some(t) => {
                    let tc = chars_of(t.as_str());
                    assert(tv[i as int] == Some(t@));
                    let tp = join_target(base_dir, &tc);
                    out.push(tp);
                    assert(strs_view(out@) =~= o0.push(tp@));
                },
                None => {},
            }
            i = i + 1;
        }
        assert(tv.subrange(0, targets@.len() as int) =~= tv);
        out
    }
}

/// A directory listing by its texts: each entry's name and kind (1 for a
/// file, 2 for a directory, 0 otherwise).
pub open spec fn listing_view(v: Seq<(String, u8)>) -> Seq<(Seq<char>, u8)> {
    v.map_values(|e: (String, u8)| (e.0@, e.1))
}

/// Whether the listing holds a file called `name`.
pub open spec fn has_file(listing: Seq<(Seq<char>, u8)>, name: Seq<char>) -> bool {
    exists|i: int| 0 <= i < listing.len() && #[trigger] listing[i] == (name, 1u8)
}

/// The index of the first extension `e` for which the listing holds the
/// file `base` followed by `e`.
pub open spec fn first_listed(listing: Seq<(Seq<char>, u8)>, base: Seq<char>, exts: Seq<Seq<char>>) -> Option<int>
    decreases exts.len(),
{
    if exts.len() == 0 {
        None
    } else {
        match first_listed(listing, base, exts.drop_last()) {
            Some(e) => Some(e),
            None => if has_file(listing, base + exts.last()) {
                Some(exts.len() - 1)
            } else {
                None
            },
        }
    }
}

/// The name under which a request is looked up in the listing of its
/// directory: its file name, or the whole request where it has none.
pub open spec fn listing_base(request: Seq<char>) -> Seq<char> {
    match std_file_name(request) {
        Some(n) => n,
        None => request,
    }
}

/// The file that the listing of the request's directory shows the request
/// to name: the request itself where the listing holds a file of its name,
/// else the request with the first extension under which the listing holds
/// a file; normalised. `None` where the listing shows neither.
pub open spec fn listed_path(request: Seq<char>, listing: Seq<(Seq<char>, u8)>, exts: Seq<Seq<char>>) -> Option<Seq<char>> {
    let base = listing_base(request);
    if has_file(listing, base) {
        Some(normalized(request))
    } else {
        match first_listed(listing, base, exts) {
            Some(e) => Some(normalized(request + exts[e])),
            None => None,
        }
    }
}

fn listing_has_file(listing: &Vec<(String, u8)>, name: &[char]) -> (b: bool)
    ensures
        b == has_file(listing_view(listing@), name@),
{
    let ghost lv = listing_view(listing@);
    let mut i: usize = 0;
    while i < listing.len()
        invariant
            i <= listing@.len(),
            lv == listing_view(listing@),
            forall|j: int| 0 <= j < i ==> lv[j] != (name@, 1u8),
        decreases listing@.len() - i,
    {
        let nc = chars_of(listing[i].0.as_str());
        assert(lv[i as int] == (listing@[i as int].0@, listing@[i as int].1));
        if listing[i].1 == 1u8 && nc.len() == name.len() {
            let mut k: usize = 0;
            let mut same = true;
            while k < nc.len()
                invariant
                    k <= nc@.len(),
                    nc@.len() == name@.len(),
                    same == (forall|q: int| 0 <= q < k ==> nc@[q] == name@[q]),
                decreases nc@.len() - k,
            {
                if nc[k] != name[k] {
                    same = false;
                }
                k = k + 1;
            }
            if same {
                assert(nc@ =~= name@);
                assert(lv[i as int] == (name@, 1u8));
                return true;
            } else {
                proof {
                    let q = choose|q: int| 0 <= q < nc@.len() && nc@[q] != name@[q];
                    assert(nc@[q] != name@[q]);
                    assert(nc@ != name@);
                }
            }
        }
        i = i + 1;
    }
    false
}

/// The file that a directory listing shows `request` to name, with the
/// extensions tried in order (see [`listed_path`]); `None` where the
/// listing shows none.
pub fn pick_from_listing(request: &str, listing: &Vec<(String, u8)>, extensions: &Vec<String>) -> (r: Option<String>)
    ensures
        crate::types::opt_str_view(r) == listed_path(request@, listing_view(listing@), strs_view(extensions@)),
{
    let ghost lv = listing_view(listing@);
    let ghost ev = strs_view(extensions@);
    let base = match crate::paths::file_name(request) {
        Some(n) => n,
        None => owned(request),
    };
    let bc = chars_of(base.as_str());
    assert(bc@ == listing_base(request@));
    if listing_has_file(listing, &bc) {
        return Some(normalize_path(request));
    }
    let mut e: usize = 0;
    while e < extensions.len()
        invariant
            e <= extensions@.len(),
            ev == strs_view(extensions@),
            lv == listing_view(listing@),
            bc@ == listing_base(request@),
            !has_file(lv, bc@),
            first_listed(lv, bc@, ev.subrange(0, e as int)) is None,
        decreases extensions@.len() - e,
    {
        let ghost pre = ev.subrange(0, e as int);
        let ghost next = ev.subrange(0, e + 1);
        assert(next.drop_last() =~= pre);
        assert(next.last() == extensions@[e as int]@);
        let mut cand = bc.clone();
        let ec = chars_of(extensions[e].as_str());
        extend_chars(&mut cand, &ec);
        if listing_has_file(listing, &cand) {
            let mut full = chars_of(request);
            extend_chars(&mut full, &ec);
            let fs = string_from_chars(&full);
            proof {
                assert(first_listed(lv, bc@, next) == Some(e as int));
                lemma_first_listed_prefix(lv, bc@, ev, (e + 1) as nat, ev.len());
                assert(ev.subrange(0, ev.len() as int) =~= ev);
                assert(ec@ == ev[e as int]);
                assert(fs@ == request@ + ev[e as int]);
            }
            return Some(normalize_path(fs.as_str()));
        }
        e = e + 1;
    }
    assert(ev.subrange(0, extensions@.len() as int) =~= ev);
    None
}

/// Once the first listed extension lies among the first `n`, it is the
/// first listed one of every longer prefix.
proof fn lemma_first_listed_prefix(lv: Seq<(Seq<char>, u8)>, base: Seq<char>, exts: Seq<Seq<char>>, n: nat, m: nat)
    requires
        n <= m <= exts.len(),
        first_listed(lv, base, exts.subrange(0, n as int)) is Some,
    ensures
        first_listed(lv, base, exts.subrange(0, m as int)) == first_listed(lv, base, exts.subrange(0, n as int)),
    decreases m,
{
    if m > n {
        lemma_first_listed_prefix(lv, base, exts, n, (m - 1) as nat);
        assert(exts.subrange(0, m as int).drop_last() =~= exts.subrange(0, m - 1));
    }
}

/// What the kinds of the paths a request may name (1 for a file, 2 for a
/// directory, 0 otherwise) make of it: the request itself, the request
/// with an extension, its directory's index, or nothing.
#[derive(Debug)]
pub enum KindPick {
    File(String),
    Directory,
    Missing,
}

/// The index of the first kind that is a file.
pub open spec fn first_file_kind(kinds: Seq<u8>) -> Option<int>
    decreases kinds.len(),
{
    if kinds.len() == 0 {
        None
    } else {
        match first_file_kind(kinds.drop_last()) {
            Some(e) => Some(e),
            None => if kinds.last() == 1u8 {
                Some(kinds.len() - 1)
            } else {
                None
            },
        }
    }
}

proof fn lemma_first_file_kind_prefix(ks: Seq<u8>, n: nat, m: nat)
    requires
        n <= m <= ks.len(),
        first_file_kind(ks.subrange(0, n as int)) is Some,
    ensures
        first_file_kind(ks.subrange(0, m as int)) == first_file_kind(ks.subrange(0, n as int)),
    decreases m,
{
    if m > n {
        lemma_first_file_kind_prefix(ks, n, (m - 1) as nat);
        assert(ks.subrange(0, m as int).drop_last() =~= ks.subrange(0, m - 1));
    }
}

/// What the kind of `request` (`kind`) and the kinds of the request with
/// each extension appended (`ext_kinds`, one per extension) make of it: the
/// normalised request where it is a file, else the normalised request with
/// the first extension that gives a file, else its directory where it is
/// one, else nothing.
pub fn pick_by_kinds(request: &str, kind: u8, ext_kinds: &Vec<u8>, extensions: &Vec<String>) -> (r: KindPick)
    requires
        ext_kinds@.len() == extensions@.len(),
    ensures
        kind == 1 ==> (r matches KindPick::File(f) && f@ == normalized(request@)),
        kind != 1 ==> match first_file_kind(ext_kinds@) {
            Some(e) => r matches KindPick::File(f) && f@ == normalized(request@ + extensions@[e]@),
            None => if kind == 2 { r is Directory } else { r is Missing },
        },
{
    if kind == 1 {
        return KindPick::File(normalize_path(request));
    }
    let mut e: usize = 0;
    while e < ext_kinds.len()
        invariant
            e <= ext_kinds@.len(),
            ext_kinds@.len() == extensions@.len(),
            kind != 1,
            first_file_kind(ext_kinds@.subrange(0, e as int)) is None,
        decreases ext_kinds@.len() - e,
    {
        assert(ext_kinds@.subrange(0, e + 1).drop_last() =~= ext_kinds@.subrange(0, e as int));
        if ext_kinds[e] == 1u8 {
            let mut full = chars_of(request);
            let ec = chars_of(extensions[e].as_str());
            extend_chars(&mut full, &ec);
            let fs = string_from_chars(&full);
            proof {
                lemma_first_file_kind_prefix(ext_kinds@, (e + 1) as nat, ext_kinds@.len());
                assert(ext_kinds@.subrange(0, ext_kinds@.len() as int) =~= ext_kinds@);
            }
            return KindPick::File(normalize_path(fs.as_str()));
        }
        e = e + 1;
    }
    assert(ext_kinds@.subrange(0, ext_kinds@.len() as int) =~= ext_kinds@);
    if kind == 2 {
        KindPick::Directory
    } else {
        KindPick::Missing
    }
}

/// The module a package manifest names as its entry: the `module` field
/// where the manifest has one (its text where it is a string, else
/// `index.js`), else the `main` field where it is a string, else
/// `index.js`. Each field is `None` where absent and `Some(None)` where it
/// is not a string.
pub open spec fn main_entry_spec(module: Option<Option<Seq<char>>>, main: Option<Option<Seq<char>>>) -> Seq<char> {
    match module {
        Some(Some(m)) => m,
        Some(None) => "index.js"@,
        None => match main {
            Some(Some(m)) => m,
            _ => "index.js"@,
        },
    }
}

/// Views of a manifest field.
pub open spec fn field_view(f: Option<Option<String>>) -> Option<Option<Seq<char>>> {
    match f {
        Some(v) => Some(crate::types::opt_str_view(v)),
        None => None,
    }
}

/// The module a package manifest names as its entry (see
/// [`main_entry_spec`]).
pub fn main_entry(module: Option<Option<String>>, main: Option<Option<String>>) -> (r: String)
    ensures
        r@ == main_entry_spec(field_view(module), field_view(main)),
{
    match module {
        Some(Some(m)) => m,
        Some(None) => owned("index.js"),
        None => match main {
            Some(Some(m)) => m,
            _ => owned("index.js"),
        },
    }
}

/// The node builtin modules, which resolve to themselves.
pub open spec fn builtin_names() -> Seq<Seq<char>> {
    seq![
        "assert"@, "buffer"@, "child_process"@, "cluster"@, "crypto"@, "dgram"@, "dns"@,
        "domain"@, "events"@, "fs"@, "http"@, "https"@, "module"@, "net"@, "os"@, "path"@,
        "punycode"@, "querystring"@, "readline"@, "stream"@, "string_decoder"@, "timers"@,
        "tls"@, "tty"@, "url"@, "util"@, "vm"@, "zlib"@
    ]
}

/// How a request is resolved after the memo: a builtin module resolves to
/// itself; for the others the tsconfig aliases are tried first, then an
/// absolute request is looked up as it is, a request starting with `.`
/// relative to its context, and any other in `node_modules`.
#[derive(Debug, PartialEq, Eq, Structural)]
pub enum RequestRoute {
    Builtin,
    Absolute,
    Relative,
    Package,
}

/// The route of `request` given the builtin modules.
pub open spec fn route_spec(builtins: Seq<Seq<char>>, request: Seq<char>) -> RequestRoute {
    if builtins.contains(request) {
        RequestRoute::Builtin
    } else if std_is_absolute(request) {
        RequestRoute::Absolute
    } else if request.len() > 0 && request[0] == '.' {
        RequestRoute::Relative
    } else {
        RequestRoute::Package
    }
}

/// How every request is routed: a builtin module as builtin; else an
/// absolute path as absolute; else any request whose first character is `.`
/// (`./x`, `../x`, `.x`) relative to its context; every other request as a
/// package.
pub proof fn lemma_route_cases(builtins: Seq<Seq<char>>, request: Seq<char>)
    ensures
        builtins.contains(request) ==> route_spec(builtins, request) == RequestRoute::Builtin,
        !builtins.contains(request) && std_is_absolute(request) ==> route_spec(builtins, request) == RequestRoute::Absolute,
        !builtins.contains(request) && !std_is_absolute(request) && request.len() > 0 && request[0] == '.'
            ==> route_spec(builtins, request) == RequestRoute::Relative,
        !builtins.contains(request) && !std_is_absolute(request) && (request.len() == 0 || request[0] != '.')
            ==> route_spec(builtins, request) == RequestRoute::Package,
{
}

/// The memo key of a request in a context: the context, `|`, the request.
pub open spec fn memo_key_spec(context: Seq<char>, request: Seq<char>) -> Seq<char> {
    context + seq!['|'] + request
}

/// The memo key of `request` in `context` (see [`memo_key_spec`]).
pub fn memo_key(context: &str, request: &str) -> (r: String)
    ensures
        r@ == memo_key_spec(context@, request@),
{
    let mut cs = chars_of(context);
    cs.push('|');
    let rc = chars_of(request);
    extend_chars(&mut cs, &rc);
    string_from_chars(&cs)
}

/// How long a cached directory listing stays fresh, in milliseconds.
pub const LISTING_TTL_MILLIS: u128 = 5000;

/// Whether a listing cached at `ts` (0 for a directory that could not be
/// read) is still fresh at `now`, both in milliseconds since the epoch.
pub open spec fn listing_fresh(ts: u128, now: u128) -> bool {
    ts != 0 && (if now >= ts { now - ts } else { 0 }) <= LISTING_TTL_MILLIS
}

/// Whether `a` is `Some` of a string equal to `x` or to `y`.
pub open spec fn points_to(v: Option<String>, x: Seq<char>, y: Seq<char>) -> bool {
    match v {
        Some(s) => s@ == x || s@ == y,
        None => false,
    }
}

/// The paths and their normalised forms.
pub open spec fn touched(ps: Seq<Seq<char>>) -> Set<Seq<char>> {
    Set::new(|k: Seq<char>| exists|i: int| #![trigger ps[i]] 0 <= i < ps.len() && (k == ps[i] || k == normalized(ps[i])))
}

/// The parent directories of the paths, as they are and normalised.
pub open spec fn touched_dirs(ps: Seq<Seq<char>>) -> Set<Seq<char>> {
    Set::new(|k: Seq<char>| exists|i: int| #![trigger ps[i]] 0 <= i < ps.len() && (std_parent(ps[i]) matches Some(d) && (k == d || k == normalized(d))))
}

/// The memo keys whose resolution is one of the paths, as it is or
/// normalised.
pub open spec fn stale_memo(m: Map<Seq<char>, Option<String>>, ps: Seq<Seq<char>>) -> Set<Seq<char>> {
    Set::new(|k: Seq<char>| m.contains_key(k) && exists|i: int| #![trigger ps[i]] 0 <= i < ps.len() && points_to(m[k], normalized(ps[i]), ps[i]))
}

/// A JSON value as module resolution reads it: a number is kept as its
/// text, an object as its members in order.
#[derive(Debug)]
pub enum JsonValue {
    Null,
    Bool(bool),
    Number(String),
    String(String),
    Array(Vec<JsonValue>),
    Object(Vec<(String, JsonValue)>),
}

/// The mathematical form of a [`JsonValue`].
pub enum JsonView {
    Null,
    Bool(bool),
    Number(Seq<char>),
    Str(Seq<char>),
    Array(Seq<JsonView>),
    Object(Seq<(Seq<char>, JsonView)>),
}

/// The view of a JSON value.
pub open spec fn json_view(v: JsonValue) -> JsonView
    decreases v, 0int,
{
    match v {
        JsonValue::Null => JsonView::Null,
        JsonValue::Bool(b) => JsonView::Bool(b),
        JsonValue::Number(n) => JsonView::Number(n@),
        JsonValue::String(t) => JsonView::Str(t@),
        JsonValue::Array(items) => JsonView::Array(json_views(items, items@.len() as int)),
        JsonValue::Object(ms) => JsonView::Object(member_views(ms, ms@.len() as int)),
    }
}

/// The views of the first `n` values of `vs`.
pub open spec fn json_views(vs: Vec<JsonValue>, n: int) -> Seq<JsonView>
    decreases vs, n,
{
    if n <= 0 || n > vs@.len() {
        Seq::empty()
    } else {
        proof {
            vstd::std_specs::vec::axiom_vec_index_decreases(vs, n - 1);
        }
        json_views(vs, n - 1).push(json_view(vs[n - 1]))
    }
}

/// The views of the first `n` members of an object.
pub open spec fn member_views(ms: Vec<(String, JsonValue)>, n: int) -> Seq<(Seq<char>, JsonView)>
    decreases ms, n,
{
    if n <= 0 || n > ms@.len() {
        Seq::empty()
    } else {
        proof {
            vstd::std_specs::vec::axiom_vec_index_decreases(ms, n - 1);
        }
        member_views(ms, n - 1).push((ms[n - 1].0@, json_view(ms[n - 1].1)))
    }
}

proof fn lemma_json_views(vs: Vec<JsonValue>, n: int)
    requires
        0 <= n <= vs@.len(),
    ensures
        json_views(vs, n).len() == n,
        forall|i: int| 0 <= i < n ==> #[trigger] json_views(vs, n)[i] == json_view(vs@[i]),
    decreases n,
{
    if n > 0 {
        lemma_json_views(vs, n - 1);
    }
}

proof fn lemma_member_views(ms: Vec<(String, JsonValue)>, n: int)
    requires
        0 <= n <= ms@.len(),
    ensures
        member_views(ms, n).len() == n,
        forall|i: int| 0 <= i < n ==> #[trigger] member_views(ms, n)[i] == (ms@[i].0@, json_view(ms@[i].1)),
    decreases n,
{
    if n > 0 {
        lemma_member_views(ms, n - 1);
    }
}

/// The view of a parse result.
pub open spec fn opt_json_view(r: Option<JsonValue>) -> Option<JsonView> {
    match r {
        Some(v) => Some(json_view(v)),
        None => None,
    }
}

/// What serde_json's `from_str` gives for a text, taken as a JSON view
/// (`None` where the text is not JSON).
pub uninterp spec fn json_parse_spec(text: Seq<char>) -> Option<JsonView>;

/// serde_json's `Value`, carried through the conversion below.
#[verifier::external_type_specification]
#[verifier::external_body]
pub struct ExSerdeJsonValue(serde_json::Value);

/// Converts serde_json's `Value` variant for variant: a number by its text
/// (serde_json's `Display` of `Number`), arrays and objects element by
/// element in the order serde_json holds them.
/// Trusted, with nothing stated: what comes out is stated of the whole
/// parse, on [`parse_json`].
#[verifier::external_body]
fn json_from_serde(v: serde_json::Value) -> JsonValue {
    match v {
        serde_json::Value::Null => JsonValue::Null,
        serde_json::Value::Bool(b) => JsonValue::Bool(b),
        serde_json::Value::Number(n) => JsonValue::Number(n.to_string()),
        serde_json::Value::String(t) => JsonValue::String(t),
        serde_json::Value::Array(a) => JsonValue::Array(a.into_iter().map(json_from_serde).collect()),
        serde_json::Value::Object(m) => JsonValue::Object(m.into_iter().map(|(k, x)| (k, json_from_serde(x))).collect()),
    }
}

/// Parses a JSON text (serde_json's `from_str` into a `Value`, converted
/// variant for variant); `None` where the text is not JSON.
/// Trusted: the result's view is the name [`json_parse_spec`] of the text.
#[verifier::external_body]
pub(crate) fn parse_json(text: &str) -> (r: Option<JsonValue>)
    ensures
        opt_json_view(r) == json_parse_spec(text@),
{
    serde_json::from_str::<serde_json::Value>(text).ok().map(json_from_serde)
}

/// The first member of `ms` from the `i`-th on named `key`.
pub open spec fn member_from(ms: Seq<(Seq<char>, JsonView)>, key: Seq<char>, i: int) -> Option<JsonView>
    decreases ms.len() - i,
{
    if i < 0 || i >= ms.len() {
        None
    } else if ms[i].0 == key {
        Some(ms[i].1)
    } else {
        member_from(ms, key, i + 1)
    }
}

/// The member of `v` named `key`, where `v` is an object (serde_json's
/// `Value::get` with a text key; the keys of a parsed object are distinct,
/// and of repeated ones the first counts).
pub open spec fn member(v: JsonView, key: Seq<char>) -> Option<JsonView> {
    match v {
        JsonView::Object(ms) => member_from(ms, key, 0),
        _ => None,
    }
}

/// The text of `v` where it is a string (serde_json's `Value::as_str`).
pub open spec fn as_text(v: JsonView) -> Option<Seq<char>> {
    match v {
        JsonView::Str(t) => Some(t),
        _ => None,
    }
}

/// A text field of a manifest: `None` where absent, `Some(None)` where it
/// is not a string.
pub open spec fn text_field(v: JsonView, key: Seq<char>) -> Option<Option<Seq<char>>> {
    match member(v, key) {
        Some(m) => Some(as_text(m)),
        None => None,
    }
}

/// The targets of a path alias: the texts of the array's elements (`None`
/// for one that is not a string); none where it is not an array.
pub open spec fn targets_of(t: JsonView) -> Seq<Option<Seq<char>>> {
    match t {
        JsonView::Array(items) => Seq::new(items.len(), |i: int| as_text(items[i])),
        _ => Seq::empty(),
    }
}

/// The path aliases of a tsconfig: the members of
/// `compilerOptions.paths`, where it is an object, each with its targets.
pub open spec fn path_rules(v: JsonView) -> Seq<(Seq<char>, Seq<Option<Seq<char>>>)> {
    match member(v, "compilerOptions"@) {
        Some(c) => match member(c, "paths"@) {
            Some(JsonView::Object(ms)) => Seq::new(ms.len(), |i: int| (ms[i].0, targets_of(ms[i].1))),
            _ => Seq::empty(),
        },
        None => Seq::empty(),
    }
}

/// The views of path alias rules.
pub open spec fn rules_view(r: Seq<(String, Vec<Option<String>>)>) -> Seq<(Seq<char>, Seq<Option<Seq<char>>>)> {
    r.map_values(|x: (String, Vec<Option<String>>)| (x.0@, opt_strs_view(x.1@)))
}

/// The member of `v` named `key`, where `v` is an object.
pub fn json_member<'a>(v: &'a JsonValue, key: &str) -> (r: Option<&'a JsonValue>)
    ensures
        match r {
            Some(x) => member(json_view(*v), key@) == Some(json_view(*x)),
            None => member(json_view(*v), key@) is None,
        },
{
    match v {
        JsonValue::Object(ms) => {
            let ghost mv = member_views(*ms, ms@.len() as int);
            proof {
                lemma_member_views(*ms, ms@.len() as int);
            }
            let mut i: usize = 0;
            while i < ms.len()
                invariant
                    i <= ms@.len(),
                    mv == member_views(*ms, ms@.len() as int),
                    json_view(*v) == JsonView::Object(mv),
                    mv.len() == ms@.len(),
                    forall|k: int| 0 <= k < ms@.len() ==> #[trigger] mv[k] == (ms@[k].0@, json_view(ms@[k].1)),
                    member_from(mv, key@, 0) == member_from(mv, key@, i as int),
                decreases ms@.len() - i,
            {
                assert(mv[i as int] == (ms@[i as int].0@, json_view(ms@[i as int].1)));
                if str_eq(ms[i].0.as_str(), key) {
                    assert(member_from(mv, key@, i as int) == Some(json_view(ms@[i as int].1)));
                    return Some(&ms[i].1);
                }
                i = i + 1;
            }
            None
        },
        _ => None,
    }
}

/// The text of `v` where it is a string.
pub fn json_text(v: &JsonValue) -> (r: Option<String>)
    ensures
        crate::types::opt_str_view(r) == as_text(json_view(*v)),
{
    match v {
        JsonValue::String(t) => Some(owned(t.as_str())),
        _ => None,
    }
}

/// The `module` and `main` fields of a package manifest, each `None` where
/// absent and `Some(None)` where it is not a string (see [`main_entry`]).
pub fn package_entry_fields(v: &JsonValue) -> (r: (Option<Option<String>>, Option<Option<String>>))
    ensures
        field_view(r.0) == text_field(json_view(*v), "module"@),
        field_view(r.1) == text_field(json_view(*v), "main"@),
{
    let module = match json_member(v, "module") {
        Some(m) => Some(json_text(m)),
        None => None,
    };
    let main = match json_member(v, "main") {
        Some(m) => Some(json_text(m)),
        None => None,
    };
    (module, main)
}

/// The targets of a path alias (see [`targets_of`]).
fn alias_targets(t: &JsonValue) -> (r: Vec<Option<String>>)
    ensures
        opt_strs_view(r@) == targets_of(json_view(*t)),
{
    let mut out: Vec<Option<String>> = Vec::new();
    match t {
        JsonValue::Array(items) => {
            let ghost iv = json_views(*items, items@.len() as int);
            proof {
                lemma_json_views(*items, items@.len() as int);
            }
            let mut i: usize = 0;
            while i < items.len()
                invariant
                    i <= items@.len(),
                    iv.len() == items@.len(),
                    forall|k: int| 0 <= k < items@.len() ==> #[trigger] iv[k] == json_view(items@[k]),
                    opt_strs_view(out@) == Seq::new(i as nat, |k: int| as_text(iv[k])),
                decreases items@.len() - i,
            {
                let x = json_text(&items[i]);
                let ghost before = out@;
                out.push(x);
                assert(opt_strs_view(out@) =~= Seq::new((i + 1) as nat, |k: int| as_text(iv[k]))) by {
                    assert(opt_strs_view(out@) =~= opt_strs_view(before).push(crate::types::opt_str_view(x)));
                }
                i = i + 1;
            }
            assert(json_view(*t) == JsonView::Array(iv));
            assert(opt_strs_view(out@) =~= targets_of(json_view(*t)));
        },
        _ => {
            assert(opt_strs_view(out@) =~= Seq::<Option<Seq<char>>>::empty());
        },
    }
    out
}

/// The path aliases of a tsconfig (see [`path_rules`]), each pattern with
/// its targets, in the order of the `paths` object.
pub fn tsconfig_path_rules(v: &JsonValue) -> (r: Vec<(String, Vec<Option<String>>)>)
    ensures
        rules_view(r@) == path_rules(json_view(*v)),
{
    let mut out: Vec<(String, Vec<Option<String>>)> = Vec::new();
    let paths = match json_member(v, "compilerOptions") {
        Some(c) => json_member(c, "paths"),
        None => None,
    };
    match paths {
        Some(JsonValue::Object(ms)) => {
            let ghost mv = member_views(*ms, ms@.len() as int);
            proof {
                lemma_member_views(*ms, ms@.len() as int);
            }
            let mut i: usize = 0;
            while i < ms.len()
                invariant
                    i <= ms@.len(),
                    mv.len() == ms@.len(),
                    forall|k: int| 0 <= k < ms@.len() ==> #[trigger] mv[k] == (ms@[k].0@, json_view(ms@[k].1)),
                    rules_view(out@) == Seq::new(i as nat, |k: int| (mv[k].0, targets_of(mv[k].1))),
                decreases ms@.len() - i,
            {
                let pattern = owned(ms[i].0.as_str());
                let targets = alias_targets(&ms[i].1);
                let ghost before = out@;
                assert(mv[i as int] == (ms@[i as int].0@, json_view(ms@[i as int].1)));
                out.push((pattern, targets));
                assert(rules_view(out@) =~= Seq::new((i + 1) as nat, |k: int| (mv[k].0, targets_of(mv[k].1)))) by {
                    assert(rules_view(out@) =~= rules_view(before).push((pattern@, opt_strs_view(targets@))));
                }
                i = i + 1;
            }
            assert(rules_view(out@) =~= path_rules(json_view(*v)));
        },
        _ => {
            assert(rules_view(out@) =~= path_rules(json_view(*v)));
        },
    }
    out
}

/// The resolver's state: its builtin modules, the memo of resolved
/// requests (`None` for a request that was not found), and the caches of
/// file texts, parsed manifests (`J`), path kinds, directory listings with
/// the time they were read, and canonical paths; all keyed by path text.
pub struct ModuleResolver<J> {
    pub builtin_modules: Vec<String>,
    pub cache: StrMap<Option<String>>,
    pub file_cache: StrMap<Option<String>>,
    pub parsed_json_cache: StrMap<Option<J>>,
    pub path_kind_cache: StrMap<u8>,
    pub dir_listing_cache: StrMap<(u128, Vec<(String, u8)>)>,
    pub canonicalize_cache: StrMap<String>,
}

impl<J> ModuleResolver<J> {
    /// A resolver that knows the node builtin modules, with empty caches.
    pub fn new() -> (r: Self)
        ensures
            strs_view(r.builtin_modules@) == builtin_names(),
            r.cache@ == Map::<Seq<char>, Option<String>>::empty(),
            r.file_cache@ == Map::<Seq<char>, Option<String>>::empty(),
            r.parsed_json_cache@ == Map::<Seq<char>, Option<J>>::empty(),
            r.path_kind_cache@ == Map::<Seq<char>, u8>::empty(),
            r.dir_listing_cache@ == Map::<Seq<char>, (u128, Vec<(String, u8)>)>::empty(),
            r.canonicalize_cache@ == Map::<Seq<char>, String>::empty(),
    {
        let names: Vec<String> = vec![
            owned("assert"), owned("buffer"), owned("child_process"), owned("cluster"), owned("crypto"),
            owned("dgram"), owned("dns"), owned("domain"), owned("events"), owned("fs"), owned("http"),
            owned("https"), owned("module"), owned("net"), owned("os"), owned("path"), owned("punycode"),
            owned("querystring"), owned("readline"), owned("stream"), owned("string_decoder"), owned("timers"),
            owned("tls"), owned("tty"), owned("url"), owned("util"), owned("vm"), owned("zlib")
        ];
        assert(strs_view(names@) =~= builtin_names());
        ModuleResolver {
            builtin_modules: names,
            cache: StrMap::new(),
            file_cache: StrMap::new(),
            parsed_json_cache: StrMap::new(),
            path_kind_cache: StrMap::new(),
            dir_listing_cache: StrMap::new(),
            canonicalize_cache: StrMap::new(),
        }
    }

    /// Whether `request` is a builtin module.
    pub fn is_builtin(&self, request: &str) -> (b: bool)
        ensures
            b == strs_view(self.builtin_modules@).contains(request@),
    {
        let ghost bv = strs_view(self.builtin_modules@);
        let mut i: usize = 0;
        while i < self.builtin_modules.len()
            invariant
                i <= self.builtin_modules@.len(),
                bv == strs_view(self.builtin_modules@),
                forall|j: int| 0 <= j < i ==> bv[j] != request@,
            decreases self.builtin_modules@.len() - i,
        {
            if crate::text::str_eq(self.builtin_modules[i].as_str(), request) {
                assert(bv[i as int] == request@);
                return true;
            }
            i = i + 1;
        }
        false
    }

    /// The route of `request` (see [`route_spec`]).
    pub fn route(&self, request: &str) -> (r: RequestRoute)
        ensures
            r == route_spec(strs_view(self.builtin_modules@), request@),
    {
        if self.is_builtin(request) {
            RequestRoute::Builtin
        } else if crate::paths::is_absolute(request) {
            RequestRoute::Absolute
        } else {
            let cs = chars_of(request);
            if cs.len() > 0 && cs[0] == '.' {
                RequestRoute::Relative
            } else {
                RequestRoute::Package
            }
        }
    }

    /// Records the resolution of the request under `key` where one was
    /// found; a request that was not found is not remembered.
    pub fn remember(&mut self, key: String, resolved: Option<String>)
        ensures
            final(self).cache@ == (if resolved is Some {
                old(self).cache@.insert(key@, resolved)
            } else {
                old(self).cache@
            }),
            final(self).file_cache@ == old(self).file_cache@,
            final(self).parsed_json_cache@ == old(self).parsed_json_cache@,
            final(self).path_kind_cache@ == old(self).path_kind_cache@,
            final(self).dir_listing_cache@ == old(self).dir_listing_cache@,
            final(self).canonicalize_cache@ == old(self).canonicalize_cache@,
            final(self).builtin_modules@ == old(self).builtin_modules@,
    {
        if resolved.is_some() {
            self.cache.insert(key, resolved);
        }
    }

    /// The directory listing cached under `key` while it is fresh at `now`
    /// (see [`listing_fresh`]).
    pub fn fresh_listing(&self, key: &str, now: u128) -> (r: Option<Vec<(String, u8)>>)
        ensures
            match r {
                Some(v) => self.dir_listing_cache@.contains_key(key@)
                    && listing_fresh(self.dir_listing_cache@[key@].0, now)
                    && listing_view(v@) == listing_view(self.dir_listing_cache@[key@].1@),
                None => !(self.dir_listing_cache@.contains_key(key@)
                    && listing_fresh(self.dir_listing_cache@[key@].0, now)),
            },
    {
        match self.dir_listing_cache.get(key) {
            Some(entry) => {
                let ts = entry.0;
                let age: u128 = if now >= ts { now - ts } else { 0 };
                if ts != 0 && age <= LISTING_TTL_MILLIS {
                    Some(clone_listing(&entry.1))
                } else {
                    None
                }
            },
            None => None,
        }
    }

    /// Empties every cache and the memo.
    pub fn clear_all_caches(&mut self)
        ensures
            final(self).cache@ == Map::<Seq<char>, Option<String>>::empty(),
            final(self).file_cache@ == Map::<Seq<char>, Option<String>>::empty(),
            final(self).parsed_json_cache@ == Map::<Seq<char>, Option<J>>::empty(),
            final(self).path_kind_cache@ == Map::<Seq<char>, u8>::empty(),
            final(self).dir_listing_cache@ == Map::<Seq<char>, (u128, Vec<(String, u8)>)>::empty(),
            final(self).canonicalize_cache@ == Map::<Seq<char>, String>::empty(),
            final(self).builtin_modules@ == old(self).builtin_modules@,
    {
        self.cache.clear();
        self.file_cache.clear();
        self.path_kind_cache.clear();
        self.dir_listing_cache.clear();
        self.parsed_json_cache.clear();
        self.canonicalize_cache.clear();
    }
}

/// Removing a set of keys and then two more is removing all of them.
proof fn lemma_remove_two<K, V>(m: Map<K, V>, a: Set<K>, x: K, y: K)
    ensures
        m.remove_keys(a).remove(x).remove(y) == m.remove_keys(a.insert(x).insert(y)),
{
    assert(m.remove_keys(a).remove(x).remove(y) =~= m.remove_keys(a.insert(x).insert(y)));
}

proof fn lemma_touched_step(ps: Seq<Seq<char>>, i: int)
    requires
        0 <= i < ps.len(),
    ensures
        touched(ps.subrange(0, i + 1)) == touched(ps.subrange(0, i)).insert(ps[i]).insert(normalized(ps[i])),
{
    let a = ps.subrange(0, i);
    let b = ps.subrange(0, i + 1);
    assert forall|k: Seq<char>| touched(b).contains(k) == touched(a).insert(ps[i]).insert(normalized(ps[i])).contains(k) by {
        if touched(b).contains(k) {
            let q = choose|q: int| 0 <= q < b.len() && (k == #[trigger] b[q] || k == normalized(b[q]));
            if q < i {
                assert(a[q] == b[q]);
            }
        }
        if touched(a).contains(k) {
            let q = choose|q: int| 0 <= q < a.len() && (k == #[trigger] a[q] || k == normalized(a[q]));
            assert(a[q] == b[q]);
        }
        if k == ps[i] || k == normalized(ps[i]) {
            assert(b[i] == ps[i]);
        }
    }
    assert(touched(b) =~= touched(a).insert(ps[i]).insert(normalized(ps[i])));
}

proof fn lemma_touched_dirs_step(ps: Seq<Seq<char>>, i: int)
    requires
        0 <= i < ps.len(),
    ensures
        touched_dirs(ps.subrange(0, i + 1)) == (match std_parent(ps[i]) {
            Some(d) => touched_dirs(ps.subrange(0, i)).insert(d).insert(normalized(d)),
            None => touched_dirs(ps.subrange(0, i)),
        }),
{
    let a = ps.subrange(0, i);
    let b = ps.subrange(0, i + 1);
    let expect = match std_parent(ps[i]) {
        Some(d) => touched_dirs(a).insert(d).insert(normalized(d)),
        None => touched_dirs(a),
    };
    assert forall|k: Seq<char>| touched_dirs(b).contains(k) == expect.contains(k) by {
        if touched_dirs(b).contains(k) {
            let q = choose|q: int| 0 <= q < b.len() && (std_parent(#[trigger] b[q]) matches Some(d) && (k == d || k == normalized(d)));
            if q < i {
                assert(a[q] == b[q]);
            }
        }
        if touched_dirs(a).contains(k) {
            let q = choose|q: int| 0 <= q < a.len() && (std_parent(#[trigger] a[q]) matches Some(d) && (k == d || k == normalized(d)));
            assert(a[q] == b[q]);
        }
        assert(b[i] == ps[i]);
    }
    assert(touched_dirs(b) =~= expect);
}

impl<J> ModuleResolver<J> {
    /// Removes from the memo every request resolved to `x` or to `y`.
    fn drop_memo_pointing_to(&mut self, x: &str, y: &str)
        ensures
            final(self).cache@ == old(self).cache@.remove_keys(
                Set::new(|k: Seq<char>| old(self).cache@.contains_key(k) && points_to(old(self).cache@[k], x@, y@)),
            ),
            final(self).file_cache@ == old(self).file_cache@,
            final(self).parsed_json_cache@ == old(self).parsed_json_cache@,
            final(self).path_kind_cache@ == old(self).path_kind_cache@,
            final(self).dir_listing_cache@ == old(self).dir_listing_cache@,
            final(self).canonicalize_cache@ == old(self).canonicalize_cache@,
            final(self).builtin_modules@ == old(self).builtin_modules@,
    {
        let ghost c0 = self.cache@;
        let keys = self.cache.keys();
        let ghost kv = strs_view(keys@);
        let mut j: usize = 0;
        while j < keys.len()
            invariant
                j <= keys@.len(),
                kv == strs_view(keys@),
                kv.to_set() == c0.dom(),
                self.cache@ == c0.remove_keys(
                    Set::new(|k: Seq<char>| c0.contains_key(k) && points_to(c0[k], x@, y@) && kv.subrange(0, j as int).contains(k)),
                ),
                self.file_cache@ == old(self).file_cache@,
                self.parsed_json_cache@ == old(self).parsed_json_cache@,
                self.path_kind_cache@ == old(self).path_kind_cache@,
                self.dir_listing_cache@ == old(self).dir_listing_cache@,
                self.canonicalize_cache@ == old(self).canonicalize_cache@,
                self.builtin_modules@ == old(self).builtin_modules@,
            decreases keys@.len() - j,
        {
            let ghost s0 = Set::new(|k: Seq<char>| c0.contains_key(k) && points_to(c0[k], x@, y@) && kv.subrange(0, j as int).contains(k));
            let ghost s1 = Set::new(|k: Seq<char>| c0.contains_key(k) && points_to(c0[k], x@, y@) && kv.subrange(0, j + 1).contains(k));
            let ghost kj = kv[j as int];
            proof {
                assert forall|k: Seq<char>| s1.contains(k) == (s0.contains(k) || (k == kj && c0.contains_key(k) && points_to(c0[k], x@, y@))) by {
                    if kv.subrange(0, j + 1).contains(k) {
                        let q = choose|q: int| 0 <= q < j + 1 && #[trigger] kv.subrange(0, j + 1)[q] == k;
                        if q < j {
                            assert(kv.subrange(0, j as int)[q] == k);
                        }
                    }
                    if kv.subrange(0, j as int).contains(k) {
                        let q = choose|q: int| 0 <= q < j && #[trigger] kv.subrange(0, j as int)[q] == k;
                        assert(kv.subrange(0, j + 1)[q] == k);
                    }
                    if k == kj {
                        assert(kv.subrange(0, j + 1)[j as int] == k);
                    }
                }
            }
            let hit = match self.cache.get(keys[j].as_str()) {
                Some(v) => match v {
                    Some(t) => crate::text::str_eq(t.as_str(), x) || crate::text::str_eq(t.as_str(), y),
                    None => false,
                },
                None => false,
            };
            if hit {
                assert(c0.contains_key(kj) && points_to(c0[kj], x@, y@));
                self.cache.remove(keys[j].as_str());
                assert(self.cache@ =~= c0.remove_keys(s1));
            } else {
                proof {
                    if c0.contains_key(kj) && points_to(c0[kj], x@, y@) && !s0.contains(kj) {
                        assert(self.cache@.contains_key(kj));
                        assert(self.cache@[kj] == c0[kj]);
                        assert(false);
                    }
                }
                assert(self.cache@ =~= c0.remove_keys(s1));
            }
            j = j + 1;
        }
        proof {
            let sn = Set::new(|k: Seq<char>| c0.contains_key(k) && points_to(c0[k], x@, y@) && kv.subrange(0, keys@.len() as int).contains(k));
            let full = Set::new(|k: Seq<char>| c0.contains_key(k) && points_to(c0[k], x@, y@));
            assert(kv.subrange(0, keys@.len() as int) =~= kv);
            assert forall|k: Seq<char>| sn.contains(k) == full.contains(k) by {
                if full.contains(k) {
                    assert(kv.to_set().contains(k));
                }
            }
            assert(sn =~= full);
        }
    }

    /// Forgets what the resolver knows of each of `paths`: the cached file
    /// texts, manifests, canonical forms and kinds under the path and under
    /// its normalised form, the memo entries of requests resolved to either,
    /// and the cached listings of its parent directory, as it is and
    /// normalised.
    pub fn invalidate_paths(&mut self, paths: &Vec<String>)
        ensures
            final(self).file_cache@ == old(self).file_cache@.remove_keys(touched(strs_view(paths@))),
            final(self).parsed_json_cache@ == old(self).parsed_json_cache@.remove_keys(touched(strs_view(paths@))),
            final(self).canonicalize_cache@ == old(self).canonicalize_cache@.remove_keys(touched(strs_view(paths@))),
            final(self).path_kind_cache@ == old(self).path_kind_cache@.remove_keys(touched(strs_view(paths@))),
            final(self).cache@ == old(self).cache@.remove_keys(stale_memo(old(self).cache@, strs_view(paths@))),
            final(self).dir_listing_cache@ == old(self).dir_listing_cache@.remove_keys(touched_dirs(strs_view(paths@))),
            final(self).builtin_modules@ == old(self).builtin_modules@,
    {
        let ghost ps = strs_view(paths@);
        let ghost f0 = self.file_cache@;
        let ghost j0 = self.parsed_json_cache@;
        let ghost n0 = self.canonicalize_cache@;
        let ghost k0 = self.path_kind_cache@;
        let ghost m0 = self.cache@;
        let ghost d0 = self.dir_listing_cache@;
        proof {
            let e = ps.subrange(0, 0);
            assert(touched(e) =~= Set::<Seq<char>>::empty());
            assert(touched_dirs(e) =~= Set::<Seq<char>>::empty());
            assert(stale_memo(m0, e) =~= Set::<Seq<char>>::empty());
            assert(f0.remove_keys(Set::<Seq<char>>::empty()) =~= f0);
            assert(j0.remove_keys(Set::<Seq<char>>::empty()) =~= j0);
            assert(n0.remove_keys(Set::<Seq<char>>::empty()) =~= n0);
            assert(k0.remove_keys(Set::<Seq<char>>::empty()) =~= k0);
            assert(m0.remove_keys(Set::<Seq<char>>::empty()) =~= m0);
            assert(d0.remove_keys(Set::<Seq<char>>::empty()) =~= d0);
        }
        let mut i: usize = 0;
        while i < paths.len()
            invariant
                i <= paths@.len(),
                ps == strs_view(paths@),
                self.file_cache@ == f0.remove_keys(touched(ps.subrange(0, i as int))),
                self.parsed_json_cache@ == j0.remove_keys(touched(ps.subrange(0, i as int))),
                self.canonicalize_cache@ == n0.remove_keys(touched(ps.subrange(0, i as int))),
                self.path_kind_cache@ == k0.remove_keys(touched(ps.subrange(0, i as int))),
                self.cache@ == m0.remove_keys(stale_memo(m0, ps.subrange(0, i as int))),
                self.dir_listing_cache@ == d0.remove_keys(touched_dirs(ps.subrange(0, i as int))),
                self.builtin_modules@ == old(self).builtin_modules@,
            decreases paths@.len() - i,
        {
            let p = paths[i].as_str();
            let np = normalize_path(p);
            let ghost sub = ps.subrange(0, i as int);
            let ghost sub1 = ps.subrange(0, i + 1);
            proof {
                assert(ps[i as int] == p@);
                lemma_touched_step(ps, i as int);
                lemma_touched_dirs_step(ps, i as int);
                lemma_remove_two(f0, touched(sub), np@, p@);
                lemma_remove_two(j0, touched(sub), np@, p@);
                lemma_remove_two(n0, touched(sub), np@, p@);
                lemma_remove_two(k0, touched(sub), np@, p@);
                assert(touched(sub).insert(np@).insert(p@) =~= touched(sub1));
            }
            self.file_cache.remove(np.as_str());
            self.file_cache.remove(p);
            self.parsed_json_cache.remove(np.as_str());
            self.parsed_json_cache.remove(p);
            self.canonicalize_cache.remove(np.as_str());
            self.canonicalize_cache.remove(p);
            self.path_kind_cache.remove(np.as_str());
            self.path_kind_cache.remove(p);
            let ghost mi = self.cache@;
            self.drop_memo_pointing_to(np.as_str(), p);
            proof {
                let drop = Set::new(|k: Seq<char>| mi.contains_key(k) && points_to(mi[k], np@, p@));
                assert forall|k: Seq<char>| stale_memo(m0, sub1).contains(k) == (stale_memo(m0, sub).contains(k) || (m0.contains_key(k) && points_to(m0[k], np@, p@))) by {
                    if stale_memo(m0, sub1).contains(k) {
                        let q = choose|q: int| 0 <= q < sub1.len() && points_to(m0[k], normalized(#[trigger] sub1[q]), sub1[q]);
                        if q < i {
                            assert(sub[q] == sub1[q]);
                        }
                    }
                    if stale_memo(m0, sub).contains(k) {
                        let q = choose|q: int| 0 <= q < sub.len() && points_to(m0[k], normalized(#[trigger] sub[q]), sub[q]);
                        assert(sub[q] == sub1[q]);
                    }
                    if m0.contains_key(k) && points_to(m0[k], np@, p@) {
                        assert(sub1[i as int] == p@);
                    }
                }
                assert(self.cache@ =~= m0.remove_keys(stale_memo(m0, sub1)));
            }
            match crate::paths::parent(p) {
                Some(d) => {
                    let nd = normalize_path(d.as_str());
                    proof {
                        lemma_remove_two(d0, touched_dirs(sub), d@, nd@);
                    }
                    self.dir_listing_cache.remove(d.as_str());
                    self.dir_listing_cache.remove(nd.as_str());
                },
                None => {},
            }
            i = i + 1;
        }
        proof {
            assert(ps.subrange(0, paths@.len() as int) =~= ps);
        }
    }
}

/// A resolution remembered for a request is forgotten once the path it
/// resolved to (as it is or normalised) is invalidated: after
/// `remember(key, Some(r))`, `invalidate_paths(ps)` with `r` among the
/// paths of `ps` or their normalised forms leaves no memo entry for `key`,
/// while an entry whose resolution none of `ps` names stays as it was.
pub proof fn lemma_invalidate_forgets_resolution(
    m: Map<Seq<char>, Option<String>>,
    key: Seq<char>,
    r: String,
    ps: Seq<Seq<char>>,
    i: int,
    other: Seq<char>,
)
    requires
        0 <= i < ps.len(),
        r@ == ps[i] || r@ == normalized(ps[i]),
        other != key,
        m.contains_key(other),
        forall|j: int| 0 <= j < ps.len() ==> !points_to(m[other], normalized(#[trigger] ps[j]), ps[j]),
    ensures
        !m.insert(key, Some(r)).remove_keys(stale_memo(m.insert(key, Some(r)), ps)).contains_key(key),
        m.insert(key, Some(r)).remove_keys(stale_memo(m.insert(key, Some(r)), ps)).contains_key(other),
        m.insert(key, Some(r)).remove_keys(stale_memo(m.insert(key, Some(r)), ps))[other] == m[other],
{
    let m1 = m.insert(key, Some(r));
    assert(points_to(m1[key], normalized(ps[i]), ps[i]));
    assert(stale_memo(m1, ps).contains(key));
    assert(!stale_memo(m1, ps).contains(other));
}

/// A copy of a directory listing.
pub fn clone_listing(v: &Vec<(String, u8)>) -> (r: Vec<(String, u8)>)
    ensures
        listing_view(r@) == listing_view(v@),
{
    let mut out: Vec<(String, u8)> = Vec::new();
    let mut i: usize = 0;
    while i < v.len()
        invariant
            i <= v@.len(),
            listing_view(out@) == listing_view(v@).subrange(0, i as int),
        decreases v@.len() - i,
    {
        let ghost o0 = listing_view(out@);
        out.push((owned(v[i].0.as_str()), v[i].1));
        assert(listing_view(out@) =~= o0.push((v@[i as int].0@, v@[i as int].1)));
        assert(listing_view(v@).subrange(0, i + 1) =~= listing_view(v@).subrange(0, i as int).push(listing_view(v@)[i as int]));
        i = i + 1;
    }
    assert(listing_view(v@).subrange(0, v@.len() as int) =~= listing_view(v@));
    out
}

impl ModuleResolver<JsonValue> {
    /// Records in the manifest cache what the text read at `key` parses to
    /// (`None` where it could not be read or is not JSON), as resolution
    /// does the first time it reads a manifest.
    pub fn cache_parsed_json(&mut self, key: String, content: Option<String>)
        ensures
            final(self).parsed_json_cache@ == old(self).parsed_json_cache@.insert(key@, final(self).parsed_json_cache@[key@]),
            opt_json_view(final(self).parsed_json_cache@[key@]) == match content {
                Some(c) => json_parse_spec(c@),
                None => None,
            },
            final(self).builtin_modules == old(self).builtin_modules,
            final(self).cache == old(self).cache,
            final(self).file_cache == old(self).file_cache,
            final(self).path_kind_cache == old(self).path_kind_cache,
            final(self).dir_listing_cache == old(self).dir_listing_cache,
            final(self).canonicalize_cache == old(self).canonicalize_cache,
    {
        let parsed = match content {
            Some(c) => parse_json(c.as_str()),
            None => None,
        };
        self.parsed_json_cache.insert(key, parsed);
    }
}

} // verus!
