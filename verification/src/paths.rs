//! The parts of std's path handling that the analysis uses, on strings,
//! and the form in which paths are stored in the dependency tree.
use vstd::prelude::*;
use crate::text::{ascii_lowercase, chars_of, is_prefix, occurs_at, occurs_at_exec, replace_char, replace_char_spec,
    slice_chars, string_from_chars, to_ascii_lowercase, trim_start_all, trim_start_matches};

verus! {

/// What std's `Path::file_name` gives for a path, as text.
pub uninterp spec fn std_file_name(path: Seq<char>) -> Option<Seq<char>>;

/// What std's `Path::extension` gives for a path, as text.
pub uninterp spec fn std_extension(path: Seq<char>) -> Option<Seq<char>>;

/// What std's `Path::parent` gives for a path, as text.
pub uninterp spec fn std_parent(path: Seq<char>) -> Option<Seq<char>>;

/// What std's `Path::strip_prefix` gives for a path and a base, as text.
pub uninterp spec fn std_strip_prefix(path: Seq<char>, base: Seq<char>) -> Option<Seq<char>>;

/// What std's `Path::join` gives for a base and a path, as text.
pub uninterp spec fn std_join(base: Seq<char>, path: Seq<char>) -> Seq<char>;

/// What std's `Path::is_absolute` says of a path.
pub uninterp spec fn std_is_absolute(path: Seq<char>) -> bool;

/// The components std's `Path::components` gives for a path, as text.
pub uninterp spec fn std_components(path: Seq<char>) -> Seq<PartView>;

/// Whether std's `Path` equality (component by component) holds of two
/// paths.
pub uninterp spec fn std_path_eq(a: Seq<char>, b: Seq<char>) -> bool;

/// The last component of `path` when it is a normal component
/// (std `Path::file_name`, converted with `to_string_lossy`).
/// Trusted: the result is the name [`std_file_name`] of the path's text.
#[verifier::external_body]
pub(crate) fn file_name(path: &str) -> (r: Option<String>)
    ensures
        crate::types::opt_str_view(r) == std_file_name(path@),
{
    std::path::Path::new(path).file_name().map(|s| s.to_string_lossy().to_string())
}

/// The extension of the file name of `path`, without the dot
/// (std `Path::extension`, converted with `to_string_lossy`).
/// Trusted: the result is the name [`std_extension`] of the path's text.
#[verifier::external_body]
pub(crate) fn extension(path: &str) -> (r: Option<String>)
    ensures
        crate::types::opt_str_view(r) == std_extension(path@),
{
    std::path::Path::new(path).extension().map(|s| s.to_string_lossy().to_string())
}

/// The path without its last component (std `Path::parent`, converted with
/// `to_string_lossy`).
/// Trusted: the result is the name [`std_parent`] of the path's text.
#[verifier::external_body]
pub(crate) fn parent(path: &str) -> (r: Option<String>)
    ensures
        crate::types::opt_str_view(r) == std_parent(path@),
{
    std::path::Path::new(path).parent().map(|s| s.to_string_lossy().to_string())
}

/// `path` relative to `base` when `base` is a prefix of it component by
/// component (std `Path::strip_prefix`, converted with `to_string_lossy`).
/// Trusted: the result is the name [`std_strip_prefix`] of the two texts.
#[verifier::external_body]
pub(crate) fn strip_prefix(path: &str, base: &str) -> (r: Option<String>)
    ensures
        crate::types::opt_str_view(r) == std_strip_prefix(path@, base@),
{
    std::path::Path::new(path).strip_prefix(base).ok().map(|s| s.to_string_lossy().to_string())
}

/// `path` appended to `base` (std `Path::join`, converted with
/// `to_string_lossy`): `path` itself where it is absolute.
/// Trusted: the result is the name [`std_join`] of the two texts.
#[verifier::external_body]
pub(crate) fn join(base: &str, path: &str) -> (r: String)
    ensures
        r@ == std_join(base@, path@),
{
    std::path::Path::new(base).join(path).to_string_lossy().to_string()
}

/// Whether two paths are the same path (std `PartialEq` on `Path`, which
/// compares their components, so `a//b` and `a/./b` equal `a/b`).
/// Trusted: the result is the name [`std_path_eq`] of the two texts.
#[verifier::external_body]
pub(crate) fn same_path(a: &str, b: &str) -> (r: bool)
    ensures
        r == std_path_eq(a@, b@),
{
    std::path::Path::new(a) == std::path::Path::new(b)
}

/// Whether `path` is absolute (std `Path::is_absolute`).
/// Trusted: the result is the name [`std_is_absolute`] of the path's text.
#[verifier::external_body]
pub(crate) fn is_absolute(path: &str) -> (b: bool)
    ensures
        b == std_is_absolute(path@),
{
    std::path::Path::new(path).is_absolute()
}

/// The extension of the file name of `path` without the dot, or the empty
/// text when it has none: the extension by which a parser is picked.
pub fn extension_or_empty(path: &str) -> (r: String)
    ensures
        r@ == match std_extension(path@) {
            Some(e) => e,
            None => Seq::empty(),
        },
{
    match extension(path) {
        Some(e) => e,
        None => String::new(),
    }
}

/// The directory in which `path` lies: the path without its last
/// component, or `.` when it has none. Requests are resolved from there.
pub fn parent_or_dot(path: &str) -> (r: String)
    ensures
        r@ == match std_parent(path@) {
            Some(p) => p,
            None => seq!['.'],
        },
{
    match parent(path) {
        Some(p) => p,
        None => {
            let r = crate::text::owned(".");
            proof {
                reveal_strlit(".");
            }
            r
        },
    }
}

/// A path without a Windows device prefix (`\\?\`, `//?/` or `\\?/`).
pub open spec fn without_device_prefix(s: Seq<char>) -> Seq<char> {
    if is_prefix(seq!['\\', '\\', '?', '\\'], s) {
        s.subrange(4, s.len() as int)
    } else if is_prefix(seq!['/', '/', '?', '/'], s) {
        s.subrange(4, s.len() as int)
    } else if is_prefix(seq!['\\', '\\', '?', '/'], s) {
        s.subrange(4, s.len() as int)
    } else {
        s
    }
}

/// The first position at or after `i` where `p` occurs in `s`.
pub open spec fn find_from(s: Seq<char>, p: Seq<char>, i: int) -> Option<int>
    decreases s.len() - i,
{
    if i < 0 || i > s.len() {
        None
    } else if occurs_at(s, p, i) {
        Some(i)
    } else if i == s.len() {
        None
    } else {
        find_from(s, p, i + 1)
    }
}

/// The text `c:/projects/`.
pub open spec fn projects_marker() -> Seq<char> {
    seq!['c', ':', '/', 'p', 'r', 'o', 'j', 'e', 'c', 't', 's', '/']
}

/// How an absolute path is stored, given the absolute working directory:
/// both without device prefix and with `/` as separator; relative to the
/// working directory, without leading slashes, where it lies below it;
/// else, where `c:/projects/` occurs in it (in any ASCII case), `../../`
/// followed by what comes after its first occurrence, without leading
/// slashes; else the path itself.
pub open spec fn storage_form_spec(abs: Seq<char>, workdir: Seq<char>) -> Seq<char> {
    let a = replace_char_spec(without_device_prefix(abs), '\\', '/');
    let w = replace_char_spec(without_device_prefix(workdir), '\\', '/');
    if is_prefix(w, a) {
        trim_start_all(a.subrange(w.len() as int, a.len() as int), seq!['/'])
    } else {
        match find_from(ascii_lowercase(a), projects_marker(), 0) {
            Some(i) => seq!['.', '.', '/', '.', '.', '/'] + trim_start_all(a.subrange(i + 12, a.len() as int), seq!['/']),
            None => a,
        }
    }
}

fn strip_device_prefix(s: &[char]) -> (r: Vec<char>)
    ensures
        r@ == without_device_prefix(s@),
{
    let n = s.len();
    if n >= 4 && s[2] == '?' && ((s[0] == '\\' && s[1] == '\\' && (s[3] == '\\' || s[3] == '/')) || (s[0] == '/' && s[1] == '/' && s[3] == '/')) {
        proof {
            let h = s@.subrange(0, 4);
            if s@[0] == '\\' && s@[3] == '\\' {
                assert(h =~= seq!['\\', '\\', '?', '\\']);
            } else if s@[0] == '/' {
                assert(h =~= seq!['/', '/', '?', '/']);
                assert(!is_prefix(seq!['\\', '\\', '?', '\\'], s@)) by {
                    assert(h[0] != seq!['\\', '\\', '?', '\\'][0]);
                }
            } else {
                assert(h =~= seq!['\\', '\\', '?', '/']);
                assert(!is_prefix(seq!['\\', '\\', '?', '\\'], s@)) by {
                    assert(h[3] != seq!['\\', '\\', '?', '\\'][3]);
                }
                assert(!is_prefix(seq!['/', '/', '?', '/'], s@)) by {
                    assert(h[0] != seq!['/', '/', '?', '/'][0]);
                }
            }
        }
        slice_chars(s, 4, n)
    } else {
        proof {
            if n >= 4 {
                let h = s@.subrange(0, 4);
                assert(h[0] == s@[0] && h[1] == s@[1] && h[2] == s@[2] && h[3] == s@[3]);
                if h == seq!['\\', '\\', '?', '\\'] {
                    assert(seq!['\\', '\\', '?', '\\'][3] == '\\');
                }
                if h == seq!['/', '/', '?', '/'] {
                    assert(seq!['/', '/', '?', '/'][0] == '/');
                }
                if h == seq!['\\', '\\', '?', '/'] {
                    assert(seq!['\\', '\\', '?', '/'][3] == '/');
                }
            }
        }
        let mut r: Vec<char> = Vec::new();
        crate::text::extend_chars(&mut r, s);
        assert(r@ =~= s@);
        r
    }
}

/// The form in which an absolute path is stored in the dependency tree,
/// given the absolute working directory (see [`storage_form_spec`]).
pub fn storage_form(abs: &str, workdir: &str) -> (r: String)
    ensures
        r@ == storage_form_spec(abs@, workdir@),
{
    let ac = chars_of(abs);
    let wc = chars_of(workdir);
    let a0 = strip_device_prefix(&ac);
    let w0 = strip_device_prefix(&wc);
    let a = replace_char(string_from_chars(&a0).as_str(), '\\', '/');
    let w = replace_char(string_from_chars(&w0).as_str(), '\\', '/');
    let av = chars_of(a.as_str());
    let wv = chars_of(w.as_str());
    let ghost spec_a = replace_char_spec(without_device_prefix(abs@), '\\', '/');
    let ghost spec_w = replace_char_spec(without_device_prefix(workdir@), '\\', '/');
    assert(av@ == spec_a);
    assert(wv@ == spec_w);
    proof {
        reveal_strlit("/");
        assert("/"@ =~= seq!['/']);
    }
    if crate::text::seq_starts_with(&av, &wv) {
        let rest = slice_chars(&av, wv.len(), av.len());
        return trim_start_matches(string_from_chars(&rest).as_str(), "/");
    }
    let lower = chars_of(to_ascii_lowercase(a.as_str()).as_str());
    let marker: Vec<char> = vec!['c', ':', '/', 'p', 'r', 'o', 'j', 'e', 'c', 't', 's', '/'];
    assert(marker@ =~= projects_marker());
    let mut i: usize = 0;
    while i < lower.len()
        invariant
            lower@ == ascii_lowercase(av@),
            av@ == spec_a,
            wv@ == spec_w,
            spec_a == replace_char_spec(without_device_prefix(abs@), '\\', '/'),
            spec_w == replace_char_spec(without_device_prefix(workdir@), '\\', '/'),
            !is_prefix(spec_w, spec_a),
            "/"@ == seq!['/'],
            marker@ == projects_marker(),
            i <= lower@.len(),
            find_from(lower@, marker@, 0) == find_from(lower@, marker@, i as int),
        decreases lower@.len() - i,
    {
        if occurs_at_exec(&lower, &marker, i) {
            assert(find_from(lower@, marker@, i as int) == Some(i as int));
            assert(lower@.len() == av@.len());
            let after = slice_chars(&av, i + 12, av.len());
            let trimmed = trim_start_matches(string_from_chars(&after).as_str(), "/");
            let mut out: Vec<char> = vec!['.', '.', '/', '.', '.', '/'];
            let tc = chars_of(trimmed.as_str());
            crate::text::extend_chars(&mut out, &tc);
            assert(out@ =~= seq!['.', '.', '/', '.', '.', '/'] + trim_start_all(spec_a.subrange(i + 12, spec_a.len() as int), seq!['/']));
            return string_from_chars(&out);
        }
        i = i + 1;
    }
    assert(find_from(lower@, marker@, i as int) is None) by {
        assert(!occurs_at(lower@, marker@, i as int));
    }
    a
}

/// A component of a path (std `Component`), its text converted with
/// `to_string_lossy`.
#[derive(Debug)]
pub enum PathComponent {
    Prefix(String),
    RootDir,
    CurDir,
    ParentDir,
    Normal(String),
}

/// The mathematical value of a [`PathComponent`].
pub enum PartView {
    Prefix(Seq<char>),
    RootDir,
    CurDir,
    ParentDir,
    Normal(Seq<char>),
}

impl View for PathComponent {
    type V = PartView;

    open spec fn view(&self) -> PartView {
        match self {
            PathComponent::Prefix(s) => PartView::Prefix(s@),
            PathComponent::RootDir => PartView::RootDir,
            PathComponent::CurDir => PartView::CurDir,
            PathComponent::ParentDir => PartView::ParentDir,
            PathComponent::Normal(s) => PartView::Normal(s@),
        }
    }
}

/// The views of a list of components.
pub open spec fn parts_view(v: Seq<PathComponent>) -> Seq<PartView> {
    v.map_values(|c: PathComponent| c@)
}

/// The components of `path` (std `Path::components`), each converted.
/// Trusted: the result is the name [`std_components`] of the path's text.
#[verifier::external_body]
pub(crate) fn components(path: &str) -> (r: Vec<PathComponent>)
    ensures
        parts_view(r@) == std_components(path@),
{
    std::path::Path::new(path)
        .components()
        .map(|c| match c {
            std::path::Component::Prefix(p) => PathComponent::Prefix(p.as_os_str().to_string_lossy().to_string()),
            std::path::Component::RootDir => PathComponent::RootDir,
            std::path::Component::CurDir => PathComponent::CurDir,
            std::path::Component::ParentDir => PathComponent::ParentDir,
            std::path::Component::Normal(n) => PathComponent::Normal(n.to_string_lossy().to_string()),
        })
        .collect()
}

/// How many components at the front of `cs` are `..`.
pub open spec fn leading_parents(cs: Seq<PartView>) -> nat
    decreases cs.len(),
{
    if cs.len() > 0 && cs[0] is ParentDir {
        1 + leading_parents(cs.drop_first())
    } else {
        0
    }
}

/// `dir` with its last component dropped `n` times (std `Path::parent`;
/// a path without parent stays as it is).
pub open spec fn climb(dir: Seq<char>, n: nat) -> Seq<char>
    decreases n,
{
    if n == 0 {
        dir
    } else {
        let d = climb(dir, (n - 1) as nat);
        match std_parent(d) {
            Some(p) => p,
            None => d,
        }
    }
}

/// The text a component adds when pushed onto a path: a prefix or normal
/// component its text, the root `sep`, `..` for a parent; none for `.`.
pub open spec fn component_text(c: PartView, sep: char) -> Option<Seq<char>> {
    match c {
        PartView::Prefix(s) => Some(s),
        PartView::RootDir => Some(seq![sep]),
        PartView::CurDir => None,
        PartView::ParentDir => Some(seq!['.', '.']),
        PartView::Normal(s) => Some(s),
    }
}

/// The path `acc` with the texts of `cs` pushed in turn (std
/// `PathBuf::push`, which joins as `Path::join` does).
pub open spec fn pushed(acc: Seq<char>, cs: Seq<PartView>, sep: char) -> Seq<char>
    decreases cs.len(),
{
    if cs.len() == 0 {
        acc
    } else {
        let a = pushed(acc, cs.drop_last(), sep);
        match component_text(cs.last(), sep) {
            Some(t) => std_join(a, t),
            None => a,
        }
    }
}

/// The path a file of the analysis is read from, given the context, the
/// working directory and the platform's separator: the file itself where
/// it is absolute; else, from the context made absolute (the working
/// directory for a context that is the path `.`), one directory up for
/// each leading `..` of the file, joined with the rest of the file's
/// components (`.` left out) where any remain.
pub open spec fn read_path_spec(file: Seq<char>, context: Seq<char>, cwd: Seq<char>, sep: char) -> Seq<char> {
    if std_is_absolute(file) {
        file
    } else {
        let ctx_abs = if std_path_eq(context, seq!['.']) {
            cwd
        } else if std_is_absolute(context) {
            context
        } else {
            std_join(cwd, context)
        };
        let cs = std_components(file);
        let n = leading_parents(cs);
        let rest = pushed(Seq::empty(), cs.subrange(n as int, cs.len() as int), sep);
        if rest.len() == 0 {
            climb(ctx_abs, n)
        } else {
            std_join(climb(ctx_abs, n), rest)
        }
    }
}

proof fn lemma_leading_parents_exact(cs: Seq<PartView>, k: int)
    requires
        0 <= k <= cs.len(),
        forall|q: int| 0 <= q < k ==> #[trigger] cs[q] is ParentDir,
        k == cs.len() || !(cs[k] is ParentDir),
    ensures
        leading_parents(cs) == k,
    decreases k,
{
    if k > 0 {
        assert forall|q: int| 0 <= q < k - 1 implies #[trigger] cs.drop_first()[q] is ParentDir by {
            assert(cs.drop_first()[q] == cs[q + 1]);
        }
        if k < cs.len() {
            assert(cs.drop_first()[k - 1] == cs[k]);
        }
        lemma_leading_parents_exact(cs.drop_first(), k - 1);
    }
}

/// The path a file of the analysis is read from (see [`read_path_spec`]).
pub fn read_path_for(file_path: &str, context: &str, cwd: &str, sep: char) -> (r: String)
    ensures
        r@ == read_path_spec(file_path@, context@, cwd@, sep),
{
    if is_absolute(file_path) {
        return owned_str(file_path);
    }
    let ctx_abs = if same_path(context, ".") {
        proof {
            reveal_strlit(".");
            assert("."@ =~= seq!['.']);
        }
        owned_str(cwd)
    } else if is_absolute(context) {
        proof {
            reveal_strlit(".");
            assert("."@ =~= seq!['.']);
        }
        owned_str(context)
    } else {
        proof {
            reveal_strlit(".");
            assert("."@ =~= seq!['.']);
        }
        join(cwd, context)
    };
    let comps = components(file_path);
    let ghost cs = parts_view(comps@);
    let mut ancestor = ctx_abs;
    let mut skip: usize = 0;
    while skip < comps.len() && is_parent_dir(&comps[skip])
        invariant
            skip <= comps@.len(),
            cs == parts_view(comps@),
            forall|q: int| 0 <= q < skip ==> #[trigger] cs[q] is ParentDir,
            ancestor@ == climb(ctx_abs@, skip as nat),
        decreases comps@.len() - skip,
    {
        assert(cs[skip as int] is ParentDir);
        match parent(ancestor.as_str()) {
            Some(p) => {
                ancestor = p;
            },
            None => {},
        }
        skip = skip + 1;
    }
    proof {
        if skip < comps@.len() {
            assert(cs[skip as int] == comps@[skip as int]@);
        }
        lemma_leading_parents_exact(cs, skip as int);
    }
    let ghost tail = cs.subrange(skip as int, cs.len() as int);
    let mut remaining = String::new();
    let mut k: usize = skip;
    proof {
        assert(remaining@ =~= Seq::<char>::empty());
        assert(tail.subrange(0, 0) =~= Seq::<PartView>::empty());
    }
    while k < comps.len()
        invariant
            skip <= k <= comps@.len(),
            cs == parts_view(comps@),
            tail == cs.subrange(skip as int, cs.len() as int),
            remaining@ == pushed(Seq::empty(), tail.subrange(0, k - skip), sep),
        decreases comps@.len() - k,
    {
        let ghost pre = tail.subrange(0, k - skip);
        let ghost next = tail.subrange(0, k - skip + 1);
        proof {
            assert(next.drop_last() =~= pre);
            assert(next.last() == cs[k as int]);
            assert(cs[k as int] == comps@[k as int]@);
        }
        match &comps[k] {
            PathComponent::Prefix(p) => {
                remaining = join(remaining.as_str(), p.as_str());
            },
            PathComponent::RootDir => {
                let mut sc = String::new();
                crate::text::push_char(&mut sc, sep);
                assert(sc@ =~= seq![sep]);
                remaining = join(remaining.as_str(), sc.as_str());
            },
            PathComponent::CurDir => {},
            PathComponent::ParentDir => {
                proof {
                    reveal_strlit("..");
                    assert(".."@ =~= seq!['.', '.']);
                }
                remaining = join(remaining.as_str(), "..");
            },
            PathComponent::Normal(n) => {
                remaining = join(remaining.as_str(), n.as_str());
            },
        }
        k = k + 1;
    }
    proof {
        assert(tail.subrange(0, comps@.len() - skip) =~= tail);
    }
    let rc = chars_of(remaining.as_str());
    if rc.len() == 0 {
        ancestor
    } else {
        join(ancestor.as_str(), remaining.as_str())
    }
}

/// The path `acc` with each component of `cs` applied in turn: `..`
/// drops the last component (std `PathBuf::pop`; nothing where there is
/// none), `.` is skipped, another is pushed (see [`component_text`]).
pub open spec fn applied(acc: Seq<char>, cs: Seq<PartView>, sep: char) -> Seq<char>
    decreases cs.len(),
{
    if cs.len() == 0 {
        acc
    } else {
        let a = applied(acc, cs.drop_last(), sep);
        match cs.last() {
            PartView::ParentDir => match std_parent(a) {
                Some(p) => p,
                None => a,
            },
            PartView::CurDir => a,
            c => match component_text(c, sep) {
                Some(t) => std_join(a, t),
                None => a,
            },
        }
    }
}

/// `path` made absolute from the working directory `cwd`, with `.` and
/// `..` applied lexically, component by component.
pub open spec fn lexical_abs_spec(path: Seq<char>, cwd: Seq<char>, sep: char) -> Seq<char> {
    applied(if std_is_absolute(path) { Seq::empty() } else { cwd }, std_components(path), sep)
}

/// `path` made absolute from `cwd` with `.` and `..` applied lexically
/// (see [`lexical_abs_spec`]).
pub fn lexical_normalize_abs(path: &str, cwd: &str, sep: char) -> (r: String)
    ensures
        r@ == lexical_abs_spec(path@, cwd@, sep),
{
    let mut base = if is_absolute(path) {
        let e = String::new();
        assert(e@ =~= Seq::<char>::empty());
        e
    } else {
        owned_str(cwd)
    };
    let ghost start = base@;
    let comps = components(path);
    let ghost cs = parts_view(comps@);
    let mut k: usize = 0;
    proof {
        assert(cs.subrange(0, 0) =~= Seq::<PartView>::empty());
    }
    while k < comps.len()
        invariant
            k <= comps@.len(),
            cs == parts_view(comps@),
            base@ == applied(start, cs.subrange(0, k as int), sep),
        decreases comps@.len() - k,
    {
        let ghost pre = cs.subrange(0, k as int);
        let ghost next = cs.subrange(0, k + 1);
        proof {
            assert(next.drop_last() =~= pre);
            assert(next.last() == cs[k as int]);
            assert(cs[k as int] == comps@[k as int]@);
        }
        match &comps[k] {
            PathComponent::Prefix(p) => {
                base = join(base.as_str(), p.as_str());
            },
            PathComponent::RootDir => {
                let mut sc = String::new();
                crate::text::push_char(&mut sc, sep);
                assert(sc@ =~= seq![sep]);
                base = join(base.as_str(), sc.as_str());
            },
            PathComponent::CurDir => {},
            PathComponent::ParentDir => {
                match parent(base.as_str()) {
                    Some(p) => {
                        base = p;
                    },
                    None => {},
                }
            },
            PathComponent::Normal(n) => {
                base = join(base.as_str(), n.as_str());
            },
        }
        k = k + 1;
    }
    assert(cs.subrange(0, comps@.len() as int) =~= cs);
    base
}

fn is_parent_dir(c: &PathComponent) -> (b: bool)
    ensures
        b == (c@ is ParentDir),
{
    match c {
        PathComponent::ParentDir => true,
        _ => false,
    }
}

fn owned_str(s: &str) -> (r: String)
    ensures
        r@ == s@,
{
    crate::text::owned(s)
}

} // verus!
