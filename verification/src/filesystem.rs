//! Which files the analysis takes and which directories a watch follows.
use vstd::prelude::*;
use crate::paths::{extension, parent, std_extension, std_parent};
use crate::text::{is_prefix, owned, replace_char, replace_char_spec, split_char, split_on, str_eq, trim, trim_ws};
use crate::types::strs_view;

verus! {

/// The extension of a path with its dot (`.js`), or empty without one.
pub open spec fn dotted_extension(path: Seq<char>) -> Seq<char> {
    match std_extension(path) {
        Some(e) => seq!['.'] + e,
        None => Seq::empty(),
    }
}

/// The extensions (with their dot) taken when no filter is given.
pub open spec fn is_default_source_extension(e: Seq<char>) -> bool {
    e == ".js"@ || e == ".jsx"@ || e == ".ts"@ || e == ".tsx"@ || e == ".mjs"@ || e == ".json"@ || e == ".vue"@
}

/// The extensions (without their dot) of the files the analysis supports.
pub open spec fn is_supported_extension(e: Seq<char>) -> bool {
    e == "js"@ || e == "jsx"@ || e == "ts"@ || e == "tsx"@ || e == "mjs"@ || e == "json"@ || e == "vue"@
}

/// One entry of an extension filter: trimmed, with a leading dot added when
/// it has none.
pub open spec fn filter_entry(piece: Seq<char>) -> Seq<char> {
    let t = trim_ws(piece);
    if is_prefix(seq!['.'], t) {
        t
    } else {
        seq!['.'] + t
    }
}

/// The extension of `path` with its dot, or an empty string.
fn dotted_extension_exec(path: &str) -> (r: String)
    ensures
        r@ == dotted_extension(path@),
{
    match extension(path) {
        Some(e) => {
            let mut s = owned(".");
            let ghost e0 = e@;
            let ec = crate::text::chars_of(e.as_str());
            let mut sc = crate::text::chars_of(s.as_str());
            proof {
                reveal_strlit(".");
            }
            crate::text::extend_chars(&mut sc, &ec);
            s = crate::text::string_from_chars(&sc);
            assert(s@ =~= seq!['.'] + e0);
            s
        },
        None => {
            let s = String::new();
            assert(s@ =~= Seq::<char>::empty());
            s
        },
    }
}

/// Whether a dotted extension is one taken when no filter is given.
fn is_default_source_extension_exec(e: &str) -> (b: bool)
    ensures
        b == is_default_source_extension(e@),
{
    str_eq(e, ".js") || str_eq(e, ".jsx") || str_eq(e, ".ts") || str_eq(e, ".tsx") || str_eq(e, ".mjs")
        || str_eq(e, ".json") || str_eq(e, ".vue")
}

/// File discovery and filtering.
pub struct FileSystem;

impl FileSystem {
    /// Whether a file is taken: its dotted extension is one of the filter's
    /// entries, or, without a filter, one of `.js .jsx .ts .tsx .mjs .json .vue`.
    pub fn should_include_file(path: &str, filter_extensions: &Option<Vec<String>>) -> (b: bool)
        ensures
            b == match filter_extensions {
                Some(fs) => strs_view(fs@).contains(dotted_extension(path@)),
                None => is_default_source_extension(dotted_extension(path@)),
            },
    {
        let ext = dotted_extension_exec(path);
        match filter_extensions {
            Some(filters) => {
                let r = crate::setmap::list_contains(filters, ext.as_str());
                r
            },
            None => is_default_source_extension_exec(ext.as_str()),
        }
    }

    /// The directories that hold the given files (each file's parent), each
    /// once.
    pub fn get_watch_directories(files: &Vec<String>) -> (r: Vec<String>)
        ensures
            strs_view(r@).no_duplicates(),
            strs_view(r@).to_set() == Set::new(|d: Seq<char>| exists|i: int|
                0 <= i < files@.len() && #[trigger] std_parent(files@[i]@) == Some(d)),
    {
        let mut dirs: Vec<String> = Vec::new();
        let mut i: usize = 0;
        while i < files.len()
            invariant
                i <= files@.len(),
                strs_view(dirs@).no_duplicates(),
                strs_view(dirs@).to_set() == Set::new(|d: Seq<char>| exists|a: int|
                    0 <= a < i && #[trigger] std_parent(files@[a]@) == Some(d)),
            decreases files@.len() - i,
        {
            let ghost d0 = strs_view(dirs@).to_set();
            match parent(files[i].as_str()) {
                Some(p) => {
                    if !crate::setmap::list_contains(&dirs, p.as_str()) {
                        let ghost before = strs_view(dirs@);
                        dirs.push(p);
                        proof {
                            assert(strs_view(dirs@) =~= before.push(p@));
                            before.lemma_push_to_set_commute(p@);
                        }
                    } else {
                        assert(d0.insert(p@) =~= d0);
                    }
                    proof {
                        assert(strs_view(dirs@).to_set() =~= Set::new(|d: Seq<char>| exists|a: int|
                            0 <= a < i + 1 && #[trigger] std_parent(files@[a]@) == Some(d))) by {
                            assert forall|d: Seq<char>| #![trigger d0.contains(d)] (exists|a: int| 0 <= a < i + 1 && #[trigger] std_parent(files@[a]@) == Some(d))
                                <==> d0.contains(d) || d == p@ by {
                                if exists|a: int| 0 <= a < i + 1 && #[trigger] std_parent(files@[a]@) == Some(d) {
                                    let a = choose|a: int| 0 <= a < i + 1 && #[trigger] std_parent(files@[a]@) == Some(d);
                                    if a < i {
                                        assert(d0.contains(d));
                                    }
                                }
                                if d0.contains(d) {
                                    let a = choose|a: int| 0 <= a < i && #[trigger] std_parent(files@[a]@) == Some(d);
                                    assert(0 <= a < i + 1);
                                }
                            }
                        }
                    }
                },
                None => {
                    proof {
                        assert(strs_view(dirs@).to_set() =~= Set::new(|d: Seq<char>| exists|a: int|
                            0 <= a < i + 1 && #[trigger] std_parent(files@[a]@) == Some(d))) by {
                            assert forall|d: Seq<char>| #![trigger d0.contains(d)] (exists|a: int| 0 <= a < i + 1 && #[trigger] std_parent(files@[a]@) == Some(d))
                                <==> d0.contains(d) by {
                                if exists|a: int| 0 <= a < i + 1 && #[trigger] std_parent(files@[a]@) == Some(d) {
                                    let a = choose|a: int| 0 <= a < i + 1 && #[trigger] std_parent(files@[a]@) == Some(d);
                                    assert(a < i);
                                }
                                if d0.contains(d) {
                                    let a = choose|a: int| 0 <= a < i && #[trigger] std_parent(files@[a]@) == Some(d);
                                    assert(0 <= a < i + 1);
                                }
                            }
                        }
                    }
                },
            }
            i = i + 1;
        }
        dirs
    }

    /// The entries of an extension filter such as `"js, .ts,vue"`: split at
    /// commas, trimmed, with a leading dot added where it is missing.
    pub fn parse_filter_extensions(filter: &Option<String>) -> (r: Option<Vec<String>>)
        ensures
            match filter {
                Some(f) => r matches Some(v) && strs_view(v@) == split_on(f@, ',').map_values(|p: Seq<char>| filter_entry(p)),
                None => r is None,
            },
    {
        match filter {
            Some(f) => {
                let pieces = split_char(f.as_str(), ',');
                let ghost pv = strs_view(pieces@);
                let mut out: Vec<String> = Vec::new();
                let mut i: usize = 0;
                while i < pieces.len()
                    invariant
                        pv == strs_view(pieces@),
                        i <= pieces@.len(),
                        strs_view(out@) == pv.subrange(0, i as int).map_values(|p: Seq<char>| filter_entry(p)),
                    decreases pieces@.len() - i,
                {
                    let t = trim(pieces[i].as_str());
                    let ghost tv = t@;
                    proof {
                        reveal_strlit(".");
                        assert(pv[i as int] == pieces@[i as int]@);
                        assert(tv == trim_ws(pv[i as int]));
                        assert(".".view() =~= seq!['.']);
                    }
                    let e = if crate::text::starts_with(t.as_str(), ".") {
                        t
                    } else {
                        let mut cs = crate::text::chars_of(".");
                        let tc = crate::text::chars_of(t.as_str());
                        crate::text::extend_chars(&mut cs, &tc);
                        crate::text::string_from_chars(&cs)
                    };
                    proof {
                        assert(e@ =~= filter_entry(pv[i as int]));
                    }
                    let ghost before = strs_view(out@);
                    out.push(e);
                    proof {
                        assert(strs_view(out@) =~= before.push(e@));
                        assert(pv.subrange(0, i + 1) =~= pv.subrange(0, i as int).push(pv[i as int]));
                        assert(strs_view(out@) =~= pv.subrange(0, i + 1).map_values(|p: Seq<char>| filter_entry(p)));
                    }
                    i = i + 1;
                }
                proof {
                    assert(pv.subrange(0, i as int) =~= pv);
                }
                Some(out)
            },
            None => None,
        }
    }
}

/// A path written with `/` in place of every `\`.
pub fn normalize_path_string(path: &str) -> (r: String)
    ensures
        r@ == replace_char_spec(path@, '\\', '/'),
{
    replace_char(path, '\\', '/')
}

/// Whether the path's extension is one of `js jsx ts tsx mjs json vue`.
pub fn is_supported_file_type(path: &str) -> (b: bool)
    ensures
        b == (std_extension(path@) matches Some(e) && is_supported_extension(e)),
{
    match extension(path) {
        Some(e) => {
            let s = e.as_str();
            str_eq(s, "js") || str_eq(s, "jsx") || str_eq(s, "ts") || str_eq(s, "tsx") || str_eq(s, "mjs")
                || str_eq(s, "json") || str_eq(s, "vue")
        },
        None => false,
    }
}

} // verus!
