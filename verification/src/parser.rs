//! The parsers that find the dependencies written in JavaScript,
//! TypeScript and Vue files, and the table that picks a parser by file
//! extension.
use vstd::prelude::*;
use crate::jsparse::{remove_comments, remove_comments_spec};
use crate::text::{chars_of, contains_seq, contains_str, extend_chars, owned, str_eq, string_from_chars};
use crate::types::{deps_view, Dependency, DependencyKind, DependencyView};

verus! {

/// What the `regex` crate finds in `text` for `pattern`: `None` when the
/// pattern does not compile; else, for each match in order
/// (`Regex::captures_iter`), the text of each group, group 0 (the whole
/// match) first, `None` for a group that took no part.
pub uninterp spec fn regex_captures_spec(pattern: Seq<char>, text: Seq<char>) -> Option<Seq<Seq<Option<Seq<char>>>>>;

/// The view of the groups of the matches of a pattern.
pub open spec fn captures_view(r: Option<Vec<Vec<Option<String>>>>) -> Option<Seq<Seq<Option<Seq<char>>>>> {
    match r {
        Some(ms) => Some(ms@.map_values(|m: Vec<Option<String>>| crate::types::opt_strs_view(m@))),
        None => None,
    }
}

/// Compiles `pattern` with `regex::Regex::new` and collects, for each match
/// of `Regex::captures_iter` on `text`, the text of each group.
/// Trusted: the result is the name [`regex_captures_spec`] of the two texts.
#[verifier::external_body]
pub(crate) fn regex_captures(pattern: &str, text: &str) -> (r: Option<Vec<Vec<Option<String>>>>)
    ensures
        captures_view(r) == regex_captures_spec(pattern@, text@),
{
    match regex::Regex::new(pattern) {
        Ok(re) => Some(
            re.captures_iter(text).map(|c| c.iter().map(|m| m.map(|m| m.as_str().to_string())).collect()).collect(),
        ),
        Err(_) => None,
    }
}

/// Whether `pattern` compiles (through [`regex_captures`] on `text`).
pub(crate) fn regex_compiles(pattern: &str, text: &str) -> (b: bool)
    ensures
        b == regex_captures_spec(pattern@, text@) is Some,
{
    regex_captures(pattern, text).is_some()
}

/// What std's `char::is_uppercase` says of a character.
pub uninterp spec fn std_is_uppercase(c: char) -> bool;

/// Whether `c` is uppercase (std `char::is_uppercase`).
/// Trusted: the result is the name [`std_is_uppercase`] of the character.
#[verifier::external_body]
fn is_uppercase(c: char) -> (b: bool)
    ensures
        b == std_is_uppercase(c),
{
    c.is_uppercase()
}

/// The text of group 1 of each match that has one, in order.
pub open spec fn group1_texts(caps: Seq<Seq<Option<Seq<char>>>>) -> Seq<Seq<char>> {
    caps.filter_map(|c: Seq<Option<Seq<char>>>| if c.len() > 1 { c[1] } else { None })
}

/// A dependency of `issuer` on each request, all of one kind, unresolved.
pub open spec fn deps_for(issuer: Seq<char>, reqs: Seq<Seq<char>>, kind: DependencyKind) -> Seq<DependencyView> {
    reqs.map_values(|r: Seq<char>| DependencyView { issuer, request: r, kind, id: None })
}

/// The requests that a pattern's group 1 finds in `text` (`None` when the
/// pattern does not compile).
pub open spec fn found_requests(pattern: Seq<char>, text: Seq<char>) -> Option<Seq<Seq<char>>> {
    match regex_captures_spec(pattern, text) {
        Some(caps) => Some(group1_texts(caps)),
        None => None,
    }
}

/// Static imports: `import x from '...'`, `import '...'`.
pub open spec fn import_pattern() -> Seq<char> {
    r#"import\s+(?:[^'"\n]+\s+from\s+)?['"]([^'\"]+)['"]"#@
}

/// CommonJS requires: `require('...')`.
pub open spec fn require_pattern() -> Seq<char> {
    r#"require\s*\(\s*['\"]([^'\"]+)['\"]\s*\)"#@
}

/// Dynamic imports: `import('...')`.
pub open spec fn dynamic_import_pattern() -> Seq<char> {
    r#"import\s*\(\s*['\"]([^'\"]+)['\"]\s*\)"#@
}

/// Re-exports: `export ... from '...'`.
pub open spec fn export_from_pattern() -> Seq<char> {
    r#"export\s+(?:[^'"\n]+\s+)?from\s+['\"]([^'\"]+)['\"]"#@
}

/// The dependencies a JavaScript parser finds for `issuer` in the scrubbed
/// text: the static imports, then the requires, then the dynamic imports,
/// then the re-exports, each in the order found; `None` when a pattern does
/// not compile.
pub open spec fn js_deps(issuer: Seq<char>, cleaned: Seq<char>) -> Option<Seq<DependencyView>> {
    match (
        found_requests(import_pattern(), cleaned),
        found_requests(require_pattern(), cleaned),
        found_requests(dynamic_import_pattern(), cleaned),
        found_requests(export_from_pattern(), cleaned),
    ) {
        (Some(a), Some(b), Some(c), Some(d)) => Some(
            deps_for(issuer, a, DependencyKind::StaticImport) + deps_for(issuer, b, DependencyKind::CommonJS)
                + deps_for(issuer, c, DependencyKind::DynamicImport) + deps_for(issuer, d, DependencyKind::StaticExport),
        ),
        _ => None,
    }
}

/// Appends a dependency of `issuer` on the group-1 text of each match,
/// of kind `kind`.
fn push_found(out: &mut Vec<Dependency>, issuer: &str, caps: &Vec<Vec<Option<String>>>, kind: DependencyKind)
    ensures
        deps_view(final(out)@) == deps_view(old(out)@) + deps_for(
            issuer@,
            group1_texts(caps@.map_values(|m: Vec<Option<String>>| crate::types::opt_strs_view(m@))),
            kind,
        ),
{
    let ghost cv = caps@.map_values(|m: Vec<Option<String>>| crate::types::opt_strs_view(m@));
    let ghost f = |c: Seq<Option<Seq<char>>>| if c.len() > 1 { c[1] } else { None::<Seq<char>> };
    let ghost o0 = deps_view(out@);
    let mut i: usize = 0;
    while i < caps.len()
        invariant
            cv == caps@.map_values(|m: Vec<Option<String>>| crate::types::opt_strs_view(m@)),
            f == (|c: Seq<Option<Seq<char>>>| if c.len() > 1 { c[1] } else { None::<Seq<char>> }),
            i <= caps@.len(),
            deps_view(out@) == o0 + deps_for(issuer@, cv.subrange(0, i as int).filter_map(f), kind),
        decreases caps@.len() - i,
    {
        let m = &caps[i];
        let ghost s1 = cv.subrange(0, i + 1);
        proof {
            assert(s1.drop_last() =~= cv.subrange(0, i as int));
            assert(s1.last() == cv[i as int]);
            assert(cv[i as int] == crate::types::opt_strs_view(m@));
        }
        let ghost before = deps_view(out@);
        if m.len() > 1 {
            match &m[1] {
                Some(req) => {
                    let d = Dependency { issuer: owned(issuer), request: req.clone(), kind, id: None };
                    out.push(d);
                    proof {
                        assert(cv[i as int][1] == Some(req@));
                        assert(s1.filter_map(f) =~= cv.subrange(0, i as int).filter_map(f) + seq![req@]);
                        assert(deps_view(out@) =~= before.push(d@));
                        assert(deps_for(issuer@, s1.filter_map(f), kind) =~= deps_for(issuer@, cv.subrange(0, i as int).filter_map(f), kind).push(d@));
                    }
                },
                None => {
                    proof {
                        assert(cv[i as int][1] == None::<Seq<char>>);
                        assert(s1.filter_map(f) == cv.subrange(0, i as int).filter_map(f));
                    }
                },
            }
        } else {
            assert(s1.filter_map(f) == cv.subrange(0, i as int).filter_map(f));
        }
        i = i + 1;
    }
    proof {
        assert(cv.subrange(0, i as int) =~= cv);
    }
}

/// Finds the imports, requires, dynamic imports and re-exports of
/// Every pattern of the JavaScript parser compiles.
pub open spec fn js_patterns_compile() -> bool {
    &&& regex_captures_spec(import_pattern(), Seq::empty()) is Some
    &&& regex_captures_spec(require_pattern(), Seq::empty()) is Some
    &&& regex_captures_spec(dynamic_import_pattern(), Seq::empty()) is Some
    &&& regex_captures_spec(export_from_pattern(), Seq::empty()) is Some
}

/// JavaScript and TypeScript files.
#[derive(Debug)]
pub struct JavaScriptParser {
    import_regex: String,
    require_regex: String,
    dynamic_import_regex: String,
    export_from_regex: String,
}

impl JavaScriptParser {
    /// The patterns are those of the four kinds of dependency.
    #[verifier::type_invariant]
    closed spec fn patterns_fixed(self) -> bool {
        &&& self.import_regex@ == import_pattern()
        &&& self.require_regex@ == require_pattern()
        &&& self.dynamic_import_regex@ == dynamic_import_pattern()
        &&& self.export_from_regex@ == export_from_pattern()
    }

    /// A parser with the four patterns. Fails when one of them does not
    /// compile.
    pub fn new() -> (r: Result<Self, String>)
        ensures
            r is Ok <==> js_patterns_compile(),
    {
        let p = JavaScriptParser {
            import_regex: owned(r#"import\s+(?:[^'"\n]+\s+from\s+)?['"]([^'\"]+)['"]"#),
            require_regex: owned(r#"require\s*\(\s*['\"]([^'\"]+)['\"]\s*\)"#),
            dynamic_import_regex: owned(r#"import\s*\(\s*['\"]([^'\"]+)['\"]\s*\)"#),
            export_from_regex: owned(r#"export\s+(?:[^'"\n]+\s+)?from\s+['\"]([^'\"]+)['\"]"#),
        };
        let empty = String::new();
        proof {
            assert(empty@ =~= Seq::<char>::empty());
        }
        if regex_captures(p.import_regex.as_str(), empty.as_str()).is_none()
            || regex_captures(p.require_regex.as_str(), empty.as_str()).is_none()
            || regex_captures(p.dynamic_import_regex.as_str(), empty.as_str()).is_none()
            || regex_captures(p.export_from_regex.as_str(), empty.as_str()).is_none() {
            return Err(owned("invalid dependency pattern"));
        }
        Ok(p)
    }

    /// The extensions this parser takes: `js mjs cjs jsx ts tsx`.
    pub fn handled_extensions(&self) -> (r: Vec<String>)
        ensures
            crate::types::strs_view(r@) == seq!["js"@, "mjs"@, "cjs"@, "jsx"@, "ts"@, "tsx"@],
    {
        let mut r: Vec<String> = Vec::new();
        r.push(owned("js"));
        r.push(owned("mjs"));
        r.push(owned("cjs"));
        r.push(owned("jsx"));
        r.push(owned("ts"));
        r.push(owned("tsx"));
        assert(crate::types::strs_view(r@) =~= seq!["js"@, "mjs"@, "cjs"@, "jsx"@, "ts"@, "tsx"@]);
        r
    }

    /// The dependencies written in a JavaScript or TypeScript file (see
    /// [`js_deps`]), found in its content with comments removed and plain
    /// strings scrubbed; each has `file_path` as its issuer.
    pub fn parse_file(&self, file_path: &str, content: &str) -> (r: Result<Vec<Dependency>, String>)
        ensures
            match r {
                Ok(ds) => js_deps(file_path@, remove_comments_spec(content@)) == Some(deps_view(ds@)),
                Err(_) => js_deps(file_path@, remove_comments_spec(content@)) is None,
            },
    {
        proof {
            use_type_invariant(self);
        }
        let cleaned = remove_comments(content);
        let a = regex_captures(self.import_regex.as_str(), cleaned.as_str());
        let b = regex_captures(self.require_regex.as_str(), cleaned.as_str());
        let c = regex_captures(self.dynamic_import_regex.as_str(), cleaned.as_str());
        let d = regex_captures(self.export_from_regex.as_str(), cleaned.as_str());
        match (a, b, c, d) {
            (Some(a), Some(b), Some(c), Some(d)) => {
                let mut out: Vec<Dependency> = Vec::new();
                assert(deps_view(out@) =~= Seq::<DependencyView>::empty());
                push_found(&mut out, file_path, &a, DependencyKind::StaticImport);
                push_found(&mut out, file_path, &b, DependencyKind::CommonJS);
                push_found(&mut out, file_path, &c, DependencyKind::DynamicImport);
                push_found(&mut out, file_path, &d, DependencyKind::StaticExport);
                Ok(out)
            },
            _ => Err(owned("invalid dependency pattern")),
        }
    }
}

} // verus!

verus! {

/// The `<script>` block: `(?s)<script(?:\s[^>]*)?>(.*?)</script>`.
pub open spec fn script_pattern() -> Seq<char> {
    r"(?s)<script(?:\s[^>]*)?>(.*?)</script>"@
}

/// The `<script setup>` block.
pub open spec fn script_setup_pattern() -> Seq<char> {
    r"(?s)<script[^>]*setup[^>]*>(.*?)</script>"@
}

/// The `<template>` block.
pub open spec fn template_pattern() -> Seq<char> {
    r"(?s)<template(?:\s[^>]*)?>(.*?)</template>"@
}

/// The `<style>` blocks.
pub open spec fn style_pattern() -> Seq<char> {
    r"(?s)<style(?:\s[^>]*)?>(.*?)</style>"@
}

/// A tag's name in a template: `<(\w+)`.
pub open spec fn component_pattern() -> Seq<char> {
    r"<(\w+)"@
}

/// A stylesheet import: `@import '...'`.
pub open spec fn style_import_pattern() -> Seq<char> {
    r#"@import\s+['"]([^'"]+)['"]"#@
}

/// The text of group `g` of a match (empty when it took no part).
pub open spec fn group_text(c: Seq<Option<Seq<char>>>, g: int) -> Seq<char> {
    if 0 <= g < c.len() && c[g] is Some {
        c[g]->0
    } else {
        Seq::empty()
    }
}

/// The body of the first match, if any.
pub open spec fn first_block(caps: Seq<Seq<Option<Seq<char>>>>) -> Option<Seq<char>> {
    if caps.len() > 0 {
        Some(group_text(caps[0], 1))
    } else {
        None
    }
}

/// The body of the first `<script>` match, unless that match mentions
/// `setup`.
pub open spec fn script_block(caps: Seq<Seq<Option<Seq<char>>>>) -> Option<Seq<char>> {
    if caps.len() > 0 && !contains_seq(group_text(caps[0], 0), "setup"@) {
        Some(group_text(caps[0], 1))
    } else {
        None
    }
}

/// The dependencies with their kind set to `VueScript`.
pub open spec fn as_vue_script(ds: Seq<DependencyView>) -> Seq<DependencyView> {
    ds.map_values(|d: DependencyView| DependencyView { kind: DependencyKind::VueScript, ..d })
}

/// The dependencies of a script block (none without one); `None` when the
/// JavaScript patterns fail.
pub open spec fn script_deps(issuer: Seq<char>, block: Option<Seq<char>>) -> Option<Seq<DependencyView>> {
    match block {
        Some(b) => match js_deps(issuer, remove_comments_spec(b)) {
            Some(ds) => Some(as_vue_script(ds)),
            None => None,
        },
        None => Some(Seq::empty()),
    }
}

/// A tag name that starts with an uppercase letter names a component.
pub open spec fn names_component(name: Seq<char>) -> bool {
    std_is_uppercase(if name.len() > 0 { name[0] } else { 'a' })
}

/// The request for a component: `@/components/<name>.vue`.
pub open spec fn component_request(name: Seq<char>) -> Seq<char> {
    "@/components/"@ + name + ".vue"@
}

/// The requests for the components a template uses, in order.
pub open spec fn component_requests(caps: Seq<Seq<Option<Seq<char>>>>) -> Seq<Seq<char>> {
    group1_texts(caps).filter_map(|n: Seq<char>| if names_component(n) { Some(component_request(n)) } else { None })
}

/// The dependencies of a template block (none without one); `None` when
/// the tag pattern fails.
pub open spec fn template_deps(issuer: Seq<char>, block: Option<Seq<char>>) -> Option<Seq<DependencyView>> {
    match block {
        Some(b) => match regex_captures_spec(component_pattern(), b) {
            Some(caps) => Some(deps_for(issuer, component_requests(caps), DependencyKind::VueTemplate)),
            None => None,
        },
        None => Some(Seq::empty()),
    }
}

/// The stylesheet imports of the style blocks, block by block.
pub open spec fn style_requests(blocks: Seq<Seq<char>>) -> Option<Seq<Seq<char>>>
    decreases blocks.len(),
{
    if blocks.len() == 0 {
        Some(Seq::empty())
    } else {
        match (style_requests(blocks.drop_last()), found_requests(style_import_pattern(), blocks.last())) {
            (Some(a), Some(b)) => Some(a + b),
            _ => None,
        }
    }
}

/// The stylesheet imports of one style block are those its `@import`s
/// name; none where the pattern fails.
pub proof fn lemma_style_requests_one(block: Seq<char>)
    ensures
        style_requests(seq![block]) == found_requests(style_import_pattern(), block),
{
    let bs = seq![block];
    assert(bs.drop_last() =~= Seq::<Seq<char>>::empty());
    assert(style_requests(bs.drop_last()) == Some(Seq::<Seq<char>>::empty()));
    assert(bs.last() == block);
    if let Some(b) = found_requests(style_import_pattern(), block) {
        assert(Seq::<Seq<char>>::empty() + b =~= b);
    }
}

/// The stylesheet imports of two runs of style blocks, one after the
/// other, are those of the first run followed by those of the second:
/// every block counts, in order; the search fails where it fails on
/// either run.
pub proof fn lemma_style_requests_append(a: Seq<Seq<char>>, b: Seq<Seq<char>>)
    ensures
        style_requests(a + b) == match (style_requests(a), style_requests(b)) {
            (Some(x), Some(y)) => Some(x + y),
            _ => None,
        },
    decreases b.len(),
{
    if b.len() == 0 {
        assert(a + b =~= a);
        if let Some(x) = style_requests(a) {
            assert(x + Seq::<Seq<char>>::empty() =~= x);
        }
    } else {
        lemma_style_requests_append(a, b.drop_last());
        assert((a + b).drop_last() =~= a + b.drop_last());
        assert((a + b).last() == b.last());
        match (style_requests(a), style_requests(b.drop_last()), found_requests(style_import_pattern(), b.last())) {
            (Some(x), Some(y), Some(z)) => {
                assert(x + y + z =~= x + (y + z));
            },
            _ => {},
        }
    }
}

/// The dependencies a Vue parser finds for `issuer` in a single-file
/// component: those of the `<script>` block, then of the `<script setup>`
/// block (both of kind `VueScript`), then the components of the template,
/// then the stylesheet imports of each style block; `None` when a pattern
/// fails.
pub open spec fn vue_deps(issuer: Seq<char>, content: Seq<char>) -> Option<Seq<DependencyView>> {
    match (
        regex_captures_spec(script_pattern(), content),
        regex_captures_spec(script_setup_pattern(), content),
        regex_captures_spec(template_pattern(), content),
        regex_captures_spec(style_pattern(), content),
    ) {
        (Some(sc), Some(su), Some(te), Some(st)) => match (
            script_deps(issuer, script_block(sc)),
            script_deps(issuer, first_block(su)),
            template_deps(issuer, first_block(te)),
            style_requests(st.map_values(|c: Seq<Option<Seq<char>>>| group_text(c, 1))),
        ) {
            (Some(a), Some(b), Some(c), Some(d)) => Some(a + b + c + deps_for(issuer, d, DependencyKind::VueStyle)),
            _ => None,
        },
        _ => None,
    }
}

/// The text of group `g` of a match.
fn group_text_exec(c: &Vec<Option<String>>, g: usize) -> (r: String)
    ensures
        r@ == group_text(crate::types::opt_strs_view(c@), g as int),
{
    if g < c.len() {
        match &c[g] {
            Some(t) => t.clone(),
            None => {
                let e = String::new();
                assert(e@ =~= Seq::<char>::empty());
                e
            },
        }
    } else {
        let e = String::new();
        assert(e@ =~= Seq::<char>::empty());
        e
    }
}

/// The dependencies with their kind set to `VueScript`.
fn into_vue_script(ds: Vec<Dependency>) -> (r: Vec<Dependency>)
    ensures
        deps_view(r@) == as_vue_script(deps_view(ds@)),
{
    let mut r: Vec<Dependency> = Vec::new();
    let mut i: usize = 0;
    while i < ds.len()
        invariant
            i <= ds@.len(),
            deps_view(r@) == as_vue_script(deps_view(ds@).subrange(0, i as int)),
        decreases ds@.len() - i,
    {
        let d = &ds[i];
        let nd = Dependency { issuer: d.issuer.clone(), request: d.request.clone(), kind: DependencyKind::VueScript, id: crate::types::clone_opt_string(&d.id) };
        let ghost before = deps_view(r@);
        r.push(nd);
        proof {
            assert(deps_view(r@) =~= before.push(nd@));
            assert(deps_view(ds@).subrange(0, i + 1) =~= deps_view(ds@).subrange(0, i as int).push(d@));
            assert(as_vue_script(deps_view(ds@).subrange(0, i + 1)) =~= as_vue_script(deps_view(ds@).subrange(0, i as int)).push(nd@));
        }
        i = i + 1;
    }
    proof {
        assert(deps_view(ds@).subrange(0, i as int) =~= deps_view(ds@));
    }
    r
}

/// Every pattern of the Vue parser, and of the JavaScript parser it uses
/// for scripts, compiles.
pub open spec fn vue_patterns_compile() -> bool {
    &&& js_patterns_compile()
    &&& regex_captures_spec(component_pattern(), Seq::empty()) is Some
    &&& regex_captures_spec(style_import_pattern(), Seq::empty()) is Some
    &&& regex_captures_spec(script_pattern(), Seq::empty()) is Some
    &&& regex_captures_spec(script_setup_pattern(), Seq::empty()) is Some
    &&& regex_captures_spec(template_pattern(), Seq::empty()) is Some
    &&& regex_captures_spec(style_pattern(), Seq::empty()) is Some
}

/// Finds the dependencies of Vue single-file components: those of their
/// scripts, the components their template uses and the stylesheets their
/// styles import.
#[derive(Debug)]
pub struct VueParser {
    js_parser: JavaScriptParser,
    component_regex: String,
    import_regex: String,
    script_regex: String,
    script_setup_regex: String,
    template_regex: String,
    style_regex: String,
}

impl VueParser {
    /// The patterns are those of the blocks, tags and stylesheet imports.
    #[verifier::type_invariant]
    closed spec fn patterns_fixed(self) -> bool {
        &&& self.component_regex@ == component_pattern()
        &&& self.import_regex@ == style_import_pattern()
        &&& self.script_regex@ == script_pattern()
        &&& self.script_setup_regex@ == script_setup_pattern()
        &&& self.template_regex@ == template_pattern()
        &&& self.style_regex@ == style_pattern()
    }

    /// A parser with its patterns and a JavaScript parser for its scripts.
    /// Fails exactly when a pattern (its own or the JavaScript parser's)
    /// does not compile.
    pub fn new() -> (r: Result<Self, String>)
        ensures
            r is Ok <==> vue_patterns_compile(),
    {
        let js_parser = match JavaScriptParser::new() {
            Ok(p) => p,
            Err(e) => {
                return Err(e);
            },
        };
        let p = VueParser {
            js_parser,
            component_regex: owned(r"<(\w+)"),
            import_regex: owned(r#"@import\s+['"]([^'"]+)['"]"#),
            script_regex: owned(r"(?s)<script(?:\s[^>]*)?>(.*?)</script>"),
            script_setup_regex: owned(r"(?s)<script[^>]*setup[^>]*>(.*?)</script>"),
            template_regex: owned(r"(?s)<template(?:\s[^>]*)?>(.*?)</template>"),
            style_regex: owned(r"(?s)<style(?:\s[^>]*)?>(.*?)</style>"),
        };
        let empty = String::new();
        proof {
            assert(empty@ =~= Seq::<char>::empty());
        }
        if regex_captures(p.component_regex.as_str(), empty.as_str()).is_none()
            || regex_captures(p.import_regex.as_str(), empty.as_str()).is_none()
            || regex_captures(p.script_regex.as_str(), empty.as_str()).is_none()
            || regex_captures(p.script_setup_regex.as_str(), empty.as_str()).is_none()
            || regex_captures(p.template_regex.as_str(), empty.as_str()).is_none()
            || regex_captures(p.style_regex.as_str(), empty.as_str()).is_none() {
            return Err(owned("invalid component pattern"));
        }
        Ok(p)
    }

    /// The extensions this parser takes: `vue`.
    pub fn handled_extensions(&self) -> (r: Vec<String>)
        ensures
            crate::types::strs_view(r@) == seq!["vue"@],
    {
        let mut r: Vec<String> = Vec::new();
        r.push(owned("vue"));
        assert(crate::types::strs_view(r@) =~= seq!["vue"@]);
        r
    }

    /// The dependencies of a script block, of kind `VueScript`.
    fn parse_script(&self, file_path: &str, block: Option<String>) -> (r: Result<Vec<Dependency>, String>)
        ensures
            match r {
                Ok(ds) => script_deps(file_path@, crate::types::opt_str_view(block)) == Some(deps_view(ds@)),
                Err(_) => script_deps(file_path@, crate::types::opt_str_view(block)) is None,
            },
    {
        match block {
            Some(b) => match self.js_parser.parse_file(file_path, b.as_str()) {
                Ok(ds) => Ok(into_vue_script(ds)),
                Err(_) => Err(owned("Failed to parse Vue script section")),
            },
            None => {
                let v: Vec<Dependency> = Vec::new();
                assert(deps_view(v@) =~= Seq::<DependencyView>::empty());
                Ok(v)
            },
        }
    }

    /// The components a template uses (see [`template_deps`]).
    fn parse_vue_template(&self, content: &str, issuer: &str) -> (r: Result<Vec<Dependency>, String>)
        ensures
            match r {
                Ok(ds) => template_deps(issuer@, Some(content@)) == Some(deps_view(ds@)),
                Err(_) => template_deps(issuer@, Some(content@)) is None,
            },
    {
        proof {
            use_type_invariant(self);
        }
        let caps = match regex_captures(self.component_regex.as_str(), content) {
            Some(c) => c,
            None => {
                return Err(owned("invalid component pattern"));
            },
        };
        let ghost cv = caps@.map_values(|m: Vec<Option<String>>| crate::types::opt_strs_view(m@));
        let ghost f = |c: Seq<Option<Seq<char>>>| if c.len() > 1 { c[1] } else { None::<Seq<char>> };
        let ghost g = |n: Seq<char>| if names_component(n) { Some(component_request(n)) } else { None::<Seq<char>> };
        let mut out: Vec<Dependency> = Vec::new();
        let mut i: usize = 0;
        while i < caps.len()
            invariant
                cv == caps@.map_values(|m: Vec<Option<String>>| crate::types::opt_strs_view(m@)),
                f == (|c: Seq<Option<Seq<char>>>| if c.len() > 1 { c[1] } else { None::<Seq<char>> }),
                g == (|n: Seq<char>| if names_component(n) { Some(component_request(n)) } else { None::<Seq<char>> }),
                i <= caps@.len(),
                deps_view(out@) == deps_for(issuer@, cv.subrange(0, i as int).filter_map(f).filter_map(g), DependencyKind::VueTemplate),
            decreases caps@.len() - i,
        {
            let m = &caps[i];
            let ghost s0 = cv.subrange(0, i as int);
            let ghost s1 = cv.subrange(0, i + 1);
            proof {
                assert(s1.drop_last() =~= s0);
                assert(s1.last() == cv[i as int]);
                assert(cv[i as int] == crate::types::opt_strs_view(m@));
            }
            let ghost before = deps_view(out@);
            if m.len() > 1 {
                match &m[1] {
                    Some(name) => {
                        proof {
                            assert(cv[i as int][1] == Some(name@));
                            assert(s1.filter_map(f) =~= s0.filter_map(f) + seq![name@]);
                            assert((s0.filter_map(f) + seq![name@]).drop_last() =~= s0.filter_map(f));
                        }
                        let cs = chars_of(name.as_str());
                        let first = if cs.len() > 0 {
                            cs[0]
                        } else {
                            'a'
                        };
                        if is_uppercase(first) {
                            let mut rc = chars_of("@/components/");
                            let nc = chars_of(name.as_str());
                            extend_chars(&mut rc, &nc);
                            let tail = chars_of(".vue");
                            extend_chars(&mut rc, &tail);
                            let req = string_from_chars(&rc);
                            let d = Dependency { issuer: owned(issuer), request: req, kind: DependencyKind::VueTemplate, id: None };
                            out.push(d);
                            proof {
                                assert(names_component(name@));
                                assert(req@ =~= component_request(name@));
                                assert(s1.filter_map(f).filter_map(g) =~= s0.filter_map(f).filter_map(g) + seq![component_request(name@)]);
                                assert(deps_view(out@) =~= before.push(d@));
                            }
                        } else {
                            proof {
                                assert(!names_component(name@));
                                assert(s1.filter_map(f).filter_map(g) =~= s0.filter_map(f).filter_map(g));
                            }
                        }
                    },
                    None => {
                        proof {
                            assert(s1.filter_map(f) == s0.filter_map(f));
                        }
                    },
                }
            } else {
                proof {
                    assert(s1.filter_map(f) == s0.filter_map(f));
                }
            }
            i = i + 1;
        }
        proof {
            assert(cv.subrange(0, i as int) =~= cv);
        }
        Ok(out)
    }
}

} // verus!

verus! {

/// Once a prefix of the blocks has a failing pattern, so do all the blocks.
proof fn lemma_style_requests_none(blocks: Seq<Seq<char>>, k: int)
    requires
        0 <= k <= blocks.len(),
        style_requests(blocks.subrange(0, k)) is None,
    ensures
        style_requests(blocks) is None,
    decreases blocks.len() - k,
{
    if k < blocks.len() {
        let s1 = blocks.subrange(0, k + 1);
        assert(s1.drop_last() =~= blocks.subrange(0, k));
        lemma_style_requests_none(blocks, k + 1);
    } else {
        assert(blocks.subrange(0, k) =~= blocks);
    }
}

/// The blocks of a single-file component.
#[derive(Debug)]
pub struct SfcDescriptor {
    pub script: Option<String>,
    pub script_setup: Option<String>,
    pub template: Option<String>,
    pub styles: Vec<String>,
}

impl VueParser {
    /// The stylesheet imports of the style blocks, block by block, each of
    /// kind `VueStyle`.
    fn parse_vue_styles(&self, styles: &Vec<String>, issuer: &str) -> (r: Result<Vec<Dependency>, String>)
        ensures
            match r {
                Ok(ds) => style_requests(crate::types::strs_view(styles@)) matches Some(reqs)
                    && deps_view(ds@) == deps_for(issuer@, reqs, DependencyKind::VueStyle),
                Err(_) => style_requests(crate::types::strs_view(styles@)) is None,
            },
    {
        proof {
            use_type_invariant(self);
        }
        let ghost sv = crate::types::strs_view(styles@);
        let mut out: Vec<Dependency> = Vec::new();
        let mut i: usize = 0;
        proof {
            assert(sv.subrange(0, 0) =~= Seq::<Seq<char>>::empty());
            assert(deps_view(out@) =~= deps_for(issuer@, Seq::empty(), DependencyKind::VueStyle));
        }
        while i < styles.len()
            invariant
                sv == crate::types::strs_view(styles@),
                self.import_regex@ == style_import_pattern(),
                i <= sv.len(),
                style_requests(sv.subrange(0, i as int)) matches Some(reqs)
                    && deps_view(out@) == deps_for(issuer@, reqs, DependencyKind::VueStyle),
            decreases sv.len() - i,
        {
            let ghost s1 = sv.subrange(0, i + 1);
            proof {
                assert(s1.drop_last() =~= sv.subrange(0, i as int));
                assert(s1.last() == styles@[i as int]@);
            }
            let caps = match regex_captures(self.import_regex.as_str(), styles[i].as_str()) {
                Some(c) => c,
                None => {
                    proof {
                        assert(found_requests(style_import_pattern(), s1.last()) is None);
                        lemma_style_requests_none(sv, i + 1);
                    }
                    return Err(owned("invalid stylesheet pattern"));
                },
            };
            let ghost reqs0 = style_requests(sv.subrange(0, i as int))->0;
            push_found(&mut out, issuer, &caps, DependencyKind::VueStyle);
            proof {
                let found = group1_texts(caps@.map_values(|m: Vec<Option<String>>| crate::types::opt_strs_view(m@)));
                assert(deps_for(issuer@, reqs0, DependencyKind::VueStyle) + deps_for(issuer@, found, DependencyKind::VueStyle)
                    =~= deps_for(issuer@, reqs0 + found, DependencyKind::VueStyle));
            }
            i = i + 1;
        }
        proof {
            assert(sv.subrange(0, i as int) =~= sv);
        }
        Ok(out)
    }

    /// The blocks of a single-file component: the first `<script>` block
    /// unless it is a setup script, the first `<script setup>` block, the
    /// first `<template>` block and every `<style>` block.
    pub fn parse_sfc(&self, content: &str) -> (r: Result<SfcDescriptor, String>)
        ensures
            match r {
                Ok(d) => regex_captures_spec(script_pattern(), content@) matches Some(sc)
                    && regex_captures_spec(script_setup_pattern(), content@) matches Some(su)
                    && regex_captures_spec(template_pattern(), content@) matches Some(te)
                    && regex_captures_spec(style_pattern(), content@) matches Some(st)
                    && crate::types::opt_str_view(d.script) == script_block(sc)
                    && crate::types::opt_str_view(d.script_setup) == first_block(su)
                    && crate::types::opt_str_view(d.template) == first_block(te)
                    && crate::types::strs_view(d.styles@) == st.map_values(|c: Seq<Option<Seq<char>>>| group_text(c, 1)),
                Err(_) => regex_captures_spec(script_pattern(), content@) is None
                    || regex_captures_spec(script_setup_pattern(), content@) is None
                    || regex_captures_spec(template_pattern(), content@) is None
                    || regex_captures_spec(style_pattern(), content@) is None,
            },
    {
        proof {
            use_type_invariant(self);
        }
        let sc = regex_captures(self.script_regex.as_str(), content);
        let su = regex_captures(self.script_setup_regex.as_str(), content);
        let te = regex_captures(self.template_regex.as_str(), content);
        let st = regex_captures(self.style_regex.as_str(), content);
        match (sc, su, te, st) {
            (Some(sc), Some(su), Some(te), Some(st)) => {
                proof {
                    reveal_strlit("setup");
                }
                let script = if sc.len() > 0 {
                    let full = group_text_exec(&sc[0], 0);
                    if contains_str(full.as_str(), "setup") {
                        None
                    } else {
                        Some(group_text_exec(&sc[0], 1))
                    }
                } else {
                    None
                };
                let script_setup = if su.len() > 0 {
                    Some(group_text_exec(&su[0], 1))
                } else {
                    None
                };
                let template = if te.len() > 0 {
                    Some(group_text_exec(&te[0], 1))
                } else {
                    None
                };
                let ghost stv = st@.map_values(|m: Vec<Option<String>>| crate::types::opt_strs_view(m@));
                let mut styles: Vec<String> = Vec::new();
                let mut i: usize = 0;
                while i < st.len()
                    invariant
                        stv == st@.map_values(|m: Vec<Option<String>>| crate::types::opt_strs_view(m@)),
                        i <= st@.len(),
                        crate::types::strs_view(styles@) == stv.subrange(0, i as int).map_values(|c: Seq<Option<Seq<char>>>| group_text(c, 1)),
                    decreases st@.len() - i,
                {
                    let b = group_text_exec(&st[i], 1);
                    let ghost before = crate::types::strs_view(styles@);
                    styles.push(b);
                    proof {
                        assert(stv[i as int] == crate::types::opt_strs_view(st@[i as int]@));
                        assert(crate::types::strs_view(styles@) =~= before.push(b@));
                        assert(stv.subrange(0, i + 1) =~= stv.subrange(0, i as int).push(stv[i as int]));
                        assert(crate::types::strs_view(styles@) =~= stv.subrange(0, i + 1).map_values(|c: Seq<Option<Seq<char>>>| group_text(c, 1)));
                    }
                    i = i + 1;
                }
                proof {
                    assert(stv.subrange(0, i as int) =~= stv);
                    let scv = sc@.map_values(|m: Vec<Option<String>>| crate::types::opt_strs_view(m@));
                    if sc@.len() > 0 {
                        assert(scv[0] == crate::types::opt_strs_view(sc@[0]@));
                    }
                    let suv = su@.map_values(|m: Vec<Option<String>>| crate::types::opt_strs_view(m@));
                    if su@.len() > 0 {
                        assert(suv[0] == crate::types::opt_strs_view(su@[0]@));
                    }
                    let tev = te@.map_values(|m: Vec<Option<String>>| crate::types::opt_strs_view(m@));
                    if te@.len() > 0 {
                        assert(tev[0] == crate::types::opt_strs_view(te@[0]@));
                    }
                }
                Ok(SfcDescriptor { script, script_setup, template, styles })
            },
            _ => Err(owned("invalid component pattern")),
        }
    }

    /// The dependencies of a single-file component (see [`vue_deps`]); each
    /// has `file_path` as its issuer.
    pub fn parse_file(&self, file_path: &str, content: &str) -> (r: Result<Vec<Dependency>, String>)
        ensures
            match r {
                Ok(ds) => vue_deps(file_path@, content@) == Some(deps_view(ds@)),
                Err(_) => vue_deps(file_path@, content@) is None,
            },
    {
        let sfc = match self.parse_sfc(content) {
            Ok(s) => s,
            Err(e) => {
                return Err(e);
            },
        };
        let a = match self.parse_script(file_path, sfc.script) {
            Ok(a) => a,
            Err(e) => {
                return Err(e);
            },
        };
        let b = match self.parse_script(file_path, sfc.script_setup) {
            Ok(b) => b,
            Err(_) => {
                return Err(owned("Failed to parse Vue setup script section"));
            },
        };
        let c = match sfc.template {
            Some(t) => match self.parse_vue_template(t.as_str(), file_path) {
                Ok(c) => c,
                Err(e) => {
                    return Err(e);
                },
            },
            None => {
                let v: Vec<Dependency> = Vec::new();
                assert(deps_view(v@) =~= Seq::<DependencyView>::empty());
                v
            },
        };
        let d = match self.parse_vue_styles(&sfc.styles, file_path) {
            Ok(d) => d,
            Err(e) => {
                return Err(e);
            },
        };
        let mut out = a;
        let ghost va = deps_view(out@);
        let mut b = b;
        let mut c = c;
        let mut d = d;
        let ghost vb = deps_view(b@);
        let ghost vc = deps_view(c@);
        let ghost vd = deps_view(d@);
        out.append(&mut b);
        out.append(&mut c);
        out.append(&mut d);
        proof {
            assert(deps_view(out@) =~= va + vb + vc + vd);
        }
        Ok(out)
    }
}

} // verus!

verus! {

/// A parser of one kind of source file: it finds the dependencies written
/// in a file's content and says which extensions (without the dot) it
/// takes.
pub trait Parser {
    /// The extensions (without the dot) that the parser takes.
    spec fn extensions(&self) -> Seq<Seq<char>>;

    fn parse_file(&self, file_path: &str, content: &str) -> Result<Vec<Dependency>, String>;

    fn handled_extensions(&self) -> (r: Vec<String>)
        ensures
            crate::types::strs_view(r@) == self.extensions();
}

impl Parser for JavaScriptParser {
    open spec fn extensions(&self) -> Seq<Seq<char>> {
        seq!["js"@, "mjs"@, "cjs"@, "jsx"@, "ts"@, "tsx"@]
    }

    fn parse_file(&self, file_path: &str, content: &str) -> (r: Result<Vec<Dependency>, String>)
        ensures
            match r {
                Ok(ds) => js_deps(file_path@, remove_comments_spec(content@)) == Some(deps_view(ds@)),
                Err(_) => js_deps(file_path@, remove_comments_spec(content@)) is None,
            },
    {
        JavaScriptParser::parse_file(self, file_path, content)
    }

    fn handled_extensions(&self) -> (r: Vec<String>)
        ensures
            crate::types::strs_view(r@) == seq!["js"@, "mjs"@, "cjs"@, "jsx"@, "ts"@, "tsx"@],
    {
        JavaScriptParser::handled_extensions(self)
    }
}

impl Parser for VueParser {
    open spec fn extensions(&self) -> Seq<Seq<char>> {
        seq!["vue"@]
    }

    fn parse_file(&self, file_path: &str, content: &str) -> (r: Result<Vec<Dependency>, String>)
        ensures
            match r {
                Ok(ds) => vue_deps(file_path@, content@) == Some(deps_view(ds@)),
                Err(_) => vue_deps(file_path@, content@) is None,
            },
    {
        VueParser::parse_file(self, file_path, content)
    }

    fn handled_extensions(&self) -> (r: Vec<String>)
        ensures
            crate::types::strs_view(r@) == seq!["vue"@],
    {
        VueParser::handled_extensions(self)
    }
}

/// Parsers registered at run time, each with the extensions it takes, in
/// the order of registration.
#[derive(Debug)]
pub struct ParserRegistry<P> {
    entries: Vec<(Vec<String>, P)>,
}

/// Some extension of the list equals `ext` up to ASCII case.
pub open spec fn takes_extension(exts: Seq<Seq<char>>, ext: Seq<char>) -> bool {
    exists|k: int| 0 <= k < exts.len() && crate::text::eq_ignore_ascii_case_spec(#[trigger] exts[k], ext)
}

impl<P> ParserRegistry<P> {
    /// The extensions of each registered parser, in order.
    pub closed spec fn ext_lists(self) -> Seq<Seq<Seq<char>>> {
        self.entries@.map_values(|e: (Vec<String>, P)| crate::types::strs_view(e.0@))
    }

    /// The registered parsers, in order.
    pub closed spec fn parsers(self) -> Seq<P> {
        self.entries@.map_values(|e: (Vec<String>, P)| e.1)
    }

    /// Each registered parser has its list of extensions.
    pub proof fn lemma_same_length(r: Self)
        ensures
            r.ext_lists().len() == r.parsers().len(),
    {
    }

    /// A parser registered for extensions is found by each of them: the
    /// lookup (the first registration that takes the extension) gives the
    /// new parser where no earlier registration takes the extension, and
    /// the earlier parser otherwise.
    pub proof fn lemma_registered_extension_found(before: Self, after: Self, exts: Seq<Seq<char>>, parser: P, e: Seq<char>)
        requires
            after.ext_lists() == before.ext_lists().push(exts),
            after.parsers() == before.parsers().push(parser),
            takes_extension(exts, e),
        ensures
            exists|i: int| 0 <= i < after.ext_lists().len() && takes_extension(#[trigger] after.ext_lists()[i], e),
            forall|i: int| 0 <= i < after.ext_lists().len() && takes_extension(#[trigger] after.ext_lists()[i], e)
                && (forall|j: int| 0 <= j < i ==> !takes_extension(#[trigger] after.ext_lists()[j], e)) ==> {
                    &&& i < after.parsers().len()
                    &&& (forall|j: int| 0 <= j < before.ext_lists().len() ==> !takes_extension(#[trigger] before.ext_lists()[j], e))
                        ==> i == before.ext_lists().len() && after.parsers()[i] == parser
                    &&& (exists|j: int| 0 <= j < before.ext_lists().len() && takes_extension(#[trigger] before.ext_lists()[j], e))
                        ==> i < before.ext_lists().len() && after.parsers()[i] == before.parsers()[i]
                },
    {
        Self::lemma_same_length(before);
        let n = before.ext_lists().len() as int;
        assert(after.ext_lists()[n] == exts);
        assert forall|i: int| 0 <= i < after.ext_lists().len() && takes_extension(#[trigger] after.ext_lists()[i], e)
            && (forall|j: int| 0 <= j < i ==> !takes_extension(#[trigger] after.ext_lists()[j], e)) implies {
                &&& i < after.parsers().len()
                &&& (forall|j: int| 0 <= j < before.ext_lists().len() ==> !takes_extension(#[trigger] before.ext_lists()[j], e))
                    ==> i == before.ext_lists().len() && after.parsers()[i] == parser
                &&& (exists|j: int| 0 <= j < before.ext_lists().len() && takes_extension(#[trigger] before.ext_lists()[j], e))
                    ==> i < before.ext_lists().len() && after.parsers()[i] == before.parsers()[i]
            } by {
            if forall|j: int| 0 <= j < before.ext_lists().len() ==> !takes_extension(#[trigger] before.ext_lists()[j], e) {
                if i < n {
                    assert(after.ext_lists()[i] == before.ext_lists()[i]);
                }
            }
            if exists|j: int| 0 <= j < before.ext_lists().len() && takes_extension(#[trigger] before.ext_lists()[j], e) {
                let j = choose|j: int| 0 <= j < before.ext_lists().len() && takes_extension(#[trigger] before.ext_lists()[j], e);
                if i >= n {
                    assert(after.ext_lists()[j] == before.ext_lists()[j]);
                }
            }
        }
    }

    /// An empty registry.
    pub fn new() -> (r: Self)
        ensures
            r.ext_lists() == Seq::<Seq<Seq<char>>>::empty(),
            r.parsers() == Seq::<P>::empty(),
    {
        let r = ParserRegistry { entries: Vec::new() };
        assert(r.ext_lists() =~= Seq::<Seq<Seq<char>>>::empty());
        assert(r.parsers() =~= Seq::<P>::empty());
        r
    }

    /// Registers `parser` for the extensions `exts`, after those already
    /// registered.
    pub fn register_parser_for_extensions(&mut self, exts: Vec<String>, parser: P)
        ensures
            final(self).ext_lists() == old(self).ext_lists().push(crate::types::strs_view(exts@)),
            final(self).parsers() == old(self).parsers().push(parser),
    {
        let ghost e = (exts, parser);
        self.entries.push((exts, parser));
        assert(self.ext_lists() =~= old(self).ext_lists().push(crate::types::strs_view(e.0@)));
        assert(self.parsers() =~= old(self).parsers().push(e.1));
    }

    /// The first registered parser that takes `ext` (compared up to ASCII
    /// case), with its position.
    pub fn get_registered_parser_for_extension(&self, ext: &str) -> (r: Option<(usize, &P)>)
        ensures
            match r {
                Some((i, p)) => i < self.parsers().len() && *p == self.parsers()[i as int]
                    && takes_extension(self.ext_lists()[i as int], ext@)
                    && forall|j: int| 0 <= j < i ==> !takes_extension(#[trigger] self.ext_lists()[j], ext@),
                None => forall|j: int| 0 <= j < self.ext_lists().len() ==> !takes_extension(#[trigger] self.ext_lists()[j], ext@),
            },
    {
        let mut i: usize = 0;
        while i < self.entries.len()
            invariant
                i <= self.entries@.len(),
                self.ext_lists().len() == self.entries@.len(),
                forall|j: int| 0 <= j < i ==> !takes_extension(#[trigger] self.ext_lists()[j], ext@),
            decreases self.entries@.len() - i,
        {
            let exts = &self.entries[i].0;
            let ghost ev = crate::types::strs_view(exts@);
            assert(self.ext_lists()[i as int] == ev);
            let mut k: usize = 0;
            while k < exts.len()
                invariant
                    ev == crate::types::strs_view(exts@),
                    i < self.entries@.len(),
                    self.ext_lists().len() == self.entries@.len(),
                    self.parsers().len() == self.entries@.len(),
                    self.ext_lists()[i as int] == ev,
                    *exts == self.entries@[i as int].0,
                    forall|j: int| 0 <= j < i ==> !takes_extension(#[trigger] self.ext_lists()[j], ext@),
                    k <= exts@.len(),
                    forall|m: int| 0 <= m < k ==> !crate::text::eq_ignore_ascii_case_spec(#[trigger] ev[m], ext@),
                decreases exts@.len() - k,
            {
                if crate::text::eq_ignore_ascii_case(exts[k].as_str(), ext) {
                    assert(crate::text::eq_ignore_ascii_case_spec(ev[k as int], ext@));
                    assert(self.parsers()[i as int] == self.entries@[i as int].1);
                    return Some((i, &self.entries[i].1));
                }
                k = k + 1;
            }
            i = i + 1;
        }
        None
    }
}

/// Registers `parser` for the extensions it says it takes.
pub fn register_parser<P: Parser>(registry: &mut ParserRegistry<P>, parser: P)
    ensures
        final(registry).parsers() == old(registry).parsers().push(parser),
        final(registry).ext_lists() == old(registry).ext_lists().push(parser.extensions()),
{
    let exts = parser.handled_extensions();
    registry.register_parser_for_extensions(exts, parser);
}

/// Registers `parser` for the extensions `exts`.
pub fn register_parser_for_extensions<P>(registry: &mut ParserRegistry<P>, exts: Vec<String>, parser: P)
    ensures
        final(registry).ext_lists() == old(registry).ext_lists().push(crate::types::strs_view(exts@)),
        final(registry).parsers() == old(registry).parsers().push(parser),
{
    ParserFactory::register_parser_for_extensions(registry, exts, parser);
}

/// The first registered parser that takes `ext`, with its position.
pub fn get_registered_parser_for_extension<'a, P>(registry: &'a ParserRegistry<P>, ext: &str) -> (r: Option<(usize, &'a P)>)
    ensures
        match r {
            Some((i, p)) => i < registry.parsers().len() && *p == registry.parsers()[i as int]
                && takes_extension(registry.ext_lists()[i as int], ext@)
                && forall|j: int| 0 <= j < i ==> !takes_extension(#[trigger] registry.ext_lists()[j], ext@),
            None => forall|j: int| 0 <= j < registry.ext_lists().len() ==> !takes_extension(#[trigger] registry.ext_lists()[j], ext@),
        },
{
    registry.get_registered_parser_for_extension(ext)
}

/// The parser chosen for a file: a registered one (by its position in the
/// registry), or a built-in one.
#[derive(Debug)]
pub enum ParserChoice {
    Registered(usize),
    JavaScript(JavaScriptParser),
    Vue(VueParser),
}

/// Which built-in parser takes an extension: `vue` the Vue parser; `js
/// cjs mjs jsx ts tsx` the JavaScript parser; compared after lowercasing
/// (no non-ASCII character lowercases into these names, so ASCII
/// lowercasing compares the same).
pub open spec fn builtin_for(ext: Seq<char>) -> Option<bool> {
    let l = crate::text::ascii_lowercase(ext);
    if l == "vue"@ {
        Some(true)
    } else if l == "js"@ || l == "cjs"@ || l == "mjs"@ || l == "jsx"@ || l == "ts"@ || l == "tsx"@ {
        Some(false)
    } else {
        None
    }
}

/// The built-in parser for `ext` exists and cannot be built: one of its
/// patterns does not compile.
pub open spec fn builtin_fails(ext: Seq<char>) -> bool {
    match builtin_for(ext) {
        Some(true) => !vue_patterns_compile(),
        Some(false) => !js_patterns_compile(),
        None => false,
    }
}

/// Picks parsers by extension.
pub struct ParserFactory;

impl ParserFactory {
    /// Registers `parser` for the extensions `exts`, after those already
    /// registered.
    pub fn register_parser_for_extensions<P>(registry: &mut ParserRegistry<P>, exts: Vec<String>, parser: P)
        ensures
            final(registry).ext_lists() == old(registry).ext_lists().push(crate::types::strs_view(exts@)),
            final(registry).parsers() == old(registry).parsers().push(parser),
    {
        registry.register_parser_for_extensions(exts, parser);
    }

    /// The parser for files with extension `ext`: the first registered one
    /// that takes it, else the built-in one (see [`builtin_for`]), else
    /// none. Fails exactly when no registered parser takes `ext` and the
    /// built-in one cannot be built.
    pub fn get_parser_for_extension<P>(registry: &ParserRegistry<P>, ext: &str) -> (r: Result<Option<ParserChoice>, String>)
        ensures
            r is Err <==> (forall|j: int| 0 <= j < registry.ext_lists().len() ==> !takes_extension(#[trigger] registry.ext_lists()[j], ext@))
                && builtin_fails(ext@),
            match r {
                Ok(Some(ParserChoice::Registered(i))) => i < registry.parsers().len()
                    && takes_extension(registry.ext_lists()[i as int], ext@)
                    && forall|j: int| 0 <= j < i ==> !takes_extension(#[trigger] registry.ext_lists()[j], ext@),
                Ok(Some(ParserChoice::Vue(_))) => builtin_for(ext@) == Some(true)
                    && forall|j: int| 0 <= j < registry.ext_lists().len() ==> !takes_extension(#[trigger] registry.ext_lists()[j], ext@),
                Ok(Some(ParserChoice::JavaScript(_))) => builtin_for(ext@) == Some(false)
                    && forall|j: int| 0 <= j < registry.ext_lists().len() ==> !takes_extension(#[trigger] registry.ext_lists()[j], ext@),
                Ok(None) => builtin_for(ext@) is None
                    && forall|j: int| 0 <= j < registry.ext_lists().len() ==> !takes_extension(#[trigger] registry.ext_lists()[j], ext@),
                Err(_) => true,
            },
    {
        match registry.get_registered_parser_for_extension(ext) {
            Some((i, _p)) => {
                return Ok(Some(ParserChoice::Registered(i)));
            },
            None => {},
        }
        let l = crate::text::to_ascii_lowercase(ext);
        let s = l.as_str();
        if str_eq(s, "vue") {
            match VueParser::new() {
                Ok(p) => Ok(Some(ParserChoice::Vue(p))),
                Err(e) => Err(e),
            }
        } else if str_eq(s, "js") || str_eq(s, "cjs") || str_eq(s, "mjs") || str_eq(s, "jsx") || str_eq(s, "ts")
            || str_eq(s, "tsx") {
            match JavaScriptParser::new() {
                Ok(p) => Ok(Some(ParserChoice::JavaScript(p))),
                Err(e) => Err(e),
            }
        } else {
            Ok(None)
        }
    }
}

} // verus!
