//! Scrubbing JavaScript source before its imports are matched: comments
//! are dropped, and import-like words inside plain strings are disguised.
use vstd::prelude::*;
use crate::text::{chars_of, is_suffix, replace_all, replace_char_spec, replace_str, string_from_chars};

verus! {

/// Where the scrubber is: in code, in a line comment, or in a block comment.
#[derive(Clone, Copy, Debug, PartialEq, Eq, Structural)]
pub enum ScanMode {
    Code,
    LineComment,
    BlockComment,
}

/// Reads a string literal's body from `j` on, up to the closing `delim`:
/// a backslash keeps itself and the character after it. Gives the body,
/// the position after the literal, and whether it was closed (the input
/// may end first).
pub open spec fn scan_str(s: Seq<char>, j: int, delim: char, inner: Seq<char>) -> (Seq<char>, int, bool)
    decreases s.len() - j,
{
    if j < 0 || j >= s.len() {
        (inner, j, false)
    } else if s[j] == '\\' {
        if j + 1 < s.len() {
            scan_str(s, j + 2, delim, inner.push('\\').push(s[j + 1]))
        } else {
            (inner.push('\\'), j + 1, false)
        }
    } else if s[j] == delim {
        (inner, j + 1, true)
    } else {
        scan_str(s, j + 1, delim, inner.push(s[j]))
    }
}

pub proof fn lemma_scan_str_advances(s: Seq<char>, j: int, delim: char, inner: Seq<char>)
    requires
        0 <= j,
    ensures
        scan_str(s, j, delim, inner).1 >= j,
        scan_str(s, j, delim, inner).2 ==> scan_str(s, j, delim, inner).1 > j && scan_str(s, j, delim, inner).1 <= s.len(),
    decreases s.len() - j,
{
    if j < s.len() {
        if s[j] == '\\' {
            if j + 1 < s.len() {
                lemma_scan_str_advances(s, j + 2, delim, inner.push('\\').push(s[j + 1]));
            }
        } else if s[j] != delim {
            lemma_scan_str_advances(s, j + 1, delim, inner.push(s[j]));
        }
    }
}

/// The text before a string literal, with tabs read as spaces, ends with
/// `from `, `import `, `import(`, `import (`, `require(` or `require (`:
/// the literal names a module.
pub open spec fn is_module_specifier(before: Seq<char>) -> bool {
    let t = replace_char_spec(before, '\t', ' ');
    is_suffix("from "@, t) || is_suffix("import "@, t) || is_suffix("import("@, t) || is_suffix("import ("@, t)
        || is_suffix("require("@, t) || is_suffix("require ("@, t)
}

/// A string's body with `import`, `require`, `export` and `from` disguised
/// as `__IMPORT__`, `__REQUIRE__`, `__EXPORT__` and `__FROM__`, in that order.
pub open spec fn scrub(inner: Seq<char>) -> Seq<char> {
    replace_all(
        replace_all(replace_all(replace_all(inner, "import"@, "__IMPORT__"@), "require"@, "__REQUIRE__"@), "export"@, "__EXPORT__"@),
        "from"@,
        "__FROM__"@,
    )
}

/// A closed string literal as it is kept: its quotes around its body, the
/// body scrubbed unless the literal names a module.
pub open spec fn kept_literal(before: Seq<char>, delim: char, inner: Seq<char>) -> Seq<char> {
    seq![delim] + (if is_module_specifier(before) { inner } else { scrub(inner) }) + seq![delim]
}

/// Scrubbing `s` from position `i` in `mode`, with `out` written so far.
/// Line comments end at a line break, which is kept; block comments end at
/// `*/`; `//` and `/*` start comments in code; a quote starts a literal,
/// kept as [`kept_literal`] once closed, while an unclosed one drops the
/// rest of the input; everything else in code is kept.
pub open spec fn scrub_from(s: Seq<char>, i: int, mode: ScanMode, out: Seq<char>) -> Seq<char>
    decreases s.len() - i,
{
    if i < 0 || i >= s.len() {
        out
    } else {
        match mode {
            ScanMode::LineComment => if s[i] == '\n' {
                scrub_from(s, i + 1, ScanMode::Code, out.push('\n'))
            } else {
                scrub_from(s, i + 1, ScanMode::LineComment, out)
            },
            ScanMode::BlockComment => if s[i] == '*' && i + 1 < s.len() && s[i + 1] == '/' {
                scrub_from(s, i + 2, ScanMode::Code, out)
            } else {
                scrub_from(s, i + 1, ScanMode::BlockComment, out)
            },
            ScanMode::Code => {
                let c = s[i];
                if c == '"' || c == '\'' || c == '`' {
                    let r = scan_str(s, i + 1, c, Seq::empty());
                    proof {
                        lemma_scan_str_advances(s, i + 1, c, Seq::empty());
                    }
                    if r.2 {
                        scrub_from(s, r.1, ScanMode::Code, out + kept_literal(out, c, r.0))
                    } else {
                        out
                    }
                } else if c == '/' && i + 1 < s.len() && s[i + 1] == '/' {
                    scrub_from(s, i + 2, ScanMode::LineComment, out)
                } else if c == '/' && i + 1 < s.len() && s[i + 1] == '*' {
                    scrub_from(s, i + 2, ScanMode::BlockComment, out)
                } else {
                    scrub_from(s, i + 1, ScanMode::Code, out.push(c))
                }
            },
        }
    }
}

/// `content` with comments removed and plain strings scrubbed.
pub open spec fn remove_comments_spec(content: Seq<char>) -> Seq<char> {
    scrub_from(content, 0, ScanMode::Code, Seq::empty())
}

/// Whether the text before a literal marks it as naming a module (see
/// [`is_module_specifier`]).
fn is_module_specifier_exec(before: &Vec<char>) -> (b: bool)
    ensures
        b == is_module_specifier(before@),
{
    let n = before.len();
    let mut tail: Vec<char> = Vec::new();
    let start = if n > 50 { n - 50 } else { 0 };
    let mut k: usize = start;
    while k < n
        invariant
            start <= k <= n,
            n == before@.len(),
            tail@ == replace_char_spec(before@.subrange(start as int, k as int), '\t', ' '),
        decreases n - k,
    {
        let c = before[k];
        tail.push(if c == '\t' { ' ' } else { c });
        assert(before@.subrange(start as int, k + 1) =~= before@.subrange(start as int, k as int).push(c));
        k = k + 1;
    }
    let ghost t = replace_char_spec(before@, '\t', ' ');
    proof {
        assert(tail@ =~= t.subrange(start as int, n as int));
    }
    let ts = string_from_chars(&tail);
    let r = crate::text::ends_with(ts.as_str(), "from ") || crate::text::ends_with(ts.as_str(), "import ")
        || crate::text::ends_with(ts.as_str(), "import(") || crate::text::ends_with(ts.as_str(), "import (")
        || crate::text::ends_with(ts.as_str(), "require(") || crate::text::ends_with(ts.as_str(), "require (");
    proof {
        reveal_strlit("from ");
        reveal_strlit("import ");
        reveal_strlit("import(");
        reveal_strlit("import (");
        reveal_strlit("require(");
        reveal_strlit("require (");
        lemma_suffix_window(t, start as int, "from "@);
        lemma_suffix_window(t, start as int, "import "@);
        lemma_suffix_window(t, start as int, "import("@);
        lemma_suffix_window(t, start as int, "import ("@);
        lemma_suffix_window(t, start as int, "require("@);
        lemma_suffix_window(t, start as int, "require ("@);
    }
    r
}

/// A suffix of at most 50 characters is one of the whole exactly when it
/// is one of the last 50 characters.
proof fn lemma_suffix_window(t: Seq<char>, start: int, p: Seq<char>)
    requires
        0 <= start <= t.len(),
        start == 0 || t.len() - start == 50,
        p.len() <= 50,
    ensures
        is_suffix(p, t.subrange(start, t.len() as int)) == is_suffix(p, t),
{
    let w = t.subrange(start, t.len() as int);
    if is_suffix(p, t) {
        assert(w.subrange(w.len() - p.len(), w.len() as int) =~= t.subrange(t.len() - p.len(), t.len() as int));
    }
    if is_suffix(p, w) {
        assert(w.subrange(w.len() - p.len(), w.len() as int) =~= t.subrange(t.len() - p.len(), t.len() as int));
    }
}

/// `inner` scrubbed (see [`scrub`]).
fn scrub_exec(inner: &str) -> (r: String)
    ensures
        r@ == scrub(inner@),
{
    proof {
        reveal_strlit("import");
        reveal_strlit("require");
        reveal_strlit("export");
        reveal_strlit("from");
    }
    let a = replace_str(inner, "import", "__IMPORT__");
    let b = replace_str(a.as_str(), "require", "__REQUIRE__");
    let c = replace_str(b.as_str(), "export", "__EXPORT__");
    replace_str(c.as_str(), "from", "__FROM__")
}

/// `content` with comments removed and the bodies of plain strings
/// scrubbed (see [`remove_comments_spec`]), so that matching imports sees
/// neither.
pub fn remove_comments(content: &str) -> (r: String)
    ensures
        r@ == remove_comments_spec(content@),
{
    let cs = chars_of(content);
    let n = cs.len();
    let ghost s = cs@;
    let mut out: Vec<char> = Vec::new();
    let mut mode = ScanMode::Code;
    let mut i: usize = 0;
    while i < n
        invariant
            s == cs@,
            s == content@,
            n == s.len(),
            i <= n,
            scrub_from(s, i as int, mode, out@) == remove_comments_spec(content@),
        decreases n - i,
    {
        let c = cs[i];
        match mode {
            ScanMode::LineComment => {
                if c == '\n' {
                    mode = ScanMode::Code;
                    out.push(c);
                }
                i = i + 1;
            },
            ScanMode::BlockComment => {
                if c == '*' && i + 1 < n && cs[i + 1] == '/' {
                    mode = ScanMode::Code;
                    i = i + 2;
                } else {
                    i = i + 1;
                }
            },
            ScanMode::Code => {
                if c == '"' || c == '\'' || c == '`' {
                    let mut inner: Vec<char> = Vec::new();
                    let mut j: usize = i + 1;
                    let mut closed = false;
                    let ghost r = scan_str(s, i + 1, c, Seq::empty());
                    proof {
                        lemma_scan_str_advances(s, i + 1, c, Seq::empty());
                    }
                    while j < n && !closed
                        invariant
                            s == cs@,
                            n == s.len(),
                            i < j <= n,
                            !closed ==> scan_str(s, j as int, c, inner@) == r,
                            closed ==> r == (inner@, j as int, true),
                        decreases n - j + (if closed { 0int } else { 1int }),
                    {
                        let d = cs[j];
                        if d == '\\' {
                            if j + 1 < n {
                                inner.push('\\');
                                inner.push(cs[j + 1]);
                                j = j + 2;
                            } else {
                                inner.push('\\');
                                j = j + 1;
                            }
                        } else if d == c {
                            closed = true;
                            j = j + 1;
                        } else {
                            inner.push(d);
                            j = j + 1;
                        }
                    }
                    if !closed {
                        proof {
                            assert(r.2 == false) by {
                                if j >= n {
                                    assert(scan_str(s, j as int, c, inner@) == (inner@, j as int, false));
                                }
                            }
                        }
                        let res = string_from_chars(&out);
                        return res;
                    }
                    let module = is_module_specifier_exec(&out);
                    let ghost before = out@;
                    out.push(c);
                    if module {
                        crate::text::extend_chars(&mut out, &inner);
                    } else {
                        let body = string_from_chars(&inner);
                        let scrubbed = scrub_exec(body.as_str());
                        let sc = chars_of(scrubbed.as_str());
                        crate::text::extend_chars(&mut out, &sc);
                    }
                    out.push(c);
                    proof {
                        assert(out@ =~= before + kept_literal(before, c, inner@));
                    }
                    i = j;
                } else if c == '/' && i + 1 < n && cs[i + 1] == '/' {
                    mode = ScanMode::LineComment;
                    i = i + 2;
                } else if c == '/' && i + 1 < n && cs[i + 1] == '*' {
                    mode = ScanMode::BlockComment;
                    i = i + 2;
                } else {
                    out.push(c);
                    i = i + 1;
                }
            },
        }
    }
    string_from_chars(&out)
}

} // verus!
