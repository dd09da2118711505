//! The dependency tree and the circular dependencies as text for a terminal.
use vstd::prelude::*;
use crate::strmap::StrMap;
use crate::text::{
    chars_of, decimal, ends_with, extend_chars, is_suffix, replace_all, replace_char,
    replace_char_spec, replace_str, str_eq, string_from_chars, trim_start_all, trim_start_matches,
    usize_to_decimal, zero_pad, zero_padded_decimal,
};
use crate::types::{deps_view, Dependency, DependencyTree, DependencyView, EntryView, strs_view};

verus! {

/// How a line of the tree is shown: a module seen for the first time with
/// its dependencies (`Plain`), one already shown (`Dim`), a built-in module
/// (`Blue`) or one that is not in the tree (`Yellow`).
#[derive(Clone, Copy, Debug, PartialEq, Eq, Structural)]
pub enum LineStyle {
    Plain,
    Dim,
    Blue,
    Yellow,
}

/// One line of the tree: its head (indentation, number), the module, and
/// how it is shown.
#[derive(Debug)]
pub struct TreeLine {
    pub head: String,
    pub node: String,
    pub style: LineStyle,
}

/// The mathematical value of a [`TreeLine`].
pub struct LineView {
    pub head: Seq<char>,
    pub node: Seq<char>,
    pub style: LineStyle,
}

impl View for TreeLine {
    type V = LineView;

    open spec fn view(&self) -> LineView {
        LineView { head: self.head@, node: self.node@, style: self.style }
    }
}

/// The views of a list of lines.
pub open spec fn lines_view(v: Seq<TreeLine>) -> Seq<LineView> {
    v.map_values(|l: TreeLine| l@)
}

/// Node's built-in modules.
pub open spec fn is_builtin(m: Seq<char>) -> bool {
    m == "assert"@ || m == "buffer"@ || m == "child_process"@ || m == "cluster"@ || m == "crypto"@
        || m == "dgram"@ || m == "dns"@ || m == "domain"@ || m == "events"@ || m == "fs"@
        || m == "http"@ || m == "https"@ || m == "module"@ || m == "net"@ || m == "os"@
        || m == "path"@ || m == "punycode"@ || m == "querystring"@ || m == "readline"@
        || m == "stream"@ || m == "string_decoder"@ || m == "timers"@ || m == "tls"@ || m == "tty"@
        || m == "url"@ || m == "util"@ || m == "vm"@ || m == "zlib"@
}

/// A path as it is compared for display: `/` written as `\`, `\.\` as `\`,
/// and leading `.\` and `./` removed.
pub open spec fn display_form(path: Seq<char>) -> Seq<char> {
    trim_start_all(
        trim_start_all(replace_all(replace_char_spec(path, '/', '\\'), "\\.\\"@, "\\"@), ".\\"@),
        "./"@,
    )
}

/// What is shown for a dependency: its resolved id, else its request.
pub open spec fn child_of(d: DependencyView) -> Seq<char> {
    match d.id {
        Some(id) => id,
        None => d.request,
    }
}

/// The head of a line: the indentation, `- `, the module's number padded
/// with zeros to `digits`, and `) `.
pub open spec fn line_head(prefix: Seq<char>, id: nat, digits: nat) -> Seq<char> {
    prefix + "- "@ + zero_pad(decimal(id), digits) + ") "@
}

/// The state of printing: the lines so far, the number given to each
/// module already shown, and the next number.
pub struct PrintState {
    pub lines: Seq<LineView>,
    pub ids: Map<Seq<char>, nat>,
    pub counter: nat,
}

/// The indentation of the dependencies of a module shown with `prefix`.
pub open spec fn child_prefix(prefix: Seq<char>, has_more: bool) -> Seq<char> {
    prefix + (if has_more { "·"@ } else { " "@ }) + "   "@
}

/// Printing `node` with `prefix`: it gets a number (a new one the first
/// time); a built-in module is shown in blue, a module already shown dim,
/// a module of the tree with its dependencies below it (each shown with
/// the next indentation, `·` marking that more follow), and any other in
/// yellow. `fuel` bounds the depth.
pub open spec fn node_spec(
    t: Map<Seq<char>, Option<Seq<DependencyView>>>,
    node: Seq<char>,
    prefix: Seq<char>,
    has_more: bool,
    digits: nat,
    fuel: nat,
    st: PrintState,
) -> PrintState
    decreases fuel, 0int,
{
    let is_new = !st.ids.contains_key(node);
    let id = if is_new { st.counter } else { st.ids[node] };
    let ids1 = if is_new { st.ids.insert(node, st.counter) } else { st.ids };
    let counter1 = if is_new { st.counter + 1 } else { st.counter };
    let head = line_head(prefix, id, digits);
    if is_builtin(node) {
        PrintState { lines: st.lines.push(LineView { head, node, style: LineStyle::Blue }), ids: ids1, counter: counter1 }
    } else if !is_new {
        PrintState { lines: st.lines.push(LineView { head, node, style: LineStyle::Dim }), ids: ids1, counter: counter1 }
    } else if t.contains_key(node) && t[node] is Some {
        let st2 = PrintState { lines: st.lines.push(LineView { head, node, style: LineStyle::Plain }), ids: ids1, counter: counter1 };
        if fuel == 0 {
            st2
        } else {
            deps_spec(t, t[node]->0, 0, child_prefix(prefix, has_more), digits, (fuel - 1) as nat, st2)
        }
    } else {
        PrintState { lines: st.lines.push(LineView { head, node, style: LineStyle::Yellow }), ids: ids1, counter: counter1 }
    }
}

/// Printing the dependencies `deps[j..]` in turn, each but the last marked
/// as having more after it.
pub open spec fn deps_spec(
    t: Map<Seq<char>, Option<Seq<DependencyView>>>,
    deps: Seq<DependencyView>,
    j: int,
    prefix: Seq<char>,
    digits: nat,
    fuel: nat,
    st: PrintState,
) -> PrintState
    decreases fuel, deps.len() + 1 - j,
{
    if j < 0 || j >= deps.len() {
        st
    } else {
        let st1 = node_spec(t, child_of(deps[j]), prefix, j != deps.len() - 1, digits, fuel, st);
        deps_spec(t, deps, j + 1, prefix, digits, fuel, st1)
    }
}

/// `k` is the first key that matches the entry `e` for display: equal in
/// display form, or one ends with the other's display form.
pub open spec fn key_matches_entry(k: Seq<char>, e: Seq<char>) -> bool {
    display_form(k) == display_form(e) || is_suffix(display_form(e), k) || is_suffix(display_form(k), display_form(e))
}

/// The module shown for an entry: the first key of the tree that matches
/// it, else the entry itself.
pub open spec fn entry_node(keys: Seq<Seq<char>>, e: Seq<char>) -> Seq<char> {
    if exists|i: int| 0 <= i < keys.len() && key_matches_entry(#[trigger] keys[i], e) {
        let i = choose|i: int| 0 <= i < keys.len() && key_matches_entry(#[trigger] keys[i], e)
            && forall|j: int| 0 <= j < i ==> !key_matches_entry(#[trigger] keys[j], e);
        keys[i]
    } else {
        e
    }
}

/// Printing each entry in turn, from `entries[i]` on, at the top level.
pub open spec fn entries_spec(
    t: Map<Seq<char>, Option<Seq<DependencyView>>>,
    keys: Seq<Seq<char>>,
    entries: Seq<Seq<char>>,
    i: int,
    digits: nat,
    fuel: nat,
    st: PrintState,
) -> PrintState
    decreases entries.len() - i,
{
    if i < 0 || i >= entries.len() {
        st
    } else {
        let st1 = node_spec(t, entry_node(keys, entries[i]), "  "@, false, digits, fuel, st);
        entries_spec(t, keys, entries, i + 1, digits, fuel, st1)
    }
}

/// What the dependencies of a list of entries show.
pub open spec fn entry_children(es: Seq<EntryView>) -> Seq<Seq<char>>
    decreases es.len(),
{
    if es.len() == 0 {
        Seq::empty()
    } else {
        entry_children(es.drop_last()) + match es.last().1 {
            Some(ds) => ds.map_values(|d: DependencyView| child_of(d)),
            None => Seq::empty(),
        }
    }
}

/// Every module that printing a tree for `entries` can show.
pub open spec fn print_universe(tree: DependencyTree, entries: Seq<Seq<char>>) -> Set<Seq<char>> {
    (tree.key_list() + entries + entry_children(tree.entry_list())).to_set()
}

/// The lines that show `tree` from `entries`: each entry's module (see
/// [`entry_node`]) and, depth first, what it depends on, each module
/// numbered the first time it is shown, numbers padded to the width of the
/// tree's size.
pub open spec fn tree_lines_spec(tree: DependencyTree, entries: Seq<Seq<char>>) -> Seq<LineView> {
    entries_spec(
        tree@,
        tree.key_list(),
        entries,
        0,
        decimal(tree.key_list().len()).len(),
        print_universe(tree, entries).len() + 1,
        PrintState { lines: Seq::empty(), ids: Map::empty(), counter: 0 },
    ).lines
}

} // verus!

verus! {

/// `s` holds no line break.
pub open spec fn no_break(s: Seq<char>) -> bool {
    !s.contains('\n')
}

/// `p` shows `text`, with escape sequences (possibly none, and holding no
/// line break) around it.
pub open spec fn shows_text(p: Seq<char>, text: Seq<char>) -> bool {
    exists|a: Seq<char>, b: Seq<char>| p == a + text + b && no_break(a) && no_break(b)
}

/// `p` shows a line: its head and its module in order, with escape
/// sequences (possibly none, and holding no line break) around them; a
/// plain line ends with its module.
pub open spec fn shows_line(p: Seq<char>, l: LineView) -> bool {
    exists|a: Seq<char>, b: Seq<char>, c: Seq<char>|
        p == a + l.head + b + l.node + c && no_break(a) && no_break(b) && no_break(c)
            && (l.style == LineStyle::Plain ==> c.len() == 0)
}

proof fn lemma_no_break_concat(a: Seq<char>, b: Seq<char>)
    requires
        no_break(a),
        no_break(b),
    ensures
        no_break(a + b),
{
    if (a + b).contains('\n') {
        let i = choose|i: int| 0 <= i < (a + b).len() && (a + b)[i] == '\n';
        if i < a.len() {
            assert(a[i] == '\n');
            assert(a.contains('\n'));
        } else {
            assert(b[i - a.len()] == '\n');
            assert(b.contains('\n'));
        }
    }
}

/// Each of `ps` shows the line of `ls` at its place.
pub open spec fn shows_lines(ps: Seq<Seq<char>>, ls: Seq<LineView>) -> bool {
    ps.len() == ls.len() && forall|k: int| 0 <= k < ps.len() ==> #[trigger] shows_line(ps[k], ls[k])
}

/// The texts, each followed by a line break.
pub open spec fn joined_lines(ps: Seq<Seq<char>>) -> Seq<char>
    decreases ps.len(),
{
    if ps.len() == 0 {
        Seq::empty()
    } else {
        joined_lines(ps.drop_last()) + ps.last() + "\n"@
    }
}

proof fn lemma_entry_children(es: Seq<EntryView>, a: int, j: int)
    requires
        0 <= a < es.len(),
        es[a].1 is Some,
        0 <= j < es[a].1->0.len(),
    ensures
        entry_children(es).contains(child_of(es[a].1->0[j])),
    decreases es.len(),
{
    let pre = entry_children(es.drop_last());
    let last = match es.last().1 {
        Some(ds) => ds.map_values(|d: DependencyView| child_of(d)),
        None => Seq::empty(),
    };
    assert(entry_children(es) == pre + last);
    if a < es.len() - 1 {
        lemma_entry_children(es.drop_last(), a, j);
        let k = choose|k: int| 0 <= k < pre.len() && pre[k] == child_of(es[a].1->0[j]);
        assert((pre + last)[k] == pre[k]);
    } else {
        assert(last[j] == child_of(es[a].1->0[j]));
        assert((pre + last)[pre.len() + j] == last[j]);
    }
}

proof fn lemma_children_within(tree: DependencyTree, univ: Set<Seq<char>>)
    requires
        tree.keys_distinct(),
        entry_children(tree.entry_list()).to_set().subset_of(univ),
    ensures
        children_within(tree@, univ),
{
    DependencyTree::lemma_view(tree);
    let es = tree.entry_list();
    assert forall|k: Seq<char>, j: int| #![trigger tree@[k]->0[j]] tree@.contains_key(k) && tree@[k] is Some && 0 <= j < tree@[k]->0.len()
        implies univ.contains(child_of(tree@[k]->0[j])) by {
        assert(tree.key_list().to_set().contains(k));
        let a = choose|a: int| 0 <= a < tree.key_list().len() && tree.key_list()[a] == k;
        assert(es[a].0 == k);
        assert(tree@[es[a].0] == es[a].1);
        lemma_entry_children(es, a, j);
    }
}

/// The state of printing held by the executable code, as a [`PrintState`].
pub open spec fn pstate(lines: Vec<TreeLine>, ids: StrMap<usize>, counter: usize) -> PrintState {
    PrintState { lines: lines_view(lines@), ids: ids@.map_values(|v: usize| v as nat), counter: counter as nat }
}

/// Each dependency of each module of the tree shows something in `univ`.
pub open spec fn children_within(t: Map<Seq<char>, Option<Seq<DependencyView>>>, univ: Set<Seq<char>>) -> bool {
    forall|k: Seq<char>, j: int| #![trigger t[k]->0[j]] t.contains_key(k) && t[k] is Some && 0 <= j < t[k]->0.len()
        ==> univ.contains(child_of(t[k]->0[j]))
}

/// A string made of the characters of `a` followed by those of `b`.
fn concat(a: &str, b: &str) -> (r: String)
    ensures
        r@ == a@ + b@,
{
    let mut cs = chars_of(a);
    let bs = chars_of(b);
    extend_chars(&mut cs, &bs);
    string_from_chars(&cs)
}

/// The text in the dim style of the `console` crate
/// (`console::style(..).dim()`, then `to_string`).
/// Trusted: the result is the text with, depending on whether the
/// terminal takes colours, escape sequences (which hold no line break)
/// before and after it; which ones is not stated.
#[verifier::external_body]
fn paint_dim(text: &str) -> (r: String)
    ensures
        shows_text(r@, text@),
{
    console::style(text).dim().to_string()
}

/// The text in blue with the `console` crate (`console::style(..).blue()`,
/// then `to_string`).
/// Trusted: as for [`paint_dim`].
#[verifier::external_body]
fn paint_blue(text: &str) -> (r: String)
    ensures
        shows_text(r@, text@),
{
    console::style(text).blue().to_string()
}

/// The text in yellow with the `console` crate
/// (`console::style(..).yellow()`, then `to_string`).
/// Trusted: as for [`paint_dim`].
#[verifier::external_body]
fn paint_yellow(text: &str) -> (r: String)
    ensures
        shows_text(r@, text@),
{
    console::style(text).yellow().to_string()
}

/// The text of a line in its style: as it is for a plain line, else dim,
/// blue or yellow.
fn paint(text: &str, style: LineStyle) -> (r: String)
    ensures
        shows_text(r@, text@),
        style == LineStyle::Plain ==> r@ == text@,
{
    match style {
        LineStyle::Plain => {
            let r = crate::text::owned(text);
            proof {
                let e = Seq::<char>::empty();
                assert(r@ =~= e + text@ + e);
                assert(no_break(e));
            }
            r
        },
        LineStyle::Dim => paint_dim(text),
        LineStyle::Blue => paint_blue(text),
        LineStyle::Yellow => paint_yellow(text),
    }
}

/// Prints the title of the tree in bold cyan with the `console` crate
/// (`console::style(..).bold().cyan()`, then `to_string`).
/// Trusted: the result is the text with escape sequences (possibly none,
/// and holding no line break) before and after it.
#[verifier::external_body]
fn paint_title(text: &str) -> (r: String)
    ensures
        shows_text(r@, text@),
{
    console::style(text).bold().cyan().to_string()
}

/// Console rendering of analysis results.
pub struct ConsoleOutput;

impl ConsoleOutput {
    /// A console renderer.
    pub fn new() -> (r: Self) {
        ConsoleOutput
    }

    /// Whether `module` is one of Node's built-in modules.
    pub fn is_builtin_module(&self, module: &str) -> (b: bool)
        ensures
            b == is_builtin(module@),
    {
        str_eq(module, "assert") || str_eq(module, "buffer") || str_eq(module, "child_process")
            || str_eq(module, "cluster") || str_eq(module, "crypto") || str_eq(module, "dgram")
            || str_eq(module, "dns") || str_eq(module, "domain") || str_eq(module, "events")
            || str_eq(module, "fs") || str_eq(module, "http") || str_eq(module, "https")
            || str_eq(module, "module") || str_eq(module, "net") || str_eq(module, "os")
            || str_eq(module, "path") || str_eq(module, "punycode") || str_eq(module, "querystring")
            || str_eq(module, "readline") || str_eq(module, "stream") || str_eq(module, "string_decoder")
            || str_eq(module, "timers") || str_eq(module, "tls") || str_eq(module, "tty")
            || str_eq(module, "url") || str_eq(module, "util") || str_eq(module, "vm")
            || str_eq(module, "zlib")
    }

    /// A path in the form used to compare it for display (see [`display_form`]).
    pub fn normalize_path_for_display(&self, path: &str) -> (r: String)
        ensures
            r@ == display_form(path@),
    {
        let a = replace_char(path, '/', '\\');
        proof {
            reveal_strlit("\\.\\");
            reveal_strlit(".\\");
            reveal_strlit("./");
        }
        let b = replace_str(a.as_str(), "\\.\\", "\\");
        let c = trim_start_matches(b.as_str(), ".\\");
        trim_start_matches(c.as_str(), "./")
    }

    /// The module shown for an entry (see [`entry_node`]).
    fn find_entry_node(&self, keys: &Vec<String>, entry: &String) -> (r: String)
        ensures
            r@ == entry_node(strs_view(keys@), entry@),
            strs_view(keys@).contains(r@) || r@ == entry@,
    {
        let ghost kv = strs_view(keys@);
        let ne = self.normalize_path_for_display(entry.as_str());
        let mut i: usize = 0;
        while i < keys.len()
            invariant
                kv == strs_view(keys@),
                i <= keys@.len(),
                ne@ == display_form(entry@),
                forall|j: int| 0 <= j < i ==> !key_matches_entry(#[trigger] kv[j], entry@),
            decreases keys@.len() - i,
        {
            let k = &keys[i];
            let nk = self.normalize_path_for_display(k.as_str());
            let hit = str_eq(nk.as_str(), ne.as_str()) || ends_with(k.as_str(), ne.as_str()) || ends_with(ne.as_str(), nk.as_str());
            assert(kv[i as int] == k@);
            if hit {
                proof {
                    assert(key_matches_entry(kv[i as int], entry@));
                    let c = choose|c: int| 0 <= c < kv.len() && key_matches_entry(#[trigger] kv[c], entry@)
                        && forall|j: int| 0 <= j < c ==> !key_matches_entry(#[trigger] kv[j], entry@);
                    if c < i {
                        assert(!key_matches_entry(kv[c], entry@));
                    } else if c > i {
                        assert(!key_matches_entry(kv[i as int], entry@));
                    }
                }
                return k.clone();
            }
            i = i + 1;
        }
        entry.clone()
    }

    /// The lines that show `tree` from `entries` (see [`tree_lines_spec`]).
    pub fn tree_lines(&self, tree: &DependencyTree, entries: &Vec<String>) -> (r: Vec<TreeLine>)
        requires
            tree.key_list().len() + entries@.len() + entry_children(tree.entry_list()).len() < usize::MAX,
        ensures
            lines_view(r@) == tree_lines_spec(*tree, strs_view(entries@)),
    {
        let ghost ev = strs_view(entries@);
        let ghost t = tree@;
        let ghost kl = tree.key_list();
        let ghost all = kl + ev + entry_children(tree.entry_list());
        let ghost univ = print_universe(*tree, ev);
        proof {
            use_type_invariant(tree);
            DependencyTree::lemma_view(*tree);
            let ch = entry_children(tree.entry_list());
            assert forall|x: Seq<char>| ch.to_set().contains(x) implies univ.contains(x) by {
                let k = choose|k: int| 0 <= k < ch.len() && ch[k] == x;
                assert(all[kl.len() + ev.len() + k] == x);
            }
            lemma_children_within(*tree, univ);
            vstd::seq_lib::seq_to_set_is_finite(all);
            all.lemma_cardinality_of_set();
        }
        let keys = tree.keys();
        let digits = usize_to_decimal(tree.len()).len();
        let mut ids: StrMap<usize> = StrMap::new();
        let mut counter: usize = 0;
        let mut lines: Vec<TreeLine> = Vec::new();
        let ghost fuel: nat = univ.len() + 1;
        let ghost st0 = pstate(lines, ids, counter);
        proof {
            assert(st0.lines =~= Seq::<LineView>::empty());
            assert(st0.ids =~= Map::<Seq<char>, nat>::empty());
            assert(univ.difference(ids@.dom()) =~= univ);
            assert(digits as nat == decimal(kl.len()).len());
        }
        let ghost target = entries_spec(t, kl, ev, 0, digits as nat, fuel, st0);
        let prefix = crate::text::owned("  ");
        let mut i: usize = 0;
        while i < entries.len()
            invariant
                ev == strs_view(entries@),
                t == tree@,
                kl == tree.key_list(),
                strs_view(keys@) == kl,
                univ == print_universe(*tree, ev),
                univ.finite(),
                univ.len() < usize::MAX,
                prefix@ == "  "@,
                i <= entries@.len(),
                ids@.dom().subset_of(univ),
                counter as nat == ids@.dom().len(),
                fuel > univ.difference(ids@.dom()).len(),
                children_within(t, univ),
                entries_spec(t, kl, ev, i as int, digits as nat, fuel, pstate(lines, ids, counter)) == target,
            decreases entries@.len() - i,
        {
            let node = self.find_entry_node(&keys, &entries[i]);
            proof {
                assert(ev[i as int] == entries@[i as int]@);
                if kl.contains(node@) {
                    let a = choose|a: int| 0 <= a < kl.len() && kl[a] == node@;
                    assert((kl + ev + entry_children(tree.entry_list()))[a] == node@);
                } else {
                    assert((kl + ev + entry_children(tree.entry_list()))[kl.len() + i] == node@);
                }
                assert(univ.contains(node@));
                vstd::set_lib::lemma_len_subset(univ.difference(ids@.dom()), univ);
            }
            let ghost ids_before = ids@.dom();
            self.print_node(&node, &prefix, tree, &mut ids, &mut counter, digits, false, &mut lines, Ghost(fuel), Ghost(univ));
            proof {
                assert(univ.difference(ids@.dom()).subset_of(univ.difference(ids_before)));
                vstd::set_lib::lemma_len_subset(univ.difference(ids_before), univ);
                vstd::set_lib::lemma_len_subset(univ.difference(ids@.dom()), univ.difference(ids_before));
            }
            i = i + 1;
        }
        lines
    }

    /// Writes the tree to `writer`: the title, then each line of
    /// [`tree_lines_spec`] (its head dim, the whole line in its style), then
    /// an empty line. The escape sequences of the styles depend on the
    /// terminal and are not stated.
    pub fn print_tree_to(&self, writer: &mut String, tree: &DependencyTree, entries: &Vec<String>)
        requires
            tree.key_list().len() + entries@.len() + entry_children(tree.entry_list()).len() < usize::MAX,
        ensures
            exists|title: Seq<char>, ps: Seq<Seq<char>>|
                #[trigger] shows_text(title, "🌳 Dependencies Tree"@)
                && #[trigger] shows_lines(ps, tree_lines_spec(*tree, strs_view(entries@)))
                && final(writer)@ == old(writer)@ + title + "\n"@ + joined_lines(ps) + "\n"@,
    {
        let lines = self.tree_lines(tree, entries);
        let ghost lv = lines_view(lines@);
        let title = paint_title("🌳 Dependencies Tree");
        writer.append(title.as_str());
        writer.append("\n");
        let ghost w0 = writer@;
        assert(w0 == old(writer)@ + title@ + "\n"@);
        let ghost mut ps: Seq<Seq<char>> = Seq::empty();
        let mut i: usize = 0;
        while i < lines.len()
            invariant
                lv == lines_view(lines@),
                i <= lines@.len(),
                ps.len() == i,
                forall|k: int| 0 <= k < i ==> #[trigger] shows_line(ps[k], lv[k]),
                writer@ == w0 + joined_lines(ps),
            decreases lines@.len() - i,
        {
            let l = &lines[i];
            let head = paint(l.head.as_str(), LineStyle::Dim);
            let body = concat(head.as_str(), l.node.as_str());
            let painted = paint(body.as_str(), l.style);
            writer.append(painted.as_str());
            writer.append("\n");
            proof {
                assert(lv[i as int] == l@);
                let (a1, b1) = choose|a: Seq<char>, b: Seq<char>| head@ == a + l.head@ + b && no_break(a) && no_break(b);
                let (a2, b2) = choose|a: Seq<char>, b: Seq<char>| painted@ == a + body@ + b && no_break(a) && no_break(b);
                let lvi = lv[i as int];
                assert(lvi.head == l.head@ && lvi.node == l.node@ && lvi.style == l.style);
                let a3 = a2 + a1;
                lemma_no_break_concat(a2, a1);
                assert(painted@ =~= a3 + lvi.head + b1 + lvi.node + b2);
                if l.style == LineStyle::Plain {
                    assert(painted@ == body@);
                    assert(painted@ =~= a1 + lvi.head + b1 + lvi.node + Seq::<char>::empty());
                    assert(no_break(Seq::<char>::empty()));
                    assert(shows_line(painted@, lvi));
                } else {
                    assert(shows_line(painted@, lvi));
                }
                let ps1 = ps.push(painted@);
                assert(joined_lines(ps1) == joined_lines(ps) + painted@ + "\n"@) by {
                    assert(ps1.drop_last() =~= ps);
                }
                assert forall|k: int| 0 <= k < i + 1 implies #[trigger] shows_line(ps1[k], lv[k]) by {
                    if k < i {
                        assert(ps1[k] == ps[k]);
                    }
                }
                ps = ps1;
            }
            i = i + 1;
        }
        writer.append("\n");
        proof {
            assert(lv =~= tree_lines_spec(*tree, strs_view(entries@)));
            assert(shows_lines(ps, lv));
            assert(shows_text(title@, "🌳 Dependencies Tree"@));
            assert(writer@ =~= old(writer)@ + title@ + "\n"@ + joined_lines(ps) + "\n"@);
        }
    }

    /// Prints `node` and, below it, what it depends on (see [`node_spec`]).
    fn print_node(
        &self,
        node: &String,
        prefix: &String,
        tree: &DependencyTree,
        ids: &mut StrMap<usize>,
        counter: &mut usize,
        digits: usize,
        has_more: bool,
        lines: &mut Vec<TreeLine>,
        Ghost(fuel): Ghost<nat>,
        Ghost(univ): Ghost<Set<Seq<char>>>,
    )
        requires
            univ.finite(),
            univ.len() < usize::MAX,
            univ.contains(node@),
            old(ids)@.dom().subset_of(univ),
            *old(counter) as nat == old(ids)@.dom().len(),
            fuel > univ.difference(old(ids)@.dom()).len(),
            children_within(tree@, univ),
        ensures
            pstate(*final(lines), *final(ids), *final(counter)) == node_spec(
                tree@, node@, prefix@, has_more, digits as nat, fuel, pstate(*old(lines), *old(ids), *old(counter))),
            old(ids)@.dom().subset_of(final(ids)@.dom()),
            final(ids)@.dom().subset_of(univ),
            *final(counter) as nat == final(ids)@.dom().len(),
        decreases fuel,
    {
        let ghost st0 = pstate(*lines, *ids, *counter);
        let ghost t = tree@;
        proof {
            vstd::set_lib::lemma_len_subset(ids@.dom(), univ);
        }
        let existing: Option<usize> = match ids.get(node.as_str()) {
            Some(v) => Some(*v),
            None => None,
        };
        let is_new = existing.is_none();
        let ghost ids0 = ids@;
        let id = match existing {
            Some(v) => v,
            None => {
                let c = *counter;
                ids.insert(node.clone(), c);
                *counter = c + 1;
                proof {
                    assert(ids@.dom() =~= ids0.dom().insert(node@));
                    assert(ids@.map_values(|v: usize| v as nat) =~= ids0.map_values(|v: usize| v as nat).insert(node@, c as nat));
                }
                c
            },
        };
        let ghost id1 = ids@.map_values(|v: usize| v as nat);
        let ghost c1 = *counter as nat;
        let mut hc = chars_of(prefix.as_str());
        let dash = chars_of("- ");
        extend_chars(&mut hc, &dash);
        let padded = zero_padded_decimal(id, digits);
        extend_chars(&mut hc, &padded);
        let close = chars_of(") ");
        extend_chars(&mut hc, &close);
        let head = string_from_chars(&hc);
        proof {
            assert(head@ =~= line_head(prefix@, id as nat, digits as nat));
            assert(is_new == !st0.ids.contains_key(node@));
            if !is_new {
                assert(st0.ids[node@] == id as nat);
            }
        }
        let ghost l0 = lines_view(lines@);
        if self.is_builtin_module(node.as_str()) {
            let line = TreeLine { head, node: node.clone(), style: LineStyle::Blue };
            lines.push(line);
            assert(lines_view(lines@) =~= l0.push(line@));
            return;
        }
        if !is_new {
            let line = TreeLine { head, node: node.clone(), style: LineStyle::Dim };
            lines.push(line);
            assert(lines_view(lines@) =~= l0.push(line@));
            return;
        }
        match tree.get(node.as_str()) {
            Some(Some(deps)) => {
                let line = TreeLine { head, node: node.clone(), style: LineStyle::Plain };
                lines.push(line);
                assert(lines_view(lines@) =~= l0.push(line@));
                let ghost dv = deps_view(deps@);
                let ghost st2 = pstate(*lines, *ids, *counter);
                let ghost f1: nat = (fuel - 1) as nat;
                proof {
                    assert(univ.difference(ids@.dom()) =~= univ.difference(ids0.dom()).remove(node@));
                    assert(univ.difference(ids0.dom()).contains(node@));
                    vstd::set_lib::lemma_len_subset(univ.difference(ids0.dom()), univ);
                }
                let mid = if has_more { "·" } else { " " };
                let p1 = concat(prefix.as_str(), mid);
                let np = concat(p1.as_str(), "   ");
                proof {
                    assert(np@ == child_prefix(prefix@, has_more));
                }
                let ghost target = deps_spec(t, dv, 0, np@, digits as nat, f1, st2);
                let mut j: usize = 0;
                while j < deps.len()
                    invariant
                        dv == deps_view(deps@),
                        t == tree@,
                        t.contains_key(node@) && t[node@] == Some(dv),
                        j <= deps@.len(),
                        univ.finite(),
                        univ.len() < usize::MAX,
                        ids@.dom().subset_of(univ),
                        ids0.dom().insert(node@).subset_of(ids@.dom()),
                        *counter as nat == ids@.dom().len(),
                        f1 > univ.difference(ids@.dom()).len(),
                        fuel > 0,
                        f1 == fuel - 1,
                        children_within(t, univ),
                        deps_spec(t, dv, j as int, np@, digits as nat, f1, pstate(*lines, *ids, *counter)) == target,
                    decreases deps@.len() - j,
                {
                    let d = &deps[j];
                    let child = match &d.id {
                        Some(i) => i.clone(),
                        None => d.request.clone(),
                    };
                    proof {
                        assert(dv[j as int] == d@);
                        assert(child@ == child_of(dv[j as int]));
                        assert(univ.contains(child_of(t[node@]->0[j as int])));
                    }
                    let ghost ids_before = ids@.dom();
                    self.print_node(&child, &np, tree, ids, counter, digits, j != deps.len() - 1, lines, Ghost(f1), Ghost(univ));
                    proof {
                        assert(univ.difference(ids@.dom()).subset_of(univ.difference(ids_before)));
                        vstd::set_lib::lemma_len_subset(univ.difference(ids_before), univ);
                        vstd::set_lib::lemma_len_subset(univ.difference(ids@.dom()), univ.difference(ids_before));
                    }
                    j = j + 1;
                }
                proof {
                    assert(fuel != 0);
                }
            },
            _ => {
                let line = TreeLine { head, node: node.clone(), style: LineStyle::Yellow };
                lines.push(line);
                assert(lines_view(lines@) =~= l0.push(line@));
            },
        }
    }
}

} // verus!

verus! {

/// How a piece of the report on circular dependencies is shown.
#[derive(Clone, Copy, Debug, PartialEq, Eq, Structural)]
pub enum PieceStyle {
    Plain,
    BoldGreen,
    BoldRed,
    Green,
    RedBold,
    Dim,
    Bold,
}

/// A piece of text with its style.
#[derive(Debug)]
pub struct Piece {
    pub text: String,
    pub style: PieceStyle,
}

/// The mathematical value of a [`Piece`].
pub struct PieceView {
    pub text: Seq<char>,
    pub style: PieceStyle,
}

impl View for Piece {
    type V = PieceView;

    open spec fn view(&self) -> PieceView {
        PieceView { text: self.text@, style: self.style }
    }
}

/// The views of the pieces of each line.
pub open spec fn report_view(v: Seq<Vec<Piece>>) -> Seq<Seq<PieceView>> {
    v.map_values(|l: Vec<Piece>| l@.map_values(|p: Piece| p@))
}

/// A piece as a value.
pub open spec fn pv(text: Seq<char>, style: PieceStyle) -> PieceView {
    PieceView { text, style }
}

/// The segments of a cycle in bold red, with a dim arrow between each two.
pub open spec fn cycle_pieces(c: Seq<Seq<char>>) -> Seq<PieceView>
    decreases c.len(),
{
    if c.len() == 0 {
        Seq::empty()
    } else if c.len() == 1 {
        seq![pv(c[0], PieceStyle::RedBold)]
    } else {
        cycle_pieces(c.drop_last()) + seq![pv(" → "@, PieceStyle::Dim), pv(c.last(), PieceStyle::RedBold)]
    }
}

/// The line of the `i`-th cycle (numbered from 1, padded to `digits`).
pub open spec fn cycle_line(c: Seq<Seq<char>>, i: nat, digits: nat) -> Seq<PieceView> {
    seq![pv("  "@ + zero_pad(decimal(i + 1), digits) + ") "@, PieceStyle::Plain)] + cycle_pieces(c)
}

/// The lines of the first `n` cycles.
pub open spec fn cycle_lines(cs: Seq<Seq<Seq<char>>>, n: nat, digits: nat) -> Seq<Seq<PieceView>>
    decreases n,
{
    if n == 0 {
        Seq::empty()
    } else {
        cycle_lines(cs, (n - 1) as nat, digits).push(cycle_line(cs[n - 1], (n - 1) as nat, digits))
    }
}

proof fn lemma_cycle_lines_len(cs: Seq<Seq<Seq<char>>>, n: nat, digits: nat)
    ensures
        cycle_lines(cs, n, digits).len() == n,
    decreases n,
{
    if n > 0 {
        lemma_cycle_lines_len(cs, (n - 1) as nat, digits);
    }
}

/// The report on circular dependencies, line by line: a title (green when
/// there are none, red else); when there are none, a line saying so; else
/// the first `max_entries` cycles (all without a limit), a line counting
/// those not shown, and, when the number found reached `take_limit`, a
/// line saying the search stopped there; then an empty line.
pub open spec fn circular_report_spec(
    cs: Seq<Seq<Seq<char>>>,
    take_limit: Option<usize>,
    max_entries: Option<usize>,
) -> Seq<Seq<PieceView>> {
    let title = if cs.len() == 0 {
        seq![pv("🔄 Circular Dependencies"@, PieceStyle::BoldGreen)]
    } else {
        seq![pv("⚠️  Circular Dependencies"@, PieceStyle::BoldRed)]
    };
    let body = if cs.len() == 0 {
        seq![seq![
            pv("  "@, PieceStyle::Plain),
            pv("✅"@, PieceStyle::Green),
            pv(" "@, PieceStyle::Plain),
            pv("Congratulations, no circular dependency was found in your project."@, PieceStyle::Green),
        ]]
    } else {
        let to_show: nat = match max_entries {
            Some(m) => m as nat,
            None => cs.len(),
        };
        let shown: nat = if to_show < cs.len() { to_show } else { cs.len() };
        let more = if cs.len() > to_show {
            seq![seq![pv("  ... and "@ + decimal((cs.len() - to_show) as nat) + " more"@, PieceStyle::Plain)]]
        } else {
            Seq::empty()
        };
        let limit = match take_limit {
            Some(l) => if cs.len() >= l {
                seq![seq![
                    pv("  "@, PieceStyle::Plain),
                    pv("At least"@, PieceStyle::Dim),
                    pv(" "@, PieceStyle::Plain),
                    pv(decimal(l as nat) + " circular dependencies found"@, PieceStyle::Bold),
                    pv(" (search limit reached)"@, PieceStyle::Plain),
                ]]
            } else {
                Seq::empty()
            },
            None => Seq::empty(),
        };
        cycle_lines(cs, shown, decimal(cs.len()).len()) + more + limit
    };
    seq![title] + body + seq![Seq::<PieceView>::empty()]
}

/// The line saying that the search stopped after finding `l` cycles.
pub open spec fn limit_reached_line(l: nat) -> Seq<PieceView> {
    seq![
        pv("  "@, PieceStyle::Plain),
        pv("At least"@, PieceStyle::Dim),
        pv(" "@, PieceStyle::Plain),
        pv(decimal(l) + " circular dependencies found"@, PieceStyle::Bold),
        pv(" (search limit reached)"@, PieceStyle::Plain),
    ]
}

/// A search limit of `l` changes the report only where cycles were found
/// and there are at least `l` of them: then the line saying the limit was
/// reached comes just before the closing empty line; the report is
/// otherwise the one without a limit.
pub proof fn lemma_report_limit_line(cs: Seq<Seq<Seq<char>>>, l: usize, max_entries: Option<usize>)
    ensures
        circular_report_spec(cs, Some(l), max_entries) == if cs.len() > 0 && cs.len() >= l {
            circular_report_spec(cs, None, max_entries).drop_last().push(limit_reached_line(l as nat)).push(
                Seq::<PieceView>::empty(),
            )
        } else {
            circular_report_spec(cs, None, max_entries)
        },
{
    let with = circular_report_spec(cs, Some(l), max_entries);
    let without = circular_report_spec(cs, None, max_entries);
    if cs.len() > 0 && cs.len() >= l {
        assert(with =~= without.drop_last().push(limit_reached_line(l as nat)).push(Seq::<PieceView>::empty()));
    } else {
        assert(with =~= without);
    }
}

/// A display limit of at least the number of cycles changes nothing: every
/// cycle is listed, as without a limit.
pub proof fn lemma_report_display_limit_covers_all(cs: Seq<Seq<Seq<char>>>, take_limit: Option<usize>, m: usize)
    requires
        cs.len() <= m,
    ensures
        circular_report_spec(cs, take_limit, Some(m)) == circular_report_spec(cs, take_limit, None),
{
    assert(circular_report_spec(cs, take_limit, Some(m)) =~= circular_report_spec(cs, take_limit, None));
}

/// With a display limit `m` below the number of cycles, the line after the
/// listed cycles counts those not listed.
pub proof fn lemma_report_counts_hidden_cycles(cs: Seq<Seq<Seq<char>>>, m: usize)
    requires
        m < cs.len(),
    ensures
        circular_report_spec(cs, None, Some(m)).len() == m + 3,
        circular_report_spec(cs, None, Some(m))[m + 1]
            == seq![pv("  ... and "@ + decimal((cs.len() - m) as nat) + " more"@, PieceStyle::Plain)],
{
    let r = circular_report_spec(cs, None, Some(m));
    lemma_cycle_lines_len(cs, m as nat, decimal(cs.len()).len());
}

/// The views of a list of cycles.
pub open spec fn cycles_view(v: Seq<Vec<String>>) -> Seq<Seq<Seq<char>>> {
    v.map_values(|c: Vec<String>| strs_view(c@))
}

fn piece(text: &str, style: PieceStyle) -> (p: Piece)
    ensures
        p@ == pv(text@, style),
{
    Piece { text: crate::text::owned(text), style }
}

fn chars_string(cs: Vec<char>) -> (s: String)
    ensures
        s@ == cs@,
{
    string_from_chars(&cs)
}

impl ConsoleOutput {
    /// The pieces of one cycle (see [`cycle_pieces`]).
    fn cycle_pieces_exec(&self, c: &Vec<String>) -> (r: Vec<Piece>)
        ensures
            r@.map_values(|p: Piece| p@) == cycle_pieces(strs_view(c@)),
    {
        let ghost cv = strs_view(c@);
        let mut r: Vec<Piece> = Vec::new();
        let mut j: usize = 0;
        proof {
            assert(r@.map_values(|p: Piece| p@) =~= cycle_pieces(cv.subrange(0, 0)));
        }
        while j < c.len()
            invariant
                cv == strs_view(c@),
                j <= c@.len(),
                r@.map_values(|p: Piece| p@) == cycle_pieces(cv.subrange(0, j as int)),
            decreases c@.len() - j,
        {
            let ghost before = r@.map_values(|p: Piece| p@);
            let ghost s1 = cv.subrange(0, j + 1);
            proof {
                assert(s1.drop_last() =~= cv.subrange(0, j as int));
                assert(s1.last() == c@[j as int]@);
            }
            if j > 0 {
                r.push(piece(" → ", PieceStyle::Dim));
            }
            r.push(Piece { text: c[j].clone(), style: PieceStyle::RedBold });
            proof {
                if j == 0 {
                    assert(r@.map_values(|p: Piece| p@) =~= seq![pv(s1[0], PieceStyle::RedBold)]);
                } else {
                    assert(r@.map_values(|p: Piece| p@) =~= before + seq![pv(" → "@, PieceStyle::Dim), pv(s1.last(), PieceStyle::RedBold)]);
                }
            }
            j = j + 1;
        }
        proof {
            assert(cv.subrange(0, j as int) =~= cv);
        }
        r
    }

    /// The report on circular dependencies (see [`circular_report_spec`]).
    pub fn circular_report(
        &self,
        circulars: &Vec<Vec<String>>,
        take_limit: Option<usize>,
        max_entries: Option<usize>,
    ) -> (r: Vec<Vec<Piece>>)
        ensures
            report_view(r@) == circular_report_spec(cycles_view(circulars@), take_limit, max_entries),
    {
        let ghost cs = cycles_view(circulars@);
        let mut r: Vec<Vec<Piece>> = Vec::new();
        let n = circulars.len();
        let mut title: Vec<Piece> = Vec::new();
        if n == 0 {
            title.push(piece("🔄 Circular Dependencies", PieceStyle::BoldGreen));
            assert(title@.map_values(|p: Piece| p@) =~= seq![pv("🔄 Circular Dependencies"@, PieceStyle::BoldGreen)]);
        } else {
            title.push(piece("⚠️  Circular Dependencies", PieceStyle::BoldRed));
            assert(title@.map_values(|p: Piece| p@) =~= seq![pv("⚠️  Circular Dependencies"@, PieceStyle::BoldRed)]);
        }
        let ghost tv = title@.map_values(|p: Piece| p@);
        r.push(title);
        assert(report_view(r@) =~= seq![tv]);
        let ghost r_title = report_view(r@);
        assert(r_title =~= seq![if n == 0 {
            seq![pv("🔄 Circular Dependencies"@, PieceStyle::BoldGreen)]
        } else {
            seq![pv("⚠️  Circular Dependencies"@, PieceStyle::BoldRed)]
        }]);
        if n == 0 {
            let mut l: Vec<Piece> = Vec::new();
            l.push(piece("  ", PieceStyle::Plain));
            l.push(piece("✅", PieceStyle::Green));
            l.push(piece(" ", PieceStyle::Plain));
            l.push(piece("Congratulations, no circular dependency was found in your project.", PieceStyle::Green));
            assert(l@.map_values(|p: Piece| p@) =~= seq![
                pv("  "@, PieceStyle::Plain),
                pv("✅"@, PieceStyle::Green),
                pv(" "@, PieceStyle::Plain),
                pv("Congratulations, no circular dependency was found in your project."@, PieceStyle::Green),
            ]);
            r.push(l);
        } else {
            let digits = usize_to_decimal(n).len();
            let to_show = match max_entries {
                Some(m) => m,
                None => n,
            };
            let shown = if to_show < n { to_show } else { n };
            let mut i: usize = 0;
            while i < shown
                invariant
                    cs == cycles_view(circulars@),
                    n == circulars@.len(),
                    shown <= n,
                    i <= shown,
                    digits as nat == decimal(n as nat).len(),
                    report_view(r@) == r_title + cycle_lines(cs, i as nat, digits as nat),
                decreases shown - i,
            {
                let ghost before = report_view(r@);
                let mut l: Vec<Piece> = Vec::new();
                let mut hc = chars_of("  ");
                let num = zero_padded_decimal(i + 1, digits);
                extend_chars(&mut hc, &num);
                let close = chars_of(") ");
                extend_chars(&mut hc, &close);
                let head = chars_string(hc);
                l.push(Piece { text: head, style: PieceStyle::Plain });
                let segs = self.cycle_pieces_exec(&circulars[i]);
                let ghost l0 = l@.map_values(|p: Piece| p@);
                let mut segs = segs;
                l.append(&mut segs);
                proof {
                    assert(cs[i as int] == strs_view(circulars@[i as int]@));
                    assert(l@.map_values(|p: Piece| p@) =~= cycle_line(cs[i as int], i as nat, digits as nat));
                }
                r.push(l);
                proof {
                    assert(report_view(r@) =~= before.push(cycle_line(cs[i as int], i as nat, digits as nat)));
                }
                i = i + 1;
            }
            let ghost after_cycles = report_view(r@);
            if n > to_show {
                let mut hc = chars_of("  ... and ");
                let num = usize_to_decimal(n - to_show);
                extend_chars(&mut hc, &num);
                let tail = chars_of(" more");
                extend_chars(&mut hc, &tail);
                let txt = chars_string(hc);
                assert(txt@ =~= "  ... and "@ + decimal((n - to_show) as nat) + " more"@);
                let mut l: Vec<Piece> = Vec::new();
                l.push(Piece { text: txt, style: PieceStyle::Plain });
                assert(l@.map_values(|p: Piece| p@) =~= seq![pv("  ... and "@ + decimal((n - to_show) as nat) + " more"@, PieceStyle::Plain)]);
                r.push(l);
                proof {
                    assert(report_view(r@) =~= after_cycles + seq![seq![pv("  ... and "@ + decimal((n - to_show) as nat) + " more"@, PieceStyle::Plain)]]);
                }
            } else {
                assert(report_view(r@) =~= after_cycles + Seq::<Seq<PieceView>>::empty());
            }
            let ghost after_more = report_view(r@);
            match take_limit {
                Some(limit) => {
                    if n >= limit {
                        let mut hc = usize_to_decimal(limit);
                        let tail = chars_of(" circular dependencies found");
                        extend_chars(&mut hc, &tail);
                        let txt = chars_string(hc);
                        assert(txt@ =~= decimal(limit as nat) + " circular dependencies found"@);
                        let mut l: Vec<Piece> = Vec::new();
                        l.push(piece("  ", PieceStyle::Plain));
                        l.push(piece("At least", PieceStyle::Dim));
                        l.push(piece(" ", PieceStyle::Plain));
                        l.push(Piece { text: txt, style: PieceStyle::Bold });
                        l.push(piece(" (search limit reached)", PieceStyle::Plain));
                        assert(l@.map_values(|p: Piece| p@) =~= seq![
                                pv("  "@, PieceStyle::Plain),
                                pv("At least"@, PieceStyle::Dim),
                                pv(" "@, PieceStyle::Plain),
                                pv(decimal(limit as nat) + " circular dependencies found"@, PieceStyle::Bold),
                                pv(" (search limit reached)"@, PieceStyle::Plain),
                            ]);
                        r.push(l);
                        proof {
                            assert(report_view(r@) =~= after_more + seq![seq![
                                pv("  "@, PieceStyle::Plain),
                                pv("At least"@, PieceStyle::Dim),
                                pv(" "@, PieceStyle::Plain),
                                pv(decimal(limit as nat) + " circular dependencies found"@, PieceStyle::Bold),
                                pv(" (search limit reached)"@, PieceStyle::Plain),
                            ]]);
                        }
                    } else {
                        assert(report_view(r@) =~= after_more + Seq::<Seq<PieceView>>::empty());
                    }
                },
                None => {
                    assert(report_view(r@) =~= after_more + Seq::<Seq<PieceView>>::empty());
                },
            }
        }
        let ghost before_end = report_view(r@);
        let e: Vec<Piece> = Vec::new();
        assert(e@.map_values(|p: Piece| p@) =~= Seq::<PieceView>::empty());
        r.push(e);
        proof {
            assert(report_view(r@) =~= before_end.push(Seq::<PieceView>::empty()));
            assert(report_view(r@) =~= circular_report_spec(cs, take_limit, max_entries));
        }
        r
    }
}

} // verus!

verus! {

/// Writing analysis results as JSON (the writing itself is done by the
/// program around the library).
pub struct JsonOutput;

impl JsonOutput {
    /// A JSON writer.
    pub fn new() -> (r: Self) {
        JsonOutput
    }
}

} // verus!
