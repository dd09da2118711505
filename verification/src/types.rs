//! The data that the analysis produces and consumes: dependencies, the
//! dependency tree keyed by module id, and the result of an analysis.
use vstd::prelude::*;

verus! {

/// How a dependency was written in its issuer.
#[derive(Clone, Copy, Debug, PartialEq, Eq, Structural)]
pub enum DependencyKind {
    CommonJS,
    StaticImport,
    DynamicImport,
    StaticExport,
    VueTemplate,
    VueScript,
    VueStyle,
}

/// Which dynamic imports an analysis leaves out.
#[derive(Clone, Copy, Debug, PartialEq, Eq, Structural)]
pub enum SkipDynamicImports {
    Never,
    Tree,
    Circular,
}

/// The start and the end of work on one file, reported to a progress display.
#[derive(Clone, Copy, Debug, PartialEq, Eq, Structural)]
pub enum ProgressEvent {
    Start,
    End,
}

/// One dependency of a module: who imports (`issuer`), what was written
/// (`request`), how (`kind`), and, once resolved, the module id (`id`).
#[derive(Debug)]
pub struct Dependency {
    pub issuer: String,
    pub request: String,
    pub kind: DependencyKind,
    pub id: Option<String>,
}

/// The mathematical value of a [`Dependency`].
pub struct DependencyView {
    pub issuer: Seq<char>,
    pub request: Seq<char>,
    pub kind: DependencyKind,
    pub id: Option<Seq<char>>,
}

/// The view of an optional string.
pub open spec fn opt_str_view(o: Option<String>) -> Option<Seq<char>> {
    match o {
        Some(s) => Some(s@),
        None => None,
    }
}

impl View for Dependency {
    type V = DependencyView;

    open spec fn view(&self) -> DependencyView {
        DependencyView {
            issuer: self.issuer@,
            request: self.request@,
            kind: self.kind,
            id: opt_str_view(self.id),
        }
    }
}

/// A copy of an optional string.
pub fn clone_opt_string(o: &Option<String>) -> (r: Option<String>)
    ensures
        opt_str_view(r) == opt_str_view(*o),
{
    match o {
        Some(s) => Some(s.clone()),
        None => None,
    }
}

impl Clone for Dependency {
    fn clone(&self) -> (r: Self)
        ensures
            r@ == self@,
    {
        Dependency {
            issuer: self.issuer.clone(),
            request: self.request.clone(),
            kind: self.kind,
            id: clone_opt_string(&self.id),
        }
    }
}

/// The views of a sequence of dependencies.
pub open spec fn deps_view(v: Seq<Dependency>) -> Seq<DependencyView> {
    v.map_values(|d: Dependency| d@)
}

/// The view of an optional dependency list (`None`: the module was not parsed).
pub open spec fn opt_deps_view(o: Option<Vec<Dependency>>) -> Option<Seq<DependencyView>> {
    match o {
        Some(v) => Some(deps_view(v@)),
        None => None,
    }
}

/// The views of a sequence of optional strings.
pub open spec fn opt_strs_view(v: Seq<Option<String>>) -> Seq<Option<Seq<char>>> {
    v.map_values(|o: Option<String>| opt_str_view(o))
}

/// The views of a sequence of strings.
pub open spec fn strs_view(v: Seq<String>) -> Seq<Seq<char>> {
    v.map_values(|s: String| s@)
}

/// A copy of a list of dependencies.
pub fn clone_deps(v: &Vec<Dependency>) -> (r: Vec<Dependency>)
    ensures
        deps_view(r@) == deps_view(v@),
{
    let mut r: Vec<Dependency> = Vec::new();
    let mut i: usize = 0;
    while i < v.len()
        invariant
            i <= v@.len(),
            deps_view(r@) == deps_view(v@.subrange(0, i as int)),
        decreases v@.len() - i,
    {
        let d = v[i].clone();
        let ghost before = r@;
        r.push(d);
        assert(r@ == before.push(d));
        assert(deps_view(r@) =~= deps_view(before).push(d@));
        assert(v@.subrange(0, i + 1) =~= v@.subrange(0, i as int).push(v@[i as int]));
        assert(deps_view(v@.subrange(0, i + 1)) =~= deps_view(v@.subrange(0, i as int)).push(v@[i as int]@));
        i = i + 1;
    }
    assert(v@.subrange(0, v@.len() as int) =~= v@);
    r
}

/// A copy of an optional list of dependencies.
pub fn clone_opt_deps(o: &Option<Vec<Dependency>>) -> (r: Option<Vec<Dependency>>)
    ensures
        opt_deps_view(r) == opt_deps_view(*o),
{
    match o {
        Some(v) => Some(clone_deps(v)),
        None => None,
    }
}

/// A copy of a list of strings.
pub fn clone_strings(v: &Vec<String>) -> (r: Vec<String>)
    ensures
        strs_view(r@) == strs_view(v@),
{
    let mut r: Vec<String> = Vec::new();
    let mut i: usize = 0;
    while i < v.len()
        invariant
            i <= v@.len(),
            strs_view(r@) == strs_view(v@.subrange(0, i as int)),
        decreases v@.len() - i,
    {
        let d = v[i].clone();
        let ghost before = r@;
        r.push(d);
        assert(strs_view(r@) =~= strs_view(before).push(d@));
        assert(v@.subrange(0, i + 1) =~= v@.subrange(0, i as int).push(v@[i as int]));
        assert(strs_view(v@.subrange(0, i + 1)) =~= strs_view(v@.subrange(0, i as int)).push(v@[i as int]@));
        i = i + 1;
    }
    assert(v@.subrange(0, v@.len() as int) =~= v@);
    r
}

/// One entry of a dependency tree, as a value: the module id and its
/// dependencies (`None`: excluded from parsing).
pub type EntryView = (Seq<char>, Option<Seq<DependencyView>>);

/// The map that a list of entries denotes; a later entry for the same key
/// takes precedence.
pub open spec fn entries_map(s: Seq<EntryView>) -> Map<Seq<char>, Option<Seq<DependencyView>>>
    decreases s.len(),
{
    if s.len() == 0 {
        Map::empty()
    } else {
        entries_map(s.drop_last()).insert(s.last().0, s.last().1)
    }
}

/// The keys of a list of entries, in order.
pub open spec fn entry_keys(s: Seq<EntryView>) -> Seq<Seq<char>> {
    s.map_values(|e: EntryView| e.0)
}

/// Looking up the map of distinct-keyed entries gives the entry's value.
pub proof fn lemma_entries_map(s: Seq<EntryView>)
    requires
        entry_keys(s).no_duplicates(),
    ensures
        entries_map(s).dom() == entry_keys(s).to_set(),
        forall|i: int| 0 <= i < s.len() ==> #[trigger] entries_map(s)[s[i].0] == s[i].1,
    decreases s.len(),
{
    if s.len() > 0 {
        let t = s.drop_last();
        assert(entry_keys(t) =~= entry_keys(s).drop_last());
        lemma_entries_map(t);
        assert(entries_map(s).dom() =~= entry_keys(s).to_set()) by {
            assert forall|k| entries_map(s).dom().contains(k) implies entry_keys(s).to_set().contains(k) by {
                if k != s.last().0 {
                    assert(entry_keys(t).to_set().contains(k));
                    let j = choose|j: int| 0 <= j < entry_keys(t).len() && entry_keys(t)[j] == k;
                    assert(entry_keys(s)[j] == k);
                } else {
                    assert(entry_keys(s)[s.len() - 1] == k);
                }
            }
            assert forall|k| entry_keys(s).to_set().contains(k) implies entries_map(s).dom().contains(k) by {
                let j = choose|j: int| 0 <= j < entry_keys(s).len() && entry_keys(s)[j] == k;
                if j < s.len() - 1 {
                    assert(entry_keys(t)[j] == k);
                    assert(entry_keys(t).to_set().contains(k));
                }
            }
        }
        assert forall|i: int| 0 <= i < s.len() implies #[trigger] entries_map(s)[s[i].0] == s[i].1 by {
            if i < s.len() - 1 {
                assert(entry_keys(s)[i] != entry_keys(s)[s.len() - 1]);
                assert(t[i] == s[i]);
            }
        }
    }
}

/// A dependency tree: for each module id, the dependencies found in it, or
/// `None` where the module was excluded from parsing. Keys are distinct;
/// entries keep the order in which they were first inserted.
#[derive(Debug)]
pub struct DependencyTree {
    entries: Vec<(String, Option<Vec<Dependency>>)>,
}

/// The view of one stored entry.
pub open spec fn entry_view(e: (String, Option<Vec<Dependency>>)) -> EntryView {
    (e.0@, opt_deps_view(e.1))
}

/// The views of stored entries.
pub open spec fn list_view(es: Seq<(String, Option<Vec<Dependency>>)>) -> Seq<EntryView> {
    es.map_values(|e: (String, Option<Vec<Dependency>>)| entry_view(e))
}

impl DependencyTree {
    /// The entries, as values, in their order.
    pub closed spec fn entry_list(self) -> Seq<EntryView> {
        list_view(self.entries@)
    }

    /// The module ids, in the order of the entries.
    pub open spec fn key_list(self) -> Seq<Seq<char>> {
        entry_keys(self.entry_list())
    }

    /// The module ids of a tree are distinct.
    #[verifier::type_invariant]
    pub open spec fn keys_distinct(self) -> bool {
        self.key_list().no_duplicates()
    }

    /// Where the ids are distinct, the map agrees with the entries.
    pub proof fn lemma_view(t: Self)
        requires
            t.keys_distinct(),
        ensures
            t@.dom() == t.key_list().to_set(),
            forall|i: int| 0 <= i < t.entry_list().len() ==> #[trigger] t@[t.entry_list()[i].0] == t.entry_list()[i].1,
    {
        lemma_entries_map(t.entry_list());
    }
}

impl DependencyTree {
    /// An empty tree.
    pub fn new() -> (t: Self)
        ensures
            t@ == Map::<Seq<char>, Option<Seq<DependencyView>>>::empty(),
            t.entry_list() == Seq::<EntryView>::empty(),
    {
        let t = DependencyTree { entries: Vec::new() };
        assert(t.entry_list() =~= Seq::<EntryView>::empty());
        t
    }

    /// The number of module ids in the tree.
    pub fn len(&self) -> (n: usize)
        ensures
            n == self.entry_list().len(),
            n == self@.len(),
    {
        proof {
            use_type_invariant(&*self); Self::lemma_view(*self);
            self.key_list().unique_seq_to_set();
        }
        self.entries.len()
    }

    /// Whether the tree has no entries.
    pub fn is_empty(&self) -> (b: bool)
        ensures
            b == (self.entry_list().len() == 0),
            b == (self@.dom() == Set::<Seq<char>>::empty()),
    {
        proof {
            use_type_invariant(&*self); Self::lemma_view(*self);
            if self.entry_list().len() > 0 {
                assert(self.key_list().to_set().contains(self.key_list()[0]));
            }
        }
        self.entries.len() == 0
    }

    /// The position of `key` among the entries, if present.
    pub fn position(&self, key: &str) -> (r: Option<usize>)
        ensures
            match r {
                Some(i) => i < self.entry_list().len() && self.entry_list()[i as int].0 == key@,
                None => !self@.contains_key(key@),
            },
            r is Some <==> self@.contains_key(key@),
    {
        proof { use_type_invariant(&*self); Self::lemma_view(*self); }
        let k = key.to_owned();
        let mut i: usize = 0;
        while i < self.entries.len()
            invariant
                k@ == key@,
                self@.dom() == self.key_list().to_set(),
                i <= self.entry_list().len(),
                self.entry_list().len() == self.entries@.len(),
                forall|j: int| 0 <= j < i ==> self.entry_list()[j].0 != key@,
            decreases self.entries@.len() - i,
        {
            if self.entries[i].0 == k {
                proof {
                    assert(self.key_list()[i as int] == key@);
                    assert(self.key_list().to_set().contains(key@));
                }
                return Some(i);
            }
            i = i + 1;
        }
        proof {
            if self@.contains_key(key@) {
                assert(self.key_list().to_set().contains(key@));
                let j = choose|j: int| 0 <= j < self.key_list().len() && self.key_list()[j] == key@;
                assert(self.entry_list()[j].0 == key@);
            }
        }
        None
    }

    /// Whether `key` is a module id of the tree.
    pub fn contains_key(&self, key: &str) -> (b: bool)
        ensures
            b == self@.contains_key(key@),
    {
        self.position(key).is_some()
    }

    /// The dependencies recorded for `key`, if it is in the tree.
    pub fn get(&self, key: &str) -> (r: Option<&Option<Vec<Dependency>>>)
        ensures
            match r {
                Some(v) => self@.contains_key(key@) && opt_deps_view(*v) == self@[key@],
                None => !self@.contains_key(key@),
            },
    {
        proof { use_type_invariant(&*self); Self::lemma_view(*self); }
        match self.position(key) {
            Some(i) => {
                assert(self.entry_list()[i as int] == entry_view(self.entries@[i as int]));
                Some(&self.entries[i].1)
            },
            None => None,
        }
    }

    /// The module id and dependencies of the `i`-th entry.
    pub fn entry_at(&self, i: usize) -> (r: (&String, &Option<Vec<Dependency>>))
        requires
            i < self.entry_list().len(),
        ensures
            r.0@ == self.entry_list()[i as int].0,
            opt_deps_view(*r.1) == self.entry_list()[i as int].1,
    {
        (&self.entries[i].0, &self.entries[i].1)
    }

    /// Sets the dependencies of `key`: an existing entry keeps its place,
    /// a new key is appended.
    pub fn insert(&mut self, key: String, value: Option<Vec<Dependency>>)
        ensures
            final(self)@ == old(self)@.insert(key@, opt_deps_view(value)),
            old(self)@.contains_key(key@) ==> final(self).key_list() == old(self).key_list(),
            !old(self)@.contains_key(key@) ==> final(self).key_list() == old(self).key_list().push(key@),
    {
        proof { use_type_invariant(&*self); Self::lemma_view(*self); }
        let ghost old_list = self.entry_list();
        match self.position(key.as_str()) {
            Some(i) => {
                let ghost ev = (key@, opt_deps_view(value));
                let mut es: Vec<(String, Option<Vec<Dependency>>)> = Vec::new();
                std::mem::swap(&mut es, &mut self.entries);
                es.set(i, (key, value));
                proof {
                    assert(list_view(es@) =~= old_list.update(i as int, ev));
                    assert(entry_keys(list_view(es@)) =~= entry_keys(old_list));
                }
                self.entries = es;
                proof {
                    Self::lemma_view(*self);
                    lemma_entries_map(old_list);
                    assert(self@.dom() =~= old(self)@.insert(key@, opt_deps_view(value)).dom());
                    assert forall|k| self@.contains_key(k) implies #[trigger] self@[k] == old(self)@.insert(key@, opt_deps_view(value))[k] by {
                        assert(self.key_list().to_set().contains(k));
                        let j = choose|j: int| 0 <= j < self.key_list().len() && self.key_list()[j] == k;
                        assert(self@[self.entry_list()[j].0] == self.entry_list()[j].1);
                        if j != i {
                            assert(old(self)@[old_list[j].0] == old_list[j].1);
                            assert(old_list[j].0 != key@) by {
                                assert(entry_keys(old_list)[j] != entry_keys(old_list)[i as int]);
                            }
                        }
                    }
                    assert(self@ =~= old(self)@.insert(key@, opt_deps_view(value)));
                }
            },
            None => {
                let ghost ev = (key@, opt_deps_view(value));
                let mut es: Vec<(String, Option<Vec<Dependency>>)> = Vec::new();
                std::mem::swap(&mut es, &mut self.entries);
                es.push((key, value));
                proof {
                    assert(list_view(es@) =~= old_list.push(ev));
                    assert(entry_keys(list_view(es@)) =~= entry_keys(old_list).push(key@));
                    assert(!entry_keys(old_list).contains(key@)) by {
                        if entry_keys(old_list).contains(key@) {
                            let j = choose|j: int| 0 <= j < entry_keys(old_list).len() && entry_keys(old_list)[j] == key@;
                            assert(old(self).key_list().to_set().contains(key@));
                        }
                    }
                    assert(entry_keys(list_view(es@)).no_duplicates());
                }
                self.entries = es;
                proof {
                    assert(self.entry_list().drop_last() =~= old_list);
                }
            },
        }
    }

    /// The module ids, in the order of the entries.
    pub fn keys(&self) -> (r: Vec<String>)
        ensures
            strs_view(r@) == self.key_list(),
    {
        let mut r: Vec<String> = Vec::new();
        let mut i: usize = 0;
        while i < self.entries.len()
            invariant
                i <= self.entries@.len(),
                self.entry_list().len() == self.entries@.len(),
                strs_view(r@) == self.key_list().subrange(0, i as int),
            decreases self.entries@.len() - i,
        {
            let k = self.entries[i].0.clone();
            let ghost before = r@;
            r.push(k);
            assert(strs_view(r@) =~= strs_view(before).push(k@));
            assert(self.key_list()[i as int] == k@);
            assert(self.key_list().subrange(0, i + 1) =~= self.key_list().subrange(0, i as int).push(k@));
            i = i + 1;
        }
        assert(self.key_list().subrange(0, i as int) =~= self.key_list());
        r
    }
}

impl Clone for DependencyTree {
    /// A copy with the same entries in the same order.
    fn clone(&self) -> (r: Self)
        ensures
            r.entry_list() == self.entry_list(),
            r@ == self@,
    {
        proof {
            use_type_invariant(self);
        }
        let mut es: Vec<(String, Option<Vec<Dependency>>)> = Vec::new();
        let mut i: usize = 0;
        while i < self.entries.len()
            invariant
                i <= self.entries@.len(),
                self.keys_distinct(),
                list_view(es@) == self.entry_list().subrange(0, i as int),
            decreases self.entries@.len() - i,
        {
            let e = (self.entries[i].0.clone(), clone_opt_deps(&self.entries[i].1));
            let ghost before = es@;
            es.push(e);
            proof {
                assert(list_view(es@) =~= list_view(before).push(entry_view(e)));
                assert(self.entry_list()[i as int] == entry_view(self.entries@[i as int]));
                assert(self.entry_list().subrange(0, i + 1) =~= self.entry_list().subrange(0, i as int).push(entry_view(e)));
            }
            i = i + 1;
        }
        proof {
            assert(self.entry_list().subrange(0, i as int) =~= self.entry_list());
        }
        DependencyTree { entries: es }
    }
}

impl View for DependencyTree {
    type V = Map<Seq<char>, Option<Seq<DependencyView>>>;

    open spec fn view(&self) -> Self::V {
        entries_map(self.entry_list())
    }
}

} // verus!

verus! {

/// The number of dependencies of a list of entries (an entry that was not
/// parsed counts none).
pub open spec fn total_dependencies(es: Seq<EntryView>) -> nat
    decreases es.len(),
{
    if es.len() == 0 {
        0
    } else {
        total_dependencies(es.drop_last()) + match es.last().1 {
            Some(ds) => ds.len(),
            None => 0,
        }
    }
}

/// The number of dependencies in a tree, over all its modules.
pub fn count_total_dependencies(tree: &DependencyTree) -> (n: usize)
    requires
        total_dependencies(tree.entry_list()) <= usize::MAX,
    ensures
        n == total_dependencies(tree.entry_list()),
{
    let ghost es = tree.entry_list();
    let len = tree.len();
    let mut total: usize = 0;
    let mut i: usize = 0;
    while i < len
        invariant
            es == tree.entry_list(),
            len == es.len(),
            i <= len,
            total == total_dependencies(es.subrange(0, i as int)),
            total_dependencies(es) <= usize::MAX,
        decreases len - i,
    {
        let (_k, deps_opt) = tree.entry_at(i);
        let ghost s1 = es.subrange(0, i + 1);
        proof {
            assert(s1.drop_last() =~= es.subrange(0, i as int));
            assert(s1.last() == es[i as int]);
            lemma_total_prefix(es, i + 1);
        }
        match deps_opt {
            Some(deps) => {
                total = total + deps.len();
            },
            None => {},
        }
        i = i + 1;
    }
    proof {
        assert(es.subrange(0, i as int) =~= es);
    }
    total
}

/// The count of a prefix is at most the count of the whole.
proof fn lemma_total_prefix(es: Seq<EntryView>, k: int)
    requires
        0 <= k <= es.len(),
    ensures
        total_dependencies(es.subrange(0, k)) <= total_dependencies(es),
    decreases es.len() - k,
{
    if k < es.len() {
        lemma_total_prefix(es, k + 1);
        let s1 = es.subrange(0, k + 1);
        assert(s1.drop_last() =~= es.subrange(0, k));
    } else {
        assert(es.subrange(0, k) =~= es);
    }
}

/// The result of an analysis: the entries it started from, the tree, and
/// the circular dependencies found.
#[derive(Debug)]
pub struct AnalysisResult {
    pub entries: Vec<String>,
    pub tree: DependencyTree,
    pub circulars: Vec<Vec<String>>,
}

} // verus!

verus! {

/// A tree gives back, for a module, the dependencies last inserted for it,
/// and inserting for one module leaves the others as they were.
pub proof fn lemma_insert_then_get(
    t: Map<Seq<char>, Option<Seq<DependencyView>>>,
    k: Seq<char>,
    v: Option<Seq<DependencyView>>,
    other: Seq<char>,
)
    ensures
        t.insert(k, v).contains_key(k),
        t.insert(k, v)[k] == v,
        other != k ==> t.insert(k, v).contains_key(other) == t.contains_key(other),
        other != k && t.contains_key(other) ==> t.insert(k, v)[other] == t[other],
{
}

} // verus!
