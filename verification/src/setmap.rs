//! A map from strings to sets of strings that remembers the order in which
//! keys and members were added.
use vstd::prelude::*;
use crate::types::strs_view;

verus! {

/// The map that a list of distinct-keyed pairs denotes.
pub open spec fn assoc_map<V>(s: Seq<(Seq<char>, V)>) -> Map<Seq<char>, V>
    decreases s.len(),
{
    if s.len() == 0 {
        Map::empty()
    } else {
        assoc_map(s.drop_last()).insert(s.last().0, s.last().1)
    }
}

/// The keys of a list of pairs.
pub open spec fn assoc_keys<V>(s: Seq<(Seq<char>, V)>) -> Seq<Seq<char>> {
    s.map_values(|e: (Seq<char>, V)| e.0)
}

/// With distinct keys, the map holds exactly each pair.
pub proof fn lemma_assoc_map<V>(s: Seq<(Seq<char>, V)>)
    requires
        assoc_keys(s).no_duplicates(),
    ensures
        assoc_map(s).dom() == assoc_keys(s).to_set(),
        forall|i: int| 0 <= i < s.len() ==> #[trigger] assoc_map(s)[s[i].0] == s[i].1,
    decreases s.len(),
{
    if s.len() > 0 {
        let t = s.drop_last();
        assert(assoc_keys(t) =~= assoc_keys(s).drop_last());
        lemma_assoc_map(t);
        assert forall|k| assoc_map(s).dom().contains(k) implies assoc_keys(s).to_set().contains(k) by {
            if k != s.last().0 {
                assert(assoc_keys(t).to_set().contains(k));
                let j = choose|j: int| 0 <= j < assoc_keys(t).len() && assoc_keys(t)[j] == k;
                assert(assoc_keys(s)[j] == k);
            } else {
                assert(assoc_keys(s)[s.len() - 1] == k);
            }
        }
        assert forall|k| assoc_keys(s).to_set().contains(k) implies assoc_map(s).dom().contains(k) by {
            let j = choose|j: int| 0 <= j < assoc_keys(s).len() && assoc_keys(s)[j] == k;
            if j < s.len() - 1 {
                assert(assoc_keys(t)[j] == k);
                assert(assoc_keys(t).to_set().contains(k));
            }
        }
        assert(assoc_map(s).dom() =~= assoc_keys(s).to_set());
        assert forall|i: int| 0 <= i < s.len() implies #[trigger] assoc_map(s)[s[i].0] == s[i].1 by {
            if i < s.len() - 1 {
                assert(assoc_keys(s)[i] != assoc_keys(s)[s.len() - 1]);
                assert(t[i] == s[i]);
            }
        }
    }
}

/// Every member of every list of a list of pairs.
pub open spec fn members_of(s: Seq<(Seq<char>, Seq<Seq<char>>)>) -> Set<Seq<char>>
    decreases s.len(),
{
    if s.len() == 0 {
        Set::empty()
    } else {
        members_of(s.drop_last()).union(s.last().1.to_set())
    }
}

/// The members of a list of pairs form a finite set that holds each member.
pub proof fn lemma_members_of(s: Seq<(Seq<char>, Seq<Seq<char>>)>)
    ensures
        members_of(s).finite(),
        forall|i: int, p: Seq<char>| #![trigger s[i].1.contains(p)] 0 <= i < s.len() && s[i].1.contains(p) ==> members_of(s).contains(p),
    decreases s.len(),
{
    if s.len() > 0 {
        let t = s.drop_last();
        lemma_members_of(t);
        vstd::seq_lib::seq_to_set_is_finite(s.last().1);
        assert forall|i: int, p: Seq<char>| #![trigger s[i].1.contains(p)] 0 <= i < s.len() && s[i].1.contains(p) implies members_of(s).contains(p) by {
            if i < s.len() - 1 {
                assert(t[i] == s[i]);
            } else {
                assert(s.last().1.to_set().contains(p));
            }
        }
    }
}

/// The view of one stored pair: the key and its members, in order.
pub open spec fn pair_view(e: (String, Vec<String>)) -> (Seq<char>, Seq<Seq<char>>) {
    (e.0@, strs_view(e.1@))
}

/// A map from strings to sets of strings. Keys are distinct, the members
/// of each key are distinct, and both keep the order of insertion.
#[derive(Debug)]
pub struct StringSetMap {
    entries: Vec<(String, Vec<String>)>,
}

impl StringSetMap {
    /// The pairs, as values, in order.
    pub closed spec fn pairs(self) -> Seq<(Seq<char>, Seq<Seq<char>>)> {
        self.entries@.map_values(|e: (String, Vec<String>)| pair_view(e))
    }

    /// The keys, in order.
    pub open spec fn key_list(self) -> Seq<Seq<char>> {
        assoc_keys(self.pairs())
    }

    /// The members of each key, in order.
    pub open spec fn lists(self) -> Map<Seq<char>, Seq<Seq<char>>> {
        assoc_map(self.pairs())
    }

    /// Keys are distinct and so are the members of each key.
    #[verifier::type_invariant]
    pub open spec fn well_formed(self) -> bool {
        &&& self.key_list().no_duplicates()
        &&& forall|i: int| 0 <= i < self.pairs().len() ==> (#[trigger] self.pairs()[i]).1.no_duplicates()
    }

    /// Facts that hold of every well-formed map.
    pub proof fn lemma_view(m: Self)
        requires
            m.well_formed(),
        ensures
            m.lists().dom() == m.key_list().to_set(),
            forall|i: int| 0 <= i < m.pairs().len() ==> #[trigger] m.lists()[m.pairs()[i].0] == m.pairs()[i].1,
            forall|k: Seq<char>| #[trigger] m.lists().contains_key(k) ==> m.lists()[k].no_duplicates(),
    {
        lemma_assoc_map(m.pairs());
        assert forall|k: Seq<char>| #[trigger] m.lists().contains_key(k) implies m.lists()[k].no_duplicates() by {
            let i = choose|i: int| 0 <= i < m.key_list().len() && m.key_list()[i] == k;
            assert(m.lists()[m.pairs()[i].0] == m.pairs()[i].1);
        }
    }

    /// Every member of every key.
    pub closed spec fn members(self) -> Set<Seq<char>> {
        members_of(self.pairs())
    }

    /// The members form a finite set that holds each member of each key.
    pub proof fn lemma_members(m: Self)
        requires
            m.well_formed(),
        ensures
            m.members().finite(),
            forall|x: Seq<char>, p: Seq<char>| #![trigger m@[x].contains(p)] m@.contains_key(x) && m@[x].contains(p) ==> m.members().contains(p),
    {
        Self::lemma_view(m);
        lemma_members_of(m.pairs());
        assert forall|x: Seq<char>, p: Seq<char>| #![trigger m@[x].contains(p)] m@.contains_key(x) && m@[x].contains(p) implies m.members().contains(p) by {
            let i = choose|i: int| 0 <= i < m.key_list().len() && m.key_list()[i] == x;
            assert(m.lists()[m.pairs()[i].0] == m.pairs()[i].1);
            assert(m.lists()[x].to_set().contains(p));
            assert(m.pairs()[i].1.contains(p));
        }
    }

    /// An empty map.
    pub fn new() -> (m: Self)
        ensures
            m@ == Map::<Seq<char>, Set<Seq<char>>>::empty(),
            m.pairs() == Seq::<(Seq<char>, Seq<Seq<char>>)>::empty(),
    {
        let m = StringSetMap { entries: Vec::new() };
        assert(m.pairs() =~= Seq::<(Seq<char>, Seq<Seq<char>>)>::empty());
        assert(m@ =~= Map::<Seq<char>, Set<Seq<char>>>::empty());
        m
    }

    /// The position of `key`, if present.
    pub fn find(&self, key: &str) -> (r: Option<usize>)
        ensures
            match r {
                Some(i) => i < self.pairs().len() && self.pairs()[i as int].0 == key@,
                None => !self.lists().contains_key(key@),
            },
    {
        proof {
            use_type_invariant(self);
            Self::lemma_view(*self);
        }
        let k = key.to_owned();
        let mut i: usize = 0;
        while i < self.entries.len()
            invariant
                k@ == key@,
                self.lists().dom() == self.key_list().to_set(),
                self.pairs().len() == self.entries@.len(),
                i <= self.entries@.len(),
                forall|j: int| 0 <= j < i ==> self.pairs()[j].0 != key@,
            decreases self.entries@.len() - i,
        {
            if self.entries[i].0 == k {
                return Some(i);
            }
            i = i + 1;
        }
        proof {
            if self.lists().contains_key(key@) {
                let j = choose|j: int| 0 <= j < self.key_list().len() && self.key_list()[j] == key@;
                assert(self.pairs()[j].0 == key@);
            }
        }
        None
    }

    /// Whether `key` is present.
    pub fn contains_key(&self, key: &str) -> (b: bool)
        ensures
            b == self@.contains_key(key@),
    {
        proof {
            use_type_invariant(self);
            Self::lemma_view(*self);
        }
        let r = self.find(key);
        proof {
            if let Some(i) = r {
                assert(self.key_list()[i as int] == key@);
                assert(self.key_list().to_set().contains(key@));
            }
        }
        r.is_some()
    }

    /// The members of `key`, in insertion order, if present.
    pub fn get(&self, key: &str) -> (r: Option<&Vec<String>>)
        ensures
            match r {
                Some(v) => self.lists().contains_key(key@) && strs_view(v@) == self.lists()[key@],
                None => !self.lists().contains_key(key@),
            },
    {
        proof {
            use_type_invariant(self);
            Self::lemma_view(*self);
        }
        match self.find(key) {
            Some(i) => {
                proof {
                    assert(self.key_list()[i as int] == key@);
                    assert(self.key_list().to_set().contains(key@));
                    assert(self.lists()[self.pairs()[i as int].0] == self.pairs()[i as int].1);
                    assert(self.pairs()[i as int] == pair_view(self.entries@[i as int]));
                }
                Some(&self.entries[i].1)
            },
            None => None,
        }
    }

    /// The number of keys.
    pub fn len(&self) -> (n: usize)
        ensures
            n == self.key_list().len(),
    {
        self.entries.len()
    }

    /// Whether there are no keys.
    pub fn is_empty(&self) -> (b: bool)
        ensures
            b == (self@.dom() == Set::<Seq<char>>::empty()),
    {
        proof {
            use_type_invariant(self);
            Self::lemma_view(*self);
            if self.key_list().len() > 0 {
                assert(self.key_list().to_set().contains(self.key_list()[0]));
                assert(self@.dom().contains(self.key_list()[0]));
            } else {
                assert(self@.dom() =~= Set::<Seq<char>>::empty());
            }
        }
        self.entries.len() == 0
    }

    /// Sets the members of `key` to `list`: an existing key keeps its place,
    /// a new key is appended.
    pub fn set_list(&mut self, key: String, list: Vec<String>)
        requires
            strs_view(list@).no_duplicates(),
        ensures
            final(self).lists() == old(self).lists().insert(key@, strs_view(list@)),
    {
        proof {
            use_type_invariant(&*self);
            Self::lemma_view(*self);
        }
        let ghost old_pairs = self.pairs();
        let ghost ev = (key@, strs_view(list@));
        match self.find(key.as_str()) {
            Some(i) => {
                let mut es: Vec<(String, Vec<String>)> = Vec::new();
                std::mem::swap(&mut es, &mut self.entries);
                es.set(i, (key, list));
                proof {
                    let np = es@.map_values(|e: (String, Vec<String>)| pair_view(e));
                    assert(np =~= old_pairs.update(i as int, ev));
                    assert(assoc_keys(np) =~= assoc_keys(old_pairs));
                    assert forall|j: int| 0 <= j < np.len() implies (#[trigger] np[j]).1.no_duplicates() by {
                        if j != i {
                            assert(np[j] == old_pairs[j]);
                        }
                    }
                }
                self.entries = es;
                proof {
                    Self::lemma_view(*self);
                    lemma_assoc_map(old_pairs);
                    assert(self.lists().dom() =~= old(self).lists().insert(key@, strs_view(list@)).dom()) by {
                        assert(old(self).key_list()[i as int] == key@);
                    }
                    assert forall|k| #[trigger] self.lists().contains_key(k) implies self.lists()[k]
                        == old(self).lists().insert(key@, strs_view(list@))[k] by {
                        let j = choose|j: int| 0 <= j < self.key_list().len() && self.key_list()[j] == k;
                        assert(self.lists()[self.pairs()[j].0] == self.pairs()[j].1);
                        if j != i {
                            assert(old(self).lists()[old_pairs[j].0] == old_pairs[j].1);
                            assert(assoc_keys(old_pairs)[j] != assoc_keys(old_pairs)[i as int]);
                        }
                    }
                    assert(self.lists() =~= old(self).lists().insert(key@, strs_view(list@)));
                }
            },
            None => {
                let mut es: Vec<(String, Vec<String>)> = Vec::new();
                std::mem::swap(&mut es, &mut self.entries);
                es.push((key, list));
                proof {
                    let np = es@.map_values(|e: (String, Vec<String>)| pair_view(e));
                    assert(np =~= old_pairs.push(ev));
                    assert(assoc_keys(np) =~= assoc_keys(old_pairs).push(key@));
                    assert(!assoc_keys(old_pairs).contains(key@)) by {
                        if assoc_keys(old_pairs).contains(key@) {
                            let j = choose|j: int| 0 <= j < assoc_keys(old_pairs).len() && assoc_keys(old_pairs)[j] == key@;
                            assert(old(self).key_list().to_set().contains(key@));
                        }
                    }
                    assert forall|j: int| 0 <= j < np.len() implies (#[trigger] np[j]).1.no_duplicates() by {
                        if j < old_pairs.len() {
                            assert(np[j] == old_pairs[j]);
                        }
                    }
                }
                self.entries = es;
                proof {
                    assert(self.pairs().drop_last() =~= old_pairs);
                }
            },
        }
    }

    /// Removes `key` and its members.
    pub fn remove_key(&mut self, key: &str)
        ensures
            final(self).lists() == old(self).lists().remove(key@),
    {
        proof {
            use_type_invariant(&*self);
            Self::lemma_view(*self);
        }
        let ghost old_pairs = self.pairs();
        match self.find(key) {
            Some(i) => {
                let mut es: Vec<(String, Vec<String>)> = Vec::new();
                std::mem::swap(&mut es, &mut self.entries);
                es.remove(i);
                proof {
                    let np = es@.map_values(|e: (String, Vec<String>)| pair_view(e));
                    assert(np =~= old_pairs.remove(i as int));
                    assert(assoc_keys(np) =~= assoc_keys(old_pairs).remove(i as int));
                    assert forall|j: int| 0 <= j < np.len() implies (#[trigger] np[j]).1.no_duplicates() by {
                        if j < i {
                            assert(np[j] == old_pairs[j]);
                        } else {
                            assert(np[j] == old_pairs[j + 1]);
                        }
                    }
                    assert(assoc_keys(np).no_duplicates()) by {
                        assert forall|a: int, b: int| 0 <= a < assoc_keys(np).len() && 0 <= b < assoc_keys(np).len() && a != b
                            implies assoc_keys(np)[a] != assoc_keys(np)[b] by {
                            let a2 = if a < i { a } else { a + 1 };
                            let b2 = if b < i { b } else { b + 1 };
                            assert(assoc_keys(np)[a] == assoc_keys(old_pairs)[a2]);
                            assert(assoc_keys(np)[b] == assoc_keys(old_pairs)[b2]);
                        }
                    }
                }
                self.entries = es;
                proof {
                    Self::lemma_view(*self);
                    lemma_assoc_map(old_pairs);
                    let np = self.pairs();
                    assert forall|k| #[trigger] self.lists().contains_key(k) == old(self).lists().remove(key@).contains_key(k) by {
                        if self.lists().contains_key(k) {
                            let j = choose|j: int| 0 <= j < self.key_list().len() && self.key_list()[j] == k;
                            let j2 = if j < i { j } else { j + 1 };
                            assert(old(self).key_list()[j2] == k);
                            assert(old(self).key_list().to_set().contains(k));
                            assert(old(self).key_list()[i as int] == key@);
                        }
                        if old(self).lists().remove(key@).contains_key(k) {
                            let j = choose|j: int| 0 <= j < old(self).key_list().len() && old(self).key_list()[j] == k;
                            assert(j != i);
                            let j2 = if j < i { j } else { j - 1 };
                            assert(self.key_list()[j2] == k);
                            assert(self.key_list().to_set().contains(k));
                        }
                    }
                    assert forall|k| #[trigger] self.lists().contains_key(k) implies self.lists()[k]
                        == old(self).lists().remove(key@)[k] by {
                        let j = choose|j: int| 0 <= j < self.key_list().len() && self.key_list()[j] == k;
                        let j2 = if j < i { j } else { j + 1 };
                        assert(np[j] == old_pairs[j2]);
                        assert(self.lists()[np[j].0] == np[j].1);
                        assert(old(self).lists()[old_pairs[j2].0] == old_pairs[j2].1);
                    }
                    assert(self.lists() =~= old(self).lists().remove(key@));
                }
            },
            None => {
                assert(old(self).lists() =~= old(self).lists().remove(key@));
            },
        }
    }

    /// Adds `member` to the set of `key`, creating the key if needed.
    pub fn add_member(&mut self, key: &str, member: String)
        ensures
            final(self)@ == old(self)@.insert(
                key@,
                if old(self)@.contains_key(key@) { old(self)@[key@] } else { Set::empty() }.insert(member@),
            ),
    {
        proof {
            use_type_invariant(&*self);
            Self::lemma_view(*self);
        }
        let ghost m = member@;
        match self.get(key) {
            Some(list) => {
                if list_contains(list, member.as_str()) {
                    proof {
                        assert(self@[key@].contains(m));
                        assert(self@[key@].insert(m) =~= self@[key@]);
                        assert(self@ =~= self@.insert(key@, self@[key@].insert(m)));
                    }
                } else {
                    let mut l2 = crate::types::clone_strings(list);
                    let ghost lv = strs_view(l2@);
                    l2.push(member);
                    proof {
                        assert(strs_view(l2@) =~= lv.push(m));
                        assert(!lv.contains(m));
                    }
                    self.set_list(key.to_owned(), l2);
                    proof {
                        assert(strs_view(l2@).to_set() =~= lv.to_set().insert(m)) by {
                            assert forall|y| #[trigger] strs_view(l2@).to_set().contains(y) == lv.to_set().insert(m).contains(y) by {
                                if lv.contains(y) {
                                    let k = choose|k: int| 0 <= k < lv.len() && lv[k] == y;
                                    assert(strs_view(l2@)[k] == y);
                                }
                                if strs_view(l2@).contains(y) && y != m {
                                    let k = choose|k: int| 0 <= k < strs_view(l2@).len() && strs_view(l2@)[k] == y;
                                    assert(lv[k] == y);
                                }
                                if y == m {
                                    assert(strs_view(l2@)[lv.len() as int] == y);
                                }
                            }
                        }
                        assert(self@ =~= old(self)@.insert(key@, old(self)@[key@].insert(m)));
                    }
                }
            },
            None => {
                let mut l2: Vec<String> = Vec::new();
                l2.push(member);
                self.set_list(key.to_owned(), l2);
                proof {
                    assert(strs_view(l2@) =~= seq![m]);
                    assert(seq![m].to_set() =~= Set::<Seq<char>>::empty().insert(m)) by {
                        assert(seq![m][0] == m);
                    }
                    assert(self@ =~= old(self)@.insert(key@, Set::<Seq<char>>::empty().insert(m)));
                }
            },
        }
    }

    /// Removes `member` from the set of `key` (the key stays, possibly with
    /// an empty set).
    pub fn remove_member(&mut self, key: &str, member: &str)
        ensures
            final(self)@ == if old(self)@.contains_key(key@) {
                old(self)@.insert(key@, old(self)@[key@].remove(member@))
            } else {
                old(self)@
            },
    {
        proof {
            use_type_invariant(&*self);
            Self::lemma_view(*self);
        }
        match self.get(key) {
            Some(list) => {
                let l2 = list_without(list, member);
                self.set_list(key.to_owned(), l2);
                proof {
                    assert(self@ =~= old(self)@.insert(key@, old(self)@[key@].remove(member@)));
                }
            },
            None => {},
        }
    }

    /// Removes every key whose set is empty.
    pub fn remove_empty(&mut self)
        ensures
            final(self)@ == old(self)@.restrict(old(self)@.dom().filter(|k: Seq<char>| old(self)@[k] != Set::<Seq<char>>::empty())),
    {
        let keys = self.keys();
        let mut i: usize = 0;
        let ghost m0 = self@;
        let ghost ks = strs_view(keys@);
        proof {
            use_type_invariant(&*self);
            Self::lemma_view(*self);
        }
        while i < keys.len()
            invariant
                i <= keys@.len(),
                ks == strs_view(keys@),
                ks.no_duplicates(),
                ks.to_set() == m0.dom(),
                forall|k: Seq<char>| #[trigger] self@.contains_key(k) ==> m0.contains_key(k) && self@[k] == m0[k],
                forall|k: Seq<char>| #[trigger] m0.contains_key(k) ==> (self@.contains_key(k) <==> (!ks.subrange(0, i as int).contains(k)
                    || m0[k] != Set::<Seq<char>>::empty())),
            decreases keys@.len() - i,
        {
            let ghost k = ks[i as int];
            let ghost before = self@;
            assert(ks.subrange(0, i + 1) =~= ks.subrange(0, i as int).push(k));
            assert(!ks.subrange(0, i as int).contains(k)) by {
                let pre = ks.subrange(0, i as int);
                if pre.contains(k) {
                    let j = choose|j: int| 0 <= j < pre.len() && pre[j] == k;
                    assert(ks[j] == k);
                }
            }
            assert(m0.contains_key(k)) by {
                assert(ks.to_set().contains(k));
            }
            let empty = match self.get(keys[i].as_str()) {
                Some(list) => list.len() == 0,
                None => false,
            };
            if empty {
                proof {
                    use_type_invariant(&*self);
                    Self::lemma_view(*self);
                    assert(self@[k] =~= Set::<Seq<char>>::empty());
                }
                self.remove_key(keys[i].as_str());
                proof {
                    assert(self@ =~= before.remove(k));
                }
            } else {
                proof {
                    use_type_invariant(&*self);
                    Self::lemma_view(*self);
                    if self.lists().contains_key(k) {
                        let l = self.lists()[k];
                        assert(l.len() > 0);
                        assert(l.to_set().contains(l[0]));
                    }
                }
            }
            proof {
                let pre = ks.subrange(0, i as int);
                let pre1 = ks.subrange(0, i + 1);
                assert forall|k2: Seq<char>| #[trigger] m0.contains_key(k2) implies (self@.contains_key(k2) <==> (!pre1.contains(k2)
                    || m0[k2] != Set::<Seq<char>>::empty())) by {
                    if k2 != k {
                        if pre1.contains(k2) {
                            let j = choose|j: int| 0 <= j < pre1.len() && pre1[j] == k2;
                            assert(pre[j] == k2);
                        }
                        if pre.contains(k2) {
                            let j = choose|j: int| 0 <= j < pre.len() && pre[j] == k2;
                            assert(pre1[j] == k2);
                        }
                    } else {
                        assert(pre1[i as int] == k2);
                    }
                }
            }
            i = i + 1;
        }
        proof {
            assert(ks.subrange(0, i as int) =~= ks);
            let target = m0.restrict(m0.dom().filter(|k: Seq<char>| m0[k] != Set::<Seq<char>>::empty()));
            assert forall|k: Seq<char>| #[trigger] self@.contains_key(k) == target.contains_key(k) by {
                if target.contains_key(k) {
                    assert(ks.to_set().contains(k));
                }
                if self@.contains_key(k) {
                    assert(ks.to_set().contains(k));
                }
            }
            assert(self@ =~= target);
        }
    }

    /// Keeps in each set only the module ids of `tree`; the keys stay.
    pub fn retain_members_in(&mut self, tree: &crate::types::DependencyTree)
        ensures
            final(self)@ == old(self)@.map_values(|s: Set<Seq<char>>| s.intersect(tree@.dom())),
    {
        let keys = self.keys();
        let mut i: usize = 0;
        let ghost m0 = self@;
        let ghost ks = strs_view(keys@);
        proof {
            use_type_invariant(&*self);
            Self::lemma_view(*self);
        }
        while i < keys.len()
            invariant
                i <= keys@.len(),
                ks == strs_view(keys@),
                ks.no_duplicates(),
                ks.to_set() == m0.dom(),
                self@.dom() == m0.dom(),
                forall|k: Seq<char>| #[trigger] self@.contains_key(k) ==> self@[k] == if ks.subrange(0, i as int).contains(k) {
                    m0[k].intersect(tree@.dom())
                } else {
                    m0[k]
                },
            decreases keys@.len() - i,
        {
            let ghost k = ks[i as int];
            let ghost before = self@;
            let ghost pre = ks.subrange(0, i as int);
            let ghost pre1 = ks.subrange(0, i + 1);
            assert(pre1 =~= pre.push(k));
            assert(!pre.contains(k)) by {
                if pre.contains(k) {
                    let j = choose|j: int| 0 <= j < pre.len() && pre[j] == k;
                    assert(ks[j] == k);
                }
            }
            assert(m0.contains_key(k)) by {
                assert(ks.to_set().contains(k));
            }
            proof {
                use_type_invariant(&*self);
                Self::lemma_view(*self);
            }
            let list_opt = self.get(keys[i].as_str());
            match list_opt {
                Some(list) => {
                    let l2 = list_keep_in_tree(list, tree);
                    self.set_list(keys[i].clone(), l2);
                    proof {
                        assert(self@ =~= before.insert(k, m0[k].intersect(tree@.dom())));
                    }
                },
                None => {},
            }
            proof {
                assert forall|k2: Seq<char>| #[trigger] self@.contains_key(k2) implies self@[k2] == if pre1.contains(k2) {
                    m0[k2].intersect(tree@.dom())
                } else {
                    m0[k2]
                } by {
                    if k2 != k {
                        if pre1.contains(k2) {
                            let j = choose|j: int| 0 <= j < pre1.len() && pre1[j] == k2;
                            assert(pre[j] == k2);
                        }
                        if pre.contains(k2) {
                            let j = choose|j: int| 0 <= j < pre.len() && pre[j] == k2;
                            assert(pre1[j] == k2);
                        }
                    } else {
                        assert(pre1[i as int] == k2);
                    }
                }
            }
            i = i + 1;
        }
        proof {
            assert(ks.subrange(0, i as int) =~= ks);
            assert forall|k: Seq<char>| #[trigger] self@.contains_key(k) implies self@[k] == m0[k].intersect(tree@.dom()) by {
                assert(ks.to_set().contains(k));
            }
            assert(self@ =~= m0.map_values(|s: Set<Seq<char>>| s.intersect(tree@.dom())));
        }
    }

    /// The keys, in order.
    pub fn keys(&self) -> (r: Vec<String>)
        ensures
            strs_view(r@) == self.key_list(),
    {
        let mut r: Vec<String> = Vec::new();
        let mut i: usize = 0;
        while i < self.entries.len()
            invariant
                i <= self.entries@.len(),
                self.pairs().len() == self.entries@.len(),
                strs_view(r@) == self.key_list().subrange(0, i as int),
            decreases self.entries@.len() - i,
        {
            let k = self.entries[i].0.clone();
            let ghost before = r@;
            r.push(k);
            assert(strs_view(r@) =~= strs_view(before).push(k@));
            assert(self.key_list()[i as int] == k@);
            assert(self.key_list().subrange(0, i + 1) =~= self.key_list().subrange(0, i as int).push(k@));
            i = i + 1;
        }
        assert(self.key_list().subrange(0, i as int) =~= self.key_list());
        r
    }
}

/// Whether `x` is among the strings of `list`.
pub fn list_contains(list: &Vec<String>, x: &str) -> (b: bool)
    ensures
        b == strs_view(list@).contains(x@),
{
    let xs = x.to_owned();
    let mut i: usize = 0;
    while i < list.len()
        invariant
            xs@ == x@,
            i <= list@.len(),
            forall|j: int| 0 <= j < i ==> list@[j]@ != x@,
        decreases list@.len() - i,
    {
        if list[i] == xs {
            assert(strs_view(list@)[i as int] == x@);
            return true;
        }
        i = i + 1;
    }
    proof {
        if strs_view(list@).contains(x@) {
            let j = choose|j: int| 0 <= j < strs_view(list@).len() && strs_view(list@)[j] == x@;
            assert(list@[j]@ == x@);
        }
    }
    false
}

/// The strings of `list` that differ from `x`, in order.
pub fn list_without(list: &Vec<String>, x: &str) -> (r: Vec<String>)
    requires
        strs_view(list@).no_duplicates(),
    ensures
        strs_view(r@).no_duplicates(),
        strs_view(r@).to_set() == strs_view(list@).to_set().remove(x@),
{
    let xs = x.to_owned();
    let mut r: Vec<String> = Vec::new();
    let mut i: usize = 0;
    while i < list.len()
        invariant
            xs@ == x@,
            i <= list@.len(),
            strs_view(list@).no_duplicates(),
            strs_view(r@).no_duplicates(),
            strs_view(r@).to_set() == strs_view(list@).subrange(0, i as int).to_set().remove(x@),
            forall|k: int| 0 <= k < r@.len() ==> strs_view(list@).subrange(0, i as int).contains(#[trigger] strs_view(r@)[k]),
        decreases list@.len() - i,
    {
        let ghost pre = strs_view(list@).subrange(0, i as int);
        let ghost cur = strs_view(list@)[i as int];
        assert(strs_view(list@).subrange(0, i + 1) =~= pre.push(cur));
        assert(!pre.contains(cur)) by {
            if pre.contains(cur) {
                let k = choose|k: int| 0 <= k < pre.len() && pre[k] == cur;
                assert(strs_view(list@)[k] == cur);
            }
        }
        if !(list[i] == xs) {
            let ghost before = r@;
            r.push(list[i].clone());
            proof {
                assert(strs_view(r@) =~= strs_view(before).push(cur));
                assert(!strs_view(before).contains(cur)) by {
                    if strs_view(before).contains(cur) {
                        let k = choose|k: int| 0 <= k < strs_view(before).len() && strs_view(before)[k] == cur;
                        assert(pre.contains(strs_view(before)[k]));
                    }
                }
                assert(cur != x@);
                assert(strs_view(before).to_set() == pre.to_set().remove(x@));
                assert(strs_view(r@).to_set() =~= pre.push(cur).to_set().remove(x@)) by {
                    assert forall|y| #[trigger] strs_view(r@).to_set().contains(y) == pre.push(cur).to_set().remove(x@).contains(y) by {
                        if strs_view(before).contains(y) {
                            let k = choose|k: int| 0 <= k < strs_view(before).len() && strs_view(before)[k] == y;
                            assert(strs_view(r@)[k] == y);
                            assert(strs_view(before).to_set().contains(y));
                            assert(pre.to_set().contains(y));
                        }
                        if pre.contains(y) && y != x@ {
                            assert(pre.to_set().contains(y));
                            assert(strs_view(before).to_set().contains(y));
                            assert(strs_view(before).contains(y));
                        }
                        if strs_view(r@).contains(y) && y != cur {
                            let k = choose|k: int| 0 <= k < strs_view(r@).len() && strs_view(r@)[k] == y;
                            assert(strs_view(before)[k] == y);
                        }
                        if pre.contains(y) {
                            let k = choose|k: int| 0 <= k < pre.len() && pre[k] == y;
                            assert(pre.push(cur)[k] == y);
                        }
                        if pre.push(cur).contains(y) && y != cur {
                            let k = choose|k: int| 0 <= k < pre.push(cur).len() && pre.push(cur)[k] == y;
                            assert(pre[k] == y);
                        }
                        if y == cur {
                            assert(strs_view(r@)[strs_view(before).len() as int] == y);
                            assert(pre.push(cur)[i as int] == y);
                        }
                    }
                }
                assert forall|k: int| 0 <= k < r@.len() implies pre.push(cur).contains(#[trigger] strs_view(r@)[k]) by {
                    if k < before.len() {
                        assert(strs_view(r@)[k] == strs_view(before)[k]);
                        let w = strs_view(before)[k];
                        let m = choose|m: int| 0 <= m < pre.len() && pre[m] == w;
                        assert(pre.push(cur)[m] == w);
                    } else {
                        assert(pre.push(cur)[i as int] == cur);
                    }
                }
            }
        } else {
            proof {
                assert(cur == x@);
                assert(strs_view(r@).to_set() == pre.to_set().remove(x@));
                assert(strs_view(r@).to_set() =~= pre.push(cur).to_set().remove(x@)) by {
                    assert forall|y| #[trigger] strs_view(r@).to_set().contains(y) == pre.push(cur).to_set().remove(x@).contains(y) by {
                        if strs_view(r@).to_set().contains(y) {
                            assert(pre.to_set().contains(y));
                            assert(pre.contains(y));
                        }
                        if pre.contains(y) {
                            let k = choose|k: int| 0 <= k < pre.len() && pre[k] == y;
                            assert(pre.push(cur)[k] == y);
                        }
                        if pre.push(cur).contains(y) && y != cur {
                            let k = choose|k: int| 0 <= k < pre.push(cur).len() && pre.push(cur)[k] == y;
                            assert(pre[k] == y);
                        }
                    }
                }
                assert forall|k: int| 0 <= k < r@.len() implies pre.push(cur).contains(#[trigger] strs_view(r@)[k]) by {
                    let w = strs_view(r@)[k];
                    let m = choose|m: int| 0 <= m < pre.len() && pre[m] == w;
                    assert(pre.push(cur)[m] == w);
                }
            }
        }
        i = i + 1;
    }
    assert(strs_view(list@).subrange(0, list@.len() as int) =~= strs_view(list@));
    r
}

/// The strings of `list` that are module ids of `tree`, in order.
pub fn list_keep_in_tree(list: &Vec<String>, tree: &crate::types::DependencyTree) -> (r: Vec<String>)
    requires
        strs_view(list@).no_duplicates(),
    ensures
        strs_view(r@).no_duplicates(),
        strs_view(r@).to_set() == strs_view(list@).to_set().intersect(tree@.dom()),
{
    let mut r: Vec<String> = Vec::new();
    let mut i: usize = 0;
    while i < list.len()
        invariant
            i <= list@.len(),
            strs_view(list@).no_duplicates(),
            strs_view(r@).no_duplicates(),
            strs_view(r@).to_set() == strs_view(list@).subrange(0, i as int).to_set().intersect(tree@.dom()),
            forall|k: int| 0 <= k < r@.len() ==> strs_view(list@).subrange(0, i as int).contains(#[trigger] strs_view(r@)[k]),
        decreases list@.len() - i,
    {
        let ghost pre = strs_view(list@).subrange(0, i as int);
        let ghost cur = strs_view(list@)[i as int];
        let ghost before = r@;
        assert(strs_view(list@).subrange(0, i + 1) =~= pre.push(cur));
        assert(!pre.contains(cur)) by {
            if pre.contains(cur) {
                let k = choose|k: int| 0 <= k < pre.len() && pre[k] == cur;
                assert(strs_view(list@)[k] == cur);
            }
        }
        let keep = tree.contains_key(list[i].as_str());
        if keep {
            r.push(list[i].clone());
        }
        proof {
            let pre1 = pre.push(cur);
            assert(strs_view(before).to_set() == pre.to_set().intersect(tree@.dom()));
            if keep {
                assert(strs_view(r@) =~= strs_view(before).push(cur));
                assert(!strs_view(before).contains(cur)) by {
                    if strs_view(before).contains(cur) {
                        let k = choose|k: int| 0 <= k < strs_view(before).len() && strs_view(before)[k] == cur;
                        assert(pre.contains(strs_view(before)[k]));
                    }
                }
            } else {
                assert(strs_view(r@) == strs_view(before));
            }
            assert forall|y| #[trigger] strs_view(r@).to_set().contains(y) == pre1.to_set().intersect(tree@.dom()).contains(y) by {
                if strs_view(before).contains(y) {
                    let k = choose|k: int| 0 <= k < strs_view(before).len() && strs_view(before)[k] == y;
                    assert(strs_view(r@)[k] == y);
                    assert(strs_view(before).to_set().contains(y));
                    assert(pre.to_set().contains(y));
                    let m = choose|m: int| 0 <= m < pre.len() && pre[m] == y;
                    assert(pre1[m] == y);
                }
                if strs_view(r@).contains(y) && y != cur {
                    let k = choose|k: int| 0 <= k < strs_view(r@).len() && strs_view(r@)[k] == y;
                    assert(strs_view(before)[k] == y);
                }
                if pre1.contains(y) && y != cur && tree@.dom().contains(y) {
                    let k = choose|k: int| 0 <= k < pre1.len() && pre1[k] == y;
                    assert(pre[k] == y);
                    assert(pre.to_set().contains(y));
                    assert(strs_view(before).to_set().contains(y));
                    assert(strs_view(before).contains(y));
                    let k2 = choose|k2: int| 0 <= k2 < strs_view(before).len() && strs_view(before)[k2] == y;
                    assert(strs_view(r@)[k2] == y);
                }
                if y == cur {
                    assert(pre1[i as int] == y);
                    if keep {
                        assert(strs_view(r@)[strs_view(before).len() as int] == y);
                    } else {
                        assert(!strs_view(before).contains(y));
                    }
                }
            }
            assert(strs_view(r@).to_set() =~= pre1.to_set().intersect(tree@.dom()));
            assert forall|k: int| 0 <= k < r@.len() implies pre1.contains(#[trigger] strs_view(r@)[k]) by {
                if k < before.len() {
                    assert(strs_view(r@)[k] == strs_view(before)[k]);
                    let w = strs_view(before)[k];
                    let m = choose|m: int| 0 <= m < pre.len() && pre[m] == w;
                    assert(pre1[m] == w);
                } else {
                    assert(pre1[i as int] == cur);
                }
            }
        }
        i = i + 1;
    }
    assert(strs_view(list@).subrange(0, list@.len() as int) =~= strs_view(list@));
    r
}

impl View for StringSetMap {
    type V = Map<Seq<char>, Set<Seq<char>>>;

    /// Each key with the set of its members.
    open spec fn view(&self) -> Self::V {
        self.lists().map_values(|l: Seq<Seq<char>>| l.to_set())
    }
}

} // verus!
