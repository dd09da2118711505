//! A map keyed by strings, kept as a list of distinct keys in insertion order.
use vstd::prelude::*;
use crate::setmap::{assoc_keys, assoc_map, lemma_assoc_map};

verus! {

/// A map from strings to values; keys are distinct and keep the order in
/// which they were first inserted.
#[derive(Debug)]
pub struct StrMap<V> {
    entries: Vec<(String, V)>,
}

impl<V> StrMap<V> {
    /// The pairs, keys taken by their text, in order.
    pub closed spec fn pairs(self) -> Seq<(Seq<char>, V)> {
        self.entries@.map_values(|e: (String, V)| (e.0@, e.1))
    }

    /// The keys, in order.
    pub open spec fn key_list(self) -> Seq<Seq<char>> {
        assoc_keys(self.pairs())
    }

    /// Keys are distinct.
    #[verifier::type_invariant]
    pub open spec fn well_formed(self) -> bool {
        self.key_list().no_duplicates()
    }

    /// Facts that hold of every well-formed map.
    pub proof fn lemma_view(m: Self)
        requires
            m.well_formed(),
        ensures
            m@.dom() == m.key_list().to_set(),
            forall|i: int| 0 <= i < m.pairs().len() ==> #[trigger] m@[m.pairs()[i].0] == m.pairs()[i].1,
            m@.dom().finite(),
            m@.dom().len() == m.pairs().len(),
    {
        lemma_assoc_map(m.pairs());
        m.key_list().unique_seq_to_set();
    }

    /// An empty map.
    pub fn new() -> (m: Self)
        ensures
            m@ == Map::<Seq<char>, V>::empty(),
    {
        let m = StrMap { entries: Vec::new() };
        assert(m.pairs() =~= Seq::<(Seq<char>, V)>::empty());
        m
    }

    /// The position of `key`, if present.
    fn find(&self, key: &str) -> (r: Option<usize>)
        ensures
            match r {
                Some(i) => i < self.pairs().len() && self.pairs()[i as int].0 == key@,
                None => !self.key_list().contains(key@),
            },
    {
        let mut i: usize = 0;
        while i < self.entries.len()
            invariant
                i <= self.entries@.len(),
                self.pairs().len() == self.entries@.len(),
                forall|j: int| 0 <= j < i ==> self.pairs()[j].0 != key@,
            decreases self.entries@.len() - i,
        {
            if crate::text::str_eq(self.entries[i].0.as_str(), key) {
                return Some(i);
            }
            i = i + 1;
        }
        proof {
            assert forall|j: int| 0 <= j < self.key_list().len() implies self.key_list()[j] != key@ by {
                assert(self.key_list()[j] == self.pairs()[j].0);
            }
        }
        None
    }

    /// The value of `key`, if present.
    pub fn get(&self, key: &str) -> (r: Option<&V>)
        ensures
            match r {
                Some(v) => self@.contains_key(key@) && self@[key@] == *v,
                None => !self@.contains_key(key@),
            },
    {
        proof {
            use_type_invariant(self);
            Self::lemma_view(*self);
        }
        match self.find(key) {
            Some(i) => {
                assert(self.pairs()[i as int] == (self.entries@[i as int].0@, self.entries@[i as int].1));
                assert(self.key_list()[i as int] == key@);
                assert(self.key_list().to_set().contains(key@));
                Some(&self.entries[i].1)
            },
            None => {
                assert(!self.key_list().to_set().contains(key@));
                None
            },
        }
    }

    /// Whether `key` is present.
    pub fn contains_key(&self, key: &str) -> (b: bool)
        ensures
            b == self@.contains_key(key@),
    {
        proof {
            use_type_invariant(self);
            Self::lemma_view(*self);
        }
        match self.find(key) {
            Some(i) => {
                assert(self.key_list()[i as int] == key@);
                assert(self.key_list().to_set().contains(key@));
                true
            },
            None => {
                assert(!self.key_list().to_set().contains(key@));
                false
            },
        }
    }

    /// The number of keys.
    pub fn len(&self) -> (n: usize)
        ensures
            n == self@.dom().len(),
    {
        proof {
            use_type_invariant(self);
            Self::lemma_view(*self);
        }
        self.entries.len()
    }

    /// Sets the value of `key`; a present key keeps its place.
    pub fn insert(&mut self, key: String, value: V)
        ensures
            final(self)@ == old(self)@.insert(key@, value),
    {
        proof {
            use_type_invariant(&*self);
            Self::lemma_view(*self);
        }
        let ghost p0 = self.pairs();
        match self.find(key.as_str()) {
            Some(i) => {
                let mut es: Vec<(String, V)> = Vec::new();
                std::mem::swap(&mut es, &mut self.entries);
                let ghost ev = (key@, value);
                es.set(i, (key, value));
                let ghost p1 = es@.map_values(|e: (String, V)| (e.0@, e.1));
                proof {
                    assert(p1 =~= p0.update(i as int, ev));
                    assert(assoc_keys(p1) =~= assoc_keys(p0));
                    lemma_assoc_map(p1);
                    assert forall|k: Seq<char>| #[trigger] assoc_map(p1).contains_key(k) == old(self)@.insert(ev.0, ev.1).contains_key(k) by {
                        assert(assoc_keys(p1).to_set() == assoc_keys(p0).to_set());
                        if k == ev.0 {
                            assert(assoc_keys(p0)[i as int] == k);
                        }
                    }
                    assert forall|k: Seq<char>| #[trigger] assoc_map(p1).contains_key(k) implies assoc_map(p1)[k] == old(self)@.insert(ev.0, ev.1)[k] by {
                        assert(assoc_keys(p1).to_set().contains(k));
                        let j = choose|j: int| 0 <= j < assoc_keys(p1).len() && assoc_keys(p1)[j] == k;
                        assert(assoc_map(p1)[p1[j].0] == p1[j].1);
                        if j != i {
                            assert(p1[j] == p0[j]);
                            assert(assoc_keys(p0)[j] != assoc_keys(p0)[i as int]);
                            assert(k != ev.0);
                            assert(assoc_map(p0)[p0[j].0] == p0[j].1);
                        } else {
                            assert(p1[j] == ev);
                        }
                    }
                    assert(assoc_map(p1) =~= old(self)@.insert(ev.0, ev.1));
                }
                self.entries = es;
            },
            None => {
                let mut es: Vec<(String, V)> = Vec::new();
                std::mem::swap(&mut es, &mut self.entries);
                let ghost ev = (key@, value);
                es.push((key, value));
                let ghost p1 = es@.map_values(|e: (String, V)| (e.0@, e.1));
                proof {
                    assert(p1 =~= p0.push(ev));
                    assert(assoc_keys(p1) =~= assoc_keys(p0).push(ev.0));
                    assert(p1.drop_last() =~= p0);
                    assert(assoc_map(p1) == assoc_map(p0).insert(ev.0, ev.1));
                    assert(assoc_keys(p1).no_duplicates()) by {
                        assert forall|a: int, b: int| 0 <= a < b < assoc_keys(p1).len() implies assoc_keys(p1)[a] != assoc_keys(p1)[b] by {
                            if b == assoc_keys(p1).len() - 1 {
                                assert(assoc_keys(p0)[a] == assoc_keys(p1)[a]);
                            } else {
                                assert(assoc_keys(p0)[a] == assoc_keys(p1)[a]);
                                assert(assoc_keys(p0)[b] == assoc_keys(p1)[b]);
                            }
                        }
                    }
                }
                self.entries = es;
            },
        }
    }

    /// Removes `key` and its value, if present.
    pub fn remove(&mut self, key: &str)
        ensures
            final(self)@ == old(self)@.remove(key@),
    {
        proof {
            use_type_invariant(&*self);
            Self::lemma_view(*self);
        }
        let ghost p0 = self.pairs();
        match self.find(key) {
            Some(i) => {
                let mut es: Vec<(String, V)> = Vec::new();
                std::mem::swap(&mut es, &mut self.entries);
                let _removed = es.remove(i);
                let ghost p1 = es@.map_values(|e: (String, V)| (e.0@, e.1));
                proof {
                    assert(p1 =~= p0.remove(i as int));
                    assert(assoc_keys(p1) =~= assoc_keys(p0).remove(i as int));
                    assert(assoc_keys(p1).no_duplicates()) by {
                        assert forall|a: int, b: int| 0 <= a < b < assoc_keys(p1).len() implies assoc_keys(p1)[a] != assoc_keys(p1)[b] by {
                            let a0 = if a < i { a } else { a + 1 };
                            let b0 = if b < i { b } else { b + 1 };
                            assert(assoc_keys(p1)[a] == assoc_keys(p0)[a0]);
                            assert(assoc_keys(p1)[b] == assoc_keys(p0)[b0]);
                        }
                    }
                    lemma_assoc_map(p1);
                    assert forall|k: Seq<char>| #[trigger] assoc_map(p1).contains_key(k) == old(self)@.remove(key@).contains_key(k) by {
                        if assoc_map(p1).contains_key(k) {
                            let j = choose|j: int| 0 <= j < assoc_keys(p1).len() && assoc_keys(p1)[j] == k;
                            let j0 = if j < i { j } else { j + 1 };
                            assert(assoc_keys(p0)[j0] == k);
                            assert(j0 != i);
                            assert(assoc_keys(p0)[i as int] == key@);
                        }
                        if old(self)@.remove(key@).contains_key(k) {
                            let j0 = choose|j: int| 0 <= j < assoc_keys(p0).len() && assoc_keys(p0)[j] == k;
                            assert(j0 != i);
                            let j = if j0 < i { j0 } else { j0 - 1 };
                            assert(assoc_keys(p1)[j] == k);
                        }
                    }
                    assert forall|k: Seq<char>| #[trigger] assoc_map(p1).contains_key(k) implies assoc_map(p1)[k] == old(self)@.remove(key@)[k] by {
                        let j = choose|j: int| 0 <= j < assoc_keys(p1).len() && assoc_keys(p1)[j] == k;
                        let j0 = if j < i { j } else { j + 1 };
                        assert(p1[j] == p0[j0]);
                        assert(assoc_map(p1)[p1[j].0] == p1[j].1);
                        assert(assoc_map(p0)[p0[j0].0] == p0[j0].1);
                    }
                    assert(assoc_map(p1) =~= old(self)@.remove(key@));
                }
                self.entries = es;
            },
            None => {
                assert(old(self)@.remove(key@) =~= old(self)@);
            },
        }
    }

    /// The keys, in order.
    pub fn keys(&self) -> (r: Vec<String>)
        ensures
            crate::types::strs_view(r@) == self.key_list(),
            crate::types::strs_view(r@).to_set() == self@.dom(),
    {
        proof {
            use_type_invariant(self);
            Self::lemma_view(*self);
        }
        let mut out: Vec<String> = Vec::new();
        let mut i: usize = 0;
        while i < self.entries.len()
            invariant
                i <= self.entries@.len(),
                self.pairs().len() == self.entries@.len(),
                crate::types::strs_view(out@) == self.key_list().subrange(0, i as int),
            decreases self.entries@.len() - i,
        {
            let k = crate::text::owned(self.entries[i].0.as_str());
            let ghost o0 = crate::types::strs_view(out@);
            out.push(k);
            proof {
                assert(self.key_list()[i as int] == self.pairs()[i as int].0);
                assert(crate::types::strs_view(out@) =~= o0.push(k@));
                assert(self.key_list().subrange(0, i + 1) =~= self.key_list().subrange(0, i as int).push(self.key_list()[i as int]));
            }
            i = i + 1;
        }
        assert(self.key_list().subrange(0, self.entries@.len() as int) =~= self.key_list());
        out
    }

    /// Removes every key.
    pub fn clear(&mut self)
        ensures
            final(self)@ == Map::<Seq<char>, V>::empty(),
    {
        self.entries = Vec::new();
        assert(self.pairs() =~= Seq::<(Seq<char>, V)>::empty());
    }
}

impl<V> View for StrMap<V> {
    type V = Map<Seq<char>, V>;

    /// Each key, by its text, with its value.
    open spec fn view(&self) -> Self::V {
        assoc_map(self.pairs())
    }
}

} // verus!
