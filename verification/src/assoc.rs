//! A small map keyed by strings, kept as a list of entries with distinct keys
//! in insertion order.

use vstd::prelude::*;

use crate::text::str_eq;

verus! {

pub struct Assoc<V> {
    entries: Vec<(String, V)>,
}

impl<V> Assoc<V> {
    /// The entries, in insertion order.
    pub closed spec fn entries(&self) -> Seq<(String, V)> {
        self.entries@
    }

    /// The keys, in insertion order.
    pub open spec fn key_seq(&self) -> Seq<Seq<char>> {
        self.entries().map_values(|e: (String, V)| e.0@)
    }

    /// No key occurs twice.
    pub open spec fn wf(&self) -> bool {
        self.key_seq().no_duplicates()
    }

    pub open spec fn has(&self, k: Seq<char>) -> bool {
        exists|i: int| 0 <= i < self.entries().len() && #[trigger] self.entries()[i].0@ == k
    }

    /// Position of key `k` (meaningful when `has(k)`).
    pub open spec fn pos(&self, k: Seq<char>) -> int {
        choose|i: int| 0 <= i < self.entries().len() && #[trigger] self.entries()[i].0@ == k
    }

    /// The value stored under `k`.
    pub open spec fn at(&self, k: Seq<char>) -> V {
        self.entries()[self.pos(k)].1
    }

    /// The map this list stands for.
    pub open spec fn map(&self) -> Map<Seq<char>, V> {
        Map::new(|k: Seq<char>| self.has(k), |k: Seq<char>| self.at(k))
    }

    pub proof fn lemma_pos(&self, i: int)
        requires
            self.wf(),
            0 <= i < self.entries().len(),
        ensures
            self.has(self.entries()[i].0@),
            self.pos(self.entries()[i].0@) == i,
            self.map().contains_key(self.entries()[i].0@),
            self.map()[self.entries()[i].0@] == self.entries()[i].1,
    {
        let k = self.entries()[i].0@;
        assert(self.key_seq()[i] == k);
        let p = self.pos(k);
        assert(self.key_seq()[p] == k);
    }

    pub fn new() -> (r: Assoc<V>)
        ensures
            r.entries() == Seq::<(String, V)>::empty(),
            r.wf(),
            r.map() == Map::<Seq<char>, V>::empty(),
    {
        let r = Assoc { entries: Vec::new() };
        assert(r.map() =~= Map::<Seq<char>, V>::empty());
        assert(r.key_seq() =~= Seq::<Seq<char>>::empty());
        r
    }

    pub fn len(&self) -> (n: usize)
        ensures
            n == self.entries().len(),
    {
        self.entries.len()
    }

    /// Key of entry `i`.
    pub fn key_at(&self, i: usize) -> (k: &String)
        requires
            i < self.entries().len(),
        ensures
            *k == self.entries()[i as int].0,
    {
        &self.entries[i].0
    }

    /// Value of entry `i`.
    pub fn value_at(&self, i: usize) -> (v: &V)
        requires
            i < self.entries().len(),
        ensures
            *v == self.entries()[i as int].1,
    {
        &self.entries[i].1
    }

    /// Position of `k`, if present.
    pub fn find(&self, k: &str) -> (r: Option<usize>)
        requires
            self.wf(),
        ensures
            r is Some <==> self.has(k@),
            r matches Some(i) ==> i < self.entries().len() && self.entries()[i as int].0@ == k@
                && self.pos(k@) == i,
    {
        let mut i: usize = 0;
        while i < self.entries.len()
            invariant
                i <= self.entries().len(),
                self.wf(),
                forall|j: int| 0 <= j < i ==> #[trigger] self.entries()[j].0@ != k@,
            decreases self.entries().len() - i,
        {
            if str_eq(self.entries[i].0.as_str(), k) {
                proof {
                    self.lemma_pos(i as int);
                }
                return Some(i);
            }
            i = i + 1;
        }
        None
    }

    /// The value stored under `k`.
    pub fn get(&self, k: &str) -> (r: Option<&V>)
        requires
            self.wf(),
        ensures
            r is Some <==> self.map().contains_key(k@),
            r matches Some(v) ==> *v == self.map()[k@],
    {
        match self.find(k) {
            Some(i) => Some(&self.entries[i].1),
            None => None,
        }
    }

    /// Store `v` under `k`, replacing any earlier value (in place).
    pub fn insert(&mut self, k: String, v: V)
        requires
            old(self).wf(),
        ensures
            final(self).wf(),
            final(self).map() == old(self).map().insert(k@, v),
            old(self).has(k@) ==> final(self).key_seq() == old(self).key_seq(),
            !old(self).has(k@) ==> final(self).key_seq() == old(self).key_seq().push(k@),
    {
        let ghost old_self = *self;
        match self.find(k.as_str()) {
            Some(i) => {
                self.entries.set(i, (k, v));
                proof {
                    assert(self.key_seq() =~= old_self.key_seq());
                    assert forall|q: Seq<char>| #[trigger]
                        self.map().contains_key(q) == old_self.map().insert(k@, v).contains_key(q) by {
                        if old_self.has(q) {
                            let j = old_self.pos(q);
                            assert(self.entries()[j].0@ == q);
                        }
                        if self.has(q) {
                            let j = self.pos(q);
                            if j != i {
                                assert(old_self.entries()[j].0@ == q);
                            }
                        }
                    }
                    assert forall|q: Seq<char>| #[trigger] self.map().contains_key(q) implies self.map()[q]
                        == old_self.map().insert(k@, v)[q] by {
                        let j = self.pos(q);
                        self.lemma_pos(j);
                        if q != k@ {
                            assert(old_self.entries()[j].0@ == q);
                            old_self.lemma_pos(j);
                        } else {
                            self.lemma_pos(i as int);
                        }
                    }
                    assert(self.map() =~= old_self.map().insert(k@, v));
                }
            },
            None => {
                self.entries.push((k, v));
                proof {
                    assert(self.key_seq() =~= old_self.key_seq().push(k@));
                    let n: int = old_self.entries().len() as int;
                    assert forall|q: Seq<char>| #[trigger]
                        self.map().contains_key(q) == old_self.map().insert(k@, v).contains_key(q) by {
                        if old_self.has(q) {
                            let j = old_self.pos(q);
                            assert(self.entries()[j].0@ == q);
                        }
                        if self.has(q) {
                            let j = self.pos(q);
                            if j != n {
                                assert(old_self.entries()[j].0@ == q);
                            }
                        }
                        if q == k@ {
                            assert(self.entries()[n].0@ == q);
                        }
                    }
                    assert forall|q: Seq<char>| #[trigger] self.map().contains_key(q) implies self.map()[q]
                        == old_self.map().insert(k@, v)[q] by {
                        let j = self.pos(q);
                        self.lemma_pos(j);
                        if q != k@ {
                            assert(old_self.entries()[j].0@ == q);
                            old_self.lemma_pos(j);
                        } else {
                            self.lemma_pos(n);
                        }
                    }
                    assert(self.map() =~= old_self.map().insert(k@, v));
                }
            },
        }
    }
}

impl Assoc<String> {
    /// A copy of this map.
    pub fn duplicate(&self) -> (r: Assoc<String>)
        ensures
            r.entries() == self.entries(),
    {
        let mut entries: Vec<(String, String)> = Vec::new();
        let mut i: usize = 0;
        while i < self.entries.len()
            invariant
                i <= self.entries@.len(),
                entries@ == self.entries@.take(i as int),
            decreases self.entries@.len() - i,
        {
            let e = (self.entries[i].0.clone(), self.entries[i].1.clone());
            entries.push(e);
            i = i + 1;
            assert(entries@ =~= self.entries@.take(i as int));
        }
        assert(self.entries@.take(i as int) =~= self.entries@);
        Assoc { entries }
    }
}

} // verus!
