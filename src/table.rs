//! A table from text keys to values: a vector of entries with distinct keys,
//! seen as a map.

use vstd::prelude::*;

verus! {

pub open spec fn keys_distinct<V>(s: Seq<(String, V)>) -> bool {
    forall|i: int, j: int| 0 <= i < j < s.len() ==> s[i].0@ != s[j].0@
}

pub open spec fn has_key<V>(s: Seq<(String, V)>, k: Seq<char>) -> bool {
    exists|i: int| 0 <= i < s.len() && s[i].0@ == k
}

/// The map that entries with distinct keys stand for.
pub open spec fn table_map<V>(s: Seq<(String, V)>) -> Map<Seq<char>, V> {
    Map::new(
        |k: Seq<char>| has_key(s, k),
        |k: Seq<char>| s[choose|i: int| 0 <= i < s.len() && s[i].0@ == k].1,
    )
}

pub proof fn lemma_table_map_at<V>(s: Seq<(String, V)>, i: int)
    requires
        keys_distinct(s),
        0 <= i < s.len(),
    ensures
        table_map(s).contains_key(s[i].0@),
        table_map(s)[s[i].0@] == s[i].1,
{
    let k = s[i].0@;
    assert(has_key(s, k));
    let j = choose|j: int| 0 <= j < s.len() && s[j].0@ == k;
    assert(j == i);
}

pub struct Table<V> {
    entries: Vec<(String, V)>,
}

impl<V> View for Table<V> {
    type V = Map<Seq<char>, V>;

    closed spec fn view(&self) -> Map<Seq<char>, V> {
        table_map(self.entries@)
    }
}

impl<V> Table<V> {
    pub closed spec fn wf(&self) -> bool {
        keys_distinct(self.entries@)
    }

    pub fn new() -> (r: Table<V>)
        ensures
            r.wf(),
            r@ == Map::<Seq<char>, V>::empty(),
    {
        let r = Table { entries: Vec::new() };
        assert(r@ =~= Map::<Seq<char>, V>::empty());
        r
    }

    /// The entries, each key once, in no particular order.
    pub fn entries(&self) -> (r: &Vec<(String, V)>)
        requires
            self.wf(),
        ensures
            keys_distinct(r@),
            table_map(r@) == self@,
    {
        &self.entries
    }

    fn find(&self, key: &String) -> (r: Option<usize>)
        requires
            self.wf(),
        ensures
            match r {
                Some(i) => i < self.entries@.len() && self.entries@[i as int].0@ == key@,
                None => !has_key(self.entries@, key@),
            },
    {
        let mut i: usize = 0;
        while i < self.entries.len()
            invariant
                i <= self.entries@.len(),
                forall|j: int| 0 <= j < i ==> self.entries@[j].0@ != key@,
            decreases self.entries.len() - i,
        {
            if self.entries[i].0 == *key {
                return Some(i);
            }
            i = i + 1;
        }
        None
    }

    pub fn get(&self, key: &String) -> (r: Option<&V>)
        requires
            self.wf(),
        ensures
            match r {
                Some(v) => self@.contains_key(key@) && *v == self@[key@],
                None => !self@.contains_key(key@),
            },
    {
        match self.find(key) {
            Some(i) => {
                proof {
                    lemma_table_map_at(self.entries@, i as int);
                }
                Some(&self.entries[i].1)
            },
            None => None,
        }
    }

    /// Removes `key`; a key that is absent is no error.
    pub fn remove(&mut self, key: &String)
        requires
            old(self).wf(),
        ensures
            final(self).wf(),
            final(self)@ == old(self)@.remove(key@),
    {
        let ghost old_entries = self.entries@;
        match self.find(key) {
            Some(i) => {
                self.entries.remove(i);
                proof {
                    let s = self.entries@;
                    assert forall|j: int| 0 <= j < s.len() implies #[trigger] s[j] == old_entries[if j < i { j } else { j + 1 }] by {}
                    assert(keys_distinct(s)) by {
                        assert forall|a: int, b: int| 0 <= a < b < s.len() implies s[a].0@ != s[b].0@ by {
                            assert(s[a] == old_entries[if a < i { a } else { a + 1 }]);
                            assert(s[b] == old_entries[if b < i { b } else { b + 1 }]);
                        }
                    }
                    assert forall|kk: Seq<char>| has_key(s, kk) <==> has_key(old_entries, kk) && kk != key@ by {
                        if has_key(old_entries, kk) && kk != key@ {
                            let j = choose|j: int| 0 <= j < old_entries.len() && old_entries[j].0@ == kk;
                            assert(j != i);
                            let jj = if j < i { j } else { j - 1 };
                            assert(s[jj] == old_entries[j]);
                        }
                        if has_key(s, kk) {
                            let j = choose|j: int| 0 <= j < s.len() && s[j].0@ == kk;
                            assert(s[j] == old_entries[if j < i { j } else { j + 1 }]);
                        }
                    }
                    assert forall|kk: Seq<char>| #[trigger] table_map(s).contains_key(kk) implies table_map(s)[kk]
                        == old(self)@.remove(key@)[kk] by {
                        let j = choose|j: int| 0 <= j < s.len() && s[j].0@ == kk;
                        lemma_table_map_at(s, j);
                        let oj = if j < i { j } else { j + 1 };
                        assert(s[j] == old_entries[oj]);
                        lemma_table_map_at(old_entries, oj);
                    }
                    assert(table_map(s) =~= old(self)@.remove(key@));
                }
            },
            None => {
                assert(self@ =~= old(self)@.remove(key@));
            },
        }
    }

    /// The keys, each once.
    pub fn keys(&self) -> (r: Vec<String>)
        requires
            self.wf(),
        ensures
            forall|i: int, j: int| 0 <= i < j < r@.len() ==> r@[i]@ != r@[j]@,
            forall|k: Seq<char>| self@.contains_key(k) <==> exists|i: int| 0 <= i < r@.len() && r@[i]@ == k,
    {
        let mut r: Vec<String> = Vec::new();
        let mut i: usize = 0;
        while i < self.entries.len()
            invariant
                i <= self.entries@.len(),
                r@.len() == i,
                keys_distinct(self.entries@),
                forall|j: int| 0 <= j < i ==> #[trigger] r@[j]@ == self.entries@[j].0@,
            decreases self.entries.len() - i,
        {
            r.push(self.entries[i].0.clone());
            i = i + 1;
        }
        proof {
            assert forall|k: Seq<char>| self@.contains_key(k) <==> exists|j: int| 0 <= j < r@.len() && r@[j]@ == k by {
                if self@.contains_key(k) {
                    let j = choose|j: int| 0 <= j < self.entries@.len() && self.entries@[j].0@ == k;
                    assert(r@[j]@ == k);
                }
                if exists|j: int| 0 <= j < r@.len() && r@[j]@ == k {
                    let j = choose|j: int| 0 <= j < r@.len() && r@[j]@ == k;
                    assert(has_key(self.entries@, k));
                }
            }
        }
        r
    }

    /// Sets the value of `key`, replacing any value it had.
    pub fn insert(&mut self, key: String, value: V)
        requires
            old(self).wf(),
        ensures
            final(self).wf(),
            final(self)@ == old(self)@.insert(key@, value),
    {
        let ghost k = key@;
        let ghost old_entries = self.entries@;
        match self.find(&key) {
            Some(i) => {
                self.entries.set(i, (key, value));
                proof {
                    let s = self.entries@;
                    assert(keys_distinct(s)) by {
                        assert forall|a: int, b: int| 0 <= a < b < s.len() implies s[a].0@ != s[b].0@ by {
                            assert(old_entries[a].0@ == s[a].0@ || a == i);
                            assert(old_entries[b].0@ == s[b].0@ || b == i);
                        }
                    }
                    assert forall|kk: Seq<char>| has_key(s, kk) <==> has_key(old_entries, kk) || kk == k by {
                        if has_key(old_entries, kk) {
                            let j = choose|j: int| 0 <= j < old_entries.len() && old_entries[j].0@ == kk;
                            assert(s[j].0@ == kk);
                        }
                        if has_key(s, kk) {
                            let j = choose|j: int| 0 <= j < s.len() && s[j].0@ == kk;
                            assert(old_entries[j].0@ == kk || j == i);
                        }
                        assert(s[i as int].0@ == k);
                    }
                    assert forall|kk: Seq<char>| #[trigger] table_map(s).contains_key(kk) implies table_map(s)[kk]
                        == old(self)@.insert(k, value)[kk] by {
                        let j = choose|j: int| 0 <= j < s.len() && s[j].0@ == kk;
                        lemma_table_map_at(s, j);
                        if j != i {
                            assert(old_entries[j] == s[j]);
                            lemma_table_map_at(old_entries, j);
                        }
                    }
                    assert(table_map(s) =~= old(self)@.insert(k, value));
                }
            },
            None => {
                self.entries.push((key, value));
                proof {
                    let s = self.entries@;
                    let n = old_entries.len() as int;
                    assert forall|kk: Seq<char>| has_key(s, kk) <==> has_key(old_entries, kk) || kk == k by {
                        if has_key(old_entries, kk) {
                            let j = choose|j: int| 0 <= j < old_entries.len() && old_entries[j].0@ == kk;
                            assert(s[j] == old_entries[j]);
                        }
                        if has_key(s, kk) {
                            let j = choose|j: int| 0 <= j < s.len() && s[j].0@ == kk;
                            if j < n {
                                assert(s[j] == old_entries[j]);
                            }
                        }
                        assert(s[n].0@ == k);
                    }
                    assert(keys_distinct(s)) by {
                        assert forall|a: int, b: int| 0 <= a < b < s.len() implies s[a].0@ != s[b].0@ by {
                            if b == n {
                                assert(s[a] == old_entries[a]);
                            } else {
                                assert(s[a] == old_entries[a]);
                                assert(s[b] == old_entries[b]);
                            }
                        }
                    }
                    assert forall|kk: Seq<char>| #[trigger] table_map(s).contains_key(kk) implies table_map(s)[kk]
                        == old(self)@.insert(k, value)[kk] by {
                        let j = choose|j: int| 0 <= j < s.len() && s[j].0@ == kk;
                        lemma_table_map_at(s, j);
                        if j != n {
                            assert(old_entries[j] == s[j]);
                            lemma_table_map_at(old_entries, j);
                        }
                    }
                    assert(table_map(s) =~= old(self)@.insert(k, value));
                }
            },
        }
    }
}

} // verus!
