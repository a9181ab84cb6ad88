use vstd::prelude::*;

verus! {

/// The map that a list of (key, value) entries denotes.
pub open spec fn pairs_map<V>(s: Seq<(String, V)>) -> Map<Seq<char>, V>
    decreases s.len(),
{
    if s.len() == 0 {
        Map::empty()
    } else {
        pairs_map(s.drop_last()).insert(s.last().0@, s.last().1)
    }
}

/// No key occurs twice.
pub open spec fn keys_unique<V>(s: Seq<(String, V)>) -> bool {
    forall|i: int, j: int| 0 <= i < j < s.len() ==> s[i].0@ != s[j].0@
}

/// The keys of the map are the keys of the entries.
pub proof fn lemma_pairs_map_dom<V>(s: Seq<(String, V)>, k: Seq<char>)
    ensures
        pairs_map(s).dom().contains(k) <==> exists|i: int| 0 <= i < s.len() && s[i].0@ == k,
    decreases s.len(),
{
    if s.len() > 0 {
        lemma_pairs_map_dom(s.drop_last(), k);
        if pairs_map(s).dom().contains(k) && k != s.last().0@ {
            let i = choose|i: int| 0 <= i < s.len() - 1 && s.drop_last()[i].0@ == k;
            assert(s[i].0@ == k);
        }
        if exists|i: int| 0 <= i < s.len() && s[i].0@ == k {
            let i = choose|i: int| 0 <= i < s.len() && s[i].0@ == k;
            if i < s.len() - 1 {
                assert(s.drop_last()[i].0@ == k);
            }
        }
    }
}

pub proof fn lemma_pairs_map_value<V>(s: Seq<(String, V)>, i: int)
    requires
        keys_unique(s),
        0 <= i < s.len(),
    ensures
        pairs_map(s).dom().contains(s[i].0@),
        pairs_map(s)[s[i].0@] == s[i].1,
    decreases s.len(),
{
    if i < s.len() - 1 {
        let t = s.drop_last();
        assert(keys_unique(t));
        assert(t[i] == s[i]);
        lemma_pairs_map_value(t, i);
    }
}

/// A small map from texts to values, kept as a list of entries with
/// distinct keys in the order they were first inserted.
pub struct TextMap<V> {
    pub entries: Vec<(String, V)>,
}

impl<T> View for TextMap<T> {
    type V = Map<Seq<char>, T>;

    open spec fn view(&self) -> Map<Seq<char>, T> {
        pairs_map(self.entries@)
    }
}

impl<V: Copy> TextMap<V> {
    /// No key is stored twice.
    pub open spec fn wf(&self) -> bool {
        keys_unique(self.entries@)
    }

    /// The empty map.
    pub fn new() -> (m: TextMap<V>)
        ensures
            m.wf(),
            m@ == Map::<Seq<char>, V>::empty(),
    {
        TextMap { entries: Vec::new() }
    }

    /// The position of `key` among the entries.
    fn position(&self, key: &String) -> (r: Option<usize>)
        ensures
            match r {
                Some(p) => p < self.entries@.len() && self.entries@[p as int].0@ == key@,
                None => forall|i: int| 0 <= i < self.entries@.len() ==> self.entries@[i].0@ != key@,
            },
    {
        let mut i: usize = 0;
        while i < self.entries.len()
            invariant
                i <= self.entries@.len(),
                forall|j: int| 0 <= j < i ==> self.entries@[j].0@ != key@,
            decreases self.entries.len() - i,
        {
            if self.entries[i].0 == *key {
                return Some(i);
            }
            i = i + 1;
        }
        None
    }

    /// The value stored under `key`, if any.
    pub fn get(&self, key: &String) -> (r: Option<V>)
        requires
            self.wf(),
        ensures
            match r {
                Some(v) => self@.dom().contains(key@) && self@[key@] == v,
                None => !self@.dom().contains(key@),
            },
    {
        proof {
            lemma_pairs_map_dom(self.entries@, key@);
        }
        match self.position(key) {
            Some(p) => {
                proof {
                    lemma_pairs_map_value(self.entries@, p as int);
                }
                Some(self.entries[p].1)
            },
            None => None,
        }
    }

    /// Stores `value` under `key`, replacing the value that was there.
    pub fn insert(&mut self, key: String, value: V)
        requires
            old(self).wf(),
        ensures
            final(self).wf(),
            final(self)@ == old(self)@.insert(key@, value),
    {
        let ghost k = key@;
        let ghost before = self.entries@;
        match self.position(&key) {
            Some(p) => {
                self.entries.set(p, (key, value));
                proof {
                    let after = self.entries@;
                    assert(keys_unique(after));
                    assert forall|kk: Seq<char>|
                        pairs_map(after).dom().contains(kk) == pairs_map(before).insert(k, value).dom().contains(kk)
                    by {
                        lemma_pairs_map_dom(after, kk);
                        lemma_pairs_map_dom(before, kk);
                        if kk == k {
                            assert(after[p as int].0@ == kk);
                        } else if pairs_map(before).dom().contains(kk) {
                            let i = choose|i: int| 0 <= i < before.len() && before[i].0@ == kk;
                            assert(after[i].0@ == kk);
                        } else if pairs_map(after).dom().contains(kk) {
                            let i = choose|i: int| 0 <= i < after.len() && after[i].0@ == kk;
                            assert(before[i].0@ == kk);
                        }
                    }
                    assert forall|kk: Seq<char>| #[trigger] pairs_map(after).dom().contains(kk)
                        implies pairs_map(after)[kk] == pairs_map(before).insert(k, value)[kk]
                    by {
                        lemma_pairs_map_dom(after, kk);
                        let i = choose|i: int| 0 <= i < after.len() && after[i].0@ == kk;
                        lemma_pairs_map_value(after, i);
                        if i != p {
                            lemma_pairs_map_value(before, i);
                        }
                    }
                    assert(pairs_map(after) =~= pairs_map(before).insert(k, value));
                }
            },
            None => {
                self.entries.push((key, value));
                proof {
                    let after = self.entries@;
                    assert(after.drop_last() =~= before);
                    assert(keys_unique(after));
                }
            },
        }
    }

    /// Drops the entry of `key`, if there is one.
    pub fn remove(&mut self, key: &String)
        requires
            old(self).wf(),
        ensures
            final(self).wf(),
            final(self)@ == old(self)@.remove(key@),
    {
        let ghost k = key@;
        let ghost before = self.entries@;
        match self.position(key) {
            Some(p) => {
                self.entries.remove(p);
                proof {
                    let after = self.entries@;
                    assert(after =~= before.remove(p as int));
                    assert forall|i: int, j: int| 0 <= i < j < after.len() implies after[i].0@ != after[j].0@ by {
                        let bi = if i < p { i } else { i + 1 };
                        let bj = if j < p { j } else { j + 1 };
                        assert(after[i] == before[bi]);
                        assert(after[j] == before[bj]);
                    }
                    assert forall|kk: Seq<char>|
                        pairs_map(after).dom().contains(kk) == pairs_map(before).remove(k).dom().contains(kk)
                    by {
                        lemma_pairs_map_dom(after, kk);
                        lemma_pairs_map_dom(before, kk);
                        if pairs_map(before).dom().contains(kk) && kk != k {
                            let i = choose|i: int| 0 <= i < before.len() && before[i].0@ == kk;
                            assert(i != p);
                            let ai = if i < p { i } else { i - 1 };
                            assert(after[ai] == before[i]);
                        }
                        if pairs_map(after).dom().contains(kk) {
                            let i = choose|i: int| 0 <= i < after.len() && after[i].0@ == kk;
                            let bi = if i < p { i } else { i + 1 };
                            assert(after[i] == before[bi]);
                            assert(bi != p);
                        }
                    }
                    assert forall|kk: Seq<char>| #[trigger] pairs_map(after).dom().contains(kk)
                        implies pairs_map(after)[kk] == pairs_map(before).remove(k)[kk]
                    by {
                        lemma_pairs_map_dom(after, kk);
                        let i = choose|i: int| 0 <= i < after.len() && after[i].0@ == kk;
                        let bi = if i < p { i } else { i + 1 };
                        assert(after[i] == before[bi]);
                        lemma_pairs_map_value(after, i);
                        lemma_pairs_map_value(before, bi);
                    }
                    assert(pairs_map(after) =~= pairs_map(before).remove(k));
                }
            },
            None => {
                proof {
                    lemma_pairs_map_dom(before, k);
                    assert(pairs_map(before).remove(k) =~= pairs_map(before));
                }
            },
        }
    }
}

} // verus!

