use vstd::prelude::*;

verus! {

/// A map from strings to values, kept as a list of entries with distinct
/// keys; its view is a `Map` from key to the value's view.
pub struct StrMap<V> {
    entries: Vec<(String, V)>,
}

impl<V: View> StrMap<V> {
    pub closed spec fn keys(&self) -> Seq<Seq<char>> {
        self.entries@.map_values(|e: (String, V)| e.0@)
    }

    pub closed spec fn wf(&self) -> bool {
        self.keys().no_duplicates()
    }

    pub closed spec fn map(&self) -> Map<Seq<char>, V::V> {
        Map::new(|k: Seq<char>| self.keys().contains(k), |k: Seq<char>| self.entries@[self.keys().index_of(k)].1@)
    }

    pub fn new() -> (m: StrMap<V>)
        ensures
            m.wf(),
            m.map() == Map::<Seq<char>, V::V>::empty(),
    {
        let m = StrMap { entries: Vec::new() };
        proof {
            assert(m.map() =~= Map::<Seq<char>, V::V>::empty());
        }
        m
    }

    fn find(&self, key: &str) -> (r: Option<usize>)
        ensures
            r matches Some(i) ==> i < self.entries@.len() && self.keys()[i as int] == key@,
            r is None ==> !self.keys().contains(key@),
    {
        let target = key.to_owned();
        let mut i: usize = 0;
        while i < self.entries.len()
            invariant
                i <= self.entries@.len(),
                target@ == key@,
                forall|k: int| 0 <= k < i ==> self.keys()[k] != key@,
            decreases self.entries@.len() - i,
        {
            if self.entries[i].0 == target {
                return Some(i);
            }
            i = i + 1;
        }
        None
    }

    /// Whether `key` has a value.
    pub fn contains_key(&self, key: &str) -> (b: bool)
        requires
            self.wf(),
        ensures
            b == self.map().contains_key(key@),
    {
        self.find(key).is_some()
    }

    /// The value of `key`, if any.
    pub fn get(&self, key: &str) -> (r: Option<&V>)
        requires
            self.wf(),
        ensures
            r matches Some(v) ==> self.map().contains_key(key@) && v@ == self.map()[key@],
            r is None ==> !self.map().contains_key(key@),
    {
        match self.find(key) {
            Some(i) => {
                proof {
                    assert(self.keys().contains(key@));
                    let j = self.keys().index_of(key@);
                    assert(self.keys()[j] == key@);
                    assert(j == i);
                }
                Some(&self.entries[i].1)
            },
            None => None,
        }
    }

    /// Takes the value of `key` out of the map.
    pub fn remove(&mut self, key: &str) -> (r: Option<V>)
        requires
            old(self).wf(),
        ensures
            final(self).wf(),
            final(self).map() == old(self).map().remove(key@),
            r matches Some(v) ==> old(self).map().contains_key(key@) && v@ == old(self).map()[key@],
            r is None ==> !old(self).map().contains_key(key@),
    {
        let ghost before = self.keys();
        let ghost old_map = self.map();
        match self.find(key) {
            Some(i) => {
                proof {
                    assert(before.contains(key@));
                    assert(before[before.index_of(key@)] == key@);
                    assert(before.index_of(key@) == i);
                }
                let (_, v) = self.entries.remove(i);
                proof {
                    assert(self.keys() =~= before.remove(i as int));
                    assert(self.map() =~= old_map.remove(key@)) by {
                        assert forall|k: Seq<char>| self.keys().contains(k) <==> #[trigger] old_map.remove(key@).contains_key(k) by {
                            if self.keys().contains(k) {
                                let j = choose|j: int| 0 <= j < self.keys().len() && self.keys()[j] == k;
                                if j < i {
                                    assert(before[j] == k);
                                } else {
                                    assert(before[j + 1] == k);
                                }
                            }
                            if before.contains(k) && k != key@ {
                                let j = choose|j: int| 0 <= j < before.len() && before[j] == k;
                                if j < i {
                                    assert(self.keys()[j] == k);
                                } else {
                                    assert(j != i);
                                    assert(self.keys()[j - 1] == k);
                                }
                            }
                        }
                        assert forall|k: Seq<char>| #[trigger] self.map().contains_key(k) implies self.map()[k]
                            == old_map.remove(key@)[k] by {
                            let j = self.keys().index_of(k);
                            assert(self.keys()[j] == k);
                            let bj = if j < i { j } else { j + 1 };
                            assert(before[bj] == k);
                            assert(before.index_of(k) == bj);
                        }
                    }
                }
                Some(v)
            },
            None => {
                proof {
                    assert(old_map.remove(key@) =~= old_map);
                }
                None
            },
        }
    }

    /// Sets the value of `key`, replacing an earlier one.
    pub fn insert(&mut self, key: String, value: V)
        requires
            old(self).wf(),
        ensures
            final(self).wf(),
            final(self).map() == old(self).map().insert(key@, value@),
    {
        let ghost k0 = key@;
        let ghost v0 = value@;
        let ghost old_map = self.map();
        let _ = self.remove(key.as_str());
        let ghost mid = self.keys();
        let ghost mid_map = self.map();
        let ghost mid_entries = self.entries@;
        proof {
            assert(mid_map == old_map.remove(k0));
            assert(!mid_map.contains_key(k0));
            assert(!mid.contains(k0));
        }
        self.entries.push((key, value));
        proof {
            assert(self.entries@ == mid_entries.push((key, value)));
            assert(self.keys() =~= mid.push(k0));
            assert(self.wf()) by {
                assert forall|a: int, b: int| 0 <= a < b < self.keys().len() implies self.keys()[a] != self.keys()[b] by {
                    if b == mid.len() {
                        assert(mid.contains(mid[a]));
                    } else {
                        assert(mid[a] != mid[b]);
                    }
                }
            }
            assert(self.map() =~= old_map.insert(k0, v0)) by {
                assert forall|k: Seq<char>| self.keys().contains(k) <==> #[trigger] old_map.insert(k0, v0).contains_key(k) by {
                    if mid.contains(k) {
                        let j = choose|j: int| 0 <= j < mid.len() && mid[j] == k;
                        assert(self.keys()[j] == k);
                    }
                    if self.keys().contains(k) && k != k0 {
                        let j = choose|j: int| 0 <= j < self.keys().len() && self.keys()[j] == k;
                        assert(mid[j] == k);
                    }
                    if k == k0 {
                        assert(self.keys()[mid.len() as int] == k0);
                    }
                    assert(mid.contains(k) == mid_map.contains_key(k));
                }
                assert forall|k: Seq<char>| #[trigger] self.map().contains_key(k) implies self.map()[k]
                    == old_map.insert(k0, v0)[k] by {
                    let j = self.keys().index_of(k);
                    assert(self.keys()[j] == k);
                    if k == k0 {
                        if j < mid.len() {
                            assert(mid[j] == k0);
                        }
                        assert(j == mid.len());
                    } else {
                        if j == mid.len() {
                            assert(self.keys()[j] == k0);
                        }
                        assert(j < mid.len());
                        assert(mid[j] == k);
                        assert(mid.contains(k));
                        assert(mid.index_of(k) == j) by {
                            let m = mid.index_of(k);
                            assert(mid[m] == k);
                        }
                        assert(mid_map[k] == mid_entries[j].1@);
                        assert(self.entries@[j] == mid_entries[j]);
                    }
                }
            }
        }
    }

    /// The keys, in the map's own order.
    pub fn key_list(&self) -> (ks: Vec<String>)
        ensures
            ks@.map_values(|s: String| s@) == self.keys(),
            self.wf() ==> ks@.map_values(|s: String| s@).no_duplicates(),
            forall|k: Seq<char>| ks@.map_values(|s: String| s@).contains(k) <==> #[trigger] self.map().contains_key(k),
    {
        let mut ks: Vec<String> = Vec::new();
        let mut i: usize = 0;
        while i < self.entries.len()
            invariant
                i <= self.entries@.len(),
                ks@.len() == i,
                ks@.map_values(|s: String| s@) == self.keys().take(i as int),
            decreases self.entries@.len() - i,
        {
            let ghost prev = ks@;
            let k = self.entries[i].0.clone();
            proof {
                assert(k@ == self.keys()[i as int]);
            }
            ks.push(k);
            proof {
                assert(ks@ == prev.push(k));
                assert(ks@.map_values(|s: String| s@) =~= self.keys().take(i + 1 as int));
            }
            i = i + 1;
        }
        proof {
            assert(self.keys().take(i as int) =~= self.keys());
        }
        ks
    }
}

} // verus!
