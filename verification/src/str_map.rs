//! A map keyed by strings, compared by their characters.

use vstd::prelude::*;

verus! {

/// Association list from strings to values; a key occurs at most once.
#[derive(Debug, Clone)]
pub struct StrMap<V> {
    keys: Vec<String>,
    vals: Vec<V>,
}

/// The characters of each string of a sequence.
pub open spec fn key_views(keys: Seq<String>) -> Seq<Seq<char>> {
    keys.map_values(|s: String| s@)
}

impl<V> StrMap<V> {
    /// Keys and values pair up and no key occurs twice.
    pub closed spec fn wf(&self) -> bool {
        &&& self.keys@.len() == self.vals@.len()
        &&& key_views(self.keys@).no_duplicates()
    }

    /// The keys in storage order.
    pub closed spec fn key_seq(&self) -> Seq<Seq<char>> {
        key_views(self.keys@)
    }

    /// The values in storage order.
    pub closed spec fn val_seq(&self) -> Seq<V> {
        self.vals@
    }

    pub closed spec fn view(&self) -> Map<Seq<char>, V> {
        Map::new(
            |k: Seq<char>| self.key_seq().contains(k),
            |k: Seq<char>| self.vals@[self.key_seq().index_of(k)],
        )
    }

    /// The stored keys and values, read at position `i`, describe the map.
    pub proof fn lemma_view_at(&self, i: int)
        requires
            self.wf(),
            0 <= i < self.key_seq().len(),
        ensures
            self.view().contains_key(self.key_seq()[i]),
            self.view()[self.key_seq()[i]] == self.val_seq()[i],
            self.key_seq().len() == self.val_seq().len(),
    {
        let k = self.key_seq()[i];
        assert(self.key_seq().contains(k));
        let j = self.key_seq().index_of(k);
        assert(self.key_seq()[j] == k);
    }

    pub proof fn lemma_dom(&self)
        requires
            self.wf(),
        ensures
            self.view().dom() == self.key_seq().to_set(),
            self.view().dom().finite(),
            self.view().dom().len() == self.key_seq().len(),
            self.key_seq().len() == self.val_seq().len(),
            self.key_seq().no_duplicates(),
    {
        assert(self.view().dom() =~= self.key_seq().to_set());
        self.key_seq().unique_seq_to_set();
    }

    pub fn new() -> (res: Self)
        ensures
            res.wf(),
            res.view() == Map::<Seq<char>, V>::empty(),
            res.key_seq() == Seq::<Seq<char>>::empty(),
    {
        let res = StrMap { keys: Vec::new(), vals: Vec::new() };
        assert(res.view() =~= Map::<Seq<char>, V>::empty());
        res
    }

    pub fn len(&self) -> (res: usize)
        requires
            self.wf(),
        ensures
            res == self.view().len(),
    {
        proof {
            self.lemma_dom();
        }
        self.keys.len()
    }

    /// Position of `key`, if present.
    fn find(&self, key: &String) -> (res: Option<usize>)
        requires
            self.wf(),
        ensures
            match res {
                Some(i) => i < self.key_seq().len() && self.key_seq()[i as int] == key@,
                None => !self.key_seq().contains(key@),
            },
    {
        proof {
            }
        let mut i: usize = 0;
        while i < self.keys.len()
            invariant
                self.wf(),
                i <= self.keys@.len(),
                forall|j: int| 0 <= j < i ==> self.key_seq()[j] != key@,
            decreases self.keys@.len() - i,
        {
            proof {
                assert(self.key_seq()[i as int] == self.keys@[i as int]@);
            }
            if self.keys[i] == *key {
                return Some(i);
            }
            i = i + 1;
        }
        None
    }

    /// The key stored at position `i`.
    pub fn key_at(&self, i: usize) -> (res: &String)
        requires
            self.wf(),
            i < self.key_seq().len(),
        ensures
            res@ == self.key_seq()[i as int],
    {
        &self.keys[i]
    }

    /// The value stored at position `i`.
    pub fn val_at(&self, i: usize) -> (res: &V)
        requires
            self.wf(),
            i < self.key_seq().len(),
        ensures
            *res == self.val_seq()[i as int],
    {
        &self.vals[i]
    }

    pub fn contains_key(&self, key: &String) -> (res: bool)
        requires
            self.wf(),
        ensures
            res == self.view().contains_key(key@),
    {
        self.find(key).is_some()
    }

    pub fn get(&self, key: &String) -> (res: Option<&V>)
        requires
            self.wf(),
        ensures
            match res {
                Some(v) => self.view().contains_key(key@) && *v == self.view()[key@],
                None => !self.view().contains_key(key@),
            },
    {
        match self.find(key) {
            Some(i) => {
                proof {
                    self.lemma_view_at(i as int);
                }
                Some(&self.vals[i])
            },
            None => None,
        }
    }

    pub fn insert(&mut self, key: String, val: V)
        requires
            old(self).wf(),
        ensures
            final(self).wf(),
            final(self).view() == old(self).view().insert(key@, val),
    {
        match self.find(&key) {
            Some(i) => {
                let ghost old_keys = self.key_seq();
                let ghost old_vals = self.val_seq();
                let ghost old_view = self.view();
                self.vals.set(i, val);
                proof {
                    assert(self.key_seq() == old_keys);
                    assert forall|k: Seq<char>| #[trigger] self.view().contains_key(k) == old_view.insert(key@, val).contains_key(k) by {}
                    assert forall|k: Seq<char>| self.view().contains_key(k) implies #[trigger] self.view()[k] == old_view.insert(key@, val)[k] by {
                        let j = self.key_seq().index_of(k);
                        assert(self.key_seq()[j] == k);
                        if k == key@ {
                            assert(j == i);
                        } else {
                            assert(old_keys[j] == k);
                            assert(old_keys.contains(k));
                            let j0 = old_keys.index_of(k);
                            assert(old_keys[j0] == k);
                            assert(j0 == j);
                        }
                    }
                    assert(self.view() =~= old_view.insert(key@, val));
                }
            },
            None => {
                let ghost old_keys = self.key_seq();
                let ghost old_view = self.view();
                let ghost kv = key@;
                self.keys.push(key);
                self.vals.push(val);
                proof {
                    assert(self.key_seq() =~= old_keys.push(kv));
                    assert(self.key_seq()[old_keys.len() as int] == kv);
                    assert forall|k: Seq<char>| #[trigger] self.view().contains_key(k) == old_view.insert(kv, val).contains_key(k) by {
                        if k != kv && self.key_seq().contains(k) {
                            let j = choose|j: int| 0 <= j < self.key_seq().len() && self.key_seq()[j] == k;
                            assert(old_keys[j] == k);
                        }
                        if old_keys.contains(k) {
                            let j = choose|j: int| 0 <= j < old_keys.len() && old_keys[j] == k;
                            assert(self.key_seq()[j] == k);
                        }
                    }
                    assert forall|k: Seq<char>| self.view().contains_key(k) implies #[trigger] self.view()[k] == old_view.insert(kv, val)[k] by {
                        let j = self.key_seq().index_of(k);
                        assert(self.key_seq()[j] == k);
                        if k == kv {
                            assert(j == old_keys.len());
                        } else {
                            assert(j < old_keys.len());
                            assert(old_keys.contains(k));
                            let j0 = old_keys.index_of(k);
                            assert(old_keys[j0] == k);
                            assert(j0 == j);
                        }
                    }
                    assert(self.view() =~= old_view.insert(kv, val));
                }
            },
        }
    }

    pub fn remove(&mut self, key: &String) -> (res: Option<V>)
        requires
            old(self).wf(),
        ensures
            final(self).wf(),
            final(self).view() == old(self).view().remove(key@),
            match res {
                Some(v) => old(self).view().contains_key(key@) && v == old(self).view()[key@],
                None => !old(self).view().contains_key(key@),
            },
    {
        match self.find(key) {
            Some(i) => {
                let ghost old_keys = self.key_seq();
                let ghost old_view = self.view();
                proof {
                    self.lemma_view_at(i as int);
                }
                let _k = self.keys.remove(i);
                let v = self.vals.remove(i);
                proof {
                    assert(self.key_seq() =~= old_keys.remove(i as int));
                    assert forall|k: Seq<char>| #[trigger] self.view().contains_key(k) == old_view.remove(key@).contains_key(k) by {
                        if self.key_seq().contains(k) {
                            let j = choose|j: int| 0 <= j < self.key_seq().len() && self.key_seq()[j] == k;
                            if j < i {
                                assert(old_keys[j] == k);
                            } else {
                                assert(old_keys[j + 1] == k);
                            }
                        }
                        if old_keys.contains(k) && k != key@ {
                            let j = choose|j: int| 0 <= j < old_keys.len() && old_keys[j] == k;
                            if j < i {
                                assert(self.key_seq()[j] == k);
                            } else {
                                assert(self.key_seq()[j - 1] == k);
                            }
                        }
                    }
                    assert forall|k: Seq<char>| self.view().contains_key(k) implies #[trigger] self.view()[k] == old_view.remove(key@)[k] by {
                        let j = self.key_seq().index_of(k);
                        assert(self.key_seq()[j] == k);
                        let j0 = if j < i { j } else { j + 1 };
                        assert(old_keys[j0] == k);
                        assert(old_keys.contains(k));
                        let j1 = old_keys.index_of(k);
                        assert(old_keys[j1] == k);
                        assert(j1 == j0);
                    }
                    assert(self.view() =~= old_view.remove(key@));
                }
                Some(v)
            },
            None => {
                proof {
                    assert(self.view() =~= self.view().remove(key@));
                }
                None
            },
        }
    }
}

} // verus!
