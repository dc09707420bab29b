//! A bounded filter of recently seen keys.

use crate::model::{copy_bytes, copy_string};
use crate::node_state::settlement::bytes_equal;
use vstd::prelude::*;
use vstd::utf8::encode_utf8;

verus! {

/// A key the filter can remember, known by its bytes.
pub trait FilterKey: Sized {
    /// The bytes that identify the key.
    spec fn key_bytes(&self) -> Seq<u8>;

    /// Whether two keys have the same bytes.
    fn same_key(&self, other: &Self) -> (res: bool)
        ensures
            res == (self.key_bytes() == other.key_bytes());

    /// A copy of the key.
    fn copy_key(&self) -> (res: Self)
        ensures
            res.key_bytes() == self.key_bytes();
}

/// Whether two byte slices are equal.
fn slices_equal(a: &[u8], b: &[u8]) -> (res: bool)
    ensures
        res == (a@ == b@),
{
    if a.len() != b.len() {
        return false;
    }
    let mut i: usize = 0;
    while i < a.len()
        invariant
            a@.len() == b@.len(),
            i <= a@.len(),
            forall|j: int| 0 <= j < i ==> a@[j] == b@[j],
        decreases a@.len() - i,
    {
        if a[i] != b[i] {
            return false;
        }
        i = i + 1;
    }
    assert(a@ =~= b@);
    true
}

impl FilterKey for Vec<u8> {
    open spec fn key_bytes(&self) -> Seq<u8> {
        self@
    }

    fn same_key(&self, other: &Self) -> (res: bool) {
        bytes_equal(self, other)
    }

    fn copy_key(&self) -> (res: Self) {
        copy_bytes(self)
    }
}

impl FilterKey for String {
    open spec fn key_bytes(&self) -> Seq<u8> {
        encode_utf8(self@)
    }

    fn same_key(&self, other: &Self) -> (res: bool) {
        slices_equal(self.as_str().as_bytes(), other.as_str().as_bytes())
    }

    fn copy_key(&self) -> (res: Self) {
        copy_string(self)
    }
}

impl<'a> FilterKey for &'a str {
    open spec fn key_bytes(&self) -> Seq<u8> {
        encode_utf8(self@)
    }

    fn same_key(&self, other: &Self) -> (res: bool) {
        slices_equal(self.as_bytes(), other.as_bytes())
    }

    fn copy_key(&self) -> (res: Self) {
        *self
    }
}

/// The bytes of each key of a sequence.
pub open spec fn key_seq<K: FilterKey>(ks: Seq<K>) -> Seq<Seq<u8>> {
    ks.map_values(|k: K| k.key_bytes())
}

/// A bounded set of recently seen keys: once it holds `capacity` distinct
/// keys, adding another one first forgets the key that was inserted earliest.
pub struct FifoFilter<K> {
    capacity: usize,
    queue: Vec<K>,
    map: Vec<K>,
}

impl<K: FilterKey> FifoFilter<K> {
    /// Maximum number of distinct keys remembered.
    pub closed spec fn spec_capacity(&self) -> nat {
        self.capacity as nat
    }

    /// Keys in insertion order (duplicates included), oldest first.
    pub closed spec fn spec_queue(&self) -> Seq<Seq<u8>> {
        key_seq(self.queue@)
    }

    /// Keys currently remembered.
    pub closed spec fn spec_keys(&self) -> Set<Seq<u8>> {
        key_seq(self.map@).to_set()
    }

    /// The remembered keys are held once each.
    pub closed spec fn wf(&self) -> bool {
        key_seq(self.map@).no_duplicates()
    }
}

/// The queue after one `set`: the oldest entry leaves when `evict` holds,
/// and `pushed` is appended.
pub open spec fn next_queue<K>(queue: Seq<K>, evict: bool, pushed: K) -> Seq<K> {
    if evict {
        queue.drop_first().push(pushed)
    } else {
        queue.push(pushed)
    }
}

/// The remembered keys after one `set` of `key`.
pub open spec fn next_keys<K>(keys: Set<K>, queue: Seq<K>, evict: bool, key: K) -> Set<K> {
    if evict {
        keys.remove(queue[0]).insert(key)
    } else {
        keys.insert(key)
    }
}

/// `set` evicts exactly when the filter already remembers `capacity` keys
/// and its queue is not empty.
pub open spec fn evicts<K>(keys: Set<K>, queue: Seq<K>, capacity: nat) -> bool {
    keys.len() == capacity && queue.len() > 0
}

/// Whether `v` holds a key with the bytes of `k`.
fn holds_key<K: FilterKey>(v: &Vec<K>, k: &K) -> (res: bool)
    ensures
        res == key_seq(v@).contains(k.key_bytes()),
{
    let mut i: usize = 0;
    while i < v.len()
        invariant
            i <= v@.len(),
            forall|j: int| 0 <= j < i ==> v@[j].key_bytes() != k.key_bytes(),
        decreases v@.len() - i,
    {
        if v[i].same_key(k) {
            assert(key_seq(v@)[i as int] == k.key_bytes());
            return true;
        }
        i = i + 1;
    }
    proof {
        if key_seq(v@).contains(k.key_bytes()) {
            let j = choose|j: int| 0 <= j < key_seq(v@).len() && key_seq(v@)[j] == k.key_bytes();
            assert(v@[j].key_bytes() == k.key_bytes());
        }
    }
    false
}

/// `v` without the key with the bytes of `k`, each other key kept once.
fn without_key<K: FilterKey>(v: &Vec<K>, k: &K) -> (res: Vec<K>)
    requires
        key_seq(v@).no_duplicates(),
    ensures
        key_seq(res@).no_duplicates(),
        key_seq(res@).to_set() == key_seq(v@).to_set().remove(k.key_bytes()),
{
    let ghost kv = key_seq(v@);
    let mut out: Vec<K> = Vec::new();
    let mut i: usize = 0;
    while i < v.len()
        invariant
            kv == key_seq(v@),
            kv.no_duplicates(),
            i <= v@.len(),
            key_seq(out@).no_duplicates(),
            forall|y: Seq<u8>| key_seq(out@).contains(y) <==> (kv.take(i as int).contains(y) && y != k.key_bytes()),
        decreases v@.len() - i,
    {
        let ghost before = key_seq(out@);
        let ghost t0 = kv.take(i as int);
        let ghost t1 = kv.take(i + 1);
        proof {
            assert(t1 =~= t0.push(kv[i as int]));
            assert(kv[i as int] == v@[i as int].key_bytes());
            assert(forall|y: Seq<u8>| #[trigger] before.contains(y) <==> (t0.contains(y) && y != k.key_bytes()));
        }
        if !v[i].same_key(k) {
            proof {
                assert(!key_seq(out@).contains(kv[i as int])) by {
                    if key_seq(out@).contains(kv[i as int]) {
                        assert(t0.contains(kv[i as int]));
                        let j = choose|j: int| 0 <= j < t0.len() && t0[j] == kv[i as int];
                        assert(kv[j] == kv[i as int]);
                    }
                }
            }
            let c = v[i].copy_key();
            out.push(c);
            proof {
                assert(key_seq(out@) =~= before.push(kv[i as int]));
                let now = key_seq(out@);
                let x = kv[i as int];
                assert forall|y: Seq<u8>| now.contains(y) <==> (t1.contains(y) && y != k.key_bytes()) by {
                    if now.contains(y) {
                        let j = choose|j: int| 0 <= j < now.len() && now[j] == y;
                        if j < before.len() {
                            assert(before[j] == y);
                            assert(before.contains(y));
                            let j2 = choose|j2: int| 0 <= j2 < t0.len() && t0[j2] == y;
                            assert(t1[j2] == y);
                        } else {
                            assert(y == x);
                            assert(t1[i as int] == y);
                        }
                    }
                    if t1.contains(y) && y != k.key_bytes() {
                        let j = choose|j: int| 0 <= j < t1.len() && t1[j] == y;
                        if j < i {
                            assert(t0[j] == y);
                            assert(t0.contains(y));
                            assert(before.contains(y));
                            let j2 = choose|j2: int| 0 <= j2 < before.len() && before[j2] == y;
                            assert(now[j2] == y);
                        } else {
                            assert(now[before.len() as int] == y);
                        }
                    }
                }
            }
        } else {
            proof {
                assert forall|y: Seq<u8>| key_seq(out@).contains(y) <==> (t1.contains(y) && y != k.key_bytes()) by {
                    if t1.contains(y) {
                        let j = choose|j: int| 0 <= j < t1.len() && t1[j] == y;
                        if j < i {
                            assert(t0[j] == y);
                        }
                    }
                    if before.contains(y) {
                        let j = choose|j: int| 0 <= j < t0.len() && t0[j] == y;
                        assert(t1[j] == y);
                    }
                }
            }
        }
        i = i + 1;
    }
    proof {
        assert(kv.take(v@.len() as int) =~= kv);
        assert(key_seq(out@).to_set() =~= kv.to_set().remove(k.key_bytes()));
    }
    out
}

impl<K: FilterKey> FifoFilter<K> {
    pub fn new(capacity: usize) -> (res: Self)
        ensures
            res.wf(),
            res.spec_capacity() == capacity,
            res.spec_queue() == Seq::<Seq<u8>>::empty(),
            res.spec_keys() == Set::<Seq<u8>>::empty(),
    {
        let res = FifoFilter { capacity, queue: Vec::new(), map: Vec::new() };
        proof {
            assert(key_seq(res.queue@) =~= Seq::<Seq<u8>>::empty());
            assert(key_seq(res.map@) =~= Seq::<Seq<u8>>::empty());
            assert(key_seq(res.map@).to_set() =~= Set::<Seq<u8>>::empty());
        }
        res
    }

    /// Remembers `key`; when `capacity` keys are remembered already, the
    /// key inserted earliest is forgotten first.
    pub fn set(&mut self, key: K)
        requires
            old(self).wf(),
        ensures
            final(self).wf(),
            final(self).spec_capacity() == old(self).spec_capacity(),
            final(self).spec_keys() == next_keys(
                old(self).spec_keys(),
                old(self).spec_queue(),
                evicts(old(self).spec_keys(), old(self).spec_queue(), old(self).spec_capacity()),
                key.key_bytes(),
            ),
            final(self).spec_queue() == next_queue(
                old(self).spec_queue(),
                evicts(old(self).spec_keys(), old(self).spec_queue(), old(self).spec_capacity()),
                key.key_bytes(),
            ),
    {
        let ghost keys0 = self.spec_keys();
        let ghost queue0 = self.spec_queue();
        proof {
            key_seq(self.map@).unique_seq_to_set();
        }
        let evict = self.map.len() == self.capacity && self.queue.len() > 0;
        assert(evict == evicts(keys0, queue0, self.capacity as nat));
        if evict {
            let old_key = self.queue.remove(0);
            proof {
                assert(key_seq(self.queue@) =~= queue0.drop_first());
                assert(old_key.key_bytes() == queue0[0]);
            }
            self.map = without_key(&self.map, &old_key);
        }
        let ghost keys1 = self.spec_keys();
        let ghost queue1 = self.spec_queue();
        let copy = key.copy_key();
        self.queue.push(copy);
        proof {
            assert(key_seq(self.queue@) =~= queue1.push(key.key_bytes()));
        }
        if !holds_key(&self.map, &key) {
            let ghost before = key_seq(self.map@);
            self.map.push(key);
            proof {
                assert(key_seq(self.map@) =~= before.push(key.key_bytes()));
                crate::node_state::model::lemma_push_to_set(before, key.key_bytes());
            }
        } else {
            proof {
                assert(keys1.insert(key.key_bytes()) =~= keys1);
            }
        }
    }

    /// Whether `key` is remembered.
    pub fn check(&self, key: &K) -> (res: bool)
        ensures
            res == self.spec_keys().contains(key.key_bytes()),
    {
        holds_key(&self.map, key)
    }
}

/// A key that has just been set is remembered.
pub proof fn lemma_set_remembers<K>(keys: Set<K>, queue: Seq<K>, evict: bool, key: K)
    ensures
        next_keys(keys, queue, evict, key).contains(key),
{
}

/// When a `set` evicts, the key inserted earliest is forgotten, unless it is
/// the key being set.
pub proof fn lemma_set_forgets_oldest<K>(keys: Set<K>, queue: Seq<K>, capacity: nat, key: K)
    requires
        evicts(keys, queue, capacity),
        queue[0] != key,
    ensures
        !next_keys(keys, queue, true, key).contains(queue[0]),
{
}

/// While no key is set twice, the filter remembers exactly the keys of its
/// queue, each once, and never more than `capacity` of them (for a capacity
/// of at least one).
pub proof fn lemma_capacity_bound<K>(keys: Set<K>, queue: Seq<K>, capacity: nat, key: K)
    requires
        queue.no_duplicates(),
        keys == queue.to_set(),
        keys.len() <= capacity,
        capacity > 0,
        !keys.contains(key),
    ensures
        ({
            let evict = evicts(keys, queue, capacity);
            let q2 = next_queue(queue, evict, key);
            let k2 = next_keys(keys, queue, evict, key);
            &&& q2.no_duplicates()
            &&& k2 == q2.to_set()
            &&& k2.len() <= capacity
        }),
{
    broadcast use vstd::set::group_set_axioms;
    broadcast use vstd::seq_lib::seq_to_set_is_finite;

    let evict = evicts(keys, queue, capacity);
    if evict {
        let rest = queue.drop_first();
        assert(!rest.contains(queue[0])) by {
            if rest.contains(queue[0]) {
                let j = choose|j: int| 0 <= j < rest.len() && rest[j] == queue[0];
                assert(queue[j + 1] == queue[0]);
            }
        }
        assert(rest.to_set() =~= queue.to_set().remove(queue[0])) by {
            assert forall|x: K| rest.to_set().contains(x) implies queue.to_set().remove(queue[0]).contains(x) by {
                let j = choose|j: int| 0 <= j < rest.len() && rest[j] == x;
                assert(queue[j + 1] == x);
            }
            assert forall|x: K| queue.to_set().remove(queue[0]).contains(x) implies rest.to_set().contains(x) by {
                let j = choose|j: int| 0 <= j < queue.len() && queue[j] == x;
                assert(j != 0);
                assert(rest[j - 1] == x);
            }
        }
        assert(queue.to_set().contains(queue[0])) by {
            assert(queue[0] == queue[0]);
        }
        rest.lemma_push_to_set_commute(key);
        assert(!rest.contains(key)) by {
            if rest.contains(key) {
                let j = choose|j: int| 0 <= j < rest.len() && rest[j] == key;
                assert(queue[j + 1] == key);
                assert(queue.to_set().contains(key));
            }
        }
        assert(rest.push(key).no_duplicates()) by {
            assert forall|i: int, j: int| 0 <= i < j < rest.push(key).len() implies rest.push(key)[i] != rest.push(key)[j] by {
                if j == rest.len() {
                    assert(rest.contains(rest[i]));
                } else {
                    assert(queue[i + 1] != queue[j + 1]);
                }
            }
        }
    } else {
        queue.lemma_push_to_set_commute(key);
        assert(!queue.contains(key)) by {
            if queue.contains(key) {
                let j = choose|j: int| 0 <= j < queue.len() && queue[j] == key;
                assert(queue.to_set().contains(key));
            }
        }
        assert(queue.push(key).no_duplicates()) by {
            assert forall|i: int, j: int| 0 <= i < j < queue.push(key).len() implies queue.push(key)[i] != queue.push(key)[j] by {
                if j == queue.len() {
                    assert(queue.contains(queue[i]));
                }
            }
        }
        if queue.len() == 0 {
            assert(queue.to_set() =~= Set::<K>::empty());
        }
    }
}

/// The remembered keys and the queue after setting each key of `ks` in
/// turn.
pub open spec fn after_sets<K>(keys: Set<K>, queue: Seq<K>, capacity: nat, ks: Seq<K>) -> (Set<K>, Seq<K>)
    decreases ks.len(),
{
    if ks.len() == 0 {
        (keys, queue)
    } else {
        let (k1, q1) = after_sets(keys, queue, capacity, ks.drop_last());
        let evict = evicts(k1, q1, capacity);
        (next_keys(k1, q1, evict, ks.last()), next_queue(q1, evict, ks.last()))
    }
}

/// How many of `n` keys set in turn a filter of `capacity` has forgotten.
pub open spec fn forgotten(n: nat, capacity: nat) -> int {
    if n > capacity {
        n - capacity
    } else {
        0
    }
}

/// Setting distinct keys one after the other into an empty filter of
/// capacity at least one: it then remembers exactly the last `capacity` of
/// them, oldest first in its queue, and has forgotten the earlier ones.
pub proof fn lemma_remembers_the_last<K>(capacity: nat, ks: Seq<K>)
    requires
        capacity > 0,
        ks.no_duplicates(),
    ensures
        after_sets(Set::<K>::empty(), Seq::<K>::empty(), capacity, ks).1 == ks.skip(forgotten(ks.len(), capacity)),
        after_sets(Set::<K>::empty(), Seq::<K>::empty(), capacity, ks).0 == ks.skip(forgotten(ks.len(), capacity)).to_set(),
    decreases ks.len(),
{
    broadcast use vstd::set::group_set_axioms;
    broadcast use vstd::seq_lib::seq_to_set_is_finite;

    if ks.len() == 0 {
        assert(ks.skip(0) =~= Seq::<K>::empty());
        assert(Seq::<K>::empty().to_set() =~= Set::<K>::empty());
    } else {
        let prev = ks.drop_last();
        let last = ks.last();
        assert(prev.no_duplicates()) by {
            assert forall|i: int, j: int| 0 <= i < j < prev.len() implies prev[i] != prev[j] by {
                assert(prev[i] == ks[i] && prev[j] == ks[j]);
            }
        }
        lemma_remembers_the_last(capacity, prev);
        let k1 = after_sets(Set::<K>::empty(), Seq::<K>::empty(), capacity, prev).0;
        let q1 = after_sets(Set::<K>::empty(), Seq::<K>::empty(), capacity, prev).1;
        let f1 = forgotten(prev.len(), capacity);
        assert(q1 == prev.skip(f1));
        assert(q1.no_duplicates()) by {
            assert forall|i: int, j: int| 0 <= i < j < q1.len() implies q1[i] != q1[j] by {
                assert(q1[i] == ks[f1 + i] && q1[j] == ks[f1 + j]);
            }
        }
        q1.unique_seq_to_set();
        assert(!k1.contains(last)) by {
            if k1.contains(last) {
                let j = choose|j: int| 0 <= j < q1.len() && q1[j] == last;
                assert(q1[j] == ks[f1 + j]);
                assert(ks[ks.len() - 1] == last);
            }
        }
        lemma_capacity_bound(k1, q1, capacity, last);
        let evict = evicts(k1, q1, capacity);
        let q2 = next_queue(q1, evict, last);
        let f2 = forgotten(ks.len(), capacity);
        if evict {
            assert(q2 =~= ks.skip(f2));
        } else {
            assert(q2 =~= ks.skip(f2));
        }
    }
}

} // verus!
