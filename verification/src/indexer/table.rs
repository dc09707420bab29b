//! A table of the indexer: a sled tree holding records under ordered keys,
//! and optionally a second tree that maps another key of a record to its
//! ordered key.
//!
//! What a tree holds is named (`tree_contents`); the calls into sled are
//! stated over that name as sled documents them: a write changes the one
//! entry written, and a read gives back what the tree holds.

use crate::model::copy_bytes;
use vstd::prelude::*;

verus! {

#[verifier::external_type_specification]
#[verifier::external_body]
pub struct ExSledDb(sled::Db);

#[verifier::external_type_specification]
#[verifier::external_body]
pub struct ExSledTree(sled::Tree);

#[verifier::external_type_specification]
#[verifier::external_body]
pub struct ExSledError(sled::Error);

/// Why a read or a write of the indexer's store failed.
#[derive(Debug)]
pub enum IndexerError {
    /// sled reported an error.
    Storage(sled::Error),
    /// Stored bytes are not a record of the expected kind.
    Corrupt,
}

/// Lexicographic order on byte strings, the order of sled's keys.
pub open spec fn bytes_lt(a: Seq<u8>, b: Seq<u8>) -> bool
    decreases a.len(),
{
    if a.len() == 0 {
        b.len() > 0
    } else if b.len() == 0 {
        false
    } else if a[0] != b[0] {
        a[0] < b[0]
    } else {
        bytes_lt(a.drop_first(), b.drop_first())
    }
}

/// What a sled tree holds: each key with its value.
pub uninterp spec fn tree_contents(t: sled::Tree) -> Map<Seq<u8>, Seq<u8>>;

/// `k` falls within `lo..hi`.
pub open spec fn in_range(k: Seq<u8>, lo: Seq<u8>, hi: Seq<u8>) -> bool {
    !bytes_lt(k, lo) && bytes_lt(k, hi)
}

/// `items` are the entries of `c` whose keys satisfy `sel`, in increasing
/// key order.
pub open spec fn lists_entries(c: Map<Seq<u8>, Seq<u8>>, items: Seq<(Vec<u8>, Vec<u8>)>, sel: spec_fn(Seq<u8>) -> bool) -> bool {
    &&& forall|i: int, j: int| 0 <= i < j < items.len() ==> bytes_lt(#[trigger] items[i].0@, #[trigger] items[j].0@)
    &&& forall|i: int| 0 <= i < items.len() ==> {
        &&& sel(#[trigger] items[i].0@)
        &&& c.contains_key(items[i].0@)
        &&& c[items[i].0@] == items[i].1@
    }
    &&& forall|k: Seq<u8>| c.contains_key(k) && #[trigger] sel(k) ==> exists|i: int| 0 <= i < items.len() && items[i].0@ == k
}

/// The entries of `c` with keys within `lo..hi`, in key order.
pub open spec fn lists_range(c: Map<Seq<u8>, Seq<u8>>, items: Seq<(Vec<u8>, Vec<u8>)>, lo: Seq<u8>, hi: Seq<u8>) -> bool {
    lists_entries(c, items, |k: Seq<u8>| in_range(k, lo, hi))
}

/// The entries of `c` with keys starting with `prefix`, in key order.
pub open spec fn lists_prefix(c: Map<Seq<u8>, Seq<u8>>, items: Seq<(Vec<u8>, Vec<u8>)>, prefix: Seq<u8>) -> bool {
    lists_entries(c, items, |k: Seq<u8>| prefix.is_prefix_of(k))
}

/// `k` is the greatest key of `c`.
pub open spec fn is_last_key(c: Map<Seq<u8>, Seq<u8>>, k: Seq<u8>) -> bool {
    c.contains_key(k) && forall|k2: Seq<u8>| #[trigger] c.contains_key(k2) ==> !bytes_lt(k, k2)
}

/// Two byte strings are equal, or one comes before the other.
pub proof fn lemma_bytes_lt_total(a: Seq<u8>, b: Seq<u8>)
    ensures
        a == b || bytes_lt(a, b) || bytes_lt(b, a),
    decreases a.len(),
{
    if a.len() == 0 && b.len() == 0 {
        assert(a =~= b);
    } else if a.len() > 0 && b.len() > 0 && a[0] == b[0] {
        lemma_bytes_lt_total(a.drop_first(), b.drop_first());
        if a.drop_first() == b.drop_first() {
            assert(a.drop_first().len() == b.drop_first().len());
            assert(a.len() == b.len());
            assert forall|i: int| 0 <= i < a.len() implies a[i] == b[i] by {
                if i > 0 {
                    assert(a[i] == a.drop_first()[i - 1]);
                    assert(b[i] == b.drop_first()[i - 1]);
                }
            }
            assert(a =~= b);
        }
    }
}

/// No byte string comes before itself, and of two, at most one comes
/// before the other.
pub proof fn lemma_bytes_lt_asym(a: Seq<u8>, b: Seq<u8>)
    ensures
        !bytes_lt(a, a),
        bytes_lt(a, b) ==> !bytes_lt(b, a),
    decreases a.len(),
{
    if a.len() > 0 {
        lemma_bytes_lt_asym(a.drop_first(), a.drop_first());
        if b.len() > 0 {
            lemma_bytes_lt_asym(a.drop_first(), b.drop_first());
        }
    }
}

/// A table has at most one greatest key.
pub proof fn lemma_last_key_unique(c: Map<Seq<u8>, Seq<u8>>, k1: Seq<u8>, k2: Seq<u8>)
    requires
        is_last_key(c, k1),
        is_last_key(c, k2),
    ensures
        k1 == k2,
{
    lemma_bytes_lt_total(k1, k2);
}

/// A listing of every entry of a table (those whose keys start with the
/// empty prefix) shows that the table is finite and how many entries it
/// holds.
pub proof fn lemma_listing_counts(c: Map<Seq<u8>, Seq<u8>>, items: Seq<(Vec<u8>, Vec<u8>)>, empty: Seq<u8>)
    requires
        empty.len() == 0,
        lists_prefix(c, items, empty),
    ensures
        c.dom().finite(),
        c.dom().len() == items.len(),
{
    let ks = items.map_values(|p: (Vec<u8>, Vec<u8>)| p.0@);
    assert(ks.no_duplicates()) by {
        assert forall|i: int, j: int| 0 <= i < ks.len() && 0 <= j < ks.len() && i != j implies ks[i] != ks[j] by {
            if i < j {
                assert(bytes_lt(items[i].0@, items[j].0@));
                lemma_bytes_lt_asym(ks[i], ks[i]);
            } else {
                assert(bytes_lt(items[j].0@, items[i].0@));
                lemma_bytes_lt_asym(ks[j], ks[j]);
            }
        }
    }
    assert(c.dom() =~= ks.to_set()) by {
        assert forall|k: Seq<u8>| c.dom().contains(k) implies ks.to_set().contains(k) by {
            assert(empty.is_prefix_of(k));
            assert((|x: Seq<u8>| empty.is_prefix_of(x))(k));
            let i = choose|i: int| 0 <= i < items.len() && items[i].0@ == k;
            assert(ks[i] == k);
        }
        assert forall|k: Seq<u8>| ks.to_set().contains(k) implies c.dom().contains(k) by {
            let i = choose|i: int| 0 <= i < ks.len() && ks[i] == k;
            assert(c.contains_key(items[i].0@));
        }
    }
    ks.unique_seq_to_set();
}

/// Storing under a key that a finite table does not hold adds one entry;
/// storing under one it holds keeps the count.
pub proof fn lemma_len_after_insert(c: Map<Seq<u8>, Seq<u8>>, k: Seq<u8>, v: Seq<u8>)
    requires
        c.dom().finite(),
    ensures
        c.insert(k, v).dom().finite(),
        c.insert(k, v).dom().len() == if c.contains_key(k) { c.dom().len() } else { c.dom().len() + 1 },
{
    assert(c.insert(k, v).dom() =~= c.dom().insert(k));
}

/// Calls `sled::Db::open_tree`, which opens or creates the tree of that
/// name. Nothing is claimed of what the tree holds: what is on disk.
#[verifier::external_body]
fn open_tree(db: &sled::Db, name: &str) -> Result<sled::Tree, sled::Error> {
    db.open_tree(name)
}

/// Calls `sled::Tree::insert` and drops the value it replaced. Claimed, as
/// sled documents: on success the tree maps `key` to `value` and is
/// otherwise as it was. The model holds while this handle is the only one
/// that writes to the tree.
#[verifier::external_body]
fn tree_insert(tree: &mut sled::Tree, key: &[u8], value: &[u8]) -> (res: Result<(), sled::Error>)
    ensures
        res is Ok ==> tree_contents(*final(tree)) == tree_contents(*old(tree)).insert(key@, value@),
{
    tree.insert(key, value).map(|_old| ())
}

/// Calls `sled::Tree::get`, copying the value out. Claimed, as sled
/// documents: on success, the value under `key`, or none when the tree
/// has no such key.
#[verifier::external_body]
fn tree_get(tree: &sled::Tree, key: &[u8]) -> (res: Result<Option<Vec<u8>>, sled::Error>)
    ensures
        res matches Ok(found) ==> match found {
            Some(v) => tree_contents(*tree).contains_key(key@) && tree_contents(*tree)[key@] == v@,
            None => !tree_contents(*tree).contains_key(key@),
        },
{
    tree.get(key).map(|found| found.map(|v| v.to_vec()))
}

/// Calls `sled::Tree::last`, copying the pair out. Claimed, as sled
/// documents: on success, the entry with the greatest key, or none when
/// the tree is empty.
#[verifier::external_body]
fn tree_last(tree: &sled::Tree) -> (res: Result<Option<(Vec<u8>, Vec<u8>)>, sled::Error>)
    ensures
        res matches Ok(found) ==> match found {
            Some(p) => is_last_key(tree_contents(*tree), p.0@) && tree_contents(*tree)[p.0@] == p.1@,
            None => tree_contents(*tree).dom() == Set::<Seq<u8>>::empty(),
        },
{
    tree.last().map(|found| found.map(|(k, v)| (k.to_vec(), v.to_vec())))
}

/// Calls `sled::Tree::range` on `lo..hi` and collects the pairs it yields,
/// stopping at the first error. Claimed, as sled documents: on success,
/// the entries with keys within the range, in increasing key order.
#[verifier::external_body]
fn tree_range(tree: &sled::Tree, lo: &[u8], hi: &[u8]) -> (res: Result<Vec<(Vec<u8>, Vec<u8>)>, sled::Error>)
    ensures
        res matches Ok(items) ==> lists_range(tree_contents(*tree), items@, lo@, hi@),
{
    tree.range(lo..hi).map(|item| item.map(|(k, v)| (k.to_vec(), v.to_vec()))).collect()
}

/// Calls `sled::Tree::scan_prefix` and collects the pairs it yields,
/// stopping at the first error. Claimed, as sled documents: on success,
/// the entries whose keys start with the prefix, in increasing key order.
#[verifier::external_body]
fn tree_scan_prefix(tree: &sled::Tree, prefix: &[u8]) -> (res: Result<Vec<(Vec<u8>, Vec<u8>)>, sled::Error>)
    ensures
        res matches Ok(items) ==> lists_prefix(tree_contents(*tree), items@, prefix@),
{
    tree.scan_prefix(prefix).map(|item| item.map(|(k, v)| (k.to_vec(), v.to_vec()))).collect()
}

/// What the caller of a table gets for a result of sled.
pub open spec fn storage_result<T>(r: Result<T, sled::Error>) -> Result<T, IndexerError> {
    match r {
        Ok(x) => Ok(x),
        Err(e) => Err(IndexerError::Storage(e)),
    }
}

fn lift<T>(r: Result<T, sled::Error>) -> (res: Result<T, IndexerError>)
    ensures
        res == storage_result(r),
{
    match r {
        Ok(x) => Ok(x),
        Err(e) => Err(IndexerError::Storage(e)),
    }
}

/// The values of key and value pairs, in order.
pub fn values_of(pairs: &Vec<(Vec<u8>, Vec<u8>)>) -> (res: Vec<Vec<u8>>)
    ensures
        res.len() == pairs.len(),
        forall|i: int| 0 <= i < res.len() ==> #[trigger] res[i]@ == pairs[i].1@,
{
    let mut out: Vec<Vec<u8>> = Vec::new();
    let mut i: usize = 0;
    while i < pairs.len()
        invariant
            i <= pairs.len(),
            out.len() == i,
            forall|j: int| 0 <= j < i ==> #[trigger] out[j]@ == pairs[j].1@,
        decreases pairs.len() - i,
    {
        out.push(copy_bytes(&pairs[i].1));
        i = i + 1;
    }
    out
}

/// Records under ordered keys, with an optional second index.
#[derive(Debug)]
pub struct Table {
    ord: sled::Tree,
    alt: Option<sled::Tree>,
}

/// The values that `ord` holds under the ordered keys that `items` carry
/// as their values, in order; a key that `ord` does not hold is passed
/// over.
pub open spec fn read_through(ord: Map<Seq<u8>, Seq<u8>>, items: Seq<(Vec<u8>, Vec<u8>)>) -> Seq<Seq<u8>>
    decreases items.len(),
{
    if items.len() == 0 {
        Seq::empty()
    } else {
        let rest = read_through(ord, items.drop_last());
        let k = items.last().1@;
        if ord.contains_key(k) {
            rest.push(ord[k])
        } else {
            rest
        }
    }
}

/// The byte strings held by `vs`, in order.
pub open spec fn byte_views(vs: Seq<Vec<u8>>) -> Seq<Seq<u8>> {
    vs.map_values(|v: Vec<u8>| v@)
}

impl Table {
    /// Whether the table has a second index.
    pub closed spec fn has_alt(&self) -> bool {
        self.alt is Some
    }

    /// The records, by ordered key.
    pub closed spec fn ord_contents(&self) -> Map<Seq<u8>, Seq<u8>> {
        tree_contents(self.ord)
    }

    /// The second index: ordered keys by second key (empty without one).
    pub closed spec fn alt_contents(&self) -> Map<Seq<u8>, Seq<u8>> {
        match self.alt {
            Some(t) => tree_contents(t),
            None => Map::empty(),
        }
    }

    /// Opens the trees of a table in `db`, which it takes: the second one
    /// only when it is named, and never the first one twice. The database
    /// is taken, and the only copies of a handle this crate makes go to
    /// stores whose tree names differ, so no other table of this crate
    /// reaches these trees.
    pub(crate) fn new(db: sled::Db, ord_name: &str, alt_name: Option<&str>) -> (res: Result<Table, IndexerError>)
        requires
            alt_name matches Some(a) ==> a@ != ord_name@,
        ensures
            res matches Ok(t) ==> (t.has_alt() <==> alt_name is Some),
            res matches Err(e) ==> e is Storage,
    {
        let ord = match open_tree(&db, ord_name) {
            Ok(t) => t,
            Err(e) => return Err(IndexerError::Storage(e)),
        };
        let alt = match alt_name {
            Some(name) => match open_tree(&db, name) {
                Ok(t) => Some(t),
                Err(e) => return Err(IndexerError::Storage(e)),
            },
            None => None,
        };
        Ok(Table { ord, alt })
    }

    /// Number of records, counted by a scan of the whole tree; an error
    /// where the scan meets one.
    pub fn len(&self) -> (res: Result<usize, IndexerError>)
        ensures
            res matches Ok(n) ==> self.ord_contents().dom().finite() && n == self.ord_contents().dom().len(),
            res matches Err(e) ==> e is Storage,
    {
        let empty: Vec<u8> = Vec::new();
        let items = self.ord_scan_prefix(empty.as_slice())?;
        proof {
            lemma_listing_counts(self.ord_contents(), items@, empty@);
        }
        Ok(items.len())
    }

    /// Stores `value` under `ord_key`, and, where the table has a second
    /// index and a second key is given, `ord_key` under that key. Stops at
    /// the first error.
    pub fn put(&mut self, ord_key: &[u8], alt_key: Option<&[u8]>, value: &[u8]) -> (res: Result<(), IndexerError>)
        ensures
            final(self).has_alt() == old(self).has_alt(),
            res is Ok ==> final(self).ord_contents() == old(self).ord_contents().insert(ord_key@, value@),
            res is Ok ==> final(self).alt_contents() == if old(self).has_alt() && alt_key is Some {
                old(self).alt_contents().insert(alt_key.unwrap()@, ord_key@)
            } else {
                old(self).alt_contents()
            },
            res matches Err(e) ==> e is Storage,
    {
        lift(tree_insert(&mut self.ord, ord_key, value))?;
        match alt_key {
            None => Ok(()),
            Some(k) => match self.alt.take() {
                None => Ok(()),
                Some(mut t) => {
                    let r = lift(tree_insert(&mut t, k, ord_key));
                    self.alt = Some(t);
                    r
                },
            },
        }
    }

    /// The value under `key`, or none when there is no such key.
    pub fn ord_get(&self, key: &[u8]) -> (res: Result<Option<Vec<u8>>, IndexerError>)
        ensures
            res matches Ok(found) ==> match found {
                Some(v) => self.ord_contents().contains_key(key@) && self.ord_contents()[key@] == v@,
                None => !self.ord_contents().contains_key(key@),
            },
            res matches Err(e) ==> e is Storage,
    {
        lift(tree_get(&self.ord, key))
    }

    /// The value whose ordered key is stored under `key` in the second
    /// index; `None` when the table has no second index.
    pub fn alt_get(&self, key: &[u8]) -> (res: Option<Result<Option<Vec<u8>>, IndexerError>>)
        ensures
            res is Some <==> self.has_alt(),
            res matches Some(Ok(found)) ==> match found {
                Some(v) => self.alt_contents().contains_key(key@)
                    && self.ord_contents().contains_key(self.alt_contents()[key@])
                    && self.ord_contents()[self.alt_contents()[key@]] == v@,
                None => !self.alt_contents().contains_key(key@)
                    || !self.ord_contents().contains_key(self.alt_contents()[key@]),
            },
            res matches Some(Err(e)) ==> e is Storage,
    {
        match &self.alt {
            None => None,
            Some(alt) => {
                let found = match tree_get(alt, key) {
                    Ok(found) => found,
                    Err(e) => return Some(Err(IndexerError::Storage(e))),
                };
                match found {
                    None => Some(Ok(None)),
                    Some(ord_key) => Some(self.ord_get(ord_key.as_slice())),
                }
            },
        }
    }

    /// The entry with the greatest key, or none when the table is empty.
    pub fn ord_last(&self) -> (res: Result<Option<(Vec<u8>, Vec<u8>)>, IndexerError>)
        ensures
            res matches Ok(found) ==> match found {
                Some(p) => is_last_key(self.ord_contents(), p.0@) && self.ord_contents()[p.0@] == p.1@,
                None => self.ord_contents().dom() == Set::<Seq<u8>>::empty(),
            },
            res matches Err(e) ==> e is Storage,
    {
        lift(tree_last(&self.ord))
    }

    /// The entries whose keys fall within `lo..hi`, in key order.
    pub fn ord_range(&self, lo: &[u8], hi: &[u8]) -> (res: Result<Vec<(Vec<u8>, Vec<u8>)>, IndexerError>)
        ensures
            res matches Ok(items) ==> lists_range(self.ord_contents(), items@, lo@, hi@),
            res matches Err(e) ==> e is Storage,
    {
        lift(tree_range(&self.ord, lo, hi))
    }

    /// The entries whose keys start with `prefix`, in key order.
    pub fn ord_scan_prefix(&self, prefix: &[u8]) -> (res: Result<Vec<(Vec<u8>, Vec<u8>)>, IndexerError>)
        ensures
            res matches Ok(items) ==> lists_prefix(self.ord_contents(), items@, prefix@),
            res matches Err(e) ==> e is Storage,
    {
        lift(tree_scan_prefix(&self.ord, prefix))
    }

    /// The values whose second keys start with `prefix`, in the order of
    /// those keys; a second key whose record is gone is passed over.
    /// `None` when the table has no second index.
    pub fn alt_scan_prefix(&self, prefix: &[u8]) -> (res: Option<Result<Vec<Vec<u8>>, IndexerError>>)
        ensures
            res is Some <==> self.has_alt(),
            res matches Some(Ok(vals)) ==> exists|items: Seq<(Vec<u8>, Vec<u8>)>|
                #[trigger] lists_prefix(self.alt_contents(), items, prefix@)
                && byte_views(vals@) == read_through(self.ord_contents(), items),
            res matches Some(Err(e)) ==> e is Storage,
    {
        match &self.alt {
            None => None,
            Some(alt) => {
                let pairs = match tree_scan_prefix(alt, prefix) {
                    Ok(pairs) => pairs,
                    Err(e) => return Some(Err(IndexerError::Storage(e))),
                };
                let mut values: Vec<Vec<u8>> = Vec::new();
                let mut i: usize = 0;
                while i < pairs.len()
                    invariant
                        i <= pairs.len(),
                        self.alt is Some,
                        lists_prefix(self.alt_contents(), pairs@, prefix@),
                        byte_views(values@) == read_through(self.ord_contents(), pairs@.take(i as int)),
                    decreases pairs.len() - i,
                {
                    proof {
                        assert(pairs@.take(i + 1).drop_last() =~= pairs@.take(i as int));
                    }
                    match self.ord_get(pairs[i].1.as_slice()) {
                        Ok(Some(v)) => {
                            let ghost before = values@;
                            values.push(v);
                            proof {
                                assert(byte_views(values@) =~= byte_views(before).push(v@));
                            }
                        },
                        Ok(None) => {},
                        Err(e) => return Some(Err(e)),
                    }
                    i = i + 1;
                }
                proof {
                    assert(pairs@.take(pairs.len() as int) =~= pairs@);
                    assert(lists_prefix(self.alt_contents(), pairs@, prefix@));
                }
                Some(Ok(values))
            },
        }
    }
}

} // verus!
