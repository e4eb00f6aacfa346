//! The key directory: the in-memory mapping from key bytes to the
//! locator of the authoritative live record for that key.

use vstd::prelude::*;

use crate::bytes::append_slice;
use crate::bytes::bytes_eq;
use crate::format::DataEntry;

verus! {

/// Locator of a live record: segment id, byte offset, total record
/// size, and the record's timestamp.
#[derive(Debug, Clone, Copy, PartialEq, Eq, Structural)]
pub struct KeydirEntry {
    /// Id of the segment holding the record.
    pub file_id: u64,
    /// Byte offset of the record in that segment.
    pub offset: u64,
    /// Total size of the record in bytes.
    pub size: u64,
    /// Timestamp of the record.
    pub timestamp: u32,
}

impl KeydirEntry {
    /// Builds an entry from its four fields.
    pub fn new(file_id: u64, offset: u64, size: u64, timestamp: u32) -> (r: KeydirEntry)
        ensures
            r == (KeydirEntry { file_id, offset, size, timestamp }),
    {
        KeydirEntry { file_id, offset, size, timestamp }
    }

    /// The locator of a data record whose offset and segment id are
    /// known.
    pub fn from_entry(e: &DataEntry) -> (r: KeydirEntry)
        requires
            e.wf(),
            e.offset is Some,
            e.file_id is Some,
        ensures
            r == (KeydirEntry {
                file_id: e.file_id->0,
                offset: e.offset->0,
                size: e.record().size() as u64,
                timestamp: e.spec_header().timestamp,
            }),
    {
        match (e.offset, e.file_id) {
            (Some(offset), Some(file_id)) => KeydirEntry {
                file_id,
                offset,
                size: e.size(),
                timestamp: e.timestamp(),
            },
            _ => KeydirEntry { file_id: 0, offset: 0, size: 0, timestamp: 0 },
        }
    }
}

/// The insertion rule of the key directory: an incoming entry replaces
/// a stored one only when its timestamp is at least as new.
pub open spec fn spec_kd_put(
    m: Map<Seq<u8>, KeydirEntry>,
    k: Seq<u8>,
    e: KeydirEntry,
) -> Map<Seq<u8>, KeydirEntry> {
    if m.contains_key(k) && e.timestamp < m[k].timestamp {
        m
    } else {
        m.insert(k, e)
    }
}

/// The mapping denoted by a sequence of key/entry pairs, later pairs
/// taking precedence.
pub open spec fn kd_map(s: Seq<(Seq<u8>, KeydirEntry)>) -> Map<Seq<u8>, KeydirEntry>
    decreases s.len(),
{
    if s.len() == 0 {
        Map::empty()
    } else {
        kd_map(s.drop_last()).insert(s.last().0, s.last().1)
    }
}

/// Whether some pair of the sequence carries key `k`.
pub open spec fn has_key(s: Seq<(Seq<u8>, KeydirEntry)>, k: Seq<u8>) -> bool {
    exists|i: int| 0 <= i < s.len() && (#[trigger] s[i]).0 == k
}

/// Whether all pairs of the sequence carry distinct keys.
pub open spec fn keys_unique(s: Seq<(Seq<u8>, KeydirEntry)>) -> bool {
    forall|i: int, j: int| 0 <= i < j < s.len() ==> (#[trigger] s[i]).0 != (#[trigger] s[j]).0
}

/// A key is in the mapping exactly when some pair carries it.
pub proof fn lemma_kd_map_domain(s: Seq<(Seq<u8>, KeydirEntry)>, k: Seq<u8>)
    ensures
        kd_map(s).contains_key(k) <==> has_key(s, k),
    decreases s.len(),
{
    if s.len() > 0 {
        lemma_kd_map_domain(s.drop_last(), k);
        if s.last().0 == k {
            assert(s[s.len() - 1].0 == k);
        } else if has_key(s.drop_last(), k) {
            let i = choose|i: int| 0 <= i < s.drop_last().len() && (#[trigger] s.drop_last()[
                i
            ]).0 == k;
            assert(s[i].0 == k);
        } else if has_key(s, k) {
            let i = choose|i: int| 0 <= i < s.len() && (#[trigger] s[i]).0 == k;
            assert(i < s.len() - 1 ==> s.drop_last()[i].0 == k);
        }
    }
}

/// With distinct keys, the mapping sends each pair's key to its entry.
pub proof fn lemma_kd_map_index(s: Seq<(Seq<u8>, KeydirEntry)>, i: int)
    requires
        keys_unique(s),
        0 <= i < s.len(),
    ensures
        kd_map(s).contains_key(s[i].0),
        kd_map(s)[s[i].0] == s[i].1,
    decreases s.len(),
{
    if i == s.len() - 1 {
    } else {
        lemma_kd_map_index(s.drop_last(), i);
        assert(s.drop_last()[i] == s[i]);
        assert(s[i].0 != s.last().0);
    }
}

/// Replacing the entry of pair `i` updates the mapping at that key.
pub proof fn lemma_kd_map_update(s: Seq<(Seq<u8>, KeydirEntry)>, i: int, e: KeydirEntry)
    requires
        keys_unique(s),
        0 <= i < s.len(),
    ensures
        kd_map(s.update(i, (s[i].0, e))) =~= kd_map(s).insert(s[i].0, e),
    decreases s.len(),
{
    let t = s.update(i, (s[i].0, e));
    if i == s.len() - 1 {
        assert(t.drop_last() =~= s.drop_last());
        assert(t.last() == (s[i].0, e));
    } else {
        assert(t.drop_last() =~= s.drop_last().update(i, (s[i].0, e)));
        assert(s.drop_last()[i] == s[i]);
        lemma_kd_map_update(s.drop_last(), i, e);
        assert(t.last() == s.last());
        assert(s[i].0 != s.last().0);
    }
}

/// Appending a pair with a fresh key inserts it into the mapping.
pub proof fn lemma_kd_map_push(s: Seq<(Seq<u8>, KeydirEntry)>, k: Seq<u8>, e: KeydirEntry)
    ensures
        kd_map(s.push((k, e))) =~= kd_map(s).insert(k, e),
{
    assert(s.push((k, e)).drop_last() =~= s);
}

/// Removing pair `i` removes exactly its key from the mapping.
pub proof fn lemma_kd_map_remove(s: Seq<(Seq<u8>, KeydirEntry)>, i: int)
    requires
        keys_unique(s),
        0 <= i < s.len(),
    ensures
        kd_map(s.remove(i)) =~= kd_map(s).remove(s[i].0),
    decreases s.len(),
{
    let t = s.remove(i);
    if i == s.len() - 1 {
        assert(t =~= s.drop_last());
        lemma_kd_map_domain(s.drop_last(), s[i].0);
        assert(!has_key(s.drop_last(), s[i].0)) by {
            if has_key(s.drop_last(), s[i].0) {
                let j = choose|j: int| 0 <= j < s.drop_last().len() && (#[trigger] s.drop_last()[
                    j
                ]).0 == s[i].0;
                assert(s[j].0 == s[i].0);
            }
        }
    } else {
        assert(t.drop_last() =~= s.drop_last().remove(i));
        assert(t.last() == s.last());
        assert(s.drop_last()[i] == s[i]);
        lemma_kd_map_remove(s.drop_last(), i);
        assert(s[i].0 != s.last().0);
    }
}

/// The key directory, stored as an association list with pairwise
/// distinct keys.
#[derive(Debug)]
pub struct HashmapKeydir {
    /// The stored pairs, in insertion order.
    pub pairs: Vec<(Vec<u8>, KeydirEntry)>,
}

impl HashmapKeydir {
    /// The pairs the directory holds, in insertion order.
    pub open spec fn entries(&self) -> Seq<(Seq<u8>, KeydirEntry)> {
        self.pairs@.map_values(|p: (Vec<u8>, KeydirEntry)| (p.0@, p.1))
    }

    /// The mapping the directory denotes.
    pub open spec fn as_map(&self) -> Map<Seq<u8>, KeydirEntry> {
        kd_map(self.entries())
    }

    /// All stored keys are distinct.
    pub open spec fn wf(&self) -> bool {
        keys_unique(self.entries())
    }

    /// An empty directory.
    pub fn new() -> (r: HashmapKeydir)
        ensures
            r.wf(),
            r.entries() =~= Seq::<(Seq<u8>, KeydirEntry)>::empty(),
            r.as_map() =~= Map::<Seq<u8>, KeydirEntry>::empty(),
    {
        HashmapKeydir { pairs: Vec::new() }
    }

    /// The position of `key` among the stored pairs, if present.
    fn find(&self, key: &[u8]) -> (r: Option<usize>)
        ensures
            match r {
                Some(i) => i < self.entries().len() && self.entries()[i as int].0 == key@,
                None => !has_key(self.entries(), key@),
            },
    {
        let n = self.pairs.len();
        let mut i: usize = 0;
        while i < n
            invariant
                n == self.pairs@.len(),
                i <= n,
                forall|j: int| 0 <= j < i ==> (#[trigger] self.entries()[j]).0 != key@,
            decreases n - i,
        {
            if bytes_eq(self.pairs[i].0.as_slice(), key) {
                return Some(i);
            }
            i = i + 1;
        }
        None
    }

    /// Borrows the entry stored for `key`, if any.
    pub fn get(&self, key: &[u8]) -> (r: Option<&KeydirEntry>)
        requires
            self.wf(),
        ensures
            match r {
                Some(e) => self.as_map().contains_key(key@) && *e == self.as_map()[key@],
                None => !self.as_map().contains_key(key@),
            },
    {
        proof {
            lemma_kd_map_domain(self.entries(), key@);
        }
        match self.find(key) {
            Some(i) => {
                proof {
                    lemma_kd_map_index(self.entries(), i as int);
                }
                Some(&self.pairs[i].1)
            },
            None => None,
        }
    }

    /// Stores `entry` under `key`. An existing entry is replaced only
    /// when the incoming timestamp is at least the stored one; the
    /// entry left standing is returned.
    pub fn put(&mut self, key: Vec<u8>, entry: KeydirEntry) -> (r: KeydirEntry)
        requires
            old(self).wf(),
        ensures
            final(self).wf(),
            final(self).as_map() =~= spec_kd_put(old(self).as_map(), key@, entry),
            final(self).as_map().contains_key(key@),
            r == final(self).as_map()[key@],
            final(self).entries().len() == if has_key(old(self).entries(), key@) {
                old(self).entries().len()
            } else {
                old(self).entries().len() + 1
            },
            forall|i: int|
                0 <= i < final(self).entries().len() ==> (#[trigger] final(self).entries()[
                    i
                ]).0 == if i < old(self).entries().len() {
                    old(self).entries()[i].0
                } else {
                    key@
                },
    {
        proof {
            lemma_kd_map_domain(self.entries(), key@);
        }
        match self.find(key.as_slice()) {
            Some(i) => {
                proof {
                    lemma_kd_map_index(self.entries(), i as int);
                }
                let stored = self.pairs[i].1;
                if stored.timestamp <= entry.timestamp {
                    let ghost s = self.entries();
                    self.pairs[i] = (key, entry);
                    proof {
                        assert(self.entries() =~= s.update(i as int, (s[i as int].0, entry)));
                        lemma_kd_map_update(s, i as int, entry);
                        lemma_kd_map_index(self.entries(), i as int);
                    }
                    entry
                } else {
                    stored
                }
            },
            None => {
                let ghost s = self.entries();
                self.pairs.push((key, entry));
                proof {
                    assert(self.entries() =~= s.push((key@, entry)));
                    lemma_kd_map_push(s, key@, entry);
                    assert forall|i: int, j: int|
                        0 <= i < j < self.entries().len() implies (#[trigger] self.entries()[
                        i
                    ]).0 != (#[trigger] self.entries()[j]).0 by {
                        if j == self.entries().len() - 1 {
                            assert(!has_key(s, key@));
                            assert(s[i].0 != key@);
                        } else {
                            assert(s[i] == self.entries()[i] && s[j] == self.entries()[j]);
                        }
                    }
                    lemma_kd_map_index(self.entries(), self.entries().len() - 1);
                }
                entry
            },
        }
    }

    /// Deletes the entry stored for `key` unconditionally.
    pub fn remove(&mut self, key: &[u8])
        requires
            old(self).wf(),
        ensures
            final(self).wf(),
            final(self).as_map() =~= old(self).as_map().remove(key@),
    {
        proof {
            lemma_kd_map_domain(self.entries(), key@);
        }
        match self.find(key) {
            Some(i) => {
                let ghost s = self.entries();
                let _ = self.pairs.remove(i);
                proof {
                    assert(self.entries() =~= s.remove(i as int));
                    lemma_kd_map_remove(s, i as int);
                    assert forall|a: int, b: int|
                        0 <= a < b < self.entries().len() implies (#[trigger] self.entries()[
                        a
                    ]).0 != (#[trigger] self.entries()[b]).0 by {
                        let a0: int = if a < i { a } else { a + 1 };
                        let b0: int = if b < i { b } else { b + 1 };
                        assert(self.entries()[a] == s[a0] && self.entries()[b] == s[b0]);
                    }
                }
            },
            None => {
                proof {
                    assert(self.as_map() =~= self.as_map().remove(key@));
                }
            },
        }
    }

    /// A snapshot of all stored keys, in insertion order.
    pub fn keys(&self) -> (r: Vec<Vec<u8>>)
        ensures
            r@.len() == self.entries().len(),
            forall|i: int| 0 <= i < r@.len() ==> r@[i]@ == (#[trigger] self.entries()[i]).0,
    {
        let n = self.pairs.len();
        let mut out: Vec<Vec<u8>> = Vec::new();
        let mut i: usize = 0;
        while i < n
            invariant
                n == self.pairs@.len(),
                i <= n,
                out@.len() == i,
                forall|j: int| 0 <= j < i ==> out@[j]@ == (#[trigger] self.entries()[j]).0,
            decreases n - i,
        {
            let k = &self.pairs[i].0;
            let mut copy: Vec<u8> = Vec::new();
            append_slice(&mut copy, k.as_slice(), 0, k.len());
            proof {
                assert(k@.subrange(0, k@.len() as int) =~= k@);
            }
            out.push(copy);
            i = i + 1;
        }
        out
    }

    /// Number of stored keys.
    pub fn len(&self) -> (r: u64)
        ensures
            r == self.entries().len(),
    {
        self.pairs.len() as u64
    }

    /// Number of stored keys, as an index bound.
    pub fn num_entries(&self) -> (r: usize)
        ensures
            r == self.entries().len(),
    {
        self.pairs.len()
    }

    /// Whether `key` is stored.
    pub fn contains_key(&self, key: &[u8]) -> (r: bool)
        requires
            self.wf(),
        ensures
            r <==> self.as_map().contains_key(key@),
    {
        proof {
            lemma_kd_map_domain(self.entries(), key@);
        }
        match self.find(key) {
            Some(_) => true,
            None => false,
        }
    }

    /// Borrows the key of pair `i`.
    pub fn key_at(&self, i: usize) -> (r: &Vec<u8>)
        requires
            i < self.entries().len(),
        ensures
            r@ == self.entries()[i as int].0,
    {
        &self.pairs[i].0
    }

    /// The entry of pair `i`.
    pub fn entry_at(&self, i: usize) -> (r: KeydirEntry)
        requires
            i < self.entries().len(),
        ensures
            r == self.entries()[i as int].1,
    {
        self.pairs[i].1
    }

    /// Replaces the entry of pair `i`, leaving its key unchanged.
    pub fn set_entry_at(&mut self, i: usize, e: KeydirEntry)
        requires
            old(self).wf(),
            i < old(self).entries().len(),
        ensures
            final(self).wf(),
            final(self).entries() =~= old(self).entries().update(
                i as int,
                (old(self).entries()[i as int].0, e),
            ),
            final(self).as_map() =~= old(self).as_map().insert(old(self).entries()[i as int].0, e),
    {
        let ghost s = self.entries();
        let k = &self.pairs[i].0;
        let mut copy: Vec<u8> = Vec::new();
        append_slice(&mut copy, k.as_slice(), 0, k.len());
        proof {
            assert(k@.subrange(0, k@.len() as int) =~= k@);
        }
        self.pairs[i] = (copy, e);
        proof {
            assert(self.entries() =~= s.update(i as int, (s[i as int].0, e)));
            lemma_kd_map_update(s, i as int, e);
        }
    }
}

} // verus!
