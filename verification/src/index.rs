//! The in-memory index: for each live key, where its value lies in the log.

use vstd::prelude::*;
use crate::pattern::matches_here;

verus! {

/// A run of bytes in the log, as mathematical integers.
pub struct Extent {
    pub offset: int,
    pub length: int,
}

/// Where a value lies in the log: the offset of its first byte, counted from
/// the start of the log, and its length. Key, separator, delete marker and
/// terminator are not part of it.
#[derive(Clone, Copy, Debug, PartialEq, Eq, Structural)]
pub struct IndexEntry {
    pub value_offset: u64,
    pub value_length: u64,
}

impl IndexEntry {
    /// The same run of bytes as mathematical integers.
    pub open spec fn extent(self) -> Extent {
        Extent { offset: self.value_offset as int, length: self.value_length as int }
    }
}

/// The keys of a list as mathematical values.
pub open spec fn key_views(keys: Seq<Vec<u8>>) -> Seq<Seq<u8>> {
    Seq::new(keys.len(), |i: int| keys[i]@)
}

/// A key with its entry.
struct Slot {
    key: Vec<u8>,
    entry: IndexEntry,
}

/// A map from keys to entries. A key occurs at most once: an insert under a
/// key that is present replaces its entry.
pub struct Index {
    slots: Vec<Slot>,
}

/// Whether two byte strings are equal.
pub fn same_bytes(a: &[u8], b: &[u8]) -> (same: bool)
    ensures
        same == (a@ == b@),
{
    if a.len() != b.len() {
        return false;
    }
    let same = matches_here(a, b, 0);
    assert(a@.subrange(0, a@.len() as int) =~= a@);
    same
}

impl Index {
    /// The keys in the order in which they are held.
    closed spec fn key_seq(&self) -> Seq<Seq<u8>> {
        Seq::new(self.slots@.len(), |i: int| self.slots@[i].key@)
    }

    /// No key is held twice.
    pub closed spec fn wf(&self) -> bool {
        self.key_seq().no_duplicates()
    }

    /// The map that the index stands for.
    pub closed spec fn view(&self) -> Map<Seq<u8>, Extent> {
        Map::new(
            |key: Seq<u8>| self.key_seq().contains(key),
            |key: Seq<u8>| self.slots@[self.key_seq().index_of(key)].entry.extent(),
        )
    }

    /// The slot at `i` is what the map holds under its key.
    proof fn lemma_slot(&self, i: int)
        requires
            self.wf(),
            0 <= i < self.slots@.len(),
        ensures
            self@.contains_key(self.slots@[i].key@),
            self@[self.slots@[i].key@] == self.slots@[i].entry.extent(),
    {
        let keys = self.key_seq();
        let key = self.slots@[i].key@;
        assert(keys[i] == key);
        assert(keys.contains(key));
        let j = keys.index_of(key);
        assert(keys[j] == key);
        assert(j == i);
    }

    /// The map is finite and has as many keys as there are slots.
    proof fn lemma_size(&self)
        requires
            self.wf(),
        ensures
            self@.dom().finite(),
            self@.dom().len() == self.slots@.len(),
            self@.dom() == self.key_seq().to_set(),
    {
        let keys = self.key_seq();
        assert(self@.dom() =~= keys.to_set());
        keys.unique_seq_to_set();
    }

    /// The index holds finitely many keys.
    pub proof fn lemma_finite(&self)
        requires
            self.wf(),
        ensures
            self@.dom().finite(),
    {
        self.lemma_size();
    }

    /// An index without keys.
    pub fn new() -> (index: Index)
        ensures
            index.wf(),
            index@ == Map::<Seq<u8>, Extent>::empty(),
    {
        let index = Index { slots: Vec::new() };
        assert(index@ =~= Map::<Seq<u8>, Extent>::empty());
        index
    }

    /// Where `key` is held, if it is.
    fn position(&self, key: &[u8]) -> (found: Option<usize>)
        requires
            self.wf(),
        ensures
            match found {
                Some(i) => i < self.slots@.len() && self.slots@[i as int].key@ == key@,
                None => !self@.contains_key(key@),
            },
    {
        let mut i: usize = 0;
        while i < self.slots.len()
            invariant
                i <= self.slots@.len(),
                forall|j: int| 0 <= j < i ==> self.slots@[j].key@ != key@,
            decreases self.slots@.len() - i,
        {
            if same_bytes(self.slots[i].key.as_slice(), key) {
                return Some(i);
            }
            i += 1;
        }
        proof {
            let keys = self.key_seq();
            if keys.contains(key@) {
                let j = keys.index_of(key@);
                assert(keys[j] == key@);
                assert(self.slots@[j].key@ == key@);
            }
        }
        None
    }

    /// The entry under `key`.
    pub fn get(&self, key: &[u8]) -> (found: Option<IndexEntry>)
        requires
            self.wf(),
        ensures
            match found {
                Some(entry) => self@.contains_key(key@) && self@[key@] == entry.extent(),
                None => !self@.contains_key(key@),
            },
    {
        match self.position(key) {
            Some(i) => {
                proof {
                    self.lemma_slot(i as int);
                }
                Some(self.slots[i].entry)
            },
            None => None,
        }
    }

    /// Puts `entry` under `key`, in place of what was there.
    pub fn insert(&mut self, key: Vec<u8>, entry: IndexEntry)
        requires
            old(self).wf(),
        ensures
            final(self).wf(),
            final(self)@ == old(self)@.insert(key@, entry.extent()),
    {
        let ghost before = *self;
        match self.position(key.as_slice()) {
            Some(i) => {
                let slot = Slot { key, entry };
                self.slots.set(i, slot);
                proof {
                    let keys = before.key_seq();
                    assert(self.key_seq() =~= keys);
                    assert(keys[i as int] == key@);
                    assert forall|k: Seq<u8>| self@.contains_key(k) implies #[trigger] self@[k]
                        == before@.insert(key@, entry.extent())[k] by {
                        let j = keys.index_of(k);
                        assert(keys[j] == k);
                        self.lemma_slot(j);
                        before.lemma_slot(j);
                        if j == i {
                            assert(self.slots@[j].entry == entry);
                        } else {
                            assert(self.slots@[j] == before.slots@[j]);
                            assert(k != key@);
                        }
                    }
                    before.lemma_slot(i as int);
                    assert(self@ =~= before@.insert(key@, entry.extent()));
                }
            },
            None => {
                let slot = Slot { key, entry };
                self.slots.push(slot);
                proof {
                    let n = before.slots@.len() as int;
                    assert(self.key_seq() =~= before.key_seq().push(key@));
                    assert(!before.key_seq().contains(key@));
                    assert(self.key_seq().no_duplicates()) by {
                        assert forall|a: int, b: int|
                            0 <= a < self.key_seq().len() && 0 <= b < self.key_seq().len() && a
                                != b implies self.key_seq()[a] != self.key_seq()[b] by {
                            if a < n && b < n {
                                assert(before.key_seq()[a] != before.key_seq()[b]);
                            } else if a < n {
                                assert(before.key_seq()[a] == self.key_seq()[a]);
                                assert(before.key_seq().contains(self.key_seq()[a]));
                            } else {
                                assert(before.key_seq()[b] == self.key_seq()[b]);
                                assert(before.key_seq().contains(self.key_seq()[b]));
                            }
                        }
                    }
                    assert forall|k: Seq<u8>| self@.contains_key(k) implies #[trigger] self@[k]
                        == before@.insert(key@, entry.extent())[k] by {
                        let j = self.key_seq().index_of(k);
                        assert(self.key_seq()[j] == k);
                        self.lemma_slot(j);
                        if j < n {
                            assert(before.key_seq()[j] == k);
                            assert(before.key_seq().contains(k));
                            assert(self.slots@[j] == before.slots@[j]);
                            before.lemma_slot(j);
                        } else {
                            assert(self.slots@[j].entry == entry);
                        }
                    }
                    assert forall|k: Seq<u8>| before@.contains_key(k) implies self@.contains_key(
                        k,
                    ) by {
                        let j = before.key_seq().index_of(k);
                        assert(before.key_seq()[j] == k);
                        assert(self.key_seq()[j] == k);
                    }
                    assert(self.key_seq()[n] == key@);
                    assert(self@ =~= before@.insert(key@, entry.extent()));
                }
            },
        }
    }

    /// Takes `key` out. An absent key changes nothing.
    pub fn remove(&mut self, key: &[u8])
        requires
            old(self).wf(),
        ensures
            final(self).wf(),
            final(self)@ == old(self)@.remove(key@),
    {
        let ghost before = *self;
        match self.position(key) {
            Some(i) => {
                self.slots.remove(i);
                proof {
                    let old_keys = before.key_seq();
                    let new_keys = self.key_seq();
                    assert(new_keys =~= old_keys.remove(i as int));
                    assert forall|a: int, b: int|
                        0 <= a < new_keys.len() && 0 <= b < new_keys.len() && a
                            != b implies new_keys[a] != new_keys[b] by {
                        let a0 = if a < i { a } else { a + 1 };
                        let b0 = if b < i { b } else { b + 1 };
                        assert(new_keys[a] == old_keys[a0]);
                        assert(new_keys[b] == old_keys[b0]);
                    }
                    assert(old_keys[i as int] == key@);
                    assert forall|k: Seq<u8>| #[trigger]
                        self@.contains_key(k) == before@.remove(key@).contains_key(k) by {
                        if self@.contains_key(k) {
                            let j = new_keys.index_of(k);
                            assert(new_keys[j] == k);
                            let j0 = if j < i { j } else { j + 1 };
                            assert(old_keys[j0] == k);
                            assert(old_keys.contains(k));
                        }
                        if before@.remove(key@).contains_key(k) {
                            let j0 = old_keys.index_of(k);
                            assert(old_keys[j0] == k);
                            assert(j0 != i);
                            let j = if j0 < i { j0 } else { j0 - 1 };
                            assert(new_keys[j] == k);
                        }
                    }
                    assert forall|k: Seq<u8>| self@.contains_key(k) implies #[trigger] self@[k]
                        == before@.remove(key@)[k] by {
                        let j = new_keys.index_of(k);
                        assert(new_keys[j] == k);
                        let j0 = if j < i { j } else { j + 1 };
                        assert(old_keys[j0] == k);
                        assert(self.slots@[j] == before.slots@[j0]);
                        self.lemma_slot(j);
                        before.lemma_slot(j0);
                    }
                    assert(self@ =~= before@.remove(key@));
                }
            },
            None => {
                assert(!before@.contains_key(key@));
                assert(before@.remove(key@) =~= before@);
            },
        }
    }

    /// The number of keys.
    pub fn len(&self) -> (count: usize)
        requires
            self.wf(),
        ensures
            self@.dom().finite(),
            count == self@.dom().len(),
    {
        proof {
            self.lemma_size();
        }
        self.slots.len()
    }

    /// The keys, each once, in no promised order.
    pub fn keys(&self) -> (keys: Vec<Vec<u8>>)
        requires
            self.wf(),
        ensures
            key_views(keys@).no_duplicates(),
            key_views(keys@).to_set() == self@.dom(),
    {
        let mut keys: Vec<Vec<u8>> = Vec::new();
        let mut i: usize = 0;
        while i < self.slots.len()
            invariant
                i <= self.slots@.len(),
                keys@.len() == i,
                forall|j: int| 0 <= j < i ==> #[trigger] keys@[j]@ == self.slots@[j].key@,
            decreases self.slots@.len() - i,
        {
            let key = slice_to_owned(self.slots[i].key.as_slice());
            keys.push(key);
            i += 1;
        }
        proof {
            self.lemma_size();
            assert(key_views(keys@) =~= self.key_seq());
        }
        keys
    }

    /// Takes every key out.
    pub fn clear(&mut self)
        ensures
            final(self).wf(),
            final(self)@ == Map::<Seq<u8>, Extent>::empty(),
    {
        self.slots.clear();
        assert(self@ =~= Map::<Seq<u8>, Extent>::empty());
    }
}

/// A copy of `bytes` that owns its storage.
pub fn slice_to_owned(bytes: &[u8]) -> (owned: Vec<u8>)
    ensures
        owned@ == bytes@,
{
    let mut owned: Vec<u8> = Vec::new();
    crate::codec::append_bytes(&mut owned, bytes);
    assert(owned@ =~= bytes@);
    owned
}

} // verus!
