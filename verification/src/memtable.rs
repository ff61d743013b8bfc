//! The in-memory sorted table that accepts all writes.
//!
//! Entries stand in a vector in key order, so that a lookup is a binary search
//! and a flush writes them out as they stand. A deletion is recorded, not
//! carried out: the memtable has to tell "this key was deleted" from "nothing
//! is known of this key", so that a deletion covers an older value in an
//! SSTable.

use crate::entry;
use crate::entry::{Entry, Layer};
use crate::order;
use crate::order::KeyOrder;
use vstd::prelude::*;

verus! {

/// `None` is a tombstone (a recorded deletion), not "value absent".
pub type MemtableValue = Option<Vec<u8>>;

/// A sorted table of values and tombstones, with its approximate size.
pub struct Memtable {
    slots: Vec<(Vec<u8>, MemtableValue)>,
    approx_bytes: usize,
}

impl View for Memtable {
    type V = Layer;

    open spec fn view(&self) -> Layer {
        entry::layer(self.entries())
    }
}

impl Memtable {
    /// The recorded entries, in key order.
    pub closed spec fn entries(self) -> Seq<Entry> {
        entry::entries_view(self.slots@)
    }

    /// The size that is kept up to date with every write.
    pub closed spec fn size(self) -> nat {
        self.approx_bytes as nat
    }

    /// Keys ascend strictly, and the size is that of the keys and values of live
    /// entries.
    pub open spec fn wf(self) -> bool {
        &&& entry::sorted(self.entries())
        &&& self.size() == entry::live_bytes(self.entries())
    }

    /// The bytes that a key counts at present: none where it has no entry, or a
    /// tombstone.
    pub open spec fn bytes_of(self, key: Seq<u8>) -> nat {
        if self@.contains_key(key) {
            entry::live_entry_bytes(Entry { key, value: self@[key] })
        } else {
            0
        }
    }

    /// An empty memtable.
    pub fn new() -> (m: Self)
        ensures
            m.wf(),
            m@ == Map::<Seq<u8>, Option<Seq<u8>>>::empty(),
            m.size() == 0,
    {
        let m = Memtable { slots: Vec::new(), approx_bytes: 0 };
        assert(m.entries() =~= Seq::empty());
        m
    }

    /// Looks for `key`: whether it is there, and the place where it is or
    /// belongs.
    fn search(&self, key: &[u8]) -> (r: (bool, usize))
        requires
            entry::sorted(self.entries()),
        ensures
            r.1 <= self.entries().len(),
            r.0 ==> r.1 < self.entries().len() && self.entries()[r.1 as int].key == key@,
            forall|i: int| 0 <= i < r.1 ==> order::key_lt(#[trigger] self.entries()[i].key, key@),
            !r.0 ==> forall|i: int|
                r.1 <= i < self.entries().len() ==> order::key_lt(
                    key@,
                    #[trigger] self.entries()[i].key,
                ),
    {
        let mut lo: usize = 0;
        let mut hi: usize = self.slots.len();
        while lo < hi
            invariant
                lo <= hi <= self.entries().len(),
                self.slots@.len() == self.entries().len(),
                entry::sorted(self.entries()),
                forall|i: int| 0 <= i < lo ==> order::key_lt(#[trigger] self.entries()[i].key, key@),
                forall|i: int|
                    hi <= i < self.entries().len() ==> order::key_lt(
                        key@,
                        #[trigger] self.entries()[i].key,
                    ),
            decreases hi - lo,
        {
            let mid: usize = lo + (hi - lo) / 2;
            let ghost es = self.entries();
            assert(es[mid as int].key == self.slots@[mid as int].0@);
            match order::compare_keys(self.slots[mid].0.as_slice(), key) {
                KeyOrder::Same => {
                    return (true, mid);
                },
                KeyOrder::Before => {
                    proof {
                        assert forall|i: int| 0 <= i < mid + 1 implies order::key_lt(
                            #[trigger] es[i].key,
                            key@,
                        ) by {
                            if i < mid {
                                order::lemma_key_lt_transitive(es[i].key, es[mid as int].key, key@);
                            }
                        }
                    }
                    lo = mid + 1;
                },
                KeyOrder::After => {
                    proof {
                        assert forall|i: int| mid <= i < es.len() implies order::key_lt(
                            key@,
                            #[trigger] es[i].key,
                        ) by {
                            if i > mid {
                                order::lemma_key_lt_transitive(key@, es[mid as int].key, es[i].key);
                            }
                        }
                    }
                    hi = mid;
                },
            }
        }
        (false, lo)
    }

    /// Records `value` for `key`, in place of what was recorded before.
    pub fn put(&mut self, key: Vec<u8>, value: Vec<u8>)
        requires
            old(self).wf(),
            old(self).size() + key@.len() + value@.len() <= usize::MAX,
        ensures
            final(self).wf(),
            final(self)@ == old(self)@.insert(key@, Some(value@)),
            final(self).size() == old(self).size() - old(self).bytes_of(key@) + key@.len()
                + value@.len(),
    {
        self.record(key, Some(value));
    }

    /// Records that `key` is deleted, in place of what was recorded before.
    pub fn delete(&mut self, key: Vec<u8>)
        requires
            old(self).wf(),
        ensures
            final(self).wf(),
            final(self)@ == old(self)@.insert(key@, None),
            final(self).size() == old(self).size() - old(self).bytes_of(key@),
    {
        self.record(key, None);
    }

    /// Puts an entry in its place. The bytes of the replaced one are taken off the
    /// size, and those of the new one are added.
    fn record(&mut self, key: Vec<u8>, value: MemtableValue)
        requires
            old(self).wf(),
            old(self).size() + entry::live_entry_bytes(entry::entry_view((key, value)))
                <= usize::MAX,
        ensures
            final(self).wf(),
            final(self)@ == old(self)@.insert(key@, entry::value_view(value)),
            final(self).size() == old(self).size() - old(self).bytes_of(key@)
                + entry::live_entry_bytes(entry::entry_view((key, value))),
    {
        let ghost es = self.entries();
        let ghost e = entry::entry_view((key, value));
        let new_len: usize = match &value {
            Some(v) => key.len() + v.len(),
            None => 0,
        };
        let (found, at) = self.search(key.as_slice());
        if found {
            proof {
                entry::lemma_layer_at(es, at as int);
                entry::lemma_sorted_update(es, at as int, e);
                entry::lemma_live_bytes_update(es, at as int, e);
                assert(es[at as int] == entry::entry_view(self.slots@[at as int]));
            }
            let old_len: usize = match &self.slots[at].1 {
                Some(v) => key.len() + v.len(),
                None => 0,
            };
            self.approx_bytes = self.approx_bytes - old_len + new_len;
            self.slots.set(at, (key, value));
            assert(self.entries() =~= es.update(at as int, e));
        } else {
            proof {
                entry::lemma_sorted_insert(es, at as int, e);
                entry::lemma_live_bytes_insert(es, at as int, e);
            }
            self.approx_bytes = self.approx_bytes + new_len;
            self.slots.insert(at, (key, value));
            assert(self.entries() =~= es.insert(at as int, e));
        }
    }

    /// `Some(Some(value))` is a value, `Some(None)` a tombstone, and `None` says
    /// that this memtable has no record of the key at all.
    pub fn get(&self, key: &[u8]) -> (r: Option<&MemtableValue>)
        requires
            self.wf(),
        ensures
            r is Some <==> self@.contains_key(key@),
            r matches Some(v) ==> entry::value_view(*v) == self@[key@],
    {
        let (found, at) = self.search(key);
        if found {
            proof {
                entry::lemma_layer_at(self.entries(), at as int);
                assert(self.entries()[at as int] == entry::entry_view(self.slots@[at as int]));
            }
            Some(&self.slots[at].1)
        } else {
            proof {
                entry::lemma_layer_contains(self.entries(), key@);
                order::lemma_key_lt_irreflexive(key@);
            }
            None
        }
    }

    /// All entries in key order.
    pub fn iter_sorted(&self) -> (r: Vec<(&Vec<u8>, &MemtableValue)>)
        ensures
            r@.len() == self.entries().len(),
            forall|i: int|
                0 <= i < r@.len() ==> {
                    &&& (#[trigger] r@[i]).0@ == self.entries()[i].key
                    &&& entry::value_view(*r@[i].1) == self.entries()[i].value
                },
    {
        let mut r: Vec<(&Vec<u8>, &MemtableValue)> = Vec::new();
        let mut i: usize = 0;
        while i < self.slots.len()
            invariant
                i <= self.slots@.len(),
                r@.len() == i,
                self.slots@.len() == self.entries().len(),
                forall|j: int|
                    0 <= j < i ==> {
                        &&& (#[trigger] r@[j]).0@ == self.entries()[j].key
                        &&& entry::value_view(*r@[j].1) == self.entries()[j].value
                    },
            decreases self.slots@.len() - i,
        {
            let slot = &self.slots[i];
            assert(self.entries()[i as int] == entry::entry_view(self.slots@[i as int]));
            r.push((&slot.0, &slot.1));
            i = i + 1;
        }
        r
    }

    /// The number of recorded keys, deleted ones among them.
    pub fn len(&self) -> (n: usize)
        requires
            self.wf(),
        ensures
            n == self.entries().len(),
            n == self@.len(),
    {
        proof {
            entry::lemma_layer_len(self.entries());
        }
        self.slots.len()
    }

    /// Whether nothing is recorded.
    pub fn is_empty(&self) -> (r: bool)
        ensures
            r == (self.entries().len() == 0),
            r == (self@ == Map::<Seq<u8>, Option<Seq<u8>>>::empty()),
    {
        proof {
            if self.entries().len() > 0 {
                entry::lemma_layer_contains(self.entries(), self.entries()[0].key);
                assert(self@.contains_key(self.entries()[0].key));
            }
        }
        self.slots.len() == 0
    }

    /// The bytes of the keys and values of live entries. A tombstone counts
    /// nothing.
    pub fn approx_size_bytes(&self) -> (n: usize)
        requires
            self.wf(),
        ensures
            n == self.size(),
            n == entry::live_bytes(self.entries()),
    {
        self.approx_bytes
    }

    /// Forgets everything.
    pub fn clear(&mut self)
        ensures
            final(self).wf(),
            final(self)@ == Map::<Seq<u8>, Option<Seq<u8>>>::empty(),
            final(self).size() == 0,
    {
        self.slots.clear();
        self.approx_bytes = 0;
        assert(self.entries() =~= Seq::empty());
    }
}

impl Default for Memtable {
    fn default() -> (m: Self)
        ensures
            m.wf(),
            m@ == Map::<Seq<u8>, Option<Seq<u8>>>::empty(),
            m.size() == 0,
    {
        Memtable::new()
    }
}

} // verus!
