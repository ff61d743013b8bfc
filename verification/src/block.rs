//! The data block of an SSTable: entries one after the other.
//!
//! ```text
//! [key_len: u32 LE] [value_len: u32 LE, or u32::MAX] [key bytes] [value bytes]
//! ```
//!
//! A value length of `u32::MAX` says that the entry is a tombstone; a value is
//! therefore shorter than that.

use crate::bytes;
use crate::entry;
use crate::entry::Entry;
use crate::order;
use crate::order::KeyOrder;
use vstd::prelude::*;

verus! {

broadcast use bytes::group_le_len;

/// The value length that marks a tombstone.
pub const TOMBSTONE_SENTINEL: u32 = 0xffff_ffff;

/// Why a table cannot be built or read.
#[derive(Clone, Copy, Debug, PartialEq, Eq, Structural)]
pub enum TableError {
    /// A key or value is longer than the format can say.
    EntryTooLarge,
    /// The entries for a new table are not in key order.
    Unsorted,
    /// The Bloom filter would have more bits than can be counted.
    FilterTooLarge,
    /// The file is shorter than its footer.
    TooShort,
    /// The file does not end in the magic number.
    BadMagic,
    /// The lengths in the footer do not add up to the length of the file.
    BadLayout,
    /// The index block cannot be read, or its entries are out of order.
    BadIndex,
    /// The meta block cannot be read.
    BadMeta,
    /// The Bloom filter cannot be read, or has fewer words than it needs.
    BadFilter,
    /// An entry of the data block runs past its end.
    BadEntry,
}

/// The lengths of key and value can be written.
pub open spec fn fits(e: Entry) -> bool {
    e.key.len() <= u32::MAX && match e.value {
        Some(v) => v.len() < u32::MAX,
        None => true,
    }
}

/// All entries can be written.
pub open spec fn all_fit(es: Seq<Entry>) -> bool {
    forall|i: int| 0 <= i < es.len() ==> fits(#[trigger] es[i])
}

/// The bytes of one entry.
pub open spec fn encoded(e: Entry) -> Seq<u8> {
    match e.value {
        Some(v) => bytes::le_u32(e.key.len() as u32) + bytes::le_u32(v.len() as u32) + e.key + v,
        None => bytes::le_u32(e.key.len() as u32) + bytes::le_u32(TOMBSTONE_SENTINEL) + e.key,
    }
}

/// The bytes of all entries.
pub open spec fn block_of(es: Seq<Entry>) -> Seq<u8>
    decreases es.len(),
{
    if es.len() == 0 {
        Seq::empty()
    } else {
        block_of(es.drop_last()) + encoded(es.last())
    }
}

/// The entry that `b` starts with and its length in bytes, or `None` where it
/// runs past the end.
pub open spec fn first_entry(b: Seq<u8>) -> Option<(Entry, int)> {
    if b.len() < 8 {
        None
    } else {
        let key_end = 8 + bytes::u32_at(b, 0);
        let tombstone = bytes::u32_at(b, 4) == TOMBSTONE_SENTINEL;
        let end = if tombstone {
            key_end
        } else {
            key_end + bytes::u32_at(b, 4)
        };
        if b.len() < end {
            None
        } else {
            let value = if tombstone {
                None
            } else {
                Some(b.subrange(key_end, end))
            };
            Some((Entry { key: b.subrange(8, key_end), value }, end))
        }
    }
}

/// All entries of a block, or `None` where one runs past its end.
pub open spec fn block_entries(b: Seq<u8>) -> Option<Seq<Entry>>
    decreases b.len(),
{
    if b.len() == 0 {
        Some(Seq::empty())
    } else {
        match first_entry(b) {
            None => None,
            Some((e, n)) => match block_entries(b.skip(n)) {
                None => None,
                Some(rest) => Some(seq![e] + rest),
            },
        }
    }
}

/// What a search from the start of `b` finds for `key`. The search ends at the
/// key, or at the first greater key.
pub open spec fn scan(b: Seq<u8>, key: Seq<u8>) -> Result<Option<Option<Seq<u8>>>, TableError>
    decreases b.len(),
{
    if b.len() == 0 {
        Ok(None)
    } else {
        match first_entry(b) {
            None => Err(TableError::BadEntry),
            Some((e, n)) => if e.key == key {
                Ok(Some(e.value))
            } else if order::key_lt(key, e.key) {
                Ok(None)
            } else {
                scan(b.skip(n), key)
            },
        }
    }
}

/// An entry that was written is read back, whatever follows it.
pub proof fn lemma_first_entry_of_encoded(e: Entry, rest: Seq<u8>)
    requires
        fits(e),
    ensures
        first_entry(encoded(e) + rest) == Some((e, encoded(e).len() as int)),
{
    let b = encoded(e) + rest;
    let kl = e.key.len() as int;
    assert(b.subrange(0, 4) =~= bytes::le_u32(e.key.len() as u32));
    bytes::lemma_u32_roundtrip(b, 0, e.key.len() as u32);
    assert(b.subrange(8, 8 + kl) =~= e.key);
    match e.value {
        Some(v) => {
            assert(b.subrange(4, 8) =~= bytes::le_u32(v.len() as u32));
            bytes::lemma_u32_roundtrip(b, 4, v.len() as u32);
            assert(b.subrange(8 + kl, 8 + kl + v.len()) =~= v);
        },
        None => {
            assert(b.subrange(4, 8) =~= bytes::le_u32(TOMBSTONE_SENTINEL));
            bytes::lemma_u32_roundtrip(b, 4, TOMBSTONE_SENTINEL);
        },
    }
}

/// An entry is the same whatever follows it.
pub proof fn lemma_first_entry_of_front(b: Seq<u8>, rest: Seq<u8>)
    requires
        first_entry(b) is Some,
    ensures
        first_entry(b + rest) == first_entry(b),
        0 < first_entry(b).unwrap().1 <= b.len(),
{
    let all = b + rest;
    assert(all.subrange(0, 4) =~= b.subrange(0, 4));
    assert(all.subrange(4, 8) =~= b.subrange(4, 8));
    bytes::lemma_u32_at_same(all, 0, b, 0);
    bytes::lemma_u32_at_same(all, 4, b, 4);
    let key_end = 8 + bytes::u32_at(b, 0);
    assert(all.subrange(8, key_end) =~= b.subrange(8, key_end));
    if bytes::u32_at(b, 4) != TOMBSTONE_SENTINEL {
        let end = key_end + bytes::u32_at(b, 4);
        assert(all.subrange(key_end, end) =~= b.subrange(key_end, end));
    }
}

/// An entry takes up at least its two lengths.
pub proof fn lemma_encoded_len(e: Entry)
    ensures
        encoded(e).len() == 8 + entry::entry_bytes(e),
{
}

/// The block of two runs of entries.
pub proof fn lemma_block_of_add(a: Seq<Entry>, b: Seq<Entry>)
    ensures
        block_of(a + b) == block_of(a) + block_of(b),
    decreases b.len(),
{
    if b.len() == 0 {
        assert(a + b =~= a);
        assert(block_of(a) + block_of(b) =~= block_of(a));
    } else {
        lemma_block_of_add(a, b.drop_last());
        assert((a + b).drop_last() =~= a + b.drop_last());
        assert(block_of(a + b) =~= block_of(a) + block_of(b));
    }
}

/// The block of one entry more.
pub proof fn lemma_block_of_push(es: Seq<Entry>, e: Entry)
    ensures
        block_of(es.push(e)) == block_of(es) + encoded(e),
{
    assert(es.push(e).drop_last() =~= es);
}

/// Reading a block gives exactly the entries that were written.
pub proof fn lemma_block_entries_of_block(es: Seq<Entry>)
    requires
        all_fit(es),
    ensures
        block_entries(block_of(es)) == Some(es),
    decreases es.len(),
{
    if es.len() > 0 {
        let e = es[0];
        let tail = es.drop_first();
        lemma_block_of_first(es);
        lemma_first_entry_of_encoded(e, block_of(tail));
        lemma_encoded_len(e);
        assert((encoded(e) + block_of(tail)).skip(encoded(e).len() as int) =~= block_of(tail));
        assert forall|i: int| 0 <= i < tail.len() implies fits(#[trigger] tail[i]) by {
            assert(fits(es[i + 1]));
        }
        lemma_block_entries_of_block(tail);
        assert(seq![e] + tail =~= es);
    } else {
        assert(es =~= Seq::empty());
    }
}

/// A block starts with its first entry.
pub proof fn lemma_block_of_first(es: Seq<Entry>)
    requires
        es.len() > 0,
    ensures
        block_of(es) == encoded(es[0]) + block_of(es.drop_first()),
{
    let one = Seq::<Entry>::empty().push(es[0]);
    lemma_block_of_add(one, es.drop_first());
    lemma_block_of_push(Seq::empty(), es[0]);
    assert(one + es.drop_first() =~= es);
    assert(Seq::<u8>::empty() + encoded(es[0]) =~= encoded(es[0]));
}

/// Searching a block of sorted entries finds what they say of the key.
pub proof fn lemma_scan_of_block(es: Seq<Entry>, key: Seq<u8>)
    requires
        all_fit(es),
        entry::sorted(es),
    ensures
        scan(block_of(es), key) == Ok::<Option<Option<Seq<u8>>>, TableError>(
            if entry::layer(es).contains_key(key) {
                Some(entry::layer(es)[key])
            } else {
                None
            },
        ),
    decreases es.len(),
{
    entry::lemma_layer_contains(es, key);
    if es.len() > 0 {
        let e = es[0];
        let tail = es.drop_first();
        lemma_block_of_first(es);
        lemma_first_entry_of_encoded(e, block_of(tail));
        lemma_encoded_len(e);
        assert((encoded(e) + block_of(tail)).skip(encoded(e).len() as int) =~= block_of(tail));
        assert forall|i: int| 0 <= i < tail.len() implies fits(#[trigger] tail[i]) by {
            assert(fits(es[i + 1]));
        }
        entry::lemma_layer_at(es, 0);
        if e.key == key {
        } else if order::key_lt(key, e.key) {
            if entry::layer(es).contains_key(key) {
                let i = choose|i: int| 0 <= i < es.len() && #[trigger] es[i].key == key;
                assert(order::key_lt(es[0].key, es[i].key));
                order::lemma_key_lt_asymmetric(es[0].key, es[i].key);
            }
        } else {
            assert(tail =~= es.subrange(1, es.len() as int));
            entry::lemma_sorted_subrange(es, 1, es.len() as int);
            lemma_scan_of_block(tail, key);
            entry::lemma_layer_contains(tail, key);
            if entry::layer(es).contains_key(key) {
                let i = choose|i: int| 0 <= i < es.len() && #[trigger] es[i].key == key;
                assert(tail[i - 1].key == key);
                entry::lemma_layer_at(es, i);
                entry::lemma_layer_at(tail, i - 1);
            }
            if entry::layer(tail).contains_key(key) {
                let i = choose|i: int| 0 <= i < tail.len() && #[trigger] tail[i].key == key;
                assert(es[i + 1].key == key);
            }
        }
    }
}

/// An entry can be written where its key has at most 2^32 - 1 bytes and its value,
/// if it has one, fewer than that.
pub proof fn lemma_what_fits(e: Entry)
    ensures
        fits(e) <==> e.key.len() <= 0xffff_ffff && (e.value matches Some(v) ==> v.len()
            < 0xffff_ffff),
{
}

/// The bytes of an entry: the lengths of key and value in four bytes each, the key
/// and the value. A tombstone has the greatest number in place of the value's
/// length.
pub proof fn lemma_entry_bytes(e: Entry)
    requires
        e.key.len() <= 0xffff_ffff,
        e.value matches Some(v) ==> v.len() < 0xffff_ffff,
    ensures
        ({
            let b = encoded(e);
            let n = e.key.len() as int;
            &&& b.len() >= 8 + n
            &&& b[0] + 0x100 * b[1] + 0x1_0000 * b[2] + 0x100_0000 * b[3] == n
            &&& b.subrange(8, 8 + n) == e.key
            &&& match e.value {
                Some(v) => {
                    &&& b[4] + 0x100 * b[5] + 0x1_0000 * b[6] + 0x100_0000 * b[7] == v.len()
                    &&& b.skip(8 + n) == v
                },
                None => {
                    &&& b[4] == 255 && b[5] == 255 && b[6] == 255 && b[7] == 255
                    &&& b.len() == 8 + n
                },
            }
        }),
{
    let b = encoded(e);
    let n = e.key.len() as int;
    let second: u32 = match e.value {
        Some(v) => v.len() as u32,
        None => 0xffff_ffff,
    };
    bytes::lemma_le_u32_bytes(n as u32);
    bytes::lemma_le_u32_bytes(second);
    let c = bytes::le_u32(second);
    assert(b[4] == c[0] && b[5] == c[1] && b[6] == c[2] && b[7] == c[3]);
    assert(b.subrange(8, 8 + n) =~= e.key);
    if let Some(v) = e.value {
        assert(b.skip(8 + n) =~= v);
    }
}

/// An entry that is read is the one whose bytes stand there.
pub proof fn lemma_first_entry_is_encoded(b: Seq<u8>)
    ensures
        first_entry(b) matches Some((e, n)) ==> {
            &&& 0 < n <= b.len()
            &&& b.take(n) == encoded(e)
            &&& e.key.len() <= 0xffff_ffff
            &&& e.value matches Some(v) ==> v.len() < 0xffff_ffff
        },
{
    if let Some((e, n)) = first_entry(b) {
        bytes::lemma_le_u32_at(b, 0);
        bytes::lemma_le_u32_at(b, 4);
        assert(e.key.len() as u32 == bytes::u32_at(b, 0));
        if let Some(v) = e.value {
            assert(v.len() as u32 == bytes::u32_at(b, 4));
        }
        assert(b.take(n) =~= encoded(e));
    }
}

/// Whatever the bytes are, where all entries can be read they are the bytes of
/// those entries.
pub proof fn lemma_block_entries_are_block(b: Seq<u8>)
    ensures
        block_entries(b) matches Some(es) ==> block_of(es) == b && all_fit(es),
    decreases b.len(),
{
    if b.len() > 0 {
        if let Some((e, n)) = first_entry(b) {
            lemma_first_entry_is_encoded(b);
            lemma_block_entries_are_block(b.skip(n));
            if let Some(rest) = block_entries(b.skip(n)) {
                let es = seq![e] + rest;
                assert(es.drop_first() =~= rest);
                lemma_block_of_first(es);
                assert(b =~= b.take(n) + b.skip(n));
                assert forall|i: int| 0 <= i < es.len() implies fits(#[trigger] es[i]) by {
                    if i > 0 {
                        assert(fits(rest[i - 1]));
                    }
                }
            }
        }
    }
}

/// A search passes over the entries before the key, and ends at the key or at the
/// first greater one. What comes behind that is not looked at, be it damaged or
/// not.
pub proof fn lemma_scan_ends_at_key(es: Seq<Entry>, e: Entry, rest: Seq<u8>, key: Seq<u8>)
    requires
        all_fit(es),
        fits(e),
        forall|i: int| 0 <= i < es.len() ==> order::key_lt((#[trigger] es[i]).key, key),
    ensures
        scan(block_of(es) + rest, key) == scan(rest, key),
        e.key == key ==> scan(encoded(e) + rest, key) == Ok::<
            Option<Option<Seq<u8>>>,
            TableError,
        >(Some(e.value)),
        order::key_lt(key, e.key) ==> scan(encoded(e) + rest, key) == Ok::<
            Option<Option<Seq<u8>>>,
            TableError,
        >(None),
        scan(Seq::empty(), key) == Ok::<Option<Option<Seq<u8>>>, TableError>(None),
        rest.len() > 0 && first_entry(rest) is None ==> scan(rest, key) == Err::<
            Option<Option<Seq<u8>>>,
            TableError,
        >(TableError::BadEntry),
    decreases es.len(),
{
    lemma_first_entry_of_encoded(e, rest);
    lemma_encoded_len(e);
    if order::key_lt(key, e.key) {
        order::lemma_key_lt_asymmetric(key, e.key);
    }
    if es.len() == 0 {
        assert(block_of(es) + rest =~= rest);
    } else {
        let f = es[0];
        let tail = es.drop_first();
        let behind = block_of(tail) + rest;
        lemma_block_of_first(es);
        assert(fits(f));
        assert(block_of(es) + rest =~= encoded(f) + behind);
        lemma_first_entry_of_encoded(f, behind);
        lemma_encoded_len(f);
        assert((encoded(f) + behind).skip(encoded(f).len() as int) =~= behind);
        assert(order::key_lt(f.key, key));
        order::lemma_key_lt_asymmetric(f.key, key);
        assert forall|i: int| 0 <= i < tail.len() implies fits(#[trigger] tail[i])
            && order::key_lt(tail[i].key, key) by {
            assert(fits(es[i + 1]));
        }
        lemma_scan_ends_at_key(tail, e, rest, key);
    }
}

/// The length of a part of a block.
pub proof fn lemma_block_of_parts(es: Seq<Entry>, from: int, to: int)
    requires
        0 <= from <= to <= es.len(),
    ensures
        block_of(es.take(from)).len() <= block_of(es.take(to)).len() <= block_of(es).len(),
        block_of(es).subrange(
            block_of(es.take(from)).len() as int,
            block_of(es.take(to)).len() as int,
        ) == block_of(es.subrange(from, to)),
{
    let a = es.take(from);
    let b = es.subrange(from, to);
    let c = es.skip(to);
    lemma_block_of_add(a, b);
    lemma_block_of_add(es.take(to), c);
    assert(a + b =~= es.take(to));
    assert(es.take(to) + c =~= es);
    assert(block_of(es).subrange(
        block_of(a).len() as int,
        block_of(es.take(to)).len() as int,
    ) =~= block_of(b));
}

/// Appends the bytes of an entry to `buf`.
pub fn encode_entry(buf: &mut Vec<u8>, key: &[u8], value: &Option<Vec<u8>>)
    ensures
        final(buf)@ == old(buf)@ + encoded(Entry { key: key@, value: entry::value_view(*value) }),
{
    bytes::push_u32(buf, key.len() as u32);
    match value {
        Some(v) => {
            bytes::push_u32(buf, v.len() as u32);
            bytes::push_bytes(buf, key);
            bytes::push_bytes(buf, v.as_slice());
        },
        None => {
            bytes::push_u32(buf, TOMBSTONE_SENTINEL);
            bytes::push_bytes(buf, key);
        },
    }
    assert(buf@ =~= old(buf)@ + encoded(Entry { key: key@, value: entry::value_view(*value) }));
}

/// Reads the entry that `b` starts with, and gives its length.
pub fn read_entry(b: &[u8]) -> (r: Option<((Vec<u8>, Option<Vec<u8>>), usize)>)
    ensures
        match r {
            Some((e, n)) => first_entry(b@) == Some((entry::entry_view(e), n as int)),
            None => first_entry(b@) is None,
        },
{
    if b.len() < 8 {
        return None;
    }
    let key_len: u32 = bytes::read_u32(b, 0);
    let value_len: u32 = bytes::read_u32(b, 4);
    if b.len() - 8 < key_len as usize {
        return None;
    }
    let key_end: usize = 8 + key_len as usize;
    let key = bytes::copy_bytes(vstd::slice::slice_subrange(b, 8, key_end));
    if value_len == TOMBSTONE_SENTINEL {
        return Some(((key, None), key_end));
    }
    if b.len() - key_end < value_len as usize {
        return None;
    }
    let end: usize = key_end + value_len as usize;
    let value = bytes::copy_bytes(vstd::slice::slice_subrange(b, key_end, end));
    Some(((key, Some(value)), end))
}

/// Walks the entries of a data block from its start, one at a time.
pub struct SsTableIterator<'a> {
    data: &'a [u8],
    pos: usize,
}

impl<'a> SsTableIterator<'a> {
    /// The bytes that are still to be read.
    pub closed spec fn remaining(self) -> Seq<u8> {
        self.data@.skip(self.pos as int)
    }

    /// The place in the block is inside it.
    pub closed spec fn wf(self) -> bool {
        self.pos <= self.data@.len()
    }

    /// Starts at the first entry.
    pub fn new(data: &'a [u8]) -> (it: Self)
        ensures
            it.wf(),
            it.remaining() == data@,
    {
        let it = SsTableIterator { data, pos: 0 };
        assert(it.remaining() =~= data@);
        it
    }

    /// The next entry. `None` says that all have been read; an error says that
    /// the next one runs past the end of the block.
    pub fn next(&mut self) -> (r: Option<Result<(Vec<u8>, Option<Vec<u8>>), TableError>>)
        requires
            old(self).wf(),
        ensures
            final(self).wf(),
            r is None ==> {
                &&& old(self).remaining().len() == 0
                &&& final(self).remaining() == old(self).remaining()
            },
            r matches Some(Ok(e)) ==> {
                &&& first_entry(old(self).remaining()) matches Some((f, n))
                &&& f == entry::entry_view(e)
                &&& 0 < n <= old(self).remaining().len()
                &&& final(self).remaining() == old(self).remaining().skip(n)
            },
            r matches Some(Err(x)) ==> {
                &&& old(self).remaining().len() > 0
                &&& first_entry(old(self).remaining()) is None
                &&& x == TableError::BadEntry
                &&& final(self).remaining() == old(self).remaining()
            },
    {
        if self.pos == self.data.len() {
            return None;
        }
        let rest = vstd::slice::slice_subrange(self.data, self.pos, self.data.len());
        assert(rest@ =~= self.remaining());
        match read_entry(rest) {
            None => Some(Err(TableError::BadEntry)),
            Some((e, n)) => {
                let ghost before = self.remaining();
                self.pos = self.pos + n;
                assert(self.remaining() =~= before.skip(n as int));
                Some(Ok(e))
            },
        }
    }
}

/// Searches a part of a data block for `key`.
pub fn scan_block(b: &[u8], key: &[u8]) -> (r: Result<Option<Option<Vec<u8>>>, TableError>)
    ensures
        match r {
            Ok(None) => scan(b@, key@) == Ok::<Option<Option<Seq<u8>>>, TableError>(None),
            Ok(Some(v)) => scan(b@, key@) == Ok::<Option<Option<Seq<u8>>>, TableError>(
                Some(entry::value_view(v)),
            ),
            Err(x) => scan(b@, key@) == Err::<Option<Option<Seq<u8>>>, TableError>(x),
        },
{
    let mut it = SsTableIterator::new(b);
    loop
        invariant
            it.wf(),
            scan(b@, key@) == scan(it.remaining(), key@),
        decreases it.remaining().len(),
    {
        match it.next() {
            None => {
                return Ok(None);
            },
            Some(Err(x)) => {
                return Err(x);
            },
            Some(Ok((k, v))) => match order::compare_keys(k.as_slice(), key) {
                KeyOrder::Same => {
                    return Ok(Some(v));
                },
                KeyOrder::After => {
                    proof {
                        order::lemma_key_lt_asymmetric(key@, k@);
                    }
                    return Ok(None);
                },
                KeyOrder::Before => {
                    proof {
                        order::lemma_key_lt_asymmetric(k@, key@);
                    }
                },
            },
        }
    }
}

} // verus!
