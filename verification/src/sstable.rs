//! SSTable ("Sorted String Table"): the immutable file that a memtable is
//! flushed into and that compaction merges.
//!
//! ## File layout
//!
//! ```text
//! [ DATA BLOCK  ]  sorted entries
//! [ INDEX BLOCK ]  sparse index: one (key, offset) every `index_interval` entries
//! [ META BLOCK  ]  max_key_len: u32, max_key bytes, entry_count: u64
//! [ BLOOM BLOCK ]  serialized Bloom filter over every key of the table
//! [ FOOTER      ]  data_len: u64, index_len: u64, meta_len: u64, bloom_len: u64, magic: u32
//! ```
//!
//! The footer has a fixed size and stands at the end, so that opening a table
//! reads the footer, the index, the meta block and the filter: the tail of the
//! file. The data block stays on disk. A lookup reads the one part of it that the
//! index selects, and only where the filter does not rule the key out.
//!
//! An index entry is `key_len: u32, key bytes, offset: u64`.

use crate::block;
use crate::block::TableError;
use crate::bloom;
use crate::bloom::{BloomFilter, BloomView};
use crate::bytes;
use crate::entry;
use crate::entry::{Entry, Layer};
use crate::order;
use crate::order::KeyOrder;
use vstd::prelude::*;

verus! {

broadcast use bytes::group_le_len;

/// The last four bytes of every table file: "LSM1".
pub const MAGIC: u32 = 0x4C53_4D31;

/// The length of the footer.
pub const FOOTER_LEN: usize = 36;

/// A key with the place of its entry in the data block.
#[verifier::ext_equal]
pub struct IndexView {
    pub key: Seq<u8>,
    pub offset: u64,
}

/// The index entry for the entry at place `p`.
pub open spec fn index_entry(es: Seq<Entry>, p: int) -> IndexView {
    IndexView { key: es[p].key, offset: block::block_of(es.take(p)).len() as u64 }
}

/// The index that points to the first of every `interval` entries.
pub open spec fn sparse_index_of(es: Seq<Entry>, interval: int) -> Seq<IndexView> {
    Seq::new(
        ((es.len() + interval - 1) / interval) as nat,
        |j: int| index_entry(es, j * interval),
    )
}

/// The bytes of one index entry.
pub open spec fn index_entry_encoded(x: IndexView) -> Seq<u8> {
    bytes::le_u32(x.key.len() as u32) + x.key + bytes::le_u64(x.offset)
}

/// The index block.
pub open spec fn index_encoded(ix: Seq<IndexView>) -> Seq<u8>
    decreases ix.len(),
{
    if ix.len() == 0 {
        Seq::empty()
    } else {
        index_encoded(ix.drop_last()) + index_entry_encoded(ix.last())
    }
}

/// The index entry that `b` starts with and its length in bytes.
pub open spec fn first_index_entry(b: Seq<u8>) -> Option<(IndexView, int)> {
    if b.len() < 12 {
        None
    } else {
        let key_end = 4 + bytes::u32_at(b, 0);
        if b.len() < key_end + 8 {
            None
        } else {
            Some(
                (
                    IndexView { key: b.subrange(4, key_end), offset: bytes::u64_at(b, key_end) },
                    key_end + 8,
                ),
            )
        }
    }
}

/// The index that a block holds.
pub open spec fn index_decoded(b: Seq<u8>) -> Option<Seq<IndexView>>
    decreases b.len(),
{
    if b.len() == 0 {
        Some(Seq::empty())
    } else {
        match first_index_entry(b) {
            None => None,
            Some((x, n)) => match index_decoded(b.skip(n)) {
                None => None,
                Some(rest) => Some(seq![x] + rest),
            },
        }
    }
}

/// Keys ascend strictly, and offsets ascend up to the length of the data.
pub open spec fn index_ordered(ix: Seq<IndexView>, data_len: int) -> bool {
    &&& forall|i: int, j: int|
        0 <= i < j < ix.len() ==> order::key_lt(#[trigger] ix[i].key, #[trigger] ix[j].key)
    &&& forall|i: int, j: int|
        0 <= i <= j < ix.len() ==> (#[trigger] ix[i]).offset <= (#[trigger] ix[j]).offset
    &&& forall|i: int| 0 <= i < ix.len() ==> (#[trigger] ix[i]).offset <= data_len
}

/// The number of index entries, from the first on, up to the last one whose key
/// is not after `key`.
pub open spec fn floor_count(ix: Seq<IndexView>, key: Seq<u8>) -> int
    decreases ix.len(),
{
    if ix.len() == 0 {
        0
    } else if !order::key_lt(key, ix.last().key) {
        ix.len() as int
    } else {
        floor_count(ix.drop_last(), key)
    }
}

/// The meta block.
pub open spec fn meta_encoded(max_key: Option<Seq<u8>>, entry_count: int) -> Seq<u8> {
    let key = match max_key {
        Some(k) => k,
        None => Seq::empty(),
    };
    bytes::le_u32(key.len() as u32) + key + bytes::le_u64(entry_count as u64)
}

/// The greatest key and the number of entries that a meta block holds. A table
/// without entries has no greatest key.
pub open spec fn meta_decoded(b: Seq<u8>) -> Option<(Option<Seq<u8>>, int)> {
    if b.len() < 12 || b.len() != 12 + bytes::u32_at(b, 0) {
        None
    } else {
        let key_end = 4 + bytes::u32_at(b, 0);
        let count = bytes::u64_at(b, key_end);
        if count > usize::MAX {
            None
        } else if count == 0 {
            Some((None, 0))
        } else {
            Some((Some(b.subrange(4, key_end)), count as int))
        }
    }
}

/// The footer for blocks of these lengths.
pub open spec fn footer(data_len: int, index_len: int, meta_len: int, bloom_len: int) -> Seq<u8> {
    bytes::le_u64(data_len as u64) + bytes::le_u64(index_len as u64) + bytes::le_u64(
        meta_len as u64,
    ) + bytes::le_u64(bloom_len as u64) + bytes::le_u32(MAGIC)
}

/// A file made up of four blocks.
pub open spec fn assembled(
    data: Seq<u8>,
    index: Seq<u8>,
    meta: Seq<u8>,
    filter: Seq<u8>,
) -> Seq<u8> {
    data + index + meta + filter + footer(
        data.len() as int,
        index.len() as int,
        meta.len() as int,
        filter.len() as int,
    )
}

/// The keys of some entries.
pub open spec fn keys_of(es: Seq<Entry>) -> Seq<Seq<u8>> {
    es.map_values(|e: Entry| e.key)
}

/// The first key of an index.
pub open spec fn first_key(ix: Seq<IndexView>) -> Option<Seq<u8>> {
    if ix.len() == 0 {
        None
    } else {
        Some(ix[0].key)
    }
}

/// The places in `es` that the entries of `ix` point to.
pub open spec fn points_at(ix: Seq<IndexView>, es: Seq<Entry>, at: Seq<int>) -> bool {
    &&& at.len() == ix.len()
    &&& es.len() > 0 ==> at.len() > 0 && at[0] == 0
    &&& forall|i: int, j: int| 0 <= i < j < at.len() ==> #[trigger] at[i] < #[trigger] at[j]
    &&& forall|i: int|
        0 <= i < at.len() ==> {
            &&& 0 <= #[trigger] at[i] < es.len()
            &&& ix[i] == index_entry(es, at[i])
        }
}

/// What is kept of a table in memory: all but its data block.
#[verifier::ext_equal]
pub struct HandleView {
    pub id: u64,
    pub file_name: Seq<char>,
    pub data_len: int,
    pub index: Seq<IndexView>,
    pub filter: BloomView,
    pub entry_count: int,
    pub min_key: Option<Seq<u8>>,
    pub max_key: Option<Seq<u8>>,
}

impl HandleView {
    /// The parts fit together well enough for lookups: this holds of every table
    /// that could be opened.
    pub open spec fn wf(self) -> bool {
        &&& 0 <= self.data_len <= u64::MAX
        &&& index_ordered(self.index, self.data_len)
        &&& self.filter.wf()
    }

    /// The part of the data block where the entry of `key` can be, if it can be
    /// anywhere.
    pub open spec fn block_range(self, key: Seq<u8>) -> Option<(int, int)> {
        let p = floor_count(self.index, key);
        if p == 0 {
            None
        } else {
            let end = if p < self.index.len() {
                self.index[p].offset as int
            } else {
                self.data_len
            };
            Some((self.index[p - 1].offset as int, end))
        }
    }

    /// The part of the data block that has to be read to look `key` up. Nothing
    /// has to be read where the filter rules the key out.
    pub open spec fn located(self, key: Seq<u8>) -> Option<(int, int)> {
        if self.filter.might_contain(key) {
            self.block_range(key)
        } else {
            None
        }
    }

    /// What a lookup in this data block finds: nothing, a value or a tombstone.
    pub open spec fn lookup_in(self, data: Seq<u8>, key: Seq<u8>) -> Result<
        Option<Option<Seq<u8>>>,
        TableError,
    > {
        match self.located(key) {
            None => Ok(None),
            Some((start, end)) => block::scan(data.subrange(start, end), key),
        }
    }
}

/// What a table holds, its data block included.
#[verifier::ext_equal]
pub struct TableView {
    pub id: u64,
    pub file_name: Seq<char>,
    pub image: Seq<u8>,
    pub data_len: int,
    pub index: Seq<IndexView>,
    pub filter: BloomView,
    pub entry_count: int,
    pub min_key: Option<Seq<u8>>,
    pub max_key: Option<Seq<u8>>,
}

impl TableView {
    /// The data block.
    pub open spec fn data(self) -> Seq<u8> {
        self.image.take(self.data_len)
    }

    /// What is kept of the table in memory.
    pub open spec fn handle(self) -> HandleView {
        HandleView {
            id: self.id,
            file_name: self.file_name,
            data_len: self.data_len,
            index: self.index,
            filter: self.filter,
            entry_count: self.entry_count,
            min_key: self.min_key,
            max_key: self.max_key,
        }
    }

    /// The parts fit together well enough for lookups.
    pub open spec fn wf(self) -> bool {
        &&& self.data_len <= self.image.len() <= u64::MAX
        &&& self.handle().wf()
    }

    /// The entries of the data block, where all can be read.
    pub open spec fn entries(self) -> Seq<Entry> {
        block::block_entries(self.data()).unwrap()
    }

    /// What the table says of keys.
    pub open spec fn layer(self) -> Layer {
        entry::layer(self.entries())
    }

    /// The table holds exactly these entries: they are sorted, the index points
    /// to some of them and to the first one, and the filter rules none out.
    pub open spec fn holds(self, es: Seq<Entry>) -> bool {
        &&& self.wf()
        &&& self.data() == block::block_of(es)
        &&& block::all_fit(es)
        &&& entry::sorted(es)
        &&& exists|at: Seq<int>| points_at(self.index, es, at)
        &&& forall|i: int|
            0 <= i < es.len() ==> self.filter.might_contain((#[trigger] es[i]).key)
    }

    /// The table is intact.
    pub open spec fn valid(self) -> bool {
        &&& block::block_entries(self.data()) is Some
        &&& self.holds(self.entries())
    }

    /// What a lookup finds: nothing, a value or a tombstone.
    pub open spec fn lookup(self, key: Seq<u8>) -> Result<Option<Option<Seq<u8>>>, TableError> {
        self.handle().lookup_in(self.data(), key)
    }

    /// The table that is made of these entries.
    pub open spec fn built(
        file_name: Seq<char>,
        id: u64,
        es: Seq<Entry>,
        index_interval: int,
        bits_per_key: int,
        filter_enabled: bool,
    ) -> TableView {
        let filter = if filter_enabled {
            BloomView::fresh(es.len() as int, bits_per_key).with_keys(keys_of(es))
        } else {
            BloomView::off()
        };
        let index = sparse_index_of(es, bloom::max(index_interval, 1));
        let max_key = if es.len() == 0 {
            None
        } else {
            Some(es.last().key)
        };
        TableView {
            id,
            file_name,
            image: assembled(
                block::block_of(es),
                index_encoded(index),
                meta_encoded(max_key, es.len() as int),
                filter.encoded(),
            ),
            data_len: block::block_of(es).len() as int,
            index,
            filter,
            entry_count: es.len() as int,
            min_key: first_key(index),
            max_key,
        }
    }

    /// Why no table can be made of these entries, if so.
    pub open spec fn build_error(
        es: Seq<Entry>,
        bits_per_key: int,
        filter_enabled: bool,
    ) -> Option<TableError> {
        if !block::all_fit(es) {
            Some(TableError::EntryTooLarge)
        } else if !entry::sorted(es) {
            Some(TableError::Unsorted)
        } else if filter_enabled && !filter_fits(es.len() as int, bits_per_key) {
            Some(TableError::FilterTooLarge)
        } else {
            None
        }
    }

    /// The table that a file holds, or what is wrong with the file.
    pub open spec fn opened(file_name: Seq<char>, id: u64, image: Seq<u8>) -> Result<
        TableView,
        TableError,
    > {
        let n = image.len() as int;
        if n < FOOTER_LEN {
            Err(TableError::TooShort)
        } else if bytes::u32_at(image, n - 4) != MAGIC {
            Err(TableError::BadMagic)
        } else {
            let data_len = bytes::u64_at(image, n - 36) as int;
            let index_end = data_len + bytes::u64_at(image, n - 28);
            let meta_end = index_end + bytes::u64_at(image, n - 20);
            let filter_end = meta_end + bytes::u64_at(image, n - 12);
            if filter_end != n - 36 {
                Err(TableError::BadLayout)
            } else {
                TableView::opened_parts(file_name, id, image, data_len, index_end, meta_end)
            }
        }
    }

    /// The table in a file whose blocks end at these places.
    pub open spec fn opened_parts(
        file_name: Seq<char>,
        id: u64,
        image: Seq<u8>,
        data_len: int,
        index_end: int,
        meta_end: int,
    ) -> Result<TableView, TableError> {
        let index = index_decoded(image.subrange(data_len, index_end));
        let meta = meta_decoded(image.subrange(index_end, meta_end));
        let filter = BloomView::decoded(image.subrange(meta_end, image.len() - 36));
        if index is None || !index_ordered(index.unwrap(), data_len) {
            Err(TableError::BadIndex)
        } else if meta is None {
            Err(TableError::BadMeta)
        } else if filter is Err || !filter->Ok_0.wf() {
            Err(TableError::BadFilter)
        } else {
            Ok(
                TableView {
                    id,
                    file_name,
                    image,
                    data_len,
                    index: index.unwrap(),
                    filter: filter->Ok_0,
                    entry_count: meta.unwrap().1,
                    min_key: first_key(index.unwrap()),
                    max_key: meta.unwrap().0,
                },
            )
        }
    }
}

/// Where the tail of a file of this length starts: behind the data block. `foot`
/// is the end of the file.
pub open spec fn tail_start_of(file_len: int, foot: Seq<u8>) -> Result<int, TableError> {
    if file_len < FOOTER_LEN || foot.len() != FOOTER_LEN {
        Err(TableError::TooShort)
    } else if bytes::u32_at(foot, 32) != MAGIC {
        Err(TableError::BadMagic)
    } else {
        let data_len = bytes::u64_at(foot, 0) as int;
        if data_len + bytes::u64_at(foot, 8) + bytes::u64_at(foot, 16) + bytes::u64_at(foot, 24)
            != file_len - 36 {
            Err(TableError::BadLayout)
        } else {
            Ok(data_len)
        }
    }
}

impl HandleView {
    /// What is kept of the table in the file with this tail, or what is wrong
    /// with it.
    pub open spec fn opened(file_name: Seq<char>, id: u64, tail: Seq<u8>) -> Result<
        HandleView,
        TableError,
    > {
        let n = tail.len() as int;
        if n < FOOTER_LEN {
            Err(TableError::TooShort)
        } else if bytes::u32_at(tail, n - 4) != MAGIC {
            Err(TableError::BadMagic)
        } else {
            let data_len = bytes::u64_at(tail, n - 36) as int;
            let index_end = bytes::u64_at(tail, n - 28) as int;
            let meta_end = index_end + bytes::u64_at(tail, n - 20);
            let filter_end = meta_end + bytes::u64_at(tail, n - 12);
            if filter_end != n - 36 {
                Err(TableError::BadLayout)
            } else {
                HandleView::opened_parts(file_name, id, tail, data_len, index_end, meta_end)
            }
        }
    }

    /// The same, where the blocks of the tail end at these places.
    pub open spec fn opened_parts(
        file_name: Seq<char>,
        id: u64,
        tail: Seq<u8>,
        data_len: int,
        index_end: int,
        meta_end: int,
    ) -> Result<HandleView, TableError> {
        let index = index_decoded(tail.subrange(0, index_end));
        let meta = meta_decoded(tail.subrange(index_end, meta_end));
        let filter = BloomView::decoded(tail.subrange(meta_end, tail.len() - 36));
        if index is None || !index_ordered(index.unwrap(), data_len) {
            Err(TableError::BadIndex)
        } else if meta is None {
            Err(TableError::BadMeta)
        } else if filter is Err || !filter->Ok_0.wf() {
            Err(TableError::BadFilter)
        } else {
            Ok(
                HandleView {
                    id,
                    file_name,
                    data_len,
                    index: index.unwrap(),
                    filter: filter->Ok_0,
                    entry_count: meta.unwrap().1,
                    min_key: first_key(index.unwrap()),
                    max_key: meta.unwrap().0,
                },
            )
        }
    }
}

/// The end of a file, which holds the footer.
pub open spec fn foot_of(image: Seq<u8>) -> Seq<u8> {
    if image.len() < FOOTER_LEN {
        image
    } else {
        image.skip(image.len() - 36)
    }
}

/// Opening a table reads the end of its file and then the tail that starts where
/// this says. That gives all there is to know of the table but its data.
pub proof fn lemma_opened_by_tail(file_name: Seq<char>, id: u64, image: Seq<u8>)
    ensures
        match tail_start_of(image.len() as int, foot_of(image)) {
            Err(e) => TableView::opened(file_name, id, image) == Err::<TableView, TableError>(e),
            Ok(d) => 0 <= d <= image.len() && match HandleView::opened(
                file_name,
                id,
                image.skip(d),
            ) {
                Err(e) => TableView::opened(file_name, id, image) == Err::<TableView, TableError>(
                    e,
                ),
                Ok(h) => TableView::opened(file_name, id, image) matches Ok(t) && t.handle() == h
                    && t.image == image,
            },
        },
{
    let n = image.len() as int;
    if n >= 36 {
        let foot = foot_of(image);
        lemma_same_u32(image, n - 4, foot, 32);
        lemma_same_u64(image, n - 36, foot, 0);
        lemma_same_u64(image, n - 28, foot, 8);
        lemma_same_u64(image, n - 20, foot, 16);
        lemma_same_u64(image, n - 12, foot, 24);
        if let Ok(d) = tail_start_of(n, foot) {
            let tail = image.skip(d);
            let m = tail.len() as int;
            lemma_same_u32(image, n - 4, tail, m - 4);
            lemma_same_u64(image, n - 36, tail, m - 36);
            lemma_same_u64(image, n - 28, tail, m - 28);
            lemma_same_u64(image, n - 20, tail, m - 20);
            lemma_same_u64(image, n - 12, tail, m - 12);
            let index_end = bytes::u64_at(tail, m - 28) as int;
            let meta_end = index_end + bytes::u64_at(tail, m - 20);
            assert(tail.subrange(0, index_end) =~= image.subrange(d, d + index_end));
            assert(tail.subrange(index_end, meta_end) =~= image.subrange(
                d + index_end,
                d + meta_end,
            ));
            assert(tail.subrange(meta_end, m - 36) =~= image.subrange(d + meta_end, n - 36));
        }
    }
}

/// A number in the end of a file is the same number in the file.
proof fn lemma_same_u32(s: Seq<u8>, at: int, end: Seq<u8>, p: int)
    requires
        end.len() <= s.len(),
        end == s.skip(s.len() - end.len()),
        0 <= p,
        p + 4 <= end.len(),
        at == s.len() - end.len() + p,
    ensures
        bytes::u32_at(s, at) == bytes::u32_at(end, p),
{
    assert(s.subrange(at, at + 4) =~= end.subrange(p, p + 4));
    bytes::lemma_u32_at_same(s, at, end, p);
}

/// A number in the end of a file is the same number in the file.
proof fn lemma_same_u64(s: Seq<u8>, at: int, end: Seq<u8>, p: int)
    requires
        end.len() <= s.len(),
        end == s.skip(s.len() - end.len()),
        0 <= p,
        p + 8 <= end.len(),
        at == s.len() - end.len() + p,
    ensures
        bytes::u64_at(s, at) == bytes::u64_at(end, p),
{
    assert(s.subrange(at, at + 8) =~= end.subrange(p, p + 8));
    bytes::lemma_u64_at_same(s, at, end, p);
}

/// A filter of this size can be counted in bits.
pub open spec fn filter_fits(expected_items: int, bits_per_key: int) -> bool {
    let bits = bloom::wanted_bits(expected_items, bits_per_key);
    bits <= usize::MAX && bits + 63 <= u64::MAX
}

/// The index points to every `interval`-th entry.
proof fn lemma_sparse_index_points(es: Seq<Entry>, interval: int)
    requires
        interval >= 1,
    ensures
        exists|at: Seq<int>| points_at(sparse_index_of(es, interval), es, at),
{
    let ix = sparse_index_of(es, interval);
    let n = es.len() as int;
    let len = (n + interval - 1) / interval;
    assert(len * interval <= n + interval - 1 && len >= 0) by (nonlinear_arith)
        requires
            interval >= 1,
            n >= 0,
            len == (n + interval - 1) / interval,
    ;
    let at = Seq::new(ix.len(), |j: int| j * interval);
    assert forall|i: int, j: int| 0 <= i < j < at.len() implies #[trigger] at[i] < #[trigger] at[j] by {
        assert(i * interval < j * interval) by (nonlinear_arith)
            requires
                i < j,
                interval >= 1,
        ;
    }
    assert forall|i: int| 0 <= i < at.len() implies 0 <= #[trigger] at[i] < es.len() && ix[i]
        == index_entry(es, at[i]) by {
        assert(0 <= i * interval && i * interval + interval <= len * interval) by (nonlinear_arith)
            requires
                0 <= i < len,
                interval >= 1,
        ;
    }
    if n > 0 {
        assert(len > 0) by (nonlinear_arith)
            requires
                len == (n + interval - 1) / interval,
                n >= 1,
                interval >= 1,
        ;
        assert(at[0] == 0);
    }
    assert(points_at(ix, es, at));
}

/// An index into sorted entries is in order.
proof fn lemma_points_are_ordered(ix: Seq<IndexView>, es: Seq<Entry>, at: Seq<int>)
    requires
        points_at(ix, es, at),
        entry::sorted(es),
        block::block_of(es).len() <= u64::MAX,
    ensures
        index_ordered(ix, block::block_of(es).len() as int),
{
    assert forall|i: int, j: int| 0 <= i < j < ix.len() implies order::key_lt(
        #[trigger] ix[i].key,
        #[trigger] ix[j].key,
    ) by {
        assert(at[i] < at[j]);
        assert(order::key_lt(es[at[i]].key, es[at[j]].key));
    }
    assert forall|i: int, j: int| 0 <= i <= j < ix.len() implies (#[trigger] ix[i]).offset <= (
    #[trigger] ix[j]).offset by {
        if i < j {
            assert(at[i] < at[j]);
        }
        assert(0 <= at[i] < es.len() && 0 <= at[j] < es.len());
        block::lemma_block_of_parts(es, at[i], at[j]);
    }
    assert forall|i: int| 0 <= i < ix.len() implies (#[trigger] ix[i]).offset
        <= block::block_of(es).len() by {
        assert(0 <= at[i] < es.len());
        block::lemma_block_of_parts(es, at[i], at[i]);
    }
}

/// An index entry that was written is read back, whatever follows it.
proof fn lemma_first_index_entry_of_encoded(x: IndexView, rest: Seq<u8>)
    requires
        x.key.len() <= u32::MAX,
    ensures
        first_index_entry(index_entry_encoded(x) + rest) == Some(
            (x, index_entry_encoded(x).len() as int),
        ),
{
    let b = index_entry_encoded(x) + rest;
    let kl = x.key.len() as int;
    assert(b.subrange(0, 4) =~= bytes::le_u32(x.key.len() as u32));
    bytes::lemma_u32_roundtrip(b, 0, x.key.len() as u32);
    assert(b.subrange(4, 4 + kl) =~= x.key);
    assert(b.subrange(4 + kl, 4 + kl + 8) =~= bytes::le_u64(x.offset));
    bytes::lemma_u64_roundtrip(b, 4 + kl, x.offset);
}

/// An index block starts with its first entry.
proof fn lemma_index_encoded_first(ix: Seq<IndexView>)
    requires
        ix.len() > 0,
    ensures
        index_encoded(ix) == index_entry_encoded(ix[0]) + index_encoded(ix.drop_first()),
    decreases ix.len(),
{
    if ix.len() == 1 {
        assert(ix.drop_last() =~= Seq::empty());
        assert(ix.drop_first() =~= Seq::empty());
        assert(index_encoded(ix) =~= index_entry_encoded(ix[0]) + index_encoded(ix.drop_first()));
    } else {
        lemma_index_encoded_first(ix.drop_last());
        assert(ix.drop_last().drop_first() =~= ix.drop_first().drop_last());
        assert(index_encoded(ix) =~= index_entry_encoded(ix[0]) + index_encoded(ix.drop_first()));
    }
}

/// Reading an index block gives the index that was written.
proof fn lemma_index_roundtrip(ix: Seq<IndexView>)
    requires
        forall|i: int| 0 <= i < ix.len() ==> (#[trigger] ix[i]).key.len() <= u32::MAX,
    ensures
        index_decoded(index_encoded(ix)) == Some(ix),
    decreases ix.len(),
{
    if ix.len() == 0 {
        assert(ix =~= Seq::empty());
    } else {
        let x = ix[0];
        let tail = ix.drop_first();
        lemma_index_encoded_first(ix);
        lemma_first_index_entry_of_encoded(x, index_encoded(tail));
        assert((index_entry_encoded(x) + index_encoded(tail)).skip(
            index_entry_encoded(x).len() as int,
        ) =~= index_encoded(tail));
        assert forall|i: int| 0 <= i < tail.len() implies (#[trigger] tail[i]).key.len()
            <= u32::MAX by {
            assert(ix[i + 1].key.len() <= u32::MAX);
        }
        lemma_index_roundtrip(tail);
        assert(seq![x] + tail =~= ix);
    }
}

/// Reading a meta block gives what was written.
proof fn lemma_meta_roundtrip(max_key: Option<Seq<u8>>, entry_count: int)
    requires
        0 <= entry_count <= usize::MAX,
        max_key is None <==> entry_count == 0,
        max_key matches Some(k) ==> k.len() <= u32::MAX,
    ensures
        meta_decoded(meta_encoded(max_key, entry_count)) == Some((max_key, entry_count)),
{
    let key = match max_key {
        Some(k) => k,
        None => Seq::empty(),
    };
    let b = meta_encoded(max_key, entry_count);
    let kl = key.len() as int;
    assert(b.subrange(0, 4) =~= bytes::le_u32(key.len() as u32));
    bytes::lemma_u32_roundtrip(b, 0, key.len() as u32);
    assert(b.subrange(4, 4 + kl) =~= key);
    assert(b.subrange(4 + kl, 4 + kl + 8) =~= bytes::le_u64(entry_count as u64));
    bytes::lemma_u64_roundtrip(b, 4 + kl, entry_count as u64);
}

/// The footer is read back, and the blocks are where it says.
proof fn lemma_assembled(data: Seq<u8>, index: Seq<u8>, meta: Seq<u8>, filter: Seq<u8>)
    requires
        assembled(data, index, meta, filter).len() <= u64::MAX,
    ensures
        ({
            let image = assembled(data, index, meta, filter);
            let n = image.len() as int;
            let a = data.len() as int;
            let b = a + index.len();
            let c = b + meta.len();
            &&& n == c + filter.len() + 36
            &&& bytes::u32_at(image, n - 4) == MAGIC
            &&& bytes::u64_at(image, n - 36) == data.len()
            &&& bytes::u64_at(image, n - 28) == index.len()
            &&& bytes::u64_at(image, n - 20) == meta.len()
            &&& bytes::u64_at(image, n - 12) == filter.len()
            &&& image.take(a) == data
            &&& image.subrange(a, b) == index
            &&& image.subrange(b, c) == meta
            &&& image.subrange(c, n - 36) == filter
        }),
{
    let image = assembled(data, index, meta, filter);
    let n = image.len() as int;
    let a = data.len() as int;
    let b = a + index.len();
    let c = b + meta.len();
    lemma_six_parts(
        data + index + meta + filter,
        bytes::le_u64(data.len() as u64),
        bytes::le_u64(index.len() as u64),
        bytes::le_u64(meta.len() as u64),
        bytes::le_u64(filter.len() as u64),
        bytes::le_u32(MAGIC),
    );
    bytes::lemma_u64_roundtrip(image, n - 36, data.len() as u64);
    bytes::lemma_u64_roundtrip(image, n - 28, index.len() as u64);
    bytes::lemma_u64_roundtrip(image, n - 20, meta.len() as u64);
    bytes::lemma_u64_roundtrip(image, n - 12, filter.len() as u64);
    bytes::lemma_u32_roundtrip(image, n - 4, MAGIC);
    let foot = footer(
        data.len() as int,
        index.len() as int,
        meta.len() as int,
        filter.len() as int,
    );
    lemma_five_parts(data, index, meta, filter, foot);
}

/// Where the parts of a sequence stand that ends in four times eight bytes and
/// four bytes.
proof fn lemma_six_parts(
    front: Seq<u8>,
    a: Seq<u8>,
    b: Seq<u8>,
    c: Seq<u8>,
    d: Seq<u8>,
    e: Seq<u8>,
)
    requires
        a.len() == 8,
        b.len() == 8,
        c.len() == 8,
        d.len() == 8,
        e.len() == 4,
    ensures
        ({
            let s = front + (a + b + c + d + e);
            let n = s.len() as int;
            &&& n == front.len() + 36
            &&& s.subrange(n - 36, n - 36 + 8) == a
            &&& s.subrange(n - 28, n - 28 + 8) == b
            &&& s.subrange(n - 20, n - 20 + 8) == c
            &&& s.subrange(n - 12, n - 12 + 8) == d
            &&& s.subrange(n - 4, n - 4 + 4) == e
        }),
{
    let s = front + (a + b + c + d + e);
    let n = s.len() as int;
    assert(s.subrange(n - 36, n - 36 + 8) =~= a);
    assert(s.subrange(n - 28, n - 28 + 8) =~= b);
    assert(s.subrange(n - 20, n - 20 + 8) =~= c);
    assert(s.subrange(n - 12, n - 12 + 8) =~= d);
    assert(s.subrange(n - 4, n - 4 + 4) =~= e);
}

/// Where the parts of a sequence of five parts stand.
proof fn lemma_five_parts(a: Seq<u8>, b: Seq<u8>, c: Seq<u8>, d: Seq<u8>, e: Seq<u8>)
    ensures
        ({
            let s = a + b + c + d + e;
            let p = a.len() as int;
            let q = p + b.len();
            let r = q + c.len();
            &&& s.len() == r + d.len() + e.len()
            &&& s.take(p) == a
            &&& s.subrange(p, q) == b
            &&& s.subrange(q, r) == c
            &&& s.subrange(r, s.len() - e.len()) == d
        }),
{
    let s = a + b + c + d + e;
    let p = a.len() as int;
    let q = p + b.len();
    let r = q + c.len();
    assert(s.take(p) =~= a);
    assert(s.subrange(p, q) =~= b);
    assert(s.subrange(q, r) =~= c);
    assert(s.subrange(r, s.len() - e.len()) =~= d);
}

/// A table made of sorted entries holds exactly them.
pub proof fn lemma_built_holds(
    file_name: Seq<char>,
    id: u64,
    es: Seq<Entry>,
    index_interval: int,
    bits_per_key: int,
    filter_enabled: bool,
)
    requires
        TableView::build_error(es, bits_per_key, filter_enabled) is None,
        TableView::built(
            file_name,
            id,
            es,
            index_interval,
            bits_per_key,
            filter_enabled,
        ).image.len() <= usize::MAX,
    ensures
        ({
            let t = TableView::built(
                file_name,
                id,
                es,
                index_interval,
                bits_per_key,
                filter_enabled,
            );
            &&& t.holds(es)
            &&& t.valid()
            &&& t.entries() == es
            &&& t.layer() == entry::layer(es)
        }),
{
    let t = TableView::built(file_name, id, es, index_interval, bits_per_key, filter_enabled);
    let meta = meta_encoded(t.max_key, es.len() as int);
    lemma_assembled(block::block_of(es), index_encoded(t.index), meta, t.filter.encoded());
    assert(t.data() == block::block_of(es));
    lemma_sparse_index_points(es, bloom::max(index_interval, 1));
    let at = choose|at: Seq<int>| points_at(t.index, es, at);
    lemma_points_are_ordered(t.index, es, at);
    if filter_enabled {
        let fresh = BloomView::fresh(es.len() as int, bits_per_key);
        assert(fresh.wf());
        bloom::lemma_with_keys_wf(fresh, keys_of(es));
        assert forall|i: int| 0 <= i < es.len() implies t.filter.might_contain(
            (#[trigger] es[i]).key,
        ) by {
            bloom::lemma_no_false_negatives(fresh, keys_of(es), i);
        }
    }
    block::lemma_block_entries_of_block(es);
}

/// Writing a table out and opening the file gives the same table.
pub proof fn lemma_open_of_built(
    file_name: Seq<char>,
    id: u64,
    es: Seq<Entry>,
    index_interval: int,
    bits_per_key: int,
    filter_enabled: bool,
)
    requires
        TableView::build_error(es, bits_per_key, filter_enabled) is None,
        TableView::built(
            file_name,
            id,
            es,
            index_interval,
            bits_per_key,
            filter_enabled,
        ).image.len() <= usize::MAX,
    ensures
        ({
            let t = TableView::built(
                file_name,
                id,
                es,
                index_interval,
                bits_per_key,
                filter_enabled,
            );
            TableView::opened(file_name, id, t.image) == Ok::<TableView, TableError>(t)
        }),
{
    let t = TableView::built(file_name, id, es, index_interval, bits_per_key, filter_enabled);
    let meta = meta_encoded(t.max_key, es.len() as int);
    lemma_built_holds(file_name, id, es, index_interval, bits_per_key, filter_enabled);
    lemma_assembled(block::block_of(es), index_encoded(t.index), meta, t.filter.encoded());
    let at = choose|at: Seq<int>| points_at(t.index, es, at);
    assert forall|i: int| 0 <= i < t.index.len() implies (#[trigger] t.index[i]).key.len()
        <= u32::MAX by {
        assert(0 <= at[i] < es.len());
        assert(block::fits(es[at[i]]));
    }
    lemma_index_roundtrip(t.index);
    if es.len() > 0 {
        assert(block::fits(es[es.len() - 1]));
    }
    lemma_block_of_len(es);
    lemma_meta_roundtrip(t.max_key, es.len() as int);
    bloom::lemma_words_encoded_len(t.filter.words);
    bloom::lemma_bloom_roundtrip(t.filter, Seq::empty());
    assert(t.filter.encoded() + Seq::<u8>::empty() =~= t.filter.encoded());
}

/// A block takes up more bytes than it has entries.
proof fn lemma_block_of_len(es: Seq<Entry>)
    ensures
        8 * es.len() <= block::block_of(es).len(),
    decreases es.len(),
{
    if es.len() > 0 {
        lemma_block_of_len(es.drop_last());
        block::lemma_encoded_len(es.last());
    }
}

/// The index entries before the floor are not after the key, those from it on
/// are.
proof fn lemma_floor_count(ix: Seq<IndexView>, key: Seq<u8>, p: int)
    requires
        0 <= p <= ix.len(),
        p > 0 ==> !order::key_lt(key, ix[p - 1].key),
        forall|i: int| p <= i < ix.len() ==> order::key_lt(key, #[trigger] ix[i].key),
    ensures
        floor_count(ix, key) == p,
    decreases ix.len(),
{
    if p < ix.len() {
        assert(order::key_lt(key, ix[ix.len() - 1].key));
        assert forall|i: int| p <= i < ix.drop_last().len() implies order::key_lt(
            key,
            #[trigger] ix.drop_last()[i].key,
        ) by {
            assert(order::key_lt(key, ix[i].key));
        }
        lemma_floor_count(ix.drop_last(), key, p);
    }
}

/// The floor splits an index at the key.
pub proof fn lemma_floor_splits(ix: Seq<IndexView>, key: Seq<u8>)
    ensures
        0 <= floor_count(ix, key) <= ix.len(),
        floor_count(ix, key) > 0 ==> !order::key_lt(key, ix[floor_count(ix, key) - 1].key),
        forall|i: int|
            floor_count(ix, key) <= i < ix.len() ==> order::key_lt(key, #[trigger] ix[i].key),
    decreases ix.len(),
{
    if ix.len() > 0 && order::key_lt(key, ix.last().key) {
        let init = ix.drop_last();
        lemma_floor_splits(init, key);
        let p = floor_count(init, key);
        assert forall|i: int| p <= i < ix.len() implies order::key_lt(key, #[trigger] ix[i].key) by {
            if i < init.len() {
                assert(order::key_lt(key, init[i].key));
            }
        }
    }
}

/// A table can be made of every sorted list of entries whose keys have at most
/// 2^32 - 1 bytes and whose values have fewer, unless its filter would have more bits
/// than can be counted: the number of entries times the bits per key, each at least
/// 1, is what the filter takes.
pub proof fn lemma_what_can_be_built(es: Seq<Entry>, bits_per_key: int, filter_enabled: bool)
    requires
        bits_per_key >= 0,
    ensures
        ({
            let fit = forall|i: int|
                0 <= i < es.len() ==> (#[trigger] es[i]).key.len() <= 0xffff_ffff && (
                es[i].value matches Some(v) ==> v.len() < 0xffff_ffff);
            let ascending = forall|i: int, j: int|
                0 <= i < j < es.len() ==> order::key_lt(
                    #[trigger] es[i].key,
                    #[trigger] es[j].key,
                );
            let bits = (if es.len() < 1 {
                1
            } else {
                es.len() as int
            }) * (if bits_per_key < 1 {
                1
            } else {
                bits_per_key
            });
            let countable = bits <= usize::MAX && bits <= u64::MAX - 63;
            let r = TableView::build_error(es, bits_per_key, filter_enabled);
            &&& r is None <==> fit && ascending && (filter_enabled ==> countable)
            &&& r == Some(TableError::EntryTooLarge) <==> !fit
            &&& r == Some(TableError::Unsorted) <==> fit && !ascending
            &&& r == Some(TableError::FilterTooLarge) <==> fit && ascending && filter_enabled
                && !countable
        }),
{
    assert(block::all_fit(es) <==> forall|i: int|
        0 <= i < es.len() ==> (#[trigger] es[i]).key.len() <= 0xffff_ffff && (
        es[i].value matches Some(v) ==> v.len() < 0xffff_ffff)) by {
        if block::all_fit(es) {
            assert forall|i: int| 0 <= i < es.len() implies (#[trigger] es[i]).key.len()
                <= 0xffff_ffff && (es[i].value matches Some(v) ==> v.len() < 0xffff_ffff) by {
                assert(block::fits(es[i]));
            }
        }
    }
    assert(entry::sorted(es) <==> forall|i: int, j: int|
        0 <= i < j < es.len() ==> order::key_lt(#[trigger] es[i].key, #[trigger] es[j].key));
}

/// What a new table knows of its entries: their number, the first key and the last
/// one. A switched-off filter rules nothing out; another one says "maybe" only where
/// every position of the key is one of an entry's key, and has the size that the
/// number of entries calls for.
pub proof fn lemma_what_is_built(
    file_name: Seq<char>,
    id: u64,
    es: Seq<Entry>,
    index_interval: int,
    bits_per_key: int,
    filter_enabled: bool,
    key: Seq<u8>,
)
    requires
        bits_per_key >= 0,
        TableView::build_error(es, bits_per_key, filter_enabled) is None,
    ensures
        ({
            let t = TableView::built(
                file_name,
                id,
                es,
                index_interval,
                bits_per_key,
                filter_enabled,
            );
            let bits = (if es.len() < 1 {
                1
            } else {
                es.len() as int
            }) * (if bits_per_key < 1 {
                1
            } else {
                bits_per_key
            });
            &&& t.id == id
            &&& t.file_name == file_name
            &&& t.entry_count == es.len()
            &&& t.data_len == block::block_of(es).len()
            &&& es.len() == 0 ==> t.min_key is None && t.max_key is None
            &&& es.len() > 0 ==> t.min_key == Some(es[0].key) && t.max_key == Some(
                es[es.len() - 1].key,
            )
            &&& !filter_enabled ==> t.filter.might_contain(key)
            &&& filter_enabled ==> {
                &&& bits <= t.filter.num_bits
                &&& t.filter.num_bits < bits + 64 || t.filter.num_bits == 64
                &&& t.filter.num_hashes >= 1
                &&& t.filter.might_contain(key) <==> forall|i: int|
                    0 <= i < t.filter.num_hashes ==> bloom::is_position_of(
                        t.filter,
                        es.map_values(|e: Entry| e.key),
                        #[trigger] t.filter.position(key, i),
                    )
            }
        }),
{
    lemma_what_can_be_built(es, bits_per_key, filter_enabled);
    let t = TableView::built(file_name, id, es, index_interval, bits_per_key, filter_enabled);
    let interval = bloom::max(index_interval, 1);
    let n = es.len() as int;
    if n > 0 {
        assert((n + interval - 1) / interval >= 1) by (nonlinear_arith)
            requires
                n >= 1,
                interval >= 1,
        ;
        assert(t.index[0] == index_entry(es, 0 * interval));
    } else {
        assert((n + interval - 1) / interval == 0) by (nonlinear_arith)
            requires
                n == 0,
                interval >= 1,
        ;
    }
    if filter_enabled {
        let fresh = BloomView::fresh(n, bits_per_key);
        let keys = keys_of(es);
        bloom::lemma_fresh_size(n, bits_per_key);
        bloom::lemma_with_keys_wf(fresh, keys);
        bloom::lemma_maybe_needs_shared_positions(fresh, keys, key);
        assert forall|k: Seq<u8>, i: int| #[trigger] t.filter.position(k, i) == fresh.position(
            k,
            i,
        ) by {}
        assert forall|q: u64| bloom::is_position_of(t.filter, keys, q) == bloom::is_position_of(
            fresh,
            keys,
            q,
        ) by {
            lemma_same_positions(t.filter, fresh, keys, q);
            lemma_same_positions(fresh, t.filter, keys, q);
        }
        if t.filter.might_contain(key) {
            assert forall|i: int| 0 <= i < t.filter.num_hashes implies bloom::is_position_of(
                t.filter,
                keys,
                #[trigger] t.filter.position(key, i),
            ) by {
                assert(bloom::is_position_of(fresh, keys, fresh.position(key, i)));
            }
        } else {
            let i = choose|i: int|
                0 <= i < fresh.num_hashes && !bloom::is_position_of(
                    fresh,
                    keys,
                    #[trigger] fresh.position(key, i),
                );
            assert(!bloom::is_position_of(t.filter, keys, t.filter.position(key, i)));
        }
    }
}

/// The same of the pairs that entries are given as.
proof fn lemma_entries_can_be_built(
    s: Seq<(Vec<u8>, Option<Vec<u8>>)>,
    bits_per_key: int,
    filter_enabled: bool,
)
    requires
        bits_per_key >= 0,
    ensures
        ({
            let bits = (if s.len() < 1 {
                1
            } else {
                s.len() as int
            }) * (if bits_per_key < 1 {
                1
            } else {
                bits_per_key
            });
            TableView::build_error(entry::entries_view(s), bits_per_key, filter_enabled) is None
                <==> {
                &&& forall|i: int|
                    0 <= i < s.len() ==> (#[trigger] s[i]).0@.len() <= 0xffff_ffff && (
                    s[i].1 matches Some(v) ==> v@.len() < 0xffff_ffff)
                &&& forall|i: int, j: int|
                    0 <= i < j < s.len() ==> order::key_lt(
                        (#[trigger] s[i]).0@,
                        (#[trigger] s[j]).0@,
                    )
                &&& filter_enabled ==> bits <= usize::MAX && bits <= u64::MAX - 63
            }
        }),
{
    let es = entry::entries_view(s);
    lemma_what_can_be_built(es, bits_per_key, filter_enabled);
    assert forall|i: int| 0 <= i < s.len() implies (#[trigger] es[i]) == entry::entry_view(s[i]) by {}
    if TableView::build_error(es, bits_per_key, filter_enabled) is None {
        assert forall|i: int| 0 <= i < s.len() implies (#[trigger] s[i]).0@.len() <= 0xffff_ffff && (
        s[i].1 matches Some(v) ==> v@.len() < 0xffff_ffff) by {
            assert(es[i].key.len() <= 0xffff_ffff);
        }
        assert forall|i: int, j: int| 0 <= i < j < s.len() implies order::key_lt(
            (#[trigger] s[i]).0@,
            (#[trigger] s[j]).0@,
        ) by {
            assert(order::key_lt(es[i].key, es[j].key));
        }
    }
}

/// Filters of the same size have the same positions.
proof fn lemma_same_positions(a: BloomView, b: BloomView, keys: Seq<Seq<u8>>, q: u64)
    requires
        a.num_hashes == b.num_hashes,
        forall|k: Seq<u8>, i: int| #[trigger] a.position(k, i) == b.position(k, i),
    ensures
        bloom::is_position_of(a, keys, q) ==> bloom::is_position_of(b, keys, q),
{
    if bloom::is_position_of(a, keys, q) {
        let (j, m) = choose|j: int, m: int|
            0 <= j < keys.len() && 0 <= m < a.num_hashes && #[trigger] a.position(keys[j], m) == q;
        assert(b.position(keys[j], m) == q);
    }
}

/// The index of a new table has one entry for every `interval` entries, from the
/// first on: its key, and the number of data bytes before it.
pub proof fn lemma_index_of_built(es: Seq<Entry>, interval: int, j: int)
    requires
        interval >= 1,
        0 <= j,
    ensures
        j < sparse_index_of(es, interval).len() <==> j * interval < es.len(),
        j * interval < es.len() && block::block_of(es).len() <= u64::MAX ==> {
            let x = sparse_index_of(es, interval)[j];
            &&& x.key == es[j * interval].key
            &&& x.offset == block::block_of(es.take(j * interval)).len()
        },
{
    let n = es.len() as int;
    let len = (n + interval - 1) / interval;
    assert(j < len <==> j * interval < n) by (nonlinear_arith)
        requires
            interval >= 1,
            n >= 0,
            len == (n + interval - 1) / interval,
    ;
    assert(len >= 0) by (nonlinear_arith)
        requires
            interval >= 1,
            n >= 0,
            len == (n + interval - 1) / interval,
    ;
    if j * interval < n {
        assert(0 <= j * interval) by (nonlinear_arith)
            requires
                j >= 0,
                interval >= 1,
        ;
        block::lemma_block_of_parts(es, 0, j * interval);
    }
}

/// A lookup in a new table reads at most `interval` entries: those from one index
/// entry up to the next. Nothing is read where the filter rules the key out or the
/// key is before the first one, and only then.
pub proof fn lemma_part_that_is_read(
    file_name: Seq<char>,
    id: u64,
    es: Seq<Entry>,
    index_interval: int,
    bits_per_key: int,
    filter_enabled: bool,
    key: Seq<u8>,
)
    requires
        entry::sorted(es),
        block::block_of(es).len() <= u64::MAX,
    ensures
        ({
            let h = TableView::built(
                file_name,
                id,
                es,
                index_interval,
                bits_per_key,
                filter_enabled,
            ).handle();
            let interval = if index_interval < 1 {
                1
            } else {
                index_interval
            };
            &&& h.located(key) is None <==> !h.filter.might_contain(key) || es.len() == 0
                || order::key_lt(key, es[0].key)
            &&& h.located(key) matches Some((start, end)) ==> exists|from: int, to: int|
                {
                    &&& 0 <= from < to <= es.len()
                    &&& to - from <= interval
                    &&& start == (#[trigger] block::block_of(es.take(from))).len()
                    &&& end == (#[trigger] block::block_of(es.take(to))).len()
                    &&& !order::key_lt(key, es[from].key)
                    &&& to < es.len() ==> order::key_lt(key, es[to].key)
                }
        }),
{
    let t = TableView::built(file_name, id, es, index_interval, bits_per_key, filter_enabled);
    let h = t.handle();
    let interval = bloom::max(index_interval, 1);
    let ix = t.index;
    let p = floor_count(ix, key);
    lemma_floor_splits(ix, key);
    lemma_index_of_built(es, interval, 0);
    assert(0 * interval == 0);
    if es.len() > 0 {
        assert(ix[0].key == es[0].key);
    }
    if p > 0 {
        lemma_index_of_built(es, interval, p - 1);
        lemma_index_of_built(es, interval, p);
        let from = (p - 1) * interval;
        assert(0 <= from && p * interval == from + interval) by (nonlinear_arith)
            requires
                p >= 1,
                interval >= 1,
                from == (p - 1) * interval,
        ;
        let to = if p < ix.len() {
            p * interval
        } else {
            es.len() as int
        };
        assert(es.take(es.len() as int) =~= es);
        assert(0 <= from < to <= es.len());
        assert(ix[p - 1].offset == block::block_of(es.take(from)).len());
        if p < ix.len() {
            assert(ix[p].offset == block::block_of(es.take(to)).len());
            assert(order::key_lt(key, ix[p].key));
        }
        if es.len() > 0 && order::key_lt(key, es[0].key) {
            if from > 0 {
                assert(order::key_lt(es[0].key, es[from].key));
                order::lemma_key_lt_transitive(key, es[0].key, es[from].key);
            }
        }
    }
}

/// The part that is read is the one from the last index entry that is not after the
/// key up to the next index entry, or to the end of the data. A lookup searches that
/// part and no other.
pub proof fn lemma_part_of_key(h: HandleView, data: Seq<u8>, key: Seq<u8>)
    requires
        h.wf(),
    ensures
        h.located(key) matches Some((start, end)) ==> {
            &&& h.filter.might_contain(key)
            &&& 0 <= start <= end <= h.data_len
            &&& h.lookup_in(data, key) == block::scan(data.subrange(start, end), key)
            &&& exists|p: int|
                {
                    &&& 0 <= p < h.index.len()
                    &&& start == (#[trigger] h.index[p]).offset
                    &&& !order::key_lt(key, h.index[p].key)
                    &&& p + 1 < h.index.len() ==> order::key_lt(key, h.index[p + 1].key) && end
                        == h.index[p + 1].offset
                    &&& p + 1 == h.index.len() ==> end == h.data_len
                }
        },
        h.located(key) is None ==> h.lookup_in(data, key) == Ok::<
            Option<Option<Seq<u8>>>,
            TableError,
        >(None),
        h.located(key) is None <==> !h.filter.might_contain(key) || h.index.len() == 0
            || order::key_lt(key, h.index[0].key),
{
    lemma_floor_splits(h.index, key);
    let p = floor_count(h.index, key);
    if p > 0 {
        assert(h.index[p - 1].offset <= h.data_len);
        if p < h.index.len() {
            assert(h.index[p - 1].offset <= h.index[p].offset);
            assert(order::key_lt(key, h.index[p].key));
        }
        if p > 1 && order::key_lt(key, h.index[0].key) {
            assert(order::key_lt(h.index[0].key, h.index[p - 1].key));
            order::lemma_key_lt_transitive(key, h.index[0].key, h.index[p - 1].key);
        }
    }
}

/// The file of a new table: the data, the index, the meta block and the filter, and
/// then the lengths of these four in eight bytes each and the letters "1MSL".
pub proof fn lemma_file_of_built(
    file_name: Seq<char>,
    id: u64,
    es: Seq<Entry>,
    index_interval: int,
    bits_per_key: int,
    filter_enabled: bool,
)
    requires
        TableView::built(
            file_name,
            id,
            es,
            index_interval,
            bits_per_key,
            filter_enabled,
        ).image.len() <= u64::MAX,
    ensures
        ({
            let t = TableView::built(
                file_name,
                id,
                es,
                index_interval,
                bits_per_key,
                filter_enabled,
            );
            let n = t.image.len() as int;
            let data = block::block_of(es);
            let index = index_encoded(t.index);
            let last = match t.max_key {
                Some(k) => k,
                None => Seq::empty(),
            };
            let meta = bytes::le_u32(last.len() as u32) + last + bytes::le_u64(es.len() as u64);
            let filter = t.filter.encoded();
            &&& t.image.take(n - 36) == data + index + meta + filter
            &&& t.image.subrange(n - 36, n - 28) == bytes::le_u64(data.len() as u64)
            &&& t.image.subrange(n - 28, n - 20) == bytes::le_u64(index.len() as u64)
            &&& t.image.subrange(n - 20, n - 12) == bytes::le_u64(meta.len() as u64)
            &&& t.image.subrange(n - 12, n - 4) == bytes::le_u64(filter.len() as u64)
            &&& t.image.skip(n - 4) == seq![49u8, 77u8, 83u8, 76u8]
        }),
{
    let t = TableView::built(file_name, id, es, index_interval, bits_per_key, filter_enabled);
    let n = t.image.len() as int;
    let data = block::block_of(es);
    let index = index_encoded(t.index);
    let meta = meta_encoded(t.max_key, es.len() as int);
    let filter = t.filter.encoded();
    lemma_six_parts(
        data + index + meta + filter,
        bytes::le_u64(data.len() as u64),
        bytes::le_u64(index.len() as u64),
        bytes::le_u64(meta.len() as u64),
        bytes::le_u64(filter.len() as u64),
        bytes::le_u32(MAGIC),
    );
    assert(t.image.take(n - 36) =~= data + index + meta + filter);
    let m = bytes::le_u32(MAGIC);
    bytes::lemma_le_u32_bytes(MAGIC);
    assert(m =~= seq![49u8, 77u8, 83u8, 76u8]);
    assert(t.image.skip(n - 4) =~= m);
}

/// The bytes of an index: for each entry the length of its key in four bytes, the
/// key, and the place in eight bytes.
pub proof fn lemma_index_bytes(ix: Seq<IndexView>, x: IndexView)
    ensures
        index_encoded(Seq::empty()) == Seq::<u8>::empty(),
        index_encoded(ix.push(x)) == index_encoded(ix) + (bytes::le_u32(x.key.len() as u32) + x.key
            + bytes::le_u64(x.offset)),
{
    assert(ix.push(x).drop_last() =~= ix);
}

/// Whatever the bytes are, an index that is read is the one whose bytes stand
/// there.
pub proof fn lemma_index_decoded_is_encoded(b: Seq<u8>)
    ensures
        index_decoded(b) matches Some(ix) ==> index_encoded(ix) == b,
    decreases b.len(),
{
    if b.len() > 0 {
        if let Some((x, n)) = first_index_entry(b) {
            lemma_index_decoded_is_encoded(b.skip(n));
            if let Some(rest) = index_decoded(b.skip(n)) {
                let ix = seq![x] + rest;
                assert(ix.drop_first() =~= rest);
                lemma_index_encoded_first(ix);
                bytes::lemma_le_u32_at(b, 0);
                bytes::lemma_le_u64_at(b, n - 8);
                assert(x.key.len() as u32 == bytes::u32_at(b, 0));
                assert(b.take(n) =~= index_entry_encoded(x));
                assert(b =~= b.take(n) + b.skip(n));
            }
        }
    } else {
        assert(b =~= Seq::empty());
    }
}

/// The tail of a file starts behind its data: the footer, which is its last 36 bytes,
/// has the lengths of the four blocks, and these fill the file.
pub proof fn lemma_where_the_tail_starts(file_len: int, foot: Seq<u8>)
    ensures
        ({
            let magic = foot.skip(32) == seq![49u8, 77u8, 83u8, 76u8];
            let sum = bytes::u64_at(foot, 0) + bytes::u64_at(foot, 8) + bytes::u64_at(foot, 16)
                + bytes::u64_at(foot, 24);
            tail_start_of(file_len, foot) == (if file_len < 36 || foot.len() != 36 {
                Err::<int, TableError>(TableError::TooShort)
            } else if !magic {
                Err(TableError::BadMagic)
            } else if sum + 36 != file_len {
                Err(TableError::BadLayout)
            } else {
                Ok(bytes::u64_at(foot, 0) as int)
            })
        }),
{
    if foot.len() == 36 {
        bytes::lemma_le_u32_at(foot, 32);
        bytes::lemma_le_u32_bytes(MAGIC);
        assert(bytes::le_u32(MAGIC) =~= seq![49u8, 77u8, 83u8, 76u8]);
        assert(foot.skip(32) =~= foot.subrange(32, 36));
        if foot.skip(32) == bytes::le_u32(MAGIC) {
            bytes::lemma_u32_roundtrip(foot, 32, MAGIC);
        }
    }
}

/// A meta block can be read where it has the length that its key calls for, and a
/// number of entries that can be counted.
pub proof fn lemma_what_meta_says(b: Seq<u8>)
    ensures
        meta_decoded(b) is Some <==> {
            &&& b.len() >= 12
            &&& b.len() == 12 + bytes::u32_at(b, 0)
            &&& bytes::u64_at(b, b.len() - 8) <= usize::MAX
        },
        meta_decoded(b) matches Some((key, n)) ==> {
            &&& n == bytes::u64_at(b, b.len() - 8)
            &&& n == 0 ==> key is None
            &&& n > 0 ==> key == Some(b.subrange(4, b.len() - 8))
        },
{
}

/// Every file is taken for a table that ends in the letters "1MSL", whose blocks have
/// the lengths that stand before these, and whose blocks can be read.
pub proof fn lemma_what_can_be_opened(file_name: Seq<char>, id: u64, image: Seq<u8>)
    requires
        image.len() >= 36,
    ensures
        ({
            let n = image.len() as int;
            let a = bytes::u64_at(image, n - 36) as int;
            let b = a + bytes::u64_at(image, n - 28);
            let c = b + bytes::u64_at(image, n - 20);
            let d = c + bytes::u64_at(image, n - 12);
            let index = index_decoded(image.subrange(a, b));
            let filter = BloomView::decoded(image.subrange(c, d));
            let magic = image.skip(n - 4) == seq![49u8, 77u8, 83u8, 76u8];
            let r = TableView::opened(file_name, id, image);
            &&& r == Err::<TableView, TableError>(TableError::BadMagic) <==> !magic
            &&& r == Err::<TableView, TableError>(TableError::BadLayout) <==> magic && d != n - 36
            &&& r is Ok <==> {
                &&& magic
                &&& d == n - 36
                &&& index is Some
                &&& index_ordered(index.unwrap(), a)
                &&& meta_decoded(image.subrange(b, c)) is Some
                &&& filter is Ok
                &&& filter->Ok_0.num_bits <= 64 * filter->Ok_0.words.len()
            }
        }),
{
    let n = image.len() as int;
    bytes::lemma_le_u32_at(image, n - 4);
    bytes::lemma_le_u32_bytes(MAGIC);
    assert(bytes::le_u32(MAGIC) =~= seq![49u8, 77u8, 83u8, 76u8]);
    assert(image.skip(n - 4) =~= image.subrange(n - 4, n));
    if image.skip(n - 4) == bytes::le_u32(MAGIC) {
        bytes::lemma_u32_roundtrip(image, n - 4, MAGIC);
    }
}

/// A file that is taken for a table ends in the letters "1MSL". Its blocks have the
/// lengths that stand before them and fill the file, and the table has what stands
/// in the blocks.
pub proof fn lemma_what_is_opened(file_name: Seq<char>, id: u64, image: Seq<u8>)
    ensures
        image.len() < 36 <==> TableView::opened(file_name, id, image) == Err::<
            TableView,
            TableError,
        >(TableError::TooShort),
        TableView::opened(file_name, id, image) matches Ok(t) ==> {
            let n = image.len() as int;
            let b = t.data_len + bytes::u64_at(image, n - 28);
            let c = b + bytes::u64_at(image, n - 20);
            &&& n >= 36
            &&& image.skip(n - 4) == seq![49u8, 77u8, 83u8, 76u8]
            &&& t.id == id
            &&& t.file_name == file_name
            &&& t.image == image
            &&& t.data_len == bytes::u64_at(image, n - 36)
            &&& c + bytes::u64_at(image, n - 12) == n - 36
            &&& image.subrange(t.data_len, b) == index_encoded(t.index)
            &&& index_ordered(t.index, t.data_len)
            &&& t.index.len() == 0 ==> t.min_key is None
            &&& t.index.len() > 0 ==> t.min_key == Some(t.index[0].key)
            &&& t.entry_count == bytes::u64_at(image, c - 8)
            &&& t.max_key == (if t.entry_count == 0 {
                None
            } else {
                Some(image.subrange(b + 4, c - 8))
            })
            &&& BloomView::decoded(image.subrange(c, n - 36)) == Ok::<
                BloomView,
                bloom::BloomError,
            >(t.filter)
        },
{
    if let Ok(t) = TableView::opened(file_name, id, image) {
        let n = image.len() as int;
        let b = t.data_len + bytes::u64_at(image, n - 28);
        let c = b + bytes::u64_at(image, n - 20);
        bytes::lemma_le_u32_at(image, n - 4);
        bytes::lemma_le_u32_bytes(MAGIC);
        assert(bytes::le_u32(MAGIC) =~= seq![49u8, 77u8, 83u8, 76u8]);
        assert(image.skip(n - 4) =~= image.subrange(n - 4, n));
        lemma_index_decoded_is_encoded(image.subrange(t.data_len, b));
        let m = image.subrange(b, c);
        let key_end = 4 + bytes::u32_at(m, 0);
        assert(m.subrange(key_end, key_end + 8) =~= image.subrange(c - 8, c));
        bytes::lemma_u64_at_same(m, key_end, image, c - 8);
        assert(m.subrange(4, key_end) =~= image.subrange(b + 4, c - 8));
    }
}

/// A lookup in an intact table finds what its entries say of the key, although
/// the filter and the index spare most of the data.
pub proof fn lemma_lookup(t: TableView, key: Seq<u8>)
    requires
        t.valid(),
    ensures
        t.lookup(key) == Ok::<Option<Option<Seq<u8>>>, TableError>(
            if t.layer().contains_key(key) {
                Some(t.layer()[key])
            } else {
                None
            },
        ),
{
    let es = t.entries();
    let at = choose|at: Seq<int>| points_at(t.index, es, at);
    entry::lemma_layer_contains(es, key);
    lemma_floor_splits(t.index, key);
    let p = floor_count(t.index, key);
    if t.layer().contains_key(key) {
        let i = choose|i: int| 0 <= i < es.len() && #[trigger] es[i].key == key;
        assert(t.filter.might_contain(es[i].key));
    }
    if p == 0 {
        if t.layer().contains_key(key) {
            let i = choose|i: int| 0 <= i < es.len() && #[trigger] es[i].key == key;
            assert(order::key_lt(key, t.index[0].key));
            assert(at[0] == 0);
            if i > 0 {
                assert(order::key_lt(es[0].key, es[i].key));
            }
            order::lemma_key_lt_irreflexive(key);
            order::lemma_key_lt_asymmetric(key, t.index[0].key);
        }
    } else {
        lemma_lookup_in_part(t, key, es, at);
    }
}

/// The part of the data that the index selects says of the key what all entries
/// say of it.
#[verifier::rlimit(40)]
#[verifier::spinoff_prover]
proof fn lemma_lookup_in_part(t: TableView, key: Seq<u8>, es: Seq<Entry>, at: Seq<int>)
    requires
        t.wf(),
        t.data() == block::block_of(es),
        block::all_fit(es),
        entry::sorted(es),
        points_at(t.index, es, at),
        floor_count(t.index, key) > 0,
    ensures
        t.handle().block_range(key) matches Some((start, end)) && block::scan(
            t.data().subrange(start, end),
            key,
        ) == Ok::<Option<Option<Seq<u8>>>, TableError>(
            if entry::layer(es).contains_key(key) {
                Some(entry::layer(es)[key])
            } else {
                None
            },
        ),
{
    lemma_floor_splits(t.index, key);
    let p = floor_count(t.index, key);
    let from = at[p - 1];
    let to = if p < t.index.len() {
        at[p]
    } else {
        es.len() as int
    };
    assert(0 <= from < es.len());
    if p < t.index.len() {
        assert(at[p - 1] < at[p]);
        assert(0 <= at[p] < es.len());
    }
    let (start, end) = t.handle().block_range(key).unwrap();
    block::lemma_block_of_parts(es, from, to);
    assert(es.take(es.len() as int) =~= es);
    assert(t.index[p - 1] == index_entry(es, from));
    if p < t.index.len() {
        assert(t.index[p] == index_entry(es, at[p]));
        assert(order::key_lt(key, t.index[p].key));
    }
    let part = es.subrange(from, to);
    assert(t.data().subrange(start, end) == block::block_of(part));
    assert forall|i: int| 0 <= i < part.len() implies block::fits(#[trigger] part[i]) by {
        assert(block::fits(es[from + i]));
    }
    entry::lemma_sorted_subrange(es, from, to);
    block::lemma_scan_of_block(part, key);
    lemma_part_decides(es, from, to, key);
}

/// Where a key is not before the first entry of a part and is before the entry
/// after it, the part says of the key what all entries say of it.
proof fn lemma_part_decides(es: Seq<Entry>, from: int, to: int, key: Seq<u8>)
    requires
        entry::sorted(es),
        0 <= from < es.len(),
        from <= to <= es.len(),
        !order::key_lt(key, es[from].key),
        to < es.len() ==> order::key_lt(key, es[to].key),
    ensures
        entry::layer(es.subrange(from, to)).contains_key(key) == entry::layer(es).contains_key(key),
        entry::layer(es).contains_key(key) ==> entry::layer(es.subrange(from, to))[key]
            == entry::layer(es)[key],
{
    let part = es.subrange(from, to);
    entry::lemma_sorted_subrange(es, from, to);
    entry::lemma_layer_contains(part, key);
    entry::lemma_layer_contains(es, key);
    if entry::layer(es).contains_key(key) {
        let i = choose|i: int| 0 <= i < es.len() && #[trigger] es[i].key == key;
        if i < from {
            assert(order::key_lt(es[i].key, es[from].key));
        }
        if i >= to {
            order::lemma_key_lt_irreflexive(key);
            if i > to {
                assert(order::key_lt(es[to].key, es[i].key));
                order::lemma_key_lt_asymmetric(key, es[to].key);
            }
        }
        assert(part[i - from].key == key);
        entry::lemma_layer_at(es, i);
        entry::lemma_layer_at(part, i - from);
    }
    if entry::layer(part).contains_key(key) {
        let i = choose|i: int| 0 <= i < part.len() && #[trigger] part[i].key == key;
        assert(es[from + i].key == key);
    }
}

/// A key with the place of its entry in the data block.
struct SparseIndexEntry {
    key: Vec<u8>,
    offset: u64,
}

spec fn index_view(s: Seq<SparseIndexEntry>) -> Seq<IndexView> {
    s.map_values(|x: SparseIndexEntry| IndexView { key: x.key@, offset: x.offset })
}

/// An immutable sorted table.
///
/// `id` tells the age: of two tables the one with the greater id is newer. The
/// entries are in the file; the filter and the index say how little of it a
/// lookup has to read.
pub struct SsTable {
    pub id: u64,
    file_name: String,
    data_len: u64,
    sparse_index: Vec<SparseIndexEntry>,
    bloom: BloomFilter,
    pub entry_count: usize,
    pub min_key: Option<Vec<u8>>,
    pub max_key: Option<Vec<u8>>,
}

impl View for SsTable {
    type V = HandleView;

    closed spec fn view(&self) -> HandleView {
        HandleView {
            id: self.id,
            file_name: self.file_name@,
            data_len: self.data_len as int,
            index: index_view(self.sparse_index@),
            filter: self.bloom@,
            entry_count: self.entry_count as int,
            min_key: entry::value_view(self.min_key),
            max_key: entry::value_view(self.max_key),
        }
    }
}

/// The key of the first index entry.
fn first_index_key(index: &Vec<SparseIndexEntry>) -> (r: Option<Vec<u8>>)
    ensures
        entry::value_view(r) == first_key(index_view(index@)),
{
    if index.len() == 0 {
        None
    } else {
        Some(bytes::copy_bytes(index[0].key.as_slice()))
    }
}

/// Appends one index entry to a buffer.
fn encode_index_entry(buf: &mut Vec<u8>, x: &SparseIndexEntry)
    ensures
        final(buf)@ == old(buf)@ + index_entry_encoded(IndexView { key: x.key@, offset: x.offset }),
{
    bytes::push_u32(buf, x.key.len() as u32);
    bytes::push_bytes(buf, x.key.as_slice());
    bytes::push_u64(buf, x.offset);
    assert(buf@ =~= old(buf)@ + index_entry_encoded(
        IndexView { key: x.key@, offset: x.offset },
    ));
}

/// The index block.
fn encode_index(index: &Vec<SparseIndexEntry>) -> (buf: Vec<u8>)
    ensures
        buf@ == index_encoded(index_view(index@)),
{
    let mut buf: Vec<u8> = Vec::new();
    let ghost ix = index_view(index@);
    let mut i: usize = 0;
    while i < index.len()
        invariant
            i <= index@.len(),
            ix == index_view(index@),
            buf@ == index_encoded(ix.take(i as int)),
        decreases index@.len() - i,
    {
        encode_index_entry(&mut buf, &index[i]);
        i = i + 1;
        assert(ix.take(i as int).drop_last() =~= ix.take(i - 1));
    }
    assert(ix.take(i as int) =~= ix);
    buf
}

/// Reads an index block.
fn decode_index(b: &[u8]) -> (r: Option<Vec<SparseIndexEntry>>)
    ensures
        match r {
            Some(v) => index_decoded(b@) == Some(index_view(v@)),
            None => index_decoded(b@) is None,
        },
{
    let mut index: Vec<SparseIndexEntry> = Vec::new();
    let mut pos: usize = 0;
    assert(b@.skip(0) =~= b@);
    assert(index_view(index@) =~= Seq::empty());
    proof {
        if let Some(all) = index_decoded(b@) {
            assert(index_view(index@) + all =~= all);
        }
    }
    while pos < b.len()
        invariant
            pos <= b@.len(),
            match index_decoded(b@.skip(pos as int)) {
                Some(rest) => index_decoded(b@) == Some(index_view(index@) + rest),
                None => index_decoded(b@) is None,
            },
        decreases b@.len() - pos,
    {
        let ghost rest = b@.skip(pos as int);
        if b.len() - pos < 12 {
            return None;
        }
        let key_len: u32 = bytes::read_u32(b, pos);
        proof {
            assert(rest.subrange(0, 4) =~= b@.subrange(pos as int, pos + 4));
            bytes::lemma_u32_at_same(rest, 0, b@, pos as int);
        }
        if b.len() - pos - 12 < key_len as usize {
            return None;
        }
        let key_end: usize = pos + 4 + key_len as usize;
        let key = bytes::copy_bytes(vstd::slice::slice_subrange(b, pos + 4, key_end));
        let offset: u64 = bytes::read_u64(b, key_end);
        proof {
            assert(key@ =~= rest.subrange(4, 4 + key_len as int));
            assert(rest.subrange(4 + key_len as int, 4 + key_len as int + 8) =~= b@.subrange(
                key_end as int,
                key_end + 8,
            ));
            bytes::lemma_u64_at_same(rest, 4 + key_len as int, b@, key_end as int);
        }
        let ghost before = index@;
        index.push(SparseIndexEntry { key, offset });
        pos = key_end + 8;
        proof {
            let x = IndexView { key: key@, offset };
            assert(first_index_entry(rest) == Some((x, 12 + key_len as int)));
            assert(rest.skip(12 + key_len as int) =~= b@.skip(pos as int));
            assert(index_view(index@) =~= index_view(before).push(x));
            if let Some(tail) = index_decoded(b@.skip(pos as int)) {
                assert(index_view(before) + (seq![x] + tail) =~= index_view(index@) + tail);
            }
        }
    }
    assert(b@.skip(pos as int) =~= Seq::empty());
    assert(index_view(index@) + Seq::<IndexView>::empty() =~= index_view(index@));
    Some(index)
}

/// Whether an index is in order.
fn check_index_order(index: &Vec<SparseIndexEntry>, data_len: u64) -> (r: bool)
    ensures
        r == index_ordered(index_view(index@), data_len as int),
{
    let ghost ix = index_view(index@);
    let mut i: usize = 0;
    while i < index.len()
        invariant
            i <= index@.len(),
            ix == index_view(index@),
            index_ordered(ix.take(i as int), data_len as int),
        decreases index@.len() - i,
    {
        assert(ix[i as int] == (IndexView {
            key: index@[i as int].key@,
            offset: index@[i as int].offset,
        }));
        if index[i].offset > data_len {
            return false;
        }
        if i > 0 {
            assert(ix[i - 1] == (IndexView {
                key: index@[i - 1].key@,
                offset: index@[i - 1].offset,
            }));
            if index[i].offset < index[i - 1].offset {
                return false;
            }
            match order::compare_keys(index[i - 1].key.as_slice(), index[i].key.as_slice()) {
                KeyOrder::Before => {},
                _ => {
                    assert(!order::key_lt(ix[i - 1].key, ix[i as int].key));
                    return false;
                },
            }
        }
        proof {
            let t = ix.take(i + 1);
            let u = ix.take(i as int);
            assert forall|a: int, b: int| 0 <= a < b < t.len() implies order::key_lt(
                #[trigger] t[a].key,
                #[trigger] t[b].key,
            ) by {
                if b < i {
                    assert(order::key_lt(u[a].key, u[b].key));
                } else if a < i - 1 {
                    assert(order::key_lt(u[a].key, u[i - 1].key));
                    order::lemma_key_lt_transitive(ix[a].key, ix[i - 1].key, ix[i as int].key);
                }
            }
            assert forall|a: int, b: int| 0 <= a <= b < t.len() implies (#[trigger] t[a]).offset
                <= (#[trigger] t[b]).offset by {
                if b < i {
                    assert(u[a].offset <= u[b].offset);
                } else if a < i {
                    assert(u[a].offset <= u[i - 1].offset);
                }
            }
            assert forall|a: int| 0 <= a < t.len() implies (#[trigger] t[a]).offset <= data_len by {
                if a < i {
                    assert(u[a].offset <= data_len);
                }
            }
        }
        i = i + 1;
    }
    assert(ix.take(i as int) =~= ix);
    true
}

/// The meta block.
fn encode_meta(max_key: &Option<Vec<u8>>, entry_count: usize) -> (buf: Vec<u8>)
    ensures
        buf@ == meta_encoded(entry::value_view(*max_key), entry_count as int),
{
    let mut buf: Vec<u8> = Vec::new();
    match max_key {
        Some(k) => {
            bytes::push_u32(&mut buf, k.len() as u32);
            bytes::push_bytes(&mut buf, k.as_slice());
        },
        None => {
            bytes::push_u32(&mut buf, 0);
        },
    }
    bytes::push_u64(&mut buf, entry_count as u64);
    assert(buf@ =~= meta_encoded(entry::value_view(*max_key), entry_count as int));
    buf
}

/// Reads a meta block.
fn decode_meta(b: &[u8]) -> (r: Option<(Option<Vec<u8>>, usize)>)
    ensures
        match r {
            Some((k, n)) => meta_decoded(b@) == Some((entry::value_view(k), n as int)),
            None => meta_decoded(b@) is None,
        },
{
    if b.len() < 12 {
        return None;
    }
    let key_len: u32 = bytes::read_u32(b, 0);
    if b.len() - 12 != key_len as usize {
        return None;
    }
    let key_end: usize = 4 + key_len as usize;
    let count: u64 = bytes::read_u64(b, key_end);
    if count > usize::MAX as u64 {
        return None;
    }
    if count == 0 {
        return Some((None, 0));
    }
    let key = bytes::copy_bytes(vstd::slice::slice_subrange(b, 4, key_end));
    Some((Some(key), count as usize))
}

/// Whether the filter for a table of this size can be counted in bits.
fn check_filter_size(expected_items: usize, bits_per_key: usize) -> (r: bool)
    ensures
        r == filter_fits(expected_items as int, bits_per_key as int),
{
    let items: usize = if expected_items < 1 { 1 } else { expected_items };
    let bits: usize = if bits_per_key < 1 { 1 } else { bits_per_key };
    match items.checked_mul(bits) {
        None => false,
        Some(product) => product as u64 <= u64::MAX - 63,
    }
}

/// Whether an entry can be written.
fn check_entry_size(key: &Vec<u8>, value: &Option<Vec<u8>>) -> (r: bool)
    ensures
        r == block::fits(Entry { key: key@, value: entry::value_view(*value) }),
{
    key.len() as u64 <= u32::MAX as u64 && match value {
        Some(v) => (v.len() as u64) < u32::MAX as u64,
        None => true,
    }
}

/// Whether entries are in key order.
fn check_entries_order(entries: &Vec<(Vec<u8>, Option<Vec<u8>>)>) -> (r: bool)
    ensures
        r == entry::sorted(entry::entries_view(entries@)),
{
    let ghost es = entry::entries_view(entries@);
    let mut i: usize = 0;
    while i < entries.len()
        invariant
            i <= entries@.len(),
            es == entry::entries_view(entries@),
            entry::sorted(es.take(i as int)),
        decreases entries@.len() - i,
    {
        assert(es[i as int] == entry::entry_view(entries@[i as int]));
        if i > 0 {
            assert(es[i - 1] == entry::entry_view(entries@[i - 1]));
            match order::compare_keys(entries[i - 1].0.as_slice(), entries[i].0.as_slice()) {
                KeyOrder::Before => {},
                _ => {
                    assert(!order::key_lt(es[i - 1].key, es[i as int].key));
                    return false;
                },
            }
        }
        proof {
            entry::lemma_sorted_push(es.take(i as int), es[i as int]);
            assert(es.take(i + 1) =~= es.take(i as int).push(es[i as int]));
        }
        i = i + 1;
    }
    assert(es.take(i as int) =~= es);
    true
}

/// The first `i` entries are indexed.
spec fn indexed_up_to(ix: Seq<IndexView>, es: Seq<Entry>, interval: int, i: int) -> bool {
    forall|j: int|
        0 <= j < ix.len() ==> {
            &&& #[trigger] index_place(j, interval) < i
            &&& ix[j] == index_entry(es, index_place(j, interval))
        }
}

/// The place that the `j`-th index entry points to.
spec fn index_place(j: int, interval: int) -> int {
    j * interval
}

/// Adding the index entry for place `i`.
proof fn lemma_index_push(ix: Seq<IndexView>, es: Seq<Entry>, interval: int, i: int)
    requires
        interval >= 1,
        i == ix.len() * interval,
        indexed_up_to(ix, es, interval, i),
    ensures
        indexed_up_to(ix.push(index_entry(es, i)), es, interval, i + 1),
        i + interval == (ix.len() + 1) * interval,
{
    let iy = ix.push(index_entry(es, i));
    assert forall|j: int| 0 <= j < iy.len() implies #[trigger] index_place(j, interval) < i
        + 1 && iy[j] == index_entry(es, index_place(j, interval)) by {
        if j < ix.len() {
            assert(iy[j] == ix[j]);
        } else {
            assert(index_place(j, interval) == i);
        }
    }
    assert(i + interval == (ix.len() + 1) * interval) by (nonlinear_arith)
        requires
            i == ix.len() * interval,
    ;
}

/// The length of a finished index.
proof fn lemma_index_len(len: int, interval: int, n: int, until_next: int)
    requires
        interval >= 1,
        0 <= until_next < interval,
        n + until_next == len * interval,
    ensures
        len == (n + interval - 1) / interval,
{
    assert(len == (n + interval - 1) / interval) by (nonlinear_arith)
        requires
            interval >= 1,
            0 <= until_next < interval,
            n + until_next == len * interval,
    ;
}

/// Writes the data block and notes every `interval`-th entry for the index.
/// `None` says that an entry cannot be written.
fn write_entries(entries: &Vec<(Vec<u8>, Option<Vec<u8>>)>, interval: usize) -> (r: Option<
    (Vec<u8>, Vec<SparseIndexEntry>),
>)
    requires
        interval >= 1,
    ensures
        r is Some <==> block::all_fit(entry::entries_view(entries@)),
        r matches Some((data, index)) ==> {
            &&& data@ == block::block_of(entry::entries_view(entries@))
            &&& index_view(index@) == sparse_index_of(
                entry::entries_view(entries@),
                interval as int,
            )
        },
{
    let ghost es = entry::entries_view(entries@);
    let mut data: Vec<u8> = Vec::new();
    let mut index: Vec<SparseIndexEntry> = Vec::new();
    let mut until_next: usize = 0;
    let mut i: usize = 0;
    proof {
        assert(es.take(0) =~= Seq::empty());
        assert(index_view(index@) =~= Seq::empty());
    }
    while i < entries.len()
        invariant
            i <= entries@.len(),
            es == entry::entries_view(entries@),
            interval >= 1,
            until_next < interval,
            i + until_next == index@.len() * interval,
            block::all_fit(es.take(i as int)),
            data@ == block::block_of(es.take(i as int)),
            indexed_up_to(index_view(index@), es, interval as int, i as int),
        decreases entries@.len() - i,
    {
        let e = &entries[i];
        assert(es[i as int] == entry::entry_view(entries@[i as int]));
        if !check_entry_size(&e.0, &e.1) {
            return None;
        }
        if until_next == 0 {
            let ghost before = index@;
            proof {
                lemma_index_push(index_view(index@), es, interval as int, i as int);
            }
            index.push(
                SparseIndexEntry {
                    key: bytes::copy_bytes(e.0.as_slice()),
                    offset: data.len() as u64,
                },
            );
            until_next = interval - 1;
            assert(index_view(index@) =~= index_view(before).push(index_entry(es, i as int)));
        } else {
            until_next = until_next - 1;
        }
        block::encode_entry(&mut data, e.0.as_slice(), &e.1);
        i = i + 1;
        assert(es.take(i as int) =~= es.take(i - 1).push(es[i - 1]));
        proof {
            block::lemma_block_of_push(es.take(i - 1), es[i - 1]);
        }
    }
    assert(es.take(i as int) =~= es);
    proof {
        lemma_index_len(
            index@.len() as int,
            interval as int,
            es.len() as int,
            until_next as int,
        );
        let ix = index_view(index@);
        let sparse = sparse_index_of(es, interval as int);
        assert forall|j: int| 0 <= j < ix.len() implies ix[j] == sparse[j] by {
            assert(ix[j] == index_entry(es, index_place(j, interval as int)));
        }
        assert(ix =~= sparse);
    }
    Some((data, index))
}

/// A filter over the keys of all entries.
fn fill_filter(entries: &Vec<(Vec<u8>, Option<Vec<u8>>)>, bits_per_key: usize) -> (f: BloomFilter)
    requires
        filter_fits(entries@.len() as int, bits_per_key as int),
    ensures
        f@ == BloomView::fresh(entries@.len() as int, bits_per_key as int).with_keys(
            keys_of(entry::entries_view(entries@)),
        ),
{
    let ghost es = entry::entries_view(entries@);
    let mut f = BloomFilter::new(entries.len(), bits_per_key);
    let ghost fresh = f@;
    let mut i: usize = 0;
    assert(keys_of(es).take(0) =~= Seq::empty());
    while i < entries.len()
        invariant
            i <= entries@.len(),
            es == entry::entries_view(entries@),
            f@.wf(),
            f@ == fresh.with_keys(keys_of(es).take(i as int)),
        decreases entries@.len() - i,
    {
        f.insert(entries[i].0.as_slice());
        i = i + 1;
        assert(keys_of(es).take(i as int).drop_last() =~= keys_of(es).take(i - 1));
        assert(keys_of(es).take(i as int).last() == es[i - 1].key);
    }
    assert(keys_of(es).take(i as int) =~= keys_of(es));
    f
}

impl SsTable {
    /// Makes a table of entries, which have to be in key order. One index entry is written for
    /// every `index_interval` entries (for each one where it is 0).
    #[verifier::rlimit(40)]
    pub fn build(
        file_name: String,
        id: u64,
        entries: Vec<(Vec<u8>, Option<Vec<u8>>)>,
        index_interval: usize,
        bits_per_key: usize,
        filter_enabled: bool,
    ) -> (r: Result<(SsTable, Vec<u8>), TableError>)
        ensures
            r matches Ok((t, image)) ==> {
                let v = TableView::built(
                    file_name@,
                    id,
                    entry::entries_view(entries@),
                    index_interval as int,
                    bits_per_key as int,
                    filter_enabled,
                );
                &&& TableView::build_error(
                    entry::entries_view(entries@),
                    bits_per_key as int,
                    filter_enabled,
                ) is None
                &&& t@ == v.handle()
                &&& image@ == v.image
                &&& v.holds(entry::entries_view(entries@))
                &&& v.valid()
                &&& v.entries() == entry::entries_view(entries@)
            },
            r matches Err(e) ==> TableView::build_error(
                entry::entries_view(entries@),
                bits_per_key as int,
                filter_enabled,
            ) == Some(e),
            ({
                let bits = (if entries@.len() < 1 {
                    1
                } else {
                    entries@.len() as int
                }) * (if bits_per_key < 1 {
                    1
                } else {
                    bits_per_key as int
                });
                r is Ok <==> {
                    &&& forall|i: int|
                        0 <= i < entries@.len() ==> (#[trigger] entries@[i]).0@.len() <= 0xffff_ffff
                            && (entries@[i].1 matches Some(v) ==> v@.len() < 0xffff_ffff)
                    &&& forall|i: int, j: int|
                        0 <= i < j < entries@.len() ==> order::key_lt(
                            (#[trigger] entries@[i]).0@,
                            (#[trigger] entries@[j]).0@,
                        )
                    &&& filter_enabled ==> bits <= usize::MAX && bits <= u64::MAX - 63
                }
            }),
    {
        let ghost es = entry::entries_view(entries@);
        proof {
            lemma_entries_can_be_built(entries@, bits_per_key as int, filter_enabled);
        }
        let interval: usize = if index_interval < 1 { 1 } else { index_interval };
        let (data, index) = match write_entries(&entries, interval) {
            Some(parts) => parts,
            None => {
                return Err(TableError::EntryTooLarge);
            },
        };
        if !check_entries_order(&entries) {
            return Err(TableError::Unsorted);
        }
        if filter_enabled && !check_filter_size(entries.len(), bits_per_key) {
            return Err(TableError::FilterTooLarge);
        }
        let bloom = if filter_enabled {
            fill_filter(&entries, bits_per_key)
        } else {
            BloomFilter::disabled()
        };
        let max_key: Option<Vec<u8>> = if entries.len() == 0 {
            None
        } else {
            let last = &entries[entries.len() - 1];
            Some(bytes::copy_bytes(last.0.as_slice()))
        };
        let min_key = first_index_key(&index);
        let index_block = encode_index(&index);
        let meta_block = encode_meta(&max_key, entries.len());
        let bloom_block = bloom.serialize();
        let data_len: u64 = data.len() as u64;
        let mut image: Vec<u8> = data;
        bytes::push_bytes(&mut image, index_block.as_slice());
        bytes::push_bytes(&mut image, meta_block.as_slice());
        bytes::push_bytes(&mut image, bloom_block.as_slice());
        bytes::push_u64(&mut image, data_len);
        bytes::push_u64(&mut image, index_block.len() as u64);
        bytes::push_u64(&mut image, meta_block.len() as u64);
        bytes::push_u64(&mut image, bloom_block.len() as u64);
        bytes::push_u32(&mut image, MAGIC);
        assert(image@ =~= assembled(
            block::block_of(es),
            index_block@,
            meta_block@,
            bloom_block@,
        ));
        let t = SsTable {
            id,
            file_name,
            data_len,
            sparse_index: index,
            bloom,
            entry_count: entries.len(),
            min_key,
            max_key,
        };
        proof {
            let v = TableView::built(
                file_name@,
                id,
                es,
                index_interval as int,
                bits_per_key as int,
                filter_enabled,
            );
            assert(image@ =~= v.image);
            assert(image@.len() == image.len());
            assert(t@ =~= v.handle());
            lemma_built_holds(
                file_name@,
                id,
                es,
                index_interval as int,
                bits_per_key as int,
                filter_enabled,
            );
        }
        Ok((t, image))
    }

    /// Where the tail of a table's file starts, of which `open` makes a table.
    /// `footer` is the last 36 bytes of the file.
    pub fn tail_start(file_len: u64, footer: &[u8]) -> (r: Result<u64, TableError>)
        ensures
            match r {
                Ok(d) => tail_start_of(file_len as int, footer@) == Ok::<int, TableError>(d as int),
                Err(e) => tail_start_of(file_len as int, footer@) == Err::<int, TableError>(e),
            },
    {
        if file_len < FOOTER_LEN as u64 || footer.len() != FOOTER_LEN {
            return Err(TableError::TooShort);
        }
        if bytes::read_u32(footer, 32) != MAGIC {
            return Err(TableError::BadMagic);
        }
        let data_len: u64 = bytes::read_u64(footer, 0);
        let index_len: u64 = bytes::read_u64(footer, 8);
        let meta_len: u64 = bytes::read_u64(footer, 16);
        let bloom_len: u64 = bytes::read_u64(footer, 24);
        let room: u64 = file_len - 36;
        if data_len > room || index_len > room - data_len || meta_len > room - data_len - index_len
            || bloom_len != room - data_len - index_len - meta_len {
            return Err(TableError::BadLayout);
        }
        Ok(data_len)
    }

    /// Opens a table from the tail of its file: all that comes behind the data
    /// block.
    pub fn open(file_name: String, id: u64, tail: &[u8]) -> (r: Result<SsTable, TableError>)
        ensures
            r matches Ok(t) ==> {
                &&& HandleView::opened(file_name@, id, tail@) == Ok::<HandleView, TableError>(t@)
                &&& t@.wf()
            },
            r matches Err(e) ==> HandleView::opened(file_name@, id, tail@) == Err::<
                HandleView,
                TableError,
            >(e),
    {
        let n: usize = tail.len();
        if n < FOOTER_LEN {
            return Err(TableError::TooShort);
        }
        if bytes::read_u32(tail, n - 4) != MAGIC {
            return Err(TableError::BadMagic);
        }
        let data_len: u64 = bytes::read_u64(tail, n - 36);
        let index_len64: u64 = bytes::read_u64(tail, n - 28);
        let meta_len64: u64 = bytes::read_u64(tail, n - 20);
        let bloom_len64: u64 = bytes::read_u64(tail, n - 12);
        let room: u64 = (n - 36) as u64;
        if index_len64 > room {
            return Err(TableError::BadLayout);
        }
        let room: u64 = room - index_len64;
        if meta_len64 > room {
            return Err(TableError::BadLayout);
        }
        if bloom_len64 != room - meta_len64 {
            return Err(TableError::BadLayout);
        }
        let index_end: usize = index_len64 as usize;
        let meta_end: usize = index_end + meta_len64 as usize;
        let sparse_index = match decode_index(
            vstd::slice::slice_subrange(tail, 0, index_end),
        ) {
            Some(index) => index,
            None => {
                return Err(TableError::BadIndex);
            },
        };
        if !check_index_order(&sparse_index, data_len) {
            return Err(TableError::BadIndex);
        }
        let (max_key, entry_count) = match decode_meta(
            vstd::slice::slice_subrange(tail, index_end, meta_end),
        ) {
            Some(meta) => meta,
            None => {
                return Err(TableError::BadMeta);
            },
        };
        let bloom = match BloomFilter::deserialize(
            vstd::slice::slice_subrange(tail, meta_end, n - 36),
        ) {
            Ok(bloom) => bloom,
            Err(_) => {
                return Err(TableError::BadFilter);
            },
        };
        if !bloom.is_consistent() {
            return Err(TableError::BadFilter);
        }
        let min_key = first_index_key(&sparse_index);
        let t = SsTable {
            id,
            file_name,
            data_len,
            sparse_index,
            bloom,
            entry_count,
            min_key,
            max_key,
        };
        Ok(t)
    }

    /// The id, which tells the table's age.
    pub fn id(&self) -> (r: u64)
        ensures
            r == self@.id,
    {
        self.id
    }

    /// The number of entries, tombstones among them.
    pub fn entry_count(&self) -> (r: usize)
        ensures
            r == self@.entry_count,
    {
        self.entry_count
    }

    /// The smallest key.
    pub fn min_key(&self) -> (r: &Option<Vec<u8>>)
        ensures
            entry::value_view(*r) == self@.min_key,
    {
        &self.min_key
    }

    /// The greatest key.
    pub fn max_key(&self) -> (r: &Option<Vec<u8>>)
        ensures
            entry::value_view(*r) == self@.max_key,
    {
        &self.max_key
    }

    /// The length of the data block, with which the file starts.
    pub fn data_len(&self) -> (r: u64)
        ensures
            r == self@.data_len,
    {
        self.data_len
    }

    /// The name of the table's file.
    pub fn file_name(&self) -> (r: &String)
        ensures
            r@ == self@.file_name,
    {
        &self.file_name
    }

    /// The number of index entries up to the last one not after `key`.
    fn search_index(&self, key: &[u8]) -> (p: usize)
        requires
            self@.wf(),
        ensures
            p == floor_count(self@.index, key@),
            p <= self@.index.len(),
    {
        let ghost ix = self@.index;
        let mut lo: usize = 0;
        let mut hi: usize = self.sparse_index.len();
        while lo < hi
            invariant
                lo <= hi <= ix.len(),
                ix == index_view(self.sparse_index@),
                index_ordered(ix, self.data_len as int),
                lo > 0 ==> !order::key_lt(key@, ix[lo - 1].key),
                forall|i: int| hi <= i < ix.len() ==> order::key_lt(key@, #[trigger] ix[i].key),
            decreases hi - lo,
        {
            let mid: usize = lo + (hi - lo) / 2;
            assert(ix[mid as int].key == self.sparse_index@[mid as int].key@);
            match order::compare_keys(key, self.sparse_index[mid].key.as_slice()) {
                KeyOrder::Before => {
                    proof {
                        assert forall|i: int| mid <= i < ix.len() implies order::key_lt(
                            key@,
                            #[trigger] ix[i].key,
                        ) by {
                            if i > mid {
                                order::lemma_key_lt_transitive(key@, ix[mid as int].key, ix[i].key);
                            }
                        }
                    }
                    hi = mid;
                },
                _ => {
                    lo = mid + 1;
                },
            }
        }
        proof {
            lemma_floor_count(ix, key@, lo as int);
        }
        lo
    }

    /// The part of the file that has to be searched for `key`. `None` says that
    /// the table does not mention the key: the filter rules it out, or it is before
    /// the first key.
    pub fn locate(&self, key: &[u8]) -> (r: Option<(u64, u64)>)
        requires
            self@.wf(),
        ensures
            match r {
                None => self@.located(key@) is None,
                Some((start, end)) => {
                    &&& self@.located(key@) == Some((start as int, end as int))
                    &&& start <= end <= self@.data_len
                },
            },
    {
        if !self.bloom.might_contain(key) {
            return None;
        }
        let p: usize = self.search_index(key);
        if p == 0 {
            return None;
        }
        let ghost ix = self@.index;
        assert(ix[p - 1].offset == self.sparse_index@[p - 1].offset);
        let start: u64 = self.sparse_index[p - 1].offset;
        let end: u64 = if p < self.sparse_index.len() {
            assert(ix[p as int].offset == self.sparse_index@[p as int].offset);
            self.sparse_index[p].offset
        } else {
            self.data_len
        };
        Some((start, end))
    }

    /// Looks `key` up in the data block: nothing, a value or a tombstone. Only the
    /// part that `locate` selects is searched.
    pub fn get(&self, key: &[u8], data: &[u8]) -> (r: Result<Option<Option<Vec<u8>>>, TableError>)
        requires
            self@.wf(),
            data@.len() == self@.data_len,
        ensures
            match r {
                Ok(None) => self@.lookup_in(data@, key@) == Ok::<
                    Option<Option<Seq<u8>>>,
                    TableError,
                >(None),
                Ok(Some(v)) => self@.lookup_in(data@, key@) == Ok::<
                    Option<Option<Seq<u8>>>,
                    TableError,
                >(Some(entry::value_view(v))),
                Err(e) => self@.lookup_in(data@, key@) == Err::<
                    Option<Option<Seq<u8>>>,
                    TableError,
                >(e),
            },
    {
        match self.locate(key) {
            None => Ok(None),
            Some((start, end)) => {
                assert(end <= data.len());
                block::scan_block(
                    vstd::slice::slice_subrange(data, start as usize, end as usize),
                    key,
                )
            },
        }
    }
}

} // verus!
