//! A merge of tables, one part of a file at a time.
//!
//! The merge does not read files itself. It says which part of which file it
//! needs next, and is given the bytes. Of each table it holds the current entry,
//! and the bytes that have been read and not been taken yet.

use crate::block;
use crate::block::TableError;
use crate::bytes;
use crate::compaction;
use crate::entry;
use crate::entry::Entry;
use crate::order;
use crate::order::KeyOrder;
use crate::queue;
use crate::queue::{HeapItem, Heads, MergeQueue};
use crate::sstable::SsTable;
use vstd::prelude::*;

verus! {

/// How many bytes are read at once.
pub const READ_LEN: u64 = 65536;

/// Where a walk through a data block is: the bytes that have been read and not
/// taken yet, the place up to which has been read, and the end of the block.
pub struct SourceView {
    pub unread: Seq<u8>,
    pub read: int,
    pub end: int,
}

impl SourceView {
    pub open spec fn wf(self) -> bool {
        self.unread.len() <= self.read <= self.end <= u64::MAX
    }

    /// The walk is through this data block.
    pub open spec fn walks(self, data: Seq<u8>) -> bool {
        &&& data.len() == self.end
        &&& self.unread == data.subrange(self.read - self.unread.len(), self.read)
    }

    /// What has not been taken yet.
    pub open spec fn behind(self, data: Seq<u8>) -> Seq<u8> {
        data.skip(self.read - self.unread.len())
    }
}

/// A walk through a data block.
struct Source {
    buffer: Vec<u8>,
    at: usize,
    read: u64,
    end: u64,
}

/// What comes next in a data block.
enum Next {
    Entry(Vec<u8>, Option<Vec<u8>>),
    /// All entries have been taken.
    End,
    /// More has to be read first.
    More,
    /// The next entry runs past the end.
    Bad,
}

impl Source {
    spec fn view(&self) -> SourceView {
        SourceView {
            unread: self.buffer@.skip(self.at as int),
            read: self.read as int,
            end: self.end as int,
        }
    }

    spec fn wf(self) -> bool {
        self.at <= self.buffer@.len() && self@.wf()
    }

    /// Takes the next entry out of what has been read.
    fn take(&mut self) -> (r: Next)
        requires
            old(self).wf(),
        ensures
            final(self).wf(),
            match r {
                Next::Entry(key, value) => {
                    &&& block::first_entry(old(self)@.unread) matches Some((e, n))
                    &&& e == entry::entry_view((key, value))
                    &&& 0 < n <= old(self)@.unread.len()
                    &&& final(self)@ == (SourceView {
                        unread: old(self)@.unread.skip(n),
                        ..old(self)@
                    })
                },
                Next::End => {
                    &&& final(self)@ == old(self)@
                    &&& old(self)@.unread.len() == 0
                    &&& old(self)@.read == old(self)@.end
                },
                Next::More => {
                    &&& final(self)@ == old(self)@
                    &&& old(self)@.read < old(self)@.end
                    &&& block::first_entry(old(self)@.unread) is None
                },
                Next::Bad => {
                    &&& final(self)@ == old(self)@
                    &&& old(self)@.unread.len() > 0
                    &&& block::first_entry(old(self)@.unread) is None
                    &&& old(self)@.read == old(self)@.end
                },
            },
    {
        let rest = vstd::slice::slice_subrange(self.buffer.as_slice(), self.at, self.buffer.len());
        assert(rest@ =~= self@.unread);
        match block::read_entry(rest) {
            Some(((key, value), n)) => {
                proof {
                    block::lemma_first_entry_of_front(rest@, Seq::empty());
                }
                let ghost before = self@.unread;
                self.at = self.at + n;
                assert(self@.unread =~= before.skip(n as int));
                Next::Entry(key, value)
            },
            None => if self.read < self.end {
                Next::More
            } else if self.at == self.buffer.len() {
                Next::End
            } else {
                Next::Bad
            },
        }
    }

    /// Takes in the bytes behind those that have been read.
    fn feed(&mut self, more: &[u8])
        requires
            old(self).wf(),
            old(self)@.read + more@.len() <= old(self)@.end,
        ensures
            final(self).wf(),
            final(self)@ == (SourceView {
                unread: old(self)@.unread + more@,
                read: old(self)@.read + more@.len(),
                ..old(self)@
            }),
    {
        let ghost before = self@.unread;
        let mut buffer: Vec<u8> = bytes::copy_bytes(
            vstd::slice::slice_subrange(self.buffer.as_slice(), self.at, self.buffer.len()),
        );
        assert(buffer@ =~= before);
        bytes::push_bytes(&mut buffer, more);
        self.buffer = buffer;
        self.at = 0;
        self.read = self.read + more.len() as u64;
        assert(self@.unread =~= before + more@);
    }
}

/// How far a merge has come. The first entry has been taken of the first `filled`
/// tables; the current entry of table `gap`, if any, has been used up and the next
/// one is not there yet.
pub struct MergeView {
    pub sources: Seq<SourceView>,
    pub heads: Heads,
    pub filled: int,
    pub gap: Option<int>,
    pub output: Seq<Entry>,
    pub last: Option<Seq<u8>>,
}

/// The current entry of a table, where there is one.
pub open spec fn head_part(h: Option<(Vec<u8>, Option<Vec<u8>>)>) -> Seq<Entry> {
    match h {
        Some(e) => seq![entry::entry_view(e)],
        None => Seq::empty(),
    }
}

/// The current entries alone.
spec fn head_parts(heads: Heads) -> Seq<Seq<Entry>> {
    heads.map_values(|h: Option<(Vec<u8>, Option<Vec<u8>>)>| head_part(h))
}

/// The entries that are left: the current one of each table and those behind it.
pub open spec fn streams_left(heads: Heads, behind: Seq<Seq<u8>>) -> Seq<Seq<Entry>> {
    Seq::new(
        heads.len(),
        |s: int| head_part(heads[s]) + block::block_entries(behind[s]).unwrap(),
    )
}

/// A table without a current entry has been read to its end.
spec fn none_is_last(heads: Heads, behind: Seq<Seq<u8>>) -> bool {
    &&& heads.len() == behind.len()
    &&& forall|s: int|
        0 <= s < heads.len() && (#[trigger] heads[s]) is None ==> behind[s].len() == 0
}

impl MergeView {
    /// The table whose next entry is needed.
    pub open spec fn wants(self) -> Option<int> {
        if self.filled < self.sources.len() {
            Some(self.filled)
        } else {
            self.gap
        }
    }

    pub open spec fn wf(self) -> bool {
        &&& self.heads.len() == self.sources.len()
        &&& 0 <= self.filled <= self.sources.len()
        &&& self.gap matches Some(g) ==> 0 <= g < self.sources.len() && self.filled
            == self.sources.len() && self.heads[g] is None
        &&& forall|s: int| 0 <= s < self.sources.len() ==> (#[trigger] self.sources[s]).wf()
        &&& forall|s: int|
            self.filled <= s < self.sources.len() ==> (#[trigger] self.heads[s]) is None
        &&& forall|s: int|
            0 <= s < self.filled && (#[trigger] self.heads[s]) is None && self.gap != Some(s)
                ==> self.sources[s].unread.len() == 0 && self.sources[s].read
                == self.sources[s].end
    }

    /// The part of a file that comes next: the place of its table, and the start
    /// and the end of the part.
    pub open spec fn next_part(self) -> (int, int, int) {
        let s = self.wants().unwrap();
        let x = self.sources[s];
        (
            s,
            x.read,
            if x.end - x.read < READ_LEN {
                x.end
            } else {
                x.read + READ_LEN
            },
        )
    }

    /// What has not been taken yet of each table.
    pub open spec fn behind(self, datas: Seq<Seq<u8>>) -> Seq<Seq<u8>> {
        Seq::new(self.sources.len(), |s: int| self.sources[s].behind(datas[s]))
    }

    /// The merge of these data blocks has come this far.
    pub open spec fn progress(self, datas: Seq<Seq<u8>>) -> bool {
        &&& datas.len() == self.sources.len()
        &&& forall|s: int|
            0 <= s < datas.len() ==> (#[trigger] self.sources[s]).walks(datas[s])
        &&& compaction::all_readable(self.behind(datas)) == compaction::all_readable(datas)
        &&& compaction::all_readable(datas) ==> compaction::merged(
            compaction::streams_in(datas),
            None,
        ) == self.output + compaction::merged(
            streams_left(self.heads, self.behind(datas)),
            self.last,
        )
    }

    /// The merge of these data blocks has come to its end.
    pub open spec fn finished(self, datas: Seq<Seq<u8>>) -> bool {
        &&& compaction::all_readable(datas)
        &&& self.output == compaction::merged(compaction::streams_in(datas), None)
    }
}

/// A part that is asked for follows what has been read of its table, has at most
/// 65536 bytes, and is empty only at the end of the data.
pub proof fn lemma_parts_are_small(m: MergeView)
    requires
        m.wf(),
        m.wants() is Some,
    ensures
        ({
            let (s, start, end) = m.next_part();
            &&& 0 <= s < m.sources.len()
            &&& start == m.sources[s].read
            &&& start <= end <= m.sources[s].end
            &&& end - start <= 65536
            &&& end - start < 65536 ==> end == m.sources[s].end
        }),
{
    let s = m.wants().unwrap();
    assert(m.sources[s].wf());
}

/// The stream that is picked is the one whose first entry no other comes before.
proof fn lemma_pick_is(streams: Seq<Seq<Entry>>, s: int)
    requires
        0 <= s < streams.len(),
        streams[s].len() > 0,
        forall|j: int|
            0 <= j < streams.len() && (#[trigger] streams[j]).len() > 0 ==> !order::key_lt(
                streams[j][0].key,
                streams[s][0].key,
            ),
        forall|j: int|
            0 <= j < s && (#[trigger] streams[j]).len() > 0 ==> streams[j][0].key
                != streams[s][0].key,
    ensures
        compaction::pick(streams) == Some(s),
{
    compaction::lemma_pick(streams);
    let p = compaction::pick(streams).unwrap();
    if p < s {
        order::lemma_key_lt_total(streams[p][0].key, streams[s][0].key);
        assert(!order::key_lt(streams[s][0].key, streams[p][0].key));
    } else if p > s {
        assert(order::key_lt(streams[p][0].key, streams[s][0].key));
    }
}

/// The entry that the queue gives is the one that is picked.
proof fn lemma_popped_is_picked(heads: Heads, behind: Seq<Seq<u8>>, item: HeapItem)
    requires
        none_is_last(heads, behind),
        heads.len() <= usize::MAX,
        item.rank < heads.len(),
        heads[item.rank as int] == Some((item.key, item.value)),
        forall|s: int|
            0 <= s < heads.len() && (#[trigger] heads[s]) is Some ==> !queue::precedes(
                (HeapItem {
                    key: heads[s].unwrap().0,
                    value: heads[s].unwrap().1,
                    rank: s as usize,
                }),
                item,
            ),
    ensures
        compaction::pick(streams_left(heads, behind)) == Some(item.rank as int),
{
    let left = streams_left(heads, behind);
    let s = item.rank as int;
    assert(left[s][0] == entry::entry_view((item.key, item.value)));
    assert forall|j: int| 0 <= j < left.len() && (#[trigger] left[j]).len() > 0 implies heads[j] is Some
        && left[j][0] == entry::entry_view(heads[j].unwrap()) by {
        if heads[j] is None {
            assert(behind[j].len() == 0);
        }
    }
    assert forall|j: int|
        0 <= j < left.len() && (#[trigger] left[j]).len() > 0 implies !order::key_lt(
        left[j][0].key,
        left[s][0].key,
    ) by {
        assert(heads[j] is Some);
    }
    assert forall|j: int| 0 <= j < s && (#[trigger] left[j]).len() > 0 implies left[j][0].key
        != left[s][0].key by {
        assert(heads[j] is Some);
    }
    lemma_pick_is(left, s);
}

/// Where no table has a current entry, there is nothing left.
proof fn lemma_all_taken(heads: Heads, behind: Seq<Seq<u8>>)
    requires
        none_is_last(heads, behind),
        forall|s: int| 0 <= s < heads.len() ==> (#[trigger] heads[s]) is None,
    ensures
        compaction::all_readable(behind),
        compaction::pick(streams_left(heads, behind)) is None,
{
    assert forall|j: int| 0 <= j < behind.len() implies block::block_entries(
        #[trigger] behind[j],
    ) is Some by {
        assert(heads[j] is None);
    }
    let left = streams_left(heads, behind);
    assert forall|j: int| 0 <= j < left.len() implies (#[trigger] left[j]).len() == 0 by {
        assert(heads[j] is None);
    }
    compaction::lemma_pick(left);
}

/// What has been read of each table and not taken yet.
spec fn unreads(sources: Seq<SourceView>) -> Seq<Seq<u8>> {
    sources.map_values(|x: SourceView| x.unread)
}

/// How much is still to be read.
pub open spec fn left_to_read(sources: Seq<SourceView>) -> nat
    decreases sources.len(),
{
    if sources.len() == 0 {
        0
    } else {
        let l = sources.last();
        left_to_read(sources.drop_last()) + if l.read < l.end {
            (l.end - l.read) as nat
        } else {
            0
        }
    }
}

/// Reading on in one table leaves less to be read.
proof fn lemma_left_to_read(sources: Seq<SourceView>, s: int, other: SourceView)
    requires
        0 <= s < sources.len(),
        sources[s].read < sources[s].end,
        other.end == sources[s].end,
        sources[s].read <= other.read <= other.end,
    ensures
        left_to_read(sources.update(s, other)) == left_to_read(sources) - (other.read
            - sources[s].read),
    decreases sources.len(),
{
    let after = sources.update(s, other);
    if s == sources.len() - 1 {
        assert(after.drop_last() =~= sources.drop_last());
    } else {
        lemma_left_to_read(sources.drop_last(), s, other);
        assert(after.drop_last() =~= sources.drop_last().update(s, other));
    }
}

/// Where nothing more has been read, there is as much left to be read.
proof fn lemma_same_left_to_read(a: Seq<SourceView>, b: Seq<SourceView>)
    requires
        a.len() == b.len(),
        forall|s: int| 0 <= s < a.len() ==> (#[trigger] a[s]).read == b[s].read && a[s].end == b[s].end,
    ensures
        left_to_read(a) == left_to_read(b),
    decreases a.len(),
{
    if a.len() > 0 {
        let x = a.drop_last();
        let y = b.drop_last();
        assert forall|s: int| 0 <= s < x.len() implies (#[trigger] x[s]).read == y[s].read && x[s].end
            == y[s].end by {
            assert(a[s].read == b[s].read && a[s].end == b[s].end);
        }
        lemma_same_left_to_read(x, y);
        let l = a.len() - 1;
        assert(a[l].read == b[l].read && a[l].end == b[l].end);
    }
}

/// What is behind consists of what has been read and what has not.
proof fn lemma_behind(x: SourceView, data: Seq<u8>)
    requires
        x.wf(),
        x.walks(data),
    ensures
        x.behind(data) == x.unread + data.skip(x.read),
{
    assert(x.behind(data) =~= x.unread + data.skip(x.read));
}

/// Taking an entry out of what has been read, to be the current one of its table.
proof fn lemma_entry_taken(
    before: MergeView,
    s: int,
    e: (Vec<u8>, Option<Vec<u8>>),
    n: int,
    after: MergeView,
    datas: Seq<Seq<u8>>,
)
    requires
        before.wf(),
        before.progress(datas),
        0 <= s < before.sources.len(),
        before.heads[s] is None,
        block::first_entry(before.sources[s].unread) == Some((entry::entry_view(e), n)),
        0 < n <= before.sources[s].unread.len(),
        after.sources == before.sources.update(
            s,
            (SourceView { unread: before.sources[s].unread.skip(n), ..before.sources[s] }),
        ),
        after.heads == before.heads.update(s, Some(e)),
        after.output == before.output,
        after.last == before.last,
    ensures
        after.progress(datas),
{
    let x = before.sources[s];
    let y = after.sources[s];
    let data = datas[s];
    let b = before.behind(datas);
    let c = after.behind(datas);
    assert(x.walks(data) && x.wf());
    lemma_behind(x, data);
    block::lemma_first_entry_of_front(x.unread, data.skip(x.read));
    assert(c[s] =~= b[s].skip(n));
    assert(y.walks(data)) by {
        assert(y.unread =~= data.subrange(y.read - y.unread.len(), y.read));
    }
    assert forall|j: int| 0 <= j < datas.len() implies (#[trigger] after.sources[j]).walks(
        datas[j],
    ) by {
        assert(before.sources[j].walks(datas[j]));
    }
    assert forall|j: int| 0 <= j < c.len() && j != s implies c[j] == b[j] by {}
    assert(block::block_entries(b[s]) is Some <==> block::block_entries(c[s]) is Some);
    lemma_same_readable(b, c, s);
    if compaction::all_readable(datas) {
        let left = streams_left(before.heads, b);
        let left_after = streams_left(after.heads, c);
        assert forall|j: int| 0 <= j < left.len() implies left[j] == left_after[j] by {
            if j == s {
                assert(block::block_entries(b[s]) is Some);
                assert(left[s] =~= block::block_entries(b[s]).unwrap());
            }
        }
        assert(left =~= left_after);
    }
}

/// Blocks of which one is replaced by another that can be read where it can.
proof fn lemma_same_readable(a: Seq<Seq<u8>>, b: Seq<Seq<u8>>, s: int)
    requires
        a.len() == b.len(),
        0 <= s < a.len(),
        block::block_entries(a[s]) is Some <==> block::block_entries(b[s]) is Some,
        forall|j: int| 0 <= j < a.len() && j != s ==> a[j] == b[j],
    ensures
        compaction::all_readable(a) == compaction::all_readable(b),
{
    if compaction::all_readable(a) {
        assert forall|j: int| 0 <= j < b.len() implies block::block_entries(
            #[trigger] b[j],
        ) is Some by {
            assert(block::block_entries(a[j]) is Some);
        }
    }
    if compaction::all_readable(b) {
        assert forall|j: int| 0 <= j < a.len() implies block::block_entries(
            #[trigger] a[j],
        ) is Some by {
            assert(block::block_entries(b[j]) is Some);
        }
    }
}

/// An entry that runs past the end of its block.
proof fn lemma_entry_is_bad(m: MergeView, s: int, datas: Seq<Seq<u8>>)
    requires
        m.wf(),
        m.progress(datas),
        0 <= s < m.sources.len(),
        m.sources[s].unread.len() > 0,
        block::first_entry(m.sources[s].unread) is None,
        m.sources[s].read == m.sources[s].end,
    ensures
        !compaction::all_readable(datas),
{
    let x = m.sources[s];
    assert(x.walks(datas[s]) && x.wf());
    lemma_behind(x, datas[s]);
    assert(m.behind(datas)[s] =~= x.unread);
    if compaction::all_readable(m.behind(datas)) {
        assert(block::block_entries(m.behind(datas)[s]) is Some);
    }
}

/// Where no entry is missing, a table without a current entry has been read to
/// its end.
proof fn lemma_nothing_missing(m: MergeView, datas: Seq<Seq<u8>>)
    requires
        m.wf(),
        m.progress(datas),
        m.wants() is None,
    ensures
        none_is_last(m.heads, m.behind(datas)),
{
    let b = m.behind(datas);
    assert forall|s: int| 0 <= s < m.heads.len() && (#[trigger] m.heads[s]) is None implies b[s].len()
        == 0 by {
        let x = m.sources[s];
        assert(x.walks(datas[s]));
    }
}

/// Using up the entry that comes next.
proof fn lemma_entry_used(
    before: MergeView,
    item: HeapItem,
    after: MergeView,
    datas: Seq<Seq<u8>>,
)
    requires
        before.wf(),
        before.progress(datas),
        before.wants() is None,
        before.heads.len() <= usize::MAX,
        item.rank < before.heads.len(),
        before.heads[item.rank as int] == Some((item.key, item.value)),
        forall|s: int|
            0 <= s < before.heads.len() && (#[trigger] before.heads[s]) is Some
                ==> !queue::precedes(
                (HeapItem {
                    key: before.heads[s].unwrap().0,
                    value: before.heads[s].unwrap().1,
                    rank: s as usize,
                }),
                item,
            ),
        after.sources == before.sources,
        after.heads == before.heads.update(item.rank as int, None),
        after.last == Some(item.key@),
        after.output == (if before.last != Some(item.key@) && item.value is Some {
            before.output.push(entry::entry_view((item.key, item.value)))
        } else {
            before.output
        }),
    ensures
        after.progress(datas),
{
    let s = item.rank as int;
    let b = before.behind(datas);
    let left = streams_left(before.heads, b);
    let e = entry::entry_view((item.key, item.value));
    lemma_nothing_missing(before, datas);
    lemma_popped_is_picked(before.heads, b, item);
    assert(after.behind(datas) =~= b);
    assert forall|j: int| 0 <= j < datas.len() implies (#[trigger] after.sources[j]).walks(
        datas[j],
    ) by {
        assert(before.sources[j].walks(datas[j]));
    }
    let left_after = streams_left(after.heads, b);
    assert(left[s][0] == e);
    assert(left[s].drop_first() =~= left_after[s]);
    assert(left_after =~= compaction::advance(left, s));
    let rest = compaction::merged(left_after, after.last);
    if before.last != Some(item.key@) && item.value is Some {
        assert(before.output + (seq![e] + rest) =~= after.output + rest);
    }
}

/// At the end, all entries have been used up.
proof fn lemma_merge_is_done(m: MergeView, datas: Seq<Seq<u8>>)
    requires
        m.wf(),
        m.progress(datas),
        m.wants() is None,
        forall|s: int| 0 <= s < m.heads.len() ==> (#[trigger] m.heads[s]) is None,
    ensures
        m.finished(datas),
{
    lemma_nothing_missing(m, datas);
    lemma_all_taken(m.heads, m.behind(datas));
    assert(m.output + Seq::<Entry>::empty() =~= m.output);
}

/// Bytes that have been read change nothing of what is behind.
proof fn lemma_bytes_read(
    before: MergeView,
    s: int,
    more: Seq<u8>,
    after: MergeView,
    datas: Seq<Seq<u8>>,
)
    requires
        before.wf(),
        before.progress(datas),
        0 <= s < before.sources.len(),
        before.sources[s].read + more.len() <= before.sources[s].end,
        more == datas[s].subrange(
            before.sources[s].read,
            before.sources[s].read + more.len(),
        ),
        after == (MergeView {
            sources: before.sources.update(
                s,
                (SourceView {
                    unread: before.sources[s].unread + more,
                    read: before.sources[s].read + more.len(),
                    ..before.sources[s]
                }),
            ),
            ..before
        }),
    ensures
        after.progress(datas),
{
    let x = before.sources[s];
    let y = after.sources[s];
    assert(x.walks(datas[s]) && x.wf());
    assert(y.unread =~= datas[s].subrange(y.read - y.unread.len(), y.read));
    assert forall|j: int| 0 <= j < datas.len() implies (#[trigger] after.sources[j]).walks(
        datas[j],
    ) by {
        assert(before.sources[j].walks(datas[j]));
    }
    assert(after.behind(datas) =~= before.behind(datas));
}

/// At the start all is still to come.
proof fn lemma_nothing_read(m: MergeView, datas: Seq<Seq<u8>>)
    requires
        datas.len() == m.sources.len(),
        m.heads.len() == m.sources.len(),
        forall|s: int| 0 <= s < m.heads.len() ==> (#[trigger] m.heads[s]) is None,
        forall|s: int|
            0 <= s < m.sources.len() ==> {
                &&& (#[trigger] m.sources[s]).unread.len() == 0
                &&& m.sources[s].read == 0
                &&& m.sources[s].end == datas[s].len()
            },
        m.output.len() == 0,
        m.last is None,
    ensures
        m.progress(datas),
{
    assert forall|s: int| 0 <= s < datas.len() implies (#[trigger] m.sources[s]).walks(
        datas[s],
    ) by {
        assert(m.sources[s].unread =~= datas[s].subrange(0, 0));
    }
    let b = m.behind(datas);
    assert forall|s: int| 0 <= s < b.len() implies b[s] == datas[s] by {
        assert(m.sources[s].unread.len() == 0);
        assert(b[s] =~= datas[s]);
    }
    assert(b =~= datas);
    if compaction::all_readable(datas) {
        let left = streams_left(m.heads, b);
        let all = compaction::streams_in(datas);
        assert forall|s: int| 0 <= s < left.len() implies left[s] == all[s] by {
            assert(m.heads[s] is None);
            assert(left[s] =~= all[s]);
        }
        assert(left =~= all);
        assert(m.output + compaction::merged(all, None) =~= compaction::merged(all, None));
    }
}

/// A merge of tables, given from the newest to the oldest.
pub struct Merge {
    sources: Vec<Source>,
    queue: MergeQueue,
    heads: Ghost<Heads>,
    filled: usize,
    gap: Option<usize>,
    output: Vec<(Vec<u8>, Vec<u8>)>,
    last_key: Option<Vec<u8>>,
}

/// What came of looking for the next entry of a table.
enum Filling {
    Filled,
    NeedsRead,
    Bad,
}

impl View for Merge {
    type V = MergeView;

    closed spec fn view(&self) -> MergeView {
        MergeView {
            sources: self.sources@.map_values(|x: Source| x.view()),
            heads: self.heads@,
            filled: self.filled as int,
            gap: match self.gap {
                Some(g) => Some(g as int),
                None => None,
            },
            output: compaction::pairs_view(self.output@),
            last: entry::value_view(self.last_key),
        }
    }
}

impl Merge {
    /// The parts fit together.
    pub closed spec fn wf(self) -> bool {
        &&& self.queue.wf()
        &&& self.queue.holds(self.heads@)
        &&& self@.wf()
        &&& forall|s: int| 0 <= s < self.sources@.len() ==> (#[trigger] self.sources@[s]).wf()
    }

    /// The merge of these data blocks has come this far.
    pub open spec fn progress(self, datas: Seq<Seq<u8>>) -> bool {
        self@.progress(datas)
    }

    /// How much is still to be read.
    pub open spec fn to_read(self) -> nat {
        left_to_read(self@.sources)
    }

    /// The part of a file that is needed next: the place of its table, and the
    /// start and the end of the part.
    pub open spec fn wanted(self) -> Option<(int, int, int)> {
        match self@.wants() {
            None => None,
            Some(s) => if self@.sources[s].read < self@.sources[s].end {
                Some(self@.next_part())
            } else {
                None
            },
        }
    }

    /// A merge of which nothing has been read yet.
    pub fn new(tables: &[&SsTable]) -> (m: Merge)
        requires
            forall|i: int| 0 <= i < tables@.len() ==> 0 <= (#[trigger] tables@[i])@.data_len,
        ensures
            m.wf(),
            m@.sources.len() == tables@.len(),
            tables@.len() > 0 ==> m@.wants() == Some(0int) && m@.sources[0].read == 0
                && m@.sources[0].end == tables@[0]@.data_len,
            forall|datas: Seq<Seq<u8>>|
                datas.len() == tables@.len() && (forall|i: int|
                    0 <= i < tables@.len() ==> (#[trigger] datas[i]).len()
                        == tables@[i]@.data_len) ==> #[trigger] m.progress(datas),
    {
        let mut sources: Vec<Source> = Vec::new();
        let mut i: usize = 0;
        while i < tables.len()
            invariant
                i <= tables@.len(),
                sources@.len() == i,
                forall|j: int|
                    0 <= j < i ==> {
                        &&& (#[trigger] sources@[j]).wf()
                        &&& sources@[j]@.unread.len() == 0
                        &&& sources@[j]@.read == 0
                        &&& sources@[j]@.end == tables@[j]@.data_len
                    },
            decreases tables@.len() - i,
        {
            let x = Source { buffer: Vec::new(), at: 0, read: 0, end: tables[i].data_len() };
            sources.push(x);
            i = i + 1;
        }
        let ghost heads: Heads = Seq::new(tables@.len(), |j: int| None);
        let m = Merge {
            sources,
            queue: MergeQueue::new(),
            heads: Ghost(heads),
            filled: 0,
            gap: None,
            output: Vec::new(),
            last_key: None,
        };
        proof {
            let v = m@;
            assert forall|s: int| 0 <= s < v.sources.len() implies (#[trigger] v.sources[s]).wf() by {
                assert(m.sources@[s].wf());
            }
            assert forall|datas: Seq<Seq<u8>>|
                datas.len() == tables@.len() && (forall|i: int|
                    0 <= i < tables@.len() ==> (#[trigger] datas[i]).len()
                        == tables@[i]@.data_len) implies #[trigger] m.progress(datas) by {
                lemma_nothing_read(v, datas);
            }
        }
        m
    }

    /// Looks for the next entry of table `s` in what has been read.
    fn fill(&mut self, s: usize) -> (r: Filling)
        requires
            old(self).wf(),
            old(self)@.wants() == Some(s as int),
        ensures
            final(self).wf(),
            final(self)@.sources.len() == old(self)@.sources.len(),
            final(self).to_read() == old(self).to_read(),
            forall|datas: Seq<Seq<u8>>| #[trigger]
                old(self).progress(datas) ==> final(self).progress(datas),
            match r {
                Filling::Filled => {
                    let (a, b) = (old(self)@, final(self)@);
                    let (x, y) = (
                        compaction::total_len(unreads(a.sources)),
                        compaction::total_len(unreads(b.sources)),
                    );
                    ||| y < x
                    ||| (y == x && b.heads == a.heads && b.filled > a.filled)
                    ||| (y == x && b.heads == a.heads && b.filled == a.filled && a.gap is Some
                        && b.gap is None)
                },
                Filling::NeedsRead => {
                    &&& final(self)@ == old(self)@
                    &&& old(self)@.sources[s as int].read < old(self)@.sources[s as int].end
                    &&& block::first_entry(old(self)@.sources[s as int].unread) is None
                },
                Filling::Bad => forall|datas: Seq<Seq<u8>>| #[trigger]
                    old(self).progress(datas) ==> !compaction::all_readable(datas),
            },
    {
        let ghost before = self@;
        let ghost old_sources = self.sources@;
        assert(self.sources@[s as int].wf());
        assert(before.sources[s as int] == self.sources@[s as int]@);
        let next = self.sources[s].take();
        proof {
            assert forall|j: int| 0 <= j < self.sources@.len() implies (
            #[trigger] self.sources@[j]).wf() by {
                if j != s {
                    assert(old_sources[j].wf());
                }
            }
            let mid = self@.sources;
            assert(mid =~= before.sources.update(s as int, self.sources@[s as int]@));
            assert forall|j: int| 0 <= j < mid.len() implies (#[trigger] mid[j]).read
                == before.sources[j].read && mid[j].end == before.sources[j].end by {}
            lemma_same_left_to_read(mid, before.sources);
            if next !is Entry {
                assert(mid =~= before.sources);
            }
        }
        match next {
            Next::More => Filling::NeedsRead,
            Next::Bad => {
                proof {
                    assert forall|datas: Seq<Seq<u8>>| #[trigger]
                        old(self).progress(datas) implies !compaction::all_readable(datas) by {
                        lemma_entry_is_bad(before, s as int, datas);
                    }
                }
                Filling::Bad
            },
            Next::End => {
                if self.filled < self.sources.len() {
                    self.filled = self.filled + 1;
                } else {
                    self.gap = None;
                }
                Filling::Filled
            },
            Next::Entry(key, value) => {
                let ghost heads = self.heads@;
                let ghost n = block::first_entry(before.sources[s as int].unread).unwrap().1;
                self.heads = Ghost(heads.update(s as int, Some((key, value))));
                self.queue.push(HeapItem { key, value, rank: s }, Ghost(heads));
                if self.filled < self.sources.len() {
                    self.filled = self.filled + 1;
                } else {
                    self.gap = None;
                }
                proof {
                    let after = self@;
                    assert forall|datas: Seq<Seq<u8>>| #[trigger]
                        old(self).progress(datas) implies final(self).progress(datas) by {
                        lemma_entry_taken(before, s as int, (key, value), n, after, datas);
                    }
                    compaction::lemma_total_len_update(
                        unreads(before.sources),
                        s as int,
                        after.sources[s as int].unread,
                    );
                    assert(unreads(after.sources) =~= unreads(before.sources).update(
                        s as int,
                        after.sources[s as int].unread,
                    ));
                }
                Filling::Filled
            },
        }
    }

    /// Uses up the entry that comes next. `false` says that there is none left.
    fn emit(&mut self) -> (r: bool)
        requires
            old(self).wf(),
            old(self)@.wants() is None,
        ensures
            final(self).wf(),
            final(self)@.sources == old(self)@.sources,
            r ==> {
                &&& final(self)@.filled == old(self)@.filled
                &&& compaction::total_len(head_parts(final(self)@.heads)) < compaction::total_len(
                    head_parts(old(self)@.heads),
                )
                &&& forall|datas: Seq<Seq<u8>>| #[trigger]
                    old(self).progress(datas) ==> final(self).progress(datas)
            },
            !r ==> {
                &&& final(self)@ == old(self)@
                &&& forall|datas: Seq<Seq<u8>>| #[trigger]
                    old(self).progress(datas) ==> old(self)@.finished(datas)
            },
    {
        let ghost before = self@;
        let ghost heads = self.heads@;
        assert(heads.len() == self.sources.len());
        let item = match self.queue.pop(Ghost(heads)) {
            None => {
                proof {
                    assert forall|datas: Seq<Seq<u8>>| #[trigger]
                        old(self).progress(datas) implies before.finished(datas) by {
                        lemma_merge_is_done(before, datas);
                    }
                }
                return false;
            },
            Some(item) => item,
        };
        let s: usize = item.rank;
        self.heads = Ghost(heads.update(s as int, None));
        self.gap = Some(s);
        let is_new_key: bool = match &self.last_key {
            None => true,
            Some(last) => order::compare_keys(last.as_slice(), item.key.as_slice())
                != KeyOrder::Same,
        };
        let ghost pairs = self.output@;
        let ghost popped = item;
        if is_new_key {
            if let Some(v) = item.value {
                self.output.push((bytes::copy_bytes(item.key.as_slice()), v));
                assert(compaction::pairs_view(self.output@) =~= compaction::pairs_view(pairs).push(
                    entry::entry_view((popped.key, popped.value)),
                ));
            }
            self.last_key = Some(item.key);
        }
        proof {
            let after = self@;
            assert forall|datas: Seq<Seq<u8>>| #[trigger]
                old(self).progress(datas) implies final(self).progress(datas) by {
                lemma_entry_used(before, popped, after, datas);
            }
            compaction::lemma_total_len_update(
                head_parts(heads),
                s as int,
                head_part(None),
            );
            assert(head_parts(after.heads) =~= head_parts(heads).update(s as int, head_part(None)));
        }
        true
    }

    /// Goes on as far as what has been read allows. The result says which part of
    /// which table's file is needed then: of a table of which no complete entry is
    /// left. `None` says that the merge is at its end.
    pub fn run(&mut self) -> (r: Result<Option<(usize, u64, u64)>, TableError>)
        requires
            old(self).wf(),
        ensures
            final(self).wf(),
            final(self)@.sources.len() == old(self)@.sources.len(),
            final(self).to_read() == old(self).to_read(),
            match r {
                Ok(Some((table, start, end))) => {
                    &&& final(self).wanted() == Some((table as int, start as int, end as int))
                    &&& table < final(self)@.sources.len()
                    &&& start < end
                    &&& block::first_entry(final(self)@.sources[table as int].unread) is None
                    &&& forall|datas: Seq<Seq<u8>>| #[trigger]
                        old(self).progress(datas) ==> final(self).progress(datas) && end
                            <= datas[table as int].len()
                },
                Ok(None) => forall|datas: Seq<Seq<u8>>| #[trigger]
                    old(self).progress(datas) ==> final(self)@.finished(datas),
                Err(e) => e == TableError::BadEntry && forall|datas: Seq<Seq<u8>>| #[trigger]
                    old(self).progress(datas) ==> !compaction::all_readable(datas),
            },
    {
        loop
            invariant
                self.wf(),
                self@.sources.len() == old(self)@.sources.len(),
                self.to_read() == old(self).to_read(),
                forall|datas: Seq<Seq<u8>>| #[trigger]
                    old(self).progress(datas) ==> self.progress(datas),
            decreases
                    compaction::total_len(unreads(self@.sources)),
                    compaction::total_len(head_parts(self@.heads)),
                    self@.sources.len() - self@.filled,
                    (if self@.gap is Some {
                        1int
                    } else {
                        0int
                    }),
        {
            let want: Option<usize> = if self.filled < self.sources.len() {
                Some(self.filled)
            } else {
                self.gap
            };
            match want {
                None => {
                    if !self.emit() {
                        return Ok(None);
                    }
                },
                Some(s) => match self.fill(s) {
                    Filling::Filled => {},
                    Filling::Bad => {
                        return Err(TableError::BadEntry);
                    },
                    Filling::NeedsRead => {
                        let (s, start, end) = self.next_part();
                        proof {
                            assert forall|datas: Seq<Seq<u8>>| #[trigger]
                                old(self).progress(datas) implies self.progress(datas) && end
                                <= datas[s as int].len() by {
                                assert(self@.sources[s as int].walks(datas[s as int]));
                            }
                        }
                        return Ok(Some((s, start, end)));
                    },
                },
            }
        }
    }

    /// The part of a file that comes next.
    pub fn next_part(&self) -> (r: (usize, u64, u64))
        requires
            self.wf(),
            self@.wants() is Some,
        ensures
            self@.next_part() == (r.0 as int, r.1 as int, r.2 as int),
            r.0 < self@.sources.len(),
            r.1 <= r.2,
    {
        let s: usize = if self.filled < self.sources.len() {
            self.filled
        } else {
            match self.gap {
                Some(g) => g,
                None => 0,
            }
        };
        assert(self@.wants() == Some(s as int));
        assert(self.sources@[s as int].wf());
        assert(self@.sources[s as int] == self.sources@[s as int]@);
        let start: u64 = self.sources[s].read;
        let end: u64 = if self.sources[s].end - start < READ_LEN {
            self.sources[s].end
        } else {
            start + READ_LEN
        };
        (s, start, end)
    }

    /// Takes in the part of a file that was needed.
    pub fn feed(&mut self, part: &[u8])
        requires
            old(self).wf(),
            old(self).wanted() matches Some((table, start, end)) && part@.len() == end - start,
        ensures
            final(self).wf(),
            final(self)@.sources.len() == old(self)@.sources.len(),
            final(self).to_read() < old(self).to_read(),
            forall|datas: Seq<Seq<u8>>| #[trigger]
                old(self).progress(datas) && part@ == datas[old(self).wanted().unwrap().0].subrange(
                    old(self).wanted().unwrap().1,
                    old(self).wanted().unwrap().2,
                ) ==> final(self).progress(datas),
    {
        let ghost before = self@;
        let ghost old_sources = self.sources@;
        let s: usize = if self.filled < self.sources.len() {
            self.filled
        } else {
            match self.gap {
                Some(g) => g,
                None => 0,
            }
        };
        assert(before.wants() == Some(s as int));
        assert(self.sources@[s as int].wf());
        assert(before.sources[s as int] == self.sources@[s as int]@);
        self.sources[s].feed(part);
        proof {
            let after = self@;
            assert forall|j: int| 0 <= j < self.sources@.len() implies (
            #[trigger] self.sources@[j]).wf() by {
                if j != s {
                    assert(old_sources[j].wf());
                }
            }
            assert(after.sources =~= before.sources.update(s as int, self.sources@[s as int]@));
            lemma_left_to_read(before.sources, s as int, after.sources[s as int]);
            assert forall|datas: Seq<Seq<u8>>| #[trigger]
                old(self).progress(datas) && part@ == datas[old(self).wanted().unwrap().0].subrange(
                    old(self).wanted().unwrap().1,
                    old(self).wanted().unwrap().2,
                ) implies final(self).progress(datas) by {
                lemma_bytes_read(before, s as int, part@, after, datas);
            }
        }
    }

    /// The entries of the merge.
    pub fn into_output(self) -> (r: Vec<(Vec<u8>, Vec<u8>)>)
        ensures
            compaction::pairs_view(r@) == self@.output,
    {
        self.output
    }
}

} // verus!
