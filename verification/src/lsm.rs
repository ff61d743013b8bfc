//! The store: a memtable, a write-ahead log and tables behind `put`, `get` and
//! `delete`.
//!
//! Of the tables, the indexes and filters are in memory, and the data is on disk.
//! A lookup asks for the parts of table files that it needs, one at a time, and so
//! does the merge of a compaction.

use crate::block;
use crate::block::{SsTableIterator, TableError};
use crate::bytes;
use crate::compaction;
use crate::entry;
use crate::entry::Entry;
use crate::memtable::Memtable;
use crate::merge::Merge;
use crate::names;
use crate::sstable::{HandleView, SsTable, TableView};
use crate::state;
use crate::state::{ActionView, FindView, TreeView};
use crate::store;
use crate::store::{StageView, StoreView};
use crate::wal;
use crate::wal::{RecordView, WalRecord};
use vstd::prelude::*;

verus! {

/// A table id, a key of that table, and its value or `None` for a tombstone.
pub type SstableEntryDebug = (u64, Vec<u8>, Option<Vec<u8>>);

/// How the store works.
#[derive(Debug)]
pub struct LsmOptions {
    /// Flush the memtable to a new table once its approximate size, the sum of the
    /// key and value lengths of live entries, reaches this number of bytes.
    pub memtable_max_bytes: usize,
    /// Write one index entry for every so many entries of a new table.
    pub sparse_index_interval: usize,
    /// The bits that a table's Bloom filter has for each key. With 10 bits a key
    /// about one lookup in a hundred for an absent key is not ruled out.
    pub bloom_bits_per_key: usize,
    /// Whether new tables get a Bloom filter at all.
    pub bloom_enabled: bool,
    /// Merge all tables once their number reaches this one.
    pub compaction_trigger: usize,
    /// Whether the log is synced to disk after every append. Without it a crash
    /// can lose the last writes.
    pub wal_sync: bool,
}

impl Default for LsmOptions {
    fn default() -> (r: Self)
        ensures
            r == (LsmOptions {
                memtable_max_bytes: 4194304,
                sparse_index_interval: 32,
                bloom_bits_per_key: 10,
                bloom_enabled: true,
                compaction_trigger: 4,
                wal_sync: true,
            }),
    {
        LsmOptions {
            memtable_max_bytes: 4 * 1024 * 1024,
            sparse_index_interval: 32,
            bloom_bits_per_key: 10,
            bloom_enabled: true,
            compaction_trigger: 4,
            wal_sync: true,
        }
    }
}

impl Clone for LsmOptions {
    fn clone(&self) -> (r: Self)
        ensures
            r == *self,
    {
        LsmOptions {
            memtable_max_bytes: self.memtable_max_bytes,
            sparse_index_interval: self.sparse_index_interval,
            bloom_bits_per_key: self.bloom_bits_per_key,
            bloom_enabled: self.bloom_enabled,
            compaction_trigger: self.compaction_trigger,
            wal_sync: self.wal_sync,
        }
    }
}

/// Why an operation cannot begin, or cannot go on.
#[derive(Clone, Copy, Debug, PartialEq, Eq, Structural)]
pub enum LsmError {
    /// The actions of the operation before are not all carried out.
    Busy,
    /// A key or value is longer than a table can hold.
    EntryTooLarge,
    /// The memtable would have more bytes than can be counted.
    MemtableFull,
    /// The greatest table id is in use.
    IdsExhausted,
    /// No part of a table has been asked for, or one of another length.
    NotWanted,
    /// A table cannot be built or read.
    Table(TableError),
}

/// What the store is doing.
enum Phase {
    Idle,
    Trimming(usize),
    Logging(WalRecord),
    /// The new table, with the contents of its file.
    Flushing(SsTable, Vec<u8>, bool),
    Truncating(bool),
    Merging(Merge),
    /// The merged table, with the contents of its file.
    Compacting(SsTable, Vec<u8>),
    Cleaning(Vec<SsTable>),
}

/// What has to be done to the data directory before the store can go on.
pub enum Action<'a> {
    /// Nothing.
    Done,
    /// Append these bytes to the log, and sync it where the options say so.
    AppendWal(Vec<u8>),
    /// Cut the log off behind so many bytes.
    TruncateWal(usize),
    /// Read the part of a table file between these two places, and hand it over
    /// with `supply`.
    ReadTable { file_name: &'a String, start: u64, end: u64 },
    /// Write a table file, so that it is there as a whole or not at all.
    WriteTable { file_name: &'a String, image: &'a Vec<u8> },
    /// Remove a table file.
    RemoveTable { file_name: &'a String },
}

impl<'a> View for Action<'a> {
    type V = ActionView;

    open spec fn view(&self) -> ActionView {
        match self {
            Action::Done => ActionView::Done,
            Action::AppendWal(b) => ActionView::AppendWal(b@),
            Action::TruncateWal(n) => ActionView::TruncateWal(*n as int),
            Action::ReadTable { .. } => ActionView::ReadTables,
            Action::WriteTable { file_name, image } => ActionView::WriteTable(file_name@, image@),
            Action::RemoveTable { file_name } => ActionView::RemoveTable(file_name@),
        }
    }
}

/// How far a lookup has come.
pub enum Lookup<'a> {
    /// The value, if there is one.
    Known(Option<Vec<u8>>),
    /// The part of a table file between these two places has to be read, and handed
    /// over with `get_with`.
    Read { table: usize, file_name: &'a String, start: u64, end: u64 },
}

impl<'a> View for Lookup<'a> {
    type V = FindView;

    open spec fn view(&self) -> FindView {
        match self {
            Lookup::Known(v) => FindView::Known(entry::value_view(*v)),
            Lookup::Read { table, file_name, start, end } => FindView::Read(
                *table as int,
                *start as int,
                *end as int,
            ),
        }
    }
}

/// The store.
///
/// It keeps the memtable and all but the data of the tables, and says what is to
/// be done to the data directory. After each operation the caller carries out the
/// action that is pending and reports it with `completed`, or with `supply` where
/// it was to read something, until no action is left.
pub struct LsmTree {
    memtable: Memtable,
    /// From the oldest to the newest.
    sstables: Vec<SsTable>,
    next_sstable_id: Option<u64>,
    opts: LsmOptions,
    phase: Phase,
}

/// What is kept of some tables.
pub open spec fn handles_view(s: Seq<SsTable>) -> Seq<HandleView> {
    s.map_values(|t: SsTable| t@)
}

spec fn stage_view(p: Phase) -> StageView {
    match p {
        Phase::Idle => StageView::Idle,
        Phase::Trimming(n) => StageView::Trimming(n as int),
        Phase::Logging(r) => StageView::Logging(r@),
        Phase::Flushing(t, image, automatic) => StageView::Flushing(t@, image@, automatic),
        Phase::Truncating(automatic) => StageView::Truncating(automatic),
        Phase::Merging(m) => StageView::Merging(m@),
        Phase::Compacting(t, image) => StageView::Compacting(t@, image@),
        Phase::Cleaning(old) => StageView::Cleaning(handles_view(old@)),
    }
}

/// The tails of table files: id, name and bytes of each.
pub open spec fn tails_view(s: Seq<(u64, String, Vec<u8>)>) -> Seq<(u64, Seq<char>, Seq<u8>)> {
    s.map_values(|f: (u64, String, Vec<u8>)| (f.0, f.1@, f.2@))
}

/// The error of an operation, if there was one.
pub open spec fn failure(r: Result<(), LsmError>) -> Option<LsmError> {
    match r {
        Ok(_) => None,
        Err(e) => Some(e),
    }
}

/// An operation has failed where it gives an error, and with that one.
pub proof fn lemma_failure(e: LsmError)
    ensures
        failure(Ok::<(), LsmError>(())) is None,
        failure(Err::<(), LsmError>(e)) == Some(e),
{
}

/// An action concerns the bytes and the file that it names.
pub proof fn lemma_what_actions_say(name: &String, bytes: Vec<u8>, image: &Vec<u8>, n: usize)
    ensures
        Action::AppendWal(bytes)@ == ActionView::AppendWal(bytes@),
        Action::TruncateWal(n)@ == ActionView::TruncateWal(n as int),
        (Action::WriteTable { file_name: name, image })@ == ActionView::WriteTable(name@, image@),
        (Action::RemoveTable { file_name: name })@ == ActionView::RemoveTable(name@),
        Action::Done@ == ActionView::Done,
{
}

/// A lookup says what it says: a value, that there is none, or the part to read.
pub proof fn lemma_what_lookups_say(name: &String, v: Vec<u8>, table: usize, start: u64, end: u64)
    ensures
        Lookup::Known(Some(v))@ == FindView::Known(Some(v@)),
        Lookup::Known(None)@ == FindView::Known(None),
        (Lookup::Read { table, file_name: name, start, end })@ == FindView::Read(
            table as int,
            start as int,
            end as int,
        ),
{
}

/// A file is given with its id, its name and the bytes of its tail.
pub proof fn lemma_what_tails_say(s: Seq<(u64, String, Vec<u8>)>, i: int)
    requires
        0 <= i < s.len(),
    ensures
        tails_view(s).len() == s.len(),
        tails_view(s)[i] == (s[i].0, s[i].1@, s[i].2@),
{
}

impl View for LsmTree {
    type V = StoreView;

    closed spec fn view(&self) -> StoreView {
        StoreView {
            opts: self.opts,
            memtable: self.memtable@,
            tables: handles_view(self.sstables@),
            next_id: self.next_sstable_id,
            stage: stage_view(self.phase),
        }
    }
}

impl LsmTree {
    /// The memtable is in order, and so is what has been merged.
    pub closed spec fn parts_wf(self) -> bool {
        &&& self.memtable.wf()
        &&& self.phase matches Phase::Merging(m) ==> m.wf()
    }

    /// The parts of the store fit together.
    pub open spec fn wf(self) -> bool {
        &&& self.parts_wf()
        &&& self@.wf()
    }

    /// Opens the store in a data directory: the tables in the files with these
    /// tails, given with their ids from the oldest to the newest, and the log. The
    /// log is cut off behind its last complete record, where there is anything
    /// behind it.
    pub fn open(tails: Vec<(u64, String, Vec<u8>)>, log: &[u8], opts: LsmOptions) -> (r: Result<
        LsmTree,
        TableError,
    >)
        ensures
            match r {
                Ok(t) => {
                    &&& t.wf()
                    &&& StoreView::opened(tails_view(tails@), log@, opts) == Ok::<
                        StoreView,
                        TableError,
                    >(t@)
                },
                Err(e) => StoreView::opened(tails_view(tails@), log@, opts) == Err::<
                    StoreView,
                    TableError,
                >(e),
            },
    {
        let (sstables, next_sstable_id) = match open_tables(tails) {
            Err(e) => {
                return Err(e);
            },
            Ok(opened) => opened,
        };
        let (records, len) = wal::replay(log);
        proof {
            wal::lemma_replayed_is_log(log@);
        }
        assert(wal::log_of(wal::records_view(records@)).len() <= log.len());
        let memtable = replay_into_memtable(&records);
        proof {
            entry::lemma_sorted_entries(memtable.entries());
        }
        let phase = if len < log.len() {
            Phase::Trimming(len)
        } else {
            Phase::Idle
        };
        Ok(LsmTree { memtable, sstables, next_sstable_id, opts, phase })
    }

    /// What is to be done to the data directory.
    pub fn pending(&self) -> (r: Action<'_>)
        requires
            self.wf(),
        ensures
            forall|s: TreeView| #[trigger] self@.stands_for(s) ==> r@ == s.pending(),
            r is ReadTable <==> self@.wanted() is Some,
            r matches Action::ReadTable { file_name, start, end } ==> {
                &&& self@.wanted() matches Some((table, a, b))
                &&& 0 <= table < self@.tables.len()
                &&& file_name@ == self@.tables[table].file_name
                &&& a == start
                &&& b == end
                &&& start <= end
            },
    {
        match &self.phase {
            Phase::Idle => Action::Done,
            Phase::Trimming(n) => Action::TruncateWal(*n),
            Phase::Logging(record) => Action::AppendWal(record.encode()),
            Phase::Flushing(t, image, _) => Action::WriteTable { file_name: t.file_name(), image },
            Phase::Truncating(_) => Action::TruncateWal(0),
            Phase::Merging(m) => {
                let (place, start, end) = m.next_part();
                let table: usize = self.sstables.len() - 1 - place;
                assert(self@.tables[table as int] == self.sstables@[table as int]@);
                Action::ReadTable { file_name: self.sstables[table].file_name(), start, end }
            },
            Phase::Compacting(t, image) => Action::WriteTable { file_name: t.file_name(), image },
            Phase::Cleaning(old) => {
                assert(handles_view(old@)[0] == old@[0]@);
                proof {
                    assert forall|s: TreeView| #[trigger] self@.stands_for(s) implies s.pending()
                        == ActionView::RemoveTable(old@[0]@.file_name) by {
                        if let state::PhaseView::Cleaning(vs) = s.phase {
                            assert(state::handles(vs)[0] == vs[0].handle());
                        }
                    }
                }
                Action::RemoveTable { file_name: old[0].file_name() }
            },
        }
    }

    /// The entries of the memtable.
    fn memtable_entries(&self) -> (r: Vec<(Vec<u8>, Option<Vec<u8>>)>)
        requires
            self.wf(),
        ensures
            entry::entries_view(r@) == entry::sorted_entries(self@.memtable),
    {
        let slots = self.memtable.iter_sorted();
        let ghost es = self.memtable.entries();
        let mut r: Vec<(Vec<u8>, Option<Vec<u8>>)> = Vec::new();
        let mut i: usize = 0;
        assert(entry::entries_view(r@) =~= es.take(0));
        while i < slots.len()
            invariant
                i <= slots@.len(),
                slots@.len() == es.len(),
                forall|j: int|
                    0 <= j < slots@.len() ==> {
                        &&& (#[trigger] slots@[j]).0@ == es[j].key
                        &&& entry::value_view(*slots@[j].1) == es[j].value
                    },
                entry::entries_view(r@) == es.take(i as int),
            decreases slots@.len() - i,
        {
            let ghost before = r@;
            let (key, value) = slots[i];
            let copy = (bytes::copy_bytes(key.as_slice()), copy_value(value));
            assert(slots@[i as int].0@ == es[i as int].key);
            assert(entry::entry_view(copy) == es[i as int]);
            r.push(copy);
            assert(entry::entries_view(r@) =~= entry::entries_view(before).push(es[i as int]));
            assert(es.take(i + 1) =~= es.take(i as int).push(es[i as int]));
            i = i + 1;
        }
        assert(es.take(i as int) =~= es);
        proof {
            entry::lemma_sorted_entries(es);
        }
        r
    }

    /// A new table for some entries, with the contents of its file.
    fn new_table(&self, entries: Vec<(Vec<u8>, Option<Vec<u8>>)>) -> (r: Result<
        (SsTable, Vec<u8>),
        LsmError,
    >)
        ensures
            forall|s: TreeView|
                s.opts == self@.opts && s.next_id == self@.next_id ==> match r {
                    Ok((t, image)) => {
                        &&& #[trigger] s.new_table(entry::entries_view(entries@)) matches Ok(v)
                        &&& t@ == v.handle()
                        &&& image@ == v.image
                        &&& v.wf()
                    },
                    Err(e) => s.new_table(entry::entries_view(entries@)) == Err::<
                        TableView,
                        LsmError,
                    >(e),
                },
            r matches Ok((t, image)) ==> t@.wf() && image@.len() <= usize::MAX,
    {
        match self.next_sstable_id {
            None => Err(LsmError::IdsExhausted),
            Some(id) => {
                let name = names::sstable_file_name(id);
                match SsTable::build(
                    name,
                    id,
                    entries,
                    self.opts.sparse_index_interval,
                    self.opts.bloom_bits_per_key,
                    self.opts.bloom_enabled,
                ) {
                    Ok((t, image)) => {
                        assert(image@.len() == image.len());
                        Ok((t, image))
                    },
                    Err(e) => Err(LsmError::Table(e)),
                }
            },
        }
    }

    /// Begins to write the memtable out, where there is anything in it.
    fn start_flush(&mut self, automatic: bool) -> (r: Result<(), LsmError>)
        requires
            old(self).wf(),
            old(self)@.stage is Idle,
        ensures
            final(self).wf(),
            forall|s: TreeView| #[trigger]
                old(self)@.stands_for(s) ==> {
                    &&& final(self)@.stands_for(s.start_flush(automatic).0)
                    &&& failure(r) == s.start_flush(automatic).1
                },
            r is Err ==> final(self)@ == old(self)@,
            r is Ok && old(self)@.memtable == Map::<Seq<u8>, Option<Seq<u8>>>::empty() ==> final(self)@ == old(self)@,
            r is Ok && old(self)@.memtable != Map::<Seq<u8>, Option<Seq<u8>>>::empty() ==> {
                &&& final(self)@.stage is Flushing
                &&& final(self)@.memtable == old(self)@.memtable
                &&& final(self)@.tables == old(self)@.tables
                &&& final(self)@.opts == old(self)@.opts
            },
    {
        if self.memtable.is_empty() {
            return Ok(());
        }
        let entries = self.memtable_entries();
        let ghost es = entry::entries_view(entries@);
        match self.new_table(entries) {
            Err(e) => {
                proof {
                    assert forall|s: TreeView| #[trigger] old(self)@.stands_for(s) implies {
                        &&& self@.stands_for(s.start_flush(automatic).0)
                        &&& Some(e) == s.start_flush(automatic).1
                    } by {
                        assert(s.new_table(es) is Err);
                    }
                }
                Err(e)
            },
            Ok((t, image)) => {
                self.next_sstable_id = next_id(t.id());
                self.phase = Phase::Flushing(t, image, automatic);
                proof {
                    assert forall|s: TreeView| #[trigger] old(self)@.stands_for(s) implies {
                        &&& self@.stands_for(s.start_flush(automatic).0)
                        &&& None::<LsmError> == s.start_flush(automatic).1
                    } by {
                        assert(s.new_table(es) is Ok);
                    }
                }
                Ok(())
            },
        }
    }

    /// The merge of all tables, of which nothing has been read yet.
    fn new_merge(&self) -> (m: Merge)
        requires
            self.wf(),
            self@.tables.len() > 0,
        ensures
            m.wf(),
            m@.sources.len() == self@.tables.len(),
            m@.wants() is Some,
            forall|s: TreeView| #[trigger] self@.stands_for(s) ==> m@.progress(s.datas()),
    {
        let n: usize = self.sstables.len();
        let ghost views = self@.tables;
        let mut newest_first: Vec<&SsTable> = Vec::new();
        let mut i: usize = 0;
        while i < n
            invariant
                i <= n,
                n == self.sstables@.len(),
                views == handles_view(self.sstables@),
                newest_first@.len() == i,
                forall|j: int|
                    0 <= j < i ==> (#[trigger] newest_first@[j])@ == views[n - 1 - j],
            decreases n - i,
        {
            newest_first.push(&self.sstables[n - 1 - i]);
            i = i + 1;
        }
        proof {
            assert forall|j: int| 0 <= j < newest_first@.len() implies 0 <= (
            #[trigger] newest_first@[j])@.data_len by {
                assert(views[n - 1 - j].wf());
            }
        }
        let m = Merge::new(newest_first.as_slice());
        proof {
            assert forall|s: TreeView| #[trigger] self@.stands_for(s) implies m@.progress(
                s.datas(),
            ) by {
                let datas = s.datas();
                assert forall|j: int| 0 <= j < newest_first@.len() implies (
                #[trigger] datas[j]).len() == newest_first@[j]@.data_len by {
                    let t = s.tables[n - 1 - j];
                    assert(datas[j] == t.data());
                    assert(state::handles(s.tables)[n - 1 - j] == t.handle());
                    assert(t.wf());
                }
                assert(m.progress(datas));
            }
        }
        m
    }

    /// Begins to merge the tables, where there are any.
    fn start_compaction(&mut self) -> (r: Result<(), LsmError>)
        requires
            old(self).wf(),
            old(self)@.stage is Idle,
        ensures
            final(self).wf(),
            forall|s: TreeView| #[trigger]
                old(self)@.stands_for(s) ==> {
                    &&& final(self)@.stands_for(s.start_compaction().0)
                    &&& failure(r) == s.start_compaction().1
                },
            old(self)@.tables.len() == 0 ==> r is Ok && final(self)@ == old(self)@,
            old(self)@.tables.len() > 0 ==> {
                &&& r is Ok
                &&& final(self)@.stage is Merging
                &&& final(self)@ == (StoreView { stage: final(self)@.stage, ..old(self)@ })
            },
    {
        if self.sstables.len() == 0 {
            return Ok(());
        }
        let m = self.new_merge();
        self.phase = Phase::Merging(m);
        proof {
            assert forall|s: TreeView| #[trigger] old(self)@.stands_for(s) implies self@.stands_for(
                s.start_compaction().0,
            ) by {
                assert(s.start_compaction().0.datas() == s.datas());
            }
        }
        Ok(())
    }

    /// Begins to write the merge of the tables, after they have been read.
    fn start_replacing(&mut self, merged: Vec<(Vec<u8>, Vec<u8>)>) -> (r: Result<(), LsmError>)
        requires
            old(self).wf(),
            old(self)@.stage is Idle,
            old(self)@.tables.len() > 0,
        ensures
            final(self).wf(),
            !(final(self)@.stage is Merging),
            forall|s: TreeView| #[trigger]
                old(self)@.stands_for(s) && compaction::all_readable(s.datas())
                    && compaction::pairs_view(merged@) == s.merge_of_tables() ==> {
                    &&& final(self)@.stands_for(s.start_replacing().0)
                    &&& failure(r) == s.start_replacing().1
                },
    {
        let entries = as_entries(merged);
        let ghost es = entry::entries_view(entries@);
        match self.new_table(entries) {
            Err(e) => {
                proof {
                    assert forall|s: TreeView| #[trigger]
                        old(self)@.stands_for(s) && compaction::all_readable(s.datas()) && es
                            == s.merge_of_tables() implies {
                        &&& self@.stands_for(s.start_replacing().0)
                        &&& Some(e) == s.start_replacing().1
                    } by {
                        assert(s.new_table(es) is Err);
                    }
                }
                Err(e)
            },
            Ok((t, image)) => {
                self.next_sstable_id = next_id(t.id());
                self.phase = Phase::Compacting(t, image);
                proof {
                    assert forall|s: TreeView| #[trigger]
                        old(self)@.stands_for(s) && compaction::all_readable(s.datas()) && es
                            == s.merge_of_tables() implies {
                        &&& self@.stands_for(s.start_replacing().0)
                        &&& None::<LsmError> == s.start_replacing().1
                    } by {
                        assert(s.new_table(es) is Ok);
                    }
                }
                Ok(())
            },
        }
    }

    /// Merges the tables where there are too many.
    fn check_table_count(&mut self) -> (r: Result<(), LsmError>)
        requires
            old(self).wf(),
            old(self)@.stage is Idle,
        ensures
            final(self).wf(),
            forall|s: TreeView| #[trigger]
                old(self)@.stands_for(s) ==> {
                    &&& final(self)@.stands_for(s.check_table_count().0)
                    &&& failure(r) == s.check_table_count().1
                },
    {
        proof {
            assert forall|s: TreeView| #[trigger] self@.stands_for(s) implies s.tables.len()
                == self.sstables@.len() by {
                assert(state::handles(s.tables).len() == s.tables.len());
            }
        }
        if self.sstables.len() >= self.opts.compaction_trigger {
            self.start_compaction()
        } else {
            Ok(())
        }
    }

    /// Flushes the memtable where it is too large, and merges the tables where
    /// there are too many.
    fn check_limits(&mut self) -> (r: Result<(), LsmError>)
        requires
            old(self).wf(),
            old(self)@.stage is Idle,
        ensures
            final(self).wf(),
            forall|s: TreeView| #[trigger]
                old(self)@.stands_for(s) ==> {
                    &&& final(self)@.stands_for(s.check_limits().0)
                    &&& failure(r) == s.check_limits().1
                },
    {
        proof {
            entry::lemma_sorted_entries(self.memtable.entries());
        }
        if self.memtable.approx_size_bytes() >= self.opts.memtable_max_bytes {
            self.start_flush(true)
        } else {
            self.check_table_count()
        }
    }

    /// Begins a write.
    fn begin_write(&mut self, record: WalRecord) -> (r: Result<(), LsmError>)
        requires
            old(self).wf(),
        ensures
            final(self).wf(),
            forall|s: TreeView| #[trigger]
                old(self)@.stands_for(s) ==> {
                    &&& final(self)@.stands_for(s.write(record@).0)
                    &&& failure(r) == s.write(record@).1
                },
            old(self)@.stage is Idle && (match record@ {
                RecordView::Put(k, v) => {
                    &&& k.len() <= 0xffff_ffff
                    &&& v.len() < 0xffff_ffff
                    &&& entry::live_bytes(entry::sorted_entries(old(self)@.memtable)) + k.len()
                        + v.len() <= usize::MAX
                },
                RecordView::Delete(k) => k.len() <= 0xffff_ffff,
            }) ==> r is Ok,
            r is Ok ==> final(self)@ == (StoreView {
                stage: StageView::Logging(record@),
                ..old(self)@
            }),
            r is Err ==> final(self)@ == old(self)@,
    {
        match &self.phase {
            Phase::Idle => {},
            _ => {
                return Err(LsmError::Busy);
            },
        }
        let (key_len, value_len, fits): (usize, usize, bool) = match &record {
            WalRecord::Put(key, value) => (
                key.len(),
                value.len(),
                key.len() as u64 <= u32::MAX as u64 && (value.len() as u64) < u32::MAX as u64,
            ),
            // A tombstone adds nothing to the size.
            WalRecord::Delete(key) => (0, 0, key.len() as u64 <= u32::MAX as u64),
        };
        if !fits {
            return Err(LsmError::EntryTooLarge);
        }
        proof {
            entry::lemma_sorted_entries(self.memtable.entries());
        }
        let room: usize = usize::MAX - self.memtable.approx_size_bytes();
        if key_len > room || value_len > room - key_len {
            return Err(LsmError::MemtableFull);
        }
        self.phase = Phase::Logging(record);
        Ok(())
    }

    /// Begins to record `value` for `key`.
    pub fn put(&mut self, key: &[u8], value: &[u8]) -> (r: Result<(), LsmError>)
        requires
            old(self).wf(),
        ensures
            final(self).wf(),
            forall|s: TreeView| #[trigger]
                old(self)@.stands_for(s) ==> {
                    &&& final(self)@.stands_for(s.write(RecordView::Put(key@, value@)).0)
                    &&& failure(r) == s.write(RecordView::Put(key@, value@)).1
                },
            old(self)@.stage is Idle && key@.len() <= 0xffff_ffff && value@.len() < 0xffff_ffff
                && entry::live_bytes(entry::sorted_entries(old(self)@.memtable)) + key@.len()
                + value@.len() <= usize::MAX ==> r is Ok,
            r is Ok ==> final(self)@ == (StoreView {
                stage: StageView::Logging(RecordView::Put(key@, value@)),
                ..old(self)@
            }),
            r is Err ==> final(self)@ == old(self)@,
    {
        self.begin_write(WalRecord::Put(bytes::copy_bytes(key), bytes::copy_bytes(value)))
    }

    /// Begins to record that `key` is deleted.
    pub fn delete(&mut self, key: &[u8]) -> (r: Result<(), LsmError>)
        requires
            old(self).wf(),
        ensures
            final(self).wf(),
            forall|s: TreeView| #[trigger]
                old(self)@.stands_for(s) ==> {
                    &&& final(self)@.stands_for(s.write(RecordView::Delete(key@)).0)
                    &&& failure(r) == s.write(RecordView::Delete(key@)).1
                },
            old(self)@.stage is Idle && key@.len() <= 0xffff_ffff ==> r is Ok,
            r is Ok ==> final(self)@ == (StoreView {
                stage: StageView::Logging(RecordView::Delete(key@)),
                ..old(self)@
            }),
            r is Err ==> final(self)@ == old(self)@,
    {
        self.begin_write(WalRecord::Delete(bytes::copy_bytes(key)))
    }

    /// Begins to write the memtable out as a new table. There is nothing to do
    /// where it is empty.
    pub fn flush(&mut self) -> (r: Result<(), LsmError>)
        requires
            old(self).wf(),
        ensures
            final(self).wf(),
            forall|s: TreeView| #[trigger]
                old(self)@.stands_for(s) ==> {
                    &&& final(self)@.stands_for(s.flush().0)
                    &&& failure(r) == s.flush().1
                },
            !(old(self)@.stage is Idle) ==> r == Err::<(), LsmError>(LsmError::Busy),
            r is Err ==> final(self)@ == old(self)@,
            r is Ok && old(self)@.memtable == Map::<Seq<u8>, Option<Seq<u8>>>::empty() ==> final(self)@ == old(self)@,
            r is Ok && old(self)@.memtable != Map::<Seq<u8>, Option<Seq<u8>>>::empty() ==> {
                &&& final(self)@.stage is Flushing
                &&& final(self)@.memtable == old(self)@.memtable
                &&& final(self)@.tables == old(self)@.tables
                &&& final(self)@.opts == old(self)@.opts
            },
    {
        match &self.phase {
            Phase::Idle => {},
            _ => {
                return Err(LsmError::Busy);
            },
        }
        self.start_flush(false)
    }

    /// Begins to merge all tables into one. There is nothing to do where there
    /// is none.
    pub fn compact(&mut self) -> (r: Result<(), LsmError>)
        requires
            old(self).wf(),
        ensures
            final(self).wf(),
            forall|s: TreeView| #[trigger]
                old(self)@.stands_for(s) ==> {
                    &&& final(self)@.stands_for(s.compact().0)
                    &&& failure(r) == s.compact().1
                },
            !(old(self)@.stage is Idle) ==> r == Err::<(), LsmError>(LsmError::Busy) && final(self)@ == old(self)@,
            old(self)@.stage is Idle && old(self)@.tables.len() == 0 ==> r is Ok && final(self)@
                == old(self)@,
            old(self)@.stage is Idle && old(self)@.tables.len() > 0 ==> {
                &&& r is Ok
                &&& final(self)@.stage is Merging
                &&& final(self)@ == (StoreView { stage: final(self)@.stage, ..old(self)@ })
            },
    {
        match &self.phase {
            Phase::Idle => {},
            _ => {
                return Err(LsmError::Busy);
            },
        }
        self.start_compaction()
    }

    /// Applies a write to the memtable.
    fn apply(&mut self, record: WalRecord)
        requires
            old(self).wf(),
            old(self)@.stage is Idle,
            old(self)@.memtable_bytes() + entry::live_entry_bytes(state::record_entry(record@))
                <= usize::MAX,
        ensures
            final(self).wf(),
            final(self)@ == (StoreView {
                memtable: record@.applied_to(old(self)@.memtable),
                ..old(self)@
            }),
    {
        proof {
            entry::lemma_sorted_entries(self.memtable.entries());
        }
        match record {
            WalRecord::Put(key, value) => {
                self.memtable.put(key, value);
            },
            WalRecord::Delete(key) => {
                self.memtable.delete(key);
            },
        }
        proof {
            entry::lemma_sorted_entries(self.memtable.entries());
        }
    }

    /// Goes on after the write has been logged.
    fn logged(&mut self, record: WalRecord) -> (r: Result<(), LsmError>)
        requires
            old(self).wf(),
            old(self)@.stage is Idle,
            old(self)@.memtable_bytes() + entry::live_entry_bytes(state::record_entry(record@))
                <= usize::MAX,
        ensures
            final(self).wf(),
            forall|s: TreeView|
                (StoreView { stage: StageView::Logging(record@), ..old(self)@ }).stands_for(s) ==> {
                    &&& final(self)@.stands_for((#[trigger] s.completed()).0)
                    &&& failure(r) == s.completed().1
                },
    {
        self.apply(record);
        let ghost mid = self@;
        let r = self.check_limits();
        proof {
            assert forall|s: TreeView|
                (StoreView {
                    stage: StageView::Logging(record@),
                    ..old(self)@
                }).stands_for(s) implies {
                &&& self@.stands_for((#[trigger] s.completed()).0)
                &&& failure(r) == s.completed().1
            } by {
                assert(mid.stands_for(s.settled()));
            }
        }
        r
    }

    /// Goes on after the log has been emptied.
    fn truncated(&mut self, automatic: bool) -> (r: Result<(), LsmError>)
        requires
            old(self).wf(),
            old(self)@.stage is Idle,
        ensures
            final(self).wf(),
            forall|s: TreeView|
                (StoreView {
                    stage: StageView::Truncating(automatic),
                    ..old(self)@
                }).stands_for(s) ==> {
                    &&& final(self)@.stands_for((#[trigger] s.completed()).0)
                    &&& failure(r) == s.completed().1
                },
    {
        self.memtable.clear();
        proof {
            entry::lemma_run_empty();
        }
        let ghost mid = self@;
        let r = if automatic {
            self.check_table_count()
        } else {
            Ok(())
        };
        proof {
            assert forall|s: TreeView|
                (StoreView {
                    stage: StageView::Truncating(automatic),
                    ..old(self)@
                }).stands_for(s) implies {
                &&& self@.stands_for((#[trigger] s.completed()).0)
                &&& failure(r) == s.completed().1
            } by {
                assert(mid.stands_for(s.settled()));
            }
        }
        r
    }

    /// Goes on after the pending action has been carried out. The write that was
    /// logged is applied; the table that was written takes its place; and the
    /// next action follows, if there is one. An error says that a flush or a
    /// compaction that was due cannot begin; the write itself is done. Where a part
    /// of a table is to be read, `supply` has to be called instead.
    pub fn completed(&mut self) -> (r: Result<(), LsmError>)
        requires
            old(self).wf(),
        ensures
            final(self).wf(),
            old(self)@.wanted() is Some ==> r == Err::<(), LsmError>(LsmError::Busy) && final(self)@
                == old(self)@,
            old(self)@.wanted() is None ==> forall|s: TreeView| #[trigger]
                old(self)@.stands_for(s) ==> {
                    &&& final(self)@.stands_for(s.completed().0)
                    &&& failure(r) == s.completed().1
                },
    {
        let ghost before = self@;
        let mut phase = Phase::Idle;
        std::mem::swap(&mut self.phase, &mut phase);
        match phase {
            Phase::Idle => Ok(()),
            Phase::Trimming(_) => Ok(()),
            Phase::Logging(record) => {
                assert(before == (StoreView { stage: StageView::Logging(record@), ..self@ }));
                let r = self.logged(record);
                assert forall|s: TreeView| #[trigger] before.stands_for(s) implies {
                    &&& self@.stands_for(s.completed().0)
                    &&& failure(r) == s.completed().1
                } by {
                    let c = s.completed();
                }
                r
            },
            Phase::Flushing(t, image, automatic) => {
                let ghost tables = self.sstables@;
                self.sstables.push(t);
                self.phase = Phase::Truncating(automatic);
                proof {
                    assert(handles_view(self.sstables@) =~= handles_view(tables).push(t@));
                    lemma_table_added(before, t@, image@, automatic, self@);
                }
                Ok(())
            },
            Phase::Truncating(automatic) => {
                assert(before == (StoreView { stage: StageView::Truncating(automatic), ..self@ }));
                let r = self.truncated(automatic);
                assert forall|s: TreeView| #[trigger] before.stands_for(s) implies {
                    &&& self@.stands_for(s.completed().0)
                    &&& failure(r) == s.completed().1
                } by {
                    let c = s.completed();
                }
                r
            },
            Phase::Merging(m) => {
                self.phase = Phase::Merging(m);
                Err(LsmError::Busy)
            },
            Phase::Compacting(t, image) => {
                let mut tables: Vec<SsTable> = Vec::new();
                tables.push(t);
                std::mem::swap(&mut self.sstables, &mut tables);
                self.phase = Phase::Cleaning(tables);
                proof {
                    assert(handles_view(self.sstables@) =~= seq![t@]);
                    assert forall|s: TreeView| #[trigger] before.stands_for(s) implies {
                        &&& self@.stands_for(s.completed().0)
                        &&& None::<LsmError> == s.completed().1
                    } by {
                        if let state::PhaseView::Compacting(v) = s.phase {
                            assert(state::handles(seq![v]) =~= seq![v.handle()]);
                        }
                    }
                }
                Ok(())
            },
            Phase::Cleaning(old) => {
                let mut old: Vec<SsTable> = old;
                let ghost all = old@;
                old.remove(0);
                proof {
                    assert(handles_view(old@) =~= handles_view(all).drop_first());
                    assert(handles_view(all).len() == all.len());
                    assert forall|s: TreeView| #[trigger] before.stands_for(s) implies {
                        &&& s.phase matches state::PhaseView::Cleaning(vs)
                        &&& handles_view(old@) == state::handles(vs.drop_first())
                        &&& vs.len() == all.len()
                    } by {
                        if let state::PhaseView::Cleaning(vs) = s.phase {
                            assert(state::handles(vs).drop_first() =~= state::handles(
                                vs.drop_first(),
                            ));
                            assert(state::handles(vs).len() == vs.len());
                        }
                    }
                }
                if old.len() > 0 {
                    self.phase = Phase::Cleaning(old);
                }
                Ok(())
            },
        }
    }

    /// Goes on with the part of a table that has been read. The next part is asked
    /// for, until the tables are merged; then the merged table is to be written. An
    /// error other than `NotWanted` ends the compaction: a table is damaged, or the
    /// merged one cannot be built.
    pub fn supply(&mut self, part: &[u8]) -> (r: Result<(), LsmError>)
        requires
            old(self).wf(),
        ensures
            final(self).wf(),
            !old(self)@.is_wanted(part@) ==> {
                &&& r == Err::<(), LsmError>(LsmError::NotWanted)
                &&& final(self)@ == old(self)@
            },
            old(self)@.is_wanted(part@) && final(self)@.wanted() is Some ==> {
                &&& r is Ok
                &&& final(self)@.reading_left() < old(self)@.reading_left()
                &&& final(self)@.stage matches StageView::Merging(m) && block::first_entry(
                    m.sources[m.next_part().0].unread,
                ) is None
                &&& forall|s: TreeView| #[trigger]
                    old(self)@.stands_for(s) && old(self)@.found_in(part@, s)
                        ==> final(self)@.stands_for(s)
            },
            old(self)@.is_wanted(part@) && final(self)@.wanted() is None ==> forall|s: TreeView|
             #[trigger]
                old(self)@.stands_for(s) && old(self)@.found_in(part@, s) ==> {
                    &&& final(self)@.stands_for(s.completed().0)
                    &&& failure(r) == s.completed().1
                },
    {
        let ghost before = self@;
        let mut phase = Phase::Idle;
        std::mem::swap(&mut self.phase, &mut phase);
        let mut m = match phase {
            Phase::Merging(m) => m,
            other => {
                self.phase = other;
                return Err(LsmError::NotWanted);
            },
        };
        let (place, start, end) = m.next_part();
        if part.len() as u64 != end - start {
            self.phase = Phase::Merging(m);
            return Err(LsmError::NotWanted);
        }
        let ghost idle = self@;
        let ghost m0 = m;
        if start < end {
            m.feed(part);
        }
        proof {
            assert forall|s: TreeView| #[trigger]
                before.stands_for(s) && before.found_in(part@, s) implies m.progress(s.datas()) by {
                assert(m0.progress(s.datas()));
                assert(state::handles(s.tables).len() == s.tables.len());
                assert(s.datas()[place as int] == s.tables[s.tables.len() - 1 - place].data());
            }
        }
        let ghost m1 = m;
        match m.run() {
            Err(e) => {
                proof {
                    assert forall|s: TreeView| #[trigger]
                        before.stands_for(s) && before.found_in(part@, s) implies {
                        &&& self@.stands_for(s.completed().0)
                        &&& Some(LsmError::Table(e)) == s.completed().1
                    } by {
                        assert(m1.progress(s.datas()));
                        assert(s.settled().datas() == s.datas());
                    }
                }
                Err(LsmError::Table(e))
            },
            Ok(Some(_)) => {
                proof {
                    assert forall|s: TreeView| #[trigger]
                        before.stands_for(s) && before.found_in(part@, s) implies m@.progress(
                        s.datas(),
                    ) by {
                        assert(m1.progress(s.datas()));
                    }
                }
                self.phase = Phase::Merging(m);
                Ok(())
            },
            Ok(None) => {
                let merged = m.into_output();
                let r = self.start_replacing(merged);
                proof {
                    assert forall|s: TreeView| #[trigger]
                        before.stands_for(s) && before.found_in(part@, s) implies {
                        &&& self@.stands_for(s.completed().0)
                        &&& failure(r) == s.completed().1
                    } by {
                        assert(m1.progress(s.datas()));
                        assert(s.settled().datas() == s.datas());
                        assert(idle.stands_for(s.settled()));
                    }
                }
                r
            },
        }
    }

    /// How far a lookup in the first `n` tables gets.
    fn find_below(&self, key: &[u8], n: usize) -> (r: Lookup<'_>)
        requires
            self.wf(),
            n <= self@.tables.len(),
        ensures
            r@ == state::find_below(self@.tables, key@, n as int),
            r matches Lookup::Read { table, file_name, start, end } ==> {
                &&& table < n
                &&& file_name@ == self@.tables[table as int].file_name
                &&& start <= end <= self@.tables[table as int].data_len
            },
    {
        let ghost views = self@.tables;
        let mut i: usize = n;
        while i > 0
            invariant
                i <= n <= views.len(),
                views == handles_view(self.sstables@),
                views == self@.tables,
                store::all_wf(views),
                state::find_below(views, key@, n as int) == state::find_below(
                    views,
                    key@,
                    i as int,
                ),
            decreases i,
        {
            i = i - 1;
            assert(views[i as int] == self.sstables@[i as int]@);
            assert(views[i as int].wf());
            if let Some((start, end)) = self.sstables[i].locate(key) {
                return Lookup::Read {
                    table: i,
                    file_name: self.sstables[i].file_name(),
                    start,
                    end,
                };
            }
        }
        Lookup::Known(None)
    }

    /// Looks `key` up: in the memtable, and where that does not mention it in the
    /// tables, from the newest on. A table has to be read where its filter does not
    /// rule the key out.
    pub fn get(&self, key: &[u8]) -> (r: Lookup<'_>)
        requires
            self.wf(),
        ensures
            r@ == state::find_in(self@.memtable, self@.tables, key@),
            forall|s: TreeView| #[trigger] self@.stands_for(s) ==> r@ == s.find(key@),
            r matches Lookup::Read { table, file_name, start, end } ==> {
                &&& table < self@.tables.len()
                &&& file_name@ == self@.tables[table as int].file_name
                &&& start <= end <= self@.tables[table as int].data_len
            },
    {
        if let Some(value) = self.memtable.get(key) {
            return Lookup::Known(copy_value(value));
        }
        self.find_below(key, self.sstables.len())
    }

    /// Goes on with a lookup, with the part of this table that has been read for
    /// it. An error says that the table is damaged.
    pub fn get_with(&self, key: &[u8], table: usize, part: &[u8]) -> (r: Result<
        Lookup<'_>,
        TableError,
    >)
        requires
            self.wf(),
            table < self@.tables.len(),
        ensures
            match r {
                Ok(l) => state::find_with(self@.tables, key@, table as int, part@) == Ok::<
                    FindView,
                    TableError,
                >(l@),
                Err(e) => state::find_with(self@.tables, key@, table as int, part@) == Err::<
                    FindView,
                    TableError,
                >(e),
            },
            r matches Ok(Lookup::Read { table: next, file_name, start, end }) ==> {
                &&& next < table
                &&& file_name@ == self@.tables[next as int].file_name
                &&& start <= end <= self@.tables[next as int].data_len
            },
    {
        match block::scan_block(part, key) {
            Err(e) => Err(e),
            Ok(Some(value)) => Ok(Lookup::Known(value)),
            Ok(None) => Ok(self.find_below(key, table)),
        }
    }

    /// The number of tables.
    pub fn sstable_count(&self) -> (r: usize)
        ensures
            r == self@.tables.len(),
    {
        self.sstables.len()
    }

    /// One of the tables. The oldest one comes first.
    pub fn sstable(&self, i: usize) -> (r: &SsTable)
        requires
            i < self@.tables.len(),
        ensures
            r@ == self@.tables[i as int],
    {
        &self.sstables[i]
    }

    /// The number of keys in the memtable, deleted ones among them.
    pub fn memtable_len(&self) -> (r: usize)
        requires
            self.wf(),
        ensures
            r == self@.memtable.len(),
    {
        self.memtable.len()
    }

    /// How the store works.
    pub fn options(&self) -> (r: &LsmOptions)
        ensures
            *r == self@.opts,
    {
        &self.opts
    }

    /// Every entry of every table as it stands, tombstones among them, from the
    /// oldest table on. `data` is the data block of each table.
    pub fn debug_all_sstable_entries(&self, data: &[Vec<u8>]) -> (r: Result<
        Vec<SstableEntryDebug>,
        TableError,
    >)
        requires
            data@.len() == self@.tables.len(),
        ensures
            match r {
                Ok(all) => {
                    &&& compaction::all_readable(datas_view(data@))
                    &&& debug_view(all@) == raw_entries(self@.tables, datas_view(data@))
                },
                Err(e) => !compaction::all_readable(datas_view(data@)) && e
                    == TableError::BadEntry,
            },
    {
        let ghost views = self@.tables;
        let ghost datas = datas_view(data@);
        let mut all: Vec<SstableEntryDebug> = Vec::new();
        let mut i: usize = 0;
        assert(debug_view(all@) =~= raw_entries(views.take(0), datas.take(0)));
        while i < self.sstables.len()
            invariant
                i <= views.len(),
                views == self@.tables,
                views == handles_view(self.sstables@),
                datas == datas_view(data@),
                datas.len() == views.len(),
                forall|j: int| 0 <= j < i ==> block::block_entries(#[trigger] datas[j]) is Some,
                debug_view(all@) == raw_entries(views.take(i as int), datas.take(i as int)),
            decreases views.len() - i,
        {
            assert(views[i as int] == self.sstables@[i as int]@);
            assert(datas[i as int] == data@[i as int]@);
            let ghost part = views.take(i + 1);
            assert(part.drop_last() =~= views.take(i as int));
            assert(datas.take(i + 1).drop_last() =~= datas.take(i as int));
            if let Err(e) = list_entries(self.sstables[i].id(), data[i].as_slice(), &mut all) {
                assert(block::block_entries(datas[i as int]) is None);
                return Err(e);
            }
            i = i + 1;
        }
        assert(views.take(i as int) =~= views);
        assert(datas.take(i as int) =~= datas);
        Ok(all)
    }
}

/// A flushed table joins the others.
proof fn lemma_table_added(
    before: StoreView,
    t: HandleView,
    image: Seq<u8>,
    automatic: bool,
    after: StoreView,
)
    requires
        before.wf(),
        before.stage == StageView::Flushing(t, image, automatic),
        after == (StoreView {
            tables: before.tables.push(t),
            stage: StageView::Truncating(automatic),
            ..before
        }),
    ensures
        after.wf(),
        forall|s: TreeView| #[trigger]
            before.stands_for(s) ==> after.stands_for(s.completed().0) && s.completed().1 is None,
{
    assert forall|i: int| 0 <= i < after.tables.len() implies (#[trigger] after.tables[i]).wf() by {
        if i < before.tables.len() {
            assert(before.tables[i].wf());
        }
    }
    assert forall|s: TreeView| #[trigger] before.stands_for(s) implies after.stands_for(
        s.completed().0,
    ) && s.completed().1 is None by {
        if let state::PhaseView::Flushing(v, _) = s.phase {
            let ts = s.tables.push(v);
            assert(state::handles(ts) =~= state::handles(s.tables).push(v.handle()));
            assert forall|i: int| 0 <= i < ts.len() implies (#[trigger] ts[i]).wf() by {
                if i < s.tables.len() {
                    assert(s.tables[i].wf());
                }
            }
        }
    }
}

/// Opens the tables in the files with these tails, and finds the next id.
fn open_tables(tails: Vec<(u64, String, Vec<u8>)>) -> (r: Result<
    (Vec<SsTable>, Option<u64>),
    TableError,
>)
    ensures
        match r {
            Ok((tables, next)) => {
                &&& store::opened_handles(tails_view(tails@)) == Ok::<Seq<HandleView>, TableError>(
                    handles_view(tables@),
                )
                &&& next == store::id_after_handles(handles_view(tables@))
                &&& store::all_wf(handles_view(tables@))
            },
            Err(e) => store::opened_handles(tails_view(tails@)) == Err::<
                Seq<HandleView>,
                TableError,
            >(e),
        },
{
    let ghost all = tails_view(tails@);
    let mut rest: Vec<(u64, String, Vec<u8>)> = tails;
    let mut tables: Vec<SsTable> = Vec::new();
    let mut next: Option<u64> = Some(1);
    let ghost mut n: int = 0;
    proof {
        assert(all.take(0) =~= Seq::empty());
        assert(all.skip(0) =~= all);
        assert(handles_view(tables@) =~= Seq::empty());
    }
    while rest.len() > 0
        invariant
            0 <= n <= all.len(),
            all == tails_view(tails@),
            tails_view(rest@) == all.skip(n),
            store::opened_handles(all.take(n)) == Ok::<Seq<HandleView>, TableError>(
                handles_view(tables@),
            ),
            next == store::id_after_handles(handles_view(tables@)),
            store::all_wf(handles_view(tables@)),
        decreases rest@.len(),
    {
        let ghost left = rest@;
        let (id, file_name, tail) = rest.remove(0);
        proof {
            assert(tails_view(left).len() == left.len());
            assert(tails_view(left)[0] == (id, file_name@, tail@));
            assert(all[n] == (id, file_name@, tail@));
            assert(all.take(n + 1).drop_last() =~= all.take(n));
            assert(tails_view(rest@) =~= tails_view(left).drop_first());
            assert(all.skip(n).drop_first() =~= all.skip(n + 1));
        }
        match SsTable::open(file_name, id, tail.as_slice()) {
            Err(e) => {
                proof {
                    lemma_first_error(all, n + 1, e);
                }
                return Err(e);
            },
            Ok(t) => {
                let ghost before = handles_view(tables@);
                next = match next {
                    None => None,
                    Some(m) => if id < m {
                        Some(m)
                    } else {
                        next_id(id)
                    },
                };
                tables.push(t);
                proof {
                    let after = handles_view(tables@);
                    assert(after =~= before.push(t@));
                    assert(after.drop_last() =~= before);
                    assert forall|i: int| 0 <= i < after.len() implies (#[trigger] after[i]).wf() by {
                        if i < before.len() {
                            assert(before[i].wf());
                        }
                    }
                    n = n + 1;
                }
            },
        }
    }
    assert(all.take(n) =~= all);
    Ok((tables, next))
}

/// The first one that is not the tail of a table decides.
proof fn lemma_first_error(tails: Seq<(u64, Seq<char>, Seq<u8>)>, n: int, e: TableError)
    requires
        0 <= n <= tails.len(),
        store::opened_handles(tails.take(n)) == Err::<Seq<HandleView>, TableError>(e),
    ensures
        store::opened_handles(tails) == Err::<Seq<HandleView>, TableError>(e),
    decreases tails.len(),
{
    if n < tails.len() {
        assert(tails.drop_last().take(n) =~= tails.take(n));
        lemma_first_error(tails.drop_last(), n, e);
    } else {
        assert(tails.take(n) =~= tails);
    }
}

/// The memtable that some writes leave. Their log is not longer than can be
/// counted, and so neither is the memtable.
fn replay_into_memtable(records: &Vec<WalRecord>) -> (m: Memtable)
    requires
        wal::log_of(wal::records_view(records@)).len() <= usize::MAX,
    ensures
        m.wf(),
        m@ == wal::layer_of(wal::records_view(records@)),
{
    let ghost all = wal::records_view(records@);
    let mut memtable = Memtable::new();
    let mut i: usize = 0;
    assert(all.take(0) =~= Seq::empty());
    while i < records.len()
        invariant
            i <= records@.len(),
            all == wal::records_view(records@),
            wal::log_of(all).len() <= usize::MAX,
            memtable.wf(),
            memtable@ == wal::layer_of(all.take(i as int)),
            memtable.size() <= wal::log_of(all.take(i as int)).len(),
        decreases records@.len() - i,
    {
        proof {
            assert(all.take(i + 1).drop_last() =~= all.take(i as int));
            assert(all.take(i + 1).last() == records@[i as int]@);
            wal::lemma_encoded_len(all[i as int]);
            wal::lemma_log_of_part(all, i + 1);
        }
        match &records[i] {
            WalRecord::Put(key, value) => {
                memtable.put(
                    bytes::copy_bytes(key.as_slice()),
                    bytes::copy_bytes(value.as_slice()),
                );
            },
            WalRecord::Delete(key) => {
                memtable.delete(bytes::copy_bytes(key.as_slice()));
            },
        }
        i = i + 1;
    }
    assert(all.take(i as int) =~= all);
    memtable
}

/// Some data blocks.
pub open spec fn datas_view(s: Seq<Vec<u8>>) -> Seq<Seq<u8>> {
    s.map_values(|d: Vec<u8>| d@)
}

/// Entries, each with the id of their table.
pub open spec fn with_id(id: u64, es: Seq<Entry>) -> Seq<(u64, Entry)> {
    es.map_values(|e: Entry| (id, e))
}

/// The entries of all tables, which have these data blocks, each with the id of
/// its table.
pub open spec fn raw_entries(tables: Seq<HandleView>, datas: Seq<Seq<u8>>) -> Seq<(u64, Entry)>
    decreases tables.len(),
{
    if tables.len() == 0 {
        Seq::empty()
    } else {
        raw_entries(tables.drop_last(), datas.drop_last()) + with_id(
            tables.last().id,
            block::block_entries(datas.last()).unwrap(),
        )
    }
}

/// The entries of all tables come table by table, each with the id of its table.
pub proof fn lemma_raw_entries(
    tables: Seq<HandleView>,
    datas: Seq<Seq<u8>>,
    t: HandleView,
    es: Seq<Entry>,
)
    requires
        tables.len() == datas.len(),
        block::all_fit(es),
    ensures
        ({
            let before = raw_entries(tables, datas);
            let all = raw_entries(tables.push(t), datas.push(block::block_of(es)));
            &&& all.len() == before.len() + es.len()
            &&& forall|i: int| 0 <= i < before.len() ==> #[trigger] all[i] == before[i]
            &&& forall|i: int|
                0 <= i < es.len() ==> all[before.len() + i] == (t.id, #[trigger] es[i])
        }),
        raw_entries(Seq::empty(), Seq::empty()).len() == 0,
{
    block::lemma_block_entries_of_block(es);
    assert(tables.push(t).drop_last() =~= tables);
    assert(datas.push(block::block_of(es)).drop_last() =~= datas);
}

/// What a list of entries with table ids says.
pub open spec fn debug_view(s: Seq<SstableEntryDebug>) -> Seq<(u64, Entry)> {
    s.map_values(|d: SstableEntryDebug| (d.0, entry::entry_view((d.1, d.2))))
}

/// Appends the entries of a table to a list.
fn list_entries(id: u64, data: &[u8], all: &mut Vec<SstableEntryDebug>) -> (r: Result<
    (),
    TableError,
>)
    ensures
        match r {
            Ok(_) => {
                &&& block::block_entries(data@) is Some
                &&& debug_view(final(all)@) == debug_view(old(all)@) + with_id(
                    id,
                    block::block_entries(data@).unwrap(),
                )
            },
            Err(e) => block::block_entries(data@) is None && e == TableError::BadEntry,
        },
{
    let mut it = SsTableIterator::new(data);
    let ghost start = debug_view(all@);
    let ghost mut done: Seq<Entry> = Seq::empty();
    proof {
        if let Some(rest) = block::block_entries(it.remaining()) {
            assert(done + rest =~= rest);
        }
        assert(done.map_values(|e: Entry| (id, e)) =~= Seq::empty());
        assert(start + Seq::<(u64, Entry)>::empty() =~= start);
    }
    loop
        invariant
            it.wf(),
            block::block_entries(data@) == (match block::block_entries(it.remaining()) {
                Some(rest) => Some(done + rest),
                None => None,
            }),
            debug_view(all@) == start + done.map_values(|e: Entry| (id, e)),
            start == debug_view(old(all)@),
        decreases it.remaining().len(),
    {
        match it.next() {
            None => {
                assert(done + Seq::<Entry>::empty() =~= done);
                return Ok(());
            },
            Some(Err(e)) => {
                return Err(e);
            },
            Some(Ok((key, value))) => {
                let ghost e = entry::entry_view((key, value));
                let ghost before = all@;
                all.push((id, key, value));
                proof {
                    let next = done.push(e);
                    if let Some(rest) = block::block_entries(it.remaining()) {
                        assert(done + (seq![e] + rest) =~= next + rest);
                    }
                    assert(debug_view(all@) =~= debug_view(before).push((id, e)));
                    assert(next.map_values(|e: Entry| (id, e)) =~= done.map_values(
                        |e: Entry| (id, e),
                    ).push((id, e)));
                    assert(start + next.map_values(|e: Entry| (id, e)) =~= debug_view(all@));
                    done = next;
                }
            },
        }
    }
}

/// Entries with a value each.
fn as_entries(pairs: Vec<(Vec<u8>, Vec<u8>)>) -> (r: Vec<(Vec<u8>, Option<Vec<u8>>)>)
    ensures
        entry::entries_view(r@) == compaction::pairs_view(pairs@),
{
    let mut r: Vec<(Vec<u8>, Option<Vec<u8>>)> = Vec::new();
    let ghost es = compaction::pairs_view(pairs@);
    let mut i: usize = 0;
    assert(entry::entries_view(r@) =~= es.take(0));
    while i < pairs.len()
        invariant
            i <= pairs@.len(),
            es == compaction::pairs_view(pairs@),
            entry::entries_view(r@) == es.take(i as int),
        decreases pairs@.len() - i,
    {
        let ghost before = r@;
        let copy = (
            bytes::copy_bytes(pairs[i].0.as_slice()),
            Some(bytes::copy_bytes(pairs[i].1.as_slice())),
        );
        assert(entry::entry_view(copy) == es[i as int]);
        r.push(copy);
        assert(entry::entries_view(r@) =~= entry::entries_view(before).push(es[i as int]));
        assert(es.take(i + 1) =~= es.take(i as int).push(es[i as int]));
        i = i + 1;
    }
    assert(es.take(i as int) =~= es);
    r
}

/// The id after this one.
fn next_id(id: u64) -> (r: Option<u64>)
    ensures
        r == state::id_after(id),
{
    if id == u64::MAX {
        None
    } else {
        Some(id + 1)
    }
}

/// A copy of a value or tombstone.
fn copy_value(value: &Option<Vec<u8>>) -> (r: Option<Vec<u8>>)
    ensures
        entry::value_view(r) == entry::value_view(*value),
{
    match value {
        Some(v) => Some(bytes::copy_bytes(v.as_slice())),
        None => None,
    }
}

} // verus!
