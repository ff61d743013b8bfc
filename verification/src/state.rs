//! The state of the store and the steps that it takes.
//!
//! The store does no input or output itself. An operation puts it into a phase
//! in which one thing has to be done to the data directory; when that has been
//! done, the store goes on to the next phase, until it is idle again.
//!
//! ## Write path
//!
//! A write is appended to the log, then applied to the memtable. Where the
//! memtable has reached its size limit it is flushed: written out as a new
//! table, after which the log is emptied. Where the number of tables has reached
//! the limit for them, all tables are compacted into one: they are read part by
//! part, the merged table is written, and the tables that it replaces are removed
//! from the oldest on.
//!
//! ## Read path
//!
//! A lookup asks the memtable first and then the tables from the newest to the
//! oldest. The first one that mentions the key decides, be it with a value or
//! with a tombstone. The data of the tables is on disk: of each table that has to
//! be asked one part is read, and none where its filter rules the key out.

use crate::block;
use crate::block::TableError;
use crate::compaction;
use crate::entry;
use crate::entry::{Entry, Layer};
use crate::lsm::{LsmError, LsmOptions};
use crate::names;
use crate::names::FileKind;
use crate::sstable;
use crate::sstable::{HandleView, TableView};
use crate::wal;
use crate::wal::RecordView;
use vstd::prelude::*;

verus! {

/// What the store is doing.
pub enum PhaseView {
    /// Nothing: an operation can begin.
    Idle,
    /// The log is cut off behind its last complete record.
    Trimming(int),
    /// A write is appended to the log.
    Logging(RecordView),
    /// The memtable is written out as this table. A write called for it, or a
    /// caller.
    Flushing(TableView, bool),
    /// The log is emptied, for what it holds is in the newest table.
    Truncating(bool),
    /// The tables are read, to be merged.
    Merging,
    /// The merge of all tables is written out as this table.
    Compacting(TableView),
    /// These tables, which the merged one replaces, are removed.
    Cleaning(Seq<TableView>),
}

/// What has to be done to the data directory.
pub enum ActionView {
    Done,
    AppendWal(Seq<u8>),
    TruncateWal(int),
    /// Reading parts of the tables. Nothing is changed by it.
    ReadTables,
    WriteTable(Seq<char>, Seq<u8>),
    RemoveTable(Seq<char>),
}

/// The state of the store.
pub struct TreeView {
    pub opts: LsmOptions,
    pub memtable: Layer,
    /// From the oldest to the newest.
    pub tables: Seq<TableView>,
    /// The id of the next table, if there is one left.
    pub next_id: Option<u64>,
    pub phase: PhaseView,
}

/// The id after this one.
pub open spec fn id_after(id: u64) -> Option<u64> {
    if id == u64::MAX {
        None
    } else {
        Some((id + 1) as u64)
    }
}

/// The id after the greatest one of some tables. The first table has the id 1.
pub open spec fn id_after_all(tables: Seq<TableView>) -> Option<u64>
    decreases tables.len(),
{
    if tables.len() == 0 {
        Some(1)
    } else {
        match id_after_all(tables.drop_last()) {
            None => None,
            Some(id) => if tables.last().id < id {
                Some(id)
            } else {
                id_after(tables.last().id)
            },
        }
    }
}

/// What tables say of keys.
pub open spec fn table_layers(tables: Seq<TableView>) -> Seq<Layer> {
    tables.map_values(|t: TableView| t.layer())
}

/// What a lookup in the tables finds, the newest one being the last.
pub open spec fn lookup_in(tables: Seq<TableView>, key: Seq<u8>) -> Result<
    Option<Seq<u8>>,
    TableError,
>
    decreases tables.len(),
{
    if tables.len() == 0 {
        Ok(None)
    } else {
        match tables.last().lookup(key) {
            Err(e) => Err(e),
            Ok(Some(v)) => Ok(v),
            Ok(None) => lookup_in(tables.drop_last(), key),
        }
    }
}

/// What is kept in memory of some tables.
pub open spec fn handles(tables: Seq<TableView>) -> Seq<HandleView> {
    tables.map_values(|t: TableView| t.handle())
}

/// How far a lookup has come: the answer is known, or a part of the file of a
/// table has to be read.
pub enum FindView {
    Known(Option<Seq<u8>>),
    /// The place of the table, and the start and the end of the part.
    Read(int, int, int),
}

/// How far a lookup in the first `n` tables gets without reading anything.
pub open spec fn find_below(tables: Seq<HandleView>, key: Seq<u8>, n: int) -> FindView
    decreases n,
{
    if n <= 0 {
        FindView::Known(None)
    } else {
        match tables[n - 1].located(key) {
            None => find_below(tables, key, n - 1),
            Some((start, end)) => FindView::Read(n - 1, start, end),
        }
    }
}

/// How far a lookup in the memtable and all tables gets without reading anything.
pub open spec fn find_in(memtable: Layer, tables: Seq<HandleView>, key: Seq<u8>) -> FindView {
    if memtable.contains_key(key) {
        FindView::Known(memtable[key])
    } else {
        find_below(tables, key, tables.len() as int)
    }
}

/// How far a lookup gets with this part of table `table`.
pub open spec fn find_with(
    tables: Seq<HandleView>,
    key: Seq<u8>,
    table: int,
    part: Seq<u8>,
) -> Result<FindView, TableError> {
    match block::scan(part, key) {
        Err(e) => Err(e),
        Ok(Some(v)) => Ok(FindView::Known(v)),
        Ok(None) => Ok(find_below(tables, key, table)),
    }
}

/// All tables are intact.
pub open spec fn all_valid(tables: Seq<TableView>) -> bool {
    forall|i: int| 0 <= i < tables.len() ==> (#[trigger] tables[i]).valid()
}

/// All tables can be searched.
pub open spec fn all_wf(tables: Seq<TableView>) -> bool {
    forall|i: int| 0 <= i < tables.len() ==> (#[trigger] tables[i]).wf()
}

/// The entry that a write leaves in the memtable.
pub open spec fn record_entry(r: RecordView) -> Entry {
    match r {
        RecordView::Put(k, v) => Entry { key: k, value: Some(v) },
        RecordView::Delete(k) => Entry { key: k, value: None },
    }
}

/// What each of the files holds, up to the first one that is not a table.
pub open spec fn opened_tables(files: Seq<(u64, Seq<char>, Seq<u8>)>) -> Result<
    Seq<TableView>,
    TableError,
>
    decreases files.len(),
{
    if files.len() == 0 {
        Ok(Seq::empty())
    } else {
        match opened_tables(files.drop_last()) {
            Err(e) => Err(e),
            Ok(tables) => match TableView::opened(
                files.last().1,
                files.last().0,
                files.last().2,
            ) {
                Err(e) => Err(e),
                Ok(t) => Ok(tables.push(t)),
            },
        }
    }
}

impl TreeView {
    /// The layers of the store, from the oldest to the newest.
    pub open spec fn layers(self) -> Seq<Layer> {
        table_layers(self.tables).push(self.memtable)
    }

    /// What the store holds.
    pub open spec fn contents(self) -> Map<Seq<u8>, Seq<u8>> {
        entry::live(entry::overlay(self.layers()))
    }

    /// What a lookup finds.
    pub open spec fn lookup(self, key: Seq<u8>) -> Result<Option<Seq<u8>>, TableError> {
        if self.memtable.contains_key(key) {
            Ok(self.memtable[key])
        } else {
            lookup_in(self.tables, key)
        }
    }

    /// How far a lookup gets without reading anything.
    pub open spec fn find(self, key: Seq<u8>) -> FindView {
        find_in(self.memtable, handles(self.tables), key)
    }

    /// The bytes of the keys and values of live entries in the memtable.
    pub open spec fn memtable_bytes(self) -> nat {
        entry::live_bytes(entry::sorted_entries(self.memtable))
    }

    /// The parts fit together well enough for every operation.
    pub open spec fn wf(self) -> bool {
        &&& entry::is_run(self.memtable)
        &&& all_wf(self.tables)
        &&& match self.phase {
            PhaseView::Logging(r) => self.memtable_bytes() + entry::live_entry_bytes(
                record_entry(r),
            ) <= usize::MAX,
            PhaseView::Flushing(t, _) => t.wf() && t.image.len() <= usize::MAX,
            PhaseView::Merging => self.tables.len() > 0,
            PhaseView::Compacting(t) => t.wf() && t.image.len() <= usize::MAX
                && self.tables.len() > 0,
            PhaseView::Cleaning(old) => old.len() > 0,
            _ => true,
        }
    }

    /// What has to be done to the data directory.
    pub open spec fn pending(self) -> ActionView {
        match self.phase {
            PhaseView::Idle => ActionView::Done,
            PhaseView::Trimming(n) => ActionView::TruncateWal(n),
            PhaseView::Logging(r) => ActionView::AppendWal(r.encoded()),
            PhaseView::Flushing(t, _) => ActionView::WriteTable(t.file_name, t.image),
            PhaseView::Truncating(_) => ActionView::TruncateWal(0),
            PhaseView::Merging => ActionView::ReadTables,
            PhaseView::Compacting(t) => ActionView::WriteTable(t.file_name, t.image),
            PhaseView::Cleaning(old) => ActionView::RemoveTable(old[0].file_name),
        }
    }

    /// The store that a data directory holds: the tables in these files, from
    /// the oldest to the newest, and the memtable that the log gives.
    pub open spec fn opened(
        files: Seq<(u64, Seq<char>, Seq<u8>)>,
        log: Seq<u8>,
        opts: LsmOptions,
    ) -> Result<TreeView, TableError> {
        match opened_tables(files) {
            Err(e) => Err(e),
            Ok(tables) => Ok(
                TreeView {
                    opts,
                    memtable: wal::layer_of(wal::replayed(log).0),
                    tables,
                    next_id: id_after_all(tables),
                    phase: if wal::replayed(log).1 < log.len() {
                        PhaseView::Trimming(wal::replayed(log).1)
                    } else {
                        PhaseView::Idle
                    },
                },
            ),
        }
    }

    /// Beginning a write.
    pub open spec fn write(self, r: RecordView) -> (TreeView, Option<LsmError>) {
        if !(self.phase is Idle) {
            (self, Some(LsmError::Busy))
        } else if !block::fits(record_entry(r)) {
            (self, Some(LsmError::EntryTooLarge))
        } else if self.memtable_bytes() + entry::live_entry_bytes(record_entry(r)) > usize::MAX {
            (self, Some(LsmError::MemtableFull))
        } else {
            (TreeView { phase: PhaseView::Logging(r), ..self }, None)
        }
    }

    /// The new table for some entries.
    pub open spec fn new_table(self, es: Seq<Entry>) -> Result<TableView, LsmError> {
        match self.next_id {
            None => Err(LsmError::IdsExhausted),
            Some(id) => match TableView::build_error(
                es,
                self.opts.bloom_bits_per_key as int,
                self.opts.bloom_enabled,
            ) {
                Some(e) => Err(LsmError::Table(e)),
                None => Ok(
                    TableView::built(
                        names::file_name_of(id),
                        id,
                        es,
                        self.opts.sparse_index_interval as int,
                        self.opts.bloom_bits_per_key as int,
                        self.opts.bloom_enabled,
                    ),
                ),
            },
        }
    }

    /// Beginning to write the memtable out, where there is anything in it.
    pub open spec fn start_flush(self, automatic: bool) -> (TreeView, Option<LsmError>) {
        if self.memtable == Map::<Seq<u8>, Option<Seq<u8>>>::empty() {
            (self, None)
        } else {
            match self.new_table(entry::sorted_entries(self.memtable)) {
                Err(e) => (self, Some(e)),
                Ok(t) => (
                    TreeView {
                        next_id: id_after(t.id),
                        phase: PhaseView::Flushing(t, automatic),
                        ..self
                    },
                    None,
                ),
            }
        }
    }

    /// The data blocks of all tables, from the newest to the oldest.
    pub open spec fn datas(self) -> Seq<Seq<u8>> {
        self.tables.reverse().map_values(|t: TableView| t.data())
    }

    /// The entries of the merge of all tables.
    pub open spec fn merge_of_tables(self) -> Seq<Entry> {
        compaction::merged(compaction::streams_in(self.datas()), None)
    }

    /// Beginning to read the tables, where there are any.
    pub open spec fn start_compaction(self) -> (TreeView, Option<LsmError>) {
        if self.tables.len() == 0 {
            (self, None)
        } else {
            (TreeView { phase: PhaseView::Merging, ..self }, None)
        }
    }

    /// Beginning to write the merge of the tables, after they have been read.
    pub open spec fn start_replacing(self) -> (TreeView, Option<LsmError>) {
        if !compaction::all_readable(self.datas()) {
            (self, Some(LsmError::Table(TableError::BadEntry)))
        } else {
            match self.new_table(self.merge_of_tables()) {
                Err(e) => (self, Some(e)),
                Ok(t) => (
                    TreeView {
                        next_id: id_after(t.id),
                        phase: PhaseView::Compacting(t),
                        ..self
                    },
                    None,
                ),
            }
        }
    }

    /// Merging the tables where there are too many.
    pub open spec fn check_table_count(self) -> (TreeView, Option<LsmError>) {
        if self.tables.len() >= self.opts.compaction_trigger {
            self.start_compaction()
        } else {
            (self, None)
        }
    }

    /// Flushing the memtable where it is too large, and merging the tables where
    /// there are too many.
    pub open spec fn check_limits(self) -> (TreeView, Option<LsmError>) {
        if self.memtable_bytes() >= self.opts.memtable_max_bytes {
            self.start_flush(true)
        } else {
            self.check_table_count()
        }
    }

    /// The state after the pending action has been carried out, before anything
    /// else is begun.
    pub open spec fn settled(self) -> TreeView {
        let idle = TreeView { phase: PhaseView::Idle, ..self };
        match self.phase {
            PhaseView::Idle => self,
            PhaseView::Trimming(_) => idle,
            PhaseView::Logging(r) => TreeView { memtable: r.applied_to(self.memtable), ..idle },
            PhaseView::Flushing(t, automatic) => TreeView {
                tables: self.tables.push(t),
                phase: PhaseView::Truncating(automatic),
                ..self
            },
            PhaseView::Truncating(_) => TreeView { memtable: Map::empty(), ..idle },
            PhaseView::Merging => idle,
            PhaseView::Compacting(t) => TreeView {
                tables: seq![t],
                phase: PhaseView::Cleaning(self.tables),
                ..self
            },
            PhaseView::Cleaning(old) => if old.len() == 1 {
                idle
            } else {
                TreeView { phase: PhaseView::Cleaning(old.drop_first()), ..self }
            },
        }
    }

    /// Going on after the pending action has been carried out.
    pub open spec fn completed(self) -> (TreeView, Option<LsmError>) {
        match self.phase {
            PhaseView::Logging(_) => self.settled().check_limits(),
            PhaseView::Truncating(true) => self.settled().check_table_count(),
            PhaseView::Merging => self.settled().start_replacing(),
            _ => (self.settled(), None),
        }
    }

    /// Beginning a flush on demand.
    pub open spec fn flush(self) -> (TreeView, Option<LsmError>) {
        if !(self.phase is Idle) {
            (self, Some(LsmError::Busy))
        } else {
            self.start_flush(false)
        }
    }

    /// Beginning a compaction on demand.
    pub open spec fn compact(self) -> (TreeView, Option<LsmError>) {
        if !(self.phase is Idle) {
            (self, Some(LsmError::Busy))
        } else {
            self.start_compaction()
        }
    }

    /// A bound for the number of actions that an operation still takes.
    pub open spec fn steps_left(self) -> nat {
        let n = self.tables.len();
        match self.phase {
            PhaseView::Idle => 0,
            PhaseView::Trimming(_) => 1,
            PhaseView::Cleaning(old) => old.len(),
            PhaseView::Compacting(_) => n + 1,
            PhaseView::Merging => n + 2,
            PhaseView::Truncating(_) => n + 3,
            PhaseView::Flushing(_, _) => n + 5,
            PhaseView::Logging(_) => n + 6,
        }
    }
}

/// A table that can be found in the data directory again.
pub open spec fn stored(t: TableView) -> bool {
    &&& t.valid()
    &&& TableView::opened(t.file_name, t.id, t.image) == Ok::<TableView, TableError>(t)
    &&& names::kind_of(t.file_name) == FileKind::Table(t.id)
}

/// All tables can be found again.
pub open spec fn all_stored(tables: Seq<TableView>) -> bool {
    forall|i: int| 0 <= i < tables.len() ==> stored(#[trigger] tables[i])
}

/// Every table has a greater id than the one before.
pub open spec fn ids_ascend(tables: Seq<TableView>) -> bool {
    forall|i: int, j: int|
        0 <= i < j < tables.len() ==> (#[trigger] tables[i]).id < (#[trigger] tables[j]).id
}

/// No table has this id or a greater one.
pub open spec fn ids_below(tables: Seq<TableView>, id: u64) -> bool {
    forall|i: int| 0 <= i < tables.len() ==> (#[trigger] tables[i]).id < id
}

impl TreeView {
    /// The tables in the data directory.
    pub open spec fn stored_tables(self) -> Seq<TableView> {
        match self.phase {
            PhaseView::Cleaning(old) => old + self.tables,
            _ => self.tables,
        }
    }

    /// The table is newer than all others, and will be older than the next one.
    pub open spec fn is_newest(self, t: TableView) -> bool {
        &&& ids_below(self.tables, t.id)
        &&& self.next_id matches Some(id) ==> t.id < id
    }

    /// The state that a store is in which was opened on intact tables and has
    /// taken its own steps since.
    pub open spec fn sound(self) -> bool {
        &&& self.wf()
        &&& block::all_fit(entry::sorted_entries(self.memtable))
        &&& all_stored(self.stored_tables())
        &&& ids_ascend(self.stored_tables())
        &&& self.next_id matches Some(id) ==> ids_below(self.stored_tables(), id)
        &&& match self.phase {
            PhaseView::Idle => true,
            PhaseView::Trimming(n) => true,
            PhaseView::Logging(r) => block::fits(record_entry(r)),
            PhaseView::Flushing(t, _) => {
                &&& stored(t)
                &&& self.is_newest(t)
                &&& t.layer() == self.memtable
            },
            PhaseView::Truncating(_) => {
                &&& self.tables.len() > 0
                &&& self.tables.last().layer() == self.memtable
            },
            PhaseView::Merging => true,
            PhaseView::Compacting(t) => {
                &&& stored(t)
                &&& self.is_newest(t)
                &&& entry::covers(t.layer(), table_layers(self.tables))
                &&& entry::live(t.layer()) == entry::live(
                    entry::overlay(table_layers(self.tables)),
                )
            },
            PhaseView::Cleaning(old) => {
                &&& self.tables.len() == 1
                &&& entry::covers(self.tables[0].layer(), table_layers(old))
            },
        }
    }
}

/// A lookup in intact tables finds what the newest one that mentions the key
/// says of it.
proof fn lemma_lookup_in(tables: Seq<TableView>, key: Seq<u8>)
    requires
        all_valid(tables),
    ensures
        lookup_in(tables, key) == Ok::<Option<Seq<u8>>, TableError>(
            if entry::overlay(table_layers(tables)).contains_key(key) {
                entry::overlay(table_layers(tables))[key]
            } else {
                None
            },
        ),
    decreases tables.len(),
{
    if tables.len() > 0 {
        let init = tables.drop_last();
        assert forall|i: int| 0 <= i < init.len() implies (#[trigger] init[i]).valid() by {
            assert(tables[i].valid());
        }
        assert(tables[tables.len() - 1].valid());
        sstable::lemma_lookup(tables.last(), key);
        lemma_lookup_in(init, key);
        assert(table_layers(tables).drop_last() =~= table_layers(init));
        assert(table_layers(tables).last() == tables.last().layer());
    }
}

/// A lookup finds exactly what the store holds.
pub proof fn lemma_lookup_finds_contents(s: TreeView, key: Seq<u8>)
    requires
        all_valid(s.tables),
    ensures
        s.lookup(key) == Ok::<Option<Seq<u8>>, TableError>(
            if s.contents().contains_key(key) {
                Some(s.contents()[key])
            } else {
                None
            },
        ),
{
    lemma_lookup_in(s.tables, key);
    entry::lemma_overlay_push(table_layers(s.tables), s.memtable);
}

/// The answer that a lookup comes to when every part that it asks for is read.
pub open spec fn answer(tables: Seq<TableView>, key: Seq<u8>, f: FindView) -> Result<
    Option<Seq<u8>>,
    TableError,
>
    decreases (match f {
        FindView::Known(_) => 0,
        FindView::Read(i, _, _) => i + 1,
    }),
{
    match f {
        FindView::Known(v) => Ok(v),
        FindView::Read(i, start, end) => if i < 0 {
            Ok(None)
        } else {
            proof {
                lemma_find_below(handles(tables), key, i);
            }
            match find_with(
                handles(tables),
                key,
                i,
                tables[i].data().subrange(start, end),
            ) {
                Err(e) => Err(e),
                Ok(g) => answer(tables, key, g),
            }
        },
    }
}

/// A lookup asks for a part of one of the first tables, and of one whose filter
/// does not rule the key out.
pub proof fn lemma_find_below(tables: Seq<HandleView>, key: Seq<u8>, n: int)
    ensures
        find_below(tables, key, n) matches FindView::Read(i, start, end) ==> {
            &&& 0 <= i < n
            &&& tables[i].filter.might_contain(key)
            &&& tables[i].located(key) == Some((start, end))
        },
        find_below(tables, key, n) matches FindView::Known(v) ==> v is None,
    decreases n,
{
    if n > 0 {
        lemma_find_below(tables, key, n - 1);
    }
}

/// Reading the parts that are asked for comes to what the tables say.
proof fn lemma_answer_below(tables: Seq<TableView>, key: Seq<u8>, n: int)
    requires
        0 <= n <= tables.len(),
    ensures
        answer(tables, key, find_below(handles(tables), key, n)) == lookup_in(
            tables.take(n),
            key,
        ),
    decreases n,
{
    reveal_with_fuel(answer, 2);
    if n > 0 {
        let part = tables.take(n);
        assert(part.drop_last() =~= tables.take(n - 1));
        assert(part.last() == tables[n - 1]);
        assert(handles(tables)[n - 1] == tables[n - 1].handle());
        lemma_answer_below(tables, key, n - 1);
    }
}

/// A lookup that reads every part that it asks for comes to the right answer:
/// that of all layers, and where the tables are intact what the store holds.
pub proof fn lemma_answer(s: TreeView, key: Seq<u8>)
    ensures
        answer(s.tables, key, s.find(key)) == s.lookup(key),
        all_valid(s.tables) ==> answer(s.tables, key, s.find(key)) == Ok::<
            Option<Seq<u8>>,
            TableError,
        >(
            if s.contents().contains_key(key) {
                Some(s.contents()[key])
            } else {
                None
            },
        ),
{
    if all_valid(s.tables) {
        lemma_lookup_finds_contents(s, key);
    }
    lemma_answer_below(s.tables, key, s.tables.len() as int);
    assert(s.tables.take(s.tables.len() as int) =~= s.tables);
}

/// A new table for sorted entries can be found again, holds them, and is newer
/// than all others.
proof fn lemma_new_table(s: TreeView, es: Seq<Entry>, t: TableView)
    requires
        s.sound(),
        s.phase is Idle,
        entry::sorted(es),
        s.new_table(es) == Ok::<TableView, LsmError>(t),
        t.image.len() <= usize::MAX,
    ensures
        stored(t),
        t.layer() == entry::layer(es),
        ids_below(s.tables, t.id),
        id_after(t.id) matches Some(id) ==> ids_below(s.tables, id) && t.id < id,
{
    let interval = s.opts.sparse_index_interval as int;
    let bits = s.opts.bloom_bits_per_key as int;
    let on = s.opts.bloom_enabled;
    sstable::lemma_built_holds(t.file_name, t.id, es, interval, bits, on);
    sstable::lemma_open_of_built(t.file_name, t.id, es, interval, bits, on);
    names::lemma_file_name_is_read_back(t.id);
}

/// Beginning to flush changes nothing of what the store holds.
proof fn lemma_start_flush(s: TreeView, automatic: bool)
    requires
        s.sound(),
        s.phase is Idle,
        s.start_flush(automatic).0.wf(),
    ensures
        s.start_flush(automatic).0.sound(),
        s.start_flush(automatic).0.contents() == s.contents(),
{
    let es = entry::sorted_entries(s.memtable);
    if s.memtable != Map::<Seq<u8>, Option<Seq<u8>>>::empty() {
        if let Ok(t) = s.new_table(es) {
            lemma_new_table(s, es, t);
        }
    }
}

/// The layers of the tables, taken from the newest on, are the same layers.
pub proof fn lemma_layers_of_tables(tables: Seq<TableView>)
    ensures
        compaction::layers_of(
            compaction::streams_in(tables.reverse().map_values(|t: TableView| t.data())),
        ) == table_layers(tables),
{
    let streams = compaction::streams_in(
        tables.reverse().map_values(|t: TableView| t.data()),
    );
    assert(compaction::layers_of(streams) =~= table_layers(tables));
}

/// Beginning to write the merge of the tables changes nothing of what the store
/// holds.
proof fn lemma_start_replacing(s: TreeView)
    requires
        s.sound(),
        s.phase is Idle,
        s.tables.len() > 0,
        s.start_replacing().0.wf(),
    ensures
        s.start_replacing().0.sound(),
        s.start_replacing().0.contents() == s.contents(),
{
    let es = s.merge_of_tables();
    let streams = compaction::streams_in(s.datas());
    if compaction::all_readable(s.datas()) {
        if let Ok(t) = s.new_table(es) {
            assert forall|j: int| 0 <= j < streams.len() implies entry::sorted(
                #[trigger] streams[j],
            ) by {
                assert(stored(s.tables[s.tables.len() - 1 - j]));
            }
            compaction::lemma_merge_keeps_what_is_live(streams);
            lemma_layers_of_tables(s.tables);
            lemma_new_table(s, es, t);
            let older = table_layers(s.tables);
            let l = t.layer();
            assert forall|k: Seq<u8>|
                #![trigger entry::overlay(older).contains_key(k)]
                entry::overlay(older).contains_key(k) && !l.contains_key(k) implies entry::overlay(
                older,
            )[k] is None by {
                if entry::overlay(older)[k] is Some {
                    assert(entry::live(entry::overlay(older)).contains_key(k));
                    assert(entry::live(l).contains_key(k));
                }
            }
            assert(entry::covers(l, older));
        }
    }
}

/// Applying a write to the memtable carries it out.
proof fn lemma_apply(s: TreeView, r: RecordView)
    requires
        s.sound(),
        s.phase is Idle,
        block::fits(record_entry(r)),
    ensures
        ({
            let after = TreeView { memtable: r.applied_to(s.memtable), ..s };
            after.sound() && after.contents() == r.carried_out_on(s.contents())
        }),
{
    let e = record_entry(r);
    let l = s.memtable.insert(e.key, e.value);
    assert(r.applied_to(s.memtable) == l);
    let after = TreeView { memtable: l, ..s };
    entry::lemma_run_insert(s.memtable, e);
    let es = entry::sorted_entries(s.memtable);
    let n = entry::sorted_entries(l);
    assert forall|i: int| 0 <= i < n.len() implies block::fits(#[trigger] n[i]) by {
        if n[i] != e {
            let j = choose|j: int| 0 <= j < es.len() && es[j] == n[i];
            assert(block::fits(es[j]));
        }
    }
    let older = table_layers(s.tables);
    entry::lemma_overlay_push(older, s.memtable);
    entry::lemma_overlay_push(older, l);
    assert(entry::overlay(after.layers()) =~= entry::overlay(s.layers()).insert(e.key, e.value));
    match r {
        RecordView::Put(k, v) => {
            entry::lemma_live_insert_value(entry::overlay(s.layers()), k, v);
        },
        RecordView::Delete(k) => {
            entry::lemma_live_insert_tombstone(entry::overlay(s.layers()), k);
        },
    }
}

/// Emptying the memtable after it has been written out changes nothing of what
/// the store holds.
proof fn lemma_forget_flushed(s: TreeView)
    requires
        s.sound(),
        s.phase is Truncating,
    ensures
        ({
            let after = TreeView { memtable: Map::empty(), phase: PhaseView::Idle, ..s };
            after.sound() && after.contents() == s.contents()
        }),
{
    let after = TreeView { memtable: Map::empty(), phase: PhaseView::Idle, ..s };
    entry::lemma_run_empty();
    let layers = table_layers(s.tables);
    let init = layers.drop_last();
    assert(layers =~= init.push(s.memtable));
    entry::lemma_overlay_push(init, s.memtable);
    entry::lemma_overlay_push(layers, s.memtable);
    entry::lemma_overlay_push(layers, Map::empty());
    assert(entry::overlay(after.layers()) =~= entry::overlay(s.layers()));
}

/// A table that was written out is the newest one.
proof fn lemma_table_pushed(s: TreeView, t: TableView)
    requires
        all_stored(s.tables),
        ids_ascend(s.tables),
        s.next_id matches Some(id) ==> ids_below(s.tables, id),
        stored(t),
        s.is_newest(t),
    ensures
        all_stored(s.tables.push(t)),
        ids_ascend(s.tables.push(t)),
        s.next_id matches Some(id) ==> ids_below(s.tables.push(t), id),
        table_layers(s.tables.push(t)) == table_layers(s.tables).push(t.layer()),
{
    let ts = s.tables.push(t);
    assert forall|i: int| 0 <= i < ts.len() implies stored(#[trigger] ts[i]) by {
        if i < s.tables.len() {
            assert(stored(s.tables[i]));
        }
    }
    assert forall|i: int, j: int| 0 <= i < j < ts.len() implies (#[trigger] ts[i]).id < (
    #[trigger] ts[j]).id by {
        if j < s.tables.len() {
            assert(s.tables[i].id < s.tables[j].id);
        } else {
            assert(s.tables[i].id < t.id);
        }
    }
    if let Some(id) = s.next_id {
        assert forall|i: int| 0 <= i < ts.len() implies (#[trigger] ts[i]).id < id by {
            if i < s.tables.len() {
                assert(s.tables[i].id < id);
            }
        }
    }
    assert(table_layers(ts) =~= table_layers(s.tables).push(t.layer()));
}

/// Adding the table that the memtable was written out as changes nothing of what
/// the store holds.
proof fn lemma_add_flushed(s: TreeView)
    requires
        s.sound(),
        s.phase is Flushing,
    ensures
        s.settled().sound(),
        s.settled().contents() == s.contents(),
{
    if let PhaseView::Flushing(t, automatic) = s.phase {
        let after = s.settled();
        lemma_table_pushed(s, t);
        assert forall|i: int| 0 <= i < after.tables.len() implies (#[trigger] after.tables[i]).wf() by {
            assert(stored(after.tables[i]));
        }
        let layers = table_layers(s.tables);
        entry::lemma_overlay_push(layers, s.memtable);
        entry::lemma_overlay_push(layers.push(s.memtable), s.memtable);
        assert(entry::overlay(after.layers()) =~= entry::overlay(s.layers()));
    }
}

/// Putting the merged table in the place of all others changes nothing of what
/// the store holds.
proof fn lemma_replace_merged(s: TreeView)
    requires
        s.sound(),
        s.phase is Compacting,
    ensures
        s.settled().sound(),
        s.settled().contents() == s.contents(),
{
    if let PhaseView::Compacting(t) = s.phase {
        let after = s.settled();
        lemma_table_pushed(s, t);
        assert(after.stored_tables() =~= s.tables.push(t));
        assert(table_layers(after.tables) =~= seq![t.layer()]);
        entry::lemma_overlay_push(Seq::empty(), t.layer());
        assert(Seq::<Layer>::empty().push(t.layer()) =~= seq![t.layer()]);
        assert(entry::overlay(seq![t.layer()]) =~= t.layer());
        entry::lemma_live_overlay_push(
            table_layers(after.tables),
            table_layers(s.tables),
            s.memtable,
        );
    }
}

/// Removing a replaced table.
proof fn lemma_remove_replaced(s: TreeView)
    requires
        s.sound(),
        s.phase is Cleaning,
    ensures
        s.settled().sound(),
        s.settled().contents() == s.contents(),
{
    if let PhaseView::Cleaning(old) = s.phase {
        let after = s.settled();
        let before = old + s.tables;
        let rest = after.stored_tables();
        assert(rest =~= before.drop_first());
        assert forall|i: int| 0 <= i < rest.len() implies stored(#[trigger] rest[i]) by {
            assert(stored(before[i + 1]));
        }
        assert forall|i: int, j: int| 0 <= i < j < rest.len() implies (#[trigger] rest[i]).id < (
        #[trigger] rest[j]).id by {
            assert(before[i + 1].id < before[j + 1].id);
        }
        if let Some(id) = s.next_id {
            assert forall|i: int| 0 <= i < rest.len() implies (#[trigger] rest[i]).id < id by {
                assert(before[i + 1].id < id);
            }
        }
        entry::lemma_covers_without_oldest(s.tables[0].layer(), table_layers(old));
        assert(table_layers(old.drop_first()) =~= table_layers(old).drop_first());
    }
}

/// Every action that is carried out keeps the store sound. A write is carried
/// out when it has been appended to the log; no other action changes anything of
/// what the store holds.
pub proof fn lemma_settled(s: TreeView)
    requires
        s.sound(),
    ensures
        s.settled().sound(),
        s.settled().contents() == (match s.phase {
            PhaseView::Logging(r) => r.carried_out_on(s.contents()),
            _ => s.contents(),
        }),
{
    match s.phase {
        PhaseView::Idle => {},
        PhaseView::Trimming(_) => {},
        PhaseView::Logging(r) => {
            let idle = TreeView { phase: PhaseView::Idle, ..s };
            assert(idle.layers() == s.layers());
            lemma_apply(idle, r);
        },
        PhaseView::Flushing(t, automatic) => {
            lemma_add_flushed(s);
        },
        PhaseView::Truncating(automatic) => {
            lemma_forget_flushed(s);
        },
        PhaseView::Merging => {},
        PhaseView::Compacting(t) => {
            lemma_replace_merged(s);
        },
        PhaseView::Cleaning(old) => {
            lemma_remove_replaced(s);
        },
    }
}

/// What follows an action keeps the store sound, and changes nothing more of
/// what it holds.
pub proof fn lemma_completed(s: TreeView)
    requires
        s.sound(),
        s.completed().0.wf(),
    ensures
        s.completed().0.sound(),
        s.completed().0.contents() == s.settled().contents(),
{
    let settled = s.settled();
    lemma_settled(s);
    if s.phase is Logging && settled.memtable_bytes() >= settled.opts.memtable_max_bytes {
        lemma_start_flush(settled, true);
    } else if s.phase is Merging {
        lemma_start_replacing(settled);
    }
    assert(s.completed().0.phase is Merging ==> s.completed().0.layers() == settled.layers());
}

/// Beginning a write changes nothing of what the store holds yet.
pub proof fn lemma_write_begun(s: TreeView, r: RecordView)
    requires
        s.sound(),
    ensures
        s.write(r).0.sound(),
        s.write(r).0.contents() == s.contents(),
{
    assert(s.write(r).0.layers() == s.layers());
}

/// Beginning a flush changes nothing of what the store holds.
pub proof fn lemma_flush_begun(s: TreeView)
    requires
        s.sound(),
        s.flush().0.wf(),
    ensures
        s.flush().0.sound(),
        s.flush().0.contents() == s.contents(),
{
    if s.phase is Idle {
        lemma_start_flush(s, false);
    }
}

/// Beginning a compaction changes nothing of what the store holds.
pub proof fn lemma_compaction_begun(s: TreeView)
    requires
        s.sound(),
    ensures
        s.compact().0.sound(),
        s.compact().0.contents() == s.contents(),
{
    assert(s.compact().0.layers() == s.layers());
}

/// A flush can begin whenever there is anything to write out, an id is left and
/// the filter is not too large.
pub proof fn lemma_flush_can_begin(s: TreeView)
    requires
        s.sound(),
        s.phase is Idle,
        s.memtable != Map::<Seq<u8>, Option<Seq<u8>>>::empty(),
        s.next_id is Some,
        s.opts.bloom_enabled ==> sstable::filter_fits(
            entry::sorted_entries(s.memtable).len() as int,
            s.opts.bloom_bits_per_key as int,
        ),
    ensures
        s.flush().1 is None,
        s.flush().0.phase is Flushing,
{
}

/// A compaction can be carried through whenever an id is left and the filter is
/// not too large: the merge of intact tables can always be stored.
pub proof fn lemma_merge_can_be_stored(s: TreeView)
    requires
        s.sound(),
        s.phase is Merging,
        s.next_id is Some,
        s.opts.bloom_enabled ==> sstable::filter_fits(
            s.merge_of_tables().len() as int,
            s.opts.bloom_bits_per_key as int,
        ),
    ensures
        s.completed().1 is None,
        s.completed().0.phase is Compacting,
{
    let datas = s.datas();
    let streams = compaction::streams_in(datas);
    assert forall|j: int| 0 <= j < datas.len() implies block::block_entries(
        #[trigger] datas[j],
    ) is Some by {
        assert(stored(s.tables[s.tables.len() - 1 - j]));
    }
    assert forall|j: int| 0 <= j < streams.len() implies entry::sorted(#[trigger] streams[j])
        && block::all_fit(streams[j]) by {
        assert(stored(s.tables[s.tables.len() - 1 - j]));
    }
    compaction::lemma_merge_keeps_what_is_live(streams);
    compaction::lemma_merged_entries_fit(streams, None);
    assert(s.settled().datas() == datas);
}

/// A compaction leaves no trace of a deleted key: the merged table has only
/// values, and only of keys that the tables still showed.
pub proof fn lemma_compaction_leaves_no_trace(s: TreeView, t: TableView)
    requires
        s.sound(),
        s.phase is Merging,
        s.completed().0.phase == PhaseView::Compacting(t),
        t.image.len() <= usize::MAX,
    ensures
        forall|i: int| 0 <= i < t.entries().len() ==> (#[trigger] t.entries()[i]).value is Some,
        forall|k: Seq<u8>| #[trigger]
            t.layer().contains_key(k) <==> entry::live(
                entry::overlay(table_layers(s.tables)),
            ).contains_key(k),
{
    let idle = s.settled();
    let es = idle.merge_of_tables();
    let streams = compaction::streams_in(idle.datas());
    assert forall|j: int| 0 <= j < streams.len() implies entry::sorted(#[trigger] streams[j]) by {
        assert(stored(s.tables[s.tables.len() - 1 - j]));
    }
    compaction::lemma_merge_keeps_what_is_live(streams);
    lemma_layers_of_tables(s.tables);
    lemma_settled(s);
    lemma_new_table(idle, es, t);
    sstable::lemma_built_holds(
        t.file_name,
        t.id,
        es,
        s.opts.sparse_index_interval as int,
        s.opts.bloom_bits_per_key as int,
        s.opts.bloom_enabled,
    );
    let shown = entry::live(entry::overlay(table_layers(s.tables)));
    assert forall|k: Seq<u8>| #[trigger] t.layer().contains_key(k) <==> shown.contains_key(k) by {
        if shown.contains_key(k) {
            assert(entry::live(t.layer()).contains_key(k));
        }
    }
}

/// Every operation ends: each action that is carried out brings the store
/// nearer to being idle.
pub proof fn lemma_every_operation_ends(s: TreeView)
    requires
        s.wf(),
        !(s.phase is Idle),
    ensures
        s.completed().0.steps_left() < s.steps_left(),
{
}

/// A written value is read back, a deleted key is not found any more, and what is
/// found for other keys stays as it was. This holds as soon as the write has been
/// appended to the log, whichever layers there are.
pub proof fn lemma_read_after_write(s: TreeView, r: RecordView, key: Seq<u8>)
    requires
        s.sound(),
        s.write(r).1 is None,
    ensures
        s.write(r).0.settled().lookup(key) == (match r {
            RecordView::Put(k, v) if k == key => Ok::<Option<Seq<u8>>, TableError>(Some(v)),
            RecordView::Delete(k) if k == key => Ok(None),
            _ => s.lookup(key),
        }),
{
    let after = s.write(r).0.settled();
    lemma_write_begun(s, r);
    lemma_settled(s.write(r).0);
    assert forall|i: int| 0 <= i < s.tables.len() implies (#[trigger] s.tables[i]).valid() by {
        assert(stored(s.tables[i]));
    }
    lemma_lookup_finds_contents(s, key);
    lemma_lookup_finds_contents(after, key);
}

/// What a caller can ask of the store, other than a lookup.
pub enum Operation {
    Write(RecordView),
    Flush,
    Compact,
}

impl TreeView {
    /// Beginning an operation.
    pub open spec fn begun(self, op: Operation) -> (TreeView, Option<LsmError>) {
        match op {
            Operation::Write(r) => self.write(r),
            Operation::Flush => self.flush(),
            Operation::Compact => self.compact(),
        }
    }

    /// Carrying out one action after the other, until there is none left.
    pub open spec fn carried_through(self) -> TreeView
        decreases self.steps_left(),
    {
        if self.phase is Idle || !self.wf() {
            self
        } else {
            self.completed().0.carried_through()
        }
    }

    /// The first error on the way, if there is one.
    pub open spec fn failure_on_the_way(self) -> Option<LsmError>
        decreases self.steps_left(),
    {
        if self.phase is Idle || !self.wf() {
            None
        } else if self.completed().1 is Some {
            self.completed().1
        } else {
            self.completed().0.failure_on_the_way()
        }
    }

    /// The state after some operations, one after the other.
    pub open spec fn after_all(self, ops: Seq<Operation>) -> TreeView
        decreases ops.len(),
    {
        if ops.len() == 0 {
            self
        } else {
            self.after_all(ops.drop_last()).begun(ops.last()).0.carried_through()
        }
    }

    /// What a plain map holds after the writes among these operations that the
    /// store accepts.
    pub open spec fn expected_after(self, ops: Seq<Operation>) -> Map<Seq<u8>, Seq<u8>>
        decreases ops.len(),
    {
        if ops.len() == 0 {
            self.contents()
        } else {
            let before = self.expected_after(ops.drop_last());
            match ops.last() {
                Operation::Write(r) if self.after_all(ops.drop_last()).write(r).1 is None => {
                    r.carried_out_on(before)
                },
                _ => before,
            }
        }
    }
}

/// Carrying an operation through leaves an idle store.
proof fn lemma_carried_through(s: TreeView)
    requires
        s.wf() ==> s.sound(),
        s.carried_through().wf(),
    ensures
        s.carried_through().sound(),
        s.carried_through().phase is Idle,
        s.carried_through().contents() == (match s.phase {
            PhaseView::Logging(r) => r.carried_out_on(s.contents()),
            _ => s.contents(),
        }),
    decreases s.steps_left(),
{
    if !(s.phase is Idle) && s.wf() {
        lemma_every_operation_ends(s);
        let next = s.completed().0;
        lemma_settled(s);
        if next.wf() {
            lemma_completed(s);
        }
        lemma_carried_through(next);
    }
}

/// However writes, flushes and compactions follow each other, the store holds
/// what a plain map holds that has taken the same writes.
pub proof fn lemma_store_is_a_map(s: TreeView, ops: Seq<Operation>)
    requires
        s.sound(),
        s.phase is Idle,
        s.after_all(ops).wf(),
    ensures
        s.after_all(ops).sound(),
        s.after_all(ops).phase is Idle,
        s.after_all(ops).contents() == s.expected_after(ops),
    decreases ops.len(),
{
    if ops.len() > 0 {
        let init = ops.drop_last();
        let before = s.after_all(init);
        let op = ops.last();
        let begun = before.begun(op).0;
        if before.wf() {
            lemma_store_is_a_map(s, init);
            match op {
                Operation::Write(r) => {
                    lemma_write_begun(before, r);
                },
                Operation::Flush => {
                    if begun.wf() {
                        lemma_flush_begun(before);
                    }
                },
                Operation::Compact => {
                    if begun.wf() {
                        lemma_compaction_begun(before);
                    }
                },
            }
            lemma_carried_through(begun);
        }
    }
}

} // verus!
