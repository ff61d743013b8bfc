//! What a crash leaves behind, and what opening the data directory again makes
//! of it.
//!
//! An action may be cut short at any point. A table is written under another
//! name and renamed, so that it is there as a whole or not at all; the same
//! holds of a removal and of cutting the log off. Of an append, any part of the
//! bytes may have reached the disk. An action that has been reported as carried
//! out has reached it as a whole, which for the log is a matter of syncing it
//! after every append. Whatever is left, the store is opened again
//! with every write that had been confirmed, and with nothing else than these
//! and the write that was being appended.

use crate::block;
use crate::block::TableError;
use crate::entry;
use crate::entry::Layer;
use crate::lsm::LsmOptions;
use crate::names;
use crate::names::FileKind;
use crate::sstable::TableView;
use crate::state;
use crate::state::{ActionView, Operation, PhaseView, TreeView};
use crate::wal;
use crate::wal::RecordView;
use vstd::prelude::*;

verus! {

/// A data directory: its files other than the log by name, and the log.
#[verifier::ext_equal]
pub struct Disk {
    pub files: Map<Seq<char>, Seq<u8>>,
    pub log: Seq<u8>,
}

/// All writes can be stored in a table.
pub open spec fn all_storable(records: Seq<RecordView>) -> bool {
    forall|i: int|
        0 <= i < records.len() ==> block::fits(state::record_entry(#[trigger] records[i]))
}

impl Disk {
    /// The directory after an action has been carried out.
    pub open spec fn after(self, action: ActionView) -> Disk {
        match action {
            ActionView::Done => self,
            ActionView::AppendWal(b) => Disk { log: self.log + b, ..self },
            ActionView::TruncateWal(n) => Disk { log: self.log.take(n), ..self },
            ActionView::ReadTables => self,
            ActionView::WriteTable(name, image) => Disk {
                files: self.files.insert(name, image),
                ..self
            },
            ActionView::RemoveTable(name) => Disk { files: self.files.remove(name), ..self },
        }
    }

    /// The directories have the same log and the same table files.
    pub open spec fn same_store(self, other: Disk) -> bool {
        &&& self.log == other.log
        &&& forall|name: Seq<char>| (#[trigger] names::kind_of(name)) is Table ==> {
            &&& self.files.contains_key(name) <==> other.files.contains_key(name)
            &&& self.files.contains_key(name) ==> self.files[name] == other.files[name]
        }
    }

    /// `left` is a state that a crash can leave while the action is being carried
    /// out: what was there before, what is there after it, or a part of the bytes
    /// that are appended. Other files than tables can be left, too.
    pub open spec fn may_leave(self, action: ActionView, left: Disk) -> bool {
        ||| self.same_store(left)
        ||| self.after(action).same_store(left)
        ||| (action matches ActionView::AppendWal(b) && exists|n: int|
            0 <= n <= b.len() && self.after(
                ActionView::AppendWal(#[trigger] b.take(n)),
            ).same_store(left))
    }

    /// `names` lists the files, each once, in some order.
    pub open spec fn listed_as(self, names: Seq<Seq<char>>) -> bool {
        &&& names.no_duplicates()
        &&& forall|name: Seq<char>| #[trigger]
            names.contains(name) <==> self.files.contains_key(name)
    }

    /// The table files, in the order in which the store opens them.
    pub open spec fn table_files(self, names: Seq<Seq<char>>) -> Seq<(u64, Seq<char>, Seq<u8>)> {
        names::tables_found(names).map_values(
            |x: (u64, Seq<char>)| (x.0, x.1, self.files[x.1]),
        )
    }

    /// The store that is opened on the directory.
    pub open spec fn opened(self, names: Seq<Seq<char>>, opts: LsmOptions) -> Result<
        TreeView,
        TableError,
    > {
        TreeView::opened(self.table_files(names), self.log, opts)
    }

    /// The table files are those of these tables.
    pub open spec fn has_tables(self, tables: Seq<TableView>) -> bool {
        &&& forall|i: int|
            0 <= i < tables.len() ==> {
                &&& self.files.contains_key((#[trigger] tables[i]).file_name)
                &&& self.files[tables[i].file_name] == tables[i].image
            }
        &&& forall|name: Seq<char>|
            self.files.contains_key(name) && (#[trigger] names::kind_of(name)) is Table
                ==> exists|i: int| 0 <= i < tables.len() && (#[trigger] tables[i]).file_name == name
    }

    /// The log holds the writes that are in the memtable. It has no torn record
    /// at its end, or one that is about to be cut off.
    pub open spec fn has_log_of(self, s: TreeView) -> bool {
        let (records, n) = wal::replayed(self.log);
        &&& all_storable(records)
        &&& wal::layer_of(records) == s.memtable
        &&& match s.phase {
            PhaseView::Trimming(m) => m == n,
            _ => n == self.log.len(),
        }
    }

    /// The directory is as the store left it.
    pub open spec fn belongs_to(self, s: TreeView) -> bool {
        &&& self.has_tables(s.stored_tables())
        &&& self.has_log_of(s)
    }
}

/// A log with one record more.
proof fn lemma_replay_of_appended(log: Seq<u8>, r: RecordView)
    requires
        wal::replayed(log).1 == log.len(),
        r.fits(),
    ensures
        wal::replayed(log + r.encoded()) == (
            wal::replayed(log).0.push(r),
            (log + r.encoded()).len() as int,
        ),
{
    let records = wal::replayed(log).0;
    wal::lemma_replayed_is_log(log);
    assert(log.take(log.len() as int) =~= log);
    let all = records.push(r);
    assert(all.drop_last() =~= records);
    assert forall|i: int| 0 <= i < all.len() implies (#[trigger] all[i]).fits() by {
        if i < records.len() {
            assert(records[i].fits());
        }
    }
    wal::lemma_replay_of_complete_log(all);
}

/// A log with a torn record at its end.
proof fn lemma_replay_of_torn(log: Seq<u8>, r: RecordView, n: int)
    requires
        wal::replayed(log).1 == log.len(),
        r.fits(),
        0 <= n < r.encoded().len(),
    ensures
        wal::replayed(log + r.encoded().take(n)) == wal::replayed(log),
{
    let records = wal::replayed(log).0;
    wal::lemma_replayed_is_log(log);
    assert(log.take(log.len() as int) =~= log);
    wal::lemma_replay_of_torn_log(records, r, n);
}

/// A log that is cut off behind its last complete record.
proof fn lemma_replay_of_trimmed(log: Seq<u8>)
    ensures
        wal::replayed(log.take(wal::replayed(log).1)) == wal::replayed(log),
{
    let (records, n) = wal::replayed(log);
    wal::lemma_replayed_is_log(log);
    wal::lemma_replay_of_complete_log(records);
    assert(log.take(n).len() == n);
}

/// The writes of a log make up a memtable whose entries can be stored.
proof fn lemma_layer_of_log(records: Seq<RecordView>)
    requires
        all_storable(records),
    ensures
        entry::is_run(wal::layer_of(records)),
        block::all_fit(entry::sorted_entries(wal::layer_of(records))),
    decreases records.len(),
{
    if records.len() == 0 {
        entry::lemma_run_empty();
    } else {
        let init = records.drop_last();
        let r = records.last();
        let e = state::record_entry(r);
        assert forall|i: int| 0 <= i < init.len() implies block::fits(
            state::record_entry(#[trigger] init[i]),
        ) by {
            assert(block::fits(state::record_entry(records[i])));
        }
        assert(block::fits(state::record_entry(records[records.len() - 1])));
        lemma_layer_of_log(init);
        let l = wal::layer_of(init);
        entry::lemma_run_insert(l, e);
        let es = entry::sorted_entries(l);
        let n = entry::sorted_entries(l.insert(e.key, e.value));
        assert forall|i: int| 0 <= i < n.len() implies block::fits(#[trigger] n[i]) by {
            if n[i] != e {
                let j = choose|j: int| 0 <= j < es.len() && es[j] == n[i];
                assert(block::fits(es[j]));
            }
        }
    }
}

/// Opening the files of tables gives these tables.
proof fn lemma_opened_tables(
    files: Seq<(u64, Seq<char>, Seq<u8>)>,
    tables: Seq<TableView>,
)
    requires
        files.len() == tables.len(),
        state::all_stored(tables),
        forall|i: int|
            0 <= i < files.len() ==> #[trigger] files[i] == (
                tables[i].id,
                tables[i].file_name,
                tables[i].image,
            ),
    ensures
        state::opened_tables(files) == Ok::<Seq<TableView>, TableError>(tables),
    decreases files.len(),
{
    if files.len() == 0 {
        assert(tables =~= Seq::empty());
    } else {
        let l = files.len() - 1;
        let init = tables.drop_last();
        let front = files.drop_last();
        assert forall|i: int| 0 <= i < init.len() implies state::stored(#[trigger] init[i]) by {
            assert(state::stored(tables[i]));
        }
        assert forall|i: int| 0 <= i < front.len() implies #[trigger] front[i] == (
            init[i].id,
            init[i].file_name,
            init[i].image,
        ) by {
            assert(files[i] == (tables[i].id, tables[i].file_name, tables[i].image));
        }
        lemma_opened_tables(front, init);
        assert(state::stored(tables[l]));
        assert(files[l] == (tables[l].id, tables[l].file_name, tables[l].image));
        assert(tables =~= init.push(tables[l]));
    }
}

/// The next id is greater than all.
proof fn lemma_id_after_all(tables: Seq<TableView>)
    ensures
        state::id_after_all(tables) matches Some(id) ==> state::ids_below(tables, id),
    decreases tables.len(),
{
    if tables.len() > 0 {
        let init = tables.drop_last();
        lemma_id_after_all(init);
        if let Some(id) = state::id_after_all(tables) {
            assert forall|i: int| 0 <= i < tables.len() implies (#[trigger] tables[i]).id < id by {
                if i < init.len() {
                    assert(init[i].id < state::id_after_all(init).unwrap());
                }
            }
        }
    }
}

/// Which tables are found in a directory.
proof fn lemma_tables_are_found(disk: Disk, names: Seq<Seq<char>>, tables: Seq<TableView>)
    requires
        disk.listed_as(names),
        disk.has_tables(tables),
        state::all_stored(tables),
        state::ids_ascend(tables),
    ensures
        state::opened_tables(disk.table_files(names)) == Ok::<Seq<TableView>, TableError>(tables),
{
    let pairs = tables.map_values(|t: TableView| (t.id, t.file_name));
    assert forall|i: int, j: int| 0 <= i < j < pairs.len() implies (#[trigger] pairs[i]).0 < (
    #[trigger] pairs[j]).0 by {
        assert(tables[i].id < tables[j].id);
    }
    assert forall|x: (u64, Seq<char>)| #[trigger]
        pairs.contains(x) <==> names.contains(x.1) && names::kind_of(x.1) == FileKind::Table(
            x.0,
        ) by {
        if pairs.contains(x) {
            let i = choose|i: int| 0 <= i < pairs.len() && pairs[i] == x;
            assert(state::stored(tables[i]));
            assert(disk.files.contains_key(tables[i].file_name));
            assert(names.contains(x.1));
        }
        if names.contains(x.1) && names::kind_of(x.1) == FileKind::Table(x.0) {
            assert(disk.files.contains_key(x.1));
            let i = choose|i: int|
                0 <= i < tables.len() && (#[trigger] tables[i]).file_name == x.1;
            assert(state::stored(tables[i]));
            assert(pairs[i] == x);
        }
    }
    names::lemma_tables_found_are(names, pairs);
    let files = disk.table_files(names);
    assert forall|i: int| 0 <= i < files.len() implies #[trigger] files[i] == (
        tables[i].id,
        tables[i].file_name,
        tables[i].image,
    ) by {
        assert(pairs[i] == (tables[i].id, tables[i].file_name));
        assert(disk.files.contains_key(tables[i].file_name));
    }
    lemma_opened_tables(files, tables);
}

/// A directory with the same store belongs to the same state.
proof fn lemma_same_store(a: Disk, b: Disk, s: TreeView)
    requires
        a.same_store(b),
        a.belongs_to(s),
        state::all_stored(s.stored_tables()),
    ensures
        b.belongs_to(s),
{
    let tables = s.stored_tables();
    assert forall|i: int| 0 <= i < tables.len() implies b.files.contains_key(
        (#[trigger] tables[i]).file_name,
    ) && b.files[tables[i].file_name] == tables[i].image by {
        assert(state::stored(tables[i]));
        assert(a.files.contains_key(tables[i].file_name));
        assert(names::kind_of(tables[i].file_name) is Table);
    }
    assert forall|name: Seq<char>|
        b.files.contains_key(name) && (#[trigger] names::kind_of(name)) is Table implies exists|
        i: int,
    | 0 <= i < tables.len() && (#[trigger] tables[i]).file_name == name by {
        assert(a.files.contains_key(name));
    }
}

/// Opening a directory gives its tables and the memtable of its log.
proof fn lemma_opened(disk: Disk, names: Seq<Seq<char>>, opts: LsmOptions, s: TreeView)
    requires
        disk.listed_as(names),
        disk.belongs_to(s),
        s.sound(),
    ensures
        disk.opened(names, opts) matches Ok(t) && {
            &&& t.sound()
            &&& t.tables == s.stored_tables()
            &&& t.memtable == s.memtable
            &&& disk.belongs_to(t)
        },
{
    let tables = s.stored_tables();
    let (records, n) = wal::replayed(disk.log);
    lemma_tables_are_found(disk, names, tables);
    lemma_layer_of_log(records);
    lemma_id_after_all(tables);
    wal::lemma_replayed_is_log(disk.log);
    assert forall|i: int| 0 <= i < tables.len() implies (#[trigger] tables[i]).wf() by {
        assert(state::stored(tables[i]));
    }
}

/// Opening the directory of a store again gives a store that holds the same, and
/// that has the same memtable.
pub proof fn lemma_reopened(disk: Disk, names: Seq<Seq<char>>, opts: LsmOptions, s: TreeView)
    requires
        disk.listed_as(names),
        disk.belongs_to(s),
        s.sound(),
    ensures
        disk.opened(names, opts) matches Ok(t) && {
            &&& t.sound()
            &&& t.contents() == s.contents()
            &&& t.memtable == s.memtable
            &&& disk.belongs_to(t)
        },
{
    lemma_opened(disk, names, opts, s);
    let t = disk.opened(names, opts)->Ok_0;
    if let PhaseView::Cleaning(old) = s.phase {
        let l = s.tables[0].layer();
        let older = state::table_layers(old);
        assert(state::table_layers(t.tables) =~= older.push(l));
        entry::lemma_covers(l, older);
        assert(state::table_layers(s.tables) =~= Seq::<Layer>::empty().push(l));
        entry::lemma_overlay_push(Seq::empty(), l);
        assert(entry::overlay(state::table_layers(s.tables)) =~= l);
        entry::lemma_live_overlay_push(
            state::table_layers(t.tables),
            state::table_layers(s.tables),
            s.memtable,
        );
    }
}

/// A directory without tables and with an empty log holds an empty store, which
/// calls its first table `000001.sst`.
pub proof fn lemma_new_directory(disk: Disk, names: Seq<Seq<char>>, opts: LsmOptions)
    requires
        disk.listed_as(names),
        disk.has_tables(Seq::empty()),
        disk.log.len() == 0,
    ensures
        disk.opened(names, opts) matches Ok(t) && {
            &&& t.sound()
            &&& t.phase is Idle
            &&& t.next_id == Some(1u64)
            &&& t.contents() == Map::<Seq<u8>, Seq<u8>>::empty()
            &&& disk.belongs_to(t)
        },
        names::file_name_of(1) == seq!['0', '0', '0', '0', '0', '1', '.', 's', 's', 't'],
{
    let s = TreeView {
        opts,
        memtable: Map::empty(),
        tables: Seq::empty(),
        next_id: Some(1),
        phase: PhaseView::Idle,
    };
    entry::lemma_run_empty();
    assert(wal::replayed(disk.log).0 =~= Seq::empty());
    assert(disk.belongs_to(s));
    lemma_opened(disk, names, opts, s);
    let t = disk.opened(names, opts)->Ok_0;
    assert(t.layers() =~= Seq::empty().push(Map::empty()));
    entry::lemma_overlay_push(Seq::empty(), Map::empty());
    assert(entry::overlay(t.layers()) =~= Map::empty());
    assert(t.contents() =~= Map::empty());
    assert(names::digits(1) =~= seq!['1']);
    assert(names::file_name_of(1) =~= seq!['0', '0', '0', '0', '0', '1', '.', 's', 's', 't']);
}

/// A table that was written is in the directory.
proof fn lemma_table_written(disk: Disk, tables: Seq<TableView>, t: TableView)
    requires
        disk.has_tables(tables),
        state::all_stored(tables),
        state::ids_below(tables, t.id),
        state::stored(t),
    ensures
        disk.after(ActionView::WriteTable(t.file_name, t.image)).has_tables(tables.push(t)),
{
    let after = disk.after(ActionView::WriteTable(t.file_name, t.image));
    let ts = tables.push(t);
    assert forall|i: int| 0 <= i < ts.len() implies after.files.contains_key(
        (#[trigger] ts[i]).file_name,
    ) && after.files[ts[i].file_name] == ts[i].image by {
        if i < tables.len() {
            assert(state::stored(tables[i]));
            assert(tables[i].id < t.id);
            assert(disk.files.contains_key(tables[i].file_name));
        }
    }
    assert forall|name: Seq<char>|
        after.files.contains_key(name) && (#[trigger] names::kind_of(name)) is Table implies exists|
        i: int,
    | 0 <= i < ts.len() && (#[trigger] ts[i]).file_name == name by {
        if name == t.file_name {
            assert(ts[tables.len() as int].file_name == name);
        } else {
            assert(disk.files.contains_key(name));
            let i = choose|i: int| 0 <= i < tables.len() && (#[trigger] tables[i]).file_name == name;
            assert(ts[i].file_name == name);
        }
    }
}

/// A table that was removed is not in the directory.
proof fn lemma_table_removed(disk: Disk, tables: Seq<TableView>)
    requires
        disk.has_tables(tables),
        state::all_stored(tables),
        state::ids_ascend(tables),
        tables.len() > 0,
    ensures
        disk.after(ActionView::RemoveTable(tables[0].file_name)).has_tables(tables.drop_first()),
{
    let after = disk.after(ActionView::RemoveTable(tables[0].file_name));
    let ts = tables.drop_first();
    assert(state::stored(tables[0]));
    assert forall|i: int| 0 <= i < ts.len() implies after.files.contains_key(
        (#[trigger] ts[i]).file_name,
    ) && after.files[ts[i].file_name] == ts[i].image by {
        assert(state::stored(tables[i + 1]));
        assert(tables[0].id < tables[i + 1].id);
        assert(disk.files.contains_key(tables[i + 1].file_name));
    }
    assert forall|name: Seq<char>|
        after.files.contains_key(name) && (#[trigger] names::kind_of(name)) is Table implies exists|
        i: int,
    | 0 <= i < ts.len() && (#[trigger] ts[i]).file_name == name by {
        assert(disk.files.contains_key(name));
        let i = choose|i: int| 0 <= i < tables.len() && (#[trigger] tables[i]).file_name == name;
        assert(i > 0);
        assert(ts[i - 1].file_name == name);
    }
}

/// A write that can be stored in a table can be written to the log.
proof fn lemma_storable_fits(r: RecordView)
    requires
        block::fits(state::record_entry(r)),
    ensures
        r.fits(),
{
}

/// The directory goes along with the store: after the pending action it belongs
/// to the state that the store is then in.
pub proof fn lemma_action_carried_out(disk: Disk, s: TreeView)
    requires
        disk.belongs_to(s),
        s.sound(),
    ensures
        disk.after(s.pending()).belongs_to(s.settled()),
        disk.after(s.pending()).belongs_to(s.completed().0),
{
    let after = disk.after(s.pending());
    let (records, n) = wal::replayed(disk.log);
    match s.phase {
        PhaseView::Idle => {},
        PhaseView::Trimming(m) => {
            wal::lemma_replayed_is_log(disk.log);
            lemma_replay_of_trimmed(disk.log);
        },
        PhaseView::Logging(r) => {
            lemma_storable_fits(r);
            lemma_replay_of_appended(disk.log, r);
            let all = records.push(r);
            assert(all.drop_last() =~= records);
            assert forall|i: int| 0 <= i < all.len() implies block::fits(
                state::record_entry(#[trigger] all[i]),
            ) by {
                if i < records.len() {
                    assert(block::fits(state::record_entry(records[i])));
                }
            }
        },
        PhaseView::Flushing(t, automatic) => {
            lemma_table_written(disk, s.tables, t);
        },
        PhaseView::Truncating(automatic) => {
            assert(after.log =~= Seq::empty());
            assert(wal::replayed(after.log).0 =~= Seq::empty());
        },
        PhaseView::Merging => {},
        PhaseView::Compacting(t) => {
            lemma_table_written(disk, s.tables, t);
            assert(s.settled().stored_tables() =~= s.tables.push(t));
        },
        PhaseView::Cleaning(old) => {
            let tables = old + s.tables;
            lemma_table_removed(disk, tables);
            assert(s.settled().stored_tables() =~= tables.drop_first());
        },
    }
    assert(after.belongs_to(s.settled()));
}

/// Beginning an operation leaves the directory as it is.
pub proof fn lemma_operation_begun(disk: Disk, s: TreeView, r: RecordView)
    requires
        disk.belongs_to(s),
    ensures
        disk.belongs_to(s.write(r).0),
        disk.belongs_to(s.flush().0),
        disk.belongs_to(s.compact().0),
{
}

/// Whatever a crash leaves behind, the store can be opened again and holds all
/// that it held before the crash. A write that was being appended is carried out
/// as well where all of it has reached the log, and not at all elsewhere. The
/// directory then belongs to the new store, so that
/// the same holds of the next crash.
pub proof fn lemma_crash(
    disk: Disk,
    left: Disk,
    names: Seq<Seq<char>>,
    opts: LsmOptions,
    s: TreeView,
)
    requires
        disk.belongs_to(s),
        s.sound(),
        disk.may_leave(s.pending(), left),
        left.listed_as(names),
    ensures
        left.opened(names, opts) matches Ok(t) && {
            &&& t.sound()
            &&& left.belongs_to(t)
            &&& t.contents() == (match s.phase {
                PhaseView::Logging(r) if left.log == disk.log + r.encoded() => r.carried_out_on(
                    s.contents(),
                ),
                _ => s.contents(),
            })
        },
{
    if let PhaseView::Logging(r) = s.phase {
        wal::lemma_encoded_len(r);
        assert(disk.log.len() < (disk.log + r.encoded()).len());
    }
    if disk.same_store(left) {
        lemma_same_store(disk, left, s);
        lemma_reopened(left, names, opts, s);
    } else if disk.after(s.pending()).same_store(left) {
        state::lemma_settled(s);
        lemma_action_carried_out(disk, s);
        lemma_same_store(disk.after(s.pending()), left, s.settled());
        lemma_reopened(left, names, opts, s.settled());
    } else if let PhaseView::Logging(r) = s.phase {
        let b = r.encoded();
        let n = choose|n: int|
            0 <= n <= b.len() && disk.after(
                ActionView::AppendWal(#[trigger] b.take(n)),
            ).same_store(left);
        let torn = disk.after(ActionView::AppendWal(b.take(n)));
        if n == b.len() {
            assert(b.take(n) =~= b);
        } else {
            assert(torn.log.len() < (disk.log + b).len());
            lemma_storable_fits(r);
            lemma_replay_of_torn(disk.log, r, n);
            let at = TreeView {
                phase: PhaseView::Trimming(wal::replayed(disk.log).1),
                ..s
            };
            assert(at.layers() == s.layers());
            lemma_same_store(torn, left, at);
            lemma_reopened(left, names, opts, at);
        }
    }
}

/// What can happen to a store and its directory.
pub enum Event {
    /// An operation begins.
    Begin(Operation),
    /// The pending action is carried out, and the store goes on.
    CarryOut,
    /// A crash leaves this directory, which is listed in this order and opened
    /// again with these options.
    Crash(Disk, Seq<Seq<char>>, LsmOptions),
}

/// A store with its directory.
pub struct World {
    pub disk: Disk,
    pub store: TreeView,
}

impl World {
    /// The store is sound, and the directory is as it left it.
    pub open spec fn sound(self) -> bool {
        self.store.sound() && self.disk.belongs_to(self.store)
    }

    /// The event can happen. The tables that are built can be counted in bytes.
    pub open spec fn possible(self, e: Event) -> bool {
        match e {
            Event::Begin(op) => self.store.begun(op).0.wf(),
            Event::CarryOut => self.store.completed().0.wf(),
            Event::Crash(left, names, opts) => {
                &&& self.disk.may_leave(self.store.pending(), left)
                &&& left.listed_as(names)
            },
        }
    }

    /// The store and its directory after an event.
    pub open spec fn after(self, e: Event) -> World {
        match e {
            Event::Begin(op) => World { store: self.store.begun(op).0, ..self },
            Event::CarryOut => World {
                disk: self.disk.after(self.store.pending()),
                store: self.store.completed().0,
            },
            Event::Crash(left, names, opts) => World {
                disk: left,
                store: left.opened(names, opts)->Ok_0,
            },
        }
    }

    /// The write that takes effect with an event: one whose record has been
    /// appended to the log as a whole, be it confirmed or cut short after that.
    pub open spec fn effect(self, e: Event) -> Option<RecordView> {
        match (self.store.phase, e) {
            (PhaseView::Logging(r), Event::CarryOut) => Some(r),
            (PhaseView::Logging(r), Event::Crash(left, _, _)) => if left.log == self.disk.log
                + r.encoded() {
                Some(r)
            } else {
                None
            },
            _ => None,
        }
    }

    /// The store and its directory after some events.
    pub open spec fn after_all(self, events: Seq<Event>) -> World
        decreases events.len(),
    {
        if events.len() == 0 {
            self
        } else {
            self.after_all(events.drop_last()).after(events.last())
        }
    }

    /// All of the events can happen, one after the other.
    pub open spec fn all_possible(self, events: Seq<Event>) -> bool
        decreases events.len(),
    {
        events.len() > 0 ==> {
            &&& self.all_possible(events.drop_last())
            &&& self.after_all(events.drop_last()).possible(events.last())
        }
    }

    /// What a plain map holds after the writes that take effect.
    pub open spec fn expected_after(self, events: Seq<Event>) -> Map<Seq<u8>, Seq<u8>>
        decreases events.len(),
    {
        if events.len() == 0 {
            self.store.contents()
        } else {
            let before = self.expected_after(events.drop_last());
            match self.after_all(events.drop_last()).effect(events.last()) {
                Some(r) => r.carried_out_on(before),
                None => before,
            }
        }
    }
}

/// An event keeps the store sound, and changes what it holds by the write that
/// takes effect with it.
proof fn lemma_event(w: World, e: Event)
    requires
        w.sound(),
        w.possible(e),
    ensures
        w.after(e).sound(),
        w.after(e).store.contents() == (match w.effect(e) {
            Some(r) => r.carried_out_on(w.store.contents()),
            None => w.store.contents(),
        }),
{
    match e {
        Event::Begin(op) => {
            match op {
                Operation::Write(r) => {
                    state::lemma_write_begun(w.store, r);
                    lemma_operation_begun(w.disk, w.store, r);
                },
                Operation::Flush => {
                    state::lemma_flush_begun(w.store);
                    lemma_operation_begun(w.disk, w.store, RecordView::Delete(Seq::empty()));
                },
                Operation::Compact => {
                    state::lemma_compaction_begun(w.store);
                    lemma_operation_begun(w.disk, w.store, RecordView::Delete(Seq::empty()));
                },
            }
        },
        Event::CarryOut => {
            state::lemma_settled(w.store);
            state::lemma_completed(w.store);
            lemma_action_carried_out(w.disk, w.store);
        },
        Event::Crash(left, names, opts) => {
            lemma_crash(w.disk, left, names, opts, w.store);
        },
    }
}

/// However operations, flushes, compactions and crashes follow each other, the
/// store holds what a plain map holds that has taken the writes which reached the
/// log. Every write that was confirmed is among them.
pub proof fn lemma_every_confirmed_write_survives(w: World, events: Seq<Event>)
    requires
        w.sound(),
        w.all_possible(events),
    ensures
        w.after_all(events).sound(),
        w.after_all(events).store.contents() == w.expected_after(events),
    decreases events.len(),
{
    if events.len() > 0 {
        lemma_every_confirmed_write_survives(w, events.drop_last());
        lemma_event(w.after_all(events.drop_last()), events.last());
    }
}

} // verus!
