//! What is kept of the store in memory, and how it stands for the whole of it.
//!
//! The data of the tables is on disk, so that what is in memory goes with every
//! store whose data fits it. Each step of what is in memory is a step of all
//! those stores.

use crate::block::TableError;
use crate::entry;
use crate::entry::Layer;
use crate::lsm::LsmOptions;
use crate::merge;
use crate::merge::MergeView;
use crate::sstable;
use crate::sstable::{HandleView, TableView};
use crate::state;
use crate::state::{PhaseView, TreeView};
use crate::wal;
use crate::wal::RecordView;
use vstd::prelude::*;

verus! {

/// What the store is doing.
pub enum StageView {
    Idle,
    Trimming(int),
    Logging(RecordView),
    /// The new table, with the contents of its file.
    Flushing(HandleView, Seq<u8>, bool),
    Truncating(bool),
    Merging(MergeView),
    /// The merged table, with the contents of its file.
    Compacting(HandleView, Seq<u8>),
    Cleaning(Seq<HandleView>),
}

/// What is kept of the store in memory.
pub struct StoreView {
    pub opts: LsmOptions,
    pub memtable: Layer,
    /// From the oldest to the newest.
    pub tables: Seq<HandleView>,
    pub next_id: Option<u64>,
    pub stage: StageView,
}

/// A file, and the tail of it: all that comes behind the data block.
pub open spec fn has_tail(
    file: (u64, Seq<char>, Seq<u8>),
    tail: (u64, Seq<char>, Seq<u8>),
) -> bool {
    &&& file.0 == tail.0
    &&& file.1 == tail.1
    &&& file.2.len() <= u64::MAX
    &&& sstable::tail_start_of(file.2.len() as int, sstable::foot_of(file.2)) matches Ok(d)
        && tail.2 == file.2.skip(d)
}

/// What is kept of the tables with these tails, up to the first one that is not
/// the tail of a table.
pub open spec fn opened_handles(tails: Seq<(u64, Seq<char>, Seq<u8>)>) -> Result<
    Seq<HandleView>,
    TableError,
>
    decreases tails.len(),
{
    if tails.len() == 0 {
        Ok(Seq::empty())
    } else {
        match opened_handles(tails.drop_last()) {
            Err(e) => Err(e),
            Ok(tables) => match HandleView::opened(
                tails.last().1,
                tails.last().0,
                tails.last().2,
            ) {
                Err(e) => Err(e),
                Ok(t) => Ok(tables.push(t)),
            },
        }
    }
}

/// The id after the greatest one of some tables. The first table has the id 1.
pub open spec fn id_after_handles(tables: Seq<HandleView>) -> Option<u64>
    decreases tables.len(),
{
    if tables.len() == 0 {
        Some(1)
    } else {
        match id_after_handles(tables.drop_last()) {
            None => None,
            Some(id) => if tables.last().id < id {
                Some(id)
            } else {
                state::id_after(tables.last().id)
            },
        }
    }
}

/// All tables can be searched.
pub open spec fn all_wf(tables: Seq<HandleView>) -> bool {
    forall|i: int| 0 <= i < tables.len() ==> (#[trigger] tables[i]).wf()
}

impl StoreView {
    /// The bytes of the keys and values of live entries in the memtable.
    pub open spec fn memtable_bytes(self) -> nat {
        entry::live_bytes(entry::sorted_entries(self.memtable))
    }

    /// The parts fit together well enough for every operation.
    pub open spec fn wf(self) -> bool {
        &&& entry::is_run(self.memtable)
        &&& all_wf(self.tables)
        &&& match self.stage {
            StageView::Logging(r) => self.memtable_bytes() + entry::live_entry_bytes(
                state::record_entry(r),
            ) <= usize::MAX,
            StageView::Flushing(t, _, _) => t.wf(),
            StageView::Merging(m) => m.sources.len() == self.tables.len() && m.wants() is Some,
            StageView::Compacting(t, _) => t.wf() && self.tables.len() > 0,
            StageView::Cleaning(old) => old.len() > 0,
            _ => true,
        }
    }

    /// The store goes with what is in memory: it is in the same state, and its
    /// tables have these indexes and filters. Where the tables are being merged,
    /// what has been read of them is what they hold.
    pub open spec fn stands_for(self, s: TreeView) -> bool {
        &&& s.wf()
        &&& self.opts == s.opts
        &&& self.memtable == s.memtable
        &&& self.tables == state::handles(s.tables)
        &&& self.next_id == s.next_id
        &&& match self.stage {
            StageView::Idle => s.phase is Idle,
            StageView::Trimming(n) => s.phase == PhaseView::Trimming(n),
            StageView::Logging(r) => s.phase == PhaseView::Logging(r),
            StageView::Flushing(t, image, automatic) => {
                &&& s.phase matches PhaseView::Flushing(v, a)
                &&& a == automatic
                &&& t == v.handle()
                &&& image == v.image
            },
            StageView::Truncating(automatic) => s.phase == PhaseView::Truncating(automatic),
            StageView::Merging(m) => s.phase is Merging && m.progress(s.datas()),
            StageView::Compacting(t, image) => {
                &&& s.phase matches PhaseView::Compacting(v)
                &&& t == v.handle()
                &&& image == v.image
            },
            StageView::Cleaning(old) => {
                &&& s.phase matches PhaseView::Cleaning(vs)
                &&& old == state::handles(vs)
            },
        }
    }

    /// The part of a table's file that has to be read for a merge, if there is
    /// one: the place of the table, and the start and the end of the part.
    pub open spec fn wanted(self) -> Option<(int, int, int)> {
        match self.stage {
            StageView::Merging(m) => Some(
                (self.tables.len() - 1 - m.next_part().0, m.next_part().1, m.next_part().2),
            ),
            _ => None,
        }
    }

    /// These are the bytes that have to be read for a merge.
    pub open spec fn is_wanted(self, part: Seq<u8>) -> bool {
        self.wanted() matches Some((table, start, end)) && part.len() == end - start
    }

    /// The store has these bytes where they have been asked for.
    pub open spec fn found_in(self, part: Seq<u8>, s: TreeView) -> bool {
        self.wanted() matches Some((table, start, end)) && part == s.tables[table].data().subrange(
            start,
            end,
        )
    }

    /// How much of the tables is still to be read for a merge. A part that is
    /// empty counts as well.
    pub open spec fn reading_left(self) -> nat {
        match self.stage {
            StageView::Merging(m) => merge::left_to_read(m.sources) + if m.next_part().1
                == m.next_part().2 {
                1nat
            } else {
                0nat
            },
            _ => 0,
        }
    }

    /// What is kept in memory of the store in a data directory: of the tables
    /// with these tails, from the oldest to the newest, and of the log.
    pub open spec fn opened(
        tails: Seq<(u64, Seq<char>, Seq<u8>)>,
        log: Seq<u8>,
        opts: LsmOptions,
    ) -> Result<StoreView, TableError> {
        match opened_handles(tails) {
            Err(e) => Err(e),
            Ok(tables) => Ok(
                StoreView {
                    opts,
                    memtable: wal::layer_of(wal::replayed(log).0),
                    tables,
                    next_id: id_after_handles(tables),
                    stage: if wal::replayed(log).1 < log.len() {
                        StageView::Trimming(wal::replayed(log).1)
                    } else {
                        StageView::Idle
                    },
                },
            ),
        }
    }
}

/// The tail of a file is all that comes behind the place that its footer says.
pub proof fn lemma_every_file_has_a_tail(id: u64, name: Seq<char>, image: Seq<u8>, tail: Seq<u8>)
    requires
        image.len() <= u64::MAX,
    ensures
        has_tail((id, name, image), (id, name, tail)) <==> (sstable::tail_start_of(
            image.len() as int,
            sstable::foot_of(image),
        ) matches Ok(d) && tail == image.skip(d)),
{
}

/// What is in memory agrees with the store that it stands for in everything but the
/// data of the tables, and is doing the same.
pub proof fn lemma_stands_for(v: StoreView, s: TreeView)
    requires
        v.stands_for(s),
    ensures
        v.opts == s.opts,
        v.memtable == s.memtable,
        v.next_id == s.next_id,
        v.tables.len() == s.tables.len(),
        forall|i: int|
            0 <= i < v.tables.len() ==> {
                &&& (#[trigger] v.tables[i]).id == s.tables[i].id
                &&& v.tables[i].file_name == s.tables[i].file_name
                &&& v.tables[i].data_len == s.tables[i].data_len
                &&& v.tables[i].data_len == s.tables[i].data().len()
                &&& v.tables[i].index == s.tables[i].index
                &&& v.tables[i].filter == s.tables[i].filter
                &&& v.tables[i].entry_count == s.tables[i].entry_count
                &&& v.tables[i].min_key == s.tables[i].min_key
                &&& v.tables[i].max_key == s.tables[i].max_key
            },
        v.stage is Idle <==> s.phase is Idle,
        v.stage is Trimming <==> s.phase is Trimming,
        v.stage is Logging <==> s.phase is Logging,
        v.stage is Flushing <==> s.phase is Flushing,
        v.stage is Truncating <==> s.phase is Truncating,
        v.stage is Merging <==> s.phase is Merging,
        v.stage is Compacting <==> s.phase is Compacting,
        v.stage is Cleaning <==> s.phase is Cleaning,
        v.stage matches StageView::Trimming(n) ==> s.phase == PhaseView::Trimming(n),
        v.stage matches StageView::Logging(r) ==> s.phase == PhaseView::Logging(r),
        v.stage matches StageView::Flushing(t, image, automatic) ==> {
            &&& s.phase matches PhaseView::Flushing(u, a)
            &&& a == automatic
            &&& t == u.handle()
            &&& image == u.image
        },
        v.stage matches StageView::Truncating(automatic) ==> s.phase == PhaseView::Truncating(
            automatic,
        ),
        v.stage matches StageView::Compacting(t, image) ==> {
            &&& s.phase matches PhaseView::Compacting(u)
            &&& t == u.handle()
            &&& image == u.image
        },
        v.stage matches StageView::Cleaning(old) ==> {
            &&& s.phase matches PhaseView::Cleaning(us)
            &&& old.len() == us.len()
            &&& forall|i: int| 0 <= i < us.len() ==> #[trigger] old[i] == us[i].handle()
        },
{
    assert forall|i: int| 0 <= i < v.tables.len() implies (#[trigger] v.tables[i])
        == s.tables[i].handle() && s.tables[i].wf() by {}
}

/// The writes of a log make up a memtable.
proof fn lemma_layer_of_log(records: Seq<RecordView>)
    ensures
        entry::is_run(wal::layer_of(records)),
    decreases records.len(),
{
    if records.len() == 0 {
        entry::lemma_run_empty();
    } else {
        lemma_layer_of_log(records.drop_last());
        entry::lemma_run_insert(
            wal::layer_of(records.drop_last()),
            state::record_entry(records.last()),
        );
    }
}

/// The next id depends on the ids alone.
proof fn lemma_id_after_handles(tables: Seq<TableView>)
    ensures
        id_after_handles(state::handles(tables)) == state::id_after_all(tables),
    decreases tables.len(),
{
    if tables.len() > 0 {
        lemma_id_after_handles(tables.drop_last());
        assert(state::handles(tables).drop_last() =~= state::handles(tables.drop_last()));
    }
}

/// Opening the files and opening their tails comes to the same.
proof fn lemma_opened_handles(
    files: Seq<(u64, Seq<char>, Seq<u8>)>,
    tails: Seq<(u64, Seq<char>, Seq<u8>)>,
)
    requires
        files.len() == tails.len(),
        forall|i: int| 0 <= i < files.len() ==> has_tail(files[i], #[trigger] tails[i]),
    ensures
        match opened_handles(tails) {
            Err(e) => state::opened_tables(files) == Err::<Seq<TableView>, TableError>(e),
            Ok(hs) => state::opened_tables(files) matches Ok(ts) && hs == state::handles(ts)
                && state::all_wf(ts),
        },
    decreases files.len(),
{
    if files.len() > 0 {
        let f = files.last();
        let t = tails.last();
        assert(has_tail(files[files.len() - 1], tails[tails.len() - 1]));
        assert forall|i: int| 0 <= i < files.len() - 1 implies has_tail(
            files.drop_last()[i],
            #[trigger] tails.drop_last()[i],
        ) by {
            assert(has_tail(files[i], tails[i]));
        }
        lemma_opened_handles(files.drop_last(), tails.drop_last());
        sstable::lemma_opened_by_tail(f.1, f.0, f.2);
        if let Ok(hs) = opened_handles(tails) {
            let ts = state::opened_tables(files)->Ok_0;
            assert(hs =~= state::handles(ts));
        }
    } else {
        assert(state::handles(Seq::empty()) =~= Seq::<HandleView>::empty());
    }
}

/// The tails of the table files are enough to open the store: what is then in
/// memory stands for the store in the whole files, and a file that is not a table
/// is found out as it is with the whole files.
pub proof fn lemma_opened_by_tails(
    files: Seq<(u64, Seq<char>, Seq<u8>)>,
    tails: Seq<(u64, Seq<char>, Seq<u8>)>,
    log: Seq<u8>,
    opts: LsmOptions,
)
    requires
        files.len() == tails.len(),
        forall|i: int| 0 <= i < files.len() ==> has_tail(files[i], #[trigger] tails[i]),
    ensures
        match StoreView::opened(tails, log, opts) {
            Err(e) => TreeView::opened(files, log, opts) == Err::<TreeView, TableError>(e),
            Ok(v) => TreeView::opened(files, log, opts) matches Ok(s) && v.stands_for(s),
        },
{
    lemma_opened_handles(files, tails);
    lemma_layer_of_log(wal::replayed(log).0);
    if let Ok(ts) = state::opened_tables(files) {
        lemma_id_after_handles(ts);
    }
}

} // verus!
