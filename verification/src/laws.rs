//! What the operations of the store do, seen from outside.
//!
//! The laws speak of the bytes of keys and values, of limits and of the numbers of
//! tables, and not of the steps that the store takes in between.

use crate::block;
use crate::block::TableError;
use crate::compaction;
use crate::entry;
use crate::entry::Entry;
use crate::lsm::{LsmError, LsmOptions};
use crate::names;
use crate::order;
use crate::sstable;
use crate::sstable::TableView;
use crate::state;
use crate::state::{ActionView, FindView, PhaseView, TreeView};
use crate::wal;
use crate::wal::RecordView;
use vstd::prelude::*;

verus! {

/// Every put is accepted whose key has at most 2^32 - 1 bytes and whose value has
/// fewer, as long as the memtable has no more bytes than can be counted: the record
/// is to be appended to the log, and nothing else has changed. Others are refused,
/// and change nothing.
pub proof fn lemma_put_is_accepted(s: TreeView, key: Seq<u8>, value: Seq<u8>)
    requires
        s.phase is Idle,
    ensures
        ({
            let r = RecordView::Put(key, value);
            let short = key.len() <= 0xffff_ffff && value.len() < 0xffff_ffff;
            let room = entry::live_bytes(entry::sorted_entries(s.memtable)) + key.len()
                + value.len() <= usize::MAX;
            &&& short && room ==> {
                &&& s.write(r) == (
                    TreeView { phase: PhaseView::Logging(r), ..s },
                    None::<LsmError>,
                )
                &&& s.write(r).0.pending() == ActionView::AppendWal(r.encoded())
            }
            &&& !short ==> s.write(r) == (s, Some(LsmError::EntryTooLarge))
            &&& short && !room ==> s.write(r) == (s, Some(LsmError::MemtableFull))
        }),
{
}

/// Every deletion is accepted whose key has at most 2^32 - 1 bytes.
pub proof fn lemma_delete_is_accepted(s: TreeView, key: Seq<u8>)
    requires
        s.phase is Idle,
        entry::live_bytes(entry::sorted_entries(s.memtable)) <= usize::MAX,
    ensures
        ({
            let r = RecordView::Delete(key);
            &&& key.len() <= 0xffff_ffff ==> {
                &&& s.write(r) == (
                    TreeView { phase: PhaseView::Logging(r), ..s },
                    None::<LsmError>,
                )
                &&& s.write(r).0.pending() == ActionView::AppendWal(r.encoded())
            }
            &&& key.len() > 0xffff_ffff ==> s.write(r) == (s, Some(LsmError::EntryTooLarge))
        }),
{
}

/// While an operation is being carried out no other one begins.
pub proof fn lemma_one_operation_at_a_time(s: TreeView, r: RecordView)
    requires
        !(s.phase is Idle),
    ensures
        s.write(r) == (s, Some(LsmError::Busy)),
        s.flush() == (s, Some(LsmError::Busy)),
        s.compact() == (s, Some(LsmError::Busy)),
{
}

/// When a write has been logged, it is in the memtable, and nothing else has
/// changed.
pub proof fn lemma_logged_write_is_applied(s: TreeView, key: Seq<u8>, value: Seq<u8>)
    ensures
        s.phase == PhaseView::Logging(RecordView::Put(key, value)) ==> s.settled() == (TreeView {
            memtable: s.memtable.insert(key, Some(value)),
            phase: PhaseView::Idle,
            ..s
        }),
        s.phase == PhaseView::Logging(RecordView::Delete(key)) ==> s.settled() == (TreeView {
            memtable: s.memtable.insert(key, None),
            phase: PhaseView::Idle,
            ..s
        }),
{
}

/// When a write has been logged and the memtable has reached its limit, all of it is
/// written out as a table: the next action writes the file of a table with just the
/// entries of the memtable. That fails only where no id is left or where the filter
/// would have more bits than can be counted. Below the limit there is no flush.
pub proof fn lemma_full_memtable_is_flushed(s: TreeView, key: Seq<u8>, value: Option<Seq<u8>>)
    requires
        s.wf(),
        block::all_fit(entry::sorted_entries(s.memtable.insert(key, value))),
        s.phase == PhaseView::Logging(
            match value {
                Some(v) => RecordView::Put(key, v),
                None => RecordView::Delete(key),
            },
        ),
        s.completed().0.wf(),
    ensures
        ({
            let l = s.memtable.insert(key, value);
            let es = entry::sorted_entries(l);
            let bits = (if es.len() < 1 {
                1
            } else {
                es.len() as int
            }) * (if s.opts.bloom_bits_per_key < 1 {
                1
            } else {
                s.opts.bloom_bits_per_key as int
            });
            let countable = s.opts.bloom_enabled ==> bits <= usize::MAX && bits <= u64::MAX - 63;
            let (c, e) = s.completed();
            &&& c.memtable == l
            &&& c.tables == s.tables
            &&& entry::live_bytes(es) >= s.opts.memtable_max_bytes ==> {
                &&& s.next_id is None ==> e == Some(LsmError::IdsExhausted) && c.phase is Idle
                &&& s.next_id is Some && !countable ==> e == Some(
                    LsmError::Table(TableError::FilterTooLarge),
                ) && c.phase is Idle
                &&& s.next_id is Some && countable ==> e is None && writes_table_of(
                    c,
                    s.next_id.unwrap(),
                    es,
                )
            }
            &&& entry::live_bytes(es) < s.opts.memtable_max_bytes ==> {
                &&& e is None
                &&& c.phase is Idle || c.phase is Merging
                &&& c.phase is Merging <==> s.tables.len() > 0 && s.tables.len()
                    >= s.opts.compaction_trigger
                &&& c.next_id == s.next_id
            }
        }),
{
    let l = s.memtable.insert(key, value);
    let es = entry::sorted_entries(l);
    let m = s.settled();
    assert(m.memtable == l);
    entry::lemma_run_insert(s.memtable, Entry { key, value });
    assert(l.contains_key(key));
    assert(!Map::<Seq<u8>, Option<Seq<u8>>>::empty().contains_key(key));
    sstable::lemma_what_can_be_built(
        es,
        s.opts.bloom_bits_per_key as int,
        s.opts.bloom_enabled,
    );
    lemma_all_fit(es);
    if let PhaseView::Flushing(t, _) = s.completed().0.phase {
        lemma_table_is_written(m, es, t);
    }
}

/// The next action writes the file of a table with this id and these entries, under
/// the name that goes with the id. The table is as the options say, and the id after
/// it is the next one.
pub open spec fn writes_table_of(s: TreeView, id: u64, es: Seq<Entry>) -> bool {
    s.pending() matches ActionView::WriteTable(name, image) && {
        &&& name == names::file_name_of(id)
        &&& TableView::opened(name, id, image) matches Ok(t) && t.entries() == es && t.valid()
            && is_as_options_say(t, s.opts)
        &&& s.next_id == (if id == u64::MAX {
            None
        } else {
            Some((id + 1) as u64)
        })
    }
}

/// The table has one index entry for every so many entries as the options say, and a
/// filter of the size that they say, or none.
pub open spec fn is_as_options_say(t: TableView, opts: LsmOptions) -> bool {
    let n = t.entries().len() as int;
    let interval = if opts.sparse_index_interval < 1 {
        1
    } else {
        opts.sparse_index_interval as int
    };
    let bits = (if n < 1 {
        1
    } else {
        n
    }) * (if opts.bloom_bits_per_key < 1 {
        1
    } else {
        opts.bloom_bits_per_key as int
    });
    &&& t.entry_count == n
    &&& forall|j: int|
        0 <= j ==> (j < t.index.len() <==> #[trigger] index_place(j, interval) < n)
    &&& forall|j: int|
        0 <= j < t.index.len() ==> t.index[j].key == t.entries()[#[trigger] index_place(
            j,
            interval,
        )].key
    &&& !opts.bloom_enabled ==> t.filter.num_bits == 0
    &&& opts.bloom_enabled ==> bits <= t.filter.num_bits && (t.filter.num_bits < bits + 64
        || t.filter.num_bits == 64)
}

/// The place of the entry that an index entry stands for.
pub open spec fn index_place(j: int, interval: int) -> int {
    j * interval
}

/// A new table is as the options say.
proof fn lemma_new_table_is_as_options_say(s: TreeView, es: Seq<Entry>, t: TableView)
    requires
        s.new_table(es) == Ok::<TableView, LsmError>(t),
        t.image.len() <= usize::MAX,
    ensures
        is_as_options_say(t, s.opts),
        s.next_id == Some(t.id),
{
    let interval = s.opts.sparse_index_interval as int;
    let bits = s.opts.bloom_bits_per_key as int;
    let on = s.opts.bloom_enabled;
    sstable::lemma_built_holds(t.file_name, t.id, es, interval, bits, on);
    sstable::lemma_what_is_built(t.file_name, t.id, es, interval, bits, on, Seq::empty());
    sstable::lemma_file_of_built(t.file_name, t.id, es, interval, bits, on);
    assert(t.data() == block::block_of(es));
    let step = if interval < 1 {
        1
    } else {
        interval
    };
    assert forall|j: int| 0 <= j implies (j < t.index.len() <==> #[trigger] index_place(j, step)
        < es.len()) by {
        sstable::lemma_index_of_built(es, step, j);
    }
    assert forall|j: int| 0 <= j < t.index.len() implies t.index[j].key == t.entries()[
    #[trigger] index_place(j, step)].key by {
        sstable::lemma_index_of_built(es, step, j);
    }
}

/// Entries that can be written have keys and values that are short enough.
proof fn lemma_all_fit(es: Seq<Entry>)
    ensures
        block::all_fit(es) ==> forall|i: int|
            0 <= i < es.len() ==> (#[trigger] es[i]).key.len() <= 0xffff_ffff && (
            es[i].value matches Some(v) ==> v.len() < 0xffff_ffff),
{
    if block::all_fit(es) {
        assert forall|i: int| 0 <= i < es.len() implies (#[trigger] es[i]).key.len()
            <= 0xffff_ffff && (es[i].value matches Some(v) ==> v.len() < 0xffff_ffff) by {
            assert(block::fits(es[i]));
        }
    }
}

/// A new table has the entries that it was made of.
proof fn lemma_table_is_written(s: TreeView, es: Seq<Entry>, t: TableView)
    requires
        s.new_table(es) == Ok::<TableView, LsmError>(t),
        t.image.len() <= usize::MAX,
    ensures
        t.entries() == es,
        t.valid(),
        Some(t.id) == s.next_id,
        is_as_options_say(t, s.opts),
        t.file_name == names::file_name_of(t.id),
        TableView::opened(t.file_name, t.id, t.image) == Ok::<TableView, TableError>(t),
{
    let interval = s.opts.sparse_index_interval as int;
    let bits = s.opts.bloom_bits_per_key as int;
    let on = s.opts.bloom_enabled;
    lemma_new_table_is_as_options_say(s, es, t);
    sstable::lemma_built_holds(t.file_name, t.id, es, interval, bits, on);
    sstable::lemma_open_of_built(t.file_name, t.id, es, interval, bits, on);
}

/// The rest of a compaction leaves the memtable alone and one table.
proof fn lemma_rest_of_compaction(s: TreeView)
    requires
        s.wf(),
        s.phase is Idle || s.phase is Merging || s.phase is Compacting || s.phase is Cleaning,
        s.phase is Cleaning ==> s.tables.len() == 1,
        s.failure_on_the_way() is None,
        s.carried_through().wf(),
    ensures
        s.carried_through().phase is Idle,
        s.carried_through().memtable == s.memtable,
        s.carried_through().opts == s.opts,
        !(s.phase is Idle) ==> s.carried_through().tables.len() == 1,
        s.phase is Idle || s.phase is Cleaning ==> s.carried_through().tables == s.tables,
        s.phase is Cleaning || s.phase is Compacting ==> s.carried_through().next_id == s.next_id,
        s.phase matches PhaseView::Compacting(t) ==> s.carried_through().tables == seq![t],
        s.phase is Merging ==> {
            &&& s.completed().1 is None
            &&& s.completed().0.wf()
            &&& s.completed().0.phase matches PhaseView::Compacting(t)
            &&& s.carried_through().tables == seq![t]
            &&& s.carried_through().next_id == s.completed().0.next_id
        },
    decreases s.steps_left(),
{
    if !(s.phase is Idle) {
        state::lemma_every_operation_ends(s);
        let next = s.completed().0;
        assert(s.completed().1 is None);
        assert(s.carried_through() == next.carried_through());
        assert(s.failure_on_the_way() == next.failure_on_the_way());
        assert(next.wf());
        lemma_rest_of_compaction(next);
    }
}

/// After a write has been carried through without an error, the memtable is empty or
/// below its limit, and there are fewer tables than call for a compaction, or no more
/// than one.
pub proof fn lemma_limits_are_kept(s: TreeView, r: RecordView)
    requires
        s.wf(),
        s.phase is Idle,
        s.write(r).1 is None,
        s.write(r).0.failure_on_the_way() is None,
        s.write(r).0.carried_through().wf(),
    ensures
        ({
            let f = s.write(r).0.carried_through();
            &&& f.phase is Idle
            &&& f.opts == s.opts
            &&& f.memtable == Map::<Seq<u8>, Option<Seq<u8>>>::empty() || entry::live_bytes(
                entry::sorted_entries(f.memtable),
            ) < s.opts.memtable_max_bytes
            &&& f.tables.len() <= 1 || f.tables.len() < s.opts.compaction_trigger
        }),
{
    let a = s.write(r).0;
    let key = match r {
        RecordView::Put(k, _) => k,
        RecordView::Delete(k) => k,
    };
    assert(a.settled().memtable.contains_key(key));
    assert(!Map::<Seq<u8>, Option<Seq<u8>>>::empty().contains_key(key));
    let b = a.completed().0;
    assert(a.completed().1 is None);
    assert(a.carried_through() == b.carried_through());
    assert(a.failure_on_the_way() == b.failure_on_the_way());
    assert(b.wf());
    if b.phase is Flushing {
        let c = b.completed().0;
        assert(b.carried_through() == c.carried_through());
        assert(b.failure_on_the_way() == c.failure_on_the_way());
        assert(c.wf());
        let d = c.completed().0;
        assert(c.completed().1 is None);
        assert(c.carried_through() == d.carried_through());
        assert(c.failure_on_the_way() == d.failure_on_the_way());
        assert(d.wf());
        lemma_rest_of_compaction(d);
    } else {
        lemma_rest_of_compaction(b);
    }
}

/// A write that is below both limits is done as soon as it is logged: no table is
/// written, read or removed.
pub proof fn lemma_small_write_touches_no_table(s: TreeView, key: Seq<u8>, value: Option<Seq<u8>>)
    requires
        s.phase == PhaseView::Logging(
            match value {
                Some(v) => RecordView::Put(key, v),
                None => RecordView::Delete(key),
            },
        ),
        entry::live_bytes(entry::sorted_entries(s.memtable.insert(key, value)))
            < s.opts.memtable_max_bytes,
        s.tables.len() < s.opts.compaction_trigger || s.tables.len() == 0,
    ensures
        s.completed() == (
            TreeView { memtable: s.memtable.insert(key, value), phase: PhaseView::Idle, ..s },
            None::<LsmError>,
        ),
{
}

/// Flushing an empty memtable does nothing. Another one is written out as a table,
/// unless no id is left or the filter would have more bits than can be counted.
pub proof fn lemma_flush_begins(s: TreeView)
    requires
        s.wf(),
        block::all_fit(entry::sorted_entries(s.memtable)),
        s.phase is Idle,
        s.flush().0.wf(),
    ensures
        ({
            let es = entry::sorted_entries(s.memtable);
            let bits = (if es.len() < 1 {
                1
            } else {
                es.len() as int
            }) * (if s.opts.bloom_bits_per_key < 1 {
                1
            } else {
                s.opts.bloom_bits_per_key as int
            });
            let countable = s.opts.bloom_enabled ==> bits <= usize::MAX && bits <= u64::MAX - 63;
            let (c, e) = s.flush();
            let empty = s.memtable == Map::<Seq<u8>, Option<Seq<u8>>>::empty();
            &&& c.memtable == s.memtable
            &&& c.tables == s.tables
            &&& empty ==> s.flush() == (s, None::<LsmError>)
            &&& !empty && s.next_id is None ==> s.flush() == (s, Some(LsmError::IdsExhausted))
            &&& !empty && s.next_id is Some && !countable ==> s.flush() == (
                s,
                Some(LsmError::Table(TableError::FilterTooLarge)),
            )
            &&& !empty && s.next_id is Some && countable ==> e is None && writes_table_of(
                c,
                s.next_id.unwrap(),
                es,
            )
        }),
{
    let es = entry::sorted_entries(s.memtable);
    sstable::lemma_what_can_be_built(
        es,
        s.opts.bloom_bits_per_key as int,
        s.opts.bloom_enabled,
    );
    lemma_all_fit(es);
    if let PhaseView::Flushing(t, _) = s.flush().0.phase {
        lemma_table_is_written(s, es, t);
    }
}

/// A flush that is carried through leaves an empty memtable, and one table more, with
/// what the memtable had. The other tables stay, however many there are.
pub proof fn lemma_flush_carried_through(s: TreeView)
    requires
        s.wf(),
        s.phase is Idle,
        s.memtable != Map::<Seq<u8>, Option<Seq<u8>>>::empty(),
        s.flush().1 is None,
        s.flush().0.carried_through().wf(),
    ensures
        ({
            let f = s.flush().0.carried_through();
            let n = s.tables.len() as int;
            &&& s.flush().0.failure_on_the_way() is None
            &&& f.phase is Idle
            &&& f.opts == s.opts
            &&& f.memtable == Map::<Seq<u8>, Option<Seq<u8>>>::empty()
            &&& f.tables.len() == n + 1
            &&& forall|i: int| 0 <= i < n ==> #[trigger] f.tables[i] == s.tables[i]
            &&& f.tables[n].entries() == entry::sorted_entries(s.memtable)
            &&& f.tables[n].layer() == s.memtable
            &&& Some(f.tables[n].id) == s.next_id
            &&& is_as_options_say(f.tables[n], s.opts)
        }),
{
    let a = s.flush().0;
    assert(a.phase is Flushing);
    let b = a.completed().0;
    let c = b.completed().0;
    assert(c.phase is Idle);
    assert(b.phase is Truncating);
    if a.wf() && b.wf() {
        if let PhaseView::Flushing(t, _) = a.phase {
            lemma_table_is_written(s, entry::sorted_entries(s.memtable), t);
        }
        assert(a.carried_through() == b.carried_through());
        assert(b.carried_through() == c.carried_through());
        assert(a.failure_on_the_way() == b.failure_on_the_way());
        assert(b.failure_on_the_way() == c.failure_on_the_way());
    }
}

/// After a flush the log is emptied.
pub proof fn lemma_log_is_emptied_after_a_flush(s: TreeView)
    requires
        s.phase is Flushing,
    ensures
        s.completed().1 is None,
        s.completed().0.pending() == ActionView::TruncateWal(0),
{
}

/// A compaction begins wherever there is a table: the tables are to be read. Where
/// there is none, there is nothing to do.
pub proof fn lemma_compact_begins(s: TreeView)
    requires
        s.phase is Idle,
    ensures
        s.compact().1 is None,
        s.tables.len() == 0 ==> s.compact().0 == s,
        s.tables.len() > 0 ==> s.compact().0 == (TreeView { phase: PhaseView::Merging, ..s })
            && s.compact().0.pending() == ActionView::ReadTables,
{
}

/// A compaction of intact tables fails only where no id is left, or where the filter
/// of the merged table would have more bits than can be counted.
pub proof fn lemma_compaction_succeeds(s: TreeView)
    requires
        s.wf(),
        state::all_valid(s.tables),
        s.phase is Idle,
        s.tables.len() > 0,
    ensures
        ({
            let n = entry::live(entry::overlay(state::table_layers(s.tables))).dom().len();
            let bits = (if n < 1 {
                1
            } else {
                n as int
            }) * (if s.opts.bloom_bits_per_key < 1 {
                1
            } else {
                s.opts.bloom_bits_per_key as int
            });
            let countable = s.opts.bloom_enabled ==> bits <= usize::MAX && bits <= u64::MAX - 63;
            s.compact().0.failure_on_the_way() == (if s.next_id is None {
                Some(LsmError::IdsExhausted)
            } else if !countable {
                Some(LsmError::Table(TableError::FilterTooLarge))
            } else {
                None
            })
        }),
{
    let a = s.compact().0;
    let es = a.merge_of_tables();
    lemma_compact_begins(s);
    lemma_merge_of_intact_tables(a);
    assert(a.settled().datas() == a.datas());
    sstable::lemma_what_can_be_built(
        es,
        s.opts.bloom_bits_per_key as int,
        s.opts.bloom_enabled,
    );
    lemma_all_fit(es);
    let b = a.completed().0;
    if a.completed().1 is None {
        assert(b.phase is Compacting);
        lemma_no_failure_after_merge(b);
    }
}

/// Once the tables are merged nothing more can fail.
proof fn lemma_no_failure_after_merge(s: TreeView)
    requires
        s.phase is Compacting || s.phase is Cleaning || s.phase is Idle,
    ensures
        s.failure_on_the_way() is None,
    decreases s.steps_left(),
{
    if !(s.phase is Idle) && s.wf() {
        state::lemma_every_operation_ends(s);
        lemma_no_failure_after_merge(s.completed().0);
    }
}

/// The merge of intact tables: it is sorted and has no tombstones, and it has just
/// the keys that the tables show.
proof fn lemma_merge_of_intact_tables(s: TreeView)
    requires
        state::all_valid(s.tables),
    ensures
        ({
            let es = s.merge_of_tables();
            let shown = entry::live(entry::overlay(state::table_layers(s.tables)));
            &&& compaction::all_readable(s.datas())
            &&& entry::sorted(es)
            &&& block::all_fit(es)
            &&& forall|i: int| 0 <= i < es.len() ==> (#[trigger] es[i]).value is Some
            &&& entry::live(entry::layer(es)) == shown
            &&& es.len() == shown.dom().len()
        }),
{
    let datas = s.datas();
    let streams = compaction::streams_in(datas);
    let es = s.merge_of_tables();
    assert forall|j: int| 0 <= j < datas.len() implies block::block_entries(
        #[trigger] datas[j],
    ) is Some by {
        assert(s.tables[s.tables.len() - 1 - j].valid());
    }
    assert forall|j: int| 0 <= j < streams.len() implies entry::sorted(#[trigger] streams[j])
        && block::all_fit(streams[j]) by {
        assert(s.tables[s.tables.len() - 1 - j].valid());
    }
    compaction::lemma_merge_keeps_what_is_live(streams);
    compaction::lemma_merged_entries_fit(streams, None);
    state::lemma_layers_of_tables(s.tables);
    entry::lemma_layer_len(es);
    let l = entry::layer(es);
    assert forall|k: Seq<u8>| l.contains_key(k) <==> entry::live(l).contains_key(k) by {
        entry::lemma_layer_contains(es, k);
        if l.contains_key(k) {
            let i = choose|i: int| 0 <= i < es.len() && #[trigger] es[i].key == k;
            entry::lemma_layer_at(es, i);
            assert(es[i].value is Some);
        }
    }
    assert(entry::live(l).dom() =~= l.dom());
}

/// A compaction that is carried through leaves exactly one table, however many there
/// were. It has a value for each key that the tables showed and for no other, and no
/// tombstone: the newest value of each key, and nothing of a deleted one.
pub proof fn lemma_compaction_carried_through(s: TreeView)
    requires
        s.wf(),
        state::all_valid(s.tables),
        s.phase is Idle,
        s.tables.len() > 0,
        s.compact().0.failure_on_the_way() is None,
        s.compact().0.carried_through().wf(),
    ensures
        ({
            let f = s.compact().0.carried_through();
            let es = f.tables[0].entries();
            let shown = entry::live(entry::overlay(state::table_layers(s.tables)));
            &&& f.phase is Idle
            &&& f.opts == s.opts
            &&& f.memtable == s.memtable
            &&& f.tables.len() == 1
            &&& Some(f.tables[0].id) == s.next_id
            &&& f.tables[0].valid()
            &&& is_as_options_say(f.tables[0], s.opts)
            &&& f.next_id == (if f.tables[0].id == u64::MAX {
                None
            } else {
                Some((f.tables[0].id + 1) as u64)
            })
            &&& forall|i: int| 0 <= i < es.len() ==> (#[trigger] es[i]).value is Some
            &&& entry::live(f.tables[0].layer()) == shown
            &&& es.len() == shown.dom().len()
        }),
{
    let a = s.compact().0;
    lemma_compact_begins(s);
    lemma_merge_of_intact_tables(a);
    lemma_rest_of_compaction(a);
    let m = a.settled();
    assert(m.datas() == a.datas());
    if let PhaseView::Compacting(t) = a.completed().0.phase {
        lemma_table_is_written(m, a.merge_of_tables(), t);
    }
}

/// A table with a damaged entry ends the compaction with an error, and everything
/// stays as it was.
pub proof fn lemma_damaged_table_ends_compaction(s: TreeView, i: int)
    requires
        s.phase is Merging,
        0 <= i < s.tables.len(),
        block::block_entries(s.tables[i].data()) is None,
    ensures
        s.completed() == (
            TreeView { phase: PhaseView::Idle, ..s },
            Some(LsmError::Table(TableError::BadEntry)),
        ),
{
    let m = s.settled();
    assert(m.datas()[s.tables.len() - 1 - i] == s.tables[i].data());
}

/// Cutting a torn log off is all there is to do after opening.
pub proof fn lemma_torn_log_is_cut_off(s: TreeView)
    requires
        s.phase is Trimming,
    ensures
        s.completed() == (TreeView { phase: PhaseView::Idle, ..s }, None::<LsmError>),
{
}

/// A lookup goes by the first entry in the part that is not before the key. If it is
/// the key's, it decides, with a value or a tombstone; if it is another one or there
/// is none, the lookup goes on with the older tables; and if it is damaged, that is
/// reported.
pub proof fn lemma_part_decides(
    s: TreeView,
    key: Seq<u8>,
    table: int,
    es: Seq<Entry>,
    e: Entry,
    rest: Seq<u8>,
)
    requires
        block::all_fit(es),
        block::fits(e),
        forall|i: int| 0 <= i < es.len() ==> order::key_lt((#[trigger] es[i]).key, key),
    ensures
        ({
            let tables = state::handles(s.tables);
            let before = block::block_of(es);
            let next = block::encoded(e) + rest;
            let on = Ok::<FindView, TableError>(state::find_below(tables, key, table));
            &&& e.key == key ==> state::find_with(tables, key, table, before + next) == Ok::<
                FindView,
                TableError,
            >(FindView::Known(e.value))
            &&& order::key_lt(key, e.key) ==> state::find_with(tables, key, table, before + next)
                == on
            &&& state::find_with(tables, key, table, before) == on
            &&& rest.len() > 0 && block::first_entry(rest) is None ==> state::find_with(
                tables,
                key,
                table,
                before + rest,
            ) == Err::<FindView, TableError>(TableError::BadEntry)
        }),
{
    let before = block::block_of(es);
    let next = block::encoded(e) + rest;
    block::lemma_scan_ends_at_key(es, e, next, key);
    block::lemma_scan_ends_at_key(es, e, rest, key);
    block::lemma_scan_ends_at_key(es, e, Seq::empty(), key);
    assert(before + Seq::<u8>::empty() =~= before);
}

/// The tables that a merged one replaces are removed from the oldest on: each time
/// the one with the smallest id.
pub proof fn lemma_oldest_table_is_removed_first(s: TreeView, i: int)
    requires
        s.sound(),
        s.phase is Cleaning,
        0 <= i < s.stored_tables().len(),
    ensures
        ({
            let first = s.stored_tables()[0];
            &&& s.pending() == ActionView::RemoveTable(first.file_name)
            &&& first.id <= s.stored_tables()[i].id
            &&& s.completed().1 is None
            &&& s.completed().0.stored_tables() == s.stored_tables().drop_first()
        }),
{
    let all = s.stored_tables();
    if i > 0 {
        assert(all[0].id < all[i].id);
    }
    if let PhaseView::Cleaning(old) = s.phase {
        assert(all[0] == old[0]);
        assert(s.completed().0.stored_tables() =~= all.drop_first());
    }
}

/// The next id is one more than the greatest that some tables have. Without tables it
/// is 1.
pub proof fn lemma_next_id(tables: Seq<TableView>, i: int)
    requires
        0 <= i < tables.len(),
        forall|j: int| 0 <= j < tables.len() ==> (#[trigger] tables[j]).id <= tables[i].id,
    ensures
        state::id_after_all(Seq::empty()) == Some(1u64),
        state::id_after_all(tables) == (if tables[i].id == u64::MAX {
            None
        } else {
            Some((tables[i].id + 1) as u64)
        }),
    decreases tables.len(),
{
    lemma_next_id_bounds(tables);
    assert(tables[i].id <= tables[i].id);
    match state::id_after_all(tables) {
        None => {
            let j = choose|j: int| 0 <= j < tables.len() && (#[trigger] tables[j]).id == u64::MAX;
            assert(tables[j].id <= tables[i].id);
        },
        Some(id) => {
            assert(tables[i].id < id);
            if id != 1 {
                let j = choose|j: int|
                    0 <= j < tables.len() && (#[trigger] tables[j]).id == id - 1;
                assert(tables[j].id <= tables[i].id);
            }
        },
    }
}

/// The next id is greater than all, and not greater than it has to be.
proof fn lemma_next_id_bounds(tables: Seq<TableView>)
    ensures
        match state::id_after_all(tables) {
            None => exists|j: int|
                0 <= j < tables.len() && (#[trigger] tables[j]).id == u64::MAX,
            Some(id) => {
                &&& forall|j: int| 0 <= j < tables.len() ==> (#[trigger] tables[j]).id < id
                &&& id == 1 || exists|j: int|
                    0 <= j < tables.len() && (#[trigger] tables[j]).id == id - 1
                &&& id >= 1
            },
        },
    decreases tables.len(),
{
    if tables.len() > 0 {
        let init = tables.drop_last();
        let l = tables.len() - 1;
        lemma_next_id_bounds(init);
        assert(tables[l] == tables.last());
        match state::id_after_all(init) {
            None => {
                let j = choose|j: int|
                    0 <= j < init.len() && (#[trigger] init[j]).id == u64::MAX;
                assert(tables[j].id == u64::MAX);
            },
            Some(id) => {
                if tables.last().id < id {
                    if id != 1 {
                        let j = choose|j: int|
                            0 <= j < init.len() && (#[trigger] init[j]).id == id - 1;
                        assert(tables[j].id == id - 1);
                    }
                }
                if let Some(next) = state::id_after_all(tables) {
                    assert forall|j: int| 0 <= j < tables.len() implies (#[trigger] tables[j]).id
                        < next by {
                        if j < l {
                            assert(init[j].id < id);
                        }
                    }
                }
            },
        }
    }
}

/// Opening a data directory: each file is one table, in the same order, and the first
/// one that is not a table is reported. The memtable is what the log gives, and a log
/// with a torn end is to be cut off behind its last complete record.
pub proof fn lemma_what_is_opened(
    files: Seq<(u64, Seq<char>, Seq<u8>)>,
    log: Seq<u8>,
    opts: LsmOptions,
)
    ensures
        match TreeView::opened(files, log, opts) {
            Ok(s) => {
                &&& s.opts == opts
                &&& s.memtable == wal::layer_of(wal::replayed(log).0)
                &&& s.tables.len() == files.len()
                &&& forall|i: int|
                    0 <= i < files.len() ==> TableView::opened(
                        (#[trigger] files[i]).1,
                        files[i].0,
                        files[i].2,
                    ) == Ok::<TableView, TableError>(s.tables[i])
                &&& s.next_id == state::id_after_all(s.tables)
                &&& s.pending() == (if wal::replayed(log).1 < log.len() {
                    ActionView::TruncateWal(wal::replayed(log).1)
                } else {
                    ActionView::Done
                })
            },
            Err(e) => exists|i: int|
                {
                    &&& 0 <= i < files.len()
                    &&& TableView::opened((#[trigger] files[i]).1, files[i].0, files[i].2) == Err::<
                        TableView,
                        TableError,
                    >(e)
                    &&& forall|j: int|
                        0 <= j < i ==> TableView::opened(
                            (#[trigger] files[j]).1,
                            files[j].0,
                            files[j].2,
                        ) is Ok
                },
        },
{
    lemma_opened_tables(files);
}

/// Each file is one table, up to the first one that is not.
proof fn lemma_opened_tables(files: Seq<(u64, Seq<char>, Seq<u8>)>)
    ensures
        match state::opened_tables(files) {
            Ok(tables) => {
                &&& tables.len() == files.len()
                &&& forall|i: int|
                    0 <= i < files.len() ==> TableView::opened(
                        (#[trigger] files[i]).1,
                        files[i].0,
                        files[i].2,
                    ) == Ok::<TableView, TableError>(tables[i])
            },
            Err(e) => exists|i: int|
                {
                    &&& 0 <= i < files.len()
                    &&& TableView::opened((#[trigger] files[i]).1, files[i].0, files[i].2) == Err::<
                        TableView,
                        TableError,
                    >(e)
                    &&& forall|j: int|
                        0 <= j < i ==> TableView::opened(
                            (#[trigger] files[j]).1,
                            files[j].0,
                            files[j].2,
                        ) is Ok
                },
        },
    decreases files.len(),
{
    if files.len() > 0 {
        let init = files.drop_last();
        let l = files.len() - 1;
        lemma_opened_tables(init);
        assert(files[l] == files.last());
        assert forall|i: int| 0 <= i < l implies #[trigger] files[i] == init[i] by {}
        match state::opened_tables(init) {
            Err(e) => {
                let i = choose|i: int|
                    {
                        &&& 0 <= i < init.len()
                        &&& TableView::opened((#[trigger] init[i]).1, init[i].0, init[i].2) == Err::<
                            TableView,
                            TableError,
                        >(e)
                        &&& forall|j: int|
                            0 <= j < i ==> TableView::opened(
                                (#[trigger] init[j]).1,
                                init[j].0,
                                init[j].2,
                            ) is Ok
                    };
                assert(files[i] == init[i]);
                assert forall|j: int| 0 <= j < i implies TableView::opened(
                    (#[trigger] files[j]).1,
                    files[j].0,
                    files[j].2,
                ) is Ok by {
                    assert(init[j] == files[j]);
                }
            },
            Ok(tables) => {
                assert forall|j: int| 0 <= j < l implies TableView::opened(
                    (#[trigger] files[j]).1,
                    files[j].0,
                    files[j].2,
                ) == Ok::<TableView, TableError>(tables[j]) by {
                    assert(init[j] == files[j]);
                }
            },
        }
    }
}

/// A lookup reads nothing where the memtable mentions the key. Otherwise it asks for
/// a part of the newest table that can have the key: the filter does not rule it out,
/// and it is not before the first key. Where there is no such table the key is not
/// there.
pub proof fn lemma_lookup_reads_what_it_has_to(s: TreeView, key: Seq<u8>)
    ensures
        s.memtable.contains_key(key) ==> s.find(key) == FindView::Known(s.memtable[key]),
        !s.memtable.contains_key(key) ==> match s.find(key) {
            FindView::Known(v) => v is None && forall|i: int|
                0 <= i < s.tables.len() ==> rules_out(#[trigger] s.tables[i], key),
            FindView::Read(i, start, end) => {
                &&& 0 <= i < s.tables.len()
                &&& !rules_out(s.tables[i], key)
                &&& s.tables[i].handle().located(key) == Some((start, end))
                &&& forall|j: int| i < j < s.tables.len() ==> rules_out(#[trigger] s.tables[j], key)
            },
        },
{
    if !s.memtable.contains_key(key) {
        lemma_find_below(s.tables, key, s.tables.len() as int);
        assert(state::handles(s.tables).len() == s.tables.len());
    }
}

/// The table cannot have the key, by what is in memory of it: the filter rules it
/// out, or it is before all keys of the index.
pub open spec fn rules_out(t: TableView, key: Seq<u8>) -> bool {
    !t.filter.might_contain(key) || forall|i: int|
        0 <= i < t.index.len() ==> order::key_lt(key, #[trigger] t.index[i].key)
}

/// The part of a table is located where the table is not ruled out.
proof fn lemma_located(t: TableView, key: Seq<u8>)
    ensures
        t.handle().located(key) is None <==> rules_out(t, key),
{
    sstable::lemma_floor_splits(t.index, key);
    let p = sstable::floor_count(t.index, key);
    if p > 0 {
        assert(!order::key_lt(key, t.index[p - 1].key));
    }
}

/// The same of the first tables.
proof fn lemma_find_below(tables: Seq<TableView>, key: Seq<u8>, n: int)
    requires
        0 <= n <= tables.len(),
    ensures
        match state::find_below(state::handles(tables), key, n) {
            FindView::Known(v) => v is None && forall|i: int|
                0 <= i < n ==> rules_out(#[trigger] tables[i], key),
            FindView::Read(i, start, end) => {
                &&& 0 <= i < n
                &&& !rules_out(tables[i], key)
                &&& tables[i].handle().located(key) == Some((start, end))
                &&& forall|j: int| i < j < n ==> rules_out(#[trigger] tables[j], key)
            },
        },
    decreases n,
{
    if n > 0 {
        lemma_located(tables[n - 1], key);
        assert(state::handles(tables)[n - 1] == tables[n - 1].handle());
        lemma_find_below(tables, key, n - 1);
    }
}

/// No step changes the options.
pub proof fn lemma_options_stay(s: TreeView, r: RecordView)
    ensures
        s.write(r).0.opts == s.opts,
        s.flush().0.opts == s.opts,
        s.compact().0.opts == s.opts,
        s.completed().0.opts == s.opts,
{
}

/// What the store holds is what the newest layer says that mentions a key, the
/// memtable being newer than all tables.
pub proof fn lemma_what_the_store_holds(s: TreeView, i: int, key: Seq<u8>)
    ensures
        s.memtable.contains_key(key) ==> (s.contents().contains_key(key) <==> s.memtable[key]
            is Some) && (s.memtable[key] matches Some(v) ==> s.contents()[key] == v),
        !s.memtable.contains_key(key) && 0 <= i < s.tables.len()
            && s.tables[i].layer().contains_key(key) && (forall|j: int|
            i < j < s.tables.len() ==> !(#[trigger] s.tables[j]).layer().contains_key(key)) ==> (
        s.contents().contains_key(key) <==> s.tables[i].layer()[key] is Some) && (
        s.tables[i].layer()[key] matches Some(v) ==> s.contents()[key] == v),
        !s.memtable.contains_key(key) && (forall|j: int|
            0 <= j < s.tables.len() ==> !(#[trigger] s.tables[j]).layer().contains_key(key))
            ==> !s.contents().contains_key(key),
{
    let layers = s.layers();
    let n = s.tables.len() as int;
    assert(layers[n] == s.memtable);
    assert forall|j: int| 0 <= j < n implies #[trigger] layers[j] == s.tables[j].layer() by {}
    if s.memtable.contains_key(key) {
        entry::lemma_newest_layer_decides(layers, n, key);
    } else {
        if 0 <= i < n && s.tables[i].layer().contains_key(key) && (forall|j: int|
            i < j < n ==> !(#[trigger] s.tables[j]).layer().contains_key(key)) {
            assert forall|j: int| i < j < layers.len() implies !(
            #[trigger] layers[j]).contains_key(key) by {
                if j < n {
                    assert(!s.tables[j].layer().contains_key(key));
                }
            }
            entry::lemma_newest_layer_decides(layers, i, key);
        }
        if forall|j: int| 0 <= j < n ==> !(#[trigger] s.tables[j]).layer().contains_key(key) {
            assert forall|j: int| 0 <= j < layers.len() implies !(
            #[trigger] layers[j]).contains_key(key) by {
                if j < n {
                    assert(!s.tables[j].layer().contains_key(key));
                }
            }
            entry::lemma_no_layer_mentions(layers, key);
        }
    }
}

} // verus!
