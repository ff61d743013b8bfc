//! Compaction: merging SSTables into one.
//!
//! All tables are merged in one pass. The merge walks the tables side by side and
//! reads each of them part by part: in memory it has the current entry of each
//! table, the part of its file that was read last as far as it is not used up, and
//! the merged entries. The current entries are in a queue that gives the smallest
//! key first and among equal keys the entry of the newest table. Because the merge
//! spans every table there is, no older table is left underneath, and a tombstone
//! can be dropped for good: a deleted key leaves no trace.
//!
//! Tables come newest first. Where a key occurs in more than one table the merge
//! meets the entry of the newest one first and emits that; the entries of older
//! tables are passed over.

use crate::block;
use crate::block::TableError;
use crate::entry;
use crate::entry::{Entry, Layer};
use crate::merge::Merge;
use crate::order;
use crate::sstable::SsTable;
use vstd::prelude::*;

verus! {

/// The number of items in all sequences.
pub open spec fn total_len<A>(streams: Seq<Seq<A>>) -> nat
    decreases streams.len(),
{
    if streams.len() == 0 {
        0
    } else {
        total_len(streams.drop_last()) + streams.last().len()
    }
}

/// The stream whose first entry comes next: the one with the smallest key, and
/// of several with that key the first one, which is the newest.
pub open spec fn pick(streams: Seq<Seq<Entry>>) -> Option<int>
    decreases streams.len(),
{
    if streams.len() == 0 {
        None
    } else {
        let best = pick(streams.drop_last());
        let l = streams.len() - 1;
        if streams[l].len() > 0 && (best is None || order::key_lt(
            streams[l][0].key,
            streams[best.unwrap()][0].key,
        )) {
            Some(l)
        } else {
            best
        }
    }
}

/// The streams after the first entry of stream `s` has been taken.
pub open spec fn advance(streams: Seq<Seq<Entry>>, s: int) -> Seq<Seq<Entry>> {
    streams.update(s, streams[s].drop_first())
}

/// The merge of the streams: of every run of entries with the same key the first
/// one, without the tombstones. `last` is the key that was met before.
pub open spec fn merged(streams: Seq<Seq<Entry>>, last: Option<Seq<u8>>) -> Seq<Entry>
    decreases total_len(streams),
{
    match pick(streams) {
        None => Seq::empty(),
        Some(s) => {
            proof {
                lemma_pick(streams);
                lemma_total_len_advance(streams, s);
            }
            let e = streams[s][0];
            if last == Some(e.key) {
                merged(advance(streams, s), last)
            } else {
                let rest = merged(advance(streams, s), Some(e.key));
                if e.value is Some {
                    seq![e] + rest
                } else {
                    rest
                }
            }
        },
    }
}

/// What the newest stream that mentions `k` says of it.
pub open spec fn newest(streams: Seq<Seq<Entry>>, k: Seq<u8>) -> Option<Option<Seq<u8>>>
    decreases streams.len(),
{
    if streams.len() == 0 {
        None
    } else if entry::layer(streams[0]).contains_key(k) {
        Some(entry::layer(streams[0])[k])
    } else {
        newest(streams.drop_first(), k)
    }
}

/// The stream that is picked has an entry, no stream has a smaller first key,
/// and no newer stream has the same first key.
pub proof fn lemma_pick(streams: Seq<Seq<Entry>>)
    ensures
        pick(streams) is None <==> forall|j: int|
            0 <= j < streams.len() ==> (#[trigger] streams[j]).len() == 0,
        pick(streams) matches Some(s) ==> {
            &&& 0 <= s < streams.len()
            &&& streams[s].len() > 0
            &&& forall|j: int|
                0 <= j < streams.len() && (#[trigger] streams[j]).len() > 0 ==> !order::key_lt(
                    streams[j][0].key,
                    streams[s][0].key,
                )
            &&& forall|j: int|
                0 <= j < s && (#[trigger] streams[j]).len() > 0 ==> order::key_lt(
                    streams[s][0].key,
                    streams[j][0].key,
                )
        },
    decreases streams.len(),
{
    if streams.len() > 0 {
        let init = streams.drop_last();
        let l = streams.len() - 1;
        lemma_pick(init);
        assert forall|j: int| 0 <= j < l implies init[j] == #[trigger] streams[j] by {}
        let best = pick(init);
        if let Some(s) = pick(streams) {
            order::lemma_key_lt_irreflexive(streams[s][0].key);
            assert forall|j: int|
                0 <= j < streams.len() && (#[trigger] streams[j]).len() > 0 implies !order::key_lt(
                streams[j][0].key,
                streams[s][0].key,
            ) by {
                if s == l && j < l {
                    let b = best.unwrap();
                    assert(init[j].len() > 0);
                    if order::key_lt(streams[j][0].key, streams[l][0].key) {
                        order::lemma_key_lt_transitive(
                            streams[j][0].key,
                            streams[l][0].key,
                            streams[b][0].key,
                        );
                    }
                } else if s < l && j < l {
                    assert(init[j].len() > 0);
                }
            }
            assert forall|j: int|
                0 <= j < s && (#[trigger] streams[j]).len() > 0 implies order::key_lt(
                streams[s][0].key,
                streams[j][0].key,
            ) by {
                assert(init[j].len() > 0);
                if s == l {
                    let b = best.unwrap();
                    order::lemma_key_lt_total(streams[b][0].key, streams[j][0].key);
                    if order::key_lt(streams[b][0].key, streams[j][0].key) {
                        order::lemma_key_lt_transitive(
                            streams[l][0].key,
                            streams[b][0].key,
                            streams[j][0].key,
                        );
                    }
                }
            }
        }
        if pick(streams) is None {
            assert forall|j: int| 0 <= j < streams.len() implies (#[trigger] streams[j]).len()
                == 0 by {
                if j < l {
                    assert(init[j].len() == 0);
                }
            }
        } else if forall|j: int| 0 <= j < streams.len() ==> (#[trigger] streams[j]).len() == 0 {
            assert(streams[l].len() == 0);
            assert forall|j: int| 0 <= j < init.len() implies (#[trigger] init[j]).len() == 0 by {
                assert(streams[j].len() == 0);
            }
        }
    }
}

/// Taking an entry leaves one entry less.
pub proof fn lemma_total_len_advance(streams: Seq<Seq<Entry>>, s: int)
    requires
        0 <= s < streams.len(),
        streams[s].len() > 0,
    ensures
        total_len(advance(streams, s)) == total_len(streams) - 1,
{
    lemma_total_len_update(streams, s, streams[s].drop_first());
}

/// The number of items after one sequence has been replaced.
pub proof fn lemma_total_len_update<A>(seqs: Seq<Seq<A>>, s: int, other: Seq<A>)
    requires
        0 <= s < seqs.len(),
    ensures
        total_len(seqs.update(s, other)) == total_len(seqs) - seqs[s].len() + other.len(),
    decreases seqs.len(),
{
    let after = seqs.update(s, other);
    if s == seqs.len() - 1 {
        assert(after.drop_last() =~= seqs.drop_last());
    } else {
        lemma_total_len_update(seqs.drop_last(), s, other);
        assert(after.drop_last() =~= seqs.drop_last().update(s, other));
    }
}

/// A stream that says the same of `k` can take the place of another.
proof fn lemma_newest_update(streams: Seq<Seq<Entry>>, s: int, other: Seq<Entry>, k: Seq<u8>)
    requires
        0 <= s < streams.len(),
        entry::layer(other).contains_key(k) == entry::layer(streams[s]).contains_key(k),
        entry::layer(other).contains_key(k) ==> entry::layer(other)[k] == entry::layer(
            streams[s],
        )[k],
    ensures
        newest(streams.update(s, other), k) == newest(streams, k),
    decreases streams.len(),
{
    let after = streams.update(s, other);
    if s == 0 {
        assert(after.drop_first() =~= streams.drop_first());
    } else {
        lemma_newest_update(streams.drop_first(), s - 1, other, k);
        assert(after.drop_first() =~= streams.drop_first().update(s - 1, other));
    }
}

/// The first stream that mentions a key decides.
proof fn lemma_newest_is_first(streams: Seq<Seq<Entry>>, s: int, k: Seq<u8>)
    requires
        0 <= s < streams.len(),
        entry::layer(streams[s]).contains_key(k),
        forall|j: int| 0 <= j < s ==> !entry::layer(#[trigger] streams[j]).contains_key(k),
    ensures
        newest(streams, k) == Some(entry::layer(streams[s])[k]),
    decreases streams.len(),
{
    if s > 0 {
        assert(!entry::layer(streams[0]).contains_key(k));
        let tail = streams.drop_first();
        assert forall|j: int| 0 <= j < s - 1 implies !entry::layer(#[trigger] tail[j]).contains_key(
            k,
        ) by {
            assert(!entry::layer(streams[j + 1]).contains_key(k));
        }
        lemma_newest_is_first(tail, s - 1, k);
    }
}

/// A sorted run without its first entry mentions all keys but that one.
proof fn lemma_layer_drop_first(es: Seq<Entry>)
    requires
        entry::sorted(es),
        es.len() > 0,
    ensures
        entry::sorted(es.drop_first()),
        entry::layer(es.drop_first()) == entry::layer(es).remove(es[0].key),
{
    let tail = es.drop_first();
    assert(tail =~= es.subrange(1, es.len() as int));
    entry::lemma_sorted_subrange(es, 1, es.len() as int);
    let a = entry::layer(tail);
    let b = entry::layer(es).remove(es[0].key);
    assert forall|k: Seq<u8>| a.contains_key(k) == b.contains_key(k) by {
        entry::lemma_layer_contains(tail, k);
        entry::lemma_layer_contains(es, k);
        if a.contains_key(k) {
            let i = choose|i: int| 0 <= i < tail.len() && #[trigger] tail[i].key == k;
            assert(es[i + 1].key == k);
            assert(order::key_lt(es[0].key, es[i + 1].key));
            order::lemma_key_lt_asymmetric(es[0].key, es[i + 1].key);
        }
        if b.contains_key(k) {
            let i = choose|i: int| 0 <= i < es.len() && #[trigger] es[i].key == k;
            assert(tail[i - 1].key == k);
        }
    }
    assert forall|k: Seq<u8>| a.contains_key(k) implies a[k] == b[k] by {
        entry::lemma_layer_contains(tail, k);
        let i = choose|i: int| 0 <= i < tail.len() && #[trigger] tail[i].key == k;
        entry::lemma_layer_at(tail, i);
        entry::lemma_layer_at(es, i + 1);
    }
    assert(a =~= b);
}

/// All streams are sorted.
pub open spec fn all_sorted(streams: Seq<Seq<Entry>>) -> bool {
    forall|j: int| 0 <= j < streams.len() ==> entry::sorted(#[trigger] streams[j])
}

/// No entry has a key before `bound`.
spec fn none_before(streams: Seq<Seq<Entry>>, bound: Seq<u8>) -> bool {
    forall|j: int, i: int|
        0 <= j < streams.len() && 0 <= i < streams[j].len() ==> !order::key_lt(
            #[trigger] streams[j][i].key,
            bound,
        )
}

/// After an entry has been taken, no key that is left is before its key.
proof fn lemma_none_before_taken(streams: Seq<Seq<Entry>>, s: int)
    requires
        all_sorted(streams),
        pick(streams) == Some(s),
    ensures
        all_sorted(advance(streams, s)),
        none_before(advance(streams, s), streams[s][0].key),
{
    lemma_pick(streams);
    let key = streams[s][0].key;
    let after = advance(streams, s);
    lemma_layer_drop_first(streams[s]);
    assert forall|j: int| 0 <= j < after.len() implies entry::sorted(#[trigger] after[j]) by {
        assert(entry::sorted(streams[j]));
    }
    assert forall|j: int, i: int|
        0 <= j < after.len() && 0 <= i < after[j].len() implies !order::key_lt(
        #[trigger] after[j][i].key,
        key,
    ) by {
        assert(entry::sorted(streams[j]));
        let p = if j == s {
            i + 1
        } else {
            i
        };
        assert(streams[j].len() > 0);
        assert(streams[j][p] == after[j][i]);
        if p > 0 {
            assert(order::key_lt(streams[j][0].key, streams[j][p].key));
            if order::key_lt(streams[j][p].key, key) {
                order::lemma_key_lt_transitive(streams[j][0].key, streams[j][p].key, key);
            }
        }
    }
}

/// The entry that is taken is the newest one of its key, and taking it changes
/// nothing for other keys.
proof fn lemma_newest_advance(streams: Seq<Seq<Entry>>, s: int, k: Seq<u8>)
    requires
        all_sorted(streams),
        pick(streams) == Some(s),
    ensures
        newest(streams, streams[s][0].key) == Some(streams[s][0].value),
        k != streams[s][0].key ==> newest(advance(streams, s), k) == newest(streams, k),
{
    lemma_pick(streams);
    let key = streams[s][0].key;
    assert(entry::sorted(streams[s]));
    entry::lemma_layer_at(streams[s], 0);
    assert forall|j: int| 0 <= j < s implies !entry::layer(#[trigger] streams[j]).contains_key(
        key,
    ) by {
        assert(entry::sorted(streams[j]));
        entry::lemma_layer_contains(streams[j], key);
        if entry::layer(streams[j]).contains_key(key) {
            let i = choose|i: int| 0 <= i < streams[j].len() && #[trigger] streams[j][i].key == key;
            assert(order::key_lt(key, streams[j][0].key));
            order::lemma_key_lt_irreflexive(key);
            if i > 0 {
                assert(order::key_lt(streams[j][0].key, streams[j][i].key));
                order::lemma_key_lt_asymmetric(key, streams[j][0].key);
            }
        }
    }
    lemma_newest_is_first(streams, s, key);
    lemma_layer_drop_first(streams[s]);
    if k != key {
        lemma_newest_update(streams, s, streams[s].drop_first(), k);
    }
}

/// What the merge of sorted streams is: its keys ascend and come after `last`,
/// and it has exactly the keys, other than `last`, whose newest entry has a
/// value, with that value.
spec fn merge_result(
    streams: Seq<Seq<Entry>>,
    last: Option<Seq<u8>>,
    out: Seq<Entry>,
) -> bool {
    &&& entry::sorted(out)
    &&& forall|i: int| 0 <= i < out.len() ==> (#[trigger] out[i]).value is Some
    &&& forall|i: int|
        0 <= i < out.len() && last is Some ==> order::key_lt(
            last.unwrap(),
            #[trigger] out[i].key,
        )
    &&& forall|k: Seq<u8>| #[trigger]
        entry::layer(out).contains_key(k) <==> newest(streams, k) is Some && newest(
            streams,
            k,
        ).unwrap() is Some && last != Some(k)
    &&& forall|k: Seq<u8>| #[trigger]
        entry::layer(out).contains_key(k) ==> Some(entry::layer(out)[k]) == newest(streams, k)
}

/// The merge of sorted streams.
proof fn lemma_merged(streams: Seq<Seq<Entry>>, last: Option<Seq<u8>>)
    requires
        all_sorted(streams),
        last is Some ==> none_before(streams, last.unwrap()),
    ensures
        merge_result(streams, last, merged(streams, last)),
    decreases total_len(streams),
{
    lemma_pick(streams);
    match pick(streams) {
        None => {
            assert forall|k: Seq<u8>| newest(streams, k) is None by {
                lemma_newest_of_empty(streams, k);
            }
        },
        Some(s) => {
            let e = streams[s][0];
            let after = advance(streams, s);
            lemma_total_len_advance(streams, s);
            lemma_none_before_taken(streams, s);
            assert forall|k: Seq<u8>| k != e.key implies newest(after, k) == newest(
                streams,
                k,
            ) by {
                lemma_newest_advance(streams, s, k);
            }
            lemma_newest_advance(streams, s, e.key);
            if last == Some(e.key) {
                lemma_merged(after, last);
                let out = merged(after, last);
                assert(merge_result(streams, last, out));
            } else {
                lemma_merged(after, Some(e.key));
                let rest = merged(after, Some(e.key));
                if last is Some {
                    assert(!order::key_lt(streams[s][0].key, last.unwrap()));
                    order::lemma_key_lt_total(last.unwrap(), e.key);
                    assert forall|i: int| 0 <= i < rest.len() implies order::key_lt(
                        last.unwrap(),
                        #[trigger] rest[i].key,
                    ) by {
                        order::lemma_key_lt_transitive(last.unwrap(), e.key, rest[i].key);
                    }
                }
                if e.value is Some {
                    lemma_prepend(e, rest);
                    let out = seq![e] + rest;
                    assert forall|i: int| 0 <= i < out.len() implies (
                    #[trigger] out[i]).value is Some by {
                        if i > 0 {
                            assert(out[i] == rest[i - 1]);
                        }
                    }
                    assert forall|i: int|
                        0 <= i < out.len() && last is Some implies order::key_lt(
                        last.unwrap(),
                        #[trigger] out[i].key,
                    ) by {
                        if i > 0 {
                            assert(out[i] == rest[i - 1]);
                        }
                    }
                    assert(merge_result(streams, last, out)) by {
                        lemma_last_is_gone(streams, last, s);
                    }
                } else {
                    assert(merge_result(streams, last, rest)) by {
                        lemma_last_is_gone(streams, last, s);
                    }
                }
            }
        },
    }
}

/// Streams without entries mention nothing.
proof fn lemma_newest_of_empty(streams: Seq<Seq<Entry>>, k: Seq<u8>)
    requires
        forall|j: int| 0 <= j < streams.len() ==> (#[trigger] streams[j]).len() == 0,
    ensures
        newest(streams, k) is None,
    decreases streams.len(),
{
    if streams.len() > 0 {
        assert(streams[0].len() == 0);
        let tail = streams.drop_first();
        assert forall|j: int| 0 <= j < tail.len() implies (#[trigger] tail[j]).len() == 0 by {
            assert(streams[j + 1].len() == 0);
        }
        lemma_newest_of_empty(tail, k);
    }
}

/// Where the next key is not the last one, no stream mentions the last one any
/// more.
proof fn lemma_last_is_gone(streams: Seq<Seq<Entry>>, last: Option<Seq<u8>>, s: int)
    requires
        all_sorted(streams),
        pick(streams) == Some(s),
        last is Some ==> none_before(streams, last.unwrap()),
        last != Some(streams[s][0].key),
    ensures
        last is Some ==> newest(streams, last.unwrap()) is None,
{
    if last is Some {
        let key = last.unwrap();
        lemma_pick(streams);
        let head = streams[s][0].key;
        assert(!order::key_lt(streams[s][0].key, key));
        order::lemma_key_lt_total(key, head);
        assert forall|j: int| 0 <= j < streams.len() implies !entry::layer(
            #[trigger] streams[j],
        ).contains_key(key) by {
            assert(entry::sorted(streams[j]));
            entry::lemma_layer_contains(streams[j], key);
            if entry::layer(streams[j]).contains_key(key) {
                let i = choose|i: int|
                    0 <= i < streams[j].len() && #[trigger] streams[j][i].key == key;
                if i > 0 {
                    assert(order::key_lt(streams[j][0].key, streams[j][i].key));
                    order::lemma_key_lt_transitive(streams[j][0].key, key, head);
                }
                assert(order::key_lt(streams[j][0].key, head));
            }
        }
        lemma_newest_is_none(streams, key);
    }
}

/// A key that no stream mentions has no newest entry.
proof fn lemma_newest_is_none(streams: Seq<Seq<Entry>>, k: Seq<u8>)
    requires
        forall|j: int| 0 <= j < streams.len() ==> !entry::layer(#[trigger] streams[j]).contains_key(
            k,
        ),
    ensures
        newest(streams, k) is None,
    decreases streams.len(),
{
    if streams.len() > 0 {
        assert(!entry::layer(streams[0]).contains_key(k));
        let tail = streams.drop_first();
        assert forall|j: int| 0 <= j < tail.len() implies !entry::layer(
            #[trigger] tail[j],
        ).contains_key(k) by {
            assert(!entry::layer(streams[j + 1]).contains_key(k));
        }
        lemma_newest_is_none(tail, k);
    }
}

/// Putting an entry in front of entries with greater keys.
proof fn lemma_prepend(e: Entry, rest: Seq<Entry>)
    requires
        entry::sorted(rest),
        forall|i: int| 0 <= i < rest.len() ==> order::key_lt(e.key, #[trigger] rest[i].key),
    ensures
        entry::sorted(seq![e] + rest),
        entry::layer(seq![e] + rest) == entry::layer(rest).insert(e.key, e.value),
{
    entry::lemma_sorted_insert(rest, 0, e);
    assert(rest.insert(0, e) =~= seq![e] + rest);
}

/// What the streams, newest first, say of keys, as layers from the oldest on.
pub open spec fn layers_of(streams: Seq<Seq<Entry>>) -> Seq<Layer> {
    Seq::new(streams.len(), |i: int| entry::layer(streams[streams.len() - 1 - i]))
}

/// The newest entry of a key is the one that the layers show.
proof fn lemma_newest_is_overlay(streams: Seq<Seq<Entry>>, k: Seq<u8>)
    ensures
        newest(streams, k) is Some <==> entry::overlay(layers_of(streams)).contains_key(k),
        newest(streams, k) is Some ==> newest(streams, k).unwrap() == entry::overlay(
            layers_of(streams),
        )[k],
    decreases streams.len(),
{
    let layers = layers_of(streams);
    if streams.len() > 0 {
        lemma_newest_is_overlay(streams.drop_first(), k);
        assert(layers.drop_last() =~= layers_of(streams.drop_first()));
        assert(layers.last() == entry::layer(streams[0]));
    }
}

/// Merging sorted tables gives a sorted run without tombstones, which holds
/// exactly what the tables together hold: overwritten values and deleted keys
/// are gone, and nothing else is.
pub proof fn lemma_merge_keeps_what_is_live(streams: Seq<Seq<Entry>>)
    requires
        all_sorted(streams),
    ensures
        entry::sorted(merged(streams, None)),
        forall|i: int|
            0 <= i < merged(streams, None).len() ==> (#[trigger] merged(
                streams,
                None,
            )[i]).value is Some,
        entry::live(entry::layer(merged(streams, None))) == entry::live(
            entry::overlay(layers_of(streams)),
        ),
        forall|k: Seq<u8>| #[trigger]
            entry::layer(merged(streams, None)).contains_key(k) ==> entry::live(
                entry::overlay(layers_of(streams)),
            ).contains_key(k),
{
    lemma_merged(streams, None);
    let out = merged(streams, None);
    let a = entry::live(entry::layer(out));
    let b = entry::live(entry::overlay(layers_of(streams)));
    let o = entry::overlay(layers_of(streams));
    assert forall|k: Seq<u8>| #[trigger] entry::layer(out).contains_key(k) == b.contains_key(k) by {
        lemma_newest_is_overlay(streams, k);
    }
    assert forall|k: Seq<u8>| #[trigger]
        entry::layer(out).contains_key(k) implies entry::layer(out)[k] == o[k]
        && entry::layer(out)[k] is Some by {
        lemma_newest_is_overlay(streams, k);
    }
    assert forall|k: Seq<u8>| a.contains_key(k) == b.contains_key(k) by {
        assert(entry::layer(out).contains_key(k) == b.contains_key(k));
    }
    assert forall|k: Seq<u8>| a.contains_key(k) implies a[k] == b[k] by {
        assert(entry::layer(out).contains_key(k));
    }
    assert(a =~= b);
}

/// Where the entries of all streams can be written, so can those of their merge.
pub proof fn lemma_merged_entries_fit(streams: Seq<Seq<Entry>>, last: Option<Seq<u8>>)
    requires
        forall|j: int| 0 <= j < streams.len() ==> block::all_fit(#[trigger] streams[j]),
    ensures
        block::all_fit(merged(streams, last)),
    decreases total_len(streams),
{
    lemma_pick(streams);
    if let Some(s) = pick(streams) {
        let e = streams[s][0];
        let after = advance(streams, s);
        lemma_total_len_advance(streams, s);
        assert(block::all_fit(streams[s]));
        assert(block::fits(e));
        assert forall|j: int| 0 <= j < after.len() implies block::all_fit(#[trigger] after[j]) by {
            assert(block::all_fit(streams[j]));
            if j == s {
                assert forall|i: int| 0 <= i < after[j].len() implies block::fits(
                    #[trigger] after[j][i],
                ) by {
                    assert(block::fits(streams[s][i + 1]));
                }
            }
        }
        lemma_merged_entries_fit(after, last);
        lemma_merged_entries_fit(after, Some(e.key));
        let rest = merged(after, Some(e.key));
        assert forall|i: int| 0 <= i < (seq![e] + rest).len() implies block::fits(
            #[trigger] (seq![e] + rest)[i],
        ) by {
            if i > 0 {
                assert(block::fits(rest[i - 1]));
            }
        }
    }
}

/// The entries that a run of key-value pairs stands for.
pub open spec fn pairs_view(s: Seq<(Vec<u8>, Vec<u8>)>) -> Seq<Entry> {
    s.map_values(|p: (Vec<u8>, Vec<u8>)| Entry { key: p.0@, value: Some(p.1@) })
}

/// A key-value pair stands for the entry with these bytes.
pub proof fn lemma_pairs_are_live_entries(s: Seq<(Vec<u8>, Vec<u8>)>, i: int)
    requires
        0 <= i < s.len(),
    ensures
        pairs_view(s).len() == s.len(),
        pairs_view(s)[i].key == s[i].0@,
        pairs_view(s)[i].value == Some(s[i].1@),
{
}

/// All entries of some data blocks can be read.
pub open spec fn all_readable(datas: Seq<Seq<u8>>) -> bool {
    forall|i: int| 0 <= i < datas.len() ==> block::block_entries(#[trigger] datas[i]) is Some
}

/// The entries of some data blocks.
pub open spec fn streams_in(datas: Seq<Seq<u8>>) -> Seq<Seq<Entry>> {
    datas.map_values(|b: Seq<u8>| block::block_entries(b).unwrap())
}

/// The data blocks of some files, given the tables in them.
pub open spec fn data_of(tables: Seq<&SsTable>, files: Seq<&[u8]>) -> Seq<Seq<u8>> {
    Seq::new(tables.len(), |i: int| files[i]@.take(tables[i]@.data_len))
}

/// What is merged are the data blocks of all the files, entry by entry, and the first
/// table is the newest.
pub proof fn lemma_what_is_merged(tables: Seq<&SsTable>, files: Seq<&[u8]>, i: int)
    requires
        0 <= i < tables.len(),
        tables.len() == files.len(),
    ensures
        ({
            let datas = data_of(tables, files);
            let streams = streams_in(datas);
            let n = tables.len() as int;
            &&& datas.len() == n
            &&& datas[i] == files[i]@.take(tables[i]@.data_len)
            &&& streams.len() == n
            &&& block::block_entries(datas[i]) matches Some(es) ==> streams[i] == es
            &&& layers_of(streams).len() == n
            &&& layers_of(streams)[n - 1 - i] == entry::layer(streams[i])
            &&& block::block_entries(datas[i]) is None ==> !all_readable(datas)
        }),
{
}

/// Of every key the newest value is kept: an entry is in the merge exactly where a
/// stream has it, it is no tombstone, and no newer stream mentions its key.
pub proof fn lemma_newest_value_wins(streams: Seq<Seq<Entry>>, k: Seq<u8>, v: Seq<u8>)
    requires
        all_sorted(streams),
    ensures
        merged(streams, None).contains(Entry { key: k, value: Some(v) }) <==> exists|i: int|
            {
                &&& 0 <= i < streams.len()
                &&& (#[trigger] streams[i]).contains(Entry { key: k, value: Some(v) })
                &&& forall|j: int, m: int|
                    0 <= j < i && 0 <= m < streams[j].len() ==> (#[trigger] streams[j][m]).key != k
            },
{
    let out = merged(streams, None);
    let e = Entry { key: k, value: Some(v) };
    lemma_merged(streams, None);
    lemma_merge_keeps_what_is_live(streams);
    lemma_newest_is_overlay(streams, k);
    lemma_contains_is_layer(out, e);
    if let Some(i) = lemma_newest_stream(streams, k) {
        assert(entry::sorted(streams[i]));
        lemma_contains_is_layer(streams[i], e);
        lemma_newest_is_first(streams, i, k);
        assert forall|j: int, m: int|
            0 <= j < i && 0 <= m < streams[j].len() implies (#[trigger] streams[j][m]).key != k by {
            entry::lemma_layer_contains(streams[j], k);
        }
        assert forall|h: int|
            0 <= h < streams.len() && (#[trigger] streams[h]).contains(e) && (forall|j: int, m: int|
                0 <= j < h && 0 <= m < streams[j].len() ==> (#[trigger] streams[j][m]).key != k)
            implies h == i by {
            assert(entry::sorted(streams[h]));
            lemma_contains_is_layer(streams[h], e);
            if i < h {
                entry::lemma_layer_contains(streams[i], k);
                let m = choose|m: int|
                    0 <= m < streams[i].len() && #[trigger] streams[i][m].key == k;
                assert(streams[i][m].key != k);
            }
        }
    } else {
        lemma_newest_is_none(streams, k);
        assert forall|h: int| 0 <= h < streams.len() implies !(#[trigger] streams[h]).contains(
            e,
        ) by {
            assert(entry::sorted(streams[h]));
            lemma_contains_is_layer(streams[h], e);
        }
    }
}

/// An entry of a sorted run is what its layer says of the key.
proof fn lemma_contains_is_layer(es: Seq<Entry>, e: Entry)
    requires
        entry::sorted(es),
    ensures
        es.contains(e) <==> entry::layer(es).contains_key(e.key) && entry::layer(es)[e.key]
            == e.value,
{
    entry::lemma_layer_contains(es, e.key);
    if es.contains(e) {
        let i = choose|i: int| 0 <= i < es.len() && es[i] == e;
        entry::lemma_layer_at(es, i);
    }
    if entry::layer(es).contains_key(e.key) && entry::layer(es)[e.key] == e.value {
        let i = choose|i: int| 0 <= i < es.len() && #[trigger] es[i].key == e.key;
        entry::lemma_layer_at(es, i);
        assert(es[i] == e);
    }
}

/// The first stream that mentions a key, if there is one.
proof fn lemma_newest_stream(streams: Seq<Seq<Entry>>, k: Seq<u8>) -> (r: Option<int>)
    ensures
        match r {
            Some(i) => {
                &&& 0 <= i < streams.len()
                &&& entry::layer(streams[i]).contains_key(k)
                &&& forall|j: int|
                    0 <= j < i ==> !entry::layer(#[trigger] streams[j]).contains_key(k)
            },
            None => forall|j: int|
                0 <= j < streams.len() ==> !entry::layer(#[trigger] streams[j]).contains_key(k),
        },
    decreases streams.len(),
{
    if streams.len() == 0 {
        None
    } else {
        let init = streams.drop_last();
        let l = streams.len() - 1;
        let r = lemma_newest_stream(init, k);
        assert forall|j: int| 0 <= j < l implies init[j] == #[trigger] streams[j] by {}
        match r {
            Some(i) => {
                assert forall|j: int| 0 <= j < i implies !entry::layer(
                    #[trigger] streams[j],
                ).contains_key(k) by {
                    assert(!entry::layer(init[j]).contains_key(k));
                }
                r
            },
            None => {
                assert forall|j: int| 0 <= j < l implies !entry::layer(
                    #[trigger] streams[j],
                ).contains_key(k) by {
                    assert(!entry::layer(init[j]).contains_key(k));
                }
                if entry::layer(streams[l]).contains_key(k) {
                    Some(l)
                } else {
                    None
                }
            },
        }
    }
}

/// Merges tables, newest first, into a sorted run of live entries. `files` are the
/// contents of their files; the merge takes them in part by part.
pub fn merge_tables_dropping_tombstones(tables: &[&SsTable], files: &[&[u8]]) -> (r: Result<
    Vec<(Vec<u8>, Vec<u8>)>,
    TableError,
>)
    requires
        files@.len() == tables@.len(),
        forall|i: int|
            0 <= i < tables@.len() ==> 0 <= (#[trigger] tables@[i])@.data_len
                <= files@[i]@.len(),
    ensures
        match r {
            Ok(out) => {
                &&& all_readable(data_of(tables@, files@))
                &&& pairs_view(out@) == merged(streams_in(data_of(tables@, files@)), None)
            },
            Err(e) => !all_readable(data_of(tables@, files@)) && e == TableError::BadEntry,
        },
        r matches Ok(out) ==> all_sorted(streams_in(data_of(tables@, files@))) ==> {
            &&& entry::sorted(pairs_view(out@))
            &&& entry::live(entry::layer(pairs_view(out@))) == entry::live(
                entry::overlay(layers_of(streams_in(data_of(tables@, files@)))),
            )
        },
{
    let ghost datas = data_of(tables@, files@);
    proof {
        if all_sorted(streams_in(datas)) {
            lemma_merge_keeps_what_is_live(streams_in(datas));
        }
    }
    let mut merge = Merge::new(tables);
    assert(merge.progress(datas));
    loop
        invariant
            merge.wf(),
            merge.progress(datas),
            datas == data_of(tables@, files@),
            files@.len() == tables@.len(),
            forall|i: int|
                0 <= i < tables@.len() ==> 0 <= (#[trigger] tables@[i])@.data_len
                    <= files@[i]@.len(),
            all_sorted(streams_in(datas)) ==> entry::sorted(merged(streams_in(datas), None))
                && entry::live(entry::layer(merged(streams_in(datas), None))) == entry::live(
                entry::overlay(layers_of(streams_in(datas))),
            ),
        decreases merge.to_read(),
    {
        match merge.run() {
            Err(e) => {
                return Err(e);
            },
            Ok(None) => {
                return Ok(merge.into_output());
            },
            Ok(Some((table, start, end))) => {
                assert(0 <= tables@[table as int]@.data_len <= files@[table as int]@.len());
                let file = files[table];
                assert(file@ == files@[table as int]@);
                assert(end <= file.len());
                let part = vstd::slice::slice_subrange(file, start as usize, end as usize);
                assert(part@ =~= datas[table as int].subrange(start as int, end as int));
                merge.feed(part);
            },
        }
    }
}

} // verus!
