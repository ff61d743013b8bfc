//! The mathematical model of what a table holds.
//!
//! Every layer of the store, the memtable and each SSTable, is a sequence of
//! entries in key order. An entry carries a value or marks a deletion. Newer
//! layers cover older ones, and what is left after the marks are taken away is
//! what the store holds.

use crate::order;
use vstd::prelude::*;

verus! {

/// A key with its value, or with `None` where the entry is a tombstone.
#[verifier::ext_equal]
pub struct Entry {
    pub key: Seq<u8>,
    pub value: Option<Seq<u8>>,
}

/// What one layer says of keys: a key that it does not mention is not in the
/// map, a deleted key is mapped to `None`.
pub type Layer = Map<Seq<u8>, Option<Seq<u8>>>;

/// The value inside an optional byte vector.
pub open spec fn value_view(v: Option<Vec<u8>>) -> Option<Seq<u8>> {
    match v {
        Some(b) => Some(b@),
        None => None,
    }
}

/// The entry that a key-value pair stands for.
pub open spec fn entry_view(e: (Vec<u8>, Option<Vec<u8>>)) -> Entry {
    Entry { key: e.0@, value: value_view(e.1) }
}

/// The entries that a sequence of key-value pairs stands for.
pub open spec fn entries_view(s: Seq<(Vec<u8>, Option<Vec<u8>>)>) -> Seq<Entry> {
    s.map_values(|e: (Vec<u8>, Option<Vec<u8>>)| entry_view(e))
}

/// The keys ascend strictly.
pub open spec fn sorted(es: Seq<Entry>) -> bool {
    forall|i: int, j: int|
        0 <= i < j < es.len() ==> order::key_lt(#[trigger] es[i].key, #[trigger] es[j].key)
}

/// What the entries say of keys, the later entry of a key counting.
pub open spec fn layer(es: Seq<Entry>) -> Layer
    decreases es.len(),
{
    if es.len() == 0 {
        Map::empty()
    } else {
        layer(es.drop_last()).insert(es.last().key, es.last().value)
    }
}

/// All layers as one, `layers[0]` being the oldest: the newest layer that
/// mentions a key decides.
pub open spec fn overlay(layers: Seq<Layer>) -> Layer
    decreases layers.len(),
{
    if layers.len() == 0 {
        Map::empty()
    } else {
        overlay(layers.drop_last()).union_prefer_right(layers.last())
    }
}

/// The keys that have a value, with it.
pub open spec fn live(l: Layer) -> Map<Seq<u8>, Seq<u8>> {
    Map::new(|k: Seq<u8>| l.contains_key(k) && l[k] is Some, |k: Seq<u8>| l[k].unwrap())
}

/// The entries in key order that make up a layer.
pub open spec fn sorted_entries(l: Layer) -> Seq<Entry> {
    choose|es: Seq<Entry>| sorted(es) && layer(es) == l
}

/// Some entries make the layer up.
pub open spec fn is_run(l: Layer) -> bool {
    sorted(sorted_entries(l)) && layer(sorted_entries(l)) == l
}

/// The bytes of the key, and of the value where there is one.
pub open spec fn entry_bytes(e: Entry) -> nat {
    e.key.len() + match e.value {
        Some(v) => v.len(),
        None => 0,
    }
}

/// The bytes of key and value of a live entry. A tombstone is not live and counts
/// nothing.
pub open spec fn live_entry_bytes(e: Entry) -> nat {
    match e.value {
        Some(v) => e.key.len() + v.len(),
        None => 0,
    }
}

/// The bytes of keys and values of the live entries together.
pub open spec fn live_bytes(es: Seq<Entry>) -> nat
    decreases es.len(),
{
    if es.len() == 0 {
        0
    } else {
        live_bytes(es.drop_last()) + live_entry_bytes(es.last())
    }
}

/// A key-value pair stands for the entry with these bytes.
pub proof fn lemma_pairs_are_entries(s: Seq<(Vec<u8>, Option<Vec<u8>>)>, i: int)
    requires
        0 <= i < s.len(),
    ensures
        entries_view(s).len() == s.len(),
        entries_view(s)[i].key == s[i].0@,
        s[i].1 is None ==> entries_view(s)[i].value is None,
        s[i].1 matches Some(v) ==> entries_view(s)[i].value == Some(v@),
{
}

/// A layer mentions exactly the keys of its entries.
pub proof fn lemma_layer_contains(es: Seq<Entry>, k: Seq<u8>)
    ensures
        layer(es).contains_key(k) <==> exists|i: int| 0 <= i < es.len() && #[trigger] es[i].key == k,
    decreases es.len(),
{
    if es.len() > 0 {
        lemma_layer_contains(es.drop_last(), k);
        if layer(es.drop_last()).contains_key(k) {
            let i = choose|i: int|
                0 <= i < es.drop_last().len() && #[trigger] es.drop_last()[i].key == k;
            assert(es[i].key == k);
        }
        if exists|i: int| 0 <= i < es.len() && #[trigger] es[i].key == k {
            let i = choose|i: int| 0 <= i < es.len() && #[trigger] es[i].key == k;
            if i < es.len() - 1 {
                assert(es.drop_last()[i].key == k);
            }
        }
    }
}

/// A layer of sorted entries maps the key of each entry to its value.
pub proof fn lemma_layer_at(es: Seq<Entry>, i: int)
    requires
        sorted(es),
        0 <= i < es.len(),
    ensures
        layer(es).contains_key(es[i].key),
        layer(es)[es[i].key] == es[i].value,
    decreases es.len(),
{
    if i < es.len() - 1 {
        let l = es.len() - 1;
        assert(order::key_lt(es[i].key, es[l].key));
        order::lemma_key_lt_asymmetric(es[i].key, es[l].key);
        lemma_layer_at(es.drop_last(), i);
        assert(es.drop_last()[i] == es[i]);
    }
}

/// Sorted entries are determined by the layer that they make up.
pub proof fn lemma_sorted_unique(a: Seq<Entry>, b: Seq<Entry>)
    requires
        sorted(a),
        sorted(b),
        layer(a) == layer(b),
    ensures
        a == b,
    decreases a.len(),
{
    if a.len() == 0 || b.len() == 0 {
        if a.len() > 0 {
            lemma_layer_at(a, 0);
        }
        if b.len() > 0 {
            lemma_layer_at(b, 0);
        }
        assert(a =~= b);
    } else {
        let x = a.len() - 1;
        let y = b.len() - 1;
        lemma_layer_at(a, x);
        lemma_layer_at(b, y);
        lemma_layer_contains(b, a[x].key);
        lemma_layer_contains(a, b[y].key);
        let i = choose|i: int| 0 <= i < b.len() && #[trigger] b[i].key == a[x].key;
        let j = choose|j: int| 0 <= j < a.len() && #[trigger] a[j].key == b[y].key;
        if i != y {
            assert(order::key_lt(b[i].key, b[y].key));
            if j != x {
                assert(order::key_lt(a[j].key, a[x].key));
                order::lemma_key_lt_asymmetric(a[x].key, b[y].key);
            }
            order::lemma_key_lt_asymmetric(a[x].key, b[y].key);
        }
        assert(a[x] == b[y]);
        lemma_sorted_drop_last(a);
        lemma_sorted_drop_last(b);
        assert(layer(a.drop_last()) =~= layer(a).remove(a[x].key)) by {
            lemma_last_key_is_new(a);
        }
        assert(layer(b.drop_last()) =~= layer(b).remove(b[y].key)) by {
            lemma_last_key_is_new(b);
        }
        lemma_sorted_unique(a.drop_last(), b.drop_last());
        assert(a =~= a.drop_last().push(a[x]));
        assert(b =~= b.drop_last().push(b[y]));
    }
}

/// The size of some entries grows by the lengths of key and value with each value,
/// and not at all with a tombstone.
pub proof fn lemma_live_bytes_grow(es: Seq<Entry>, k: Seq<u8>, v: Seq<u8>)
    ensures
        live_bytes(Seq::empty()) == 0,
        live_bytes(es.push(Entry { key: k, value: Some(v) })) == live_bytes(es) + k.len() + v.len(),
        live_bytes(es.push(Entry { key: k, value: None })) == live_bytes(es),
{
    assert(es.push(Entry { key: k, value: Some(v) }).drop_last() =~= es);
    assert(es.push(Entry { key: k, value: None }).drop_last() =~= es);
}

/// What all layers say of a key is what the newest one says that mentions it.
pub proof fn lemma_newest_layer_decides(layers: Seq<Layer>, i: int, k: Seq<u8>)
    requires
        0 <= i < layers.len(),
        layers[i].contains_key(k),
        forall|j: int| i < j < layers.len() ==> !(#[trigger] layers[j]).contains_key(k),
    ensures
        overlay(layers).contains_key(k),
        overlay(layers)[k] == layers[i][k],
    decreases layers.len(),
{
    let init = layers.drop_last();
    let l = layers.len() - 1;
    if i < l {
        assert(!layers[l].contains_key(k));
        assert forall|j: int| i < j < init.len() implies !(#[trigger] init[j]).contains_key(k) by {
            assert(!layers[j].contains_key(k));
        }
        lemma_newest_layer_decides(init, i, k);
    }
}

/// A key that no layer mentions is not mentioned.
pub proof fn lemma_no_layer_mentions(layers: Seq<Layer>, k: Seq<u8>)
    requires
        forall|j: int| 0 <= j < layers.len() ==> !(#[trigger] layers[j]).contains_key(k),
    ensures
        !overlay(layers).contains_key(k),
    decreases layers.len(),
{
    if layers.len() > 0 {
        let init = layers.drop_last();
        assert(!layers[layers.len() - 1].contains_key(k));
        assert forall|j: int| 0 <= j < init.len() implies !(#[trigger] init[j]).contains_key(k) by {
            assert(!layers[j].contains_key(k));
        }
        lemma_no_layer_mentions(init, k);
    }
}

/// What is live are the keys with a value, each with its value.
pub proof fn lemma_live_is(l: Layer, k: Seq<u8>, v: Seq<u8>)
    ensures
        live(l).contains_key(k) && live(l)[k] == v <==> l.contains_key(k) && l[k] == Some(v),
{
}

/// Entries in key order are those that make up their layer.
pub proof fn lemma_sorted_entries(es: Seq<Entry>)
    requires
        sorted(es),
    ensures
        sorted_entries(layer(es)) == es,
        is_run(layer(es)),
{
    let other = sorted_entries(layer(es));
    assert(sorted(other) && layer(other) == layer(es));
    lemma_sorted_unique(other, es);
}

/// Sorted entries stay sorted without the last one.
pub proof fn lemma_sorted_drop_last(es: Seq<Entry>)
    requires
        sorted(es),
        es.len() > 0,
    ensures
        sorted(es.drop_last()),
{
    assert forall|i: int, j: int| 0 <= i < j < es.drop_last().len() implies order::key_lt(
        #[trigger] es.drop_last()[i].key,
        #[trigger] es.drop_last()[j].key,
    ) by {
        assert(order::key_lt(es[i].key, es[j].key));
    }
}

proof fn lemma_last_key_is_new(es: Seq<Entry>)
    requires
        sorted(es),
        es.len() > 0,
    ensures
        !layer(es.drop_last()).contains_key(es.last().key),
{
    lemma_layer_contains(es.drop_last(), es.last().key);
    if layer(es.drop_last()).contains_key(es.last().key) {
        let i = choose|i: int|
            0 <= i < es.drop_last().len() && #[trigger] es.drop_last()[i].key == es.last().key;
        assert(order::key_lt(es[i].key, es[es.len() - 1].key));
        order::lemma_key_lt_irreflexive(es.last().key);
    }
}

/// Adding an entry after the last key.
pub proof fn lemma_layer_push(es: Seq<Entry>, e: Entry)
    ensures
        layer(es.push(e)) == layer(es).insert(e.key, e.value),
        live_bytes(es.push(e)) == live_bytes(es) + live_entry_bytes(e),
{
    assert(es.push(e).drop_last() =~= es);
}

/// Sorted entries stay sorted where a greater key is added.
pub proof fn lemma_sorted_push(es: Seq<Entry>, e: Entry)
    requires
        sorted(es),
        es.len() > 0 ==> order::key_lt(es.last().key, e.key),
    ensures
        sorted(es.push(e)),
{
    assert forall|i: int, j: int| 0 <= i < j < es.push(e).len() implies order::key_lt(
        #[trigger] es.push(e)[i].key,
        #[trigger] es.push(e)[j].key,
    ) by {
        if j < es.len() {
            assert(order::key_lt(es[i].key, es[j].key));
        } else if i < es.len() - 1 {
            assert(order::key_lt(es[i].key, es[es.len() - 1].key));
            order::lemma_key_lt_transitive(es[i].key, es.last().key, e.key);
        }
    }
}

/// A part of sorted entries is sorted.
pub proof fn lemma_sorted_subrange(es: Seq<Entry>, from: int, to: int)
    requires
        sorted(es),
        0 <= from <= to <= es.len(),
    ensures
        sorted(es.subrange(from, to)),
{
    let s = es.subrange(from, to);
    assert forall|i: int, j: int| 0 <= i < j < s.len() implies order::key_lt(
        #[trigger] s[i].key,
        #[trigger] s[j].key,
    ) by {
        assert(order::key_lt(es[from + i].key, es[from + j].key));
    }
}

/// Giving a key a value makes it live with that value.
pub proof fn lemma_live_insert_value(l: Layer, k: Seq<u8>, v: Seq<u8>)
    ensures
        live(l.insert(k, Some(v))) == live(l).insert(k, v),
{
    assert(live(l.insert(k, Some(v))) =~= live(l).insert(k, v));
}

/// Marking a key as deleted takes it away.
pub proof fn lemma_live_insert_tombstone(l: Layer, k: Seq<u8>)
    ensures
        live(l.insert(k, None)) == live(l).remove(k),
{
    assert(live(l.insert(k, None)) =~= live(l).remove(k));
}

/// Putting a new entry between its neighbours.
pub proof fn lemma_sorted_insert(es: Seq<Entry>, at: int, e: Entry)
    requires
        sorted(es),
        0 <= at <= es.len(),
        forall|i: int| 0 <= i < at ==> order::key_lt(#[trigger] es[i].key, e.key),
        forall|i: int| at <= i < es.len() ==> order::key_lt(e.key, #[trigger] es[i].key),
    ensures
        sorted(es.insert(at, e)),
        layer(es.insert(at, e)) == layer(es).insert(e.key, e.value),
        !layer(es).contains_key(e.key),
{
    let n = es.insert(at, e);
    assert forall|i: int, j: int| 0 <= i < j < n.len() implies order::key_lt(
        #[trigger] n[i].key,
        #[trigger] n[j].key,
    ) by {
        let a = if i < at { i } else { i - 1 };
        let b = if j < at { j } else { j - 1 };
        if i != at && j != at {
            assert(order::key_lt(es[a].key, es[b].key));
        }
    }
    assert(layer(n) =~= layer(es).insert(e.key, e.value)) by {
        assert forall|k: Seq<u8>| layer(n).contains_key(k) == layer(es).insert(
            e.key,
            e.value,
        ).contains_key(k) by {
            lemma_layer_contains(n, k);
            lemma_layer_contains(es, k);
            assert(n[at] == e);
            if layer(n).contains_key(k) {
                let i = choose|i: int| 0 <= i < n.len() && #[trigger] n[i].key == k;
                if i < at {
                    assert(es[i].key == k);
                } else if i > at {
                    assert(es[i - 1].key == k);
                }
            }
            if layer(es).contains_key(k) {
                let i = choose|i: int| 0 <= i < es.len() && #[trigger] es[i].key == k;
                let j = if i < at { i } else { i + 1 };
                assert(n[j].key == k);
            }
        }
        assert forall|k: Seq<u8>| layer(n).contains_key(k) implies layer(n)[k] == layer(es).insert(
            e.key,
            e.value,
        )[k] by {
            lemma_layer_contains(n, k);
            let i = choose|i: int| 0 <= i < n.len() && #[trigger] n[i].key == k;
            lemma_layer_at(n, i);
            if i != at {
                let j = if i < at { i } else { i - 1 };
                lemma_layer_at(es, j);
                assert(n[i] == es[j]);
                order::lemma_key_lt_irreflexive(k);
            }
        }
    }
    lemma_layer_contains(es, e.key);
    order::lemma_key_lt_irreflexive(e.key);
}

/// Giving the key of an entry another value.
pub proof fn lemma_sorted_update(es: Seq<Entry>, at: int, e: Entry)
    requires
        sorted(es),
        0 <= at < es.len(),
        es[at].key == e.key,
    ensures
        sorted(es.update(at, e)),
        layer(es.update(at, e)) == layer(es).insert(e.key, e.value),
{
    let n = es.update(at, e);
    assert forall|i: int, j: int| 0 <= i < j < n.len() implies order::key_lt(
        #[trigger] n[i].key,
        #[trigger] n[j].key,
    ) by {
        assert(order::key_lt(es[i].key, es[j].key));
    }
    assert(layer(n) =~= layer(es).insert(e.key, e.value)) by {
        assert forall|k: Seq<u8>| layer(n).contains_key(k) == layer(es).insert(
            e.key,
            e.value,
        ).contains_key(k) by {
            lemma_layer_contains(n, k);
            lemma_layer_contains(es, k);
            assert(n[at].key == e.key);
            if layer(n).contains_key(k) {
                let i = choose|i: int| 0 <= i < n.len() && #[trigger] n[i].key == k;
                assert(es[i].key == k);
            }
            if layer(es).contains_key(k) {
                let i = choose|i: int| 0 <= i < es.len() && #[trigger] es[i].key == k;
                assert(n[i].key == k);
            }
        }
        assert forall|k: Seq<u8>| layer(n).contains_key(k) implies layer(n)[k] == layer(es).insert(
            e.key,
            e.value,
        )[k] by {
            lemma_layer_contains(n, k);
            let i = choose|i: int| 0 <= i < n.len() && #[trigger] n[i].key == k;
            lemma_layer_at(n, i);
            lemma_layer_at(es, i);
            if i != at {
                assert(n[i] == es[i]);
                if i < at {
                    order::lemma_key_lt_asymmetric(es[i].key, es[at].key);
                } else {
                    order::lemma_key_lt_asymmetric(es[at].key, es[i].key);
                }
            }
        }
    }
}

/// The live bytes of two parts add up.
pub proof fn lemma_live_bytes_add(a: Seq<Entry>, b: Seq<Entry>)
    ensures
        live_bytes(a + b) == live_bytes(a) + live_bytes(b),
    decreases b.len(),
{
    if b.len() == 0 {
        assert(a + b =~= a);
    } else {
        lemma_live_bytes_add(a, b.drop_last());
        assert((a + b).drop_last() =~= a + b.drop_last());
    }
}

/// The live bytes of the entries with one more.
pub proof fn lemma_live_bytes_insert(es: Seq<Entry>, at: int, e: Entry)
    requires
        0 <= at <= es.len(),
    ensures
        live_bytes(es.insert(at, e)) == live_bytes(es) + live_entry_bytes(e),
{
    let front = es.take(at);
    let back = es.skip(at);
    assert(es.insert(at, e) =~= front.push(e) + back);
    assert(es =~= front + back);
    lemma_live_bytes_add(front.push(e), back);
    lemma_live_bytes_add(front, back);
    lemma_layer_push(front, e);
}

/// The live bytes of the entries where one is replaced.
pub proof fn lemma_live_bytes_update(es: Seq<Entry>, at: int, e: Entry)
    requires
        0 <= at < es.len(),
    ensures
        live_bytes(es.update(at, e)) == live_bytes(es) - live_entry_bytes(es[at]) + live_entry_bytes(e),
        live_entry_bytes(es[at]) <= live_bytes(es),
{
    let front = es.take(at);
    let back = es.skip(at + 1);
    assert(es.update(at, e) =~= front.push(e) + back);
    assert(es =~= front.push(es[at]) + back);
    lemma_live_bytes_add(front.push(e), back);
    lemma_live_bytes_add(front.push(es[at]), back);
    lemma_layer_push(front, e);
    lemma_layer_push(front, es[at]);
}

/// Sorted entries make up a layer with as many keys.
pub proof fn lemma_layer_len(es: Seq<Entry>)
    requires
        sorted(es),
    ensures
        layer(es).dom().finite(),
        layer(es).len() == es.len(),
    decreases es.len(),
{
    if es.len() > 0 {
        lemma_sorted_drop_last(es);
        lemma_layer_len(es.drop_last());
        lemma_last_key_is_new(es);
        assert(layer(es).dom() =~= layer(es.drop_last()).dom().insert(es.last().key));
    }
}

/// A key that is greater than all keys up to a place and not greater than those
/// from it on.
proof fn lemma_place_of_key(es: Seq<Entry>, k: Seq<u8>) -> (p: int)
    requires
        sorted(es),
    ensures
        0 <= p <= es.len(),
        forall|i: int| 0 <= i < p ==> order::key_lt(#[trigger] es[i].key, k),
        forall|i: int| p <= i < es.len() ==> !order::key_lt(#[trigger] es[i].key, k),
    decreases es.len(),
{
    if es.len() == 0 {
        0
    } else {
        let l = es.len() - 1;
        let init = es.drop_last();
        lemma_sorted_drop_last(es);
        if order::key_lt(es[l].key, k) {
            assert forall|i: int| 0 <= i < es.len() implies order::key_lt(#[trigger] es[i].key, k) by {
                if i < l {
                    assert(order::key_lt(es[i].key, es[l].key));
                    order::lemma_key_lt_transitive(es[i].key, es[l].key, k);
                }
            }
            es.len() as int
        } else {
            let p = lemma_place_of_key(init, k);
            assert forall|i: int| 0 <= i < p implies order::key_lt(#[trigger] es[i].key, k) by {
                assert(order::key_lt(init[i].key, k));
            }
            assert forall|i: int| p <= i < es.len() implies !order::key_lt(
                #[trigger] es[i].key,
                k,
            ) by {
                if i < l {
                    assert(!order::key_lt(init[i].key, k));
                }
            }
            p
        }
    }
}

/// Recording something for a key leaves a layer that entries make up. Its
/// entries are those from before and the new one, which can take the place of
/// another.
pub proof fn lemma_run_insert(l: Layer, e: Entry)
    requires
        is_run(l),
    ensures
        is_run(l.insert(e.key, e.value)),
        live_bytes(sorted_entries(l.insert(e.key, e.value))) <= live_bytes(
            sorted_entries(l),
        ) + live_entry_bytes(e),
        forall|i: int|
            0 <= i < sorted_entries(l.insert(e.key, e.value)).len() ==> {
                let f = #[trigger] sorted_entries(l.insert(e.key, e.value))[i];
                f == e || sorted_entries(l).contains(f)
            },
{
    let es = sorted_entries(l);
    let p = lemma_place_of_key(es, e.key);
    if p < es.len() && es[p].key == e.key {
        let n = es.update(p, e);
        lemma_sorted_update(es, p, e);
        lemma_live_bytes_update(es, p, e);
        lemma_sorted_entries(n);
        assert forall|i: int| 0 <= i < n.len() implies #[trigger] n[i] == e || es.contains(n[i]) by {
            if i != p {
                assert(n[i] == es[i]);
            }
        }
    } else {
        assert forall|i: int| p <= i < es.len() implies order::key_lt(e.key, #[trigger] es[i].key) by {
            assert(!order::key_lt(es[i].key, e.key));
            order::lemma_key_lt_total(es[i].key, e.key);
            if es[i].key == e.key {
                assert(i > p);
                assert(order::key_lt(es[p].key, es[i].key));
            }
        }
        let n = es.insert(p, e);
        lemma_sorted_insert(es, p, e);
        lemma_live_bytes_insert(es, p, e);
        lemma_sorted_entries(n);
        assert forall|i: int| 0 <= i < n.len() implies #[trigger] n[i] == e || es.contains(n[i]) by {
            if i < p {
                assert(n[i] == es[i]);
            } else if i > p {
                assert(n[i] == es[i - 1]);
            }
        }
    }
}

/// The layer that mentions nothing.
pub proof fn lemma_run_empty()
    ensures
        is_run(Map::empty()),
        sorted_entries(Map::empty()) == Seq::<Entry>::empty(),
{
    lemma_sorted_entries(Seq::empty());
}

/// All layers with a newer one on top.
pub proof fn lemma_overlay_push(layers: Seq<Layer>, l: Layer)
    ensures
        overlay(layers.push(l)) == overlay(layers).union_prefer_right(l),
{
    assert(layers.push(l).drop_last() =~= layers);
}

/// What a newer layer leaves visible depends only on what was visible before.
pub proof fn lemma_live_overlay_push(a: Seq<Layer>, b: Seq<Layer>, l: Layer)
    requires
        live(overlay(a)) == live(overlay(b)),
    ensures
        live(overlay(a.push(l))) == live(overlay(b.push(l))),
{
    let x = live(overlay(a.push(l)));
    let y = live(overlay(b.push(l)));
    assert forall|k: Seq<u8>| x.contains_key(k) == y.contains_key(k) by {
        lemma_live_on_top(a, l, k);
        lemma_live_on_top(b, l, k);
    }
    assert forall|k: Seq<u8>| x.contains_key(k) implies x[k] == y[k] by {
        lemma_live_on_top(a, l, k);
        lemma_live_on_top(b, l, k);
    }
    assert(x =~= y);
}

/// What is visible of the layers with a newer one on top: the newer one decides
/// for the keys that it mentions.
pub proof fn lemma_live_on_top(layers: Seq<Layer>, l: Layer, k: Seq<u8>)
    ensures
        l.contains_key(k) ==> {
            &&& live(overlay(layers.push(l))).contains_key(k) <==> l[k] is Some
            &&& l[k] is Some ==> live(overlay(layers.push(l)))[k] == l[k].unwrap()
        },
        !l.contains_key(k) ==> {
            &&& live(overlay(layers.push(l))).contains_key(k) <==> live(
                overlay(layers),
            ).contains_key(k)
            &&& live(overlay(layers)).contains_key(k) ==> live(overlay(layers.push(l)))[k] == live(
                overlay(layers),
            )[k]
        },
{
    lemma_overlay_push(layers, l);
}

/// Nothing that the older layers still show is missing from the newer one: what
/// it does not mention is deleted in them, or not mentioned either.
pub open spec fn covers(l: Layer, older: Seq<Layer>) -> bool {
    forall|k: Seq<u8>|
        #![trigger overlay(older).contains_key(k)]
        overlay(older).contains_key(k) && !l.contains_key(k) ==> overlay(older)[k] is None
}

/// A layer that covers the older ones shows all that there is to see.
pub proof fn lemma_covers(l: Layer, older: Seq<Layer>)
    requires
        covers(l, older),
    ensures
        live(overlay(older.push(l))) == live(l),
{
    lemma_overlay_push(older, l);
    let x = live(overlay(older.push(l)));
    assert forall|k: Seq<u8>| x.contains_key(k) == live(l).contains_key(k) by {
        if overlay(older).contains_key(k) && !l.contains_key(k) {
            assert(overlay(older)[k] is None);
        }
    }
    assert(x =~= live(l));
}

/// Layers of which the oldest is taken away still say the same where they say
/// anything.
proof fn lemma_overlay_without_oldest(layers: Seq<Layer>, k: Seq<u8>)
    requires
        layers.len() > 0,
        overlay(layers.drop_first()).contains_key(k),
    ensures
        overlay(layers).contains_key(k),
        overlay(layers)[k] == overlay(layers.drop_first())[k],
    decreases layers.len(),
{
    let tail = layers.drop_first();
    if tail.len() > 0 {
        assert(tail.last() == layers.last());
        assert(layers.drop_last().drop_first() =~= tail.drop_last());
        if overlay(tail.drop_last()).contains_key(k) {
            lemma_overlay_without_oldest(layers.drop_last(), k);
        }
    }
}

/// The oldest of the covered layers can be taken away.
pub proof fn lemma_covers_without_oldest(l: Layer, older: Seq<Layer>)
    requires
        covers(l, older),
        older.len() > 0,
    ensures
        covers(l, older.drop_first()),
{
    let tail = older.drop_first();
    assert forall|k: Seq<u8>|
        #![trigger overlay(tail).contains_key(k)]
        overlay(tail).contains_key(k) && !l.contains_key(k) implies overlay(tail)[k] is None by {
        lemma_overlay_without_oldest(older, k);
        assert(overlay(older).contains_key(k));
    }
}

} // verus!
