//! The write-ahead log.
//!
//! Every write is appended to the log before it reaches the memtable. After a
//! crash the log is replayed from its first byte, which gives back the memtable
//! as it was.
//!
//! ## Record format
//!
//! ```text
//! [tag: u8]           0 = Put, 1 = Delete
//! [key_len: u32 LE]
//! [key bytes]
//! [value_len: u32 LE] (Put only)
//! [value bytes]       (Put only)
//! [checksum: u32 LE]  FNV-1a-32 over every byte above, this record only
//! ```
//!
//! A crash can leave a torn write at the end of the log: a record of which only
//! a part reached the disk. Replay stops at the first record whose checksum does
//! not match or that runs past the end, and drops that record and all bytes
//! after it. Every record before it is complete.

use crate::bytes;
use crate::entry::Layer;
use vstd::prelude::*;

verus! {

broadcast use bytes::group_le_len;

/// The initial value of 32-bit FNV-1a.
pub const FNV_OFFSET_32: u32 = 0x811c_9dc5;

/// The multiplier of 32-bit FNV-1a.
pub const FNV_PRIME_32: u32 = 0x0100_0193;

/// One write.
#[derive(Debug, PartialEq, Eq)]
pub enum WalRecord {
    Put(Vec<u8>, Vec<u8>),
    Delete(Vec<u8>),
}

/// What a record says.
#[verifier::ext_equal]
pub enum RecordView {
    Put(Seq<u8>, Seq<u8>),
    Delete(Seq<u8>),
}

impl View for WalRecord {
    type V = RecordView;

    open spec fn view(&self) -> RecordView {
        match self {
            WalRecord::Put(k, v) => RecordView::Put(k@, v@),
            WalRecord::Delete(k) => RecordView::Delete(k@),
        }
    }
}

/// What a sequence of records says.
pub open spec fn records_view(s: Seq<WalRecord>) -> Seq<RecordView> {
    s.map_values(|r: WalRecord| r@)
}

/// A record says what its bytes say.
pub proof fn lemma_what_records_say(s: Seq<WalRecord>, i: int, key: Vec<u8>, value: Vec<u8>)
    requires
        0 <= i < s.len(),
    ensures
        WalRecord::Put(key, value)@ == RecordView::Put(key@, value@),
        WalRecord::Delete(key)@ == RecordView::Delete(key@),
        records_view(s).len() == s.len(),
        records_view(s)[i] == s[i]@,
{
}

/// 32-bit FNV-1a of `data`.
pub open spec fn fnv1a_32_of(data: Seq<u8>) -> u32
    decreases data.len(),
{
    if data.len() == 0 {
        FNV_OFFSET_32
    } else {
        (fnv1a_32_of(data.drop_last()) ^ data.last() as u32).wrapping_mul(FNV_PRIME_32)
    }
}

/// The multiplier has an inverse modulo 2^32, so that multiplying by it loses
/// nothing.
proof fn lemma_prime_32_is_invertible(x: u32, y: u32)
    requires
        x.wrapping_mul(FNV_PRIME_32) == y.wrapping_mul(FNV_PRIME_32),
    ensures
        x == y,
{
    let m: int = 0x1_0000_0000;
    let p = FNV_PRIME_32 as int;
    let inverse: int = 0x359c_449b;
    assert(p * inverse == 1 + 3513497 * m);
    let d = x - y;
    let t = (x * p) / m - (y * p) / m;
    assert(d * p == t * m);
    let z = t * inverse - 3513497 * d;
    assert(d == m * z);
    assert(z == 0);
}

/// The checksum catches every damage to a single byte: two strings that differ in
/// one byte have different checksums.
pub proof fn lemma_one_damaged_byte_is_noticed(x: Seq<u8>, y: Seq<u8>, at: int)
    requires
        x.len() == y.len(),
        0 <= at < x.len(),
        x[at] != y[at],
        forall|i: int| 0 <= i < x.len() && i != at ==> x[i] == y[i],
    ensures
        fnv1a_32_of(x) != fnv1a_32_of(y),
    decreases x.len(),
{
    let a = x.drop_last();
    let b = y.drop_last();
    let g = fnv1a_32_of(a);
    let h = fnv1a_32_of(b);
    let c = x.last() as u32;
    let d = y.last() as u32;
    if fnv1a_32_of(x) == fnv1a_32_of(y) {
        lemma_prime_32_is_invertible(g ^ c, h ^ d);
        if at == x.len() - 1 {
            assert(a =~= b);
            assert(g ^ c == g ^ d ==> c == d) by (bit_vector);
        } else {
            lemma_one_damaged_byte_is_noticed(a, b, at);
            assert(x[x.len() - 1] == y[y.len() - 1]);
            assert(g ^ c == h ^ c ==> g == h) by (bit_vector);
        }
    }
}

/// Every byte counts: the checksum starts at 0x811c9dc5, and one more byte is
/// combined with it by exclusive or, and multiplied by 2^24 + 403 in 32 bits.
pub proof fn lemma_fnv1a_32_of_next_byte(data: Seq<u8>, b: u8)
    ensures
        fnv1a_32_of(Seq::empty()) == 0x811c_9dc5,
        fnv1a_32_of(data.push(b)) == ((fnv1a_32_of(data) ^ (b as u32)) * 16_777_619)
            % 0x1_0000_0000,
{
    assert(data.push(b).drop_last() =~= data);
}

/// FNV-1a, 32-bit.
pub fn fnv1a_32(data: &[u8]) -> (hash: u32)
    ensures
        hash == fnv1a_32_of(data@),
{
    let mut hash: u32 = FNV_OFFSET_32;
    let mut i: usize = 0;
    while i < data.len()
        invariant
            i <= data@.len(),
            hash == fnv1a_32_of(data@.take(i as int)),
        decreases data@.len() - i,
    {
        assert(data@.take(i + 1).drop_last() =~= data@.take(i as int));
        hash = (hash ^ (data[i] as u32)).wrapping_mul(FNV_PRIME_32);
        i = i + 1;
    }
    assert(data@.take(i as int) =~= data@);
    hash
}

impl RecordView {
    /// The lengths can be written in four bytes each.
    pub open spec fn fits(self) -> bool {
        match self {
            RecordView::Put(k, v) => k.len() <= u32::MAX && v.len() <= u32::MAX,
            RecordView::Delete(k) => k.len() <= u32::MAX,
        }
    }

    /// The bytes that the checksum covers.
    pub open spec fn body(self) -> Seq<u8> {
        match self {
            RecordView::Put(k, v) => seq![0u8] + bytes::le_u32(k.len() as u32) + k + bytes::le_u32(
                v.len() as u32,
            ) + v,
            RecordView::Delete(k) => seq![1u8] + bytes::le_u32(k.len() as u32) + k,
        }
    }

    /// The record as it stands in the log.
    pub open spec fn encoded(self) -> Seq<u8> {
        self.body() + bytes::le_u32(fnv1a_32_of(self.body()))
    }

    /// The bytes of the key and of the value.
    pub open spec fn data_len(self) -> nat {
        match self {
            RecordView::Put(k, v) => k.len() + v.len(),
            RecordView::Delete(k) => k.len(),
        }
    }

    /// What is recorded after the write, `l` being what was recorded before it.
    pub open spec fn applied_to(self, l: Layer) -> Layer {
        match self {
            RecordView::Put(k, v) => l.insert(k, Some(v)),
            RecordView::Delete(k) => l.insert(k, None),
        }
    }

    /// What the store holds after the write, `m` being what it held before it.
    pub open spec fn carried_out_on(self, m: Map<Seq<u8>, Seq<u8>>) -> Map<Seq<u8>, Seq<u8>> {
        match self {
            RecordView::Put(k, v) => m.insert(k, v),
            RecordView::Delete(k) => m.remove(k),
        }
    }
}

/// The log of some records.
pub open spec fn log_of(records: Seq<RecordView>) -> Seq<u8>
    decreases records.len(),
{
    if records.len() == 0 {
        Seq::empty()
    } else {
        log_of(records.drop_last()) + records.last().encoded()
    }
}

/// What is recorded after all of the writes, starting from nothing.
pub open spec fn layer_of(records: Seq<RecordView>) -> Layer
    decreases records.len(),
{
    if records.len() == 0 {
        Map::empty()
    } else {
        records.last().applied_to(layer_of(records.drop_last()))
    }
}

/// All records can be written.
pub open spec fn all_fit(records: Seq<RecordView>) -> bool {
    forall|i: int| 0 <= i < records.len() ==> (#[trigger] records[i]).fits()
}

/// The record that `b` starts with and its length in bytes, or `None` where `b`
/// starts with a torn record, or with none.
pub open spec fn first_record(b: Seq<u8>) -> Option<(RecordView, int)> {
    if b.len() < 5 {
        None
    } else {
        let key_end = 5 + bytes::u32_at(b, 1);
        if b[0] == 0 {
            if b.len() < key_end + 4 {
                None
            } else {
                let end = key_end + 4 + bytes::u32_at(b, key_end);
                if checksum_holds(b, end) {
                    Some(
                        (
                            RecordView::Put(b.subrange(5, key_end), b.subrange(key_end + 4, end)),
                            end + 4,
                        ),
                    )
                } else {
                    None
                }
            }
        } else if b[0] == 1 {
            if checksum_holds(b, key_end) {
                Some((RecordView::Delete(b.subrange(5, key_end)), key_end + 4))
            } else {
                None
            }
        } else {
            None
        }
    }
}

/// The first `end` bytes are there and are followed by their checksum.
pub open spec fn checksum_holds(b: Seq<u8>, end: int) -> bool {
    end + 4 <= b.len() && bytes::u32_at(b, end) == fnv1a_32_of(b.take(end))
}

/// The records of a log up to the first torn one, and the number of bytes that
/// they take up.
pub open spec fn replayed(b: Seq<u8>) -> (Seq<RecordView>, int)
    decreases b.len(),
{
    match first_record(b) {
        None => (Seq::empty(), 0),
        Some((r, n)) => {
            let rest = replayed(b.skip(n));
            (seq![r] + rest.0, n + rest.1)
        },
    }
}

/// A record that was written is read back, whatever follows it.
pub proof fn lemma_first_record_of_encoded(r: RecordView, rest: Seq<u8>)
    requires
        r.fits(),
    ensures
        first_record(r.encoded() + rest) == Some((r, r.encoded().len() as int)),
{
    let b = r.encoded() + rest;
    let body = r.body();
    assert(b.take(body.len() as int) =~= body);
    assert(b.subrange(body.len() as int, body.len() as int + 4) =~= bytes::le_u32(fnv1a_32_of(body)));
    bytes::lemma_u32_roundtrip(b, body.len() as int, fnv1a_32_of(body));
    match r {
        RecordView::Put(k, v) => {
            let kl = k.len() as int;
            let vl = v.len() as int;
            assert(b.subrange(1, 5) =~= bytes::le_u32(k.len() as u32));
            bytes::lemma_u32_roundtrip(b, 1, k.len() as u32);
            assert(b.subrange(5 + kl, 9 + kl) =~= bytes::le_u32(v.len() as u32));
            bytes::lemma_u32_roundtrip(b, 5 + kl, v.len() as u32);
            assert(b.subrange(5, 5 + kl) =~= k);
            assert(b.subrange(9 + kl, 9 + kl + vl) =~= v);
            assert(body.len() == 9 + kl + vl);
        },
        RecordView::Delete(k) => {
            let kl = k.len() as int;
            assert(b.subrange(1, 5) =~= bytes::le_u32(k.len() as u32));
            bytes::lemma_u32_roundtrip(b, 1, k.len() as u32);
            assert(b.subrange(5, 5 + kl) =~= k);
            assert(body.len() == 5 + kl);
        },
    }
}

/// A record that is read is the one whose bytes stand there.
pub proof fn lemma_first_record_is_encoded(b: Seq<u8>)
    ensures
        first_record(b) matches Some((r, n)) ==> {
            &&& r.fits()
            &&& 0 < n <= b.len()
            &&& n == r.encoded().len()
            &&& b.take(n) == r.encoded()
            &&& r.data_len() <= n
        },
{
    if let Some((r, n)) = first_record(b) {
        bytes::lemma_le_u32_at(b, 1);
        bytes::lemma_le_u32_at(b, n - 4);
        let key_end = 5 + bytes::u32_at(b, 1);
        match r {
            RecordView::Put(k, v) => {
                bytes::lemma_le_u32_at(b, key_end);
                assert(k.len() as u32 == bytes::u32_at(b, 1));
                assert(v.len() as u32 == bytes::u32_at(b, key_end));
                assert(r.body() =~= b.take(n - 4));
            },
            RecordView::Delete(k) => {
                assert(k.len() as u32 == bytes::u32_at(b, 1));
                assert(r.body() =~= b.take(n - 4));
            },
        }
        assert(b.take(n) =~= r.encoded());
    }
}

/// A torn write is noticed: no proper part of a record, cut off at its end, is
/// taken for a record.
pub proof fn lemma_torn_record(r: RecordView, n: int)
    requires
        r.fits(),
        0 <= n < r.encoded().len(),
    ensures
        first_record(r.encoded().take(n)) is None,
{
    let e = r.encoded();
    let b = e.take(n);
    lemma_first_record_is_encoded(b);
    if let Some((other, m)) = first_record(b) {
        assert(e =~= other.encoded() + e.skip(m)) by {
            assert(b.take(m) =~= e.take(m));
        }
        assert(e =~= e + Seq::<u8>::empty());
        lemma_first_record_of_encoded(other, e.skip(m));
        lemma_first_record_of_encoded(r, Seq::empty());
    }
}

/// A log starts with its first record.
proof fn lemma_log_of_first(records: Seq<RecordView>)
    requires
        records.len() > 0,
    ensures
        log_of(records) == records[0].encoded() + log_of(records.drop_first()),
    decreases records.len(),
{
    if records.len() == 1 {
        assert(records.drop_last() =~= Seq::empty());
        assert(records.drop_first() =~= Seq::empty());
        assert(log_of(records) =~= records[0].encoded() + log_of(records.drop_first()));
    } else {
        lemma_log_of_first(records.drop_last());
        assert(records.drop_last().drop_first() =~= records.drop_first().drop_last());
        assert(log_of(records) =~= records[0].encoded() + log_of(records.drop_first()));
    }
}

/// Replaying starts with the record that was written first.
proof fn lemma_replay_of_record(r: RecordView, rest: Seq<u8>)
    requires
        r.fits(),
    ensures
        replayed(r.encoded() + rest) == (
            seq![r] + replayed(rest).0,
            r.encoded().len() + replayed(rest).1,
        ),
{
    lemma_first_record_of_encoded(r, rest);
    assert((r.encoded() + rest).skip(r.encoded().len() as int) =~= rest);
}

/// Replaying a log gives its records, followed by what can be read after it.
pub proof fn lemma_replay_of_log(records: Seq<RecordView>, rest: Seq<u8>)
    requires
        all_fit(records),
    ensures
        replayed(log_of(records) + rest) == (
            records + replayed(rest).0,
            log_of(records).len() + replayed(rest).1,
        ),
    decreases records.len(),
{
    if records.len() == 0 {
        assert(log_of(records) + rest =~= rest);
        assert(records + replayed(rest).0 =~= replayed(rest).0);
    } else {
        let init = records.drop_last();
        let r = records.last();
        assert(log_of(records) + rest =~= log_of(init) + (r.encoded() + rest));
        assert forall|i: int| 0 <= i < init.len() implies (#[trigger] init[i]).fits() by {
            assert(records[i].fits());
        }
        lemma_replay_of_log(init, r.encoded() + rest);
        lemma_replay_of_record(r, rest);
        assert(init + (seq![r] + replayed(rest).0) =~= records + replayed(rest).0);
    }
}

/// Replaying a complete log gives exactly the records that were written.
pub proof fn lemma_replay_of_complete_log(records: Seq<RecordView>)
    requires
        all_fit(records),
    ensures
        replayed(log_of(records)) == (records, log_of(records).len() as int),
{
    lemma_replay_of_log(records, Seq::empty());
    assert(log_of(records) + Seq::<u8>::empty() =~= log_of(records));
    assert(records + Seq::<RecordView>::empty() =~= records);
}

/// A crash while a record was being appended loses that record and no other:
/// replay gives the records before it, and finds the place where the log is to
/// be cut off.
pub proof fn lemma_replay_of_torn_log(records: Seq<RecordView>, r: RecordView, n: int)
    requires
        all_fit(records),
        r.fits(),
        0 <= n < r.encoded().len(),
    ensures
        replayed(log_of(records) + r.encoded().take(n)) == (records, log_of(records).len() as int),
{
    lemma_torn_record(r, n);
    lemma_replay_of_log(records, r.encoded().take(n));
    assert(records + Seq::<RecordView>::empty() =~= records);
}

/// Whatever the bytes are, those that replay accepts are the log of the records
/// that it gives.
pub proof fn lemma_replayed_is_log(b: Seq<u8>)
    ensures
        all_fit(replayed(b).0),
        0 <= replayed(b).1 <= b.len(),
        b.take(replayed(b).1) == log_of(replayed(b).0),
    decreases b.len(),
{
    lemma_first_record_is_encoded(b);
    match first_record(b) {
        None => {
            assert(b.take(0) =~= log_of(Seq::empty()));
        },
        Some((r, n)) => {
            lemma_replayed_is_log(b.skip(n));
            let rest = replayed(b.skip(n));
            let all = seq![r] + rest.0;
            assert(all.drop_first() =~= rest.0);
            lemma_log_of_first(all);
            assert(b.take(n + rest.1) =~= b.take(n) + b.skip(n).take(rest.1));
            assert forall|i: int| 0 <= i < all.len() implies (#[trigger] all[i]).fits() by {
                if i > 0 {
                    assert(rest.0[i - 1].fits());
                }
            }
        },
    }
}

/// A record can be written where key and value have at most 2^32 - 1 bytes each.
pub proof fn lemma_what_fits(key: Seq<u8>, value: Seq<u8>)
    ensures
        RecordView::Put(key, value).fits() <==> key.len() <= 0xffff_ffff && value.len()
            <= 0xffff_ffff,
        RecordView::Delete(key).fits() <==> key.len() <= 0xffff_ffff,
{
}

/// The bytes of a record: the tag, the length of the key in four bytes, the key,
/// for a put the length of the value in four bytes and the value, and the checksum
/// of all that in four bytes.
pub proof fn lemma_record_bytes(key: Seq<u8>, value: Seq<u8>)
    ensures
        RecordView::Put(key, value).encoded() == {
            let body = seq![0u8] + bytes::le_u32(key.len() as u32) + key + bytes::le_u32(
                value.len() as u32,
            ) + value;
            body + bytes::le_u32(fnv1a_32_of(body))
        },
        RecordView::Delete(key).encoded() == {
            let body = seq![1u8] + bytes::le_u32(key.len() as u32) + key;
            body + bytes::le_u32(fnv1a_32_of(body))
        },
{
}

/// Replay does not stop early: where it stops, no complete record stands.
pub proof fn lemma_replay_stops_at_no_record(b: Seq<u8>, r: RecordView)
    requires
        match r {
            RecordView::Put(k, v) => k.len() <= 0xffff_ffff && v.len() <= 0xffff_ffff,
            RecordView::Delete(k) => k.len() <= 0xffff_ffff,
        },
    ensures
        !r.encoded().is_prefix_of(b.skip(replayed(b).1)),
    decreases b.len(),
{
    lemma_first_record_is_encoded(b);
    lemma_replayed_is_log(b);
    match first_record(b) {
        None => {
            assert(b.skip(0) =~= b);
            if r.encoded().is_prefix_of(b) {
                assert(b =~= r.encoded() + b.skip(r.encoded().len() as int));
                lemma_first_record_of_encoded(r, b.skip(r.encoded().len() as int));
            }
        },
        Some((f, n)) => {
            lemma_replayed_is_log(b.skip(n));
            lemma_replay_stops_at_no_record(b.skip(n), r);
            assert(b.skip(n).skip(replayed(b.skip(n)).1) =~= b.skip(replayed(b).1));
        },
    }
}

/// What is recorded for a key is what the last of its writes says.
pub proof fn lemma_last_write_counts(records: Seq<RecordView>, i: int, k: Seq<u8>)
    requires
        0 <= i < records.len(),
        records[i] matches RecordView::Put(key, _) ==> key == k,
        records[i] matches RecordView::Delete(key) ==> key == k,
        forall|j: int|
            i < j < records.len() ==> {
                &&& (#[trigger] records[j]) matches RecordView::Put(key, _) ==> key != k
                &&& records[j] matches RecordView::Delete(key) ==> key != k
            },
    ensures
        layer_of(records).contains_key(k),
        layer_of(records)[k] == (match records[i] {
            RecordView::Put(_, v) => Some(v),
            RecordView::Delete(_) => None,
        }),
    decreases records.len(),
{
    if i < records.len() - 1 {
        let init = records.drop_last();
        assert(records[records.len() - 1] == records.last());
        assert forall|j: int| i < j < init.len() implies {
            &&& (#[trigger] init[j]) matches RecordView::Put(key, _) ==> key != k
            &&& init[j] matches RecordView::Delete(key) ==> key != k
        } by {
            assert(init[j] == records[j]);
        }
        lemma_last_write_counts(init, i, k);
    }
}

/// A key that was not written is not recorded.
pub proof fn lemma_only_writes_count(records: Seq<RecordView>, k: Seq<u8>)
    requires
        forall|j: int|
            0 <= j < records.len() ==> {
                &&& (#[trigger] records[j]) matches RecordView::Put(key, _) ==> key != k
                &&& records[j] matches RecordView::Delete(key) ==> key != k
            },
    ensures
        !layer_of(records).contains_key(k),
    decreases records.len(),
{
    if records.len() > 0 {
        let init = records.drop_last();
        assert(records[records.len() - 1] == records.last());
        assert forall|j: int| 0 <= j < init.len() implies {
            &&& (#[trigger] init[j]) matches RecordView::Put(key, _) ==> key != k
            &&& init[j] matches RecordView::Delete(key) ==> key != k
        } by {
            assert(init[j] == records[j]);
        }
        lemma_only_writes_count(init, k);
    }
}

/// A record takes up more bytes than its key and value.
pub proof fn lemma_encoded_len(r: RecordView)
    ensures
        r.data_len() < r.encoded().len(),
{
}

/// A part of a log is not longer than the log.
pub proof fn lemma_log_of_part(records: Seq<RecordView>, n: int)
    requires
        0 <= n <= records.len(),
    ensures
        log_of(records.take(n)).len() <= log_of(records).len(),
    decreases records.len(),
{
    if n < records.len() {
        lemma_log_of_part(records.drop_last(), n);
        assert(records.drop_last().take(n) =~= records.take(n));
    } else {
        assert(records.take(n) =~= records);
    }
}

impl Clone for WalRecord {
    fn clone(&self) -> (r: Self)
        ensures
            r@ == self@,
    {
        match self {
            WalRecord::Put(key, value) => WalRecord::Put(
                bytes::copy_bytes(key.as_slice()),
                bytes::copy_bytes(value.as_slice()),
            ),
            WalRecord::Delete(key) => WalRecord::Delete(bytes::copy_bytes(key.as_slice())),
        }
    }
}

impl WalRecord {
    /// The bytes of the record in the log.
    pub fn encode(&self) -> (buf: Vec<u8>)
        ensures
            buf@ == self@.encoded(),
    {
        let mut buf: Vec<u8> = Vec::new();
        match self {
            WalRecord::Put(key, value) => {
                buf.push(0);
                bytes::push_u32(&mut buf, key.len() as u32);
                bytes::push_bytes(&mut buf, key.as_slice());
                bytes::push_u32(&mut buf, value.len() as u32);
                bytes::push_bytes(&mut buf, value.as_slice());
            },
            WalRecord::Delete(key) => {
                buf.push(1);
                bytes::push_u32(&mut buf, key.len() as u32);
                bytes::push_bytes(&mut buf, key.as_slice());
            },
        }
        assert(buf@ =~= self@.body());
        let checksum: u32 = fnv1a_32(buf.as_slice());
        bytes::push_u32(&mut buf, checksum);
        buf
    }
}

/// Whether the checksum of the first `end` bytes of `b` follows them.
fn check_checksum(b: &[u8], end: usize) -> (r: bool)
    ensures
        r == checksum_holds(b@, end as int),
{
    if b.len() < 4 || b.len() - 4 < end {
        return false;
    }
    let body = vstd::slice::slice_subrange(b, 0, end);
    assert(body@ =~= b@.take(end as int));
    bytes::read_u32(b, end) == fnv1a_32(body)
}

/// Reads the record that `b` starts with, and gives its length.
fn read_record(b: &[u8]) -> (r: Option<(WalRecord, usize)>)
    ensures
        match r {
            Some((rec, n)) => first_record(b@) == Some((rec@, n as int)),
            None => first_record(b@) is None,
        },
{
    if b.len() < 5 {
        return None;
    }
    let key_len: u32 = bytes::read_u32(b, 1);
    if b[0] == 0 {
        if b.len() < 9 || b.len() - 9 < key_len as usize {
            return None;
        }
        let key_end: usize = 5 + key_len as usize;
        let value_len: u32 = bytes::read_u32(b, key_end);
        if b.len() - (key_end + 4) < value_len as usize {
            return None;
        }
        let end: usize = key_end + 4 + value_len as usize;
        if !check_checksum(b, end) {
            return None;
        }
        let key = bytes::copy_bytes(vstd::slice::slice_subrange(b, 5, key_end));
        let value = bytes::copy_bytes(vstd::slice::slice_subrange(b, key_end + 4, end));
        Some((WalRecord::Put(key, value), end + 4))
    } else if b[0] == 1 {
        if b.len() - 5 < key_len as usize {
            return None;
        }
        let key_end: usize = 5 + key_len as usize;
        if !check_checksum(b, key_end) {
            return None;
        }
        let key = bytes::copy_bytes(vstd::slice::slice_subrange(b, 5, key_end));
        Some((WalRecord::Delete(key), key_end + 4))
    } else {
        None
    }
}

/// Reads a log from its first byte up to the first torn record. Gives the
/// records and the number of bytes that they take up.
pub fn replay(log: &[u8]) -> (r: (Vec<WalRecord>, usize))
    ensures
        (records_view(r.0@), r.1 as int) == replayed(log@),
{
    let mut records: Vec<WalRecord> = Vec::new();
    let mut pos: usize = 0;
    let mut done: bool = false;
    assert(log@.skip(0) =~= log@);
    assert(records_view(records@) + replayed(log@).0 =~= replayed(log@).0);
    while !done
        invariant
            pos <= log@.len(),
            replayed(log@).0 == records_view(records@) + replayed(log@.skip(pos as int)).0,
            replayed(log@).1 == pos + replayed(log@.skip(pos as int)).1,
            done ==> first_record(log@.skip(pos as int)) is None,
        decreases (if done { 0int } else { 1int }), log@.len() - pos,
    {
        let rest = vstd::slice::slice_subrange(log, pos, log.len());
        assert(rest@ =~= log@.skip(pos as int));
        proof {
            lemma_first_record_is_encoded(rest@);
        }
        match read_record(rest) {
            None => {
                done = true;
            },
            Some((record, n)) => {
                let ghost before = records@;
                records.push(record);
                assert(rest@.skip(n as int) =~= log@.skip(pos + n));
                assert(records_view(records@) =~= records_view(before).push(record@));
                assert(records_view(before) + (seq![record@] + replayed(log@.skip(pos + n)).0)
                    =~= records_view(records@) + replayed(log@.skip(pos + n)).0);
                pos = pos + n;
            },
        }
    }
    assert(records_view(records@) + Seq::<RecordView>::empty() =~= records_view(records@));
    (records, pos)
}

} // verus!
