//! A Bloom filter over byte-string keys.
//!
//! Each SSTable has one to answer "is this key definitely absent?" without
//! looking at the data. A filter never gives a false negative: where it says
//! "absent", the key was not inserted. It may give false positives; how often
//! depends on the bits that are spent per key.
//!
//! Two 64-bit FNV-1a hashes with different seeds are combined by double
//! hashing (`h1 + i * h2`) into the bit positions of a key.

use crate::bytes;
use vstd::prelude::*;

verus! {

broadcast use bytes::group_le_len;

/// The seed of the first hash: the FNV offset basis.
pub const SEED_1: u64 = 0xcbf2_9ce4_8422_2325;

/// The seed of the second hash: any other value.
pub const SEED_2: u64 = 0x1234_5678_9abc_def1;

/// The multiplier of 64-bit FNV-1a.
pub const FNV_PRIME_64: u64 = 0x100_0000_01b3;

/// What a serialized filter can have wrong with it.
#[derive(Clone, Copy, Debug, PartialEq, Eq, Structural)]
pub enum BloomError {
    /// There are fewer bytes than the fixed-size header takes.
    TooShort,
    /// The words end before their announced number is reached.
    Truncated,
}

/// 64-bit FNV-1a of `data`, started from `seed`.
pub open spec fn fnv1a_64_of(seed: u64, data: Seq<u8>) -> u64
    decreases data.len(),
{
    if data.len() == 0 {
        seed
    } else {
        (fnv1a_64_of(seed, data.drop_last()) ^ data.last() as u64).wrapping_mul(FNV_PRIME_64)
    }
}

/// The multiplier has an inverse modulo 2^64, so that multiplying by it loses
/// nothing.
proof fn lemma_prime_64_is_invertible(x: u64, y: u64)
    requires
        x.wrapping_mul(FNV_PRIME_64) == y.wrapping_mul(FNV_PRIME_64),
    ensures
        x == y,
{
    let m: int = 0x1_0000_0000_0000_0000;
    let p = FNV_PRIME_64 as int;
    let inverse: int = 0xce96_5057_aff6_957b;
    assert(p * inverse == 1 + 887285111055 * m);
    let d = x - y;
    let t = (x * p) / m - (y * p) / m;
    assert(d * p == t * m);
    let z = t * inverse - 887285111055 * d;
    assert(d == m * z);
    assert(z == 0);
}

/// One step of the hash loses nothing of what was hashed before.
proof fn lemma_hash_step_64(g: u64, h: u64, b: u8)
    requires
        (g ^ b as u64).wrapping_mul(FNV_PRIME_64) == (h ^ b as u64).wrapping_mul(FNV_PRIME_64),
    ensures
        g == h,
{
    let c = b as u64;
    lemma_prime_64_is_invertible(g ^ c, h ^ c);
    assert(g ^ c == h ^ c ==> g == h) by (bit_vector);
}

/// Hashing nothing gives the seed; hashing one string after the other is hashing
/// both together; and different seeds give different hashes of the same string.
pub proof fn lemma_fnv1a_64(s: u64, t: u64, a: Seq<u8>, b: Seq<u8>)
    ensures
        fnv1a_64_of(s, Seq::empty()) == s,
        fnv1a_64_of(s, a + b) == fnv1a_64_of(fnv1a_64_of(s, a), b),
        fnv1a_64_of(s, a) == fnv1a_64_of(t, a) <==> s == t,
    decreases a.len() + b.len(),
{
    if b.len() > 0 {
        lemma_fnv1a_64(s, t, a, b.drop_last());
        assert((a + b).drop_last() =~= a + b.drop_last());
    } else {
        assert(a + b =~= a);
        if a.len() > 0 {
            lemma_fnv1a_64(s, t, a.drop_last(), b);
            if fnv1a_64_of(s, a) == fnv1a_64_of(t, a) {
                lemma_hash_step_64(
                    fnv1a_64_of(s, a.drop_last()),
                    fnv1a_64_of(t, a.drop_last()),
                    a.last(),
                );
            }
        }
    }
}

/// Every byte counts: hashing one more byte combines it with the hash so far by
/// exclusive or, and multiplies by 2^40 + 435 in 64 bits.
pub proof fn lemma_fnv1a_64_of_next_byte(seed: u64, data: Seq<u8>, b: u8)
    ensures
        fnv1a_64_of(seed, data.push(b)) == ((fnv1a_64_of(seed, data) ^ (b as u64))
            * 1_099_511_628_211) % 0x1_0000_0000_0000_0000,
{
    assert(data.push(b).drop_last() =~= data);
}

/// Two keys that differ in one byte, wherever it is, have different hashes.
pub proof fn lemma_one_byte_changes_hash(seed: u64, x: Seq<u8>, y: Seq<u8>, at: int)
    requires
        x.len() == y.len(),
        0 <= at < x.len(),
        x[at] != y[at],
        forall|i: int| 0 <= i < x.len() && i != at ==> x[i] == y[i],
    ensures
        fnv1a_64_of(seed, x) != fnv1a_64_of(seed, y),
    decreases x.len(),
{
    let a = x.drop_last();
    let b = y.drop_last();
    let g = fnv1a_64_of(seed, a);
    let h = fnv1a_64_of(seed, b);
    let c = x.last() as u64;
    let d = y.last() as u64;
    if fnv1a_64_of(seed, x) == fnv1a_64_of(seed, y) {
        lemma_prime_64_is_invertible(g ^ c, h ^ d);
        if at == x.len() - 1 {
            assert(a =~= b);
            assert(g ^ c == g ^ d ==> c == d) by (bit_vector);
        } else {
            lemma_one_byte_changes_hash(seed, a, b, at);
            assert(x[x.len() - 1] == y[y.len() - 1]);
            assert(g ^ c == h ^ c ==> g == h) by (bit_vector);
        }
    }
}

/// FNV-1a, 64-bit, with an explicit seed.
pub fn fnv1a_64(seed: u64, data: &[u8]) -> (hash: u64)
    ensures
        hash == fnv1a_64_of(seed, data@),
{
    let mut hash: u64 = seed;
    let mut i: usize = 0;
    while i < data.len()
        invariant
            i <= data@.len(),
            hash == fnv1a_64_of(seed, data@.take(i as int)),
        decreases data@.len() - i,
    {
        assert(data@.take(i + 1).drop_last() =~= data@.take(i as int));
        hash = (hash ^ (data[i] as u64)).wrapping_mul(FNV_PRIME_64);
        i = i + 1;
    }
    assert(data@.take(i as int) =~= data@);
    hash
}

/// The first 24 decimal places of `ln 2`, as a whole number.
pub const LN_2_DIGITS: u128 = 693_147_180_559_945_309_417_232;

/// What that number is to be divided by.
pub const LN_2_SCALE: u128 = 1_000_000_000_000_000_000_000_000;

/// The number of hash functions for `bits_per_key` bits per key: the whole
/// number nearest to `bits_per_key * ln 2`, but at least 1, and no more than 32
/// bits can hold.
pub open spec fn hash_count(bits_per_key: int) -> int {
    let nearest = (2 * bits_per_key * LN_2_DIGITS + LN_2_SCALE) / (2 * LN_2_SCALE);
    if nearest < 1 {
        1
    } else if nearest > u32::MAX {
        u32::MAX as int
    } else {
        nearest
    }
}

/// The greater of two numbers.
pub open spec fn max(a: int, b: int) -> int {
    if a < b {
        b
    } else {
        a
    }
}

/// The bits that a filter of this size is to have, before rounding up to words.
pub open spec fn wanted_bits(expected_items: int, bits_per_key: int) -> int {
    max(max(expected_items, 1) * max(bits_per_key, 1), 64)
}

/// What a filter holds.
#[verifier::ext_equal]
pub struct BloomView {
    pub words: Seq<u64>,
    pub num_bits: u64,
    pub num_hashes: u32,
}

impl BloomView {
    /// Every bit position lies in a word.
    pub open spec fn wf(self) -> bool {
        self.num_bits <= 64 * self.words.len()
    }

    /// Bit `pos` is set.
    pub open spec fn has_bit(self, pos: u64) -> bool {
        self.words[(pos / 64) as int] & (1u64 << (pos % 64)) != 0
    }

    /// The `i`-th bit position of `key`.
    pub open spec fn position(self, key: Seq<u8>, i: int) -> u64 {
        if self.num_bits == 0 {
            0
        } else {
            let h1 = fnv1a_64_of(SEED_1, key);
            let h2 = fnv1a_64_of(SEED_2, key).wrapping_mul(2).wrapping_add(1);
            h1.wrapping_add((i as u64).wrapping_mul(h2)) % self.num_bits
        }
    }

    /// The filter with bit `pos` set.
    pub open spec fn with_bit(self, pos: u64) -> BloomView {
        let w = (pos / 64) as int;
        BloomView { words: self.words.update(w, self.words[w] | (1u64 << (pos % 64))), ..self }
    }

    /// The filter with the first `n` bit positions of `key` set.
    pub open spec fn with_positions(self, key: Seq<u8>, n: int) -> BloomView
        decreases n,
    {
        if n <= 0 {
            self
        } else {
            self.with_positions(key, n - 1).with_bit(self.position(key, n - 1))
        }
    }

    /// The filter with `key` inserted.
    pub open spec fn with_key(self, key: Seq<u8>) -> BloomView {
        if self.num_bits == 0 {
            self
        } else {
            self.with_positions(key, self.num_hashes as int)
        }
    }

    /// The filter with all keys inserted in turn.
    pub open spec fn with_keys(self, keys: Seq<Seq<u8>>) -> BloomView
        decreases keys.len(),
    {
        if keys.len() == 0 {
            self
        } else {
            self.with_keys(keys.drop_last()).with_key(keys.last())
        }
    }

    /// The answer of the filter on `key`. A filter without bits rules nothing
    /// out.
    pub open spec fn might_contain(self, key: Seq<u8>) -> bool {
        self.num_bits == 0 || forall|i: int|
            0 <= i < self.num_hashes ==> self.has_bit(#[trigger] self.position(key, i))
    }

    /// An empty filter for `expected_items` keys at `bits_per_key` bits each.
    pub open spec fn fresh(expected_items: int, bits_per_key: int) -> BloomView {
        let num_words = (wanted_bits(expected_items, bits_per_key) + 63) / 64;
        BloomView {
            words: Seq::new(num_words as nat, |i: int| 0u64),
            num_bits: (64 * num_words) as u64,
            num_hashes: hash_count(max(bits_per_key, 1)) as u32,
        }
    }

    /// The filter that rules nothing out.
    pub open spec fn off() -> BloomView {
        BloomView { words: Seq::empty(), num_bits: 0, num_hashes: 0 }
    }

    /// The serialized form: the number of bits, of hashes and of words, and the
    /// words.
    pub open spec fn encoded(self) -> Seq<u8> {
        bytes::le_u64(self.num_bits) + bytes::le_u32(self.num_hashes) + bytes::le_u64(
            self.words.len() as u64,
        ) + words_encoded(self.words)
    }

    /// The filter whose serialized form `buf` starts with.
    pub open spec fn decoded(buf: Seq<u8>) -> Result<BloomView, BloomError> {
        if buf.len() < 20 {
            Err(BloomError::TooShort)
        } else {
            let word_count = bytes::u64_at(buf, 12) as usize;
            if 20 + 8 * word_count > buf.len() {
                Err(BloomError::Truncated)
            } else {
                Ok(
                    BloomView {
                        words: Seq::new(word_count as nat, |i: int| bytes::u64_at(buf, 20 + 8 * i)),
                        num_bits: bytes::u64_at(buf, 0),
                        num_hashes: bytes::u32_at(buf, 8),
                    },
                )
            }
        }
    }
}

/// The words one after the other, each in eight bytes.
pub open spec fn words_encoded(words: Seq<u64>) -> Seq<u8>
    decreases words.len(),
{
    if words.len() == 0 {
        Seq::empty()
    } else {
        words_encoded(words.drop_last()) + bytes::le_u64(words.last())
    }
}

/// Positions are numbers of bits.
pub proof fn lemma_position_bound(v: BloomView, key: Seq<u8>, i: int)
    requires
        v.num_bits > 0,
    ensures
        v.position(key, i) < v.num_bits,
{
}

/// The bit positions of a key come from two hashes of all its bytes: the `i`-th one
/// is `h1 + i * h2` in 64 bits, modulo the number of bits. `h2` is odd.
pub proof fn lemma_positions_are_double_hashes(v: BloomView, key: Seq<u8>, i: int)
    requires
        v.num_bits > 0,
        0 <= i <= 0xffff_ffff,
    ensures
        ({
            let h1 = fnv1a_64_of(0xcbf2_9ce4_8422_2325, key) as int;
            let h2 = 2 * fnv1a_64_of(0x1234_5678_9abc_def1, key) + 1;
            v.position(key, i) == (h1 + i * h2) % 0x1_0000_0000_0000_0000 % (v.num_bits as int)
        }),
{
    let m: int = 0x1_0000_0000_0000_0000;
    let h1 = fnv1a_64_of(SEED_1, key);
    let g = fnv1a_64_of(SEED_2, key);
    let h2 = g.wrapping_mul(2).wrapping_add(1);
    let full = 2 * g + 1;
    assert(h2 == full % m);
    let p = (i as u64).wrapping_mul(h2);
    vstd::arithmetic::div_mod::lemma_mul_mod_noop_right(i, full, m);
    assert(p == (i * h2) % m);
    assert(p == (i * full) % m);
    vstd::arithmetic::div_mod::lemma_add_mod_noop_right(h1 as int, i * full, m);
    assert(h1.wrapping_add(p) == (h1 + p) % m);
    assert(h1.wrapping_add(p) == (h1 + i * full) % m);
}

/// Two keys that differ in one byte, wherever it is, are told apart: for some
/// number of bits their first positions differ.
pub proof fn lemma_one_byte_moves_a_position(v: BloomView, x: Seq<u8>, y: Seq<u8>, at: int)
    requires
        x.len() == y.len(),
        0 <= at < x.len(),
        x[at] != y[at],
        forall|i: int| 0 <= i < x.len() && i != at ==> x[i] == y[i],
    ensures
        exists|n: u64| n > 0 && #[trigger] (BloomView { num_bits: n, ..v }).position(x, 0)
            != (BloomView { num_bits: n, ..v }).position(y, 0),
{
    let g = fnv1a_64_of(SEED_1, x);
    let h = fnv1a_64_of(SEED_1, y);
    lemma_one_byte_changes_hash(SEED_1, x, y, at);
    let n: u64 = if g == u64::MAX || h == u64::MAX {
        if g == 0 || h == 0 {
            2
        } else {
            u64::MAX
        }
    } else {
        u64::MAX
    };
    let w = BloomView { num_bits: n, ..v };
    lemma_positions_are_double_hashes(w, x, 0);
    lemma_positions_are_double_hashes(w, y, 0);
    assert(w.position(x, 0) == g as int % n as int);
    assert(w.position(y, 0) == h as int % n as int);
    assert((BloomView { num_bits: n, ..v }).position(x, 0) != (BloomView {
        num_bits: n,
        ..v
    }).position(y, 0));
}

/// Setting a bit sets that bit and no other.
pub proof fn lemma_with_bit(v: BloomView, pos: u64, q: u64)
    requires
        pos < 64 * v.words.len(),
        q < 64 * v.words.len(),
    ensures
        v.with_bit(pos).has_bit(q) <==> q == pos || v.has_bit(q),
{
    let w = v.words[(pos / 64) as int];
    let b = pos % 64;
    let c = q % 64;
    assert((w | (1u64 << b)) & (1u64 << c) != 0 <==> b == c || w & (1u64 << c) != 0) by (bit_vector)
        requires
            b < 64,
            c < 64,
    ;
}

/// The bits after setting the first `n` positions of a key: those that were set
/// and those positions.
pub proof fn lemma_with_positions(v: BloomView, key: Seq<u8>, n: int, q: u64)
    requires
        v.wf(),
        v.num_bits > 0,
        q < 64 * v.words.len(),
    ensures
        v.with_positions(key, n).words.len() == v.words.len(),
        v.with_positions(key, n).num_bits == v.num_bits,
        v.with_positions(key, n).num_hashes == v.num_hashes,
        v.with_positions(key, n).has_bit(q) <==> v.has_bit(q) || exists|i: int|
            0 <= i < n && #[trigger] v.position(key, i) == q,
    decreases n,
{
    if n > 0 {
        lemma_with_positions(v, key, n - 1, q);
        let u = v.with_positions(key, n - 1);
        let p = v.position(key, n - 1);
        lemma_with_bit(u, p, q);
        if exists|i: int| 0 <= i < n && #[trigger] v.position(key, i) == q {
            let i = choose|i: int| 0 <= i < n && #[trigger] v.position(key, i) == q;
            if i < n - 1 {
                assert(v.position(key, i) == q);
            }
        }
    }
}

/// Inserting a key sets its positions, keeps every set bit and sets no other.
pub proof fn lemma_with_key(v: BloomView, key: Seq<u8>, q: u64)
    requires
        v.wf(),
        v.num_bits > 0,
        q < 64 * v.words.len(),
    ensures
        v.with_key(key).has_bit(q) <==> v.has_bit(q) || exists|i: int|
            0 <= i < v.num_hashes && #[trigger] v.position(key, i) == q,
{
    lemma_with_positions(v, key, v.num_hashes as int, q);
}

/// Inserting a key keeps the shape of a filter.
pub proof fn lemma_with_key_shape(v: BloomView, key: Seq<u8>)
    requires
        v.wf(),
    ensures
        v.with_key(key).wf(),
        v.with_key(key).words.len() == v.words.len(),
        v.with_key(key).num_bits == v.num_bits,
        v.with_key(key).num_hashes == v.num_hashes,
{
    if v.num_bits > 0 {
        lemma_with_positions(v, key, v.num_hashes as int, 0);
    }
}

/// A key that was inserted is never ruled out.
pub proof fn lemma_inserted_key_is_found(v: BloomView, key: Seq<u8>)
    requires
        v.wf(),
    ensures
        v.with_key(key).might_contain(key),
{
    let u = v.with_key(key);
    lemma_with_key_shape(v, key);
    if v.num_bits > 0 {
        assert forall|i: int| 0 <= i < u.num_hashes implies u.has_bit(
            #[trigger] u.position(key, i),
        ) by {
            let q = u.position(key, i);
            assert(q == v.position(key, i));
            lemma_with_key(v, key, q);
        }
    }
}

/// What a filter does not rule out it does not rule out after more insertions.
pub proof fn lemma_insert_keeps_answers(v: BloomView, other: Seq<u8>, key: Seq<u8>)
    requires
        v.wf(),
        v.might_contain(key),
    ensures
        v.with_key(other).might_contain(key),
{
    let u = v.with_key(other);
    lemma_with_key_shape(v, other);
    if v.num_bits > 0 {
        assert forall|i: int| 0 <= i < u.num_hashes implies u.has_bit(
            #[trigger] u.position(key, i),
        ) by {
            let q = u.position(key, i);
            assert(q == v.position(key, i));
            lemma_with_key(v, other, q);
        }
    }
}

/// No false negatives: after any insertions, in any order, none of the inserted
/// keys is ruled out.
pub proof fn lemma_no_false_negatives(v: BloomView, keys: Seq<Seq<u8>>, i: int)
    requires
        v.wf(),
        0 <= i < keys.len(),
    ensures
        v.with_keys(keys).wf(),
        v.with_keys(keys).might_contain(keys[i]),
    decreases keys.len(),
{
    lemma_with_keys_wf(v, keys.drop_last());
    let u = v.with_keys(keys.drop_last());
    lemma_with_key_shape(u, keys.last());
    if i == keys.len() - 1 {
        lemma_inserted_key_is_found(u, keys[i]);
    } else {
        lemma_no_false_negatives(v, keys.drop_last(), i);
        lemma_insert_keeps_answers(u, keys.last(), keys[i]);
    }
}

/// Insertions keep the shape of a filter.
pub proof fn lemma_with_keys_wf(v: BloomView, keys: Seq<Seq<u8>>)
    requires
        v.wf(),
    ensures
        v.with_keys(keys).wf(),
        v.with_keys(keys).words.len() == v.words.len(),
        v.with_keys(keys).num_bits == v.num_bits,
        v.with_keys(keys).num_hashes == v.num_hashes,
    decreases keys.len(),
{
    if keys.len() > 0 {
        lemma_with_keys_wf(v, keys.drop_last());
        lemma_with_key_shape(v.with_keys(keys.drop_last()), keys.last());
    }
}

/// The position is one of some keys.
pub open spec fn is_position_of(v: BloomView, keys: Seq<Seq<u8>>, q: u64) -> bool {
    exists|j: int, m: int|
        0 <= j < keys.len() && 0 <= m < v.num_hashes && #[trigger] v.position(keys[j], m) == q
}

/// The bits after some insertions: those that were set, and the positions of the
/// keys.
proof fn lemma_with_keys_bits(v: BloomView, keys: Seq<Seq<u8>>, q: u64)
    requires
        v.wf(),
        v.num_bits > 0,
        q < 64 * v.words.len(),
    ensures
        v.with_keys(keys).has_bit(q) <==> v.has_bit(q) || is_position_of(v, keys, q),
    decreases keys.len(),
{
    if keys.len() > 0 {
        let init = keys.drop_last();
        let u = v.with_keys(init);
        let l = keys.len() - 1;
        lemma_with_keys_bits(v, init, q);
        lemma_with_keys_wf(v, init);
        lemma_with_key(u, keys.last(), q);
        assert forall|i: int| u.position(keys.last(), i) == #[trigger] v.position(keys[l], i) by {}
        if is_position_of(v, init, q) {
            let (j, m) = choose|j: int, m: int|
                0 <= j < init.len() && 0 <= m < v.num_hashes && #[trigger] v.position(init[j], m)
                    == q;
            assert(v.position(keys[j], m) == q);
        }
        if is_position_of(v, keys, q) {
            let (j, m) = choose|j: int, m: int|
                0 <= j < keys.len() && 0 <= m < v.num_hashes && #[trigger] v.position(keys[j], m)
                    == q;
            if j < l {
                assert(v.position(init[j], m) == q);
            } else {
                assert(u.position(keys.last(), m) == q);
            }
        }
        if exists|i: int| 0 <= i < u.num_hashes && #[trigger] u.position(keys.last(), i) == q {
            let i = choose|i: int|
                0 <= i < u.num_hashes && #[trigger] u.position(keys.last(), i) == q;
            assert(v.position(keys[l], i) == q);
        }
    }
}

/// A filter says "maybe" exactly where it has to: every position of the key is a
/// position of some key that was inserted.
pub proof fn lemma_maybe_needs_shared_positions(v: BloomView, keys: Seq<Seq<u8>>, key: Seq<u8>)
    requires
        v.wf(),
        v.num_bits > 0,
        forall|q: u64| q < 64 * v.words.len() ==> !#[trigger] v.has_bit(q),
    ensures
        v.with_keys(keys).might_contain(key) <==> forall|i: int|
            0 <= i < v.num_hashes ==> is_position_of(v, keys, #[trigger] v.position(key, i)),
{
    let u = v.with_keys(keys);
    lemma_with_keys_wf(v, keys);
    assert forall|i: int| 0 <= i < v.num_hashes implies (is_position_of(
        v,
        keys,
        #[trigger] v.position(key, i),
    ) <==> u.has_bit(u.position(key, i))) by {
        let q = v.position(key, i);
        assert(u.position(key, i) == q);
        lemma_position_bound(v, key, i);
        assert(!v.has_bit(q));
        lemma_with_keys_bits(v, keys, q);
    }
    if u.might_contain(key) {
        assert forall|i: int| 0 <= i < v.num_hashes implies is_position_of(
            v,
            keys,
            #[trigger] v.position(key, i),
        ) by {
            assert(u.has_bit(u.position(key, i)));
        }
    } else {
        let i = choose|i: int| 0 <= i < u.num_hashes && !u.has_bit(#[trigger] u.position(key, i));
        assert(!is_position_of(v, keys, v.position(key, i)));
    }
}

/// A new filter has as many bits as were asked for, but at least 64, rounded up to
/// whole words. None of them is set. Its number of hashes is `bits_per_key * ln 2`,
/// rounded (see `lemma_hash_count_is_nearest` for the fractions).
pub proof fn lemma_fresh_size(expected_items: int, bits_per_key: int)
    requires
        0 <= expected_items,
        0 <= bits_per_key,
        (if expected_items < 1 {
            1
        } else {
            expected_items
        }) * (if bits_per_key < 1 {
            1
        } else {
            bits_per_key
        }) <= u64::MAX - 63,
    ensures
        ({
            let f = BloomView::fresh(expected_items, bits_per_key);
            let b = if bits_per_key < 1 {
                1
            } else {
                bits_per_key
            };
            let product = (if expected_items < 1 {
                1
            } else {
                expected_items
            }) * b;
            let k = f.num_hashes as int;
            &&& f.num_bits == 64 * f.words.len()
            &&& f.num_bits >= 64
            &&& f.num_bits >= product
            &&& f.num_bits < product + 64 || f.num_bits == 64
            &&& forall|i: int| 0 <= i < f.words.len() ==> #[trigger] f.words[i] == 0
            &&& forall|q: u64| q < f.num_bits ==> !#[trigger] f.has_bit(q)
            &&& 1 <= k
            &&& (2 * k - 1) * 9878417065 < 2 * b * 6847196937
            &&& k < u32::MAX ==> 2 * b * 48427462327 < (2 * k + 1) * 69866059742
        }),
{
    let f = BloomView::fresh(expected_items, bits_per_key);
    lemma_hash_count_is_nearest(max(bits_per_key, 1));
    assert forall|q: u64| q < f.num_bits implies !#[trigger] f.has_bit(q) by {
        let c = q % 64;
        assert(0u64 & (1u64 << c) == 0) by (bit_vector);
    }
}

/// A filter that is switched off rules nothing out.
pub proof fn lemma_off_rules_nothing_out(key: Seq<u8>)
    ensures
        BloomView::off().might_contain(key),
        BloomView::off().with_key(key) == BloomView::off(),
{
}

/// An empty filter rules every key out.
pub proof fn lemma_fresh_rules_out(expected_items: int, bits_per_key: int, key: Seq<u8>)
    requires
        wanted_bits(expected_items, bits_per_key) + 63 <= u64::MAX,
    ensures
        BloomView::fresh(expected_items, bits_per_key).wf(),
        !BloomView::fresh(expected_items, bits_per_key).might_contain(key),
{
    let v = BloomView::fresh(expected_items, bits_per_key);
    let q = v.position(key, 0);
    let c = q % 64;
    assert(0u64 & (1u64 << c) == 0) by (bit_vector);
    assert(!v.has_bit(q));
}

/// The hash count is `bits_per_key * ln 2` rounded: less than a half is missing
/// or too much. `ln 2` lies between 6847196937 / 9878417065 and
/// 48427462327 / 69866059742. Only where the nearest number takes more than 32
/// bits is the count smaller.
#[verifier::spinoff_prover]
pub proof fn lemma_hash_count_is_nearest(bits_per_key: int)
    requires
        bits_per_key >= 1,
    ensures
        ({
            let k = hash_count(bits_per_key);
            &&& 1 <= k <= u32::MAX
            &&& (2 * k - 1) * 9878417065 < 2 * bits_per_key * 6847196937
            &&& k < u32::MAX ==> 2 * bits_per_key * 48427462327 < (2 * k + 1) * 69866059742
        }),
{
    let k = hash_count(bits_per_key);
    let d = 2 * bits_per_key;
    let below = 2 * k - 1;
    let above = 2 * k + 1;
    lemma_nearest_half(d * LN_2_DIGITS);
    assert(2 * bits_per_key * LN_2_DIGITS == d * LN_2_DIGITS);
    let nearest = (d * LN_2_DIGITS + LN_2_SCALE) / (2 * LN_2_SCALE);
    assert(k <= nearest || k == 1);
    assert(below * LN_2_SCALE <= d * LN_2_DIGITS) by {
        if k <= nearest {
            assert(below <= 2 * nearest - 1);
        }
    }
    if d < 79744476807 {
        if below * 9878417065 >= d * 6847196937 {
            assert(below * 9878417065 != d * 6847196937);
            assert(below * 69866059742 < d * 48427462327);
            lemma_no_fraction_between(below, d);
        }
    }
    if k < u32::MAX {
        assert(d * LN_2_DIGITS < above * LN_2_SCALE) by {
            assert(nearest <= k);
            assert(2 * nearest + 1 <= above);
        }
        if d * 48427462327 >= above * 69866059742 {
            assert(above * 9878417065 > d * 6847196937);
            assert(d >= 69866059742);
        }
    }
}

/// The nearest whole number of scales is at most half a scale away.
proof fn lemma_nearest_half(x: int)
    ensures
        ({
            let q = (x + LN_2_SCALE) / (2 * LN_2_SCALE);
            (2 * q - 1) * LN_2_SCALE <= x < (2 * q + 1) * LN_2_SCALE
        }),
{
    let s = LN_2_SCALE as int;
    let q = (x + s) / (2 * s);
    let r = (x + s) % (2 * s);
    vstd::arithmetic::div_mod::lemma_fundamental_div_mod(x + s, 2 * s);
    vstd::arithmetic::div_mod::lemma_mod_bound(x + s, 2 * s);
    assert((2 * q - 1) * s <= x < (2 * q + 1) * s) by (nonlinear_arith)
        requires
            x + s == (2 * s) * q + r,
            0 <= r < 2 * s,
    ;
}

/// Between the two fractions there is none with a small denominator.
proof fn lemma_no_fraction_between(n: int, d: int)
    requires
        n * 9878417065 > d * 6847196937,
        n * 69866059742 < d * 48427462327,
    ensures
        d >= 79744476807,
{
    assert(48427462327 * 9878417065 - 6847196937 * 69866059742 == 1);
    let x = n * 9878417065 - d * 6847196937;
    let y = d * 48427462327 - n * 69866059742;
    assert(d == 9878417065 * y + 69866059742 * x);
}

/// The length of the encoded words.
pub proof fn lemma_words_encoded_len(words: Seq<u64>)
    ensures
        words_encoded(words).len() == 8 * words.len(),
    decreases words.len(),
{
    if words.len() > 0 {
        lemma_words_encoded_len(words.drop_last());
    }
}

/// Each word stands in its eight bytes.
proof fn lemma_words_encoded_at(words: Seq<u64>, i: int)
    requires
        0 <= i < words.len(),
    ensures
        words_encoded(words).len() == 8 * words.len(),
        words_encoded(words).subrange(8 * i, 8 * i + 8) == bytes::le_u64(words[i]),
    decreases words.len(),
{
    lemma_words_encoded_len(words);
    lemma_words_encoded_len(words.drop_last());
    if i < words.len() - 1 {
        lemma_words_encoded_at(words.drop_last(), i);
        assert(words_encoded(words).subrange(8 * i, 8 * i + 8) =~= words_encoded(
            words.drop_last(),
        ).subrange(8 * i, 8 * i + 8));
    } else {
        assert(words_encoded(words).subrange(8 * i, 8 * i + 8) =~= bytes::le_u64(words[i]));
    }
}

/// Reading back what was serialized gives the same filter, whatever follows it.
pub proof fn lemma_bloom_roundtrip(v: BloomView, rest: Seq<u8>)
    requires
        v.words.len() <= usize::MAX,
    ensures
        BloomView::decoded(v.encoded() + rest) == Ok::<BloomView, BloomError>(v),
{
    let buf = v.encoded() + rest;
    let n = v.words.len();
    lemma_words_encoded_len(v.words);
    assert(buf.subrange(0, 8) =~= bytes::le_u64(v.num_bits));
    assert(buf.subrange(8, 12) =~= bytes::le_u32(v.num_hashes));
    assert(buf.subrange(12, 20) =~= bytes::le_u64(n as u64));
    bytes::lemma_u64_roundtrip(buf, 0, v.num_bits);
    bytes::lemma_u32_roundtrip(buf, 8, v.num_hashes);
    bytes::lemma_u64_roundtrip(buf, 12, n as u64);
    assert forall|i: int| 0 <= i < n implies bytes::u64_at(buf, 20 + 8 * i) == v.words[i] by {
        lemma_words_encoded_at(v.words, i);
        assert(buf.subrange(20 + 8 * i, 28 + 8 * i) =~= words_encoded(v.words).subrange(
            8 * i,
            8 * i + 8,
        ));
        bytes::lemma_u64_roundtrip(buf, 20 + 8 * i, v.words[i]);
    }
    assert(Seq::new(n, |i: int| bytes::u64_at(buf, 20 + 8 * i)) =~= v.words);
}

/// The bytes of a filter: the number of bits in eight bytes, of hashes in four, of
/// words in eight, and each word in eight.
pub proof fn lemma_filter_bytes(v: BloomView, i: int)
    requires
        0 <= i < v.words.len() <= u64::MAX,
    ensures
        v.encoded().len() == 20 + 8 * v.words.len(),
        v.encoded().subrange(0, 8) == bytes::le_u64(v.num_bits),
        v.encoded().subrange(8, 12) == bytes::le_u32(v.num_hashes),
        v.encoded().subrange(12, 20) == bytes::le_u64(v.words.len() as u64),
        v.encoded().subrange(20 + 8 * i, 28 + 8 * i) == bytes::le_u64(v.words[i]),
{
    let e = v.encoded();
    lemma_words_encoded_at(v.words, i);
    assert(e.subrange(0, 8) =~= bytes::le_u64(v.num_bits));
    assert(e.subrange(8, 12) =~= bytes::le_u32(v.num_hashes));
    assert(e.subrange(12, 20) =~= bytes::le_u64(v.words.len() as u64));
    assert(e.subrange(20 + 8 * i, 28 + 8 * i) =~= words_encoded(v.words).subrange(
        8 * i,
        8 * i + 8,
    ));
}

/// Whatever the bytes are, a filter that is read is the one whose bytes stand
/// there. Bytes are refused only where there are fewer than the header takes, or
/// than the words take that it announces.
pub proof fn lemma_decoded_is_encoded(buf: Seq<u8>)
    requires
        buf.len() >= 20 ==> bytes::u64_at(buf, 12) <= usize::MAX,
    ensures
        BloomView::decoded(buf) matches Ok(v) ==> v.encoded().len() <= buf.len() && v.encoded()
            == buf.take(v.encoded().len() as int),
        BloomView::decoded(buf) == Err::<BloomView, BloomError>(BloomError::TooShort) <==> buf.len()
            < 20,
        BloomView::decoded(buf) == Err::<BloomView, BloomError>(BloomError::Truncated) <==> {
            &&& buf.len() >= 20
            &&& buf.len() < 20 + 8 * bytes::u64_at(buf, 12)
        },
{
    if let Ok(v) = BloomView::decoded(buf) {
        let n = v.words.len() as int;
        let e = v.encoded();
        lemma_words_encoded_len(v.words);
        bytes::lemma_le_u64_at(buf, 0);
        bytes::lemma_le_u32_at(buf, 8);
        bytes::lemma_le_u64_at(buf, 12);
        assert(e.subrange(0, 8) =~= bytes::le_u64(v.num_bits));
        assert(e.subrange(8, 12) =~= bytes::le_u32(v.num_hashes));
        assert(e.subrange(12, 20) =~= bytes::le_u64(n as u64));
        assert forall|p: int| 0 <= p < e.len() implies e[p] == buf[p] by {
            if p < 8 {
                assert(e[p] == e.subrange(0, 8)[p]);
                assert(buf[p] == buf.subrange(0, 8)[p]);
            } else if p < 12 {
                assert(e[p] == e.subrange(8, 12)[p - 8]);
                assert(buf[p] == buf.subrange(8, 12)[p - 8]);
            } else if p < 20 {
                assert(e[p] == e.subrange(12, 20)[p - 12]);
                assert(buf[p] == buf.subrange(12, 20)[p - 12]);
            } else {
                let i = (p - 20) / 8;
                lemma_filter_bytes(v, i);
                bytes::lemma_le_u64_at(buf, 20 + 8 * i);
                assert(e[p] == e.subrange(20 + 8 * i, 28 + 8 * i)[p - 20 - 8 * i]);
                assert(buf[p] == buf.subrange(20 + 8 * i, 28 + 8 * i)[p - 20 - 8 * i]);
            }
        }
        assert(e =~= buf.take(e.len() as int));
    }
}

/// A set of keys, kept in a few bits per key.
#[derive(Debug)]
pub struct BloomFilter {
    bits: Vec<u64>,
    num_bits: u64,
    num_hashes: u32,
}

impl View for BloomFilter {
    type V = BloomView;

    closed spec fn view(&self) -> BloomView {
        BloomView { words: self.bits@, num_bits: self.num_bits, num_hashes: self.num_hashes }
    }
}

/// The whole number nearest to `bits_per_key * ln 2`.
fn count_hashes(bits_per_key: usize) -> (k: u32)
    requires
        bits_per_key >= 1,
    ensures
        k == hash_count(bits_per_key as int),
{
    if bits_per_key as u64 > 0x2_0000_0000 {
        return u32::MAX;
    }
    let doubled: u128 = 2 * (bits_per_key as u128) * LN_2_DIGITS + LN_2_SCALE;
    let nearest: u128 = doubled / (2 * LN_2_SCALE);
    assert(doubled == 2 * bits_per_key * LN_2_DIGITS + LN_2_SCALE);
    assert(nearest == doubled as int / (2 * LN_2_SCALE));
    assert(nearest >= 1);
    if nearest > u32::MAX as u128 {
        u32::MAX
    } else {
        nearest as u32
    }
}

impl BloomFilter {
    /// Builds an empty filter for `expected_items` keys at about `bits_per_key`
    /// bits each. The best number of hash functions is `bits_per_key * ln 2`,
    /// rounded, and that is what the filter has.
    pub fn new(expected_items: usize, bits_per_key: usize) -> (f: Self)
        requires
            wanted_bits(expected_items as int, bits_per_key as int) <= usize::MAX,
            wanted_bits(expected_items as int, bits_per_key as int) + 63 <= u64::MAX,
        ensures
            f@ == BloomView::fresh(expected_items as int, bits_per_key as int),
            f@.wf(),
    {
        let expected_items: usize = if expected_items < 1 { 1 } else { expected_items };
        let bits_per_key: usize = if bits_per_key < 1 { 1 } else { bits_per_key };
        let product: usize = expected_items * bits_per_key;
        let num_bits: u64 = if product < 64 { 64 } else { product as u64 };
        let num_words: u64 = (num_bits + 63) / 64;
        let num_hashes: u32 = count_hashes(bits_per_key);
        let bits: Vec<u64> = vec![0u64; num_words as usize];
        let f = BloomFilter { bits, num_bits: num_words * 64, num_hashes };
        assert(f@ =~= BloomView::fresh(expected_items as int, bits_per_key as int));
        f
    }

    /// A filter that always says "maybe", for tables built without one.
    pub fn disabled() -> (f: Self)
        ensures
            f@ == BloomView::off(),
            f@.wf(),
    {
        BloomFilter { bits: Vec::new(), num_bits: 0, num_hashes: 0 }
    }

    /// The bit positions of a key.
    pub fn positions(&self, key: &[u8]) -> (r: Vec<u64>)
        ensures
            r@ == Seq::new(self@.num_hashes as nat, |i: int| self@.position(key@, i)),
    {
        let h1: u64 = fnv1a_64(SEED_1, key);
        let h2: u64 = fnv1a_64(SEED_2, key).wrapping_mul(2).wrapping_add(1);
        let mut r: Vec<u64> = Vec::new();
        let mut i: u32 = 0;
        while i < self.num_hashes
            invariant
                i <= self.num_hashes,
                h1 == fnv1a_64_of(SEED_1, key@),
                h2 == fnv1a_64_of(SEED_2, key@).wrapping_mul(2).wrapping_add(1),
                r@ == Seq::new(i as nat, |j: int| self@.position(key@, j)),
            decreases self.num_hashes - i,
        {
            let pos: u64 = if self.num_bits == 0 {
                0
            } else {
                h1.wrapping_add((i as u64).wrapping_mul(h2)) % self.num_bits
            };
            r.push(pos);
            i = i + 1;
            assert(r@ =~= Seq::new(i as nat, |j: int| self@.position(key@, j)));
        }
        r
    }

    fn set_bit(&mut self, pos: u64)
        requires
            pos < 64 * old(self)@.words.len(),
        ensures
            final(self)@ == old(self)@.with_bit(pos),
    {
        let word: usize = (pos / 64) as usize;
        let bit: u64 = pos % 64;
        let changed: u64 = self.bits[word] | (1u64 << bit);
        self.bits.set(word, changed);
        assert(self@ =~= old(self)@.with_bit(pos));
    }

    fn bit_is_set(&self, pos: u64) -> (r: bool)
        requires
            pos < 64 * self@.words.len(),
        ensures
            r == self@.has_bit(pos),
    {
        assert(pos / 64 < self.bits.len());
        let word: usize = (pos / 64) as usize;
        let bit: u64 = pos % 64;
        self.bits[word] & (1u64 << bit) != 0
    }

    /// Adds a key to the set.
    pub fn insert(&mut self, key: &[u8])
        requires
            old(self)@.wf(),
        ensures
            final(self)@ == old(self)@.with_key(key@),
            final(self)@.wf(),
            final(self)@.num_bits == old(self)@.num_bits,
            final(self)@.num_hashes == old(self)@.num_hashes,
            old(self)@.num_bits > 0 ==> forall|q: u64|
                q < 64 * old(self)@.words.len() ==> (#[trigger] final(self)@.has_bit(q) <==> old(
                    self,
                )@.has_bit(q) || exists|i: int|
                    0 <= i < old(self)@.num_hashes && #[trigger] old(self)@.position(key@, i) == q),
            final(self)@.might_contain(key@),
    {
        let ghost before = self@;
        proof {
            lemma_with_key_shape(before, key@);
            lemma_inserted_key_is_found(before, key@);
            if before.num_bits > 0 {
                assert forall|q: u64| q < 64 * before.words.len() implies (
                #[trigger] before.with_key(key@).has_bit(q) <==> before.has_bit(q) || exists|i: int|
                    0 <= i < before.num_hashes && #[trigger] before.position(key@, i) == q) by {
                    lemma_with_key(before, key@, q);
                }
            }
        }
        if self.num_bits == 0 {
            return;
        }
        let positions = self.positions(key);
        let mut i: usize = 0;
        while i < positions.len()
            invariant
                i <= positions@.len(),
                positions@ == Seq::new(before.num_hashes as nat, |j: int| before.position(key@, j)),
                before.wf(),
                before.num_bits > 0,
                self@ == before.with_positions(key@, i as int),
                self@.words.len() == before.words.len(),
            decreases positions@.len() - i,
        {
            let pos: u64 = positions[i];
            proof {
                lemma_position_bound(before, key@, i as int);
            }
            self.set_bit(pos);
            i = i + 1;
        }
    }

    /// `true` means "maybe present, go and look", `false` "definitely absent".
    pub fn might_contain(&self, key: &[u8]) -> (r: bool)
        requires
            self@.wf(),
        ensures
            r == self@.might_contain(key@),
    {
        if self.num_bits == 0 {
            return true;
        }
        let positions = self.positions(key);
        let mut i: usize = 0;
        while i < positions.len()
            invariant
                i <= positions@.len(),
                positions@ == Seq::new(self@.num_hashes as nat, |j: int| self@.position(key@, j)),
                self@.wf(),
                self.num_bits > 0,
                forall|j: int| 0 <= j < i ==> self@.has_bit(#[trigger] self@.position(key@, j)),
            decreases positions@.len() - i,
        {
            let pos: u64 = positions[i];
            proof {
                lemma_position_bound(self@, key@, i as int);
            }
            if !self.bit_is_set(pos) {
                return false;
            }
            i = i + 1;
        }
        true
    }

    /// Whether the filter can rule keys out at all.
    pub fn is_enabled(&self) -> (r: bool)
        ensures
            r == (self@.num_bits > 0),
    {
        self.num_bits > 0
    }

    /// Whether every bit position lies in a word.
    pub fn is_consistent(&self) -> (r: bool)
        ensures
            r == self@.wf(),
    {
        self.num_bits / 64 < self.bits.len() as u64 || (self.num_bits / 64 == self.bits.len() as u64
            && self.num_bits % 64 == 0)
    }

    /// The bytes of the filter: the number of bits, of hashes and of words, then
    /// the words.
    pub fn serialize(&self) -> (buf: Vec<u8>)
        ensures
            buf@ == self@.encoded(),
    {
        let mut buf: Vec<u8> = Vec::new();
        bytes::push_u64(&mut buf, self.num_bits);
        bytes::push_u32(&mut buf, self.num_hashes);
        bytes::push_u64(&mut buf, self.bits.len() as u64);
        let ghost head = buf@;
        assert(head =~= bytes::le_u64(self@.num_bits) + bytes::le_u32(self@.num_hashes)
            + bytes::le_u64(self@.words.len() as u64));
        let mut i: usize = 0;
        assert(buf@ =~= head + words_encoded(self.bits@.take(0)));
        while i < self.bits.len()
            invariant
                i <= self.bits@.len(),
                buf@ == head + words_encoded(self.bits@.take(i as int)),
            decreases self.bits@.len() - i,
        {
            bytes::push_u64(&mut buf, self.bits[i]);
            i = i + 1;
            assert(self.bits@.take(i as int).drop_last() =~= self.bits@.take(i - 1));
            assert(buf@ =~= head + words_encoded(self.bits@.take(i as int)));
        }
        assert(self.bits@.take(i as int) =~= self.bits@);
        buf
    }

    /// Reads back what `serialize` wrote. Bytes after the last word are left
    /// alone.
    pub fn deserialize(buf: &[u8]) -> (r: Result<Self, BloomError>)
        ensures
            match r {
                Ok(f) => BloomView::decoded(buf@) == Ok::<BloomView, BloomError>(f@),
                Err(e) => BloomView::decoded(buf@) == Err::<BloomView, BloomError>(e),
            },
    {
        if buf.len() < 20 {
            return Err(BloomError::TooShort);
        }
        let num_bits: u64 = bytes::read_u64(buf, 0);
        let num_hashes: u32 = bytes::read_u32(buf, 8);
        let word_count: usize = bytes::read_u64(buf, 12) as usize;
        let mut bits: Vec<u64> = Vec::new();
        let mut offset: usize = 20;
        let mut i: usize = 0;
        while i < word_count
            invariant
                i <= word_count,
                offset == 20 + 8 * i,
                offset <= buf@.len(),
                word_count == bytes::u64_at(buf@, 12) as usize,
                bits@ == Seq::new(i as nat, |j: int| bytes::u64_at(buf@, 20 + 8 * j)),
            decreases word_count - i,
        {
            if buf.len() - offset < 8 {
                return Err(BloomError::Truncated);
            }
            bits.push(bytes::read_u64(buf, offset));
            offset = offset + 8;
            i = i + 1;
            assert(bits@ =~= Seq::new(i as nat, |j: int| bytes::u64_at(buf@, 20 + 8 * j)));
        }
        Ok(BloomFilter { bits, num_bits, num_hashes })
    }
}

impl Clone for BloomFilter {
    fn clone(&self) -> (f: Self)
        ensures
            f@ == self@,
    {
        let mut bits: Vec<u64> = Vec::new();
        let mut i: usize = 0;
        while i < self.bits.len()
            invariant
                i <= self.bits@.len(),
                bits@ == self.bits@.take(i as int),
            decreases self.bits@.len() - i,
        {
            bits.push(self.bits[i]);
            i = i + 1;
            assert(bits@ =~= self.bits@.take(i as int));
        }
        assert(bits@ =~= self.bits@);
        BloomFilter { bits, num_bits: self.num_bits, num_hashes: self.num_hashes }
    }
}

} // verus!
