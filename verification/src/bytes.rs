//! Little-endian integers in byte strings.

use vstd::prelude::*;

verus! {

/// The four bytes of `x`, least significant first.
#[verifier::opaque]
pub open spec fn le_u32(x: u32) -> Seq<u8> {
    seq![
        (x % 0x100) as u8,
        (x / 0x100 % 0x100) as u8,
        (x / 0x1_0000 % 0x100) as u8,
        (x / 0x100_0000) as u8,
    ]
}

/// The eight bytes of `x`, least significant first.
#[verifier::opaque]
pub open spec fn le_u64(x: u64) -> Seq<u8> {
    seq![
        (x % 0x100) as u8,
        (x / 0x100 % 0x100) as u8,
        (x / 0x1_0000 % 0x100) as u8,
        (x / 0x100_0000 % 0x100) as u8,
        (x / 0x1_0000_0000 % 0x100) as u8,
        (x / 0x100_0000_0000 % 0x100) as u8,
        (x / 0x1_0000_0000_0000 % 0x100) as u8,
        (x / 0x100_0000_0000_0000) as u8,
    ]
}

/// The number whose four little-endian bytes stand at `at` in `s`.
#[verifier::opaque]
pub open spec fn u32_at(s: Seq<u8>, at: int) -> u32 {
    (s[at] + 0x100 * s[at + 1] + 0x1_0000 * s[at + 2] + 0x100_0000 * s[at + 3]) as u32
}

/// The number whose eight little-endian bytes stand at `at` in `s`.
#[verifier::opaque]
pub open spec fn u64_at(s: Seq<u8>, at: int) -> u64 {
    (s[at] + 0x100 * s[at + 1] + 0x1_0000 * s[at + 2] + 0x100_0000 * s[at + 3] + 0x1_0000_0000 * s[at
        + 4] + 0x100_0000_0000 * s[at + 5] + 0x1_0000_0000_0000 * s[at + 6]
        + 0x100_0000_0000_0000 * s[at + 7]) as u64
}

/// Four bytes are four bytes.
pub broadcast proof fn lemma_le_u32_len(x: u32)
    ensures
        #[trigger] le_u32(x).len() == 4,
{
    reveal(le_u32);
}

/// Eight bytes are eight bytes.
pub broadcast proof fn lemma_le_u64_len(x: u64)
    ensures
        #[trigger] le_u64(x).len() == 8,
{
    reveal(le_u64);
}

/// The lengths of encoded numbers.
pub broadcast group group_le_len {
    lemma_le_u32_len,
    lemma_le_u64_len,
}

/// Reading four bytes that `le_u32` wrote gives the number back.
pub proof fn lemma_u32_roundtrip(s: Seq<u8>, at: int, x: u32)
    requires
        0 <= at,
        at + 4 <= s.len(),
        s.subrange(at, at + 4) == le_u32(x),
    ensures
        u32_at(s, at) == x,
{
    reveal(le_u32);
    reveal(u32_at);
    let b = s.subrange(at, at + 4);
    assert(b[0] == s[at] && b[1] == s[at + 1] && b[2] == s[at + 2] && b[3] == s[at + 3]);
}

/// Reading eight bytes that `le_u64` wrote gives the number back.
pub proof fn lemma_u64_roundtrip(s: Seq<u8>, at: int, x: u64)
    requires
        0 <= at,
        at + 8 <= s.len(),
        s.subrange(at, at + 8) == le_u64(x),
    ensures
        u64_at(s, at) == x,
{
    reveal(le_u64);
    reveal(u64_at);
    let b = s.subrange(at, at + 8);
    assert(b[0] == s[at] && b[1] == s[at + 1] && b[2] == s[at + 2] && b[3] == s[at + 3]);
    assert(b[4] == s[at + 4] && b[5] == s[at + 5] && b[6] == s[at + 6] && b[7] == s[at + 7]);
    let low = x % 0x1_0000_0000;
    let high = x / 0x1_0000_0000;
    assert(x / 0x100 % 0x100 == low / 0x100 % 0x100 && x / 0x1_0000 % 0x100 == low / 0x1_0000 % 0x100
        && x / 0x100_0000 % 0x100 == low / 0x100_0000 && x % 0x100 == low % 0x100) by (bit_vector)
        requires
            low == x % 0x1_0000_0000,
    ;
    assert(x / 0x1_0000_0000 % 0x100 == high % 0x100 && x / 0x100_0000_0000 % 0x100 == high / 0x100
        % 0x100 && x / 0x1_0000_0000_0000 % 0x100 == high / 0x1_0000 % 0x100 && x
        / 0x100_0000_0000_0000 == high / 0x100_0000) by (bit_vector)
        requires
            high == x / 0x1_0000_0000,
    ;
    assert(high < 0x1_0000_0000);
    assert(low % 0x100 + 0x100 * (low / 0x100 % 0x100) + 0x1_0000 * (low / 0x1_0000 % 0x100)
        + 0x100_0000 * (low / 0x100_0000) == low) by (bit_vector)
        requires
            low < 0x1_0000_0000,
    ;
    assert(high % 0x100 + 0x100 * (high / 0x100 % 0x100) + 0x1_0000 * (high / 0x1_0000 % 0x100)
        + 0x100_0000 * (high / 0x100_0000) == high) by (bit_vector)
        requires
            high < 0x1_0000_0000,
    ;
}

/// The four bytes of the number read at `at` are the bytes there.
pub proof fn lemma_le_u32_at(s: Seq<u8>, at: int)
    requires
        0 <= at,
        at + 4 <= s.len(),
    ensures
        le_u32(u32_at(s, at)) == s.subrange(at, at + 4),
{
    reveal(le_u32);
    reveal(u32_at);
    let x = u32_at(s, at);
    let a = s[at];
    let b = s[at + 1];
    let c = s[at + 2];
    let d = s[at + 3];
    assert(x % 0x100 == a && x / 0x100 % 0x100 == b && x / 0x1_0000 % 0x100 == c && x / 0x100_0000
        == d) by (bit_vector)
        requires
            x == a + 0x100 * b + 0x1_0000 * c + 0x100_0000 * d,
    ;
    assert(le_u32(x) =~= s.subrange(at, at + 4));
}

/// A number read from bytes depends on those bytes alone.
pub proof fn lemma_u32_at_same(s: Seq<u8>, at: int, t: Seq<u8>, bt: int)
    requires
        0 <= at,
        at + 4 <= s.len(),
        0 <= bt,
        bt + 4 <= t.len(),
        s.subrange(at, at + 4) == t.subrange(bt, bt + 4),
    ensures
        u32_at(s, at) == u32_at(t, bt),
{
    reveal(u32_at);
    let a = s.subrange(at, at + 4);
    let b = t.subrange(bt, bt + 4);
    assert(a[0] == s[at] && a[1] == s[at + 1] && a[2] == s[at + 2] && a[3] == s[at + 3]);
    assert(b[0] == t[bt] && b[1] == t[bt + 1] && b[2] == t[bt + 2] && b[3] == t[bt + 3]);
}

/// A number read from bytes depends on those bytes alone.
pub proof fn lemma_u64_at_same(s: Seq<u8>, at: int, t: Seq<u8>, bt: int)
    requires
        0 <= at,
        at + 8 <= s.len(),
        0 <= bt,
        bt + 8 <= t.len(),
        s.subrange(at, at + 8) == t.subrange(bt, bt + 8),
    ensures
        u64_at(s, at) == u64_at(t, bt),
{
    reveal(u64_at);
    let a = s.subrange(at, at + 8);
    let b = t.subrange(bt, bt + 8);
    assert(a[0] == s[at] && a[1] == s[at + 1] && a[2] == s[at + 2] && a[3] == s[at + 3]);
    assert(a[4] == s[at + 4] && a[5] == s[at + 5] && a[6] == s[at + 6] && a[7] == s[at + 7]);
    assert(b[0] == t[bt] && b[1] == t[bt + 1] && b[2] == t[bt + 2] && b[3] == t[bt + 3]);
    assert(b[4] == t[bt + 4] && b[5] == t[bt + 5] && b[6] == t[bt + 6] && b[7] == t[bt + 7]);
}

/// The least significant byte comes first: each byte counts for 256 times the one
/// before.
pub proof fn lemma_le_u32_bytes(x: u32)
    ensures
        le_u32(x).len() == 4,
        le_u32(x)[0] + 0x100 * le_u32(x)[1] + 0x1_0000 * le_u32(x)[2] + 0x100_0000 * le_u32(x)[3]
            == x,
{
    let s = le_u32(x);
    lemma_le_u32_len(x);
    assert(s.subrange(0, 4) =~= s);
    lemma_u32_roundtrip(s, 0, x);
    reveal(u32_at);
}

/// The least significant byte comes first: each byte counts for 256 times the one
/// before.
pub proof fn lemma_le_u64_bytes(x: u64)
    ensures
        le_u64(x).len() == 8,
        le_u64(x)[0] + 0x100 * le_u64(x)[1] + 0x1_0000 * le_u64(x)[2] + 0x100_0000 * le_u64(x)[3]
            + 0x1_0000_0000 * le_u64(x)[4] + 0x100_0000_0000 * le_u64(x)[5] + 0x1_0000_0000_0000
            * le_u64(x)[6] + 0x100_0000_0000_0000 * le_u64(x)[7] == x,
{
    let s = le_u64(x);
    lemma_le_u64_len(x);
    assert(s.subrange(0, 8) =~= s);
    lemma_u64_roundtrip(s, 0, x);
    reveal(u64_at);
}

/// A number has one way to be written in base 256.
proof fn lemma_last_digit(a: int, x: int, b: int, y: int)
    requires
        0 <= a < 0x100,
        0 <= b < 0x100,
        a + 0x100 * x == b + 0x100 * y,
    ensures
        a == b,
        x == y,
{
}

/// The eight bytes of the number read at `at` are the bytes there.
pub proof fn lemma_le_u64_at(s: Seq<u8>, at: int)
    requires
        0 <= at,
        at + 8 <= s.len(),
    ensures
        le_u64(u64_at(s, at)) == s.subrange(at, at + 8),
{
    let x = u64_at(s, at);
    let t = le_u64(x);
    lemma_le_u64_bytes(x);
    reveal(u64_at);
    let a7 = s[at + 7] as int;
    let a6 = s[at + 6] + 0x100 * a7;
    let a5 = s[at + 5] + 0x100 * a6;
    let a4 = s[at + 4] + 0x100 * a5;
    let a3 = s[at + 3] + 0x100 * a4;
    let a2 = s[at + 2] + 0x100 * a3;
    let a1 = s[at + 1] + 0x100 * a2;
    let b7 = t[7] as int;
    let b6 = t[6] + 0x100 * b7;
    let b5 = t[5] + 0x100 * b6;
    let b4 = t[4] + 0x100 * b5;
    let b3 = t[3] + 0x100 * b4;
    let b2 = t[2] + 0x100 * b3;
    let b1 = t[1] + 0x100 * b2;
    lemma_last_digit(s[at] as int, a1, t[0] as int, b1);
    lemma_last_digit(s[at + 1] as int, a2, t[1] as int, b2);
    lemma_last_digit(s[at + 2] as int, a3, t[2] as int, b3);
    lemma_last_digit(s[at + 3] as int, a4, t[3] as int, b4);
    lemma_last_digit(s[at + 4] as int, a5, t[4] as int, b5);
    lemma_last_digit(s[at + 5] as int, a6, t[5] as int, b6);
    lemma_last_digit(s[at + 6] as int, a7, t[6] as int, b7);
    assert(t =~= s.subrange(at, at + 8));
}

/// Appends `more` to `buf`.
pub fn push_bytes(buf: &mut Vec<u8>, more: &[u8])
    ensures
        final(buf)@ == old(buf)@ + more@,
{
    buf.extend_from_slice(more);
    assert(buf@ =~= old(buf)@ + more@);
}

/// Appends the four little-endian bytes of `x` to `buf`.
pub fn push_u32(buf: &mut Vec<u8>, x: u32)
    ensures
        final(buf)@ == old(buf)@ + le_u32(x),
{
    proof {
        reveal(le_u32);
    }
    buf.push((x % 0x100) as u8);
    buf.push((x / 0x100 % 0x100) as u8);
    buf.push((x / 0x1_0000 % 0x100) as u8);
    buf.push((x / 0x100_0000) as u8);
    assert(buf@ =~= old(buf)@ + le_u32(x));
}

/// Appends the eight little-endian bytes of `x` to `buf`.
pub fn push_u64(buf: &mut Vec<u8>, x: u64)
    ensures
        final(buf)@ == old(buf)@ + le_u64(x),
{
    proof {
        reveal(le_u64);
    }
    buf.push((x % 0x100) as u8);
    buf.push((x / 0x100 % 0x100) as u8);
    buf.push((x / 0x1_0000 % 0x100) as u8);
    buf.push((x / 0x100_0000 % 0x100) as u8);
    buf.push((x / 0x1_0000_0000 % 0x100) as u8);
    buf.push((x / 0x100_0000_0000 % 0x100) as u8);
    buf.push((x / 0x1_0000_0000_0000 % 0x100) as u8);
    buf.push((x / 0x100_0000_0000_0000) as u8);
    assert(buf@ =~= old(buf)@ + le_u64(x));
}

/// Reads the four-byte number at `at`.
pub fn read_u32(s: &[u8], at: usize) -> (x: u32)
    requires
        at + 4 <= s@.len(),
    ensures
        x == u32_at(s@, at as int),
        x == s@[at as int] + 0x100 * s@[at + 1] + 0x1_0000 * s@[at + 2] + 0x100_0000 * s@[at + 3],
{
    proof {
        reveal(u32_at);
    }
    s[at] as u32 + 0x100 * s[at + 1] as u32 + 0x1_0000 * s[at + 2] as u32 + 0x100_0000 * s[at
        + 3] as u32
}

/// Reads the eight-byte number at `at`.
pub fn read_u64(s: &[u8], at: usize) -> (x: u64)
    requires
        at + 8 <= s@.len(),
    ensures
        x == u64_at(s@, at as int),
        x == s@[at as int] + 0x100 * s@[at + 1] + 0x1_0000 * s@[at + 2] + 0x100_0000 * s@[at + 3]
            + 0x1_0000_0000 * s@[at + 4] + 0x100_0000_0000 * s@[at + 5] + 0x1_0000_0000_0000 * s@[at
            + 6] + 0x100_0000_0000_0000 * s@[at + 7],
{
    proof {
        reveal(u64_at);
    }
    s[at] as u64 + 0x100 * s[at + 1] as u64 + 0x1_0000 * s[at + 2] as u64 + 0x100_0000 * s[at
        + 3] as u64 + 0x1_0000_0000 * s[at + 4] as u64 + 0x100_0000_0000 * s[at + 5] as u64
        + 0x1_0000_0000_0000 * s[at + 6] as u64 + 0x100_0000_0000_0000 * s[at + 7] as u64
}

/// A copy of `s`.
pub fn copy_bytes(s: &[u8]) -> (out: Vec<u8>)
    ensures
        out@ == s@,
{
    let mut out: Vec<u8> = Vec::new();
    push_bytes(&mut out, s);
    assert(out@ =~= s@);
    out
}

} // verus!
