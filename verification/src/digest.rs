//! FNV-1a digests, written out so that they stay stable.

use vstd::prelude::*;

verus! {

/// The digest of nothing.
pub const OFFSET: u64 = 0xcbf2_9ce4_8422_2325;

/// The factor of each step.
pub const PRIME: u64 = 0x0000_0100_0000_01b3;

/// One step of the digest.
pub open spec fn fnv_step(hash: u64, byte: u8) -> u64 {
    (((hash ^ (byte as u64)) * PRIME) % 0x1_0000_0000_0000_0000) as u64
}

/// The digest of some bytes.
pub open spec fn fnv(bytes: Seq<u8>) -> u64
    decreases bytes.len(),
{
    if bytes.len() == 0 {
        OFFSET
    } else {
        fnv_step(fnv(bytes.drop_last()), bytes.last())
    }
}

/// The bytes of a number, lowest first.
pub open spec fn le_bytes(value: u64) -> Seq<u8> {
    Seq::new(8, |i: int| (value >> ((8 * i) as u64)) as u8)
}

/// The bytes of some numbers, one behind the other.
pub open spec fn bytes_of(words: Seq<u64>) -> Seq<u8>
    decreases words.len(),
{
    if words.len() == 0 {
        Seq::empty()
    } else {
        bytes_of(words.drop_last()) + le_bytes(words.last())
    }
}

/// A hexadecimal digit.
pub open spec fn hex_digit(value: int) -> char {
    if value < 10 {
        ((48 + value) as u8) as char
    } else {
        ((87 + value) as u8) as char
    }
}

/// The lowest `count` hexadecimal digits of a number.
pub open spec fn hex_text(value: u64, count: nat) -> Seq<char>
    decreases count,
{
    if count == 0 {
        Seq::empty()
    } else {
        hex_text(value / 16, (count - 1) as nat).push(hex_digit(value as int % 16))
    }
}

/// One step of the digest.
fn step(hash: u64, byte: u8) -> (next: u64)
    ensures
        next == fnv_step(hash, byte),
{
    (hash ^ (byte as u64)).wrapping_mul(PRIME)
}

/// Appends the lowest hexadecimal digits of a number.
fn push_hex(text: &mut String, value: u64, count: u32)
    ensures
        final(text)@ == old(text)@ + hex_text(value, count as nat),
    decreases count,
{
    let ghost before = text@;
    if count > 0 {
        push_hex(text, value / 16, count - 1);
        let low: u8 = (value % 16) as u8;
        let c: char = if low < 10 {
            (48 + low) as char
        } else {
            (87 + low) as char
        };
        text.push(c);
    }
    assert(text@ =~= before + hex_text(value, count as nat));
}

/// A digest as text.
fn render(hash: u64) -> (text: String)
    ensures
        text@ == hex_text(hash, 16),
{
    let mut text: String = String::new();
    push_hex(&mut text, hash, 16);
    assert(text@ =~= hex_text(hash, 16));
    text
}

/// The digest of some bytes, as text.
pub fn digest_bytes(bytes: &[u8]) -> (digest: String)
    ensures
        digest@ == hex_text(fnv(bytes@), 16),
{
    let mut hash: u64 = OFFSET;
    let mut at: usize = 0;
    assert(bytes@.take(0) =~= Seq::empty());
    while at < bytes.len()
        invariant
            at <= bytes@.len(),
            hash == fnv(bytes@.take(at as int)),
        decreases bytes@.len() - at,
    {
        assert(bytes@.take(at + 1).drop_last() =~= bytes@.take(at as int));
        hash = step(hash, bytes[at]);
        at += 1;
    }
    assert(bytes@.take(at as int) =~= bytes@);
    render(hash)
}

proof fn lemma_fnv_push(bytes: Seq<u8>, byte: u8)
    ensures
        fnv(bytes.push(byte)) == fnv_step(fnv(bytes), byte),
{
    assert(bytes.push(byte).drop_last() =~= bytes);
}

/// The digest after one more number.
fn feed(hash: u64, value: u64, Ghost(before): Ghost<Seq<u8>>) -> (next: u64)
    requires
        hash == fnv(before),
    ensures
        next == fnv(before + le_bytes(value)),
{
    let mut next: u64 = hash;
    let mut at: u64 = 0;
    assert(before + le_bytes(value).take(0) =~= before);
    while at < 8
        invariant
            at <= 8,
            next == fnv(before + le_bytes(value).take(at as int)),
        decreases 8 - at,
    {
        let byte: u8 = (value >> (8 * at)) as u8;
        proof {
            let now = before + le_bytes(value).take(at as int);
            lemma_fnv_push(now, byte);
            assert(now.push(byte) =~= before + le_bytes(value).take(at + 1));
        }
        next = step(next, byte);
        at += 1;
    }
    assert(le_bytes(value).take(8) =~= le_bytes(value));
    next
}

/// The digest of some numbers, as text.
pub fn digest_words(words: &Vec<u64>) -> (digest: String)
    ensures
        digest@ == hex_text(fnv(bytes_of(words@)), 16),
{
    let mut hash: u64 = OFFSET;
    let mut at: usize = 0;
    assert(words@.take(0) =~= Seq::empty());
    while at < words.len()
        invariant
            at <= words@.len(),
            hash == fnv(bytes_of(words@.take(at as int))),
        decreases words@.len() - at,
    {
        assert(words@.take(at + 1).drop_last() =~= words@.take(at as int));
        hash = feed(hash, words[at], Ghost(bytes_of(words@.take(at as int))));
        at += 1;
    }
    assert(words@.take(at as int) =~= words@);
    render(hash)
}

} // verus!
