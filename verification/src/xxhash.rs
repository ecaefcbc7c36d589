//! The 32-bit xxHash function, with its mathematical definition.

use vstd::prelude::*;

verus! {

pub const PRIME32_1: u32 = 2654435761u32;
pub const PRIME32_2: u32 = 2246822519u32;
pub const PRIME32_3: u32 = 3266489917u32;
pub const PRIME32_4: u32 = 668265263u32;
pub const PRIME32_5: u32 = 374761393u32;

/// Rotation of a 32-bit word to the left by `r` bits, `0 < r < 32`.
pub open spec fn rotl(x: u32, r: u32) -> u32 {
    (x << r) | (x >> ((32 - r) as u32))
}

/// The little-endian 32-bit word made of the four bytes at `i`.
pub open spec fn word_at(b: Seq<u8>, i: int) -> u32 {
    (b[i] as u32) | ((b[i + 1] as u32) << 8u32) | ((b[i + 2] as u32) << 16u32) | ((b[i + 3]
        as u32) << 24u32)
}

/// One round of the main loop: mixes one word into one lane.
pub open spec fn round(acc: u32, lane: u32) -> u32 {
    rotl(acc.wrapping_add(lane.wrapping_mul(PRIME32_2)), 13).wrapping_mul(PRIME32_1)
}

pub open spec fn step4(v: (u32, u32, u32, u32), b: Seq<u8>, i: int) -> (u32, u32, u32, u32) {
    (
        round(v.0, word_at(b, i)),
        round(v.1, word_at(b, i + 4)),
        round(v.2, word_at(b, i + 8)),
        round(v.3, word_at(b, i + 12)),
    )
}

/// The four lanes after every full 16-byte stripe from `i` on, and where the
/// stripes end.
pub open spec fn stripes(b: Seq<u8>, i: int, v: (u32, u32, u32, u32)) -> ((u32, u32, u32, u32), int)
    decreases b.len() - i,
{
    if 0 <= i && i + 16 <= b.len() {
        stripes(b, i + 16, step4(v, b, i))
    } else {
        (v, i)
    }
}

pub open spec fn mix_word(acc: u32, w: u32) -> u32 {
    rotl(acc.wrapping_add(w.wrapping_mul(PRIME32_3)), 17).wrapping_mul(PRIME32_4)
}

/// The accumulator after every remaining full 4-byte word from `i` on, and
/// where those words end.
pub open spec fn words(b: Seq<u8>, i: int, acc: u32) -> (u32, int)
    decreases b.len() - i,
{
    if 0 <= i && i + 4 <= b.len() {
        words(b, i + 4, mix_word(acc, word_at(b, i)))
    } else {
        (acc, i)
    }
}

pub open spec fn mix_byte(acc: u32, byte: u8) -> u32 {
    rotl(acc.wrapping_add((byte as u32).wrapping_mul(PRIME32_5)), 11).wrapping_mul(PRIME32_1)
}

/// The accumulator after every byte from `i` on.
pub open spec fn tail_bytes(b: Seq<u8>, i: int, acc: u32) -> u32
    decreases b.len() - i,
{
    if 0 <= i && i < b.len() {
        tail_bytes(b, i + 1, mix_byte(acc, b[i]))
    } else {
        acc
    }
}

pub open spec fn avalanche(h: u32) -> u32 {
    let h1 = h ^ (h >> 15u32);
    let h2 = h1.wrapping_mul(PRIME32_2);
    let h3 = h2 ^ (h2 >> 13u32);
    let h4 = h3.wrapping_mul(PRIME32_3);
    h4 ^ (h4 >> 16u32)
}

pub open spec fn initial_lanes(seed: u32) -> (u32, u32, u32, u32) {
    (
        seed.wrapping_add(PRIME32_1).wrapping_add(PRIME32_2),
        seed.wrapping_add(PRIME32_2),
        seed,
        seed.wrapping_sub(PRIME32_1),
    )
}

pub open spec fn merge_lanes(v: (u32, u32, u32, u32)) -> u32 {
    rotl(v.0, 1).wrapping_add(rotl(v.1, 7)).wrapping_add(rotl(v.2, 12)).wrapping_add(rotl(v.3, 18))
}

/// xxHash32 of the bytes `b` with the given seed.
#[verifier::opaque]
pub open spec fn xxh32(b: Seq<u8>, seed: u32) -> u32 {
    let (acc, start) = if b.len() >= 16 {
        let (v, i) = stripes(b, 0, initial_lanes(seed));
        (merge_lanes(v), i)
    } else {
        (seed.wrapping_add(PRIME32_5), 0int)
    };
    let (acc2, j) = words(b, start, acc.wrapping_add(b.len() as u32));
    avalanche(tail_bytes(b, j, acc2))
}

fn rotate(x: u32, r: u32) -> (out: u32)
    requires
        0 < r < 32,
    ensures
        out == rotl(x, r),
{
    (x << r) | (x >> (32 - r))
}

fn read_u32_le(data: &[u8], offset: usize) -> (w: u32)
    requires
        offset + 4 <= data@.len(),
    ensures
        w == word_at(data@, offset as int),
{
    (data[offset] as u32) | ((data[offset + 1] as u32) << 8) | ((data[offset + 2] as u32) << 16)
        | ((data[offset + 3] as u32) << 24)
}

fn xx_round(acc: u32, lane: u32) -> (out: u32)
    ensures
        out == round(acc, lane),
{
    rotate(acc.wrapping_add(lane.wrapping_mul(PRIME32_2)), 13).wrapping_mul(PRIME32_1)
}

/// Raw xxHash32 over a byte slice with the given seed.
pub fn xx_hash32(input: &[u8], seed: u32) -> (h: u32)
    ensures
        h == xxh32(input@, seed),
{
    let len = input.len();
    let mut i: usize = 0;
    let mut acc: u32;
    if len >= 16 {
        let ghost init = initial_lanes(seed);
        let mut v1 = seed.wrapping_add(PRIME32_1).wrapping_add(PRIME32_2);
        let mut v2 = seed.wrapping_add(PRIME32_2);
        let mut v3 = seed;
        let mut v4 = seed.wrapping_sub(PRIME32_1);
        while len - i >= 16
            invariant
                len == input@.len(),
                i <= len,
                stripes(input@, i as int, (v1, v2, v3, v4)) == stripes(input@, 0, init),
            decreases len - i,
        {
            v1 = xx_round(v1, read_u32_le(input, i));
            v2 = xx_round(v2, read_u32_le(input, i + 4));
            v3 = xx_round(v3, read_u32_le(input, i + 8));
            v4 = xx_round(v4, read_u32_le(input, i + 12));
            i = i + 16;
        }
        acc = rotate(v1, 1).wrapping_add(rotate(v2, 7)).wrapping_add(rotate(v3, 12)).wrapping_add(
            rotate(v4, 18),
        );
    } else {
        acc = seed.wrapping_add(PRIME32_5);
    }
    let ghost start = i as int;
    let ghost acc_len = acc.wrapping_add(len as u32);
    acc = acc.wrapping_add(len as u32);
    while len - i >= 4
        invariant
            len == input@.len(),
            i <= len,
            words(input@, i as int, acc) == words(input@, start, acc_len),
        decreases len - i,
    {
        acc = rotate(acc.wrapping_add(read_u32_le(input, i).wrapping_mul(PRIME32_3)), 17).wrapping_mul(
            PRIME32_4,
        );
        i = i + 4;
    }
    let ghost j = i as int;
    let ghost acc_words = acc;
    while i < len
        invariant
            len == input@.len(),
            i <= len,
            tail_bytes(input@, i as int, acc) == tail_bytes(input@, j, acc_words),
        decreases len - i,
    {
        acc = rotate(acc.wrapping_add((input[i] as u32).wrapping_mul(PRIME32_5)), 11).wrapping_mul(
            PRIME32_1,
        );
        i = i + 1;
    }
    acc = acc ^ (acc >> 15);
    acc = acc.wrapping_mul(PRIME32_2);
    acc = acc ^ (acc >> 13);
    acc = acc.wrapping_mul(PRIME32_3);
    acc = acc ^ (acc >> 16);
    proof {
        reveal(xxh32);
    }
    acc
}

/// Hashes a string's UTF-8 bytes with xxHash32 and gives the hash as
/// lower-case hexadecimal without leading zeros.
pub fn hash_str(input: &str, seed: u32) -> (s: String)
    ensures
        s@ == crate::text::hex(xxh32(crate::text::utf8(input@), seed) as nat),
{
    let h = xx_hash32(input.as_bytes(), seed);
    let mut s = String::new();
    crate::text::push_numeral(&mut s, h as u64, 16);
    s
}

/// The word phase consumes every remaining full 4-byte word: it ends a
/// whole number of words after where it starts, with fewer than 4 bytes
/// left.
pub proof fn law_words_consume_all(b: Seq<u8>, i: int, acc: u32)
    requires
        0 <= i <= b.len(),
    ensures
        i <= words(b, i, acc).1 <= b.len(),
        (words(b, i, acc).1 - i) % 4 == 0,
        b.len() - words(b, i, acc).1 < 4,
    decreases b.len() - i,
{
    if i + 4 <= b.len() {
        law_words_consume_all(b, i + 4, mix_word(acc, word_at(b, i)));
    }
}

/// The stripe phase consumes every full 16-byte stripe: it ends a whole
/// number of stripes after where it starts, with fewer than 16 bytes left.
#[verifier::spinoff_prover]
pub proof fn law_stripes_consume_all(b: Seq<u8>, i: int, v: (u32, u32, u32, u32))
    requires
        0 <= i <= b.len(),
    ensures
        i <= stripes(b, i, v).1 <= b.len(),
        (stripes(b, i, v).1 - i) % 16 == 0,
        b.len() - stripes(b, i, v).1 < 16,
    decreases b.len() - i,
{
    if i + 16 <= b.len() {
        let w = step4(v, b, i);
        law_stripes_consume_all(b, i + 16, w);
        let j = stripes(b, i + 16, w).1;
        assert(stripes(b, i, v) == stripes(b, i + 16, w));
        assert((j - i) % 16 == 0) by (nonlinear_arith)
            requires
                (j - (i + 16)) % 16 == 0,
        ;
    }
}

/// A 4-byte input is mixed in as one little-endian word, after the seed,
/// the fifth prime and the length: no byte is mixed in on its own.
pub proof fn law_four_byte_input(b: Seq<u8>, seed: u32)
    requires
        b.len() == 4,
    ensures
        xxh32(b, seed) == avalanche(
            mix_word(seed.wrapping_add(PRIME32_5).wrapping_add(4u32), word_at(b, 0)),
        ),
{
    reveal(xxh32);
    let acc = seed.wrapping_add(PRIME32_5).wrapping_add(4u32);
    assert(words(b, 4, mix_word(acc, word_at(b, 0))) == (mix_word(acc, word_at(b, 0)), 4int));
    assert(words(b, 0, acc) == (mix_word(acc, word_at(b, 0)), 4int));
    assert(tail_bytes(b, 4, mix_word(acc, word_at(b, 0))) == mix_word(acc, word_at(b, 0)));
}

} // verus!
