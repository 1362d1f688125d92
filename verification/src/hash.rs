use vstd::prelude::*;
use vstd::wrapping::u32_specs::{wrapping_add, wrapping_mul};

verus! {

pub const MURMURHASH3_C1: u32 = 0xcc9e2d51u32;

pub const MURMURHASH3_C2: u32 = 0x1b873593u32;

/// Rotation of a 32-bit word to the left by `r` bits (`0 < r < 32`).
pub open spec fn rotl32(x: u32, r: u32) -> u32 {
    (x << r) | (x >> ((32 - r) as u32))
}

/// The little-endian word made of bytes `4 * i .. 4 * i + 4`.
pub open spec fn le_block(bytes: Seq<u8>, i: int) -> u32 {
    (bytes[4 * i] as u32) | ((bytes[4 * i + 1] as u32) << 8u32) | ((bytes[4 * i + 2] as u32)
        << 16u32) | ((bytes[4 * i + 3] as u32) << 24u32)
}

/// Scrambling of one 32-bit key word.
pub open spec fn scramble(k: u32) -> u32 {
    wrapping_mul(rotl32(wrapping_mul(k, MURMURHASH3_C1), 15), MURMURHASH3_C2)
}

/// State of the hash after the first `n` whole words.
pub open spec fn murmur_blocks(bytes: Seq<u8>, seed: u32, n: int) -> u32
    decreases n,
{
    if n <= 0 {
        seed
    } else {
        let h = murmur_blocks(bytes, seed, n - 1) ^ scramble(le_block(bytes, n - 1));
        wrapping_add(wrapping_mul(rotl32(h, 13), 5), 0xe6546b64u32)
    }
}

/// Final avalanche of the hash state.
pub open spec fn fmix32(h0: u32) -> u32 {
    let h1 = h0 ^ (h0 >> 16u32);
    let h2 = wrapping_mul(h1, 0x85ebca6bu32);
    let h3 = h2 ^ (h2 >> 13u32);
    let h4 = wrapping_mul(h3, 0xc2b2ae35u32);
    h4 ^ (h4 >> 16u32)
}

/// The word made of the `r` bytes (`0 <= r < 4`) left after the whole words,
/// from `p` on, little-endian.
pub open spec fn tail_word(bytes: Seq<u8>, p: int, r: int) -> u32 {
    (if r > 2 {
        (bytes[p + 2] as u32) << 16u32
    } else {
        0u32
    }) ^ (if r > 1 {
        (bytes[p + 1] as u32) << 8u32
    } else {
        0u32
    }) ^ (if r > 0 {
        bytes[p] as u32
    } else {
        0u32
    })
}

/// MurmurHash3 (x86, 32 bits) of the first `len` bytes: whole words are
/// read little-endian, and the one to three bytes that remain are folded
/// into a last word that is scrambled into the hash.
pub open spec fn murmur3(bytes: Seq<u8>, len: int, seed: u32) -> u32 {
    let nblocks = len / 4;
    let h = murmur_blocks(bytes, seed, nblocks);
    let h = if len % 4 != 0 {
        h ^ scramble(tail_word(bytes, 4 * nblocks, len % 4))
    } else {
        h
    };
    fmix32(h ^ (len as u32))
}

fn rotl32_exec(x: u32, r: u32) -> (y: u32)
    requires
        0 < r < 32,
    ensures
        y == rotl32(x, r),
{
    (x << r) | (x >> (32 - r))
}

fn scramble_exec(k: u32) -> (y: u32)
    ensures
        y == scramble(k),
{
    let k1 = k.wrapping_mul(MURMURHASH3_C1);
    let k1 = rotl32_exec(k1, 15);
    k1.wrapping_mul(MURMURHASH3_C2)
}

fn murmurhash3_32(pkt: &[u8], len: usize, seed: u32) -> (h: u32)
    requires
        len <= pkt@.len(),
    ensures
        h == murmur3(pkt@, len as int, seed),
{
    let mut h1 = seed;
    let block_len = len / 4;
    let mut i: usize = 0;
    while i < block_len
        invariant
            block_len == len / 4,
            len <= pkt@.len(),
            0 <= i <= block_len,
            h1 == murmur_blocks(pkt@, seed, i as int),
        decreases block_len - i,
    {
        let k1: u32 = (pkt[4 * i] as u32) | ((pkt[4 * i + 1] as u32) << 8u32) | ((pkt[4 * i + 2]
            as u32) << 16u32) | ((pkt[4 * i + 3] as u32) << 24u32);
        h1 = h1 ^ scramble_exec(k1);
        h1 = rotl32_exec(h1, 13);
        h1 = h1.wrapping_mul(5);
        h1 = h1.wrapping_add(0xe6546b64);
        i = i + 1;
    }
    let rem = len % 4;
    if rem != 0 {
        let p = block_len * 4;
        let hi: u32 = if rem > 2 {
            (pkt[p + 2] as u32) << 16u32
        } else {
            0u32
        };
        let mid: u32 = if rem > 1 {
            (pkt[p + 1] as u32) << 8u32
        } else {
            0u32
        };
        let lo: u32 = pkt[p] as u32;
        let k1 = hi ^ mid ^ lo;
        assert(k1 == tail_word(pkt@, p as int, rem as int));
        h1 = h1 ^ scramble_exec(k1);
    }
    h1 = h1 ^ (len as u32);
    h1 = h1 ^ (h1 >> 16u32);
    h1 = h1.wrapping_mul(0x85ebca6b);
    h1 = h1 ^ (h1 >> 13u32);
    h1 = h1.wrapping_mul(0xc2b2ae35);
    h1 = h1 ^ (h1 >> 16u32);
    h1
}

/// Hash of the parsed headers (the first `hdr_len` bytes of the packet) for
/// the first-level cache: the low 16 bits of `murmur3`.
pub fn l1_hash_function_murmurhash3(pkt: &[u8], hdr_len: usize, seed: u32) -> (r: u16)
    requires
        hdr_len <= pkt@.len(),
    ensures
        r == murmur3(pkt@, hdr_len as int, seed) as u16,
{
    murmurhash3_32(pkt, hdr_len, seed) as u16
}

/// Hash of a cache key (the first `key_len` bytes) for the second-level
/// cache: the low 16 bits of `murmur3`.
pub fn l2_hash_function_murmurhash3(pkt: &[u8], key_len: usize, seed: u32) -> (r: u16)
    requires
        key_len <= pkt@.len(),
    ensures
        r == murmur3(pkt@, key_len as int, seed) as u16,
{
    murmurhash3_32(pkt, key_len, seed) as u16
}

/// Hash of a tuple-space key: the same as `l2_hash_function_murmurhash3`.
pub fn l3_hash_function_murmurhash3(pkt: &[u8], key_len: usize, seed: u32) -> (r: u16)
    requires
        key_len <= pkt@.len(),
    ensures
        r == murmur3(pkt@, key_len as int, seed) as u16,
{
    l2_hash_function_murmurhash3(pkt, key_len, seed)
}

} // verus!
