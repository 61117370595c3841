//! Hashing of keys and the bucket index derived from it.
//!
//! A key is hashed with 64-bit FNV-1a over the UTF-8 bytes of its text.
use vstd::prelude::*;
use vstd::string::*;
use vstd::utf8::encode_utf8;

verus! {

pub const FNV_OFFSET: u64 = 0xcbf2_9ce4_8422_2325;

pub const FNV_PRIME: u64 = 0x0000_0100_0000_01b3;

/// One FNV-1a step: mix in a byte, then multiply modulo 2^64.
pub open spec fn fnv_step(h: u64, b: u8) -> u64 {
    (((h ^ (b as u64)) as nat * FNV_PRIME as nat) % 0x1_0000_0000_0000_0000nat) as u64
}

/// FNV-1a of a byte string.
pub open spec fn fnv1a(bytes: Seq<u8>) -> u64
    decreases bytes.len(),
{
    if bytes.len() == 0 {
        FNV_OFFSET
    } else {
        fnv_step(fnv1a(bytes.drop_last()), bytes.last())
    }
}

/// The hash of a key: FNV-1a of its UTF-8 encoding.
pub open spec fn key_hash(key: Seq<char>) -> u64 {
    fnv1a(encode_utf8(key))
}

/// The bucket a key belongs to in a table of `capacity` buckets.
pub open spec fn bucket_of(key: Seq<char>, capacity: nat) -> nat
    recommends
        capacity > 0,
{
    (key_hash(key) as nat) % capacity
}

/// Computes `key_hash` of the text of `key`.
pub fn hash_key(key: &str) -> (h: u64)
    ensures
        h == key_hash(key@),
{
    let bytes = key.as_bytes_vec();
    let mut h: u64 = FNV_OFFSET;
    let mut i: usize = 0;
    while i < bytes.len()
        invariant
            i <= bytes@.len(),
            bytes@ == encode_utf8(key@),
            h == fnv1a(bytes@.take(i as int)),
        decreases bytes@.len() - i,
    {
        let x: u128 = (h ^ (bytes[i] as u64)) as u128;
        let p: u128 = FNV_PRIME as u128;
        assert(x * p <= 0xffff_ffff_ffff_ffffu128 * 0xffff_ffff_ffff_ffffu128) by (nonlinear_arith)
            requires
                x <= 0xffff_ffff_ffff_ffffu128,
                p <= 0xffff_ffff_ffff_ffffu128,
        ;
        h = ((x * p) % 0x1_0000_0000_0000_0000u128) as u64;
        assert(bytes@.take(i + 1).drop_last() =~= bytes@.take(i as int));
        i = i + 1;
    }
    assert(bytes@.take(i as int) =~= bytes@);
    h
}

/// The bucket of `key` in a table of `capacity` buckets.
pub fn bucket_index(key: &str, capacity: usize) -> (r: usize)
    requires
        capacity > 0,
    ensures
        r == bucket_of(key@, capacity as nat),
        r < capacity,
{
    let h = hash_key(key);
    ((h as u128) % (capacity as u128)) as usize
}

} // verus!
