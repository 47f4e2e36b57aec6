//! Which shard a value belongs to: a hash of the value, modulo the number of shards.

use crate::data::{DataType, Value};
use vstd::prelude::*;
use vstd::utf8::encode_utf8;

verus! {

/// The offset basis of the 64-bit FNV-1a hash.
pub const FNV_OFFSET: u64 = 0xcbf29ce484222325;

/// The prime of the 64-bit FNV-1a hash.
pub const FNV_PRIME: u64 = 0x100000001b3;

/// The 64-bit FNV-1a hash of a byte string.
pub open spec fn fnv1a(bytes: Seq<u8>) -> u64
    decreases bytes.len(),
{
    if bytes.len() == 0 {
        FNV_OFFSET
    } else {
        (fnv1a(bytes.drop_last()) ^ (bytes.last() as u64)).wrapping_mul(FNV_PRIME)
    }
}

/// The hash of a value: a number is its own hash, a negative one after reflection to the
/// non-negative numbers; a text or a byte string hashes its bytes.
pub open spec fn hash_value(v: Value) -> nat {
    match v {
        Value::Null => 0,
        Value::Bool(b) => if b {
            1
        } else {
            0
        },
        Value::Int(n) => if n >= 0 {
            n as nat
        } else {
            (-(n + 1)) as nat
        },
        Value::UnsignedInt(n) => n as nat,
        Value::Timestamp(n) => if n >= 0 {
            n as nat
        } else {
            (-(n + 1)) as nat
        },
        Value::Text(s) => fnv1a(encode_utf8(s)) as nat,
        Value::Bytes(b) => fnv1a(b) as nat,
    }
}

/// The shard, of `shards`, that a value belongs to.
pub open spec fn shard_of(v: Value, shards: nat) -> nat
    recommends
        shards > 0,
{
    hash_value(v) % shards
}

/// The 64-bit FNV-1a hash of a byte string.
pub fn hash_bytes(bytes: &[u8]) -> (h: u64)
    ensures
        h == fnv1a(bytes@),
{
    let mut h: u64 = FNV_OFFSET;
    let mut i: usize = 0;
    assert(bytes@.take(0) =~= Seq::<u8>::empty());
    while i < bytes.len()
        invariant
            i <= bytes@.len(),
            h == fnv1a(bytes@.take(i as int)),
        decreases bytes@.len() - i,
    {
        proof {
            assert(bytes@.take(i + 1).drop_last() =~= bytes@.take(i as int));
            assert(bytes@.take(i + 1).last() == bytes@[i as int]);
        }
        h = (h ^ (bytes[i] as u64)).wrapping_mul(FNV_PRIME);
        i += 1;
    }
    assert(bytes@.take(bytes@.len() as int) =~= bytes@);
    h
}

fn reflect(n: i64) -> (h: u64)
    ensures
        h == if n >= 0 {
            n as nat
        } else {
            (-(n + 1)) as nat
        },
{
    if n >= 0 {
        n as u64
    } else {
        (-(n + 1)) as u64
    }
}

/// The hash of a value.
pub fn hash_of(value: &DataType) -> (h: u64)
    ensures
        h == hash_value(value@),
{
    match value {
        DataType::Null => 0,
        DataType::Bool(b) => if *b {
            1
        } else {
            0
        },
        DataType::Int(n) => reflect(*n),
        DataType::UnsignedInt(n) => *n,
        DataType::Timestamp(n) => reflect(*n),
        DataType::Text(s) => hash_bytes(s.as_str().as_bytes()),
        DataType::Bytes(b) => hash_bytes(b.as_slice()),
    }
}

/// The shard, of `shards`, that `value` belongs to.
pub fn shard_by(value: &DataType, shards: usize) -> (s: usize)
    requires
        shards > 0,
    ensures
        s == shard_of(value@, shards as nat),
        s < shards,
{
    let h: u64 = hash_of(value);
    (h % (shards as u64)) as usize
}

} // verus!
