//! Keys in split order.
//!
//! The list of a split-ordered map is sorted by the bit-reversed key. A
//! bucket's sentinel has the reversed bucket number as its key; an entry
//! has the reversed user key with the lowest bit set, so that it sorts
//! behind the sentinel of every bucket it can belong to.
use vstd::prelude::*;

verus! {

/// The word with only its most significant bit set. User keys and bucket
/// numbers lie below it.
pub const HI_BIT: u64 = 0x8000_0000_0000_0000;

/// The word `x` with the order of its 64 bits reversed.
pub open spec fn reversed(x: u64) -> u64 {
    let a = ((x >> 1) & 0x5555_5555_5555_5555u64) | ((x & 0x5555_5555_5555_5555u64) << 1);
    let b = ((a >> 2) & 0x3333_3333_3333_3333u64) | ((a & 0x3333_3333_3333_3333u64) << 2);
    let c = ((b >> 4) & 0x0f0f_0f0f_0f0f_0f0fu64) | ((b & 0x0f0f_0f0f_0f0f_0f0fu64) << 4);
    let d = ((c >> 8) & 0x00ff_00ff_00ff_00ffu64) | ((c & 0x00ff_00ff_00ff_00ffu64) << 8);
    let e = ((d >> 16) & 0x0000_ffff_0000_ffffu64) | ((d & 0x0000_ffff_0000_ffffu64) << 16);
    (e >> 32) | (e << 32)
}

/// `u64::reverse_bits` of the standard library, which this crate does not
/// verify: it is taken to return the word with bit `i` and bit `63 - i`
/// exchanged for every `i`, which is what [`reversed`] computes (see
/// [`lemma_reverse_bits_mirrors`]).
pub assume_specification[ u64::reverse_bits ](x: u64) -> (r: u64)
    ensures
        r == reversed(x),
;

/// Bit `i` of the reversed word is bit `63 - i` of the word.
pub proof fn lemma_reverse_bits_mirrors(x: u64, i: u64)
    by (bit_vector)
    requires
        i < 64,
    ensures
        (reversed(x) >> i) & 1 == (x >> ((63 - i) as u64)) & 1,
{
}

/// Reversing twice gives the word back.
pub proof fn lemma_reverse_bits_involution(x: u64)
    by (bit_vector)
    ensures
        reversed(reversed(x)) == x,
{
}

/// Whether `key` can be a user key: its most significant bit is clear.
pub open spec fn valid_key(key: u64) -> bool {
    key & HI_BIT == 0
}

/// The list key of the sentinel of bucket `bucket`.
pub open spec fn sentinel_key(bucket: u64) -> u64 {
    reversed(bucket)
}

/// The list key of the entry with user key `key`.
pub open spec fn content_key(key: u64) -> u64 {
    reversed(key | HI_BIT)
}

/// Whether a list key is that of an entry, not of a sentinel.
pub open spec fn is_content_key(list_key: u64) -> bool {
    list_key & 1 == 1
}

/// Whether `size` is a power of two.
pub open spec fn is_power_of_two(size: u64) -> bool {
    size != 0 && size & ((size - 1) as u64) == 0
}

/// The bucket of `key` in a table of `size` buckets, `size` a power of two:
/// the remainder of `key` by `size`.
pub open spec fn bucket_of(key: u64, size: u64) -> u64 {
    key & ((size - 1) as u64)
}

/// The largest power of two that is at most `bucket`; zero for zero.
pub open spec fn top_bit(bucket: u64) -> u64 {
    let a = bucket | (bucket >> 1);
    let b = a | (a >> 2);
    let c = b | (b >> 4);
    let d = c | (c >> 8);
    let e = d | (d >> 16);
    let f = e | (e >> 32);
    f ^ (f >> 1)
}

/// The bucket from which `bucket` was split off: `bucket` without its
/// highest set bit.
pub open spec fn parent_of(bucket: u64) -> u64 {
    (bucket - top_bit(bucket)) as u64
}

/// Whether `key` can be a user key.
pub fn is_valid_key(key: u64) -> (ok: bool)
    ensures
        ok == valid_key(key),
{
    key & HI_BIT == 0
}

/// The list key of the entry with user key `key`.
pub fn make_content_key(key: u64) -> (list_key: u64)
    ensures
        list_key == content_key(key),
{
    (key | HI_BIT).reverse_bits()
}

/// The list key of the sentinel of bucket `bucket`.
pub fn make_sentinel_key(bucket: u64) -> (list_key: u64)
    ensures
        list_key == sentinel_key(bucket),
{
    bucket.reverse_bits()
}

/// The bucket from which `bucket` was split off, in a table of `size`
/// buckets.
pub fn parent_bucket(bucket: u64, size: u64) -> (parent: u64)
    requires
        is_power_of_two(size),
        bucket < size,
    ensures
        parent == parent_of(bucket),
        bucket != 0 ==> parent < bucket,
        bucket != 0 ==> sentinel_key(parent) < sentinel_key(bucket),
{
    if bucket == 0 {
        assert(parent_of(0) == 0) by (bit_vector);
        return 0;
    }
    let mut top: u64 = size;
    while (top >> 1) > bucket
        invariant
            is_power_of_two(top),
            bucket < top,
            bucket != 0,
        decreases top,
    {
        proof {
            lemma_halve(top, bucket);
        }
        top = top >> 1;
    }
    proof {
        lemma_halve(top, bucket);
        lemma_parent_below(bucket, top >> 1);
    }
    let top: u64 = top >> 1;
    bucket - top
}

/// Half of a power of two above a bucket number other than zero is a power
/// of two, and if it is not above the bucket number, it is the number's
/// highest set bit.
proof fn lemma_halve(top: u64, bucket: u64)
    by (bit_vector)
    requires
        top != 0 && top & ((top - 1) as u64) == 0,
        0 < bucket < top,
    ensures
        top >> 1 != 0,
        (top >> 1) & (((top >> 1) - 1) as u64) == 0,
        top >> 1 < top,
        top >> 1 <= bucket ==> bucket - (top >> 1) < (top >> 1),
{
}

/// A bucket's sentinel sorts behind the sentinel of the bucket it was
/// split off.
pub proof fn lemma_parent_below(bucket: u64, top: u64)
    by (bit_vector)
    requires
        top != 0 && top & ((top - 1) as u64) == 0,
        top <= bucket,
        bucket - top < top,
    ensures
        top == top_bit(bucket),
        reversed((bucket - top) as u64) < reversed(bucket),
        bucket & HI_BIT == 0 ==> ((bucket - top) as u64) & HI_BIT == 0,
{
}

/// A bucket other than zero lies above the bucket it was split off.
pub proof fn lemma_parent_smaller(bucket: u64)
    by (bit_vector)
    requires
        bucket != 0,
    ensures
        parent_of(bucket) < bucket,
{
}

/// An entry sorts behind the sentinel of its bucket, whatever the number of
/// buckets.
pub proof fn lemma_sentinel_below_content(key: u64, size: u64)
    by (bit_vector)
    requires
        key & HI_BIT == 0,
    ensures
        reversed(key & ((size - 1) as u64)) < reversed(key | HI_BIT),
        (key & ((size - 1) as u64)) & HI_BIT == 0,
{
}

/// Sentinels have even list keys and entries odd ones, and the user key
/// can be read off an entry's list key.
pub proof fn lemma_key_kinds(key: u64)
    by (bit_vector)
    requires
        key & HI_BIT == 0,
    ensures
        reversed(key) & 1 == 0,
        reversed(key | HI_BIT) & 1 == 1,
        reversed(reversed(key | HI_BIT)) & !HI_BIT == key,
{
}

/// The bucket of a key lies below the number of buckets.
pub proof fn lemma_bucket_in_range(key: u64, size: u64)
    by (bit_vector)
    requires
        size != 0 && size & ((size - 1) as u64) == 0,
    ensures
        key & ((size - 1) as u64) < size,
{
}

} // verus!
