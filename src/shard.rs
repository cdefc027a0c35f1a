//! The shard map: a key goes to the shard given by the sum of its UTF-8 bytes
//! modulo the number of shards.

use vstd::arithmetic::div_mod::{lemma_add_mod_noop, lemma_mod_bound, lemma_small_mod};
use vstd::prelude::*;
use vstd::string::*;
use vstd::utf8::*;

verus! {

/// The number of shards of the default cluster.
pub const DEFAULT_SHARD_COUNT: usize = 3;

/// The sum of a byte sequence, each byte taken as an unsigned number.
pub open spec fn byte_sum(b: Seq<u8>) -> nat
    decreases b.len(),
{
    if b.len() == 0 {
        0
    } else {
        byte_sum(b.drop_last()) + b.last() as nat
    }
}

/// The shard that owns `key` among `shard_count` shards.
pub open spec fn shard_index(key: Seq<char>, shard_count: nat) -> nat {
    byte_sum(encode_utf8(key)) % shard_count
}

/// The shard of a key given by its bytes.
pub fn shard_of_bytes(bytes: &[u8], shard_count: usize) -> (r: usize)
    requires
        shard_count > 0,
    ensures
        r == byte_sum(bytes@) % (shard_count as nat),
        r < shard_count,
{
    let n = shard_count;
    let mut acc: usize = 0;
    let mut i: usize = 0;
    proof {
        assert(bytes@.subrange(0, 0) =~= Seq::<u8>::empty());
        lemma_small_mod(0, n as nat);
    }
    while i < bytes.len()
        invariant
            n == shard_count,
            n > 0,
            i <= bytes@.len(),
            acc < n,
            acc == byte_sum(bytes@.subrange(0, i as int)) % (n as nat),
        decreases bytes@.len() - i,
    {
        let b: usize = (bytes[i] as usize) % n;
        let next: usize = if acc >= n - b {
            acc - (n - b)
        } else {
            acc + b
        };
        proof {
            let prefix = bytes@.subrange(0, i as int);
            let longer = bytes@.subrange(0, i + 1);
            assert(longer.drop_last() =~= prefix);
            assert(byte_sum(longer) == byte_sum(prefix) + bytes@[i as int] as nat);
            let s = byte_sum(prefix) as int;
            let x = bytes@[i as int] as int;
            lemma_add_mod_noop(s, x, n as int);
            lemma_small_mod(x as nat % (n as nat), n as nat);
            lemma_small_mod(acc as nat, n as nat);
            lemma_mod_bound(s + x, n as int);
            if acc >= n - b {
                assert(acc + b - n < n);
                assert((acc + b) as int % n as int == (acc + b - n) as int) by {
                    lemma_small_mod((acc + b - n) as nat, n as nat);
                    vstd::arithmetic::div_mod::lemma_mod_sub_multiples_vanish(
                        (acc + b) as int,
                        n as int,
                    );
                }
            } else {
                lemma_small_mod((acc + b) as nat, n as nat);
            }
        }
        acc = next;
        i = i + 1;
    }
    proof {
        assert(bytes@.subrange(0, bytes@.len() as int) =~= bytes@);
    }
    acc
}

/// The shard, in `[0, shard_count)`, that owns `key`: the sum of the key's
/// UTF-8 bytes modulo `shard_count`.
pub fn shard_of(key: &str, shard_count: usize) -> (r: usize)
    requires
        shard_count > 0,
    ensures
        r == shard_index(key@, shard_count as nat),
        r < shard_count,
{
    shard_of_bytes(key.as_bytes(), shard_count)
}

/// The shard that owns `key` in the default cluster of three nodes.
pub fn simple_hash(key: &str) -> (r: usize)
    ensures
        r == shard_index(key@, DEFAULT_SHARD_COUNT as nat),
        r < DEFAULT_SHARD_COUNT,
{
    shard_of(key, DEFAULT_SHARD_COUNT)
}

/// Equal keys go to equal shards for a fixed shard count: the shard of a key
/// depends on nothing but the key and the count.
pub proof fn lemma_shard_deterministic(a: Seq<char>, b: Seq<char>, shard_count: nat)
    requires
        a == b,
        shard_count > 0,
    ensures
        shard_index(a, shard_count) == shard_index(b, shard_count),
        shard_index(a, shard_count) < shard_count,
{
    lemma_mod_bound(byte_sum(encode_utf8(a)) as int, shard_count as int);
}

/// Every shard index below the shard count is owned by some key.
pub proof fn lemma_every_shard_reachable(shard_count: nat, index: nat)
    requires
        index < shard_count,
    ensures
        exists|key: Seq<char>| shard_index(key, shard_count) == index,
{
    let key = Seq::new(index, |i: int| '\u{1}');
    lemma_ones_encoding(index);
    lemma_small_mod(index, shard_count);
    assert(shard_index(key, shard_count) == index);
}

/// A key of `count` copies of U+0001 is encoded as `count` bytes of value one.
proof fn lemma_ones_encoding(count: nat)
    ensures
        byte_sum(encode_utf8(Seq::new(count, |i: int| '\u{1}'))) == count,
{
    let key = Seq::new(count, |i: int| '\u{1}');
    is_ascii_chars_encode_utf8(key);
    let bytes = encode_utf8(key);
    assert(bytes =~= Seq::new(count, |i: int| 1u8));
    lemma_ones_sum(count);
}

proof fn lemma_ones_sum(count: nat)
    ensures
        byte_sum(Seq::new(count, |i: int| 1u8)) == count,
    decreases count,
{
    if count > 0 {
        assert(Seq::new(count, |i: int| 1u8).drop_last() =~= Seq::new(
            (count - 1) as nat,
            |i: int| 1u8,
        ));
        lemma_ones_sum((count - 1) as nat);
    }
}

} // verus!
