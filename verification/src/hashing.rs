use vstd::prelude::*;

verus! {

use crate::little_endian::le32;
use crate::meta_list::{hash_words, key_hash, Meta};
use crate::words::{law_read_lowest_first, lemma_word4_bytes, word4};

/// Bit `j` of a number, counted from the lowest one.
pub open spec fn bit_of(v: u32, j: int) -> bool {
    (v >> (j as u32)) & 1 == 1
}

/// A bit of a hash after one more word.
proof fn lemma_one_word(h: u32, w: u32, j: u32)
    requires
        j < 32,
    ensures
        bit_of(((h >> 1) | (h << 31)) ^ w, j as int) == (bit_of(h, (j + 1) % 32) != bit_of(
            w,
            j as int,
        )),
{
    let k: u32 = if j == 31 {
        0
    } else {
        (j + 1) as u32
    };
    assert(((((((h >> 1) | (h << 31)) ^ w) >> j) & 1) == 1) == ((((h >> k) & 1) == 1) != (((w >> j)
        & 1) == 1))) by (bit_vector)
        requires
            j < 32,
            j == 31 ==> k == 0,
            j < 31 ==> k == j + 1,
    ;
}

/// Word `i` of a key.
pub open spec fn key_word(key: Seq<u8>, i: int) -> u32 {
    word4(key, 4 * i) as u32
}

proof fn lemma_key_word(key: Seq<u8>, i: int)
    requires
        0 <= i,
        4 * i + 4 <= key.len(),
    ensures
        key_word(key, i) == le32(key, 4 * i) as u32,
        key_word(key, i) == word4(key, 4 * i),
{
    law_read_lowest_first(key, 4 * i);
    lemma_word4_bytes(key, key.subrange(4 * i, 4 * i + 4), 4 * i);
}

/// Two keys that agree in all words but one.
pub open spec fn differ_in_word(a: Seq<u8>, b: Seq<u8>, i: int) -> bool {
    &&& a.len() == b.len()
    &&& forall|k: int| 0 <= k < a.len() && k / 4 != i ==> #[trigger] a[k] == b[k]
}

proof fn lemma_changed_word(a: Seq<u8>, b: Seq<u8>, i: int, m: nat, j: int)
    requires
        differ_in_word(a, b, i),
        0 <= i,
        4 * m <= a.len(),
        0 <= j < 32,
    ensures
        (bit_of(hash_words(a, m), j) != bit_of(hash_words(b, m), j)) == (i < m && bit_of(
            key_word(a, i),
            (j + m - 1 - i) % 32,
        ) != bit_of(key_word(b, i), (j + m - 1 - i) % 32)),
    decreases m,
{
    if m > 0 {
        let n = (m - 1) as nat;
        lemma_key_word(a, m - 1);
        lemma_key_word(b, m - 1);
        lemma_one_word(hash_words(a, n), key_word(a, m - 1), j as u32);
        lemma_one_word(hash_words(b, n), key_word(b, m - 1), j as u32);
        lemma_changed_word(a, b, i, n, (j + 1) % 32);
        if i != m - 1 {
            assert(a[4 * (m - 1)] == b[4 * (m - 1)]);
            assert(a[4 * (m - 1) + 1] == b[4 * (m - 1) + 1]);
            assert(a[4 * (m - 1) + 2] == b[4 * (m - 1) + 2]);
            assert(a[4 * (m - 1) + 3] == b[4 * (m - 1) + 3]);
            assert(key_word(a, m - 1) == key_word(b, m - 1));
            if i < m - 1 {
                assert(((j + 1) % 32 + n - 1 - i) % 32 == (j + m - 1 - i) % 32) by {
                    if j == 31 {
                        vstd::arithmetic::div_mod::lemma_mod_add_multiples_vanish(
                            n - 1 - i as int,
                            32,
                        );
                    }
                }
            }
        }
    }
}

/// Where two keys of `n` words differ in word `i` only, their hashes differ in just the bits that
/// the words differ in, each moved down by as many places as words follow, round and round.
pub proof fn law_word_reaches_hash(a: Seq<u8>, b: Seq<u8>, n: int, i: int, j: int)
    requires
        a.len() == 4 * n,
        differ_in_word(a, b, i),
        0 <= i < n,
        0 <= j < 32,
    ensures
        (bit_of(key_hash(a), j) != bit_of(key_hash(b), j)) == (bit_of(
            key_word(a, i),
            (j + n - 1 - i) % 32,
        ) != bit_of(key_word(b, i), (j + n - 1 - i) % 32)),
{
    lemma_changed_word(a, b, i, n as nat, j);
}

proof fn lemma_zeros(a: Seq<u8>, m: nat, j: int)
    requires
        forall|k: int| 0 <= k < a.len() ==> a[k] == 0,
        4 * m <= a.len(),
        0 <= j < 32,
    ensures
        bit_of(hash_words(a, m), j) == bit_of(0x1234_5678, (j + m) % 32),
    decreases m,
{
    if m > 0 {
        let n = (m - 1) as nat;
        lemma_key_word(a, m - 1);
        assert(key_word(a, m - 1) == 0);
        lemma_one_word(hash_words(a, n), 0, j as u32);
        let z = j as u32;
        assert((0u32 >> z) & 1 == 0) by (bit_vector);
        lemma_zeros(a, n, (j + 1) % 32);
        assert(((j + 1) % 32 + n) % 32 == (j + m) % 32) by {
            if j == 31 {
                vstd::arithmetic::div_mod::lemma_mod_add_multiples_vanish(n as int, 32);
            }
        }
    }
}

/// The hash of a key of `n` words of zeros is 0x12345678, moved down by `n` places, round and
/// round.
pub proof fn law_hash_of_zeros(a: Seq<u8>, n: int, j: int)
    requires
        a.len() == 4 * n,
        forall|k: int| 0 <= k < a.len() ==> a[k] == 0,
        0 <= j < 32,
    ensures
        bit_of(key_hash(a), j) == bit_of(0x1234_5678, (j + n) % 32),
{
    lemma_zeros(a, n as nat, j);
}

/// A key is in the bucket whose number is what the hash leaves over when it is divided by the
/// number of buckets.
pub proof fn law_bucket_is_remainder(m: Meta, key: Seq<u8>) -> (q: int)
    requires
        m.heads.len() > 0,
    ensures
        0 <= m.bucket(key) < m.heads.len(),
        key_hash(key) == q * m.heads.len() + m.bucket(key),
{
    let n = m.heads.len() as int;
    let h = key_hash(key) as int;
    vstd::arithmetic::div_mod::lemma_fundamental_div_mod(h, n);
    vstd::arithmetic::div_mod::lemma_mod_bound(h, n);
    vstd::arithmetic::mul::lemma_mul_is_commutative(n, h / n);
    h / n
}

} // verus!
