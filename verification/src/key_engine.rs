use vstd::prelude::*;

verus! {

use crate::big_endian::{
    be_bytes, lemma_be_bytes_len, lemma_be_bytes_number, lemma_number_be_bytes, number,
};

/// Bit `k` of the bytes `a`, counted from the most significant bit of the first byte.
pub open spec fn bit(a: Seq<u8>, k: int) -> bool {
    (a[k / 8] >> ((7 - k % 8) as u8)) & 1 == 1
}

/// `out` is `a` rotated to the left by `rot` bits.
pub open spec fn rotated_left(a: Seq<u8>, rot: int, out: Seq<u8>) -> bool {
    &&& out.len() == a.len()
    &&& forall|k: int|
        0 <= k < 8 * a.len() ==> #[trigger] bit(out, k) == bit(a, (k + rot) % (8 * a.len() as int))
}

/// Byte by byte, `a` and `b` combined by exclusive or.
pub open spec fn xored(a: Seq<u8>, b: Seq<u8>) -> Seq<u8> {
    Seq::new(a.len(), |i: int| a[i] ^ b[i])
}

/// The sum of the two 128-bit numbers, without what overflows.
pub open spec fn sum128(a: Seq<u8>, b: Seq<u8>) -> Seq<u8> {
    be_bytes(number(a) + number(b), 16)
}

/// Two bytes with the same bits are the same byte.
proof fn lemma_byte_by_bits(x: u8, y: u8)
    requires
        forall|j: u8| j < 8 ==> ((#[trigger] (x >> j)) & 1 == 1) == ((y >> j) & 1 == 1),
    ensures
        x == y,
{
    assert(((x >> 0u8) & 1 == 1) == ((y >> 0u8) & 1 == 1));
    assert(((x >> 1u8) & 1 == 1) == ((y >> 1u8) & 1 == 1));
    assert(((x >> 2u8) & 1 == 1) == ((y >> 2u8) & 1 == 1));
    assert(((x >> 3u8) & 1 == 1) == ((y >> 3u8) & 1 == 1));
    assert(((x >> 4u8) & 1 == 1) == ((y >> 4u8) & 1 == 1));
    assert(((x >> 5u8) & 1 == 1) == ((y >> 5u8) & 1 == 1));
    assert(((x >> 6u8) & 1 == 1) == ((y >> 6u8) & 1 == 1));
    assert(((x >> 7u8) & 1 == 1) == ((y >> 7u8) & 1 == 1));
    assert(x == y) by (bit_vector)
        requires
            ((x >> 0u8) & 1 == 1) == ((y >> 0u8) & 1 == 1),
            ((x >> 1u8) & 1 == 1) == ((y >> 1u8) & 1 == 1),
            ((x >> 2u8) & 1 == 1) == ((y >> 2u8) & 1 == 1),
            ((x >> 3u8) & 1 == 1) == ((y >> 3u8) & 1 == 1),
            ((x >> 4u8) & 1 == 1) == ((y >> 4u8) & 1 == 1),
            ((x >> 5u8) & 1 == 1) == ((y >> 5u8) & 1 == 1),
            ((x >> 6u8) & 1 == 1) == ((y >> 6u8) & 1 == 1),
            ((x >> 7u8) & 1 == 1) == ((y >> 7u8) & 1 == 1),
    ;
}

/// A rotation has one result.
pub proof fn lemma_rotated_left_is_unique(a: Seq<u8>, rot: int, x: Seq<u8>, y: Seq<u8>)
    requires
        rotated_left(a, rot, x),
        rotated_left(a, rot, y),
    ensures
        x == y,
{
    assert forall|i: int| 0 <= i < a.len() implies x[i] == y[i] by {
        assert forall|j: u8| j < 8 implies ((#[trigger] (x[i] >> j)) & 1 == 1) == ((y[i] >> j) & 1
            == 1) by {
            let k = 8 * i + 7 - j;
            assert(k / 8 == i && k % 8 == 7 - j);
            assert(bit(x, k) == bit(y, k));
        }
        lemma_byte_by_bits(x[i], y[i]);
    }
    assert(x =~= y);
}

/// The position of a bit before a rotation of 128 bits: its byte and its place in that byte.
proof fn lemma_rotated_position(rot: int, i: int, j: int)
    requires
        rot >= 0,
        0 <= i < 16,
        0 <= j < 8,
    ensures
        ({
            let s = rot % 8;
            let t = (8 * i + j + rot) % 128;
            let w = (i + rot / 8 % 16) % 16;
            if j + s < 8 {
                t / 8 == w && t % 8 == j + s
            } else {
                t / 8 == (i + rot / 8 % 16 + 1) % 16 && t % 8 == j + s - 8
            }
        }),
{
    let s = rot % 8;
    let q = rot / 8;
    let m = q / 16;
    let b = q % 16;
    assert(q == 16 * m + b);
    let v = 8 * (i + b) + j + s;
    assert(8 * i + j + rot == 128 * m + v);
    let t = (8 * i + j + rot) % 128;
    assert(t == v % 128) by {
        vstd::arithmetic::div_mod::lemma_mod_multiples_vanish(m, v, 128);
    }
    assert(t == if v < 128 { v } else if v < 256 { v - 128 } else { v - 256 });
    let w = if i + b < 16 { i + b } else { i + b - 16 };
    assert((i + b) % 16 == w);
    let e = if j + s < 8 { j + s } else { j + s - 8 };
    let d = if j + s < 8 { w } else if w + 1 < 16 { w + 1 } else { 0 };
    assert((i + b + 1) % 16 == if w + 1 < 16 { w + 1 } else { 0 });
    assert(t == 8 * d + e);
    assert(t / 8 == d && t % 8 == e);
}

/// One bit of a rotated byte, which is put together from two bytes.
proof fn lemma_rotated_byte(a: Seq<u8>, out: Seq<u8>, rot: int, i: int, j: int)
    requires
        a.len() == 16,
        out.len() == 16,
        rot >= 0,
        rot % 8 != 0,
        0 <= i < 16,
        0 <= j < 8,
        ({
            let s = (rot % 8) as u8;
            let x = a[(i + rot / 8 % 16) % 16];
            let y = a[(i + rot / 8 % 16 + 1) % 16];
            out[i] == (x << s) | (y >> ((8 - s) as u8))
        }),
    ensures
        bit(out, 8 * i + j) == bit(a, (8 * i + j + rot) % 128),
{
    let s = (rot % 8) as u8;
    let r = (8 - s) as u8;
    let jj = j as u8;
    let l = (7 - j) as u8;
    let b = out[i];
    let x = a[(i + rot / 8 % 16) % 16];
    let y = a[(i + rot / 8 % 16 + 1) % 16];
    lemma_rotated_position(rot, i, j);
    assert((8 * i + j) / 8 == i && (8 * i + j) % 8 == j);
    if j + s < 8 {
        let m = (7 - j - s) as u8;
        assert(((b >> l) & 1 == 1) == ((x >> m) & 1 == 1)) by (bit_vector)
            requires
                b == (x << s) | (y >> r),
                jj + l == 7,
                r + s == 8,
                jj + s + m == 7,
                0 < s,
                s < 8,
        ;
    } else {
        let m = (15 - j - s) as u8;
        assert(((b >> l) & 1 == 1) == ((y >> m) & 1 == 1)) by (bit_vector)
            requires
                b == (x << s) | (y >> r),
                jj + l == 7,
                r + s == 8,
                jj + s + m == 15,
                m < 8,
                0 < s,
                s < 8,
        ;
    }
}

/// Rotates a 128-bit number to the left.
pub fn lrot128(a: [u8; 16], rot: usize) -> (out: [u8; 16])
    requires
        rot % 8 != 0,
    ensures
        rotated_left(a@, rot as int, out@),
{
    let mut out: [u8; 16] = [0;16];
    let byte_shift: usize = rot / 8 % 16;
    let bit_shift: u8 = (rot % 8) as u8;
    let mut i: usize = 0;
    while i < 16
        invariant
            i <= 16,
            byte_shift == rot / 8 % 16,
            bit_shift == rot % 8,
            bit_shift != 0,
            forall|k: int|
                0 <= k < 8 * i ==> #[trigger] bit(out@, k) == bit(a@, (k + rot) % 128),
        decreases 16 - i,
    {
        let wrap_index_a: usize = (i + byte_shift) % 16;
        let wrap_index_b: usize = (i + byte_shift + 1) % 16;
        let x: u8 = a[wrap_index_a];
        let y: u8 = a[wrap_index_b];
        let b: u8 = (x << bit_shift) | (y >> (8 - bit_shift));
        let ghost before = out@;
        out[i] = b;
        proof {
            assert forall|k: int| 0 <= k < 8 * (i + 1) implies #[trigger] bit(out@, k) == bit(
                a@,
                (k + rot) % 128,
            ) by {
                if k < 8 * i {
                    assert(k / 8 < i);
                    assert(bit(before, k) == bit(a@, (k + rot) % 128));
                } else {
                    lemma_rotated_byte(a@, out@, rot as int, i as int, k - 8 * i);
                }
            }
        }
        i += 1;
    }
    out
}

/// Adds two 128-bit numbers, dropping what overflows.
pub fn add128(a: [u8; 16], b: [u8; 16]) -> (out: [u8; 16])
    ensures
        out@ == sum128(a@, b@),
{
    let mut out: [u8; 16] = [0;16];
    let mut carry: u32 = 0;
    let mut i: usize = 16;
    assert(a@.take(16) =~= a@);
    assert(b@.take(16) =~= b@);
    while i > 0
        invariant
            i <= 16,
            carry <= 1,
            sum128(a@, b@) == be_bytes(
                number(a@.take(i as int)) + number(b@.take(i as int)) + carry as nat,
                i as nat,
            ) + out@.skip(i as int),
        decreases i,
    {
        let ghost before = out@;
        i -= 1;
        let total: u32 = a[i] as u32 + b[i] as u32 + carry;
        proof {
            let x = a@.take(i + 1);
            let y = b@.take(i + 1);
            assert(x.drop_last() =~= a@.take(i as int));
            assert(y.drop_last() =~= b@.take(i as int));
            let v = number(x) + number(y) + carry as nat;
            let w = number(a@.take(i as int)) + number(b@.take(i as int));
            assert(v == w * 256 + total);
            assert(v / 256 == w + total / 256);
            assert(v % 256 == total % 256);
            assert(total >> 8 == total / 256) by (bit_vector);
            assert(total & 0xFF == total % 256) by (bit_vector);
        }
        carry = total >> 8;
        out[i] = (total & 0xFF) as u8;
        assert(out@.skip(i as int) =~= seq![out@[i as int]] + before.skip(i + 1));
        assert(sum128(a@, b@) =~= be_bytes(
            number(a@.take(i as int)) + number(b@.take(i as int)) + carry as nat,
            i as nat,
        ) + out@.skip(i as int));
    }
    assert(out@.skip(0) =~= out@);
    assert(sum128(a@, b@) =~= out@);
    out
}

/// Combines two 128-bit numbers by exclusive or.
pub fn xor128(a: [u8; 16], b: [u8; 16]) -> (out: [u8; 16])
    ensures
        out@ == xored(a@, b@),
{
    let mut out: [u8; 16] = [0;16];
    let mut i: usize = 0;
    while i < 16
        invariant
            i <= 16,
            forall|k: int| 0 <= k < i ==> out@[k] == a@[k] ^ b@[k],
        decreases 16 - i,
    {
        out[i] = a[i] ^ b[i];
        i += 1;
    }
    assert(out@ =~= xored(a@, b@));
    out
}

/// The constant of the key scrambler.
pub open spec fn scrambler() -> Seq<u8> {
    seq![
        0x1F, 0xF9, 0xE9, 0xAA, 0xC5, 0xFE, 0x04, 0x08, 0x02, 0x45, 0x91, 0xDC, 0x5D, 0x52, 0x76,
        0x8A,
    ]
}

/// `key` is what the scrambler makes of the two keys: key X rotated by 2, combined with key Y,
/// plus the constant, rotated by 87.
pub open spec fn scrambled(x: Seq<u8>, y: Seq<u8>, key: Seq<u8>) -> bool {
    exists|r: Seq<u8>| #[trigger]
        rotated_left(x, 2, r) && rotated_left(sum128(xored(r, y), scrambler()), 87, key)
}

/// The key scrambler of the console's AES engine.
pub fn scramble(x: [u8; 16], y: [u8; 16]) -> (key: [u8; 16])
    ensures
        scrambled(x@, y@, key@),
{
    let scrambler: [u8; 16] = [
        0x1F, 0xF9, 0xE9, 0xAA, 0xC5, 0xFE, 0x04, 0x08, 0x02, 0x45, 0x91, 0xDC, 0x5D, 0x52, 0x76,
        0x8A,
    ];
    assert(scrambler@ =~= crate::key_engine::scrambler());
    let r: [u8; 16] = lrot128(x, 2);
    lrot128(add128(xor128(r, y), scrambler), 87)
}

/// The two keys determine the scrambled key.
pub proof fn law_scrambled_is_unique(x: Seq<u8>, y: Seq<u8>, k: Seq<u8>, l: Seq<u8>)
    requires
        scrambled(x, y, k),
        scrambled(x, y, l),
    ensures
        k == l,
{
    let r = choose|r: Seq<u8>| #[trigger]
        rotated_left(x, 2, r) && rotated_left(sum128(xored(r, y), scrambler()), 87, k);
    let s = choose|r: Seq<u8>| #[trigger]
        rotated_left(x, 2, r) && rotated_left(sum128(xored(r, y), scrambler()), 87, l);
    lemma_rotated_left_is_unique(x, 2, r, s);
    lemma_rotated_left_is_unique(sum128(xored(r, y), scrambler()), 87, k, l);
}

/// What a number of 16 bytes leaves over is the number that is written down.
pub proof fn lemma_low_bytes(v: nat, n: nat)
    ensures
        be_bytes(v, n) == be_bytes(v % vstd::arithmetic::power::pow(256, n) as nat, n),
    decreases n,
{
    reveal(vstd::arithmetic::power::pow);
    if n > 0 {
        let m = (n - 1) as nat;
        let p = vstd::arithmetic::power::pow(256, m);
        vstd::arithmetic::power::lemma_pow_positive(256, m);
        assert(vstd::arithmetic::power::pow(256, n) == 256 * p);
        let w = v as int % (256 * p);
        vstd::arithmetic::div_mod::lemma_mod_breakdown(v as int, 256, p);
        assert(w == 256 * ((v as int / 256) % p) + v as int % 256);
        vstd::arithmetic::div_mod::lemma_mod_bound(v as int / 256, p);
        assert(w / 256 == (v as int / 256) % p && w % 256 == v as int % 256);
        lemma_low_bytes(v / 256, m);
    }
}

/// Byte by byte, a rotation by some bytes and some bits.
proof fn lemma_bytes_rotated(a: Seq<u8>, rot: int, out: Seq<u8>)
    requires
        a.len() == 16,
        out.len() == 16,
        0 <= rot,
        rot % 8 != 0,
        forall|i: int|
            0 <= i < 16 ==> #[trigger] out[i] == (a[(i + rot / 8 % 16) % 16] << ((rot % 8) as u8))
                | (a[(i + rot / 8 % 16 + 1) % 16] >> ((8 - (rot % 8) as u8) as u8)),
    ensures
        rotated_left(a, rot, out),
{
    assert forall|k: int| 0 <= k < 8 * a.len() implies #[trigger] bit(out, k) == bit(
        a,
        (k + rot) % (8 * a.len() as int),
    ) by {
        let i = k / 8;
        assert(out[i] == out[i]);
        lemma_rotated_byte(a, out, rot, i, k % 8);
    }
}

/// The constant of the scrambler as a number.
proof fn lemma_scrambler_number()
    ensures
        number(scrambler()) == 0x1FF9_E9AA_C5FE_0408_0245_91DC_5D52_768A,
{
    let c = scrambler();
    reveal_with_fuel(number, 17);
    let a15 = c.drop_last();
    let a14 = a15.drop_last();
    let a13 = a14.drop_last();
    let a12 = a13.drop_last();
    let a11 = a12.drop_last();
    let a10 = a11.drop_last();
    let a9 = a10.drop_last();
    let a8 = a9.drop_last();
    let a7 = a8.drop_last();
    let a6 = a7.drop_last();
    let a5 = a6.drop_last();
    let a4 = a5.drop_last();
    let a3 = a4.drop_last();
    let a2 = a3.drop_last();
    let a1 = a2.drop_last();
    let a0 = a1.drop_last();
    assert(number(a0) == 0);
    assert(number(a1) == 0x1F);
    assert(number(a2) == 0x1FF9);
    assert(number(a3) == 0x1F_F9E9);
    assert(number(a4) == 0x1FF9_E9AA);
    assert(number(a5) == 0x1F_F9E9_AAC5);
    assert(number(a6) == 0x1FF9_E9AA_C5FE);
    assert(number(a7) == 0x1F_F9E9_AAC5_FE04);
    assert(number(a8) == 0x1FF9_E9AA_C5FE_0408);
    assert(number(a9) == 0x1F_F9E9_AAC5_FE04_0802);
    assert(number(a10) == 0x1FF9_E9AA_C5FE_0408_0245);
    assert(number(a11) == 0x1F_F9E9_AAC5_FE04_0802_4591);
    assert(number(a12) == 0x1FF9_E9AA_C5FE_0408_0245_91DC);
    assert(number(a13) == 0x1F_F9E9_AAC5_FE04_0802_4591_DC5D);
    assert(number(a14) == 0x1FF9_E9AA_C5FE_0408_0245_91DC_5D52);
    assert(number(a15) == 0x1F_F9E9_AAC5_FE04_0802_4591_DC5D_5276);
}

/// What two keys give, told from the result: turned back by 41 bits, so that it is turned all the
/// way round, the scrambled key is the sum of 0x1FF9E9AAC5FE0408024591DC5D52768A and of key Y
/// combined with key X turned by two bits, without what overflows 128 bits.
pub proof fn law_scrambled_turned_back(x: Seq<u8>, y: Seq<u8>, key: Seq<u8>)
    requires
        x.len() == 16,
        y.len() == 16,
        key.len() == 16,
        scrambled(x, y, key),
    ensures
        ({
            let t = Seq::new(
                16,
                |i: int| ((x[i] << 2u8) | (x[(i + 1) % 16] >> 6u8)) ^ y[i],
            );
            let s = Seq::new(
                16,
                |i: int| (key[(i + 5) % 16] << 1u8) | (key[(i + 6) % 16] >> 7u8),
            );
            number(s) == (number(t) + 0x1FF9_E9AA_C5FE_0408_0245_91DC_5D52_768Anat)
                % 0x1_0000_0000_0000_0000_0000_0000_0000_0000nat
        }),
{
    let r = choose|r: Seq<u8>| #[trigger]
        rotated_left(x, 2, r) && rotated_left(sum128(xored(r, y), scrambler()), 87, key);
    let u = Seq::new(16, |i: int| (x[i] << 2u8) | (x[(i + 1) % 16] >> 6u8));
    lemma_bytes_rotated(x, 2, u);
    lemma_rotated_left_is_unique(x, 2, r, u);
    let t = Seq::new(16, |i: int| ((x[i] << 2u8) | (x[(i + 1) % 16] >> 6u8)) ^ y[i]);
    assert(xored(r, y) =~= t);
    let s = Seq::new(16, |i: int| (key[(i + 5) % 16] << 1u8) | (key[(i + 6) % 16] >> 7u8));
    lemma_bytes_rotated(key, 41, s);
    let v = number(t) + number(scrambler());
    let sum = sum128(t, scrambler());
    lemma_be_bytes_len(v, 16);
    assert(rotated_left(key, 41, sum)) by {
        assert forall|k: int| 0 <= k < 8 * key.len() implies #[trigger] bit(sum, k) == bit(
            key,
            (k + 41) % (8 * key.len() as int),
        ) by {
            let j = (k + 41) % 128;
            assert(bit(key, j) == bit(sum, (j + 87) % 128));
            assert((j + 87) % 128 == k);
        }
    }
    lemma_rotated_left_is_unique(key, 41, s, sum);
    lemma_scrambler_number();
    lemma_low_bytes(v, 16);
    assert(vstd::arithmetic::power::pow(256, 16) == 0x1_0000_0000_0000_0000_0000_0000_0000_0000nat) by {
        reveal_with_fuel(vstd::arithmetic::power::pow, 17);
    }
    lemma_number_be_bytes(v % 0x1_0000_0000_0000_0000_0000_0000_0000_0000nat, 16);
}

/// The bytes of the constant, turned by 87 bits.
proof fn lemma_turned_constant()
    by (bit_vector)
    ensures
        (0xDCu8 << 7u8) | (0x5Du8 >> 1u8) == 0x2Eu8,
        (0x5Du8 << 7u8) | (0x52u8 >> 1u8) == 0xA9u8,
        (0x52u8 << 7u8) | (0x76u8 >> 1u8) == 0x3Bu8,
        (0x76u8 << 7u8) | (0x8Au8 >> 1u8) == 0x45u8,
        (0x8Au8 << 7u8) | (0x1Fu8 >> 1u8) == 0x0Fu8,
        (0x1Fu8 << 7u8) | (0xF9u8 >> 1u8) == 0xFCu8,
        (0xF9u8 << 7u8) | (0xE9u8 >> 1u8) == 0xF4u8,
        (0xE9u8 << 7u8) | (0xAAu8 >> 1u8) == 0xD5u8,
        (0xAAu8 << 7u8) | (0xC5u8 >> 1u8) == 0x62u8,
        (0xC5u8 << 7u8) | (0xFEu8 >> 1u8) == 0xFFu8,
        (0xFEu8 << 7u8) | (0x04u8 >> 1u8) == 0x02u8,
        (0x04u8 << 7u8) | (0x08u8 >> 1u8) == 0x04u8,
        (0x08u8 << 7u8) | (0x02u8 >> 1u8) == 0x01u8,
        (0x02u8 << 7u8) | (0x45u8 >> 1u8) == 0x22u8,
        (0x45u8 << 7u8) | (0x91u8 >> 1u8) == 0xC8u8,
        (0x91u8 << 7u8) | (0xDCu8 >> 1u8) == 0xEEu8,
{
}

/// Whatever key X is, with key X turned by two bits as key Y the two cancel out, and the scrambled
/// key is always the same.
pub proof fn law_turned_key_cancels_out(x: Seq<u8>, y: Seq<u8>, key: Seq<u8>)
    requires
        x.len() == 16,
        y.len() == 16,
        forall|i: int|
            0 <= i < 16 ==> #[trigger] y[i] == (x[i] << 2u8) | (x[(i + 1) % 16] >> 6u8),
        scrambled(x, y, key),
    ensures
        key == seq![
            0xEEu8,
            0x2E,
            0xA9,
            0x3B,
            0x45,
            0x0F,
            0xFC,
            0xF4,
            0xD5,
            0x62,
            0xFF,
            0x02,
            0x04,
            0x01,
            0x22,
            0xC8,
        ],
{
    let k = seq![
        0xEEu8,
        0x2E,
        0xA9,
        0x3B,
        0x45,
        0x0F,
        0xFC,
        0xF4,
        0xD5,
        0x62,
        0xFF,
        0x02,
        0x04,
        0x01,
        0x22,
        0xC8,
    ];
    let r = choose|r: Seq<u8>| #[trigger]
        rotated_left(x, 2, r) && rotated_left(sum128(xored(r, y), scrambler()), 87, key);
    lemma_bytes_rotated(x, 2, y);
    lemma_rotated_left_is_unique(x, 2, r, y);
    let z = xored(r, y);
    assert forall|i: int| 0 <= i < 16 implies z[i] == 0 by {
        let b = y[i];
        assert(b ^ b == 0) by (bit_vector);
    }
    lemma_number_of_zeros(z);
    lemma_be_bytes_number(scrambler());
    let c = scrambler();
    assert(sum128(z, c) == c);
    lemma_turned_constant();
    lemma_bytes_rotated(c, 87, k);
    lemma_rotated_left_is_unique(c, 87, key, k);
}

proof fn lemma_number_of_zeros(z: Seq<u8>)
    requires
        forall|i: int| 0 <= i < z.len() ==> z[i] == 0,
    ensures
        number(z) == 0,
    decreases z.len(),
{
    if z.len() > 0 {
        lemma_number_of_zeros(z.drop_last());
    }
}

} // verus!
