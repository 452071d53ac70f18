use crate::cart_save_data::CartFormat;
use crate::error::Error;
use vstd::prelude::*;

verus! {

use crate::aes_ctr_file::{crypted, pad_byte, seeked};
use crate::big_endian::{lemma_be_bytes_len, lemma_number_be_bytes, number};
use crate::cart_save_data::{cart_ctr, cart_image, cart_stored};
use crate::container::sign;
use crate::crypto::{aes128, aes_cmac, sha256};
use crate::key_engine::lemma_low_bytes;
use crate::save_data::SaveSigner;
use crate::signed_file::Signer;

/// The counter of a block: its first eight bytes stay as they are, and its last eight, as a number
/// with the highest byte first, have the number of the block added to them, without what overflows.
pub proof fn law_counter_counts(ctr: Seq<u8>, k: int)
    requires
        ctr.len() == 16,
        0 <= k,
    ensures
        seeked(ctr, k).len() == 16,
        seeked(ctr, k).take(8) == ctr.take(8),
        number(seeked(ctr, k).skip(8)) == (number(ctr.skip(8)) + k) % 0x1_0000_0000_0000_0000,
{
    let v = (number(ctr.skip(8)) + k) as nat;
    let m = 0x1_0000_0000_0000_0000nat;
    lemma_be_bytes_len(v, 8);
    let s = seeked(ctr, k);
    assert(s.take(8) =~= ctr.take(8));
    assert(s.skip(8) =~= crate::big_endian::be_bytes(v, 8));
    assert(vstd::arithmetic::power::pow(256, 8) == m) by {
        reveal_with_fuel(vstd::arithmetic::power::pow, 9);
    }
    lemma_low_bytes(v, 8);
    lemma_number_be_bytes(v % m, 8);
}

/// Each byte is combined with one byte of an encrypted counter: bytes 0 to 15 with those of the
/// counter that is given, the next sixteen with those of the next counter, and so on.
pub proof fn law_bytes_are_combined(key: Seq<u8>, ctr: Seq<u8>, data: Seq<u8>, k: int, j: int)
    requires
        0 <= k,
        0 <= j < 16,
        16 * k + j < data.len(),
    ensures
        crypted(key, ctr, false, 0, data).len() == data.len(),
        crypted(key, ctr, false, 0, data)[16 * k + j] == data[16 * k + j] ^ aes128(
            key,
            seeked(ctr, k),
        )[j],
{
    let i = 16 * k + j;
    assert(i / 16 == k && i % 16 == j);
}

/// Where the counter repeats, it begins again every 512 bytes, and up to there it counts.
pub proof fn law_repeated_counter(key: Seq<u8>, ctr: Seq<u8>, i: int)
    requires
        0 <= i,
    ensures
        pad_byte(key, ctr, true, i) == pad_byte(key, ctr, true, i + 0x200),
        i < 0x200 ==> pad_byte(key, ctr, true, i) == pad_byte(key, ctr, false, i),
{
    assert((i + 0x200) / 16 == i / 16 + 32);
    assert((i + 0x200) % 16 == i % 16);
    assert((i / 16 + 32) % 32 == (i / 16) % 32);
}

/// On a cartridge the counter begins with zero. The bytes of the save data are those that are
/// stored, combined with encrypted counters, with one key, and signed with the other.
pub proof fn law_keys_of_cartridge(raw: Seq<u8>, f: CartFormat, header: Seq<u8>, i: int)
    requires
        0 <= i,
    ensures
        match (cart_stored(raw, f), cart_image(raw, f)) {
            (Ok(s), Ok(d)) => d.len() == s.len() && (i < s.len() ==> d[i] == s[i] ^ aes128(
                f.key@,
                seeked(
                    Seq::new(16, |k: int| 0u8),
                    if f.repeat_ctr {
                        (i / 16) % 32
                    } else {
                        i / 16
                    },
                ),
            )[i % 16]),
            (Err(e), Err(g)) => e == g,
            _ => false,
        },
        !f.wear_leveling ==> cart_stored(raw, f) == Ok::<Seq<u8>, Error>(raw),
        sign(f.save_type().signer(), header) == aes_cmac(
            f.key_cmac@,
            sha256(SaveSigner::Cart.blocked(header)),
        ),
{
    assert(cart_ctr() =~= Seq::new(16, |k: int| 0u8));
}

} // verus!
