use crate::crypto::{aes128_decrypt, aes128_encrypt, sha256_of};
use crate::error::{make_error, Error};
use crate::key_engine::{scramble, xor128};
use crate::meta_table::same_bytes;
use crate::names::digit;
use crate::random_access_file::copy_range;
use vstd::prelude::*;

verus! {

use crate::crypto::{aes128, aes128_inverse, sha256};
use crate::key_engine::{scrambled, xored};
use crate::paths::hex_digit;

/// Sixteen bytes from a position on.
pub fn array16(data: &[u8], pos: usize) -> (r: [u8; 16])
    requires
        pos + 16 <= data@.len(),
    ensures
        r@ == data@.subrange(pos as int, pos + 16),
{
    let _n: usize = data.len();
    let mut r: [u8; 16] = [0u8; 16];
    let mut i: usize = 0;
    while i < 16
        invariant
            i <= 16,
            pos + 16 <= data@.len() <= usize::MAX,
            r@.len() == 16,
            forall|k: int| 0 <= k < i ==> #[trigger] r@[k] == data@[pos + k],
        decreases 16 - i,
    {
        r[i] = data[pos + i];
        i = i + 1;
    }
    assert(r@ =~= data@.subrange(pos as int, pos + 16));
    r
}

/// Block `k` of some data.
pub open spec fn block_at(data: Seq<u8>, k: int) -> Seq<u8> {
    data.subrange(k * 16, k * 16 + 16)
}

/// The first `n` blocks decrypted: each is combined with the encrypted block before it, the first
/// with the initial block.
pub open spec fn cbc_decrypted(key: Seq<u8>, iv: Seq<u8>, data: Seq<u8>, n: nat) -> Seq<u8>
    decreases n,
{
    if n == 0 {
        Seq::empty()
    } else {
        let k = n - 1;
        cbc_decrypted(key, iv, data, k as nat) + xored(
            aes128_inverse(key, block_at(data, k)),
            if k == 0 {
                iv
            } else {
                block_at(data, k - 1)
            },
        )
    }
}

/// The last of the first `n` blocks encrypted: each is combined with the encrypted block before
/// it, the first with the initial block.
pub open spec fn cbc_last(key: Seq<u8>, iv: Seq<u8>, data: Seq<u8>, n: nat) -> Seq<u8>
    decreases n,
{
    if n == 0 {
        iv
    } else {
        aes128(key, xored(block_at(data, n - 1), cbc_last(key, iv, data, (n - 1) as nat)))
    }
}

/// Decrypts blocks.
fn cbc_decrypt(key: &[u8; 16], iv: &[u8; 16], data: &Vec<u8>, n: usize) -> (r: Vec<u8>)
    requires
        n <= 0x10000,
        n * 16 <= data@.len(),
    ensures
        r@ == cbc_decrypted(key@, iv@, data@, n as nat),
        r@.len() == n * 16,
{
    let mut out: Vec<u8> = Vec::new();
    let mut before: [u8; 16] = *iv;
    let mut k: usize = 0;
    while k < n
        invariant
            k <= n <= 0x10000,
            n * 16 <= data@.len(),
            before@ == if k == 0 {
                iv@
            } else {
                block_at(data@, k - 1)
            },
            out@ == cbc_decrypted(key@, iv@, data@, k as nat),
            out@.len() == k * 16,
        decreases n - k,
    {
        let block = array16(data, k * 16);
        let plain = aes128_decrypt(key, &block);
        let x = xor128(plain, before);
        let mut piece = array_to_vec(&x);
        out.append(&mut piece);
        before = block;
        k = k + 1;
    }
    out
}

/// The last of some blocks, encrypted.
fn cbc_encrypt_last(key: &[u8; 16], iv: &[u8; 16], data: &Vec<u8>, n: usize) -> (r: [u8; 16])
    requires
        n <= 0x10000,
        n * 16 <= data@.len(),
    ensures
        r@ == cbc_last(key@, iv@, data@, n as nat),
{
    let mut before: [u8; 16] = *iv;
    let mut k: usize = 0;
    while k < n
        invariant
            k <= n <= 0x10000,
            n * 16 <= data@.len(),
            before@ == cbc_last(key@, iv@, data@, k as nat),
        decreases n - k,
    {
        let block = array16(data, k * 16);
        let x = xor128(block, before);
        before = aes128_encrypt(key, &x);
        k = k + 1;
    }
    before
}

/// The bytes of a block.
pub fn array_to_vec(a: &[u8; 16]) -> (r: Vec<u8>)
    ensures
        r@ == a@,
{
    let mut out: Vec<u8> = Vec::new();
    let mut i: usize = 0;
    while i < 16
        invariant
            i <= 16,
            a@.len() == 16,
            out@ == a@.take(i as int),
        decreases 16 - i,
    {
        out.push(a[i]);
        assert(out@ =~= a@.take(i + 1));
        i = i + 1;
    }
    assert(out@ =~= a@);
    out
}

/// The keys that are in the boot ROM.
pub struct BootKeys {
    pub key_x_sign: [u8; 16],
    pub key_x_dec: [u8; 16],
    pub key_otp: [u8; 16],
    pub iv_otp: [u8; 16],
    pub otp_salt: Vec<u8>,
    pub otp_salt_iv: [u8; 16],
    pub otp_salt_block: Vec<u8>,
    pub key_y_db: [u8; 16],
}

impl BootKeys {
    /// The keys are those of a boot ROM.
    pub open spec fn of(&self, boot9: Seq<u8>) -> bool {
        &&& self.key_x_sign@ == boot9.subrange(0xD9E0, 0xD9F0)
        &&& self.key_x_dec@ == boot9.subrange(0xD9F0, 0xDA00)
        &&& self.key_otp@ == boot9.subrange(0xD6E0, 0xD6F0)
        &&& self.iv_otp@ == boot9.subrange(0xD6F0, 0xD700)
        &&& self.otp_salt@ == boot9.subrange(0xD860, 0xD884)
        &&& self.otp_salt_iv@ == boot9.subrange(0xD884, 0xD894)
        &&& self.otp_salt_block@ == boot9.subrange(0xD894, 0xD8D4)
        &&& self.key_y_db@ == boot9.subrange(0xDAC0, 0xDAD0)
    }

    /// Reads the keys. There are none where the boot ROM is too short.
    pub fn read(boot9: &Vec<u8>) -> (r: Option<BootKeys>)
        ensures
            match r {
                Some(k) => boot9@.len() >= 0xDAD0 && k.of(boot9@) && k.otp_salt_block@.len() == 64,
                None => boot9@.len() < 0xDAD0,
            },
    {
        if boot9.len() < 0xDAD0 {
            return None;
        }
        Some(
            BootKeys {
                key_x_sign: array16(boot9, 0xD9E0),
                key_x_dec: array16(boot9, 0xD9F0),
                key_otp: array16(boot9, 0xD6E0),
                iv_otp: array16(boot9, 0xD6F0),
                otp_salt: copy_range(boot9, 0xD860, 36),
                otp_salt_iv: array16(boot9, 0xD884),
                otp_salt_block: copy_range(boot9, 0xD894, 64),
                key_y_db: array16(boot9, 0xDAC0),
            },
        )
    }

    /// Decrypts the one-time memory, and derives from it the first half of the key for databases.
    pub(crate) fn db_key_x(&self, otp: &Vec<u8>, Ghost(boot9): Ghost<Seq<u8>>) -> (r: Result<
        [u8; 16],
        Error,
    >)
        requires
            self.of(boot9),
            boot9.len() >= 0xDAD0,
            otp@.len() >= 0x100,
        ensures
            !otp_intact(boot9, otp@) ==> r == Err::<[u8; 16], Error>(Error::BrokenOtp),
            otp_intact(boot9, otp@) ==> (r matches Ok(k) && is_db_key_x(boot9, otp@, k@)),
    {
        let plain = cbc_decrypt(&self.key_otp, &self.iv_otp, otp, 16);
        let head = copy_range(&plain, 0, 0xE0);
        let stored = copy_range(&plain, 0xE0, 0x20);
        let hash = sha256_of(&head);
        if !same_bytes(&stored, &hash) {
            return make_error(Error::BrokenOtp);
        }
        let mut seed = copy_range(&plain, 0x90, 0x1C);
        let n: usize = self.otp_salt.len();
        let mut salt = copy_range(&self.otp_salt, 0, n);
        assert(salt@ =~= self.otp_salt@);
        let ghost s = seed@ + salt@;
        seed.append(&mut salt);
        assert(seed@ =~= s);
        let hash = sha256_of(&seed);
        let key_x = array16(&hash, 0);
        let key_y = array16(&hash, 16);
        let key = scramble(key_x, key_y);
        assert(salt_key(plain@, self.otp_salt@, key@));
        Ok(cbc_encrypt_last(&key, &self.otp_salt_iv, &self.otp_salt_block, 2))
    }
}

/// The one-time memory, decrypted.
pub open spec fn otp_plain(boot9: Seq<u8>, otp: Seq<u8>) -> Seq<u8> {
    cbc_decrypted(boot9.subrange(0xD6E0, 0xD6F0), boot9.subrange(0xD6F0, 0xD700), otp, 16)
}

/// The one-time memory ends with its own hash.
pub open spec fn otp_intact(boot9: Seq<u8>, otp: Seq<u8>) -> bool {
    let plain = otp_plain(boot9, otp);
    plain.subrange(0xE0, 0x100) == sha256(plain.subrange(0, 0xE0))
}

/// The first half of the key for databases: part of the boot ROM, encrypted with a key that comes
/// of the one-time memory.
pub open spec fn is_db_key_x(boot9: Seq<u8>, otp: Seq<u8>, k: Seq<u8>) -> bool {
    exists|key: Seq<u8>| #[trigger]
        salt_key(otp_plain(boot9, otp), boot9.subrange(0xD860, 0xD884), key) && k == cbc_last(
            key,
            boot9.subrange(0xD884, 0xD894),
            boot9.subrange(0xD894, 0xD8D4),
            2,
        )
}

/// The key that comes of the one-time memory and the salt.
pub open spec fn salt_key(plain: Seq<u8>, salt: Seq<u8>, key: Seq<u8>) -> bool {
    let hash = sha256(plain.subrange(0x90, 0xAC) + salt);
    scrambled(hash.subrange(0, 16), hash.subrange(16, 32), key)
}

/// The name of the directory that belongs to a console: the first half of the hash of its key, in
/// words of four bytes.
pub open spec fn movable_name(key: Seq<u8>) -> Seq<u8> {
    Seq::new(
        32,
        |i: int|
            {
                let b = sha256(key)[4 * (i / 8) + 3 - (i / 2) % 4];
                if i % 2 == 0 {
                    hex_digit(b as int / 16)
                } else {
                    hex_digit(b as int % 16)
                }
            },
    )
}

/// The name of the directory that belongs to a console.
pub fn hash_movable(key: [u8; 16]) -> (r: Vec<u8>)
    ensures
        r@ == movable_name(key@),
{
    let data = array_to_vec(&key);
    let hash = sha256_of(&data);
    let mut out: Vec<u8> = Vec::new();
    let mut i: usize = 0;
    while i < 16
        invariant
            i <= 16,
            hash@ == sha256(key@),
            hash@.len() == 32,
            out@.len() == 2 * i,
            forall|k: int| 0 <= k < 2 * i ==> #[trigger] out@[k] == movable_name(key@)[k],
        decreases 16 - i,
    {
        let b: u8 = hash[4 * (i / 4) + 3 - i % 4];
        out.push(digit(b / 16));
        out.push(digit(b % 16));
        proof {
            let k = 2 * i as int;
            assert(k / 8 == i as int / 4 && (k / 2) % 4 == i as int % 4);
            assert((k + 1) / 8 == i as int / 4 && ((k + 1) / 2) % 4 == i as int % 4);
        }
        i = i + 1;
    }
    assert(out@ =~= movable_name(key@));
    out
}

} // verus!
