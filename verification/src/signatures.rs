use crate::db::{DbSigner, DbType};
use crate::ext_data::ExtSigner;
use crate::save_data::{SaveDataType, SaveSigner};
use crate::signed_file::Signer;
use vstd::prelude::*;

verus! {

use crate::container::{header_error, sign};
use crate::crypto::{aes_cmac, sha256};
use crate::db::db_signer;
use crate::ext_data::{meta_signer, quota_signer};
use crate::little_endian::le_bytes;
use crate::words::{
    eight, four, law_written_lowest_first, lemma_word4_bytes, lemma_word8_bytes, word4, word8,
};

/// A number whose bytes are known.
proof fn lemma_tag(v: nat, t: Seq<u8>)
    requires
        t.len() == 8,
        word8(t, 0) == v,
        v < 0x1_0000_0000_0000_0000,
    ensures
        le_bytes(v, 8) == t,
{
    law_written_lowest_first(v);
    lemma_word8_bytes(le_bytes(v, 8), t, 0);
    assert(eight(le_bytes(v, 8), 0) =~= le_bytes(v, 8));
}

/// The block of a header begins with a name for what is signed, `CTR-SAV0` for save data as such,
/// and goes on with the header as it is.
pub proof fn law_block_of_save_data(data: Seq<u8>)
    ensures
        ({
            let b = SaveSigner::CtrSav0.blocked(data);
            &&& b.len() == 8 + data.len()
            &&& eight(b, 0) == seq![0x43u8, 0x54, 0x52, 0x2D, 0x53, 0x41, 0x56, 0x30]
            &&& b.skip(8) == data
        }),
{
    let t = seq![0x43u8, 0x54, 0x52, 0x2D, 0x53, 0x41, 0x56, 0x30];
    lemma_tag(0x3056_4153_2D52_5443, t);
    let b = SaveSigner::CtrSav0.blocked(data);
    assert(b =~= t + data);
    assert(eight(b, 0) =~= t);
    assert(b.skip(8) =~= data);
}

/// Save data on the card is signed over `CTR-SIGN`, its number, and the hash of the block for save
/// data as such. On a cartridge it is `CTR-NOR0` and the same hash. So with one header the two
/// blocks end alike, whatever the number is.
pub proof fn law_card_and_cartridge_sign_one_hash(id: u64, data: Seq<u8>)
    ensures
        ({
            let card = SaveSigner::Sd(id).blocked(data);
            let cartridge = SaveSigner::Cart.blocked(data);
            &&& card.skip(16) == cartridge.skip(8)
            &&& card.skip(16) == sha256(SaveSigner::CtrSav0.blocked(data))
            &&& card.len() == cartridge.len() + 8
            &&& card.len() >= 16
            &&& eight(card, 0) == seq![0x43u8, 0x54, 0x52, 0x2D, 0x53, 0x49, 0x47, 0x4E]
            &&& word8(card, 8) == id
            &&& eight(cartridge, 0) == seq![0x43u8, 0x54, 0x52, 0x2D, 0x4E, 0x4F, 0x52, 0x30]
        }),
{
    let card = SaveSigner::Sd(id).blocked(data);
    let cartridge = SaveSigner::Cart.blocked(data);
    let h = sha256(SaveSigner::CtrSav0.blocked(data));
    let s = seq![0x43u8, 0x54, 0x52, 0x2D, 0x53, 0x49, 0x47, 0x4E];
    let n = seq![0x43u8, 0x54, 0x52, 0x2D, 0x4E, 0x4F, 0x52, 0x30];
    lemma_tag(0x4E47_4953_2D52_5443, s);
    lemma_tag(0x3052_4F4E_2D52_5443, n);
    law_written_lowest_first(id as nat);
    let i = le_bytes(id as nat, 8);
    assert(card =~= s + i + h);
    assert(cartridge =~= n + h);
    assert(card.skip(16) =~= h);
    assert(cartridge.skip(8) =~= h);
    assert(eight(card, 0) =~= s);
    assert(eight(cartridge, 0) =~= n);
    lemma_word8_bytes(card, i, 8);
    assert(eight(card, 8) =~= i);
}

/// Save data in the console's storage is signed over `CTR-SYS0`, its number in eight bytes, and
/// the header as it is.
pub proof fn law_block_of_system_save(id: u32, data: Seq<u8>)
    ensures
        ({
            let b = SaveSigner::Nand(id).blocked(data);
            &&& b.len() == 16 + data.len()
            &&& eight(b, 0) == seq![0x43u8, 0x54, 0x52, 0x2D, 0x53, 0x59, 0x53, 0x30]
            &&& word8(b, 8) == id
            &&& b.skip(16) == data
        }),
{
    let b = SaveSigner::Nand(id).blocked(data);
    let t = seq![0x43u8, 0x54, 0x52, 0x2D, 0x53, 0x59, 0x53, 0x30];
    lemma_tag(0x3053_5953_2D52_5443, t);
    law_written_lowest_first(id as nat);
    let i = le_bytes(id as nat, 4);
    let z = crate::container::zeros(4);
    assert(b =~= t + i + z + data);
    assert(eight(b, 0) =~= t);
    assert(b.skip(16) =~= data);
    lemma_word4_bytes(b, i, 8);
    assert(four(b, 8) =~= i);
    assert(b[12] == 0 && b[13] == 0 && b[14] == 0 && b[15] == 0);
}

/// Extra data is signed over `CTR-EXT0`, its number, whether the file has a number of its own, that
/// number or zero, and the header as it is.
pub proof fn law_block_of_extra_data(s: ExtSigner, data: Seq<u8>)
    ensures
        ({
            let b = s.blocked(data);
            &&& b.len() == 28 + data.len()
            &&& eight(b, 0) == seq![0x43u8, 0x54, 0x52, 0x2D, 0x45, 0x58, 0x54, 0x30]
            &&& word8(b, 8) == s.id
            &&& match s.sub_id {
                Some(n) => word4(b, 16) == 1 && word8(b, 20) == n,
                None => word4(b, 16) == 0 && word8(b, 20) == 0,
            }
            &&& b.skip(28) == data
        }),
{
    let b = s.blocked(data);
    let t = seq![0x43u8, 0x54, 0x52, 0x2D, 0x45, 0x58, 0x54, 0x30];
    lemma_tag(0x3054_5845_2D52_5443, t);
    let (f, n): (nat, nat) = match s.sub_id {
        Some(n) => (1, n as nat),
        None => (0, 0),
    };
    law_written_lowest_first(s.id as nat);
    law_written_lowest_first(f);
    law_written_lowest_first(n);
    let i = le_bytes(s.id as nat, 8);
    let x = le_bytes(f, 4);
    let y = le_bytes(n, 8);
    assert(b =~= t + i + (x + y) + data);
    assert(eight(b, 0) =~= t);
    assert(b.skip(28) =~= data);
    lemma_word8_bytes(b, i, 8);
    assert(eight(b, 8) =~= i);
    lemma_word4_bytes(b, x, 16);
    assert(four(b, 16) =~= x);
    lemma_word8_bytes(b, y, 20);
    assert(eight(b, 20) =~= y);
}

/// A database is signed over `CTR-9DB0`, a number for what it lists, and the header as it is. The
/// number is 0 for tickets, 2 for titles, 3 for imports, and 4 and 5 for those that are not
/// finished. With a key there is a signature, and without one there is none.
pub proof fn law_block_of_database(t: DbType, key: [u8; 16], data: Seq<u8>)
    ensures
        db_signer(t, None) is None,
        db_signer(t, Some(key)) matches Some((s, k)) && k == key && {
            let b = s.blocked(data);
            &&& b.len() == 12 + data.len()
            &&& eight(b, 0) == seq![0x43u8, 0x54, 0x52, 0x2D, 0x39, 0x44, 0x42, 0x30]
            &&& b.skip(12) == data
            &&& t is Ticket ==> word4(b, 8) == 0
            &&& t is NandTitle || t is SdTitle ==> word4(b, 8) == 2
            &&& t is NandImport || t is SdImport ==> word4(b, 8) == 3
            &&& t is TmpTitle ==> word4(b, 8) == 4
            &&& t is TmpImport ==> word4(b, 8) == 5
        },
{
    let s = DbSigner { id: t.signer_id() };
    let b = s.blocked(data);
    let x = seq![0x43u8, 0x54, 0x52, 0x2D, 0x39, 0x44, 0x42, 0x30];
    lemma_tag(0x3042_4439_2D52_5443, x);
    law_written_lowest_first(s.id as nat);
    let i = le_bytes(s.id as nat, 4);
    assert(b =~= x + i + data);
    assert(eight(b, 0) =~= x);
    assert(b.skip(12) =~= data);
    lemma_word4_bytes(b, i, 8);
    assert(four(b, 8) =~= i);
}

/// A file is genuine to a signer where its first sixteen bytes are the CMAC of the hash of the
/// block of what is between 0x100 and 0x200. Then its signature is not refused, and it is refused
/// wherever a byte of it differs.
pub proof fn law_signature_is_in_front<S: Signer>(file: Seq<u8>, s: S, key: [u8; 16])
    requires
        file.len() >= 0x200,
    ensures
        ({
            let genuine = file.take(16) == aes_cmac(
                key@,
                sha256(s.blocked(file.skip(0x100).take(0x100))),
            );
            header_error(file, Some((s, key))) == if genuine {
                None::<crate::error::Error>
            } else {
                Some(crate::error::Error::SignatureMismatch)
            }
        }),
        header_error(file, None::<(S, [u8; 16])>) is None,
{
    assert(file.skip(0x100).take(0x100) =~= file.subrange(0x100, 0x200));
    assert(file.take(16) =~= file.subrange(0, 16));
}

/// Save data on the card, in the console's storage and on a cartridge is signed as of that place,
/// with the key that is given. Save data by itself has no signature. Two places never sign the
/// same block.
pub proof fn law_place_tells_signature(key: [u8; 16], id: u64, system: u32, header: Seq<u8>)
    ensures
        sign(SaveDataType::Sd(key, id).signer(), header) == aes_cmac(
            key@,
            sha256(SaveSigner::Sd(id).blocked(header)),
        ),
        sign(SaveDataType::Nand(key, system).signer(), header) == aes_cmac(
            key@,
            sha256(SaveSigner::Nand(system).blocked(header)),
        ),
        sign(SaveDataType::Cart(key).signer(), header) == aes_cmac(
            key@,
            sha256(SaveSigner::Cart.blocked(header)),
        ),
        SaveDataType::Bare.signer() is None,
        SaveSigner::Sd(id).blocked(header) != SaveSigner::Nand(system).blocked(header),
        SaveSigner::Sd(id).blocked(header) != SaveSigner::Cart.blocked(header),
        SaveSigner::Nand(system).blocked(header) != SaveSigner::Cart.blocked(header),
{
    law_card_and_cartridge_sign_one_hash(id, header);
    law_block_of_system_save(system, header);
    let a = SaveSigner::Sd(id).blocked(header);
    let b = SaveSigner::Nand(system).blocked(header);
    let c = SaveSigner::Cart.blocked(header);
    assert(eight(a, 0)[4] == 0x53 && eight(a, 0)[5] == 0x49);
    assert(eight(b, 0)[4] == 0x53 && eight(b, 0)[5] == 0x59);
    assert(eight(c, 0)[4] == 0x4E);
}

/// The list of files of extra data is signed as file number 1, and the quota as no file.
pub proof fn law_list_and_quota_sign(id: u64, data: Seq<u8>)
    ensures
        ({
            let list = meta_signer(id).blocked(data);
            &&& word8(list, 8) == id
            &&& word4(list, 16) == 1
            &&& word8(list, 20) == 1
        }),
        ({
            let quota = quota_signer(id).blocked(data);
            &&& word8(quota, 8) == id
            &&& word4(quota, 16) == 0
            &&& word8(quota, 20) == 0
        }),
{
    law_block_of_extra_data(meta_signer(id), data);
    law_block_of_extra_data(quota_signer(id), data);
}

} // verus!
