use aes::cipher::{BlockDecrypt, BlockEncrypt, KeyInit};
use cmac::Mac;
use sha2::Digest;
use vstd::prelude::*;

verus! {

/// The SHA-256 digest of some bytes.
pub uninterp spec fn sha256(data: Seq<u8>) -> Seq<u8>;

/// Calls `sha2::Sha256::digest`. What is claimed of it: the digest has 32 bytes, and it is a
/// function of the bytes alone, named `sha256`.
#[verifier::external_body]
pub(crate) fn sha256_of(data: &[u8]) -> (digest: Vec<u8>)
    ensures
        digest@ == sha256(data@),
        digest@.len() == 32,
{
    sha2::Sha256::digest(data).to_vec()
}

/// The AES-CMAC of some bytes with a key of 128 bits.
pub uninterp spec fn aes_cmac(key: Seq<u8>, data: Seq<u8>) -> Seq<u8>;

/// Calls `cmac::Cmac` over `aes::Aes128`: `new`, one `update` and `finalize`. What is claimed of
/// them: the tag has 16 bytes, and it is a function of the key and the bytes alone, named
/// `aes_cmac`.
#[verifier::external_body]
pub(crate) fn aes_cmac_of(key: &[u8; 16], data: &[u8]) -> (tag: Vec<u8>)
    ensures
        tag@ == aes_cmac(key@, data@),
        tag@.len() == 16,
{
    let mut cmac = <cmac::Cmac<aes::Aes128> as Mac>::new(key.into());
    cmac.update(data);
    cmac.finalize().into_bytes().to_vec()
}

/// A block encrypted with AES and a key of 128 bits.
pub uninterp spec fn aes128(key: Seq<u8>, block: Seq<u8>) -> Seq<u8>;

/// Calls `aes::Aes128`: `new` and `encrypt_block`. What is claimed of them: the block is a function
/// of the key and the block alone, named `aes128`.
#[verifier::external_body]
pub(crate) fn aes128_encrypt(key: &[u8; 16], block: &[u8; 16]) -> (r: [u8; 16])
    ensures
        r@ == aes128(key@, block@),
{
    let cipher = <aes::Aes128 as KeyInit>::new(key.into());
    let mut b = aes::Block::from(*block);
    cipher.encrypt_block(&mut b);
    b.into()
}

/// A block decrypted with AES and a key of 128 bits.
pub uninterp spec fn aes128_inverse(key: Seq<u8>, block: Seq<u8>) -> Seq<u8>;

/// Calls `aes::Aes128`: `new` and `decrypt_block`. What is claimed of them: the block is a function
/// of the key and the block alone, named `aes128_inverse`.
#[verifier::external_body]
pub(crate) fn aes128_decrypt(key: &[u8; 16], block: &[u8; 16]) -> (r: [u8; 16])
    ensures
        r@ == aes128_inverse(key@, block@),
{
    let cipher = <aes::Aes128 as KeyInit>::new(key.into());
    let mut b = aes::Block::from(*block);
    cipher.decrypt_block(&mut b);
    b.into()
}

} // verus!
