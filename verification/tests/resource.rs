use aes::cipher::{BlockEncrypt, KeyInit};
use rand::Rng;
use save3ds::db::DbType;
use save3ds::error::Error;
use save3ds::ext_data::{ExtData, ExtDataFormatParam};
use save3ds::key_engine::scramble;
use save3ds::keys::hash_movable;
use save3ds::nand::Nand;
use save3ds::paths::{ext_meta_path, sd_ext_base, sd_save_path};
use save3ds::resource::Resource;
use save3ds::save_data::{SaveData, SaveDataBlockType, SaveDataFormatParam, SaveDataType};
use save3ds::sd::Sd;
use sha2::Digest;

fn encrypt(key: &[u8], block: &[u8]) -> Vec<u8> {
    let mut b = aes::Block::clone_from_slice(block);
    aes::Aes128::new_from_slice(key).unwrap().encrypt_block(&mut b);
    b.to_vec()
}

fn xor(a: &[u8], b: &[u8]) -> Vec<u8> {
    a.iter().zip(b).map(|(x, y)| x ^ y).collect()
}

fn key(data: &[u8]) -> [u8; 16] {
    let mut k = [0; 16];
    k.copy_from_slice(data);
    k
}

fn random(len: usize) -> Vec<u8> {
    let mut data = vec![0; len];
    rand::thread_rng().fill(&mut data[..]);
    data
}

/// A one-time memory that a boot ROM can read.
fn make_otp(boot9: &[u8], plain: &[u8]) -> Vec<u8> {
    let mut all = plain.to_vec();
    all.extend_from_slice(&sha2::Sha256::digest(plain));
    let mut before = boot9[0xD6F0..0xD700].to_vec();
    let mut out = vec![];
    for block in all.chunks(16) {
        before = encrypt(&boot9[0xD6E0..0xD6F0], &xor(block, &before));
        out.extend_from_slice(&before);
    }
    out
}

fn param() -> SaveDataFormatParam {
    SaveDataFormatParam {
        block_type: SaveDataBlockType::Small,
        max_dir: 10,
        dir_buckets: 3,
        max_file: 10,
        file_buckets: 3,
        duplicate_data: true,
    }
}

#[test]
fn the_name_of_a_console() {
    let k = key(&random(16));
    let hash = sha2::Sha256::digest(k);
    let mut name = String::new();
    for word in 0..4 {
        for i in (0..4).rev() {
            name.push_str(&format!("{:02x}", hash[word * 4 + i]));
        }
    }
    assert_eq!(hash_movable(k), name.into_bytes());
}

#[test]
fn files_on_the_card_are_encrypted() {
    let x = key(&random(16));
    let y = key(&random(16));
    let sd = Sd::new(x, y);
    assert_eq!(sd.key, scramble(x, y));
    let path = sd_save_path(0x0004_0000_1234_5678);
    let text = "/title/00040000/12345678/data/00000001.sav";
    let mut wide = vec![];
    for c in text.bytes() {
        wide.extend_from_slice(&[c, 0]);
    }
    wide.extend_from_slice(&[0, 0]);
    let hash = sha2::Sha256::digest(&wide);
    let ctr = xor(&hash[..16], &hash[16..]);
    let data = random(40);
    let mut pads = vec![];
    for i in 0..3u128 {
        let n = u128::from_be_bytes(key(&ctr)).wrapping_add(i);
        pads.extend_from_slice(&encrypt(&sd.key, &n.to_be_bytes()));
    }
    let stored = sd.cipher(&path, data.clone());
    assert_eq!(stored, xor(&data, &pads));
    assert_eq!(sd.cipher(&path, stored), data);
}

#[test]
fn keys_are_derived() {
    let boot9 = random(0x10000);
    let movable = random(0x140);
    let plain = random(0xE0);
    let otp = make_otp(&boot9, &plain);
    let resource =
        Resource::new(Some(boot9.clone()), Some(movable.clone()), true, None, Some(otp.clone()))
            .unwrap();
    let y = key(&movable[0x110..0x120]);
    assert_eq!(resource.key_sign, Some(scramble(key(&boot9[0xD9E0..0xD9F0]), y)));
    assert_eq!(resource.sd.as_ref().unwrap().key, scramble(key(&boot9[0xD9F0..0xDA00]), y));
    assert_eq!(resource.id0, Some(hash_movable(y)));
    assert!(resource.nand.is_none());

    let mut seed = plain[0x90..0xAC].to_vec();
    seed.extend_from_slice(&boot9[0xD860..0xD884]);
    let hash = sha2::Sha256::digest(&seed);
    let k = scramble(key(&hash[..16]), key(&hash[16..]));
    let first = encrypt(&k, &xor(&boot9[0xD894..0xD8A4], &boot9[0xD884..0xD894]));
    let second = encrypt(&k, &xor(&boot9[0xD8A4..0xD8B4], &first));
    assert_eq!(
        resource.key_db,
        Some(scramble(key(&second), key(&boot9[0xDAC0..0xDAD0])))
    );

    let mut broken = otp.clone();
    broken[5] ^= 1;
    assert!(matches!(
        Resource::new(Some(boot9.clone()), None, false, None, Some(broken)),
        Err(Error::BrokenOtp)
    ));
    assert!(matches!(
        Resource::new(None, None, false, None, Some(otp)),
        Err(Error::MissingBoot9)
    ));
    assert!(matches!(
        Resource::new(Some(vec![0; 0x1000]), None, false, None, None),
        Err(Error::OutOfBound)
    ));

    let inner = random(0x140);
    let nand = Nand::new("storage").unwrap();
    let resource =
        Resource::new(Some(boot9), Some(movable), true, Some((nand, inner.clone())), None).unwrap();
    assert_eq!(resource.id0, Some(hash_movable(key(&inner[0x110..0x120]))));
    assert_eq!(resource.key_db, None);
}

#[test]
fn what_is_missing_is_told() {
    let none = Resource::new(None, None, false, None, None).unwrap();
    assert!(matches!(none.open_sd_save(1, vec![]), Err(Error::MissingSd)));
    assert!(matches!(none.open_nand_save(1, vec![]), Err(Error::MissingNand)));
    assert!(matches!(none.open_sd_ext(1, vec![]), Err(Error::MissingSd)));
    assert!(matches!(none.open_nand_ext(1, vec![], vec![]), Err(Error::MissingNand)));
    assert!(matches!(none.open_db(DbType::Ticket, vec![]), Err(Error::MissingNand)));
    assert!(matches!(none.open_db(DbType::SdTitle, vec![]), Err(Error::MissingSd)));
    assert!(matches!(none.format_sd_save(1, &param(), 100), Err(Error::NoSpace)));
    assert!(matches!(none.format_sd_save(1, &param(), 100_000), Err(Error::MissingSd)));
    let nand = (Nand::new("storage").unwrap(), vec![0; 0x120]);
    let keyless = Resource::new(None, None, false, Some(nand), None).unwrap();
    assert!(matches!(keyless.open_nand_save(1, vec![]), Err(Error::MissingBoot9)));
    assert!(matches!(keyless.open_db(DbType::Ticket, vec![]), Err(Error::MissingOtp)));
}

#[test]
fn archives_are_made_and_opened() {
    let boot9 = random(0x10000);
    let nand = (Nand::new("storage").unwrap(), random(0x140));
    let resource = Resource::new(Some(boot9), None, true, Some(nand), None).unwrap();
    let key_sign = resource.key_sign.unwrap();

    let stored = resource.format_sd_save(0x12, &param(), 100_000).unwrap();
    assert_eq!(stored.len(), 100_000);
    assert!(resource.open_sd_save(0x12, stored.clone()).is_ok());
    assert!(SaveData::new(stored.clone(), SaveDataType::Sd(key_sign, 0x12)).is_err());
    let sd = resource.sd.as_ref().unwrap();
    let file = sd.cipher(&sd_save_path(0x12), stored);
    assert!(SaveData::new(file, SaveDataType::Sd(key_sign, 0x12)).is_ok());

    let stored = resource.format_nand_save(0x34, &param(), 100_000).unwrap();
    assert!(resource.open_nand_save(0x34, stored.clone()).is_ok());
    assert!(matches!(resource.open_nand_save(0x35, stored), Err(Error::SignatureMismatch)));

    let stored = resource.format_bare_save(&param(), 100_000).unwrap();
    assert!(resource.open_bare_save(stored).is_ok());

    let ext = ExtDataFormatParam { max_dir: 10, dir_buckets: 3, max_file: 10, file_buckets: 3 };
    let images = resource.format_sd_ext(0x56, &ext).unwrap();
    assert!(images.quota.is_none());
    assert!(resource.open_sd_ext(0x56, images.meta.clone()).is_ok());
    let sd = resource.sd.as_ref().unwrap();
    let file = sd.cipher(&ext_meta_path(sd_ext_base(), 0x56), images.meta);
    assert!(ExtData::new(file, None, 0x56, key_sign).is_ok());

    let images = resource.format_nand_ext(0x78, &ext).unwrap();
    assert!(resource.open_nand_ext(0x78, images.meta, images.quota.unwrap()).is_ok());
}
