use rand::seq::SliceRandom;
use rand::Rng;
use save3ds::aes_ctr_file::AesCtrFile;
use save3ds::crc_file::{CrcFile, MirroredFile, SimpleCrcStub, XorCrcStub};
use save3ds::diff::{Diff, DIFF_HEADER_LEN};
use save3ds::difi_layout::DifiPartitionParam;
use save3ds::difi_partition::{
    DifiPartition, DIFI_HEADER_LEN, DPFS_DESCRIPTOR_LEN, IVFC_DESCRIPTOR_LEN,
};
use save3ds::disa::{Disa, DISA_HEADER_LEN};
use save3ds::dpfs_level::DpfsLevel;
use save3ds::error::Error;
use save3ds::ext_data::ExtSigner;
use save3ds::memory_file::MemoryFile;
use save3ds::misc::divide_up;
use save3ds::random_access_file::RandomAccessFile;
use save3ds::shadow::Shadow;
use save3ds::signed_file::{SignedFile, Signer};
use save3ds::sub_file::SubFile;
use save3ds::wear_leveling::{crc16_ninty, WearLeveling};

fn random_bytes(len: usize) -> Vec<u8> {
    let mut data = vec![0; len];
    rand::thread_rng().fill(&mut data[..]);
    data
}

/// Does things at random with a file and with plain bytes, which must stay the same.
fn fuzzer<T, F: RandomAccessFile>(
    subject: T,
    file: fn(&mut T) -> &mut F,
    commit: fn(&mut T),
    reload: impl Fn(T) -> T,
    plain: Vec<u8>,
) {
    let mut rng = rand::thread_rng();
    let mut subject = subject;
    let mut plain = plain;
    let len = plain.len();
    assert_eq!(file(&mut subject).len(), len);
    let noise = random_bytes(2 * len);
    for _ in 0..1000 {
        let operation = rng.gen_range(1..10);
        if operation == 1 {
            commit(&mut subject);
            subject = reload(subject);
        } else if operation < 4 {
            commit(&mut subject);
        } else {
            let pos = rng.gen_range(0..len);
            let n = rng.gen_range(1..len - pos + 1);
            if operation < 7 {
                let mut buf = vec![0; n];
                file(&mut subject).read(pos, &mut buf).unwrap();
                assert_eq!(&buf[..], &plain[pos..pos + n]);
            } else {
                let from = rng.gen_range(0..2 * len - n + 1);
                let buf = noise[from..from + n].to_vec();
                file(&mut subject).write(pos, &buf).unwrap();
                plain[pos..pos + n].copy_from_slice(&buf);
            }
        }
    }
    let mut all = vec![0; len];
    file(&mut subject).read(0, &mut all).unwrap();
    assert_eq!(all, plain);
    let f = file(&mut subject);
    assert_eq!(f.read(len, &mut [0]), Err(Error::OutOfBound));
    assert_eq!(f.write(len, &[0]), Err(Error::OutOfBound));
}

fn random_signer() -> ExtSigner {
    let mut rng = rand::thread_rng();
    let sub_id = if rng.gen() { Some(rng.gen()) } else { None };
    ExtSigner { id: rng.gen(), sub_id }
}

fn random_param() -> DifiPartitionParam {
    let mut rng = rand::thread_rng();
    DifiPartitionParam {
        dpfs_level2_block_len: 1 << rng.gen_range(1..10),
        dpfs_level3_block_len: 1 << rng.gen_range(1..10),
        ivfc_level1_block_len: 1 << rng.gen_range(6..10),
        ivfc_level2_block_len: 1 << rng.gen_range(6..10),
        ivfc_level3_block_len: 1 << rng.gen_range(6..10),
        ivfc_level4_block_len: 1 << rng.gen_range(6..10),
        data_len: rng.gen_range(1..10_000),
        external_ivfc_level4: rng.gen(),
    }
}

#[test]
fn aes_ctr_file_fuzz() {
    let mut rng = rand::thread_rng();
    for _ in 0..10 {
        let len = rng.gen_range(1..1000);
        let key: [u8; 16] = rng.gen();
        let ctr: [u8; 16] = rng.gen();
        let mut file = AesCtrFile::new(MemoryFile::new(random_bytes(len)), key, ctr);
        let mut init = vec![0; len];
        file.read(0, &mut init).unwrap();
        fuzzer(
            file,
            |f| f,
            |f| f.commit().unwrap(),
            |f| AesCtrFile::new(MemoryFile::new(f.data.into_data()), key, ctr),
            init,
        );
    }
}

#[test]
fn diff_struct_size() {
    assert_eq!(DIFF_HEADER_LEN, 0x5C);
}

#[test]
fn diff_fuzz() {
    let mut rng = rand::thread_rng();
    for _ in 0..10 {
        let signer = random_signer();
        let key: [u8; 16] = rng.gen();
        let param = random_param();
        let parent_len = Diff::<ExtSigner>::calculate_size(&param);
        let mut parent = vec![0; parent_len];
        Diff::format(&mut parent, Some((signer, key)), &param, 0).unwrap();
        let mut diff = Diff::new(parent, Some((signer, key))).unwrap();
        let init = random_bytes(param.data_len);
        diff.inner.partitions[0].write(0, &init).unwrap();
        fuzzer(
            diff,
            |d| &mut d.inner.partitions[0],
            |d| d.commit().unwrap(),
            |d| Diff::new(d.inner.file, Some((signer, key))).unwrap(),
            init,
        );
    }
}

#[test]
fn difi_partition_struct_size() {
    assert_eq!(DIFI_HEADER_LEN, 0x44);
    assert_eq!(IVFC_DESCRIPTOR_LEN, 0x78);
    assert_eq!(DPFS_DESCRIPTOR_LEN, 0x50);
}

#[test]
fn difi_partition_fuzz() {
    for _ in 0..10 {
        let param = random_param();
        let (descriptor_len, partition_len) = DifiPartition::calculate_size(&param);
        let mut descriptor = vec![0; descriptor_len];
        DifiPartition::format(&mut descriptor, &param).unwrap();
        let mut difi = DifiPartition::new(descriptor, vec![0; partition_len]).unwrap();
        let init = random_bytes(param.data_len);
        difi.write(0, &init).unwrap();
        fuzzer(
            difi,
            |d| d,
            |d| d.commit().unwrap(),
            |d| DifiPartition::new(d.descriptor_image(), d.partition_image()).unwrap(),
            init,
        );
    }
}

#[test]
fn disa_struct_size() {
    assert_eq!(DISA_HEADER_LEN, 0x69);
}

fn fuzz_one_file(raw: Vec<u8>, index: usize, signer: (ExtSigner, [u8; 16])) -> Vec<u8> {
    let mut disa = Disa::new(raw, Some(signer)).unwrap();
    let len = disa.inner.partitions[index].len();
    let init = random_bytes(len);
    disa.inner.partitions[index].write(0, &init).unwrap();
    disa.commit().unwrap();
    let after = disa.inner.file.clone();
    if index == 0 {
        fuzzer(
            disa,
            |d| &mut d.inner.partitions[0],
            |d| d.commit().unwrap(),
            |d| Disa::new(d.inner.file, Some(signer)).unwrap(),
            init,
        );
    } else {
        fuzzer(
            disa,
            |d| &mut d.inner.partitions[1],
            |d| d.commit().unwrap(),
            |d| Disa::new(d.inner.file, Some(signer)).unwrap(),
            init,
        );
    }
    after
}

#[test]
fn fuzz_one_partition() {
    let mut rng = rand::thread_rng();
    for _ in 0..10 {
        let signer = (random_signer(), rng.gen());
        let param = random_param();
        let mut outer = vec![0; Disa::<ExtSigner>::calculate_size(&param, None)];
        Disa::format(&mut outer, Some(signer), &param, None).unwrap();
        fuzz_one_file(outer, 0, signer);
    }
}

#[test]
fn fuzz_two_partition() {
    let mut rng = rand::thread_rng();
    for _ in 0..10 {
        let signer = (random_signer(), rng.gen());
        let param_a = random_param();
        let param_b = random_param();
        let mut outer = vec![0; Disa::<ExtSigner>::calculate_size(&param_a, Some(&param_b))];
        Disa::format(&mut outer, Some(signer), &param_a, Some(&param_b)).unwrap();
        let outer = fuzz_one_file(outer, 0, signer);
        fuzz_one_file(outer, 1, signer);
    }
}

#[test]
fn dpfs_level_test() {
    let selector = MemoryFile::new(vec![0xF0, 0x0F, 0xFF, 0x00, 0xA0, 0xAA, 0x55, 0x55]);
    let pair0 = MemoryFile::new(vec![0xFF; 121]);
    let mut second = vec![0x00; 121];
    second[64..72].copy_from_slice(&[0x00, 0x01, 0x02, 0x03, 0x04, 0x05, 0x06, 0x07]);
    let pair1 = MemoryFile::new(second);

    let mut file = DpfsLevel::new(selector, pair0, pair1, 2).unwrap();
    assert_eq!(file.len(), 128 - 7);
    let mut buf1 = [0; 16];
    file.read(65, &mut buf1).unwrap();
    assert_eq!(
        buf1,
        [
            0xFF, 0x02, 0x03, 0xFF, 0xFF, 0x06, 0x07, 0xFF, 0xFF, 0x00, 0x00, 0xFF, 0xFF, 0x00,
            0x00, 0xFF
        ]
    );

    let buf2 = [0x11, 0x22, 0x33, 0x44, 0x55];
    file.write(100, &buf2).unwrap();
    let mut buf3 = [0; 7];
    file.read(99, &mut buf3).unwrap();
    assert_eq!(buf3, [0xFF, 0x11, 0x22, 0x33, 0x44, 0x55, 0x00]);
    file.commit().unwrap();
    file.read(99, &mut buf3).unwrap();
    assert_eq!(buf3, [0xFF, 0x11, 0x22, 0x33, 0x44, 0x55, 0x00]);
    let mut file = DpfsLevel::new(file.selector, file.pair0, file.pair1, 2).unwrap();
    file.read(99, &mut buf3).unwrap();
    assert_eq!(buf3, [0xFF, 0x11, 0x22, 0x33, 0x44, 0x55, 0x00]);
}

#[test]
fn dpfs_level_fuzz() {
    let mut rng = rand::thread_rng();
    for _ in 0..10 {
        let len = rng.gen_range(1..10_000);
        let block_len = rng.gen_range(1..100);
        let block_count = divide_up(len, block_len);
        let chunk_count = divide_up(block_count, 32);
        let selector = MemoryFile::new(random_bytes(chunk_count * 4));
        let pair0 = MemoryFile::new(random_bytes(len));
        let pair1 = MemoryFile::new(random_bytes(len));
        let init = random_bytes(len);
        let mut level = DpfsLevel::new(selector, pair0, pair1, block_len).unwrap();
        level.write(0, &init).unwrap();
        fuzzer(
            level,
            |f| f,
            |f| f.commit().unwrap(),
            |f| DpfsLevel::new(f.selector, f.pair0, f.pair1, block_len).unwrap(),
            init,
        );
    }
}

#[test]
fn signed_file_fuzz() {
    let mut rng = rand::thread_rng();
    for _ in 0..10 {
        let len = rng.gen_range(1..100);
        let init = random_bytes(len);
        let signer = random_signer();
        let key: [u8; 16] = rng.gen();
        let mut made = SignedFile::new_unverified(
            MemoryFile::new(vec![0; 16]),
            MemoryFile::new(init.clone()),
            signer,
            key,
        )
        .unwrap();
        made.commit().unwrap();
        let file = SignedFile::new(made.signature, made.data, signer, key).unwrap();
        fuzzer(
            file,
            |f| f,
            |f| f.commit().unwrap(),
            |f| SignedFile::new(f.signature, f.data, signer, key).unwrap(),
            init,
        );
    }
}

#[test]
fn a_wrong_signature_is_refused() {
    let mut made = SignedFile::new_unverified(
        MemoryFile::new(vec![0; 16]),
        MemoryFile::new(vec![1, 2, 3]),
        ExtSigner { id: 7, sub_id: None },
        [9; 16],
    )
    .unwrap();
    made.commit().unwrap();
    let mut signature = made.signature.into_data();
    signature[3] ^= 1;
    let opened = SignedFile::new(
        MemoryFile::new(signature),
        MemoryFile::new(vec![1, 2, 3]),
        ExtSigner { id: 7, sub_id: None },
        [9; 16],
    );
    assert!(matches!(opened, Err(Error::SignatureMismatch)));
}

/// What was never written can not be signed.
#[test]
fn blank_data_is_not_signed() {
    let mut made = SignedFile::new_unverified(
        MemoryFile::new(vec![7; 16]),
        Shadow::blank(3),
        ExtSigner { id: 7, sub_id: None },
        [9; 16],
    )
    .unwrap();
    assert_eq!(made.commit(), Err(Error::HashMismatch));
    assert_eq!(made.signature.data, vec![7; 16]);
    made.write(0, &[1, 2, 3]).unwrap();
    assert_eq!(made.commit(), Ok(()));
    assert_ne!(made.signature.data, vec![7; 16]);
}

/// The signature is a CMAC over the hash of the block.
#[test]
fn signature_of_known_data() {
    let signer = ExtSigner { id: 0x1122_3344_5566_7788, sub_id: Some(9) };
    let mut block = b"CTR-EXT0".to_vec();
    block.extend_from_slice(&0x1122_3344_5566_7788u64.to_le_bytes());
    block.extend_from_slice(&1u32.to_le_bytes());
    block.extend_from_slice(&9u64.to_le_bytes());
    block.extend_from_slice(b"abc");
    assert_eq!(signer.block(b"abc".to_vec()), block);
    let mut made = SignedFile::new_unverified(
        MemoryFile::new(vec![0; 16]),
        MemoryFile::new(b"abc".to_vec()),
        signer,
        [5; 16],
    )
    .unwrap();
    made.commit().unwrap();
    check_cmac(&made.signature.into_data(), &[5; 16], &block);
}

fn check_cmac(signature: &[u8], key: &[u8; 16], data: &[u8]) {
    let mut hasher = <sha2::Sha256 as sha2::Digest>::new();
    sha2::Digest::update(&mut hasher, data);
    let hash = sha2::Digest::finalize(hasher);
    let mut mac = <cmac::Cmac<aes::Aes128> as cmac::Mac>::new_from_slice(key).unwrap();
    cmac::Mac::update(&mut mac, &hash);
    assert_eq!(&cmac::Mac::finalize(mac).into_bytes()[..], signature);
}

#[test]
fn fuzz_crc() {
    let mut rng = rand::thread_rng();
    for _ in 0..10 {
        let len = rng.gen_range(1..100);
        let init = random_bytes(len);
        let crc = crc16_ninty(&init).to_le_bytes().to_vec();
        let stub = SimpleCrcStub::new(MemoryFile::new(crc)).unwrap();
        let file = CrcFile::new(stub, MemoryFile::new(init.clone()), true).unwrap();
        fuzzer(
            file,
            |f| f,
            |f| f.commit().unwrap(),
            |f| {
                let stub = SimpleCrcStub::new(f.crc_stub.parent).unwrap();
                CrcFile::new(stub, f.data, true).unwrap()
            },
            init,
        );
    }
}

#[test]
fn fuzz_crc_xor() {
    let mut rng = rand::thread_rng();
    for _ in 0..10 {
        let len = rng.gen_range(1..100);
        let init = random_bytes(len);
        let crc = crc16_ninty(&init).to_le_bytes();
        let stub = XorCrcStub::new(MemoryFile::new(vec![crc[0] ^ crc[1]])).unwrap();
        let file = CrcFile::new(stub, MemoryFile::new(init.clone()), true).unwrap();
        fuzzer(
            file,
            |f| f,
            |f| f.commit().unwrap(),
            |f| {
                let stub = XorCrcStub::new(f.crc_stub.parent).unwrap();
                CrcFile::new(stub, f.data, true).unwrap()
            },
            init,
        );
    }
}

#[test]
fn a_wrong_checksum_is_refused() {
    let stub = SimpleCrcStub::new(MemoryFile::new(vec![0, 0])).unwrap();
    let opened = CrcFile::new(stub, MemoryFile::new(vec![1, 2, 3]), true);
    assert!(matches!(opened, Err(Error::SignatureMismatch)));
}

#[test]
fn a_blank_checksum_is_refused() {
    let stub = SimpleCrcStub::new(Shadow::blank(2)).unwrap();
    let opened = CrcFile::new(stub, MemoryFile::new(vec![1, 2, 3]), true);
    assert!(matches!(opened, Err(Error::HashMismatch)));
    let stub = XorCrcStub::new(Shadow::blank(1)).unwrap();
    let opened = CrcFile::new(stub, MemoryFile::new(vec![1, 2, 3]), true);
    assert!(matches!(opened, Err(Error::HashMismatch)));
    let stub = SimpleCrcStub::new(Shadow::blank(2)).unwrap();
    let mut made = CrcFile::new(stub, MemoryFile::new(vec![1, 2, 3]), false).unwrap();
    made.commit().unwrap();
    assert!(CrcFile::new(made.crc_stub, made.data, true).is_ok());
}

#[test]
fn fuzz_mirrored() {
    let mut rng = rand::thread_rng();
    for _ in 0..10 {
        let len = rng.gen_range(1..100);
        let init = random_bytes(len);
        let file =
            MirroredFile::new(MemoryFile::new(init.clone()), MemoryFile::new(init.clone())).unwrap();
        fuzzer(
            file,
            |f| f,
            |f| f.commit().unwrap(),
            |f| MirroredFile::new(f.data0, f.data1).unwrap(),
            init,
        );
    }
}

fn with_map(raw: &mut Vec<u8>, map_len: usize, entries: &[(usize, Vec<u8>)]) {
    let stub = SimpleCrcStub::new(MemoryFile::new(vec![0, 0])).unwrap();
    let mut map = CrcFile::new(stub, MemoryFile::new(raw[..map_len].to_vec()), false).unwrap();
    for (pos, data) in entries {
        map.write(*pos, data).unwrap();
    }
    map.commit().unwrap();
    raw[..map_len].copy_from_slice(&map.data.data);
    raw[map_len..map_len + 2].copy_from_slice(&map.crc_stub.parent.data);
}

#[test]
fn fuzz_wear_leveling_small() {
    let mut rng = rand::thread_rng();
    for i in 0..10 {
        let len: usize = if rng.gen() { 0x20_000 } else { 0x80_000 };
        let virtual_block_count = len / 0x1000 - 1;
        let mut init = vec![0xFF; len];
        let plain = vec![0xFF; len - 0x2000];
        if i % 2 == 0 {
            let mut blocks: Vec<u8> = (1..(virtual_block_count + 1) as u8).collect();
            blocks.shuffle(&mut rng);
            let entries: Vec<(usize, Vec<u8>)> = blocks
                .into_iter()
                .enumerate()
                .map(|(i, block)| {
                    let mut e = vec![block, rng.gen()];
                    e.extend_from_slice(&[0; 8]);
                    (8 + i * 10, e)
                })
                .collect();
            with_map(&mut init, 8 + virtual_block_count * 10, &entries);
        } else {
            WearLeveling::format(&mut init).unwrap();
        }
        let file = WearLeveling::new(init).unwrap();
        fuzzer(
            file,
            |f| f,
            |f| f.commit().unwrap(),
            |f| WearLeveling::new(f.file).unwrap(),
            plain,
        );
    }
}

#[test]
fn fuzz_wear_leveling_large() {
    let mut rng = rand::thread_rng();
    for i in 0..10 {
        let len: usize = 0x100_000;
        let mut init = vec![0xFF; len];
        let plain = vec![0xFF; len - 0x2000];
        if i % 2 == 0 {
            let mut blocks: Vec<u8> = (1..=255).collect();
            blocks.shuffle(&mut rng);
            let entries: Vec<(usize, Vec<u8>)> = blocks
                .into_iter()
                .enumerate()
                .map(|(i, block)| (8 + i * 2, vec![rng.gen::<u8>() & 0x7F, block]))
                .collect();
            with_map(&mut init, 0x3FE, &entries);
        } else {
            WearLeveling::format(&mut init).unwrap();
        }
        let file = WearLeveling::new(init).unwrap();
        fuzzer(
            file,
            |f| f,
            |f| f.commit().unwrap(),
            |f| WearLeveling::new(f.file).unwrap(),
            plain,
        );
    }
}

#[test]
fn a_part_of_a_file_is_a_file() {
    let mut rng = rand::thread_rng();
    let whole = random_bytes(100);
    let begin: usize = rng.gen_range(0..50);
    let len: usize = rng.gen_range(1..50);
    let file = SubFile::new(MemoryFile::new(whole.clone()), begin, len).unwrap();
    let part = whole[begin..begin + len].to_vec();
    fuzzer(file, |f| f, |f| f.commit().unwrap(), |f| f, part);
}

#[test]
fn writing_to_a_part_leaves_the_rest() {
    let mut file = SubFile::new(MemoryFile::new(vec![1, 2, 3, 4, 5, 6]), 2, 3).unwrap();
    assert_eq!(file.len(), 3);
    file.write(1, &[9]).unwrap();
    assert_eq!(file.write(1, &[7, 7, 7]), Err(Error::OutOfBound));
    assert_eq!(file.parent.into_data(), vec![1, 2, 3, 9, 5, 6]);
    let outside = SubFile::new(MemoryFile::new(vec![0; 6]), 4, 3);
    assert!(matches!(outside, Err(Error::OutOfBound)));
}

#[test]
fn a_new_chip() {
    let mut chip = vec![0x55; 0x20_000];
    WearLeveling::format(&mut chip).unwrap();
    let mut map = vec![0; 318];
    for i in 0..31 {
        map[8 + 10 * i] = i as u8 + 1;
    }
    assert_eq!(&chip[..318], &map[..]);
    assert_eq!(&chip[318..320], &crc16_ninty(&map).to_le_bytes());
    assert!(chip[0x140..0x1000].iter().all(|b| *b == 0xFF));
    assert!(chip[0x1000..].iter().all(|b| *b == 0x55));

    let mut chip = vec![0x55; 0x100_000];
    WearLeveling::format(&mut chip).unwrap();
    assert_eq!(&chip[..12], &[0, 0, 0, 0, 0, 0, 0, 0, 0, 1, 0, 2]);
    assert_eq!(&chip[516..520], &[0, 255, 0, 0]);
    assert!(chip[518..0x3FE].iter().all(|b| *b == 0));
    assert_eq!(&chip[0x3FE..0x400], &crc16_ninty(&chip[..0x3FE]).to_le_bytes());
    assert!(chip[0x400..0x1000].iter().all(|b| *b == 0xFF));
    assert_eq!(WearLeveling::format(&mut vec![0; 0x1000]), Err(Error::SizeMismatch));
}

#[test]
fn checksums_tell_one_byte() {
    let mut rng = rand::thread_rng();
    for _ in 0..100 {
        let data = random_bytes(rng.gen_range(1..100));
        let crc = crc16_ninty(&data);
        let mut checked = data.clone();
        checked.extend_from_slice(&crc.to_le_bytes());
        assert_eq!(crc16_ninty(&checked), 0);
        let mut other = data.clone();
        let at = rng.gen_range(0..data.len());
        other[at] ^= rng.gen_range(1..=255u8);
        assert_ne!(crc16_ninty(&other), crc);
    }
    assert_eq!(crc16_ninty(&[]), 0xFFFF);
    assert_eq!(crc16_ninty(b"123456789"), 0x4B37);
}

#[test]
fn a_copy_in_use_is_not_written() {
    let selector = MemoryFile::new(vec![0xF0, 0x0F, 0xFF, 0x00]);
    let pair0 = MemoryFile::new(random_bytes(64));
    let pair1 = MemoryFile::new(random_bytes(64));
    let mut level = DpfsLevel::new(selector, pair0, pair1, 2).unwrap();
    let before = level.load(0, 64).unwrap();
    level.write(3, &[9; 50]).unwrap();
    level.write(10, &[7; 5]).unwrap();
    let copies = (level.pair0.data.clone(), level.pair1.data.clone());
    assert_eq!(level.selector.data, vec![0xF0, 0x0F, 0xFF, 0x00]);
    let mut again = DpfsLevel::new(
        MemoryFile::new(level.selector.data.clone()),
        MemoryFile::new(copies.0),
        MemoryFile::new(copies.1),
        2,
    )
    .unwrap();
    assert_eq!(again.load(0, 64).unwrap(), before);
    let after = level.load(0, 64).unwrap();
    level.commit().unwrap();
    let mut again = DpfsLevel::new(level.selector, level.pair0, level.pair1, 2).unwrap();
    assert_eq!(again.load(0, 64).unwrap(), after);
}
