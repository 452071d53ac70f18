use crate::fields::Packer;
use crate::little_endian::read_le;
use vstd::prelude::*;

verus! {

use crate::fields::{field, lemma_field, lemma_packed_len, lemma_pow256, packed, start, Fields};

/// Where a table is: at an offset, or in a file of blocks.
#[derive(Clone, Copy, PartialEq, Eq, Structural, Debug)]
pub struct OffsetOrFatFile {
    pub block_index: u32,
    pub block_count: u32,
}

impl OffsetOrFatFile {
    /// The offset that the two words make up.
    pub open spec fn offset(self) -> int {
        self.block_index + self.block_count * 0x1_0000_0000
    }

    /// Takes an offset apart into two words.
    pub fn from_offset(offset: u64) -> (r: OffsetOrFatFile)
        ensures
            r.offset() == offset,
    {
        OffsetOrFatFile {
            block_index: (offset % 0x1_0000_0000) as u32,
            block_count: (offset / 0x1_0000_0000) as u32,
        }
    }

    /// Puts an offset together from two words.
    pub fn to_offset(&self) -> (r: u64)
        ensures
            r == self.offset(),
    {
        self.block_index as u64 + self.block_count as u64 * 0x1_0000_0000
    }
}

/// Two offsets that are stored alike are the same.
pub proof fn law_offset_round_trip(a: OffsetOrFatFile, b: OffsetOrFatFile)
    ensures
        a.offset() == b.offset() ==> a == b,
{
}

/// The length of the description of a file system.
pub const FS_INFO_LEN: usize = 0x68;

/// Where the parts of a file system are.
#[derive(Clone, Copy, PartialEq, Eq, Structural, Debug)]
pub struct FsInfo {
    pub block_len: u32,
    pub dir_hash_offset: u64,
    pub dir_buckets: u32,
    pub file_hash_offset: u64,
    pub file_buckets: u32,
    pub fat_offset: u64,
    pub fat_size: u32,
    pub data_offset: u64,
    pub data_block_count: u32,
    pub dir_table: OffsetOrFatFile,
    pub max_dir: u32,
    pub file_table: OffsetOrFatFile,
    pub max_file: u32,
}

/// What the description at `at` tells.
pub open spec fn fs_info_at(d: Seq<u8>, at: int) -> FsInfo {
    FsInfo {
        block_len: field(d, at + 4, 4) as u32,
        dir_hash_offset: field(d, at + 8, 8) as u64,
        dir_buckets: field(d, at + 16, 4) as u32,
        file_hash_offset: field(d, at + 24, 8) as u64,
        file_buckets: field(d, at + 32, 4) as u32,
        fat_offset: field(d, at + 40, 8) as u64,
        fat_size: field(d, at + 48, 4) as u32,
        data_offset: field(d, at + 56, 8) as u64,
        data_block_count: field(d, at + 64, 4) as u32,
        dir_table: OffsetOrFatFile {
            block_index: field(d, at + 72, 4) as u32,
            block_count: field(d, at + 76, 4) as u32,
        },
        max_dir: field(d, at + 80, 4) as u32,
        file_table: OffsetOrFatFile {
            block_index: field(d, at + 88, 4) as u32,
            block_count: field(d, at + 92, 4) as u32,
        },
        max_file: field(d, at + 96, 4) as u32,
    }
}

/// Reads a description.
pub fn read_fs_info(d: &Vec<u8>, at: usize) -> (i: FsInfo)
    requires
        at + FS_INFO_LEN <= d@.len(),
    ensures
        i == fs_info_at(d@, at as int),
{
    let _n: usize = d.len();
    FsInfo {
        block_len: read_le(d, at + 4, 4) as u32,
        dir_hash_offset: read_le(d, at + 8, 8),
        dir_buckets: read_le(d, at + 16, 4) as u32,
        file_hash_offset: read_le(d, at + 24, 8),
        file_buckets: read_le(d, at + 32, 4) as u32,
        fat_offset: read_le(d, at + 40, 8),
        fat_size: read_le(d, at + 48, 4) as u32,
        data_offset: read_le(d, at + 56, 8),
        data_block_count: read_le(d, at + 64, 4) as u32,
        dir_table: OffsetOrFatFile {
            block_index: read_le(d, at + 72, 4) as u32,
            block_count: read_le(d, at + 76, 4) as u32,
        },
        max_dir: read_le(d, at + 80, 4) as u32,
        file_table: OffsetOrFatFile {
            block_index: read_le(d, at + 88, 4) as u32,
            block_count: read_le(d, at + 92, 4) as u32,
        },
        max_file: read_le(d, at + 96, 4) as u32,
    }
}

/// The fields of a description.
pub open spec fn fs_info_fields(i: FsInfo) -> Fields {
    seq![
        (0nat, 4nat),
        (i.block_len as nat, 4nat),
        (i.dir_hash_offset as nat, 8nat),
        (i.dir_buckets as nat, 4nat),
        (0nat, 4nat),
        (i.file_hash_offset as nat, 8nat),
        (i.file_buckets as nat, 4nat),
        (0nat, 4nat),
        (i.fat_offset as nat, 8nat),
        (i.fat_size as nat, 4nat),
        (0nat, 4nat),
        (i.data_offset as nat, 8nat),
        (i.data_block_count as nat, 4nat),
        (0nat, 4nat),
        (i.dir_table.block_index as nat, 4nat),
        (i.dir_table.block_count as nat, 4nat),
        (i.max_dir as nat, 4nat),
        (0nat, 4nat),
        (i.file_table.block_index as nat, 4nat),
        (i.file_table.block_count as nat, 4nat),
        (i.max_file as nat, 4nat),
        (0nat, 4nat),
    ]
}

/// Writes a description.
pub fn fs_info_bytes(i: &FsInfo) -> (r: Vec<u8>)
    ensures
        r@ == packed(fs_info_fields(*i)),
        r@.len() == FS_INFO_LEN,
        fs_info_at(r@, 0) == *i,
{
    let mut k = Packer::new();
    k.put(0, 4);
    k.put(i.block_len as u64, 4);
    k.put(i.dir_hash_offset, 8);
    k.put(i.dir_buckets as u64, 4);
    k.put(0, 4);
    k.put(i.file_hash_offset, 8);
    k.put(i.file_buckets as u64, 4);
    k.put(0, 4);
    k.put(i.fat_offset, 8);
    k.put(i.fat_size as u64, 4);
    k.put(0, 4);
    k.put(i.data_offset, 8);
    k.put(i.data_block_count as u64, 4);
    k.put(0, 4);
    k.put(i.dir_table.block_index as u64, 4);
    k.put(i.dir_table.block_count as u64, 4);
    k.put(i.max_dir as u64, 4);
    k.put(0, 4);
    k.put(i.file_table.block_index as u64, 4);
    k.put(i.file_table.block_count as u64, 4);
    k.put(i.max_file as u64, 4);
    k.put(0, 4);
    assert(k.fields@ =~= fs_info_fields(*i));
    proof {
        lemma_fs_info(*i);
    }
    k.out
}

/// A description that is written down tells what was written.
pub proof fn lemma_fs_info(i: FsInfo)
    ensures
        packed(fs_info_fields(i)).len() == FS_INFO_LEN,
        fs_info_at(packed(fs_info_fields(i)), 0) == i,
{
    let f = fs_info_fields(i);
    lemma_pow256();
    assert(start(f, 0) == 0 && f[0].1 == 4);
    assert(start(f, 1) == 4 && f[1].1 == 4);
    assert(start(f, 2) == 8 && f[2].1 == 8);
    assert(start(f, 3) == 16 && f[3].1 == 4);
    assert(start(f, 4) == 20 && f[4].1 == 4);
    assert(start(f, 5) == 24 && f[5].1 == 8);
    assert(start(f, 6) == 32 && f[6].1 == 4);
    assert(start(f, 7) == 36 && f[7].1 == 4);
    assert(start(f, 8) == 40 && f[8].1 == 8);
    assert(start(f, 9) == 48 && f[9].1 == 4);
    assert(start(f, 10) == 52 && f[10].1 == 4);
    assert(start(f, 11) == 56 && f[11].1 == 8);
    assert(start(f, 12) == 64 && f[12].1 == 4);
    assert(start(f, 13) == 68 && f[13].1 == 4);
    assert(start(f, 14) == 72 && f[14].1 == 4);
    assert(start(f, 15) == 76 && f[15].1 == 4);
    assert(start(f, 16) == 80 && f[16].1 == 4);
    assert(start(f, 17) == 84 && f[17].1 == 4);
    assert(start(f, 18) == 88 && f[18].1 == 4);
    assert(start(f, 19) == 92 && f[19].1 == 4);
    assert(start(f, 20) == 96 && f[20].1 == 4);
    assert(start(f, 21) == 100 && f[21].1 == 4);
    assert(start(f, 22) == 104);
    lemma_packed_len(f);
    lemma_field(f, 1);
    lemma_field(f, 2);
    lemma_field(f, 3);
    lemma_field(f, 5);
    lemma_field(f, 6);
    lemma_field(f, 8);
    lemma_field(f, 9);
    lemma_field(f, 11);
    lemma_field(f, 12);
    lemma_field(f, 14);
    lemma_field(f, 15);
    lemma_field(f, 16);
    lemma_field(f, 18);
    lemma_field(f, 19);
    lemma_field(f, 20);
}

} // verus!
