use crate::archive::{Archive, ImageRule};
use crate::container::Container;
use crate::crypto::sha256_of;
use crate::difi_layout::DifiPartitionParam;
use crate::disa::Disa;
use crate::error::{make_error, Error};
use crate::fs_info::FS_INFO_LEN;
use crate::fs_meta::MetaLayout;
use crate::little_endian::push_le;
use crate::misc::align_up;
use crate::difi_partition::DifiPartition;
use crate::random_access_file::{copy_range, Content, RandomAccessFile};
use crate::signed_file::Signer;
use crate::volume_format::{Blank, Plan};
use crate::volume_place::{place, Spots};
use crate::volume_store::{Source, Stat};
use vstd::prelude::*;

verus! {

use crate::container::zeros;
use crate::crypto::sha256;
use crate::archive::{image_head, law_archive_reopen, lemma_opened_settled, lemma_settled_same, source_of};
use crate::container::{container_opened, lead_kept, ContainerInfo};
use crate::difi_layout::{layout, lemma_layout, lemma_layout_grows};
use crate::difi_partition::block_lens_ok;
use crate::disa::{
    disa_error, disa_fits, disa_info, disa_layout, has_lens, law_disa_reopen, lemma_disa_grows, lemma_disa_layout,
    lemma_still_named, SECONDARY_TABLE,
};
use crate::fat_list::block_count;
use crate::fs_meta::root_tree;
use crate::volume::{same_volume, Volume};
use crate::volume_place::{lemma_placed, plan_noted, spots_ok};
use crate::volume_same::{law_held_volume_reads_back, lemma_read_back_before, lemma_reads_back_whole, reads_back, trees_same};
use crate::volume_store::{
    files_as_before, holds, lemma_views_back, lemma_views_same, mount_refused, mounted, parts_same, shown_as,
    stat_is, told,
};
use vstd::arithmetic::power2::pow2;
use crate::little_endian::le_bytes;
use crate::misc::{aligned, counted, lemma_counted, lemma_counted_grows};
use vstd::arithmetic::mul::*;

/// `CTR-SYS0` in little endian.
pub const CTR_SYS0: u64 = 0x3053_5953_2D52_5443;

/// `CTR-SAV0` in little endian.
pub const CTR_SAV0: u64 = 0x3056_4153_2D52_5443;

/// `CTR-SIGN` in little endian.
pub const CTR_SIGN: u64 = 0x4E47_4953_2D52_5443;

/// `CTR-NOR0` in little endian.
pub const CTR_NOR0: u64 = 0x3052_4F4E_2D52_5443;

/// `SAVE` in little endian.
pub const SAVE_MAGIC: u64 = 0x4556_4153;

/// The length of the header in the first partition.
pub const SAVE_HEADER_LEN: usize = 0x20;

/// The length of the key of a directory or file: the directory that it is in, and its name.
pub const SAVE_KEY_LEN: usize = 20;

/// The length of what is noted for a directory.
pub const SAVE_DIR_LEN: usize = 16;

/// The length of what is noted for a file.
pub const SAVE_FILE_LEN: usize = 24;

/// How the header of save data is signed.
#[derive(Clone, Copy, PartialEq, Eq, Structural, Debug)]
pub enum SaveSigner {
    Nand(u32),
    CtrSav0,
    Sd(u64),
    Cart,
}

/// The block for save data as such.
pub open spec fn sav0_block(data: Seq<u8>) -> Seq<u8> {
    le_bytes(CTR_SAV0 as nat, 8) + data
}

impl Signer for SaveSigner {
    open spec fn blocked(&self, data: Seq<u8>) -> Seq<u8> {
        match *self {
            SaveSigner::Nand(id) => le_bytes(CTR_SYS0 as nat, 8) + le_bytes(id as nat, 4) + zeros(4)
                + data,
            SaveSigner::CtrSav0 => sav0_block(data),
            SaveSigner::Sd(id) => le_bytes(CTR_SIGN as nat, 8) + le_bytes(id as nat, 8) + sha256(
                sav0_block(data),
            ),
            SaveSigner::Cart => le_bytes(CTR_NOR0 as nat, 8) + sha256(sav0_block(data)),
        }
    }

    fn block(&self, data: Vec<u8>) -> (r: Vec<u8>) {
        let mut data = data;
        let ghost d = data@;
        let mut out: Vec<u8> = Vec::new();
        match self {
            SaveSigner::Nand(id) => {
                push_le(&mut out, CTR_SYS0, 8);
                push_le(&mut out, *id as u64, 4);
                let mut pad: Vec<u8> = vec![0u8; 4];
                assert(pad@ =~= zeros(4));
                out.append(&mut pad);
                out.append(&mut data);
                assert(out@ =~= self.blocked(d));
            },
            SaveSigner::CtrSav0 => {
                push_le(&mut out, CTR_SAV0, 8);
                out.append(&mut data);
                assert(out@ =~= self.blocked(d));
            },
            SaveSigner::Sd(id) => {
                push_le(&mut out, CTR_SIGN, 8);
                push_le(&mut out, *id, 8);
                let mut hash = hash_sav0(data);
                out.append(&mut hash);
                assert(out@ =~= self.blocked(d));
            },
            SaveSigner::Cart => {
                push_le(&mut out, CTR_NOR0, 8);
                let mut hash = hash_sav0(data);
                out.append(&mut hash);
                assert(out@ =~= self.blocked(d));
            },
        }
        out
    }
}

fn hash_sav0(data: Vec<u8>) -> (r: Vec<u8>)
    ensures
        r@ == sha256(sav0_block(data@)),
{
    let mut data = data;
    let ghost d = data@;
    let mut out: Vec<u8> = Vec::new();
    push_le(&mut out, CTR_SAV0, 8);
    out.append(&mut data);
    assert(out@ =~= sav0_block(d));
    sha256_of(&out)
}

/// Where save data is, with the key of its signature and its number.
#[derive(Clone, Copy, PartialEq, Eq, Debug)]
pub enum SaveDataType {
    Nand([u8; 16], u32),
    Sd([u8; 16], u64),
    Cart([u8; 16]),
    Bare,
}

impl SaveDataType {
    /// How the header is signed, and with which key.
    pub open spec fn signer(self) -> Option<(SaveSigner, [u8; 16])> {
        match self {
            SaveDataType::Bare => None,
            SaveDataType::Nand(key, id) => Some((SaveSigner::Nand(id), key)),
            SaveDataType::Sd(key, id) => Some((SaveSigner::Sd(id), key)),
            SaveDataType::Cart(key) => Some((SaveSigner::Cart, key)),
        }
    }
}

/// Block types of a save data.
#[derive(Clone, Copy, PartialEq, Eq, Structural, Hash, Debug)]
pub enum SaveDataBlockType {
    /// 512-byte block, for game save.
    Small,
    /// 4096-byte block, for NAND (system) save.
    Large,
}

impl SaveDataBlockType {
    pub open spec fn len(self) -> int {
        match self {
            SaveDataBlockType::Small => 512,
            SaveDataBlockType::Large => 4096,
        }
    }

    /// The length of a block.
    pub fn block_len(&self) -> (r: usize)
        ensures
            r == self.len(),
    {
        match self {
            SaveDataBlockType::Small => 512,
            SaveDataBlockType::Large => 4096,
        }
    }
}

/// Configuration for formatting a save data.
#[derive(Clone, Copy, PartialEq, Eq, Structural, Hash, Debug)]
pub struct SaveDataFormatParam {
    pub block_type: SaveDataBlockType,
    pub max_dir: usize,
    pub dir_buckets: usize,
    pub max_file: usize,
    pub file_buckets: usize,
    pub duplicate_data: bool,
}

/// The lengths of keys and infos of save data.
pub open spec fn save_meta() -> MetaLayout {
    MetaLayout { dir_key_len: SAVE_KEY_LEN, dir_info_len: SAVE_DIR_LEN, file_key_len: SAVE_KEY_LEN, file_info_len: SAVE_FILE_LEN }
}

/// The first partition of save data begins so.
pub open spec fn save_rule() -> ImageRule {
    ImageRule {
        base: 0,
        header_len: SAVE_HEADER_LEN,
        magic: SAVE_MAGIC,
        version: 0x40000,
        layout: save_meta(),
        cut_off: false,
    }
}

fn get_rule() -> (r: ImageRule)
    ensures
        r == save_rule(),
        r.ok(),
{
    ImageRule {
        base: 0,
        header_len: SAVE_HEADER_LEN,
        magic: SAVE_MAGIC,
        version: 0x40000,
        layout: MetaLayout { dir_key_len: SAVE_KEY_LEN, dir_info_len: SAVE_DIR_LEN, file_key_len: SAVE_KEY_LEN, file_info_len: SAVE_FILE_LEN },
        cut_off: false,
    }
}

/// Where the parts of new save data are. Offsets of what is not in the first partition are 0.
pub struct SaveLayout {
    pub dir_hash_offset: int,
    pub file_hash_offset: int,
    pub fat_offset: int,
    pub data_block_count: int,
    pub data_offset: int,
    pub dir_table_offset: int,
    pub file_table_offset: int,
    /// The length of the first partition.
    pub len_a: int,
    /// The length of the second partition.
    pub len_b: int,
}

/// The layout of new save data with a number of blocks for files.
pub open spec fn save_layout(p: SaveDataFormatParam, block_count: int) -> SaveLayout {
    let block_len = p.block_type.len();
    let dir_hash_offset = 0x88int;
    let file_hash_offset = dir_hash_offset + p.dir_buckets * 4;
    let fat_offset = file_hash_offset + p.file_buckets * 4;
    let dir_table_len = (p.max_dir + 2) * 40;
    let file_table_len = (p.max_file + 1) * 48;
    if p.duplicate_data {
        let data_len = aligned(dir_table_len, block_len) + aligned(file_table_len, block_len)
            + block_count * block_len;
        let data_block_count = data_len / block_len;
        let data_offset = aligned(fat_offset + (data_block_count + 1) * 8, block_len);
        SaveLayout {
            dir_hash_offset,
            file_hash_offset,
            fat_offset,
            data_block_count,
            data_offset,
            dir_table_offset: 0,
            file_table_offset: 0,
            len_a: data_offset + data_len,
            len_b: 0,
        }
    } else {
        let dir_table_offset = fat_offset + (block_count + 1) * 8;
        let file_table_offset = dir_table_offset + dir_table_len;
        SaveLayout {
            dir_hash_offset,
            file_hash_offset,
            fat_offset,
            data_block_count: block_count,
            data_offset: 0,
            dir_table_offset,
            file_table_offset,
            len_a: aligned(file_table_offset + file_table_len, block_len),
            len_b: block_count * block_len,
        }
    }
}

/// The first partition of new save data.
pub open spec fn save_param_a(p: SaveDataFormatParam, block_count: int) -> DifiPartitionParam {
    DifiPartitionParam {
        dpfs_level2_block_len: 128,
        dpfs_level3_block_len: 4096,
        ivfc_level1_block_len: 512,
        ivfc_level2_block_len: 512,
        ivfc_level3_block_len: 4096,
        ivfc_level4_block_len: if p.duplicate_data {
            4096
        } else {
            p.block_type.len() as usize
        },
        data_len: save_layout(p, block_count).len_a as usize,
        external_ivfc_level4: false,
    }
}

/// The second partition of new save data.
pub open spec fn save_param_b(p: SaveDataFormatParam, block_count: int) -> Option<
    DifiPartitionParam,
> {
    if p.duplicate_data {
        None
    } else {
        Some(
            DifiPartitionParam {
                dpfs_level2_block_len: 128,
                dpfs_level3_block_len: 4096,
                ivfc_level1_block_len: 512,
                ivfc_level2_block_len: 512,
                ivfc_level3_block_len: 4096,
                ivfc_level4_block_len: p.block_type.len() as usize,
                data_len: save_layout(p, block_count).len_b as usize,
                external_ivfc_level4: true,
            },
        )
    }
}

/// How the volume of new save data is planned.
pub open spec fn save_plan(p: SaveDataFormatParam, block_count: int) -> Plan {
    Plan {
        block_len: p.block_type.len() as usize,
        block_count: save_layout(p, block_count).data_block_count as usize,
        max_dir: p.max_dir,
        dir_buckets: p.dir_buckets,
        max_file: p.max_file,
        file_buckets: p.file_buckets,
        layout: save_meta(),
        in_blocks: p.duplicate_data,
    }
}

/// The length of save data with a number of blocks for files.
#[verifier::opaque]
pub open spec fn save_size(p: SaveDataFormatParam, block_count: int) -> int {
    disa_layout(save_param_a(p, block_count), save_param_b(p, block_count)).end
}

/// Save data with so many blocks can be made, and all its numbers can be counted.
#[verifier::opaque]
pub open spec fn save_fits(p: SaveDataFormatParam, block_count: int) -> bool {
    let l = save_layout(p, block_count);
    &&& 1 <= block_count
    &&& 0 < p.dir_buckets <= u32::MAX
    &&& 0 < p.file_buckets <= u32::MAX
    &&& p.max_dir + 2 <= u32::MAX
    &&& p.max_file + 1 <= u32::MAX
    &&& l.data_block_count + 1 < 0x8000_0000
    &&& l.len_a <= usize::MAX
    &&& l.len_b <= usize::MAX
    &&& disa_fits(save_param_a(p, block_count), save_param_b(p, block_count))
}

/// The parts of new save data follow each other.
proof fn lemma_save_layout(p: SaveDataFormatParam, n: int)
    requires
        n >= 1,
    ensures
        ({
            let l = save_layout(p, n);
            let bl = p.block_type.len();
            let dir_len = (p.max_dir + 2) * 40;
            let file_len = (p.max_file + 1) * 48;
            let q = save_plan(p, n);
            &&& bl == 512 || bl == 4096
            &&& l.dir_hash_offset == 0x88
            &&& l.file_hash_offset == 0x88 + p.dir_buckets * 4
            &&& l.fat_offset == l.file_hash_offset + p.file_buckets * 4
            &&& l.data_block_count >= n
            &&& p.duplicate_data ==> {
                &&& l.data_block_count == counted(dir_len, bl) + counted(file_len, bl) + n
                &&& l.fat_offset + (l.data_block_count + 1) * 8 <= l.data_offset
                &&& l.data_offset + l.data_block_count * bl == l.len_a
                &&& l.len_b == 0
                &&& aligned(dir_len, bl) <= l.len_a
                &&& aligned(file_len, bl) <= l.len_a
            }
            &&& !p.duplicate_data ==> {
                &&& l.data_block_count == n
                &&& l.fat_offset + (n + 1) * 8 == l.dir_table_offset
                &&& l.dir_table_offset + dir_len == l.file_table_offset
                &&& l.file_table_offset + file_len <= l.len_a
                &&& l.len_b == n * bl
            }
            &&& n * bl <= l.len_a + l.len_b
            &&& n <= n * bl
            &&& l.data_block_count * bl <= l.len_a + l.len_b
        }),
{
    let l = save_layout(p, n);
    let bl = p.block_type.len();
    let dir_len = (p.max_dir + 2) * 40;
    let file_len = (p.max_file + 1) * 48;
    lemma_counted(dir_len, bl);
    lemma_counted(file_len, bl);
    if p.duplicate_data {
        let c = counted(dir_len, bl) + counted(file_len, bl) + n;
        let data_len = aligned(dir_len, bl) + aligned(file_len, bl) + n * bl;
        assert(data_len == c * bl) by (nonlinear_arith)
            requires
                data_len == counted(dir_len, bl) * bl + counted(file_len, bl) * bl + n * bl,
                c == counted(dir_len, bl) + counted(file_len, bl) + n,
        ;
        vstd::arithmetic::div_mod::lemma_div_multiples_vanish(c, bl);
        lemma_mul_is_commutative(c, bl);
        assert(l.data_block_count == c);
        lemma_counted(l.fat_offset + (c + 1) * 8, bl);
    } else {
        lemma_counted(l.file_table_offset + file_len, bl);
    }
    assert(n <= n * bl) by (nonlinear_arith)
        requires
            n >= 1,
            bl >= 1,
    ;
}

/// The layout in machine integers.
#[derive(Clone, Copy, PartialEq, Eq, Structural, Debug)]
pub struct SaveDataInfo {
    pub param_a: DifiPartitionParam,
    pub param_b: Option<DifiPartitionParam>,
    pub dir_hash_offset: usize,
    pub file_hash_offset: usize,
    pub fat_offset: usize,
    pub data_block_count: usize,
    pub data_offset: usize,
    pub dir_table_offset: usize,
    pub file_table_offset: usize,
}

/// The numbers are those of the layout.
pub open spec fn info_as(i: SaveDataInfo, p: SaveDataFormatParam, block_count: int) -> bool {
    let l = save_layout(p, block_count);
    &&& i.param_a == save_param_a(p, block_count)
    &&& i.param_b == save_param_b(p, block_count)
    &&& i.dir_hash_offset == l.dir_hash_offset
    &&& i.file_hash_offset == l.file_hash_offset
    &&& i.fat_offset == l.fat_offset
    &&& i.data_block_count == l.data_block_count
    &&& i.data_offset == l.data_offset
    &&& i.dir_table_offset == l.dir_table_offset
    &&& i.file_table_offset == l.file_table_offset
}

/// The length of save data is at least that of its blocks.
proof fn lemma_save_size(p: SaveDataFormatParam, n: int)
    requires
        save_fits(p, n),
    ensures
        n * p.block_type.len() <= save_size(p, n),
{
    let a = save_param_a(p, n);
    let b = save_param_b(p, n);
    reveal(save_size);
    reveal(save_fits);
    lemma_save_layout(p, n);
    lemma_disa_layout(a, b);
    lemma_layout(a);
    if b is Some {
        lemma_layout(b->0);
        assert(layout(b->0).ivfc4_len == n * p.block_type.len());
    }
}

/// With more blocks save data does not become shorter.
pub proof fn law_more_blocks_need_more(p: SaveDataFormatParam, m: int, n: int)
    requires
        save_fits(p, m),
        save_fits(p, n),
        m <= n,
    ensures
        save_size(p, m) <= save_size(p, n),
{
    reveal(save_size);
    reveal(save_fits);
    let a = save_param_a(p, m);
    let b = save_param_b(p, m);
    let c = save_param_a(p, n);
    let d = save_param_b(p, n);
    let bl = p.block_type.len();
    lemma_save_layout(p, m);
    lemma_save_layout(p, n);
    let l = save_layout(p, m);
    let k = save_layout(p, n);
    vstd::arithmetic::mul::lemma_mul_inequality(m, n, bl);
    if p.duplicate_data {
        vstd::arithmetic::mul::lemma_mul_inequality(l.data_block_count, k.data_block_count, bl);
        lemma_counted_grows(
            l.fat_offset + (l.data_block_count + 1) * 8,
            k.fat_offset + (k.data_block_count + 1) * 8,
            bl,
        );
    } else {
        lemma_counted_grows(
            l.file_table_offset + (p.max_file + 1) * 48,
            k.file_table_offset + (p.max_file + 1) * 48,
            bl,
        );
        lemma_layout_grows(b->0, d->0);
    }
    assert(l.len_a <= k.len_a);
    lemma_layout_grows(a, c);
    lemma_disa_grows(a, b, c, d);
}

/// The capacity is the largest number of blocks that fits in a length: so many blocks fit, and
/// fewer do, and more do not. It is 0 where no block fits.
pub proof fn law_capacity_is_largest(p: SaveDataFormatParam, disa_len: int, r: int)
    requires
        disa_len >= 0,
        format_fits(p, disa_len),
        capacity_is(p, disa_len, r),
    ensures
        r == 0 <==> save_size(p, 1) > disa_len,
        forall|n: int| #[trigger]
            save_fits(p, n) ==> (save_size(p, n) <= disa_len <==> n <= r),
{
    let bl = p.block_type.len();
    vstd::arithmetic::div_mod::lemma_div_pos_is_pos(disa_len, bl);
    assert(save_fits(p, 1));
    assert(save_fits(p, r + 1));
    assert forall|n: int| #[trigger] save_fits(p, n) implies (save_size(p, n) <= disa_len <==> n
        <= r) by {
        assert(1 <= n) by {
            reveal(save_fits);
        }
        if n <= r {
            assert(save_fits(p, r));
            law_more_blocks_need_more(p, n, r);
        } else {
            law_more_blocks_need_more(p, r + 1, n);
        }
    }
}

/// Save data, as a file system.
pub struct SaveData {
    pub disa: Disa<SaveSigner>,
    pub archive: Archive,
}

impl SaveData {
    pub fn calculate_info(param: &SaveDataFormatParam, block_count: usize) -> (r: SaveDataInfo)
        requires
            save_fits(*param, block_count as int),
        ensures
            info_as(r, *param, block_count as int),
    {
        proof {
            reveal(save_fits);
            lemma_save_layout(*param, block_count as int);
            lemma_counted((param.max_dir + 2) * 40, param.block_type.len());
            lemma_counted((param.max_file + 1) * 48, param.block_type.len());
        }
        let block_len: usize = param.block_type.block_len();
        let dir_hash_offset: usize = SAVE_HEADER_LEN + FS_INFO_LEN;
        let file_hash_offset: usize = dir_hash_offset + param.dir_buckets * 4;
        let fat_offset: usize = file_hash_offset + param.file_buckets * 4;
        let dir_table_len: usize = (param.max_dir + 2) * 40;
        let file_table_len: usize = (param.max_file + 1) * 48;
        if param.duplicate_data {
            let data_len: usize = align_up(dir_table_len, block_len) + align_up(
                file_table_len,
                block_len,
            ) + block_count * block_len;
            let data_block_count: usize = data_len / block_len;
            let fat_len: usize = (data_block_count + 1) * 8;
            let data_offset: usize = align_up(fat_offset + fat_len, block_len);
            let param_a = DifiPartitionParam {
                dpfs_level2_block_len: 128,
                dpfs_level3_block_len: 4096,
                ivfc_level1_block_len: 512,
                ivfc_level2_block_len: 512,
                ivfc_level3_block_len: 4096,
                ivfc_level4_block_len: 4096,
                data_len: data_offset + data_len,
                external_ivfc_level4: false,
            };
            SaveDataInfo {
                param_a,
                param_b: None,
                dir_hash_offset,
                file_hash_offset,
                fat_offset,
                data_block_count,
                data_offset,
                dir_table_offset: 0,
                file_table_offset: 0,
            }
        } else {
            let dir_table_offset: usize = fat_offset + (block_count + 1) * 8;
            let file_table_offset: usize = dir_table_offset + dir_table_len;
            let inner_a_len: usize = align_up(file_table_offset + file_table_len, block_len);
            let inner_b_len: usize = block_count * block_len;
            let param_a = DifiPartitionParam {
                dpfs_level2_block_len: 128,
                dpfs_level3_block_len: 4096,
                ivfc_level1_block_len: 512,
                ivfc_level2_block_len: 512,
                ivfc_level3_block_len: 4096,
                ivfc_level4_block_len: block_len,
                data_len: inner_a_len,
                external_ivfc_level4: false,
            };
            let param_b = DifiPartitionParam {
                data_len: inner_b_len,
                external_ivfc_level4: true,
                ..param_a
            };
            SaveDataInfo {
                param_a,
                param_b: Some(param_b),
                dir_hash_offset,
                file_hash_offset,
                fat_offset,
                data_block_count: block_count,
                data_offset: 0,
                dir_table_offset,
                file_table_offset,
            }
        }
    }

    pub fn calculate_size(param: &SaveDataFormatParam, block_count: usize) -> (r: usize)
        requires
            save_fits(*param, block_count as int),
        ensures
            r == save_size(*param, block_count as int),
    {
        let info = SaveData::calculate_info(param, block_count);
        proof {
            reveal(save_size);
            reveal(save_fits);
        }
        Disa::<SaveSigner>::calculate_size(&info.param_a, info.param_b.as_ref())
    }

    /// The number of blocks that save data of a length has, or 0 where there is no space for one.
    pub fn calculate_capacity(param: &SaveDataFormatParam, disa_len: usize) -> (r: usize)
        requires
            format_fits(*param, disa_len as int),
        ensures
            capacity_is(*param, disa_len as int, r as int),
    {
        let min_disa_len: usize = SaveData::calculate_size(param, 1);
        if min_disa_len > disa_len {
            return 0;
        }
        let block_len: usize = param.block_type.block_len();
        let mut min_block: usize = 1;
        let mut max_block: usize = disa_len / block_len + 1;
        proof {
            let bl = block_len as int;
            assert(save_fits(*param, max_block as int));
            lemma_save_size(*param, max_block as int);
            lemma_save_size(*param, 1);
            vstd::arithmetic::div_mod::lemma_fundamental_div_mod(disa_len as int, bl);
            assert(max_block * bl > disa_len) by (nonlinear_arith)
                requires
                    max_block == disa_len as int / bl + 1,
                    disa_len == bl * (disa_len as int / bl) + disa_len as int % bl,
                    disa_len as int % bl < bl,
                    bl > 0,
            ;
        }
        while max_block - min_block > 1
            invariant
                1 <= min_block < max_block <= disa_len as int / param.block_type.len() + 1,
                format_fits(*param, disa_len as int),
                save_size(*param, min_block as int) <= disa_len,
                save_size(*param, max_block as int) > disa_len,
            decreases max_block - min_block,
        {
            let mid_block: usize = min_block + (max_block - min_block) / 2;
            assert(save_fits(*param, mid_block as int));
            let required_len: usize = SaveData::calculate_size(param, mid_block);
            if required_len > disa_len {
                max_block = mid_block;
            } else {
                min_block = mid_block;
            }
        }
        assert(max_block == min_block + 1);
        min_block
    }
}

/// Save data of a length can be made.
pub open spec fn format_fits(p: SaveDataFormatParam, disa_len: int) -> bool {
    forall|n: int| 1 <= n <= disa_len / p.block_type.len() + 1 ==> #[trigger] save_fits(p, n)
}

/// The number of blocks fits in the length, and one more block does not. It is 0 where not even
/// one block fits.
pub open spec fn capacity_is(p: SaveDataFormatParam, disa_len: int, n: int) -> bool {
    if save_size(p, 1) > disa_len {
        n == 0
    } else {
        &&& 1 <= n <= disa_len / p.block_type.len()
        &&& save_size(p, n) <= disa_len < save_size(p, n + 1)
    }
}

pub proof fn lemma_block_lens(p: DifiPartitionParam)
    requires
        p.dpfs_level2_block_len == 128,
        p.dpfs_level3_block_len == 4096,
        p.ivfc_level1_block_len == 512,
        p.ivfc_level2_block_len == 512,
        p.ivfc_level3_block_len == 4096,
        p.ivfc_level4_block_len == 512 || p.ivfc_level4_block_len == 4096,
    ensures
        block_lens_ok(p),
{
    vstd::arithmetic::power2::lemma2_to64();
    assert(pow2(7) == 128);
    assert(pow2(9) == 512);
    assert(pow2(12) == 4096);
}

/// Save data is in the partitions of a container.
pub open spec fn save_held(c: Container<SaveSigner>, a: Archive) -> bool {
    &&& source_of(c.partitions@[0], save_rule()) == Ok::<Source, Error>(a.source)
    &&& holds(c.partitions@, a.source, a.volume)
}

/// The file can be opened, and what opens holds the volume.
pub open spec fn save_stored(file: Seq<u8>, signer: Option<(SaveSigner, [u8; 16])>, a: Archive) -> bool {
    &&& disa_error(file, signer) is None
    &&& forall|c: Container<SaveSigner>| #[trigger]
        container_opened(c, file) && c.info == disa_info(ContainerInfo::header(file)) ==> save_held(
            c,
            a,
        )
}

/// The file can be opened, and what opens holds the volume and can be stored again.
pub open spec fn save_kept(file: Seq<u8>, signer: Option<(SaveSigner, [u8; 16])>, a: Archive) -> bool {
    &&& save_stored(file, signer, a)
    &&& forall|c: Container<SaveSigner>| #[trigger]
        container_opened(c, file) && c.info == disa_info(ContainerInfo::header(file)) ==> a.settled(
            c.partitions@,
            save_rule(),
        )
}

/// The volume is as the parameters tell, and empty but for the root.
pub open spec fn save_blank(p: SaveDataFormatParam, n: int, a: Archive) -> bool {
    let v = a.volume;
    &&& v.sound()
    &&& v.tree() == root_tree(16, 4)
    &&& v.fs.dirs.room() == p.max_dir
    &&& v.fs.files.room() == p.max_file
    &&& v.fs.dirs.model().max() == p.max_dir + 2
    &&& v.fs.files.model().max() == p.max_file + 1
    &&& block_count(v.fat.table) == save_layout(p, n).data_block_count
    &&& v.fat.free_count() == n
    &&& v.block_len() == p.block_type.len()
}

/// In new save data the first partition begins with a header that tells how many blocks long it is.
pub open spec fn save_headed(file: Seq<u8>, p: SaveDataFormatParam) -> bool {
    forall|c: Container<SaveSigner>| #[trigger]
        container_opened(c, file) && c.info == disa_info(ContainerInfo::header(file)) ==> headed(
            c.partitions@[0].bytes(),
            p,
        )
}

/// A partition begins with a header that tells how many blocks long it is.
pub open spec fn headed(data: Seq<u8>, p: SaveDataFormatParam) -> bool {
    let bl = p.block_type.len();
    data.subrange(0, SAVE_HEADER_LEN as int) == image_head(
        save_rule(),
        (data.len() as int / bl) as u64,
        bl as u32,
    )
}

/// What has been committed can be opened again.
proof fn lemma_save_stored(d: Disa<SaveSigner>, a: Archive)
    requires
        d.inv(),
        d.named(),
        d.inner.committed(),
        a.settled(d.inner.partitions@, save_rule()),
        holds(d.inner.partitions@, a.source, a.volume),
    ensures
        save_kept(d.inner.file@, d.inner.header.signer(), a),
        forall|p: SaveDataFormatParam|
            headed(d.inner.partitions@[0].bytes(), p) ==> #[trigger] save_headed(d.inner.file@, p),
{
    let f = d.inner.file@;
    law_disa_reopen(d, d);
    assert forall|c: Container<SaveSigner>| #[trigger]
        container_opened(c, f) && c.info == disa_info(ContainerInfo::header(f)) implies save_held(
        c,
        a,
    ) && a.settled(c.partitions@, save_rule()) && c.partitions@[0].bytes()
        == d.inner.partitions@[0].bytes() by {
        let g = Disa { inner: c };
        law_disa_reopen(d, g);
        law_archive_reopen(a, d.inner.partitions@, c.partitions@, save_rule());
    }
}

/// The parts of new save data have their places.
proof fn lemma_save_spots(p: SaveDataFormatParam, n: int, at: Spots, parts: Seq<DifiPartition>)
    requires
        save_fits(p, n),
        spots_are(p, n, at),
        parts.len() == if p.duplicate_data {
            1int
        } else {
            2
        },
        parts[0].bytes().len() == save_layout(p, n).len_a,
        !p.duplicate_data ==> parts[1].bytes().len() == save_layout(p, n).len_b,
    ensures
        plan_noted(save_plan(p, n)),
        spots_ok(save_plan(p, n), at, 0x88, parts),
        0x88 <= parts[0].bytes().len(),
        p.duplicate_data ==> save_plan(p, n).block_count == n + save_plan(p, n).dir_blocks()
            + save_plan(p, n).file_blocks(),
        !p.duplicate_data ==> save_plan(p, n).block_count == n,
{
    reveal(save_fits);
    lemma_save_layout(p, n);
    let q = save_plan(p, n);
    lemma_counted(q.dir_len(), q.block_len as int);
    lemma_counted(q.file_len(), q.block_len as int);
    assert(q.dir_len() == (p.max_dir + 2) * 40);
    assert(q.file_len() == (p.max_file + 1) * 48);
}

/// Where the parts of new save data go.
pub open spec fn spots_are(p: SaveDataFormatParam, n: int, at: Spots) -> bool {
    let l = save_layout(p, n);
    &&& at.dir_hash == l.dir_hash_offset
    &&& at.file_hash == l.file_hash_offset
    &&& at.fat == l.fat_offset
    &&& at.data == l.data_offset
    &&& at.dir_table == l.dir_table_offset
    &&& at.file_table == l.file_table_offset
}

/// The container of new save data can be made.
proof fn lemma_save_disa(p: SaveDataFormatParam, n: int, i: SaveDataInfo)
    requires
        save_fits(p, n),
        info_as(i, p, n),
    ensures
        disa_fits(i.param_a, i.param_b),
        block_lens_ok(i.param_a),
        i.param_b matches Some(b) ==> block_lens_ok(b),
        disa_layout(i.param_a, i.param_b).end == save_size(p, n),
        SECONDARY_TABLE + disa_layout(i.param_a, i.param_b).table_len <= save_size(p, n),
{
    reveal(save_fits);
    reveal(save_size);
    lemma_save_layout(p, n);
    lemma_block_lens(i.param_a);
    if i.param_b is Some {
        lemma_block_lens(i.param_b->0);
    }
    lemma_disa_layout(i.param_a, i.param_b);
}

impl SaveData {
    pub open spec fn inv(&self) -> bool {
        &&& self.disa.inv()
        &&& self.archive.volume.inv()
    }

    /// The volume is sound, and all of it has its place in the container.
    pub open spec fn settled(&self) -> bool {
        &&& self.disa.named()
        &&& self.archive.settled(self.disa.inner.partitions@, save_rule())
    }

    fn get_signer(save_data_type: SaveDataType) -> (r: Option<(SaveSigner, [u8; 16])>)
        ensures
            r == save_data_type.signer(),
    {
        match save_data_type {
            SaveDataType::Bare => None,
            SaveDataType::Nand(key, id) => Some((SaveSigner::Nand(id), key)),
            SaveDataType::Sd(key, id) => Some((SaveSigner::Sd(id), key)),
            SaveDataType::Cart(key) => Some((SaveSigner::Cart, key)),
        }
    }

    /// Makes a new volume and stores it in a container that has just been formatted.
    #[verifier::rlimit(80)]
    fn fill(
        disa: &mut Disa<SaveSigner>,
        param: &SaveDataFormatParam,
        block_count: usize,
        info: &SaveDataInfo,
    ) -> (r: Result<Archive, Error>)
        requires
            save_fits(*param, block_count as int),
            info_as(*info, *param, block_count as int),
            old(disa).inv(),
            old(disa).named(),
            has_lens(old(disa).inner, info.param_a, info.param_b),
        ensures
            final(disa).inv(),
            final(disa).inner.file@.len() == old(disa).inner.file@.len(),
            final(disa).inner.header.signer() == old(disa).inner.header.signer(),
            save_headed(final(disa).inner.file@, *param),
            r matches Ok(a) && save_blank(*param, block_count as int, a) && save_kept(
                final(disa).inner.file@,
                final(disa).inner.header.signer(),
                a,
            ),
    {
        let ghost n = block_count as int;
        let ghost d = *disa;
        let ghost p0 = *param;
        let at = Spots {
            dir_hash: info.dir_hash_offset,
            file_hash: info.file_hash_offset,
            fat: info.fat_offset,
            data: info.data_offset,
            dir_table: info.dir_table_offset,
            file_table: info.file_table_offset,
        };
        let block_len: usize = param.block_type.block_len();
        let plan = Plan {
            block_len,
            block_count: info.data_block_count,
            max_dir: param.max_dir,
            dir_buckets: param.dir_buckets,
            max_file: param.max_file,
            file_buckets: param.file_buckets,
            layout: MetaLayout {
                dir_key_len: SAVE_KEY_LEN,
                dir_info_len: SAVE_DIR_LEN,
                file_key_len: SAVE_KEY_LEN,
                file_info_len: SAVE_FILE_LEN,
            },
            in_blocks: param.duplicate_data,
        };
        assert(d.inner.partition_ok(0));
        let len: usize = disa.inner.partitions[0].len();
        if disa.inner.partitions.len() == 2 {
            assert(d.inner.partition_ok(1));
            let _other: usize = disa.inner.partitions[1].len();
        }
        proof {
            let parts = d.inner.partitions@;
            reveal(save_fits);
            assert(plan == save_plan(*param, n));
            lemma_save_spots(*param, n, at, parts);
        }
        let blank = match Blank::new(&plan) {
            Ok(b) => b,
            Err(e) => {
                return make_error(e);
            },
        };
        let ghost b = blank;
        let mut archive = place(blank, &plan, &at);
        proof {
            lemma_placed(plan, at, archive, b, 0x88, d.inner.partitions@);
        }
        let rule = get_rule();
        if let Err(e) = archive.create(&mut disa.inner, &rule, (len / block_len) as u64) {
            return make_error(e);
        }
        proof {
            lemma_still_named(d, *disa);
            lemma_save_stored(*disa, archive);
            let data = disa.inner.partitions@[0].bytes();
            assert(data.len() == len);
            assert(archive.source.info.block_len == block_len);
            assert(headed(data, p0));
            assert(save_headed(disa.inner.file@, p0));
        }
        Ok(archive)
    }

    /// Makes new save data that fills a file.
    #[verifier::rlimit(40)]
    pub fn format(
        file: &mut Vec<u8>,
        save_data_type: SaveDataType,
        param: &SaveDataFormatParam,
    ) -> (r: Result<(), Error>)
        requires
            format_fits(*param, old(file)@.len() as int),
        ensures
            save_size(*param, 1) > old(file)@.len() ==> r == Err::<(), Error>(Error::NoSpace)
                && final(file)@ == old(file)@,
            save_size(*param, 1) <= old(file)@.len() ==> {
                &&& r == Ok::<(), Error>(())
                &&& save_made(final(file)@, save_data_type, *param, old(file)@.len() as int)
            },
    {
        let len: usize = file.len();
        let block_count: usize = SaveData::calculate_capacity(param, len);
        if block_count == 0 {
            return make_error(Error::NoSpace);
        }
        let ghost n = block_count as int;
        assert(save_fits(*param, n));
        let info = SaveData::calculate_info(param, block_count);
        proof {
            lemma_save_disa(*param, n, info);
        }
        if let Err(e) = Disa::format(
            file,
            SaveData::get_signer(save_data_type),
            &info.param_a,
            info.param_b.as_ref(),
        ) {
            return make_error(e);
        }
        let now: usize = file.len();
        let copy = copy_range(file, 0, now);
        assert(copy@ =~= file@);
        let mut disa = match Disa::new(copy, SaveData::get_signer(save_data_type)) {
            Ok(d) => d,
            Err(e) => {
                return make_error(e);
            },
        };
        let archive = match SaveData::fill(&mut disa, param, block_count, &info) {
            Ok(a) => a,
            Err(e) => {
                return make_error(e);
            },
        };
        let n_out: usize = disa.inner.file.len();
        *file = copy_range(&disa.inner.file, 0, n_out);
        proof {
            assert(file@ =~= disa.inner.file@);
            assert(save_blank(*param, n, archive));
        }
        Ok(())
    }

    /// Opens save data.
    pub fn new(file: Vec<u8>, save_data_type: SaveDataType) -> (r: Result<SaveData, Error>)
        ensures
            save_open_gives(file@, save_data_type, r),
    {
        let ghost f = file@;
        let mut disa = match Disa::new(file, SaveData::get_signer(save_data_type)) {
            Ok(d) => d,
            Err(e) => {
                return make_error(e);
            },
        };
        let ghost d = disa;
        let rule = get_rule();
        let found = Archive::open(&mut disa.inner, &rule);
        proof {
            lemma_views_same(
                d.inner.partitions@,
                disa.inner.partitions@,
                found->Ok_0.source,
            );
            assert(container_opened(d.inner, f) && d.inner.info == disa_info(
                ContainerInfo::header(f),
            ));
            assert forall|a: Archive| #[trigger]
                save_stored(f, save_data_type.signer(), a) implies save_held(d.inner, a) by {}
        }
        match found {
            Ok(archive) => {
                let s = SaveData { disa, archive };
                proof {
                    lemma_views_same(
                        d.inner.partitions@,
                        disa.inner.partitions@,
                        archive.source,
                    );
                    lemma_views_back(d.inner.partitions@, disa.inner.partitions@, archive.source);
                    assert(save_seen(d.inner, archive));
                }
                Ok(s)
            },
            Err(e) => Err(e),
        }
    }

    /// Stores everything that has been changed.
    pub fn commit(&mut self) -> (r: Result<(), Error>)
        requires
            old(self).inv(),
        ensures
            final(self).inv(),
            final(self).disa.inner.file@.len() == old(self).disa.inner.file@.len(),
            final(self).disa.inner.header.signer() == old(self).disa.inner.header.signer(),
            lead_kept(
                old(self).disa.inner.header.signer() is Some,
                old(self).disa.inner.file@,
                final(self).disa.inner.file@,
            ),
            old(self).settled() ==> {
                &&& r == Ok::<(), Error>(())
                &&& final(self).settled()
                &&& files_as_before(old(self).archive.volume, final(self).archive.volume)
                &&& old(self).archive.volume.sound() ==> final(self).archive.volume.sound()
                &&& save_kept(
                    final(self).disa.inner.file@,
                    final(self).disa.inner.header.signer(),
                    final(self).archive,
                )
            },
    {
        let ghost d = self.disa;
        let ghost a = self.archive;
        let r = self.archive.commit(&mut self.disa.inner);
        proof {
            if d.named() && a.settled(d.inner.partitions@, save_rule()) {
                lemma_still_named(d, self.disa);
                lemma_save_stored(self.disa, self.archive);
            }
        }
        r
    }

    /// Tells how much of the save data is in use.
    pub fn stat(&mut self) -> (r: Result<Stat, Error>)
        requires
            old(self).inv(),
        ensures
            final(self).inv(),
            final(self).disa == old(self).disa,
            same_volume(old(self).archive.volume, final(self).archive.volume),
            old(self).archive.volume.sound() ==> final(self).archive.volume.sound() && (
            r matches Ok(s) && stat_is(s, old(self).archive.volume)),
    {
        self.archive.volume.stat()
    }
}

/// What the container holds is what has been opened.
pub open spec fn save_seen(c: Container<SaveSigner>, a: Archive) -> bool {
    &&& source_of(c.partitions@[0], save_rule()) == Ok::<Source, Error>(a.source)
    &&& mounted(c.partitions@, a.source, a.volume, a.store)
}

/// Opening save data fails with an error: that of the container, that of the header, or that
/// of the volume where the partitions hold none.
pub open spec fn save_refused(
    file: Seq<u8>,
    signer: Option<(SaveSigner, [u8; 16])>,
    e: Error,
) -> bool {
    if disa_error(file, signer) is Some {
        disa_error(file, signer) == Some(e)
    } else {
        exists|c: Container<SaveSigner>| #[trigger]
            container_opened(c, file) && c.info == disa_info(ContainerInfo::header(file)) && (
            match source_of(c.partitions@[0], save_rule()) {
                Err(x) => x == e,
                Ok(src) => mount_refused(c.partitions@, src, e) && forall|u: Volume| !#[trigger] holds(
                    c.partitions@,
                    src,
                    u,
                ),
            })
    }
}

/// The save data has been opened on a file.
pub open spec fn save_opened(s: SaveData, file: Seq<u8>) -> bool {
    exists|c: Container<SaveSigner>| #[trigger]
        container_opened(c, file) && c.info == disa_info(ContainerInfo::header(file)) && save_seen(
            c,
            s.archive,
        ) && s.disa.inner == (Container { partitions: s.disa.inner.partitions, ..c }) && parts_same(
            c.partitions@,
            s.disa.inner.partitions@,
        )
}

/// What opening save data gives: the archive that the file holds, or an error that says why the
/// file holds none.
pub open spec fn save_open_gives(
    file: Seq<u8>,
    t: SaveDataType,
    r: Result<SaveData, Error>,
) -> bool {
    &&& r matches Ok(s) ==> {
        &&& s.inv()
        &&& s.disa.named()
        &&& s.disa.inner.header.signer() == t.signer()
        &&& save_opened(s, file)
    }
    &&& r matches Err(e) ==> save_refused(file, t.signer(), e)
    &&& forall|a: Archive| #[trigger]
        save_stored(file, t.signer(), a) ==> (r matches Ok(s) && s.archive.source == a.source
            && s.archive.volume.framed() && s.archive.store.ready(s.archive.volume) && told(
            a.source,
            s.archive.volume,
            s.archive.store,
            s.disa.inner.partitions@,
        ) && shown_as(s.disa.inner.partitions@, a.source, s.archive.volume))
}

/// New save data of a length.
pub open spec fn save_made(
    file: Seq<u8>,
    t: SaveDataType,
    p: SaveDataFormatParam,
    len: int,
) -> bool {
    &&& file.len() == len
    &&& save_headed(file, p)
    &&& exists|a: Archive, n: int| #[trigger]
        save_blank(p, n, a) && capacity_is(p, len, n) && save_kept(file, t.signer(), a)
}

/// Save data that has been committed reads back when it is opened again: it has the same
/// directories and files, and each file reads as it did before the commit.
pub proof fn law_save_reads_back(
    before: Archive,
    a: Archive,
    file: Seq<u8>,
    t: SaveDataType,
    s: SaveData,
)
    requires
        before.volume.sound(),
        a.volume.sound(),
        files_as_before(before.volume, a.volume),
        save_stored(file, t.signer(), a),
        save_open_gives(file, t, Ok(s)),
    ensures
        reads_back(before.volume, s.archive.volume),
{
    let c = choose|c: Container<SaveSigner>| #[trigger]
        container_opened(c, file) && c.info == disa_info(ContainerInfo::header(file)) && save_seen(
            c,
            s.archive,
        ) && s.disa.inner == (Container { partitions: s.disa.inner.partitions, ..c }) && parts_same(
            c.partitions@,
            s.disa.inner.partitions@,
        );
    assert(save_held(c, a));
    lemma_views_same(c.partitions@, s.disa.inner.partitions@, a.source);
    law_held_volume_reads_back(
        c.partitions@,
        a.source,
        a.volume,
        s.archive.volume,
        s.archive.store,
    );
    let n = a.source.data_stored(c.partitions@);
    lemma_read_back_before(before.volume, a.volume, s.archive.volume, n);
    assert(before.volume.data.bytes().len() <= n);
    lemma_reads_back_whole(before.volume, s.archive.volume, n);
}

/// New save data can be opened, and has nothing but the root then, and as many directories, files
/// and blocks are free as the parameters and the length tell.
pub proof fn law_new_save_stat(
    file: Seq<u8>,
    t: SaveDataType,
    p: SaveDataFormatParam,
    len: int,
    r: Result<SaveData, Error>,
    st: Stat,
)
    requires
        save_made(file, t, p, len),
        save_open_gives(file, t, r),
    ensures
        r matches Ok(s) && s.settled() && trees_same(root_tree(16, 4), s.archive.volume.tree()) && (
        stat_is(st, s.archive.volume) ==> {
            &&& st.block_len == p.block_type.len()
            &&& capacity_is(p, len, st.free_blocks as int)
            &&& st.total_blocks == save_layout(p, st.free_blocks as int).data_block_count
            &&& st.free_files == st.total_files == p.max_file
            &&& st.free_dirs == p.max_dir
            &&& st.total_dirs == p.max_dir + 1
        }),
{
    let (a, n) = choose|a: Archive, n: int| #[trigger]
        save_blank(p, n, a) && capacity_is(p, len, n) && save_kept(file, t.signer(), a);
    assert(save_stored(file, t.signer(), a));
    let s = r->Ok_0;
    law_save_reads_back(a, a, file, t, s);
    law_opened_save_is_settled(a, file, t, s);
}

/// Save data that has been made or committed can be changed and stored again once it is opened.
pub proof fn law_opened_save_is_settled(a: Archive, file: Seq<u8>, t: SaveDataType, s: SaveData)
    requires
        save_kept(file, t.signer(), a),
        save_open_gives(file, t, Ok(s)),
    ensures
        s.settled(),
{
    let c = choose|c: Container<SaveSigner>| #[trigger]
        container_opened(c, file) && c.info == disa_info(ContainerInfo::header(file)) && save_seen(
            c,
            s.archive,
        ) && s.disa.inner == (Container { partitions: s.disa.inner.partitions, ..c }) && parts_same(
            c.partitions@,
            s.disa.inner.partitions@,
        );
    lemma_settled_same(a, c.partitions@, s.disa.inner.partitions@, save_rule());
    lemma_opened_settled(a, s.archive, s.disa.inner.partitions@, save_rule());
}

} // verus!
