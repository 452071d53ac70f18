use crate::diff::Diff;
use crate::ext_data::{get_partition, ExtDataFormatParam, ExtSigner};
use crate::misc::divide_up;
use crate::save_data::SaveDataFormatParam;
use vstd::prelude::*;

verus! {

use crate::diff::{diff_fits, diff_layout};
use crate::difi_layout::{
    layout, lemma_counted_multiple, lemma_ivfc_aligned, lemma_layout, DifiPartitionParam,
};
use crate::disa::disa_layout;
use crate::ext_data::{ext_fits, ext_layout, ext_partition, quota_blocks, QUOTA_LEN};
use crate::misc::{counted, lemma_counted};
use crate::save_data::{format_fits, save_fits, save_layout, save_param_a, save_param_b};

/// A number of directories, files or buckets up to which archives are always made.
pub const SMALL_COUNT: usize = 0x10_0000;

/// A length up to which save data is always made.
pub const SMALL_LEN: usize = 0x1000_0000;

/// A partition with the usual block lengths.
pub open spec fn usual(p: DifiPartitionParam) -> bool {
    &&& p.dpfs_level2_block_len == 128
    &&& p.dpfs_level3_block_len == 4096
    &&& p.ivfc_level1_block_len == 512
    &&& p.ivfc_level2_block_len == 512
    &&& p.ivfc_level3_block_len == 4096
    &&& p.ivfc_level4_block_len == 512 || p.ivfc_level4_block_len == 4096
    &&& p.data_len > 0
}

/// A partition is not much longer than four times its data.
proof fn lemma_partition_bound(p: DifiPartitionParam)
    requires
        usual(p),
    ensures
        0 <= layout(p).partition_len <= 4 * p.data_len + 0x10000,
        0 <= layout(p).descriptor_len <= p.data_len + 0x10000,
        p.align() == 4096,
        p.ok(),
{
    let l = layout(p);
    lemma_layout(p);
    let b4 = p.ivfc_level4_block_len as int;
    lemma_counted(l.ivfc4_len, b4);
    lemma_counted(l.ivfc3_len, 4096);
    lemma_counted(l.ivfc2_len, 512);
    lemma_counted(l.ivfc1_len, 512);
    lemma_ivfc_aligned(l.ivfc1_len, l.ivfc2_len, 512);
    lemma_ivfc_aligned(l.ivfc2_offset + l.ivfc2_len, l.ivfc3_len, 4096);
    lemma_ivfc_aligned(l.ivfc3_offset + l.ivfc3_len, l.ivfc4_len, b4);
    let dup = if p.external_ivfc_level4 {
        l.ivfc4_offset
    } else {
        l.ivfc4_offset + l.ivfc4_len
    };
    lemma_counted(dup, 4096);
    let blocks3 = l.dpfs3_len / 4096;
    lemma_counted(blocks3, 32);
    lemma_counted(counted(blocks3, 32) * 4, 128);
    lemma_counted(l.dpfs2_len / 128, 32);
    lemma_counted(l.dpfs2_offset + l.dpfs2_len * 2, 4096);
    lemma_counted(l.dpfs3_offset + l.dpfs3_len * 2, b4);
    let d = p.data_len as int;
    assert(l.ivfc3_len <= d / 16 + 32) by {
        if b4 == 512 {
            assert(counted(d, b4) * 512 < d + 512);
        } else {
            assert(counted(d, b4) * 4096 < d + 4096);
        }
    }
    assert(l.ivfc2_len <= d / 2048 + 64);
    assert(l.ivfc1_len <= d / 32768 + 64);
    assert(l.master_len <= d / 32768 + 96);
    assert(l.ivfc2_offset <= d / 32768 + 64 + 512);
    assert(l.ivfc3_offset <= d / 1024 + 5000);
    assert(l.ivfc4_offset <= d / 8 + 10000);
    assert(l.dpfs3_len <= d + d / 8 + 15000);
    assert(l.dpfs2_len <= l.dpfs3_len / 4096 + 300);
    assert(l.dpfs1_len <= l.dpfs2_len + 300);
}

/// Save data in a container is not much longer than six times its parts.
proof fn lemma_disa_bound(p: SaveDataFormatParam, n: int)
    requires
        0 < save_layout(p, n).len_a <= usize::MAX,
        0 <= save_layout(p, n).len_b <= usize::MAX,
        !p.duplicate_data ==> save_layout(p, n).len_b > 0,
    ensures
        save_param_a(p, n).ok(),
        save_param_b(p, n) matches Some(b) ==> b.ok(),
        disa_layout(save_param_a(p, n), save_param_b(p, n)).end <= 6 * (save_layout(p, n).len_a
            + save_layout(p, n).len_b) + 0x10_0000,
{
    let a = save_param_a(p, n);
    let d = disa_layout(a, save_param_b(p, n));
    lemma_partition_bound(a);
    match save_param_b(p, n) {
        None => {
            lemma_counted(0x200 + layout(a).descriptor_len, 8);
            lemma_counted(d.primary + layout(a).descriptor_len, 4096);
        },
        Some(b) => {
            lemma_partition_bound(b);
            lemma_counted(layout(a).descriptor_len, 8);
            lemma_counted(d.descriptor_b_offset + layout(b).descriptor_len, 8);
            lemma_counted(0x200 + d.table_len, 8);
            lemma_counted(d.primary + d.table_len, 4096);
            lemma_counted(d.partition_a_offset + layout(a).partition_len, 4096);
        },
    }
}

/// The blocks that the tables of save data take.
pub open spec fn table_blocks(p: SaveDataFormatParam) -> int {
    if p.duplicate_data {
        counted((p.max_dir + 2) * 40, p.block_type.len()) + counted(
            (p.max_file + 1) * 48,
            p.block_type.len(),
        )
    } else {
        0
    }
}

/// The parts of save data are not much longer than what they hold.
proof fn lemma_parts_bound(p: SaveDataFormatParam, n: int)
    requires
        1 <= n,
    ensures
        ({
            let l = save_layout(p, n);
            let bl = p.block_type.len();
            &&& l.data_block_count == table_blocks(p) + n
            &&& 0 < l.len_a
            &&& 0 <= l.len_b
            &&& !p.duplicate_data ==> l.len_b > 0
            &&& table_blocks(p) * bl <= (p.max_dir + 2) * 40 + (p.max_file + 1) * 48 + 0x2000
            &&& l.len_a + l.len_b <= 0x6000 + p.dir_buckets * 4 + p.file_buckets * 4 + (p.max_dir
                + 2) * 40 + (p.max_file + 1) * 48 + l.data_block_count * 8 + n * bl
        }),
{
    let l = save_layout(p, n);
    let bl = p.block_type.len();
    let dir_len = (p.max_dir + 2) * 40;
    let file_len = (p.max_file + 1) * 48;
    let x = counted(dir_len, bl);
    let y = counted(file_len, bl);
    lemma_counted(dir_len, bl);
    lemma_counted(file_len, bl);
    assert(n * bl > 0) by (nonlinear_arith)
        requires
            n >= 1,
            bl > 0,
    ;
    if p.duplicate_data {
        assert(x * bl + y * bl + n * bl == (x + y + n) * bl) by (nonlinear_arith);
        lemma_counted_multiple(x + y + n, bl);
        lemma_counted(l.fat_offset + (l.data_block_count + 1) * 8, bl);
        assert((x + y) * bl == x * bl + y * bl) by (nonlinear_arith);
    } else {
        lemma_counted(l.file_table_offset + file_len, bl);
    }
}

/// Save data of a usual size can be made with a number of blocks.
proof fn lemma_save_fits(p: SaveDataFormatParam, n: int)
    requires
        0 < p.dir_buckets <= SMALL_COUNT,
        0 < p.file_buckets <= SMALL_COUNT,
        p.max_dir <= SMALL_COUNT,
        p.max_file <= SMALL_COUNT,
        1 <= n <= (SMALL_LEN as int) / p.block_type.len() + 1,
    ensures
        save_fits(p, n),
{
    reveal(save_fits);
    let bl = p.block_type.len();
    lemma_parts_bound(p, n);
    assert(n * bl <= SMALL_LEN + 4096 && n <= 0x80001) by {
        if bl == 512 {
            assert(n * 512 <= SMALL_LEN + 4096);
        } else {
            assert(n * 4096 <= SMALL_LEN + 4096);
        }
    }
    assert(table_blocks(p) <= 0x4_0000) by {
        if bl == 512 {
            assert(table_blocks(p) * 512 <= 0x800_0000);
        } else {
            assert(table_blocks(p) * 4096 <= 0x800_0000);
        }
    }
    lemma_disa_bound(p, n);
}

/// The numbers of new save data can be noted, with a number of blocks.
pub open spec fn save_noted(p: SaveDataFormatParam, n: int) -> bool {
    &&& 0 < p.dir_buckets <= u32::MAX
    &&& 0 < p.file_buckets <= u32::MAX
    &&& p.max_dir + 2 <= u32::MAX
    &&& p.max_file + 1 <= u32::MAX
    &&& table_blocks(p) + n + 1 < 0x8000_0000
}

/// Where lengths have 64 bits, save data can be made if and only if its numbers can be noted.
proof fn lemma_wide_save(p: SaveDataFormatParam, n: int)
    requires
        usize::MAX == u64::MAX,
        1 <= n,
    ensures
        save_fits(p, n) == save_noted(p, n),
{
    reveal(save_fits);
    let bl = p.block_type.len();
    lemma_parts_bound(p, n);
    if save_noted(p, n) {
        assert(table_blocks(p) >= 0) by {
            lemma_counted((p.max_dir + 2) * 40, bl);
            lemma_counted((p.max_file + 1) * 48, bl);
        }
        assert(n * bl <= 0x8000_0000 * 4096) by (nonlinear_arith)
            requires
                0 <= n <= 0x8000_0000,
                0 <= bl <= 4096,
        ;
        lemma_disa_bound(p, n);
    }
}

/// Save data of a usual size can be made: up to 256 MiB, with up to 1048576 directories, files and
/// buckets.
pub proof fn law_small_save_fits(p: SaveDataFormatParam, len: int)
    requires
        0 < p.dir_buckets <= SMALL_COUNT,
        0 < p.file_buckets <= SMALL_COUNT,
        p.max_dir <= SMALL_COUNT,
        p.max_file <= SMALL_COUNT,
        0 <= len <= SMALL_LEN,
    ensures
        format_fits(p, len),
{
    let bl = p.block_type.len();
    assert forall|n: int| 1 <= n <= len / bl + 1 implies #[trigger] save_fits(p, n) by {
        assert(len / bl <= (SMALL_LEN as int) / bl) by {
            vstd::arithmetic::div_mod::lemma_div_is_ordered(len, SMALL_LEN as int, bl);
        }
        lemma_save_fits(p, n);
    }
}

/// Extra data of a usual size can be made: with up to 1048576 directories, files and buckets.
pub proof fn law_small_ext_fits(p: ExtDataFormatParam)
    requires
        0 < p.dir_buckets <= SMALL_COUNT,
        0 < p.file_buckets <= SMALL_COUNT,
        p.max_dir <= SMALL_COUNT,
        p.max_file <= SMALL_COUNT,
    ensures
        ext_fits(p),
{
    let l = ext_layout(p);
    let a = ext_partition(l.len, false);
    let q = ext_partition(QUOTA_LEN as int, true);
    lemma_counted((p.max_dir + 2) * 40, 4096);
    lemma_counted((p.max_file + 1) * 48, 4096);
    lemma_counted(l.fat_offset + (l.data_block_count + 1) * 8, 4096);
    assert(0 < l.len <= 0x1000_0000);
    lemma_partition_bound(a);
    lemma_partition_bound(q);
    lemma_counted(0x200 + layout(a).descriptor_len, 8);
    lemma_counted(diff_layout(a).primary + layout(a).descriptor_len, 4096);
    lemma_counted(0x200 + layout(q).descriptor_len, 8);
    lemma_counted(diff_layout(q).primary + layout(q).descriptor_len, 4096);
    lemma_counted(diff_layout(a).end, 0x1000);
}

/// Tells whether new save data of a length can be made. Where lengths have 64 bits, that is told
/// exactly; elsewhere of usual sizes only.
pub fn can_make_save(p: &SaveDataFormatParam, len: usize) -> (r: bool)
    ensures
        r ==> format_fits(*p, len as int),
        usize::MAX == u64::MAX ==> r == format_fits(*p, len as int),
        0 < p.dir_buckets <= SMALL_COUNT && 0 < p.file_buckets <= SMALL_COUNT && p.max_dir
            <= SMALL_COUNT && p.max_file <= SMALL_COUNT && len <= SMALL_LEN ==> r,
{
    if 0 < p.dir_buckets && p.dir_buckets <= SMALL_COUNT && 0 < p.file_buckets && p.file_buckets
        <= SMALL_COUNT && p.max_dir <= SMALL_COUNT && p.max_file <= SMALL_COUNT && len <= SMALL_LEN {
        proof {
            law_small_save_fits(*p, len as int);
        }
        return true;
    }
    if usize::MAX as u64 != u64::MAX {
        return false;
    }
    let bl: usize = p.block_type.block_len();
    let ghost most = len as int / p.block_type.len() + 1;
    proof {
        vstd::arithmetic::div_mod::lemma_div_pos_is_pos(len as int, p.block_type.len());
        assert(len as int / p.block_type.len() <= len / 512) by {
            if bl == 512 {
            } else {
            }
        }
        assert forall|n: int| 1 <= n <= most implies save_fits(*p, n) == save_noted(*p, n) by {
            lemma_wide_save(*p, n);
        }
        assert(format_fits(*p, len as int) ==> save_fits(*p, most));
    }
    if p.dir_buckets == 0 || p.dir_buckets > 0xFFFF_FFFF || p.file_buckets == 0 || p.file_buckets
        > 0xFFFF_FFFF || p.max_dir > 0xFFFF_FFFD || p.max_file > 0xFFFF_FFFE {
        return false;
    }
    let mut blocks: usize = len / bl + 1;
    if p.duplicate_data {
        proof {
            lemma_counted((p.max_dir + 2) * 40, bl as int);
            lemma_counted((p.max_file + 1) * 48, bl as int);
        }
        blocks = blocks + divide_up((p.max_dir + 2) * 40, bl) + divide_up((p.max_file + 1) * 48, bl);
    }
    blocks < 0x7FFF_FFFF
}

/// Where lengths have 64 bits, extra data can be made if and only if its numbers can be noted.
proof fn lemma_wide_ext(p: ExtDataFormatParam)
    requires
        usize::MAX == u64::MAX,
        0 < p.dir_buckets <= u32::MAX,
        0 < p.file_buckets <= u32::MAX,
        p.max_dir + 2 <= u32::MAX,
        p.max_file + 1 <= u32::MAX,
    ensures
        ext_fits(p),
{
    let l = ext_layout(p);
    let a = ext_partition(l.len, false);
    let q = ext_partition(QUOTA_LEN as int, true);
    lemma_counted((p.max_dir + 2) * 40, 4096);
    lemma_counted((p.max_file + 1) * 48, 4096);
    lemma_counted(l.fat_offset + (l.data_block_count + 1) * 8, 4096);
    assert(0 < l.len <= 0x80_0000_0000);
    lemma_partition_bound(a);
    lemma_partition_bound(q);
    lemma_counted(0x200 + layout(a).descriptor_len, 8);
    lemma_counted(diff_layout(a).primary + layout(a).descriptor_len, 4096);
    lemma_counted(0x200 + layout(q).descriptor_len, 8);
    lemma_counted(diff_layout(q).primary + layout(q).descriptor_len, 4096);
    lemma_counted(diff_layout(a).end, 0x1000);
}

/// Tells whether new extra data can be made. Where lengths have 64 bits, that is told exactly;
/// elsewhere of usual sizes only.
pub fn can_make_ext(p: &ExtDataFormatParam) -> (r: bool)
    ensures
        r ==> ext_fits(*p),
        usize::MAX == u64::MAX ==> r == ext_fits(*p),
        0 < p.dir_buckets <= SMALL_COUNT && 0 < p.file_buckets <= SMALL_COUNT && p.max_dir
            <= SMALL_COUNT && p.max_file <= SMALL_COUNT ==> r,
{
    if 0 < p.dir_buckets && p.dir_buckets <= SMALL_COUNT && 0 < p.file_buckets && p.file_buckets
        <= SMALL_COUNT && p.max_dir <= SMALL_COUNT && p.max_file <= SMALL_COUNT {
        proof {
            law_small_ext_fits(*p);
        }
        return true;
    }
    if usize::MAX as u64 != u64::MAX {
        return false;
    }
    let r = 0 < p.dir_buckets && p.dir_buckets <= 0xFFFF_FFFF && 0 < p.file_buckets
        && p.file_buckets <= 0xFFFF_FFFF && p.max_dir <= 0xFFFF_FFFD && p.max_file <= 0xFFFF_FFFE;
    proof {
        if r {
            lemma_wide_ext(*p);
        }
    }
    r
}

/// A file of extra data of a usual size can be made: up to 256 MiB.
pub proof fn law_small_file_fits(len: int)
    requires
        0 < len <= SMALL_LEN,
    ensures
        diff_fits(ext_partition(len, true)),
        quota_blocks(diff_layout(ext_partition(len, true)).end) <= u32::MAX,
{
    let q = ext_partition(len, true);
    lemma_partition_bound(q);
    lemma_counted(0x200 + layout(q).descriptor_len, 8);
    lemma_counted(diff_layout(q).primary + layout(q).descriptor_len, 4096);
    lemma_counted(diff_layout(q).end, 0x1000);
}

/// Where lengths have 64 bits, any file of extra data can be made that has up to 16 TiB.
proof fn lemma_wide_file(len: int)
    requires
        usize::MAX == u64::MAX,
        0 < len <= 0x1000_0000_0000,
    ensures
        diff_fits(ext_partition(len, true)),
{
    let q = ext_partition(len, true);
    lemma_partition_bound(q);
    lemma_counted(0x200 + layout(q).descriptor_len, 8);
    lemma_counted(diff_layout(q).primary + layout(q).descriptor_len, 4096);
}

/// A longer file has more blocks than can be noted.
proof fn lemma_too_long(len: int)
    requires
        0x1000_0000_0000 < len <= usize::MAX,
    ensures
        quota_blocks(diff_layout(ext_partition(len, true)).end) > u32::MAX,
{
    let q = ext_partition(len, true);
    lemma_partition_bound(q);
    lemma_layout(q);
    lemma_counted(0x200 + layout(q).descriptor_len, 8);
    lemma_counted(diff_layout(q).primary + layout(q).descriptor_len, 4096);
    lemma_counted(diff_layout(q).end, 0x1000);
}

/// A file of extra data can be made, and its blocks can be noted.
pub open spec fn file_fits(len: int) -> bool {
    &&& 0 < len
    &&& diff_fits(ext_partition(len, true))
    &&& quota_blocks(diff_layout(ext_partition(len, true)).end) <= u32::MAX
}

/// Tells whether a file of extra data of a length can be made. Where lengths have 64 bits, that is
/// told exactly; elsewhere of usual sizes only.
pub fn can_make_file(len: usize) -> (r: bool)
    ensures
        r ==> file_fits(len as int),
        usize::MAX == u64::MAX ==> r == file_fits(len as int),
        0 < len <= SMALL_LEN ==> r,
{
    if 0 < len && len <= SMALL_LEN {
        proof {
            law_small_file_fits(len as int);
        }
        return true;
    }
    if len == 0 || usize::MAX as u64 != u64::MAX {
        return false;
    }
    if len as u64 > 0x1000_0000_0000 {
        proof {
            lemma_too_long(len as int);
        }
        return false;
    }
    proof {
        lemma_wide_file(len as int);
    }
    let end: usize = Diff::<ExtSigner>::calculate_size(&get_partition(len, true));
    proof {
        lemma_counted(end as int, 0x1000);
    }
    divide_up(end, 0x1000) as u64 <= 0xFFFF_FFFF
}

} // verus!
