use crate::difi_layout::DifiPartitionParam;
use crate::ext_data::ExtDataFormatParam;
use crate::save_data::SaveDataFormatParam;
use vstd::prelude::*;

verus! {

use crate::diff::{diff_fits, diff_layout};
use crate::difi_layout::layout;
use crate::disa::disa_layout;
use crate::ext_data::{ext_layout, ext_meta_len, ext_partition, quota_file_len};
use crate::fits::file_fits;
use crate::misc::{aligned, counted, lemma_counted};
use crate::save_data::{save_layout, save_param_a, save_param_b};
use vstd::arithmetic::div_mod::*;

/// A number is the least multiple of another one that is not below a third.
pub open spec fn rounded_up(x: int, v: int, a: int) -> bool {
    x % a == 0 && v <= x < v + a
}

/// So many pieces of a length are needed for some bytes.
pub open spec fn pieces_for(n: int, v: int, a: int) -> bool {
    (n - 1) * a < v <= n * a
}

proof fn lemma_rounded(v: int, a: int)
    requires
        0 <= v,
        0 < a,
    ensures
        rounded_up(aligned(v, a), v, a),
        0 <= counted(v, a),
        v > 0 ==> pieces_for(counted(v, a), v, a),
        counted(v, 32) == (v + 31) / 32,
{
    lemma_counted(v, a);
    lemma_mod_multiples_basic(counted(v, a), a);
    let c = counted(v, a);
    assert((c - 1) * a == c * a - a) by (nonlinear_arith);
}

/// Where the second and further levels of hashes and data begin: a level that has four blocks or
/// more begins with a block, another one with a multiple of eight.
pub open spec fn level_begins(x: int, v: int, len: int, block_len: int) -> bool {
    rounded_up(
        x,
        v,
        if len >= 4 * block_len {
            block_len
        } else {
            8
        },
    )
}

/// The parts of a new partition. A hash of 32 bytes stands for each block of data, one for each
/// block of those hashes, and so on four times. What is kept twice has whole blocks. A bit stands
/// for each of those, in whole words of 32, a bit for each block of those bits, and a byte for that.
pub proof fn law_parts_of_partition(p: DifiPartitionParam)
    requires
        p.ok(),
    ensures
        ({
            let l = layout(p);
            &&& l.ivfc4_len == p.data_len
            &&& l.ivfc3_len % 32 == 0 && pieces_for(
                l.ivfc3_len / 32,
                l.ivfc4_len,
                p.ivfc_level4_block_len as int,
            )
            &&& l.ivfc2_len % 32 == 0 && pieces_for(
                l.ivfc2_len / 32,
                l.ivfc3_len,
                p.ivfc_level3_block_len as int,
            )
            &&& l.ivfc1_len % 32 == 0 && pieces_for(
                l.ivfc1_len / 32,
                l.ivfc2_len,
                p.ivfc_level2_block_len as int,
            )
            &&& l.master_len % 32 == 0 && pieces_for(
                l.master_len / 32,
                l.ivfc1_len,
                p.ivfc_level1_block_len as int,
            )
            &&& level_begins(
                l.ivfc2_offset,
                l.ivfc1_len,
                l.ivfc2_len,
                p.ivfc_level2_block_len as int,
            )
            &&& level_begins(
                l.ivfc3_offset,
                l.ivfc2_offset + l.ivfc2_len,
                l.ivfc3_len,
                p.ivfc_level3_block_len as int,
            )
            &&& level_begins(
                l.ivfc4_offset,
                l.ivfc3_offset + l.ivfc3_len,
                l.ivfc4_len,
                p.ivfc_level4_block_len as int,
            )
            &&& rounded_up(
                l.dpfs3_len,
                if p.external_ivfc_level4 {
                    l.ivfc4_offset
                } else {
                    l.ivfc4_offset + l.ivfc4_len
                },
                p.dpfs_level3_block_len as int,
            )
            &&& rounded_up(
                l.dpfs2_len,
                4 * ((l.dpfs3_len / (p.dpfs_level3_block_len as int) + 31) / 32),
                p.dpfs_level2_block_len as int,
            )
            &&& l.dpfs1_len == 4 * ((l.dpfs2_len / (p.dpfs_level2_block_len as int) + 31) / 32)
            &&& l.dpfs2_offset == 2 * l.dpfs1_len
            &&& rounded_up(
                l.dpfs3_offset,
                l.dpfs2_offset + 2 * l.dpfs2_len,
                p.dpfs_level3_block_len as int,
            )
            &&& l.descriptor_len == 0x44 + 0x78 + 0x50 + l.master_len
            &&& if p.external_ivfc_level4 {
                &&& rounded_up(
                    l.external_offset,
                    l.dpfs3_offset + 2 * l.dpfs3_len,
                    p.ivfc_level4_block_len as int,
                )
                &&& l.partition_len == l.external_offset + p.data_len
            } else {
                l.partition_len == l.dpfs3_offset + 2 * l.dpfs3_len
            }
        }),
{
    let l = layout(p);
    lemma_rounded(l.ivfc4_len, p.ivfc_level4_block_len as int);
    lemma_counted(l.ivfc4_len, p.ivfc_level4_block_len as int);
    lemma_rounded(l.ivfc3_len, p.ivfc_level3_block_len as int);
    lemma_counted(l.ivfc3_len, p.ivfc_level3_block_len as int);
    lemma_rounded(l.ivfc2_len, p.ivfc_level2_block_len as int);
    lemma_counted(l.ivfc2_len, p.ivfc_level2_block_len as int);
    lemma_rounded(l.ivfc1_len, p.ivfc_level1_block_len as int);
    lemma_counted(l.ivfc1_len, p.ivfc_level1_block_len as int);
    lemma_rounded(l.ivfc1_len, p.ivfc_level2_block_len as int);
    lemma_rounded(l.ivfc1_len, 8);
    lemma_rounded(l.ivfc2_offset + l.ivfc2_len, p.ivfc_level3_block_len as int);
    lemma_rounded(l.ivfc2_offset + l.ivfc2_len, 8);
    lemma_rounded(l.ivfc3_offset + l.ivfc3_len, p.ivfc_level4_block_len as int);
    lemma_rounded(l.ivfc3_offset + l.ivfc3_len, 8);
    let kept: int = if p.external_ivfc_level4 {
        l.ivfc4_offset
    } else {
        l.ivfc4_offset + l.ivfc4_len
    };
    lemma_rounded(kept, p.dpfs_level3_block_len as int);
    let n = l.dpfs3_len / (p.dpfs_level3_block_len as int);
    lemma_div_pos_is_pos(l.dpfs3_len, p.dpfs_level3_block_len as int);
    lemma_rounded(n, 32);
    lemma_rounded(counted(n, 32) * 4, p.dpfs_level2_block_len as int);
    let m = l.dpfs2_len / (p.dpfs_level2_block_len as int);
    lemma_div_pos_is_pos(l.dpfs2_len, p.dpfs_level2_block_len as int);
    lemma_rounded(m, 32);
    lemma_rounded(l.dpfs2_offset + l.dpfs2_len * 2, p.dpfs_level3_block_len as int);
    lemma_rounded(l.dpfs3_offset + l.dpfs3_len * 2, p.ivfc_level4_block_len as int);
}

/// The parts of a new container with one partition: the header up to 0x200, the second copy of the
/// table, the first one from a multiple of eight on, and the partition from a multiple of its
/// longest block on.
pub proof fn law_parts_of_one(p: DifiPartitionParam)
    requires
        p.ok(),
    ensures
        ({
            let l = diff_layout(p);
            let n = layout(p).descriptor_len;
            &&& l.table_len == n
            &&& rounded_up(l.primary, 0x200 + n, 8)
            &&& rounded_up(l.partition_offset, l.primary + n, p.align())
            &&& l.partition_len == layout(p).partition_len
            &&& l.end == l.partition_offset + l.partition_len
        }),
{
    law_parts_of_partition(p);
    crate::difi_layout::lemma_layout(p);
    let n = layout(p).descriptor_len;
    lemma_rounded(0x200 + n, 8);
    lemma_rounded(diff_layout(p).primary + n, p.align());
}

/// The parts of a new container with one or two partitions. The table has the descriptors of both,
/// each filled up to a multiple of eight.
pub proof fn law_parts_of_two(a: DifiPartitionParam, b: Option<DifiPartitionParam>)
    requires
        a.ok(),
        b matches Some(q) ==> q.ok(),
    ensures
        ({
            let l = disa_layout(a, b);
            let n = layout(a).descriptor_len;
            &&& l.descriptor_a_len == n
            &&& l.partition_a_len == layout(a).partition_len
            &&& rounded_up(l.primary, 0x200 + l.table_len, 8)
            &&& rounded_up(l.partition_a_offset, l.primary + l.table_len, a.align())
            &&& match b {
                None => {
                    &&& l.table_len == n
                    &&& l.end == l.partition_a_offset + l.partition_a_len
                    &&& l.descriptor_b_offset == 0 && l.descriptor_b_len == 0
                    &&& l.partition_b_offset == 0 && l.partition_b_len == 0
                },
                Some(q) => {
                    &&& rounded_up(l.descriptor_b_offset, n, 8)
                    &&& l.descriptor_b_len == layout(q).descriptor_len
                    &&& rounded_up(l.table_len, l.descriptor_b_offset + l.descriptor_b_len, 8)
                    &&& rounded_up(
                        l.partition_b_offset,
                        l.partition_a_offset + l.partition_a_len,
                        q.align(),
                    )
                    &&& l.partition_b_len == layout(q).partition_len
                    &&& l.end == l.partition_b_offset + l.partition_b_len
                },
            }
        }),
{
    law_parts_of_partition(a);
    crate::difi_layout::lemma_layout(a);
    let l = disa_layout(a, b);
    let n = layout(a).descriptor_len;
    if let Some(q) = b {
        law_parts_of_partition(q);
        crate::difi_layout::lemma_layout(q);
        lemma_rounded(n, 8);
        lemma_rounded(l.descriptor_b_offset + l.descriptor_b_len, 8);
        lemma_rounded(0x200 + l.table_len, 8);
        lemma_rounded(l.primary + l.table_len, a.align());
        lemma_rounded(l.partition_a_offset + l.partition_a_len, q.align());
    } else {
        lemma_rounded(0x200 + l.table_len, 8);
        lemma_rounded(l.primary + l.table_len, a.align());
    }
}

/// The parts of new save data with some blocks for files: the header and the description up to
/// 0x88, the buckets, the table of blocks, and then, where all data are kept twice, blocks for the
/// directories, the files and the content, else the directories and the files, with the content in
/// a partition of its own.
pub proof fn law_parts_of_save_data(p: SaveDataFormatParam, n: int)
    requires
        1 <= n,
    ensures
        ({
            let l = save_layout(p, n);
            let b = p.block_type.len();
            let dirs = 40 * (p.max_dir + 2);
            let files = 48 * (p.max_file + 1);
            &&& l.dir_hash_offset == 0x20 + 0x68
            &&& l.file_hash_offset == l.dir_hash_offset + 4 * p.dir_buckets
            &&& l.fat_offset == l.file_hash_offset + 4 * p.file_buckets
            &&& if p.duplicate_data {
                exists|x: int, y: int|
                    #![trigger pieces_for(x, dirs, b), pieces_for(y, files, b)]
                    pieces_for(x, dirs, b) && pieces_for(y, files, b) && l.data_block_count == n + x
                        + y
            } else {
                &&& l.data_block_count == n
                &&& l.dir_table_offset == l.fat_offset + 8 * (n + 1)
                &&& l.file_table_offset == l.dir_table_offset + dirs
                &&& rounded_up(l.len_a, l.file_table_offset + files, b)
                &&& l.len_b == n * b
            }
            &&& p.duplicate_data ==> {
                &&& rounded_up(l.data_offset, l.fat_offset + 8 * (l.data_block_count + 1), b)
                &&& l.len_a == l.data_offset + l.data_block_count * b
                &&& l.len_b == 0
            }
        }),
{
    let l = save_layout(p, n);
    let b = p.block_type.len();
    let dirs = 40 * (p.max_dir + 2);
    let files = 48 * (p.max_file + 1);
    lemma_rounded(dirs, b);
    lemma_rounded(files, b);
    let x = counted(dirs, b);
    let y = counted(files, b);
    if p.duplicate_data {
        let c = x + y + n;
        assert(x * b + y * b + n * b == c * b) by (nonlinear_arith)
            requires
                c == x + y + n,
        ;
        lemma_div_multiples_vanish(c, b);
        vstd::arithmetic::mul::lemma_mul_is_commutative(c, b);
        assert(l.data_block_count == c);
        lemma_rounded(l.fat_offset + (c + 1) * 8, b);
        assert(pieces_for(x, dirs, b) && pieces_for(y, files, b));
    } else {
        lemma_rounded(l.file_table_offset + files, b);
    }
}

/// The lengths of blocks in the partitions of save data and extra data.
pub proof fn law_blocks_of_partitions(
    p: SaveDataFormatParam,
    n: int,
    len: int,
    external: bool,
)
    ensures
        p.block_type.len() == if p.block_type is Small {
            512int
        } else {
            4096
        },
        usual_blocks(save_param_a(p, n)),
        save_param_a(p, n).ivfc_level4_block_len == if p.duplicate_data {
            4096
        } else {
            p.block_type.len()
        },
        !save_param_a(p, n).external_ivfc_level4,
        save_param_b(p, n) is None == p.duplicate_data,
        save_param_b(p, n) matches Some(q) ==> usual_blocks(q) && q.ivfc_level4_block_len
            == p.block_type.len() && q.external_ivfc_level4,
        usual_blocks(ext_partition(len, external)),
        ext_partition(len, external).ivfc_level4_block_len == 4096,
        ext_partition(len, external).external_ivfc_level4 == external,
{
}

/// The lengths of blocks that all partitions have in common.
pub open spec fn usual_blocks(p: DifiPartitionParam) -> bool {
    &&& p.dpfs_level2_block_len == 128
    &&& p.dpfs_level3_block_len == 4096
    &&& p.ivfc_level1_block_len == 512
    &&& p.ivfc_level2_block_len == 512
    &&& p.ivfc_level3_block_len == 4096
}

/// The parts of the list of files of new extra data: the header up to 0x138, the description, the
/// buckets, the table of blocks, and blocks for the directories and the files.
pub proof fn law_parts_of_extra_data(p: ExtDataFormatParam)
    ensures
        ({
            let l = ext_layout(p);
            &&& l.dir_hash_offset == 0x138 + 0x68
            &&& l.file_hash_offset == l.dir_hash_offset + 4 * p.dir_buckets
            &&& l.fat_offset == l.file_hash_offset + 4 * p.file_buckets
            &&& exists|x: int, y: int|
                #![trigger pieces_for(x, 40 * (p.max_dir + 2), 4096), pieces_for(y, 48 * (p.max_file + 1), 4096)]
                pieces_for(x, 40 * (p.max_dir + 2), 4096) && pieces_for(
                    y,
                    48 * (p.max_file + 1),
                    4096,
                ) && l.data_block_count == x + y
            &&& rounded_up(l.data_offset, l.fat_offset + 8 * (l.data_block_count + 1), 4096)
            &&& l.len == l.data_offset + 4096 * l.data_block_count
        }),
{
    let l = ext_layout(p);
    let dirs = 40 * (p.max_dir + 2);
    let files = 48 * (p.max_file + 1);
    lemma_rounded(dirs, 4096);
    lemma_rounded(files, 4096);
    assert(pieces_for(counted(dirs, 4096), 40 * (p.max_dir + 2), 4096) && pieces_for(
        counted(files, 4096),
        48 * (p.max_file + 1),
        4096,
    ));
    lemma_rounded(l.fat_offset + (l.data_block_count + 1) * 8, 4096);
}

/// A partition of extra data for some bytes, which are kept twice, or once and apart.
pub open spec fn made_with(q: DifiPartitionParam, len: int, apart: bool) -> bool {
    &&& usual_blocks(q)
    &&& q.ivfc_level4_block_len == 4096
    &&& q.data_len == len
    &&& q.external_ivfc_level4 == apart
}

/// Of extra data the list of files is kept twice. The quota and the content of a file are kept once
/// and apart. A file can be made where its blocks of 4096 bytes can be counted with four bytes.
pub proof fn law_lengths_of_extra_data(p: ExtDataFormatParam, len: int, q: DifiPartitionParam)
    ensures
        made_with(q, ext_layout(p).len, false) ==> ext_meta_len(p) == diff_layout(q).end,
        made_with(q, 0x48, true) ==> quota_file_len() == diff_layout(q).end,
        made_with(q, len, true) && 0 < len && diff_fits(q) ==> (file_fits(len) <==> diff_layout(
            q,
        ).end <= 4096 * u32::MAX),
{
    if made_with(q, ext_layout(p).len, false) {
        assert(q == ext_partition(ext_layout(p).len, false));
    }
    if made_with(q, 0x48, true) {
        assert(q == ext_partition(0x48, true));
    }
    if made_with(q, len, true) && 0 < len && diff_fits(q) {
        assert(q == ext_partition(len, true));
        law_parts_of_one(q);
        lemma_counted(diff_layout(q).end, 0x1000);
    }
}

} // verus!
