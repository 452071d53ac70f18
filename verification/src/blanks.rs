use crate::difi_layout::DifiPartitionParam;
use crate::fs_info::FsInfo;
use vstd::prelude::*;

verus! {

use crate::crypto::sha256;
use crate::diff::{diff_fits, diff_layout};
use crate::difi_layout::{layout, layout_fits};
use crate::difi_partition::{
    block_lens_ok, dpfs_fields, head_of, header_fields, ivfc_fields, lemma_dpfs_fields,
    lemma_exact_log, lemma_header_fields, lemma_ivfc_fields,
};
use crate::disa::{disa_fits, disa_layout};
use crate::fields::{lemma_field, lemma_pow256, packed, start};
use crate::fs_info::{fs_info_fields, lemma_fs_info};
use crate::words::{four, law_read_lowest_first, lemma_word4_bytes, word4, word8};
use vstd::arithmetic::power2::pow2;

/// The description of a level at a position: its offset, its length, the logarithm of the length of
/// its blocks, and four zeros.
pub open spec fn level_written(d: Seq<u8>, at: int, offset: int, len: int, block_len: int) -> bool {
    &&& word8(d, at) == offset
    &&& word8(d, at + 8) == len
    &&& pow2(word4(d, at + 16) as nat) == block_len
    &&& word4(d, at + 20) == 0
}

/// A new descriptor begins with `DIFI` and version 0x10000, the places and the lengths of the
/// descriptions of hashes and of copies and of the first hashes, and whether and where the data are
/// apart. Of the copies of the first level the first one is in use.
pub proof fn law_new_descriptor(p: DifiPartitionParam)
    requires
        p.ok(),
        layout_fits(p),
    ensures
        head_of(p).len() == 0x10C,
        ({
            let d = head_of(p).subrange(0, 0x44);
            &&& four(d, 0) == seq![0x44u8, 0x49, 0x46, 0x49]
            &&& word4(d, 4) == 0x10000
            &&& word8(d, 8) == 0x44
            &&& word8(d, 0x10) == 0x78
            &&& word8(d, 0x18) == 0xBC
            &&& word8(d, 0x20) == 0x50
            &&& word8(d, 0x28) == 0x10C
            &&& word8(d, 0x30) == layout(p).master_len
            &&& d[0x38] == if p.external_ivfc_level4 {
                1int
            } else {
                0
            }
            &&& d[0x39] == 0
            &&& word8(d, 0x3C) == layout(p).external_offset
        }),
{
    lemma_header_fields(p);
    lemma_ivfc_fields(p);
    lemma_dpfs_fields(p);
    let d = head_of(p).subrange(0, 0x44);
    assert(d =~= packed(header_fields(p)));
    let f = header_fields(p);
    assert(f[2].0 == 0x44 && f[3].0 == 0x78 && f[4].0 == 0xBC);
    law_read_lowest_first(d, 0);
    law_read_lowest_first(d, 4);
    law_read_lowest_first(d, 8);
    law_read_lowest_first(d, 0x10);
    law_read_lowest_first(d, 0x18);
    law_read_lowest_first(d, 0x20);
    law_read_lowest_first(d, 0x28);
    law_read_lowest_first(d, 0x30);
    law_read_lowest_first(d, 0x38);
    law_read_lowest_first(d, 0x39);
    law_read_lowest_first(d, 0x3C);
    lemma_word4_bytes(d, seq![0x44u8, 0x49, 0x46, 0x49], 0);
}

/// The description of hashes is `IVFC` and version 0x20000, the length of the first hashes, four
/// levels, and its own length.
pub proof fn law_new_description_of_hashes(p: DifiPartitionParam)
    requires
        p.ok(),
        layout_fits(p),
        block_lens_ok(p),
    ensures
        ({
            let d = head_of(p).subrange(0x44, 0xBC);
            let l = layout(p);
            &&& four(d, 0) == seq![0x49u8, 0x56, 0x46, 0x43]
            &&& word4(d, 4) == 0x20000
            &&& word8(d, 8) == l.master_len
            &&& level_written(d, 0x10, 0, l.ivfc1_len, p.ivfc_level1_block_len as int)
            &&& level_written(d, 0x28, l.ivfc2_offset, l.ivfc2_len, p.ivfc_level2_block_len as int)
            &&& level_written(d, 0x40, l.ivfc3_offset, l.ivfc3_len, p.ivfc_level3_block_len as int)
            &&& level_written(d, 0x58, l.ivfc4_offset, l.ivfc4_len, p.ivfc_level4_block_len as int)
            &&& word8(d, 0x70) == 0x78
        }),
{
    lemma_header_fields(p);
    lemma_ivfc_fields(p);
    lemma_dpfs_fields(p);
    let d = head_of(p).subrange(0x44, 0xBC);
    assert(d =~= packed(ivfc_fields(p)));
    lemma_exact_log(p.ivfc_level1_block_len as nat);
    lemma_exact_log(p.ivfc_level2_block_len as nat);
    lemma_exact_log(p.ivfc_level3_block_len as nat);
    lemma_exact_log(p.ivfc_level4_block_len as nat);
    law_read_lowest_first(d, 0);
    law_read_lowest_first(d, 4);
    law_read_lowest_first(d, 8);
    law_read_lowest_first(d, 0x10);
    law_read_lowest_first(d, 0x18);
    law_read_lowest_first(d, 0x20);
    law_read_lowest_first(d, 0x24);
    law_read_lowest_first(d, 0x28);
    law_read_lowest_first(d, 0x30);
    law_read_lowest_first(d, 0x38);
    law_read_lowest_first(d, 0x3c);
    law_read_lowest_first(d, 0x40);
    law_read_lowest_first(d, 0x48);
    law_read_lowest_first(d, 0x50);
    law_read_lowest_first(d, 0x54);
    law_read_lowest_first(d, 0x58);
    law_read_lowest_first(d, 0x60);
    law_read_lowest_first(d, 0x68);
    law_read_lowest_first(d, 0x6c);
    law_read_lowest_first(d, 0x70);
    lemma_word4_bytes(d, seq![0x49u8, 0x56, 0x46, 0x43], 0);
}

/// The description of copies is `DPFS` and version 0x10000 and three levels.
pub proof fn law_new_description_of_copies(p: DifiPartitionParam)
    requires
        p.ok(),
        layout_fits(p),
        block_lens_ok(p),
    ensures
        ({
            let d = head_of(p).subrange(0xBC, 0x10C);
            let l = layout(p);
            &&& four(d, 0) == seq![0x44u8, 0x50, 0x46, 0x53]
            &&& word4(d, 4) == 0x10000
            &&& level_written(d, 8, 0, l.dpfs1_len, 1)
            &&& level_written(d, 0x20, l.dpfs2_offset, l.dpfs2_len, p.dpfs_level2_block_len as int)
            &&& level_written(d, 0x38, l.dpfs3_offset, l.dpfs3_len, p.dpfs_level3_block_len as int)
        }),
{
    lemma_header_fields(p);
    lemma_ivfc_fields(p);
    lemma_dpfs_fields(p);
    let d = head_of(p).subrange(0xBC, 0x10C);
    assert(d =~= packed(dpfs_fields(p)));
    lemma_exact_log(p.dpfs_level2_block_len as nat);
    lemma_exact_log(p.dpfs_level3_block_len as nat);
    vstd::arithmetic::power2::lemma2_to64();
    law_read_lowest_first(d, 0);
    law_read_lowest_first(d, 4);
    law_read_lowest_first(d, 0x8);
    law_read_lowest_first(d, 0x10);
    law_read_lowest_first(d, 0x18);
    law_read_lowest_first(d, 0x1c);
    law_read_lowest_first(d, 0x20);
    law_read_lowest_first(d, 0x28);
    law_read_lowest_first(d, 0x30);
    law_read_lowest_first(d, 0x34);
    law_read_lowest_first(d, 0x38);
    law_read_lowest_first(d, 0x40);
    law_read_lowest_first(d, 0x48);
    law_read_lowest_first(d, 0x4c);
    lemma_word4_bytes(d, seq![0x44u8, 0x50, 0x46, 0x53], 0);
}

/// The header of a new container with one partition. The second table is the one in use.
pub proof fn law_header_of_new_one(table: Seq<u8>, p: DifiPartitionParam, id: u64, i: int)
    requires
        diff_fits(p),
        sha256(table).len() == 0x20,
    ensures
        ({
            let h = crate::diff::new_header(table, p, id);
            let d = h.subrange(0, 0x34);
            let l = diff_layout(p);
            &&& h.len() == 0x100
            &&& four(d, 0) == seq![0x44u8, 0x49, 0x46, 0x46]
            &&& word4(d, 4) == 0x30000
            &&& word8(d, 8) == 0x200
            &&& word8(d, 0x10) == l.primary
            &&& word8(d, 0x18) == l.table_len
            &&& word8(d, 0x20) == l.partition_offset
            &&& word8(d, 0x28) == l.partition_len
            &&& d[0x30] == 1
            &&& h.subrange(0x34, 0x54) == sha256(table)
            &&& word8(h.subrange(0x54, 0x5C), 0) == id
            &&& 0x5C <= i < 0x100 ==> h[i] == 0
        }),
{
    crate::diff::lemma_header_fields(p, id);
    let q = packed(crate::diff::header_fields(p, id));
    let h = crate::diff::new_header(table, p, id);
    let d = h.subrange(0, 0x34);
    let f = crate::diff::header_fields(p, id);
    assert(f[2].0 == 0x200 && f[7].0 == 1);
    assert(d =~= q.subrange(0, 0x34));
    assert(h.subrange(0x54, 0x5C) =~= q.subrange(0x54, 0x5C));
    assert(h.subrange(0x34, 0x54) =~= sha256(table));
    assert forall|a: int, n: int| 0 <= a && 0 <= n && a + n <= 0x34 implies q.subrange(a, a + n)
        == #[trigger] d.subrange(a, a + n) by {
        assert(q.subrange(a, a + n) =~= d.subrange(a, a + n));
    }
    law_read_lowest_first(d, 0);
    law_read_lowest_first(d, 4);
    law_read_lowest_first(d, 8);
    law_read_lowest_first(d, 0x10);
    law_read_lowest_first(d, 0x18);
    law_read_lowest_first(d, 0x20);
    law_read_lowest_first(d, 0x28);
    law_read_lowest_first(d, 0x30);
    let e = h.subrange(0x54, 0x5C);
    law_read_lowest_first(e, 0);
    assert(e.subrange(0, 8) =~= q.subrange(84, 92));
    lemma_word4_bytes(d, seq![0x44u8, 0x49, 0x46, 0x46], 0);
}

/// The header of a new container with one or two partitions. The second table is the one in use.
pub proof fn law_header_of_new_two(
    table: Seq<u8>,
    a: DifiPartitionParam,
    b: Option<DifiPartitionParam>,
    i: int,
)
    requires
        disa_fits(a, b),
        sha256(table).len() == 0x20,
    ensures
        ({
            let h = crate::disa::new_header(table, a, b);
            let d = h.subrange(0, 0x69);
            let l = disa_layout(a, b);
            &&& h.len() == 0x100
            &&& four(d, 0) == seq![0x44u8, 0x49, 0x53, 0x41]
            &&& word4(d, 4) == 0x40000
            &&& word4(d, 8) == if b is Some {
                2int
            } else {
                1
            }
            &&& word4(d, 0xC) == 0
            &&& word8(d, 0x10) == 0x200
            &&& word8(d, 0x18) == l.primary
            &&& word8(d, 0x20) == l.table_len
            &&& word8(d, 0x28) == 0
            &&& word8(d, 0x30) == l.descriptor_a_len
            &&& word8(d, 0x38) == l.descriptor_b_offset
            &&& word8(d, 0x40) == l.descriptor_b_len
            &&& word8(d, 0x48) == l.partition_a_offset
            &&& word8(d, 0x50) == l.partition_a_len
            &&& word8(d, 0x58) == l.partition_b_offset
            &&& word8(d, 0x60) == l.partition_b_len
            &&& d[0x68] == 1
            &&& h.subrange(0x6C, 0x8C) == sha256(table)
            &&& 0x69 <= i < 0x6C || 0x8C <= i < 0x100 ==> h[i] == 0
        }),
{
    let f = crate::disa::header_fields(a, b);
    let d = crate::disa::new_header(table, a, b).subrange(0, 0x69);
    lemma_two_placed(table, a, b, i);
    lemma_two_tables(packed(f), a, b);
    lemma_two_partitions(packed(f), a, b);
    lemma_word4_bytes(d, seq![0x44u8, 0x49, 0x53, 0x41], 0);
}

proof fn lemma_two_placed(
    table: Seq<u8>,
    a: DifiPartitionParam,
    b: Option<DifiPartitionParam>,
    i: int,
)
    requires
        disa_fits(a, b),
        sha256(table).len() == 0x20,
    ensures
        ({
            let h = crate::disa::new_header(table, a, b);
            &&& h.len() == 0x100
            &&& h.subrange(0, 0x69) == packed(crate::disa::header_fields(a, b))
            &&& h.subrange(0x6C, 0x8C) == sha256(table)
            &&& 0x69 <= i < 0x6C || 0x8C <= i < 0x100 ==> h[i] == 0
        }),
{
    crate::disa::lemma_header_fields(a, b);
    let h = crate::disa::new_header(table, a, b);
    assert(h.subrange(0, 0x69) =~= packed(crate::disa::header_fields(a, b)));
    assert(h.subrange(0x6C, 0x8C) =~= sha256(table));
}

proof fn lemma_two_tables(d: Seq<u8>, a: DifiPartitionParam, b: Option<DifiPartitionParam>)
    requires
        disa_fits(a, b),
        d == packed(crate::disa::header_fields(a, b)),
    ensures
        ({
            let l = disa_layout(a, b);
            &&& word4(d, 0) == 0x4153_4944
            &&& word4(d, 4) == 0x40000
            &&& word4(d, 8) == if b is Some {
                2int
            } else {
                1
            }
            &&& word4(d, 0xC) == 0
            &&& word8(d, 0x10) == 0x200
            &&& word8(d, 0x18) == l.primary
            &&& word8(d, 0x20) == l.table_len
            &&& d[0x68] == 1
        }),
{
    crate::disa::lemma_header_fields(a, b);
    crate::disa::lemma_disa_layout(a, b);
    let f = crate::disa::header_fields(a, b);
    assert(f[4].0 == 0x200 && f[15].0 == 1);
    law_read_lowest_first(d, 0);
    law_read_lowest_first(d, 4);
    law_read_lowest_first(d, 8);
    law_read_lowest_first(d, 0xC);
    law_read_lowest_first(d, 0x10);
    law_read_lowest_first(d, 0x18);
    law_read_lowest_first(d, 0x20);
    law_read_lowest_first(d, 0x68);
}

proof fn lemma_two_partitions(d: Seq<u8>, a: DifiPartitionParam, b: Option<DifiPartitionParam>)
    requires
        disa_fits(a, b),
        d == packed(crate::disa::header_fields(a, b)),
    ensures
        ({
            let l = disa_layout(a, b);
            &&& word8(d, 0x28) == 0
            &&& word8(d, 0x30) == l.descriptor_a_len
            &&& word8(d, 0x38) == l.descriptor_b_offset
            &&& word8(d, 0x40) == l.descriptor_b_len
            &&& word8(d, 0x48) == l.partition_a_offset
            &&& word8(d, 0x50) == l.partition_a_len
            &&& word8(d, 0x58) == l.partition_b_offset
            &&& word8(d, 0x60) == l.partition_b_len
        }),
{
    crate::disa::lemma_header_fields(a, b);
    crate::disa::lemma_disa_layout(a, b);
    let f = crate::disa::header_fields(a, b);
    assert(f[7].0 == 0);
    law_read_lowest_first(d, 0x28);
    law_read_lowest_first(d, 0x30);
    law_read_lowest_first(d, 0x38);
    law_read_lowest_first(d, 0x40);
    law_read_lowest_first(d, 0x48);
    law_read_lowest_first(d, 0x50);
    law_read_lowest_first(d, 0x58);
    law_read_lowest_first(d, 0x60);
}

/// In a new description of a file system the words that are not looked at are zero.
pub proof fn law_new_description(i: FsInfo)
    ensures
        ({
            let d = packed(fs_info_fields(i));
            &&& d.len() == 0x68
            &&& word4(d, 0) == 0
            &&& word4(d, 0x14) == 0
            &&& word4(d, 0x24) == 0
            &&& word4(d, 0x34) == 0
            &&& word4(d, 0x44) == 0
            &&& word4(d, 0x54) == 0
            &&& word4(d, 0x64) == 0
        }),
{
    let f = fs_info_fields(i);
    let d = packed(f);
    lemma_fs_info(i);
    lemma_pow256();
    assert(start(f, 0) == 0);
    assert(start(f, 1) == 4);
    assert(start(f, 2) == 8);
    assert(start(f, 3) == 16);
    assert(start(f, 4) == 20);
    assert(start(f, 5) == 24);
    assert(start(f, 6) == 32);
    assert(start(f, 7) == 36);
    assert(start(f, 8) == 40);
    assert(start(f, 9) == 48);
    assert(start(f, 10) == 52);
    assert(start(f, 11) == 56);
    assert(start(f, 12) == 64);
    assert(start(f, 13) == 68);
    assert(start(f, 14) == 72);
    assert(start(f, 15) == 76);
    assert(start(f, 16) == 80);
    assert(start(f, 17) == 84);
    assert(start(f, 18) == 88);
    assert(start(f, 19) == 92);
    assert(start(f, 20) == 96);
    assert(start(f, 21) == 100);
    lemma_field(f, 0);
    law_read_lowest_first(d, 0);
    lemma_field(f, 4);
    law_read_lowest_first(d, 20);
    lemma_field(f, 7);
    law_read_lowest_first(d, 36);
    lemma_field(f, 10);
    law_read_lowest_first(d, 52);
    lemma_field(f, 13);
    law_read_lowest_first(d, 68);
    lemma_field(f, 17);
    law_read_lowest_first(d, 84);
    lemma_field(f, 21);
    law_read_lowest_first(d, 100);
}

} // verus!
