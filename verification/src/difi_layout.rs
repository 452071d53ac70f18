use crate::misc::{align_up, divide_up};
use vstd::prelude::*;

verus! {

use crate::misc::{aligned, counted, lemma_counted, lemma_counted_grows};
use vstd::arithmetic::div_mod::*;
use vstd::arithmetic::mul::*;

/// Configuration for formatting a partition.
#[derive(Clone, Copy, PartialEq, Eq, Structural, Debug)]
pub struct DifiPartitionParam {
    pub dpfs_level2_block_len: usize,
    pub dpfs_level3_block_len: usize,
    pub ivfc_level1_block_len: usize,
    pub ivfc_level2_block_len: usize,
    pub ivfc_level3_block_len: usize,
    pub ivfc_level4_block_len: usize,
    pub data_len: usize,
    pub external_ivfc_level4: bool,
}

impl DifiPartitionParam {
    pub open spec fn ok(self) -> bool {
        &&& self.dpfs_level2_block_len > 0
        &&& self.dpfs_level3_block_len > 0
        &&& self.ivfc_level1_block_len > 0
        &&& self.ivfc_level2_block_len > 0
        &&& self.ivfc_level3_block_len > 0
        &&& self.ivfc_level4_block_len > 0
        &&& self.data_len > 0
    }

    /// The largest of the block lengths.
    pub open spec fn align(self) -> int {
        larger(
            larger(
                larger(self.dpfs_level2_block_len as int, self.dpfs_level3_block_len as int),
                larger(self.ivfc_level1_block_len as int, self.ivfc_level2_block_len as int),
            ),
            larger(self.ivfc_level3_block_len as int, self.ivfc_level4_block_len as int),
        )
    }

    /// The largest of the block lengths, to which the partition is aligned.
    pub fn get_align(&self) -> (r: usize)
        ensures
            r == self.align(),
    {
        let a: usize = max_of(
            max_of(self.dpfs_level2_block_len, self.dpfs_level3_block_len),
            max_of(self.ivfc_level1_block_len, self.ivfc_level2_block_len),
        );
        max_of(a, max_of(self.ivfc_level3_block_len, self.ivfc_level4_block_len))
    }
}

pub open spec fn larger(a: int, b: int) -> int {
    if a < b {
        b
    } else {
        a
    }
}

fn max_of(a: usize, b: usize) -> (r: usize)
    ensures
        r == larger(a as int, b as int),
{
    if a < b {
        b
    } else {
        a
    }
}

/// Where the parts of a partition are, and how long they are.
pub struct DifiLayout {
    pub master_len: int,
    pub ivfc1_len: int,
    pub ivfc2_offset: int,
    pub ivfc2_len: int,
    pub ivfc3_offset: int,
    pub ivfc3_len: int,
    pub ivfc4_offset: int,
    pub ivfc4_len: int,
    pub dpfs1_len: int,
    pub dpfs2_offset: int,
    pub dpfs2_len: int,
    pub dpfs3_offset: int,
    pub dpfs3_len: int,
    pub external_offset: int,
    pub descriptor_len: int,
    pub partition_len: int,
}

/// A large level is aligned to its blocks, a small one to 8 bytes.
pub open spec fn ivfc_aligned(offset: int, len: int, block_len: int) -> int {
    if len >= 4 * block_len {
        aligned(offset, block_len)
    } else {
        aligned(offset, 8)
    }
}

/// The length of the headers in front of the hashes in a descriptor.
pub const DESCRIPTOR_HEAD: usize = 0x10C;

/// The parts of a partition: a tree of hashes over the data, and three levels of selected copies
/// below it, each block of a level with a bit in the level below.
pub open spec fn layout(p: DifiPartitionParam) -> DifiLayout {
    let ivfc4_len = p.data_len as int;
    let ivfc3_len = counted(ivfc4_len, p.ivfc_level4_block_len as int) * 0x20;
    let ivfc2_len = counted(ivfc3_len, p.ivfc_level3_block_len as int) * 0x20;
    let ivfc1_len = counted(ivfc2_len, p.ivfc_level2_block_len as int) * 0x20;
    let master_len = counted(ivfc1_len, p.ivfc_level1_block_len as int) * 0x20;
    let ivfc2_offset = ivfc_aligned(ivfc1_len, ivfc2_len, p.ivfc_level2_block_len as int);
    let ivfc3_offset = ivfc_aligned(
        ivfc2_offset + ivfc2_len,
        ivfc3_len,
        p.ivfc_level3_block_len as int,
    );
    let ivfc4_offset = ivfc_aligned(
        ivfc3_offset + ivfc3_len,
        ivfc4_len,
        p.ivfc_level4_block_len as int,
    );
    let duplicated = if p.external_ivfc_level4 {
        ivfc4_offset
    } else {
        ivfc4_offset + ivfc4_len
    };
    let dpfs3_len = aligned(duplicated, p.dpfs_level3_block_len as int);
    let dpfs2_len = aligned(
        counted(dpfs3_len / (p.dpfs_level3_block_len as int), 32) * 4,
        p.dpfs_level2_block_len as int,
    );
    let dpfs1_len = counted(dpfs2_len / (p.dpfs_level2_block_len as int), 32) * 4;
    let dpfs2_offset = dpfs1_len * 2;
    let dpfs3_offset = aligned(dpfs2_offset + dpfs2_len * 2, p.dpfs_level3_block_len as int);
    let dpfs_end = dpfs3_offset + dpfs3_len * 2;
    let external_offset = if p.external_ivfc_level4 {
        aligned(dpfs_end, p.ivfc_level4_block_len as int)
    } else {
        0
    };
    DifiLayout {
        master_len,
        ivfc1_len,
        ivfc2_offset,
        ivfc2_len,
        ivfc3_offset,
        ivfc3_len,
        ivfc4_offset,
        ivfc4_len,
        dpfs1_len,
        dpfs2_offset,
        dpfs2_len,
        dpfs3_offset,
        dpfs3_len,
        external_offset,
        descriptor_len: DESCRIPTOR_HEAD + master_len,
        partition_len: if p.external_ivfc_level4 {
            external_offset + ivfc4_len
        } else {
            dpfs_end
        },
    }
}

/// A multiple of the block length has as many blocks as it has times the length.
pub proof fn lemma_counted_multiple(n: int, block_len: int)
    requires
        block_len > 0,
        n >= 0,
    ensures
        counted(n * block_len, block_len) == n,
        (n * block_len) / block_len == n,
{
    lemma_div_multiples_vanish(n, block_len);
    lemma_mul_is_commutative(n, block_len);
    if n == 0 {
        lemma_counted(0, block_len);
        lemma_mul_basics(block_len);
    } else {
        lemma_mul_nonnegative(n, block_len);
        lemma_fundamental_div_mod_converse(
            n * block_len + block_len - 1,
            block_len,
            n,
            block_len - 1,
        );
    }
}

pub proof fn lemma_ivfc_aligned(offset: int, len: int, block_len: int)
    requires
        offset >= 0,
        block_len > 0,
    ensures
        offset <= ivfc_aligned(offset, len, block_len),
        ivfc_aligned(offset, len, block_len) < offset + larger(block_len, 8),
{
    lemma_counted(offset, block_len);
    lemma_counted(offset, 8);
}

/// The parts follow each other, and each has room for what refers to it.
pub proof fn lemma_layout(p: DifiPartitionParam)
    requires
        p.ok(),
    ensures
        ({
            let l = layout(p);
            &&& l.ivfc4_len > 0
            &&& l.ivfc3_len >= 0x20
            &&& l.ivfc2_len >= 0x20
            &&& l.ivfc1_len >= 0x20
            &&& l.master_len >= 0x20
            &&& l.ivfc1_len <= l.ivfc2_offset
            &&& l.ivfc2_offset + l.ivfc2_len <= l.ivfc3_offset
            &&& l.ivfc3_offset + l.ivfc3_len <= l.ivfc4_offset
            &&& l.ivfc4_offset <= l.dpfs3_len
            &&& !p.external_ivfc_level4 ==> l.ivfc4_offset + l.ivfc4_len <= l.dpfs3_len
            &&& l.dpfs3_len > 0
            &&& l.dpfs2_len > 0
            &&& l.dpfs1_len > 0
            &&& counted(counted(l.dpfs3_len, p.dpfs_level3_block_len as int), 32) * 4
                <= l.dpfs2_len
            &&& counted(counted(l.dpfs2_len, p.dpfs_level2_block_len as int), 32) * 4
                == l.dpfs1_len
            &&& l.dpfs2_offset == l.dpfs1_len * 2
            &&& l.dpfs2_offset + l.dpfs2_len * 2 <= l.dpfs3_offset
            &&& l.dpfs3_offset + l.dpfs3_len * 2 <= l.partition_len
            &&& p.external_ivfc_level4 ==> l.dpfs3_offset + l.dpfs3_len * 2 <= l.external_offset
                && l.external_offset + l.ivfc4_len == l.partition_len
            &&& l.ivfc4_len + l.ivfc4_offset <= l.partition_len
        }),
{
    let l = layout(p);
    let b1 = p.ivfc_level1_block_len as int;
    let b2 = p.ivfc_level2_block_len as int;
    let b3 = p.ivfc_level3_block_len as int;
    let b4 = p.ivfc_level4_block_len as int;
    let d2 = p.dpfs_level2_block_len as int;
    let d3 = p.dpfs_level3_block_len as int;
    lemma_counted(l.ivfc4_len, b4);
    lemma_counted(l.ivfc3_len, b3);
    lemma_counted(l.ivfc2_len, b2);
    lemma_counted(l.ivfc1_len, b1);
    lemma_ivfc_aligned(l.ivfc1_len, l.ivfc2_len, b2);
    lemma_ivfc_aligned(l.ivfc2_offset + l.ivfc2_len, l.ivfc3_len, b3);
    lemma_ivfc_aligned(l.ivfc3_offset + l.ivfc3_len, l.ivfc4_len, b4);
    let dup = if p.external_ivfc_level4 {
        l.ivfc4_offset
    } else {
        l.ivfc4_offset + l.ivfc4_len
    };
    lemma_counted(dup, d3);
    lemma_counted_multiple(counted(dup, d3), d3);
    let n3 = l.dpfs3_len / d3;
    lemma_counted(n3, 32);
    let w2 = counted(n3, 32) * 4;
    lemma_counted(w2, d2);
    lemma_counted_multiple(counted(w2, d2), d2);
    let n2 = l.dpfs2_len / d2;
    lemma_counted(n2, 32);
    lemma_counted(l.dpfs2_offset + l.dpfs2_len * 2, d3);
    if p.external_ivfc_level4 {
        lemma_counted(l.dpfs3_offset + l.dpfs3_len * 2, b4);
    }
}

/// A level that is not shorter, behind one that does not end earlier, does not begin earlier.
proof fn lemma_ivfc_aligned_grows(a: int, b: int, m: int, n: int, block_len: int)
    requires
        0 <= a <= b,
        m <= n,
        block_len > 0,
        block_len % 8 == 0,
    ensures
        ivfc_aligned(a, m, block_len) <= ivfc_aligned(b, n, block_len),
{
    lemma_counted_grows(a, b, 8);
    lemma_counted_grows(a, b, block_len);
    lemma_counted(b, block_len);
    let end = aligned(b, block_len);
    let k = block_len / 8;
    assert(end == counted(b, block_len) * k * 8) by (nonlinear_arith)
        requires
            end == counted(b, block_len) * block_len,
            block_len == k * 8,
    ;
    lemma_counted_grows(b, end, 8);
    lemma_mul_nonnegative(counted(b, block_len), k);
    lemma_counted_multiple(counted(b, block_len) * k, 8);
}

/// The hashes are in blocks of a multiple of eight bytes.
pub open spec fn even_blocks(p: DifiPartitionParam) -> bool {
    &&& p.ivfc_level2_block_len % 8 == 0
    &&& p.ivfc_level3_block_len % 8 == 0
    &&& p.ivfc_level4_block_len % 8 == 0
}

/// With more data a partition and its descriptor do not become shorter.
pub proof fn lemma_layout_grows(p: DifiPartitionParam, q: DifiPartitionParam)
    requires
        p.ok(),
        q == (DifiPartitionParam { data_len: q.data_len, ..p }),
        p.data_len <= q.data_len,
        even_blocks(p),
    ensures
        layout(p).partition_len <= layout(q).partition_len,
        layout(p).descriptor_len <= layout(q).descriptor_len,
{
    let l = layout(p);
    let m = layout(q);
    let b1 = p.ivfc_level1_block_len as int;
    let b2 = p.ivfc_level2_block_len as int;
    let b3 = p.ivfc_level3_block_len as int;
    let b4 = p.ivfc_level4_block_len as int;
    let d2 = p.dpfs_level2_block_len as int;
    let d3 = p.dpfs_level3_block_len as int;
    lemma_layout(p);
    lemma_layout(q);
    lemma_counted_grows(l.ivfc4_len, m.ivfc4_len, b4);
    lemma_counted_grows(l.ivfc3_len, m.ivfc3_len, b3);
    lemma_counted_grows(l.ivfc2_len, m.ivfc2_len, b2);
    lemma_counted_grows(l.ivfc1_len, m.ivfc1_len, b1);
    lemma_ivfc_aligned_grows(l.ivfc1_len, m.ivfc1_len, l.ivfc2_len, m.ivfc2_len, b2);
    lemma_ivfc_aligned_grows(
        l.ivfc2_offset + l.ivfc2_len,
        m.ivfc2_offset + m.ivfc2_len,
        l.ivfc3_len,
        m.ivfc3_len,
        b3,
    );
    lemma_ivfc_aligned_grows(
        l.ivfc3_offset + l.ivfc3_len,
        m.ivfc3_offset + m.ivfc3_len,
        l.ivfc4_len,
        m.ivfc4_len,
        b4,
    );
    if p.external_ivfc_level4 {
        lemma_counted_grows(l.ivfc4_offset, m.ivfc4_offset, d3);
    } else {
        lemma_counted_grows(l.ivfc4_offset + l.ivfc4_len, m.ivfc4_offset + m.ivfc4_len, d3);
    }
    lemma_div_is_ordered(l.dpfs3_len, m.dpfs3_len, d3);
    lemma_counted_grows(l.dpfs3_len / d3, m.dpfs3_len / d3, 32);
    lemma_counted_grows(
        counted(l.dpfs3_len / d3, 32) * 4,
        counted(m.dpfs3_len / d3, 32) * 4,
        d2,
    );
    lemma_div_is_ordered(l.dpfs2_len, m.dpfs2_len, d2);
    lemma_counted_grows(l.dpfs2_len / d2, m.dpfs2_len / d2, 32);
    lemma_counted_grows(l.dpfs2_offset + l.dpfs2_len * 2, m.dpfs2_offset + m.dpfs2_len * 2, d3);
    lemma_counted_grows(
        l.dpfs3_offset + l.dpfs3_len * 2,
        m.dpfs3_offset + m.dpfs3_len * 2,
        b4,
    );
}

/// The layout in machine integers.
#[derive(Clone, Copy, PartialEq, Eq, Structural, Debug)]
pub struct DifiPartitionInfo {
    pub master_len: usize,
    pub ivfc1_len: usize,
    pub ivfc2_offset: usize,
    pub ivfc2_len: usize,
    pub ivfc3_offset: usize,
    pub ivfc3_len: usize,
    pub ivfc4_offset: usize,
    pub ivfc4_len: usize,
    pub dpfs1_len: usize,
    pub dpfs2_offset: usize,
    pub dpfs2_len: usize,
    pub dpfs3_offset: usize,
    pub dpfs3_len: usize,
    pub external_offset: usize,
    pub descriptor_len: usize,
    pub partition_len: usize,
}

impl DifiPartitionInfo {
    pub open spec fn view(self) -> DifiLayout {
        DifiLayout {
            master_len: self.master_len as int,
            ivfc1_len: self.ivfc1_len as int,
            ivfc2_offset: self.ivfc2_offset as int,
            ivfc2_len: self.ivfc2_len as int,
            ivfc3_offset: self.ivfc3_offset as int,
            ivfc3_len: self.ivfc3_len as int,
            ivfc4_offset: self.ivfc4_offset as int,
            ivfc4_len: self.ivfc4_len as int,
            dpfs1_len: self.dpfs1_len as int,
            dpfs2_offset: self.dpfs2_offset as int,
            dpfs2_len: self.dpfs2_len as int,
            dpfs3_offset: self.dpfs3_offset as int,
            dpfs3_len: self.dpfs3_len as int,
            external_offset: self.external_offset as int,
            descriptor_len: self.descriptor_len as int,
            partition_len: self.partition_len as int,
        }
    }
}

/// The descriptor and the partition have lengths that the machine can count.
pub open spec fn layout_fits(p: DifiPartitionParam) -> bool {
    layout(p).partition_len <= usize::MAX && layout(p).descriptor_len <= usize::MAX
}

fn ivfc_align(offset: usize, len: usize, block_len: usize) -> (r: usize)
    requires
        block_len > 0,
        ivfc_aligned(offset as int, len as int, block_len as int) <= usize::MAX,
    ensures
        r == ivfc_aligned(offset as int, len as int, block_len as int),
{
    if block_len <= usize::MAX / 4 && len >= 4 * block_len {
        align_up(offset, block_len)
    } else {
        align_up(offset, 8)
    }
}

/// Calculates where the parts of a partition are.
pub fn calculate_info(p: &DifiPartitionParam) -> (info: DifiPartitionInfo)
    requires
        p.ok(),
        layout_fits(*p),
    ensures
        info.view() == layout(*p),
{
    let ghost l = layout(*p);
    proof {
        lemma_layout(*p);
    }
    let ivfc4_len: usize = p.data_len;
    proof {
        lemma_counted(ivfc4_len as int, p.ivfc_level4_block_len as int);
    }
    let ivfc3_len: usize = divide_up(ivfc4_len, p.ivfc_level4_block_len) * 0x20;
    let ivfc2_len: usize = divide_up(ivfc3_len, p.ivfc_level3_block_len) * 0x20;
    let ivfc1_len: usize = divide_up(ivfc2_len, p.ivfc_level2_block_len) * 0x20;
    let master_len: usize = divide_up(ivfc1_len, p.ivfc_level1_block_len) * 0x20;
    let ivfc2_offset: usize = ivfc_align(ivfc1_len, ivfc2_len, p.ivfc_level2_block_len);
    let ivfc3_offset: usize = ivfc_align(
        ivfc2_offset + ivfc2_len,
        ivfc3_len,
        p.ivfc_level3_block_len,
    );
    let ivfc4_offset: usize = ivfc_align(
        ivfc3_offset + ivfc3_len,
        ivfc4_len,
        p.ivfc_level4_block_len,
    );
    let duplicated: usize = if p.external_ivfc_level4 {
        ivfc4_offset
    } else {
        ivfc4_offset + ivfc4_len
    };
    let dpfs3_len: usize = align_up(duplicated, p.dpfs_level3_block_len);
    proof {
        let n3 = l.dpfs3_len / (p.dpfs_level3_block_len as int);
        lemma_counted(duplicated as int, p.dpfs_level3_block_len as int);
        lemma_counted_multiple(
            counted(duplicated as int, p.dpfs_level3_block_len as int),
            p.dpfs_level3_block_len as int,
        );
        lemma_counted(n3, 32);
        lemma_counted(counted(n3, 32) * 4, p.dpfs_level2_block_len as int);
        lemma_counted_multiple(
            counted(counted(n3, 32) * 4, p.dpfs_level2_block_len as int),
            p.dpfs_level2_block_len as int,
        );
    }
    let dpfs2_len: usize = align_up(
        divide_up(dpfs3_len / p.dpfs_level3_block_len, 32) * 4,
        p.dpfs_level2_block_len,
    );
    let dpfs1_len: usize = divide_up(dpfs2_len / p.dpfs_level2_block_len, 32) * 4;
    let dpfs2_offset: usize = dpfs1_len * 2;
    let dpfs3_offset: usize = align_up(dpfs2_offset + dpfs2_len * 2, p.dpfs_level3_block_len);
    let dpfs_end: usize = dpfs3_offset + dpfs3_len * 2;
    let external_offset: usize = if p.external_ivfc_level4 {
        align_up(dpfs_end, p.ivfc_level4_block_len)
    } else {
        0
    };
    let partition_len: usize = if p.external_ivfc_level4 {
        external_offset + ivfc4_len
    } else {
        dpfs_end
    };
    DifiPartitionInfo {
        master_len,
        ivfc1_len,
        ivfc2_offset,
        ivfc2_len,
        ivfc3_offset,
        ivfc3_len,
        ivfc4_offset,
        ivfc4_len,
        dpfs1_len,
        dpfs2_offset,
        dpfs2_len,
        dpfs3_offset,
        dpfs3_len,
        external_offset,
        descriptor_len: DESCRIPTOR_HEAD + master_len,
        partition_len,
    }
}

} // verus!
