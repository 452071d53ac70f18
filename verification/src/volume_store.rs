use crate::difi_partition::DifiPartition;
use crate::error::{make_error, Error};
use crate::fat::{Fat, FatFile};
use crate::fs_info::{FsInfo, OffsetOrFatFile};
use crate::fs_meta::{DirMeta, FileMeta, FsMeta, MetaLayout};
use crate::random_access_file::{copy_range, Content, RandomAccessFile};
use crate::shadow::Shadow;
use crate::volume::{File, Volume};
use crate::volume_dir::Dir;
use vstd::prelude::*;

verus! {

use crate::container::kept;
use crate::fat::{
    blocks_within, file_bytes, file_readable, free_runs, in_blocks, lemma_block_of,
    lemma_blocks_apart, list_from, place,
};
use crate::fat::sound;
use crate::fat_list::{block_count, blocks, chain, lists_apart, maps, Span};
use crate::fat_table::{at, INDEX_END};
use crate::random_access_file::{same_file, spliced};
use crate::slots::ranges_apart;
use vstd::arithmetic::mul::*;
use crate::shadow::{agrees, cell, changed_within, shows};
use crate::volume_more::{
    lemma_fat_more, lemma_more_same, lemma_more_to_same, lemma_volume_more, more, more_to,
};
use crate::volume::{
    dir_opened, fat_sound, file_opened, fs_sound, lemma_alike, lemma_fat_same, lemma_list,
    lemma_lists_differ, opened_as, same_handles, same_volume,
};
use crate::volume_dir::few_handles;

/// Where a table is: at an offset in the first partition, or in blocks of the data area.
pub enum TablePlace {
    At(u64),
    Blocks(FatFile),
}

/// Where the parts of a volume are stored.
pub struct Store {
    pub dir_hash: u64,
    pub file_hash: u64,
    pub fat: u64,
    pub dir_table: TablePlace,
    pub file_table: TablePlace,
    /// The partition that the data area is in.
    pub data_part: usize,
    pub data: u64,
    /// How much of the data area is stored.
    pub data_len: u64,
}

impl TablePlace {
    /// The blocks of the table are noted under a number.
    pub open spec fn placed(&self, v: Volume, key: int) -> bool {
        match *self {
            TablePlace::At(_) => true,
            TablePlace::Blocks(f) => {
                &&& v.chains@.contains_key(key)
                &&& f.block_list@ == v.list(key)
            },
        }
    }
}

impl Store {
    /// The blocks of the tables are noted.
    pub open spec fn placed(&self, v: Volume) -> bool {
        self.dir_table.placed(v, -1) && self.file_table.placed(v, -2)
    }
}

/// The partitions hold the same as before.
pub open spec fn parts_same(a: Seq<DifiPartition>, b: Seq<DifiPartition>) -> bool {
    &&& b.len() == a.len()
    &&& forall|k: int|
        0 <= k < a.len() ==> (#[trigger] b[k]).inv() && same_file(a[k], b[k]) && b[k].shape()
            == a[k].shape()
}

pub open spec fn parts_inv(a: Seq<DifiPartition>) -> bool {
    forall|k: int| 0 <= k < a.len() ==> (#[trigger] a[k]).inv()
}

/// Makes a shadow of a range of a partition.
fn shadow_of(parts: &mut Vec<DifiPartition>, k: usize, pos: u64, len: u64) -> (r: Result<
    Shadow,
    Error,
>)
    requires
        parts_inv(old(parts)@),
        k < old(parts)@.len(),
    ensures
        parts_same(old(parts)@, final(parts)@),
        match r {
            Ok(s) => {
                &&& pos + len <= old(parts)@[k as int].bytes().len()
                &&& s.inv()
                &&& s.bytes().len() == len
                &&& shows(s, old(parts)@[k as int], pos as int)
            },
            Err(e) => e == Error::OutOfBound && pos + len > old(parts)@[k as int].bytes().len(),
        },
{
    Shadow::of(&mut parts[k], pos, len)
}

/// The shadow holds what can be read of a file of blocks.
pub open spec fn shows_blocks(s: Shadow, d: Shadow, block_len: int, file: FatFile) -> bool {
    forall|i: int|
        0 <= i < s.data@.len() ==> {
            &&& #[trigger] s.known@[i] == d.readable(place(file.block_list@, block_len, i))
            &&& s.known@[i] ==> s.data@[i] == d.bytes()[place(file.block_list@, block_len, i)]
            &&& !s.known@[i] ==> s.data@[i] == 0
        }
}

/// What the shadow knows is in the file of blocks.
pub open spec fn agrees_blocks(s: Shadow, d: Shadow, block_len: int, file: FatFile, n: int) -> bool {
    forall|i: int|
        0 <= i < n && #[trigger] s.known@[i] ==> {
            &&& d.readable(place(file.block_list@, block_len, i))
            &&& d.bytes()[place(file.block_list@, block_len, i)] == s.data@[i]
        }
}

/// Makes a shadow of a file of blocks.
fn load_blocks(file: &FatFile, data: &mut Shadow, block_len: usize) -> (r: Result<Shadow, Error>)
    requires
        old(data).inv(),
        block_len > 0,
    ensures
        final(data).inv(),
        same_file(*old(data), *final(data)),
        match r {
            Ok(s) => {
                &&& s.inv()
                &&& s.bytes().len() == file.block_list@.len() * block_len
                &&& blocks_within(
                    file.block_list@,
                    0,
                    block_len as int,
                    old(data).bytes().len() as int,
                ) ==> shows_blocks(s, *old(data), block_len as int, *file)
            },
            Err(e) => e == Error::OutOfBound && file.block_list@.len() * block_len > usize::MAX,
        },
{
    let n: usize = match file.block_list.len().checked_mul(block_len) {
        Some(n) => n,
        None => {
            return make_error(Error::OutOfBound);
        },
    };
    let mut s = Shadow::blank(n);
    let ghost d0 = *data;
    let ghost l = file.block_list@;
    let ghost bl = block_len as int;
    let ghost within = blocks_within(l, 0, bl, d0.bytes().len() as int);
    let mut i: usize = 0;
    while i < n
        invariant
            i <= n,
            n == l.len() * bl,
            l == file.block_list@,
            bl == block_len,
            block_len > 0,
            data.inv(),
            d0.inv(),
            same_file(d0, *data),
            s.inv(),
            s.data@.len() == n,
            within == blocks_within(l, 0, bl, d0.bytes().len() as int),
            forall|j: int| i <= j < n ==> #[trigger] cell(s, j) == (false, 0u8),
            within ==> forall|j: int|
                0 <= j < i ==> {
                    &&& #[trigger] s.known@[j] == d0.readable(place(l, bl, j))
                    &&& s.known@[j] ==> s.data@[j] == d0.bytes()[place(l, bl, j)]
                    &&& !s.known@[j] ==> s.data@[j] == 0
                },
        decreases n - i,
    {
        let ghost d1 = *data;
        let ghost s1 = s;
        assert(cell(s, i as int) == (false, 0u8));
        let got = file.load(data, 0, block_len, i, 1);
        match got {
            Ok(v) => {
                s.data.set(i, v[0]);
                s.known.set(i, true);
                proof {
                    if within {
                        assert(file_readable(d1, 0, bl, l, i as int, i + 1));
                        assert(d1.readable(0 + place(l, bl, i as int)));
                        let fb = file_bytes(d1.bytes(), 0, bl, l);
                        assert(v@[0] == fb.subrange(i as int, i + 1)[0]);
                        assert(fb[i as int] == d1.bytes()[0 + place(l, bl, i as int)]);
                    }
                }
            },
            Err(_) => {
                proof {
                    if within {
                        if d1.readable(0 + place(l, bl, i as int)) {
                            assert(file_readable(d1, 0, bl, l, i as int, i + 1));
                        }
                    }
                }
            },
        }
        assert forall|j: int| i < j < n implies #[trigger] cell(s, j) == (false, 0u8) by {
            assert(cell(s1, j) == (false, 0u8));
        }
        i = i + 1;
    }
    proof {
        if within {
            assert forall|j: int| 0 <= j < n implies {
                &&& #[trigger] s.known@[j] == d0.readable(place(l, bl, j))
                &&& s.known@[j] ==> s.data@[j] == d0.bytes()[place(l, bl, j)]
                &&& !s.known@[j] ==> s.data@[j] == 0
            } by {}
        }
    }
    Ok(s)
}

/// Only blocks of a file have been changed.
pub open spec fn changed_in_blocks(a: Shadow, b: Shadow, block_len: int, file: FatFile) -> bool {
    &&& b.bytes().len() == a.bytes().len()
    &&& forall|j: int| a.readable(j) ==> #[trigger] b.readable(j)
    &&& forall|j: int|
        0 <= j < a.bytes().len() && !in_blocks(file.block_list@, 0, block_len, j)
            ==> #[trigger] b.bytes()[j] == a.bytes()[j]
}

/// Writes to a file of blocks what is known of it.
fn store_blocks(s: &Shadow, file: &FatFile, data: &mut Shadow, block_len: usize) -> (r: Result<
    (),
    Error,
>)
    requires
        s.inv(),
        old(data).inv(),
        block_len > 0,
    ensures
        final(data).inv(),
        final(data).bytes().len() == old(data).bytes().len(),
        s.data@.len() <= file.block_list@.len() * block_len && file.blocks().no_duplicates()
            && blocks_within(
            file.block_list@,
            0,
            block_len as int,
            old(data).bytes().len() as int,
        ) ==> {
            &&& r == Ok::<(), Error>(())
            &&& agrees_blocks(*s, *final(data), block_len as int, *file, s.data@.len() as int)
            &&& changed_in_blocks(*old(data), *final(data), block_len as int, *file)
        },
{
    let n: usize = s.data.len();
    let ghost d0 = *data;
    let ghost l = file.block_list@;
    let ghost bl = block_len as int;
    let ghost good = n <= l.len() * bl && file.blocks().no_duplicates() && blocks_within(
        l,
        0,
        bl,
        d0.bytes().len() as int,
    );
    let mut i: usize = 0;
    while i < n
        invariant
            i <= n == s.data@.len(),
            s.inv(),
            l == file.block_list@,
            bl == block_len,
            block_len > 0,
            data.inv(),
            data.bytes().len() == d0.bytes().len(),
            d0 == *old(data),
            good == (n <= l.len() * bl && file.blocks().no_duplicates() && blocks_within(
                l,
                0,
                bl,
                d0.bytes().len() as int,
            )),
            good ==> agrees_blocks(*s, *data, bl, *file, i as int),
            good ==> changed_in_blocks(d0, *data, bl, *file),
        decreases n - i,
    {
        if s.known[i] {
            let ghost d1 = *data;
            let piece: Vec<u8> = vec![s.data[i]];
            if let Err(e) = file.write(data, 0, block_len, i, &piece) {
                return make_error(e);
            }
            proof {
                if good {
                    let fa = file_bytes(d1.bytes(), 0, bl, l);
                    let fb = file_bytes(data.bytes(), 0, bl, l);
                    assert(fb == spliced(fa, i as int, piece@));
                    assert forall|j: int| 0 <= j < i + 1 && #[trigger] s.known@[j] implies {
                        &&& data.readable(place(l, bl, j))
                        &&& data.bytes()[place(l, bl, j)] == s.data@[j]
                    } by {
                        assert(fb[j] == data.bytes()[0 + place(l, bl, j)]);
                        assert(fa[j] == d1.bytes()[0 + place(l, bl, j)]);
                        if j == i {
                            assert(data.readable(0 + place(l, bl, j)));
                        } else {
                            assert(d1.readable(place(l, bl, j)));
                        }
                    }
                    assert forall|j: int|
                        0 <= j < d0.bytes().len() && !in_blocks(l, 0, bl, j) implies
                        #[trigger] data.bytes()[j] == d0.bytes()[j] by {
                        assert(d1.bytes()[j] == d0.bytes()[j]);
                    }
                    assert forall|j: int| d0.readable(j) implies #[trigger] data.readable(j) by {
                        assert(d1.readable(j));
                    }
                }
            }
        }
        i = i + 1;
    }
    Ok(())
}

/// How to find the parts of a volume in its partitions.
#[derive(Clone, Copy, PartialEq, Eq, Structural, Debug)]
pub struct Source {
    pub info: FsInfo,
    pub layout: MetaLayout,
    /// Where in the first partition offsets are counted from.
    pub base: u64,
    /// Whether the data area may end after the partition does.
    pub cut_off: bool,
}

impl Source {
    /// How long the data area is.
    pub open spec fn data_len(&self) -> int {
        self.info.data_block_count * self.info.block_len
    }

    /// Where the data area begins in its partition.
    pub open spec fn data_pos(&self, n: int) -> int {
        if n == 2 {
            0
        } else {
            self.base + self.info.data_offset
        }
    }

    /// How much of the data area is stored.
    pub open spec fn data_stored(&self, parts: Seq<DifiPartition>) -> int {
        if parts.len() == 2 {
            parts[1].bytes().len() as int
        } else if self.cut_off && self.data_pos(1) + self.data_len() > parts[0].bytes().len() {
            parts[0].bytes().len() - self.data_pos(1)
        } else {
            self.data_len()
        }
    }

    /// How long the data area is, with what is not stored.
    pub open spec fn data_total(&self, parts: Seq<DifiPartition>) -> int {
        if parts.len() == 2 {
            parts[1].bytes().len() as int
        } else {
            self.data_len()
        }
    }

    /// The parts that are read first are within the partitions.
    pub open spec fn fits(&self, parts: Seq<DifiPartition>) -> bool {
        let n = parts[0].bytes().len();
        let i = self.info;
        &&& self.base + i.dir_hash_offset + i.dir_buckets * 4 <= n
        &&& self.base + i.file_hash_offset + i.file_buckets * 4 <= n
        &&& self.base + i.fat_offset + (i.fat_size + 1) * 8 <= n
        &&& parts.len() == 1 ==> self.data_pos(1) <= n && self.data_pos(1) + self.data_stored(parts)
            <= n
        &&& self.data_total(parts) <= usize::MAX
    }
}

/// A byte of the shadow of the data area.
pub open spec fn shown_at(c: (bool, u8), p: DifiPartition, pos: int, stored: int, i: int) -> bool {
    if i < stored {
        c.0 == p.readable(pos + i) && c.1 == if c.0 {
            p.bytes()[pos + i]
        } else {
            0
        }
    } else {
        c == (true, 0u8)
    }
}

/// The shadow of the data area. What is not stored of it reads as zeros.
pub open spec fn data_shown(s: Shadow, p: DifiPartition, pos: int, stored: int) -> bool {
    forall|i: int|
        0 <= i < s.data@.len() ==> shown_at(#[trigger] cell(s, i), p, pos, stored, i)
}

/// The parts of a volume that can be read without knowing another part.
pub struct Pieces {
    pub dir_hash: Shadow,
    pub file_hash: Shadow,
    pub fat: Shadow,
    pub data: Shadow,
}

pub open spec fn pieces_shown(parts: Seq<DifiPartition>, src: Source, p: Pieces) -> bool {
    let i = src.info;
    let k = if parts.len() == 2 {
        1int
    } else {
        0
    };
    &&& p.dir_hash.inv() && p.dir_hash.bytes().len() == i.dir_buckets * 4
    &&& p.file_hash.inv() && p.file_hash.bytes().len() == i.file_buckets * 4
    &&& p.fat.inv() && p.fat.bytes().len() == (i.fat_size + 1) * 8
    &&& p.data.inv() && p.data.bytes().len() == src.data_total(parts)
    &&& shows(p.dir_hash, parts[0], src.base + i.dir_hash_offset)
    &&& shows(p.file_hash, parts[0], src.base + i.file_hash_offset)
    &&& shows(p.fat, parts[0], src.base + i.fat_offset)
    &&& data_shown(
        p.data,
        parts[k],
        src.data_pos(parts.len() as int),
        src.data_stored(parts),
    )
}

/// Makes a shadow of a range of the first partition. The offset is counted from `base`.
fn shadow_from(parts: &mut Vec<DifiPartition>, base: u64, offset: u64, len: u64) -> (r: Result<
    Shadow,
    Error,
>)
    requires
        parts_inv(old(parts)@),
        0 < old(parts)@.len(),
    ensures
        parts_same(old(parts)@, final(parts)@),
        match r {
            Ok(s) => {
                &&& base + offset + len <= old(parts)@[0].bytes().len()
                &&& s.inv()
                &&& s.bytes().len() == len
                &&& shows(s, old(parts)@[0], base + offset)
            },
            Err(e) => e == Error::OutOfBound && base + offset + len > old(parts)@[0].bytes().len(),
        },
{
    let _n: usize = parts[0].len();
    match base.checked_add(offset) {
        Some(pos) => shadow_of(parts, 0, pos, len),
        None => make_error(Error::OutOfBound),
    }
}

/// Fills a shadow up with zeros.
fn pad(s: &mut Shadow, n: usize)
    requires
        old(s).inv(),
        old(s).data@.len() <= n,
    ensures
        final(s).inv(),
        final(s).data@.len() == n,
        padded(*old(s), *final(s)),
{
    let ghost m = s.data@.len() as int;
    while s.data.len() < n
        invariant
            s.inv(),
            old(s).inv(),
            m == old(s).data@.len(),
            m <= s.data@.len() <= n,
            padded(*old(s), *s),
        decreases n - s.data@.len(),
    {
        let ghost t = *s;
        s.data.push(0);
        s.known.push(true);
        assert forall|i: int| 0 <= i < s.data@.len() implies #[trigger] cell(*s, i) == if i < m {
            cell(*old(s), i)
        } else {
            (true, 0u8)
        } by {
            if i < t.data@.len() {
                assert(cell(t, i) == cell(*s, i));
            }
        }
    }
}

/// The shadow filled up with zeros.
pub open spec fn padded(a: Shadow, b: Shadow) -> bool {
    forall|i: int|
        0 <= i < b.data@.len() ==> #[trigger] cell(b, i) == if i < a.data@.len() {
            cell(a, i)
        } else {
            (true, 0u8)
        }
}

proof fn lemma_shows_same(s: Shadow, a: DifiPartition, b: DifiPartition, pos: int)
    requires
        same_file(a, b),
        shows(s, b, pos),
    ensures
        shows(s, a, pos),
{
    assert forall|i: int| 0 <= i < s.data@.len() implies {
        &&& #[trigger] s.known@[i] == a.readable(pos + i)
        &&& s.known@[i] ==> s.data@[i] == a.bytes()[pos + i]
        &&& !s.known@[i] ==> s.data@[i] == 0
    } by {
        assert(b.readable(pos + i) == a.readable(pos + i));
    }
}

proof fn lemma_whole_shown(s: Shadow, p: DifiPartition, pos: int)
    requires
        shows(s, p, pos),
    ensures
        data_shown(s, p, pos, s.data@.len() as int),
{
    assert forall|i: int| 0 <= i < s.data@.len() implies shown_at(
        #[trigger] cell(s, i),
        p,
        pos,
        s.data@.len() as int,
        i,
    ) by {
        assert(s.known@[i] == p.readable(pos + i));
    }
}

proof fn lemma_padded_shown(s: Shadow, t: Shadow, p: DifiPartition, pos: int)
    requires
        s.data@.len() <= t.data@.len(),
        shows(s, p, pos),
        padded(s, t),
    ensures
        data_shown(t, p, pos, s.data@.len() as int),
{
    assert forall|i: int| 0 <= i < t.data@.len() implies shown_at(
        #[trigger] cell(t, i),
        p,
        pos,
        s.data@.len() as int,
        i,
    ) by {
        if i < s.data@.len() {
            assert(s.known@[i] == p.readable(pos + i));
        }
    }
}

/// Reads the parts of a volume that can be read without knowing another part.
fn load_pieces(parts: &mut Vec<DifiPartition>, src: &Source) -> (r: Result<Pieces, Error>)
    requires
        parts_inv(old(parts)@),
        1 <= old(parts)@.len() <= 2,
    ensures
        parts_same(old(parts)@, final(parts)@),
        match r {
            Ok(p) => src.fits(old(parts)@) && pieces_shown(old(parts)@, *src, p),
            Err(e) => e == Error::OutOfBound && !src.fits(old(parts)@),
        },
{
    let i = src.info;
    let n: usize = parts[0].len();
    let two: bool = parts.len() == 2;
    let ghost p0 = parts@;
    let dir_hash = match shadow_from(
        parts,
        src.base,
        i.dir_hash_offset,
        i.dir_buckets as u64 * 4,
    ) {
        Ok(s) => s,
        Err(e) => {
            return make_error(e);
        },
    };
    let ghost p1 = parts@;
    let file_hash = match shadow_from(
        parts,
        src.base,
        i.file_hash_offset,
        i.file_buckets as u64 * 4,
    ) {
        Ok(s) => s,
        Err(e) => {
            return make_error(e);
        },
    };
    let ghost p2 = parts@;
    let fat = match shadow_from(
        parts,
        src.base,
        i.fat_offset,
        (i.fat_size as u64 + 1) * 8,
    ) {
        Ok(s) => s,
        Err(e) => {
            return make_error(e);
        },
    };
    let ghost p3 = parts@;
    let data = if two {
        let m: usize = parts[1].len();
        match shadow_of(parts, 1, 0, m as u64) {
            Ok(s) => {
                proof {
                    lemma_shows_same(s, p0[1], p3[1], 0);
                    lemma_whole_shown(s, p0[1], 0);
                }
                s
            },
            Err(e) => {
                return make_error(e);
            },
        }
    } else {
        let pos: u64 = match src.base.checked_add(i.data_offset) {
            Some(pos) => pos,
            None => {
                return make_error(Error::OutOfBound);
            },
        };
        proof {
            assert(i.data_block_count * i.block_len <= 0xFFFF_FFFF * 0xFFFF_FFFF)
                by (nonlinear_arith)
                requires
                    i.data_block_count <= 0xFFFF_FFFF,
                    i.block_len <= 0xFFFF_FFFF,
            ;
        }
        let len: u64 = i.data_block_count as u64 * i.block_len as u64;
        if pos > n as u64 || len > usize::MAX as u64 {
            return make_error(Error::OutOfBound);
        }
        let stored: u64 = if src.cut_off && len > n as u64 - pos {
            n as u64 - pos
        } else {
            len
        };
        let mut s = match shadow_of(parts, 0, pos, stored) {
            Ok(s) => s,
            Err(e) => {
                return make_error(e);
            },
        };
        let ghost s0 = s;
        pad(&mut s, len as usize);
        proof {
            lemma_shows_same(s0, p0[0], p3[0], pos as int);
            lemma_padded_shown(s0, s, p0[0], pos as int);
        }
        s
    };
    proof {
        lemma_shows_same(file_hash, p0[0], p1[0], src.base + i.file_hash_offset);
        lemma_shows_same(fat, p0[0], p2[0], src.base + i.fat_offset);
    }
    Ok(Pieces { dir_hash, file_hash, fat, data })
}

/// The shadow of a table holds what is stored of it.
pub open spec fn table_shown(
    parts: Seq<DifiPartition>,
    data: Shadow,
    block_len: int,
    s: Shadow,
    at: TablePlace,
) -> bool {
    match at {
        TablePlace::At(pos) => {
            &&& pos + s.data@.len() <= parts[0].bytes().len()
            &&& shows(s, parts[0], pos as int)
        },
        TablePlace::Blocks(f) => {
            &&& f.inv()
            &&& s.data@.len() == f.block_list@.len() * block_len
            &&& blocks_within(f.block_list@, 0, block_len, data.bytes().len() as int)
                ==> shows_blocks(s, data, block_len, f)
        },
    }
}

/// Reads a table. With two partitions it is at an offset, else in blocks.
fn load_table(
    parts: &mut Vec<DifiPartition>,
    fat: &mut Fat<Shadow>,
    data: &mut Shadow,
    base: u64,
    table: OffsetOrFatFile,
    len: u64,
) -> (r: Result<(Shadow, TablePlace), Error>)
    requires
        parts_inv(old(parts)@),
        1 <= old(parts)@.len() <= 2,
        old(fat).inv(),
        old(data).inv(),
    ensures
        parts_same(old(parts)@, final(parts)@),
        final(fat).inv(),
        same_file(old(fat).table, final(fat).table),
        *final(fat) == (Fat { table: final(fat).table, ..*old(fat) }),
        final(data).inv(),
        same_file(*old(data), *final(data)),
        r matches Ok(t) ==> t.0.inv() && table_shown(
            old(parts)@,
            *old(data),
            old(fat).block_len as int,
            t.0,
            t.1,
        ),
        old(parts)@.len() == 2 ==> match r {
            Ok(t) => base + table.offset() + len <= old(parts)@[0].bytes().len() && t.0.data@.len()
                == len && t.1 == TablePlace::At((base + table.offset()) as u64),
            Err(e) => e == Error::OutOfBound && base + table.offset() + len > old(parts)@[0].bytes().len(),
        },
        old(parts)@.len() == 1 ==> (r matches Err(e) ==> if table.block_index + 1 >= INDEX_END {
            e == Error::OutOfBound
        } else {
            match list_from(old(fat).table, table.block_index as usize) {
                Err(x) => x == e,
                Ok(c) => e == Error::OutOfBound && maps(c).len() * old(fat).block_len > usize::MAX,
            }
        }),
        old(parts)@.len() == 1 ==> forall|c: Seq<Span>|
            old(fat).wf() && #[trigger] chain(old(fat).table, c) && c.len() > 0 && c[0].start
                == table.block_index && lists_apart(c, old(fat).free_list()) && maps(c).len()
                * old(fat).block_len <= usize::MAX ==> (r matches Ok(t) && t.1 is Blocks
                && t.1->Blocks_0.runs@ == c && t.1->Blocks_0.block_list@ == maps(c)),
{
    if parts.len() == 2 {
        let offset: u64 = table.to_offset();
        match shadow_from(parts, base, offset, len) {
            Ok(s) => {
                let _n: usize = parts[0].len();
                Ok((s, TablePlace::At(base + offset)))
            },
            Err(e) => Err(e),
        }
    } else {
        let block_len: usize = fat.block_len;
        let file = match FatFile::open(fat, table.block_index as usize) {
            Ok(f) => f,
            Err(e) => {
                return make_error(e);
            },
        };
        match load_blocks(&file, data, block_len) {
            Ok(s) => Ok((s, TablePlace::Blocks(file))),
            Err(e) => Err(e),
        }
    }
}

/// What the volume knows of a table is stored where the source tells.
pub open spec fn table_held(
    parts: Seq<DifiPartition>,
    src: Source,
    u: Volume,
    s: Shadow,
    table: OffsetOrFatFile,
    len: int,
    key: int,
) -> bool {
    if parts.len() == 2 {
        &&& s.data@.len() == len
        &&& src.base + table.offset() + len <= parts[0].bytes().len()
        &&& agrees(s, parts[0], src.base + table.offset())
    } else {
        &&& u.chains@.contains_key(key)
        &&& u.chains@[key].len() > 0
        &&& u.chains@[key][0].start == table.block_index
        &&& u.list(key).len() * u.block_len() == s.data@.len() <= usize::MAX
        &&& blocks_within(u.list(key), 0, u.block_len(), src.data_stored(parts))
        &&& forall|f: FatFile| #[trigger]
            f.inv() && f.block_list@ == u.list(key) ==> agrees_blocks(
                s,
                u.data,
                u.block_len(),
                f,
                s.data@.len() as int,
            )
    }
}

/// What is known of the part of the data area that can be stored is stored.
pub open spec fn data_held(s: Shadow, p: DifiPartition, pos: int, stored: int) -> bool {
    forall|i: int|
        0 <= i < s.data@.len() && i < stored && (#[trigger] cell(s, i)).0 ==> p.readable(pos + i)
            && p.bytes()[pos + i] == s.data@[i]
}

/// What is known of the parts of a volume is stored.
pub open spec fn pieces_held(parts: Seq<DifiPartition>, src: Source, p: Pieces) -> bool {
    let i = src.info;
    let k = if parts.len() == 2 {
        1int
    } else {
        0
    };
    &&& p.dir_hash.inv() && p.dir_hash.bytes().len() == i.dir_buckets * 4
    &&& p.file_hash.inv() && p.file_hash.bytes().len() == i.file_buckets * 4
    &&& p.fat.inv() && p.fat.bytes().len() == (i.fat_size + 1) * 8
    &&& p.data.inv() && p.data.bytes().len() == src.data_total(parts)
    &&& agrees(p.dir_hash, parts[0], src.base + i.dir_hash_offset)
    &&& agrees(p.file_hash, parts[0], src.base + i.file_hash_offset)
    &&& agrees(p.fat, parts[0], src.base + i.fat_offset)
    &&& data_held(p.data, parts[k], src.data_pos(parts.len() as int), src.data_stored(parts))
}

/// The length of a table of directories or files.
pub open spec fn table_len(count: int, key_len: usize, info_len: usize) -> int {
    count * (key_len + info_len + 4)
}

/// The partitions hold the volume.
pub open spec fn holds(parts: Seq<DifiPartition>, src: Source, u: Volume) -> bool {
    let i = src.info;
    &&& i.data_block_count == i.fat_size
    &&& i.block_len > 0
    &&& src.fits(parts)
    &&& u.framed()
    &&& u.fat.block_len == i.block_len
    &&& u.fs.dirs.key_len == src.layout.dir_key_len
    &&& u.fs.dirs.info_len == src.layout.dir_info_len
    &&& u.fs.files.key_len == src.layout.file_key_len
    &&& u.fs.files.info_len == src.layout.file_info_len
    &&& i.dir_buckets > 0
    &&& i.file_buckets > 0
    &&& pieces_held(
        parts,
        src,
        Pieces {
            dir_hash: u.fs.dirs.hash,
            file_hash: u.fs.files.hash,
            fat: u.fat.table,
            data: u.data,
        },
    )
    &&& table_held(
        parts,
        src,
        u,
        u.fs.dirs.table,
        i.dir_table,
        table_len(i.max_dir + 2, src.layout.dir_key_len, src.layout.dir_info_len),
        -1,
    )
    &&& table_held(
        parts,
        src,
        u,
        u.fs.files.table,
        i.file_table,
        table_len(i.max_file + 1, src.layout.file_key_len, src.layout.file_info_len),
        -2,
    )
}

proof fn lemma_agrees_more(s: Shadow, t: Shadow, p: DifiPartition, pos: int)
    requires
        s.inv(),
        t.inv(),
        s.data@.len() == t.data@.len(),
        agrees(s, p, pos),
        shows(t, p, pos),
    ensures
        more(s, t),
{
    reveal(more);
    assert forall|i: int| 0 <= i < s.data@.len() && (#[trigger] cell(s, i)).0 implies cell(t, i)
        == cell(s, i) by {
        assert(s.known@[i]);
        assert(t.known@[i] == p.readable(pos + i));
    }
}

proof fn lemma_data_more(s: Shadow, t: Shadow, p: DifiPartition, pos: int, stored: int)
    requires
        s.inv(),
        t.inv(),
        s.data@.len() == t.data@.len(),
        data_held(s, p, pos, stored),
        data_shown(t, p, pos, stored),
    ensures
        more_to(s, t, stored),
{
    reveal(more_to);
    assert forall|i: int|
        0 <= i < s.data@.len() && i < stored && (#[trigger] cell(s, i)).0 implies cell(t, i)
        == cell(s, i) by {
        assert(shown_at(cell(t, i), p, pos, stored, i));
    }
}

proof fn lemma_blocks_more(
    s: Shadow,
    t: Shadow,
    a: Shadow,
    b: Shadow,
    bl: int,
    f: FatFile,
    n: int,
)
    requires
        s.inv(),
        t.inv(),
        s.data@.len() == t.data@.len() == f.block_list@.len() * bl,
        bl > 0,
        more_to(a, b, n),
        blocks_within(f.block_list@, 0, bl, n),
        agrees_blocks(s, a, bl, f, s.data@.len() as int),
        shows_blocks(t, b, bl, f),
    ensures
        more(s, t),
{
    reveal(more);
    reveal(more_to);
    let l = f.block_list@;
    assert forall|i: int| 0 <= i < s.data@.len() && (#[trigger] cell(s, i)).0 implies cell(t, i)
        == cell(s, i) by {
        assert(s.known@[i]);
        let j = place(l, bl, i);
        lemma_block_of(bl, l.len() as int, i);
        assert(a.readable(j));
        assert(cell(a, j).0);
        assert(cell(b, j) == cell(a, j));
        assert(t.known@[i] == b.readable(j));
    }
}

/// The pieces that have been read show what the volume knows that the partitions hold.
pub proof fn lemma_pieces_more(parts: Seq<DifiPartition>, src: Source, u: Volume, p: Pieces)
    requires
        holds(parts, src, u),
        pieces_shown(parts, src, p),
    ensures
        more(u.fs.dirs.hash, p.dir_hash),
        more(u.fs.files.hash, p.file_hash),
        more(u.fat.table, p.fat),
        more_to(u.data, p.data, src.data_stored(parts)),
{
    let i = src.info;
    lemma_agrees_more(u.fs.dirs.hash, p.dir_hash, parts[0], src.base + i.dir_hash_offset);
    lemma_agrees_more(u.fs.files.hash, p.file_hash, parts[0], src.base + i.file_hash_offset);
    lemma_agrees_more(u.fat.table, p.fat, parts[0], src.base + i.fat_offset);
    let k = if parts.len() == 2 {
        1int
    } else {
        0
    };
    lemma_data_more(
        u.data,
        p.data,
        parts[k],
        src.data_pos(parts.len() as int),
        src.data_stored(parts),
    );
}

/// A table of blocks is as sound as one of which less is known.
proof fn lemma_fat_stored(u: Volume, t: Shadow)
    requires
        u.framed(),
        more(u.fat.table, t),
    ensures
        sound(t, u.fat.free_list()),
        u.fat.free_count() == maps(u.fat.free_list()).len(),
{
    reveal(fat_sound);
    lemma_fat_more(u.fat.table, t, u.fat.free_list());
}

/// The table that has been read shows what the volume knows that the partitions hold.
pub proof fn lemma_table_more(
    parts: Seq<DifiPartition>,
    src: Source,
    u: Volume,
    us: Shadow,
    table: OffsetOrFatFile,
    len: int,
    key: int,
    data: Shadow,
    s: Shadow,
    at: TablePlace,
)
    requires
        u.framed(),
        us.inv(),
        s.inv(),
        table_held(parts, src, u, us, table, len, key),
        more_to(u.data, data, src.data_stored(parts)),
        table_shown(parts, data, u.block_len(), s, at),
        parts.len() == 2 ==> s.data@.len() == len && at == TablePlace::At(
            (src.base + table.offset()) as u64,
        ) && src.base + table.offset() <= u64::MAX,
        parts.len() != 2 ==> at is Blocks && at->Blocks_0.block_list@ == u.list(key),
    ensures
        more(us, s),
{
    if parts.len() == 2 {
        lemma_agrees_more(us, s, parts[0], src.base + table.offset());
    } else {
        let f = at->Blocks_0;
        reveal(more_to);
        lemma_list(u, key);
        lemma_blocks_more(us, s, u.data, data, u.block_len(), f, src.data_stored(parts));
    }
}

/// What has been read of the partitions makes up the volume.
pub open spec fn mounted(parts: Seq<DifiPartition>, src: Source, v: Volume, st: Store) -> bool {
    let i = src.info;
    &&& v.inv()
    &&& v.fat.block_len == i.block_len
    &&& v.fs.dirs.key_len == src.layout.dir_key_len
    &&& v.fs.dirs.info_len == src.layout.dir_info_len
    &&& v.fs.files.key_len == src.layout.file_key_len
    &&& v.fs.files.info_len == src.layout.file_info_len
    &&& pieces_shown(
        parts,
        src,
        Pieces {
            dir_hash: v.fs.dirs.hash,
            file_hash: v.fs.files.hash,
            fat: v.fat.table,
            data: v.data,
        },
    )
    &&& table_shown(parts, v.data, v.block_len(), v.fs.dirs.table, st.dir_table)
    &&& table_shown(parts, v.data, v.block_len(), v.fs.files.table, st.file_table)
    &&& st.dir_hash == src.base + i.dir_hash_offset
    &&& st.file_hash == src.base + i.file_hash_offset
    &&& st.fat == src.base + i.fat_offset
    &&& st.data_part == parts.len() - 1
    &&& st.data == src.data_pos(parts.len() as int)
    &&& st.data_len == src.data_stored(parts)
    &&& forall|k: u32| #[trigger] v.fs.dirs.handles(k) == 0
    &&& forall|k: u32| #[trigger] v.fs.files.handles(k) == 0
}

proof fn lemma_pieces_same(parts: Seq<DifiPartition>, src: Source, p: Pieces, q: Pieces)
    requires
        pieces_shown(parts, src, p),
        p.dir_hash.data == q.dir_hash.data && p.dir_hash.known == q.dir_hash.known,
        p.file_hash.data == q.file_hash.data && p.file_hash.known == q.file_hash.known,
        q.fat.inv(),
        same_file(p.fat, q.fat),
        q.data.inv(),
        same_file(p.data, q.data),
    ensures
        pieces_shown(parts, src, q),
{
    assert forall|i: int| 0 <= i < q.fat.data@.len() implies q.fat.known@[i] == p.fat.known@[i] by {
        assert(q.fat.readable(i) == p.fat.readable(i));
    }
    assert forall|i: int| 0 <= i < q.data.data@.len() implies #[trigger] cell(q.data, i) == cell(
        p.data,
        i,
    ) by {
        assert(q.data.readable(i) == p.data.readable(i));
    }
}

/// The partitions hold a volume that is sound.
pub open spec fn holds_sound(parts: Seq<DifiPartition>, src: Source) -> bool {
    exists|u: Volume| #[trigger] holds(parts, src, u) && u.sound()
}

/// The volume is one that the partitions hold, and a sound one where they hold a sound one.
pub open spec fn shown_as(parts: Seq<DifiPartition>, src: Source, v: Volume) -> bool {
    exists|u: Volume| #[trigger]
        holds(parts, src, u) && v.tree() == u.tree() && v.chains == u.chains && more_to(
            u.data,
            v.data,
            src.data_stored(parts),
        ) && (u.sound() ==> v.sound()) && (holds_sound(parts, src) ==> u.sound())
}

impl Source {
    /// How much of the data area is stored.
    fn stored_len(&self, parts: &Vec<DifiPartition>) -> (r: u64)
        requires
            parts_inv(parts@),
            1 <= parts@.len() <= 2,
            self.fits(parts@),
        ensures
            r == self.data_stored(parts@),
    {
        if parts.len() == 2 {
            return parts[1].len() as u64;
        }
        let n: u64 = parts[0].len() as u64;
        let i = self.info;
        proof {
            lemma_mul_upper_bound(
                i.data_block_count as int,
                0xFFFF_FFFF,
                i.block_len as int,
                0xFFFF_FFFF,
            );
        }
        let len: u64 = i.data_block_count as u64 * i.block_len as u64;
        let room: u64 = n - (self.base + i.data_offset);
        if self.cut_off && len > room {
            room
        } else {
            len
        }
    }
}

/// Reading a table fails with an error: it is not within the first partition, or its list of blocks
/// cannot be followed, or is longer than can be counted.
pub open spec fn table_refused(
    parts: Seq<DifiPartition>,
    src: Source,
    fat: Shadow,
    table: OffsetOrFatFile,
    len: int,
    e: Error,
) -> bool {
    if parts.len() == 2 {
        e == Error::OutOfBound && src.base + table.offset() + len > parts[0].bytes().len()
    } else if table.block_index + 1 >= INDEX_END {
        e == Error::OutOfBound
    } else {
        exists|t: Shadow| #[trigger]
            same_file(fat, t) && (match list_from(t, table.block_index as usize) {
                Err(x) => x == e,
                Ok(c) => e == Error::OutOfBound && maps(c).len() * src.info.block_len > usize::MAX,
            })
    }
}

/// What has been read of a volume is refused with an error: the table of blocks does not fit the
/// data area, its free blocks cannot be listed, a table of entries cannot be read, or there are no
/// buckets.
pub open spec fn pieces_refused(
    parts: Seq<DifiPartition>,
    src: Source,
    p: Pieces,
    e: Error,
) -> bool {
    let i = src.info;
    let l = src.layout;
    ||| e == Error::SizeMismatch && p.data.bytes().len() != i.fat_size * i.block_len
    ||| p.data.bytes().len() == i.fat_size * i.block_len && (match free_runs(p.fat) {
        Err(x) => x == e,
        Ok(c) => e == Error::BrokenFat && maps(c).len() > usize::MAX,
    })
    ||| table_refused(
        parts,
        src,
        p.fat,
        i.dir_table,
        table_len(i.max_dir + 2, l.dir_key_len, l.dir_info_len),
        e,
    )
    ||| table_refused(
        parts,
        src,
        p.fat,
        i.file_table,
        table_len(i.max_file + 1, l.file_key_len, l.file_info_len),
        e,
    )
    ||| e == Error::SizeMismatch && (i.dir_buckets == 0 || i.file_buckets == 0)
}

/// Opening a volume fails with an error: the numbers of blocks differ, a part is not within the
/// partitions, blocks have no length, or what is read is refused.
pub open spec fn mount_refused(parts: Seq<DifiPartition>, src: Source, e: Error) -> bool {
    let i = src.info;
    if i.data_block_count != i.fat_size {
        e == Error::SizeMismatch
    } else if !src.fits(parts) {
        e == Error::OutOfBound
    } else if i.block_len == 0 {
        e == Error::SizeMismatch
    } else {
        exists|p: Pieces| #[trigger]
            pieces_shown(parts, src, p) && pieces_refused(parts, src, p, e)
    }
}

impl Volume {
    /// Opens the volume that some partitions hold.
    #[verifier::rlimit(60)]
    pub fn mount(parts: &mut Vec<DifiPartition>, src: &Source) -> (r: Result<(Volume, Store), Error>)
        requires
            parts_inv(old(parts)@),
            1 <= old(parts)@.len() <= 2,
            src.layout.short(),
            src.layout.file_info_len >= 20,
        ensures
            parts_same(old(parts)@, final(parts)@),
            src.info.data_block_count != src.info.fat_size ==> r == Err::<(Volume, Store), Error>(
                Error::SizeMismatch,
            ),
            src.info.data_block_count == src.info.fat_size && !src.fits(old(parts)@) ==> r == Err::<
                (Volume, Store),
                Error,
            >(Error::OutOfBound),
            r matches Ok(m) ==> mounted(old(parts)@, *src, m.0, m.1),
            r matches Err(e) ==> mount_refused(old(parts)@, *src, e),
            forall|u: Volume| #[trigger] holds(old(parts)@, *src, u) ==> (r matches Ok(m)
                && m.0.framed() && m.1.ready(m.0) && shown_as(old(parts)@, *src, m.0) && told(
                    *src,
                    m.0,
                    m.1,
                    old(parts)@,
                )),
    {
        let i = src.info;
        let ghost p0 = parts@;
        if i.data_block_count != i.fat_size {
            return make_error(Error::SizeMismatch);
        }
        let pieces = match load_pieces(parts, src) {
            Ok(p) => p,
            Err(e) => {
                return make_error(e);
            },
        };
        let ghost pc = pieces;
        let two: bool = parts.len() == 2;
        let stored_len: u64 = src.stored_len(parts);
        let Pieces { dir_hash, file_hash, fat: fat_table, data: mut data } = pieces;
        if i.block_len == 0 {
            return make_error(Error::SizeMismatch);
        }
        let ghost w = if holds_sound(p0, *src) {
            choose|u: Volume| #[trigger] holds(p0, *src, u) && u.sound()
        } else {
            choose|u: Volume| #[trigger] holds(p0, *src, u)
        };
        let ghost good = exists|u: Volume| #[trigger] holds(p0, *src, u);
        proof {
            if good {
                lemma_pieces_more(p0, *src, w, pc);
                lemma_fat_stored(w, fat_table);
            }
        }
        let data_len: usize = data.len();
        let mut fat = match Fat::new(fat_table, data_len, i.block_len as usize) {
            Ok(f) => f,
            Err(e) => {
                assert(pieces_refused(p0, *src, pc, e));
                return make_error(e);
            },
        };
        let entry: u64 = (src.layout.dir_key_len + src.layout.dir_info_len + 4) as u64;
        proof {
            lemma_mul_upper_bound(i.max_dir + 2, 0x1_0000_0001, entry as int, 0x804);
        }
        let dir_len: u64 = (i.max_dir as u64 + 2) * entry;
        let ghost f1 = fat;
        let ghost d1 = data;
        proof {
            if good {
                lemma_more_same(w.fat.table, pc.fat, f1.table);
            }
            if good && p0.len() == 1 {
                lemma_table_opens(
                    p0,
                    *src,
                    w,
                    w.fs.dirs.table,
                    i.dir_table,
                    dir_len as int,
                    -1,
                    f1,
                );
            }
        }
        let (dir_table, dir_place) = match load_table(
            parts,
            &mut fat,
            &mut data,
            src.base,
            i.dir_table,
            dir_len,
        ) {
            Ok(t) => t,
            Err(e) => {
                assert(same_file(pc.fat, f1.table));
                assert(pieces_refused(p0, *src, pc, e));
                return make_error(e);
            },
        };
        let entry: u64 = (src.layout.file_key_len + src.layout.file_info_len + 4) as u64;
        proof {
            lemma_mul_upper_bound(i.max_file + 1, 0x1_0000_0000, entry as int, 0x804);
        }
        let file_len: u64 = (i.max_file as u64 + 1) * entry;
        let ghost p2 = parts@;
        let ghost f2 = fat;
        let ghost d2 = data;
        proof {
            if good {
                lemma_fat_same(f1, f2);
                lemma_more_same(w.fat.table, f1.table, f2.table);
            }
        }
        proof {
            if good && p0.len() == 1 {
                lemma_table_opens(
                    p0,
                    *src,
                    w,
                    w.fs.files.table,
                    i.file_table,
                    file_len as int,
                    -2,
                    f2,
                );
            }
        }
        let (file_table, file_place) = match load_table(
            parts,
            &mut fat,
            &mut data,
            src.base,
            i.file_table,
            file_len,
        ) {
            Ok(t) => t,
            Err(e) => {
                assert(same_file(pc.fat, f2.table));
                assert(same_file(p0[0], p2[0]));
                assert(pieces_refused(p0, *src, pc, e));
                return make_error(e);
            },
        };
        let ghost p3 = parts@;
        let mut fs = match FsMeta::new(dir_hash, dir_table, file_hash, file_table, src.layout) {
            Ok(fs) => fs,
            Err(e) => {
                assert(pieces_refused(p0, *src, pc, e));
                return make_error(e);
            },
        };
        fs.dirs.lists = Ghost(w.fs.dirs.lists@);
        fs.files.lists = Ghost(w.fs.files.lists@);
        fs.tree = Ghost(w.fs.tree@);
        let v = Volume { fs, fat, data, chains: Ghost(w.chains@) };
        let _n: usize = parts[0].len();
        let store = Store {
            dir_hash: src.base + i.dir_hash_offset,
            file_hash: src.base + i.file_hash_offset,
            fat: src.base + i.fat_offset,
            dir_table: dir_place,
            file_table: file_place,
            data_part: if two {
                1
            } else {
                0
            },
            data: if two {
                0
            } else {
                src.base + i.data_offset
            },
            data_len: stored_len,
        };
        proof {
            lemma_pieces_same(
                p0,
                *src,
                pc,
                Pieces {
                    dir_hash: v.fs.dirs.hash,
                    file_hash: v.fs.files.hash,
                    fat: v.fat.table,
                    data: v.data,
                },
            );
            lemma_table_kept(p0, p0, d1, v.data, v.block_len(), dir_table, dir_place);
            lemma_table_kept(p0, p2, d2, v.data, v.block_len(), file_table, file_place);
            if good {
                lemma_more_same(w.fat.table, f2.table, v.fat.table);
                lemma_more_to_same(w.data, d1, v.data, src.data_stored(p0));
                lemma_table_more(
                    p0,
                    *src,
                    w,
                    w.fs.dirs.table,
                    i.dir_table,
                    dir_len as int,
                    -1,
                    v.data,
                    dir_table,
                    dir_place,
                );
                lemma_table_more(
                    p0,
                    *src,
                    w,
                    w.fs.files.table,
                    i.file_table,
                    file_len as int,
                    -2,
                    v.data,
                    file_table,
                    file_place,
                );
                reveal(more_to);
                lemma_volume_more(w, v);
                reveal(more);
            }
        }
        Ok((v, store))
    }
}

/// A table is shown by partitions and data that hold the same.
proof fn lemma_table_kept(
    p: Seq<DifiPartition>,
    q: Seq<DifiPartition>,
    d: Shadow,
    e: Shadow,
    block_len: int,
    s: Shadow,
    at: TablePlace,
)
    requires
        p.len() > 0,
        q.len() > 0,
        same_file(p[0], q[0]),
        same_file(d, e),
        table_shown(q, d, block_len, s, at),
    ensures
        table_shown(p, e, block_len, s, at),
{
    match at {
        TablePlace::At(pos) => {
            lemma_shows_same(s, p[0], q[0], pos as int);
        },
        TablePlace::Blocks(f) => {
            if blocks_within(f.block_list@, 0, block_len, e.bytes().len() as int) {
                let l = f.block_list@;
                assert forall|i: int| 0 <= i < s.data@.len() implies {
                    &&& #[trigger] s.known@[i] == e.readable(place(l, block_len, i))
                    &&& s.known@[i] ==> s.data@[i] == e.bytes()[place(l, block_len, i)]
                    &&& !s.known@[i] ==> s.data@[i] == 0
                } by {
                    assert(s.known@[i] == d.readable(place(l, block_len, i)));
                    assert(e.readable(place(l, block_len, i)) == d.readable(place(l, block_len, i)));
                }
            }
        },
    }
}

/// The table of a volume can be opened.
proof fn lemma_table_opens(
    parts: Seq<DifiPartition>,
    src: Source,
    u: Volume,
    us: Shadow,
    table: OffsetOrFatFile,
    len: int,
    key: int,
    fat: Fat<Shadow>,
)
    requires
        u.framed(),
        table_held(parts, src, u, us, table, len, key),
        more(u.fat.table, fat.table),
        fat.free_list() == u.fat.free_list(),
        fat.block_len == u.fat.block_len,
        parts.len() != 2,
    ensures
        ({
            let c = u.chains@[key];
            &&& chain(fat.table, c)
            &&& c.len() > 0
            &&& c[0].start == table.block_index
            &&& lists_apart(c, fat.free_list())
            &&& maps(c).len() * fat.block_len <= usize::MAX
        }),
{
    assert(u.chain_ok(key));
    lemma_fat_more(u.fat.table, fat.table, u.fat.free_list());
    assert(chain(fat.table, u.chains@[key]));
}

/// What a file of other blocks holds is not touched.
proof fn lemma_other_content(a: Volume, d: Shadow, k: int, g: int, f: FatFile)
    requires
        a.framed(),
        a.chains@.contains_key(k),
        a.chains@.contains_key(g),
        k != g,
        f.block_list@ == a.list(k),
        changed_in_blocks(a.data, d, a.block_len(), f),
    ensures
        file_bytes(d.bytes(), 0, a.block_len(), a.list(g)) == file_bytes(
            a.data.bytes(),
            0,
            a.block_len(),
            a.list(g),
        ),
{
    let bl = a.block_len();
    let list = a.list(k);
    let other = a.list(g);
    lemma_list(a, g);
    assert(a.chain_ok(k) && a.chain_ok(g));
    assert(lists_apart(a.chains@[k], a.chains@[g]));
    assert(block_count(a.fat.table) <= usize::MAX) by {
        reveal(fat_sound);
    }
    lemma_lists_differ(a.chains@[k], a.chains@[g], block_count(a.fat.table));
    let oa = file_bytes(a.data.bytes(), 0, bl, other);
    let ob = file_bytes(d.bytes(), 0, bl, other);
    assert forall|t: int| 0 <= t < ob.len() implies ob[t] == oa[t] by {
        lemma_block_of(bl, other.len() as int, t);
        let x = t / bl;
        let j = place(other, bl, t);
        assert(0 + other[x].block_index * bl + bl <= a.data.bytes().len());
        lemma_mul_nonnegative(other[x].block_index as int, bl);
        if in_blocks(list, 0, bl, j) {
            let y = choose|y: int|
                0 <= y < list.len() && 0 + (#[trigger] list[y]).block_index * bl <= j < 0
                    + list[y].block_index * bl + bl;
            assert(list[y].block_index != other[x].block_index);
            lemma_blocks_apart(bl, list[y].block_index as int, other[x].block_index as int);
        }
        assert(d.bytes()[j] == a.data.bytes()[j]);
    }
    assert(ob =~= oa);
}

/// What writing a table to its blocks makes of a volume: nothing but those blocks has changed.
pub open spec fn table_stored(a: Volume, b: Volume, key: int) -> bool {
    &&& b.fs == a.fs
    &&& b.fat == a.fat
    &&& b.chains == a.chains
    &&& b.data.bytes().len() == a.data.bytes().len()
    &&& forall|g: int|
        g != key && a.chains@.contains_key(g) ==> #[trigger] b.content(g) == a.content(g)
}

proof fn lemma_table_stored(a: Volume, b: Volume, key: int, f: FatFile)
    requires
        a.framed(),
        a.chains@.contains_key(key),
        f.block_list@ == a.list(key),
        b == (Volume { data: b.data, ..a }),
        b.data.inv(),
        changed_in_blocks(a.data, b.data, a.block_len(), f),
    ensures
        b.framed(),
        a.sound() ==> b.sound(),
        table_stored(a, b, key),
{
    assert forall|g: int| g != key && a.chains@.contains_key(g) implies #[trigger] b.content(g)
        == a.content(g) by {
        lemma_other_content(a, b.data, key, g, f);
    }
    if a.sound() {
        assert forall|g: int| #[trigger] b.tree().files.contains_key(g) implies g >= 0 && b.file_ok(
            g,
        ) by {
            assert(a.tree().files.contains_key(g));
            assert(a.file_ok(g));
        }
    }
    assert forall|g: int| #[trigger] b.chains@.contains_key(g) implies b.chain_ok(g) by {
        assert(a.chain_ok(g));
    }
}

/// A part of a volume and where it is stored in a partition.
pub struct Piece {
    pub pos: u64,
    pub shadow: Shadow,
}

/// The pieces are within a file of `n` bytes.
pub open spec fn within(p: Seq<Piece>, n: int) -> bool {
    forall|k: int| 0 <= k < p.len() ==> (#[trigger] p[k]).pos + p[k].shadow.data@.len() <= n
        && p[k].shadow.inv()
}

/// No two pieces overlap.
pub open spec fn pieces_apart(p: Seq<Piece>) -> bool {
    forall|j: int, k: int|
        0 <= j < k < p.len() ==> ranges_apart(
            (#[trigger] p[j]).pos as int,
            p[j].shadow.data@.len() as int,
            (#[trigger] p[k]).pos as int,
            p[k].shadow.data@.len() as int,
        )
}

/// What the pieces know is in the file.
pub open spec fn pieces_agree(p: Seq<Piece>, f: DifiPartition, n: int) -> bool {
    forall|k: int| 0 <= k < n ==> agrees((#[trigger] p[k]).shadow, f, p[k].pos as int)
}

/// Whether a position is in one of the ranges.
pub open spec fn covered(r: Seq<(int, int)>, i: int) -> bool {
    exists|k: int| 0 <= k < r.len() && (#[trigger] r[k]).0 <= i < r[k].0 + r[k].1
}

/// Nothing but the ranges has changed, and what could be read can still be read.
pub open spec fn kept_outside(a: DifiPartition, b: DifiPartition, r: Seq<(int, int)>) -> bool {
    &&& b.bytes().len() == a.bytes().len()
    &&& forall|i: int| a.readable(i) ==> #[trigger] b.readable(i)
    &&& forall|i: int|
        0 <= i < a.bytes().len() && !covered(r, i) ==> #[trigger] b.bytes()[i] == a.bytes()[i]
}

/// The ranges of the pieces.
pub open spec fn piece_ranges(p: Seq<Piece>) -> Seq<(int, int)> {
    Seq::new(p.len(), |k: int| (p[k].pos as int, p[k].shadow.data@.len() as int))
}

/// The partitions have the same lengths as before.
pub open spec fn parts_kept(a: Seq<DifiPartition>, b: Seq<DifiPartition>) -> bool {
    &&& b.len() == a.len()
    &&& forall|k: int|
        0 <= k < a.len() ==> (#[trigger] b[k]).inv() && b[k].shape() == a[k].shape()
            && b[k].bytes().len() == a[k].bytes().len()
}

proof fn lemma_agrees_kept(s: Shadow, a: DifiPartition, b: DifiPartition, pos: int, at: int, len: int)
    requires
        agrees(s, a, pos),
        changed_within(a, b, at, len),
        ranges_apart(pos, s.data@.len() as int, at, len),
        0 <= pos,
        pos + s.data@.len() <= a.bytes().len(),
    ensures
        agrees(s, b, pos),
{
    assert forall|i: int| 0 <= i < s.data@.len() && #[trigger] s.known@[i] implies b.readable(
        pos + i,
    ) && b.bytes()[pos + i] == s.data@[i] by {
        assert(a.readable(pos + i));
    }
}

/// Writes pieces to a partition.
fn flush_all(parts: &mut Vec<DifiPartition>, part: usize, pieces: &Vec<Piece>) -> (r: Result<
    (),
    Error,
>)
    requires
        parts_inv(old(parts)@),
        part < old(parts)@.len(),
        within(pieces@, old(parts)@[part as int].bytes().len() as int),
    ensures
        r == Ok::<(), Error>(()),
        parts_kept(old(parts)@, final(parts)@),
        forall|k: int|
            0 <= k < old(parts)@.len() && k != part ==> #[trigger] final(parts)@[k] == old(parts)@[k],
        kept_outside(
            old(parts)@[part as int],
            final(parts)@[part as int],
            piece_ranges(pieces@),
        ),
        pieces_apart(pieces@) ==> pieces_agree(
            pieces@,
            final(parts)@[part as int],
            pieces@.len() as int,
        ),
{
    let n: usize = pieces.len();
    let ghost p0 = parts@;
    let mut k: usize = 0;
    while k < n
        invariant
            k <= n == pieces@.len(),
            part < p0.len(),
            p0 == old(parts)@,
            parts_inv(parts@),
            parts_kept(p0, parts@),
            within(pieces@, p0[part as int].bytes().len() as int),
            forall|j: int| 0 <= j < p0.len() && j != part ==> #[trigger] parts@[j] == p0[j],
            kept_outside(p0[part as int], parts@[part as int], piece_ranges(pieces@)),
            pieces_apart(pieces@) ==> pieces_agree(pieces@, parts@[part as int], k as int),
        decreases n - k,
    {
        let ghost p1 = parts@;
        let piece = &pieces[k];
        assert(pieces@[k as int].pos + pieces@[k as int].shadow.data@.len()
            <= p0[part as int].bytes().len());
        assert(parts@[part as int].bytes().len() == p0[part as int].bytes().len());
        if let Err(e) = piece.shadow.flush(&mut parts[part], piece.pos) {
            return make_error(e);
        }
        proof {
            assert forall|j: int| 0 <= j < p0.len() implies (#[trigger] parts@[j]).inv()
                && parts@[j].shape() == p0[j].shape() && parts@[j].bytes().len()
                == p0[j].bytes().len() by {
                assert(p1[j].shape() == p0[j].shape());
            }
            let pr = piece_ranges(pieces@);
            assert forall|i: int|
                0 <= i < p0[part as int].bytes().len() && !covered(
                    pr,
                    i,
                ) implies #[trigger] parts@[part as int].bytes()[i]
                == p0[part as int].bytes()[i] by {
                assert(!(pr[k as int].0 <= i < pr[k as int].0 + pr[k as int].1));
                assert(p1[part as int].bytes()[i] == p0[part as int].bytes()[i]);
            }
            assert forall|i: int|
                p0[part as int].readable(i) implies #[trigger] parts@[part as int].readable(i) by {
                assert(p1[part as int].readable(i));
            }
            if pieces_apart(pieces@) {
                assert forall|j: int| 0 <= j < k + 1 implies agrees(
                    (#[trigger] pieces@[j]).shadow,
                    parts@[part as int],
                    pieces@[j].pos as int,
                ) by {
                    if j < k {
                        assert(agrees(pieces@[j].shadow, p1[part as int], pieces@[j].pos as int));
                        assert(ranges_apart(
                            pieces@[j].pos as int,
                            pieces@[j].shadow.data@.len() as int,
                            pieces@[k as int].pos as int,
                            pieces@[k as int].shadow.data@.len() as int,
                        ));
                        lemma_agrees_kept(
                            pieces@[j].shadow,
                            p1[part as int],
                            parts@[part as int],
                            pieces@[j].pos as int,
                            pieces@[k as int].pos as int,
                            pieces@[k as int].shadow.data@.len() as int,
                        );
                    }
                }
            }
        }
        k = k + 1;
    }
    Ok(())
}

/// The first bytes of a shadow.
fn head(s: &Shadow, n: usize) -> (r: Shadow)
    requires
        s.inv(),
        n <= s.data@.len(),
    ensures
        r.inv(),
        r.data@ == s.data@.take(n as int),
        r.known@ == s.known@.take(n as int),
{
    let data = copy_range(&s.data, 0, n);
    let mut known: Vec<bool> = Vec::new();
    let mut k: usize = 0;
    while k < n
        invariant
            k <= n <= s.known@.len(),
            known@ == s.known@.take(k as int),
        decreases n - k,
    {
        known.push(s.known[k]);
        k = k + 1;
        assert(known@ =~= s.known@.take(k as int));
    }
    assert(data@ =~= s.data@.take(n as int));
    Shadow { data, known }
}

impl TablePlace {
    /// The blocks of the table are below a position of the data area.
    pub open spec fn below(&self, block_len: int, n: int) -> bool {
        match *self {
            TablePlace::At(_) => true,
            TablePlace::Blocks(f) => blocks_within(f.block_list@, 0, block_len, n),
        }
    }

    /// Where in the first partition the table is, and how long it is. Nothing of a table in blocks
    /// is there.
    pub open spec fn range(&self, s: Shadow) -> (int, int) {
        match *self {
            TablePlace::At(pos) => (pos as int, s.data@.len() as int),
            TablePlace::Blocks(_) => (0, 0),
        }
    }
}

impl Store {
    /// The ranges of the first partition that belong to the volume.
    pub open spec fn ranges(&self, v: Volume) -> Seq<(int, int)> {
        seq![
            (self.dir_hash as int, v.fs.dirs.hash.data@.len() as int),
            (self.file_hash as int, v.fs.files.hash.data@.len() as int),
            (self.fat as int, v.fat.table.data@.len() as int),
            self.dir_table.range(v.fs.dirs.table),
            self.file_table.range(v.fs.files.table),
            if self.data_part == 0 {
                (self.data as int, self.data_len as int)
            } else {
                (0, 0)
            },
        ]
    }

    /// The volume has its place in the partitions.
    pub open spec fn room(&self, v: Volume, parts: Seq<DifiPartition>) -> bool {
        &&& 0 < parts.len()
        &&& self.data_part < parts.len()
        &&& self.data_len <= v.data.data@.len()
        &&& self.data + self.data_len <= parts[self.data_part as int].bytes().len()
        &&& forall|k: int|
            0 <= k < 6 ==> (#[trigger] self.ranges(v)[k]).0 + self.ranges(v)[k].1
                <= parts[0].bytes().len()
    }

    /// The tables that are in blocks are in the part of the data area that is stored.
    pub open spec fn tables_below(&self, v: Volume) -> bool {
        &&& self.dir_table.below(v.block_len(), self.data_len as int)
        &&& self.file_table.below(v.block_len(), self.data_len as int)
    }

    /// No two of the ranges overlap.
    pub open spec fn apart(&self, v: Volume) -> bool {
        forall|j: int, k: int|
            0 <= j < k < 6 ==> ranges_apart(
                (#[trigger] self.ranges(v)[j]).0,
                self.ranges(v)[j].1,
                (#[trigger] self.ranges(v)[k]).0,
                self.ranges(v)[k].1,
            )
    }
}

/// What the table knows is stored.
pub open spec fn table_agrees(
    s: Shadow,
    at: TablePlace,
    parts: Seq<DifiPartition>,
) -> bool {
    match at {
        TablePlace::At(pos) => agrees(s, parts[0], pos as int),
        TablePlace::Blocks(_) => true,
    }
}

/// What the volume knows is stored.
pub open spec fn stored(v: Volume, st: Store, parts: Seq<DifiPartition>) -> bool {
    &&& agrees(v.fs.dirs.hash, parts[0], st.dir_hash as int)
    &&& agrees(v.fs.files.hash, parts[0], st.file_hash as int)
    &&& agrees(v.fat.table, parts[0], st.fat as int)
    &&& table_agrees(v.fs.dirs.table, st.dir_table, parts)
    &&& table_agrees(v.fs.files.table, st.file_table, parts)
    &&& forall|i: int|
        0 <= i < st.data_len && #[trigger] v.data.known@[i]
            ==> parts[st.data_part as int].readable(st.data + i)
            && parts[st.data_part as int].bytes()[st.data + i] == v.data.data@[i]
}

fn in_range(pos: u64, len: u64, n: usize) -> (r: bool)
    ensures
        r == (pos + len <= n),
{
    len <= n as u64 && pos <= n as u64 - len
}

fn piece(pos: u64, s: &Shadow, n: usize) -> (p: Piece)
    requires
        s.inv(),
        n <= s.data@.len(),
    ensures
        p.pos == pos,
        p.shadow.inv(),
        p.shadow.data@ == s.data@.take(n as int),
        p.shadow.known@ == s.known@.take(n as int),
{
    Piece { pos, shadow: head(s, n) }
}

/// The piece of a table in the first partition.
fn table_piece(at: &TablePlace, s: &Shadow) -> (p: Piece)
    requires
        s.inv(),
    ensures
        p.shadow.inv(),
        (p.pos as int, p.shadow.data@.len() as int) == at.range(*s),
        at is At ==> p.shadow.data@ == s.data@ && p.shadow.known@ == s.known@,
{
    match at {
        TablePlace::At(pos) => {
            let p = piece(*pos, s, s.data.len());
            assert(p.shadow.data@ =~= s.data@);
            assert(p.shadow.known@ =~= s.known@);
            p
        },
        TablePlace::Blocks(_) => piece(0, s, 0),
    }
}

proof fn lemma_agrees_copy(s: Shadow, t: Shadow, f: DifiPartition, pos: int)
    requires
        agrees(t, f, pos),
        t.data@ == s.data@,
        t.known@ == s.known@,
    ensures
        agrees(s, f, pos),
{
    assert forall|i: int| 0 <= i < s.data@.len() && #[trigger] s.known@[i] implies f.readable(
        pos + i,
    ) && f.bytes()[pos + i] == s.data@[i] by {
        assert(t.known@[i]);
    }
}

proof fn lemma_data_agrees(s: Shadow, t: Shadow, f: DifiPartition, pos: int, n: int)
    requires
        s.inv(),
        0 <= n <= s.data@.len(),
        agrees(t, f, pos),
        t.data@ == s.data@.take(n),
        t.known@ == s.known@.take(n),
    ensures
        forall|i: int|
            0 <= i < n && #[trigger] s.known@[i] ==> f.readable(pos + i) && f.bytes()[pos + i]
                == s.data@[i],
{
    assert forall|i: int| 0 <= i < n && #[trigger] s.known@[i] implies f.readable(pos + i)
        && f.bytes()[pos + i] == s.data@[i] by {
        assert(t.known@[i]);
    }
}

impl Volume {
    /// Writes the pieces of the volume to the partitions.
    fn flush_pieces(&self, parts: &mut Vec<DifiPartition>, st: &Store) -> (r: Result<(), Error>)
        requires
            self.inv(),
            parts_inv(old(parts)@),
            st.room(*self, old(parts)@),
        ensures
            r == Ok::<(), Error>(()),
            parts_kept(old(parts)@, final(parts)@),
            kept_outside(old(parts)@[0], final(parts)@[0], st.ranges(*self)),
            st.apart(*self) ==> stored(*self, *st, final(parts)@),
    {
        let ghost v = *self;
        let _n: usize = self.data.data.len();
        let dl: usize = st.data_len as usize;
        let p0 = piece(st.dir_hash, &self.fs.dirs.hash, self.fs.dirs.hash.data.len());
        let p1 = piece(st.file_hash, &self.fs.files.hash, self.fs.files.hash.data.len());
        let p2 = piece(st.fat, &self.fat.table, self.fat.table.data.len());
        let p3 = table_piece(&st.dir_table, &self.fs.dirs.table);
        let p4 = table_piece(&st.file_table, &self.fs.files.table);
        let first: bool = st.data_part == 0;
        let p5 = if first {
            piece(st.data, &self.data, dl)
        } else {
            piece(0, &self.data, 0)
        };
        let ghost a0 = p0;
        let ghost a1 = p1;
        let ghost a2 = p2;
        let ghost a3 = p3;
        let ghost a4 = p4;
        let ghost a5 = p5;
        let pieces: Vec<Piece> = vec![p0, p1, p2, p3, p4, p5];
        let ghost ps = pieces@;
        proof {
            assert(a0.shadow.data@ =~= v.fs.dirs.hash.data@);
            assert(a0.shadow.known@ =~= v.fs.dirs.hash.known@);
            assert(a1.shadow.data@ =~= v.fs.files.hash.data@);
            assert(a1.shadow.known@ =~= v.fs.files.hash.known@);
            assert(a2.shadow.data@ =~= v.fat.table.data@);
            assert(a2.shadow.known@ =~= v.fat.table.known@);
            assert forall|k: int| 0 <= k < 6 implies (ps[k].pos as int, (#[trigger] ps[k]).shadow.data@.len() as int)
                == st.ranges(v)[k] && ps[k].shadow.inv() by {}
            assert(piece_ranges(ps) =~= st.ranges(v));
            assert(within(ps, parts@[0].bytes().len() as int)) by {
                assert forall|k: int| 0 <= k < ps.len() implies (#[trigger] ps[k]).pos
                    + ps[k].shadow.data@.len() <= parts@[0].bytes().len() && ps[k].shadow.inv() by {
                    assert(st.ranges(v)[k].0 + st.ranges(v)[k].1 <= parts@[0].bytes().len());
                }
            }
            if st.apart(v) {
                assert forall|j: int, k: int| 0 <= j < k < ps.len() implies ranges_apart(
                    (#[trigger] ps[j]).pos as int,
                    ps[j].shadow.data@.len() as int,
                    (#[trigger] ps[k]).pos as int,
                    ps[k].shadow.data@.len() as int,
                ) by {
                    assert(ranges_apart(
                        st.ranges(v)[j].0,
                        st.ranges(v)[j].1,
                        st.ranges(v)[k].0,
                        st.ranges(v)[k].1,
                    ));
                }
            }
        }
        if let Err(e) = flush_all(parts, 0, &pieces) {
            return make_error(e);
        }
        let ghost q = parts@;
        if !first {
            let last: Vec<Piece> = vec![piece(st.data, &self.data, dl)];
            assert(parts@[st.data_part as int].bytes().len() == old(parts)@[st.data_part as int].bytes().len());
            if let Err(e) = flush_all(parts, st.data_part, &last) {
                return make_error(e);
            }
            proof {
                let d = st.data_part as int;
                assert(agrees(last@[0].shadow, parts@[d], last@[0].pos as int));
                lemma_data_agrees(v.data, last@[0].shadow, parts@[d], st.data as int, dl as int);
                assert(parts@[0] == q[0]);
            }
        }
        proof {
            assert forall|k: int| 0 <= k < q.len() implies (#[trigger] parts@[k]).inv()
                && parts@[k].shape() == old(parts)@[k].shape() && parts@[k].bytes().len()
                == old(parts)@[k].bytes().len() by {
                assert(q[k].shape() == old(parts)@[k].shape());
            }
            if st.apart(v) {
                assert(agrees(ps[0].shadow, q[0], ps[0].pos as int));
                assert(agrees(ps[1].shadow, q[0], ps[1].pos as int));
                assert(agrees(ps[2].shadow, q[0], ps[2].pos as int));
                assert(agrees(ps[3].shadow, q[0], ps[3].pos as int));
                assert(agrees(ps[4].shadow, q[0], ps[4].pos as int));
                assert(agrees(ps[5].shadow, q[0], ps[5].pos as int));
                lemma_agrees_copy(v.fs.dirs.hash, a0.shadow, q[0], st.dir_hash as int);
                lemma_agrees_copy(v.fs.files.hash, a1.shadow, q[0], st.file_hash as int);
                lemma_agrees_copy(v.fat.table, a2.shadow, q[0], st.fat as int);
                if st.dir_table is At {
                    lemma_agrees_copy(v.fs.dirs.table, a3.shadow, q[0], a3.pos as int);
                }
                if st.file_table is At {
                    lemma_agrees_copy(v.fs.files.table, a4.shadow, q[0], a4.pos as int);
                }
                if first {
                    lemma_data_agrees(v.data, a5.shadow, q[0], st.data as int, dl as int);
                }
            }
        }
        Ok(())
    }
}

impl TablePlace {
    /// The table has its place in its blocks.
    pub open spec fn fits(&self, s: Shadow, block_len: int) -> bool {
        *self matches TablePlace::Blocks(f) ==> s.data@.len() <= f.block_list@.len() * block_len
    }

    /// What is known of the table is in its blocks.
    pub open spec fn written(&self, s: Shadow, v: Volume) -> bool {
        *self matches TablePlace::Blocks(f) ==> agrees_blocks(
            s,
            v.data,
            v.block_len(),
            f,
            s.data@.len() as int,
        )
    }
}

impl Store {
    /// The tables have their place.
    pub open spec fn ready(&self, v: Volume) -> bool {
        &&& self.placed(v)
        &&& self.dir_table.fits(v.fs.dirs.table, v.block_len())
        &&& self.file_table.fits(v.fs.files.table, v.block_len())
    }

    /// What is known of the tables in blocks is in those.
    pub open spec fn written(&self, v: Volume) -> bool {
        &&& self.dir_table.written(v.fs.dirs.table, v)
        &&& self.file_table.written(v.fs.files.table, v)
    }
}

/// Nothing but the blocks of tables has changed.
pub open spec fn files_as_before(a: Volume, b: Volume) -> bool {
    &&& b.fs == a.fs
    &&& b.fat == a.fat
    &&& b.chains == a.chains
    &&& b.data.bytes().len() == a.data.bytes().len()
    &&& forall|j: int| a.data.readable(j) ==> #[trigger] b.data.readable(j)
    &&& forall|g: int|
        g >= 0 && a.chains@.contains_key(g) ==> #[trigger] b.content(g) == a.content(g)
}

/// What has been written to the blocks of one table stays when the other is written.
proof fn lemma_still_written(a: Volume, b: Volume, s: Shadow, f: FatFile, g: FatFile, k: int, n: int)
    requires
        a.framed(),
        a.chains@.contains_key(k),
        a.chains@.contains_key(n),
        k != n,
        f.block_list@ == a.list(k),
        g.block_list@ == a.list(n),
        s.data@.len() <= f.block_list@.len() * a.block_len(),
        agrees_blocks(s, a.data, a.block_len(), f, s.data@.len() as int),
        changed_in_blocks(a.data, b.data, a.block_len(), g),
    ensures
        agrees_blocks(s, b.data, a.block_len(), f, s.data@.len() as int),
{
    let bl = a.block_len();
    lemma_other_content(a, b.data, n, k, g);
    lemma_list(a, k);
    let l = f.block_list@;
    let x = file_bytes(a.data.bytes(), 0, bl, l);
    let y = file_bytes(b.data.bytes(), 0, bl, l);
    assert forall|i: int| 0 <= i < s.data@.len() && #[trigger] s.known@[i] implies {
        &&& b.data.readable(place(l, bl, i))
        &&& b.data.bytes()[place(l, bl, i)] == s.data@[i]
    } by {
        assert(a.data.readable(place(l, bl, i)));
        assert(x[i] == y[i]);
    }
}

impl Volume {
    /// Writes a table to its blocks.
    fn flush_table(&mut self, dirs: bool, at: &TablePlace) -> (r: Result<(), Error>)
        requires
            old(self).inv(),
        ensures
            final(self).inv(),
            *final(self) == (Volume { data: final(self).data, ..*old(self) }),
            final(self).data.bytes().len() == old(self).data.bytes().len(),
            ({
                let t = if dirs {
                    old(self).fs.dirs.table
                } else {
                    old(self).fs.files.table
                };
                let key: int = if dirs {
                    -1
                } else {
                    -2
                };
                old(self).framed() && at.placed(*old(self), key) && at.fits(t, old(self).block_len())
                    ==> {
                    &&& r == Ok::<(), Error>(())
                    &&& final(self).framed()
                &&& old(self).sound() ==> final(self).sound()
                    &&& old(self).sound() ==> final(self).sound()
                    &&& files_as_before(*old(self), *final(self))
                    &&& at.written(t, *final(self))
                    &&& match *at {
                        TablePlace::At(_) => *final(self) == *old(self),
                        TablePlace::Blocks(f) => changed_in_blocks(
                            old(self).data,
                            final(self).data,
                            old(self).block_len(),
                            f,
                        ),
                    }
                }
            }),
    {
        let ghost a = *self;
        let ghost key: int = if dirs {
            -1
        } else {
            -2
        };
        if let TablePlace::Blocks(f) = at {
            let bl: usize = self.fat.block_len;
            let t: &Shadow = if dirs {
                &self.fs.dirs.table
            } else {
                &self.fs.files.table
            };
            let ghost good = a.framed() && at.placed(a, key) && at.fits(*t, a.block_len());
            proof {
                if good {
                    lemma_list(a, key);
                    assert(f.blocks() =~= blocks(a.chains@[key]));
                }
            }
            if let Err(e) = store_blocks(t, f, &mut self.data, bl) {
                return make_error(e);
            }
            proof {
                if good {
                    lemma_table_stored(a, *self, key, *f);
                }
            }
        }
        Ok(())
    }

    /// Whether the volume has its place in the partitions.
    fn has_room(&self, parts: &Vec<DifiPartition>, st: &Store) -> (r: bool)
        requires
            self.inv(),
            parts_inv(parts@),
        ensures
            r == st.room(*self, parts@),
    {
        if parts.len() == 0 || st.data_part >= parts.len() {
            return false;
        }
        let n: usize = parts[0].len();
        let first: usize = self.data.data.len();
        if st.data_len > first as u64 || !in_range(st.data, st.data_len, parts[st.data_part].len()) {
            return false;
        }
        let a: bool = in_range(st.dir_hash, self.fs.dirs.hash.data.len() as u64, n);
        let b: bool = in_range(st.file_hash, self.fs.files.hash.data.len() as u64, n);
        let c: bool = in_range(st.fat, self.fat.table.data.len() as u64, n);
        let d: bool = match st.dir_table {
            TablePlace::At(pos) => in_range(pos, self.fs.dirs.table.data.len() as u64, n),
            TablePlace::Blocks(_) => true,
        };
        let e: bool = match st.file_table {
            TablePlace::At(pos) => in_range(pos, self.fs.files.table.data.len() as u64, n),
            TablePlace::Blocks(_) => true,
        };
        let f: bool = st.data_part != 0 || in_range(st.data, st.data_len, n);
        proof {
            let g = st.ranges(*self);
            let l = parts@[0].bytes().len();
            assert(a == (g[0].0 + g[0].1 <= l));
            assert(b == (g[1].0 + g[1].1 <= l));
            assert(c == (g[2].0 + g[2].1 <= l));
            assert(d == (g[3].0 + g[3].1 <= l));
            assert(e == (g[4].0 + g[4].1 <= l));
            assert(f == (g[5].0 + g[5].1 <= l));
            if a && b && c && d && e && f {
                assert forall|k: int| 0 <= k < 6 implies (#[trigger] g[k]).0 + g[k].1 <= l by {
                    if k == 0 || k == 1 || k == 2 || k == 3 || k == 4 || k == 5 {}
                }
            }
        }
        a && b && c && d && e && f
    }

    /// Writes to the partitions what has been changed of the volume.
    pub fn flush(&mut self, parts: &mut Vec<DifiPartition>, st: &Store) -> (r: Result<(), Error>)
        requires
            old(self).inv(),
            parts_inv(old(parts)@),
        ensures
            final(self).inv(),
            parts_kept(old(parts)@, final(parts)@),
            !st.room(*old(self), old(parts)@) ==> r == Err::<(), Error>(Error::OutOfBound) && *final(self) == *old(self) && final(parts)@ == old(parts)@,
            final(self).fs == old(self).fs,
            final(self).fat == old(self).fat,
            final(self).data.bytes().len() == old(self).data.bytes().len(),
            old(self).framed() && st.ready(*old(self)) && st.room(*old(self), old(parts)@) ==> {
                &&& r == Ok::<(), Error>(())
                &&& final(self).framed()
                &&& old(self).sound() ==> final(self).sound()
                &&& files_as_before(*old(self), *final(self))
                &&& st.written(*final(self))
                &&& kept_outside(old(parts)@[0], final(parts)@[0], st.ranges(*old(self)))
                &&& st.apart(*old(self)) ==> stored(*final(self), *st, final(parts)@)
            },
    {
        let ghost a = *self;
        let ghost good = a.framed() && st.ready(a);
        if !self.has_room(parts, st) {
            return make_error(Error::OutOfBound);
        }
        if let Err(e) = self.flush_table(true, &st.dir_table) {
            return make_error(e);
        }
        let ghost b = *self;
        if let Err(e) = self.flush_table(false, &st.file_table) {
            return make_error(e);
        }
        let ghost c = *self;
        proof {
            if good {
                if st.dir_table is Blocks && st.file_table is Blocks {
                    lemma_still_written(
                        b,
                        c,
                        a.fs.dirs.table,
                        st.dir_table->Blocks_0,
                        st.file_table->Blocks_0,
                        -1,
                        -2,
                    );
                }
            }
            assert(st.ranges(c) == st.ranges(a));
        }
        self.flush_pieces(parts, st)
    }
}

/// The places that the source tells are those that the volume has been stored at.
pub open spec fn told(src: Source, v: Volume, st: Store, parts: Seq<DifiPartition>) -> bool {
    let i = src.info;
    let l = src.layout;
    &&& 1 <= parts.len() <= 2
    &&& i.data_block_count == i.fat_size
    &&& src.fits(parts)
    &&& v.fat.block_len == i.block_len
    &&& v.fs.dirs.key_len == l.dir_key_len
    &&& v.fs.dirs.info_len == l.dir_info_len
    &&& v.fs.files.key_len == l.file_key_len
    &&& v.fs.files.info_len == l.file_info_len
    &&& v.fs.dirs.hash.data@.len() == i.dir_buckets * 4
    &&& v.fs.files.hash.data@.len() == i.file_buckets * 4
    &&& v.fat.table.data@.len() == (i.fat_size + 1) * 8
    &&& v.data.data@.len() == src.data_total(parts)
    &&& st.dir_hash == src.base + i.dir_hash_offset
    &&& st.file_hash == src.base + i.file_hash_offset
    &&& st.fat == src.base + i.fat_offset
    &&& st.data_part == parts.len() - 1
    &&& st.data == src.data_pos(parts.len() as int)
    &&& st.data_len == src.data_stored(parts)
    &&& table_told(parts, src, v, v.fs.dirs.table, st.dir_table, i.dir_table, table_len(
        i.max_dir + 2,
        l.dir_key_len,
        l.dir_info_len,
    ), -1)
    &&& table_told(parts, src, v, v.fs.files.table, st.file_table, i.file_table, table_len(
        i.max_file + 1,
        l.file_key_len,
        l.file_info_len,
    ), -2)
}

/// The place that the source tells of a table is that of the table.
pub open spec fn table_told(
    parts: Seq<DifiPartition>,
    src: Source,
    v: Volume,
    s: Shadow,
    at: TablePlace,
    table: OffsetOrFatFile,
    len: int,
    key: int,
) -> bool {
    match at {
        TablePlace::At(pos) => {
            &&& parts.len() == 2
            &&& pos == src.base + table.offset()
            &&& s.data@.len() == len
            &&& pos + len <= parts[0].bytes().len()
        },
        TablePlace::Blocks(f) => {
            &&& parts.len() == 1
            &&& v.chains@.contains_key(key)
            &&& f.block_list@ == v.list(key)
            &&& v.chains@[key].len() > 0
            &&& v.chains@[key][0].start == table.block_index
            &&& v.list(key).len() * v.block_len() == s.data@.len()
        },
    }
}

/// The second partitions show at least what the first ones do.
pub open spec fn parts_more(a: Seq<DifiPartition>, b: Seq<DifiPartition>) -> bool {
    &&& b.len() == a.len()
    &&& forall|k: int| 0 <= k < a.len() ==> kept(a[k], #[trigger] b[k])
}

/// A volume that has been written to partitions is held by them, and by any that show as much: it
/// can be opened from those, and then has the same files and directories.
pub proof fn law_flushed_volume_is_held(
    src: Source,
    v: Volume,
    st: Store,
    parts: Seq<DifiPartition>,
    later: Seq<DifiPartition>,
)
    requires
        v.framed(),
        told(src, v, st, parts),
        stored(v, st, parts),
        st.written(v),
        st.tables_below(v),
        parts_more(parts, later),
    ensures
        holds(later, src, v),
{
    let i = src.info;
    assert(kept(parts[0], later[0]));
    assert(kept(parts[st.data_part as int], later[st.data_part as int]));
    reveal(fs_sound);
    assert forall|k: int|
        0 <= k < v.data.data@.len() && k < src.data_stored(later) && (#[trigger] cell(
            v.data,
            k,
        )).0 implies later[st.data_part as int].readable(st.data + k)
        && later[st.data_part as int].bytes()[st.data + k] == v.data.data@[k] by {
        assert(v.data.known@[k]);
    }
    lemma_agrees_later(v.fs.dirs.hash, parts[0], later[0], st.dir_hash as int);
    lemma_agrees_later(v.fs.files.hash, parts[0], later[0], st.file_hash as int);
    lemma_agrees_later(v.fat.table, parts[0], later[0], st.fat as int);
    if let TablePlace::At(pos) = st.dir_table {
        lemma_agrees_later(v.fs.dirs.table, parts[0], later[0], pos as int);
    }
    if let TablePlace::At(pos) = st.file_table {
        lemma_agrees_later(v.fs.files.table, parts[0], later[0], pos as int);
    }
}

proof fn lemma_agrees_later(s: Shadow, a: DifiPartition, b: DifiPartition, pos: int)
    requires
        agrees(s, a, pos),
        kept(a, b),
    ensures
        agrees(s, b, pos),
{
    assert forall|i: int| 0 <= i < s.data@.len() && #[trigger] s.known@[i] implies b.readable(
        pos + i,
    ) && b.bytes()[pos + i] == s.data@[i] by {
        assert(a.readable(pos + i));
    }
}

/// How much of a file system is in use.
#[derive(Clone, Copy, PartialEq, Eq, Structural, Debug)]
pub struct Stat {
    pub block_len: usize,
    pub total_blocks: usize,
    pub free_blocks: usize,
    pub total_files: usize,
    pub free_files: usize,
    pub total_dirs: usize,
    pub free_dirs: usize,
}

/// The numbers tell how much of the volume is in use.
pub open spec fn stat_is(s: Stat, v: Volume) -> bool {
    &&& s.block_len == v.block_len()
    &&& s.total_blocks == block_count(v.fat.table)
    &&& s.free_blocks == v.fat.free_count()
    &&& s.total_files == v.fs.files.model().max() - 1
    &&& s.free_files == v.fs.files.room()
    &&& s.total_dirs == v.fs.dirs.model().max() - 1
    &&& s.free_dirs == v.fs.dirs.room()
}

impl Volume {
    /// Opens a file by its number.
    pub fn open_file(&mut self, ino: u32) -> (r: Result<File, Error>)
        requires
            old(self).inv(),
        ensures
            final(self).inv(),
            same_volume(*old(self), *final(self)),
            r is Ok ==> file_opened(*old(self), *final(self), ino),
            r is Err && few_handles(*old(self)) ==> same_handles(*old(self), *final(self)),
            r matches Ok(f) ==> f.inv() && f.ino() == ino,
            old(self).framed() ==> final(self).framed(),
            old(self).sound() ==> final(self).sound(),
            old(self).framed() && old(self).tree().files.contains_key(ino as int) ==> opened_as(
                *old(self),
                ino as int,
                r,
            ),
            old(self).sound() && old(self).tree().files.contains_key(ino as int) ==> (r matches Ok(f)
                && f.wf(*final(self))),
    {
        let ghost a = *self;
        match FileMeta::open_ino(&mut self.fs, ino) {
            Ok(meta) => {
                proof {
                    lemma_alike(a, *self);
                }
                File::from_meta(self, meta)
            },
            Err(e) => Err(e),
        }
    }

    /// Opens a directory by its number.
    pub fn open_dir(&mut self, ino: u32) -> (r: Result<Dir, Error>)
        requires
            old(self).inv(),
        ensures
            final(self).inv(),
            same_volume(*old(self), *final(self)),
            dir_opened(*old(self), *final(self), ino),
            r matches Ok(d) && d.ino() == ino,
            old(self).framed() ==> final(self).framed(),
            old(self).sound() ==> final(self).sound(),
    {
        let ghost a = *self;
        match DirMeta::open_ino(&mut self.fs, ino) {
            Ok(meta) => {
                proof {
                    lemma_alike(a, *self);
                }
                Ok(Dir { meta })
            },
            Err(e) => Err(e),
        }
    }

    /// Opens the root directory.
    pub fn open_root(&mut self) -> (r: Result<Dir, Error>)
        requires
            old(self).inv(),
        ensures
            final(self).inv(),
            same_volume(*old(self), *final(self)),
            dir_opened(*old(self), *final(self), 1),
            r matches Ok(d) && d.ino() == 1,
            old(self).framed() ==> final(self).framed(),
            old(self).sound() ==> final(self).sound(),
    {
        self.open_dir(1)
    }

    /// Tells how much of the volume is in use.
    pub fn stat(&mut self) -> (r: Result<Stat, Error>)
        requires
            old(self).inv(),
        ensures
            final(self).inv(),
            same_volume(*old(self), *final(self)),
            old(self).sound() ==> final(self).sound() && (r matches Ok(s) && stat_is(
                s,
                *old(self),
            )),
    {
        let ghost a = *self;
        proof {
            reveal(fs_sound);
            reveal(fat_sound);
            if a.sound() {
                assert(at(a.fat.table, 0) is Some);
            }
        }
        let found = self.fs.stat();
        proof {
            lemma_alike(a, *self);
        }
        let n: usize = self.fat.table.len();
        match found {
            Ok(s) => Ok(
                Stat {
                    block_len: self.fat.block_len,
                    total_blocks: if n >= 8 {
                        n / 8 - 1
                    } else {
                        0
                    },
                    free_blocks: self.fat.free_blocks(),
                    total_files: s.files.total,
                    free_files: s.files.free,
                    total_dirs: s.dirs.total,
                    free_dirs: s.dirs.free,
                },
            ),
            Err(e) => Err(e),
        }
    }
}

/// Partitions that hold the same show the same.
pub proof fn lemma_views_same(a: Seq<DifiPartition>, b: Seq<DifiPartition>, src: Source)
    requires
        parts_same(a, b),
        1 <= a.len() <= 2,
    ensures
        forall|e: Error| #[trigger] mount_refused(b, src, e) ==> mount_refused(a, src, e),
        forall|u: Volume| #[trigger] holds(a, src, u) ==> holds(b, src, u),
        forall|u: Volume| #[trigger] holds(b, src, u) ==> holds(a, src, u),
        forall|v: Volume| #[trigger] shown_as(b, src, v) ==> shown_as(a, src, v),
        forall|v: Volume, st: Store| #[trigger] mounted(b, src, v, st) ==> mounted(a, src, v, st),
        forall|v: Volume, st: Store| #[trigger] told(src, v, st, b) ==> told(src, v, st, a),
{
    assert(same_file(a[0], b[0]));
    assert(a.len() == 2 ==> same_file(a[1], b[1]));
    assert forall|e: Error| #[trigger] mount_refused(b, src, e) implies mount_refused(
        a,
        src,
        e,
    ) by {
        let i = src.info;
        if i.data_block_count == i.fat_size && src.fits(b) && i.block_len != 0 {
            let p = choose|p: Pieces| #[trigger]
                pieces_shown(b, src, p) && pieces_refused(b, src, p, e);
            lemma_pieces_shown_same(a, b, src, p);
        }
    }
    assert forall|u: Volume| #[trigger] holds(a, src, u) implies holds(b, src, u) by {
        lemma_holds_same(a, b, src, u);
    }
    assert forall|k: int| 0 <= k < a.len() implies same_file(b[k], #[trigger] a[k]) by {
        assert(same_file(a[k], b[k]));
    }
    assert forall|u: Volume| #[trigger] holds(b, src, u) implies holds(a, src, u) by {
        lemma_holds_same(b, a, src, u);
    }
    assert forall|v: Volume, st: Store| #[trigger] mounted(b, src, v, st) implies mounted(
        a,
        src,
        v,
        st,
    ) by {
        lemma_mounted_same(a, b, src, v, st);
    }
}

proof fn lemma_agrees_same(s: Shadow, a: DifiPartition, b: DifiPartition, pos: int)
    requires
        agrees(s, a, pos),
        same_file(a, b),
    ensures
        agrees(s, b, pos),
{
    assert forall|i: int| 0 <= i < s.data@.len() && #[trigger] s.known@[i] implies b.readable(
        pos + i,
    ) && b.bytes()[pos + i] == s.data@[i] by {
        assert(a.readable(pos + i) == b.readable(pos + i));
    }
}

pub proof fn lemma_holds_same(a: Seq<DifiPartition>, b: Seq<DifiPartition>, src: Source, u: Volume)
    requires
        1 <= a.len() <= 2,
        b.len() == a.len(),
        forall|k: int| 0 <= k < a.len() ==> same_file(a[k], #[trigger] b[k]),
        holds(a, src, u),
    ensures
        holds(b, src, u),
{
    let i = src.info;
    assert(same_file(a[0], b[0]));
    assert(a.len() == 2 ==> same_file(a[1], b[1]));
    lemma_agrees_same(u.fs.dirs.hash, a[0], b[0], src.base + i.dir_hash_offset);
    lemma_agrees_same(u.fs.files.hash, a[0], b[0], src.base + i.file_hash_offset);
    lemma_agrees_same(u.fat.table, a[0], b[0], src.base + i.fat_offset);
    if a.len() == 2 {
        lemma_agrees_same(u.fs.dirs.table, a[0], b[0], src.base + i.dir_table.offset());
        lemma_agrees_same(u.fs.files.table, a[0], b[0], src.base + i.file_table.offset());
    }
    let k = if a.len() == 2 {
        1int
    } else {
        0
    };
    let pos = src.data_pos(a.len() as int);
    let stored = src.data_stored(a);
    assert(data_held(u.data, a[k], pos, stored));
    assert(data_held(u.data, b[k], pos, stored)) by {
        assert forall|j: int|
            0 <= j < u.data.data@.len() && j < stored && (#[trigger] cell(
                u.data,
                j,
            )).0 implies b[k].readable(pos + j) && b[k].bytes()[pos + j] == u.data.data@[j] by {
            assert(a[k].readable(pos + j) == b[k].readable(pos + j));
        }
    }
}

proof fn lemma_mounted_same(
    a: Seq<DifiPartition>,
    b: Seq<DifiPartition>,
    src: Source,
    v: Volume,
    st: Store,
)
    requires
        1 <= a.len() <= 2,
        parts_same(a, b),
        mounted(b, src, v, st),
    ensures
        mounted(a, src, v, st),
{
    assert(same_file(a[0], b[0]));
    lemma_pieces_shown_same(
        a,
        b,
        src,
        Pieces {
            dir_hash: v.fs.dirs.hash,
            file_hash: v.fs.files.hash,
            fat: v.fat.table,
            data: v.data,
        },
    );
    if let TablePlace::At(pos) = st.dir_table {
        lemma_shows_same(v.fs.dirs.table, a[0], b[0], pos as int);
    }
    if let TablePlace::At(pos) = st.file_table {
        lemma_shows_same(v.fs.files.table, a[0], b[0], pos as int);
    }
}

/// What partitions show is shown by any that hold the same.
proof fn lemma_pieces_shown_same(
    a: Seq<DifiPartition>,
    b: Seq<DifiPartition>,
    src: Source,
    p: Pieces,
)
    requires
        1 <= a.len() <= 2,
        parts_same(a, b),
        pieces_shown(b, src, p),
    ensures
        pieces_shown(a, src, p),
{
    let i = src.info;
    assert(same_file(a[0], b[0]));
    assert(a.len() == 2 ==> same_file(a[1], b[1]));
    lemma_shows_same(p.dir_hash, a[0], b[0], src.base + i.dir_hash_offset);
    lemma_shows_same(p.file_hash, a[0], b[0], src.base + i.file_hash_offset);
    lemma_shows_same(p.fat, a[0], b[0], src.base + i.fat_offset);
    let k = if a.len() == 2 {
        1int
    } else {
        0
    };
    let pos = src.data_pos(a.len() as int);
    let stored = src.data_stored(a);
    assert forall|j: int| 0 <= j < p.data.data@.len() implies shown_at(
        #[trigger] cell(p.data, j),
        a[k],
        pos,
        stored,
        j,
    ) by {
        assert(shown_at(cell(p.data, j), b[k], pos, stored, j));
        assert(a[k].readable(pos + j) == b[k].readable(pos + j));
    }
}

/// The other way round.
pub proof fn lemma_views_back(a: Seq<DifiPartition>, b: Seq<DifiPartition>, src: Source)
    requires
        parts_same(a, b),
        1 <= a.len() <= 2,
    ensures
        forall|v: Volume| #[trigger] shown_as(a, src, v) ==> shown_as(b, src, v),
        forall|v: Volume, st: Store| #[trigger] told(src, v, st, a) ==> told(src, v, st, b),
{
    lemma_views_same(a, b, src);
    assert(same_file(a[0], b[0]));
    assert(a.len() == 2 ==> same_file(a[1], b[1]));
}

} // verus!
