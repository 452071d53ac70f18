use crate::difi_layout::{calculate_info, DifiPartitionInfo, DifiPartitionParam, DESCRIPTOR_HEAD};
use crate::dpfs_level::DpfsLevel;
use crate::dual_file::DualFile;
use crate::error::{make_error, Error};
use crate::fields::Packer;
use crate::ivfc_level::{IvfcLevel, LevelPlace};
use crate::little_endian::read_le;
use crate::memory_file::MemoryFile;
use crate::random_access_file::{copy_range, overwrite, Content, RandomAccessFile, Shape};
use crate::slots::{check_ranges, put_slot, take_range, Range};
use vstd::prelude::*;

verus! {

use crate::difi_layout::{layout, layout_fits, lemma_layout};
use crate::dpfs_level::{lemma_clean_merged, shown};
use crate::fields::{
    field, lemma_field, lemma_field_byte, lemma_field_in, lemma_field_same, lemma_packed_len,
    lemma_pow256, packed, start, Fields,
};
use crate::ivfc_level::{block_rest, levels_apart, opt_len, place_ok, places_fit};
use crate::little_endian::lemma_le_number_bound;
use crate::misc::counted;
use crate::random_access_file::{all_readable, same_file, spliced};
use crate::slots::{
    cut, lemma_overlay_len, lemma_overlay_outside, lemma_overlay_push, lemma_overlay_same,
    lemma_overlay_slot, overlay, ranges_apart, ranges_error,
    ranges_ok,
    slots_ok, Slot,
};
use vstd::arithmetic::power2::{lemma_pow2_pos, pow2};

/// `DIFI` in little endian.
pub const DIFI_MAGIC: u64 = 0x4946_4944;

/// `IVFC` in little endian.
pub const IVFC_MAGIC: u64 = 0x4346_5649;

/// `DPFS` in little endian.
pub const DPFS_MAGIC: u64 = 0x5346_5044;

pub const DIFI_HEADER_LEN: usize = 0x44;

pub const IVFC_DESCRIPTOR_LEN: usize = 0x78;

pub const DPFS_DESCRIPTOR_LEN: usize = 0x50;

/// Where the byte is that selects the copy of the first level.
pub const SELECTOR_POS: usize = 0x39;

/// A range of a level and the logarithm of the length of its blocks.
#[derive(Clone, Copy, PartialEq, Eq, Structural, Debug)]
pub struct LevelInfo {
    pub offset: u64,
    pub size: u64,
    pub log: u64,
}

/// What a descriptor tells.
#[derive(Clone, Copy, PartialEq, Eq, Structural, Debug)]
pub struct DifiInfo {
    pub ivfc_at: u64,
    pub dpfs_at: u64,
    pub hash_offset: u64,
    pub hash_size: u64,
    pub external: bool,
    pub external_offset: u64,
    pub dpfs1: LevelInfo,
    pub dpfs2: LevelInfo,
    pub dpfs3: LevelInfo,
    pub ivfc1: LevelInfo,
    pub ivfc2: LevelInfo,
    pub ivfc3: LevelInfo,
    pub ivfc4: LevelInfo,
}

pub open spec fn level_at(d: Seq<u8>, pos: int) -> LevelInfo {
    LevelInfo {
        offset: field(d, pos, 8) as u64,
        size: field(d, pos + 8, 8) as u64,
        log: field(d, pos + 16, 4) as u64,
    }
}

/// What a descriptor tells, or the error for a descriptor that cannot be understood.
pub open spec fn parse(d: Seq<u8>) -> Result<DifiInfo, Error> {
    let ivfc_at = field(d, 8, 8) as int;
    let dpfs_at = field(d, 0x18, 8) as int;
    if d.len() < DIFI_HEADER_LEN {
        Err(Error::OutOfBound)
    } else if field(d, 0, 4) != DIFI_MAGIC || field(d, 4, 4) != 0x10000 {
        Err(Error::MagicMismatch)
    } else if field(d, 0x10, 8) != IVFC_DESCRIPTOR_LEN {
        Err(Error::SizeMismatch)
    } else if ivfc_at + IVFC_DESCRIPTOR_LEN > d.len() {
        Err(Error::OutOfBound)
    } else if field(d, ivfc_at, 4) != IVFC_MAGIC || field(d, ivfc_at + 4, 4) != 0x20000 {
        Err(Error::MagicMismatch)
    } else if field(d, 0x30, 8) != field(d, ivfc_at + 8, 8) {
        Err(Error::SizeMismatch)
    } else if field(d, 0x20, 8) != DPFS_DESCRIPTOR_LEN {
        Err(Error::SizeMismatch)
    } else if dpfs_at + DPFS_DESCRIPTOR_LEN > d.len() {
        Err(Error::OutOfBound)
    } else if field(d, dpfs_at, 4) != DPFS_MAGIC || field(d, dpfs_at + 4, 4) != 0x10000 {
        Err(Error::MagicMismatch)
    } else {
        Ok(
            DifiInfo {
                ivfc_at: ivfc_at as u64,
                dpfs_at: dpfs_at as u64,
                hash_offset: field(d, 0x28, 8) as u64,
                hash_size: field(d, 0x30, 8) as u64,
                external: field(d, 0x38, 1) != 0,
                external_offset: field(d, 0x3C, 8) as u64,
                dpfs1: level_at(d, dpfs_at + 8),
                dpfs2: level_at(d, dpfs_at + 0x20),
                dpfs3: level_at(d, dpfs_at + 0x38),
                ivfc1: level_at(d, ivfc_at + 0x10),
                ivfc2: level_at(d, ivfc_at + 0x28),
                ivfc3: level_at(d, ivfc_at + 0x40),
                ivfc4: level_at(d, ivfc_at + 0x58),
            },
        )
    }
}

fn read_level(d: &Vec<u8>, pos: usize) -> (l: LevelInfo)
    requires
        pos + 20 <= d@.len(),
    ensures
        l == level_at(d@, pos as int),
{
    let _n: usize = d.len();
    LevelInfo {
        offset: read_le(d, pos, 8),
        size: read_le(d, pos + 8, 8),
        log: read_le(d, pos + 16, 4),
    }
}

/// Reads what a descriptor tells.
fn read_info(d: &Vec<u8>) -> (r: Result<DifiInfo, Error>)
    ensures
        r == parse(d@),
{
    let n: usize = d.len();
    if n < DIFI_HEADER_LEN {
        return make_error(Error::OutOfBound);
    }
    if read_le(d, 0, 4) != DIFI_MAGIC || read_le(d, 4, 4) != 0x10000 {
        return make_error(Error::MagicMismatch);
    }
    if read_le(d, 0x10, 8) != IVFC_DESCRIPTOR_LEN as u64 {
        return make_error(Error::SizeMismatch);
    }
    let ivfc_at64: u64 = read_le(d, 8, 8);
    if n < IVFC_DESCRIPTOR_LEN || ivfc_at64 > (n - IVFC_DESCRIPTOR_LEN) as u64 {
        return make_error(Error::OutOfBound);
    }
    let ivfc_at: usize = ivfc_at64 as usize;
    if read_le(d, ivfc_at, 4) != IVFC_MAGIC || read_le(d, ivfc_at + 4, 4) != 0x20000 {
        return make_error(Error::MagicMismatch);
    }
    let hash_size: u64 = read_le(d, 0x30, 8);
    if hash_size != read_le(d, ivfc_at + 8, 8) {
        return make_error(Error::SizeMismatch);
    }
    if read_le(d, 0x20, 8) != DPFS_DESCRIPTOR_LEN as u64 {
        return make_error(Error::SizeMismatch);
    }
    let dpfs_at64: u64 = read_le(d, 0x18, 8);
    if n < DPFS_DESCRIPTOR_LEN || dpfs_at64 > (n - DPFS_DESCRIPTOR_LEN) as u64 {
        return make_error(Error::OutOfBound);
    }
    let dpfs_at: usize = dpfs_at64 as usize;
    if read_le(d, dpfs_at, 4) != DPFS_MAGIC || read_le(d, dpfs_at + 4, 4) != 0x10000 {
        return make_error(Error::MagicMismatch);
    }
    Ok(
        DifiInfo {
            ivfc_at: ivfc_at64,
            dpfs_at: dpfs_at64,
            hash_offset: read_le(d, 0x28, 8),
            hash_size,
            external: read_le(d, 0x38, 1) != 0,
            external_offset: read_le(d, 0x3C, 8),
            dpfs1: read_level(d, dpfs_at + 8),
            dpfs2: read_level(d, dpfs_at + 0x20),
            dpfs3: read_level(d, dpfs_at + 0x38),
            ivfc1: read_level(d, ivfc_at + 0x10),
            ivfc2: read_level(d, ivfc_at + 0x28),
            ivfc3: read_level(d, ivfc_at + 0x40),
            ivfc4: read_level(d, ivfc_at + 0x58),
        },
    )
}

/// The two copies of a level.
pub open spec fn copies(l: LevelInfo) -> (Range, Range) {
    (
        Range { offset: l.offset, len: l.size },
        Range { offset: (l.offset + l.size) as u64, len: l.size },
    )
}

/// The parts of a partition.
pub open spec fn part_ranges(i: DifiInfo) -> Seq<Range> {
    seq![
        copies(i.dpfs1).0,
        copies(i.dpfs1).1,
        copies(i.dpfs2).0,
        copies(i.dpfs2).1,
        copies(i.dpfs3).0,
        copies(i.dpfs3).1,
        Range {
            offset: if i.external {
                i.external_offset
            } else {
                0
            },
            len: if i.external {
                i.ivfc4.size
            } else {
                0
            },
        },
    ]
}

/// The parts of a descriptor.
pub open spec fn head_ranges(i: DifiInfo) -> Seq<Range> {
    seq![
        Range { offset: 0, len: DIFI_HEADER_LEN as u64 },
        Range { offset: i.ivfc_at, len: IVFC_DESCRIPTOR_LEN as u64 },
        Range { offset: i.dpfs_at, len: DPFS_DESCRIPTOR_LEN as u64 },
        Range { offset: i.hash_offset, len: i.hash_size },
    ]
}

pub open spec fn place_of(l: LevelInfo) -> LevelPlace {
    LevelPlace {
        offset: l.offset as usize,
        len: l.size as usize,
        block_len: pow2(l.log as nat) as usize,
    }
}

pub open spec fn ivfc_places(i: DifiInfo) -> Seq<LevelPlace> {
    seq![place_of(i.ivfc1), place_of(i.ivfc2), place_of(i.ivfc3), place_of(i.ivfc4)]
}

/// The block length of the level can be counted, and so can its range.
pub open spec fn level_fits(l: LevelInfo) -> bool {
    &&& pow2(l.log as nat) <= usize::MAX
    &&& l.offset + l.size <= usize::MAX
}

/// What the descriptor tells can be so, for a descriptor and a partition of these lengths.
pub open spec fn info_fits(d_len: int, p_len: int, i: DifiInfo) -> bool {
    &&& ranges_ok(d_len, head_ranges(i))
    &&& i.dpfs1.offset + i.dpfs1.size <= p_len
    &&& i.dpfs2.offset + i.dpfs2.size <= p_len
    &&& i.dpfs3.offset + i.dpfs3.size <= p_len
    &&& ranges_ok(p_len, part_ranges(i))
    &&& level_fits(i.dpfs2)
    &&& level_fits(i.dpfs3)
    &&& level_fits(i.ivfc1)
    &&& level_fits(i.ivfc2)
    &&& level_fits(i.ivfc3)
    &&& level_fits(i.ivfc4)
    &&& selectors_fit(i)
    &&& tree_fits(i)
}

/// The first two levels of copies have a selector for each of their blocks.
pub open spec fn selectors_fit(i: DifiInfo) -> bool {
    &&& 4 * counted(counted(i.dpfs2.size as int, pow2(i.dpfs2.log as nat) as int), 32)
        <= i.dpfs1.size
    &&& 4 * counted(counted(i.dpfs3.size as int, pow2(i.dpfs3.log as nat) as int), 32)
        <= i.dpfs2.size
}

/// The tree of hashes fits in the third level of copies.
pub open spec fn tree_fits(i: DifiInfo) -> bool {
    places_fit(
        i.hash_size as int,
        i.dpfs3.size as int,
        if i.external {
            Some(i.ivfc4.size as int)
        } else {
            None
        },
        ivfc_places(i),
    )
}

/// The error for a partition that cannot be opened. Parts that overlap are refused: each part is
/// held apart from the others, so what is written to one would not show in another.
#[verifier::opaque]
pub open spec fn open_error(d: Seq<u8>, p: Seq<u8>) -> Option<Error> {
    match parse(d) {
        Err(e) => Some(e),
        Ok(i) => if !ranges_ok(d.len() as int, head_ranges(i)) {
            Some(ranges_error(d.len() as int, head_ranges(i)))
        } else if i.dpfs1.offset + i.dpfs1.size > p.len() || i.dpfs2.offset + i.dpfs2.size
            > p.len() || i.dpfs3.offset + i.dpfs3.size > p.len() {
            Some(Error::OutOfBound)
        } else if !ranges_ok(p.len() as int, part_ranges(i)) {
            Some(ranges_error(p.len() as int, part_ranges(i)))
        } else if !(level_fits(i.dpfs2) && level_fits(i.dpfs3) && level_fits(i.ivfc1)
            && level_fits(i.ivfc2) && level_fits(i.ivfc3) && level_fits(i.ivfc4)) {
            Some(Error::InvalidValue)
        } else if d[SELECTOR_POS as int] > 1 {
            Some(Error::InvalidValue)
        } else if !selectors_fit(i) || !tree_fits(i) {
            Some(Error::SizeMismatch)
        } else {
            None
        },
    }
}

/// A partition can be opened.
pub open spec fn openable(d: Seq<u8>, p: Seq<u8>) -> bool {
    open_error(d, p) is None
}

pub type Level1 = DualFile<MemoryFile, MemoryFile>;

pub type Level2 = DpfsLevel<Level1>;

pub type Level3 = DpfsLevel<Level2>;

/// A partition: data with hashes over it, kept in copies so that a commit takes effect at once.
///
/// It is stored in a descriptor and a partition file.
pub struct DifiPartition {
    pub descriptor: Vec<u8>,
    pub partition: Vec<u8>,
    pub info: DifiInfo,
    pub file: IvfcLevel<Level3>,
}

impl DifiPartition {
    pub open spec fn level1(&self) -> Level1 {
        self.file.data.selector.selector
    }

    pub open spec fn level2(&self) -> Level2 {
        self.file.data.selector
    }

    pub open spec fn level3(&self) -> Level3 {
        self.file.data
    }

    /// The parts that are stored in the descriptor.
    pub open spec fn descriptor_slots(&self) -> Seq<Slot> {
        seq![
            (SELECTOR_POS as int, self.level1().selector.bytes()),
            (self.info.hash_offset as int, self.file.master.bytes()),
        ]
    }

    pub open spec fn external_bytes(&self) -> Seq<u8> {
        match self.file.external {
            Some(f) => f.bytes(),
            None => Seq::empty(),
        }
    }

    /// The parts that are stored in the partition.
    pub open spec fn partition_slots(&self) -> Seq<Slot> {
        let r = part_ranges(self.info);
        seq![
            (r[0].offset as int, self.level1().pair0.bytes()),
            (r[1].offset as int, self.level1().pair1.bytes()),
            (r[2].offset as int, self.level2().pair0.bytes()),
            (r[3].offset as int, self.level2().pair1.bytes()),
            (r[4].offset as int, self.level3().pair0.bytes()),
            (r[5].offset as int, self.level3().pair1.bytes()),
            (r[6].offset as int, self.external_bytes()),
        ]
    }

    /// Nothing has been written since the last commit.
    pub open spec fn clean(&self) -> bool {
        &&& self.file.clean()
        &&& self.level3().clean()
        &&& self.level2().clean()
        &&& self.level1().clean()
    }

    /// The levels are sound and fit the descriptor.
    #[verifier::opaque]
    pub open spec fn well_formed(&self) -> bool {
        &&& self.file.inv()
        &&& self.level3().staged()
        &&& parse(self.descriptor@) == Ok::<DifiInfo, Error>(self.info)
        &&& info_fits(
            self.descriptor@.len() as int,
            self.partition@.len() as int,
            self.info,
        )
        &&& self.sized()
    }

    /// The parts have the lengths that the descriptor tells.
    pub open spec fn sized(&self) -> bool {
        let i = self.info;
        &&& self.level3().shape() == levels_shape(i)
        &&& self.file.master.bytes().len() == i.hash_size
        &&& self.file.external is Some == i.external
        &&& i.external ==> self.external_bytes().len() == i.ivfc4.size
        &&& self.file.levels@.len() == 4
        &&& forall|k: int|
            0 <= k < 4 ==> (#[trigger] self.file.levels@[k]).offset == ivfc_places(i)[k].offset
                && self.file.levels@[k].len == ivfc_places(i)[k].len
                && self.file.levels@[k].block_len == ivfc_places(i)[k].block_len
    }
}

/// The levels of copies that a descriptor tells.
pub open spec fn levels_shape(i: DifiInfo) -> Shape {
    Shape::Parts(
        Box::new(
            Shape::Parts(
                Box::new(
                    Shape::Parts(
                        Box::new(Shape::Bytes(1)),
                        Box::new(Shape::Bytes(i.dpfs1.size as nat)),
                        Box::new(Shape::Bytes(i.dpfs1.size as nat)),
                        0,
                    ),
                ),
                Box::new(Shape::Bytes(i.dpfs2.size as nat)),
                Box::new(Shape::Bytes(i.dpfs2.size as nat)),
                pow2(i.dpfs2.log as nat),
            ),
        ),
        Box::new(Shape::Bytes(i.dpfs3.size as nat)),
        Box::new(Shape::Bytes(i.dpfs3.size as nat)),
        pow2(i.dpfs3.log as nat),
    )
}

/// The partition holds what is stored in a descriptor and a partition file.
#[verifier::opaque]
pub open spec fn opened(f: DifiPartition, d: Seq<u8>, p: Seq<u8>) -> bool {
    let r = part_ranges(f.info);
    &&& f.inv()
    &&& f.clean()
    &&& f.descriptor@ == d
    &&& f.partition@ == p
    &&& f.level1().selector.bytes() == d.subrange(SELECTOR_POS as int, SELECTOR_POS + 1)
    &&& f.file.master.bytes() == cut(d, head_ranges(f.info)[3])
    &&& f.level1().pair0.bytes() == cut(p, r[0])
    &&& f.level1().pair1.bytes() == cut(p, r[1])
    &&& f.level2().pair0.bytes() == cut(p, r[2])
    &&& f.level2().pair1.bytes() == cut(p, r[3])
    &&& f.level3().pair0.bytes() == cut(p, r[4])
    &&& f.level3().pair1.bytes() == cut(p, r[5])
    &&& f.external_bytes() == cut(p, r[6])
}

impl Content for DifiPartition {
    open spec fn inv(&self) -> bool {
        self.well_formed()
    }

    open spec fn bytes(&self) -> Seq<u8> {
        self.file.bytes()
    }

    open spec fn readable(&self, i: int) -> bool {
        self.file.readable(i)
    }

    open spec fn durable(&self) -> Seq<u8> {
        self.file.durable()
    }

    open spec fn staged(&self) -> bool {
        false
    }

    open spec fn shape(&self) -> Shape {
        Shape::Parts(
            Box::new(self.file.shape()),
            Box::new(Shape::Bytes(self.descriptor@.len())),
            Box::new(Shape::Bytes(self.partition@.len())),
            0,
        )
    }

    open spec fn committable(&self) -> bool {
        true
    }
}

/// The length of a block with this logarithm.
fn block_len_of(log: u64) -> (r: Option<usize>)
    ensures
        match r {
            Some(n) => n == pow2(log as nat) && n > 0,
            None => pow2(log as nat) > usize::MAX,
        },
{
    let mut n: usize = 1;
    let mut k: u64 = 0;
    proof {
        vstd::arithmetic::power2::lemma2_to64();
    }
    while k < log
        invariant
            k <= log,
            n == pow2(k as nat),
            n > 0,
        decreases log - k,
    {
        proof {
            vstd::arithmetic::power2::lemma_pow2_unfold((k + 1) as nat);
        }
        if n > usize::MAX / 2 {
            proof {
                if k + 1 < log {
                    vstd::arithmetic::power2::lemma_pow2_strictly_increases(
                        (k + 1) as nat,
                        log as nat,
                    );
                }
            }
            return None;
        }
        n = n * 2;
        k = k + 1;
    }
    Some(n)
}

/// The place of a level, where it can be counted.
fn place_for(l: LevelInfo) -> (r: Option<LevelPlace>)
    ensures
        match r {
            Some(p) => level_fits(l) && p == place_of(l) && p.block_len > 0,
            None => !level_fits(l),
        },
{
    let block_len: usize = match block_len_of(l.log) {
        Some(n) => n,
        None => {
            return None;
        },
    };
    if l.size > usize::MAX as u64 || l.offset > usize::MAX as u64 - l.size {
        return None;
    }
    Some(LevelPlace { offset: l.offset as usize, len: l.size as usize, block_len })
}

/// The two copies of a level.
fn copies_of(l: LevelInfo) -> (r: (Range, Range))
    requires
        l.offset + l.size <= u64::MAX,
    ensures
        r == copies(l),
{
    (
        Range { offset: l.offset, len: l.size },
        Range { offset: l.offset + l.size, len: l.size },
    )
}

/// Whether the level begins and ends within a file.
fn level_within(l: LevelInfo, n: usize) -> (r: bool)
    ensures
        r == (l.offset + l.size <= n),
{
    l.size <= n as u64 && l.offset <= n as u64 - l.size
}

impl DifiPartition {
    /// Opens a partition.
    pub fn new(descriptor: Vec<u8>, partition: Vec<u8>) -> (r: Result<DifiPartition, Error>)
        ensures
            match r {
                Ok(f) => openable(descriptor@, partition@) && opened(
                    f,
                    descriptor@,
                    partition@,
                ),
                Err(e) => open_error(descriptor@, partition@) == Some(e),
            },
    {
        proof {
            reveal(DifiPartition::well_formed);
        }
        proof {
            reveal(opened);
            reveal(open_error);
        }
        let info = match read_info(&descriptor) {
            Ok(info) => info,
            Err(e) => {
                return make_error(e);
            },
        };
        let d_len: usize = descriptor.len();
        let p_len: usize = partition.len();
        let heads: Vec<Range> = vec![
            Range { offset: 0, len: DIFI_HEADER_LEN as u64 },
            Range { offset: info.ivfc_at, len: IVFC_DESCRIPTOR_LEN as u64 },
            Range { offset: info.dpfs_at, len: DPFS_DESCRIPTOR_LEN as u64 },
            Range { offset: info.hash_offset, len: info.hash_size },
        ];
        assert(heads@ =~= head_ranges(info));
        if let Err(e) = check_ranges(d_len, &heads) {
            return make_error(e);
        }
        if !level_within(info.dpfs1, p_len) || !level_within(info.dpfs2, p_len) || !level_within(
            info.dpfs3,
            p_len,
        ) {
            return make_error(Error::OutOfBound);
        }
        let (r0, r1) = copies_of(info.dpfs1);
        let (r2, r3) = copies_of(info.dpfs2);
        let (r4, r5) = copies_of(info.dpfs3);
        let r6 = if info.external {
            Range { offset: info.external_offset, len: info.ivfc4.size }
        } else {
            Range { offset: 0, len: 0 }
        };
        let parts: Vec<Range> = vec![r0, r1, r2, r3, r4, r5, r6];
        assert(parts@ =~= part_ranges(info));
        if let Err(e) = check_ranges(p_len, &parts) {
            return make_error(e);
        }
        let level2 = match place_for(info.dpfs2) {
            Some(p) => p,
            None => {
                return make_error(Error::InvalidValue);
            },
        };
        let level3 = match place_for(info.dpfs3) {
            Some(p) => p,
            None => {
                return make_error(Error::InvalidValue);
            },
        };
        let mut places: Vec<LevelPlace> = Vec::new();
        match (
            place_for(info.ivfc1),
            place_for(info.ivfc2),
            place_for(info.ivfc3),
            place_for(info.ivfc4),
        ) {
            (Some(a), Some(b), Some(c), Some(d)) => {
                places.push(a);
                places.push(b);
                places.push(c);
                places.push(d);
            },
            _ => {
                return make_error(Error::InvalidValue);
            },
        }
        assert(places@ =~= ivfc_places(info));
        proof {
            let pr = part_ranges(info);
            let hr = head_ranges(info);
            assert(pr[0].offset + pr[0].len <= p_len);
            assert(pr[1].offset + pr[1].len <= p_len);
            assert(pr[2].offset + pr[2].len <= p_len);
            assert(pr[3].offset + pr[3].len <= p_len);
            assert(pr[4].offset + pr[4].len <= p_len);
            assert(pr[5].offset + pr[5].len <= p_len);
            assert(pr[6].offset + pr[6].len <= p_len);
            assert(hr[0].offset + hr[0].len <= d_len);
            assert(hr[3].offset + hr[3].len <= d_len);
        }
        let selector = take_range(&descriptor, Range { offset: SELECTOR_POS as u64, len: 1 });
        let master = take_range(
            &descriptor,
            Range { offset: info.hash_offset, len: info.hash_size },
        );
        let dpfs1 = match DualFile::new(
            selector,
            take_range(&partition, r0),
            take_range(&partition, r1),
        ) {
            Ok(f) => f,
            Err(e) => {
                return make_error(e);
            },
        };
        let dpfs2 = match DpfsLevel::new(
            dpfs1,
            take_range(&partition, r2),
            take_range(&partition, r3),
            level2.block_len,
        ) {
            Ok(f) => f,
            Err(e) => {
                return make_error(e);
            },
        };
        let dpfs3 = match DpfsLevel::new(
            dpfs2,
            take_range(&partition, r4),
            take_range(&partition, r5),
            level3.block_len,
        ) {
            Ok(f) => f,
            Err(e) => {
                return make_error(e);
            },
        };
        let external = if info.external {
            Some(take_range(&partition, r6))
        } else {
            None
        };
        let ghost ext = if info.external {
            Some(info.ivfc4.size as int)
        } else {
            None
        };
        assert(opt_len(external) == ext);
        let file = match IvfcLevel::new(master, dpfs3, external, &places) {
            Ok(f) => f,
            Err(_) => {
                return make_error(Error::SizeMismatch);
            },
        };
        let f = DifiPartition { descriptor, partition, info, file };
        proof {
            assert(cut(partition@, part_ranges(info)[6]) =~= f.external_bytes());
        }
        Ok(f)
    }
}

impl DifiPartition {
    /// Does what precedes the change of the selector byte in a commit. What is stored of the
    /// levels of copies is still what was stored before.
    fn stage(&mut self) -> (r: Result<(), Error>)
        requires
            old(self).inv(),
        ensures
            r == Ok::<(), Error>(()),
            final(self).file.inv(),
            final(self).file.clean(),
            final(self).level3().clean(),
            final(self).level2().clean(),
            final(self).level3().bytes() == shown(
                final(self).level2().bytes(),
                final(self).level3().pair0.bytes(),
                final(self).level3().pair1.bytes(),
                final(self).level3().block_len as int,
            ),
            final(self).level2().bytes() == shown(
                final(self).level1().bytes(),
                final(self).level2().pair0.bytes(),
                final(self).level2().pair1.bytes(),
                final(self).level2().block_len as int,
            ),
            final(self).bytes() == old(self).bytes(),
            forall|i: int| old(self).readable(i) ==> #[trigger] final(self).readable(i),
            final(self).descriptor == old(self).descriptor,
            final(self).partition == old(self).partition,
            final(self).info == old(self).info,
            final(self).sized(),
            final(self).level3().durable() == old(self).level3().durable(),
    {
        proof {
            reveal(DifiPartition::well_formed);
        }
        let ghost a = *self;
        if let Err(e) = self.file.commit() {
            return make_error(e);
        }
        let ghost b = *self;
        if let Err(e) = self.file.data.commit() {
            return make_error(e);
        }
        proof {
            lemma_same_data(b.file, self.file);
        }
        let ghost c = *self;
        if let Err(e) = self.file.data.selector.commit() {
            return make_error(e);
        }
        proof {
            assert(self.file.data.bytes() =~= c.file.data.bytes());
            lemma_same_data(c.file, self.file);
        }
        Ok(())
    }
}

/// A tree of hashes over another file with the same bytes.
pub proof fn lemma_same_data<D: RandomAccessFile>(a: IvfcLevel<D>, b: IvfcLevel<D>)
    requires
        a.inv(),
        b.data.inv(),
        b.data.bytes() == a.data.bytes(),
        all_readable(b.data, 0, b.data.bytes().len() as int),
        b.master == a.master,
        b.external == a.external,
        b.levels == a.levels,
    ensures
        b.inv(),
        b.bytes() == a.bytes(),
        forall|i: int| #[trigger] b.readable(i) == a.readable(i),
{
    assert forall|k: int| 0 <= k < b.levels@.len() implies #[trigger] b.level_ok(k) by {
        assert(a.level_ok(k));
    }
    assert forall|k: int| 0 <= k < b.levels@.len() implies #[trigger] b.part(k) == a.part(k) by {}
    assert(b.parts() =~= a.parts());
    assert forall|j: int, k: int|
        0 <= j < k < b.levels@.len() && !b.is_external(k) implies levels_apart(
        #[trigger] b.levels@[j],
        #[trigger] b.levels@[k],
    ) by {
        assert(!a.is_external(k));
    }
}

impl RandomAccessFile for DifiPartition {
    /// The rest of a block of the last level of the tree, whose block length the descriptor tells.
    fn run_len(&self, pos: usize) -> (n: usize)
        ensures
            n == block_rest(
                pos as int,
                place_of(self.info.ivfc4).block_len as int,
                self.bytes().len() as int,
            ),
    {
        proof {
            reveal(DifiPartition::well_formed);
            assert(self.file.levels@[3].block_len == ivfc_places(self.info)[3].block_len);
        }
        let n: usize = self.file.run_len(pos);
        assert forall|i: int| pos <= i < pos + n implies #[trigger] self.readable(i)
            == self.readable(pos as int) by {
            assert(self.file.readable(i) == self.file.readable(pos as int));
        }
        n
    }

    fn load(&mut self, pos: usize, len: usize) -> (r: Result<Vec<u8>, Error>) {
        proof {
            reveal(DifiPartition::well_formed);
        }
        proof {
            let a = *self;
            if all_readable(a.file, pos as int, len as int) {
                assert forall|i: int| pos <= i < pos + len implies #[trigger] a.readable(i) by {
                    assert(a.file.readable(i));
                }
            }
            if all_readable(a, pos as int, len as int) {
                assert forall|i: int| pos <= i < pos + len implies #[trigger] a.file.readable(i) by {
                    assert(a.readable(i));
                }
            }
        }
        self.file.load(pos, len)
    }

    fn write(&mut self, pos: usize, buf: &[u8]) -> (r: Result<(), Error>)
        ensures
            final(self).descriptor == old(self).descriptor,
            final(self).partition == old(self).partition,
            final(self).info == old(self).info,
            final(self).level3().durable() == old(self).level3().durable(),
    {
        proof {
            reveal(DifiPartition::well_formed);
        }
        self.file.write(pos, buf)
    }

    fn len(&self) -> (n: usize) {
        proof {
            reveal(DifiPartition::well_formed);
        }
        self.file.len()
    }

    fn commit(&mut self) -> (r: Result<(), Error>)
        ensures
            final(self).clean(),
            final(self).descriptor == old(self).descriptor,
            final(self).partition == old(self).partition,
            final(self).info == old(self).info,
            final(self).level3().durable() == final(self).level3().bytes(),
    {
        proof {
            reveal(DifiPartition::well_formed);
        }
        if let Err(e) = self.stage() {
            return make_error(e);
        }
        let ghost c = *self;
        if let Err(e) = self.file.data.selector.selector.commit() {
            return make_error(e);
        }
        proof {
            assert(self.file.data.selector.bytes() =~= c.file.data.selector.bytes());
            assert(self.file.data.bytes() =~= c.file.data.bytes());
            lemma_same_data(c.file, self.file);
            assert(self.level1().durable() == self.level1().bytes());
            assert forall|i: int| old(self).readable(i) implies #[trigger] self.readable(i) by {
                assert(c.readable(i));
            }
        }
        Ok(())
    }
}

impl DifiPartition {
    /// What the descriptor becomes with the parts that are stored in it.
    pub open spec fn stored_descriptor(&self) -> Seq<u8> {
        overlay(self.descriptor@, self.descriptor_slots())
    }

    /// What the partition file becomes with the parts that are stored in it.
    pub open spec fn stored_partition(&self) -> Seq<u8> {
        overlay(self.partition@, self.partition_slots())
    }

    /// The descriptor to store.
    pub fn descriptor_image(&self) -> (r: Vec<u8>)
        requires
            self.inv(),
        ensures
            r@ == self.stored_descriptor(),
    {
        proof {
            reveal(DifiPartition::well_formed);
        }
        let n: usize = self.descriptor.len();
        let ghost base = self.descriptor@;
        let mut out: Vec<u8> = copy_range(&self.descriptor, 0, n);
        assert(out@ =~= base);
        let ghost mut s: Seq<Slot> = Seq::empty();
        proof {
            lemma_slots_fit(*self);
        }
        assert(self.descriptor_slots()[0].0 == SELECTOR_POS);
        let ghost x = (SELECTOR_POS as int, self.level1().selector.bytes());
        proof {
            lemma_overlay_push(base, s, x);
        }
        overwrite(&mut out, SELECTOR_POS, &self.file.data.selector.selector.selector.data);
        proof {
            s = s.push(x);
        }
        assert(self.descriptor_slots()[1].0 == self.info.hash_offset);
        let ghost x = (self.info.hash_offset as int, self.file.master.bytes());
        proof {
            lemma_overlay_push(base, s, x);
        }
        overwrite(&mut out, self.info.hash_offset as usize, &self.file.master.data);
        proof {
            s = s.push(x);
            assert(s =~= self.descriptor_slots());
        }
        out
    }

    /// The partition file to store.
    pub fn partition_image(&self) -> (r: Vec<u8>)
        requires
            self.inv(),
        ensures
            r@ == self.stored_partition(),
    {
        proof {
            reveal(DifiPartition::well_formed);
        }
        let n: usize = self.partition.len();
        let mut out: Vec<u8> = copy_range(&self.partition, 0, n);
        let ghost base = self.partition@;
        assert(out@ =~= base);
        let ghost all = self.partition_slots();
        let ghost r = part_ranges(self.info);
        proof {
            lemma_slots_fit(*self);
            assert(all.take(0) =~= Seq::<Slot>::empty());
        }
        let (r0, r1) = copies_of(self.info.dpfs1);
        let (r2, r3) = copies_of(self.info.dpfs2);
        let (r4, r5) = copies_of(self.info.dpfs3);
        put_slot(&mut out, r0.offset, &self.file.data.selector.selector.pair0.data, Ghost(base), Ghost(all), Ghost(0));
        put_slot(&mut out, r1.offset, &self.file.data.selector.selector.pair1.data, Ghost(base), Ghost(all), Ghost(1));
        put_slot(&mut out, r2.offset, &self.file.data.selector.pair0.data, Ghost(base), Ghost(all), Ghost(2));
        put_slot(&mut out, r3.offset, &self.file.data.selector.pair1.data, Ghost(base), Ghost(all), Ghost(3));
        put_slot(&mut out, r4.offset, &self.file.data.pair0.data, Ghost(base), Ghost(all), Ghost(4));
        put_slot(&mut out, r5.offset, &self.file.data.pair1.data, Ghost(base), Ghost(all), Ghost(5));
        match &self.file.external {
            Some(f) => {
                put_slot(
                    &mut out,
                    self.info.external_offset,
                    &f.data,
                    Ghost(base),
                    Ghost(all),
                    Ghost(6),
                );
                assert(all.take(7) =~= all);
            },
            None => {
                proof {
                    assert(all.take(7) =~= all.take(6).push(all[6]));
                    lemma_overlay_push(base, all.take(6), all[6]);
                    assert(out@ =~= overlay(base, all.take(7)));
                    assert(all.take(7) =~= all);
                }
            },
        }
        out
    }
}

/// The lengths of the parts are those that the descriptor tells.
proof fn lemma_lens(f: DifiPartition)
    requires
        f.inv(),
    ensures
        f.level1().selector.bytes().len() == 1,
        f.level1().pair0.bytes().len() == f.info.dpfs1.size,
        f.level1().pair1.bytes().len() == f.info.dpfs1.size,
        f.level2().pair0.bytes().len() == f.info.dpfs2.size,
        f.level2().pair1.bytes().len() == f.info.dpfs2.size,
        f.level3().pair0.bytes().len() == f.info.dpfs3.size,
        f.level3().pair1.bytes().len() == f.info.dpfs3.size,
        f.level2().block_len == pow2(f.info.dpfs2.log as nat),
        f.level3().block_len == pow2(f.info.dpfs3.log as nat),
{
    reveal(DifiPartition::well_formed);
}

/// The parts are within the files and do not overlap.
proof fn lemma_slots_fit(f: DifiPartition)
    requires
        f.inv(),
    ensures
        slots_ok(f.descriptor@.len() as int, f.descriptor_slots()),
        slots_ok(f.partition@.len() as int, f.partition_slots()),
{
    reveal(DifiPartition::well_formed);
    lemma_lens(f);
    let i = f.info;
    let h = head_ranges(i);
    let d = f.descriptor_slots();
    assert(ranges_apart(h[0].offset as int, h[0].len as int, h[3].offset as int, h[3].len as int));
    assert(h[0].offset + h[0].len <= f.descriptor@.len());
    assert(h[3].offset + h[3].len <= f.descriptor@.len());
    assert(d[0].0 == SELECTOR_POS && d[0].1.len() == 1);
    assert(d[1].0 == h[3].offset && d[1].1.len() == h[3].len);
    let r = part_ranges(i);
    let s = f.partition_slots();
    assert forall|k: int| 0 <= k < 7 implies (#[trigger] s[k]).0 == r[k].offset && s[k].1.len()
        == r[k].len by {}
    assert forall|j: int, k: int| 0 <= j < k < 7 implies ranges_apart(
        (#[trigger] s[j]).0,
        s[j].1.len() as int,
        (#[trigger] s[k]).0,
        s[k].1.len() as int,
    ) by {
        assert(ranges_apart(r[j].offset as int, r[j].len as int, r[k].offset as int, r[k].len as int));
    }
}

/// A descriptor tells the same where it is the same but for the selector byte and the hashes.
proof fn lemma_parse_same(d: Seq<u8>, e: Seq<u8>, i: DifiInfo)
    requires
        parse(d) == Ok::<DifiInfo, Error>(i),
        d.len() == e.len(),
        d.subrange(0, SELECTOR_POS as int) == e.subrange(0, SELECTOR_POS as int),
        d.subrange(SELECTOR_POS + 1, DIFI_HEADER_LEN as int) == e.subrange(
            SELECTOR_POS + 1,
            DIFI_HEADER_LEN as int,
        ),
        cut(d, head_ranges(i)[1]) == cut(e, head_ranges(i)[1]),
        cut(d, head_ranges(i)[2]) == cut(e, head_ranges(i)[2]),
    ensures
        parse(e) == Ok::<DifiInfo, Error>(i),
{
    let a = SELECTOR_POS as int;
    lemma_field_same(d, e, 0, a, 0, 4);
    lemma_field_same(d, e, 0, a, 4, 4);
    lemma_field_same(d, e, 0, a, 8, 8);
    lemma_field_same(d, e, 0, a, 0x10, 8);
    lemma_field_same(d, e, 0, a, 0x18, 8);
    lemma_field_same(d, e, 0, a, 0x20, 8);
    lemma_field_same(d, e, 0, a, 0x28, 8);
    lemma_field_same(d, e, 0, a, 0x30, 8);
    lemma_field_same(d, e, 0, a, 0x38, 1);
    lemma_field_same(d, e, a + 1, DIFI_HEADER_LEN as int, 0x3C, 8);
    lemma_field_bound(d, 8, 8);
    lemma_field_bound(d, 0x18, 8);
    let v = i.ivfc_at as int;
    let w = v + IVFC_DESCRIPTOR_LEN;
    assert(v == field(d, 8, 8));
    lemma_field_same(d, e, v, w, v, 4);
    lemma_field_same(d, e, v, w, v + 4, 4);
    lemma_field_same(d, e, v, w, v + 8, 8);
    lemma_level_same(d, e, v, w, v + 0x10);
    lemma_level_same(d, e, v, w, v + 0x28);
    lemma_level_same(d, e, v, w, v + 0x40);
    lemma_level_same(d, e, v, w, v + 0x58);
    let v = i.dpfs_at as int;
    let w = v + DPFS_DESCRIPTOR_LEN;
    assert(v == field(d, 0x18, 8));
    lemma_field_same(d, e, v, w, v, 4);
    lemma_field_same(d, e, v, w, v + 4, 4);
    lemma_level_same(d, e, v, w, v + 8);
    lemma_level_same(d, e, v, w, v + 0x20);
    lemma_level_same(d, e, v, w, v + 0x38);
}

proof fn lemma_field_bound(d: Seq<u8>, pos: int, n: int)
    requires
        0 <= pos,
        n == 8,
        pos + n <= d.len(),
    ensures
        field(d, pos, n) <= u64::MAX,
{
    lemma_le_number_bound(d.subrange(pos, pos + n));
}

proof fn lemma_level_same(d: Seq<u8>, e: Seq<u8>, a: int, b: int, pos: int)
    requires
        d.subrange(a, b) == e.subrange(a, b),
        0 <= a <= pos,
        pos + 20 <= b <= d.len(),
        b <= e.len(),
    ensures
        level_at(d, pos) == level_at(e, pos),
{
    lemma_field_same(d, e, a, b, pos, 8);
    lemma_field_same(d, e, a, b, pos + 8, 8);
    lemma_field_same(d, e, a, b, pos + 16, 4);
}

/// The descriptor as it is stored tells the same as before, and holds the selector and the hashes.
proof fn lemma_stored_descriptor(f: DifiPartition)
    requires
        f.inv(),
    ensures
        f.stored_descriptor().len() == f.descriptor@.len(),
        parse(f.stored_descriptor()) == Ok::<DifiInfo, Error>(f.info),
        f.stored_descriptor().subrange(SELECTOR_POS as int, SELECTOR_POS + 1)
            == f.level1().selector.bytes(),
        f.stored_descriptor()[SELECTOR_POS as int] <= 1,
        cut(f.stored_descriptor(), head_ranges(f.info)[3]) == f.file.master.bytes(),
{
    reveal(DifiPartition::well_formed);
    let d = f.descriptor@;
    let e = f.stored_descriptor();
    let i = f.info;
    let h = head_ranges(i);
    let s = f.descriptor_slots();
    lemma_slots_fit(f);
    lemma_lens(f);
    lemma_overlay_len(d, s);
    assert(s[0].0 == SELECTOR_POS && s[0].1.len() == 1);
    assert(s[1].0 == h[3].offset && s[1].1.len() == h[3].len);
    assert(h[0].offset == 0 && h[0].len == DIFI_HEADER_LEN);
    assert(ranges_apart(h[0].offset as int, h[0].len as int, h[1].offset as int, h[1].len as int));
    assert(ranges_apart(h[0].offset as int, h[0].len as int, h[2].offset as int, h[2].len as int));
    assert(ranges_apart(h[0].offset as int, h[0].len as int, h[3].offset as int, h[3].len as int));
    assert(ranges_apart(h[1].offset as int, h[1].len as int, h[3].offset as int, h[3].len as int));
    assert(ranges_apart(h[2].offset as int, h[2].len as int, h[3].offset as int, h[3].len as int));
    assert(h[0].offset + h[0].len <= d.len());
    assert(h[1].offset + h[1].len <= d.len());
    assert(h[2].offset + h[2].len <= d.len());
    lemma_overlay_outside(d, s, 0, SELECTOR_POS as int);
    lemma_overlay_outside(d, s, SELECTOR_POS + 1, DIFI_HEADER_LEN - SELECTOR_POS - 1);
    lemma_overlay_outside(d, s, h[1].offset as int, h[1].len as int);
    lemma_overlay_outside(d, s, h[2].offset as int, h[2].len as int);
    lemma_parse_same(d, e, i);
    lemma_overlay_slot(d, s, 0);
    lemma_overlay_slot(d, s, 1);
    assert(e.subrange(SELECTOR_POS as int, SELECTOR_POS + 1)[0] == e[SELECTOR_POS as int]);
    assert(f.level1().inv());
}

/// The partition file as it is stored holds the parts.
proof fn lemma_stored_partition(f: DifiPartition)
    requires
        f.inv(),
    ensures
        f.stored_partition().len() == f.partition@.len(),
        forall|k: int|
            0 <= k < 7 ==> cut(f.stored_partition(), #[trigger] part_ranges(f.info)[k])
                == f.partition_slots()[k].1,
{
    reveal(DifiPartition::well_formed);
    let p = f.partition@;
    let q = f.stored_partition();
    let t = f.partition_slots();
    let r = part_ranges(f.info);
    lemma_slots_fit(f);
    lemma_lens(f);
    lemma_overlay_len(p, t);
    assert forall|k: int| 0 <= k < 7 implies cut(q, #[trigger] r[k]) == t[k].1 by {
        assert(t[k].0 == r[k].offset && t[k].1.len() == r[k].len);
        lemma_overlay_slot(p, t, k);
    }
}

/// What is stored of a partition can be opened.
#[verifier::rlimit(40)]
proof fn lemma_stored_openable(f: DifiPartition)
    requires
        f.inv(),
    ensures
        openable(f.stored_descriptor(), f.stored_partition()),
{
    reveal(DifiPartition::well_formed);
    reveal(open_error);
    lemma_stored_descriptor(f);
    lemma_stored_partition(f);
}

/// What is stored of a partition can be opened: its levels of copies then show what was stored
/// of them with the last commit, whatever has been written since.
#[verifier::rlimit(40)]
pub proof fn law_reopen(f: DifiPartition, g: DifiPartition)
    requires
        f.inv(),
    ensures
        openable(f.stored_descriptor(), f.stored_partition()),
        opened(g, f.stored_descriptor(), f.stored_partition()) ==> g.info == f.info
            && g.level3().bytes() == f.level3().durable(),
{
    reveal(DifiPartition::well_formed);
    reveal(opened);
    lemma_stored_openable(f);
    let e = f.stored_descriptor();
    let q = f.stored_partition();
    let t = f.partition_slots();
    let r = part_ranges(f.info);
    lemma_stored_descriptor(f);
    lemma_stored_partition(f);
    if opened(g, e, q) {
        lemma_settled(g);
        lemma_lens(f);
        lemma_lens(g);
        assert(cut(q, r[0]) == t[0].1);
        assert(cut(q, r[1]) == t[1].1);
        assert(cut(q, r[2]) == t[2].1);
        assert(cut(q, r[3]) == t[3].1);
        assert(cut(q, r[4]) == t[4].1);
        assert(cut(q, r[5]) == t[5].1);
        assert(g.level1().durable() == f.level1().durable());
        assert(g.level2().durable() == f.level2().durable());
    }
}

/// Where nothing has been written since the last commit, the levels of copies show what is
/// stored of them.
proof fn lemma_settled(f: DifiPartition)
    requires
        f.inv(),
        f.clean(),
    ensures
        f.level3().durable() == f.level3().bytes(),
{
    reveal(DifiPartition::well_formed);
    let l = f.level3();
    lemma_clean_merged(
        l.selector.bytes(),
        l.dirty@,
        l.pair0.bytes(),
        l.pair1.bytes(),
        l.block_len as int,
    );
}

/// A partition that has just been opened is well-formed, and nothing has been written to it.
pub proof fn lemma_opened_inv(f: DifiPartition, d: Seq<u8>, p: Seq<u8>)
    requires
        opened(f, d, p),
    ensures
        f.inv(),
        f.clean(),
        f.descriptor@ == d,
        f.partition@ == p,
{
    reveal(opened);
}

/// The pieces of a partition that has just been opened are in the files.
proof fn lemma_opened_slots(f: DifiPartition, d: Seq<u8>, p: Seq<u8>)
    requires
        opened(f, d, p),
    ensures
        forall|k: int|
            0 <= k < 2 ==> d.subrange(
                (#[trigger] f.descriptor_slots()[k]).0,
                f.descriptor_slots()[k].0 + f.descriptor_slots()[k].1.len(),
            ) == f.descriptor_slots()[k].1,
        forall|k: int|
            0 <= k < 7 ==> p.subrange(
                (#[trigger] f.partition_slots()[k]).0,
                f.partition_slots()[k].0 + f.partition_slots()[k].1.len(),
            ) == f.partition_slots()[k].1,
{
    reveal(DifiPartition::well_formed);
    reveal(opened);
    lemma_lens(f);
    let s = f.descriptor_slots();
    let t = f.partition_slots();
    let r = part_ranges(f.info);
    assert(s[0] == (SELECTOR_POS as int, d.subrange(SELECTOR_POS as int, SELECTOR_POS + 1)));
    assert(s[1] == (f.info.hash_offset as int, cut(d, head_ranges(f.info)[3])));
    assert(s[1].1.len() == f.info.hash_size);
    assert forall|k: int| 0 <= k < 7 implies #[trigger] t[k] == (r[k].offset as int, cut(p, r[k]))
        && t[k].1.len() == r[k].len by {}
}

/// A partition that has just been opened is stored as it was.
pub proof fn lemma_opened_stored(f: DifiPartition, d: Seq<u8>, p: Seq<u8>)
    requires
        opened(f, d, p),
    ensures
        f.stored_descriptor() == d,
        f.stored_partition() == p,
{
    lemma_opened_inv(f, d, p);
    lemma_slots_fit(f);
    lemma_opened_slots(f, d, p);
    lemma_overlay_same(d, f.descriptor_slots());
    lemma_overlay_same(p, f.partition_slots());
}

/// A partition that has been committed is the same after it has been stored and opened again.
pub proof fn law_reopen_committed(f: DifiPartition, g: DifiPartition)
    requires
        f.inv(),
        f.clean(),
        opened(g, f.stored_descriptor(), f.stored_partition()),
    ensures
        same_file(f, g),
{
    reveal(DifiPartition::well_formed);
    reveal(opened);
    law_reopen(f, g);
    lemma_settled(f);
    lemma_stored_descriptor(f);
    lemma_stored_partition(f);
    assert(cut(f.stored_partition(), part_ranges(f.info)[6]) == f.partition_slots()[6].1);
    assert(g.external_bytes() == f.external_bytes());
    assert(g.file.master.bytes() == f.file.master.bytes());
    assert forall|k: int| 0 <= k < 4 implies #[trigger] f.file.part(k) == g.file.part(k) by {
        let a = f.file.levels@[k];
        let b = g.file.levels@[k];
        assert(f.file.level_ok(k));
        assert(g.file.level_ok(k));
        assert(a.modified@ =~= b.modified@);
    }
    assert(f.file.parts() =~= g.file.parts());
    assert forall|k: int| #[trigger] g.readable(k) == f.readable(k) by {}
}

/// The logarithm of a number, rounded down.
pub open spec fn ilog(n: nat) -> nat
    decreases n,
{
    if n <= 1 {
        0
    } else {
        1 + ilog(n / 2)
    }
}

proof fn lemma_ilog_pow2(k: nat)
    ensures
        ilog(pow2(k)) == k,
    decreases k,
{
    vstd::arithmetic::power2::lemma2_to64();
    if k > 0 {
        lemma_ilog_pow2((k - 1) as nat);
        vstd::arithmetic::power2::lemma_pow2_unfold(k);
        lemma_pow2_pos((k - 1) as nat);
    }
}

proof fn lemma_ilog_bound(n: nat)
    ensures
        ilog(n) <= n,
    decreases n,
{
    if n > 1 {
        lemma_ilog_bound(n / 2);
    }
}

fn log_of(n: usize) -> (r: u64)
    ensures
        r == ilog(n as nat),
{
    let mut m: usize = n;
    let mut k: u64 = 0;
    proof {
        lemma_ilog_bound(n as nat);
    }
    while m > 1
        invariant
            k + ilog(m as nat) == ilog(n as nat),
            ilog(n as nat) <= n,
        decreases m,
    {
        proof {
            lemma_ilog_bound((m / 2) as nat);
        }
        m = m / 2;
        k = k + 1;
    }
    k
}

/// The header of a new descriptor.
pub open spec fn header_fields(p: DifiPartitionParam) -> Fields {
    let l = layout(p);
    seq![
        (DIFI_MAGIC as nat, 4nat),
        (0x10000nat, 4nat),
        (0x44nat, 8nat),
        (0x78nat, 8nat),
        (0xBCnat, 8nat),
        (0x50nat, 8nat),
        (0x10Cnat, 8nat),
        (l.master_len as nat, 8nat),
        (if p.external_ivfc_level4 {
            1nat
        } else {
            0nat
        }, 1nat),
        (0nat, 1nat),
        (0nat, 2nat),
        (l.external_offset as nat, 8nat),
    ]
}

/// The description of the tree of hashes in a new descriptor.
pub open spec fn ivfc_fields(p: DifiPartitionParam) -> Fields {
    let l = layout(p);
    seq![
        (IVFC_MAGIC as nat, 4nat),
        (0x20000nat, 4nat),
        (l.master_len as nat, 8nat),
        (0nat, 8nat),
        (l.ivfc1_len as nat, 8nat),
        (ilog(p.ivfc_level1_block_len as nat), 4nat),
        (0nat, 4nat),
        (l.ivfc2_offset as nat, 8nat),
        (l.ivfc2_len as nat, 8nat),
        (ilog(p.ivfc_level2_block_len as nat), 4nat),
        (0nat, 4nat),
        (l.ivfc3_offset as nat, 8nat),
        (l.ivfc3_len as nat, 8nat),
        (ilog(p.ivfc_level3_block_len as nat), 4nat),
        (0nat, 4nat),
        (l.ivfc4_offset as nat, 8nat),
        (l.ivfc4_len as nat, 8nat),
        (ilog(p.ivfc_level4_block_len as nat), 4nat),
        (0nat, 4nat),
        (0x78nat, 8nat),
    ]
}

/// The description of the levels of copies in a new descriptor.
pub open spec fn dpfs_fields(p: DifiPartitionParam) -> Fields {
    let l = layout(p);
    seq![
        (DPFS_MAGIC as nat, 4nat),
        (0x10000nat, 4nat),
        (0nat, 8nat),
        (l.dpfs1_len as nat, 8nat),
        (0nat, 4nat),
        (0nat, 4nat),
        (l.dpfs2_offset as nat, 8nat),
        (l.dpfs2_len as nat, 8nat),
        (ilog(p.dpfs_level2_block_len as nat), 4nat),
        (0nat, 4nat),
        (l.dpfs3_offset as nat, 8nat),
        (l.dpfs3_len as nat, 8nat),
        (ilog(p.dpfs_level3_block_len as nat), 4nat),
        (0nat, 4nat),
    ]
}

/// Writes the header of a new descriptor.
fn header_bytes(p: &DifiPartitionParam, info: &DifiPartitionInfo) -> (r: Vec<u8>)
    requires
        info.view() == layout(*p),
    ensures
        r@ == packed(header_fields(*p)),
{
    let mut k = Packer::new();
    k.put(DIFI_MAGIC, 4);
    k.put(0x10000, 4);
    k.put(0x44, 8);
    k.put(0x78, 8);
    k.put(0xBC, 8);
    k.put(0x50, 8);
    k.put(0x10C, 8);
    k.put(info.master_len as u64, 8);
    k.put(if p.external_ivfc_level4 {
        1
    } else {
        0
    }, 1);
    k.put(0, 1);
    k.put(0, 2);
    k.put(info.external_offset as u64, 8);
    assert(k.fields@ =~= header_fields(*p));
    k.out
}

/// Writes the description of the tree of hashes.
fn ivfc_bytes(p: &DifiPartitionParam, info: &DifiPartitionInfo) -> (r: Vec<u8>)
    requires
        info.view() == layout(*p),
    ensures
        r@ == packed(ivfc_fields(*p)),
{
    let mut k = Packer::new();
    k.put(IVFC_MAGIC, 4);
    k.put(0x20000, 4);
    k.put(info.master_len as u64, 8);
    k.put(0, 8);
    k.put(info.ivfc1_len as u64, 8);
    k.put(log_of(p.ivfc_level1_block_len), 4);
    k.put(0, 4);
    k.put(info.ivfc2_offset as u64, 8);
    k.put(info.ivfc2_len as u64, 8);
    k.put(log_of(p.ivfc_level2_block_len), 4);
    k.put(0, 4);
    k.put(info.ivfc3_offset as u64, 8);
    k.put(info.ivfc3_len as u64, 8);
    k.put(log_of(p.ivfc_level3_block_len), 4);
    k.put(0, 4);
    k.put(info.ivfc4_offset as u64, 8);
    k.put(info.ivfc4_len as u64, 8);
    k.put(log_of(p.ivfc_level4_block_len), 4);
    k.put(0, 4);
    k.put(0x78, 8);
    assert(k.fields@ =~= ivfc_fields(*p));
    k.out
}

/// Writes the description of the levels of copies.
fn dpfs_bytes(p: &DifiPartitionParam, info: &DifiPartitionInfo) -> (r: Vec<u8>)
    requires
        info.view() == layout(*p),
    ensures
        r@ == packed(dpfs_fields(*p)),
{
    let mut k = Packer::new();
    k.put(DPFS_MAGIC, 4);
    k.put(0x10000, 4);
    k.put(0, 8);
    k.put(info.dpfs1_len as u64, 8);
    k.put(0, 4);
    k.put(0, 4);
    k.put(info.dpfs2_offset as u64, 8);
    k.put(info.dpfs2_len as u64, 8);
    k.put(log_of(p.dpfs_level2_block_len), 4);
    k.put(0, 4);
    k.put(info.dpfs3_offset as u64, 8);
    k.put(info.dpfs3_len as u64, 8);
    k.put(log_of(p.dpfs_level3_block_len), 4);
    k.put(0, 4);
    assert(k.fields@ =~= dpfs_fields(*p));
    k.out
}

/// What a new descriptor begins with.
pub open spec fn head_of(p: DifiPartitionParam) -> Seq<u8> {
    packed(header_fields(p)) + packed(ivfc_fields(p)) + packed(dpfs_fields(p))
}

proof fn lemma_logs(p: DifiPartitionParam)
    ensures
        ilog(p.dpfs_level2_block_len as nat) < 64,
        ilog(p.dpfs_level3_block_len as nat) < 64,
        ilog(p.ivfc_level1_block_len as nat) < 64,
        ilog(p.ivfc_level2_block_len as nat) < 64,
        ilog(p.ivfc_level3_block_len as nat) < 64,
        ilog(p.ivfc_level4_block_len as nat) < 64,
{
    vstd::arithmetic::power2::lemma2_to64();
    lemma_log_small(p.dpfs_level2_block_len as nat, 64);
    lemma_log_small(p.dpfs_level3_block_len as nat, 64);
    lemma_log_small(p.ivfc_level1_block_len as nat, 64);
    lemma_log_small(p.ivfc_level2_block_len as nat, 64);
    lemma_log_small(p.ivfc_level3_block_len as nat, 64);
    lemma_log_small(p.ivfc_level4_block_len as nat, 64);
}

proof fn lemma_log_small(n: nat, k: nat)
    requires
        n < pow2(k),
        k > 0,
    ensures
        ilog(n) < k,
    decreases k,
{
    vstd::arithmetic::power2::lemma2_to64();
    if n > 1 {
        vstd::arithmetic::power2::lemma_pow2_unfold(k);
        if k > 1 {
            lemma_log_small(n / 2, (k - 1) as nat);
        }
    }
}

pub proof fn lemma_header_fields(p: DifiPartitionParam)
    requires
        p.ok(),
        layout_fits(p),
    ensures
        packed(header_fields(p)).len() == 68,
        field(packed(header_fields(p)), 0, 4) == header_fields(p)[0].0,
        field(packed(header_fields(p)), 4, 4) == header_fields(p)[1].0,
        field(packed(header_fields(p)), 8, 8) == header_fields(p)[2].0,
        field(packed(header_fields(p)), 16, 8) == header_fields(p)[3].0,
        field(packed(header_fields(p)), 24, 8) == header_fields(p)[4].0,
        field(packed(header_fields(p)), 32, 8) == header_fields(p)[5].0,
        field(packed(header_fields(p)), 40, 8) == header_fields(p)[6].0,
        field(packed(header_fields(p)), 48, 8) == header_fields(p)[7].0,
        field(packed(header_fields(p)), 56, 1) == header_fields(p)[8].0,
        field(packed(header_fields(p)), 57, 1) == header_fields(p)[9].0,
        field(packed(header_fields(p)), 58, 2) == header_fields(p)[10].0,
        field(packed(header_fields(p)), 60, 8) == header_fields(p)[11].0,
{
    let f = header_fields(p);
    lemma_layout(p);
    lemma_pow256();
    lemma_logs(p);
    assert(start(f, 0) == 0 && f[0].1 == 4);
    assert(start(f, 1) == 4 && f[1].1 == 4);
    assert(start(f, 2) == 8 && f[2].1 == 8);
    assert(start(f, 3) == 16 && f[3].1 == 8);
    assert(start(f, 4) == 24 && f[4].1 == 8);
    assert(start(f, 5) == 32 && f[5].1 == 8);
    assert(start(f, 6) == 40 && f[6].1 == 8);
    assert(start(f, 7) == 48 && f[7].1 == 8);
    assert(start(f, 8) == 56 && f[8].1 == 1);
    assert(start(f, 9) == 57 && f[9].1 == 1);
    assert(start(f, 10) == 58 && f[10].1 == 2);
    assert(start(f, 11) == 60 && f[11].1 == 8);
    assert(start(f, 12) == 68);
    lemma_packed_len(f);
    lemma_field(f, 0);
    lemma_field(f, 1);
    lemma_field(f, 2);
    lemma_field(f, 3);
    lemma_field(f, 4);
    lemma_field(f, 5);
    lemma_field(f, 6);
    lemma_field(f, 7);
    lemma_field(f, 8);
    lemma_field(f, 9);
    lemma_field(f, 10);
    lemma_field(f, 11);
}

pub proof fn lemma_ivfc_fields(p: DifiPartitionParam)
    requires
        p.ok(),
        layout_fits(p),
    ensures
        packed(ivfc_fields(p)).len() == 120,
        field(packed(ivfc_fields(p)), 0, 4) == ivfc_fields(p)[0].0,
        field(packed(ivfc_fields(p)), 4, 4) == ivfc_fields(p)[1].0,
        field(packed(ivfc_fields(p)), 8, 8) == ivfc_fields(p)[2].0,
        field(packed(ivfc_fields(p)), 16, 8) == ivfc_fields(p)[3].0,
        field(packed(ivfc_fields(p)), 24, 8) == ivfc_fields(p)[4].0,
        field(packed(ivfc_fields(p)), 32, 4) == ivfc_fields(p)[5].0,
        field(packed(ivfc_fields(p)), 36, 4) == ivfc_fields(p)[6].0,
        field(packed(ivfc_fields(p)), 40, 8) == ivfc_fields(p)[7].0,
        field(packed(ivfc_fields(p)), 48, 8) == ivfc_fields(p)[8].0,
        field(packed(ivfc_fields(p)), 56, 4) == ivfc_fields(p)[9].0,
        field(packed(ivfc_fields(p)), 60, 4) == ivfc_fields(p)[10].0,
        field(packed(ivfc_fields(p)), 64, 8) == ivfc_fields(p)[11].0,
        field(packed(ivfc_fields(p)), 72, 8) == ivfc_fields(p)[12].0,
        field(packed(ivfc_fields(p)), 80, 4) == ivfc_fields(p)[13].0,
        field(packed(ivfc_fields(p)), 84, 4) == ivfc_fields(p)[14].0,
        field(packed(ivfc_fields(p)), 88, 8) == ivfc_fields(p)[15].0,
        field(packed(ivfc_fields(p)), 96, 8) == ivfc_fields(p)[16].0,
        field(packed(ivfc_fields(p)), 104, 4) == ivfc_fields(p)[17].0,
        field(packed(ivfc_fields(p)), 108, 4) == ivfc_fields(p)[18].0,
        field(packed(ivfc_fields(p)), 112, 8) == ivfc_fields(p)[19].0,
{
    let f = ivfc_fields(p);
    lemma_layout(p);
    lemma_pow256();
    lemma_logs(p);
    assert(start(f, 0) == 0 && f[0].1 == 4);
    assert(start(f, 1) == 4 && f[1].1 == 4);
    assert(start(f, 2) == 8 && f[2].1 == 8);
    assert(start(f, 3) == 16 && f[3].1 == 8);
    assert(start(f, 4) == 24 && f[4].1 == 8);
    assert(start(f, 5) == 32 && f[5].1 == 4);
    assert(start(f, 6) == 36 && f[6].1 == 4);
    assert(start(f, 7) == 40 && f[7].1 == 8);
    assert(start(f, 8) == 48 && f[8].1 == 8);
    assert(start(f, 9) == 56 && f[9].1 == 4);
    assert(start(f, 10) == 60 && f[10].1 == 4);
    assert(start(f, 11) == 64 && f[11].1 == 8);
    assert(start(f, 12) == 72 && f[12].1 == 8);
    assert(start(f, 13) == 80 && f[13].1 == 4);
    assert(start(f, 14) == 84 && f[14].1 == 4);
    assert(start(f, 15) == 88 && f[15].1 == 8);
    assert(start(f, 16) == 96 && f[16].1 == 8);
    assert(start(f, 17) == 104 && f[17].1 == 4);
    assert(start(f, 18) == 108 && f[18].1 == 4);
    assert(start(f, 19) == 112 && f[19].1 == 8);
    assert(start(f, 20) == 120);
    lemma_packed_len(f);
    lemma_field(f, 0);
    lemma_field(f, 1);
    lemma_field(f, 2);
    lemma_field(f, 3);
    lemma_field(f, 4);
    lemma_field(f, 5);
    lemma_field(f, 6);
    lemma_field(f, 7);
    lemma_field(f, 8);
    lemma_field(f, 9);
    lemma_field(f, 10);
    lemma_field(f, 11);
    lemma_field(f, 12);
    lemma_field(f, 13);
    lemma_field(f, 14);
    lemma_field(f, 15);
    lemma_field(f, 16);
    lemma_field(f, 17);
    lemma_field(f, 18);
    lemma_field(f, 19);
}

pub proof fn lemma_dpfs_fields(p: DifiPartitionParam)
    requires
        p.ok(),
        layout_fits(p),
    ensures
        packed(dpfs_fields(p)).len() == 80,
        field(packed(dpfs_fields(p)), 0, 4) == dpfs_fields(p)[0].0,
        field(packed(dpfs_fields(p)), 4, 4) == dpfs_fields(p)[1].0,
        field(packed(dpfs_fields(p)), 8, 8) == dpfs_fields(p)[2].0,
        field(packed(dpfs_fields(p)), 16, 8) == dpfs_fields(p)[3].0,
        field(packed(dpfs_fields(p)), 24, 4) == dpfs_fields(p)[4].0,
        field(packed(dpfs_fields(p)), 28, 4) == dpfs_fields(p)[5].0,
        field(packed(dpfs_fields(p)), 32, 8) == dpfs_fields(p)[6].0,
        field(packed(dpfs_fields(p)), 40, 8) == dpfs_fields(p)[7].0,
        field(packed(dpfs_fields(p)), 48, 4) == dpfs_fields(p)[8].0,
        field(packed(dpfs_fields(p)), 52, 4) == dpfs_fields(p)[9].0,
        field(packed(dpfs_fields(p)), 56, 8) == dpfs_fields(p)[10].0,
        field(packed(dpfs_fields(p)), 64, 8) == dpfs_fields(p)[11].0,
        field(packed(dpfs_fields(p)), 72, 4) == dpfs_fields(p)[12].0,
        field(packed(dpfs_fields(p)), 76, 4) == dpfs_fields(p)[13].0,
{
    let f = dpfs_fields(p);
    lemma_layout(p);
    lemma_pow256();
    lemma_logs(p);
    assert(start(f, 0) == 0 && f[0].1 == 4);
    assert(start(f, 1) == 4 && f[1].1 == 4);
    assert(start(f, 2) == 8 && f[2].1 == 8);
    assert(start(f, 3) == 16 && f[3].1 == 8);
    assert(start(f, 4) == 24 && f[4].1 == 4);
    assert(start(f, 5) == 28 && f[5].1 == 4);
    assert(start(f, 6) == 32 && f[6].1 == 8);
    assert(start(f, 7) == 40 && f[7].1 == 8);
    assert(start(f, 8) == 48 && f[8].1 == 4);
    assert(start(f, 9) == 52 && f[9].1 == 4);
    assert(start(f, 10) == 56 && f[10].1 == 8);
    assert(start(f, 11) == 64 && f[11].1 == 8);
    assert(start(f, 12) == 72 && f[12].1 == 4);
    assert(start(f, 13) == 76 && f[13].1 == 4);
    assert(start(f, 14) == 80);
    lemma_packed_len(f);
    lemma_field(f, 0);
    lemma_field(f, 1);
    lemma_field(f, 2);
    lemma_field(f, 3);
    lemma_field(f, 4);
    lemma_field(f, 5);
    lemma_field(f, 6);
    lemma_field(f, 7);
    lemma_field(f, 8);
    lemma_field(f, 9);
    lemma_field(f, 10);
    lemma_field(f, 11);
    lemma_field(f, 12);
    lemma_field(f, 13);
}

impl DifiPartition {
    /// The lengths of the descriptor and of the partition file.
    pub fn calculate_size(param: &DifiPartitionParam) -> (r: (usize, usize))
        requires
            param.ok(),
            layout_fits(*param),
        ensures
            r.0 == layout(*param).descriptor_len,
            r.1 == layout(*param).partition_len,
    {
        let info = calculate_info(param);
        (info.descriptor_len, info.partition_len)
    }

    /// Writes a new descriptor.
    pub fn format(descriptor: &mut Vec<u8>, param: &DifiPartitionParam) -> (r: Result<(), Error>)
        requires
            param.ok(),
            layout_fits(*param),
        ensures
            if old(descriptor)@.len() < DESCRIPTOR_HEAD {
                r == Err::<(), Error>(Error::OutOfBound) && final(descriptor)@ == old(descriptor)@
            } else {
                r == Ok::<(), Error>(()) && final(descriptor)@ == spliced(
                    old(descriptor)@,
                    0,
                    head_of(*param),
                )
            },
    {
        let info = calculate_info(param);
        if descriptor.len() < DESCRIPTOR_HEAD {
            return make_error(Error::OutOfBound);
        }
        let header = header_bytes(param, &info);
        let ivfc = ivfc_bytes(param, &info);
        let dpfs = dpfs_bytes(param, &info);
        proof {
            lemma_header_fields(*param);
            lemma_ivfc_fields(*param);
            lemma_dpfs_fields(*param);
        }
        overwrite(descriptor, 0, &header);
        overwrite(descriptor, DIFI_HEADER_LEN, &ivfc);
        overwrite(descriptor, DIFI_HEADER_LEN + IVFC_DESCRIPTOR_LEN, &dpfs);
        assert(descriptor@ =~= spliced(old(descriptor)@, 0, head_of(*param)));
        Ok(())
    }
}

/// The lengths of the blocks are powers of two.
pub open spec fn block_lens_ok(p: DifiPartitionParam) -> bool {
    &&& exists|k: nat| #[trigger] pow2(k) == p.dpfs_level2_block_len
    &&& exists|k: nat| #[trigger] pow2(k) == p.dpfs_level3_block_len
    &&& exists|k: nat| #[trigger] pow2(k) == p.ivfc_level1_block_len
    &&& exists|k: nat| #[trigger] pow2(k) == p.ivfc_level2_block_len
    &&& exists|k: nat| #[trigger] pow2(k) == p.ivfc_level3_block_len
    &&& exists|k: nat| #[trigger] pow2(k) == p.ivfc_level4_block_len
}

pub proof fn lemma_exact_log(n: nat)
    requires
        exists|k: nat| #[trigger] pow2(k) == n,
    ensures
        pow2(ilog(n)) == n,
{
    let k = choose|k: nat| #[trigger] pow2(k) == n;
    lemma_ilog_pow2(k);
}

/// What a new descriptor tells.
pub open spec fn info_of(p: DifiPartitionParam) -> DifiInfo {
    let l = layout(p);
    DifiInfo {
        ivfc_at: 0x44,
        dpfs_at: 0xBC,
        hash_offset: 0x10C,
        hash_size: l.master_len as u64,
        external: p.external_ivfc_level4,
        external_offset: l.external_offset as u64,
        dpfs1: LevelInfo { offset: 0, size: l.dpfs1_len as u64, log: 0 },
        dpfs2: LevelInfo {
            offset: l.dpfs2_offset as u64,
            size: l.dpfs2_len as u64,
            log: ilog(p.dpfs_level2_block_len as nat) as u64,
        },
        dpfs3: LevelInfo {
            offset: l.dpfs3_offset as u64,
            size: l.dpfs3_len as u64,
            log: ilog(p.dpfs_level3_block_len as nat) as u64,
        },
        ivfc1: LevelInfo {
            offset: 0,
            size: l.ivfc1_len as u64,
            log: ilog(p.ivfc_level1_block_len as nat) as u64,
        },
        ivfc2: LevelInfo {
            offset: l.ivfc2_offset as u64,
            size: l.ivfc2_len as u64,
            log: ilog(p.ivfc_level2_block_len as nat) as u64,
        },
        ivfc3: LevelInfo {
            offset: l.ivfc3_offset as u64,
            size: l.ivfc3_len as u64,
            log: ilog(p.ivfc_level3_block_len as nat) as u64,
        },
        ivfc4: LevelInfo {
            offset: l.ivfc4_offset as u64,
            size: l.ivfc4_len as u64,
            log: ilog(p.ivfc_level4_block_len as nat) as u64,
        },
    }
}

proof fn lemma_level_in(d: Seq<u8>, a: int, b: int, pos: int)
    requires
        0 <= a <= pos,
        pos + 20 <= b <= d.len(),
    ensures
        level_at(d, pos) == level_at(d.subrange(a, b), pos - a),
{
    lemma_field_in(d, a, b, pos, 8);
    lemma_field_in(d, a, b, pos + 8, 8);
    lemma_field_in(d, a, b, pos + 16, 4);
}

pub proof fn lemma_head(p: DifiPartitionParam)
    requires
        p.ok(),
        layout_fits(p),
    ensures
        head_of(p).len() == DESCRIPTOR_HEAD,
{
    lemma_header_fields(p);
    lemma_ivfc_fields(p);
    lemma_dpfs_fields(p);
}

/// A new descriptor tells the layout.
proof fn lemma_formatted(p: DifiPartitionParam, d: Seq<u8>)
    requires
        p.ok(),
        layout_fits(p),
        d.len() == layout(p).descriptor_len,
        d.subrange(0, DESCRIPTOR_HEAD as int) == head_of(p),
    ensures
        parse(d) == Ok::<DifiInfo, Error>(info_of(p)),
        d[SELECTOR_POS as int] == 0,
{
    let h = packed(header_fields(p));
    let i = packed(ivfc_fields(p));
    let v = packed(dpfs_fields(p));
    let t = head_of(p);
    lemma_layout(p);
    lemma_header_fields(p);
    lemma_ivfc_fields(p);
    lemma_dpfs_fields(p);
    assert(d.subrange(0, 0x44) =~= h) by {
        assert forall|k: int| 0 <= k < 0x44 implies d[k] == h[k] by {
            assert(d.subrange(0, DESCRIPTOR_HEAD as int)[k] == t[k]);
        }
    }
    assert(d.subrange(0x44, 0xBC) =~= i) by {
        assert forall|k: int| 0 <= k < 0x78 implies d[0x44 + k] == i[k] by {
            assert(d.subrange(0, DESCRIPTOR_HEAD as int)[0x44 + k] == t[0x44 + k]);
        }
    }
    assert(d.subrange(0xBC, 0x10C) =~= v) by {
        assert forall|k: int| 0 <= k < 0x50 implies d[0xBC + k] == v[k] by {
            assert(d.subrange(0, DESCRIPTOR_HEAD as int)[0xBC + k] == t[0xBC + k]);
        }
    }
    lemma_field_in(d, 0, 0x44, 0, 4);
    lemma_field_in(d, 0, 0x44, 4, 4);
    lemma_field_in(d, 0, 0x44, 8, 8);
    lemma_field_in(d, 0, 0x44, 0x10, 8);
    lemma_field_in(d, 0, 0x44, 0x18, 8);
    lemma_field_in(d, 0, 0x44, 0x20, 8);
    lemma_field_in(d, 0, 0x44, 0x28, 8);
    lemma_field_in(d, 0, 0x44, 0x30, 8);
    lemma_field_in(d, 0, 0x44, 0x38, 1);
    lemma_field_in(d, 0, 0x44, 0x3C, 8);
    lemma_field_in(d, 0x44, 0xBC, 0x44, 4);
    lemma_field_in(d, 0x44, 0xBC, 0x48, 4);
    lemma_field_in(d, 0x44, 0xBC, 0x4C, 8);
    lemma_level_in(d, 0x44, 0xBC, 0x54);
    lemma_level_in(d, 0x44, 0xBC, 0x6C);
    lemma_level_in(d, 0x44, 0xBC, 0x84);
    lemma_level_in(d, 0x44, 0xBC, 0x9C);
    lemma_field_in(d, 0xBC, 0x10C, 0xBC, 4);
    lemma_field_in(d, 0xBC, 0x10C, 0xC0, 4);
    lemma_level_in(d, 0xBC, 0x10C, 0xC4);
    lemma_level_in(d, 0xBC, 0x10C, 0xDC);
    lemma_level_in(d, 0xBC, 0x10C, 0xF4);
    lemma_field_in(d, 0, 0x44, 0x39, 1);
    lemma_field_byte(d, 0x39);
}

/// The layout of a new partition can be opened.
proof fn lemma_layout_opens(p: DifiPartitionParam)
    requires
        p.ok(),
        layout_fits(p),
        block_lens_ok(p),
    ensures
        info_fits(layout(p).descriptor_len, layout(p).partition_len, info_of(p)),
{
    let l = layout(p);
    let i = info_of(p);
    lemma_layout(p);
    lemma_logs(p);
    lemma_exact_log(p.dpfs_level2_block_len as nat);
    lemma_exact_log(p.dpfs_level3_block_len as nat);
    lemma_exact_log(p.ivfc_level1_block_len as nat);
    lemma_exact_log(p.ivfc_level2_block_len as nat);
    lemma_exact_log(p.ivfc_level3_block_len as nat);
    lemma_exact_log(p.ivfc_level4_block_len as nat);
    assert(ranges_ok(l.descriptor_len, head_ranges(i)));
    lemma_parts_apart(p);
    let places = ivfc_places(i);
    let ext = if i.external {
        Some(i.ivfc4.size as int)
    } else {
        None
    };
    assert(place_ok(l.master_len, l.dpfs3_len, ext, places, 0));
    assert(place_ok(l.master_len, l.dpfs3_len, ext, places, 1));
    assert(place_ok(l.master_len, l.dpfs3_len, ext, places, 2));
    assert(place_ok(l.master_len, l.dpfs3_len, ext, places, 3));
    assert(places_fit(l.master_len, l.dpfs3_len, ext, places));
}

proof fn lemma_parts_apart(p: DifiPartitionParam)
    requires
        p.ok(),
        layout_fits(p),
    ensures
        ranges_ok(layout(p).partition_len, part_ranges(info_of(p))),
{
    let l = layout(p);
    lemma_layout(p);
    let r = part_ranges(info_of(p));
    assert(r[1].offset == l.dpfs1_len);
    assert(r[3].offset == l.dpfs2_offset + l.dpfs2_len);
    assert(r[5].offset == l.dpfs3_offset + l.dpfs3_len);
    assert forall|j: int, k: int| 0 <= j < k < 7 implies ranges_apart(
        (#[trigger] r[j]).offset as int,
        r[j].len as int,
        (#[trigger] r[k]).offset as int,
        r[k].len as int,
    ) by {
        if k == 6 && !p.external_ivfc_level4 {
            assert(r[6].offset == 0 && r[6].len == 0);
        }
    }
}

/// A partition that has just been formatted can be opened, and is as long as it was asked to be.
pub proof fn law_formatted_opens(
    p: DifiPartitionParam,
    d: Seq<u8>,
    q: Seq<u8>,
    g: DifiPartition,
)
    requires
        p.ok(),
        layout_fits(p),
        block_lens_ok(p),
        d.len() == layout(p).descriptor_len,
        d.subrange(0, DESCRIPTOR_HEAD as int) == head_of(p),
        q.len() == layout(p).partition_len,
    ensures
        openable(d, q),
        opened(g, d, q) ==> g.bytes().len() == p.data_len,
{
    reveal(DifiPartition::well_formed);
    reveal(opened);
    reveal(open_error);
    lemma_formatted(p, d);
    lemma_layout_opens(p);
    if opened(g, d, q) {
        lemma_layout(p);
        assert(g.file.level_ok(3));
        assert(g.file.levels@[3].len == ivfc_places(g.info)[3].len);
        assert(g.file.part(3).bytes.len() == p.data_len);
    }
}

} // verus!
