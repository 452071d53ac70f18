use crate::crc_file::fold;
use crate::error::{make_error, Error};
use crate::little_endian::{push_le, read_le};
use crate::random_access_file::{copy_range, overwrite, Content, RandomAccessFile, Shape};
use vstd::prelude::*;

verus! {

use crate::crc_file::folded;
use crate::fields::field;
use crate::little_endian::{
    le_bytes, lemma_le_bytes_len, lemma_le_bytes_of_number, lemma_le_number_of_bytes,
};
use crate::random_access_file::spliced;

/// One bit of the checksum: shifts right and, where a one falls out, adds the polynomial.
pub open spec fn crc_bit(crc: u16) -> u16 {
    if crc & 1 != 0 {
        (crc >> 1) ^ 0xA001
    } else {
        crc >> 1
    }
}

/// `n` bits of the checksum.
pub open spec fn crc_bits(crc: u16, n: nat) -> u16
    decreases n,
{
    if n == 0 {
        crc
    } else {
        crc_bit(crc_bits(crc, (n - 1) as nat))
    }
}

/// The CRC-16 of `data`, with the polynomial 0x8005 in reversed bit order and all ones as the
/// initial value.
pub open spec fn crc16(data: Seq<u8>) -> u16
    decreases data.len(),
{
    if data.len() == 0 {
        0xFFFF
    } else {
        crc_bits(crc16(data.drop_last()) ^ (data.last() as u16), 8)
    }
}

/// Eight bits of the checksum are one to one, and move the high byte of a value down whose low
/// byte has been taken out.
proof fn lemma_crc_byte(a: u16, b: u16)
    ensures
        crc_bits(a, 8) == crc_bits(b, 8) ==> a == b,
        crc_bits(0, 8) == 0,
        crc_bits(a ^ (a & 0xFF), 8) == a >> 8,
{
    reveal_with_fuel(crc_bits, 9);
    lemma_crc_eight(a, b);
}

proof fn lemma_crc_eight(a: u16, b: u16)
    by (bit_vector)
    ensures
        crc_bit(crc_bit(crc_bit(crc_bit(crc_bit(crc_bit(crc_bit(crc_bit(a)))))))) == crc_bit(
            crc_bit(crc_bit(crc_bit(crc_bit(crc_bit(crc_bit(crc_bit(b))))))),
        ) ==> a == b,
        crc_bit(crc_bit(crc_bit(crc_bit(crc_bit(crc_bit(crc_bit(crc_bit(0))))))))== 0,
        crc_bit(
            crc_bit(
                crc_bit(crc_bit(crc_bit(crc_bit(crc_bit(crc_bit(a ^ (a & 0xFF)))))))),
        ) == a >> 8,
{
}

/// The checksum of data that its own checksum follows, the low byte first, is zero.
pub proof fn law_crc_of_checked(data: Seq<u8>)
    ensures
        crc16(data + le_bytes(crc16(data) as nat, 2)) == 0,
{
    let c = crc16(data);
    reveal_with_fuel(le_bytes, 3);
    let lo = (c as nat % 256) as u8;
    let hi = (c as nat / 256 % 256) as u8;
    let one = data.push(lo);
    let all = data + le_bytes(c as nat, 2);
    assert(all =~= one.push(hi));
    assert(all.drop_last() =~= one);
    assert(one.drop_last() =~= data);
    assert(lo as u16 == c & 0xFF && hi as u16 == c >> 8) by {
        assert(c & 0xFF == c % 256 && c >> 8 == c / 256 && c / 256 < 256) by (bit_vector);
    }
    lemma_crc_byte(c, 0);
    let d = crc16(one);
    assert(d == c >> 8);
    assert(d ^ d == 0) by (bit_vector);
    lemma_crc_byte(0, 0);
}

/// Data of one length that differ in exactly one byte have different checksums.
pub proof fn law_crc_tells_one_byte(a: Seq<u8>, b: Seq<u8>, at: int)
    requires
        a.len() == b.len(),
        0 <= at < a.len(),
        a[at] != b[at],
        forall|i: int| 0 <= i < a.len() && i != at ==> a[i] == b[i],
    ensures
        crc16(a) != crc16(b),
    decreases a.len(),
{
    let x = crc16(a.drop_last());
    let y = crc16(b.drop_last());
    let p = a.last() as u16;
    let q = b.last() as u16;
    if at == a.len() - 1 {
        assert(a.drop_last() =~= b.drop_last());
    } else {
        law_crc_tells_one_byte(a.drop_last(), b.drop_last(), at);
    }
    assert((x == y) != (p == q) ==> x ^ p != y ^ q) by (bit_vector);
    lemma_crc_byte(x ^ p, y ^ q);
}

/// Four bits of the checksum of each value of four bits.
const CRC_NIBBLES: [u16; 16] = [
    0x0000,
    0xCC01,
    0xD801,
    0x1400,
    0xF001,
    0x3C00,
    0x2800,
    0xE401,
    0xA001,
    0x6C00,
    0x7800,
    0xB401,
    0x5000,
    0x9C01,
    0x8801,
    0x4400,
];

/// Four bits of the checksum are those of the low four bits, added to the rest.
proof fn lemma_crc_four(c: u16)
    by (bit_vector)
    ensures
        crc_bit(crc_bit(crc_bit(crc_bit(c)))) == (c >> 4) ^ crc_bit(
            crc_bit(crc_bit(crc_bit(c & 0xF))),
        ),
        c & 0xF < 16,
{
}

proof fn lemma_crc_nibbles(i: u16)
    by (bit_vector)
    ensures
        i == 0 ==> crc_bit(crc_bit(crc_bit(crc_bit(i)))) == 0x0000,
        i == 1 ==> crc_bit(crc_bit(crc_bit(crc_bit(i)))) == 0xCC01,
        i == 2 ==> crc_bit(crc_bit(crc_bit(crc_bit(i)))) == 0xD801,
        i == 3 ==> crc_bit(crc_bit(crc_bit(crc_bit(i)))) == 0x1400,
        i == 4 ==> crc_bit(crc_bit(crc_bit(crc_bit(i)))) == 0xF001,
        i == 5 ==> crc_bit(crc_bit(crc_bit(crc_bit(i)))) == 0x3C00,
        i == 6 ==> crc_bit(crc_bit(crc_bit(crc_bit(i)))) == 0x2800,
        i == 7 ==> crc_bit(crc_bit(crc_bit(crc_bit(i)))) == 0xE401,
        i == 8 ==> crc_bit(crc_bit(crc_bit(crc_bit(i)))) == 0xA001,
        i == 9 ==> crc_bit(crc_bit(crc_bit(crc_bit(i)))) == 0x6C00,
        i == 10 ==> crc_bit(crc_bit(crc_bit(crc_bit(i)))) == 0x7800,
        i == 11 ==> crc_bit(crc_bit(crc_bit(crc_bit(i)))) == 0xB401,
        i == 12 ==> crc_bit(crc_bit(crc_bit(crc_bit(i)))) == 0x5000,
        i == 13 ==> crc_bit(crc_bit(crc_bit(crc_bit(i)))) == 0x9C01,
        i == 14 ==> crc_bit(crc_bit(crc_bit(crc_bit(i)))) == 0x8801,
        i == 15 ==> crc_bit(crc_bit(crc_bit(crc_bit(i)))) == 0x4400,
{
}

/// Four bits of the checksum.
fn crc_nibble(crc: u16) -> (r: u16)
    ensures
        r == crc_bits(crc, 4),
{
    proof {
        reveal_with_fuel(crc_bits, 5);
        lemma_crc_four(crc);
        lemma_crc_nibbles(crc & 0xF);
    }
    (crc >> 4) ^ CRC_NIBBLES[(crc & 0xF) as usize]
}

/// Calculates the CRC-16 of `data`.
pub fn crc16_ninty(data: &[u8]) -> (crc: u16)
    ensures
        crc == crc16(data@),
{
    let mut crc: u16 = 0xFFFF;
    let mut i: usize = 0;
    let n: usize = data.len();
    while i < n
        invariant
            i <= n == data@.len(),
            crc == crc16(data@.take(i as int)),
        decreases n - i,
    {
        assert(data@.take(i + 1).drop_last() =~= data@.take(i as int));
        let ghost start = crc ^ (data@[i as int] as u16);
        crc = crc_nibble(crc_nibble(crc ^ (data[i] as u16)));
        assert(crc == crc_bits(start, 8)) by {
            reveal_with_fuel(crc_bits, 9);
        }
        i += 1;
    }
    assert(data@.take(n as int) =~= data@);
    crc
}

/// The length of a block.
pub const WEAR_BLOCK: usize = 0x1000;

/// A block as it can be addressed: which physical block it is, how often that has been allocated,
/// and the checksums of its eight chunks.
#[derive(Clone, Copy, PartialEq, Eq, Structural, Debug)]
pub struct WearLevelingBlock {
    pub physical_block: u8,
    pub allocate_count: u8,
    pub initialized: bool,
    pub dirty: bool,
    pub crc_ticket: u64,
}

/// Whether a chip has this length.
pub open spec fn wear_len_ok(len: int) -> bool {
    len == 0x20_000 || len == 0x80_000 || len == 0x100_000
}

/// Whether the chip is one without checksums.
pub open spec fn large_save(len: int) -> bool {
    len == 0x100_000
}

/// How many blocks can be addressed. One of them is in reserve.
pub open spec fn virtual_count(len: int) -> int {
    len / 0x1000 - 1
}

/// The length of what is noted of a block.
pub open spec fn item_len(len: int) -> int {
    if large_save(len) {
        2
    } else {
        10
    }
}

/// The length of the map of blocks, without its checksum.
pub open spec fn map_len(len: int) -> int {
    if large_save(len) {
        0x3FE
    } else {
        8 + virtual_count(len) * 10
    }
}

/// What the map tells of a block.
pub open spec fn map_item(f: Seq<u8>, i: int) -> WearLevelingBlock {
    let large = large_save(f.len() as int);
    let at = 8 + i * item_len(f.len() as int);
    let initialized = f[at] & 0x80 != 0;
    WearLevelingBlock {
        physical_block: if large {
            f[at + 1]
        } else {
            f[at] & 0x7F
        },
        allocate_count: if large {
            f[at] & 0x7F
        } else {
            f[at + 1]
        },
        initialized,
        dirty: false,
        crc_ticket: if large || !initialized {
            0
        } else {
            field(f, at + 2, 8) as u64
        },
    }
}

/// What is written into the map of a block that is not initialized.
pub open spec fn blank_item(block: WearLevelingBlock, large: bool) -> Seq<u8> {
    if large {
        seq![block.allocate_count, block.physical_block]
    } else {
        seq![block.physical_block, block.allocate_count] + le_bytes(block.crc_ticket as nat, 8)
    }
}

/// The blocks as the map tells them.
pub open spec fn map_blocks(f: Seq<u8>) -> Seq<WearLevelingBlock> {
    Seq::new(virtual_count(f.len() as int) as nat, |i: int| map_item(f, i))
}

/// Each physical block but the first belongs to one block.
pub open spec fn shared_out(b: Seq<WearLevelingBlock>, count: int) -> bool {
    &&& forall|i: int| 0 <= i < b.len() ==> 1 <= (#[trigger] b[i]).physical_block <= count
    &&& forall|i: int, j: int|
        0 <= i < j < b.len() ==> (#[trigger] b[i]).physical_block != (#[trigger]
        b[j]).physical_block
}

/// An entry of the journal: where a block was written anew.
pub struct WearEntry {
    pub virtual_block: u8,
    pub virtual_block_prev: u8,
    pub physical_block: u8,
    pub physical_block_prev: u8,
    pub allocate_count: u8,
    pub allocate_count_prev: u8,
    pub crc_ticket: u64,
}

/// The entry of the journal at a position.
pub open spec fn entry_at(f: Seq<u8>, at: int) -> WearEntry {
    WearEntry {
        virtual_block: f[at],
        virtual_block_prev: f[at + 1],
        physical_block: f[at + 2],
        physical_block_prev: f[at + 3],
        allocate_count: f[at + 4],
        allocate_count_prev: f[at + 5],
        crc_ticket: field(f, at + 6, 8) as u64,
    }
}

/// Whether the entry can follow on the blocks as they are.
pub open spec fn entry_ok(b: Seq<WearLevelingBlock>, e: WearEntry, count: int) -> bool {
    let to = e.virtual_block as int;
    let from = e.virtual_block_prev as int;
    &&& to < count
    &&& from < count
    &&& 1 <= e.physical_block <= count
    &&& 1 <= e.physical_block_prev <= count
    &&& b[to].physical_block == e.physical_block_prev
    &&& b[from].physical_block == e.physical_block
    &&& !b[from].initialized
    &&& b[to].allocate_count == e.allocate_count_prev
    &&& b[from].allocate_count == (e.allocate_count + 255) % 256
}

/// The blocks after the entry.
pub open spec fn entry_done(b: Seq<WearLevelingBlock>, e: WearEntry, large: bool) -> Seq<
    WearLevelingBlock,
> {
    b.update(
        e.virtual_block_prev as int,
        WearLevelingBlock {
            physical_block: e.physical_block_prev,
            allocate_count: e.allocate_count_prev,
            initialized: false,
            dirty: false,
            crc_ticket: 0,
        },
    ).update(
        e.virtual_block as int,
        WearLevelingBlock {
            physical_block: e.physical_block,
            allocate_count: e.allocate_count,
            initialized: true,
            dirty: false,
            crc_ticket: if large {
                0
            } else {
                e.crc_ticket
            },
        },
    )
}

/// The blocks after the journal from a position on.
pub open spec fn replayed(f: Seq<u8>, b: Seq<WearLevelingBlock>, at: int) -> Result<
    Seq<WearLevelingBlock>,
    Error,
>
    decreases 0x2000 - at,
{
    let count = virtual_count(f.len() as int);
    if at >= 0x1000 {
        Ok(b)
    } else if f.subrange(at, at + 14) != f.subrange(at + 14, at + 28) {
        Err(Error::SignatureMismatch)
    } else if f[at] == 0xFF {
        Ok(b)
    } else if !entry_ok(b, entry_at(f, at), count) {
        Err(Error::InvalidValue)
    } else {
        replayed(f, entry_done(b, entry_at(f, at), large_save(f.len() as int)), at + 0x20)
    }
}

/// Where a chunk of a block is.
pub open spec fn chunk_of(f: Seq<u8>, physical: int, i: int) -> Seq<u8> {
    f.subrange(physical * 0x1000 + i * 0x200, physical * 0x1000 + i * 0x200 + 0x200)
}

/// The checksums of the chunks of a physical block.
pub open spec fn chunk_sums(f: Seq<u8>, physical: int) -> Seq<u8> {
    Seq::new(8, |i: int| folded(crc16(chunk_of(f, physical, i))))
}

/// The noted checksums are right.
pub open spec fn sums_ok(f: Seq<u8>, b: WearLevelingBlock) -> bool {
    b.initialized && !large_save(f.len() as int) ==> le_bytes(b.crc_ticket as nat, 8) == chunk_sums(
        f,
        b.physical_block as int,
    )
}

/// The blocks of a chip, or the error that opening it gives.
pub open spec fn wear_parse(f: Seq<u8>) -> Result<Seq<WearLevelingBlock>, Error> {
    let n = f.len() as int;
    if !wear_len_ok(n) {
        Err(Error::SizeMismatch)
    } else if field(f, map_len(n), 2) != crc16(f.subrange(0, map_len(n))) {
        Err(Error::SignatureMismatch)
    } else if !shared_out(map_blocks(f), virtual_count(n)) {
        Err(Error::InvalidValue)
    } else {
        match replayed(f, map_blocks(f), map_len(n) + 2) {
            Err(e) => Err(e),
            Ok(b) => if b.last().initialized {
                Err(Error::InvalidValue)
            } else if !(forall|i: int| 0 <= i < b.len() ==> sums_ok(f, #[trigger] b[i])) {
                Err(Error::SignatureMismatch)
            } else {
                Ok(b)
            },
        }
    }
}

/// Blocks without checksums have none noted.
pub open spec fn tickets_plain(b: Seq<WearLevelingBlock>, large: bool) -> bool {
    forall|i: int|
        0 <= i < b.len() && (large || !(#[trigger] b[i]).initialized) ==> b[i].crc_ticket == 0
}

/// A chip whose blocks are moved about, as a file.
pub struct WearLeveling {
    /// The chip as it is stored.
    pub file: Vec<u8>,
    pub blocks: Vec<WearLevelingBlock>,
}

/// The byte that shows at a position.
pub open spec fn wear_byte(f: Seq<u8>, b: Seq<WearLevelingBlock>, i: int) -> u8 {
    let k = b[i / 0x1000];
    if k.initialized {
        f[k.physical_block * 0x1000 + i % 0x1000]
    } else {
        0xFF
    }
}

impl Content for WearLeveling {
    open spec fn inv(&self) -> bool {
        let n = self.file@.len() as int;
        &&& wear_len_ok(n)
        &&& self.blocks@.len() == virtual_count(n)
        &&& shared_out(self.blocks@, virtual_count(n))
        &&& !self.blocks@.last().initialized
        &&& tickets_plain(self.blocks@, large_save(n))
        &&& forall|i: int|
            0 <= i < self.blocks@.len() && !(#[trigger] self.blocks@[i]).dirty ==> sums_ok(
                self.file@,
                self.blocks@[i],
            )
    }

    open spec fn bytes(&self) -> Seq<u8> {
        Seq::new(
            ((self.blocks@.len() - 1) * 0x1000) as nat,
            |i: int| wear_byte(self.file@, self.blocks@, i),
        )
    }

    open spec fn readable(&self, i: int) -> bool {
        true
    }

    open spec fn durable(&self) -> Seq<u8> {
        self.bytes()
    }

    open spec fn staged(&self) -> bool {
        false
    }

    open spec fn shape(&self) -> Shape {
        Shape::Bytes(self.file@.len())
    }

    open spec fn committable(&self) -> bool {
        true
    }
}

/// Whether physical blocks are shared out among the blocks.
fn check_shared_out(b: &Vec<WearLevelingBlock>, count: usize) -> (r: bool)
    ensures
        r == shared_out(b@, count as int),
{
    let n: usize = b.len();
    let mut i: usize = 0;
    while i < n
        invariant
            i <= n == b@.len(),
            forall|k: int| 0 <= k < i ==> 1 <= (#[trigger] b@[k]).physical_block <= count,
            forall|j: int, k: int|
                0 <= j < k < i ==> (#[trigger] b@[j]).physical_block != (#[trigger]
                b@[k]).physical_block,
        decreases n - i,
    {
        let p: u8 = b[i].physical_block;
        if p == 0 || p as usize > count {
            assert(!(1 <= b@[i as int].physical_block <= count));
            return false;
        }
        let mut j: usize = 0;
        while j < i
            invariant
                j <= i < n == b@.len(),
                p == b@[i as int].physical_block,
                forall|k: int| 0 <= k < j ==> (#[trigger] b@[k]).physical_block != p,
            decreases i - j,
        {
            if b[j].physical_block == p {
                assert(b@[j as int].physical_block == b@[i as int].physical_block);
                return false;
            }
            j = j + 1;
        }
        i = i + 1;
    }
    true
}

proof fn lemma_wear_len(n: int)
    requires
        wear_len_ok(n),
    ensures
        virtual_count(n) == 31 || virtual_count(n) == 127 || virtual_count(n) == 255,
        n == (virtual_count(n) + 1) * 0x1000,
        8 + virtual_count(n) * item_len(n) <= map_len(n) < 0x1000 - 2,
        (0x1000 - (map_len(n) + 2)) % 0x20 == 0,
        !large_save(n) ==> virtual_count(n) <= 127,
{
}

impl WearLeveling {
    /// Reads the map of blocks.
    fn read_map(file: &Vec<u8>) -> (b: Vec<WearLevelingBlock>)
        requires
            wear_len_ok(file@.len() as int),
        ensures
            b@ == map_blocks(file@),
    {
        let ghost f = file@;
        let n: usize = file.len();
        let large: bool = n == 0x100_000;
        let count: usize = n / 0x1000 - 1;
        let step: usize = if large {
            2
        } else {
            10
        };
        proof {
            lemma_wear_len(n as int);
        }
        let mut b: Vec<WearLevelingBlock> = Vec::new();
        let mut i: usize = 0;
        while i < count
            invariant
                i <= count == virtual_count(n as int),
                n == file@.len(),
                f == file@,
                wear_len_ok(n as int),
                large == large_save(n as int),
                step == item_len(n as int),
                8 + count * step < 0x1000,
                count <= 255,
                b@.len() == i,
                forall|k: int| 0 <= k < i ==> #[trigger] b@[k] == map_item(f, k),
            decreases count - i,
        {
            assert(8 + i * step + step <= 8 + count * step) by (nonlinear_arith)
                requires
                    i < count,
                    step >= 0,
            ;
            let at: usize = 8 + i * step;
            let first: u8 = file[at];
            let second: u8 = file[at + 1];
            let initialized: bool = first & 0x80 != 0;
            let crc_ticket: u64 = if large || !initialized {
                0
            } else {
                read_le(file, at + 2, 8)
            };
            b.push(
                WearLevelingBlock {
                    physical_block: if large {
                        second
                    } else {
                        first & 0x7F
                    },
                    allocate_count: if large {
                        first & 0x7F
                    } else {
                        second
                    },
                    initialized,
                    dirty: false,
                    crc_ticket,
                },
            );
            i = i + 1;
        }
        assert(b@ =~= map_blocks(f));
        b
    }
}

/// After the entry the physical blocks are still shared out.
proof fn lemma_entry_done(b: Seq<WearLevelingBlock>, e: WearEntry, count: int, large: bool)
    requires
        b.len() == count,
        shared_out(b, count),
        entry_ok(b, e, count),
    ensures
        shared_out(entry_done(b, e, large), count),
        entry_done(b, e, large).len() == count,
{
    let c = entry_done(b, e, large);
    let to = e.virtual_block as int;
    let from = e.virtual_block_prev as int;
    assert(to != from ==> c[from].physical_block == b[to].physical_block);
    assert(c[to].physical_block == b[from].physical_block);
    assert forall|i: int, j: int| 0 <= i < j < c.len() implies (#[trigger] c[i]).physical_block != (
    #[trigger] c[j]).physical_block by {
        let x = if i == to {
            from
        } else if i == from {
            to
        } else {
            i
        };
        let y = if j == to {
            from
        } else if j == from {
            to
        } else {
            j
        };
        assert(c[i].physical_block == b[x].physical_block);
        assert(c[j].physical_block == b[y].physical_block);
        assert(x != y);
        if x < y {
            assert(b[x].physical_block != b[y].physical_block);
        } else {
            assert(b[y].physical_block != b[x].physical_block);
        }
    }
}

/// What opening the journal gives keeps the physical blocks shared out.
proof fn lemma_replayed(f: Seq<u8>, b: Seq<WearLevelingBlock>, at: int)
    requires
        b.len() == virtual_count(f.len() as int),
        shared_out(b, virtual_count(f.len() as int)),
        tickets_plain(b, large_save(f.len() as int)),
    ensures
        replayed(f, b, at) matches Ok(c) ==> c.len() == b.len() && shared_out(
            c,
            virtual_count(f.len() as int),
        ) && tickets_plain(c, large_save(f.len() as int)),
    decreases 0x2000 - at,
{
    let count = virtual_count(f.len() as int);
    if at < 0x1000 && f.subrange(at, at + 14) == f.subrange(at + 14, at + 28) && f[at] != 0xFF
        && entry_ok(b, entry_at(f, at), count) {
        let large = large_save(f.len() as int);
        lemma_entry_done(b, entry_at(f, at), count, large);
        lemma_replayed(f, entry_done(b, entry_at(f, at), large), at + 0x20);
    }
}

impl WearLeveling {
    /// Replays the journal on the blocks.
    fn replay(file: &Vec<u8>, blocks: Vec<WearLevelingBlock>) -> (r: Result<
        Vec<WearLevelingBlock>,
        Error,
    >)
        requires
            wear_len_ok(file@.len() as int),
            blocks@.len() == virtual_count(file@.len() as int),
        ensures
            match replayed(file@, blocks@, map_len(file@.len() as int) + 2) {
                Ok(b) => r matches Ok(v) && v@ == b,
                Err(e) => r == Err::<Vec<WearLevelingBlock>, Error>(e),
            },
    {
        let ghost f = file@;
        let n: usize = file.len();
        let large: bool = n == 0x100_000;
        let count: usize = n / 0x1000 - 1;
        let mut b: Vec<WearLevelingBlock> = blocks;
        proof {
            lemma_wear_len(n as int);
        }
        let start: usize = if large {
            0x400
        } else {
            8 + count * 10 + 2
        };
        let ghost whole = replayed(f, b@, start as int);
        let mut at: usize = start;
        while at < 0x1000
            invariant
                f == file@,
                n == f.len(),
                wear_len_ok(n as int),
                large == large_save(n as int),
                count == virtual_count(n as int),
                b@.len() == count,
                at <= 0x1000,
                (0x1000 - at) % 0x20 == 0,
                whole == replayed(f, b@, at as int),
                whole == replayed(f, blocks@, map_len(n as int) + 2),
            decreases 0x1000 - at,
        {
            assert(at + 0x20 <= 0x1000);
            let one = copy_range(file, at, 14);
            let two = copy_range(file, at + 14, 14);
            if !crate::meta_table::same_bytes(&one, &two) {
                return make_error(Error::SignatureMismatch);
            }
            let to: usize = file[at] as usize;
            if to == 0xFF {
                return Ok(b);
            }
            let from: usize = file[at + 1] as usize;
            let physical: u8 = file[at + 2];
            let physical_prev: u8 = file[at + 3];
            let allocated: u8 = file[at + 4];
            let allocated_prev: u8 = file[at + 5];
            let ghost e = entry_at(f, at as int);
            if to >= count || from >= count || physical == 0 || physical as usize > count
                || physical_prev == 0 || physical_prev as usize > count {
                return make_error(Error::InvalidValue);
            }
            let target = b[to];
            let origin = b[from];
            let before: u8 = if allocated == 0 {
                255
            } else {
                allocated - 1
            };
            if target.physical_block != physical_prev || origin.physical_block != physical
                || origin.initialized || target.allocate_count != allocated_prev
                || origin.allocate_count != before {
                return make_error(Error::InvalidValue);
            }
            assert(entry_ok(b@, e, count as int));
            let ticket: u64 = read_le(file, at + 6, 8);
            let ghost b0 = b@;
            b.set(
                from,
                WearLevelingBlock {
                    physical_block: physical_prev,
                    allocate_count: allocated_prev,
                    initialized: false,
                    dirty: false,
                    crc_ticket: 0,
                },
            );
            b.set(
                to,
                WearLevelingBlock {
                    physical_block: physical,
                    allocate_count: allocated,
                    initialized: true,
                    dirty: false,
                    crc_ticket: if large {
                        0
                    } else {
                        ticket
                    },
                },
            );
            assert(b@ =~= entry_done(b0, e, large));
            at = at + 0x20;
        }
        Ok(b)
    }

    /// The checksums of the chunks of a physical block, as a number.
    fn sums(file: &Vec<u8>, physical: u8) -> (r: u64)
        requires
            wear_len_ok(file@.len() as int),
            physical <= virtual_count(file@.len() as int),
        ensures
            le_bytes(r as nat, 8) == chunk_sums(file@, physical as int),
    {
        let ghost f = file@;
        let n: usize = file.len();
        proof {
            lemma_wear_len(n as int);
        }
        let base: usize = physical as usize * 0x1000;
        let mut v: Vec<u8> = Vec::new();
        let mut i: usize = 0;
        while i < 8
            invariant
                i <= 8,
                f == file@,
                n == f.len(),
                base == physical * 0x1000,
                base + 0x1000 <= n,
                v@.len() == i,
                forall|k: int| 0 <= k < i ==> #[trigger] v@[k] == chunk_sums(f, physical as int)[k],
            decreases 8 - i,
        {
            let chunk = copy_range(file, base + i * 0x200, 0x200);
            v.push(fold(crc16_ninty(&chunk)));
            i = i + 1;
        }
        proof {
            assert(v@ =~= chunk_sums(f, physical as int));
            assert(v@.subrange(0, 8) =~= v@);
            lemma_le_bytes_of_number(v@);
        }
        read_le(&v, 0, 8)
    }

    /// Opens a chip.
    pub fn new(file: Vec<u8>) -> (r: Result<WearLeveling, Error>)
        ensures
            match wear_parse(file@) {
                Err(e) => r == Err::<WearLeveling, Error>(e),
                Ok(b) => r matches Ok(w) && w.inv() && w.file@ == file@ && w.blocks@ == b,
            },
    {
        let ghost f = file@;
        let n: usize = file.len();
        if n != 0x20_000 && n != 0x80_000 && n != 0x100_000 {
            return make_error(Error::SizeMismatch);
        }
        proof {
            lemma_wear_len(n as int);
        }
        let count: usize = n / 0x1000 - 1;
        let len: usize = if n == 0x100_000 {
            0x3FE
        } else {
            8 + count * 10
        };
        let map = copy_range(&file, 0, len);
        if read_le(&file, len, 2) != crc16_ninty(&map) as u64 {
            return make_error(Error::SignatureMismatch);
        }
        let blocks = WearLeveling::read_map(&file);
        if !check_shared_out(&blocks, count) {
            return make_error(Error::InvalidValue);
        }
        proof {
            lemma_replayed(f, blocks@, map_len(n as int) + 2);
        }
        let blocks = match WearLeveling::replay(&file, blocks) {
            Ok(b) => b,
            Err(e) => {
                return make_error(e);
            },
        };
        let ghost b = blocks@;
        if blocks[count - 1].initialized {
            return make_error(Error::InvalidValue);
        }
        let mut i: usize = 0;
        while i < count
            invariant
                i <= count == b.len(),
                b == blocks@,
                f == file@,
                n == f.len(),
                wear_len_ok(n as int),
                count == virtual_count(n as int),
                shared_out(b, count as int),
                tickets_plain(b, large_save(n as int)),
                forall|k: int| 0 <= k < i ==> sums_ok(f, #[trigger] b[k]),
                replayed(f, map_blocks(f), map_len(n as int) + 2) == Ok::<
                    Seq<WearLevelingBlock>,
                    Error,
                >(b),
                !b.last().initialized,
                field(f, map_len(n as int), 2) == crc16(f.subrange(0, map_len(n as int))),
                shared_out(map_blocks(f), virtual_count(n as int)),
            decreases count - i,
        {
            let block = blocks[i];
            assert(b[i as int].physical_block <= count);
            if block.initialized && n != 0x100_000 {
                let sums: u64 = WearLeveling::sums(&file, block.physical_block);
                if sums != block.crc_ticket {
                    proof {
                        lemma_ticket(sums, block.crc_ticket);
                        assert(!sums_ok(f, b[i as int]));
                    }
                    return make_error(Error::SignatureMismatch);
                }
            }
            i = i + 1;
        }
        Ok(WearLeveling { file, blocks })
    }
}

/// Different numbers have different bytes.
proof fn lemma_ticket(a: u64, b: u64)
    requires
        a != b,
    ensures
        le_bytes(a as nat, 8) != le_bytes(b as nat, 8),
{
    crate::fields::lemma_pow256();
    lemma_le_number_of_bytes(a as nat, 8);
    lemma_le_number_of_bytes(b as nat, 8);
}

/// Bytes that differ in one physical block only.
pub open spec fn same_beside(f: Seq<u8>, g: Seq<u8>, physical: int) -> bool {
    &&& g.len() == f.len()
    &&& forall|i: int|
        0 <= i < f.len() && !(physical * 0x1000 <= i < physical * 0x1000 + 0x1000)
            ==> #[trigger] g[i] == f[i]
}

/// What is in another physical block is not touched.
proof fn lemma_beside(f: Seq<u8>, g: Seq<u8>, physical: int, b: WearLevelingBlock)
    requires
        wear_len_ok(f.len() as int),
        same_beside(f, g, physical),
        1 <= b.physical_block <= virtual_count(f.len() as int),
        b.physical_block != physical,
    ensures
        sums_ok(f, b) ==> sums_ok(g, b),
        forall|o: int| 0 <= o < 0x1000 ==> g[b.physical_block * 0x1000 + o]
            == #[trigger] f[b.physical_block * 0x1000 + o],
{
    lemma_wear_len(f.len() as int);
    let p = b.physical_block as int;
    assert forall|i: int| p * 0x1000 <= i < p * 0x1000 + 0x1000 implies #[trigger] g[i] == f[i] by {}
    assert(chunk_sums(g, p) =~= chunk_sums(f, p)) by {
        assert forall|i: int| 0 <= i < 8 implies #[trigger] chunk_sums(g, p)[i] == chunk_sums(
            f,
            p,
        )[i] by {
            assert(chunk_of(g, p, i) =~= chunk_of(f, p, i));
        }
    }
}

impl WearLeveling {
    /// Makes sure that a block is initialized.
    fn prepare(&mut self, k: usize)
        requires
            old(self).inv(),
            k < old(self).blocks@.len() - 1,
        ensures
            final(self).inv(),
            final(self).file@.len() == old(self).file@.len(),
            final(self).bytes() == old(self).bytes(),
            final(self).blocks@[k as int].initialized,
            final(self).blocks@[k as int].dirty,
            final(self).blocks@[k as int].physical_block == old(self).blocks@[k as int].physical_block,
    {
        let ghost a = *self;
        let ghost n = self.file@.len() as int;
        proof {
            lemma_wear_len(n);
        }
        let mut block = self.blocks[k];
        let ghost p = block.physical_block as int;
        assert(1 <= self.blocks@[k as int].physical_block <= virtual_count(n));
        if !block.initialized {
            block.initialized = true;
            if block.allocate_count == 0 {
                block.allocate_count = 1;
            }
            let blank: Vec<u8> = vec![0xFFu8; WEAR_BLOCK];
            overwrite(&mut self.file, block.physical_block as usize * WEAR_BLOCK, &blank);
        }
        block.dirty = true;
        self.blocks.set(k, block);
        proof {
            let f = a.file@;
            let g = self.file@;
            assert(same_beside(f, g, p));
            assert forall|i: int| 0 <= i < self.blocks@.len() && i != k implies #[trigger]
            self.blocks@[i] == a.blocks@[i] && a.blocks@[i].physical_block != p by {
                if i < k {
                    assert(a.blocks@[i].physical_block != a.blocks@[k as int].physical_block);
                } else {
                    assert(a.blocks@[k as int].physical_block != a.blocks@[i].physical_block);
                }
            }
            assert forall|i: int|
                0 <= i < self.blocks@.len() && !(#[trigger] self.blocks@[i]).dirty implies sums_ok(
                g,
                self.blocks@[i],
            ) by {
                assert(i != k);
                lemma_beside(f, g, p, self.blocks@[i]);
            }
            assert forall|i: int, j: int|
                0 <= i < j < self.blocks@.len() implies (#[trigger] self.blocks@[i]).physical_block
                != (#[trigger] self.blocks@[j]).physical_block by {
                assert(a.blocks@[i].physical_block != a.blocks@[j].physical_block);
            }
            assert forall|i: int| 0 <= i < self.bytes().len() implies self.bytes()[i]
                == a.bytes()[i] by {
                let x = i / 0x1000;
                if x != k {
                    assert(self.blocks@[x] == a.blocks@[x]);
                    lemma_beside(f, g, p, self.blocks@[x]);
                    assert(g[self.blocks@[x].physical_block * 0x1000 + i % 0x1000]
                        == f[self.blocks@[x].physical_block * 0x1000 + i % 0x1000]);
                }
            }
            assert(self.bytes() =~= a.bytes());
        }
    }

    /// Writes one byte to a block that is initialized.
    fn put(&mut self, pos: usize, byte: u8)
        requires
            old(self).inv(),
            pos < old(self).bytes().len(),
            old(self).blocks@[pos as int / 0x1000].initialized,
            old(self).blocks@[pos as int / 0x1000].dirty,
        ensures
            final(self).inv(),
            final(self).file@.len() == old(self).file@.len(),
            final(self).blocks == old(self).blocks,
            final(self).bytes() == old(self).bytes().update(pos as int, byte),
    {
        let ghost a = *self;
        let ghost n = self.file@.len() as int;
        proof {
            lemma_wear_len(n);
        }
        let k: usize = pos / WEAR_BLOCK;
        let block = self.blocks[k];
        let ghost p = block.physical_block as int;
        assert(1 <= self.blocks@[k as int].physical_block <= virtual_count(n));
        let at: usize = block.physical_block as usize * WEAR_BLOCK + pos % WEAR_BLOCK;
        self.file.set(at, byte);
        proof {
            let f = a.file@;
            let g = self.file@;
            assert(same_beside(f, g, p));
            assert forall|i: int| 0 <= i < a.blocks@.len() && i != k implies (#[trigger]
            a.blocks@[i]).physical_block != p by {
                if i < k {
                    assert(a.blocks@[i].physical_block != a.blocks@[k as int].physical_block);
                } else {
                    assert(a.blocks@[k as int].physical_block != a.blocks@[i].physical_block);
                }
            }
            assert forall|i: int|
                0 <= i < self.blocks@.len() && !(#[trigger] self.blocks@[i]).dirty implies sums_ok(
                g,
                self.blocks@[i],
            ) by {
                assert(i != k);
                lemma_beside(f, g, p, self.blocks@[i]);
            }
            assert forall|i: int| 0 <= i < self.bytes().len() implies self.bytes()[i]
                == a.bytes().update(pos as int, byte)[i] by {
                let x = i / 0x1000;
                if x != k {
                    lemma_beside(f, g, p, self.blocks@[x]);
                    assert(g[self.blocks@[x].physical_block * 0x1000 + i % 0x1000]
                        == f[self.blocks@[x].physical_block * 0x1000 + i % 0x1000]);
                }
            }
            assert(self.bytes() =~= a.bytes().update(pos as int, byte));
        }
    }
}

/// The counts can be noted.
pub open spec fn counts_fit(b: Seq<WearLevelingBlock>, large: bool) -> bool {
    forall|i: int| 0 <= i < b.len() && large ==> (#[trigger] b[i]).allocate_count < 0x80
}

/// The map tells the blocks.
pub open spec fn map_tells(f: Seq<u8>, b: Seq<WearLevelingBlock>, n: int) -> bool {
    forall|i: int|
        0 <= i < n ==> #[trigger] map_item(f, i) == (WearLevelingBlock { dirty: false, ..b[i] })
}

/// A byte with its highest bit set or not.
proof fn lemma_top_bit(x: u8)
    requires
        x < 0x80,
    ensures
        x & 0x80 == 0,
        x & 0x7F == x,
        (x + 0x80) as u8 & 0x80 != 0,
        (x + 0x80) as u8 & 0x7F == x,
{
    assert(x & 0x80 == 0 && x & 0x7F == x && (x + 0x80) as u8 & 0x80 != 0 && (x + 0x80) as u8 & 0x7F
        == x) by (bit_vector)
        requires
            x < 0x80,
    ;
}

/// An item of the map is read from its own bytes.
proof fn lemma_item_same(f: Seq<u8>, g: Seq<u8>, i: int)
    requires
        wear_len_ok(f.len() as int),
        g.len() == f.len(),
        0 <= i < virtual_count(f.len() as int),
        ({
            let s = item_len(f.len() as int);
            forall|k: int| 8 + i * s <= k < 8 + i * s + s ==> #[trigger] g[k] == f[k]
        }),
    ensures
        map_item(g, i) == map_item(f, i),
{
    let n = f.len() as int;
    lemma_wear_len(n);
    let at = 8 + i * item_len(n);
    if !large_save(n) {
        assert(g.subrange(at + 2, at + 10) =~= f.subrange(at + 2, at + 10));
    }
}

impl WearLeveling {
    /// Writes an item of the map.
    fn write_item(file: &mut Vec<u8>, i: usize, block: WearLevelingBlock)
        requires
            wear_len_ok(old(file)@.len() as int),
            i < virtual_count(old(file)@.len() as int),
            1 <= block.physical_block <= virtual_count(old(file)@.len() as int),
            !block.initialized || large_save(old(file)@.len() as int) ==> block.crc_ticket == 0,
        ensures
            final(file)@.len() == old(file)@.len(),
            ({
                let n = old(file)@.len() as int;
                let s = item_len(n);
                &&& large_save(n) ==> block.allocate_count < 0x80 ==> map_item(
                    final(file)@,
                    i as int,
                ) == (WearLevelingBlock { dirty: false, ..block })
                &&& !large_save(n) ==> map_item(final(file)@, i as int) == (WearLevelingBlock {
                    dirty: false,
                    ..block
                })
                &&& forall|k: int|
                    0 <= k < n && !(8 + i * s <= k < 8 + i * s + s) ==> #[trigger] final(file)@[k] == old(file)@[k]
                &&& !block.initialized ==> final(file)@.subrange(8 + i * s, 8 + i * s + s)
                    == blank_item(block, large_save(n))
            }),
    {
        let ghost f = file@;
        let n: usize = file.len();
        let large: bool = n == 0x100_000;
        proof {
            lemma_wear_len(n as int);
        }
        let mut item: Vec<u8> = Vec::new();
        let at: usize = if large {
            8 + i * 2
        } else {
            8 + i * 10
        };
        if large {
            item.push(
                if block.initialized {
                    block.allocate_count.wrapping_add(0x80)
                } else {
                    block.allocate_count
                },
            );
            item.push(block.physical_block);
        } else {
            item.push(
                if block.initialized {
                    block.physical_block + 0x80
                } else {
                    block.physical_block
                },
            );
            item.push(block.allocate_count);
            push_le(&mut item, block.crc_ticket, 8);
            proof {
                lemma_le_bytes_len(block.crc_ticket as nat, 8);
            }
        }
        overwrite(file, at, &item);
        proof {
            assert(file@.subrange(at as int, at + item@.len()) =~= item@);
            if large {
                if block.allocate_count < 0x80 {
                    lemma_top_bit(block.allocate_count);
                }
            } else {
                lemma_top_bit(block.physical_block);
                assert(file@.subrange(at + 2, at + 10) =~= le_bytes(block.crc_ticket as nat, 8));
                crate::fields::lemma_pow256();
                lemma_le_number_of_bytes(block.crc_ticket as nat, 8);
            }
        }
    }

    /// Writes the map with its checksum, and empties the journal.
    fn write_map(file: &mut Vec<u8>, blocks: &Vec<WearLevelingBlock>)
        requires
            wear_len_ok(old(file)@.len() as int),
            blocks@.len() == virtual_count(old(file)@.len() as int),
            shared_out(blocks@, virtual_count(old(file)@.len() as int)),
            tickets_plain(blocks@, large_save(old(file)@.len() as int)),
        ensures
            final(file)@.len() == old(file)@.len(),
            forall|k: int|
                0x1000 <= k < old(file)@.len() ==> #[trigger] final(file)@[k] == old(file)@[k],
            ({
                let n = old(file)@.len() as int;
                let f = final(file)@;
                &&& counts_fit(blocks@, large_save(n)) ==> map_tells(f, blocks@, virtual_count(n))
                &&& field(f, map_len(n), 2) == crc16(f.subrange(0, map_len(n)))
                &&& forall|k: int| map_len(n) + 2 <= k < 0x1000 ==> #[trigger] f[k] == 0xFF
                &&& f.subrange(map_len(n), map_len(n) + 2) == le_bytes(
                    crc16(f.subrange(0, map_len(n))) as nat,
                    2,
                )
                &&& forall|k: int|
                    0 <= k < 8 || 8 + virtual_count(n) * item_len(n) <= k < map_len(n)
                        ==> #[trigger] f[k] == old(file)@[k]
                &&& forall|i: int|
                    0 <= i < virtual_count(n) && !(#[trigger] blocks@[i]).initialized ==> item_at(f, i)
                        == blank_item(blocks@[i], large_save(n))
            }),
    {
        let ghost f0 = file@;
        let n: usize = file.len();
        let count: usize = n / 0x1000 - 1;
        proof {
            lemma_wear_len(n as int);
        }
        let ghost fit = counts_fit(blocks@, large_save(n as int));
        let mut i: usize = 0;
        while i < count
            invariant
                i <= count == virtual_count(n as int) == blocks@.len(),
                n == file@.len() == f0.len(),
                wear_len_ok(n as int),
                shared_out(blocks@, count as int),
                tickets_plain(blocks@, large_save(n as int)),
                fit == counts_fit(blocks@, large_save(n as int)),
                fit ==> map_tells(file@, blocks@, i as int),
                forall|k: int| 0x1000 <= k < n ==> #[trigger] file@[k] == f0[k],
                forall|k: int|
                    0 <= k < 8 || 8 + count * item_len(n as int) <= k < map_len(n as int)
                        ==> #[trigger] file@[k] == f0[k],
                forall|k: int|
                    0 <= k < i && !(#[trigger] blocks@[k]).initialized ==> item_at(file@, k)
                        == blank_item(blocks@[k], large_save(n as int)),
            decreases count - i,
        {
            let ghost g = file@;
            let block = blocks[i];
            proof {
                lemma_wear_len(n as int);
                assert(1 <= blocks@[i as int].physical_block <= count);
                lemma_item_end(n as int, i as int);
            }
            WearLeveling::write_item(file, i, block);
            proof {
                if i + 1 < count {
                    lemma_items_apart(item_len(n as int), i as int, count as int);
                }
                assert forall|k: int| 0 <= k < i + 1 && !(#[trigger] blocks@[k]).initialized implies item_at(
                    file@,
                    k,
                ) == blank_item(blocks@[k], large_save(n as int)) by {
                    if k < i {
                        lemma_items_apart(item_len(n as int), k, i as int);
                        lemma_item_end(n as int, k);
                        assert(item_at(file@, k) =~= item_at(g, k));
                    }
                }
                if fit {
                    assert forall|k: int| 0 <= k < i + 1 implies #[trigger] map_item(file@, k) == (
                    WearLevelingBlock { dirty: false, ..blocks@[k] }) by {
                        if k < i {
                            lemma_items_apart(item_len(n as int), k, i as int);
                            lemma_item_same(g, file@, k);
                            assert(map_item(g, k) == (WearLevelingBlock {
                                dirty: false,
                                ..blocks@[k]
                            }));
                        } else {
                            assert(blocks@[k].allocate_count == block.allocate_count);
                        }
                    }
                }
            }
            i = i + 1;
        }
        let ghost f1 = file@;
        let len: usize = if n == 0x100_000 {
            0x3FE
        } else {
            8 + count * 10
        };
        let map = copy_range(file, 0, len);
        let crc: u16 = crc16_ninty(&map);
        let mut tail: Vec<u8> = Vec::new();
        push_le(&mut tail, crc as u64, 2);
        proof {
            lemma_le_bytes_len(crc as nat, 2);
        }
        let rest: usize = 0x1000 - len - 2;
        let mut ones: Vec<u8> = vec![0xFFu8; rest];
        tail.append(&mut ones);
        overwrite(file, len, &tail);
        proof {
            let f = file@;
            assert(f.subrange(0, len as int) =~= f1.subrange(0, len as int));
            assert(f.subrange(len as int, len + 2) =~= le_bytes(crc as nat, 2));
            assert(vstd::arithmetic::power::pow(256, 2) == 0x1_0000) by {
                reveal(vstd::arithmetic::power::pow);
                vstd::arithmetic::power::lemma_pow1(256);
                vstd::arithmetic::power::lemma_pow_adds(256, 1, 1);
            }
            lemma_le_number_of_bytes(crc as nat, 2);
            assert forall|k: int| 0 <= k < count && !(#[trigger] blocks@[k]).initialized implies item_at(
                f,
                k,
            ) == blank_item(blocks@[k], large_save(n as int)) by {
                lemma_item_end(n as int, k);
                assert(item_at(f, k) =~= item_at(f1, k));
            }
            if fit {
                assert forall|k: int| 0 <= k < count implies #[trigger] map_item(f, k) == (
                WearLevelingBlock { dirty: false, ..blocks@[k] }) by {
                    lemma_item_end(n as int, k);
                    lemma_item_same(f1, f, k);
                    assert(map_item(f1, k) == (WearLevelingBlock { dirty: false, ..blocks@[k] }));
                }
            }
        }
    }
}

proof fn lemma_item_end(n: int, i: int)
    requires
        wear_len_ok(n),
        0 <= i < virtual_count(n),
    ensures
        8 <= 8 + i * item_len(n),
        8 + i * item_len(n) + item_len(n) <= map_len(n),
{
    lemma_wear_len(n);
}

proof fn lemma_items_apart(s: int, k: int, i: int)
    requires
        0 <= k < i,
        s > 0,
    ensures
        k * s + s <= i * s,
{
    assert(k * s + s <= i * s) by (nonlinear_arith)
        requires
            0 <= k < i,
            s > 0,
    ;
}

/// A chip with such a map and an empty journal can be opened, and has the blocks of the map.
proof fn lemma_map_opens(f: Seq<u8>, b: Seq<WearLevelingBlock>)
    requires
        wear_len_ok(f.len() as int),
        b.len() == virtual_count(f.len() as int),
        shared_out(b, virtual_count(f.len() as int)),
        map_tells(f, b, b.len() as int),
        forall|i: int| 0 <= i < b.len() ==> !(#[trigger] b[i]).dirty,
        field(f, map_len(f.len() as int), 2) == crc16(f.subrange(0, map_len(f.len() as int))),
        forall|k: int| map_len(f.len() as int) + 2 <= k < 0x1000 ==> #[trigger] f[k] == 0xFF,
        !b.last().initialized,
        forall|i: int| 0 <= i < b.len() ==> sums_ok(f, #[trigger] b[i]),
    ensures
        wear_parse(f) == Ok::<Seq<WearLevelingBlock>, Error>(b),
{
    let n = f.len() as int;
    lemma_wear_len(n);
    assert forall|i: int| 0 <= i < b.len() implies map_blocks(f)[i] == b[i] by {
        assert(map_item(f, i) == (WearLevelingBlock { dirty: false, ..b[i] }));
    }
    assert(map_blocks(f) =~= b);
    let at = map_len(n) + 2;
    assert(f.subrange(at, at + 14) =~= f.subrange(at + 14, at + 28));
    assert(f[at] == 0xFF);
    assert(replayed(f, b, at) == Ok::<Seq<WearLevelingBlock>, Error>(b));
}

/// The bytes of an item of the map.
pub open spec fn item_at(f: Seq<u8>, i: int) -> Seq<u8> {
    let s = item_len(f.len() as int);
    f.subrange(8 + i * s, 8 + i * s + s)
}

/// The map of a new chip of `n` bytes: in each item the number of the physical block, and zeros
/// else.
pub open spec fn new_map(n: int) -> Seq<u8> {
    let s = item_len(n);
    let at = if large_save(n) {
        1int
    } else {
        0
    };
    Seq::new(
        map_len(n) as nat,
        |k: int|
            if 8 <= k < 8 + virtual_count(n) * s && (k - 8) % s == at {
                ((k - 8) / s + 1) as u8
            } else {
                0
            },
    )
}

/// A new chip: its map with the checksum, ones up to the end of the first block, and behind that
/// what was there before.
pub open spec fn new_chip(f: Seq<u8>) -> Seq<u8> {
    let n = f.len() as int;
    let map = new_map(n);
    map + le_bytes(crc16(map) as nat, 2) + Seq::new(
        (0x1000 - map_len(n) - 2) as nat,
        |k: int| 0xFFu8,
    ) + f.skip(0x1000)
}

proof fn lemma_zero_bytes()
    ensures
        le_bytes(0, 8) == Seq::new(8, |k: int| 0u8),
{
    reveal_with_fuel(le_bytes, 9);
    assert(le_bytes(0, 8) =~= Seq::new(8, |k: int| 0u8));
}

/// A map with the items of a new chip, and zeros round them.
proof fn lemma_new_map(f: Seq<u8>)
    requires
        wear_len_ok(f.len() as int),
        forall|k: int|
            0 <= k < 8 || 8 + virtual_count(f.len() as int) * item_len(f.len() as int) <= k
                < map_len(f.len() as int) ==> #[trigger] f[k] == 0,
        forall|i: int|
            0 <= i < virtual_count(f.len() as int) ==> #[trigger] item_at(f, i) == blank_item(
                new_blocks(virtual_count(f.len() as int))[i],
                large_save(f.len() as int),
            ),
    ensures
        f.subrange(0, map_len(f.len() as int)) == new_map(f.len() as int),
{
    let n = f.len() as int;
    let s = item_len(n);
    lemma_wear_len(n);
    lemma_zero_bytes();
    assert forall|k: int| 0 <= k < map_len(n) implies f[k] == new_map(n)[k] by {
        if 8 <= k < 8 + virtual_count(n) * s {
            let i = (k - 8) / s;
            let j = (k - 8) % s;
            assert(0 <= i < virtual_count(n));
            lemma_item_end(n, i);
            assert(k == 8 + i * s + j);
            assert(item_at(f, i)[j] == f[k]);
            assert(item_at(f, i) == blank_item(new_blocks(virtual_count(n))[i], large_save(n)));
        }
    }
    assert(f.subrange(0, map_len(n)) =~= new_map(n));
}

/// The blocks of a new chip.
pub open spec fn new_blocks(count: int) -> Seq<WearLevelingBlock> {
    Seq::new(
        count as nat,
        |i: int|
            WearLevelingBlock {
                physical_block: (i + 1) as u8,
                allocate_count: 0,
                initialized: false,
                dirty: false,
                crc_ticket: 0,
            },
    )
}

impl WearLeveling {
    /// Makes a chip on which nothing is initialized.
    pub fn format(file: &mut Vec<u8>) -> (r: Result<(), Error>)
        ensures
            if wear_len_ok(old(file)@.len() as int) {
                &&& r == Ok::<(), Error>(())
                &&& final(file)@ == new_chip(old(file)@)
                &&& final(file)@.len() == old(file)@.len()
                &&& wear_parse(final(file)@) == Ok::<Seq<WearLevelingBlock>, Error>(
                    new_blocks(virtual_count(old(file)@.len() as int)),
                )
                &&& forall|k: int|
                    0x1000 <= k < old(file)@.len() ==> #[trigger] final(file)@[k] == old(file)@[k]
            } else {
                r == Err::<(), Error>(Error::SizeMismatch) && final(file)@ == old(file)@
            },
    {
        let ghost f0 = file@;
        let n: usize = file.len();
        if n != 0x20_000 && n != 0x80_000 && n != 0x100_000 {
            return make_error(Error::SizeMismatch);
        }
        proof {
            lemma_wear_len(n as int);
        }
        let count: usize = n / 0x1000 - 1;
        let blank: Vec<u8> = vec![0u8; WEAR_BLOCK];
        overwrite(file, 0, &blank);
        let mut blocks: Vec<WearLevelingBlock> = Vec::new();
        let mut i: usize = 0;
        while i < count
            invariant
                i <= count <= 255,
                blocks@.len() == i,
                forall|k: int| 0 <= k < i ==> #[trigger] blocks@[k] == new_blocks(count as int)[k],
            decreases count - i,
        {
            blocks.push(
                WearLevelingBlock {
                    physical_block: (i + 1) as u8,
                    allocate_count: 0,
                    initialized: false,
                    dirty: false,
                    crc_ticket: 0,
                },
            );
            i = i + 1;
        }
        assert(blocks@ =~= new_blocks(count as int));
        assert(shared_out(blocks@, count as int));
        WearLeveling::write_map(file, &blocks);
        proof {
            lemma_map_opens(file@, blocks@);
            let f = file@;
            let len = map_len(n as int);
            assert forall|i: int| 0 <= i < count implies #[trigger] item_at(f, i) == blank_item(
                new_blocks(count as int)[i],
                large_save(n as int),
            ) by {
                assert(!blocks@[i].initialized);
            }
            lemma_new_map(f);
            lemma_le_bytes_len(crc16(new_map(n as int)) as nat, 2);
            assert forall|k: int| 0 <= k < n implies f[k] == new_chip(f0)[k] by {
                if k < len {
                    assert(f.subrange(0, len)[k] == f[k]);
                } else if k < len + 2 {
                    assert(f.subrange(len, len + 2)[k - len] == f[k]);
                }
            }
            assert(f =~= new_chip(f0));
        }
        Ok(())
    }
}

impl RandomAccessFile for WearLeveling {
    fn load(&mut self, pos: usize, len: usize) -> (r: Result<Vec<u8>, Error>) {
        let n: usize = self.len();
        if len > n || pos > n - len {
            return make_error(Error::OutOfBound);
        }
        proof {
            lemma_wear_len(self.file@.len() as int);
        }
        let mut out: Vec<u8> = Vec::new();
        let mut i: usize = 0;
        while i < len
            invariant
                self.inv(),
                i <= len,
                pos + len <= n == self.bytes().len(),
                self.file@.len() == (self.blocks@.len() + 1) * 0x1000,
                out@ == self.bytes().subrange(pos as int, pos + i),
            decreases len - i,
        {
            let p: usize = pos + i;
            let block = self.blocks[p / WEAR_BLOCK];
            assert(1 <= self.blocks@[p as int / 0x1000].physical_block <= self.blocks@.len());
            if block.initialized {
                out.push(self.file[block.physical_block as usize * WEAR_BLOCK + p % WEAR_BLOCK]);
            } else {
                out.push(0xFF);
            }
            assert(out@ =~= self.bytes().subrange(pos as int, pos + i + 1));
            i = i + 1;
        }
        Ok(out)
    }

    fn write(&mut self, pos: usize, buf: &[u8]) -> (r: Result<(), Error>) {
        let n: usize = self.len();
        let len: usize = buf.len();
        if len > n || pos > n - len {
            return make_error(Error::OutOfBound);
        }
        let ghost a = *self;
        assert(self.bytes() =~= spliced(a.bytes(), pos as int, buf@.take(0)));
        let mut i: usize = 0;
        while i < len
            invariant
                self.inv(),
                i <= len == buf@.len(),
                pos + len <= n == a.bytes().len(),
                self.file@.len() == a.file@.len(),
                self.bytes() == spliced(a.bytes(), pos as int, buf@.take(i as int)),
                i > 0 && (pos + i) % 0x1000 != 0 ==> ({
                    let block = self.blocks@[(pos + i) / 0x1000];
                    block.initialized && block.dirty
                }),
            decreases len - i,
        {
            let ghost b = self.bytes();
            let p: usize = pos + i;
            proof {
                lemma_wear_len(self.file@.len() as int);
                assert(self.bytes().len() == (self.blocks@.len() - 1) * 0x1000);
                assert(p < self.bytes().len());
            }
            if i == 0 || p % WEAR_BLOCK == 0 {
                self.prepare(p / WEAR_BLOCK);
            }
            self.put(p, buf[i]);
            assert(self.bytes() =~= spliced(a.bytes(), pos as int, buf@.take(i + 1)));
            i = i + 1;
        }
        assert(buf@.take(len as int) =~= buf@);
        Ok(())
    }

    fn len(&self) -> (n: usize) {
        proof {
            lemma_wear_len(self.file@.len() as int);
        }
        // One block is in reserve.
        (self.blocks.len() - 1) * WEAR_BLOCK
    }

    fn commit(&mut self) -> (r: Result<(), Error>)
        ensures
            wear_parse(final(self).file@) == Ok::<Seq<WearLevelingBlock>, Error>(
                final(self).blocks@,
            ),
    {
        let ghost a = *self;
        let n: usize = self.file.len();
        let large: bool = n == 0x100_000;
        let count: usize = self.blocks.len();
        let mut i: usize = 0;
        while i < count
            invariant
                self.inv(),
                self.file == a.file,
                n == self.file@.len(),
                large == large_save(n as int),
                i <= count == self.blocks@.len() == a.blocks@.len(),
                forall|k: int| 0 <= k < i ==> !(#[trigger] self.blocks@[k]).dirty,
                forall|k: int|
                    0 <= k < i && large ==> (#[trigger] self.blocks@[k]).allocate_count < 0x80,
                forall|k: int| 0 <= k < count ==> same_place(a.blocks@[k], #[trigger] self.blocks@[k]),
            decreases count - i,
        {
            let ghost b = *self;
            let mut block = self.blocks[i];
            assert(1 <= self.blocks@[i as int].physical_block <= virtual_count(n as int));
            if block.initialized && block.dirty && !large {
                block.crc_ticket = WearLeveling::sums(&self.file, block.physical_block);
            }
            block.dirty = false;
            if large {
                // There are seven bits for the count.
                block.allocate_count = block.allocate_count % 0x80;
            }
            self.blocks.set(i, block);
            proof {
                assert(same_place(a.blocks@[i as int], b.blocks@[i as int]));
                assert forall|j: int, k: int|
                    0 <= j < k < self.blocks@.len() implies (#[trigger] self.blocks@[j]).physical_block
                    != (#[trigger] self.blocks@[k]).physical_block by {
                    assert(b.blocks@[j].physical_block != b.blocks@[k].physical_block);
                }
                assert forall|k: int|
                    0 <= k < self.blocks@.len() && !(#[trigger] self.blocks@[k]).dirty implies sums_ok(
                    self.file@,
                    self.blocks@[k],
                ) by {
                    if k == i {
                        if !b.blocks@[k].dirty {
                            assert(sums_ok(self.file@, b.blocks@[k]));
                        }
                    } else {
                        assert(b.blocks@[k] == self.blocks@[k]);
                    }
                }
            }
            i = i + 1;
        }
        let ghost b = *self;
        WearLeveling::write_map(&mut self.file, &self.blocks);
        proof {
            lemma_wear_len(n as int);
            assert forall|k: int| 0 <= k < count implies sums_ok(
                self.file@,
                #[trigger] self.blocks@[k],
            ) by {
                assert(!b.blocks@[k].dirty);
                lemma_beside(b.file@, self.file@, 0, self.blocks@[k]);
            }
            assert forall|i: int| 0 <= i < self.bytes().len() implies self.bytes()[i]
                == a.bytes()[i] by {
                let x = i / 0x1000;
                assert(same_place(a.blocks@[x], self.blocks@[x]));
                lemma_beside(b.file@, self.file@, 0, self.blocks@[x]);
                assert(self.file@[self.blocks@[x].physical_block * 0x1000 + i % 0x1000]
                    == b.file@[self.blocks@[x].physical_block * 0x1000 + i % 0x1000]);
            }
            assert(self.bytes() =~= a.bytes());
            lemma_map_opens(self.file@, self.blocks@);
        }
        Ok(())
    }
}

/// The block shows the same bytes.
pub open spec fn same_place(a: WearLevelingBlock, b: WearLevelingBlock) -> bool {
    &&& b.physical_block == a.physical_block
    &&& b.initialized == a.initialized
}

/// A chip that has been committed can be opened again, and then shows the same bytes.
pub proof fn law_wear_reopen(w: WearLeveling, g: WearLeveling)
    requires
        w.inv(),
        wear_parse(w.file@) == Ok::<Seq<WearLevelingBlock>, Error>(w.blocks@),
        g.file@ == w.file@,
        wear_parse(w.file@) matches Ok(b) && g.blocks@ == b,
    ensures
        g.inv(),
        g.bytes() == w.bytes(),
{
}

} // verus!
