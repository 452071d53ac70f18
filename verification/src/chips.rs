use crate::error::Error;
use vstd::prelude::*;

verus! {

use crate::little_endian::le_bytes;
use crate::wear_leveling::{
    chunk_sums, crc16, entry_at, entry_done, entry_ok, map_blocks, map_item, map_len, replayed,
    sums_ok, wear_byte, wear_parse, WearEntry, WearLevelingBlock,
};
use crate::words::{eight, law_read_lowest_first, law_written_lowest_first, lemma_word8_bytes, word8};

proof fn lemma_flag(b: u8)
    by (bit_vector)
    ensures
        b & 0x7F == b % 128,
        b & 0x80 != 0 <==> b >= 128,
{
}

/// What the map of a chip of 128 or 512 KiB tells of a block: ten bytes, from 8 on. The first has
/// the physical block, and 128 added where the block is in use, the second tells how often that
/// has been allocated, and eight checksums follow.
pub proof fn law_map_of_small_chip(f: Seq<u8>, i: int)
    requires
        f.len() == 0x20_000 || f.len() == 0x80_000,
        0 <= i < f.len() / 0x1000 - 1,
    ensures
        ({
            let b = map_item(f, i);
            let at = 8 + 10 * i;
            &&& b.physical_block == f[at] % 128
            &&& b.initialized == (f[at] >= 128)
            &&& b.allocate_count == f[at + 1]
            &&& b.initialized ==> b.crc_ticket == word8(f, at + 2)
        }),
        map_blocks(f).len() == f.len() / 0x1000 - 1,
        map_len(f.len() as int) == 8 + 10 * (f.len() / 0x1000 - 1),
{
    let at = 8 + 10 * i;
    lemma_flag(f[at]);
    law_read_lowest_first(f, at + 2);
    lemma_word8_bytes(f, eight(f, at + 2), at + 2);
}

/// What the map of a chip of 1 MiB tells of a block: two bytes, from 8 on. The first tells how
/// often it has been allocated, with 128 added where the block is in use, and the second has the
/// physical block. There are no checksums.
pub proof fn law_map_of_large_chip(f: Seq<u8>, i: int)
    requires
        f.len() == 0x100_000,
        0 <= i < 255,
    ensures
        ({
            let b = map_item(f, i);
            let at = 8 + 2 * i;
            &&& b.physical_block == f[at + 1]
            &&& b.initialized == (f[at] >= 128)
            &&& b.allocate_count == f[at] % 128
        }),
        map_blocks(f).len() == 255,
        map_len(f.len() as int) == 0x3FE,
{
    lemma_flag(f[8 + 2 * i]);
}

/// A chip that opens has one of three lengths, and the checksum of its map behind the map, the
/// lower byte first.
pub proof fn law_map_is_checked(f: Seq<u8>)
    requires
        wear_parse(f) is Ok,
    ensures
        f.len() == 0x20_000 || f.len() == 0x80_000 || f.len() == 0x100_000,
        ({
            let n = map_len(f.len() as int);
            f[n] + 256 * f[n + 1] == crc16(f.take(n))
        }),
{
    let n = map_len(f.len() as int);
    assert(f.take(n) =~= f.subrange(0, n));
    let s = f.subrange(n, n + 2);
    reveal_with_fuel(crate::little_endian::le_number, 3);
    assert(s.skip(1).skip(1).len() == 0);
    assert(crate::little_endian::le_number(s.skip(1)) == s[1]);
}

/// An entry of the journal: six bytes and a checksum of eight.
pub proof fn law_journal_entry(f: Seq<u8>, at: int)
    requires
        0 <= at,
        at + 14 <= f.len(),
    ensures
        ({
            let e = entry_at(f, at);
            &&& e.virtual_block == f[at]
            &&& e.virtual_block_prev == f[at + 1]
            &&& e.physical_block == f[at + 2]
            &&& e.physical_block_prev == f[at + 3]
            &&& e.allocate_count == f[at + 4]
            &&& e.allocate_count_prev == f[at + 5]
            &&& e.crc_ticket == word8(f, at + 6)
        }),
{
    law_read_lowest_first(f, at + 6);
    lemma_word8_bytes(f, eight(f, at + 6), at + 6);
}

/// The journal has an entry every 32 bytes, each written twice, and ends with 0xFF or with the
/// first 4096 bytes.
pub proof fn law_journal_is_followed(f: Seq<u8>, b: Seq<WearLevelingBlock>, at: int)
    requires
        0 <= at,
    ensures
        at >= 0x1000 ==> replayed(f, b, at) == Ok::<Seq<WearLevelingBlock>, Error>(b),
        at < 0x1000 && f.subrange(at, at + 14) == f.subrange(at + 14, at + 28) && f[at] == 0xFF
            ==> replayed(f, b, at) == Ok::<Seq<WearLevelingBlock>, Error>(b),
        at < 0x1000 && f.subrange(at, at + 14) != f.subrange(at + 14, at + 28) ==> replayed(
            f,
            b,
            at,
        ) == Err::<Seq<WearLevelingBlock>, Error>(Error::SignatureMismatch),
        at < 0x1000 && f[at] != 0xFF && replayed(f, b, at) is Ok ==> replayed(f, b, at) == replayed(
            f,
            entry_done(b, entry_at(f, at), f.len() == 0x100_000),
            at + 32,
        ),
{
}

/// An entry of the journal moves a block to the physical block of another one that is not in use,
/// and leaves its own to that one. No physical block comes or goes.
pub proof fn law_journal_exchanges(b: Seq<WearLevelingBlock>, e: WearEntry, large: bool)
    requires
        entry_ok(b, e, b.len() as int),
        e.virtual_block != e.virtual_block_prev,
    ensures
        ({
            let c = entry_done(b, e, large);
            let to = e.virtual_block as int;
            let from = e.virtual_block_prev as int;
            &&& c.len() == b.len()
            &&& c[to].physical_block == b[from].physical_block
            &&& c[from].physical_block == b[to].physical_block
            &&& c[from].allocate_count == b[to].allocate_count
            &&& c[to].allocate_count == (b[from].allocate_count + 1) % 256
            &&& c[to].initialized
            &&& !c[from].initialized
            &&& forall|i: int|
                0 <= i < b.len() && i != to && i != from ==> #[trigger] c[i] == b[i]
        }),
{
}

/// A block of a chip of 128 or 512 KiB that is in use has eight checksums, one for every 512 bytes:
/// the two bytes of the CRC-16, combined.
pub proof fn law_block_is_checked(f: Seq<u8>, b: WearLevelingBlock, i: int)
    requires
        f.len() == 0x20_000 || f.len() == 0x80_000,
        b.initialized,
        sums_ok(f, b),
        0 <= i < 8,
    ensures
        ({
            let at = b.physical_block * 0x1000 + i * 0x200;
            let c = crc16(f.subrange(at, at + 0x200));
            le_bytes(b.crc_ticket as nat, 8)[i] == ((c % 256) as u8) ^ ((c / 256) as u8)
        }),
        word8(le_bytes(b.crc_ticket as nat, 8), 0) == b.crc_ticket,
{
    law_written_lowest_first(b.crc_ticket as nat);
    assert(le_bytes(b.crc_ticket as nat, 8)[i] == chunk_sums(f, b.physical_block as int)[i]);
}

/// Byte `j` of block `k` is that of its physical block, and 0xFF where the block is not in use.
pub proof fn law_chip_shows(f: Seq<u8>, b: Seq<WearLevelingBlock>, k: int, j: int)
    requires
        0 <= k < b.len(),
        0 <= j < 0x1000,
    ensures
        wear_byte(f, b, 0x1000 * k + j) == if b[k].initialized {
            f[0x1000 * b[k].physical_block + j]
        } else {
            0xFF
        },
{
    let i = 0x1000 * k + j;
    assert(i / 0x1000 == k && i % 0x1000 == j);
}

} // verus!
