use crate::diff::Diff;
use crate::ext_data::{ExtSigner, META_UNIQUE_ID, NEW_UNIQUE_ID};
use vstd::prelude::*;

verus! {

use crate::ext_data::{quota_blocks, quota_fields};
use crate::ext_file::{
    is_new_entry, quota_free, quota_given_back, quota_marked, quota_of, quota_readable, quota_taken,
};
use crate::fields::{lemma_field, lemma_packed_len, lemma_pow256, packed, start};
use crate::little_endian::le_bytes;
use crate::paths::file_id;
use crate::words::{
    eight, four, law_read_lowest_first, law_written_lowest_first, lemma_word4_bytes,
    lemma_word8_bytes, word4, word8,
};

/// What a new quota tells: `QUOT`, version 0x30000, 4096 bytes for a block, 126 files in a
/// directory, how many blocks there are, how many are free, how many were free before the list of
/// files, the number of that, which is 1, and its length.
pub proof fn law_new_quota(capacity: u32, blocks: int, len: int)
    requires
        0 <= blocks,
        blocks + 2 <= capacity,
        0 <= len < 0x1_0000_0000_0000_0000,
    ensures
        ({
            let q = packed(quota_fields(capacity, blocks, len));
            &&& q.len() == 0x48
            &&& four(q, 0) == seq![0x51u8, 0x55, 0x4F, 0x54]
            &&& word4(q, 4) == 0x30000
            &&& word4(q, 8) == 4096
            &&& word4(q, 0x0C) == 126
            &&& word4(q, 0x14) == capacity
            &&& word4(q, 0x1C) == capacity - 2 - blocks
            &&& word4(q, 0x28) == capacity - 2
            &&& word4(q, 0x30) == 1
            &&& word8(q, 0x40) == len
        }),
{
    let f = quota_fields(capacity, blocks, len);
    let q = packed(f);
    lemma_pow256();
    lemma_packed_len(f);
    assert(start(f, 0) == 0);
    assert(start(f, 1) == 0x04);
    assert(start(f, 2) == 0x08);
    assert(start(f, 3) == 0x0C);
    assert(start(f, 4) == 0x10);
    assert(start(f, 5) == 0x14);
    assert(start(f, 6) == 0x18);
    assert(start(f, 7) == 0x1C);
    assert(start(f, 8) == 0x20);
    assert(start(f, 9) == 0x24);
    assert(start(f, 10) == 0x28);
    assert(start(f, 11) == 0x2C);
    assert(start(f, 12) == 0x30);
    assert(start(f, 13) == 0x34);
    assert(start(f, 14) == 0x38);
    assert(start(f, 15) == 0x3C);
    assert(start(f, 16) == 0x40);
    assert(start(f, 17) == 0x48);
    lemma_field(f, 0);
    lemma_field(f, 1);
    lemma_field(f, 2);
    lemma_field(f, 3);
    lemma_field(f, 5);
    lemma_field(f, 7);
    lemma_field(f, 10);
    lemma_field(f, 12);
    lemma_field(f, 16);
    law_read_lowest_first(q, 0);
    law_read_lowest_first(q, 0x04);
    law_read_lowest_first(q, 0x08);
    law_read_lowest_first(q, 0x0C);
    law_read_lowest_first(q, 0x14);
    law_read_lowest_first(q, 0x1C);
    law_read_lowest_first(q, 0x28);
    law_read_lowest_first(q, 0x30);
    law_read_lowest_first(q, 0x40);
    lemma_word4_bytes(q, seq![0x51u8, 0x55, 0x4F, 0x54], 0);
}

/// What is noted in a quota when a file comes or goes: how many blocks are free, how many were or
/// will be, the place of the file, and its length. Nothing else changes.
pub proof fn law_quota_is_noted(q: Seq<u8>, index: int, len: int, free: int, potential: int)
    requires
        q.len() == 0x48,
        0 <= index < 0x1_0000_0000,
        0 <= len < 0x1_0000_0000_0000_0000,
        0 <= free < 0x1_0000_0000,
        0 <= potential < 0x1_0000_0000,
    ensures
        ({
            let r = quota_marked(q, index, len, free, potential);
            &&& r.len() == 0x48
            &&& word4(r, 0x1C) == free
            &&& word4(r, 0x28) == potential
            &&& word4(r, 0x30) == index
            &&& word8(r, 0x40) == len
            &&& forall|i: int|
                0 <= i < 0x1C || 0x20 <= i < 0x28 || 0x2C <= i < 0x30 || 0x34 <= i < 0x40
                    ==> #[trigger] r[i] == q[i]
        }),
{
    let r = quota_marked(q, index, len, free, potential);
    law_written_lowest_first(free as nat);
    law_written_lowest_first(potential as nat);
    law_written_lowest_first(index as nat);
    law_written_lowest_first(len as nat);
    lemma_word4_bytes(r, le_bytes(free as nat, 4), 0x1C);
    lemma_word4_bytes(r, le_bytes(potential as nat, 4), 0x28);
    lemma_word4_bytes(r, le_bytes(index as nat, 4), 0x30);
    lemma_word8_bytes(r, le_bytes(len as nat, 8), 0x40);
    assert(four(r, 0x1C) =~= le_bytes(free as nat, 4));
    assert(four(r, 0x28) =~= le_bytes(potential as nat, 4));
    assert(four(r, 0x30) =~= le_bytes(index as nat, 4));
    assert(eight(r, 0x40) =~= le_bytes(len as nat, 8));
}

/// A file takes as many blocks of 4096 bytes as it needs, and not one more.
pub proof fn law_blocks_of_file(len: int)
    requires
        0 <= len,
    ensures
        4096 * quota_blocks(len) >= len,
        4096 * quota_blocks(len) < len + 4096,
{
    crate::misc::lemma_counted(len, 4096);
}

/// When a file comes, its blocks are taken from those that are free, and how many were free is kept
/// beside. The place that is noted is that of the file: 126 for each directory, and the number in
/// it. The length is that of the file.
pub proof fn law_quota_when_file_comes(a: Diff<ExtSigner>, b: Diff<ExtSigner>, ino: int, len: int)
    requires
        quota_readable(a),
        quota_taken(a, b, ino, len),
        0 <= ino < 0xFFFF_FFFF,
        0 <= len < 0x1_0000_0000_0000_0000,
        quota_blocks(len) <= quota_free(a),
    ensures
        ({
            let q = quota_of(a);
            let r = quota_of(b);
            &&& quota_free(a) == word4(q, 0x1C)
            &&& quota_free(b) == word4(r, 0x1C)
            &&& word4(r, 0x1C) + quota_blocks(len) == word4(q, 0x1C)
            &&& word4(r, 0x28) == word4(q, 0x1C)
            &&& word4(r, 0x30) == 126 * file_id(ino).0 + file_id(ino).1
            &&& word8(r, 0x40) == len
        }),
{
    law_blocks_of_file(len);
    let q = quota_of(a);
    let r = quota_of(b);
    assert(q.len() == 0x48);
    law_read_lowest_first(q, 0x1C);
    lemma_word4_bytes(q, four(q, 0x1C), 0x1C);
    law_quota_is_noted(q, ino + 1, len, quota_free(a) - quota_blocks(len), quota_free(a));
    law_read_lowest_first(r, 0x1C);
}

/// When a file goes, its blocks are free again, and so many are noted beside. Its place and its
/// length are noted as when it came.
pub proof fn law_quota_when_file_goes(a: Diff<ExtSigner>, b: Diff<ExtSigner>, ino: int, len: int)
    requires
        quota_readable(a),
        quota_given_back(a, b, ino, len),
        0 <= ino < 0xFFFF_FFFF,
        0 <= len < 0x1_0000_0000_0000_0000,
    ensures
        ({
            let q = quota_of(a);
            let r = quota_of(b);
            &&& word4(q, 0x1C) + quota_blocks(len) <= u32::MAX ==> word4(r, 0x1C) == word4(q, 0x1C)
                + quota_blocks(len)
            &&& word4(r, 0x28) == word4(r, 0x1C)
            &&& word4(r, 0x30) == 126 * file_id(ino).0 + file_id(ino).1
            &&& word8(r, 0x40) == len
        }),
{
    law_blocks_of_file(len);
    let q = quota_of(a);
    let r = quota_of(b);
    assert(q.len() == 0x48);
    law_read_lowest_first(q, 0x1C);
    lemma_word4_bytes(q, four(q, 0x1C), 0x1C);
    let now = (quota_free(a) + quota_blocks(len)) % 0x1_0000_0000;
    law_quota_is_noted(q, ino + 1, len, now, now);
}

/// A file that comes and goes leaves as many blocks free as before.
pub proof fn law_quota_balances(
    a: Diff<ExtSigner>,
    b: Diff<ExtSigner>,
    c: Diff<ExtSigner>,
    ino: int,
    len: int,
)
    requires
        quota_readable(a),
        0 <= ino < 0xFFFF_FFFF,
        0 <= len < 0x1_0000_0000_0000_0000,
        quota_blocks(len) <= quota_free(a),
        quota_taken(a, b, ino, len),
        quota_given_back(b, c, ino, len),
    ensures
        quota_free(b) == quota_free(a) - quota_blocks(len),
        quota_free(c) == quota_free(a),
{
    law_quota_when_file_comes(a, b, ino, len);
    law_quota_when_file_goes(b, c, ino, len);
    let p = quota_of(a);
    let r = quota_of(c);
    lemma_word4_bytes(p, four(p, 0x1C), 0x1C);
    assert(r.len() == 0x48);
    law_read_lowest_first(r, 0x1C);
}

/// A file of extra data that has just been listed has no block, and 0xDEADBEEF in place of a
/// length. Its content is told by that number, and the list and the quota by another one.
pub proof fn law_numbers_of_files(info: Seq<u8>)
    requires
        info.len() >= 20,
    ensures
        is_new_entry(info.skip(4)) <==> word4(info, 8) == 0x8000_0000 && word8(info, 12)
            == 0xDEAD_BEEF,
        NEW_UNIQUE_ID == 0xDEAD_BEEF,
        META_UNIQUE_ID == 0x0123_4567_89AB_CDEF,
{
    let d = info.skip(4);
    law_read_lowest_first(d, 4);
    law_read_lowest_first(d, 8);
    assert(word4(d, 4) == word4(info, 8));
    assert(word8(d, 8) == word8(info, 12));
}

} // verus!
