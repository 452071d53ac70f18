use crate::container::ContainerInfo;
use crate::difi_partition::{DifiInfo, DifiPartition, LevelInfo};
use crate::error::Error;
use crate::random_access_file::Content;
use crate::signed_file::Signer;
use vstd::prelude::*;

verus! {

use crate::container::header_error;
use crate::crypto::sha256;
use crate::diff::{diff_error, diff_id, diff_info};
use crate::difi_partition::{opened, parse};
use crate::disa::{disa_error, disa_info};
use crate::dpfs_level::{lemma_clean_merged, selector_bit, shown, word_bit};
use crate::fields::field;
use crate::ivfc_level::{block_ok, level_bytes, owner, padded, Part};
use crate::misc::counted;
use crate::words::{
    eight, four, law_read_lowest_first, lemma_word4_bytes, lemma_word8_bytes, word4, word8,
};
use vstd::arithmetic::power2::pow2;

/// A number in a header, which begins at 0x100 in a file.
proof fn lemma_head_word(file: Seq<u8>, k: int)
    requires
        file.len() >= 0x200,
        0 <= k <= 0xF0,
    ensures
        field(ContainerInfo::header(file), k, 4) == word4(file, 0x100 + k),
        field(ContainerInfo::header(file), k, 8) == word8(file, 0x100 + k),
        0 <= word4(file, 0x100 + k) < 0x1_0000_0000,
        0 <= word8(file, 0x100 + k) < 0x1_0000_0000_0000_0000,
{
    let h = ContainerInfo::header(file);
    law_read_lowest_first(h, k);
    lemma_word4_bytes(file, four(file, 0x100 + k), 0x100 + k);
    lemma_word8_bytes(file, eight(file, 0x100 + k), 0x100 + k);
}

/// The table of a container is kept twice. The byte at `selector` tells which copy is in use: the
/// first one is at `primary`, the second one at `secondary`. The hash of the copy in use is the 32
/// bytes from `hash` on.
pub open spec fn table_told(
    file: Seq<u8>,
    i: ContainerInfo,
    primary: int,
    secondary: int,
    size: int,
    selector: int,
    hash: int,
) -> bool {
    &&& i.primary == primary
    &&& i.secondary == secondary
    &&& i.table_size == size
    &&& i.table_of(file) == if file[selector] == 0 {
        file.subrange(primary, primary + size)
    } else {
        file.subrange(secondary, secondary + size)
    }
    &&& i.hash_of(file) == file.subrange(hash, hash + 32)
    &&& i.error(file) is None ==> sha256(i.table_of(file)) == file.subrange(hash, hash + 32)
        && file[selector] <= 1
}

/// A file that begins right for its signer is a container with one partition just where it has
/// `DIFF` and version 0x30000 at 0x100. Behind that there are the places of the second and the
/// first table and the length of both, then the place and the length of the partition, the byte
/// that selects a table, its hash, and the number that identifies the file.
pub proof fn law_container_of_one<S: Signer>(file: Seq<u8>, signer: Option<(S, [u8; 16])>)
    requires
        header_error(file, signer) is None,
    ensures
        four(file, 0x100) == seq![0x44u8, 0x49, 0x46, 0x46] && word4(file, 0x104) == 0x30000 ==> {
            let i = diff_info(ContainerInfo::header(file));
            &&& diff_error(file, signer) == i.error(file)
            &&& table_told(
                file,
                i,
                word8(file, 0x110),
                word8(file, 0x108),
                word8(file, 0x118),
                0x130,
                0x134,
            )
            &&& i.members().len() == 1
            &&& i.members()[0].descriptor.offset == 0
            &&& i.members()[0].descriptor.len == word8(file, 0x118)
            &&& i.members()[0].partition.offset == word8(file, 0x120)
            &&& i.members()[0].partition.len == word8(file, 0x128)
            &&& diff_id(file) == word8(file, 0x154)
        },
        !(four(file, 0x100) == seq![0x44u8, 0x49, 0x46, 0x46] && word4(file, 0x104) == 0x30000)
            ==> diff_error(file, signer) == Some(Error::MagicMismatch),
{
    let h = ContainerInfo::header(file);
    let m = seq![0x44u8, 0x49, 0x46, 0x46];
    lemma_word4_bytes(file, m, 0x100);
    lemma_head_word(file, 0);
    lemma_head_word(file, 4);
    lemma_head_word(file, 8);
    lemma_head_word(file, 0x10);
    lemma_head_word(file, 0x18);
    lemma_head_word(file, 0x20);
    lemma_head_word(file, 0x28);
    lemma_head_word(file, 0x54);
    let i = diff_info(h);
    assert(i.hash_of(file) =~= file.subrange(0x134, 0x154));
    assert(h.subrange(0x30, 0x31)[0] == file[0x130]);
}

/// A file that begins right for its signer is a container with one or two partitions just where it
/// has `DISA`, version 0x40000 and that number at 0x100. Behind that there are the places of the
/// second and the first table and the length of both, the places and lengths of the descriptors in
/// the table and those of the partitions, the byte that selects a table, and its hash.
pub proof fn law_container_of_two<S: Signer>(file: Seq<u8>, signer: Option<(S, [u8; 16])>)
    requires
        header_error(file, signer) is None,
    ensures
        ({
            let named = four(file, 0x100) == seq![0x44u8, 0x49, 0x53, 0x41] && word4(file, 0x104)
                == 0x40000;
            let n = word4(file, 0x108);
            let i = disa_info(ContainerInfo::header(file));
            &&& !named ==> disa_error(file, signer) == Some(Error::MagicMismatch)
            &&& named && n != 1 && n != 2 ==> disa_error(file, signer) == Some(Error::InvalidValue)
            &&& named && (n == 1 || n == 2) ==> {
                &&& disa_error(file, signer) == i.error(file)
                &&& table_told(
                    file,
                    i,
                    word8(file, 0x118),
                    word8(file, 0x110),
                    word8(file, 0x120),
                    0x168,
                    0x16C,
                )
                &&& i.members().len() == n
                &&& i.members()[0].descriptor.offset == word8(file, 0x128)
                &&& i.members()[0].descriptor.len == word8(file, 0x130)
                &&& i.members()[0].partition.offset == word8(file, 0x148)
                &&& i.members()[0].partition.len == word8(file, 0x150)
                &&& n == 2 ==> {
                    &&& i.members()[1].descriptor.offset == word8(file, 0x138)
                    &&& i.members()[1].descriptor.len == word8(file, 0x140)
                    &&& i.members()[1].partition.offset == word8(file, 0x158)
                    &&& i.members()[1].partition.len == word8(file, 0x160)
                }
            }
        }),
{
    let h = ContainerInfo::header(file);
    let m = seq![0x44u8, 0x49, 0x53, 0x41];
    lemma_word4_bytes(file, m, 0x100);
    lemma_head_word(file, 0);
    lemma_head_word(file, 4);
    lemma_head_word(file, 8);
    lemma_head_word(file, 0x10);
    lemma_head_word(file, 0x18);
    lemma_head_word(file, 0x20);
    lemma_head_word(file, 0x28);
    lemma_head_word(file, 0x30);
    lemma_head_word(file, 0x38);
    lemma_head_word(file, 0x40);
    lemma_head_word(file, 0x48);
    lemma_head_word(file, 0x50);
    lemma_head_word(file, 0x58);
    lemma_head_word(file, 0x60);
    let i = disa_info(h);
    assert(i.hash_of(file) =~= file.subrange(0x16C, 0x18C));
    assert(h.subrange(0x68, 0x69)[0] == file[0x168]);
}

/// A level of a descriptor: its offset, its length, and the logarithm of the length of its blocks.
pub open spec fn level_told(d: Seq<u8>, at: int, l: LevelInfo) -> bool {
    &&& l.offset == word8(d, at)
    &&& l.size == word8(d, at + 8)
    &&& l.log == word4(d, at + 16)
}

proof fn lemma_words_in(d: Seq<u8>, at: int)
    requires
        0 <= at,
    ensures
        at + 4 <= d.len() ==> field(d, at, 4) == word4(d, at) && 0 <= word4(d, at) < 0x1_0000_0000,
        at + 8 <= d.len() ==> field(d, at, 8) == word8(d, at) && 0 <= word8(d, at)
            < 0x1_0000_0000_0000_0000,
{
    law_read_lowest_first(d, at);
    if at + 4 <= d.len() {
        lemma_word4_bytes(d, four(d, at), at);
    }
    if at + 8 <= d.len() {
        lemma_word8_bytes(d, eight(d, at), at);
    }
}

proof fn lemma_level_told(d: Seq<u8>, at: int)
    requires
        0 <= at,
        at + 20 <= d.len(),
    ensures
        level_told(d, at, crate::difi_partition::level_at(d, at)),
{
    lemma_words_in(d, at);
    lemma_words_in(d, at + 8);
    lemma_words_in(d, at + 16);
}

/// A descriptor that is understood begins with `DIFI` and version 0x10000. It tells where there
/// are `IVFC` with version 0x20000, for four levels of hashes and data, and `DPFS` with version
/// 0x10000, for three levels of copies, where the first hashes are, and whether the data are apart.
pub proof fn law_descriptor_tells(d: Seq<u8>, i: DifiInfo)
    requires
        parse(d) == Ok::<DifiInfo, Error>(i),
    ensures
        d.len() >= 0x44,
        four(d, 0) == seq![0x44u8, 0x49, 0x46, 0x49],
        word4(d, 4) == 0x10000,
        i.ivfc_at == word8(d, 8),
        i.ivfc_at + 0x78 <= d.len(),
        four(d, i.ivfc_at as int) == seq![0x49u8, 0x56, 0x46, 0x43],
        word4(d, i.ivfc_at + 4) == 0x20000,
        level_told(d, i.ivfc_at + 0x10, i.ivfc1),
        level_told(d, i.ivfc_at + 0x28, i.ivfc2),
        level_told(d, i.ivfc_at + 0x40, i.ivfc3),
        level_told(d, i.ivfc_at + 0x58, i.ivfc4),
        i.dpfs_at == word8(d, 0x18),
        i.dpfs_at + 0x50 <= d.len(),
        four(d, i.dpfs_at as int) == seq![0x44u8, 0x50, 0x46, 0x53],
        word4(d, i.dpfs_at + 4) == 0x10000,
        level_told(d, i.dpfs_at + 0x08, i.dpfs1),
        level_told(d, i.dpfs_at + 0x20, i.dpfs2),
        level_told(d, i.dpfs_at + 0x38, i.dpfs3),
        i.hash_offset == word8(d, 0x28),
        i.hash_size == word8(d, 0x30),
        i.hash_size == word8(d, i.ivfc_at + 8),
        i.external == (d[0x38] != 0),
        i.external_offset == word8(d, 0x3C),
{
    lemma_words_in(d, 0);
    lemma_words_in(d, 4);
    lemma_words_in(d, 8);
    lemma_words_in(d, 0x18);
    lemma_words_in(d, 0x28);
    lemma_words_in(d, 0x30);
    lemma_words_in(d, 0x3C);
    law_read_lowest_first(d, 0x38);
    let a = i.ivfc_at as int;
    let b = i.dpfs_at as int;
    lemma_words_in(d, a);
    lemma_words_in(d, a + 4);
    lemma_words_in(d, a + 8);
    lemma_words_in(d, b);
    lemma_words_in(d, b + 4);
    lemma_word4_bytes(d, seq![0x44u8, 0x49, 0x46, 0x49], 0);
    lemma_word4_bytes(d, seq![0x49u8, 0x56, 0x46, 0x43], a);
    lemma_word4_bytes(d, seq![0x44u8, 0x50, 0x46, 0x53], b);
    lemma_level_told(d, a + 0x10);
    lemma_level_told(d, a + 0x28);
    lemma_level_told(d, a + 0x40);
    lemma_level_told(d, a + 0x58);
    lemma_level_told(d, b + 0x08);
    lemma_level_told(d, b + 0x20);
    lemma_level_told(d, b + 0x38);
}

/// Whether a selector tells the second copy of block `b`. A selector has words of four bytes, the
/// lowest first, and in each word the highest bit is that of the first block.
pub open spec fn tells_second(selector: Seq<u8>, b: int) -> bool {
    (selector[4 * (b / 32) + 3 - b % 32 / 8] >> ((7 - b % 8) as u8)) & 1 == 1
}

proof fn lemma_bit_in_byte(a: u8, b: u8, c: u8, d: u8, w: u32, k: u32)
    requires
        k < 32,
        w == a as u32 + 0x100 * (b as u32) + 0x1_0000 * (c as u32) + 0x100_0000 * (d as u32),
    ensures
        ({
            let x = if k < 8 {
                d
            } else if k < 16 {
                c
            } else if k < 24 {
                b
            } else {
                a
            };
            ((w >> ((31 - k) as u32)) & 1 == 1) == ((x >> ((7 - k % 8) as u8)) & 1 == 1)
        }),
{
    let m = (31 - k) as u32;
    let n = (7 - k % 8) as u8;
    assert(w == (a as u32) | ((b as u32) << 8) | ((c as u32) << 16) | ((d as u32) << 24)) by (
    bit_vector)
        requires
            w == a as u32 + 0x100 * (b as u32) + 0x1_0000 * (c as u32) + 0x100_0000 * (d as u32),
    ;
    let x = if k < 8 {
        d
    } else if k < 16 {
        c
    } else if k < 24 {
        b
    } else {
        a
    };
    assert(((w >> m) & 1 == 1) == ((x >> n) & 1 == 1)) by (bit_vector)
        requires
            w == (a as u32) | ((b as u32) << 8) | ((c as u32) << 16) | ((d as u32) << 24),
            k < 32,
            m + k == 31,
            n as u32 + k % 8 == 7,
            k < 8 ==> x == d,
            8 <= k && k < 16 ==> x == c,
            16 <= k && k < 24 ==> x == b,
            24 <= k ==> x == a,
    ;
}

/// The bit of a block in a selector.
pub proof fn law_selector_of_block(selector: Seq<u8>, b: int)
    requires
        0 <= b,
        4 * (b / 32) + 4 <= selector.len(),
    ensures
        selector_bit(selector, b) == tells_second(selector, b),
{
    let at = 4 * (b / 32);
    law_read_lowest_first(selector, at);
    lemma_word4_bytes(selector, four(selector, at), at);
    let w = word4(selector, at) as u32;
    let k = (b % 32) as u32;
    lemma_bit_in_byte(
        selector[at],
        selector[at + 1],
        selector[at + 2],
        selector[at + 3],
        w,
        k,
    );
    assert(word_bit(w, 31 - b % 32) == ((w >> ((31 - k) as u32)) & 1 == 1));
    assert(b % 8 == (b % 32) % 8);
}

/// A level of copies: each block is the first or the second copy, as the selector tells. All the
/// second copies are behind all the first ones.
pub open spec fn layer(selector: Seq<u8>, p: Seq<u8>, at: int, size: int, block_len: int) -> Seq<
    u8,
> {
    Seq::new(
        size as nat,
        |i: int|
            if tells_second(selector, i / block_len) {
                p[at + size + i]
            } else {
                p[at + i]
            },
    )
}

proof fn lemma_layer(selector: Seq<u8>, p: Seq<u8>, at: int, size: int, block_len: int)
    requires
        0 <= at,
        0 <= size,
        at + 2 * size <= p.len(),
        block_len > 0,
        4 * crate::misc::counted(crate::misc::counted(size, block_len), 32) <= selector.len(),
    ensures
        shown(selector, p.subrange(at, at + size), p.subrange(at + size, at + 2 * size), block_len)
            == layer(selector, p, at, size, block_len),
{
    let a = p.subrange(at, at + size);
    let b = p.subrange(at + size, at + 2 * size);
    let x = shown(selector, a, b, block_len);
    let y = layer(selector, p, at, size, block_len);
    let n = crate::misc::counted(size, block_len);
    crate::misc::lemma_counted(size, block_len);
    crate::misc::lemma_counted(n, 32);
    assert forall|i: int| 0 <= i < size implies x[i] == y[i] by {
        let k = i / block_len;
        assert(0 <= k < n) by (nonlinear_arith)
            requires
                0 <= i < size,
                size <= n * block_len,
                k == i / block_len,
                block_len > 0,
        ;
        assert(4 * (k / 32) + 4 <= selector.len());
        law_selector_of_block(selector, k);
    }
    assert(x =~= y);
}

/// The copies that a partition has been opened on.
proof fn lemma_first_copies(f: DifiPartition, d: Seq<u8>, p: Seq<u8>)
    requires
        opened(f, d, p),
    ensures
        parse(d) == Ok::<DifiInfo, Error>(f.info),
        f.level1().bytes() == if d[0x39] == 1 {
            p.subrange(
                f.info.dpfs1.offset + f.info.dpfs1.size,
                f.info.dpfs1.offset + 2 * f.info.dpfs1.size,
            )
        } else {
            p.subrange(f.info.dpfs1.offset as int, f.info.dpfs1.offset + f.info.dpfs1.size)
        },
{
    reveal(opened);
    reveal(DifiPartition::well_formed);
    let i = f.info;
    let r = crate::difi_partition::part_ranges(i);
    let n = f.partition.len();
    assert(n == p.len());
    assert(r[0].offset == i.dpfs1.offset && r[1].offset == i.dpfs1.offset + i.dpfs1.size);
}

/// The second level of copies.
proof fn lemma_second_copies(f: DifiPartition, d: Seq<u8>, p: Seq<u8>)
    requires
        opened(f, d, p),
    ensures
        ({
            let l = f.info.dpfs2;
            f.level2().bytes() == layer(
                f.level1().bytes(),
                p,
                l.offset as int,
                l.size as int,
                pow2(l.log as nat) as int,
            )
        }),
{
    reveal(opened);
    reveal(DifiPartition::well_formed);
    let i = f.info;
    let l = f.level2();
    let r = crate::difi_partition::part_ranges(i);
    assert(f.level3().shape() == crate::difi_partition::levels_shape(i));
    assert(l.block_len == pow2(i.dpfs2.log as nat));
    assert(r[2].offset + r[2].len <= p.len() && r[3].offset + r[3].len <= p.len());
    lemma_clean_merged(
        f.level1().bytes(),
        l.dirty@,
        l.pair0.bytes(),
        l.pair1.bytes(),
        l.block_len as int,
    );
    lemma_layer(
        f.level1().bytes(),
        p,
        i.dpfs2.offset as int,
        i.dpfs2.size as int,
        l.block_len as int,
    );
}

/// The third level of copies.
proof fn lemma_third_copies(f: DifiPartition, d: Seq<u8>, p: Seq<u8>)
    requires
        opened(f, d, p),
    ensures
        ({
            let l = f.info.dpfs3;
            f.level3().bytes() == layer(
                f.level2().bytes(),
                p,
                l.offset as int,
                l.size as int,
                pow2(l.log as nat) as int,
            )
        }),
{
    reveal(opened);
    reveal(DifiPartition::well_formed);
    let i = f.info;
    let l = f.level3();
    let r = crate::difi_partition::part_ranges(i);
    assert(f.level3().shape() == crate::difi_partition::levels_shape(i));
    assert(l.block_len == pow2(i.dpfs3.log as nat));
    assert(r[4].offset + r[4].len <= p.len() && r[5].offset + r[5].len <= p.len());
    lemma_clean_merged(
        f.level2().bytes(),
        l.dirty@,
        l.pair0.bytes(),
        l.pair1.bytes(),
        l.block_len as int,
    );
    lemma_layer(
        f.level2().bytes(),
        p,
        i.dpfs3.offset as int,
        i.dpfs3.size as int,
        l.block_len as int,
    );
}

/// Where the data are.
proof fn lemma_data_place(f: DifiPartition, d: Seq<u8>, p: Seq<u8>)
    requires
        opened(f, d, p),
    ensures
        ({
            let i = f.info;
            f.bytes() == if i.external {
                p.subrange(i.external_offset as int, i.external_offset + i.ivfc4.size)
            } else {
                f.level3().bytes().subrange(
                    i.ivfc4.offset as int,
                    i.ivfc4.offset + i.ivfc4.size,
                )
            }
        }),
{
    reveal(opened);
    reveal(DifiPartition::well_formed);
    let i = f.info;
    let x = f.file.levels@[3];
    assert(x.offset == crate::difi_partition::ivfc_places(i)[3].offset);
    assert(f.bytes() == f.file.part(3).bytes);
}

/// What a partition shows that has been opened on a descriptor and a partition file. The byte 0x39
/// of the descriptor selects the copy of the first level of copies, each level selects the copies
/// of the blocks of the next one, and the data are in the third level, or apart in the file.
pub proof fn law_partition_shows(f: DifiPartition, d: Seq<u8>, p: Seq<u8>)
    requires
        opened(f, d, p),
    ensures
        ({
            let a = word8(d, 0x18);
            let o1 = word8(d, a + 0x08);
            let s1 = word8(d, a + 0x10);
            let one = if d[0x39] == 1 {
                p.subrange(o1 + s1, o1 + 2 * s1)
            } else {
                p.subrange(o1, o1 + s1)
            };
            let two = layer(
                one,
                p,
                word8(d, a + 0x20),
                word8(d, a + 0x28),
                pow2(word4(d, a + 0x30) as nat) as int,
            );
            let three = layer(
                two,
                p,
                word8(d, a + 0x38),
                word8(d, a + 0x40),
                pow2(word4(d, a + 0x48) as nat) as int,
            );
            let c = word8(d, 8) + 0x58;
            f.bytes() == if d[0x38] != 0 {
                p.subrange(word8(d, 0x3C), word8(d, 0x3C) + word8(d, c + 8))
            } else {
                three.subrange(word8(d, c), word8(d, c) + word8(d, c + 8))
            }
        }),
{
    lemma_first_copies(f, d, p);
    lemma_second_copies(f, d, p);
    lemma_third_copies(f, d, p);
    lemma_data_place(f, d, p);
    law_descriptor_tells(d, f.info);
}

/// A block of some bytes, with zeros where the bytes end before the block does.
pub open spec fn whole_block(s: Seq<u8>, len: int, b: int) -> Seq<u8> {
    Seq::new(
        len as nat,
        |j: int|
            if b * len + j < s.len() {
                s[b * len + j]
            } else {
                0
            },
    )
}

/// A block that has not been written may be read just where its hash, the 32 bytes at 32 times its
/// number in the level below, may be read and is that of the block, filled up with zeros.
pub proof fn law_block_needs_its_hash(master: Seq<u8>, parts: Seq<Part>, k: nat, b: int)
    requires
        1 <= k <= parts.len(),
        !parts[k - 1].modified[b],
    ensures
        ({
            let p = parts[k - 1];
            let below = if k == 1 {
                master
            } else {
                parts[k - 2].bytes
            };
            block_ok(master, parts, k, b) <==> below.subrange(32 * b, 32 * b + 32) == sha256(
                whole_block(p.bytes, p.block_len, b),
            ) && (k > 1 ==> forall|i: int|
                32 * b <= i < 32 * b + 32 ==> block_ok(
                    master,
                    parts,
                    (k - 1) as nat,
                    #[trigger] owner(parts, (k - 1) as nat, i),
                ))
        }),
{
    reveal_with_fuel(block_ok, 2);
    let p = parts[k - 1];
    let down = (k - 1) as nat;
    assert(whole_block(p.bytes, p.block_len, b) =~= padded(p.bytes, p.block_len, b));
    let below = if k == 1 {
        master
    } else {
        parts[k - 2].bytes
    };
    assert(level_bytes(master, parts, down) == below);
    if k == 1 {
        assert forall|i: int| 32 * b <= i < 32 * b + 32 implies block_ok(
            master,
            parts,
            down,
            #[trigger] owner(parts, down, i),
        ) by {}
    }
}

/// A byte of a partition that has just been opened can be read only where the hash of its block is
/// in the third level of hashes.
pub proof fn law_data_are_checked(f: DifiPartition, d: Seq<u8>, p: Seq<u8>, i: int)
    requires
        opened(f, d, p),
        f.readable(i),
    ensures
        ({
            let n = f.info;
            let len = pow2(n.ivfc4.log as nat) as int;
            let b = i / len;
            let hashes = f.level3().bytes().subrange(
                n.ivfc3.offset as int,
                n.ivfc3.offset + n.ivfc3.size,
            );
            hashes.subrange(32 * b, 32 * b + 32) == sha256(whole_block(f.bytes(), len, b))
        }),
{
    reveal(opened);
    reveal(DifiPartition::well_formed);
    let n = f.info;
    let x = f.file.levels@[3];
    let y = f.file.levels@[2];
    assert(x.block_len == crate::difi_partition::ivfc_places(n)[3].block_len);
    assert(y.offset == crate::difi_partition::ivfc_places(n)[2].offset);
    let parts = f.file.parts();
    let b = i / (x.block_len as int);
    assert(parts.len() == 4);
    assert(f.file.level_ok(3));
    assert(parts[3] == f.file.part(3) && parts[2] == f.file.part(2));
    assert(0 <= b < x.modified@.len()) by {
        crate::misc::lemma_counted(x.len as int, x.block_len as int);
        assert(0 <= b < counted(x.len as int, x.block_len as int)) by (nonlinear_arith)
            requires
                0 <= i < x.len,
                x.len <= counted(x.len as int, x.block_len as int) * x.block_len,
                b == i / (x.block_len as int),
                x.block_len > 0,
        ;
    }
    law_block_needs_its_hash(f.file.master.bytes(), parts, 4, b);
}

} // verus!
