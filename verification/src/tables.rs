use crate::difi_partition::DifiPartition;
use crate::error::Error;
use crate::fat_table::Node;
use crate::random_access_file::Content;
use crate::volume::Volume;
use crate::volume_store::Source;
use vstd::prelude::*;

verus! {

use crate::fat::file_bytes;
use crate::fat_list::BlockMap;
use crate::fat_table::{at, head_read, node_read, Entry};
use crate::fs_tree::{dir_row, file_row, Tree};
use crate::meta_list::{next_free, Lists};
use crate::meta_table::model_of;
use crate::random_access_file::can_read;
use crate::volume_store::holds;
use crate::words::{four, law_read_lowest_first, lemma_word4_bytes, word4, word8};

/// The two words of an entry of the table of blocks, as numbers.
proof fn lemma_entry_words<T: Content>(t: T, i: int)
    requires
        0 <= i,
        can_read(t, 8 * i, 8),
    ensures
        ({
            let u = word4(t.bytes(), 8 * i);
            let v = word4(t.bytes(), 8 * i + 4);
            &&& 0 <= u < 0x1_0000_0000
            &&& 0 <= v < 0x1_0000_0000
            &&& at(t, i) == Some(
                Entry {
                    u_index: (u % 0x8000_0000) as u32,
                    u_flag: u >= 0x8000_0000,
                    v_index: (v % 0x8000_0000) as u32,
                    v_flag: v >= 0x8000_0000,
                },
            )
        }),
{
    let b = t.bytes();
    let s = b.subrange(8 * i, 8 * i + 8);
    law_read_lowest_first(s, 0);
    law_read_lowest_first(s, 4);
    lemma_word4_bytes(b, four(b, 8 * i), 8 * i);
    lemma_word4_bytes(b, four(b, 8 * i + 4), 8 * i + 4);
    assert(word4(s, 0) == word4(b, 8 * i) && word4(s, 4) == word4(b, 8 * i + 4));
}

/// How a run of blocks is written down that begins with block `index`. Entries have two words, and
/// entry `k + 1` is that of block `k`. In the entry of the first block the first word is one more
/// than the number of the run before it, or 0x80000000 where there is none, and the second one is
/// one more than the number of the run behind it, or 0. For a run of several blocks 0x80000000 is
/// added to the second word, and the entry behind it and that of the last block both have the
/// entries of the first block, with 0x80000000 added, and of the last block.
pub open spec fn run_written(b: Seq<u8>, index: int, n: Node) -> bool {
    let e = 8 * (index + 1);
    let next: int = match n.next {
        None => 0,
        Some(k) => k + 1,
    };
    &&& word4(b, e) == match n.prev {
        None => 0x8000_0000,
        Some(k) => k + 1,
    }
    &&& if n.size == 1 {
        word4(b, e + 4) == next
    } else {
        &&& word4(b, e + 4) == next + 0x8000_0000
        &&& word4(b, e + 8) == index + 1 + 0x8000_0000
        &&& word4(b, e + 12) == index + n.size
        &&& word4(b, 8 * (index + n.size)) == index + 1 + 0x8000_0000
        &&& word4(b, 8 * (index + n.size) + 4) == index + n.size
    }
}

/// The numbers of a run can be written down.
pub open spec fn run_fits(b: Seq<u8>, index: int, n: Node) -> bool {
    &&& 0 <= index
    &&& n.size >= 1
    &&& index + n.size < 0x8000_0000
    &&& 8 * (index + n.size) + 8 <= b.len()
    &&& n.prev matches Some(k) ==> k + 1 < 0x8000_0000
    &&& n.next matches Some(k) ==> k + 1 < 0x8000_0000
}

/// The entry of the first block of a run.
spec fn first_entry(n: Node) -> Entry {
    Entry {
        u_index: crate::fat_table::kept_index(n.prev) as u32,
        u_flag: n.prev is None,
        v_index: crate::fat_table::kept_index(n.next) as u32,
        v_flag: n.size > 1,
    }
}

/// The entry that tells how long a run is.
spec fn length_entry(index: int, n: Node) -> Entry {
    Entry {
        u_index: (index + 1) as u32,
        u_flag: true,
        v_index: (index + n.size) as u32,
        v_flag: false,
    }
}

proof fn lemma_entries_read<T: Content>(t: T, index: int, n: Node)
    requires
        run_fits(t.bytes(), index, n),
        at(t, index + 1) == Some(first_entry(n)),
        n.size > 1 ==> at(t, index + 2) == Some(length_entry(index, n)),
        n.size > 1 ==> at(t, index + n.size) == Some(length_entry(index, n)),
    ensures
        node_read(t, index) == Ok::<Node, Error>(n),
{
    reveal(node_read);
}

proof fn lemma_read_entries<T: Content>(t: T, index: int, n: Node)
    requires
        0 <= index,
        node_read(t, index) == Ok::<Node, Error>(n),
        n.size > 1 || (at(t, index + 1) matches Some(e) && !e.v_flag),
    ensures
        at(t, index + 1) == Some(first_entry(n)),
        n.size > 1 ==> at(t, index + 2) == Some(length_entry(index, n)),
        n.size > 1 ==> at(t, index + n.size) == Some(length_entry(index, n)),
        crate::fat_table::kept_index(n.prev) < 0x8000_0000,
        crate::fat_table::kept_index(n.next) < 0x8000_0000,
        n.size > 1 ==> index + n.size < 0x8000_0000,
{
    reveal(node_read);
    crate::fat_table::lemma_node_read_bounds(t, index);
}

/// The words of an entry are as its halves tell.
proof fn lemma_words_of_entry<T: Content>(t: T, i: int, e: Entry)
    requires
        0 <= i,
        can_read(t, 0, t.bytes().len() as int),
        8 * i + 8 <= t.bytes().len(),
        e.fits(),
    ensures
        at(t, i) == Some(e) <==> word4(t.bytes(), 8 * i) == e.u_index + (if e.u_flag {
            0x8000_0000int
        } else {
            0
        }) && word4(t.bytes(), 8 * i + 4) == e.v_index + (if e.v_flag {
            0x8000_0000int
        } else {
            0
        }),
{
    lemma_entry_words(t, i);
}

/// A run that is written down so is read so.
pub proof fn law_written_run_is_read<T: Content>(t: T, index: int, n: Node)
    requires
        can_read(t, 0, t.bytes().len() as int),
        run_fits(t.bytes(), index, n),
        run_written(t.bytes(), index, n),
    ensures
        node_read(t, index) == Ok::<Node, Error>(n),
{
    lemma_words_of_entry(t, index + 1, first_entry(n));
    if n.size > 1 {
        lemma_words_of_entry(t, index + 2, length_entry(index, n));
        lemma_words_of_entry(t, index + n.size, length_entry(index, n));
    }
    lemma_entries_read(t, index, n);
}

/// A run that is read is written down so, but that a single block may be written as a run.
pub proof fn law_run_that_is_read<T: Content>(t: T, index: int, n: Node)
    requires
        can_read(t, 0, t.bytes().len() as int),
        0 <= index,
        node_read(t, index) == Ok::<Node, Error>(n),
        n.size > 1 || word4(t.bytes(), 8 * (index + 1) + 4) < 0x8000_0000,
    ensures
        run_written(t.bytes(), index, n),
{
    crate::fat_table::lemma_node_read_bounds(t, index);
    lemma_entry_words(t, index + 1);
    lemma_read_entries(t, index, n);
    lemma_words_of_entry(t, index + 1, first_entry(n));
    if n.size > 1 {
        lemma_words_of_entry(t, index + 2, length_entry(index, n));
        lemma_words_of_entry(t, index + n.size, length_entry(index, n));
    }
}

/// The first entry of the table of blocks has a zero, and one more than the number of the first
/// free run, or another zero where no block is free.
pub proof fn law_first_free_run<T: Content>(t: T, first: Option<usize>)
    requires
        can_read(t, 0, 8),
        first matches Some(k) ==> k + 1 < 0x8000_0000,
    ensures
        head_read(t) == Ok::<Option<usize>, Error>(first) <==> word4(t.bytes(), 0) == 0 && word4(
            t.bytes(),
            4,
        ) == match first {
            None => 0int,
            Some(k) => k + 1,
        },
{
    lemma_entry_words(t, 0);
}

/// How directories and files are listed: each bucket has the number of its first entry, or 0, and
/// each entry has a key, what is kept, and the number of the next entry of the bucket, or 0. Entry
/// 0 has the number of entries ever used and that of entries that there can be instead of a key.
pub proof fn law_list_is_stored_so<F: Content>(
    hash: F,
    table: F,
    key_len: int,
    info_len: int,
    b: int,
    e: int,
)
    requires
        0 <= key_len,
        0 <= info_len,
        8 <= key_len + info_len,
        0 <= b,
        4 * b + 4 <= hash.bytes().len(),
        0 <= e,
        (e + 1) * (key_len + info_len + 4) <= table.bytes().len(),
    ensures
        ({
            let m = model_of(hash, table, key_len, info_len);
            let n = key_len + info_len + 4;
            let t = table.bytes();
            &&& m.heads.len() == hash.bytes().len() / 4
            &&& m.heads[b] == word4(hash.bytes(), 4 * b)
            &&& m.key(e) == t.subrange(e * n, e * n + key_len)
            &&& m.info(e) == t.subrange(e * n + key_len, e * n + key_len + info_len)
            &&& m.link(e) == word4(t, e * n + key_len + info_len)
            &&& m.count() == word4(t, 0)
            &&& m.max() == word4(t, 4)
        }),
{
    let m = model_of(hash, table, key_len, info_len);
    let n = key_len + info_len + 4;
    let t = table.bytes();
    assert(e * n >= 0 && e * n + n <= t.len() && n <= t.len()) by (nonlinear_arith)
        requires
            0 <= e,
            n > 0,
            (e + 1) * n <= t.len(),
    ;
    assert(0 <= e < t.len() as int / n) by (nonlinear_arith)
        requires
            0 <= e,
            n > 0,
            (e + 1) * n <= t.len(),
    ;
    assert(0 < t.len() as int / n) by (nonlinear_arith)
        requires
            n > 0,
            n <= t.len(),
    ;
    law_read_lowest_first(hash.bytes(), 4 * b);
    let r = m.rows[e];
    assert(r == t.subrange(e * n, e * n + n));
    assert(m.key(e) =~= t.subrange(e * n, e * n + key_len));
    assert(m.info(e) =~= t.subrange(e * n + key_len, e * n + key_len + info_len));
    law_read_lowest_first(r, key_len + info_len);
    let z = m.rows[0];
    assert(z == t.subrange(0, n)) by {
        assert(0 * n == 0) by (nonlinear_arith);
    }
    law_read_lowest_first(z, 0);
    law_read_lowest_first(z, 4);
}

/// A new entry takes the place of the first one that is free again, which the header links to, or
/// where there is none the place behind all that were ever used.
pub proof fn law_place_of_new_entry<F: Content>(
    hash: F,
    table: F,
    key_len: int,
    info_len: int,
    g: Lists,
)
    requires
        0 <= key_len,
        0 <= info_len,
        8 <= key_len + info_len,
        4 <= hash.bytes().len(),
        key_len + info_len + 4 <= table.bytes().len(),
    ensures
        ({
            let m = model_of(hash, table, key_len, info_len);
            let t = table.bytes();
            let w = word4(t, key_len + info_len);
            next_free(m, g) == if w != 0 {
                w
            } else {
                word4(t, 0)
            }
        }),
{
    let n = key_len + info_len + 4;
    assert(1 * n == n) by (nonlinear_arith);
    assert(0 * n == 0) by (nonlinear_arith);
    law_list_is_stored_so(hash, table, key_len, info_len, 0, 0);
}

/// The entry of a directory has, as its key, the number of the directory that it is in and its
/// name, and keeps the next directory in that one, and the first directory and the first file in
/// itself.
pub proof fn law_entry_of_directory(t: Tree, d: int, key: Seq<u8>, info: Seq<u8>)
    requires
        dir_row(t, d, (key, info)),
        0 <= t.dirs[d].parent < 0x1_0000_0000,
    ensures
        key.len() == 4 + t.dirs[d].name.len(),
        word4(key, 0) == t.dirs[d].parent,
        key.skip(4) == t.dirs[d].name,
        d != 1 ==> ({
            let l = t.sub_dirs[t.dirs[d].parent];
            word4(info, 0) == if t.dir_pos[d] == 0 {
                0
            } else {
                l[t.dir_pos[d] - 1]
            }
        }),
        word4(info, 4) == if t.sub_dirs[d].len() == 0 {
            0
        } else {
            t.sub_dirs[d].last()
        },
        word4(info, 8) == if t.sub_files[d].len() == 0 {
            0
        } else {
            t.sub_files[d].last()
        },
        info.skip(12) == t.dirs[d].data,
{
    crate::fs_tree::lemma_key_of(t.dirs[d].parent, t.dirs[d].name);
    law_read_lowest_first(key, 0);
    law_read_lowest_first(info, 0);
    law_read_lowest_first(info, 4);
    law_read_lowest_first(info, 8);
}

/// The entry of a file has, as its key, the number of the directory that it is in and its name, and
/// keeps the next file in that directory.
pub proof fn law_entry_of_file(t: Tree, f: int, key: Seq<u8>, info: Seq<u8>)
    requires
        file_row(t, f, (key, info)),
        0 <= t.files[f].parent < 0x1_0000_0000,
    ensures
        key.len() == 4 + t.files[f].name.len(),
        word4(key, 0) == t.files[f].parent,
        key.skip(4) == t.files[f].name,
        ({
            let l = t.sub_files[t.files[f].parent];
            word4(info, 0) == if t.file_pos[f] == 0 {
                0
            } else {
                l[t.file_pos[f] - 1]
            }
        }),
        info.skip(4) == t.files[f].data,
{
    crate::fs_tree::lemma_key_of(t.files[f].parent, t.files[f].name);
    law_read_lowest_first(key, 0);
    law_read_lowest_first(info, 0);
}

/// What is kept of a file has the number of its first block behind eight bytes, and its length
/// behind twelve. A file without content has no blocks, which is noted as 0x80000000, and one with
/// content begins with the block that is noted.
pub proof fn law_kept_of_file(v: Volume, f: int, info: Seq<u8>)
    requires
        v.sound(),
        v.tree().files.contains_key(f),
        info.len() >= 20,
        info.skip(4) == v.tree().files[f].data,
    ensures
        v.size(f) == word8(info, 12),
        v.size(f) == 0 <==> word4(info, 8) == 0x8000_0000,
        v.size(f) == 0 <==> !v.chains@.contains_key(f),
        v.size(f) > 0 ==> v.chains@[f][0].start == word4(info, 8),
        v.size(f) > 0 ==> v.size(f) <= v.list(f).len() * v.block_len(),
{
    let d = info.skip(4);
    law_read_lowest_first(d, 4);
    law_read_lowest_first(d, 8);
    assert(word4(d, 4) == word4(info, 8));
    assert(word8(d, 8) == word8(info, 12));
    assert(v.file_ok(f));
}

/// The bytes of a file are in its blocks, one block after the other. Block `k` is `k` lengths of a
/// block behind the beginning of the data area.
pub proof fn law_bytes_in_blocks(
    data: Seq<u8>,
    block_len: int,
    list: Seq<BlockMap>,
    k: int,
    j: int,
)
    requires
        block_len > 0,
        0 <= k < list.len(),
        0 <= j < block_len,
    ensures
        k * block_len + j < file_bytes(data, 0, block_len, list).len(),
        file_bytes(data, 0, block_len, list)[k * block_len + j] == data[list[k].block_index
            * block_len + j],
{
    let i = k * block_len + j;
    vstd::arithmetic::div_mod::lemma_fundamental_div_mod_converse(i, block_len, k, j);
    assert(i < list.len() * block_len) by (nonlinear_arith)
        requires
            i == k * block_len + j,
            0 <= k < list.len(),
            0 <= j < block_len,
    ;
    assert(i >= 0) by (nonlinear_arith)
        requires
            i == k * block_len + j,
            0 <= k,
            0 <= j,
            block_len > 0,
    ;
}

/// Where what a file system knows is in the partitions: the buckets, four bytes each, and the table
/// of blocks, eight bytes for each block and eight more, at the offsets that are told, and the
/// blocks at theirs, or in the second partition where there are two. Then the directories and files
/// are at offsets too, else in blocks.
pub proof fn law_file_system_is_held_so(parts: Seq<DifiPartition>, src: Source, u: Volume, i: int)
    requires
        holds(parts, src, u),
        parts.len() == 1 || parts.len() == 2,
        0 <= i,
    ensures
        ({
            let p = parts[0].bytes();
            let a = src.base as int;
            let n = src.info;
            let d = u.fs.dirs;
            let f = u.fs.files;
            &&& d.hash.data@.len() == 4 * n.dir_buckets
            &&& f.hash.data@.len() == 4 * n.file_buckets
            &&& u.fat.table.data@.len() == 8 * n.data_block_count + 8
            &&& u.block_len() == n.block_len
            &&& i < d.hash.data@.len() && d.hash.known@[i] ==> p[a + n.dir_hash_offset + i]
                == d.hash.data@[i]
            &&& i < f.hash.data@.len() && f.hash.known@[i] ==> p[a + n.file_hash_offset + i]
                == f.hash.data@[i]
            &&& i < u.fat.table.data@.len() && u.fat.table.known@[i] ==> p[a + n.fat_offset + i]
                == u.fat.table.data@[i]
            &&& parts.len() == 2 ==> {
                &&& d.table.data@.len() == (n.max_dir + 2) * (src.layout.dir_key_len
                    + src.layout.dir_info_len + 4)
                &&& f.table.data@.len() == (n.max_file + 1) * (src.layout.file_key_len
                    + src.layout.file_info_len + 4)
                &&& i < d.table.data@.len() && d.table.known@[i] ==> p[a + n.dir_table.block_index
                    + 0x1_0000_0000 * n.dir_table.block_count + i] == d.table.data@[i]
                &&& i < f.table.data@.len() && f.table.known@[i] ==> p[a + n.file_table.block_index
                    + 0x1_0000_0000 * n.file_table.block_count + i] == f.table.data@[i]
                &&& i < u.data.data@.len() && u.data.known@[i] ==> parts[1].bytes()[i]
                    == u.data.data@[i]
            }
            &&& parts.len() == 1 ==> {
                &&& u.chains@[-1][0].start == n.dir_table.block_index
                &&& u.chains@[-2][0].start == n.file_table.block_index
                &&& i < u.data.data@.len() && a + n.data_offset + i < p.len() && u.data.known@[i]
                    ==> p[a + n.data_offset + i] == u.data.data@[i]
            }
        }),
{
    if i < u.data.data@.len() {
        assert(crate::shadow::cell(u.data, i).0 == u.data.known@[i]);
    }
}

} // verus!
