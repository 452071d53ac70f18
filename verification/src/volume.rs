use crate::error::{make_error, Error};
use crate::fat::{Fat, FatFile};
use crate::fat_table::INDEX_END;
use crate::fs_meta::{FileMeta, FsMeta};
use crate::little_endian::{push_le, read_le};
use crate::misc::divide_up;
use crate::random_access_file::{copy_range, overwrite, Content, RandomAccessFile};
use crate::shadow::Shadow;
use vstd::prelude::*;

verus! {

use crate::fat::{
    blocks_within, file_bytes, file_readable, file_written, law_file_reads_what_was_written,
    lemma_read_stop, list_from, others_kept, read_stop,
};
use crate::fat_list::{
    block_count, blocks, chain, indices, inside, lemma_apart_concat, lemma_apart_symmetric,
    lemma_blocks_bounded, lemma_blocks_distinct, lemma_chain_kept, lemma_inside_apart, lemma_inside_self,
    lemma_kept_off_same, lemma_maps_concat, lemma_maps_covered,
    lists_apart,
    maps, spread, BlockMap, Span,
};
use crate::fields::{field, lemma_field_in, lemma_pow256};
use crate::fs_meta::{lemma_same_but_handles, same_but_handles, with_data};
use crate::fs_tree::{without_file, Tree};
use crate::little_endian::{le32, le_bytes, lemma_le_bytes_len, lemma_le_number_of_bytes};
use crate::misc::{counted, lemma_counted};
use crate::random_access_file::{same_file, spliced};
use vstd::arithmetic::mul::*;

/// What stands in place of the first block for a file that has none.
pub const NO_BLOCK: u32 = 0x8000_0000;

/// The first block that is noted for a file.
pub open spec fn entry_block(data: Seq<u8>) -> int {
    field(data, 4, 4) as int
}

/// The size that is noted for a file.
pub open spec fn entry_size(data: Seq<u8>) -> int {
    field(data, 8, 8) as int
}

/// A file system whose files are in the blocks of a data area.
pub struct Volume {
    pub fs: FsMeta<Shadow>,
    pub fat: Fat<Shadow>,
    pub data: Shadow,
    /// The runs of blocks of each file, and under negative numbers those of the tables.
    pub chains: Ghost<Map<int, Seq<Span>>>,
}

/// The tables of files and directories are sound.
#[verifier::opaque]
pub open spec fn fs_sound(fs: FsMeta<Shadow>) -> bool {
    fs.wf()
}

/// The table of blocks is sound.
#[verifier::opaque]
pub open spec fn fat_sound(fat: Fat<Shadow>) -> bool {
    fat.wf()
}

impl Volume {
    pub open spec fn block_len(&self) -> int {
        self.fat.block_len as int
    }

    pub open spec fn inv(&self) -> bool {
        &&& self.fs.inv()
        &&& self.fs.files.info_len >= 20
        &&& self.fat.inv()
        &&& self.data.inv()
        &&& self.data.bytes().len() == block_count(self.fat.table) * self.fat.block_len
    }

    pub open spec fn tree(&self) -> Tree {
        self.fs.tree@
    }

    /// The blocks of a file.
    pub open spec fn list(&self, f: int) -> Seq<BlockMap> {
        maps(self.chains@[f])
    }

    /// What is noted for a file fits its blocks.
    pub open spec fn file_ok(&self, f: int) -> bool {
        let d = self.tree().files[f].data;
        if entry_block(d) == NO_BLOCK {
            entry_size(d) == 0 && !self.chains@.contains_key(f)
        } else {
            &&& self.chains@.contains_key(f)
            &&& self.chains@[f].len() > 0
            &&& self.chains@[f][0].start == entry_block(d)
            &&& 0 < entry_size(d) <= self.list(f).len() * self.block_len()
            &&& entry_size(d) <= usize::MAX
        }
    }

    /// The blocks of a file are listed in the table, and none is free.
    pub open spec fn chain_ok(&self, f: int) -> bool {
        &&& chain(self.fat.table, self.chains@[f])
        &&& lists_apart(self.chains@[f], self.fat.free_list())
        &&& f < 0 || self.tree().files.contains_key(f)
    }

    /// The tables are sound, and no block belongs to two files.
    pub open spec fn framed(&self) -> bool {
        &&& self.inv()
        &&& fs_sound(self.fs)
        &&& fat_sound(self.fat)
        &&& forall|f: int| #[trigger] self.chains@.contains_key(f) ==> self.chain_ok(f)
        &&& forall|f: int, g: int| #[trigger]
            self.chains@.contains_key(f) && #[trigger] self.chains@.contains_key(g) && f != g
                ==> lists_apart(self.chains@[f], self.chains@[g])
    }

    /// The tables are sound, and what is noted for each file fits its blocks.
    pub open spec fn sound(&self) -> bool {
        &&& self.framed()
        &&& forall|f: int| #[trigger] self.tree().files.contains_key(f) ==> f >= 0 && self.file_ok(f)
    }

    /// The size of a file.
    pub open spec fn size(&self, f: int) -> int {
        entry_size(self.tree().files[f].data)
    }

    /// The content of a file. What stands at an uninitialized position has no meaning.
    pub open spec fn content(&self, f: int) -> Seq<u8> {
        if self.chains@.contains_key(f) {
            file_bytes(self.data.bytes(), 0, self.block_len(), self.list(f)).take(self.size(f))
        } else {
            Seq::empty()
        }
    }

    /// How many blocks a file has.
    pub open spec fn block_total(&self, f: int) -> int {
        if self.chains@.contains_key(f) {
            self.list(f).len() as int
        } else {
            0
        }
    }

    /// Whether a range of a file is initialized.
    pub open spec fn content_readable(&self, f: int, pos: int, end: int) -> bool {
        file_readable(self.data, 0, self.block_len(), self.list(f), pos, end)
    }
}

impl Volume {
    /// How far a file can be read from a position on: to `end`, or to the first block of which some
    /// byte of the range is not initialized.
    pub open spec fn read_stop(&self, f: int, pos: int, end: int) -> int {
        read_stop(self.data, 0, self.block_len(), self.list(f), pos, end)
    }

    /// A range of a file as it is shown: its content as far as it can be read, and zeros from
    /// there on.
    pub open spec fn shown_range(&self, f: int, pos: int, end: int) -> Seq<u8> {
        let stop = self.read_stop(f, pos, end);
        self.content(f).subrange(pos, stop) + Seq::new((end - stop) as nat, |i: int| 0u8)
    }
}

/// A range that is initialized is read to its end, and shown as it is.
pub proof fn lemma_read_bounds(v: Volume, f: int, pos: int, end: int)
    requires
        v.inv(),
        pos <= end,
    ensures
        pos <= v.read_stop(f, pos, end) <= end,
        v.content_readable(f, pos, v.read_stop(f, pos, end)),
        v.content_readable(f, pos, end) == (v.read_stop(f, pos, end) == end),
        v.content_readable(f, pos, end) ==> v.shown_range(f, pos, end) == v.content(f).subrange(
            pos,
            end,
        ),
{
    lemma_read_stop(v.data, 0, v.block_len(), v.list(f), pos, end);
    if v.content_readable(f, pos, end) {
        assert(v.shown_range(f, pos, end) =~= v.content(f).subrange(pos, end));
    }
}

/// The volume stays as sound as it was.
pub open spec fn kept_sound(a: Volume, b: Volume) -> bool {
    b.framed() && (a.sound() ==> b.sound())
}

/// Nothing that is done with a volume changes the lengths of its parts.
pub open spec fn fixed(a: Volume, b: Volume) -> bool {
    &&& b.fs.shape() == a.fs.shape()
    &&& b.block_len() == a.block_len()
    &&& b.fat.table.bytes().len() == a.fat.table.bytes().len()
    &&& b.data.bytes().len() == a.data.bytes().len()
}

/// Two volumes that hold the same.
pub open spec fn same_volume(a: Volume, b: Volume) -> bool {
    &&& b.tree() == a.tree()
    &&& b.chains == a.chains
    &&& b.block_len() == a.block_len()
    &&& same_file(a.data, b.data)
    &&& b.fat.free_list() == a.fat.free_list()
    &&& b.fat.free_count() == a.fat.free_count()
    &&& b.fat.table.bytes().len() == a.fat.table.bytes().len()
    &&& b.fs.shape() == a.fs.shape()
    &&& b.fs.dirs.room() == a.fs.dirs.room()
    &&& b.fs.files.room() == a.fs.files.room()
}

/// The numbers of open handles are the same.
pub open spec fn same_handles(a: Volume, b: Volume) -> bool {
    &&& forall|i: u32| #[trigger] b.fs.files.handles(i) == a.fs.files.handles(i)
    &&& forall|i: u32| #[trigger] b.fs.dirs.handles(i) == a.fs.dirs.handles(i)
}

/// One handle of a file has been closed.
pub open spec fn file_closed(a: Volume, b: Volume, index: u32) -> bool {
    &&& forall|i: u32| i != index ==> #[trigger] b.fs.files.handles(i) == a.fs.files.handles(i)
    &&& a.fs.files.handles(index) > 0 ==> b.fs.files.handles(index) == a.fs.files.handles(index) - 1
    &&& forall|i: u32| #[trigger] b.fs.dirs.handles(i) == a.fs.dirs.handles(i)
}

/// One handle of a directory has been closed.
pub open spec fn dir_closed(a: Volume, b: Volume, index: u32) -> bool {
    &&& forall|i: u32| i != index ==> #[trigger] b.fs.dirs.handles(i) == a.fs.dirs.handles(i)
    &&& a.fs.dirs.handles(index) > 0 ==> b.fs.dirs.handles(index) == a.fs.dirs.handles(index) - 1
    &&& forall|i: u32| #[trigger] b.fs.files.handles(i) == a.fs.files.handles(i)
}

/// One more handle of a file is open.
pub open spec fn file_opened(a: Volume, b: Volume, index: u32) -> bool {
    &&& b.fs.files.handles(index) == a.fs.files.handles(index) + 1 || a.fs.files.handles(index)
        == u32::MAX
    &&& forall|i: u32| i != index ==> #[trigger] b.fs.files.handles(i) == a.fs.files.handles(i)
    &&& forall|i: u32| #[trigger] b.fs.dirs.handles(i) == a.fs.dirs.handles(i)
}

/// One more handle of a directory is open.
pub open spec fn dir_opened(a: Volume, b: Volume, index: u32) -> bool {
    &&& b.fs.dirs.handles(index) == a.fs.dirs.handles(index) + 1 || a.fs.dirs.handles(index)
        == u32::MAX
    &&& forall|i: u32| i != index ==> #[trigger] b.fs.dirs.handles(i) == a.fs.dirs.handles(i)
    &&& forall|i: u32| #[trigger] b.fs.files.handles(i) == a.fs.files.handles(i)
}

/// The blocks of a sound list are within the data area, and each occurs once.
pub proof fn lemma_list(v: Volume, f: int)
    requires
        v.framed(),
        v.chains@.contains_key(f),
    ensures
        blocks_within(v.list(f), 0, v.block_len(), v.data.bytes().len() as int),
        indices(v.list(f)).no_duplicates(),
        indices(v.list(f)) == blocks(v.chains@[f]),
{
    reveal(fs_sound);
    reveal(fat_sound);
    let c = v.chains@[f];
    let n = block_count(v.fat.table);
    assert(v.chain_ok(f));
    lemma_blocks_bounded(c, n);
    lemma_blocks_distinct(c, n);
    assert forall|k: int| 0 <= k < v.list(f).len() implies 0 + (#[trigger] v.list(f)[k]).block_index
        * v.block_len() + v.block_len() <= v.data.bytes().len() by {
        let b = v.list(f)[k].block_index as int;
        assert(blocks(c)[k] == b);
        lemma_mul_inequality(b + 1, n, v.block_len());
        lemma_mul_is_distributive_add_other_way(v.block_len(), b, 1);
    }
}

/// A file of a volume, opened.
pub struct File {
    pub meta: FileMeta,
    pub data: Option<FatFile>,
    pub len: usize,
}

impl File {
    pub open spec fn inv(&self) -> bool {
        &&& self.data matches Some(f) ==> f.inv()
        &&& self.len > 0 ==> self.data is Some
    }

    pub open spec fn ino(&self) -> int {
        self.meta.ino()
    }

    /// The handle shows the file as it is noted.
    pub open spec fn wf(&self, v: Volume) -> bool {
        let f = self.ino();
        &&& self.inv()
        &&& v.tree().files.contains_key(f)
        &&& self.len == v.size(f)
        &&& match self.data {
            Some(d) => {
                &&& v.chains@.contains_key(f)
                &&& d.runs@ == v.chains@[f]
                &&& d.block_list@ == v.list(f)
            },
            None => !v.chains@.contains_key(f),
        }
    }
}

proof fn lemma_entry(info: Seq<u8>)
    requires
        info.len() >= 20,
    ensures
        entry_block(info.skip(4)) == field(info, 8, 4),
        entry_size(info.skip(4)) == field(info, 12, 8),
{
    let n = info.len() as int;
    assert(info.skip(4) =~= info.subrange(4, n));
    lemma_field_in(info, 4, n, 8, 4);
    lemma_field_in(info, 4, n, 12, 8);
}

/// Two file systems that hold the same, with handles of their own.
pub open spec fn alike(a: FsMeta<Shadow>, b: FsMeta<Shadow>) -> bool {
    &&& same_but_handles(a.dirs, b.dirs)
    &&& same_but_handles(a.files, b.files)
    &&& b.tree == a.tree
}

/// Where nothing but handles has changed, the volume is as it was.
pub proof fn lemma_alike(a: Volume, b: Volume)
    requires
        a.inv(),
        b.fs.inv(),
        b.fat.inv(),
        b.data.inv(),
        alike(a.fs, b.fs),
        same_file(a.fat.table, b.fat.table),
        b.fat == (Fat { table: b.fat.table, ..a.fat }),
        same_file(a.data, b.data),
        b.chains == a.chains,
    ensures
        b.inv(),
        same_volume(a, b),
        a.framed() ==> b.framed(),
        a.sound() ==> b.sound(),
{
    reveal(fs_sound);
    reveal(fat_sound);
    lemma_same_but_handles(a.fs.dirs, b.fs.dirs);
    lemma_same_but_handles(a.fs.files, b.fs.files);
    if a.sound() {
        assert forall|f: int| #[trigger] b.tree().files.contains_key(f) implies f >= 0 && b.file_ok(
            f,
        ) by {
            assert(a.tree().files.contains_key(f));
            assert(a.file_ok(f));
        }
    }
    if a.framed() {
        assert forall|f: int| #[trigger] b.chains@.contains_key(f) implies b.chain_ok(f) by {
            assert(a.chains@.contains_key(f));
            assert(a.chain_ok(f));
            lemma_chain_same(a.fat.table, b.fat.table, a.chains@[f]);
        }
        lemma_fat_same(a.fat, b.fat);
    }
}

proof fn lemma_chain_same(a: Shadow, b: Shadow, c: Seq<Span>)
    requires
        same_file(a, b),
        chain(a, c),
    ensures
        chain(b, c),
{
    crate::fat_list::lemma_same_nodes(a, b);
}

pub proof fn lemma_fat_same(a: Fat<Shadow>, b: Fat<Shadow>)
    requires
        a.wf(),
        b.inv(),
        same_file(a.table, b.table),
        b == (Fat { table: b.table, ..a }),
    ensures
        b.wf(),
{
    crate::fat_list::lemma_same_nodes(a.table, b.table);
    lemma_chain_same(a.table, b.table, a.free_list());
}

/// What a first block and a size give: the blocks and the size, or the error. A size without blocks
/// is refused, and so is one that does not fit the blocks.
#[verifier::opaque]
pub open spec fn blocks_open(table: Shadow, block_len: int, block: int, size: int) -> Result<
    (Option<Seq<Span>>, int),
    Error,
> {
    if size > usize::MAX {
        Err(Error::SizeMismatch)
    } else if block == NO_BLOCK {
        if size != 0 {
            Err(Error::SizeMismatch)
        } else {
            Ok((None, 0))
        }
    } else if block + 1 >= INDEX_END {
        Err(Error::OutOfBound)
    } else {
        match list_from(table, block as usize) {
            Err(e) => Err(e),
            Ok(c) => if size == 0 || size > maps(c).len() * block_len {
                Err(Error::SizeMismatch)
            } else {
                Ok((Some(c), size))
            },
        }
    }
}

/// What opening the file of an entry gives.
pub open spec fn entry_opens(v: Volume, f: int) -> Result<(Option<Seq<Span>>, int), Error> {
    let d = v.tree().files[f].data;
    blocks_open(v.fat.table, v.block_len(), entry_block(d), entry_size(d))
}

/// The blocks and the size are as told.
pub open spec fn found_as(
    told: Result<(Option<Seq<Span>>, int), Error>,
    r: Result<(Option<FatFile>, usize), Error>,
) -> bool {
    match told {
        Err(e) => r == Err::<(Option<FatFile>, usize), Error>(e),
        Ok((c, n)) => r matches Ok(o) && o.1 == n && match c {
            None => o.0 is None,
            Some(c) => o.0 matches Some(d) && d.runs@ == c && d.block_list@ == maps(c),
        },
    }
}

/// Opens blocks from a first one on, for a size.
fn open_blocks(fat: &mut Fat<Shadow>, block: u64, size: u64) -> (r: Result<
    (Option<FatFile>, usize),
    Error,
>)
    requires
        old(fat).inv(),
    ensures
        final(fat).inv(),
        same_file(old(fat).table, final(fat).table),
        *final(fat) == (Fat { table: final(fat).table, ..*old(fat) }),
        r matches Ok(f) ==> (f.0 matches Some(d) ==> d.inv()) && (f.0 is None ==> f.1 == 0),
        r matches Ok(f) ==> (f.0 matches Some(d) ==> 0 < f.1),
        found_as(
            blocks_open(
                old(fat).table,
                old(fat).block_len as int,
                block as int,
                size as int,
            ),
            r,
        ),
        forall|c: Seq<Span>|
            old(fat).wf() && #[trigger] chain(old(fat).table, c) && c.len() > 0 && c[0].start
                == block && lists_apart(c, old(fat).free_list()) && 0 < size <= maps(c).len()
                * old(fat).block_len && size <= usize::MAX && block != NO_BLOCK ==> (
            r matches Ok(f) && f.1 == size && (f.0 matches Some(d) && d.wf(*final(fat))
                && d.runs@ == c)),
{
    reveal(blocks_open);
    if size > usize::MAX as u64 {
        return make_error(Error::SizeMismatch);
    }
    let len: usize = size as usize;
    if block == NO_BLOCK as u64 {
        if len != 0 {
            return make_error(Error::SizeMismatch);
        }
        return Ok((None, 0));
    }
    if block >= INDEX_END as u64 - 1 {
        return make_error(Error::OutOfBound);
    }
    let file = match FatFile::open(fat, block as usize) {
        Ok(f) => f,
        Err(e) => {
            return make_error(e);
        },
    };
    let room: usize = match file.block_list.len().checked_mul(fat.block_len) {
        Some(n) => n,
        None => usize::MAX,
    };
    if len == 0 || len > room {
        return make_error(Error::SizeMismatch);
    }
    Ok((Some(file), len))
}

/// A file has been opened as its entry tells.
pub open spec fn opened_as(v: Volume, f: int, r: Result<File, Error>) -> bool {
    found_as(
        entry_opens(v, f),
        match r {
            Ok(o) => Ok((o.data, o.len)),
            Err(e) => Err(e),
        },
    )
}

impl File {
    /// Opens the file that an entry is for.
    pub fn from_meta(vol: &mut Volume, meta: FileMeta) -> (r: Result<File, Error>)
        requires
            old(vol).inv(),
        ensures
            final(vol).inv(),
            same_volume(*old(vol), *final(vol)),
            old(vol).framed() ==> final(vol).framed(),
            old(vol).sound() ==> final(vol).sound(),
            r matches Ok(f) ==> f.inv() && f.meta == meta && same_handles(*old(vol), *final(vol)),
            r is Err ==> file_closed(*old(vol), *final(vol), meta.ticket.index),
            old(vol).framed() && old(vol).tree().files.contains_key(meta.ino()) ==> opened_as(
                *old(vol),
                meta.ino(),
                r,
            ),
            old(vol).sound() && old(vol).tree().files.contains_key(meta.ino()) ==> (r matches Ok(f)
                && f.wf(*final(vol))),
    {
        let ghost a = *vol;
        match File::read_entry(vol, &meta) {
            Ok((data, len)) => Ok(File { meta, data, len }),
            Err(e) => {
                let ghost b = *vol;
                meta.close(&mut vol.fs);
                proof {
                    lemma_alike(b, *vol);
                }
                Err(e)
            },
        }
    }

    /// The blocks and the size of the file that an entry is for.
    fn read_entry(vol: &mut Volume, meta: &FileMeta) -> (r: Result<(Option<FatFile>, usize), Error>)
        requires
            old(vol).inv(),
        ensures
            final(vol).inv(),
            same_volume(*old(vol), *final(vol)),
            same_handles(*old(vol), *final(vol)),
            old(vol).framed() ==> final(vol).framed(),
            old(vol).sound() ==> final(vol).sound(),
            r matches Ok(f) ==> (File { meta: *meta, data: f.0, len: f.1 }).inv(),
            old(vol).framed() && old(vol).tree().files.contains_key(meta.ino()) ==> found_as(
                entry_opens(*old(vol), meta.ino()),
                r,
            ),
            old(vol).sound() && old(vol).tree().files.contains_key(meta.ino()) ==> (r matches Ok(f)
                && (File { meta: *meta, data: f.0, len: f.1 }).wf(*final(vol))),
    {
        proof {
            reveal(fs_sound);
            reveal(fat_sound);
        }
        let ghost a = *vol;
        let info = match meta.get_info(&mut vol.fs) {
            Ok(info) => info,
            Err(e) => {
                proof {
                    lemma_alike(a, *vol);
                }
                return make_error(e);
            },
        };
        let ghost m = *vol;
        proof {
            lemma_alike(a, *vol);
            lemma_entry(info@);
        }
        let block: u64 = read_le(&info, 8, 4);
        let size: u64 = read_le(&info, 12, 8);
        let opened = open_blocks(&mut vol.fat, block, size);
        proof {
            lemma_alike(m, *vol);
            if a.framed() && a.tree().files.contains_key(meta.ino()) {
                assert(a.tree().files[meta.ino()].data == info@.skip(4));
                assert(m.fat == a.fat);
            }
            if a.sound() && a.tree().files.contains_key(meta.ino()) {
                assert(m.file_ok(meta.ino()));
                if m.chains@.contains_key(meta.ino()) {
                    assert(m.chain_ok(meta.ino()));
                    assert(chain(m.fat.table, m.chains@[meta.ino()]));
                } else {
                    reveal(blocks_open);
                }
            }
        }
        opened
    }
}

/// Lists that are apart have no block in common.
pub proof fn lemma_lists_differ(c: Seq<Span>, d: Seq<Span>, n: int)
    requires
        lists_apart(c, d),
        spread(c, n),
        spread(d, n),
        n <= usize::MAX,
    ensures
        forall|x: int, y: int|
            0 <= x < maps(c).len() && 0 <= y < maps(d).len() ==> (#[trigger] maps(c)[x]).block_index
                != (#[trigger] maps(d)[y]).block_index,
{
    assert forall|x: int, y: int| 0 <= x < maps(c).len() && 0 <= y < maps(d).len() implies (
    #[trigger] maps(c)[x]).block_index != (#[trigger] maps(d)[y]).block_index by {
        lemma_maps_covered(c, x);
        lemma_maps_covered(d, y);
        let i = choose|i: int|
            0 <= i < c.len() && (#[trigger] c[i]).has(maps(c)[x].block_index as int);
        let j = choose|j: int|
            0 <= j < d.len() && (#[trigger] d[j]).has(maps(d)[y].block_index as int);
        assert(c[i].apart(d[j]));
    }
}

/// What writing to a file makes of a volume: the file holds what was written, and nothing else
/// has changed.
pub open spec fn file_put(a: Volume, b: Volume, f: int, pos: int, buf: Seq<u8>) -> bool {
    &&& b.tree() == a.tree()
    &&& b.chains == a.chains
    &&& b.fs == a.fs
    &&& b.fat == a.fat
    &&& b.content(f) == spliced(a.content(f), pos, buf)
    &&& b.content_readable(f, pos, pos + buf.len())
    &&& forall|x: int, y: int| #[trigger]
        a.content_readable(f, x, y) ==> b.content_readable(f, x, y)
    &&& forall|g: int| g != f && a.chains@.contains_key(g) ==> #[trigger] b.content(g) == a.content(
        g,
    )
    &&& forall|g: int, x: int, y: int|
        a.chains@.contains_key(g) && a.content_readable(g, x, y) ==> #[trigger] b.content_readable(
            g,
            x,
            y,
        )
}

proof fn lemma_file_put(a: Volume, b: Volume, f: int, pos: int, buf: Seq<u8>)
    requires
        a.sound(),
        a.tree().files.contains_key(f),
        a.chains@.contains_key(f),
        b.fs == a.fs,
        b.fat == a.fat,
        b.chains == a.chains,
        b.data.inv(),
        0 <= pos,
        pos + buf.len() <= a.size(f),
        file_written(a.data, b.data, 0, a.block_len(), a.list(f), pos, buf),
    ensures
        b.sound(),
        file_put(a, b, f, pos, buf),
{
    let bl = a.block_len();
    reveal(fat_sound);
    assert(a.file_ok(f));
    lemma_list(a, f);
    assert(b.content(f) =~= spliced(a.content(f), pos, buf)) by {
        let fa = file_bytes(a.data.bytes(), 0, bl, a.list(f));
        let fb = file_bytes(b.data.bytes(), 0, bl, a.list(f));
        assert(fb == spliced(fa, pos, buf));
    }
    assert forall|g: int| g != f && a.chains@.contains_key(g) implies #[trigger] b.content(g)
        == a.content(g) by {
        lemma_list(a, g);
        assert(lists_apart(a.chains@[f], a.chains@[g]));
        assert(a.chain_ok(f) && a.chain_ok(g));
        lemma_lists_differ(a.chains@[f], a.chains@[g], block_count(a.fat.table));
        law_file_reads_what_was_written(
            a.data,
            b.data,
            0,
            bl,
            a.list(f),
            a.list(g),
            pos,
            buf,
        );
    }
    assert forall|g: int| #[trigger] b.tree().files.contains_key(g) implies g >= 0 && b.file_ok(
        g,
    ) by {
        assert(a.tree().files.contains_key(g));
        assert(a.file_ok(g));
    }
    assert forall|g: int| #[trigger] b.chains@.contains_key(g) implies b.chain_ok(g) by {
        assert(a.chains@.contains_key(g));
        assert(a.chain_ok(g));
    }
}

impl File {
    /// The size of the file.
    pub fn len(&self) -> (n: usize)
        ensures
            n == self.len,
    {
        self.len
    }

    /// Reads bytes at position `pos` into `buf`. Where a block is not intact, the bytes before it
    /// have been read.
    pub fn read(&self, vol: &mut Volume, pos: usize, buf: &mut [u8]) -> (r: Result<(), Error>)
        requires
            old(vol).inv(),
            self.inv(),
        ensures
            final(vol).inv(),
            same_volume(*old(vol), *final(vol)),
            same_handles(*old(vol), *final(vol)),
            old(vol).sound() ==> final(vol).sound(),
            final(buf)@.len() == old(buf)@.len(),
            old(buf)@.len() == 0 ==> r == Ok::<(), Error>(()),
            old(buf)@.len() > 0 && pos + old(buf)@.len() > self.len ==> r == Err::<(), Error>(
                Error::OutOfBound,
            ) && final(buf)@ == old(buf)@,
            old(buf)@.len() > 0 && pos + old(buf)@.len() <= self.len && old(vol).sound() && self.wf(
                *old(vol),
            ) ==> ({
                let end = pos + old(buf)@.len();
                let stop = old(vol).read_stop(self.ino(), pos as int, end);
                &&& final(buf)@ == old(vol).content(self.ino()).subrange(pos as int, stop) + old(
                    buf,
                )@.skip(stop - pos)
                &&& r == if stop == end {
                    Ok::<(), Error>(())
                } else {
                    Err(Error::HashMismatch)
                }
            }),
    {
        let n: usize = buf.len();
        if n == 0 {
            return Ok(());
        }
        if n > self.len || pos > self.len - n {
            return make_error(Error::OutOfBound);
        }
        let ghost a = *vol;
        match &self.data {
            None => make_error(Error::OutOfBound),
            Some(f) => {
                let block_len: usize = vol.fat.block_len;
                let r = f.read(&mut vol.data, 0, block_len, pos, buf);
                proof {
                    lemma_alike(a, *vol);
                    if a.sound() && self.wf(a) {
                        let i = self.ino();
                        assert(a.file_ok(i));
                        lemma_list(a, i);
                        lemma_read_bounds(a, i, pos as int, pos + n);
                        let stop = a.read_stop(i, pos as int, pos + n);
                        assert(a.content(i).subrange(pos as int, stop) =~= file_bytes(
                            a.data.bytes(),
                            0,
                            a.block_len(),
                            a.list(i),
                        ).subrange(pos as int, stop));
                    }
                }
                r
            },
        }
    }

    /// Writes the bytes of `buf` at position `pos`.
    pub fn write(&self, vol: &mut Volume, pos: usize, buf: &[u8]) -> (r: Result<(), Error>)
        requires
            old(vol).inv(),
            self.inv(),
        ensures
            final(vol).inv(),
            fixed(*old(vol), *final(vol)),
            final(vol).fs == old(vol).fs,
            final(vol).fat == old(vol).fat,
            buf@.len() == 0 ==> r == Ok::<(), Error>(()) && *final(vol) == *old(vol),
            buf@.len() > 0 && pos + buf@.len() > self.len ==> r == Err::<(), Error>(
                Error::OutOfBound,
            ) && *final(vol) == *old(vol),
            old(vol).sound() && self.wf(*old(vol)) ==> final(vol).sound() && self.wf(*final(vol)),
            buf@.len() > 0 && pos + buf@.len() <= self.len && old(vol).sound() && self.wf(*old(vol))
                ==> r == Ok::<(), Error>(()) && file_put(
                *old(vol),
                *final(vol),
                self.ino(),
                pos as int,
                buf@,
            ),
    {
        let n: usize = buf.len();
        if n == 0 {
            return Ok(());
        }
        if n > self.len || pos > self.len - n {
            return make_error(Error::OutOfBound);
        }
        let ghost a = *vol;
        match &self.data {
            None => make_error(Error::OutOfBound),
            Some(f) => {
                let block_len: usize = vol.fat.block_len;
                proof {
                    if a.sound() && self.wf(a) {
                        assert(a.file_ok(self.ino()));
                        lemma_list(a, self.ino());
                    }
                }
                let r = f.write(&mut vol.data, 0, block_len, pos, buf);
                proof {
                    if a.sound() && self.wf(a) {
                        lemma_file_put(a, *vol, self.ino(), pos as int, buf@);
                    }
                }
                r
            },
        }
    }
}

/// The files other than `f` are as they were.
pub open spec fn others_same(a: Volume, b: Volume, f: int) -> bool {
    &&& b.block_len() == a.block_len()
    &&& forall|g: int|
        g != f ==> (#[trigger] b.tree().files.contains_key(g) == a.tree().files.contains_key(g))
            && b.tree().files[g] == a.tree().files[g]
    &&& forall|g: int|
        g != f ==> (#[trigger] b.chains@.contains_key(g) == a.chains@.contains_key(g))
            && b.chains@[g] == a.chains@[g]
    &&& forall|g: int| g != f ==> #[trigger] b.content(g) == a.content(g)
    &&& forall|g: int, x: int, y: int|
        g != f ==> #[trigger] b.content_readable(g, x, y) == a.content_readable(g, x, y)
}

/// A list of blocks that is apart from what was touched is still there.
pub proof fn lemma_chain_survives(a: Fat<Shadow>, b: Fat<Shadow>, touched: Seq<Span>, c: Seq<Span>)
    requires
        chain(a.table, c),
        lists_apart(touched, c),
        others_kept(a, b, touched),
        inside(b.free_list(), touched),
    ensures
        chain(b.table, c),
        lists_apart(c, b.free_list()),
{
    lemma_chain_kept(a.table, b.table, touched, c);
    lemma_inside_apart(b.free_list(), touched, c);
    lemma_apart_symmetric(b.free_list(), c);
}

/// The tables stay sound when the blocks of one file change, and the other files stay as they are.
proof fn lemma_step_framed(a: Volume, b: Volume, f: int, touched: Seq<Span>)
    requires
        a.sound(),
        b.inv(),
        fs_sound(b.fs),
        fat_sound(b.fat),
        b.data == a.data,
        others_kept(a.fat, b.fat, touched),
        inside(b.fat.free_list(), touched),
        forall|g: int|
            g != f && #[trigger] a.chains@.contains_key(g) ==> lists_apart(touched, a.chains@[g]),
        forall|g: int|
            g != f ==> (#[trigger] b.chains@.contains_key(g) == a.chains@.contains_key(g))
                && b.chains@[g] == a.chains@[g],
        forall|g: int|
            g != f ==> (#[trigger] b.tree().files.contains_key(g) == a.tree().files.contains_key(g))
                && b.tree().files[g] == a.tree().files[g],
        b.chains@.contains_key(f) ==> {
            &&& chain(b.fat.table, b.chains@[f])
            &&& lists_apart(b.chains@[f], b.fat.free_list())
            &&& inside(b.chains@[f], touched)
            &&& b.tree().files.contains_key(f)
        },
    ensures
        b.framed(),
        others_same(a, b, f),
{
    assert forall|g: int| #[trigger] b.chains@.contains_key(g) implies b.chain_ok(g) by {
        if g != f {
            assert(a.chains@.contains_key(g));
            assert(a.chain_ok(g));
            lemma_chain_survives(a.fat, b.fat, touched, a.chains@[g]);
            assert(b.tree().files.contains_key(g) == a.tree().files.contains_key(g));
        }
    }
    assert forall|g: int, h: int| #[trigger]
        b.chains@.contains_key(g) && #[trigger] b.chains@.contains_key(h) && g != h implies lists_apart(
        b.chains@[g],
        b.chains@[h],
    ) by {
        if g != f && h != f {
            assert(a.chains@.contains_key(g) && a.chains@.contains_key(h));
        } else if g == f {
            assert(a.chains@.contains_key(h));
            lemma_inside_apart(b.chains@[f], touched, b.chains@[h]);
        } else {
            assert(a.chains@.contains_key(g));
            lemma_inside_apart(b.chains@[f], touched, b.chains@[g]);
            lemma_apart_symmetric(b.chains@[f], b.chains@[g]);
        }
    }
    assert forall|g: int| g != f implies #[trigger] b.content(g) == a.content(g) by {
        assert(b.chains@.contains_key(g) == a.chains@.contains_key(g));
        if a.chains@.contains_key(g) {
            assert(b.tree().files.contains_key(g) == a.tree().files.contains_key(g));
        }
    }
    assert forall|g: int, x: int, y: int| g != f implies #[trigger] b.content_readable(g, x, y)
        == a.content_readable(g, x, y) by {
        assert(b.chains@.contains_key(g) == a.chains@.contains_key(g));
    }
}

/// The volume stays sound when the blocks of one file change.
pub proof fn lemma_step(a: Volume, b: Volume, f: int, touched: Seq<Span>)
    requires
        a.sound(),
        b.inv(),
        fs_sound(b.fs),
        fat_sound(b.fat),
        b.data == a.data,
        others_kept(a.fat, b.fat, touched),
        inside(b.fat.free_list(), touched),
        forall|g: int|
            g != f && #[trigger] a.chains@.contains_key(g) ==> lists_apart(touched, a.chains@[g]),
        forall|g: int|
            g != f ==> (#[trigger] b.chains@.contains_key(g) == a.chains@.contains_key(g))
                && b.chains@[g] == a.chains@[g],
        forall|g: int|
            g != f ==> (#[trigger] b.tree().files.contains_key(g) == a.tree().files.contains_key(g))
                && b.tree().files[g] == a.tree().files[g],
        b.chains@.contains_key(f) ==> {
            &&& chain(b.fat.table, b.chains@[f])
            &&& lists_apart(b.chains@[f], b.fat.free_list())
            &&& inside(b.chains@[f], touched)
            &&& b.tree().files.contains_key(f)
        },
        b.tree().files.contains_key(f) ==> f >= 0 && b.file_ok(f),
    ensures
        b.sound(),
        others_same(a, b, f),
{
    lemma_step_framed(a, b, f, touched);
    assert forall|g: int| #[trigger] b.tree().files.contains_key(g) implies g >= 0 && b.file_ok(
        g,
    ) by {
        if g != f {
            assert(a.tree().files.contains_key(g));
            assert(a.file_ok(g));
            assert(b.chains@.contains_key(g) == a.chains@.contains_key(g));
        }
    }
}

/// The blocks of a file and the free blocks are apart from the blocks of other files.
pub proof fn lemma_touched_apart(a: Volume, f: int, g: int)
    requires
        a.sound(),
        a.chains@.contains_key(g),
        f != g,
    ensures
        lists_apart(a.fat.free_list(), a.chains@[g]),
        a.chains@.contains_key(f) ==> lists_apart(
            a.chains@[f] + a.fat.free_list(),
            a.chains@[g],
        ),
{
    assert(a.chain_ok(g));
    lemma_apart_symmetric(a.chains@[g], a.fat.free_list());
    if a.chains@.contains_key(f) {
        lemma_apart_concat(a.chains@[f], a.fat.free_list(), a.chains@[g]);
    }
}

impl File {
    /// Closes the file.
    pub fn close(self, vol: &mut Volume)
        requires
            old(vol).inv(),
        ensures
            final(vol).inv(),
            same_volume(*old(vol), *final(vol)),
            old(vol).framed() ==> final(vol).framed(),
            old(vol).sound() ==> final(vol).sound(),
            file_closed(*old(vol), *final(vol), self.meta.ticket.index),
    {
        let ghost a = *vol;
        self.meta.close(&mut vol.fs);
        proof {
            lemma_alike(a, *vol);
        }
    }

    /// The number of the file.
    pub fn get_ino(&self) -> (ino: u32)
        ensures
            ino == self.ino(),
    {
        self.meta.get_ino()
    }

    /// The number of the directory that the file is in.
    pub fn get_parent_ino(&self, vol: &mut Volume) -> (r: Result<u32, Error>)
        requires
            old(vol).inv(),
        ensures
            final(vol).inv(),
            same_volume(*old(vol), *final(vol)),
            same_handles(*old(vol), *final(vol)),
            old(vol).sound() ==> final(vol).sound(),
            old(vol).sound() && old(vol).tree().files.contains_key(self.ino()) ==> (r matches Ok(p)
                && p == old(vol).tree().files[self.ino()].parent),
    {
        proof {
            reveal(fs_sound);
            reveal(fat_sound);
        }
        let ghost a = *vol;
        let r = self.meta.get_parent_ino(&mut vol.fs);
        proof {
            lemma_alike(a, *vol);
        }
        r
    }

    /// Does nothing: the volume is committed as a whole.
    pub fn commit(&self) -> (r: Result<(), Error>)
        ensures
            r == Ok::<(), Error>(()),
    {
        Ok(())
    }

    /// Deletes the file: its blocks become free, and its entry is removed. Where there is another
    /// handle, the blocks become free, but the entry stays, and the error is `Busy`.
    pub fn delete(self, vol: &mut Volume) -> (r: Result<(), Error>)
        requires
            old(vol).inv(),
            self.inv(),
        ensures
            final(vol).inv(),
            fixed(*old(vol), *final(vol)),
            file_closed(*old(vol), *final(vol), self.meta.ticket.index),
            old(vol).sound() && self.wf(*old(vol)) && old(vol).fs.files.handles(
                self.meta.ticket.index,
            ) == 1 ==> {
                &&& r == Ok::<(), Error>(())
                &&& final(vol).sound()
                &&& final(vol).tree() == without_file(old(vol).tree(), self.ino())
                &&& !final(vol).chains@.contains_key(self.ino())
                &&& others_same(*old(vol), *final(vol), self.ino())
                &&& final(vol).fat.free_count() == old(vol).fat.free_count() + (
                match self.data {
                    Some(d) => d.block_list@.len() as int,
                    None => 0,
                })
                &&& final(vol).fs.files.room() == old(vol).fs.files.room() + 1
                &&& final(vol).fs.dirs.room() == old(vol).fs.dirs.room()
            },
            old(vol).sound() && self.wf(*old(vol)) && old(vol).fs.files.handles(
                self.meta.ticket.index,
            ) != 1 ==> r == Err::<(), Error>(Error::Busy) && blocks_lost(
                *old(vol),
                *final(vol),
                self.ino(),
            ),
    {
        proof {
            reveal(fs_sound);
            reveal(fat_sound);
        }
        let ghost a = *vol;
        let ghost f = self.ino();
        let File { meta, data, len: _ } = self;
        proof {
            if a.sound() && self.wf(a) && self.data is Some {
                assert(a.chain_ok(f));
            }
        }
        if let Some(d) = data {
            if let Err(e) = d.delete(&mut vol.fat) {
                meta.close(&mut vol.fs);
                return make_error(e);
            }
        }
        let r = meta.delete(&mut vol.fs);
        vol.chains = Ghost(vol.chains@.remove(f));
        proof {
            if a.sound() && self.wf(a) && a.fs.files.handles(self.meta.ticket.index) == 1 {
                lemma_deleted(a, *vol, self);
            }
            if a.sound() && self.wf(a) && a.fs.files.handles(self.meta.ticket.index) != 1 {
                lemma_blocks_lost(a, *vol, self);
            }
        }
        r
    }
}

/// The blocks of a file have become free, but its entry is still there.
pub open spec fn blocks_lost(a: Volume, b: Volume, f: int) -> bool {
    &&& b.framed()
    &&& b.tree() == a.tree()
    &&& !b.chains@.contains_key(f)
    &&& others_same(a, b, f)
    &&& b.fat.free_count() == a.fat.free_count() + a.block_total(f)
    &&& b.fs.files.room() == a.fs.files.room()
    &&& b.fs.dirs.room() == a.fs.dirs.room()
    &&& a.block_total(f) == 0 ==> b.sound()
}

proof fn lemma_blocks_lost(a: Volume, b: Volume, file: File)
    requires
        a.sound(),
        file.wf(a),
        b.inv(),
        fs_sound(b.fs),
        b.tree() == a.tree(),
        b.fs.files.room() == a.fs.files.room(),
        b.fs.dirs.room() == a.fs.dirs.room(),
        b.data == a.data,
        b.chains@ == a.chains@.remove(file.ino()),
        match file.data {
            Some(d) => {
                &&& fat_sound(b.fat)
                &&& b.fat.free_list() == d.runs@ + a.fat.free_list()
                &&& others_kept(a.fat, b.fat, d.runs@ + a.fat.free_list())
            },
            None => b.fat == a.fat,
        },
    ensures
        blocks_lost(a, b, file.ino()),
{
    reveal(fat_sound);
    let f = file.ino();
    let touched = b.fat.free_list();
    lemma_inside_self(touched);
    if file.data is None {
        lemma_kept_off_same(a.fat.table, b.fat.table, touched);
    } else {
        lemma_maps_concat(a.chains@[f], a.fat.free_list());
    }
    assert forall|g: int| g != f && #[trigger] a.chains@.contains_key(g) implies lists_apart(
        touched,
        a.chains@[g],
    ) by {
        lemma_touched_apart(a, f, g);
    }
    lemma_step_framed(a, b, f, touched);
    assert(a.file_ok(f));
    if a.block_total(f) == 0 {
        lemma_step(a, b, f, touched);
    }
}

/// What deleting a file makes of a volume.
proof fn lemma_deleted(a: Volume, b: Volume, file: File)
    requires
        a.sound(),
        file.wf(a),
        b.inv(),
        fs_sound(b.fs),
        b.tree() == without_file(a.tree(), file.ino()),
        b.data == a.data,
        b.chains@ == a.chains@.remove(file.ino()),
        match file.data {
            Some(d) => {
                &&& fat_sound(b.fat)
                &&& b.fat.free_list() == d.runs@ + a.fat.free_list()
                &&& others_kept(a.fat, b.fat, d.runs@ + a.fat.free_list())
            },
            None => b.fat == a.fat,
        },
    ensures
        b.sound(),
        others_same(a, b, file.ino()),
        b.fat.free_count() == a.fat.free_count() + (match file.data {
            Some(d) => d.block_list@.len() as int,
            None => 0,
        }),
{
    reveal(fat_sound);
    let f = file.ino();
    let touched = b.fat.free_list();
    lemma_inside_self(touched);
    if file.data is None {
        lemma_kept_off_same(a.fat.table, b.fat.table, touched);
    } else {
        lemma_maps_concat(a.chains@[f], a.fat.free_list());
    }
    assert forall|g: int| g != f && #[trigger] a.chains@.contains_key(g) implies lists_apart(
        touched,
        a.chains@[g],
    ) by {
        lemma_touched_apart(a, f, g);
    }
    lemma_step(a, b, f, touched);
}

/// An entry with another block and another size.
pub fn set_entry(info: &Vec<u8>, block: u32, size: u64) -> (r: Vec<u8>)
    requires
        info@.len() >= 20,
    ensures
        r@.len() == info@.len(),
        r@.subrange(0, 8) == info@.subrange(0, 8),
        r@.skip(20) == info@.skip(20),
        entry_block(r@.skip(4)) == block,
        entry_size(r@.skip(4)) == size,
{
    let n: usize = info.len();
    let mut r = copy_range(info, 0, n);
    let mut b: Vec<u8> = Vec::new();
    push_le(&mut b, block as u64, 4);
    let mut z: Vec<u8> = Vec::new();
    push_le(&mut z, size, 8);
    proof {
        lemma_le_bytes_len(block as nat, 4);
        lemma_le_bytes_len(size as nat, 8);
        lemma_pow256();
        lemma_le_number_of_bytes(block as nat, 4);
        lemma_le_number_of_bytes(size as nat, 8);
        assert(b@ =~= le_bytes(block as nat, 4));
        assert(z@ =~= le_bytes(size as nat, 8));
    }
    overwrite(&mut r, 8, &b);
    overwrite(&mut r, 12, &z);
    proof {
        assert(r@.subrange(8, 12) =~= b@);
        assert(r@.subrange(12, 20) =~= z@);
        assert(r@.subrange(0, 8) =~= info@.subrange(0, 8));
        assert(r@.skip(20) =~= info@.skip(20));
        lemma_entry(r@);
    }
    r
}

/// The first block of a list is where its first run starts.
proof fn lemma_first_block(c: Seq<Span>)
    requires
        c.len() > 0,
        c[0].size >= 1,
    ensures
        maps(c).len() > 0,
        maps(c)[0].block_index == c[0].start,
    decreases c.len(),
{
    if c.len() == 1 {
        assert(maps(c.drop_last()) =~= Seq::empty());
        assert(maps(c) =~= c[0].maps());
    } else {
        lemma_first_block(c.drop_last());
    }
}

/// Files that have the same first blocks begin alike.
proof fn lemma_same_start(
    data: Seq<u8>,
    block_len: int,
    a: Seq<BlockMap>,
    b: Seq<BlockMap>,
    n: int,
)
    requires
        block_len > 0,
        0 <= n <= a.len() * block_len,
        n <= b.len() * block_len,
        forall|k: int|
            0 <= k < a.len() && k < b.len() ==> (#[trigger] a[k]).block_index == b[k].block_index,
    ensures
        file_bytes(data, 0, block_len, a).take(n) == file_bytes(data, 0, block_len, b).take(n),
{
    let x = file_bytes(data, 0, block_len, a);
    let y = file_bytes(data, 0, block_len, b);
    assert forall|i: int| 0 <= i < n implies x[i] == y[i] by {
        let k = i / block_len;
        vstd::arithmetic::div_mod::lemma_fundamental_div_mod(i, block_len);
        vstd::arithmetic::div_mod::lemma_mod_bound(i, block_len);
        vstd::arithmetic::div_mod::lemma_div_pos_is_pos(i, block_len);
        if k >= a.len() {
            lemma_mul_inequality(a.len() as int, k, block_len);
            lemma_mul_is_commutative(k, block_len);
        }
        if k >= b.len() {
            lemma_mul_inequality(b.len() as int, k, block_len);
            lemma_mul_is_commutative(k, block_len);
        }
        assert(a[k].block_index == b[k].block_index);
    }
    assert(x.take(n) =~= y.take(n));
}

pub open spec fn lesser(a: int, b: int) -> int {
    if a < b {
        a
    } else {
        b
    }
}

/// What resizing a file makes of a volume: the file has the new size and begins as before, and
/// nothing else has changed.
pub open spec fn file_resized(a: Volume, b: Volume, f: int, len: int) -> bool {
    &&& b.tree() == with_data(a.tree(), f, b.tree().files[f].data)
    &&& b.size(f) == len
    &&& b.content(f).len() == len
    &&& b.content(f).take(lesser(len, a.size(f))) == a.content(f).take(lesser(len, a.size(f)))
    &&& others_same(a, b, f)
    &&& b.fat.free_count() == a.fat.free_count() + a.block_total(f) - counted(len, a.block_len())
    &&& b.fs.files.room() == a.fs.files.room()
}

/// How the blocks of a file change when it is resized.
pub open spec fn blocks_changed(a: Volume, b: Volume, old_data: Option<FatFile>, new_data: Option<FatFile>, len: int) -> bool {
    match (old_data, new_data) {
        (None, None) => false,
        (None, Some(n)) => {
            &&& n.blocks() + blocks(b.fat.free_list()) == blocks(a.fat.free_list())
            &&& inside(n.runs@, a.fat.free_list())
            &&& inside(b.fat.free_list(), a.fat.free_list())
            &&& others_kept(a.fat, b.fat, a.fat.free_list())
        },
        (Some(o), None) => {
            &&& b.fat.free_list() == o.runs@ + a.fat.free_list()
            &&& others_kept(a.fat, b.fat, o.runs@ + a.fat.free_list())
        },
        (Some(o), Some(n)) => {
            &&& n.blocks() + blocks(b.fat.free_list()) == o.blocks() + blocks(a.fat.free_list())
            &&& inside(n.runs@, o.runs@ + a.fat.free_list())
            &&& inside(b.fat.free_list(), o.runs@ + a.fat.free_list())
            &&& others_kept(a.fat, b.fat, o.runs@ + a.fat.free_list())
        },
    }
}

/// What the blocks of a file have to be for a size.
pub open spec fn blocks_fit(a: Volume, b: Volume, fa: File, fb: File, d: Seq<u8>) -> bool {
    match fb.data {
        None => {
            &&& fb.len == 0
            &&& entry_block(d) == NO_BLOCK
            &&& b.chains@ == a.chains@.remove(fa.ino())
        },
        Some(n) => {
            &&& fb.len > 0
            &&& n.wf(b.fat)
            &&& n.runs@.len() > 0
            &&& n.runs@[0].start == entry_block(d)
            &&& n.block_list@.len() == counted(fb.len as int, a.block_len())
            &&& b.chains@ == a.chains@.insert(fa.ino(), n.runs@)
        },
    }
}

/// What a file that is resized touches in the table.
pub open spec fn touched_by(a: Volume, data: Option<FatFile>) -> Seq<Span> {
    match data {
        None => a.fat.free_list(),
        Some(o) => o.runs@ + a.fat.free_list(),
    }
}

proof fn lemma_resized_step(a: Volume, b: Volume, fa: File, fb: File, d: Seq<u8>)
    requires
        a.sound(),
        fa.wf(a),
        b.inv(),
        fs_sound(b.fs),
        fat_sound(b.fat),
        b.data == a.data,
        b.block_len() == a.block_len(),
        b.tree() == with_data(a.tree(), fa.ino(), d),
        fb.len == entry_size(d),
        blocks_changed(a, b, fa.data, fb.data, fb.len as int),
        blocks_fit(a, b, fa, fb, d),
    ensures
        b.sound(),
        others_same(a, b, fa.ino()),
{
    let f = fa.ino();
    let touched = touched_by(a, fa.data);
    assert(a.file_ok(f));
    assert(b.tree().files[f].data == d);
    if fb.data is None {
        lemma_inside_self(touched);
    } else {
        let n = fb.data->0;
        lemma_counted(fb.len as int, a.block_len());
        assert(chain(b.fat.table, n.runs@));
        assert(n.runs@[0].start < INDEX_END) by {
            reveal(fat_sound);
            assert(n.runs@[0].start + n.runs@[0].size <= block_count(b.fat.table));
        }
        assert(b.list(f) == n.block_list@);
        assert(b.file_ok(f));
    }
    assert forall|g: int| g != f && #[trigger] a.chains@.contains_key(g) implies lists_apart(
        touched,
        a.chains@[g],
    ) by {
        lemma_touched_apart(a, f, g);
    }
    lemma_step(a, b, f, touched);
}

proof fn lemma_resized_content(a: Volume, b: Volume, fa: File, fb: File)
    requires
        a.inv(),
        fa.wf(a),
        fb.wf(b),
        fb.meta == fa.meta,
        b.data == a.data,
        b.block_len() == a.block_len(),
        blocks_changed(a, b, fa.data, fb.data, fb.len as int),
        fa.data is Some ==> a.file_ok(fa.ino()),
        fb.data is Some ==> b.file_ok(fa.ino()),
        fa.data is None ==> a.size(fa.ino()) == 0,
        fb.data is None ==> fb.len == 0,
    ensures
        ({
            let f = fa.ino();
            let m = lesser(fb.len as int, a.size(f));
            &&& b.content(f).len() == fb.len
            &&& b.content(f).take(m) == a.content(f).take(m)
        }),
{
    let f = fa.ino();
    let bl = a.block_len();
    let m = lesser(fb.len as int, a.size(f));
    if fb.data is Some && fa.data is Some {
        let n = fb.data->0;
        let o = fa.data->0;
        assert forall|k: int| 0 <= k < b.list(f).len() && k < a.list(f).len() implies (
        #[trigger] b.list(f)[k]).block_index == a.list(f)[k].block_index by {
            let x = n.blocks() + blocks(b.fat.free_list());
            let y = o.blocks() + blocks(a.fat.free_list());
            assert(x[k] == n.blocks()[k]);
            assert(y[k] == o.blocks()[k]);
        }
        lemma_same_start(a.data.bytes(), bl, b.list(f), a.list(f), m);
        let xb = file_bytes(b.data.bytes(), 0, bl, b.list(f));
        let xa = file_bytes(a.data.bytes(), 0, bl, a.list(f));
        assert(b.content(f).take(m) =~= xb.take(m));
        assert(a.content(f).take(m) =~= xa.take(m));
    } else {
        assert(m == 0);
        assert(b.content(f).take(m) =~= a.content(f).take(m));
    }
}

proof fn lemma_resized_count(a: Volume, b: Volume, fa: File, fb: File)
    requires
        fat_sound(a.fat),
        fat_sound(b.fat),
        blocks_changed(a, b, fa.data, fb.data, fb.len as int),
        fa.data matches Some(o) ==> o.block_list@ == maps(o.runs@),
    ensures
        b.fat.free_count() == a.fat.free_count() + (match fa.data {
            None => 0,
            Some(o) => o.block_list@.len() as int,
        }) - (match fb.data {
            None => 0,
            Some(n) => n.block_list@.len() as int,
        }),
{
    reveal(fat_sound);
    assert(blocks(b.fat.free_list()).len() == maps(b.fat.free_list()).len());
    assert(blocks(a.fat.free_list()).len() == maps(a.fat.free_list()).len());
    let x = blocks(b.fat.free_list());
    let y = blocks(a.fat.free_list());
    match (fa.data, fb.data) {
        (None, None) => {},
        (None, Some(n)) => {
            assert((n.blocks() + x).len() == n.block_list@.len() + x.len());
        },
        (Some(o), None) => {
            lemma_maps_concat(o.runs@, a.fat.free_list());
        },
        (Some(o), Some(n)) => {
            assert((n.blocks() + x).len() == n.block_list@.len() + x.len());
            assert((o.blocks() + y).len() == o.block_list@.len() + y.len());
        },
    }
}

proof fn lemma_resized(a: Volume, b: Volume, fa: File, fb: File, d: Seq<u8>)
    requires
        a.sound(),
        fa.wf(a),
        b.inv(),
        fs_sound(b.fs),
        fat_sound(b.fat),
        b.data == a.data,
        b.block_len() == a.block_len(),
        b.tree() == with_data(a.tree(), fa.ino(), d),
        fb.meta == fa.meta,
        fb.inv(),
        fb.len == entry_size(d),
        blocks_changed(a, b, fa.data, fb.data, fb.len as int),
        blocks_fit(a, b, fa, fb, d),
        b.fs.files.room() == a.fs.files.room(),
    ensures
        b.sound(),
        fb.wf(b),
        file_resized(a, b, fa.ino(), fb.len as int),
{
    let f = fa.ino();
    assert(a.file_ok(f));
    lemma_counted(0, a.block_len());
    lemma_resized_step(a, b, fa, fb, d);
    assert(b.tree().files[f].data == d);
    assert(b.tree().files.contains_key(f));
    assert(b.file_ok(f));
    assert(fb.wf(b));
    lemma_resized_content(a, b, fa, fb);
    lemma_resized_count(a, b, fa, fb);
}

impl File {
    /// Resizes the file. There must be no other handle.
    pub fn resize(&mut self, vol: &mut Volume, len: usize) -> (r: Result<(), Error>)
        requires
            old(vol).inv(),
            old(self).inv(),
        ensures
            final(vol).inv(),
            fixed(*old(vol), *final(vol)),
            final(self).inv(),
            final(self).meta == old(self).meta,
            len == old(self).len ==> r == Ok::<(), Error>(()) && *final(vol) == *old(vol)
                && *final(self) == *old(self),
            len != old(self).len && old(vol).fs.files.handles(old(self).meta.ticket.index) != 1
                ==> r == Err::<(), Error>(Error::Busy) && *final(vol) == *old(vol) && *final(self)
                == *old(self),
            len != old(self).len && old(vol).fs.files.handles(old(self).meta.ticket.index) == 1
                && old(vol).sound() && old(self).wf(*old(vol)) ==> if old(vol).fat.free_count()
                < counted(len as int, old(vol).block_len()) - old(vol).block_total(
                old(self).ino(),
            ) {
                &&& r == Err::<(), Error>(Error::NoSpace)
                &&& same_volume(*old(vol), *final(vol))
                &&& final(vol).sound()
                &&& *final(self) == *old(self)
            } else {
                &&& r == Ok::<(), Error>(())
                &&& final(vol).sound()
                &&& final(self).wf(*final(vol))
                &&& final(self).len == len
                &&& file_resized(*old(vol), *final(vol), old(self).ino(), len as int)
            },
    {
        proof {
            reveal(fs_sound);
            reveal(fat_sound);
        }
        if len == self.len {
            return Ok(());
        }
        if let Err(e) = self.meta.check_exclusive(&vol.fs) {
            return make_error(e);
        }
        let ghost a = *vol;
        let ghost fa = *self;
        let ghost f = self.ino();
        let ghost good = a.sound() && fa.wf(a);
        let info = match self.meta.get_info(&mut vol.fs) {
            Ok(info) => info,
            Err(e) => {
                proof {
                    lemma_alike(a, *vol);
                }
                return make_error(e);
            },
        };
        let ghost m = *vol;
        proof {
            lemma_alike(a, *vol);
            lemma_entry(info@);
            if good {
                assert(m.file_ok(f));
                assert(fa.data is Some ==> m.chain_ok(f));
            }
            lemma_counted(len as int, m.block_len());
        }
        let block_len: usize = vol.fat.block_len;
        let count: usize = divide_up(len, block_len);
        let block: u32;
        if self.len == 0 {
            match FatFile::create(&mut vol.fat, count) {
                Ok((file, first)) => {
                    self.data = Some(file);
                    block = first as u32;
                },
                Err(e) => {
                    return make_error(e);
                },
            }
        } else if len == 0 {
            if let Some(d) = self.data.take() {
                self.len = 0;
                if let Err(e) = d.delete(&mut vol.fat) {
                    return make_error(e);
                }
            }
            block = NO_BLOCK;
        } else {
            let mut d = self.data.take().unwrap();
            let done = d.resize(&mut vol.fat, count);
            self.data = Some(d);
            if let Err(e) = done {
                return make_error(e);
            }
            block = read_le(&info, 8, 4) as u32;
        }
        let ghost w = *vol;
        let entry = set_entry(&info, block, len as u64);
        proof {
            assert(le32(entry@, 0) == le32(info@, 0)) by {
                assert(entry@.subrange(0, 4) =~= entry@.subrange(0, 8).subrange(0, 4));
                assert(info@.subrange(0, 4) =~= info@.subrange(0, 8).subrange(0, 4));
            }
        }
        let put = self.meta.set_info(&mut vol.fs, &entry);
        self.len = if self.data.is_some() {
            len
        } else {
            0
        };
        proof {
            if self.data is Some {
                vol.chains@ = vol.chains@.insert(f, self.data->0.runs@);
            } else {
                vol.chains@ = vol.chains@.remove(f);
            }
            if good {
                lemma_first_start(fa, *self, a, *vol);
                lemma_resized(a, *vol, fa, *self, entry@.skip(4));
            }
        }
        put
    }
}

/// A file that is resized keeps its first block.
proof fn lemma_first_start(fa: File, fb: File, a: Volume, b: Volume)
    requires
        fa.data matches Some(o) ==> o.runs@.len() > 0 && o.block_list@ == maps(o.runs@) && chain(
            a.fat.table,
            o.runs@,
        ),
        fb.data matches Some(n) ==> n.inv() && n.block_list@ == maps(n.runs@) && chain(
            b.fat.table,
            n.runs@,
        ),
        fa.data matches Some(o) ==> (fb.data matches Some(n) ==> n.blocks() + blocks(
            b.fat.free_list(),
        ) == o.blocks() + blocks(a.fat.free_list())),
    ensures
        fb.data matches Some(n) ==> n.runs@.len() > 0,
        fa.data matches Some(o) ==> (fb.data matches Some(n) ==> n.runs@[0].start
            == o.runs@[0].start),
{
    if fb.data is Some {
        let n = fb.data->0;
        if n.runs@.len() == 0 {
            assert(maps(n.runs@).len() == 0);
        }
        if fa.data is Some {
            let o = fa.data->0;
            lemma_first_block(n.runs@);
            lemma_first_block(o.runs@);
            let x = n.blocks() + blocks(b.fat.free_list());
            let y = o.blocks() + blocks(a.fat.free_list());
            assert(x[0] == n.blocks()[0]);
            assert(y[0] == o.blocks()[0]);
        }
    }
}

} // verus!
