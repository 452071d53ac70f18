use crate::error::{make_error, Error};
use crate::fat::FatFile;
use crate::fs_meta::DirMeta;
use crate::misc::divide_up;
use crate::random_access_file::{Content, RandomAccessFile};
use crate::volume::{set_entry, File, Volume, NO_BLOCK};
use vstd::prelude::*;

verus! {

use crate::fat::{others_kept, place};
use crate::fat_list::{
    block_count, blocks, chain, inside, lemma_apart_concat, lemma_apart_symmetric,
    lemma_inside_apart, lemma_inside_self, lemma_kept_off_same, lemma_maps_concat, lists_apart,
    maps,
};
use crate::fat_table::INDEX_END;
use crate::fs_meta::{has_dir, has_file, lists};
use crate::fs_tree::{
    dir_dropped, dir_fresh, dir_hooked, dir_unhooked, with_file, without_file, Tree,
};
use crate::misc::{counted, lemma_counted};
use crate::random_access_file::same_file;
use crate::volume::{
    dir_closed, dir_opened, entry_block, file_opened, fixed, entry_size, fat_sound, fs_sound, lemma_alike,
    lemma_chain_survives, kept_sound, lemma_step, lemma_touched_apart, others_same, same_handles,
    opened_as, same_volume,
};

/// Whether the name is in use in directory `p`.
pub open spec fn taken(v: Volume, p: int, name: Seq<u8>) -> bool {
    ||| has_file(v.tree(), p, name)
    ||| v.fs.dirs.key_len == 4 + name.len() && has_dir(v.tree(), p, name)
}

/// A file of the tree is in a directory under a name.
pub open spec fn file_is(t: Tree, f: int, p: int, name: Seq<u8>) -> bool {
    t.files.contains_key(f) && t.files[f].parent == p && t.files[f].name == name
}

/// There is room for one more handle on everything.
pub open spec fn few_handles(v: Volume) -> bool {
    &&& forall|i: u32| #[trigger] v.fs.files.handles(i) < u32::MAX
    &&& forall|i: u32| #[trigger] v.fs.dirs.handles(i) < u32::MAX
}

/// A directory of a volume, opened.
pub struct Dir {
    pub meta: DirMeta,
}

/// Finds out whether a name is in use.
pub fn name_taken(vol: &mut Volume, dir: &DirMeta, name: &[u8]) -> (r: bool)
    requires
        old(vol).inv(),
        4 + name@.len() == old(vol).fs.files.key_len,
    ensures
        final(vol).inv(),
        same_volume(*old(vol), *final(vol)),
        few_handles(*old(vol)) ==> same_handles(*old(vol), *final(vol)),
        old(vol).framed() ==> kept_sound(*old(vol), *final(vol)),
        old(vol).framed() ==> r == taken(*old(vol), dir.ino(), name@),
        final(vol).data == old(vol).data,
        final(vol).fat == old(vol).fat,
{
    let ghost a = *vol;
    proof {
        reveal(fs_sound);
    }
    let found = dir.open_sub_file(&mut vol.fs, name);
    let ghost b = *vol;
    proof {
        lemma_alike(a, b);
    }
    if let Ok(f) = found {
        f.close(&mut vol.fs);
        proof {
            lemma_alike(a, *vol);
        }
        return true;
    }
    if vol.fs.dirs.key_len == vol.fs.files.key_len {
        let found = dir.open_sub_dir(&mut vol.fs, name);
        let ghost c = *vol;
        proof {
            lemma_alike(b, c);
        }
        if let Ok(d) = found {
            d.close(&mut vol.fs);
            proof {
                lemma_alike(b, *vol);
            }
            return true;
        }
    }
    false
}

/// The tree has changed, but no file in it.
proof fn lemma_tree_changed(a: Volume, b: Volume)
    requires
        a.framed(),
        b.inv(),
        fs_sound(b.fs),
        b.fat == a.fat,
        b.data == a.data,
        b.chains == a.chains,
        forall|g: int| #[trigger]
            b.tree().files.contains_key(g) == a.tree().files.contains_key(g),
        forall|g: int| #[trigger]
            b.tree().files.contains_key(g) ==> b.tree().files[g].data == a.tree().files[g].data,
    ensures
        kept_sound(a, b),
        forall|g: int| a.tree().files.contains_key(g) ==> #[trigger] b.content(g) == a.content(g),
{
    if a.sound() {
        assert forall|g: int| #[trigger] b.tree().files.contains_key(g) implies g >= 0 && b.file_ok(
            g,
        ) by {
            assert(a.tree().files.contains_key(g));
            assert(a.file_ok(g));
        }
    }
    assert forall|g: int| #[trigger] b.chains@.contains_key(g) implies b.chain_ok(g) by {
        assert(a.chains@.contains_key(g));
        assert(a.chain_ok(g));
        assert(b.tree().files.contains_key(g) == a.tree().files.contains_key(g));
    }
    assert forall|g: int| a.tree().files.contains_key(g) implies #[trigger] b.content(g)
        == a.content(g) by {
        assert(b.tree().files.contains_key(g) == a.tree().files.contains_key(g));
    }
}

/// What is kept when the tree changes and no file in it does.
pub open spec fn files_kept(a: Volume, b: Volume) -> bool {
    &&& b.fat == a.fat
    &&& b.chains == a.chains
    &&& same_file(a.data, b.data)
    &&& b.fs.files.room() == a.fs.files.room()
    &&& forall|g: int| a.tree().files.contains_key(g) ==> #[trigger] b.content(g) == a.content(g)
}

impl File {
    /// Moves the file to another directory and gives it another name.
    #[verifier::rlimit(60)]
    pub fn rename(&mut self, vol: &mut Volume, parent: &Dir, name: &[u8]) -> (r: Result<(), Error>)
        requires
            old(vol).inv(),
            old(self).inv(),
            4 + name@.len() == old(vol).fs.files.key_len,
        ensures
            final(vol).inv(),
            fixed(*old(vol), *final(vol)),
            final(self).data == old(self).data,
            final(self).len == old(self).len,
            old(vol).sound() && taken(*old(vol), parent.ino(), name@) ==> r == Err::<(), Error>(
                Error::AlreadyExist,
            ) && same_volume(*old(vol), *final(vol)) && final(vol).sound() && *final(self) == *old(self),
            old(vol).sound() && !taken(*old(vol), parent.ino(), name@) && old(self).wf(*old(vol))
                && old(vol).tree().dirs.contains_key(parent.ino()) ==> {
                &&& r == Ok::<(), Error>(())
                &&& final(vol).sound()
                &&& final(self).ino() == old(self).ino()
                &&& final(self).wf(*final(vol))
                &&& final(vol).tree() == with_file(
                    without_file(old(vol).tree(), old(self).ino()),
                    old(self).ino(),
                    parent.ino(),
                    name@,
                    old(vol).tree().files[old(self).ino()].data,
                )
                &&& files_kept(*old(vol), *final(vol))
            },
    {
        proof {
            reveal(fs_sound);
        }
        let ghost a = *vol;
        if name_taken(vol, &parent.meta, name) {
            return make_error(Error::AlreadyExist);
        }
        let ghost b = *vol;
        let r = self.meta.rename(&mut vol.fs, &parent.meta, name);
        proof {
            if a.sound() && old(self).wf(a) && !taken(a, parent.ino(), name@)
                && a.tree().dirs.contains_key(parent.ino()) {
                lemma_tree_changed(b, *vol);
            }
        }
        r
    }
}

impl Dir {
    pub open spec fn ino(&self) -> int {
        self.meta.ino()
    }

    /// Closes the directory.
    pub fn close(self, vol: &mut Volume)
        requires
            old(vol).inv(),
        ensures
            final(vol).inv(),
            same_volume(*old(vol), *final(vol)),
            old(vol).framed() ==> kept_sound(*old(vol), *final(vol)),
            dir_closed(*old(vol), *final(vol), self.meta.ticket.index),
    {
        let ghost a = *vol;
        self.meta.close(&mut vol.fs);
        proof {
            lemma_alike(a, *vol);
        }
    }

    /// Moves the directory to another one and gives it another name.
    #[verifier::rlimit(60)]
    pub fn rename(&mut self, vol: &mut Volume, parent: &Dir, name: &[u8]) -> (r: Result<(), Error>)
        requires
            old(vol).inv(),
            4 + name@.len() == old(vol).fs.files.key_len,
            4 + name@.len() == old(vol).fs.dirs.key_len,
        ensures
            final(vol).inv(),
            fixed(*old(vol), *final(vol)),
            old(vol).framed() && taken(*old(vol), parent.ino(), name@) ==> r == Err::<(), Error>(
                Error::AlreadyExist,
            ) && same_volume(*old(vol), *final(vol)) && kept_sound(*old(vol), *final(vol)) && *final(self) == *old(self),
            old(vol).framed() && !taken(*old(vol), parent.ino(), name@) && old(vol).tree().dirs.contains_key(
                old(self).ino(),
            ) && old(self).ino() != 1 && old(vol).tree().dirs.contains_key(parent.ino())
                && parent.ino() != old(self).ino() ==> {
                &&& r == Ok::<(), Error>(())
                &&& kept_sound(*old(vol), *final(vol))
                &&& final(self).ino() == old(self).ino()
                &&& final(vol).tree() == dir_hooked(
                    dir_unhooked(old(vol).tree(), old(self).ino()),
                    old(self).ino(),
                    parent.ino(),
                    name@,
                )
                &&& files_kept(*old(vol), *final(vol))
            },
    {
        proof {
            reveal(fs_sound);
        }
        let ghost a = *vol;
        if name_taken(vol, &parent.meta, name) {
            return make_error(Error::AlreadyExist);
        }
        let ghost b = *vol;
        let r = self.meta.rename(&mut vol.fs, &parent.meta, name);
        proof {
            if a.framed() && !taken(a, parent.ino(), name@) && a.tree().dirs.contains_key(
                old(self).ino(),
            ) && old(self).ino() != 1 && a.tree().dirs.contains_key(parent.ino()) && parent.ino()
                != old(self).ino() {
                lemma_tree_changed(b, *vol);
            }
        }
        r
    }

    /// The number of the directory that the directory is in.
    pub fn get_parent_ino(&self, vol: &mut Volume) -> (r: Result<u32, Error>)
        requires
            old(vol).inv(),
        ensures
            final(vol).inv(),
            same_volume(*old(vol), *final(vol)),
            same_handles(*old(vol), *final(vol)),
            old(vol).framed() ==> kept_sound(*old(vol), *final(vol)),
            old(vol).framed() && old(vol).tree().dirs.contains_key(self.ino()) ==> (r matches Ok(p)
                && p == old(vol).tree().dirs[self.ino()].parent),
    {
        proof {
            reveal(fs_sound);
        }
        let ghost a = *vol;
        let r = self.meta.get_parent_ino(&mut vol.fs);
        proof {
            lemma_alike(a, *vol);
        }
        r
    }

    /// The number of the directory.
    pub fn get_ino(&self) -> (ino: u32)
        ensures
            ino == self.ino(),
    {
        self.meta.get_ino()
    }

    /// Opens a directory in this one.
    pub fn open_sub_dir(&self, vol: &mut Volume, name: &[u8]) -> (r: Result<Dir, Error>)
        requires
            old(vol).inv(),
            4 + name@.len() == old(vol).fs.dirs.key_len,
        ensures
            final(vol).inv(),
            same_volume(*old(vol), *final(vol)),
            r matches Ok(d) ==> dir_opened(*old(vol), *final(vol), d.meta.ticket.index),
            r is Err ==> same_handles(*old(vol), *final(vol)),
            old(vol).framed() ==> kept_sound(*old(vol), *final(vol)) && match r {
                Ok(d) => {
                    &&& old(vol).tree().dirs.contains_key(d.ino())
                    &&& old(vol).tree().dirs[d.ino()].parent == self.ino()
                    &&& old(vol).tree().dirs[d.ino()].name == name@
                },
                Err(e) => e == Error::NotFound && !has_dir(old(vol).tree(), self.ino(), name@),
            },
    {
        proof {
            reveal(fs_sound);
        }
        let ghost a = *vol;
        let found = self.meta.open_sub_dir(&mut vol.fs, name);
        proof {
            lemma_alike(a, *vol);
        }
        match found {
            Ok(meta) => Ok(Dir { meta }),
            Err(e) => Err(e),
        }
    }

    /// Opens a file in this directory.
    pub fn open_sub_file(&self, vol: &mut Volume, name: &[u8]) -> (r: Result<File, Error>)
        requires
            old(vol).inv(),
            4 + name@.len() == old(vol).fs.files.key_len,
        ensures
            final(vol).inv(),
            same_volume(*old(vol), *final(vol)),
            r matches Ok(f) ==> file_opened(*old(vol), *final(vol), f.meta.ticket.index),
            r is Err && (few_handles(*old(vol)) || old(vol).sound()) ==> same_handles(
                *old(vol),
                *final(vol),
            ),
            r matches Ok(f) ==> f.inv(),
            old(vol).framed() ==> final(vol).framed() && if has_file(
                old(vol).tree(),
                self.ino(),
                name@,
            ) {
                exists|f: int| #[trigger]
                    file_is(old(vol).tree(), f, self.ino(), name@) && opened_as(*old(vol), f, r) && (
                    r matches Ok(o) ==> o.ino() == f)
            } else {
                r == Err::<File, Error>(Error::NotFound)
            },
            old(vol).sound() ==> final(vol).sound() && match r {
                Ok(f) => {
                    &&& f.wf(*final(vol))
                    &&& old(vol).tree().files[f.ino()].parent == self.ino()
                    &&& old(vol).tree().files[f.ino()].name == name@
                },
                Err(e) => e == Error::NotFound && !has_file(old(vol).tree(), self.ino(), name@),
            },
    {
        proof {
            reveal(fs_sound);
        }
        let ghost a = *vol;
        let found = self.meta.open_sub_file(&mut vol.fs, name);
        proof {
            lemma_alike(a, *vol);
        }
        match found {
            Ok(meta) => {
                assert(a.framed() ==> file_is(a.tree(), meta.ino(), self.ino(), name@));
                File::from_meta(vol, meta)
            },
            Err(e) => Err(e),
        }
    }

    /// Lists the directories in this one, the newest first.
    pub fn list_sub_dir(&self, vol: &mut Volume) -> (r: Result<Vec<(Vec<u8>, u32)>, Error>)
        requires
            old(vol).inv(),
        ensures
            final(vol).inv(),
            same_volume(*old(vol), *final(vol)),
            same_handles(*old(vol), *final(vol)),
            old(vol).framed() ==> kept_sound(*old(vol), *final(vol)),
            old(vol).framed() && old(vol).tree().dirs.contains_key(self.ino()) ==> (r matches Ok(v)
                && lists(v@, old(vol).tree().dirs, old(vol).tree().sub_dirs[self.ino()])),
    {
        proof {
            reveal(fs_sound);
        }
        let ghost a = *vol;
        let r = self.meta.list_sub_dir(&mut vol.fs);
        proof {
            lemma_alike(a, *vol);
        }
        r
    }

    /// Lists the files in this directory, the newest first.
    pub fn list_sub_file(&self, vol: &mut Volume) -> (r: Result<Vec<(Vec<u8>, u32)>, Error>)
        requires
            old(vol).inv(),
        ensures
            final(vol).inv(),
            same_volume(*old(vol), *final(vol)),
            same_handles(*old(vol), *final(vol)),
            old(vol).framed() ==> kept_sound(*old(vol), *final(vol)),
            old(vol).framed() && old(vol).tree().dirs.contains_key(self.ino()) ==> (r matches Ok(v)
                && lists(v@, old(vol).tree().files, old(vol).tree().sub_files[self.ino()])),
    {
        proof {
            reveal(fs_sound);
        }
        let ghost a = *vol;
        let r = self.meta.list_sub_file(&mut vol.fs);
        proof {
            lemma_alike(a, *vol);
        }
        r
    }

    /// Makes a directory in this one.
    pub fn new_sub_dir(&self, vol: &mut Volume, name: &[u8]) -> (r: Result<Dir, Error>)
        requires
            old(vol).inv(),
            4 + name@.len() == old(vol).fs.files.key_len,
            4 + name@.len() == old(vol).fs.dirs.key_len,
        ensures
            final(vol).inv(),
            fixed(*old(vol), *final(vol)),
            old(vol).framed() && old(vol).tree().dirs.contains_key(self.ino()) ==> if taken(
                *old(vol),
                self.ino(),
                name@,
            ) {
                &&& r == Err::<Dir, Error>(Error::AlreadyExist)
                &&& same_volume(*old(vol), *final(vol))
                &&& kept_sound(*old(vol), *final(vol))
            } else if old(vol).fs.dirs.room() == 0 {
                &&& r == Err::<Dir, Error>(Error::NoSpace)
                &&& same_volume(*old(vol), *final(vol))
                &&& kept_sound(*old(vol), *final(vol))
            } else {
                &&& r matches Ok(d)
                &&& kept_sound(*old(vol), *final(vol))
                &&& !old(vol).tree().dirs.contains_key(d.ino())
                &&& final(vol).tree() == dir_hooked(
                    dir_fresh(
                        old(vol).tree(),
                        d.ino(),
                        Seq::new((old(vol).fs.dirs.info_len - 12) as nat, |i: int| 0u8),
                    ),
                    d.ino(),
                    self.ino(),
                    name@,
                )
                &&& final(vol).fs.dirs.room() == old(vol).fs.dirs.room() - 1
                &&& files_kept(*old(vol), *final(vol))
            },
    {
        proof {
            reveal(fs_sound);
        }
        let ghost a = *vol;
        if name_taken(vol, &self.meta, name) {
            return make_error(Error::AlreadyExist);
        }
        let ghost b = *vol;
        let n: usize = vol.fs.dirs.info_len;
        let info: Vec<u8> = vec![0u8; n];
        assert(info@.skip(12) =~= Seq::new((n - 12) as nat, |i: int| 0u8));
        let made = self.meta.new_sub_dir(&mut vol.fs, name, &info);
        proof {
            if a.framed() && a.tree().dirs.contains_key(self.ino()) {
                if a.fs.dirs.room() == 0 {
                    lemma_alike(b, *vol);
                } else {
                    lemma_tree_changed(b, *vol);
                }
            }
        }
        match made {
            Ok(meta) => Ok(Dir { meta }),
            Err(e) => Err(e),
        }
    }

    /// Deletes the directory, which must be empty.
    pub fn delete(self, vol: &mut Volume) -> (r: Result<(), Error>)
        requires
            old(vol).inv(),
        ensures
            final(vol).inv(),
            fixed(*old(vol), *final(vol)),
            dir_closed(*old(vol), *final(vol), self.meta.ticket.index),
            old(vol).fs.dirs.handles(self.meta.ticket.index) != 1 ==> r == Err::<(), Error>(
                Error::Busy,
            ),
            old(vol).framed() && old(vol).tree().dirs.contains_key(self.ino()) && old(vol).fs.dirs.handles(
                self.meta.ticket.index,
            ) == 1 ==> {
                let t = old(vol).tree();
                if self.ino() == 1 {
                    r == Err::<(), Error>(Error::DeletingRoot)
                } else if t.sub_dirs[self.ino()].len() > 0 || t.sub_files[self.ino()].len() > 0 {
                    r == Err::<(), Error>(Error::NotEmpty)
                } else {
                    &&& r == Ok::<(), Error>(())
                    &&& final(vol).tree() == dir_dropped(
                        dir_unhooked(t, self.ino()),
                        self.ino(),
                    )
                    &&& final(vol).fs.dirs.room() == old(vol).fs.dirs.room() + 1
                }
            },
            old(vol).framed() && old(vol).tree().dirs.contains_key(self.ino()) ==> kept_sound(*old(vol), *final(vol))
                && files_kept(*old(vol), *final(vol)),
            old(vol).framed() && old(vol).tree().dirs.contains_key(self.ino()) && r is Err
                ==> same_volume(*old(vol), *final(vol)),
    {
        proof {
            reveal(fs_sound);
        }
        let ghost a = *vol;
        let r = self.meta.delete(&mut vol.fs);
        proof {
            if a.framed() && a.tree().dirs.contains_key(self.ino()) {
                if r is Err {
                    lemma_alike(a, *vol);
                } else {
                    lemma_tree_changed(a, *vol);
                }
            }
        }
        r
    }
}

/// Nothing has changed that can be seen: neither the files, nor the directories, nor what is free.
pub open spec fn as_before(a: Volume, b: Volume) -> bool {
    &&& b.tree() == a.tree()
    &&& b.fat.free_count() == a.fat.free_count()
    &&& b.fs.files.room() == a.fs.files.room()
    &&& b.fs.dirs.room() == a.fs.dirs.room()
    &&& forall|g: int| #[trigger] b.content(g) == a.content(g)
    &&& forall|g: int, x: int, y: int| #[trigger]
        b.content_readable(g, x, y) == a.content_readable(g, x, y)
}

/// What making a file makes of a volume.
pub open spec fn file_made(
    a: Volume,
    b: Volume,
    f: int,
    p: int,
    name: Seq<u8>,
    len: int,
) -> bool {
    &&& !a.tree().files.contains_key(f)
    &&& b.tree() == with_file(a.tree(), f, p, name, b.tree().files[f].data)
    &&& b.size(f) == len
    &&& others_same(a, b, f)
    &&& b.fat.free_count() == a.fat.free_count() - counted(len, a.block_len())
    &&& b.fs.files.room() == a.fs.files.room() - 1
    &&& b.fs.dirs.room() == a.fs.dirs.room()
}

/// The entry for a new file.
fn new_entry(info_len: usize, block: u32, len: usize) -> (r: Vec<u8>)
    requires
        info_len >= 20,
    ensures
        r@.len() == info_len,
        entry_block(r@.skip(4)) == block,
        entry_size(r@.skip(4)) == len,
{
    let blank: Vec<u8> = vec![0u8; info_len];
    set_entry(&blank, block, len as u64)
}

/// What holds of a volume between the reservation of blocks for a new file and its entry.
pub open spec fn reserved(a: Volume, b: Volume, file: Option<FatFile>, len: int) -> bool {
    &&& b.fs == a.fs
    &&& b.data == a.data
    &&& b.chains == a.chains
    &&& match file {
        None => b.fat == a.fat && len == 0,
        Some(n) => {
            &&& fat_sound(b.fat)
            &&& n.wf(b.fat)
            &&& n.runs@.len() > 0
            &&& n.block_list@.len() == counted(len, a.block_len())
            &&& n.blocks() + blocks(b.fat.free_list()) == blocks(a.fat.free_list())
            &&& inside(n.runs@, a.fat.free_list())
            &&& inside(b.fat.free_list(), a.fat.free_list())
            &&& others_kept(a.fat, b.fat, a.fat.free_list())
            &&& len > 0
        },
    }
}

proof fn lemma_made(
    a: Volume,
    m: Volume,
    b: Volume,
    file: Option<FatFile>,
    f: int,
    p: int,
    name: Seq<u8>,
    d: Seq<u8>,
    len: int,
)
    requires
        a.sound(),
        reserved(a, m, file, len),
        b.inv(),
        fs_sound(b.fs),
        b.fat == m.fat,
        b.data == m.data,
        0 <= f,
        0 <= len <= usize::MAX,
        !a.tree().files.contains_key(f),
        b.tree() == with_file(a.tree(), f, p, name, d),
        entry_size(d) == len,
        match file {
            None => entry_block(d) == NO_BLOCK && b.chains == a.chains,
            Some(n) => entry_block(d) == n.runs@[0].start && b.chains@ == a.chains@.insert(
                f,
                n.runs@,
            ),
        },
        b.fs.files.room() == a.fs.files.room() - 1,
        b.fs.dirs.room() == a.fs.dirs.room(),
    ensures
        b.sound(),
        file_made(a, b, f, p, name, len),
{
    let touched = a.fat.free_list();
    assert(!a.chains@.contains_key(f)) by {
        if a.chains@.contains_key(f) {
            assert(a.chain_ok(f));
        }
    }
    assert(b.tree().files[f].data == d);
    lemma_counted(len, a.block_len());
    match file {
        None => {
            lemma_inside_self(touched);
            lemma_kept_off_same(a.fat.table, b.fat.table, touched);
        },
        Some(n) => {
            assert(n.runs@[0].start < INDEX_END) by {
                reveal(fat_sound);
                assert(chain(b.fat.table, n.runs@));
                assert(n.runs@[0].start + n.runs@[0].size <= block_count(b.fat.table));
            }
            assert(b.list(f) == n.block_list@);
            assert(b.file_ok(f));
            reveal(fat_sound);
            let x = blocks(b.fat.free_list());
            assert((n.blocks() + x).len() == n.block_list@.len() + x.len());
            assert(blocks(b.fat.free_list()).len() == maps(b.fat.free_list()).len());
            assert(blocks(a.fat.free_list()).len() == maps(a.fat.free_list()).len());
        },
    }
    assert forall|g: int| g != f && #[trigger] a.chains@.contains_key(g) implies lists_apart(
        touched,
        a.chains@[g],
    ) by {
        lemma_touched_apart(a, f, g);
    }
    lemma_step(a, b, f, touched);
}

/// The volume is sound again when the blocks that were reserved are given back.
proof fn lemma_given_back(a: Volume, m: Volume, b: Volume, file: FatFile, len: int)
    requires
        a.sound(),
        reserved(a, m, Some(file), len),
        b.inv(),
        fs_sound(b.fs),
        b.tree() == a.tree(),
        b.data == a.data,
        b.chains == a.chains,
        fat_sound(b.fat),
        b.fat.free_list() == file.runs@ + m.fat.free_list(),
        others_kept(m.fat, b.fat, file.runs@ + m.fat.free_list()),
    ensures
        b.sound(),
        b.fat.free_count() == a.fat.free_count(),
        blocks(b.fat.free_list()) == blocks(a.fat.free_list()),
        forall|g: int| #[trigger] b.content(g) == a.content(g),
{
    lemma_maps_concat(file.runs@, m.fat.free_list());
    assert(blocks(b.fat.free_list()) =~= file.blocks() + blocks(m.fat.free_list()));
    assert(b.fat.free_count() == a.fat.free_count()) by {
        reveal(fat_sound);
        assert(blocks(b.fat.free_list()).len() == maps(b.fat.free_list()).len());
        assert(blocks(a.fat.free_list()).len() == maps(a.fat.free_list()).len());
    }
    let touched = file.runs@ + m.fat.free_list();
    lemma_inside_self(touched);
    assert forall|g: int| #[trigger] b.chains@.contains_key(g) implies b.chain_ok(g) by {
        assert(a.chain_ok(g));
        lemma_apart_symmetric(a.chains@[g], a.fat.free_list());
        lemma_chain_survives(a.fat, m.fat, a.fat.free_list(), a.chains@[g]);
        lemma_inside_apart(file.runs@, a.fat.free_list(), a.chains@[g]);
        lemma_inside_apart(m.fat.free_list(), a.fat.free_list(), a.chains@[g]);
        lemma_apart_concat(file.runs@, m.fat.free_list(), a.chains@[g]);
        lemma_chain_survives(m.fat, b.fat, touched, a.chains@[g]);
    }
    assert forall|g: int| #[trigger] b.tree().files.contains_key(g) implies g >= 0 && b.file_ok(
        g,
    ) by {
        assert(a.tree().files.contains_key(g));
        assert(a.file_ok(g));
    }
}

impl Dir {
    /// Makes a file in this directory.
    #[verifier::rlimit(60)]
    pub fn new_sub_file(&self, vol: &mut Volume, name: &[u8], len: usize) -> (r: Result<File, Error>)
        requires
            old(vol).inv(),
            4 + name@.len() == old(vol).fs.files.key_len,
        ensures
            final(vol).inv(),
            fixed(*old(vol), *final(vol)),
            r matches Ok(f) ==> f.inv(),
            old(vol).sound() && old(vol).tree().dirs.contains_key(self.ino()) ==> if taken(
                *old(vol),
                self.ino(),
                name@,
            ) {
                &&& r == Err::<File, Error>(Error::AlreadyExist)
                &&& same_volume(*old(vol), *final(vol))
                &&& final(vol).sound()
            } else if old(vol).fat.free_count() < counted(len as int, old(vol).block_len())
                || old(vol).fs.files.room() == 0 {
                &&& r == Err::<File, Error>(Error::NoSpace)
                &&& final(vol).sound()
                &&& final(vol).tree() == old(vol).tree()
                &&& final(vol).chains == old(vol).chains
                &&& final(vol).fat.free_count() == old(vol).fat.free_count()
                &&& final(vol).fs.files.room() == old(vol).fs.files.room()
                &&& final(vol).fs.dirs.room() == old(vol).fs.dirs.room()
                &&& forall|g: int| #[trigger] final(vol).content(g) == old(vol).content(g)
                &&& forall|g: int, x: int, y: int| #[trigger]
                    final(vol).content_readable(g, x, y) == old(vol).content_readable(g, x, y)
            } else {
                &&& r matches Ok(f)
                &&& final(vol).sound()
                &&& f.wf(*final(vol))
                &&& f.len == len
                &&& file_made(
                    *old(vol),
                    *final(vol),
                    f.ino(),
                    self.ino(),
                    name@,
                    len as int,
                )
            },
    {
        proof {
            reveal(fs_sound);
        }
        let ghost a = *vol;
        if name_taken(vol, &self.meta, name) {
            return make_error(Error::AlreadyExist);
        }
        let ghost good = a.sound() && a.tree().dirs.contains_key(self.ino());
        let ghost b = *vol;
        proof {
            reveal(fat_sound);
            lemma_counted(len as int, b.block_len());
        }
        let mut file: Option<FatFile> = None;
        let mut block: u32 = NO_BLOCK;
        if len > 0 {
            let block_len: usize = vol.fat.block_len;
            match FatFile::create(&mut vol.fat, divide_up(len, block_len)) {
                Ok((f, first)) => {
                    file = Some(f);
                    block = first as u32;
                },
                Err(e) => {
                    return make_error(e);
                },
            }
        }
        let ghost m = *vol;
        let ghost gfile = file;
        proof {
            if good {
                if len > 0 {
                    lemma_first(file->0, m);
                }
                assert(reserved(b, m, file, len as int));
            }
        }
        let info = new_entry(vol.fs.files.info_len, block, len);
        let made = self.meta.new_sub_file(&mut vol.fs, name, &info);
        match made {
            Ok(meta) => {
                proof {
                    if file is Some {
                        vol.chains@ = vol.chains@.insert(meta.ino(), file->0.runs@);
                    }
                    if good {
                        lemma_made(
                            b,
                            m,
                            *vol,
                            file,
                            meta.ino(),
                            self.ino(),
                            name@,
                            info@.skip(4),
                            len as int,
                        );
                        lemma_made_after(a, b, *vol, meta.ino(), self.ino(), name@, len as int);
                    }
                }
                let ghost c = *vol;
                let opened = File::from_meta(vol, meta);
                proof {
                    if good {
                        lemma_made_before(a, c, *vol, meta.ino(), self.ino(), name@, len as int);
                    }
                }
                opened
            },
            Err(e) => {
                let ghost x = *vol;
                if let Some(f) = file {
                    if let Err(e) = f.delete(&mut vol.fat) {
                        return make_error(e);
                    }
                    proof {
                        if good {
                            lemma_given_back(b, m, *vol, gfile->0, len as int);
                        }
                    }
                } else {
                    proof {
                        if good {
                            lemma_alike(b, *vol);
                        }
                    }
                }
                Err(e)
            },
        }
    }
}

/// A file that was made starts at its first block.
proof fn lemma_first(n: FatFile, m: Volume)
    requires
        n.wf(m.fat),
    ensures
        n.runs@.len() > 0,
{
    if n.runs@.len() == 0 {
        assert(maps(n.runs@).len() == 0);
    }
}

proof fn lemma_made_after(a: Volume, b: Volume, c: Volume, f: int, p: int, name: Seq<u8>, len: int)
    requires
        same_volume(a, b),
        file_made(b, c, f, p, name, len),
    ensures
        file_made(a, c, f, p, name, len),
{
    assert forall|g: int| g != f implies #[trigger] c.content(g) == a.content(g) by {
        assert(c.content(g) == b.content(g));
    }
    assert forall|g: int, x: int, y: int| g != f implies #[trigger] c.content_readable(g, x, y)
        == a.content_readable(g, x, y) by {
        assert(c.content_readable(g, x, y) == b.content_readable(g, x, y));
        lemma_same_readable(a, b, g, x, y);
    }
}

proof fn lemma_made_before(a: Volume, b: Volume, c: Volume, f: int, p: int, name: Seq<u8>, len: int)
    requires
        file_made(a, b, f, p, name, len),
        same_volume(b, c),
    ensures
        file_made(a, c, f, p, name, len),
{
    assert forall|g: int| g != f implies #[trigger] c.content(g) == a.content(g) by {
        assert(b.content(g) == a.content(g));
    }
    assert forall|g: int, x: int, y: int| g != f implies #[trigger] c.content_readable(g, x, y)
        == a.content_readable(g, x, y) by {
        assert(b.content_readable(g, x, y) == a.content_readable(g, x, y));
        lemma_same_readable(b, c, g, x, y);
    }
    assert forall|g: int| g != f implies (#[trigger] c.chains@.contains_key(g)
        == a.chains@.contains_key(g)) && c.chains@[g] == a.chains@[g] by {
        assert(b.chains@.contains_key(g) == a.chains@.contains_key(g));
    }
    assert forall|g: int| g != f implies (#[trigger] c.tree().files.contains_key(g)
        == a.tree().files.contains_key(g)) && c.tree().files[g] == a.tree().files[g] by {
        assert(b.tree().files.contains_key(g) == a.tree().files.contains_key(g));
    }
}

proof fn lemma_same_readable(a: Volume, b: Volume, g: int, x: int, y: int)
    requires
        same_volume(a, b),
    ensures
        b.content_readable(g, x, y) == a.content_readable(g, x, y),
{
    let l = a.list(g);
    let bl = a.block_len();
    if a.content_readable(g, x, y) {
        assert forall|i: int| x <= i < y implies b.data.readable(
            0 + #[trigger] place(l, bl, i),
        ) by {
            assert(a.data.readable(0 + place(l, bl, i)));
        }
    }
    if b.content_readable(g, x, y) {
        assert forall|i: int| x <= i < y implies a.data.readable(
            0 + #[trigger] place(l, bl, i),
        ) by {
            assert(b.data.readable(0 + place(l, bl, i)));
        }
    }
}

} // verus!
