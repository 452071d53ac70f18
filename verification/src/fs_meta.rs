use crate::error::{make_error, Error};
use crate::little_endian::{read_u32, u32_bytes};
use crate::meta_table::{append_bytes, MetaTable, MetaTableStat, RefTicket};
use crate::random_access_file::{overwrite, Content, RandomAccessFile};
use vstd::prelude::*;

verus! {

use crate::fs_tree::{
    dir_dropped, dir_fresh, dir_hooked, dir_row, dir_unhooked, dirs_unlinked, dirs_without_file,
    file_row, files_without_file, key_of, lemma_dir_dropped, lemma_dir_fresh, lemma_dir_put,
    lemma_dir_taken, lemma_file_put, lemma_file_taken, lemma_key_of, lemma_with32, tree_ok,
    tree_stored, with32, with_file, without_file, Node, Row, Tree,
};
use crate::little_endian::{le32, le_bytes};
use crate::meta_list::{absent, entries, lemma_le32_bound, live, no_lists, Lists};
use crate::meta_table::{lemma_same_meta, same_meta, stored};

/// How many entries the tables of an archive have.
#[derive(Clone, Copy, PartialEq, Eq, Structural, Debug)]
pub struct MetaStat {
    pub dirs: MetaTableStat,
    pub files: MetaTableStat,
}

/// The files and directories of an archive: their names, how they are nested, and what else is
/// kept of each of them. A key is the index of the directory and the name in it. The info of a
/// directory starts with the index of the next directory in the same directory, of the first
/// directory in it and of the first file in it; that of a file starts with the index of the next
/// file in the same directory.
pub struct FsMeta<F> {
    pub dirs: MetaTable<F>,
    pub files: MetaTable<F>,
    pub tree: Ghost<Tree>,
}

/// A directory other than `d` with this name is in directory `p`.
pub open spec fn has_other_dir(t: Tree, p: int, name: Seq<u8>, d: int) -> bool {
    exists|e: int| #[trigger]
        t.dirs.contains_key(e) && e != d && t.dirs[e].parent == p && t.dirs[e].name == name
}

/// A file other than `f` with this name is in directory `p`.
pub open spec fn has_other_file(t: Tree, p: int, name: Seq<u8>, f: int) -> bool {
    exists|e: int| #[trigger]
        t.files.contains_key(e) && e != f && t.files[e].parent == p && t.files[e].name == name
}

/// A directory with this name is in directory `p`.
pub open spec fn has_dir(t: Tree, p: int, name: Seq<u8>) -> bool {
    exists|d: int| #[trigger] t.dirs.contains_key(d) && t.dirs[d].parent == p && t.dirs[d].name == name
}

/// A file with this name is in directory `p`.
pub open spec fn has_file(t: Tree, p: int, name: Seq<u8>) -> bool {
    exists|f: int| #[trigger]
        t.files.contains_key(f) && t.files[f].parent == p && t.files[f].name == name
}

impl<F: RandomAccessFile> FsMeta<F> {
    pub open spec fn inv(&self) -> bool {
        &&& self.dirs.inv()
        &&& self.files.inv()
        &&& self.dirs.key_len >= 4
        &&& self.files.key_len >= 4
        &&& self.dirs.info_len >= 12
        &&& self.files.info_len >= 4
    }

    pub open spec fn wf(&self) -> bool {
        &&& self.inv()
        &&& self.dirs.wf()
        &&& self.files.wf()
        &&& tree_stored(self.dirs.entries(), self.files.entries(), self.tree@, 0)
    }

    /// The parts that no operation changes.
    pub open spec fn shape(&self) -> ((usize, usize, int, int), (usize, usize, int, int)) {
        (self.dirs.shape(), self.files.shape())
    }

    /// Counts the files and directories.
    pub fn stat(&mut self) -> (r: Result<MetaStat, Error>)
        requires
            old(self).inv(),
        ensures
            final(self).inv(),
            same_fs(*old(self), *final(self)),
            old(self).wf() ==> (r matches Ok(s) && s.dirs.total == old(self).dirs.model().max() - 1
                && s.dirs.free == old(self).dirs.room() && s.files.total
                == old(self).files.model().max() - 1 && s.files.free == old(self).files.room()),
    {
        let dirs = match self.dirs.stat() {
            Ok(dirs) => dirs,
            Err(e) => {
                return make_error(e);
            },
        };
        let files = match self.files.stat() {
            Ok(files) => files,
            Err(e) => {
                return make_error(e);
            },
        };
        Ok(MetaStat { dirs, files })
    }
}

/// Two archives that hold the same.
pub open spec fn same_fs<F: RandomAccessFile>(a: FsMeta<F>, b: FsMeta<F>) -> bool {
    &&& same_meta(a.dirs, b.dirs)
    &&& same_meta(a.files, b.files)
    &&& b.tree == a.tree
}

pub proof fn lemma_same_fs<F: RandomAccessFile>(a: FsMeta<F>, b: FsMeta<F>)
    requires
        same_fs(a, b),
    ensures
        a.wf() ==> b.wf(),
        a.inv() ==> b.inv(),
        b.dirs.entries() == a.dirs.entries(),
        b.files.entries() == a.files.entries(),
        b.dirs.room() == a.dirs.room(),
        b.files.room() == a.files.room(),
        b.shape() == a.shape(),
{
    lemma_same_meta(a.dirs, b.dirs);
    lemma_same_meta(a.files, b.files);
}

/// The key of a name in a directory.
fn make_key(parent: u32, name: &[u8]) -> (k: Vec<u8>)
    ensures
        k@ == key_of(parent as int, name@),
        k@.len() == 4 + name@.len(),
{
    let mut k = u32_bytes(parent);
    append_bytes(&mut k, name);
    k
}

/// Sets a word.
pub fn put_u32(data: &mut Vec<u8>, off: usize, v: u32)
    requires
        off + 4 <= old(data)@.len(),
    ensures
        final(data)@ == with32(old(data)@, off as int, v as nat),
        final(data)@.len() == old(data)@.len(),
{
    let w = u32_bytes(v);
    overwrite(data, off, &w);
}

/// An entry with this key.
pub open spec fn has_key(m: Map<int, Row>, key: Seq<u8>) -> bool {
    exists|e: int| #[trigger] m.contains_key(e) && m[e].0 == key
}

pub proof fn lemma_absent<F: RandomAccessFile>(t: MetaTable<F>, key: Seq<u8>)
    ensures
        absent(t.model(), t.lists@, key) == !has_key(t.entries(), key),
{
    let m = t.model();
    let g = t.lists@;
    if has_key(t.entries(), key) {
        let e = choose|e: int| #[trigger] t.entries().contains_key(e) && t.entries()[e].0 == key;
        assert(live(m, g, e));
        assert(m.key(e) == key);
    }
    if !absent(m, g, key) {
        let e = choose|e: int| live(m, g, e) && #[trigger] m.key(e) == key;
        assert(t.entries().contains_key(e));
    }
}

/// Whether a file has this name is told by the keys.
pub proof fn lemma_has_file(dirs: Map<int, Row>, files: Map<int, Row>, t: Tree, p: int, name: Seq<u8>)
    requires
        tree_stored(dirs, files, t, 0),
        0 <= p < 0x1_0000_0000,
    ensures
        has_key(files, key_of(p, name)) == has_file(t, p, name),
        forall|f: int| #[trigger]
            files.contains_key(f) && files[f].0 == key_of(p, name) ==> t.files.contains_key(f)
                && t.files[f].parent == p && t.files[f].name == name,
{
    lemma_key_of(p, name);
    assert forall|f: int| #[trigger]
        files.contains_key(f) && files[f].0 == key_of(p, name) implies t.files.contains_key(f)
        && t.files[f].parent == p && t.files[f].name == name by {
        assert(file_row(t, f, files[f]));
        assert(t.dirs.contains_key(t.files[f].parent));
        lemma_key_of(t.files[f].parent, t.files[f].name);
    }
    if has_file(t, p, name) {
        let f = choose|f: int| #[trigger]
            t.files.contains_key(f) && t.files[f].parent == p && t.files[f].name == name;
        assert(files.contains_key(f));
        assert(file_row(t, f, files[f]));
    }
}

/// Whether a directory has this name is told by the keys.
pub proof fn lemma_has_dir(dirs: Map<int, Row>, files: Map<int, Row>, t: Tree, p: int, name: Seq<u8>)
    requires
        tree_stored(dirs, files, t, 0),
        0 <= p < 0x1_0000_0000,
    ensures
        has_key(dirs, key_of(p, name)) == has_dir(t, p, name),
        forall|d: int| #[trigger]
            dirs.contains_key(d) && dirs[d].0 == key_of(p, name) ==> t.dirs.contains_key(d)
                && t.dirs[d].parent == p && t.dirs[d].name == name,
{
    lemma_key_of(p, name);
    assert forall|d: int| #[trigger]
        dirs.contains_key(d) && dirs[d].0 == key_of(p, name) implies t.dirs.contains_key(d)
        && t.dirs[d].parent == p && t.dirs[d].name == name by {
        assert(dir_row(t, d, dirs[d]));
        assert(t.dirs.contains_key(d));
        if d != 1 {
            assert(t.dirs.contains_key(t.dirs[d].parent));
        }
        lemma_key_of(t.dirs[d].parent, t.dirs[d].name);
    }
    if has_dir(t, p, name) {
        let d = choose|d: int| #[trigger]
            t.dirs.contains_key(d) && t.dirs[d].parent == p && t.dirs[d].name == name;
        assert(dirs.contains_key(d));
        assert(dir_row(t, d, dirs[d]));
    }
}

/// A handle to a file.
#[derive(Debug, PartialEq, Eq, Structural)]
pub struct FileMeta {
    pub ticket: RefTicket,
}

/// A handle to a directory.
#[derive(Debug, PartialEq, Eq, Structural)]
pub struct DirMeta {
    pub ticket: RefTicket,
}

/// What adding a file to directory `p` gives.
pub open spec fn new_file_gives<F: RandomAccessFile>(
    a: FsMeta<F>,
    b: FsMeta<F>,
    p: int,
    name: Seq<u8>,
    data: Seq<u8>,
    r: Result<FileMeta, Error>,
) -> bool {
    if has_file(a.tree@, p, name) {
        r == Err::<FileMeta, Error>(Error::AlreadyExist) && same_fs(a, b)
    } else if a.files.room() == 0 {
        r == Err::<FileMeta, Error>(Error::NoSpace) && same_fs(a, b)
    } else {
        &&& r matches Ok(f)
        &&& f.ticket.index == a.files.next_free()
        &&& !a.tree@.files.contains_key(f.ticket.index as int)
        &&& b.wf()
        &&& b.tree@ == with_file(a.tree@, f.ticket.index as int, p, name, data)
        &&& b.files.room() == a.files.room() - 1
        &&& b.dirs.room() == a.dirs.room()
        &&& b.dirs.next_free() == a.dirs.next_free()
        &&& b.files.handles(f.ticket.index) == a.files.handles(f.ticket.index) + 1
            || a.files.handles(f.ticket.index) == u32::MAX
        &&& forall|i: u32|
            i != f.ticket.index ==> #[trigger] b.files.handles(i) == a.files.handles(i)
        &&& b.dirs.ref_count == a.dirs.ref_count
    }
}

impl DirMeta {
    /// Adds a file, and opens it. What `info` says of the next file is set here.
    pub fn new_sub_file<F: RandomAccessFile>(
        &self,
        fs: &mut FsMeta<F>,
        name: &[u8],
        info: &[u8],
    ) -> (r: Result<FileMeta, Error>)
        requires
            old(fs).inv(),
            4 + name@.len() == old(fs).files.key_len,
            info@.len() == old(fs).files.info_len,
        ensures
            final(fs).inv(),
            final(fs).shape() == old(fs).shape(),
            final(fs).dirs.ref_count == old(fs).dirs.ref_count,
            old(fs).wf() && old(fs).tree@.dirs.contains_key(self.ticket.index as int)
                ==> new_file_gives(
                *old(fs),
                *final(fs),
                self.ticket.index as int,
                name@,
                info@.skip(4),
                r,
            ),
    {
        let ghost p = self.ticket.index as int;
        let ghost t = fs.tree@;
        let ghost wf = fs.wf() && t.dirs.contains_key(p);
        let ghost dirs = fs.dirs.entries();
        let ghost files = fs.files.entries();
        let (mut self_info, _) = match fs.dirs.get_at(self.ticket.index) {
            Ok(found) => found,
            Err(e) => {
                return make_error(e);
            },
        };
        let key = make_key(self.ticket.index, name);
        let mut new_info: Vec<u8> = Vec::new();
        append_bytes(&mut new_info, info);
        let first: u32 = read_u32(&self_info, 8);
        put_u32(&mut new_info, 0, first);
        proof {
            assert(Seq::<u8>::empty() + info@ =~= info@);
            lemma_with32(info@, 0, first as nat);
            if wf {
                assert(dirs.contains_key(p));
                lemma_absent(fs.files, key@);
                lemma_has_file(dirs, files, t, p, name@);
                lemma_same_meta(old(fs).dirs, fs.dirs);
            }
        }
        let pos: u32 = match fs.files.add(&key, &new_info) {
            Ok(pos) => pos,
            Err(e) => {
                return make_error(e);
            },
        };
        put_u32(&mut self_info, 8, pos);
        if let Err(e) = fs.dirs.set(self.ticket.index, &self_info) {
            return make_error(e);
        }
        let ghost mid = *fs;
        let ticket = fs.files.acquire_ticket(pos);
        fs.tree = Ghost(with_file(t, pos as int, p, name@, info@.skip(4)));
        proof {
            if wf {
                lemma_file_put(dirs, files, t, pos as int, p, name@, new_info@);
                lemma_ticket_meta(mid.files, fs.files);
            }
        }
        Ok(FileMeta { ticket })
    }
}

/// Only the handles have changed: one more is open for `index`.
pub open spec fn opened<F: RandomAccessFile>(a: MetaTable<F>, b: MetaTable<F>, index: u32) -> bool {
    &&& same_but_handles(a, b)
    &&& b.handles(index) == a.handles(index) + 1 || a.handles(index) == u32::MAX
    &&& forall|i: u32| i != index ==> #[trigger] b.handles(i) == a.handles(i)
}

/// Two tables that hold the same, with handles of their own.
pub open spec fn same_but_handles<F: RandomAccessFile>(a: MetaTable<F>, b: MetaTable<F>) -> bool {
    same_meta(a, MetaTable { ref_count: a.ref_count, ..b })
}

pub proof fn lemma_same_but_handles<F: RandomAccessFile>(a: MetaTable<F>, b: MetaTable<F>)
    requires
        same_but_handles(a, b),
    ensures
        a.wf() ==> b.wf(),
        a.inv() ==> b.inv(),
        b.entries() == a.entries(),
        b.room() == a.room(),
        b.next_free() == a.next_free(),
        b.shape() == a.shape(),
{
    let c = MetaTable { ref_count: a.ref_count, ..b };
    lemma_same_meta(a, c);
    lemma_ticket_meta(c, b);
}

impl DirMeta {
    /// The index of the directory.
    pub open spec fn ino(&self) -> int {
        self.ticket.index as int
    }

    /// Opens the directory with this index.
    pub fn open_ino<F: RandomAccessFile>(fs: &mut FsMeta<F>, ino: u32) -> (r: Result<DirMeta, Error>)
        requires
            old(fs).inv(),
        ensures
            final(fs).inv(),
            r matches Ok(d) && d.ino() == ino,
            opened(old(fs).dirs, final(fs).dirs, ino),
            final(fs).files == old(fs).files,
            final(fs).tree == old(fs).tree,
            old(fs).wf() ==> final(fs).wf(),
    {
        let ticket = fs.dirs.acquire_ticket(ino);
        proof {
            lemma_ticket_meta(old(fs).dirs, fs.dirs);
        }
        Ok(DirMeta { ticket })
    }

    /// Closes the handle.
    pub fn close<F: RandomAccessFile>(self, fs: &mut FsMeta<F>)
        requires
            old(fs).inv(),
        ensures
            final(fs).inv(),
            old(fs).wf() ==> final(fs).wf(),
            same_but_handles(old(fs).dirs, final(fs).dirs),
            final(fs).files == old(fs).files,
            final(fs).tree == old(fs).tree,
            old(fs).dirs.handles(self.ticket.index) > 0 ==> final(fs).dirs.handles(
                self.ticket.index,
            ) == old(fs).dirs.handles(self.ticket.index) - 1,
            forall|i: u32|
                i != self.ticket.index ==> #[trigger] final(fs).dirs.handles(i) == old(fs).dirs.handles(i),
    {
        self.ticket.release(&mut fs.dirs);
        proof {
            lemma_ticket_meta(old(fs).dirs, fs.dirs);
        }
    }

    /// The index of the directory that this one is in.
    pub fn get_parent_ino<F: RandomAccessFile>(&self, fs: &mut FsMeta<F>) -> (r: Result<u32, Error>)
        requires
            old(fs).inv(),
        ensures
            final(fs).inv(),
            same_fs(*old(fs), *final(fs)),
            old(fs).wf() && old(fs).tree@.dirs.contains_key(self.ino()) ==> (r matches Ok(p) && p
                == old(fs).tree@.dirs[self.ino()].parent),
    {
        match fs.dirs.get_at(self.ticket.index) {
            Ok((_, key)) => {
                proof {
                    if old(fs).wf() && old(fs).tree@.dirs.contains_key(self.ino()) {
                        let node = old(fs).tree@.dirs[self.ino()];
                        assert(old(fs).dirs.entries().contains_key(self.ino()));
                        lemma_key_of(node.parent, node.name);
                    }
                }
                Ok(read_u32(&key, 0))
            },
            Err(e) => Err(e),
        }
    }

    /// The index of the directory.
    pub fn get_ino(&self) -> (ino: u32)
        ensures
            ino == self.ino(),
    {
        self.ticket.index
    }

    /// Opens the directory with this name in this directory.
    pub fn open_sub_dir<F: RandomAccessFile>(&self, fs: &mut FsMeta<F>, name: &[u8]) -> (r: Result<
        DirMeta,
        Error,
    >)
        requires
            old(fs).inv(),
            4 + name@.len() == old(fs).dirs.key_len,
        ensures
            final(fs).inv(),
            final(fs).tree == old(fs).tree,
            final(fs).files == old(fs).files,
            r matches Ok(d) ==> opened(old(fs).dirs, final(fs).dirs, d.ticket.index),
            r is Err ==> same_meta(old(fs).dirs, final(fs).dirs),
            old(fs).wf() ==> final(fs).wf() && match r {
                Ok(d) => old(fs).tree@.dirs.contains_key(d.ino()) && old(fs).tree@.dirs[d.ino()].parent == self.ino() && old(fs).tree@.dirs[d.ino()].name
                    == name@,
                Err(e) => e == Error::NotFound && !has_dir(old(fs).tree@, self.ino(), name@),
            },
    {
        let key = make_key(self.ticket.index, name);
        proof {
            if old(fs).wf() {
                lemma_absent(fs.dirs, key@);
                lemma_has_dir(
                    fs.dirs.entries(),
                    fs.files.entries(),
                    fs.tree@,
                    self.ino(),
                    name@,
                );
            }
        }
        let found = fs.dirs.get(&key);
        proof {
            lemma_same_meta(old(fs).dirs, fs.dirs);
        }
        match found {
            Ok((_, pos)) => {
                let ghost mid = fs.dirs;
                let ticket = fs.dirs.acquire_ticket(pos);
                proof {
                    lemma_ticket_meta(mid, fs.dirs);
                }
                Ok(DirMeta { ticket })
            },
            Err(e) => Err(e),
        }
    }

    /// Opens the file with this name in this directory.
    pub fn open_sub_file<F: RandomAccessFile>(&self, fs: &mut FsMeta<F>, name: &[u8]) -> (r: Result<
        FileMeta,
        Error,
    >)
        requires
            old(fs).inv(),
            4 + name@.len() == old(fs).files.key_len,
        ensures
            final(fs).inv(),
            final(fs).tree == old(fs).tree,
            final(fs).dirs == old(fs).dirs,
            r matches Ok(f) ==> opened(old(fs).files, final(fs).files, f.ticket.index),
            r is Err ==> same_meta(old(fs).files, final(fs).files),
            old(fs).wf() ==> final(fs).wf() && match r {
                Ok(f) => old(fs).tree@.files.contains_key(f.ino()) && old(fs).tree@.files[f.ino()].parent == self.ino() && old(fs).tree@.files[f.ino()].name
                    == name@,
                Err(e) => e == Error::NotFound && !has_file(old(fs).tree@, self.ino(), name@),
            },
    {
        let key = make_key(self.ticket.index, name);
        proof {
            if old(fs).wf() {
                lemma_absent(fs.files, key@);
                lemma_has_file(
                    fs.dirs.entries(),
                    fs.files.entries(),
                    fs.tree@,
                    self.ino(),
                    name@,
                );
            }
        }
        let found = fs.files.get(&key);
        proof {
            lemma_same_meta(old(fs).files, fs.files);
        }
        match found {
            Ok((_, pos)) => {
                let ghost mid = fs.files;
                let ticket = fs.files.acquire_ticket(pos);
                proof {
                    lemma_ticket_meta(mid, fs.files);
                }
                Ok(FileMeta { ticket })
            },
            Err(e) => Err(e),
        }
    }

    /// Lists the directories in this directory, the newest first.
    pub fn list_sub_dir<F: RandomAccessFile>(&self, fs: &mut FsMeta<F>) -> (r: Result<
        Vec<(Vec<u8>, u32)>,
        Error,
    >)
        requires
            old(fs).inv(),
        ensures
            final(fs).inv(),
            same_fs(*old(fs), *final(fs)),
            r matches Ok(v) ==> forall|k: int|
                0 <= k < v@.len() ==> (#[trigger] v@[k]).0@.len() == old(fs).dirs.key_len - 4,
            old(fs).wf() && old(fs).tree@.dirs.contains_key(self.ino()) ==> (r matches Ok(v)
                && lists(v@, old(fs).tree@.dirs, old(fs).tree@.sub_dirs[self.ino()])),
    {
        let ghost t = fs.tree@;
        let ghost d = self.ino();
        let ghost wf = fs.wf() && t.dirs.contains_key(d);
        let ghost rows = fs.dirs.entries();
        let ghost l = t.sub_dirs[d];
        let info = match fs.dirs.get_at(self.ticket.index) {
            Ok(found) => found.0,
            Err(e) => {
                return make_error(e);
            },
        };
        let mut index: u32 = read_u32(&info, 4);
        let mut result: Vec<(Vec<u8>, u32)> = Vec::new();
        let mut fuel: usize = fs.dirs.capacity();
        let ghost mut i: int = l.len() - 1;
        proof {
            if wf {
                assert(rows.contains_key(d));
                assert(dir_row(t, d, rows[d]));
                lemma_dir_list_len(*old(fs), d);
            }
        }
        while index != 0
            invariant
                fs.inv(),
                same_fs(*old(fs), *fs),
                d == self.ino(),
                wf == (old(fs).wf() && t.dirs.contains_key(d)),
                wf ==> fs.wf(),
                t == fs.tree@,
                t == old(fs).tree@,
                rows == fs.dirs.entries(),
                l == t.sub_dirs[d],
                forall|k: int|
                    0 <= k < result@.len() ==> (#[trigger] result@[k]).0@.len()
                        == fs.dirs.key_len - 4,
                wf ==> {
                    &&& -1 <= i < l.len()
                    &&& i < fuel
                    &&& index == (if i < 0 {
                        0
                    } else {
                        t.dir_item(d, i)
                    })
                    &&& result@.len() == l.len() - 1 - i
                    &&& forall|k: int|
                        0 <= k < result@.len() ==> (#[trigger] result@[k]).1 == l[l.len() - 1 - k]
                            && result@[k].0@ == t.dirs[l[l.len() - 1 - k]].name
                },
            decreases fuel,
        {
            if fuel == 0 {
                return make_error(Error::InvalidValue);
            }
            let ghost before = *fs;
            let (info, key) = match fs.dirs.get_at(index) {
                Ok(found) => found,
                Err(e) => {
                    proof {
                        if wf {
                            assert(t.dirs.contains_key(t.dir_item(d, i)));
                            assert(rows.contains_key(index as int));
                        }
                    }
                    return make_error(e);
                },
            };
            proof {
                lemma_same_meta(before.dirs, fs.dirs);
                if wf {
                    assert(t.dirs.contains_key(t.dir_item(d, i)));
                    assert(rows.contains_key(index as int));
                    assert(dir_row(t, index as int, rows[index as int]));
                    lemma_key_of(t.dirs[index as int].parent, t.dirs[index as int].name);
                    assert(key@.subrange(4, key@.len() as int) =~= key@.skip(4));
                    if i > 0 {
                        assert(t.dir_item(d, i - 1) == l[i - 1]);
                    }
                }
            }
            let n: usize = key.len();
            result.push((crate::random_access_file::copy_range(&key, 4, n - 4), index));
            index = read_u32(&info, 0);
            fuel = fuel - 1;
            proof {
                i = i - 1;
            }
        }
        Ok(result)
    }

    /// Lists the files in this directory, the newest first.
    pub fn list_sub_file<F: RandomAccessFile>(&self, fs: &mut FsMeta<F>) -> (r: Result<
        Vec<(Vec<u8>, u32)>,
        Error,
    >)
        requires
            old(fs).inv(),
        ensures
            final(fs).inv(),
            same_fs(*old(fs), *final(fs)),
            r matches Ok(v) ==> forall|k: int|
                0 <= k < v@.len() ==> (#[trigger] v@[k]).0@.len() == old(fs).files.key_len - 4,
            old(fs).wf() && old(fs).tree@.dirs.contains_key(self.ino()) ==> (r matches Ok(v)
                && lists(v@, old(fs).tree@.files, old(fs).tree@.sub_files[self.ino()])),
    {
        let ghost t = fs.tree@;
        let ghost d = self.ino();
        let ghost wf = fs.wf() && t.dirs.contains_key(d);
        let ghost rows = fs.files.entries();
        let ghost l = t.sub_files[d];
        let info = match fs.dirs.get_at(self.ticket.index) {
            Ok(found) => found.0,
            Err(e) => {
                return make_error(e);
            },
        };
        let mut index: u32 = read_u32(&info, 8);
        let mut result: Vec<(Vec<u8>, u32)> = Vec::new();
        let mut fuel: usize = fs.files.capacity();
        let ghost mut i: int = l.len() - 1;
        proof {
            if wf {
                assert(old(fs).dirs.entries().contains_key(d));
                assert(dir_row(t, d, old(fs).dirs.entries()[d]));
                lemma_file_list_len(*old(fs), d);
            }
        }
        while index != 0
            invariant
                fs.inv(),
                same_fs(*old(fs), *fs),
                d == self.ino(),
                wf == (old(fs).wf() && t.dirs.contains_key(d)),
                wf ==> fs.wf(),
                t == fs.tree@,
                t == old(fs).tree@,
                rows == fs.files.entries(),
                l == t.sub_files[d],
                forall|k: int|
                    0 <= k < result@.len() ==> (#[trigger] result@[k]).0@.len()
                        == fs.files.key_len - 4,
                wf ==> {
                    &&& -1 <= i < l.len()
                    &&& i < fuel
                    &&& index == (if i < 0 {
                        0
                    } else {
                        t.file_item(d, i)
                    })
                    &&& result@.len() == l.len() - 1 - i
                    &&& forall|k: int|
                        0 <= k < result@.len() ==> (#[trigger] result@[k]).1 == l[l.len() - 1 - k]
                            && result@[k].0@ == t.files[l[l.len() - 1 - k]].name
                },
            decreases fuel,
        {
            if fuel == 0 {
                return make_error(Error::InvalidValue);
            }
            let ghost before = *fs;
            let (info, key) = match fs.files.get_at(index) {
                Ok(found) => found,
                Err(e) => {
                    proof {
                        if wf {
                            assert(t.files.contains_key(t.file_item(d, i)));
                            assert(rows.contains_key(index as int));
                        }
                    }
                    return make_error(e);
                },
            };
            proof {
                lemma_same_meta(before.files, fs.files);
                if wf {
                    assert(t.files.contains_key(t.file_item(d, i)));
                    assert(rows.contains_key(index as int));
                    assert(file_row(t, index as int, rows[index as int]));
                    lemma_key_of(t.files[index as int].parent, t.files[index as int].name);
                    assert(key@.subrange(4, key@.len() as int) =~= key@.skip(4));
                    if i > 0 {
                        assert(t.file_item(d, i - 1) == l[i - 1]);
                    }
                }
            }
            let n: usize = key.len();
            result.push((crate::random_access_file::copy_range(&key, 4, n - 4), index));
            index = read_u32(&info, 0);
            fuel = fuel - 1;
            proof {
                i = i - 1;
            }
        }
        Ok(result)
    }
}

/// `v` lists the nodes of `l`, from its end on, each with name and index.
pub open spec fn lists(v: Seq<(Vec<u8>, u32)>, nodes: Map<int, Node>, l: Seq<int>) -> bool {
    &&& v.len() == l.len()
    &&& forall|k: int|
        0 <= k < v.len() ==> (#[trigger] v[k]).1 == l[l.len() - 1 - k] && v[k].0@
            == nodes[l[l.len() - 1 - k]].name
}

/// A list of different indices of a table is shorter than the table.
pub proof fn lemma_indices_bounded<F: RandomAccessFile>(t: MetaTable<F>, l: Seq<int>)
    requires
        t.wf(),
        l.no_duplicates(),
        forall|i: int| 0 <= i < l.len() ==> t.entries().contains_key(#[trigger] l[i]),
    ensures
        l.len() < t.model().count(),
        t.model().count() <= t.model().rows.len(),
{
    let n = t.model().count() as int;
    l.unique_seq_to_set();
    let s = vstd::set_lib::set_int_range(1, n);
    vstd::set_lib::lemma_int_range(1, n);
    assert(l.to_set().subset_of(s)) by {
        assert forall|e: int| l.to_set().contains(e) implies s.contains(e) by {
            let i = choose|i: int| 0 <= i < l.len() && l[i] == e;
            assert(t.entries().contains_key(l[i]));
        }
    }
    vstd::set_lib::lemma_len_subset(l.to_set(), s);
}

proof fn lemma_dir_list_len<F: RandomAccessFile>(fs: FsMeta<F>, d: int)
    requires
        fs.wf(),
        fs.tree@.dirs.contains_key(d),
    ensures
        fs.tree@.sub_dirs[d].len() < fs.dirs.model().rows.len(),
{
    let t = fs.tree@;
    let l = t.sub_dirs[d];
    assert forall|i: int, j: int| 0 <= i < l.len() && 0 <= j < l.len() && i != j implies l[i]
        != l[j] by {
        assert(t.dir_pos[t.dir_item(d, i)] == i);
        assert(t.dir_pos[t.dir_item(d, j)] == j);
    }
    assert forall|i: int| 0 <= i < l.len() implies fs.dirs.entries().contains_key(
        #[trigger] l[i],
    ) by {
        assert(t.dirs.contains_key(t.dir_item(d, i)));
    }
    lemma_indices_bounded(fs.dirs, l);
}

proof fn lemma_file_list_len<F: RandomAccessFile>(fs: FsMeta<F>, d: int)
    requires
        fs.wf(),
        fs.tree@.dirs.contains_key(d),
    ensures
        fs.tree@.sub_files[d].len() < fs.files.model().rows.len(),
{
    let t = fs.tree@;
    let l = t.sub_files[d];
    assert forall|i: int, j: int| 0 <= i < l.len() && 0 <= j < l.len() && i != j implies l[i]
        != l[j] by {
        assert(t.file_pos[t.file_item(d, i)] == i);
        assert(t.file_pos[t.file_item(d, j)] == j);
    }
    assert forall|i: int| 0 <= i < l.len() implies fs.files.entries().contains_key(
        #[trigger] l[i],
    ) by {
        assert(t.files.contains_key(t.file_item(d, i)));
    }
    lemma_indices_bounded(fs.files, l);
}

/// Takes a file out of its directory and out of the table.
fn unlink_file<F: RandomAccessFile>(fs: &mut FsMeta<F>, ino: u32) -> (r: Result<(), Error>)
    requires
        old(fs).inv(),
    ensures
        final(fs).inv(),
        final(fs).shape() == old(fs).shape(),
        final(fs).dirs.ref_count == old(fs).dirs.ref_count,
        final(fs).files.ref_count == old(fs).files.ref_count,
        old(fs).wf() && old(fs).tree@.files.contains_key(ino as int) ==> {
            &&& r == Ok::<(), Error>(())
            &&& final(fs).wf()
            &&& final(fs).tree@ == without_file(old(fs).tree@, ino as int)
            &&& final(fs).files.room() == old(fs).files.room() + 1
            &&& final(fs).files.next_free() == ino
            &&& final(fs).dirs.room() == old(fs).dirs.room()
            &&& final(fs).dirs.next_free() == old(fs).dirs.next_free()
        },
{
    let ghost t = fs.tree@;
    let ghost f = ino as int;
    let ghost wf = fs.wf() && t.files.contains_key(f);
    let ghost dirs = fs.dirs.entries();
    let ghost files = fs.files.entries();
    let ghost p = t.files[f].parent;
    let ghost l = t.sub_files[p];
    let ghost k = t.file_pos[f];
    let (self_info, key) = match fs.files.get_at(ino) {
        Ok(found) => found,
        Err(e) => {
            return make_error(e);
        },
    };
    proof {
        lemma_same_meta(old(fs).files, fs.files);
        if wf {
            assert(files.contains_key(f));
            assert(file_row(t, f, files[f]));
            lemma_key_of(p, t.files[f].name);
            assert(t.dirs.contains_key(p));
            assert(dirs.contains_key(p));
            assert(dir_row(t, p, dirs[p]));
            assert(t.file_item(p, k) == f);
        }
    }
    let parent: u32 = read_u32(&key, 0);
    let next: u32 = read_u32(&self_info, 0);
    let (mut parent_info, _) = match fs.dirs.get_at(parent) {
        Ok(found) => found,
        Err(e) => {
            return make_error(e);
        },
    };
    let mut head: u32 = read_u32(&parent_info, 8);
    if head == ino {
        proof {
            if wf {
                assert(t.file_item(p, l.len() - 1) == f);
            }
        }
        put_u32(&mut parent_info, 8, next);
        if let Err(e) = fs.dirs.set(parent, &parent_info) {
            return make_error(e);
        }
    } else {
        let ghost mut i: int = l.len() - 1;
        let mut fuel: usize = fs.files.capacity();
        proof {
            if wf {
                lemma_file_list_len(*old(fs), p);
                assert(t.file_item(p, l.len() - 1) == l.last());
            }
        }
        let mut done: bool = false;
        while !done
            invariant
                fs.inv(),
                fs.shape() == old(fs).shape(),
                fs.dirs.ref_count == old(fs).dirs.ref_count,
                fs.files.ref_count == old(fs).files.ref_count,
                fs.tree == old(fs).tree,
                wf == (old(fs).wf() && t.files.contains_key(f)),
                t == old(fs).tree@,
                f == ino,
                p == t.files[f].parent,
                l == t.sub_files[p],
                k == t.file_pos[f],
                dirs == old(fs).dirs.entries(),
                files == old(fs).files.entries(),
                wf ==> {
                    &&& fs.dirs.wf()
                    &&& fs.files.wf()
                    &&& fs.dirs.entries() == dirs
                    &&& fs.files.room() == old(fs).files.room()
                    &&& fs.dirs.room() == old(fs).dirs.room()
                    &&& fs.dirs.next_free() == old(fs).dirs.next_free()
                    &&& tree_stored(dirs, files, t, 0)
                    &&& t.dirs.contains_key(p)
                    &&& 0 <= k < l.len()
                    &&& t.file_item(p, k) == f
                    &&& next == le32(files[f].1, 0)
                },
                wf && !done ==> {
                    &&& k < i < l.len()
                    &&& i < fuel
                    &&& head == t.file_item(p, i)
                    &&& fs.files.entries() == files
                },
                wf && done ==> {
                    &&& k < l.len() - 1
                    &&& fs.files.entries() == files_without_file(files, t, f)
                },
            decreases fuel + (if done { 0int } else { 1int }),
        {
            if fuel == 0 || head == 0 {
                proof {
                    if wf {
                        assert(t.files.contains_key(t.file_item(p, i)));
                    }
                }
                return make_error(Error::InvalidValue);
            }
            proof {
                if wf {
                    assert(t.files.contains_key(t.file_item(p, i)));
                    assert(files.contains_key(head as int));
                    assert(file_row(t, head as int, files[head as int]));
                    assert(t.file_pos[head as int] == i);
                    assert(t.file_item(p, i - 1) == l[i - 1]);
                    assert(t.file_pos[t.file_item(p, i - 1)] == i - 1);
                }
            }
            let ghost before = *fs;
            let (mut info, _) = match fs.files.get_at(head) {
                Ok(found) => found,
                Err(e) => {
                    return make_error(e);
                },
            };
            proof {
                lemma_same_meta(before.files, fs.files);
            }
            let after: u32 = read_u32(&info, 0);
            if after == ino {
                put_u32(&mut info, 0, next);
                if let Err(e) = fs.files.set(head, &info) {
                    return make_error(e);
                }
                done = true;
            } else {
                head = after;
                fuel = fuel - 1;
                proof {
                    i = i - 1;
                }
            }
        }
    }
    let ghost mid = *fs;
    if let Err(e) = fs.files.remove(ino) {
        return make_error(e);
    }
    fs.tree = Ghost(without_file(t, f));
    proof {
        if wf {
            assert(mid.files.entries() == files_without_file(files, t, f));
            assert(mid.dirs.entries() == dirs_without_file(dirs, files, t, f));
            lemma_le32_bound(files[f].1, 0);
            lemma_file_taken(dirs, files, t, f);
        }
    }
    Ok(())
}

/// The tables hold the tree but for the directory `hole`.
pub open spec fn holds_but<F: RandomAccessFile>(fs: FsMeta<F>, hole: int) -> bool {
    &&& fs.inv()
    &&& fs.dirs.wf()
    &&& fs.files.wf()
    &&& tree_stored(fs.dirs.entries(), fs.files.entries(), fs.tree@, hole)
}

/// Takes a directory out of its directory and out of the table. What is in it stays in it.
fn unlink_dir<F: RandomAccessFile>(fs: &mut FsMeta<F>, ino: u32) -> (r: Result<(), Error>)
    requires
        old(fs).inv(),
    ensures
        final(fs).inv(),
        final(fs).shape() == old(fs).shape(),
        final(fs).dirs.ref_count == old(fs).dirs.ref_count,
        final(fs).files == old(fs).files,
        old(fs).wf() && old(fs).tree@.dirs.contains_key(ino as int) && ino != 1 ==> {
            &&& r == Ok::<(), Error>(())
            &&& holds_but(*final(fs), ino as int)
            &&& final(fs).tree@ == dir_unhooked(old(fs).tree@, ino as int)
            &&& final(fs).dirs.room() == old(fs).dirs.room() + 1
            &&& final(fs).dirs.next_free() == ino
        },
{
    let ghost t = fs.tree@;
    let ghost d = ino as int;
    let ghost wf = fs.wf() && t.dirs.contains_key(d) && d != 1;
    let ghost dirs = fs.dirs.entries();
    let ghost files = fs.files.entries();
    let ghost p = t.dirs[d].parent;
    let ghost l = t.sub_dirs[p];
    let ghost k = t.dir_pos[d];
    let (self_info, key) = match fs.dirs.get_at(ino) {
        Ok(found) => found,
        Err(e) => {
            return make_error(e);
        },
    };
    proof {
        lemma_same_meta(old(fs).dirs, fs.dirs);
        if wf {
            assert(dirs.contains_key(d));
            assert(dir_row(t, d, dirs[d]));
            assert(t.dirs.contains_key(p));
            lemma_key_of(p, t.dirs[d].name);
            assert(dirs.contains_key(p));
            assert(dir_row(t, p, dirs[p]));
            assert(t.dir_item(p, k) == d);
        }
    }
    let parent: u32 = read_u32(&key, 0);
    let next: u32 = read_u32(&self_info, 0);
    let ghost m1 = *fs;
    let (mut parent_info, _) = match fs.dirs.get_at(parent) {
        Ok(found) => found,
        Err(e) => {
            return make_error(e);
        },
    };
    proof {
        lemma_same_meta(m1.dirs, fs.dirs);
    }
    let mut head: u32 = read_u32(&parent_info, 4);
    if head == ino {
        proof {
            if wf {
                assert(t.dir_item(p, l.len() - 1) == d);
            }
        }
        put_u32(&mut parent_info, 4, next);
        if let Err(e) = fs.dirs.set(parent, &parent_info) {
            return make_error(e);
        }
    } else {
        let ghost mut i: int = l.len() - 1;
        let mut fuel: usize = fs.dirs.capacity();
        proof {
            if wf {
                lemma_dir_list_len(*old(fs), p);
                assert(t.dir_item(p, l.len() - 1) == l.last());
            }
        }
        let mut done: bool = false;
        while !done
            invariant
                fs.inv(),
                fs.shape() == old(fs).shape(),
                fs.dirs.ref_count == old(fs).dirs.ref_count,
                fs.files == old(fs).files,
                fs.tree == old(fs).tree,
                wf == (old(fs).wf() && t.dirs.contains_key(d) && d != 1),
                t == old(fs).tree@,
                d == ino,
                p == t.dirs[d].parent,
                l == t.sub_dirs[p],
                k == t.dir_pos[d],
                dirs == old(fs).dirs.entries(),
                files == old(fs).files.entries(),
                wf ==> {
                    &&& fs.dirs.wf()
                    &&& fs.dirs.room() == old(fs).dirs.room()
                    &&& tree_stored(dirs, files, t, 0)
                    &&& t.dirs.contains_key(p)
                    &&& 0 <= k < l.len()
                    &&& t.dir_item(p, k) == d
                    &&& next == le32(dirs[d].1, 0)
                },
                wf && !done ==> {
                    &&& k < i < l.len()
                    &&& i < fuel
                    &&& head == t.dir_item(p, i)
                    &&& fs.dirs.entries() == dirs
                },
                wf && done ==> {
                    &&& k < l.len() - 1
                    &&& fs.dirs.entries() == dirs_unlinked(dirs, t, d)
                },
            decreases fuel + (if done { 0int } else { 1int }),
        {
            if fuel == 0 || head == 0 {
                proof {
                    if wf {
                        assert(t.dirs.contains_key(t.dir_item(p, i)));
                    }
                }
                return make_error(Error::InvalidValue);
            }
            proof {
                if wf {
                    assert(t.dirs.contains_key(t.dir_item(p, i)));
                    assert(dirs.contains_key(head as int));
                    assert(dir_row(t, head as int, dirs[head as int]));
                    assert(t.dir_pos[head as int] == i);
                    assert(t.dir_item(p, i - 1) == l[i - 1]);
                    assert(t.dir_pos[t.dir_item(p, i - 1)] == i - 1);
                }
            }
            let ghost before = *fs;
            let (mut info, _) = match fs.dirs.get_at(head) {
                Ok(found) => found,
                Err(e) => {
                    return make_error(e);
                },
            };
            proof {
                lemma_same_meta(before.dirs, fs.dirs);
            }
            let after: u32 = read_u32(&info, 0);
            if after == ino {
                put_u32(&mut info, 0, next);
                if let Err(e) = fs.dirs.set(head, &info) {
                    return make_error(e);
                }
                done = true;
            } else {
                head = after;
                fuel = fuel - 1;
                proof {
                    i = i - 1;
                }
            }
        }
    }
    let ghost mid = *fs;
    if let Err(e) = fs.dirs.remove(ino) {
        return make_error(e);
    }
    fs.tree = Ghost(dir_unhooked(t, d));
    proof {
        if wf {
            assert(mid.dirs.entries() == dirs_unlinked(dirs, t, d));
            lemma_le32_bound(dirs[d].1, 0);
            lemma_dir_taken(dirs, files, t, d);
        }
    }
    Ok(())
}

impl DirMeta {
    /// Adds an entry for a directory in this one.
    fn link_dir<F: RandomAccessFile>(&self, fs: &mut FsMeta<F>, name: &[u8], info: &Vec<u8>) -> (r:
        Result<DirMeta, Error>)
        requires
            old(fs).inv(),
            4 + name@.len() == old(fs).dirs.key_len,
            info@.len() == old(fs).dirs.info_len,
        ensures
            final(fs).inv(),
            final(fs).shape() == old(fs).shape(),
            final(fs).files == old(fs).files,
            final(fs).tree == old(fs).tree,
            old(fs).dirs.wf() && old(fs).dirs.entries().contains_key(self.ino()) ==> {
                let key = key_of(self.ino(), name@);
                let rows = old(fs).dirs.entries();
                if has_key(rows, key) {
                    r == Err::<DirMeta, Error>(Error::AlreadyExist) && same_fs(
                        *old(fs),
                        *final(fs),
                    )
                } else if old(fs).dirs.room() == 0 {
                    r == Err::<DirMeta, Error>(Error::NoSpace) && same_fs(*old(fs), *final(fs))
                } else {
                    &&& r matches Ok(d)
                    &&& d.ino() == old(fs).dirs.next_free()
                    &&& d.ino() >= 1
                    &&& !rows.contains_key(d.ino())
                    &&& final(fs).dirs.wf()
                    &&& final(fs).dirs.entries() == rows.insert(
                        d.ino(),
                        (key, with32(info@, 0, le32(rows[self.ino()].1, 4))),
                    ).insert(
                        self.ino(),
                        (rows[self.ino()].0, with32(rows[self.ino()].1, 4, d.ino() as nat)),
                    )
                    &&& final(fs).dirs.room() == old(fs).dirs.room() - 1
                    &&& final(fs).dirs.handles(d.ticket.index) == old(fs).dirs.handles(
                        d.ticket.index,
                    ) + 1 || old(fs).dirs.handles(d.ticket.index) == u32::MAX
                    &&& forall|i: u32|
                        i != d.ticket.index ==> #[trigger] final(fs).dirs.handles(i) == old(fs).dirs.handles(i)
                }
            },
    {
        let ghost rows = fs.dirs.entries();
        let ghost wf = fs.dirs.wf() && rows.contains_key(self.ino());
        let (mut self_info, _) = match fs.dirs.get_at(self.ticket.index) {
            Ok(found) => found,
            Err(e) => {
                return make_error(e);
            },
        };
        let key = make_key(self.ticket.index, name);
        let mut new_info: Vec<u8> = Vec::new();
        append_bytes(&mut new_info, info);
        let first: u32 = read_u32(&self_info, 4);
        put_u32(&mut new_info, 0, first);
        proof {
            assert(Seq::<u8>::empty() + info@ =~= info@);
            lemma_same_meta(old(fs).dirs, fs.dirs);
            lemma_absent(fs.dirs, key@);
        }
        let ghost m1 = *fs;
        let pos: u32 = match fs.dirs.add(&key, &new_info) {
            Ok(pos) => pos,
            Err(e) => {
                return make_error(e);
            },
        };
        put_u32(&mut self_info, 4, pos);
        if let Err(e) = fs.dirs.set(self.ticket.index, &self_info) {
            return make_error(e);
        }
        let ghost mid = *fs;
        let ticket = fs.dirs.acquire_ticket(pos);
        proof {
            lemma_ticket_meta(mid.dirs, fs.dirs);
        }
        Ok(DirMeta { ticket })
    }

    /// Adds an empty directory, and opens it. What `info` says of other directories and files is
    /// set here.
    pub fn new_sub_dir<F: RandomAccessFile>(
        &self,
        fs: &mut FsMeta<F>,
        name: &[u8],
        info: &[u8],
    ) -> (r: Result<DirMeta, Error>)
        requires
            old(fs).inv(),
            4 + name@.len() == old(fs).dirs.key_len,
            info@.len() == old(fs).dirs.info_len,
        ensures
            final(fs).inv(),
            final(fs).shape() == old(fs).shape(),
            final(fs).files == old(fs).files,
            old(fs).wf() && old(fs).tree@.dirs.contains_key(self.ino()) ==> new_dir_gives(
                *old(fs),
                *final(fs),
                self.ino(),
                name@,
                info@.skip(12),
                r,
            ),
    {
        let ghost t = fs.tree@;
        let ghost p = self.ino();
        let ghost wf = fs.wf() && t.dirs.contains_key(p);
        let ghost dirs = fs.dirs.entries();
        let ghost files = fs.files.entries();
        let mut new_info: Vec<u8> = Vec::new();
        append_bytes(&mut new_info, info);
        put_u32(&mut new_info, 4, 0);
        let ghost i1 = new_info@;
        put_u32(&mut new_info, 8, 0);
        proof {
            assert(Seq::<u8>::empty() + info@ =~= info@);
            lemma_with32(info@, 4, 0);
            lemma_with32(i1, 8, 0);
            if wf {
                assert(dirs.contains_key(p));
                lemma_has_dir(dirs, files, t, p, name@);
            }
        }
        let made = match self.link_dir(fs, name, &new_info) {
            Ok(made) => made,
            Err(e) => {
                return make_error(e);
            },
        };
        let ghost d = made.ino();
        fs.tree = Ghost(dir_hooked(dir_fresh(t, d, info@.skip(12)), d, p, name@));
        proof {
            if wf {
                let first = le32(dirs[p].1, 4);
                lemma_le32_bound(dirs[p].1, 4);
                lemma_with32(new_info@, 0, first);
                lemma_dir_fresh(dirs, files, t, d, info@.skip(12));
                lemma_dir_put(
                    dirs,
                    files,
                    dir_fresh(t, d, info@.skip(12)),
                    d,
                    p,
                    name@,
                    with32(new_info@, 0, first),
                );
            }
        }
        Ok(made)
    }

    /// Deletes the directory, which must be empty, not the root, and not be open elsewhere.
    pub fn delete<F: RandomAccessFile>(self, fs: &mut FsMeta<F>) -> (r: Result<(), Error>)
        requires
            old(fs).inv(),
        ensures
            final(fs).inv(),
            final(fs).shape() == old(fs).shape(),
            final(fs).files == old(fs).files,
            old(fs).dirs.handles(self.ticket.index) != 1 ==> r == Err::<(), Error>(Error::Busy),
            old(fs).wf() && old(fs).tree@.dirs.contains_key(self.ino()) && old(fs).dirs.handles(
                self.ticket.index,
            ) == 1 ==> {
                let t = old(fs).tree@;
                if self.ino() == 1 {
                    r == Err::<(), Error>(Error::DeletingRoot)
                } else if t.sub_dirs[self.ino()].len() > 0 || t.sub_files[self.ino()].len() > 0 {
                    r == Err::<(), Error>(Error::NotEmpty)
                } else {
                    &&& r == Ok::<(), Error>(())
                    &&& final(fs).tree@ == dir_dropped(dir_unhooked(t, self.ino()), self.ino())
                    &&& final(fs).dirs.room() == old(fs).dirs.room() + 1
                    &&& final(fs).dirs.next_free() == self.ino()
                }
            },
            old(fs).wf() && old(fs).tree@.dirs.contains_key(self.ino()) ==> final(fs).wf(),
            old(fs).wf() && r is Err && old(fs).tree@.dirs.contains_key(self.ino()) ==> final(fs).tree == old(fs).tree && same_but_handles(old(fs).dirs, final(fs).dirs),
            forall|i: u32|
                i != self.ticket.index ==> #[trigger] final(fs).dirs.handles(i) == old(fs).dirs.handles(i),
            old(fs).dirs.handles(self.ticket.index) > 0 ==> final(fs).dirs.handles(
                self.ticket.index,
            ) == old(fs).dirs.handles(self.ticket.index) - 1,
    {
        let ghost t = fs.tree@;
        let ghost d = self.ino();
        let ghost wf = fs.wf() && t.dirs.contains_key(d);
        let r = self.delete_checked(fs);
        let ghost mid = *fs;
        self.ticket.release(&mut fs.dirs);
        proof {
            lemma_ticket_meta(mid.dirs, fs.dirs);
        }
        r
    }

    fn delete_checked<F: RandomAccessFile>(&self, fs: &mut FsMeta<F>) -> (r: Result<(), Error>)
        requires
            old(fs).inv(),
        ensures
            final(fs).inv(),
            final(fs).shape() == old(fs).shape(),
            final(fs).files == old(fs).files,
            final(fs).dirs.ref_count == old(fs).dirs.ref_count,
            old(fs).dirs.handles(self.ticket.index) != 1 ==> r == Err::<(), Error>(Error::Busy),
            old(fs).wf() && old(fs).tree@.dirs.contains_key(self.ino()) && old(fs).dirs.handles(
                self.ticket.index,
            ) == 1 ==> {
                let t = old(fs).tree@;
                if self.ino() == 1 {
                    r == Err::<(), Error>(Error::DeletingRoot)
                } else if t.sub_dirs[self.ino()].len() > 0 || t.sub_files[self.ino()].len() > 0 {
                    r == Err::<(), Error>(Error::NotEmpty)
                } else {
                    &&& r == Ok::<(), Error>(())
                    &&& final(fs).tree@ == dir_dropped(dir_unhooked(t, self.ino()), self.ino())
                    &&& final(fs).dirs.room() == old(fs).dirs.room() + 1
                    &&& final(fs).dirs.next_free() == self.ino()
                }
            },
            old(fs).wf() && old(fs).tree@.dirs.contains_key(self.ino()) ==> final(fs).wf(),
            old(fs).wf() && r is Err && old(fs).tree@.dirs.contains_key(self.ino()) ==> same_fs(
                *old(fs),
                *final(fs),
            ),
    {
        let ghost t = fs.tree@;
        let ghost d = self.ino();
        let ghost wf = fs.wf() && t.dirs.contains_key(d);
        let ghost dirs = fs.dirs.entries();
        if let Err(e) = self.ticket.check_exclusive(&fs.dirs) {
            return make_error(e);
        }
        let info = match fs.dirs.get_at(self.ticket.index) {
            Ok(found) => found.0,
            Err(e) => {
                return make_error(e);
            },
        };
        proof {
            lemma_same_meta(old(fs).dirs, fs.dirs);
            if wf {
                assert(dirs.contains_key(d));
                assert(dir_row(t, d, dirs[d]));
                if t.sub_dirs[d].len() > 0 {
                    assert(t.dirs.contains_key(t.dir_item(d, t.sub_dirs[d].len() - 1)));
                }
                if t.sub_files[d].len() > 0 {
                    assert(t.files.contains_key(t.file_item(d, t.sub_files[d].len() - 1)));
                }
            }
        }
        if self.ticket.index == 1 {
            return make_error(Error::DeletingRoot);
        }
        let sub_dir: u32 = read_u32(&info, 4);
        if sub_dir != 0 {
            return make_error(Error::NotEmpty);
        }
        let sub_file: u32 = read_u32(&info, 8);
        if sub_file != 0 {
            return make_error(Error::NotEmpty);
        }
        if let Err(e) = unlink_dir(fs, self.ticket.index) {
            return make_error(e);
        }
        let ghost u = fs.tree@;
        fs.tree = Ghost(dir_dropped(u, d));
        proof {
            if wf {
                lemma_dir_dropped(fs.dirs.entries(), fs.files.entries(), u, d);
            }
        }
        Ok(())
    }

    /// Moves the directory into another one, under another name. The index is kept.
    pub fn rename<F: RandomAccessFile>(
        &mut self,
        fs: &mut FsMeta<F>,
        parent: &DirMeta,
        name: &[u8],
    ) -> (r: Result<(), Error>)
        requires
            old(fs).inv(),
            4 + name@.len() == old(fs).dirs.key_len,
        ensures
            final(fs).inv(),
            final(fs).shape() == old(fs).shape(),
            final(fs).files == old(fs).files,
            old(fs).wf() && old(fs).tree@.dirs.contains_key(old(self).ino()) && old(self).ino() != 1
                && old(fs).tree@.dirs.contains_key(parent.ino()) && parent.ino() != old(self).ino()
                && !has_other_dir(old(fs).tree@, parent.ino(), name@, old(self).ino()) ==> {
                &&& r == Ok::<(), Error>(())
                &&& final(fs).wf()
                &&& final(self).ino() == old(self).ino()
                &&& final(fs).tree@ == dir_hooked(
                    dir_unhooked(old(fs).tree@, old(self).ino()),
                    old(self).ino(),
                    parent.ino(),
                    name@,
                )
                &&& final(fs).dirs.room() == old(fs).dirs.room()
                &&& forall|i: u32|
                    i != old(self).ticket.index ==> #[trigger] final(fs).dirs.handles(i) == old(fs).dirs.handles(i)
                &&& 0 < old(fs).dirs.handles(old(self).ticket.index) < u32::MAX ==> final(fs).dirs.handles(old(self).ticket.index) == old(fs).dirs.handles(
                    old(self).ticket.index,
                )
            },
    {
        let ghost t = fs.tree@;
        let ghost d = self.ino();
        let ghost p = parent.ino();
        let ghost wf = fs.wf() && t.dirs.contains_key(d) && d != 1 && t.dirs.contains_key(p) && p
            != d && !has_other_dir(t, p, name@, d);
        let ghost dirs = fs.dirs.entries();
        let ghost files = fs.files.entries();
        let (info, _) = match fs.dirs.get_at(self.ticket.index) {
            Ok(found) => found,
            Err(e) => {
                return make_error(e);
            },
        };
        proof {
            lemma_same_meta(old(fs).dirs, fs.dirs);
            if wf {
                assert(dirs.contains_key(d));
                assert(dir_row(t, d, dirs[d]));
                assert(dirs.contains_key(p));
                lemma_has_dir(dirs, files, t, p, name@);
            }
        }
        if let Err(e) = unlink_dir(fs, self.ticket.index) {
            return make_error(e);
        }
        let ghost u = fs.tree@;
        let ghost d1 = fs.dirs.entries();
        proof {
            if wf {
                assert(u.dirs.contains_key(p));
                assert(d1.contains_key(p));
                assert forall|e: int| #[trigger] d1.contains_key(e) implies d1[e].0 != key_of(
                    p,
                    name@,
                ) by {
                    assert(dir_row(u, e, d1[e]));
                    assert(t.dirs.contains_key(e));
                    if d1[e].0 == key_of(p, name@) {
                        assert(dirs.contains_key(e));
                        assert(dir_row(t, e, dirs[e]));
                        assert(e != d);
                        assert(dirs[e].0 == key_of(p, name@));
                        assert(t.dirs[e].parent == p && t.dirs[e].name == name@);
                    }
                }
            }
        }
        let made = match parent.link_dir(fs, name, &info) {
            Ok(made) => made,
            Err(e) => {
                return make_error(e);
            },
        };
        let ghost mid = *fs;
        let index: u32 = self.ticket.index;
        (RefTicket { index }).release(&mut fs.dirs);
        self.ticket = made.ticket;
        fs.tree = Ghost(dir_hooked(u, d, p, name@));
        proof {
            lemma_ticket_meta(mid.dirs, fs.dirs);
            if wf {
                let first = le32(d1[p].1, 4);
                assert(dir_row(u, p, d1[p]));
                lemma_le32_bound(d1[p].1, 4);
                lemma_with32(info@, 0, first);
                lemma_dir_put(d1, files, u, d, p, name@, with32(info@, 0, first));
            }
        }
        Ok(())
    }
}

/// What adding a directory to directory `p` gives.
pub open spec fn new_dir_gives<F: RandomAccessFile>(
    a: FsMeta<F>,
    b: FsMeta<F>,
    p: int,
    name: Seq<u8>,
    data: Seq<u8>,
    r: Result<DirMeta, Error>,
) -> bool {
    if has_dir(a.tree@, p, name) {
        r == Err::<DirMeta, Error>(Error::AlreadyExist) && same_fs(a, b)
    } else if a.dirs.room() == 0 {
        r == Err::<DirMeta, Error>(Error::NoSpace) && same_fs(a, b)
    } else {
        &&& r matches Ok(d)
        &&& d.ticket.index == a.dirs.next_free()
        &&& !a.tree@.dirs.contains_key(d.ino())
        &&& b.wf()
        &&& b.tree@ == dir_hooked(dir_fresh(a.tree@, d.ino(), data), d.ino(), p, name)
        &&& b.dirs.room() == a.dirs.room() - 1
        &&& b.dirs.handles(d.ticket.index) == a.dirs.handles(d.ticket.index) + 1
            || a.dirs.handles(d.ticket.index) == u32::MAX
        &&& forall|i: u32|
            i != d.ticket.index ==> #[trigger] b.dirs.handles(i) == a.dirs.handles(i)
    }
}

impl FileMeta {
    /// The index of the file.
    pub open spec fn ino(&self) -> int {
        self.ticket.index as int
    }

    /// Opens the file with this index.
    pub fn open_ino<F: RandomAccessFile>(fs: &mut FsMeta<F>, ino: u32) -> (r: Result<
        FileMeta,
        Error,
    >)
        requires
            old(fs).inv(),
        ensures
            final(fs).inv(),
            r matches Ok(f) && f.ino() == ino,
            opened(old(fs).files, final(fs).files, ino),
            final(fs).dirs == old(fs).dirs,
            final(fs).tree == old(fs).tree,
            old(fs).wf() ==> final(fs).wf(),
    {
        let ticket = fs.files.acquire_ticket(ino);
        proof {
            lemma_ticket_meta(old(fs).files, fs.files);
        }
        Ok(FileMeta { ticket })
    }

    /// Closes the handle.
    pub fn close<F: RandomAccessFile>(self, fs: &mut FsMeta<F>)
        requires
            old(fs).inv(),
        ensures
            final(fs).inv(),
            old(fs).wf() ==> final(fs).wf(),
            same_but_handles(old(fs).files, final(fs).files),
            final(fs).dirs == old(fs).dirs,
            final(fs).tree == old(fs).tree,
            old(fs).files.handles(self.ticket.index) > 0 ==> final(fs).files.handles(
                self.ticket.index,
            ) == old(fs).files.handles(self.ticket.index) - 1,
            forall|i: u32|
                i != self.ticket.index ==> #[trigger] final(fs).files.handles(i) == old(fs).files.handles(i),
    {
        self.ticket.release(&mut fs.files);
        proof {
            lemma_ticket_meta(old(fs).files, fs.files);
        }
    }

    /// The index of the directory that the file is in.
    pub fn get_parent_ino<F: RandomAccessFile>(&self, fs: &mut FsMeta<F>) -> (r: Result<u32, Error>)
        requires
            old(fs).inv(),
        ensures
            final(fs).inv(),
            same_fs(*old(fs), *final(fs)),
            old(fs).wf() && old(fs).tree@.files.contains_key(self.ino()) ==> (r matches Ok(p) && p
                == old(fs).tree@.files[self.ino()].parent),
    {
        match fs.files.get_at(self.ticket.index) {
            Ok((_, key)) => {
                proof {
                    if old(fs).wf() && old(fs).tree@.files.contains_key(self.ino()) {
                        let node = old(fs).tree@.files[self.ino()];
                        assert(old(fs).files.entries().contains_key(self.ino()));
                        assert(old(fs).tree@.dirs.contains_key(node.parent));
                        lemma_key_of(node.parent, node.name);
                    }
                }
                Ok(read_u32(&key, 0))
            },
            Err(e) => Err(e),
        }
    }

    /// The index of the file.
    pub fn get_ino(&self) -> (ino: u32)
        ensures
            ino == self.ino(),
    {
        self.ticket.index
    }

    /// What is kept of the file.
    pub fn get_info<F: RandomAccessFile>(&self, fs: &mut FsMeta<F>) -> (r: Result<Vec<u8>, Error>)
        requires
            old(fs).inv(),
        ensures
            final(fs).inv(),
            same_fs(*old(fs), *final(fs)),
            r matches Ok(v) ==> v@.len() == old(fs).files.info_len,
            old(fs).wf() && old(fs).tree@.files.contains_key(self.ino()) ==> (r matches Ok(v)
                && v@.skip(4) == old(fs).tree@.files[self.ino()].data && v@ == old(fs).files.entries()[self.ino()].1),
    {
        match fs.files.get_at(self.ticket.index) {
            Ok((info, _)) => {
                proof {
                    if old(fs).wf() && old(fs).tree@.files.contains_key(self.ino()) {
                        assert(old(fs).files.entries().contains_key(self.ino()));
                        assert(file_row(
                            old(fs).tree@,
                            self.ino(),
                            old(fs).files.entries()[self.ino()],
                        ));
                    }
                }
                Ok(info)
            },
            Err(e) => Err(e),
        }
    }

    /// Sets what is kept of the file. The first word, the next file in the directory, is to be
    /// left as it was read.
    pub fn set_info<F: RandomAccessFile>(&self, fs: &mut FsMeta<F>, info: &[u8]) -> (r: Result<
        (),
        Error,
    >)
        requires
            old(fs).inv(),
            info@.len() == old(fs).files.info_len,
        ensures
            final(fs).inv(),
            final(fs).shape() == old(fs).shape(),
            final(fs).dirs == old(fs).dirs,
            final(fs).files.ref_count == old(fs).files.ref_count,
            old(fs).wf() && old(fs).tree@.files.contains_key(self.ino()) && le32(info@, 0) == le32(
                old(fs).files.entries()[self.ino()].1,
                0,
            ) ==> {
                &&& r == Ok::<(), Error>(())
                &&& final(fs).wf()
                &&& final(fs).tree@ == with_data(old(fs).tree@, self.ino(), info@.skip(4))
                &&& final(fs).files.room() == old(fs).files.room()
                &&& final(fs).files.next_free() == old(fs).files.next_free()
            },
    {
        let ghost t = fs.tree@;
        let ghost files = fs.files.entries();
        let r = fs.files.set(self.ticket.index, info);
        fs.tree = Ghost(with_data(t, self.ino(), info@.skip(4)));
        proof {
            if old(fs).wf() && t.files.contains_key(self.ino()) && le32(info@, 0) == le32(
                files[self.ino()].1,
                0,
            ) {
                assert(files.contains_key(self.ino()));
                lemma_data_set(fs.dirs.entries(), files, t, self.ino(), info@);
            }
        }
        r
    }

    /// Succeeds if this is the only handle to the file.
    pub fn check_exclusive<F: RandomAccessFile>(&self, fs: &FsMeta<F>) -> (r: Result<(), Error>)
        ensures
            r == (if fs.files.handles(self.ticket.index) == 1 {
                Ok::<(), Error>(())
            } else {
                Err::<(), Error>(Error::Busy)
            }),
    {
        self.ticket.check_exclusive(&fs.files)
    }

    /// Deletes the file, which must not be open elsewhere.
    pub fn delete<F: RandomAccessFile>(self, fs: &mut FsMeta<F>) -> (r: Result<(), Error>)
        requires
            old(fs).inv(),
        ensures
            final(fs).inv(),
            final(fs).shape() == old(fs).shape(),
            final(fs).dirs.ref_count == old(fs).dirs.ref_count,
            old(fs).files.handles(self.ticket.index) != 1 ==> {
                &&& r == Err::<(), Error>(Error::Busy)
                &&& same_but_handles(old(fs).files, final(fs).files)
                &&& final(fs).dirs == old(fs).dirs
                &&& final(fs).tree == old(fs).tree
                &&& old(fs).wf() ==> final(fs).wf()
            },
            old(fs).wf() && old(fs).tree@.files.contains_key(self.ino()) && old(fs).files.handles(
                self.ticket.index,
            ) == 1 ==> {
                &&& r == Ok::<(), Error>(())
                &&& final(fs).wf()
                &&& final(fs).tree@ == without_file(old(fs).tree@, self.ino())
                &&& final(fs).files.room() == old(fs).files.room() + 1
                &&& final(fs).files.next_free() == self.ino()
                &&& final(fs).dirs.room() == old(fs).dirs.room()
            },
            forall|i: u32|
                i != self.ticket.index ==> #[trigger] final(fs).files.handles(i) == old(fs).files.handles(i),
            old(fs).files.handles(self.ticket.index) > 0 ==> final(fs).files.handles(
                self.ticket.index,
            ) == old(fs).files.handles(self.ticket.index) - 1,
    {
        let r = match self.ticket.check_exclusive(&fs.files) {
            Ok(_) => unlink_file(fs, self.ticket.index),
            Err(e) => Err(e),
        };
        let ghost mid = *fs;
        self.ticket.release(&mut fs.files);
        proof {
            lemma_ticket_meta(mid.files, fs.files);
        }
        r
    }

    /// Moves the file into a directory, under another name. The index is kept.
    pub fn rename<F: RandomAccessFile>(
        &mut self,
        fs: &mut FsMeta<F>,
        parent: &DirMeta,
        name: &[u8],
    ) -> (r: Result<(), Error>)
        requires
            old(fs).inv(),
            4 + name@.len() == old(fs).files.key_len,
        ensures
            final(fs).inv(),
            final(fs).shape() == old(fs).shape(),
            final(fs).dirs.ref_count == old(fs).dirs.ref_count,
            old(fs).wf() && old(fs).tree@.files.contains_key(old(self).ino())
                && old(fs).tree@.dirs.contains_key(parent.ino()) && !has_other_file(
                old(fs).tree@,
                parent.ino(),
                name@,
                old(self).ino(),
            ) ==> {
                &&& r == Ok::<(), Error>(())
                &&& final(fs).wf()
                &&& final(self).ino() == old(self).ino()
                &&& final(fs).tree@ == with_file(
                    without_file(old(fs).tree@, old(self).ino()),
                    old(self).ino(),
                    parent.ino(),
                    name@,
                    old(fs).tree@.files[old(self).ino()].data,
                )
                &&& final(fs).files.room() == old(fs).files.room()
                &&& final(fs).dirs.room() == old(fs).dirs.room()
                &&& forall|i: u32|
                    i != old(self).ticket.index ==> #[trigger] final(fs).files.handles(i) == old(fs).files.handles(i)
                &&& 0 < old(fs).files.handles(old(self).ticket.index) < u32::MAX ==> final(fs).files.handles(old(self).ticket.index) == old(fs).files.handles(
                    old(self).ticket.index,
                )
            },
    {
        let ghost t = fs.tree@;
        let ghost f = self.ino();
        let ghost p = parent.ino();
        let ghost wf = fs.wf() && t.files.contains_key(f) && t.dirs.contains_key(p)
            && !has_other_file(t, p, name@, f);
        let info = match self.get_info(fs) {
            Ok(info) => info,
            Err(e) => {
                return make_error(e);
            },
        };
        proof {
            lemma_same_fs(*old(fs), *fs);
        }
        if let Err(e) = unlink_file(fs, self.ticket.index) {
            return make_error(e);
        }
        let ghost u = fs.tree@;
        proof {
            if wf {
                assert(u.dirs.contains_key(p));
                assert(!has_file(u, p, name@)) by {
                    if has_file(u, p, name@) {
                        let x = choose|x: int| #[trigger]
                            u.files.contains_key(x) && u.files[x].parent == p && u.files[x].name
                                == name@;
                        assert(t.files.contains_key(x));
                    }
                }
            }
        }
        let made = match parent.new_sub_file(fs, name, &info) {
            Ok(made) => made,
            Err(e) => {
                return make_error(e);
            },
        };
        let ghost mid = *fs;
        let index: u32 = self.ticket.index;
        (RefTicket { index }).release(&mut fs.files);
        self.ticket = made.ticket;
        proof {
            lemma_ticket_meta(mid.files, fs.files);
        }
        Ok(())
    }
}

/// The tree with other data for file `f`.
pub open spec fn with_data(t: Tree, f: int, data: Seq<u8>) -> Tree {
    Tree { files: t.files.insert(f, Node { data, ..t.files[f] }), ..t }
}

proof fn lemma_data_set(
    dirs: Map<int, Row>,
    files: Map<int, Row>,
    t: Tree,
    f: int,
    info: Seq<u8>,
)
    requires
        tree_stored(dirs, files, t, 0),
        files.contains_key(f),
        info.len() >= 4,
        le32(info, 0) == le32(files[f].1, 0),
    ensures
        tree_stored(
            dirs,
            files.insert(f, (files[f].0, info)),
            with_data(t, f, info.skip(4)),
            0,
        ),
{
    let f2 = files.insert(f, (files[f].0, info));
    let u = with_data(t, f, info.skip(4));
    assert(t.files.contains_key(f));
    assert forall|d: int, i: int|
        u.dirs.contains_key(d) && 0 <= i < u.sub_files[d].len() implies ({
        let c = #[trigger] u.file_item(d, i);
        &&& u.files.contains_key(c)
        &&& u.files[c].parent == d
        &&& u.file_pos[c] == i
    }) by {
        assert(t.file_item(d, i) == u.file_item(d, i));
    }
    assert forall|x: int| #[trigger] u.files.contains_key(x) implies ({
        let q = u.files[x].parent;
        &&& u.dirs.contains_key(q)
        &&& 0 <= u.file_pos[x] < u.sub_files[q].len()
        &&& u.file_item(q, u.file_pos[x]) == x
    }) by {
        assert(t.files.contains_key(x));
        let q = t.files[x].parent;
        assert(t.file_item(q, t.file_pos[x]) == x);
    }
    assert forall|d: int, i: int|
        u.dirs.contains_key(d) && 0 <= i < u.sub_dirs[d].len() implies ({
        let c = #[trigger] u.dir_item(d, i);
        &&& u.dirs.contains_key(c)
        &&& c != 1
        &&& c != 0
        &&& u.dirs[c].parent == d
        &&& u.dir_pos[c] == i
    }) by {
        assert(t.dir_item(d, i) == u.dir_item(d, i));
        assert(t.dirs.contains_key(t.dir_item(d, i)));
    }
    assert(tree_ok(u, 0)) by {
        assert forall|d: int| #[trigger] u.dirs.contains_key(d) && d != 1 implies ({
            let q = u.dirs[d].parent;
            &&& u.dirs.contains_key(q)
            &&& q != d
            &&& 0 <= u.dir_pos[d] < u.sub_dirs[q].len()
            &&& u.dir_item(q, u.dir_pos[d]) == d
        }) by {
            assert(t.dirs.contains_key(d));
        }
    }
    assert forall|x: int| #[trigger] f2.contains_key(x) implies u.files.contains_key(x) && file_row(
        u,
        x,
        f2[x],
    ) by {
        assert(files.contains_key(x));
        assert(file_row(t, x, files[x]));
    }
    assert forall|d: int| #[trigger] dirs.contains_key(d) implies u.dirs.contains_key(d) && dir_row(
        u,
        d,
        dirs[d],
    ) by {
        assert(dir_row(t, d, dirs[d]));
    }
}

/// The tree with nothing but the root directory.
pub open spec fn root_tree(name_len: nat, data_len: nat) -> Tree {
    Tree {
        dirs: map![
            1int => Node {
                parent: 0,
                name: Seq::new(name_len, |i: int| 0u8),
                data: Seq::new(data_len, |i: int| 0u8),
            },
        ],
        files: Map::empty(),
        sub_dirs: map![1int => Seq::<int>::empty()],
        sub_files: map![1int => Seq::<int>::empty()],
        dir_pos: Map::empty(),
        file_pos: Map::empty(),
    }
}

/// The four files hold an archive.
pub open spec fn fs_stored<F: Content>(
    dir_hash: F,
    dir_table: F,
    file_hash: F,
    file_table: F,
    lens: (int, int, int, int),
    g: Lists,
    h: Lists,
    t: Tree,
) -> bool {
    &&& stored(dir_hash, dir_table, lens.0, lens.1, g)
    &&& stored(file_hash, file_table, lens.2, lens.3, h)
    &&& tree_stored(
        entries(crate::meta_table::model_of(dir_hash, dir_table, lens.0, lens.1), g),
        entries(crate::meta_table::model_of(file_hash, file_table, lens.2, lens.3), h),
        t,
        0,
    )
}

/// The lengths of the keys and infos of an archive.
#[derive(Clone, Copy, PartialEq, Eq, Structural, Debug)]
pub struct MetaLayout {
    pub dir_key_len: usize,
    pub dir_info_len: usize,
    pub file_key_len: usize,
    pub file_info_len: usize,
}

impl MetaLayout {
    pub open spec fn ok(self) -> bool {
        &&& self.dir_key_len % 4 == 0
        &&& self.file_key_len % 4 == 0
        &&& 4 <= self.dir_key_len
        &&& 4 <= self.file_key_len
        &&& 12 <= self.dir_info_len
        &&& 4 <= self.file_info_len
        &&& self.dir_key_len + self.dir_info_len + 4 <= usize::MAX
        &&& self.file_key_len + self.file_info_len + 4 <= usize::MAX
    }

    /// The entries are so short that the lengths of tables can be counted in 64 bits.
    pub open spec fn short(self) -> bool {
        &&& self.ok()
        &&& self.dir_key_len + self.dir_info_len <= 0x800
        &&& self.file_key_len + self.file_info_len <= 0x800
    }

    pub open spec fn lens(self) -> (int, int, int, int) {
        (
            self.dir_key_len as int,
            self.dir_info_len as int,
            self.file_key_len as int,
            self.file_info_len as int,
        )
    }
}

impl<F: RandomAccessFile> FsMeta<F> {
    /// Makes the four files hold an archive with nothing but the root directory, and opens it.
    /// The entry counts are for the tables, the header of each being one.
    pub fn format(
        dir_hash: F,
        dir_table: F,
        dir_entry_count: usize,
        file_hash: F,
        file_table: F,
        file_entry_count: usize,
        layout: MetaLayout,
    ) -> (r: Result<FsMeta<F>, Error>)
        requires
            dir_hash.inv(),
            dir_table.inv(),
            file_hash.inv(),
            file_table.inv(),
            layout.ok(),
            4 <= dir_hash.bytes().len(),
            dir_hash.bytes().len() % 4 == 0,
            4 <= file_hash.bytes().len(),
            file_hash.bytes().len() % 4 == 0,
            2 <= dir_entry_count <= u32::MAX,
            1 <= file_entry_count <= u32::MAX,
            dir_entry_count * (layout.dir_key_len + layout.dir_info_len + 4)
                <= dir_table.bytes().len(),
            file_entry_count * (layout.file_key_len + layout.file_info_len + 4)
                <= file_table.bytes().len(),
            layout.file_key_len + layout.file_info_len >= 8,
        ensures
            r matches Ok(fs) && fs.wf() && fs.tree@ == root_tree(
                (layout.dir_key_len - 4) as nat,
                (layout.dir_info_len - 12) as nat,
            ) && fs.dirs.room() == dir_entry_count - 2 && fs.files.room() == file_entry_count - 1
                && fs.dirs.model().max() == dir_entry_count && fs.files.model().max()
                == file_entry_count && fs.shape() == (
                (
                    layout.dir_key_len,
                    layout.dir_info_len,
                    dir_hash.bytes().len() as int,
                    dir_table.bytes().len() as int,
                ),
                (
                    layout.file_key_len,
                    layout.file_info_len,
                    file_hash.bytes().len() as int,
                    file_table.bytes().len() as int,
                ),
            ) && (forall|i: u32| #[trigger] fs.dirs.handles(i) == 0) && (forall|i: u32| #[trigger]
                fs.files.handles(i) == 0),
    {
        let mut dir_hash = dir_hash;
        let mut dir_table = dir_table;
        let mut file_hash = file_hash;
        let mut file_table = file_table;
        if let Err(e) = MetaTable::format(
            &mut dir_hash,
            &mut dir_table,
            dir_entry_count,
            layout.dir_key_len,
            layout.dir_info_len,
        ) {
            return make_error(e);
        }
        if let Err(e) = MetaTable::format(
            &mut file_hash,
            &mut file_table,
            file_entry_count,
            layout.file_key_len,
            layout.file_info_len,
        ) {
            return make_error(e);
        }
        let mut dirs = match MetaTable::new(
            dir_hash,
            dir_table,
            layout.dir_key_len,
            layout.dir_info_len,
        ) {
            Ok(dirs) => dirs,
            Err(e) => {
                return make_error(e);
            },
        };
        let mut files = match MetaTable::new(
            file_hash,
            file_table,
            layout.file_key_len,
            layout.file_info_len,
        ) {
            Ok(files) => files,
            Err(e) => {
                return make_error(e);
            },
        };
        dirs.lists = Ghost(no_lists(dirs.model().heads.len()));
        files.lists = Ghost(no_lists(files.model().heads.len()));
        let ghost d0 = dirs;
        let key: Vec<u8> = vec![0u8; layout.dir_key_len];
        let info: Vec<u8> = vec![0u8; layout.dir_info_len];
        proof {
            assert(d0.wf());
            assert(files.wf());
            lemma_absent(d0, key@);
        }
        let root: u32 = match dirs.add(&key, &info) {
            Ok(root) => root,
            Err(e) => {
                return make_error(e);
            },
        };
        let ghost t = root_tree(
            (layout.dir_key_len - 4) as nat,
            (layout.dir_info_len - 12) as nat,
        );
        let fs = FsMeta { dirs, files, tree: Ghost(t) };
        proof {
            let rows = dirs.entries();
            assert(rows == d0.entries().insert(1, (key@, info@)));
            lemma_zeros_32(info@, 4);
            lemma_zeros_32(info@, 8);
            lemma_zeros_32(info@, 0);
            assert(info@.skip(12) =~= t.dirs[1].data);
            assert(key@ =~= key_of(0, t.dirs[1].name)) by {
                lemma_zero_key();
                lemma_key_of(0, t.dirs[1].name);
            }
            assert(dir_row(t, 1, rows[1]));
            assert(tree_stored(rows, files.entries(), t, 0));
        }
        Ok(fs)
    }

    /// Opens the archive that the four files hold.
    pub fn new(
        dir_hash: F,
        dir_table: F,
        file_hash: F,
        file_table: F,
        layout: MetaLayout,
    ) -> (r: Result<FsMeta<F>, Error>)
        requires
            dir_hash.inv(),
            dir_table.inv(),
            file_hash.inv(),
            file_table.inv(),
            layout.ok(),
            layout.file_key_len + layout.file_info_len >= 8,
        ensures
            dir_hash.bytes().len() % 4 != 0 || dir_hash.bytes().len() == 0
                || file_hash.bytes().len() % 4 != 0 || file_hash.bytes().len() == 0 ==> r == Err::<
                FsMeta<F>,
                Error,
            >(Error::SizeMismatch),
            dir_hash.bytes().len() % 4 == 0 && dir_hash.bytes().len() > 0
                && file_hash.bytes().len() % 4 == 0 && file_hash.bytes().len() > 0 ==> {
                &&& r matches Ok(fs)
                &&& fs.inv()
                &&& fs.dirs.hash == dir_hash
                &&& fs.dirs.table == dir_table
                &&& fs.files.hash == file_hash
                &&& fs.files.table == file_table
                &&& fs.dirs.key_len == layout.dir_key_len
                &&& fs.dirs.info_len == layout.dir_info_len
                &&& fs.files.key_len == layout.file_key_len
                &&& fs.files.info_len == layout.file_info_len
                &&& fs.dirs.ref_count@ == Map::<u32, u32>::empty()
                &&& fs.files.ref_count@ == Map::<u32, u32>::empty()
                &&& forall|g: Lists, h: Lists, t: Tree| #[trigger]
                    fs_stored(
                        dir_hash,
                        dir_table,
                        file_hash,
                        file_table,
                        layout.lens(),
                        g,
                        h,
                        t,
                    ) ==> fs.wf()
            },
    {
        let ghost w = choose|w: (Lists, Lists, Tree)| #[trigger]
            fs_stored(
                dir_hash,
                dir_table,
                file_hash,
                file_table,
                layout.lens(),
                w.0,
                w.1,
                w.2,
            );
        let mut dirs = match MetaTable::new(
            dir_hash,
            dir_table,
            layout.dir_key_len,
            layout.dir_info_len,
        ) {
            Ok(dirs) => dirs,
            Err(e) => {
                return make_error(e);
            },
        };
        let mut files = match MetaTable::new(
            file_hash,
            file_table,
            layout.file_key_len,
            layout.file_info_len,
        ) {
            Ok(files) => files,
            Err(e) => {
                return make_error(e);
            },
        };
        dirs.lists = Ghost(w.0);
        files.lists = Ghost(w.1);
        let fs = FsMeta { dirs, files, tree: Ghost(w.2) };
        proof {
            assert forall|g: Lists, h: Lists, t: Tree| #[trigger]
                fs_stored(
                    dir_hash,
                    dir_table,
                    file_hash,
                    file_table,
                    layout.lens(),
                    g,
                    h,
                    t,
                ) implies fs.wf() by {
                let v = (g, h, t);
                assert(fs_stored(
                    dir_hash,
                    dir_table,
                    file_hash,
                    file_table,
                    layout.lens(),
                    v.0,
                    v.1,
                    v.2,
                ));
            }
        }
        Ok(fs)
    }
}

proof fn lemma_zeros_32(s: Seq<u8>, p: int)
    requires
        0 <= p,
        p + 4 <= s.len(),
        forall|i: int| 0 <= i < s.len() ==> #[trigger] s[i] == 0,
    ensures
        le32(s, p) == 0,
{
    crate::meta_table::lemma_zero_bytes(s.subrange(p, p + 4));
}

proof fn lemma_zero_key()
    ensures
        le_bytes(0, 4) == seq![0u8, 0u8, 0u8, 0u8],
{
    let z = seq![0u8, 0u8, 0u8, 0u8];
    crate::meta_table::lemma_zero_bytes(z);
    crate::little_endian::lemma_le_bytes_of_number(z);
}

/// Counting handles does not touch what the table holds.
pub proof fn lemma_ticket_meta<F: RandomAccessFile>(a: MetaTable<F>, b: MetaTable<F>)
    requires
        b == (MetaTable { ref_count: b.ref_count, ..a }),
    ensures
        a.wf() ==> b.wf(),
        a.inv() ==> b.inv(),
        b.entries() == a.entries(),
        b.room() == a.room(),
        b.next_free() == a.next_free(),
        b.shape() == a.shape(),
{
}

} // verus!
