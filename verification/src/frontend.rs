use crate::error::Error;
use crate::names::NameType;
use crate::options::parse_decimal;
use crate::volume::{File, Volume};
use crate::volume_dir::Dir;
use vstd::prelude::*;

verus! {

use crate::fs_meta::{has_dir, has_file, lists};
use crate::fs_tree::{
    dir_dropped, dir_fresh, dir_hooked, dir_row, dir_unhooked, file_row, lemma_key_of, with_file,
    without_file, Tree,
};
use crate::meta_table::lemma_key_len;
use crate::misc::counted;
use crate::options::decimal;
use crate::volume::{
    blocks_lost, dir_opened, file_put, file_resized, fixed, fs_sound, kept_sound, lemma_read_bounds, others_same,
    same_handles, same_volume,
};
use crate::volume_dir::{as_before, file_is, file_made, taken};

/// The errors that the host is answered with.
#[derive(Clone, Copy, PartialEq, Eq, Structural, Debug)]
pub enum Errno {
    ReadOnly,
    NameTooLong,
    NotDirectory,
    Io,
    NotFound,
    Exists,
    NoSpace,
    NotEmpty,
    IsDirectory,
    BadHandle,
    NotImplemented,
}

/// The number of a directory or of a file.
#[derive(Clone, Copy, PartialEq, Eq, Structural, Debug)]
pub enum Ino {
    Dir(u32),
    File(u32),
}

impl Ino {
    /// The number that the host knows a directory or a file by. Files come after all directories.
    pub open spec fn os(self) -> int {
        match self {
            Ino::Dir(i) => i as int,
            Ino::File(i) => i + 0x1_0000_0000,
        }
    }

    /// The number for the host.
    pub fn to_os(&self) -> (r: u64)
        ensures
            r == self.os(),
    {
        match self {
            Ino::Dir(i) => *i as u64,
            Ino::File(i) => *i as u64 + 0x1_0000_0000,
        }
    }

    /// What a number of the host stands for.
    pub open spec fn of(os: u64) -> Ino {
        if os >= 0x1_0000_0000 {
            Ino::File(((os - 0x1_0000_0000) % 0x1_0000_0000) as u32)
        } else {
            Ino::Dir(os as u32)
        }
    }

    /// What a number of the host stands for.
    pub fn from_os(ino: u64) -> (r: Ino)
        ensures
            r == Ino::of(ino),
    {
        if ino >= 0x1_0000_0000 {
            Ino::File(((ino - 0x1_0000_0000) % 0x1_0000_0000) as u32)
        } else {
            Ino::Dir(ino as u32)
        }
    }
}

/// The host finds what it was told the number of.
pub proof fn law_ino_round_trip(i: Ino)
    ensures
        0 <= i.os() <= u64::MAX,
        Ino::of(i.os() as u64) == i,
{
}

/// What the host is told of a file or directory.
#[derive(Clone, Copy, PartialEq, Eq, Structural, Debug)]
pub struct Attr {
    pub ino: u64,
    pub is_dir: bool,
    pub size: u64,
    pub blocks: u64,
    pub perm: u16,
    pub nlink: u32,
}

pub open spec fn dir_attr(read_only: bool, ino: int, sub_dirs: int) -> Attr {
    Attr {
        ino: ino as u64,
        is_dir: true,
        size: 0,
        blocks: 0,
        perm: if read_only {
            0x16D
        } else {
            0x1ED
        },
        nlink: (2 + sub_dirs) as u32,
    }
}

pub open spec fn file_attr(read_only: bool, ino: int, size: int) -> Attr {
    Attr {
        ino: (ino + 0x1_0000_0000) as u64,
        is_dir: false,
        size: size as u64,
        blocks: 1,
        perm: if read_only {
            0x124
        } else {
            0x1A4
        },
        nlink: 1,
    }
}

/// What the host is told of a directory: it can be read and entered by everyone, and written by its
/// owner unless the archive is read-only.
pub fn make_dir_attr(read_only: bool, ino: u32, sub_dirs: usize) -> (r: Attr)
    requires
        sub_dirs <= u32::MAX - 2,
    ensures
        r == dir_attr(read_only, ino as int, sub_dirs as int),
{
    Attr {
        ino: Ino::Dir(ino).to_os(),
        is_dir: true,
        size: 0,
        blocks: 0,
        perm: if read_only {
            0x16D
        } else {
            0x1ED
        },
        nlink: 2 + sub_dirs as u32,
    }
}

/// What the host is told of a file: it can be read by everyone, and written by its owner unless the
/// archive is read-only.
pub fn make_file_attr(read_only: bool, ino: u32, size: usize) -> (r: Attr)
    ensures
        r == file_attr(read_only, ino as int, size as int),
{
    Attr {
        ino: Ino::File(ino).to_os(),
        is_dir: false,
        size: size as u64,
        blocks: 1,
        perm: if read_only {
            0x124
        } else {
            0x1A4
        },
        nlink: 1,
    }
}

/// Names of a kind can be looked up in a volume.
pub open spec fn names_of(v: Volume, k: NameType) -> bool {
    v.fs.files.key_len == 4 + k.len()
}

/// A directory has a directory with a name. Where directories have no names, it has none.
pub open spec fn has_sub_dir(v: Volume, p: int, name: Seq<u8>) -> bool {
    v.fs.dirs.key_len == 4 + name.len() && has_dir(v.tree(), p, name)
}

/// A directory of the tree is in another one under a name.
pub open spec fn dir_is(t: Tree, d: int, p: int, name: Seq<u8>) -> bool {
    t.dirs.contains_key(d) && t.dirs[d].parent == p && t.dirs[d].name == name
}

/// The tables are in order, and there is room for some more handles on everything.
pub open spec fn steady(v: Volume) -> bool {
    &&& v.framed()
    &&& forall|i: u32| #[trigger] v.fs.files.handles(i) < 0xFFFF_FF00
    &&& forall|i: u32| #[trigger] v.fs.dirs.handles(i) < 0xFFFF_FF00
}

/// The volume is in order, and there is room for some more handles on everything.
pub open spec fn at_rest(v: Volume) -> bool {
    steady(v) && v.sound()
}

/// Nothing has changed.
pub open spec fn untouched(a: Volume, b: Volume) -> bool {
    &&& b.inv()
    &&& same_volume(a, b)
    &&& steady(a) ==> steady(b) && same_handles(a, b)
    &&& at_rest(a) ==> at_rest(b)
}

/// Opens a directory by name. Where directories have no names, there is none.
fn open_named_dir(vol: &mut Volume, dir: &Dir, name: &[u8]) -> (r: Option<Dir>)
    requires
        old(vol).inv(),
    ensures
        final(vol).inv(),
        same_volume(*old(vol), *final(vol)),
        r matches Some(d) ==> old(vol).fs.dirs.key_len == 4 + name@.len() && dir_opened(
            *old(vol),
            *final(vol),
            d.meta.ticket.index,
        ),
        r is None ==> same_handles(*old(vol), *final(vol)),
        old(vol).sound() ==> final(vol).sound(),
        old(vol).framed() ==> final(vol).framed() && match r {
            Some(d) => dir_is(old(vol).tree(), d.ino(), dir.ino(), name@),
            None => !has_sub_dir(*old(vol), dir.ino(), name@),
        },
{
    if vol.fs.dirs.key_len < 4 || vol.fs.dirs.key_len - 4 != name.len() {
        return None;
    }
    match dir.open_sub_dir(vol, name) {
        Ok(d) => Some(d),
        Err(_) => None,
    }
}

/// What the host is told of a directory, which is closed.
fn attr_of_dir(vol: &mut Volume, dir: Dir, read_only: bool) -> (r: Result<Attr, Errno>)
    requires
        old(vol).inv(),
    ensures
        final(vol).inv(),
        same_volume(*old(vol), *final(vol)),
        old(vol).framed() ==> final(vol).framed(),
        old(vol).sound() ==> final(vol).sound(),
        old(vol).fs.dirs.handles(dir.meta.ticket.index) > 0 ==> final(vol).fs.dirs.handles(
            dir.meta.ticket.index,
        ) == old(vol).fs.dirs.handles(dir.meta.ticket.index) - 1,
        forall|i: u32|
            i != dir.meta.ticket.index ==> #[trigger] final(vol).fs.dirs.handles(i) == old(
                vol,
            ).fs.dirs.handles(i),
        forall|i: u32| #[trigger] final(vol).fs.files.handles(i) == old(vol).fs.files.handles(i),
        old(vol).framed() && old(vol).tree().dirs.contains_key(dir.ino()) ==> r == dir_answer(
            *old(vol),
            read_only,
            dir.ino(),
        ),
{
    let ino: u32 = dir.get_ino();
    let found = dir.list_sub_dir(vol);
    dir.close(vol);
    match found {
        Ok(list) => {
            let n: usize = list.len();
            if n > u32::MAX as usize - 2 {
                return Err(Errno::Io);
            }
            Ok(make_dir_attr(read_only, ino, n))
        },
        Err(_) => Err(Errno::Io),
    }
}

/// The answer for a directory. Only so many directories in it can be counted.
pub open spec fn dir_answer(v: Volume, read_only: bool, d: int) -> Result<Attr, Errno> {
    if v.tree().sub_dirs[d].len() <= u32::MAX - 2 {
        Ok(dir_attr(read_only, d, v.tree().sub_dirs[d].len() as int))
    } else {
        Err(Errno::Io)
    }
}

/// The answer for a name in a directory: the directory with that name, or else the file.
pub open spec fn lookup_gives(
    v: Volume,
    read_only: bool,
    p: int,
    name: Seq<u8>,
    r: Result<Attr, Errno>,
) -> bool {
    if has_sub_dir(v, p, name) {
        exists|d: int| #[trigger] dir_is(v.tree(), d, p, name) && r == dir_answer(v, read_only, d)
    } else if has_file(v.tree(), p, name) {
        exists|f: int| #[trigger]
            file_is(v.tree(), f, p, name) && r == Ok::<Attr, Errno>(
                file_attr(read_only, f, v.size(f)),
            )
    } else {
        r == Err::<Attr, Errno>(Errno::NotFound)
    }
}

/// Looks a name up in a directory.
pub fn lookup(vol: &mut Volume, kind: NameType, read_only: bool, parent: u64, text: &[u8]) -> (r:
    Result<Attr, Errno>)
    requires
        old(vol).inv(),
        names_of(*old(vol), kind),
    ensures
        untouched(*old(vol), *final(vol)),
        match (kind.parsed_os(text@), Ino::of(parent)) {
            (None, _) => r == Err::<Attr, Errno>(Errno::NameTooLong),
            (Some(_), Ino::File(_)) => r == Err::<Attr, Errno>(Errno::NotDirectory),
            (Some(n), Ino::Dir(p)) => at_rest(*old(vol)) ==> lookup_gives(
                *old(vol),
                read_only,
                p as int,
                n.0,
                r,
            ),
        },
{
    let ghost a = *vol;
    let name = match kind.name_os_to_3ds(text) {
        Some((n, _)) => n,
        None => {
            return Err(Errno::NameTooLong);
        },
    };
    let ino: u32 = match Ino::from_os(parent) {
        Ino::File(_) => {
            return Err(Errno::NotDirectory);
        },
        Ino::Dir(i) => i,
    };
    let dir = match vol.open_dir(ino) {
        Ok(d) => d,
        Err(_) => {
            return Err(Errno::Io);
        },
    };
    let found = open_named_dir(vol, &dir, &name);
    match found {
        Some(d) => {
            let ghost di = d.ino();
            let r = attr_of_dir(vol, d, read_only);
            dir.close(vol);
            assert(a.sound() ==> dir_is(a.tree(), di, ino as int, name@));
            r
        },
        None => {
            let found = dir.open_sub_file(vol, &name);
            match found {
                Ok(f) => {
                    let r = make_file_attr(read_only, f.get_ino(), f.len());
                    let ghost fi = f.ino();
                    f.close(vol);
                    dir.close(vol);
                    assert(a.sound() ==> file_is(a.tree(), fi, ino as int, name@));
                    Ok(r)
                },
                Err(_) => {
                    dir.close(vol);
                    Err(Errno::NotFound)
                },
            }
        },
    }
}

/// Tells the host of a file or directory by its number.
pub fn getattr(vol: &mut Volume, read_only: bool, ino: u64) -> (r: Result<Attr, Errno>)
    requires
        old(vol).inv(),
    ensures
        untouched(*old(vol), *final(vol)),
        match Ino::of(ino) {
            Ino::File(f) => at_rest(*old(vol)) && old(vol).tree().files.contains_key(f as int)
                ==> r == Ok::<Attr, Errno>(
                file_attr(read_only, f as int, old(vol).size(f as int)),
            ),
            Ino::Dir(d) => steady(*old(vol)) && old(vol).tree().dirs.contains_key(d as int) ==> r
                == dir_answer(*old(vol), read_only, d as int),
        },
{
    match Ino::from_os(ino) {
        Ino::File(i) => match vol.open_file(i) {
            Ok(f) => {
                let r = make_file_attr(read_only, f.get_ino(), f.len());
                f.close(vol);
                Ok(r)
            },
            Err(_) => Err(Errno::NotFound),
        },
        Ino::Dir(i) => match vol.open_dir(i) {
            Ok(d) => attr_of_dir(vol, d, read_only),
            Err(_) => Err(Errno::NotFound),
        },
    }
}

/// Volumes that hold the same have the same files.
proof fn lemma_same_files(a: Volume, b: Volume)
    requires
        same_volume(a, b),
    ensures
        forall|g: int| #[trigger] b.content(g) == a.content(g),
        forall|g: int, x: int, y: int| #[trigger]
            b.content_readable(g, x, y) == a.content_readable(g, x, y),
{
}

/// The blocks of a file are lost just so between volumes that hold the same.
proof fn lemma_lost_same(a: Volume, b: Volume, c: Volume, d: Volume, f: int)
    requires
        same_volume(a, b),
        blocks_lost(b, c, f),
        same_volume(c, d),
        d.framed(),
        c.sound() ==> d.sound(),
    ensures
        blocks_lost(a, d, f),
{
    lemma_same_files(a, b);
    lemma_same_files(c, d);
    assert forall|g: int| g != f implies #[trigger] d.content(g) == a.content(g) by {
        assert(c.content(g) == b.content(g));
    }
    assert forall|g: int, x: int, y: int| g != f implies #[trigger] d.content_readable(g, x, y)
        == a.content_readable(g, x, y) by {
        assert(c.content_readable(g, x, y) == b.content_readable(g, x, y));
    }
    assert forall|g: int| g != f implies (#[trigger] d.chains@.contains_key(g)
        == a.chains@.contains_key(g)) && d.chains@[g] == a.chains@[g] by {
        assert(c.chains@.contains_key(g) == b.chains@.contains_key(g));
    }
    assert(d.tree() == a.tree());
}

/// What the host is told where something cannot be made.
pub open spec fn not_made_errno(e: Error) -> Errno {
    match e {
        Error::AlreadyExist => Errno::Exists,
        Error::NoSpace => Errno::NoSpace,
        _ => Errno::Io,
    }
}

/// Tells the host why something cannot be made.
pub fn not_made(e: Error) -> (r: Errno)
    ensures
        r == not_made_errno(e),
{
    match e {
        Error::AlreadyExist => Errno::Exists,
        Error::NoSpace => Errno::NoSpace,
        _ => Errno::Io,
    }
}

/// The number that an argument gives, or 0.
pub open spec fn argument_size(t: Seq<u8>) -> int {
    match decimal(t) {
        Some(n) => n,
        None => 0,
    }
}

/// What making a file gives.
pub open spec fn mknod_gives(
    a: Volume,
    b: Volume,
    read_only: bool,
    p: int,
    name: Seq<u8>,
    size: int,
    r: Result<Attr, Errno>,
) -> bool {
    &&& b.sound()
    &&& if taken(a, p, name) {
        r == Err::<Attr, Errno>(Errno::Exists) && as_before(a, b)
    } else if a.fat.free_count() < counted(size, a.block_len()) || a.fs.files.room() == 0 {
        r == Err::<Attr, Errno>(Errno::NoSpace) && as_before(a, b)
    } else {
        exists|f: int| #[trigger]
            file_made(a, b, f, p, name, size) && r == Ok::<Attr, Errno>(file_attr(read_only, f, 0))
    }
}

/// Makes a file. Its size can be given behind its name.
pub fn mknod(vol: &mut Volume, kind: NameType, read_only: bool, parent: u64, text: &[u8]) -> (r:
    Result<Attr, Errno>)
    requires
        old(vol).inv(),
        names_of(*old(vol), kind),
    ensures
        final(vol).inv(),
        fixed(*old(vol), *final(vol)),
        match (kind.parsed_os(text@), Ino::of(parent)) {
            _ if read_only => r == Err::<Attr, Errno>(Errno::ReadOnly) && *final(vol) == *old(vol),
            (None, _) => r == Err::<Attr, Errno>(Errno::NameTooLong) && *final(vol) == *old(vol),
            (Some(_), Ino::File(_)) => r == Err::<Attr, Errno>(Errno::NotDirectory) && *final(vol)
                == *old(vol),
            (Some(n), Ino::Dir(p)) => at_rest(*old(vol)) && old(vol).tree().dirs.contains_key(
                p as int,
            ) ==> mknod_gives(
                *old(vol),
                *final(vol),
                read_only,
                p as int,
                n.0,
                argument_size(n.1),
                r,
            ),
        },
{
    if read_only {
        return Err(Errno::ReadOnly);
    }
    let (name, argument) = match kind.name_os_to_3ds(text) {
        Some(v) => v,
        None => {
            return Err(Errno::NameTooLong);
        },
    };
    let size: usize = match parse_decimal(&argument) {
        Some(n) => n,
        None => 0,
    };
    let ino: u32 = match Ino::from_os(parent) {
        Ino::File(_) => {
            return Err(Errno::NotDirectory);
        },
        Ino::Dir(i) => i,
    };
    let ghost a = *vol;
    let dir = match vol.open_dir(ino) {
        Ok(d) => d,
        Err(_) => {
            return Err(Errno::Io);
        },
    };
    let ghost b = *vol;
    let made = dir.new_sub_file(vol, &name, size);
    let ghost c = *vol;
    let r = match made {
        Ok(f) => {
            let i: u32 = f.get_ino();
            f.close(vol);
            Ok(make_file_attr(read_only, i, 0))
        },
        Err(e) => Err(not_made(e)),
    };
    let ghost d = *vol;
    dir.close(vol);
    proof {
        lemma_same_files(a, b);
        lemma_same_files(d, *vol);
        if made is Ok {
            lemma_same_files(c, d);
            let f = made->Ok_0.ino();
            if at_rest(a) && a.tree().dirs.contains_key(ino as int) && !taken(a, ino as int, name@)
                && made is Ok {
                assert(file_made(b, c, f, ino as int, name@, size as int));
                assert(file_made(a, *vol, f, ino as int, name@, size as int));
            }
        }
    }
    r
}

/// What making a directory gives.
pub open spec fn mkdir_gives(
    a: Volume,
    b: Volume,
    read_only: bool,
    p: int,
    name: Seq<u8>,
    r: Result<Attr, Errno>,
) -> bool {
    &&& kept_sound(a, b)
    &&& if a.fs.dirs.key_len != 4 + name.len() {
        r == Err::<Attr, Errno>(Errno::Io) && as_before(a, b)
    } else if taken(a, p, name) {
        r == Err::<Attr, Errno>(Errno::Exists) && as_before(a, b)
    } else if a.fs.dirs.room() == 0 {
        r == Err::<Attr, Errno>(Errno::NoSpace) && as_before(a, b)
    } else {
        exists|d: int| #[trigger]
            dir_made(a, b, d, p, name) && r == Ok::<Attr, Errno>(dir_attr(read_only, d, 0))
    }
}

/// A directory has been made, and no file has changed.
pub open spec fn dir_made(a: Volume, b: Volume, d: int, p: int, name: Seq<u8>) -> bool {
    &&& !a.tree().dirs.contains_key(d)
    &&& b.tree() == dir_hooked(
        dir_fresh(
            a.tree(),
            d,
            Seq::new((a.fs.dirs.info_len - 12) as nat, |i: int| 0u8),
        ),
        d,
        p,
        name,
    )
    &&& forall|g: int| a.tree().files.contains_key(g) ==> #[trigger] b.content(g) == a.content(g)
}

/// Makes a directory.
pub fn mkdir(vol: &mut Volume, kind: NameType, read_only: bool, parent: u64, text: &[u8]) -> (r:
    Result<Attr, Errno>)
    requires
        old(vol).inv(),
        names_of(*old(vol), kind),
    ensures
        final(vol).inv(),
        fixed(*old(vol), *final(vol)),
        match (kind.parsed_os(text@), Ino::of(parent)) {
            _ if read_only => r == Err::<Attr, Errno>(Errno::ReadOnly) && *final(vol) == *old(vol),
            (None, _) => r == Err::<Attr, Errno>(Errno::NameTooLong) && *final(vol) == *old(vol),
            (Some(_), Ino::File(_)) => r == Err::<Attr, Errno>(Errno::NotDirectory) && *final(vol)
                == *old(vol),
            (Some(n), Ino::Dir(p)) => steady(*old(vol)) && old(vol).tree().dirs.contains_key(
                p as int,
            ) ==> mkdir_gives(*old(vol), *final(vol), read_only, p as int, n.0, r),
        },
{
    if read_only {
        return Err(Errno::ReadOnly);
    }
    let name = match kind.name_os_to_3ds(text) {
        Some((n, _)) => n,
        None => {
            return Err(Errno::NameTooLong);
        },
    };
    let ino: u32 = match Ino::from_os(parent) {
        Ino::File(_) => {
            return Err(Errno::NotDirectory);
        },
        Ino::Dir(i) => i,
    };
    if vol.fs.dirs.key_len < 4 || vol.fs.dirs.key_len - 4 != name.len() {
        return Err(Errno::Io);
    }
    let ghost a = *vol;
    let dir = match vol.open_dir(ino) {
        Ok(d) => d,
        Err(_) => {
            return Err(Errno::Io);
        },
    };
    let ghost b = *vol;
    let made = dir.new_sub_dir(vol, &name);
    let ghost c = *vol;
    let r = match made {
        Ok(d) => {
            let i: u32 = d.get_ino();
            d.close(vol);
            Ok(make_dir_attr(read_only, i, 0))
        },
        Err(e) => Err(not_made(e)),
    };
    let ghost d = *vol;
    dir.close(vol);
    proof {
        lemma_same_files(a, b);
        lemma_same_files(d, *vol);
        if made is Ok {
            lemma_same_files(c, d);
            let i = made->Ok_0.ino();
            if steady(a) && a.tree().dirs.contains_key(ino as int) && !taken(a, ino as int, name@)
            {
                assert(dir_made(b, c, i, ino as int, name@));
                assert(dir_made(a, *vol, i, ino as int, name@));
            }
        }
    }
    r
}

/// What deleting a file gives. A file that is open stays in the directory, but its blocks become
/// free.
pub open spec fn unlink_gives(
    a: Volume,
    b: Volume,
    p: int,
    name: Seq<u8>,
    r: Result<(), Errno>,
) -> bool {
    if has_file(a.tree(), p, name) {
        exists|f: int| #[trigger]
            file_is(a.tree(), f, p, name) && if a.fs.files.handles(f as u32) == 0 {
                &&& r == Ok::<(), Errno>(())
                &&& b.sound()
                &&& b.tree() == without_file(a.tree(), f)
                &&& others_same(a, b, f)
                &&& b.fat.free_count() == a.fat.free_count() + a.block_total(f)
                &&& b.fs.files.room() == a.fs.files.room() + 1
            } else {
                r == Err::<(), Errno>(Errno::Io) && blocks_lost(a, b, f)
            }
    } else {
        r == Err::<(), Errno>(Errno::NotFound) && untouched(a, b)
    }
}

/// Deletes a file.
pub fn unlink(vol: &mut Volume, kind: NameType, read_only: bool, parent: u64, text: &[u8]) -> (r:
    Result<(), Errno>)
    requires
        old(vol).inv(),
        names_of(*old(vol), kind),
    ensures
        final(vol).inv(),
        fixed(*old(vol), *final(vol)),
        match (kind.parsed_os(text@), Ino::of(parent)) {
            _ if read_only => r == Err::<(), Errno>(Errno::ReadOnly) && *final(vol) == *old(vol),
            (None, _) => r == Err::<(), Errno>(Errno::NameTooLong) && *final(vol) == *old(vol),
            (Some(_), Ino::File(_)) => r == Err::<(), Errno>(Errno::NotDirectory) && *final(vol)
                == *old(vol),
            (Some(n), Ino::Dir(p)) => at_rest(*old(vol)) ==> unlink_gives(
                *old(vol),
                *final(vol),
                p as int,
                n.0,
                r,
            ),
        },
{
    if read_only {
        return Err(Errno::ReadOnly);
    }
    let name = match kind.name_os_to_3ds(text) {
        Some((n, _)) => n,
        None => {
            return Err(Errno::NameTooLong);
        },
    };
    let ino: u32 = match Ino::from_os(parent) {
        Ino::File(_) => {
            return Err(Errno::NotDirectory);
        },
        Ino::Dir(i) => i,
    };
    let ghost a = *vol;
    let dir = match vol.open_dir(ino) {
        Ok(d) => d,
        Err(_) => {
            return Err(Errno::Io);
        },
    };
    let found = dir.open_sub_file(vol, &name);
    let ghost b = *vol;
    match found {
        Ok(f) => {
            let ghost fi = f.ino();
            let r = match f.delete(vol) {
                Ok(()) => Ok(()),
                Err(_) => Err(Errno::Io),
            };
            let ghost c = *vol;
            dir.close(vol);
            proof {
                lemma_same_files(a, b);
                lemma_same_files(c, *vol);
                assert(a.sound() ==> file_is(a.tree(), fi, ino as int, name@));
                if at_rest(a) && a.fs.files.handles(fi as u32) == 0 {
                    assert(others_same(b, c, fi));
                    assert(others_same(a, *vol, fi));
                }
                if at_rest(a) && a.fs.files.handles(fi as u32) != 0 {
                    lemma_lost_same(a, b, c, *vol, fi);
                }
            }
            r
        },
        Err(_) => {
            dir.close(vol);
            Err(Errno::NotFound)
        },
    }
}

/// What deleting a directory gives. A directory that is open, and the root, are not deleted.
pub open spec fn rmdir_gives(
    a: Volume,
    b: Volume,
    p: int,
    name: Seq<u8>,
    r: Result<(), Errno>,
) -> bool {
    let t = a.tree();
    if has_sub_dir(a, p, name) {
        exists|d: int| #[trigger]
            dir_is(t, d, p, name) && (d != p ==> if a.fs.dirs.handles(d as u32) != 0 || d == 1 {
                r == Err::<(), Errno>(Errno::Io) && kept_sound(a, b) && b.tree() == t
            } else if t.sub_dirs[d].len() > 0 || t.sub_files[d].len() > 0 {
                r == Err::<(), Errno>(Errno::NotEmpty) && kept_sound(a, b) && b.tree() == t
            } else {
                &&& r == Ok::<(), Errno>(())
                &&& kept_sound(a, b)
                &&& b.tree() == dir_dropped(dir_unhooked(t, d), d)
                &&& b.fat.free_count() == a.fat.free_count()
                &&& b.fs.dirs.room() == a.fs.dirs.room() + 1
                &&& forall|g: int|
                    t.files.contains_key(g) ==> #[trigger] b.content(g) == a.content(g)
            })
    } else {
        r == Err::<(), Errno>(Errno::NotFound) && untouched(a, b)
    }
}

/// Deletes an empty directory.
pub fn rmdir(vol: &mut Volume, kind: NameType, read_only: bool, parent: u64, text: &[u8]) -> (r:
    Result<(), Errno>)
    requires
        old(vol).inv(),
        names_of(*old(vol), kind),
    ensures
        final(vol).inv(),
        fixed(*old(vol), *final(vol)),
        match (kind.parsed_os(text@), Ino::of(parent)) {
            _ if read_only => r == Err::<(), Errno>(Errno::ReadOnly) && *final(vol) == *old(vol),
            (None, _) => r == Err::<(), Errno>(Errno::NameTooLong) && *final(vol) == *old(vol),
            (Some(_), Ino::File(_)) => r == Err::<(), Errno>(Errno::NotDirectory) && *final(vol)
                == *old(vol),
            (Some(n), Ino::Dir(p)) => steady(*old(vol)) ==> rmdir_gives(
                *old(vol),
                *final(vol),
                p as int,
                n.0,
                r,
            ),
        },
{
    if read_only {
        return Err(Errno::ReadOnly);
    }
    let name = match kind.name_os_to_3ds(text) {
        Some((n, _)) => n,
        None => {
            return Err(Errno::NameTooLong);
        },
    };
    let ino: u32 = match Ino::from_os(parent) {
        Ino::File(_) => {
            return Err(Errno::NotDirectory);
        },
        Ino::Dir(i) => i,
    };
    let ghost a = *vol;
    let dir = match vol.open_dir(ino) {
        Ok(d) => d,
        Err(_) => {
            return Err(Errno::Io);
        },
    };
    let found = open_named_dir(vol, &dir, &name);
    let ghost b = *vol;
    match found {
        Some(d) => {
            let ghost di = d.ino();
            let r = match d.delete(vol) {
                Ok(()) => Ok(()),
                Err(Error::NotEmpty) => Err(Errno::NotEmpty),
                Err(_) => Err(Errno::Io),
            };
            let ghost c = *vol;
            dir.close(vol);
            proof {
                lemma_same_files(a, b);
                lemma_same_files(c, *vol);
                assert(a.framed() ==> dir_is(a.tree(), di, ino as int, name@));
            }
            r
        },
        None => {
            dir.close(vol);
            Err(Errno::NotFound)
        },
    }
}

/// A name is in use in a tree.
pub open spec fn name_used(v: Volume, t: Tree, p: int, name: Seq<u8>) -> bool {
    ||| has_file(t, p, name)
    ||| v.fs.dirs.key_len == 4 + name.len() && has_dir(t, p, name)
}

/// What moving a file gives, once the name is made free in the tree.
pub open spec fn file_placed(
    a: Volume,
    b: Volume,
    t: Tree,
    f: int,
    q: int,
    name: Seq<u8>,
    r: Result<(), Errno>,
) -> bool {
    &&& b.sound()
    &&& if name_used(a, t, q, name) {
        r == Err::<(), Errno>(Errno::Exists) && b.tree() == t
    } else {
        r == Ok::<(), Errno>(()) && b.tree() == with_file(
            without_file(t, f),
            f,
            q,
            name,
            a.tree().files[f].data,
        )
    }
    &&& forall|g: int| t.files.contains_key(g) ==> #[trigger] b.content(g) == a.content(g)
}

/// What moving a file gives. A file that has the name is deleted; one that is open stays, but its
/// blocks become free.
pub open spec fn file_moved(
    a: Volume,
    b: Volume,
    f: int,
    q: int,
    name: Seq<u8>,
    r: Result<(), Errno>,
) -> bool {
    if has_file(a.tree(), q, name) {
        exists|g: int| #[trigger]
            file_is(a.tree(), g, q, name) && if g == f || a.fs.files.handles(g as u32) != 0 {
                r == Err::<(), Errno>(Errno::Io) && blocks_lost(a, b, g)
            } else {
                file_placed(a, b, without_file(a.tree(), g), f, q, name, r)
            }
    } else {
        file_placed(a, b, a.tree(), f, q, name, r)
    }
}

/// What moving a directory gives, once the name is made free in the tree. The root is not moved,
/// and no directory is moved into itself.
pub open spec fn dir_placed(
    a: Volume,
    b: Volume,
    t: Tree,
    d: int,
    q: int,
    name: Seq<u8>,
    r: Result<(), Errno>,
) -> bool {
    d != 1 && q != d && t.dirs.contains_key(q) ==> {
        &&& b.sound()
        &&& if name_used(a, t, q, name) {
            r == Err::<(), Errno>(Errno::Exists) && b.tree() == t
        } else {
            r == Ok::<(), Errno>(()) && b.tree() == dir_hooked(dir_unhooked(t, d), d, q, name)
        }
        &&& forall|g: int| t.files.contains_key(g) ==> #[trigger] b.content(g) == a.content(g)
    }
}

/// What moving a directory gives. An empty directory that has the name is deleted, unless it is
/// open.
pub open spec fn dir_moved(
    a: Volume,
    b: Volume,
    p: int,
    d: int,
    q: int,
    name: Seq<u8>,
    r: Result<(), Errno>,
) -> bool {
    let t = a.tree();
    if has_sub_dir(a, q, name) {
        exists|g: int| #[trigger]
            dir_is(t, g, q, name) && if g == d || g == p || g == q || a.fs.dirs.handles(g as u32)
                != 0 || g == 1 {
                r == Err::<(), Errno>(Errno::Io) && b.sound() && b.tree() == t
            } else if t.sub_dirs[g].len() > 0 || t.sub_files[g].len() > 0 {
                r == Err::<(), Errno>(Errno::NotEmpty) && b.sound() && b.tree() == t
            } else {
                dir_placed(a, b, dir_dropped(dir_unhooked(t, g), g), d, q, name, r)
            }
    } else {
        dir_placed(a, b, t, d, q, name, r)
    }
}

/// What renaming gives: the file with the name is moved, or else the directory.
pub open spec fn rename_gives(
    a: Volume,
    b: Volume,
    p: int,
    name: Seq<u8>,
    q: int,
    new_name: Seq<u8>,
    r: Result<(), Errno>,
) -> bool {
    if has_file(a.tree(), p, name) {
        exists|f: int| #[trigger]
            file_is(a.tree(), f, p, name) && file_moved(a, b, f, q, new_name, r)
    } else if has_sub_dir(a, p, name) {
        exists|d: int| #[trigger]
            dir_is(a.tree(), d, p, name) && dir_moved(a, b, p, d, q, new_name, r)
    } else {
        r == Err::<(), Errno>(Errno::NotFound) && untouched(a, b)
    }
}

/// Moves an open file, and closes it.
fn move_file(vol: &mut Volume, file: File, dir: &Dir, name: &[u8]) -> (r: Result<(), Errno>)
    requires
        old(vol).inv(),
        file.inv(),
        4 + name@.len() == old(vol).fs.files.key_len,
    ensures
        final(vol).inv(),
        fixed(*old(vol), *final(vol)),
        old(vol).sound() && file.wf(*old(vol)) && old(vol).tree().dirs.contains_key(dir.ino())
            && old(vol).fs.files.handles(file.meta.ticket.index) > 0 && (forall|i: u32| #[trigger]
            old(vol).fs.files.handles(i) < u32::MAX) ==> file_moved(
            *old(vol),
            *final(vol),
            file.ino(),
            dir.ino(),
            name@,
            r,
        ),
{
    let ghost a = *vol;
    let ghost good = a.sound() && file.wf(a) && a.tree().dirs.contains_key(dir.ino())
        && a.fs.files.handles(file.meta.ticket.index) > 0 && (forall|i: u32| #[trigger]
        a.fs.files.handles(i) < u32::MAX);
    let ghost fi = file.ino();
    let mut file = file;
    let ghost mut t = a.tree();
    match dir.open_sub_file(vol, name) {
        Ok(other) => {
            let ghost b = *vol;
            let ghost gi = other.ino();
            let deleted = other.delete(vol);
            proof {
                lemma_same_files(a, b);
                if good {
                    assert(file_is(a.tree(), gi, dir.ino(), name@));
                    assert(has_file(a.tree(), dir.ino(), name@));
                    if deleted is Ok {
                        assert(gi != fi);
                        t = without_file(a.tree(), gi);
                        assert(others_same(b, *vol, gi));
                        assert(vol.tree().files.contains_key(fi) == b.tree().files.contains_key(
                            fi,
                        ));
                        assert(vol.chains@.contains_key(fi) == b.chains@.contains_key(fi));
                        assert(file.wf(*vol));
                    }
                }
            }
            if deleted.is_err() {
                let ghost c = *vol;
                file.close(vol);
                proof {
                    if good {
                        lemma_lost_same(a, b, c, *vol, gi);
                    }
                }
                return Err(Errno::Io);
            }
        },
        Err(_) => {},
    }
    let ghost c = *vol;
    let r = match file.rename(vol, dir, name) {
        Ok(()) => Ok(()),
        Err(Error::AlreadyExist) => Err(Errno::Exists),
        Err(_) => Err(Errno::Io),
    };
    let ghost d = *vol;
    file.close(vol);
    proof {
        lemma_same_files(d, *vol);
        if good {
            assert forall|g: int| t.files.contains_key(g) implies #[trigger] vol.content(g)
                == a.content(g) by {
                assert(d.content(g) == c.content(g));
                assert(c.tree().files.contains_key(g));
            }
            assert(c.tree().files[fi].data == a.tree().files[fi].data);
            assert(taken(c, dir.ino(), name@) == name_used(a, t, dir.ino(), name@));
            assert(file_placed(a, *vol, t, fi, dir.ino(), name@, r));
        }
    }
    r
}

/// Moves an open directory, and closes it.
fn move_dir(vol: &mut Volume, moved: Dir, dir: &Dir, name: &[u8], Ghost(p): Ghost<int>) -> (r: Result<
    (),
    Errno,
>)
    requires
        old(vol).inv(),
        4 + name@.len() == old(vol).fs.files.key_len,
        4 + name@.len() == old(vol).fs.dirs.key_len,
    ensures
        final(vol).inv(),
        fixed(*old(vol), *final(vol)),
        old(vol).sound() && old(vol).tree().dirs.contains_key(moved.ino()) && old(vol).fs.dirs.handles(
            moved.meta.ticket.index,
        ) > 0 && (forall|i: u32| #[trigger] old(vol).fs.dirs.handles(i) < u32::MAX - 1) && old(
            vol,
        ).tree().dirs.contains_key(dir.ino()) && old(vol).fs.dirs.handles(dir.meta.ticket.index) > 0
            && 0 <= p <= u32::MAX && old(vol).fs.dirs.handles(p as u32) > 0 ==> dir_moved(
            *old(vol),
            *final(vol),
            p,
            moved.ino(),
            dir.ino(),
            name@,
            r,
        ),
{
    let ghost a = *vol;
    let ghost good = a.sound() && a.tree().dirs.contains_key(moved.ino()) && a.fs.dirs.handles(
        moved.meta.ticket.index,
    ) > 0 && (forall|i: u32| #[trigger] a.fs.dirs.handles(i) < u32::MAX - 1)
        && a.tree().dirs.contains_key(dir.ino()) && a.fs.dirs.handles(dir.meta.ticket.index) > 0
        && 0 <= p <= u32::MAX && a.fs.dirs.handles(p as u32) > 0;
    let ghost di = moved.ino();
    let mut moved = moved;
    let ghost mut t = a.tree();
    let ghost mut gone = -1int;
    match open_named_dir(vol, dir, name) {
        Some(other) => {
            let ghost b = *vol;
            let ghost gi = other.ino();
            let deleted = other.delete(vol);
            proof {
                lemma_same_files(a, b);
                if good {
                    assert(dir_is(a.tree(), gi, dir.ino(), name@));
                    assert(has_sub_dir(a, dir.ino(), name@));
                    if deleted is Ok {
                        assert(gi != di);
                        gone = gi;
                        t = dir_dropped(dir_unhooked(a.tree(), gi), gi);
                        assert(vol.tree().dirs.contains_key(di));
                    }
                }
            }
            match deleted {
                Ok(()) => {},
                Err(e) => {
                    let ghost c = *vol;
                    moved.close(vol);
                    return Err(
                        match e {
                            Error::NotEmpty => Errno::NotEmpty,
                            _ => Errno::Io,
                        },
                    );
                },
            }
        },
        None => {},
    }
    let ghost c = *vol;
    let r = match moved.rename(vol, dir, name) {
        Ok(()) => Ok(()),
        Err(Error::AlreadyExist) => Err(Errno::Exists),
        Err(_) => Err(Errno::Io),
    };
    let ghost d = *vol;
    moved.close(vol);
    proof {
        lemma_same_files(d, *vol);
        if good {
            if di != 1 && dir.ino() != di && t.dirs.contains_key(dir.ino()) {
                assert forall|g: int| t.files.contains_key(g) implies #[trigger] vol.content(g)
                    == a.content(g) by {
                    assert(d.content(g) == c.content(g));
                    assert(c.tree().files.contains_key(g));
                }
                assert(taken(c, dir.ino(), name@) == name_used(a, t, dir.ino(), name@));
            }
            assert(dir_placed(a, *vol, t, di, dir.ino(), name@, r));
            if gone >= 0 {
                assert(dir_is(a.tree(), gone, dir.ino(), name@));
            }
        }
    }
    r
}

/// Gives a file or directory another name, and moves it to another directory. A file or an empty
/// directory that has the name is deleted.
pub fn rename(
    vol: &mut Volume,
    kind: NameType,
    read_only: bool,
    parent: u64,
    text: &[u8],
    new_parent: u64,
    new_text: &[u8],
) -> (r: Result<(), Errno>)
    requires
        old(vol).inv(),
        names_of(*old(vol), kind),
    ensures
        final(vol).inv(),
        fixed(*old(vol), *final(vol)),
        match (
            kind.parsed_os(text@),
            kind.parsed_os(new_text@),
            Ino::of(parent),
            Ino::of(new_parent),
        ) {
            _ if read_only => r == Err::<(), Errno>(Errno::ReadOnly) && *final(vol) == *old(vol),
            (Some(n), Some(m), Ino::Dir(p), Ino::Dir(q)) => at_rest(*old(vol)) && old(
                vol,
            ).tree().dirs.contains_key(q as int) ==> rename_gives(
                *old(vol),
                *final(vol),
                p as int,
                n.0,
                q as int,
                m.0,
                r,
            ),
            (Some(_), Some(_), _, _) => r == Err::<(), Errno>(Errno::NotDirectory) && *final(vol)
                == *old(vol),
            _ => r == Err::<(), Errno>(Errno::NameTooLong) && *final(vol) == *old(vol),
        },
{
    if read_only {
        return Err(Errno::ReadOnly);
    }
    let name = match kind.name_os_to_3ds(text) {
        Some((n, _)) => n,
        None => {
            return Err(Errno::NameTooLong);
        },
    };
    let new_name = match kind.name_os_to_3ds(new_text) {
        Some((n, _)) => n,
        None => {
            return Err(Errno::NameTooLong);
        },
    };
    let (p, q) = match (Ino::from_os(parent), Ino::from_os(new_parent)) {
        (Ino::Dir(p), Ino::Dir(q)) => (p, q),
        _ => {
            return Err(Errno::NotDirectory);
        },
    };
    let ghost a = *vol;
    let dir = match vol.open_dir(p) {
        Ok(d) => d,
        Err(_) => {
            return Err(Errno::Io);
        },
    };
    let new_dir = match vol.open_dir(q) {
        Ok(d) => d,
        Err(_) => {
            dir.close(vol);
            return Err(Errno::Io);
        },
    };
    let r = match dir.open_sub_file(vol, &name) {
        Ok(file) => {
            let ghost b = *vol;
            let ghost fi = file.ino();
            let r = move_file(vol, file, &new_dir, &new_name);
            proof {
                lemma_same_files(a, b);
                if at_rest(a) && a.tree().dirs.contains_key(q as int) {
                    assert(file_is(a.tree(), fi, p as int, name@));
                    assert(file_moved(b, *vol, fi, q as int, new_name@, r));
                    lemma_file_moved_from(a, b, *vol, fi, q as int, new_name@, r);
                }
            }
            r
        },
        Err(_) => {
            match open_named_dir(vol, &dir, &name) {
                Some(d) => {
                    let ghost b = *vol;
                    let ghost di = d.ino();
                    let r = move_dir(vol, d, &new_dir, &new_name, Ghost(p as int));
                    proof {
                        lemma_same_files(a, b);
                        if at_rest(a) && a.tree().dirs.contains_key(q as int) {
                            assert(dir_is(a.tree(), di, p as int, name@));
                            assert(dir_moved(b, *vol, p as int, di, q as int, new_name@, r));
                            lemma_dir_moved_from(
                                a,
                                b,
                                *vol,
                                p as int,
                                di,
                                q as int,
                                new_name@,
                                r,
                            );
                        }
                    }
                    r
                },
                None => Err(Errno::NotFound),
            }
        },
    };
    let ghost c = *vol;
    new_dir.close(vol);
    let ghost d = *vol;
    dir.close(vol);
    proof {
        lemma_same_files(c, d);
        lemma_same_files(d, *vol);
        if at_rest(a) && a.tree().dirs.contains_key(q as int) {
            if has_file(a.tree(), p as int, name@) {
                let f = choose|f: int| #[trigger]
                    file_is(a.tree(), f, p as int, name@) && file_moved(
                        a,
                        c,
                        f,
                        q as int,
                        new_name@,
                        r,
                    );
                lemma_file_moved_to(a, c, *vol, f, q as int, new_name@, r);
            } else if has_sub_dir(a, p as int, name@) {
                let i = choose|i: int| #[trigger]
                    dir_is(a.tree(), i, p as int, name@) && dir_moved(
                        a,
                        c,
                        p as int,
                        i,
                        q as int,
                        new_name@,
                        r,
                    );
                lemma_dir_moved_to(a, c, *vol, p as int, i, q as int, new_name@, r);
            }
        }
    }
    r
}

/// The numbers of files and directories are those of entries.
proof fn lemma_bounds(v: Volume)
    requires
        v.framed(),
    ensures
        forall|f: int| #[trigger] v.tree().files.contains_key(f) ==> 1 <= f < 0x1_0000_0000,
        forall|d: int| #[trigger] v.tree().dirs.contains_key(d) ==> 1 <= d < 0x1_0000_0000,
{
    reveal(fs_sound);
}

/// A volume with one more handle on a file gives the same.
proof fn lemma_file_moved_from(
    a: Volume,
    b: Volume,
    c: Volume,
    f: int,
    q: int,
    name: Seq<u8>,
    r: Result<(), Errno>,
)
    requires
        a.sound(),
        same_volume(a, b),
        a.tree().files.contains_key(f),
        forall|i: u32| i != f ==> #[trigger] b.fs.files.handles(i) == a.fs.files.handles(i),
        file_moved(b, c, f, q, name, r),
    ensures
        file_moved(a, c, f, q, name, r),
{
    lemma_same_files(a, b);
    lemma_bounds(a);
    if has_file(a.tree(), q, name) {
        let g = choose|g: int| #[trigger]
            file_is(b.tree(), g, q, name) && if g == f || b.fs.files.handles(g as u32) != 0 {
                r == Err::<(), Errno>(Errno::Io) && blocks_lost(b, c, g)
            } else {
                file_placed(b, c, without_file(b.tree(), g), f, q, name, r)
            };
        assert(file_is(a.tree(), g, q, name));
        if g != f {
            assert(b.fs.files.handles(g as u32) == a.fs.files.handles(g as u32));
            if a.fs.files.handles(g as u32) == 0 {
                assert(file_placed(a, c, without_file(a.tree(), g), f, q, name, r));
            }
        }
        if g == f || a.fs.files.handles(g as u32) != 0 {
            lemma_lost_same(a, b, c, c, g);
        }
    } else {
        assert(file_placed(a, c, a.tree(), f, q, name, r));
    }
}

/// What has been moved stays so when handles are closed.
proof fn lemma_file_moved_to(
    a: Volume,
    c: Volume,
    e: Volume,
    f: int,
    q: int,
    name: Seq<u8>,
    r: Result<(), Errno>,
)
    requires
        same_volume(c, e),
        c.framed() ==> e.framed(),
        c.sound() ==> e.sound(),
        file_moved(a, c, f, q, name, r),
    ensures
        file_moved(a, e, f, q, name, r),
{
    lemma_same_files(c, e);
    if has_file(a.tree(), q, name) {
        let g = choose|g: int| #[trigger]
            file_is(a.tree(), g, q, name) && if g == f || a.fs.files.handles(g as u32) != 0 {
                r == Err::<(), Errno>(Errno::Io) && blocks_lost(a, c, g)
            } else {
                file_placed(a, c, without_file(a.tree(), g), f, q, name, r)
            };
        if g != f && a.fs.files.handles(g as u32) == 0 {
            assert(file_placed(a, e, without_file(a.tree(), g), f, q, name, r));
        } else {
            lemma_lost_same(a, a, c, e, g);
        }
    } else {
        assert(file_placed(a, e, a.tree(), f, q, name, r));
    }
}

/// The directory that has the name, and what becomes of it.
spec fn dir_moved_over(
    a: Volume,
    b: Volume,
    p: int,
    d: int,
    q: int,
    name: Seq<u8>,
    r: Result<(), Errno>,
    g: int,
) -> bool {
    let t = a.tree();
    if g == d || g == p || g == q || a.fs.dirs.handles(g as u32) != 0 || g == 1 {
        r == Err::<(), Errno>(Errno::Io) && b.sound() && b.tree() == t
    } else if t.sub_dirs[g].len() > 0 || t.sub_files[g].len() > 0 {
        r == Err::<(), Errno>(Errno::NotEmpty) && b.sound() && b.tree() == t
    } else {
        dir_placed(a, b, dir_dropped(dir_unhooked(t, g), g), d, q, name, r)
    }
}

/// A volume with more handles on the directories that are used gives the same.
proof fn lemma_dir_moved_from(
    a: Volume,
    b: Volume,
    c: Volume,
    p: int,
    d: int,
    q: int,
    name: Seq<u8>,
    r: Result<(), Errno>,
)
    requires
        a.sound(),
        same_volume(a, b),
        a.tree().dirs.contains_key(d),
        forall|i: u32|
            i != d && i != p && i != q ==> #[trigger] b.fs.dirs.handles(i) == a.fs.dirs.handles(i),
        dir_moved(b, c, p, d, q, name, r),
    ensures
        dir_moved(a, c, p, d, q, name, r),
{
    lemma_same_files(a, b);
    lemma_bounds(a);
    if has_sub_dir(a, q, name) {
        let g = choose|g: int| #[trigger]
            dir_is(b.tree(), g, q, name) && dir_moved_over(b, c, p, d, q, name, r, g);
        assert(dir_is(a.tree(), g, q, name));
        if g != p && g != q && g != d && g != 1 {
            assert(b.fs.dirs.handles(g as u32) == a.fs.dirs.handles(g as u32));
            let t = dir_dropped(dir_unhooked(a.tree(), g), g);
            assert(dir_placed(b, c, t, d, q, name, r) == dir_placed(a, c, t, d, q, name, r));
        }
        assert(dir_moved_over(a, c, p, d, q, name, r, g));
    } else {
        assert(dir_placed(a, c, a.tree(), d, q, name, r));
    }
}

/// What has been moved stays so when handles are closed.
proof fn lemma_dir_moved_to(
    a: Volume,
    c: Volume,
    e: Volume,
    p: int,
    d: int,
    q: int,
    name: Seq<u8>,
    r: Result<(), Errno>,
)
    requires
        same_volume(c, e),
        c.sound() ==> e.sound(),
        dir_moved(a, c, p, d, q, name, r),
    ensures
        dir_moved(a, e, p, d, q, name, r),
{
    lemma_same_files(c, e);
    if has_sub_dir(a, q, name) {
        let g = choose|g: int| #[trigger]
            dir_is(a.tree(), g, q, name) && dir_moved_over(a, c, p, d, q, name, r, g);
        assert(dir_moved_over(a, e, p, d, q, name, r, g));
    } else {
        assert(dir_placed(a, e, a.tree(), d, q, name, r));
    }
}

/// A name in a table has the length that the table has for names.
proof fn lemma_name_lens(v: Volume)
    requires
        v.framed(),
    ensures
        forall|f: int| #[trigger]
            v.tree().files.contains_key(f) ==> v.tree().files[f].name.len() + 4
                == v.fs.files.key_len,
        forall|d: int| #[trigger]
            v.tree().dirs.contains_key(d) ==> v.tree().dirs[d].name.len() + 4 == v.fs.dirs.key_len,
{
    reveal(fs_sound);
    let t = v.tree();
    assert forall|f: int| #[trigger] t.files.contains_key(f) implies t.files[f].name.len() + 4
        == v.fs.files.key_len by {
        assert(v.fs.files.entries().contains_key(f));
        assert(file_row(t, f, v.fs.files.entries()[f]));
        lemma_key_len(v.fs.files, f);
        let p = t.files[f].parent;
        assert(t.dirs.contains_key(p));
        lemma_key_of(p, t.files[f].name);
    }
    assert forall|d: int| #[trigger] t.dirs.contains_key(d) implies t.dirs[d].name.len() + 4
        == v.fs.dirs.key_len by {
        assert(v.fs.dirs.entries().contains_key(d));
        assert(dir_row(t, d, v.fs.dirs.entries()[d]));
        lemma_key_len(v.fs.dirs, d);
        let p = t.dirs[d].parent;
        if d != 1 {
            assert(t.dirs.contains_key(p));
        }
        lemma_key_of(p, t.dirs[d].name);
    }
}

/// An entry of a directory, as the host is told.
pub struct DirEntry {
    pub ino: u64,
    pub is_dir: bool,
    pub name: Vec<u8>,
}

/// An entry is for a directory or a file.
pub open spec fn entry_is(e: DirEntry, ino: Ino, name: Seq<u8>) -> bool {
    &&& e.ino == ino.os()
    &&& e.is_dir == (ino is Dir)
    &&& e.name@ == name
}

/// How many directories are listed. Where directories have no names, none is.
pub open spec fn dirs_listed(v: Volume, k: NameType, d: int) -> int {
    if v.fs.dirs.key_len == 4 + k.len() {
        v.tree().sub_dirs[d].len() as int
    } else {
        0
    }
}

/// The entries of a directory: itself, the one that it is in, its directories and its files, the
/// newest first.
pub open spec fn entries_are(v: Volume, k: NameType, d: int, l: Seq<DirEntry>) -> bool {
    let t = v.tree();
    let dirs = t.sub_dirs[d];
    let files = t.sub_files[d];
    let n = dirs_listed(v, k, d);
    &&& l.len() == 2 + n + files.len()
    &&& entry_is(l[0], Ino::Dir(d as u32), seq![0x2Eu8])
    &&& entry_is(
        l[1],
        Ino::Dir(
            if d == 1 {
                1
            } else {
                t.dirs[d].parent as u32
            },
        ),
        seq![0x2Eu8, 0x2E],
    )
    &&& forall|i: int|
        2 <= i < 2 + n ==> entry_is(
            #[trigger] l[i],
            Ino::Dir(dirs[dirs.len() - 1 - (i - 2)] as u32),
            k.text(t.dirs[dirs[dirs.len() - 1 - (i - 2)]].name),
        )
    &&& forall|i: int|
        2 + n <= i < l.len() ==> entry_is(
            #[trigger] l[i],
            Ino::File(files[files.len() - 1 - (i - 2 - n)] as u32),
            k.text(t.files[files[files.len() - 1 - (i - 2 - n)]].name),
        )
}

/// Adds entries for a list of names. A name of another length cannot be shown.
fn push_entries(out: &mut Vec<DirEntry>, kind: NameType, list: &Vec<(Vec<u8>, u32)>, is_dir: bool) -> (r:
    bool)
    ensures
        r <==> forall|i: int| 0 <= i < list@.len() ==> (#[trigger] list@[i]).0@.len() == kind.len(),
        r ==> {
            &&& final(out)@.len() == old(out)@.len() + list@.len()
            &&& forall|i: int| 0 <= i < old(out)@.len() ==> #[trigger] final(out)@[i] == old(out)@[i]
            &&& forall|i: int|
                old(out)@.len() <= i < final(out)@.len() ==> entry_is(
                    #[trigger] final(out)@[i],
                    if is_dir {
                        Ino::Dir(list@[i - old(out)@.len()].1)
                    } else {
                        Ino::File(list@[i - old(out)@.len()].1)
                    },
                    kind.text(list@[i - old(out)@.len()].0@),
                )
        },
{
    let ghost before = out@;
    let n: usize = list.len();
    let mut i: usize = 0;
    let want: usize = match kind {
        NameType::Text => 16,
        NameType::Number => 8,
    };
    while i < n
        invariant
            i <= n == list@.len(),
            want == kind.len(),
            out@.len() == before.len() + i,
            forall|j: int| 0 <= j < i ==> (#[trigger] list@[j]).0@.len() == kind.len(),
            forall|j: int| 0 <= j < before.len() ==> #[trigger] out@[j] == before[j],
            forall|j: int|
                before.len() <= j < out@.len() ==> entry_is(
                    #[trigger] out@[j],
                    if is_dir {
                        Ino::Dir(list@[j - before.len()].1)
                    } else {
                        Ino::File(list@[j - before.len()].1)
                    },
                    kind.text(list@[j - before.len()].0@),
                ),
        decreases n - i,
    {
        if list[i].0.len() != want {
            return false;
        }
        let name = kind.name_3ds_to_str(&list[i].0);
        let ino = if is_dir {
            Ino::Dir(list[i].1)
        } else {
            Ino::File(list[i].1)
        };
        out.push(DirEntry { ino: ino.to_os(), is_dir, name });
        i = i + 1;
    }
    true
}

/// What a directory lists is in the tree, and has names of the right length.
proof fn lemma_children(v: Volume, d: int)
    requires
        v.framed(),
        v.tree().dirs.contains_key(d),
    ensures
        forall|i: int|
            0 <= i < v.tree().sub_dirs[d].len() ==> v.tree().dirs[#[trigger] v.tree().sub_dirs[d][i]].name.len()
                + 4 == v.fs.dirs.key_len,
        forall|i: int|
            0 <= i < v.tree().sub_files[d].len() ==> v.tree().files[#[trigger] v.tree().sub_files[d][i]].name.len()
                + 4 == v.fs.files.key_len,
        d != 1 ==> 0 <= v.tree().dirs[d].parent <= u32::MAX,
{
    let t = v.tree();
    lemma_name_lens(v);
    lemma_bounds(v);
    reveal(fs_sound);
    assert forall|i: int| 0 <= i < t.sub_dirs[d].len() implies t.dirs[#[trigger] t.sub_dirs[d][i]].name.len()
        + 4 == v.fs.dirs.key_len by {
        assert(t.dirs.contains_key(t.dir_item(d, i)));
    }
    assert forall|i: int| 0 <= i < t.sub_files[d].len() implies t.files[#[trigger] t.sub_files[d][i]].name.len()
        + 4 == v.fs.files.key_len by {
        assert(t.files.contains_key(t.file_item(d, i)));
    }
}

/// The entries for two lists of names.
spec fn entries_from(
    l: Seq<DirEntry>,
    k: NameType,
    ino: u32,
    up: u32,
    dirs: Seq<(Vec<u8>, u32)>,
    files: Seq<(Vec<u8>, u32)>,
) -> bool {
    &&& l.len() == 2 + dirs.len() + files.len()
    &&& entry_is(l[0], Ino::Dir(ino), seq![0x2Eu8])
    &&& entry_is(l[1], Ino::Dir(up), seq![0x2Eu8, 0x2E])
    &&& forall|i: int|
        2 <= i < 2 + dirs.len() ==> entry_is(
            #[trigger] l[i],
            Ino::Dir(dirs[i - 2].1),
            k.text(dirs[i - 2].0@),
        )
    &&& forall|i: int|
        2 + dirs.len() <= i < l.len() ==> entry_is(
            #[trigger] l[i],
            Ino::File(files[i - 2 - dirs.len()].1),
            k.text(files[i - 2 - dirs.len()].0@),
        )
}

fn make_entries(
    kind: NameType,
    ino: u32,
    up: u32,
    dirs: &Vec<(Vec<u8>, u32)>,
    files: &Vec<(Vec<u8>, u32)>,
) -> (r: Option<Vec<DirEntry>>)
    ensures
        r is Some <==> (forall|i: int|
            0 <= i < dirs@.len() ==> (#[trigger] dirs@[i]).0@.len() == kind.len()) && (forall|i: int|
            0 <= i < files@.len() ==> (#[trigger] files@[i]).0@.len() == kind.len()),
        r matches Some(l) ==> entries_from(l@, kind, ino, up, dirs@, files@),
{
    let mut out: Vec<DirEntry> = Vec::new();
    let here: Vec<u8> = vec![0x2Eu8];
    let above: Vec<u8> = vec![0x2Eu8, 0x2E];
    assert(here@ =~= seq![0x2Eu8]);
    assert(above@ =~= seq![0x2Eu8, 0x2E]);
    out.push(DirEntry { ino: Ino::Dir(ino).to_os(), is_dir: true, name: here });
    out.push(DirEntry { ino: Ino::Dir(up).to_os(), is_dir: true, name: above });
    let ghost start = out@;
    if !push_entries(&mut out, kind, dirs, true) {
        return None;
    }
    let ghost mid = out@;
    if !push_entries(&mut out, kind, files, false) {
        return None;
    }
    proof {
        let l = out@;
        assert(l[0] == mid[0] && mid[0] == start[0]);
        assert(l[1] == mid[1] && mid[1] == start[1]);
        assert forall|i: int| 2 <= i < 2 + dirs@.len() implies entry_is(
            #[trigger] l[i],
            Ino::Dir(dirs@[i - 2].1),
            kind.text(dirs@[i - 2].0@),
        ) by {
            assert(l[i] == mid[i]);
        }
    }
    Some(out)
}

proof fn lemma_entries(
    v: Volume,
    k: NameType,
    d: u32,
    up: u32,
    dirs: Seq<(Vec<u8>, u32)>,
    files: Seq<(Vec<u8>, u32)>,
    l: Seq<DirEntry>,
)
    requires
        lists(files, v.tree().files, v.tree().sub_files[d as int]),
        if v.fs.dirs.key_len == 4 + k.len() {
            lists(dirs, v.tree().dirs, v.tree().sub_dirs[d as int])
        } else {
            dirs.len() == 0
        },
        up == if d == 1 {
            1
        } else {
            v.tree().dirs[d as int].parent
        },
        entries_from(l, k, d, up, dirs, files),
    ensures
        entries_are(v, k, d as int, l),
{
    let t = v.tree();
    let n = dirs_listed(v, k, d as int);
    let sd = t.sub_dirs[d as int];
    let sf = t.sub_files[d as int];
    assert(n == dirs.len());
    assert forall|i: int| 2 <= i < 2 + n implies entry_is(
        #[trigger] l[i],
        Ino::Dir(sd[sd.len() - 1 - (i - 2)] as u32),
        k.text(t.dirs[sd[sd.len() - 1 - (i - 2)]].name),
    ) by {
        assert(dirs[i - 2].1 == sd[sd.len() - 1 - (i - 2)]);
    }
    assert forall|i: int| 2 + n <= i < l.len() implies entry_is(
        #[trigger] l[i],
        Ino::File(sf[sf.len() - 1 - (i - 2 - n)] as u32),
        k.text(t.files[sf[sf.len() - 1 - (i - 2 - n)]].name),
    ) by {
        assert(files[i - 2 - n].1 == sf[sf.len() - 1 - (i - 2 - n)]);
    }
}

/// Lists a directory.
pub fn opendir(vol: &mut Volume, kind: NameType, ino: u64) -> (r: Result<Vec<DirEntry>, Errno>)
    requires
        old(vol).inv(),
        names_of(*old(vol), kind),
    ensures
        untouched(*old(vol), *final(vol)),
        match Ino::of(ino) {
            Ino::File(_) => r is Err && r->Err_0 == Errno::NotDirectory,
            Ino::Dir(d) => steady(*old(vol)) && old(vol).tree().dirs.contains_key(d as int) ==> (
            r matches Ok(l) && entries_are(*old(vol), kind, d as int, l@)),
        },
{
    let ino: u32 = match Ino::from_os(ino) {
        Ino::File(_) => {
            return Err(Errno::NotDirectory);
        },
        Ino::Dir(i) => i,
    };
    let ghost a = *vol;
    let dir = match vol.open_dir(ino) {
        Ok(d) => d,
        Err(_) => {
            return Err(Errno::NotFound);
        },
    };
    let up = dir.get_parent_ino(vol);
    let dirs = dir.list_sub_dir(vol);
    let files = dir.list_sub_file(vol);
    dir.close(vol);
    proof {
        if steady(a) && a.tree().dirs.contains_key(ino as int) {
            lemma_children(a, ino as int);
        }
    }
    let up: u32 = if ino == 1 {
        1
    } else {
        match up {
            Ok(p) => p,
            Err(_) => {
                return Err(Errno::Io);
            },
        }
    };
    let dirs = match dirs {
        Ok(l) => if vol.fs.dirs.key_len == vol.fs.files.key_len {
            l
        } else {
            Vec::new()
        },
        Err(_) => {
            return Err(Errno::Io);
        },
    };
    let files = match files {
        Ok(l) => l,
        Err(_) => {
            return Err(Errno::Io);
        },
    };
    match make_entries(kind, ino, up, &dirs, &files) {
        Some(l) => {
            proof {
                if steady(a) && a.tree().dirs.contains_key(ino as int) {
                    lemma_entries(a, kind, ino, up, dirs@, files@, l@);
                }
            }
            Ok(l)
        },
        None => Err(Errno::Io),
    }
}

/// The part of a read that is within a file.
pub open spec fn read_end(offset: int, size: int, len: int) -> int {
    if offset + size < len {
        offset + size
    } else {
        len
    }
}

/// Reads from a file. Only what is within the file is read. From the first block on that is not
/// intact, zeros are read.
pub fn read(vol: &mut Volume, file: &File, offset: usize, size: usize) -> (r: Result<
    Vec<u8>,
    Errno,
>)
    requires
        old(vol).inv(),
        file.inv(),
    ensures
        final(vol).inv(),
        same_volume(*old(vol), *final(vol)),
        same_handles(*old(vol), *final(vol)),
        old(vol).sound() ==> final(vol).sound(),
        ({
            let end = read_end(offset as int, size as int, file.len as int);
            if end <= offset {
                r matches Ok(d) && d@.len() == 0
            } else {
                old(vol).sound() && file.wf(*old(vol)) ==> (r matches Ok(d) && d@ == old(
                    vol,
                ).shown_range(file.ino(), offset as int, end))
            }
        }),
{
    let len: usize = file.len();
    if size == 0 || offset >= len {
        return Ok(Vec::new());
    }
    let end: usize = if size < len - offset {
        offset + size
    } else {
        len
    };
    let n: usize = end - offset;
    let mut buf: Vec<u8> = vec![0u8; n];
    assert(buf@ =~= Seq::new(n as nat, |i: int| 0u8));
    let ghost a = *vol;
    let found = file.read(vol, offset, &mut buf);
    proof {
        if a.sound() && file.wf(a) {
            lemma_read_bounds(a, file.ino(), offset as int, end as int);
            assert(buf@ =~= a.shown_range(file.ino(), offset as int, end as int));
        }
    }
    match found {
        Ok(()) | Err(Error::HashMismatch) => Ok(buf),
        _ => Err(Errno::Io),
    }
}

/// What writing to an open file makes of a volume: the file is made longer where it is too short.
pub open spec fn write_gives(
    a: Volume,
    b: Volume,
    fa: File,
    offset: int,
    data: Seq<u8>,
    r: Result<(), Errno>,
) -> bool {
    let end = offset + data.len();
    if data.len() == 0 {
        r == Ok::<(), Errno>(()) && b == a
    } else if end <= fa.len {
        r == Ok::<(), Errno>(()) && b.sound() && file_put(a, b, fa.ino(), offset, data)
    } else if a.fs.files.handles(fa.meta.ticket.index) != 1 {
        r == Err::<(), Errno>(Errno::Io) && b == a
    } else if a.fat.free_count() < counted(end, a.block_len()) - a.block_total(fa.ino()) {
        r == Err::<(), Errno>(Errno::NoSpace) && b.sound() && same_volume(a, b)
    } else {
        &&& r == Ok::<(), Errno>(())
        &&& b.sound()
        &&& exists|m: Volume| #[trigger]
            file_resized(a, m, fa.ino(), end) && file_put(m, b, fa.ino(), offset, data)
    }
}

/// Writes to a file.
pub fn write(vol: &mut Volume, file: &mut File, read_only: bool, offset: usize, data: &[u8]) -> (r:
    Result<(), Errno>)
    requires
        old(vol).inv(),
        old(file).inv(),
        offset + data@.len() <= usize::MAX,
    ensures
        final(vol).inv(),
        final(file).inv(),
        fixed(*old(vol), *final(vol)),
        final(file).meta == old(file).meta,
        read_only ==> r == Err::<(), Errno>(Errno::ReadOnly) && *final(vol) == *old(vol)
            && *final(file) == *old(file),
        !read_only && old(vol).sound() && old(file).wf(*old(vol)) ==> final(file).wf(*final(vol))
            && write_gives(*old(vol), *final(vol), *old(file), offset as int, data@, r),
{
    if read_only {
        return Err(Errno::ReadOnly);
    }
    let n: usize = data.len();
    if n == 0 {
        return Ok(());
    }
    let ghost a = *vol;
    let ghost fa = *file;
    let end: usize = offset + n;
    if end > file.len() {
        match file.resize(vol, end) {
            Ok(()) => {},
            Err(Error::NoSpace) => {
                return Err(Errno::NoSpace);
            },
            Err(_) => {
                return Err(Errno::Io);
            },
        }
    }
    let ghost m = *vol;
    match file.write(vol, offset, data) {
        Ok(()) => {
            proof {
                if a.sound() && fa.wf(a) && end > fa.len {
                    assert(file_resized(a, m, fa.ino(), end as int));
                }
            }
            Ok(())
        },
        Err(_) => Err(Errno::Io),
    }
}

/// Makes an open file shorter or longer, and tells the host of it. Where the file system is only
/// read, the length cannot change.
pub fn truncate(vol: &mut Volume, file: &mut File, read_only: bool, size: Option<usize>) -> (r:
    Result<Attr, Errno>)
    requires
        old(vol).inv(),
        old(file).inv(),
    ensures
        final(vol).inv(),
        final(file).inv(),
        fixed(*old(vol), *final(vol)),
        final(file).meta == old(file).meta,
        size is None || size == Some(old(file).len) ==> r == Ok::<Attr, Errno>(
            file_attr(read_only, old(file).ino(), old(file).len as int),
        ) && *final(vol) == *old(vol) && *final(file) == *old(file),
        read_only && (size matches Some(n) && n != old(file).len) ==> r == Err::<Attr, Errno>(
            Errno::ReadOnly,
        ) && *final(vol) == *old(vol) && *final(file) == *old(file),
        !read_only && (size matches Some(n) && n != old(file).len) && old(vol).sound() && old(
            file,
        ).wf(*old(vol)) ==> if old(vol).fs.files.handles(old(file).meta.ticket.index) != 1 {
            r == Err::<Attr, Errno>(Errno::Io) && *final(vol) == *old(vol)
        } else if old(vol).fat.free_count() < counted(size->0 as int, old(vol).block_len()) - old(
            vol,
        ).block_total(old(file).ino()) {
            r == Err::<Attr, Errno>(Errno::Io) && same_volume(*old(vol), *final(vol)) && final(vol).sound()
                && *final(file) == *old(file)
        } else {
            &&& r == Ok::<Attr, Errno>(file_attr(read_only, old(file).ino(), size->0 as int))
            &&& final(vol).sound()
            &&& final(file).wf(*final(vol))
            &&& file_resized(*old(vol), *final(vol), old(file).ino(), size->0 as int)
        },
{
    if let Some(n) = size {
        if read_only && n != file.len() {
            return Err(Errno::ReadOnly);
        }
        if let Err(_) = file.resize(vol, n) {
            return Err(Errno::Io);
        }
    }
    Ok(make_file_attr(read_only, file.get_ino(), file.len()))
}

} // verus!
