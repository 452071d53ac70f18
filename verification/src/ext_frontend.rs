use crate::error::{make_error, Error};
use crate::ext_data::{ExtData, NEW_UNIQUE_ID, QUOTA_LEN};
use crate::ext_file::File;
use crate::fits::can_make_file;
use crate::frontend::{make_file_attr, not_made, Attr, Errno, Ino};
use crate::fs_meta::FileMeta;
use crate::names::NameType;
use crate::options::parse_decimal;
use crate::random_access_file::{copy_range, Content};
use crate::volume_dir::Dir;
use vstd::prelude::*;

verus! {

use crate::archive::Archive;
use crate::diff::{diff_error, diff_id, diff_layout, Diff};
use crate::ext_data::{ext_partition, new_diff, quota_blocks, ExtSigner};
use crate::ext_file::{
    file_signer, is_new_entry, opened_diff, quota_free, quota_given_back, quota_kept,
    quota_readable, quota_taken,
};
use crate::fits::{file_fits, SMALL_LEN};
use crate::fs_tree::{with_file, without_file, Tree};
use crate::frontend::{argument_size, file_attr, names_of, not_made_errno, read_end};
use crate::fs_meta::{has_dir, has_file};
use crate::random_access_file::{can_read, refused, spliced};
use crate::volume::{
    entry_size, file_closed, file_opened, fixed, fs_sound, lemma_alike, same_handles, same_volume,
    Volume,
};
use crate::volume_dir::{few_handles, file_is, taken};

/// What the host names: a directory by its number, a name in it, and the argument of the name.
pub fn named_in(kind: NameType, parent: u64, text: &[u8]) -> (r: Result<
    (u32, Vec<u8>, Vec<u8>),
    Errno,
>)
    ensures
        match (kind.parsed_os(text@), Ino::of(parent)) {
            (None, _) => r == Err::<(u32, Vec<u8>, Vec<u8>), Errno>(Errno::NameTooLong),
            (Some(_), Ino::File(_)) => r == Err::<(u32, Vec<u8>, Vec<u8>), Errno>(
                Errno::NotDirectory,
            ),
            (Some(n), Ino::Dir(p)) => r matches Ok(v) && v.0 == p && v.1@ == n.0 && v.2@ == n.1
                && v.1@.len() == kind.len(),
        },
{
    match kind.name_os_to_3ds(text) {
        Some((name, argument)) => match Ino::from_os(parent) {
            Ino::File(_) => Err(Errno::NotDirectory),
            Ino::Dir(i) => Ok((i, name, argument)),
        },
        None => Err(Errno::NameTooLong),
    }
}

/// Opens the entry of a file in a directory, if there is one.
pub fn find_file(ext: &mut ExtData, dir: &Dir, name: &[u8]) -> (r: Option<FileMeta>)
    requires
        old(ext).inv(),
        4 + name@.len() == old(ext).archive.volume.fs.files.key_len,
    ensures
        final(ext).inv(),
        *final(ext) == (ExtData {
            archive: Archive { volume: final(ext).archive.volume, ..old(ext).archive },
            ..*old(ext)
        }),
        same_volume(old(ext).archive.volume, final(ext).archive.volume),
        r matches Some(f) ==> file_opened(
            old(ext).archive.volume,
            final(ext).archive.volume,
            f.ticket.index,
        ),
        r is None ==> same_handles(old(ext).archive.volume, final(ext).archive.volume),
        old(ext).archive.volume.framed() ==> final(ext).archive.volume.framed() && match r {
            Some(f) => file_is(old(ext).archive.volume.tree(), f.ino(), dir.ino(), name@),
            None => !has_file(old(ext).archive.volume.tree(), dir.ino(), name@),
        },
{
    proof {
        reveal(fs_sound);
    }
    let ghost a = ext.archive.volume;
    let found = dir.meta.open_sub_file(&mut ext.archive.volume.fs, name);
    proof {
        lemma_alike(a, ext.archive.volume);
    }
    match found {
        Ok(f) => Some(f),
        Err(_) => None,
    }
}

/// Only the handles of a volume, and what is kept of what has been read, have changed.
pub open spec fn list_kept(a: ExtData, b: ExtData) -> bool {
    &&& b.inv()
    &&& b == ExtData {
        archive: Archive { volume: b.archive.volume, ..a.archive },
        ..a
    }
    &&& same_volume(a.archive.volume, b.archive.volume)
    &&& a.archive.volume.framed() ==> b.archive.volume.framed()
}

/// Opens the entry of the file that the host names, if there is one.
pub fn find_named(ext: &mut ExtData, kind: NameType, parent: u64, text: &[u8]) -> (r: Result<
    Option<FileMeta>,
    Errno,
>)
    requires
        old(ext).inv(),
        names_of(old(ext).archive.volume, kind),
    ensures
        list_kept(*old(ext), *final(ext)),
        match (kind.parsed_os(text@), Ino::of(parent)) {
            (None, _) => r == Err::<Option<FileMeta>, Errno>(Errno::NameTooLong),
            (Some(_), Ino::File(_)) => r == Err::<Option<FileMeta>, Errno>(Errno::NotDirectory),
            (Some(n), Ino::Dir(p)) => r is Ok && (old(ext).archive.volume.framed() ==> match r->Ok_0 {
                Some(f) => file_is(old(ext).archive.volume.tree(), f.ino(), p as int, n.0),
                None => !has_file(old(ext).archive.volume.tree(), p as int, n.0),
            }),
        },
        few_handles(old(ext).archive.volume) ==> match r {
            Ok(Some(f)) => file_opened(
                old(ext).archive.volume,
                final(ext).archive.volume,
                f.ticket.index,
            ),
            _ => same_handles(old(ext).archive.volume, final(ext).archive.volume),
        },
{
    let (ino, name, _) = match named_in(kind, parent, text) {
        Ok(v) => v,
        Err(e) => {
            return Err(e);
        },
    };
    let dir = match ext.archive.volume.open_dir(ino) {
        Ok(d) => d,
        Err(_) => {
            return Err(Errno::Io);
        },
    };
    let found = find_file(ext, &dir, &name);
    dir.close(&mut ext.archive.volume);
    Ok(found)
}

/// Opens the entry of the file that the host names, to delete it.
pub fn find_to_unlink(
    ext: &mut ExtData,
    kind: NameType,
    read_only: bool,
    parent: u64,
    text: &[u8],
) -> (r: Result<FileMeta, Errno>)
    requires
        old(ext).inv(),
        names_of(old(ext).archive.volume, kind),
    ensures
        list_kept(*old(ext), *final(ext)),
        match (kind.parsed_os(text@), Ino::of(parent)) {
            _ if read_only => r == Err::<FileMeta, Errno>(Errno::ReadOnly),
            (None, _) => r == Err::<FileMeta, Errno>(Errno::NameTooLong),
            (Some(_), Ino::File(_)) => r == Err::<FileMeta, Errno>(Errno::NotDirectory),
            (Some(n), Ino::Dir(p)) => old(ext).archive.volume.framed() ==> if has_file(
                old(ext).archive.volume.tree(),
                p as int,
                n.0,
            ) {
                r matches Ok(f) && file_is(
                    old(ext).archive.volume.tree(),
                    f.ino(),
                    p as int,
                    n.0,
                )
            } else {
                r == Err::<FileMeta, Errno>(Errno::NotFound)
            },
        },
        few_handles(old(ext).archive.volume) ==> match r {
            Ok(f) => file_opened(
                old(ext).archive.volume,
                final(ext).archive.volume,
                f.ticket.index,
            ),
            Err(_) => same_handles(old(ext).archive.volume, final(ext).archive.volume),
        },
{
    if read_only {
        return Err(Errno::ReadOnly);
    }
    match find_named(ext, kind, parent, text) {
        Ok(Some(f)) => Ok(f),
        Ok(None) => Err(Errno::NotFound),
        Err(e) => Err(e),
    }
}

/// Opens the entry of the file that the host names, if there is one, to move it, and tells the
/// number of the directory that it is to be in and the name that it is to have.
pub fn find_to_move(
    ext: &mut ExtData,
    kind: NameType,
    read_only: bool,
    parent: u64,
    text: &[u8],
    new_parent: u64,
    new_text: &[u8],
) -> (r: Result<(Option<FileMeta>, u32, Vec<u8>), Errno>)
    requires
        old(ext).inv(),
        names_of(old(ext).archive.volume, kind),
    ensures
        list_kept(*old(ext), *final(ext)),
        match (kind.parsed_os(text@), kind.parsed_os(new_text@)) {
            _ if read_only => r matches Err(e) && e == Errno::ReadOnly,
            (Some(n), Some(m)) => match (Ino::of(parent), Ino::of(new_parent)) {
                (Ino::Dir(p), Ino::Dir(q)) => r matches Ok(v) && v.1 == q && v.2@ == m.0 && (old(
                    ext,
                ).archive.volume.framed() ==> match v.0 {
                    Some(f) => file_is(old(ext).archive.volume.tree(), f.ino(), p as int, n.0),
                    None => !has_file(old(ext).archive.volume.tree(), p as int, n.0),
                }),
                _ => r matches Err(e) && e == Errno::NotDirectory,
            },
            _ => r matches Err(e) && e == Errno::NameTooLong,
        },
        few_handles(old(ext).archive.volume) ==> match r {
            Ok((Some(f), _, _)) => file_opened(
                old(ext).archive.volume,
                final(ext).archive.volume,
                f.ticket.index,
            ),
            _ => same_handles(old(ext).archive.volume, final(ext).archive.volume),
        },
{
    if read_only {
        return Err(Errno::ReadOnly);
    }
    let from = named_in(kind, parent, text);
    let to = named_in(kind, new_parent, new_text);
    if let Err(Errno::NameTooLong) = to {
        return Err(Errno::NameTooLong);
    }
    if let Err(e) = from {
        return Err(e);
    }
    let (q, name, _) = match to {
        Ok(v) => v,
        Err(e) => {
            return Err(e);
        },
    };
    match find_named(ext, kind, parent, text) {
        Ok(f) => Ok((f, q, name)),
        Err(e) => Err(e),
    }
}

/// What the host is told of a file with a content, if there is any. A file that does not open is
/// not found.
pub open spec fn attr_gives(
    a: ExtData,
    read_only: bool,
    f: int,
    body: Option<Vec<u8>>,
    r: Result<Attr, Errno>,
) -> bool {
    let signer = Some((file_signer(a.id, f), a.key));
    match body {
        None => r == Ok::<Attr, Errno>(file_attr(read_only, f, 0)),
        Some(b) => if diff_error(b@, signer) is Some || entry_size(
            a.archive.volume.tree().files[f].data,
        ) != diff_id(b@) {
            r == Err::<Attr, Errno>(Errno::NotFound)
        } else {
            exists|d: Diff<ExtSigner>| #[trigger]
                opened_diff(d, b@, signer) && r == Ok::<Attr, Errno>(
                    file_attr(read_only, f, d.inner.partitions@[0].bytes().len() as int),
                )
        },
    }
}

/// Tells the host of a file by its entry and its content, and closes the entry.
pub fn attr_of_file(
    ext: &mut ExtData,
    read_only: bool,
    meta: FileMeta,
    body: Option<Vec<u8>>,
) -> (r: Result<Attr, Errno>)
    requires
        old(ext).inv(),
        meta.ticket.index < u32::MAX,
    ensures
        list_kept(*old(ext), *final(ext)),
        file_closed(old(ext).archive.volume, final(ext).archive.volume, meta.ticket.index),
        old(ext).archive.volume.framed() && old(ext).archive.volume.tree().files.contains_key(
            meta.ino(),
        ) ==> attr_gives(*old(ext), read_only, meta.ino(), body, r),
{
    match ext.open_file(meta, body) {
        Ok(f) => {
            let r = make_file_attr(read_only, f.get_ino(), f.len());
            let ghost b = ext.archive.volume;
            f.meta.close(&mut ext.archive.volume.fs);
            proof {
                lemma_alike(b, ext.archive.volume);
            }
            Ok(r)
        },
        Err(_) => Err(Errno::NotFound),
    }
}

/// File `f` has been added to a directory of the list.
pub open spec fn listed(a: Volume, b: Volume, f: int, p: int, name: Seq<u8>) -> bool {
    &&& b.framed()
    &&& b.chains == a.chains
    &&& !a.tree().files.contains_key(f)
    &&& is_new_entry(b.tree().files[f].data)
    &&& b.tree() == with_file(a.tree(), f, p, name, b.tree().files[f].data)
    &&& b.fs.files.room() == a.fs.files.room() - 1
}

/// What making the content of file `f` gives: without a length there is none. The blocks are taken
/// of the quota, where there is one.
pub open spec fn body_gives(
    a: ExtData,
    b: ExtData,
    f: int,
    len: int,
    r: Result<(File, Option<Vec<u8>>), Error>,
) -> bool {
    let end = diff_layout(ext_partition(len, true)).end;
    let signer = Some((file_signer(a.id, f), a.key));
    let made = r matches Ok(x) && x.0.inv() && x.0.ino() == f && (x.1 matches Some(body)
        && body@.len() == end && new_diff(body@, signer, ext_partition(len, true), NEW_UNIQUE_ID)
        && (x.0.data matches Some(d) && opened_diff(d, body@, signer)));
    if f == u32::MAX {
        r == Err::<(File, Option<Vec<u8>>), Error>(Error::InvalidValue) && b.quota_file
            == a.quota_file
    } else if len == 0 {
        (r matches Ok(x) && x.0.inv() && x.0.ino() == f && x.0.data is None && x.1 is None)
            && b.quota_file == a.quota_file
    } else {
        match a.quota_file {
            None => made && b.quota_file is None,
            Some(q) => if !quota_readable(q) {
                &&& r == Err::<(File, Option<Vec<u8>>), Error>(
                    refused(q.inner.partitions@[0], 0, QUOTA_LEN as int),
                )
                &&& b.quota_file matches Some(d) && quota_kept(q, d)
            } else if quota_free(q) < quota_blocks(end) {
                &&& r == Err::<(File, Option<Vec<u8>>), Error>(Error::NoSpace)
                &&& b.quota_file matches Some(d) && quota_kept(q, d)
            } else {
                &&& made
                &&& b.quota_file matches Some(d) && quota_taken(q, d, f, end)
            },
        }
    }
}

/// What making a file in a directory gives.
pub open spec fn new_file_gives(
    a: ExtData,
    b: ExtData,
    p: int,
    name: Seq<u8>,
    len: int,
    r: Result<(File, Option<Vec<u8>>), Error>,
) -> bool {
    let v = a.archive.volume;
    let w = b.archive.volume;
    if taken(v, p, name) || v.fs.files.room() == 0 {
        &&& r == Err::<(File, Option<Vec<u8>>), Error>(
            if taken(v, p, name) {
                Error::AlreadyExist
            } else {
                Error::NoSpace
            },
        )
        &&& w.framed()
        &&& same_volume(v, w)
        &&& b.quota_file == a.quota_file
    } else {
        exists|f: int| #[trigger] listed(v, w, f, p, name) && body_gives(a, b, f, len, r)
    }
}

/// Makes a file in a directory, opens it, and tells what the host has to store for it. The entry
/// stays in the list where the content cannot be made.
pub fn new_file(ext: &mut ExtData, dir: &Dir, name: &[u8], len: usize) -> (r: Result<
    (File, Option<Vec<u8>>),
    Error,
>)
    requires
        old(ext).inv(),
        4 + name@.len() == old(ext).archive.volume.fs.files.key_len,
        len == 0 || file_fits(len as int),
    ensures
        final(ext).inv(),
        *final(ext) == (ExtData {
            archive: Archive { volume: final(ext).archive.volume, ..old(ext).archive },
            quota_file: final(ext).quota_file,
            ..*old(ext)
        }),
        fixed(old(ext).archive.volume, final(ext).archive.volume),
        old(ext).archive.volume.framed() && old(ext).archive.volume.tree().dirs.contains_key(
            dir.ino(),
        ) ==> new_file_gives(*old(ext), *final(ext), dir.ino(), name@, len as int, r),
{
    proof {
        reveal(fs_sound);
    }
    let ghost a = *ext;
    let ghost good = a.archive.volume.framed() && a.archive.volume.tree().dirs.contains_key(
        dir.ino(),
    );
    let meta = match ext.new_sub_file(dir, name) {
        Ok(m) => m,
        Err(e) => {
            return make_error(e);
        },
    };
    let ghost m = *ext;
    let ino: u32 = meta.get_ino();
    if ino == u32::MAX {
        meta.close(&mut ext.archive.volume.fs);
        proof {
            lemma_alike(m.archive.volume, ext.archive.volume);
            if good {
                assert(listed(a.archive.volume, ext.archive.volume, ino as int, dir.ino(), name@));
            }
        }
        return make_error(Error::InvalidValue);
    }
    let mut body: Option<Vec<u8>> = None;
    let mut stored: Option<Vec<u8>> = None;
    if len > 0 {
        if let Err(e) = ext.reserve(ino, len) {
            meta.close(&mut ext.archive.volume.fs);
            proof {
                lemma_alike(m.archive.volume, ext.archive.volume);
                if good {
                    assert(listed(
                        a.archive.volume,
                        ext.archive.volume,
                        ino as int,
                        dir.ino(),
                        name@,
                    ));
                }
            }
            return make_error(e);
        }
        let image = match ext.make_file(ino, len, NEW_UNIQUE_ID) {
            Ok(f) => f,
            Err(e) => {
                return make_error(e);
            },
        };
        let n: usize = image.len();
        let copy = copy_range(&image, 0, n);
        assert(copy@ =~= image@);
        body = Some(image);
        stored = Some(copy);
    }
    match ext.open_file(meta, body) {
        Ok(f) => {
            proof {
                if good {
                    assert(listed(
                        a.archive.volume,
                        ext.archive.volume,
                        ino as int,
                        dir.ino(),
                        name@,
                    ));
                }
            }
            Ok((f, stored))
        },
        Err(e) => Err(e),
    }
}

/// What the host is told of a file that has been made, and of whose content it has to store.
pub open spec fn made_answer(
    read_only: bool,
    x: Result<(File, Option<Vec<u8>>), Error>,
) -> Result<(Attr, Option<(u32, Vec<u8>)>), Errno> {
    match x {
        Ok(v) => Ok(
            (
                file_attr(read_only, v.0.ino(), 0),
                match v.1 {
                    Some(body) => Some((v.0.meta.ticket.index, body)),
                    None => None,
                },
            ),
        ),
        Err(e) => Err(not_made_errno(e)),
    }
}

/// What making a file that the host names gives. There is no space for a length that no file can
/// have.
pub open spec fn mknod_gives(
    a: ExtData,
    b: ExtData,
    read_only: bool,
    p: int,
    name: Seq<u8>,
    len: int,
    r: Result<(Attr, Option<(u32, Vec<u8>)>), Errno>,
) -> bool {
    ||| (len == 0 || file_fits(len)) && exists|x: Result<(File, Option<Vec<u8>>), Error>|
        #[trigger] new_file_gives(a, b, p, name, len, x) && r == made_answer(read_only, x)
    ||| len > SMALL_LEN && (usize::MAX == u64::MAX ==> !file_fits(len)) && r == Err::<
        (Attr, Option<(u32, Vec<u8>)>),
        Errno,
    >(Errno::NoSpace) && b == a
}

/// Making a file in a list gives the same, whatever handles are open before and after.
proof fn lemma_new_file_same(
    a: ExtData,
    b: ExtData,
    c: ExtData,
    d: ExtData,
    p: int,
    name: Seq<u8>,
    len: int,
    r: Result<(File, Option<Vec<u8>>), Error>,
)
    requires
        list_kept(a, b),
        list_kept(c, d),
        new_file_gives(b, c, p, name, len, r),
    ensures
        new_file_gives(a, d, p, name, len, r),
{
    let v = b.archive.volume;
    let w = c.archive.volume;
    if !(taken(v, p, name) || v.fs.files.room() == 0) {
        let f = choose|f: int| #[trigger] listed(v, w, f, p, name) && body_gives(b, c, f, len, r);
        assert(listed(a.archive.volume, d.archive.volume, f, p, name));
        assert(body_gives(a, d, f, len, r));
    }
}

/// Makes a file that the host names, and tells what the host has to store for it. The length of the
/// content can be given behind the name.
pub fn mknod(ext: &mut ExtData, kind: NameType, read_only: bool, parent: u64, text: &[u8]) -> (r:
    Result<(Attr, Option<(u32, Vec<u8>)>), Errno>)
    requires
        old(ext).inv(),
        names_of(old(ext).archive.volume, kind),
    ensures
        final(ext).inv(),
        fixed(old(ext).archive.volume, final(ext).archive.volume),
        final(ext).meta_file == old(ext).meta_file,
        match (kind.parsed_os(text@), Ino::of(parent)) {
            _ if read_only => *final(ext) == *old(ext) && r == Err::<
                (Attr, Option<(u32, Vec<u8>)>),
                Errno,
            >(Errno::ReadOnly),
            (None, _) => *final(ext) == *old(ext) && r == Err::<
                (Attr, Option<(u32, Vec<u8>)>),
                Errno,
            >(Errno::NameTooLong),
            (Some(_), Ino::File(_)) => *final(ext) == *old(ext) && r == Err::<
                (Attr, Option<(u32, Vec<u8>)>),
                Errno,
            >(Errno::NotDirectory),
            (Some(n), Ino::Dir(p)) => old(ext).archive.volume.framed()
                && old(ext).archive.volume.tree().dirs.contains_key(p as int) ==> mknod_gives(
                *old(ext),
                *final(ext),
                read_only,
                p as int,
                n.0,
                argument_size(n.1),
                r,
            ),
        },
{
    if read_only {
        return Err(Errno::ReadOnly);
    }
    let (ino, name, argument) = match named_in(kind, parent, text) {
        Ok(v) => v,
        Err(e) => {
            return Err(e);
        },
    };
    let len: usize = match parse_decimal(&argument) {
        Some(n) => n,
        None => 0,
    };
    if len > 0 && !can_make_file(len) {
        return Err(Errno::NoSpace);
    }
    let ghost a = *ext;
    let dir = match ext.archive.volume.open_dir(ino) {
        Ok(d) => d,
        Err(_) => {
            return Err(Errno::Io);
        },
    };
    let ghost b = *ext;
    let made = new_file(ext, &dir, &name, len);
    let ghost x = made;
    let ghost c = *ext;
    let ghost good = a.archive.volume.framed() && a.archive.volume.tree().dirs.contains_key(
        ino as int,
    );
    let r = match made {
        Ok((f, body)) => {
            let i: u32 = f.get_ino();
            f.meta.close(&mut ext.archive.volume.fs);
            proof {
                lemma_alike(c.archive.volume, ext.archive.volume);
            }
            let stored = match body {
                Some(v) => Some((i, v)),
                None => None,
            };
            Ok((make_file_attr(read_only, i, 0), stored))
        },
        Err(e) => Err(not_made(e)),
    };
    let ghost d = *ext;
    dir.close(&mut ext.archive.volume);
    proof {
        if good {
            lemma_new_file_same(a, b, c, *ext, ino as int, name@, len as int, x);
        }
    }
    r
}

/// The blocks of a file have been given back to the quota, where there is one.
pub open spec fn quota_returned(
    a: Option<Diff<ExtSigner>>,
    b: Option<Diff<ExtSigner>>,
    file: File,
) -> bool {
    let len: int = match file.data {
        Some(d) => d.inner.file@.len() as int,
        None => 0,
    };
    match a {
        None => b is None,
        Some(q) => b matches Some(d) && quota_given_back(q, d, file.ino(), len),
    }
}

/// What deleting a file gives. It fails where the file is open elsewhere or the quota cannot be
/// read. In the latter case the file is off the list.
pub open spec fn unlink_gives(
    a: ExtData,
    b: ExtData,
    file: File,
    r: Result<(), Errno>,
) -> bool {
    let v = a.archive.volume;
    let w = b.archive.volume;
    if v.fs.files.handles(file.meta.ticket.index) != 1 {
        &&& r == Err::<(), Errno>(Errno::Io)
        &&& w.tree() == v.tree()
        &&& b.quota_file == a.quota_file
    } else {
        &&& w.framed()
        &&& w.tree() == without_file(v.tree(), file.ino())
        &&& w.fs.files.room() == v.fs.files.room() + 1
        &&& if a.quota_file matches Some(q) && !quota_readable(q) {
            &&& r == Err::<(), Errno>(Errno::Io)
            &&& b.quota_file matches Some(d) && quota_kept(a.quota_file->0, d)
        } else {
            &&& r == Ok::<(), Errno>(())
            &&& quota_returned(a.quota_file, b.quota_file, file)
        }
    }
}

/// Deletes a file. The host has to remove its content before.
pub fn unlink(ext: &mut ExtData, file: File) -> (r: Result<(), Errno>)
    requires
        old(ext).inv(),
        file.inv(),
        file.meta.ticket.index < u32::MAX,
        file.data matches Some(d) ==> quota_blocks(d.inner.file@.len() as int) <= u32::MAX,
    ensures
        final(ext).inv(),
        final(ext).meta_file == old(ext).meta_file,
        fixed(old(ext).archive.volume, final(ext).archive.volume),
        old(ext).archive.volume.framed() && old(ext).archive.volume.tree().files.contains_key(
            file.ino(),
        ) && !old(ext).archive.volume.chains@.contains_key(file.ino()) ==> unlink_gives(
            *old(ext),
            *final(ext),
            file,
            r,
        ),
{
    match file.delete(ext) {
        Ok(()) => Ok(()),
        Err(_) => Err(Errno::Io),
    }
}

/// What moving a file to a name that is free, or belongs to a directory, gives.
pub open spec fn moved_gives(
    t: Tree,
    b: ExtData,
    f: int,
    q: int,
    name: Seq<u8>,
    r: Result<(), Errno>,
) -> bool {
    let w = b.archive.volume;
    &&& w.framed()
    &&& if has_file(t, q, name) || w.fs.dirs.key_len == 4 + name.len() && has_dir(t, q, name) {
        r == Err::<(), Errno>(Errno::Exists) && w.tree() == t
    } else {
        &&& r == Ok::<(), Errno>(())
        &&& w.tree() == with_file(without_file(t, f), f, q, name, t.files[f].data)
    }
}

/// What moving a file over another one gives. The other one is deleted first, which fails where it
/// is open elsewhere or the quota cannot be read.
pub open spec fn moved_over_gives(
    a: ExtData,
    b: ExtData,
    f: int,
    other: File,
    q: int,
    name: Seq<u8>,
    r: Result<(), Errno>,
) -> bool {
    let v = a.archive.volume;
    if v.fs.files.handles(other.meta.ticket.index) != 1 {
        &&& r == Err::<(), Errno>(Errno::Io)
        &&& b.archive.volume.tree() == v.tree()
        &&& b.quota_file == a.quota_file
    } else if v.tree().files.contains_key(other.ino()) && !v.chains@.contains_key(other.ino())
        && f != other.ino() {
        let t = without_file(v.tree(), other.ino());
        if a.quota_file matches Some(d) && !quota_readable(d) {
            &&& r == Err::<(), Errno>(Errno::Io)
            &&& b.archive.volume.tree() == t
            &&& b.quota_file matches Some(d) && quota_kept(a.quota_file->0, d)
        } else {
            &&& moved_gives(t, b, f, q, name, r)
            &&& quota_returned(a.quota_file, b.quota_file, other)
        }
    } else {
        true
    }
}

/// Moves a file to another name, over the file that has it, if there is one. The host has to remove
/// the content of that one before.
pub fn move_file(
    ext: &mut ExtData,
    file: &mut File,
    other: Option<File>,
    dir: &Dir,
    name: &[u8],
) -> (r: Result<(), Errno>)
    requires
        old(ext).inv(),
        old(file).inv(),
        4 + name@.len() == old(ext).archive.volume.fs.files.key_len,
        other matches Some(o) ==> o.inv() && o.meta.ticket.index < u32::MAX && (
        o.data matches Some(d) ==> quota_blocks(d.inner.file@.len() as int) <= u32::MAX),
    ensures
        final(ext).inv(),
        final(file).inv(),
        final(file).data == old(file).data,
        final(ext).meta_file == old(ext).meta_file,
        fixed(old(ext).archive.volume, final(ext).archive.volume),
        old(ext).archive.volume.framed() && old(ext).archive.volume.tree().files.contains_key(
            old(file).ino(),
        ) && old(ext).archive.volume.tree().dirs.contains_key(dir.ino()) ==> match other {
            None => {
                &&& moved_gives(
                    old(ext).archive.volume.tree(),
                    *final(ext),
                    old(file).ino(),
                    dir.ino(),
                    name@,
                    r,
                )
                &&& final(ext).quota_file == old(ext).quota_file
            },
            Some(o) => moved_over_gives(
                *old(ext),
                *final(ext),
                old(file).ino(),
                o,
                dir.ino(),
                name@,
                r,
            ),
        },
{
    if let Some(o) = other {
        if let Err(_) = o.delete(ext) {
            return Err(Errno::Io);
        }
    }
    match file.rename(ext, dir, name) {
        Ok(()) => Ok(()),
        Err(Error::AlreadyExist) => Err(Errno::Exists),
        Err(_) => Err(Errno::Io),
    }
}

/// Reads from a file. Only what is within the file is read. Where the data is not intact, zeros
/// are read.
pub fn read(file: &mut File, offset: usize, size: usize) -> (r: Result<Vec<u8>, Errno>)
    requires
        old(file).inv(),
    ensures
        final(file).inv(),
        final(file).bytes() == old(file).bytes(),
        forall|i: int| #[trigger] final(file).readable(i) == old(file).readable(i),
        final(file).same_handle(*old(file)),
        ({
            let end = read_end(offset as int, size as int, old(file).bytes().len() as int);
            if end <= offset {
                r matches Ok(d) && d@.len() == 0
            } else {
                let p = old(file).data->0.inner.partitions@[0];
                if can_read(p, offset as int, end - offset) {
                    r matches Ok(d) && d@ == old(file).bytes().subrange(offset as int, end)
                } else if refused(p, offset as int, end - offset) == Error::HashMismatch {
                    r matches Ok(d) && d@ == Seq::new((end - offset) as nat, |i: int| 0u8)
                } else {
                    r == Err::<Vec<u8>, Errno>(Errno::Io)
                }
            }
        }),
{
    let len: usize = file.len();
    if size == 0 || offset >= len {
        return Ok(Vec::new());
    }
    let n: usize = if size < len - offset {
        size
    } else {
        len - offset
    };
    let mut buf: Vec<u8> = vec![0u8; n];
    assert(buf@ =~= Seq::new(n as nat, |i: int| 0u8));
    match file.read(offset, &mut buf) {
        Ok(()) | Err(Error::HashMismatch) => Ok(buf),
        _ => Err(Errno::Io),
    }
}

/// Writes to a file. Its length cannot change.
pub fn write(ext: &ExtData, file: &mut File, read_only: bool, offset: usize, data: &[u8]) -> (r:
    Result<(), Errno>)
    requires
        ext.inv(),
        old(file).inv(),
    ensures
        final(file).inv(),
        final(file).same_handle(*old(file)),
        if read_only {
            r == Err::<(), Errno>(Errno::ReadOnly) && *final(file) == *old(file)
        } else if data@.len() == 0 {
            r == Ok::<(), Errno>(()) && *final(file) == *old(file)
        } else if offset + data@.len() > old(file).bytes().len()
            || ext.archive.volume.fs.files.handles(old(file).meta.ticket.index) != 1 {
            r == Err::<(), Errno>(Errno::Io) && *final(file) == *old(file)
        } else {
            &&& r == Ok::<(), Errno>(())
            &&& final(file).bytes() == spliced(old(file).bytes(), offset as int, data@)
            &&& forall|i: int|
                old(file).readable(i) || offset <= i < offset + data@.len()
                    ==> #[trigger] final(file).readable(i)
        },
{
    if read_only {
        return Err(Errno::ReadOnly);
    }
    if data.len() == 0 {
        return Ok(());
    }
    match file.write(ext, offset, data) {
        Ok(()) => Ok(()),
        Err(_) => Err(Errno::Io),
    }
}

/// Tells the host of a file. Its length cannot change.
pub fn truncate(file: &mut File, read_only: bool, size: Option<usize>) -> (r: Result<Attr, Errno>)
    requires
        old(file).inv(),
    ensures
        *final(file) == *old(file),
        match size {
            Some(_) => r == Err::<Attr, Errno>(Errno::Io),
            None => r == Ok::<Attr, Errno>(
                file_attr(read_only, old(file).ino(), old(file).bytes().len() as int),
            ),
        },
{
    if let Some(n) = size {
        if let Err(_) = file.resize(n) {
            return Err(Errno::Io);
        }
    }
    Ok(make_file_attr(read_only, file.get_ino(), file.len()))
}

} // verus!
