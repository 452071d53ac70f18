use crate::diff::Diff;
use crate::error::{make_error, Error};
use crate::ext_data::{put_bytes, ExtData, ExtSigner, NEW_UNIQUE_ID, QUOTA_LEN};
use crate::difi_layout::DifiPartitionParam;
use crate::fs_meta::FileMeta;
use crate::little_endian::{push_le, read_le};
use crate::misc::divide_up;
use crate::random_access_file::{overwrite, Content, RandomAccessFile};
use crate::volume::{set_entry, Volume, NO_BLOCK};
use crate::volume_dir::Dir;
use vstd::prelude::*;

verus! {

use crate::container::{container_opened, Container, ContainerInfo};
use crate::diff::{
    diff_error, diff_fits, diff_id, diff_info, diff_layout, law_diff_reopen, lemma_diff_layout,
};
use crate::ext_data::{ext_partition, holds_bytes, new_diff, quota_blocks};
use crate::fields::{field, lemma_field_in};
use crate::fs_tree::{with_file, without_file};
use crate::little_endian::{le_bytes, lemma_le_bytes_len};
use crate::paths::file_id;
use crate::random_access_file::{can_read, read_gives, refused, same_file, spliced};
use crate::save_data::lemma_block_lens;
use crate::volume::{
    entry_block, entry_size, file_closed, fixed, fs_sound, lemma_alike, same_handles, same_volume,
};
use crate::volume_dir::{name_taken, taken};

/// The number that a file is signed with.
pub open spec fn sub_id(ino: int) -> int {
    file_id(ino).0 * 0x1_0000_0000 + file_id(ino).1
}

/// How a file is signed.
pub open spec fn file_signer(id: u64, ino: int) -> ExtSigner {
    ExtSigner { id, sub_id: Some(sub_id(ino) as u64) }
}

fn get_file_signer(id: u64, ino: u32) -> (r: ExtSigner)
    requires
        ino < u32::MAX,
    ensures
        r == file_signer(id, ino as int),
{
    let index: u32 = ino + 1;
    ExtSigner { id, sub_id: Some((index / 126) as u64 * 0x1_0000_0000 + (index % 126) as u64) }
}

/// A quota after a file has been made or deleted.
pub open spec fn quota_marked(
    q: Seq<u8>,
    index: int,
    len: int,
    free: int,
    potential: int,
) -> Seq<u8> {
    spliced(
        spliced(
            spliced(
                spliced(q, 0x1C, le_bytes(free as nat, 4)),
                0x28,
                le_bytes(potential as nat, 4),
            ),
            0x30,
            le_bytes(index as nat, 4),
        ),
        0x40,
        le_bytes(len as nat, 8),
    )
}

/// What is stored as the quota.
pub open spec fn quota_of(d: Diff<ExtSigner>) -> Seq<u8> {
    d.inner.partitions@[0].bytes().subrange(0, QUOTA_LEN as int)
}

/// How many blocks are free.
pub open spec fn quota_free(d: Diff<ExtSigner>) -> int {
    field(quota_of(d), 0x1C, 4) as int
}

pub open spec fn quota_readable(d: Diff<ExtSigner>) -> bool {
    can_read(d.inner.partitions@[0], 0, QUOTA_LEN as int)
}

/// The quota has been set and stored.
pub open spec fn quota_set(a: Diff<ExtSigner>, b: Diff<ExtSigner>, q: Seq<u8>) -> bool {
    &&& b.inv()
    &&& quota_of(b) == q
    &&& quota_readable(b)
    &&& b.inner.header.signer() == a.inner.header.signer()
    &&& a.named() ==> b.named() && holds_bytes(b.inner.file@, b.inner.header.signer(), q)
}

/// The blocks of a new file have been taken from the quota.
pub open spec fn quota_taken(a: Diff<ExtSigner>, b: Diff<ExtSigner>, ino: int, len: int) -> bool {
    quota_set(
        a,
        b,
        quota_marked(
            quota_of(a),
            ino + 1,
            len,
            quota_free(a) - quota_blocks(len),
            quota_free(a),
        ),
    )
}

/// The blocks of a file that is deleted have been given back to the quota.
pub open spec fn quota_given_back(
    a: Diff<ExtSigner>,
    b: Diff<ExtSigner>,
    ino: int,
    len: int,
) -> bool {
    let now = (quota_free(a) + quota_blocks(len)) % 0x1_0000_0000;
    quota_set(a, b, quota_marked(quota_of(a), ino + 1, len, now, now))
}

fn push4(v: u32) -> (r: Vec<u8>)
    ensures
        r@ == le_bytes(v as nat, 4),
        r@.len() == 4,
{
    let mut out: Vec<u8> = Vec::new();
    push_le(&mut out, v as u64, 4);
    proof {
        lemma_le_bytes_len(v as nat, 4);
    }
    assert(out@ =~= le_bytes(v as nat, 4));
    out
}

/// Nothing has changed in a quota and in what is stored of it.
pub open spec fn quota_kept(a: Diff<ExtSigner>, b: Diff<ExtSigner>) -> bool {
    &&& same_file(a.inner.partitions@[0], b.inner.partitions@[0])
    &&& b.inner.file == a.inner.file
}

/// Sets the numbers of a quota and stores it.
fn mark_quota(d: &mut Diff<ExtSigner>, index: u32, len: usize, take: bool) -> (r: Result<(), Error>)
    requires
        old(d).inv(),
        quota_blocks(len as int) <= u32::MAX,
    ensures
        final(d).inv(),
        !quota_readable(*old(d)) ==> quota_kept(*old(d), *final(d)) && r == Err::<(), Error>(
            refused(old(d).inner.partitions@[0], 0, QUOTA_LEN as int),
        ),
        quota_readable(*old(d)) ==> {
            let free = quota_free(*old(d));
            let blocks = quota_blocks(len as int);
            if take && free < blocks {
                &&& r == Err::<(), Error>(Error::NoSpace)
                &&& quota_kept(*old(d), *final(d))
            } else if take {
                &&& r == Ok::<(), Error>(())
                &&& quota_set(
                    *old(d),
                    *final(d),
                    quota_marked(
                        quota_of(*old(d)),
                        index as int,
                        len as int,
                        free - blocks,
                        free,
                    ),
                )
            } else {
                let now = (free + blocks) % 0x1_0000_0000;
                &&& r == Ok::<(), Error>(())
                &&& quota_set(
                    *old(d),
                    *final(d),
                    quota_marked(quota_of(*old(d)), index as int, len as int, now, now),
                )
            }
        },
{
    let ghost a = *d;
    assert(a.inner.partition_ok(0));
    let found = d.inner.partitions[0].load(0, QUOTA_LEN);
    proof {
        assert forall|k: int| 0 <= k < a.inner.partitions@.len() implies (#[trigger]
        d.inner.partitions@[k]).inv() && d.inner.partitions@[k].shape()
            == a.inner.partitions@[k].shape() by {
            assert(a.inner.partition_ok(k));
        }
        crate::archive::lemma_container_parts(a.inner, d.inner);
    }
    let ghost b = *d;
    let mut q = match found {
        Ok(q) => q,
        Err(e) => {
            return make_error(e);
        },
    };
    let ghost q0 = q@;
    proof {
        assert(q0.subrange(0x1C, 0x20) =~= quota_of(a).subrange(0x1C, 0x20));
        crate::little_endian::lemma_le_number_bound(q0.subrange(0x1C, 0x20));
    }
    let free: u32 = read_le(&q, 0x1C, 4) as u32;
    let blocks: u32 = divide_up(len, 0x1000) as u32;
    if take && free < blocks {
        return make_error(Error::NoSpace);
    }
    let (now, potential): (u32, u32) = if take {
        (free - blocks, free)
    } else {
        let sum: u64 = (free as u64 + blocks as u64) % 0x1_0000_0000;
        (sum as u32, sum as u32)
    };
    let x = push4(now);
    overwrite(&mut q, 0x1C, &x);
    let x = push4(potential);
    overwrite(&mut q, 0x28, &x);
    let x = push4(index);
    overwrite(&mut q, 0x30, &x);
    let mut x: Vec<u8> = Vec::new();
    push_le(&mut x, len as u64, 8);
    proof {
        lemma_le_bytes_len(len as nat, 8);
    }
    assert(x@ =~= le_bytes(len as nat, 8));
    overwrite(&mut q, 0x40, &x);
    assert(q@ == quota_marked(q0, index as int, len as int, now as int, potential as int));
    let ghost named = b.named();
    let r = put_bytes(d, &q);
    proof {
        assert(quota_of(*d) =~= q@);
    }
    r
}

/// A file of extra data, opened.
pub struct File {
    pub meta: FileMeta,
    pub data: Option<Diff<ExtSigner>>,
}

/// The list of files has changed, and nothing else.
proof fn lemma_list_changed(a: Volume, b: Volume)
    requires
        a.framed(),
        b == (Volume { fs: b.fs, ..a }),
        b.inv(),
        fs_sound(b.fs),
        forall|g: int| #[trigger]
            a.chains@.contains_key(g) && g >= 0 ==> b.tree().files.contains_key(g),
    ensures
        b.framed(),
{
    assert forall|g: int| #[trigger] b.chains@.contains_key(g) implies b.chain_ok(g) by {
        assert(a.chain_ok(g));
    }
}

/// Moves an entry to another directory and gives it another name.
#[verifier::rlimit(60)]
fn rename_entry(vol: &mut Volume, meta: &mut FileMeta, parent: &Dir, name: &[u8]) -> (r: Result<
    (),
    Error,
>)
    requires
        old(vol).inv(),
        4 + name@.len() == old(vol).fs.files.key_len,
    ensures
        final(vol).inv(),
        fixed(*old(vol), *final(vol)),
        old(vol).framed() && taken(*old(vol), parent.ino(), name@) ==> r == Err::<(), Error>(
            Error::AlreadyExist,
        ) && *final(meta) == *old(meta) && final(vol).framed() && same_volume(
            *old(vol),
            *final(vol),
        ),
        old(vol).framed() && !taken(*old(vol), parent.ino(), name@)
            && old(vol).tree().files.contains_key(old(meta).ino())
            && old(vol).tree().dirs.contains_key(parent.ino()) ==> {
            &&& r == Ok::<(), Error>(())
            &&& final(vol).framed()
            &&& final(vol).chains == old(vol).chains
            &&& final(meta).ino() == old(meta).ino()
            &&& final(vol).tree() == with_file(
                without_file(old(vol).tree(), old(meta).ino()),
                old(meta).ino(),
                parent.ino(),
                name@,
                old(vol).tree().files[old(meta).ino()].data,
            )
        },
{
    let ghost a = *vol;
    proof {
        reveal(fs_sound);
    }
    if name_taken(vol, &parent.meta, name) {
        return make_error(Error::AlreadyExist);
    }
    let ghost b = *vol;
    let r = meta.rename(&mut vol.fs, &parent.meta, name);
    proof {
        if a.framed() && !taken(a, parent.ino(), name@) && a.tree().files.contains_key(
            old(meta).ino(),
        ) && a.tree().dirs.contains_key(parent.ino()) {
            assert forall|g: int| #[trigger]
                b.chains@.contains_key(g) && g >= 0 implies vol.tree().files.contains_key(g) by {
                assert(b.chain_ok(g));
            }
            lemma_list_changed(b, *vol);
        }
    }
    r
}

/// What is noted of a new file: no block, and a number.
pub open spec fn is_new_entry(d: Seq<u8>) -> bool {
    entry_block(d) == NO_BLOCK && entry_size(d) == NEW_UNIQUE_ID
}

impl ExtData {
    /// Adds a file to the list. Its content is yet to be made.
    pub fn new_sub_file(&mut self, dir: &Dir, name: &[u8]) -> (r: Result<FileMeta, Error>)
        requires
            old(self).inv(),
            4 + name@.len() == old(self).archive.volume.fs.files.key_len,
        ensures
            final(self).inv(),
            *final(self) == (ExtData {
                archive: crate::archive::Archive {
                    volume: final(self).archive.volume,
                    ..old(self).archive
                },
                ..*old(self)
            }),
            fixed(old(self).archive.volume, final(self).archive.volume),
            old(self).archive.volume.framed() && old(self).archive.volume.tree().dirs.contains_key(
                dir.ino(),
            ) ==> {
                let a = old(self).archive.volume;
                let b = final(self).archive.volume;
                if taken(a, dir.ino(), name@) {
                    &&& r == Err::<FileMeta, Error>(Error::AlreadyExist)
                    &&& b.framed()
                    &&& same_volume(a, b)
                } else if a.fs.files.room() == 0 {
                    &&& r == Err::<FileMeta, Error>(Error::NoSpace)
                    &&& b.framed()
                    &&& same_volume(a, b)
                } else {
                    &&& r matches Ok(f)
                    &&& b.framed()
                    &&& b.chains == a.chains
                    &&& !a.tree().files.contains_key(f.ino())
                    &&& is_new_entry(b.tree().files[f.ino()].data)
                    &&& b.tree() == with_file(
                        a.tree(),
                        f.ino(),
                        dir.ino(),
                        name@,
                        b.tree().files[f.ino()].data,
                    )
                    &&& b.fs.files.room() == a.fs.files.room() - 1
                }
            },
    {
        proof {
            reveal(fs_sound);
        }
        let ghost a = self.archive.volume;
        if name_taken(&mut self.archive.volume, &dir.meta, name) {
            return make_error(Error::AlreadyExist);
        }
        let ghost b = self.archive.volume;
        let blank: Vec<u8> = vec![0u8; 24];
        let info = set_entry(&blank, NO_BLOCK, NEW_UNIQUE_ID);
        let r = dir.meta.new_sub_file(&mut self.archive.volume.fs, name, &info);
        proof {
            let c = self.archive.volume;
            if a.framed() && a.tree().dirs.contains_key(dir.ino()) {
                if a.fs.files.room() == 0 {
                    lemma_alike(b, c);
                } else {
                    assert forall|g: int| #[trigger]
                        b.chains@.contains_key(g) && g >= 0 implies c.tree().files.contains_key(
                        g,
                    ) by {
                        assert(b.chain_ok(g));
                    }
                    lemma_list_changed(b, c);
                }
            }
        }
        r
    }

    /// Takes blocks of the quota for a new file, and tells how long the file is.
    pub fn reserve(&mut self, ino: u32, len: usize) -> (r: Result<usize, Error>)
        requires
            old(self).inv(),
            ino < u32::MAX,
            0 < len,
            diff_fits(ext_partition(len as int, true)),
            quota_blocks(diff_layout(ext_partition(len as int, true)).end) <= u32::MAX,
        ensures
            final(self).inv(),
            *final(self) == (ExtData { quota_file: final(self).quota_file, ..*old(self) }),
            ({
                let physical = diff_layout(ext_partition(len as int, true)).end;
                match old(self).quota_file {
                    None => r == Ok::<usize, Error>(physical as usize) && final(self).quota_file is None,
                    Some(q) => if !quota_readable(q) {
                        &&& r == Err::<usize, Error>(
                            refused(q.inner.partitions@[0], 0, QUOTA_LEN as int),
                        )
                        &&& final(self).quota_file matches Some(d) && quota_kept(q, d)
                    } else if quota_free(q) < quota_blocks(physical) {
                        &&& r == Err::<usize, Error>(Error::NoSpace)
                        &&& final(self).quota_file matches Some(d) && quota_kept(q, d)
                    } else {
                        &&& r == Ok::<usize, Error>(physical as usize)
                        &&& final(self).quota_file matches Some(d) && quota_taken(
                            q,
                            d,
                            ino as int,
                            physical,
                        )
                    },
                }
            }),
    {
        let part = file_partition(len);
        let physical: usize = Diff::<ExtSigner>::calculate_size(&part);
        match &mut self.quota_file {
            Some(q) => {
                if let Err(e) = mark_quota(q, ino + 1, physical, true) {
                    return make_error(e);
                }
            },
            None => {},
        }
        Ok(physical)
    }

    /// Makes the content of a new file.
    pub fn make_file(&self, ino: u32, len: usize, unique_id: u64) -> (r: Result<Vec<u8>, Error>)
        requires
            ino < u32::MAX,
            0 < len,
            diff_fits(ext_partition(len as int, true)),
        ensures
            r matches Ok(f) && f@.len() == diff_layout(ext_partition(len as int, true)).end
                && new_diff(
                f@,
                Some((file_signer(self.id, ino as int), self.key)),
                ext_partition(len as int, true),
                unique_id,
            ),
    {
        let part = file_partition(len);
        let n: usize = Diff::<ExtSigner>::calculate_size(&part);
        let mut file: Vec<u8> = vec![0u8; n];
        proof {
            lemma_diff_layout(part);
            lemma_block_lens(part);
        }
        match Diff::format(&mut file, Some((get_file_signer(self.id, ino), self.key)), &part, unique_id) {
            Ok(_) => Ok(file),
            Err(e) => Err(e),
        }
    }

    /// Opens a file on its content, if there is any.
    pub fn open_file(&mut self, meta: FileMeta, file: Option<Vec<u8>>) -> (r: Result<File, Error>)
        requires
            old(self).inv(),
            meta.ticket.index < u32::MAX,
        ensures
            final(self).inv(),
            *final(self) == (ExtData {
                archive: crate::archive::Archive {
                    volume: final(self).archive.volume,
                    ..old(self).archive
                },
                ..*old(self)
            }),
            same_volume(old(self).archive.volume, final(self).archive.volume),
            old(self).archive.volume.framed() ==> final(self).archive.volume.framed(),
            r matches Ok(f) ==> f.inv() && f.meta == meta && f.data is Some == file is Some,
            if r is Ok {
                same_handles(old(self).archive.volume, final(self).archive.volume)
            } else {
                file_closed(
                    old(self).archive.volume,
                    final(self).archive.volume,
                    meta.ticket.index,
                )
            },
            old(self).archive.volume.framed() && old(self).archive.volume.tree().files.contains_key(
                meta.ino(),
            ) ==> ({
                let signer = Some((file_signer(old(self).id, meta.ino()), old(self).key));
                let noted = entry_size(old(self).archive.volume.tree().files[meta.ino()].data);
                match file {
                    None => r is Ok,
                    Some(f) => match diff_error(f@, signer) {
                        Some(e) => r == Err::<File, Error>(e),
                        None => if noted != diff_id(f@) {
                            r == Err::<File, Error>(Error::UniqueIdMismatch)
                        } else {
                            r matches Ok(o) && o.data matches Some(d) && opened_diff(d, f@, signer)
                        },
                    },
                }
            }),
    {
        proof {
            reveal(fs_sound);
        }
        let ghost a = self.archive.volume;
        let ino: u32 = meta.ticket.index;
        let mut data: Option<Diff<ExtSigner>> = None;
        if let Some(f) = file {
            match Diff::new(f, Some((get_file_signer(self.id, ino), self.key))) {
                Ok(d) => {
                    data = Some(d);
                },
                Err(e) => {
                    meta.close(&mut self.archive.volume.fs);
                    proof {
                        lemma_alike(a, self.archive.volume);
                    }
                    return make_error(e);
                },
            }
        }
        let found = meta.get_info(&mut self.archive.volume.fs);
        let ghost b = self.archive.volume;
        proof {
            lemma_alike(a, b);
        }
        let mut bad: Option<Error> = None;
        match &found {
            Ok(info) => {
                proof {
                    let n = info@.len() as int;
                    assert(info@.skip(4) =~= info@.subrange(4, n));
                    lemma_field_in(info@, 4, n, 12, 8);
                }
                let noted: u64 = read_le(info, 12, 8);
                if let Some(d) = &data {
                    if noted != d.unique_id {
                        bad = Some(Error::UniqueIdMismatch);
                    }
                }
            },
            Err(e) => {
                bad = Some(*e);
            },
        }
        if let Some(e) = bad {
            meta.close(&mut self.archive.volume.fs);
            proof {
                lemma_alike(b, self.archive.volume);
            }
            return make_error(e);
        }
        Ok(File { meta, data })
    }
}

/// The content of a file has been opened.
pub open spec fn opened_diff(
    d: Diff<ExtSigner>,
    file: Seq<u8>,
    signer: Option<(ExtSigner, [u8; 16])>,
) -> bool {
    &&& d.inv()
    &&& d.named()
    &&& container_opened(d.inner, file)
    &&& d.inner.info == diff_info(ContainerInfo::header(file))
    &&& d.inner.header.signer() == signer
    &&& d.unique_id == diff_id(file)
}

/// The partition of a file.
fn file_partition(len: usize) -> (r: DifiPartitionParam)
    ensures
        r == ext_partition(len as int, true),
{
    DifiPartitionParam {
        dpfs_level2_block_len: 128,
        dpfs_level3_block_len: 4096,
        ivfc_level1_block_len: 512,
        ivfc_level2_block_len: 512,
        ivfc_level3_block_len: 4096,
        ivfc_level4_block_len: 4096,
        data_len: len,
        external_ivfc_level4: true,
    }
}

impl File {
    pub open spec fn inv(&self) -> bool {
        self.data matches Some(d) ==> d.inv()
    }

    pub open spec fn ino(&self) -> int {
        self.meta.ino()
    }

    /// The content of the file. What stands at an uninitialized position has no meaning.
    pub open spec fn bytes(&self) -> Seq<u8> {
        match self.data {
            Some(d) => d.inner.partitions@[0].bytes(),
            None => Seq::empty(),
        }
    }

    /// Whether a position of the file is initialized.
    pub open spec fn readable(&self, i: int) -> bool {
        self.data matches Some(d) && d.inner.partitions@[0].readable(i)
    }

    /// The handle is still that of the same file.
    pub open spec fn same_handle(&self, old: File) -> bool {
        &&& self.meta == old.meta
        &&& match old.data {
            Some(x) => self.data matches Some(y) && (x.named() ==> y.named())
                && y.inner.header.signer() == x.inner.header.signer() && y.unique_id == x.unique_id,
            None => self.data is None,
        }
    }

    /// The number of the file.
    pub fn get_ino(&self) -> (ino: u32)
        ensures
            ino == self.ino(),
    {
        self.meta.get_ino()
    }

    /// The length of the file.
    pub fn len(&self) -> (n: usize)
        requires
            self.inv(),
        ensures
            n == self.bytes().len(),
    {
        match &self.data {
            Some(d) => {
                assert(d.inner.partition_ok(0));
                d.inner.partitions[0].len()
            },
            None => 0,
        }
    }

    /// Files of extra data cannot be resized.
    pub fn resize(&mut self, _len: usize) -> (r: Result<(), Error>)
        ensures
            r == Err::<(), Error>(Error::Unsupported),
            *final(self) == *old(self),
    {
        make_error(Error::Unsupported)
    }

    /// Reads bytes at a position.
    pub fn read(&mut self, pos: usize, buf: &mut [u8]) -> (r: Result<(), Error>)
        requires
            old(self).inv(),
        ensures
            final(self).inv(),
            final(self).bytes() == old(self).bytes(),
            forall|i: int| #[trigger] final(self).readable(i) == old(self).readable(i),
            final(self).same_handle(*old(self)),
            pos + old(buf)@.len() > old(self).bytes().len() ==> r == Err::<(), Error>(
                Error::OutOfBound,
            ) && final(buf)@ == old(buf)@,
            pos + old(buf)@.len() <= old(self).bytes().len() ==> if old(buf)@.len() == 0 {
                r == Ok::<(), Error>(()) && final(buf)@ == old(buf)@
            } else {
                read_gives(
                    old(self).data->0.inner.partitions@[0],
                    pos as int,
                    old(buf)@,
                    final(buf)@,
                    r,
                )
            },
    {
        let n: usize = self.len();
        let len: usize = buf.len();
        if len > n || pos > n - len {
            return make_error(Error::OutOfBound);
        }
        if len == 0 {
            return Ok(());
        }
        let ghost a = *self;
        match &mut self.data {
            Some(d) => {
                let ghost d0 = *d;
                assert(d0.inner.partition_ok(0));
                let r = d.inner.partitions[0].read(pos, buf);
                proof {
                    lemma_one_part(d0, *d);
                }
                r
            },
            None => Ok(()),
        }
    }

    /// Writes bytes at a position. The file must not be open elsewhere.
    pub fn write(&mut self, ext: &ExtData, pos: usize, buf: &[u8]) -> (r: Result<(), Error>)
        requires
            old(self).inv(),
            ext.inv(),
        ensures
            final(self).inv(),
            final(self).same_handle(*old(self)),
            pos + buf@.len() > old(self).bytes().len() ==> r == Err::<(), Error>(Error::OutOfBound)
                && *final(self) == *old(self),
            pos + buf@.len() <= old(self).bytes().len() ==> if buf@.len() == 0 {
                r == Ok::<(), Error>(()) && *final(self) == *old(self)
            } else if ext.archive.volume.fs.files.handles(old(self).meta.ticket.index) != 1 {
                r == Err::<(), Error>(Error::Busy) && *final(self) == *old(self)
            } else {
                &&& r == Ok::<(), Error>(())
                &&& final(self).bytes() == spliced(old(self).bytes(), pos as int, buf@)
                &&& forall|i: int|
                    old(self).readable(i) || pos <= i < pos + buf@.len()
                        ==> #[trigger] final(self).readable(i)
            },
    {
        let n: usize = self.len();
        let len: usize = buf.len();
        if len > n || pos > n - len {
            return make_error(Error::OutOfBound);
        }
        if len == 0 {
            return Ok(());
        }
        if let Err(e) = self.meta.check_exclusive(&ext.archive.volume.fs) {
            return make_error(e);
        }
        match &mut self.data {
            Some(d) => {
                let ghost d0 = *d;
                assert(d0.inner.partition_ok(0));
                let r = d.inner.partitions[0].write(pos, buf);
                proof {
                    lemma_one_part(d0, *d);
                }
                r
            },
            None => Ok(()),
        }
    }

    /// Stores the content of the file. The file must not be open elsewhere.
    pub fn commit(&mut self, ext: &ExtData) -> (r: Result<(), Error>)
        requires
            old(self).inv(),
            ext.inv(),
        ensures
            final(self).inv(),
            final(self).same_handle(*old(self)),
            final(self).bytes() == old(self).bytes(),
            forall|i: int| old(self).readable(i) ==> #[trigger] final(self).readable(i),
            if ext.archive.volume.fs.files.handles(old(self).meta.ticket.index) != 1 {
                r == Err::<(), Error>(Error::Busy) && *final(self) == *old(self)
            } else {
                r == Ok::<(), Error>(()) && (final(self).data matches Some(d) ==> d.inner.committed())
            },
    {
        if let Err(e) = self.meta.check_exclusive(&ext.archive.volume.fs) {
            return make_error(e);
        }
        match &mut self.data {
            Some(d) => d.commit(),
            None => Ok(()),
        }
    }

    /// Moves the file to another directory and gives it another name.
    pub fn rename(&mut self, ext: &mut ExtData, parent: &Dir, name: &[u8]) -> (r: Result<(), Error>)
        requires
            old(self).inv(),
            old(ext).inv(),
            4 + name@.len() == old(ext).archive.volume.fs.files.key_len,
        ensures
            final(self).inv(),
            final(ext).inv(),
            *final(ext) == (ExtData {
                archive: crate::archive::Archive {
                    volume: final(ext).archive.volume,
                    ..old(ext).archive
                },
                ..*old(ext)
            }),
            final(self).data == old(self).data,
            fixed(old(ext).archive.volume, final(ext).archive.volume),
            old(ext).archive.volume.framed() && taken(
                old(ext).archive.volume,
                parent.ino(),
                name@,
            ) ==> r == Err::<(), Error>(Error::AlreadyExist) && *final(self) == *old(self)
                && final(ext).archive.volume.framed() && same_volume(
                old(ext).archive.volume,
                final(ext).archive.volume,
            ),
            old(ext).archive.volume.framed() && !taken(
                old(ext).archive.volume,
                parent.ino(),
                name@,
            ) && old(ext).archive.volume.tree().files.contains_key(old(self).ino()) && old(
                ext,
            ).archive.volume.tree().dirs.contains_key(parent.ino()) ==> {
                let a = old(ext).archive.volume;
                let b = final(ext).archive.volume;
                &&& r == Ok::<(), Error>(())
                &&& b.framed()
                &&& b.chains == a.chains
                &&& final(self).ino() == old(self).ino()
                &&& b.tree() == with_file(
                    without_file(a.tree(), old(self).ino()),
                    old(self).ino(),
                    parent.ino(),
                    name@,
                    a.tree().files[old(self).ino()].data,
                )
            },
    {
        rename_entry(&mut ext.archive.volume, &mut self.meta, parent, name)
    }

    /// The number of the directory that the file is in.
    pub fn get_parent_ino(&self, ext: &mut ExtData) -> (r: Result<u32, Error>)
        requires
            old(ext).inv(),
        ensures
            final(ext).inv(),
            same_volume(old(ext).archive.volume, final(ext).archive.volume),
            old(ext).archive.volume.framed() ==> final(ext).archive.volume.framed(),
            old(ext).archive.volume.framed() && old(ext).archive.volume.tree().files.contains_key(
                self.ino(),
            ) ==> (r matches Ok(p) && p == old(ext).archive.volume.tree().files[self.ino()].parent),
    {
        proof {
            reveal(fs_sound);
        }
        let ghost a = ext.archive.volume;
        let r = self.meta.get_parent_ino(&mut ext.archive.volume.fs);
        proof {
            lemma_alike(a, ext.archive.volume);
        }
        r
    }

    /// Takes the file off the list, and gives its blocks back to the quota. The content is to be
    /// removed before.
    pub fn delete(self, ext: &mut ExtData) -> (r: Result<(), Error>)
        requires
            self.inv(),
            old(ext).inv(),
            self.meta.ticket.index < u32::MAX,
            self.data matches Some(d) ==> quota_blocks(d.inner.file@.len() as int) <= u32::MAX,
        ensures
            final(ext).inv(),
            final(ext).meta_file == old(ext).meta_file,
            fixed(old(ext).archive.volume, final(ext).archive.volume),
            old(ext).archive.volume.fs.files.handles(self.meta.ticket.index) != 1 ==> r == Err::<
                (),
                Error,
            >(Error::Busy) && final(ext).quota_file == old(ext).quota_file
                && final(ext).archive.volume.tree() == old(ext).archive.volume.tree(),
            old(ext).archive.volume.framed() && old(ext).archive.volume.tree().files.contains_key(
                self.ino(),
            ) && !old(ext).archive.volume.chains@.contains_key(self.ino())
                && old(ext).archive.volume.fs.files.handles(self.meta.ticket.index) == 1 ==> {
                let len: int = match self.data {
                    Some(d) => d.inner.file@.len() as int,
                    None => 0,
                };
                let a = old(ext).archive.volume;
                let b = final(ext).archive.volume;
                &&& b.framed()
                &&& b.chains == a.chains
                &&& b.tree() == without_file(a.tree(), self.ino())
                &&& b.fs.files.room() == a.fs.files.room() + 1
                &&& match old(ext).quota_file {
                    None => r == Ok::<(), Error>(()) && final(ext).quota_file is None,
                    Some(q) => if !quota_readable(q) {
                        &&& r == Err::<(), Error>(
                            refused(q.inner.partitions@[0], 0, QUOTA_LEN as int),
                        )
                        &&& final(ext).quota_file matches Some(d) && quota_kept(q, d)
                    } else {
                        &&& r == Ok::<(), Error>(())
                        &&& final(ext).quota_file matches Some(d) && quota_given_back(
                            q,
                            d,
                            self.ino(),
                            len,
                        )
                    },
                }
            },
    {
        proof {
            reveal(fs_sound);
            crate::misc::lemma_counted(0, 0x1000);
        }
        let ghost a = ext.archive.volume;
        let index: u32 = self.meta.ticket.index + 1;
        let len: usize = match &self.data {
            Some(d) => d.inner.file.len(),
            None => 0,
        };
        let gone = self.meta.delete(&mut ext.archive.volume.fs);
        proof {
            let b = ext.archive.volume;
            if a.framed() && a.fs.files.handles(self.meta.ticket.index) == 1
                && a.tree().files.contains_key(self.ino()) && !a.chains@.contains_key(self.ino()) {
                assert forall|g: int| #[trigger]
                    a.chains@.contains_key(g) && g >= 0 implies b.tree().files.contains_key(g) by {
                    assert(a.chain_ok(g));
                }
                lemma_list_changed(a, b);
            }
        }
        if let Err(e) = gone {
            return make_error(e);
        }
        match &mut ext.quota_file {
            Some(q) => mark_quota(q, index, len, false),
            None => Ok(()),
        }
    }
}

/// A container whose one partition has been replaced by another of the same shape.
proof fn lemma_one_part(a: Diff<ExtSigner>, b: Diff<ExtSigner>)
    requires
        a.inv(),
        b == (Diff { inner: Container { partitions: b.inner.partitions, ..a.inner }, ..a }),
        b.inner.partitions@.len() == 1,
        b.inner.partitions@[0].inv(),
        b.inner.partitions@[0].shape() == a.inner.partitions@[0].shape(),
    ensures
        b.inv(),
{
    crate::archive::lemma_container_parts(a.inner, b.inner);
}

/// A file of extra data that has been committed reads back when its content is opened again.
pub proof fn law_ext_file_reads_back(
    f: File,
    d: Diff<ExtSigner>,
    o: File,
    e: Diff<ExtSigner>,
    signer: Option<(ExtSigner, [u8; 16])>,
)
    requires
        f.data == Some(d),
        d.inv(),
        d.named(),
        d.inner.committed(),
        d.inner.header.signer() == signer,
        o.data == Some(e),
        opened_diff(e, d.inner.file@, signer),
    ensures
        diff_error(d.inner.file@, signer) is None,
        e.unique_id == d.unique_id,
        o.bytes() == f.bytes(),
        forall|i: int| #[trigger] o.readable(i) == f.readable(i),
{
    law_diff_reopen(d, e);
    assert forall|i: int| #[trigger] o.readable(i) == f.readable(i) by {
        assert(e.inner.partitions@[0].readable(i) == d.inner.partitions@[0].readable(i));
    }
}

} // verus!
