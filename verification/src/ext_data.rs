use crate::archive::{Archive, ImageRule};
use crate::container::Container;
use crate::diff::Diff;
use crate::difi_layout::DifiPartitionParam;
use crate::error::{make_error, Error};
use crate::fields::Packer;
use crate::fs_info::FS_INFO_LEN;
use crate::fs_meta::MetaLayout;
use crate::little_endian::push_le;
use crate::misc::{align_up, divide_up};
use crate::random_access_file::{copy_range, Content, RandomAccessFile};
use crate::signed_file::Signer;
use crate::volume_format::{Blank, Plan};
use crate::volume_place::{place, Spots};
use crate::volume_store::Source;
use vstd::prelude::*;

verus! {

use crate::archive::{image_head, law_archive_reopen, lemma_opened_settled, lemma_settled_same, source_of};
use crate::container::{container_opened, ContainerInfo};
use crate::diff::{
    diff_error, diff_fits, diff_id, diff_info, diff_layout, law_diff_reopen, lemma_diff_layout,
    lemma_still_named,
};
use crate::difi_partition::block_lens_ok;
use crate::fields::{packed, Fields};
use crate::fs_meta::root_tree;
use crate::little_endian::le_bytes;
use crate::misc::{aligned, counted, lemma_counted};
use crate::random_access_file::{can_read, spliced};
use crate::save_data::{lemma_block_lens, save_meta};
use crate::volume::Volume;
use crate::volume_place::{lemma_placed, plan_noted, spots_ok};
use crate::volume_same::{counts_same, law_held_tree_reads_back, trees_same};
use crate::volume_store::{
    files_as_before, holds, lemma_views_back, lemma_views_same, mount_refused, mounted, parts_same, shown_as, told,
};

/// `CTR-EXT0` in little endian.
pub const CTR_EXT0: u64 = 0x3054_5845_2D52_5443;

/// `VSXE` in little endian.
pub const VSXE_MAGIC: u64 = 0x4558_5356;

/// `QUOT` in little endian.
pub const QUOT_MAGIC: u64 = 0x544F_5551;

/// The length of the header of the list of files.
pub const EXT_HEADER_LEN: usize = 0x138;

/// The length of the quota.
pub const QUOTA_LEN: usize = 0x48;

/// The number that new files are identified by.
pub const NEW_UNIQUE_ID: u64 = 0xDEAD_BEEF;

/// The number that the list of files and the quota are identified by.
pub const META_UNIQUE_ID: u64 = 0x0123_4567_89AB_CDEF;

/// How the header of a file of extra data is signed.
#[derive(Clone, Copy, PartialEq, Eq, Structural, Debug)]
pub struct ExtSigner {
    pub id: u64,
    pub sub_id: Option<u64>,
}

impl Signer for ExtSigner {
    open spec fn blocked(&self, data: Seq<u8>) -> Seq<u8> {
        le_bytes(CTR_EXT0 as nat, 8) + le_bytes(self.id as nat, 8) + (match self.sub_id {
            Some(s) => le_bytes(1, 4) + le_bytes(s as nat, 8),
            None => le_bytes(0, 4) + le_bytes(0, 8),
        }) + data
    }

    fn block(&self, data: Vec<u8>) -> (r: Vec<u8>) {
        let mut data = data;
        let ghost d = data@;
        let mut out: Vec<u8> = Vec::new();
        push_le(&mut out, CTR_EXT0, 8);
        push_le(&mut out, self.id, 8);
        match self.sub_id {
            Some(s) => {
                push_le(&mut out, 1, 4);
                push_le(&mut out, s, 8);
            },
            None => {
                push_le(&mut out, 0, 4);
                push_le(&mut out, 0, 8);
            },
        }
        out.append(&mut data);
        assert(out@ =~= self.blocked(d));
        out
    }
}

/// Configuration for formatting extra data.
#[derive(Clone, Copy, PartialEq, Eq, Structural, Debug)]
pub struct ExtDataFormatParam {
    pub max_dir: usize,
    pub dir_buckets: usize,
    pub max_file: usize,
    pub file_buckets: usize,
}

/// The partition of the list of files begins so.
pub open spec fn ext_rule() -> ImageRule {
    ImageRule {
        base: 0,
        header_len: EXT_HEADER_LEN,
        magic: VSXE_MAGIC,
        version: 0x30000,
        layout: save_meta(),
        cut_off: false,
    }
}

fn get_rule() -> (r: ImageRule)
    ensures
        r == ext_rule(),
        r.ok(),
{
    ImageRule {
        base: 0,
        header_len: EXT_HEADER_LEN,
        magic: VSXE_MAGIC,
        version: 0x30000,
        layout: MetaLayout { dir_key_len: 20, dir_info_len: 16, file_key_len: 20, file_info_len: 24 },
        cut_off: false,
    }
}

/// Where the parts of the list of files are.
pub struct ExtLayout {
    pub dir_hash_offset: int,
    pub file_hash_offset: int,
    pub fat_offset: int,
    pub data_block_count: int,
    pub data_offset: int,
    pub len: int,
}

pub open spec fn ext_layout(p: ExtDataFormatParam) -> ExtLayout {
    let dir_hash_offset = 0x1A0int;
    let file_hash_offset = dir_hash_offset + p.dir_buckets * 4;
    let fat_offset = file_hash_offset + p.file_buckets * 4;
    let data_block_count = counted((p.max_dir + 2) * 40, 4096) + counted(
        (p.max_file + 1) * 48,
        4096,
    );
    let data_offset = aligned(fat_offset + (data_block_count + 1) * 8, 4096);
    ExtLayout {
        dir_hash_offset,
        file_hash_offset,
        fat_offset,
        data_block_count,
        data_offset,
        len: data_offset + data_block_count * 4096,
    }
}

/// A partition with a number of bytes.
pub open spec fn ext_partition(len: int, external: bool) -> DifiPartitionParam {
    DifiPartitionParam {
        dpfs_level2_block_len: 128,
        dpfs_level3_block_len: 4096,
        ivfc_level1_block_len: 512,
        ivfc_level2_block_len: 512,
        ivfc_level3_block_len: 4096,
        ivfc_level4_block_len: 4096,
        data_len: len as usize,
        external_ivfc_level4: external,
    }
}

pub(crate) fn get_partition(len: usize, external: bool) -> (r: DifiPartitionParam)
    ensures
        r == ext_partition(len as int, external),
{
    DifiPartitionParam {
        dpfs_level2_block_len: 128,
        dpfs_level3_block_len: 4096,
        ivfc_level1_block_len: 512,
        ivfc_level2_block_len: 512,
        ivfc_level3_block_len: 4096,
        ivfc_level4_block_len: 4096,
        data_len: len,
        external_ivfc_level4: external,
    }
}

/// How the volume of new extra data is planned.
pub open spec fn ext_plan(p: ExtDataFormatParam) -> Plan {
    Plan {
        block_len: 4096,
        block_count: ext_layout(p).data_block_count as usize,
        max_dir: p.max_dir,
        dir_buckets: p.dir_buckets,
        max_file: p.max_file,
        file_buckets: p.file_buckets,
        layout: save_meta(),
        in_blocks: true,
    }
}

/// The length of the list of files of new extra data.
pub open spec fn ext_meta_len(p: ExtDataFormatParam) -> int {
    diff_layout(ext_partition(ext_layout(p).len, false)).end
}

/// The length of the file that has the quota.
pub open spec fn quota_file_len() -> int {
    diff_layout(ext_partition(QUOTA_LEN as int, true)).end
}

/// How many blocks of the quota a file takes.
pub open spec fn quota_blocks(len: int) -> int {
    counted(len, 0x1000)
}

/// Such extra data can be made, and all its numbers can be counted.
pub open spec fn ext_fits(p: ExtDataFormatParam) -> bool {
    let l = ext_layout(p);
    &&& 0 < p.dir_buckets <= u32::MAX
    &&& 0 < p.file_buckets <= u32::MAX
    &&& p.max_dir + 2 <= u32::MAX
    &&& p.max_file + 1 <= u32::MAX
    &&& l.data_block_count + 1 < 0x8000_0000
    &&& l.len <= usize::MAX
    &&& diff_fits(ext_partition(l.len, false))
    &&& quota_blocks(ext_meta_len(p)) <= u32::MAX
    &&& diff_fits(ext_partition(QUOTA_LEN as int, true))
}

/// A file with a partition that holds some bytes.
pub open spec fn holds_bytes(
    file: Seq<u8>,
    signer: Option<(ExtSigner, [u8; 16])>,
    d: Seq<u8>,
) -> bool {
    &&& diff_error(file, signer) is None
    &&& forall|c: Container<ExtSigner>| #[trigger]
        container_opened(c, file) && c.info == diff_info(ContainerInfo::header(file)) ==> can_read(
            c.partitions@[0],
            0,
            d.len() as int,
        ) && c.partitions@[0].bytes().take(d.len() as int) == d
}

/// The list of files of extra data is in the partition of a container.
pub open spec fn ext_held(c: Container<ExtSigner>, a: Archive) -> bool {
    &&& source_of(c.partitions@[0], ext_rule()) == Ok::<Source, Error>(a.source)
    &&& holds(c.partitions@, a.source, a.volume)
}

/// The file can be opened, and what opens holds the volume.
pub open spec fn ext_stored(
    file: Seq<u8>,
    signer: Option<(ExtSigner, [u8; 16])>,
    a: Archive,
) -> bool {
    &&& diff_error(file, signer) is None
    &&& forall|c: Container<ExtSigner>| #[trigger]
        container_opened(c, file) && c.info == diff_info(ContainerInfo::header(file)) ==> ext_held(
            c,
            a,
        )
}

/// The file can be opened, and what opens holds the volume and can be stored again.
pub open spec fn ext_kept(
    file: Seq<u8>,
    signer: Option<(ExtSigner, [u8; 16])>,
    a: Archive,
) -> bool {
    &&& ext_stored(file, signer, a)
    &&& forall|c: Container<ExtSigner>| #[trigger]
        container_opened(c, file) && c.info == diff_info(ContainerInfo::header(file)) ==> a.settled(
            c.partitions@,
            ext_rule(),
        )
}

/// The list of files has a root directory and nothing else.
pub open spec fn ext_blank(p: ExtDataFormatParam, a: Archive) -> bool {
    let v = a.volume;
    &&& v.framed()
    &&& v.tree() == root_tree(16, 4)
    &&& v.fs.dirs.room() == p.max_dir
    &&& v.fs.files.room() == p.max_file
}

/// What has been committed can be opened again.
proof fn lemma_ext_stored(d: Diff<ExtSigner>, a: Archive)
    requires
        d.inv(),
        d.named(),
        d.inner.committed(),
        a.settled(d.inner.partitions@, ext_rule()),
        holds(d.inner.partitions@, a.source, a.volume),
    ensures
        ext_kept(d.inner.file@, d.inner.header.signer(), a),
        diff_id(d.inner.file@) == d.unique_id,
        headed(d.inner.partitions@[0].bytes()) ==> ext_headed(d.inner.file@),
{
    let f = d.inner.file@;
    law_diff_reopen(d, d);
    assert forall|c: Container<ExtSigner>| #[trigger]
        container_opened(c, f) && c.info == diff_info(ContainerInfo::header(f)) implies ext_held(
        c,
        a,
    ) && a.settled(c.partitions@, ext_rule()) && c.partitions@[0].bytes()
        == d.inner.partitions@[0].bytes() by {
        let g = Diff { inner: c, unique_id: d.unique_id };
        law_diff_reopen(d, g);
        law_archive_reopen(a, d.inner.partitions@, c.partitions@, ext_rule());
    }
}

/// In a new list of files the partition begins with a header that tells how many blocks long it
/// is.
pub open spec fn ext_headed(file: Seq<u8>) -> bool {
    forall|c: Container<ExtSigner>| #[trigger]
        container_opened(c, file) && c.info == diff_info(ContainerInfo::header(file)) ==> headed(
            c.partitions@[0].bytes(),
        )
}

/// A partition begins with a header that tells how many blocks long it is.
pub open spec fn headed(data: Seq<u8>) -> bool {
    data.subrange(0, EXT_HEADER_LEN as int) == image_head(
        ext_rule(),
        (data.len() as int / 4096) as u64,
        4096,
    )
}

proof fn lemma_ext_layout(p: ExtDataFormatParam)
    ensures
        ({
            let l = ext_layout(p);
            let dir_len = (p.max_dir + 2) * 40;
            let file_len = (p.max_file + 1) * 48;
            &&& l.data_block_count >= 2
            &&& dir_len <= counted(dir_len, 4096) * 4096
            &&& file_len <= counted(file_len, 4096) * 4096
            &&& l.data_block_count == counted(dir_len, 4096) + counted(file_len, 4096)
            &&& l.fat_offset + (l.data_block_count + 1) * 8 <= l.data_offset
            &&& l.data_offset + l.data_block_count * 4096 == l.len
            &&& aligned(dir_len, 4096) <= l.len
            &&& aligned(file_len, 4096) <= l.len
        }),
{
    let l = ext_layout(p);
    lemma_counted((p.max_dir + 2) * 40, 4096);
    lemma_counted((p.max_file + 1) * 48, 4096);
    lemma_counted(l.fat_offset + (l.data_block_count + 1) * 8, 4096);
}

/// The fields of a quota.
pub open spec fn quota_fields(capacity: u32, meta_blocks: int, meta_len: int) -> Fields {
    seq![
        (QUOT_MAGIC as nat, 4),
        (0x30000, 4),
        (0x1000, 4),
        (126, 4),
        (0, 4),
        (capacity as nat, 4),
        (0, 4),
        ((capacity - meta_blocks - 2) as nat, 4),
        (0, 4),
        (0, 4),
        ((capacity - 2) as nat, 4),
        (0, 4),
        (1, 4),
        (0, 4),
        (0, 4),
        (0, 4),
        (meta_len as nat, 8),
    ]
}

fn quota_bytes(capacity: u32, meta_blocks: u32, meta_len: usize) -> (r: Vec<u8>)
    requires
        meta_blocks + 2 <= capacity,
    ensures
        r@ == packed(quota_fields(capacity, meta_blocks as int, meta_len as int)),
        r@.len() == QUOTA_LEN,
{
    let mut k = Packer::new();
    k.put(QUOT_MAGIC, 4);
    k.put(0x30000, 4);
    k.put(0x1000, 4);
    k.put(126, 4);
    k.put(0, 4);
    k.put(capacity as u64, 4);
    k.put(0, 4);
    // The two blocks that are missing might be those of a directory of the outer file system.
    k.put((capacity - meta_blocks - 2) as u64, 4);
    k.put(0, 4);
    k.put(0, 4);
    k.put((capacity - 2) as u64, 4);
    k.put(0, 4);
    k.put(1, 4);
    k.put(0, 4);
    k.put(0, 4);
    k.put(0, 4);
    k.put(meta_len as u64, 8);
    proof {
        let f = quota_fields(capacity, meta_blocks as int, meta_len as int);
        assert(k.fields@ =~= f);
        crate::fields::lemma_packed_len(f);
        reveal_with_fuel(crate::fields::start, 18);
    }
    k.out
}

/// A new file with a partition.
fn new_file(signer: ExtSigner, key: [u8; 16], param: &DifiPartitionParam, unique_id: u64) -> (r: Result<
    Vec<u8>,
    Error,
>)
    requires
        diff_fits(*param),
        block_lens_ok(*param),
    ensures
        r matches Ok(f) && f@.len() == diff_layout(*param).end && new_diff(
            f@,
            Some((signer, key)),
            *param,
            unique_id,
        ),
{
    let len: usize = Diff::<ExtSigner>::calculate_size(param);
    let mut file: Vec<u8> = vec![0u8; len];
    proof {
        lemma_diff_layout(*param);
    }
    match Diff::format(&mut file, Some((signer, key)), param, unique_id) {
        Ok(_) => Ok(file),
        Err(e) => Err(e),
    }
}

/// The file can be opened, and has a partition of a length.
pub open spec fn new_diff(
    f: Seq<u8>,
    signer: Option<(ExtSigner, [u8; 16])>,
    param: DifiPartitionParam,
    unique_id: u64,
) -> bool {
    &&& diff_error(f, signer) is None
    &&& diff_id(f) == unique_id
    &&& forall|c: Container<ExtSigner>| #[trigger]
        container_opened(c, f) && c.info == diff_info(ContainerInfo::header(f))
            ==> c.partitions@[0].bytes().len() == param.data_len
}

/// Makes a file whose partition holds some bytes.
fn bytes_file(signer: ExtSigner, key: [u8; 16], param: &DifiPartitionParam, data: &Vec<u8>) -> (r: Result<
    Vec<u8>,
    Error,
>)
    requires
        diff_fits(*param),
        block_lens_ok(*param),
        data@.len() == param.data_len,
    ensures
        r matches Ok(f) && f@.len() == diff_layout(*param).end && holds_bytes(
            f@,
            Some((signer, key)),
            data@,
        ),
{
    let file = match new_file(signer, key, param, META_UNIQUE_ID) {
        Ok(f) => f,
        Err(e) => {
            return make_error(e);
        },
    };
    let mut diff = match Diff::new(file, Some((signer, key))) {
        Ok(d) => d,
        Err(e) => {
            return make_error(e);
        },
    };
    put_bytes(&mut diff, data)?;
    let n: usize = diff.inner.file.len();
    let out = copy_range(&diff.inner.file, 0, n);
    assert(out@ =~= diff.inner.file@);
    Ok(out)
}

/// Writes bytes to the start of the partition of a file, and stores them.
pub fn put_bytes(diff: &mut Diff<ExtSigner>, data: &Vec<u8>) -> (r: Result<(), Error>)
    requires
        old(diff).inv(),
    ensures
        final(diff).inv(),
        final(diff).inner.file@.len() == old(diff).inner.file@.len(),
        final(diff).unique_id == old(diff).unique_id,
        final(diff).inner.header.signer() == old(diff).inner.header.signer(),
        data@.len() > old(diff).inner.partitions@[0].bytes().len() ==> r == Err::<(), Error>(
            Error::OutOfBound,
        ),
        data@.len() <= old(diff).inner.partitions@[0].bytes().len() ==> {
            &&& r == Ok::<(), Error>(())
            &&& final(diff).inner.partitions@[0].bytes() == spliced(
                old(diff).inner.partitions@[0].bytes(),
                0,
                data@,
            )
            &&& forall|i: int|
                old(diff).inner.partitions@[0].readable(i) || 0 <= i < data@.len()
                    ==> #[trigger] final(diff).inner.partitions@[0].readable(i)
            &&& old(diff).named() ==> final(diff).named() && holds_bytes(
                final(diff).inner.file@,
                final(diff).inner.header.signer(),
                data@,
            )
        },
{
    let ghost a = *diff;
    assert(a.inner.partition_ok(0));
    let wrote = diff.inner.partitions[0].write(0, data);
    proof {
        assert forall|k: int| 0 <= k < a.inner.partitions@.len() implies (#[trigger]
        diff.inner.partitions@[k]).inv() && diff.inner.partitions@[k].shape()
            == a.inner.partitions@[k].shape() by {
            assert(a.inner.partition_ok(k));
        }
        crate::archive::lemma_container_parts(a.inner, diff.inner);
    }
    let ghost b = *diff;
    if let Err(e) = wrote {
        return make_error(e);
    }
    let r = diff.commit();
    proof {
        if a.named() {
            lemma_bytes_held(*diff, data@);
        }
    }
    r
}

proof fn lemma_bytes_held(d: Diff<ExtSigner>, data: Seq<u8>)
    requires
        d.inv(),
        d.named(),
        d.inner.committed(),
        data.len() <= d.inner.partitions@[0].bytes().len(),
        can_read(d.inner.partitions@[0], 0, data.len() as int),
        d.inner.partitions@[0].bytes().take(data.len() as int) =~= data,
    ensures
        holds_bytes(d.inner.file@, d.inner.header.signer(), data),
{
    let f = d.inner.file@;
    law_diff_reopen(d, d);
    assert forall|c: Container<ExtSigner>| #[trigger]
        container_opened(c, f) && c.info == diff_info(ContainerInfo::header(f)) implies can_read(
        c.partitions@[0],
        0,
        data.len() as int,
    ) && c.partitions@[0].bytes().take(data.len() as int) == data by {
        let g = Diff { inner: c, unique_id: d.unique_id };
        law_diff_reopen(d, g);
        crate::archive::lemma_can_read_same(d.inner.partitions@[0], c.partitions@[0]);
    }
}

/// The files of new extra data.
pub struct ExtImages {
    pub meta: Vec<u8>,
    pub quota: Option<Vec<u8>>,
}

/// Extra data: a list of files, and the files themselves, which are stored on their own.
pub struct ExtData {
    pub id: u64,
    pub key: [u8; 16],
    pub meta_file: Diff<ExtSigner>,
    pub archive: Archive,
    pub quota_file: Option<Diff<ExtSigner>>,
}

/// How the list of files is signed.
pub open spec fn meta_signer(id: u64) -> ExtSigner {
    ExtSigner { id, sub_id: Some(1) }
}

/// How the quota is signed.
pub open spec fn quota_signer(id: u64) -> ExtSigner {
    ExtSigner { id, sub_id: None }
}

/// What the container holds is what has been opened.
pub open spec fn ext_seen(c: Container<ExtSigner>, a: Archive) -> bool {
    &&& source_of(c.partitions@[0], ext_rule()) == Ok::<Source, Error>(a.source)
    &&& mounted(c.partitions@, a.source, a.volume, a.store)
}

/// Extra data has been opened on a list of files.
pub open spec fn ext_opened(s: ExtData, file: Seq<u8>) -> bool {
    exists|c: Container<ExtSigner>| #[trigger]
        container_opened(c, file) && c.info == diff_info(ContainerInfo::header(file)) && ext_seen(
            c,
            s.archive,
        ) && parts_same(c.partitions@, s.meta_file.inner.partitions@)
}

/// Opening a list of files fails with an error: that of the container, that of the header, or that
/// of the volume where the partition holds none.
pub open spec fn ext_refused(
    file: Seq<u8>,
    signer: Option<(ExtSigner, [u8; 16])>,
    e: Error,
) -> bool {
    if diff_error(file, signer) is Some {
        diff_error(file, signer) == Some(e)
    } else {
        exists|c: Container<ExtSigner>| #[trigger]
            container_opened(c, file) && c.info == diff_info(ContainerInfo::header(file)) && (
            match source_of(c.partitions@[0], ext_rule()) {
                Err(x) => x == e,
                Ok(src) => mount_refused(c.partitions@, src, e) && forall|u: Volume| !#[trigger] holds(
                    c.partitions@,
                    src,
                    u,
                ),
            })
    }
}

impl ExtData {
    pub open spec fn inv(&self) -> bool {
        &&& self.meta_file.inv()
        &&& self.archive.volume.inv()
        &&& self.archive.volume.fs.files.info_len == 24
        &&& self.quota_file matches Some(q) ==> q.inv()
    }

    /// The list of files is sound, and all of it has its place in its container.
    pub open spec fn settled(&self) -> bool {
        &&& self.meta_file.named()
        &&& self.archive.settled(self.meta_file.inner.partitions@, ext_rule())
    }

    /// Makes a new list of files in a container that has just been formatted.
    #[verifier::rlimit(80)]
    fn fill(diff: &mut Diff<ExtSigner>, param: &ExtDataFormatParam) -> (r: Result<Archive, Error>)
        requires
            ext_fits(*param),
            old(diff).inv(),
            old(diff).named(),
            old(diff).inner.partitions@[0].bytes().len() == ext_layout(*param).len,
        ensures
            final(diff).inv(),
            final(diff).inner.file@.len() == old(diff).inner.file@.len(),
            final(diff).inner.header.signer() == old(diff).inner.header.signer(),
            ext_headed(final(diff).inner.file@),
            diff_id(final(diff).inner.file@) == old(diff).unique_id,
            r matches Ok(a) && ext_blank(*param, a) && ext_kept(
                final(diff).inner.file@,
                final(diff).inner.header.signer(),
                a,
            ),
    {
        let ghost d = *diff;
        let ghost p = *param;
        let ghost l = ext_layout(p);
        proof {
            lemma_ext_layout(p);
        }
        let dir_blocks: usize = divide_up((param.max_dir + 2) * 40, 4096);
        let file_blocks: usize = divide_up((param.max_file + 1) * 48, 4096);
        let dir_hash: usize = EXT_HEADER_LEN + FS_INFO_LEN;
        let file_hash: usize = dir_hash + param.dir_buckets * 4;
        let fat: usize = file_hash + param.file_buckets * 4;
        let block_count: usize = dir_blocks + file_blocks;
        let data: usize = align_up(fat + (block_count + 1) * 8, 4096);
        let at = Spots { dir_hash, file_hash, fat, data, dir_table: 0, file_table: 0 };
        let plan = Plan {
            block_len: 4096,
            block_count,
            max_dir: param.max_dir,
            dir_buckets: param.dir_buckets,
            max_file: param.max_file,
            file_buckets: param.file_buckets,
            layout: MetaLayout {
                dir_key_len: 20,
                dir_info_len: 16,
                file_key_len: 20,
                file_info_len: 24,
            },
            in_blocks: true,
        };
        assert(d.inner.partition_ok(0));
        let len: usize = diff.inner.partitions[0].len();
        proof {
            assert(plan == ext_plan(p));
            assert(plan.dir_len() == (p.max_dir + 2) * 40);
            assert(plan.file_len() == (p.max_file + 1) * 48);
            assert(plan_noted(plan));
            assert(d.inner.partitions@.len() == 1);
            assert(spots_ok(plan, at, 0x1A0, d.inner.partitions@));
        }
        let blank = match Blank::new(&plan) {
            Ok(b) => b,
            Err(e) => {
                return make_error(e);
            },
        };
        let ghost b = blank;
        let mut archive = place(blank, &plan, &at);
        proof {
            lemma_placed(plan, at, archive, b, 0x1A0, d.inner.partitions@);
        }
        let rule = get_rule();
        if let Err(e) = archive.create(&mut diff.inner, &rule, (len / 4096) as u64) {
            return make_error(e);
        }
        proof {
            lemma_still_named(d, *diff);
            lemma_ext_stored(*diff, archive);
            let data = diff.inner.partitions@[0].bytes();
            assert(data.len() == len);
            assert(archive.source.info.block_len == 4096);
            assert(headed(data));
        }
        Ok(archive)
    }

    /// The length of the list of files of new extra data.
    fn meta_len(param: &ExtDataFormatParam) -> (r: (usize, DifiPartitionParam))
        requires
            ext_fits(*param),
        ensures
            r.0 == ext_meta_len(*param),
            r.1 == ext_partition(ext_layout(*param).len, false),
    {
        proof {
            lemma_ext_layout(*param);
        }
        let dir_blocks: usize = divide_up((param.max_dir + 2) * 40, 4096);
        let file_blocks: usize = divide_up((param.max_file + 1) * 48, 4096);
        let fat: usize = EXT_HEADER_LEN + FS_INFO_LEN + param.dir_buckets * 4 + param.file_buckets
            * 4;
        let count: usize = dir_blocks + file_blocks;
        let data: usize = align_up(fat + (count + 1) * 8, 4096);
        let part = get_partition(data + count * 4096, false);
        (Diff::<ExtSigner>::calculate_size(&part), part)
    }

    /// Makes the files of new extra data. With a quota, that is a number of blocks.
    pub fn format(id: u64, key: [u8; 16], quota: Option<u32>, param: &ExtDataFormatParam) -> (r: Result<
        ExtImages,
        Error,
    >)
        requires
            ext_fits(*param),
            quota matches Some(c) ==> c >= 2,
        ensures
            ext_format_gives(id, key, quota, *param, r),
    {
        let (len, part) = ExtData::meta_len(param);
        let mut quota_image: Option<Vec<u8>> = None;
        proof {
            lemma_block_lens(part);
        }
        if let Some(capacity) = quota {
            let blocks: u32 = divide_up(len, 0x1000) as u32;
            if blocks > capacity - 2 {
                return make_error(Error::NoSpace);
            }
            let data = quota_bytes(capacity, blocks, len);
            let quota_part = get_partition(QUOTA_LEN, true);
            proof {
                lemma_block_lens(quota_part);
            }
            match bytes_file(ExtSigner { id, sub_id: None }, key, &quota_part, &data) {
                Ok(f) => {
                    quota_image = Some(f);
                },
                Err(e) => {
                    return make_error(e);
                },
            }
        }
        let signer = ExtSigner { id, sub_id: Some(1) };
        let file = match new_file(signer, key, &part, META_UNIQUE_ID) {
            Ok(f) => f,
            Err(e) => {
                return make_error(e);
            },
        };
        let mut diff = match Diff::new(file, Some((signer, key))) {
            Ok(d) => d,
            Err(e) => {
                return make_error(e);
            },
        };
        let archive = match ExtData::fill(&mut diff, param) {
            Ok(a) => a,
            Err(e) => {
                return make_error(e);
            },
        };
        let n: usize = diff.inner.file.len();
        let meta = copy_range(&diff.inner.file, 0, n);
        proof {
            assert(meta@ =~= diff.inner.file@);
            assert(ext_blank(*param, archive));
        }
        Ok(ExtImages { meta, quota: quota_image })
    }

    /// Opens extra data on its list of files and its quota.
    pub fn new(meta: Vec<u8>, quota: Option<Vec<u8>>, id: u64, key: [u8; 16]) -> (r: Result<
        ExtData,
        Error,
    >)
        ensures
            ext_open_gives(meta@, quota, id, key, r),
    {
        let ghost f = meta@;
        let mut quota_file: Option<Diff<ExtSigner>> = None;
        if let Some(q) = quota {
            match Diff::new(q, Some((ExtSigner { id, sub_id: None }, key))) {
                Ok(d) => {
                    quota_file = Some(d);
                },
                Err(e) => {
                    return make_error(e);
                },
            }
        }
        let mut meta_file = match Diff::new(meta, Some((ExtSigner { id, sub_id: Some(1) }, key))) {
            Ok(d) => d,
            Err(e) => {
                return make_error(e);
            },
        };
        let ghost d = meta_file;
        let rule = get_rule();
        let found = Archive::open(&mut meta_file.inner, &rule);
        proof {
            assert(container_opened(d.inner, f) && d.inner.info == diff_info(
                ContainerInfo::header(f),
            ));
        }
        match found {
            Ok(archive) => {
                proof {
                    lemma_views_same(
                        d.inner.partitions@,
                        meta_file.inner.partitions@,
                        archive.source,
                    );
                    lemma_views_back(
                        d.inner.partitions@,
                        meta_file.inner.partitions@,
                        archive.source,
                    );
                    assert(ext_seen(d.inner, archive));
                }
                Ok(ExtData { id, key, meta_file, archive, quota_file })
            },
            Err(e) => Err(e),
        }
    }

    /// Stores the list of files.
    pub fn commit(&mut self) -> (r: Result<(), Error>)
        requires
            old(self).inv(),
        ensures
            final(self).inv(),
            final(self).id == old(self).id,
            final(self).key == old(self).key,
            final(self).quota_file == old(self).quota_file,
            final(self).meta_file.inner.header.signer() == old(self).meta_file.inner.header.signer(),
            old(self).settled() ==> {
                &&& r == Ok::<(), Error>(())
                &&& final(self).settled()
                &&& files_as_before(old(self).archive.volume, final(self).archive.volume)
                &&& ext_kept(
                    final(self).meta_file.inner.file@,
                    final(self).meta_file.inner.header.signer(),
                    final(self).archive,
                )
            },
    {
        let ghost d = self.meta_file;
        let ghost a = self.archive;
        let r = self.archive.commit(&mut self.meta_file.inner);
        proof {
            if d.named() && a.settled(d.inner.partitions@, ext_rule()) {
                lemma_still_named(d, self.meta_file);
                lemma_ext_stored(self.meta_file, self.archive);
            }
        }
        r
    }
}

/// What opening extra data gives: the list of files that the file holds and the quota, or an error.
pub open spec fn ext_open_gives(
    meta: Seq<u8>,
    quota: Option<Vec<u8>>,
    id: u64,
    key: [u8; 16],
    r: Result<ExtData, Error>,
) -> bool {
    let q = Some((quota_signer(id), key));
    let m = Some((meta_signer(id), key));
    &&& quota matches Some(f) ==> (diff_error(f@, q) matches Some(e) ==> r == Err::<
        ExtData,
        Error,
    >(e))
    &&& r matches Err(e) ==> (quota matches Some(f) && diff_error(f@, q) is Some)
        || ext_refused(meta, m, e)
    &&& r matches Ok(s) ==> {
        &&& s.inv()
        &&& s.id == id
        &&& s.key == key
        &&& s.meta_file.named()
        &&& s.meta_file.inner.header.signer() == m
        &&& ext_opened(s, meta)
        &&& match quota {
            Some(f) => s.quota_file matches Some(d) && d.named() && container_opened(
                d.inner,
                f@,
            ) && d.inner.header.signer() == q,
            None => s.quota_file is None,
        }
    }
    &&& (quota matches Some(f) ==> diff_error(f@, q) is None) ==> forall|a: Archive|
        #[trigger]
        ext_stored(meta, m, a) ==> (r matches Ok(s) && s.archive.source == a.source
            && s.archive.volume.framed() && s.archive.store.ready(s.archive.volume)
            && told(
            a.source,
            s.archive.volume,
            s.archive.store,
            s.meta_file.inner.partitions@,
        ) && shown_as(
            s.meta_file.inner.partitions@,
            a.source,
            s.archive.volume,
        ))
}

/// What making extra data gives: the files, or an error where the quota is too small for them.
pub open spec fn ext_format_gives(
    id: u64,
    key: [u8; 16],
    quota: Option<u32>,
    p: ExtDataFormatParam,
    r: Result<ExtImages, Error>,
) -> bool {
    let len = ext_meta_len(p);
    let blocks = quota_blocks(len);
    if quota matches Some(c) && blocks > c - 2 {
        r == Err::<ExtImages, Error>(Error::NoSpace)
    } else {
        &&& r matches Ok(f)
        &&& f.meta@.len() == len
        &&& diff_id(f.meta@) == META_UNIQUE_ID
        &&& ext_headed(f.meta@)
        &&& exists|a: Archive| #[trigger]
            ext_blank(p, a) && ext_kept(
                f.meta@,
                Some((meta_signer(id), key)),
                a,
            )
        &&& f.quota is Some == quota is Some
        &&& quota matches Some(c) ==> f.quota->0@.len() == quota_file_len()
            && holds_bytes(
            f.quota->0@,
            Some((quota_signer(id), key)),
            packed(quota_fields(c, blocks, len)),
        )
    }
}

/// The list of files of extra data that has been committed reads back when it is opened again: it
/// has the same directories and files, and as many can be added.
pub proof fn law_ext_reads_back(
    a: Archive,
    meta: Seq<u8>,
    quota: Option<Vec<u8>>,
    id: u64,
    key: [u8; 16],
    s: ExtData,
)
    requires
        ext_stored(meta, Some((meta_signer(id), key)), a),
        ext_open_gives(meta, quota, id, key, Ok(s)),
    ensures
        trees_same(a.volume.tree(), s.archive.volume.tree()),
        counts_same(a.volume, s.archive.volume),
{
    let c = choose|c: Container<ExtSigner>| #[trigger]
        container_opened(c, meta) && c.info == diff_info(ContainerInfo::header(meta)) && ext_seen(
            c,
            s.archive,
        ) && parts_same(c.partitions@, s.meta_file.inner.partitions@);
    assert(ext_held(c, a));
    lemma_views_same(c.partitions@, s.meta_file.inner.partitions@, a.source);
    law_held_tree_reads_back(
        c.partitions@,
        a.source,
        a.volume,
        s.archive.volume,
        s.archive.store,
    );
}

/// A list of files that has been made or committed can be changed and stored again once it is
/// opened.
pub proof fn law_opened_ext_is_settled(
    a: Archive,
    meta: Seq<u8>,
    quota: Option<Vec<u8>>,
    id: u64,
    key: [u8; 16],
    s: ExtData,
)
    requires
        ext_kept(meta, Some((meta_signer(id), key)), a),
        ext_open_gives(meta, quota, id, key, Ok(s)),
    ensures
        s.settled(),
{
    let c = choose|c: Container<ExtSigner>| #[trigger]
        container_opened(c, meta) && c.info == diff_info(ContainerInfo::header(meta)) && ext_seen(
            c,
            s.archive,
        ) && parts_same(c.partitions@, s.meta_file.inner.partitions@);
    lemma_settled_same(a, c.partitions@, s.meta_file.inner.partitions@, ext_rule());
    lemma_opened_settled(a, s.archive, s.meta_file.inner.partitions@, ext_rule());
}

} // verus!
