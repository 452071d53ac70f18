use crate::container::{write_new, Container, ContainerInfo, HeaderFile, Member, HEADER_LEN};
use crate::difi_layout::{DifiPartitionParam, DESCRIPTOR_HEAD};
use crate::difi_partition::DifiPartition;
use crate::error::{make_error, Error};
use crate::fields::Packer;
use crate::little_endian::read_le;
use crate::misc::align_up;
use crate::random_access_file::{copy_range, overwrite};
use crate::signed_file::Signer;
use crate::slots::Range;
use vstd::prelude::*;

verus! {

use crate::container::{
    HEAD_LEN, container_opened, header_error, heads_alike, kept, law_container_reopen, lemma_committed_file, lemma_members, lemma_new_len, lemma_written_opens, sign, written, zeros,
};
use crate::crypto::sha256;
use crate::difi_layout::{layout, lemma_layout};
use crate::difi_partition::{block_lens_ok, head_of, law_formatted_opens, lemma_head, openable};
use crate::fields::{
    Fields, field, lemma_field, lemma_field_byte, lemma_field_same, lemma_packed_len, lemma_pow256,
    packed, start,
};
use crate::misc::{aligned, lemma_counted};
use crate::random_access_file::{same_file, spliced, Content};
use crate::slots::{cut, ranges_ok};

/// `DIFF` in little endian.
pub const DIFF_MAGIC: u64 = 0x4646_4944;

/// The length of the fields of the header.
pub const DIFF_HEADER_LEN: usize = 0x5C;

/// Where in the header the byte is that selects the table in use.
pub const TABLE_SELECTOR_POS: usize = 0x30;

/// Where in the header the hash of the table is.
pub const TABLE_HASH_POS: usize = 0x34;

/// Where in the header the number is that identifies the file.
pub const UNIQUE_ID_POS: usize = 0x54;

/// Where the second table of a new container is.
pub const SECONDARY_TABLE: usize = 0x200;

/// Where the parts of a new container are, and how long they are.
pub struct DiffLayout {
    pub primary: int,
    pub table_len: int,
    pub partition_offset: int,
    pub partition_len: int,
    pub end: int,
}

/// The parts of a new container.
pub open spec fn diff_layout(p: DifiPartitionParam) -> DiffLayout {
    let l = layout(p);
    let primary = aligned(0x200 + l.descriptor_len, 8);
    let partition_offset = aligned(primary + l.descriptor_len, p.align());
    DiffLayout {
        primary,
        table_len: l.descriptor_len,
        partition_offset,
        partition_len: l.partition_len,
        end: partition_offset + l.partition_len,
    }
}

/// The container can be made, and its length can be counted.
pub open spec fn diff_fits(p: DifiPartitionParam) -> bool {
    p.ok() && diff_layout(p).end <= usize::MAX
}

/// The layout in machine integers.
#[derive(Clone, Copy, PartialEq, Eq, Structural, Debug)]
pub struct DiffInfo {
    pub primary: usize,
    pub table_len: usize,
    pub partition_offset: usize,
    pub partition_len: usize,
    pub end: usize,
}

impl DiffInfo {
    pub open spec fn view(self) -> DiffLayout {
        DiffLayout {
            primary: self.primary as int,
            table_len: self.table_len as int,
            partition_offset: self.partition_offset as int,
            partition_len: self.partition_len as int,
            end: self.end as int,
        }
    }
}

/// The parts follow each other.
pub proof fn lemma_diff_layout(p: DifiPartitionParam)
    requires
        p.ok(),
    ensures
        ({
            let l = diff_layout(p);
            &&& l.table_len >= DESCRIPTOR_HEAD + 0x20
            &&& 0x200 + l.table_len <= l.primary
            &&& l.primary + l.table_len <= l.partition_offset
            &&& l.partition_len > 0
            &&& l.partition_offset + l.partition_len == l.end
            &&& layout(p).partition_len <= l.end
            &&& layout(p).descriptor_len <= l.end
        }),
{
    let l = diff_layout(p);
    lemma_layout(p);
    lemma_counted(0x200 + l.table_len, 8);
    lemma_counted(l.primary + l.table_len, p.align());
}

/// Calculates where the parts of a new container are.
fn calculate_info(p: &DifiPartitionParam) -> (info: DiffInfo)
    requires
        diff_fits(*p),
    ensures
        info.view() == diff_layout(*p),
{
    proof {
        lemma_diff_layout(*p);
        lemma_layout(*p);
    }
    let (table_len, partition_len) = DifiPartition::calculate_size(p);
    let primary: usize = align_up(SECONDARY_TABLE + table_len, 8);
    let partition_offset: usize = align_up(primary + table_len, p.get_align());
    DiffInfo {
        primary,
        table_len,
        partition_offset,
        partition_len,
        end: partition_offset + partition_len,
    }
}

/// The header of a new container.
pub open spec fn header_fields(p: DifiPartitionParam, unique_id: u64) -> Fields {
    let l = diff_layout(p);
    seq![
        (DIFF_MAGIC as nat, 4nat),
        (0x30000nat, 4nat),
        (0x200nat, 8nat),
        (l.primary as nat, 8nat),
        (l.table_len as nat, 8nat),
        (l.partition_offset as nat, 8nat),
        (l.partition_len as nat, 8nat),
        (1nat, 1nat),
        (0nat, 2nat),
        (0nat, 1nat),
        (0nat, 8nat),
        (0nat, 8nat),
        (0nat, 8nat),
        (0nat, 8nat),
        (unique_id as nat, 8nat),
    ]
}

fn header_bytes(info: &DiffInfo, unique_id: u64, Ghost(p): Ghost<DifiPartitionParam>) -> (r: Vec<
    u8,
>)
    requires
        info.view() == diff_layout(p),
    ensures
        r@ == packed(header_fields(p, unique_id)),
{
    let mut k = Packer::new();
    k.put(DIFF_MAGIC, 4);
    k.put(0x30000, 4);
    k.put(0x200, 8);
    k.put(info.primary as u64, 8);
    k.put(info.table_len as u64, 8);
    k.put(info.partition_offset as u64, 8);
    k.put(info.partition_len as u64, 8);
    k.put(1, 1);
    k.put(0, 2);
    k.put(0, 1);
    k.put(0, 8);
    k.put(0, 8);
    k.put(0, 8);
    k.put(0, 8);
    k.put(unique_id, 8);
    assert(k.fields@ =~= header_fields(p, unique_id));
    k.out
}

pub proof fn lemma_header_fields(p: DifiPartitionParam, unique_id: u64)
    requires
        diff_fits(p),
    ensures
        packed(header_fields(p, unique_id)).len() == DIFF_HEADER_LEN,
        field(packed(header_fields(p, unique_id)), 0, 4) == header_fields(p, unique_id)[0].0,
        field(packed(header_fields(p, unique_id)), 4, 4) == header_fields(p, unique_id)[1].0,
        field(packed(header_fields(p, unique_id)), 8, 8) == header_fields(p, unique_id)[2].0,
        field(packed(header_fields(p, unique_id)), 16, 8) == header_fields(p, unique_id)[3].0,
        field(packed(header_fields(p, unique_id)), 24, 8) == header_fields(p, unique_id)[4].0,
        field(packed(header_fields(p, unique_id)), 32, 8) == header_fields(p, unique_id)[5].0,
        field(packed(header_fields(p, unique_id)), 40, 8) == header_fields(p, unique_id)[6].0,
        field(packed(header_fields(p, unique_id)), 48, 1) == header_fields(p, unique_id)[7].0,
        field(packed(header_fields(p, unique_id)), 49, 2) == header_fields(p, unique_id)[8].0,
        field(packed(header_fields(p, unique_id)), 51, 1) == header_fields(p, unique_id)[9].0,
        field(packed(header_fields(p, unique_id)), 52, 8) == header_fields(p, unique_id)[10].0,
        field(packed(header_fields(p, unique_id)), 60, 8) == header_fields(p, unique_id)[11].0,
        field(packed(header_fields(p, unique_id)), 68, 8) == header_fields(p, unique_id)[12].0,
        field(packed(header_fields(p, unique_id)), 76, 8) == header_fields(p, unique_id)[13].0,
        field(packed(header_fields(p, unique_id)), 84, 8) == header_fields(p, unique_id)[14].0,
{
    let f = header_fields(p, unique_id);
    lemma_diff_layout(p);
    lemma_pow256();
    assert(start(f, 0) == 0 && f[0].1 == 4);
    assert(start(f, 1) == 4 && f[1].1 == 4);
    assert(start(f, 2) == 8 && f[2].1 == 8);
    assert(start(f, 3) == 16 && f[3].1 == 8);
    assert(start(f, 4) == 24 && f[4].1 == 8);
    assert(start(f, 5) == 32 && f[5].1 == 8);
    assert(start(f, 6) == 40 && f[6].1 == 8);
    assert(start(f, 7) == 48 && f[7].1 == 1);
    assert(start(f, 8) == 49 && f[8].1 == 2);
    assert(start(f, 9) == 51 && f[9].1 == 1);
    assert(start(f, 10) == 52 && f[10].1 == 8);
    assert(start(f, 11) == 60 && f[11].1 == 8);
    assert(start(f, 12) == 68 && f[12].1 == 8);
    assert(start(f, 13) == 76 && f[13].1 == 8);
    assert(start(f, 14) == 84 && f[14].1 == 8);
    assert(start(f, 15) == 92);
    lemma_packed_len(f);
    lemma_field(f, 0);
    lemma_field(f, 1);
    lemma_field(f, 2);
    lemma_field(f, 3);
    lemma_field(f, 4);
    lemma_field(f, 5);
    lemma_field(f, 6);
    lemma_field(f, 7);
    lemma_field(f, 8);
    lemma_field(f, 9);
    lemma_field(f, 10);
    lemma_field(f, 11);
    lemma_field(f, 12);
    lemma_field(f, 13);
    lemma_field(f, 14);
}

/// What the header of a container tells.
pub open spec fn diff_info(h: Seq<u8>) -> ContainerInfo {
    let size = field(h, 0x18, 8) as u64;
    let only = Member {
        descriptor: Range { offset: 0, len: size },
        partition: Range { offset: field(h, 0x20, 8) as u64, len: field(h, 0x28, 8) as u64 },
    };
    ContainerInfo {
        selector_pos: TABLE_SELECTOR_POS,
        hash_pos: TABLE_HASH_POS,
        primary: field(h, 0x10, 8) as u64,
        secondary: field(h, 8, 8) as u64,
        table_size: size,
        count: 1,
        first: only,
        second: only,
    }
}

/// The number that identifies the file.
pub open spec fn diff_id(file: Seq<u8>) -> u64 {
    field(ContainerInfo::header(file), UNIQUE_ID_POS as int, 8) as u64
}

/// The error for a file that cannot be opened.
pub open spec fn diff_error<S: Signer>(
    file: Seq<u8>,
    signer: Option<(S, [u8; 16])>,
) -> Option<Error> {
    let h = ContainerInfo::header(file);
    if header_error(file, signer) is Some {
        header_error(file, signer)
    } else if field(h, 0, 4) != DIFF_MAGIC || field(h, 4, 4) != 0x30000 {
        Some(Error::MagicMismatch)
    } else {
        diff_info(h).error(file)
    }
}

/// Headers that differ in the selector and the hash only tell the same.
proof fn lemma_same_header(h: Seq<u8>, g: Seq<u8>)
    requires
        h.len() == HEADER_LEN,
        heads_alike(diff_info(h), h, g),
    ensures
        field(g, 0, 4) == field(h, 0, 4),
        field(g, 4, 4) == field(h, 4, 4),
        field(g, UNIQUE_ID_POS as int, 8) == field(h, UNIQUE_ID_POS as int, 8),
        diff_info(g) == diff_info(h),
{
    assert(h.subrange(0, 0x30) =~= g.subrange(0, 0x30));
    assert(h.subrange(UNIQUE_ID_POS as int, UNIQUE_ID_POS + 8) =~= g.subrange(
        UNIQUE_ID_POS as int,
        UNIQUE_ID_POS + 8,
    ));
    lemma_field_same(h, g, 0, 0x30, 0, 4);
    lemma_field_same(h, g, 0, 0x30, 4, 4);
    lemma_field_same(h, g, 0, 0x30, 8, 8);
    lemma_field_same(h, g, 0, 0x30, 0x10, 8);
    lemma_field_same(h, g, 0, 0x30, 0x18, 8);
    lemma_field_same(h, g, 0, 0x30, 0x20, 8);
    lemma_field_same(h, g, 0, 0x30, 0x28, 8);
    lemma_field_same(h, g, UNIQUE_ID_POS as int, UNIQUE_ID_POS + 8, UNIQUE_ID_POS as int, 8);
}

/// The header is still that of such a container.
pub proof fn lemma_still_named<S: Signer>(a: Diff<S>, b: Diff<S>)
    requires
        a.inv(),
        a.named(),
        b.inner.info == a.inner.info,
        b.unique_id == a.unique_id,
        heads_alike(a.inner.info, a.inner.header.bytes(), b.inner.header.bytes()),
    ensures
        b.named(),
{
    lemma_same_header(a.inner.header.bytes(), b.inner.header.bytes());
}

/// The file of a container that has been committed can be opened, with the same partition and
/// number.
pub proof fn law_diff_reopen<S: Signer>(d: Diff<S>, g: Diff<S>)
    requires
        d.inv(),
        d.named(),
        d.inner.committed(),
    ensures
        diff_error(d.inner.file@, d.inner.header.signer()) is None,
        diff_id(d.inner.file@) == d.unique_id,
        container_opened(g.inner, d.inner.file@) && g.inner.info == diff_info(
            ContainerInfo::header(d.inner.file@),
        ) ==> same_file(d.inner.partitions@[0], g.inner.partitions@[0]),
{
    lemma_committed_file(d.inner);
    law_container_reopen(d.inner, g.inner);
}

/// A file with one partition and a number that identifies it.
pub struct Diff<S> {
    pub inner: Container<S>,
    pub unique_id: u64,
}

impl<S: Signer> Diff<S> {
    pub open spec fn inv(&self) -> bool {
        self.inner.inv() && self.inner.info.count == 1
    }

    /// The header is that of such a container.
    pub open spec fn named(&self) -> bool {
        let h = self.inner.header.bytes();
        &&& field(h, 0, 4) == DIFF_MAGIC
        &&& field(h, 4, 4) == 0x30000
        &&& diff_info(h) == self.inner.info
        &&& field(h, UNIQUE_ID_POS as int, 8) == self.unique_id
    }

    /// The length of a container.
    pub fn calculate_size(param: &DifiPartitionParam) -> (r: usize)
        requires
            diff_fits(*param),
        ensures
            r == diff_layout(*param).end,
    {
        calculate_info(param).end
    }

    /// Opens a container.
    pub fn new(file: Vec<u8>, signer: Option<(S, [u8; 16])>) -> (r: Result<Diff<S>, Error>)
        ensures
            match r {
                Ok(d) => {
                    &&& diff_error(file@, signer) is None
                    &&& d.inv()
                    &&& container_opened(d.inner, file@)
                    &&& d.inner.info == diff_info(ContainerInfo::header(file@))
                    &&& d.inner.header.signer() == signer
                    &&& d.unique_id == diff_id(file@)
                    &&& d.named()
                },
                Err(e) => diff_error(file@, signer) == Some(e),
            },
    {
        let header = match HeaderFile::open(&file, signer) {
            Ok(h) => h,
            Err(e) => {
                return make_error(e);
            },
        };
        let h = header.data();
        if read_le(h, 0, 4) != DIFF_MAGIC || read_le(h, 4, 4) != 0x30000 {
            return make_error(Error::MagicMismatch);
        }
        let table_size: u64 = read_le(h, 0x18, 8);
        let only = Member {
            descriptor: Range { offset: 0, len: table_size },
            partition: Range { offset: read_le(h, 0x20, 8), len: read_le(h, 0x28, 8) },
        };
        let info = ContainerInfo {
            selector_pos: TABLE_SELECTOR_POS,
            hash_pos: TABLE_HASH_POS,
            primary: read_le(h, 0x10, 8),
            secondary: read_le(h, 8, 8),
            table_size,
            count: 1,
            first: only,
            second: only,
        };
        let unique_id: u64 = read_le(h, UNIQUE_ID_POS, 8);
        assert(info == diff_info(ContainerInfo::header(file@)));
        match Container::open(file, header, info) {
            Ok(inner) => {
                proof {
                    lemma_committed_file(inner);
                }
                Ok(Diff { inner, unique_id })
            },
            Err(e) => Err(e),
        }
    }

    /// Stores everything that has been written.
    pub fn commit(&mut self) -> (r: Result<(), Error>)
        requires
            old(self).inv(),
        ensures
            r == Ok::<(), Error>(()),
            final(self).inv(),
            final(self).inner.committed(),
            final(self).inner.info == old(self).inner.info,
            final(self).inner.header.signer() == old(self).inner.header.signer(),
            final(self).unique_id == old(self).unique_id,
            final(self).inner.file@.len() == old(self).inner.file@.len(),
            old(self).named() ==> final(self).named(),
            kept(old(self).inner.partitions@[0], final(self).inner.partitions@[0]),
    {
        let ghost a = *self;
        let r = self.inner.commit();
        proof {
            if a.named() {
                lemma_still_named(a, *self);
            }
        }
        r
    }

    /// The partition.
    pub fn partition(&self) -> (r: &DifiPartition)
        requires
            self.inv(),
        ensures
            *r == self.inner.partitions@[0],
    {
        &self.inner.partitions[0]
    }

    /// The number that identifies the file.
    pub fn unique_id(&self) -> (r: u64)
        ensures
            r == self.unique_id,
    {
        self.unique_id
    }
}

/// The table of a new container.
pub open spec fn new_table(file: Seq<u8>, p: DifiPartitionParam) -> Seq<u8> {
    spliced(
        file.subrange(SECONDARY_TABLE as int, SECONDARY_TABLE + diff_layout(p).table_len),
        0,
        head_of(p),
    )
}

/// The header of a new container, with the hash of the table.
pub open spec fn new_header(table: Seq<u8>, p: DifiPartitionParam, unique_id: u64) -> Seq<u8> {
    spliced(
        spliced(zeros(HEADER_LEN as nat), 0, packed(header_fields(p, unique_id))),
        TABLE_HASH_POS as int,
        sha256(table),
    )
}

impl<S: Signer> Diff<S> {
    /// Writes a new container.
    pub fn format(
        file: &mut Vec<u8>,
        signer: Option<(S, [u8; 16])>,
        param: &DifiPartitionParam,
        unique_id: u64,
    ) -> (r: Result<(), Error>)
        requires
            diff_fits(*param),
        ensures
            ({
                let l = diff_layout(*param);
                let table = new_table(old(file)@, *param);
                let header = new_header(table, *param, unique_id);
                if old(file)@.len() < SECONDARY_TABLE + l.table_len {
                    r == Err::<(), Error>(Error::OutOfBound) && final(file)@ == old(file)@
                } else {
                    &&& r == Ok::<(), Error>(())
                    &&& final(file)@ == written(
                        old(file)@,
                        header,
                        sign(signer, header),
                        SECONDARY_TABLE as int,
                        table,
                    )
                    &&& old(file)@.len() >= l.end && block_lens_ok(*param) ==> diff_error(
                        final(file)@,
                        signer,
                    ) is None && diff_id(final(file)@) == unique_id && (forall|c: Container<S>|
                        #[trigger]
                        container_opened(c, final(file)@) && c.info == diff_info(
                            ContainerInfo::header(final(file)@),
                        ) ==> c.partitions@[0].bytes().len() == param.data_len)
                }
            }),
    {
        let info = calculate_info(param);
        proof {
            lemma_diff_layout(*param);
            lemma_header_fields(*param, unique_id);
            lemma_head(*param);
        }
        let n: usize = file.len();
        if n < SECONDARY_TABLE || info.table_len > n - SECONDARY_TABLE {
            return make_error(Error::OutOfBound);
        }
        let fields = header_bytes(&info, unique_id, Ghost(*param));
        let mut header: Vec<u8> = vec![0u8; HEADER_LEN];
        assert(header@ =~= zeros(HEADER_LEN as nat));
        overwrite(&mut header, 0, &fields);
        let mut table = copy_range(file, SECONDARY_TABLE, info.table_len);
        if let Err(e) = DifiPartition::format(&mut table, param) {
            return make_error(e);
        }
        let r = write_new(file, signer, header, TABLE_HASH_POS, SECONDARY_TABLE, &table);
        proof {
            if old(file)@.len() >= info.end && block_lens_ok(*param) {
                lemma_new_opens(old(file)@, signer, *param, unique_id);
            }
        }
        r
    }
}

/// What the header of a new container tells.
proof fn lemma_header_read(table: Seq<u8>, p: DifiPartitionParam, unique_id: u64)
    requires
        diff_fits(p),
        sha256(table).len() == 0x20,
    ensures
        ({
            let l = diff_layout(p);
            let g = new_header(table, p, unique_id);
            let i = diff_info(g);
            &&& g.len() == HEADER_LEN
            &&& g[TABLE_SELECTOR_POS as int] == 1
            &&& field(g, 0, 4) == DIFF_MAGIC
            &&& field(g, 4, 4) == 0x30000
            &&& field(g, UNIQUE_ID_POS as int, 8) == unique_id
            &&& i.primary == l.primary
            &&& i.secondary == SECONDARY_TABLE
            &&& i.table_size == l.table_len
            &&& i.first.partition == (Range {
                offset: l.partition_offset as u64,
                len: l.partition_len as u64,
            })
        }),
{
    let g = new_header(table, p, unique_id);
    let f = packed(header_fields(p, unique_id));
    lemma_diff_layout(p);
    lemma_header_fields(p, unique_id);
    assert(g.subrange(0, 0x34) =~= f.subrange(0, 0x34));
    assert(g.subrange(0x54, 0x5C) =~= f.subrange(0x54, 0x5C));
    lemma_field_byte(g, 0x30);
    lemma_field_byte(f, 0x30);
    lemma_same(g, f, 0, 4);
    lemma_same(g, f, 4, 4);
    lemma_same(g, f, 8, 8);
    lemma_same(g, f, 0x10, 8);
    lemma_same(g, f, 0x18, 8);
    lemma_same(g, f, 0x20, 8);
    lemma_same(g, f, 0x28, 8);
    lemma_same(g, f, 0x30, 1);
    lemma_field_same(g, f, 0x54, 0x5C, 0x54, 8);
}

proof fn lemma_same(g: Seq<u8>, f: Seq<u8>, pos: int, n: int)
    requires
        g.subrange(0, 0x34) == f.subrange(0, 0x34),
        0 <= pos,
        0 <= n,
        pos + n <= 0x34 <= g.len(),
        0x34 <= f.len(),
    ensures
        field(g, pos, n) == field(f, pos, n),
{
    lemma_field_same(g, f, 0, 0x34, pos, n);
}

/// A container that has just been formatted can be opened.
proof fn lemma_new_opens<S: Signer>(
    file: Seq<u8>,
    signer: Option<(S, [u8; 16])>,
    p: DifiPartitionParam,
    unique_id: u64,
)
    requires
        diff_fits(p),
        file.len() >= diff_layout(p).end,
        block_lens_ok(p),
        sha256(new_table(file, p)).len() == 0x20,
        signer is Some ==> sign(
            signer,
            new_header(new_table(file, p), p, unique_id),
        ).len() == 0x10,
    ensures
        ({
            let table = new_table(file, p);
            let header = new_header(table, p, unique_id);
            let f = written(file, header, sign(signer, header), SECONDARY_TABLE as int, table);
            &&& diff_error(f, signer) is None
            &&& diff_id(f) == unique_id
            &&& forall|c: Container<S>| #[trigger]
                container_opened(c, f) && c.info == diff_info(ContainerInfo::header(f))
                    ==> c.partitions@[0].bytes().len() == p.data_len
        }),
{
    let l = diff_layout(p);
    let table = new_table(file, p);
    let header = new_header(table, p, unique_id);
    lemma_diff_layout(p);
    lemma_head(p);
    lemma_header_read(table, p, unique_id);
    let info = diff_info(header);
    let fr = info.file_ranges();
    assert(fr[0] == (Range { offset: 0, len: HEAD_LEN as u64 }));
    assert(fr[1] == (Range { offset: l.primary as u64, len: l.table_len as u64 }));
    assert(fr[2] == (Range { offset: SECONDARY_TABLE as u64, len: l.table_len as u64 }));
    assert(fr[3] == info.first.partition);
    assert(ranges_ok(file.len() as int, fr));
    assert(info.table_ranges()[0] == info.first.descriptor);
    assert(ranges_ok(info.table_size as int, info.table_ranges()));
    assert(header.subrange(TABLE_HASH_POS as int, TABLE_HASH_POS + 0x20) =~= sha256(table));
    assert forall|q: Seq<u8>| q.len() == info.first.partition.len implies #[trigger] openable(
        cut(table, info.first.descriptor),
        q,
    ) by {
        let d = cut(table, info.first.descriptor);
        assert(d.subrange(0, DESCRIPTOR_HEAD as int) =~= head_of(p));
        law_formatted_opens(p, d, q, arbitrary());
    }
    lemma_members(info, table);
    lemma_written_opens(info, file, header, signer, table);
    let f = written(file, header, sign(signer, header), SECONDARY_TABLE as int, table);
    assert forall|c: Container<S>| #[trigger]
        container_opened(c, f) && c.info == diff_info(
            ContainerInfo::header(f),
        ) implies c.partitions@[0].bytes().len() == p.data_len by {
        let d = cut(table, info.first.descriptor);
        assert(d.subrange(0, DESCRIPTOR_HEAD as int) =~= head_of(p));
        lemma_new_len(c, f, table, 0, p);
    }
}

} // verus!
