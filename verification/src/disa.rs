use crate::container::{
    write_new, Container, ContainerInfo, HeaderFile, Member, HEADER_LEN, HEAD_LEN,
};
use crate::difi_layout::{DifiPartitionParam, DESCRIPTOR_HEAD};
use crate::difi_partition::DifiPartition;
use crate::error::{make_error, Error};
use crate::fields::Packer;
use crate::little_endian::read_le;
use crate::misc::align_up;
use crate::random_access_file::{copy_range, overwrite};
use crate::signed_file::Signer;
use crate::slots::Range;
use vstd::prelude::*;

verus! {

use crate::container::{
    container_opened, header_error, heads_alike, kept, law_container_reopen, lemma_committed_file, lemma_members, lemma_new_len, lemma_written_opens, sign, written, zeros,
};
use crate::crypto::sha256;
use crate::difi_layout::{layout, layout_fits, lemma_layout};
use crate::difi_partition::{block_lens_ok, head_of, law_formatted_opens, lemma_head, openable};
use crate::fields::{
    Fields, field, lemma_field, lemma_field_byte, lemma_field_in, lemma_field_same, lemma_packed_len, lemma_pow256, packed, start,
};
use crate::misc::{aligned, lemma_counted, lemma_counted_grows};
use crate::random_access_file::{same_file, spliced, Content};
use crate::slots::{cut, ranges_ok};

/// `DISA` in little endian.
pub const DISA_MAGIC: u64 = 0x4153_4944;

/// The length of the fields of the header.
pub const DISA_HEADER_LEN: usize = 0x69;

/// Where in the header the byte is that selects the table in use.
pub const TABLE_SELECTOR_POS: usize = 0x68;

/// Where in the header the hash of the table is.
pub const TABLE_HASH_POS: usize = 0x6C;

/// Where the second table of a new container is.
pub const SECONDARY_TABLE: usize = 0x200;

/// Where the parts of a new container are, and how long they are.
pub struct DisaLayout {
    pub primary: int,
    pub table_len: int,
    pub descriptor_a_len: int,
    pub partition_a_offset: int,
    pub partition_a_len: int,
    pub descriptor_b_offset: int,
    pub descriptor_b_len: int,
    pub partition_b_offset: int,
    pub partition_b_len: int,
    pub end: int,
}

/// The parts of a new container with one or two partitions.
pub open spec fn disa_layout(a: DifiPartitionParam, b: Option<DifiPartitionParam>) -> DisaLayout {
    let la = layout(a);
    match b {
        None => {
            let primary = aligned(0x200 + la.descriptor_len, 8);
            let partition_a_offset = aligned(primary + la.descriptor_len, a.align());
            DisaLayout {
                primary,
                table_len: la.descriptor_len,
                descriptor_a_len: la.descriptor_len,
                partition_a_offset,
                partition_a_len: la.partition_len,
                descriptor_b_offset: 0,
                descriptor_b_len: 0,
                partition_b_offset: 0,
                partition_b_len: 0,
                end: partition_a_offset + la.partition_len,
            }
        },
        Some(b) => {
            let lb = layout(b);
            let descriptor_b_offset = aligned(la.descriptor_len, 8);
            let table_len = aligned(descriptor_b_offset + lb.descriptor_len, 8);
            let primary = aligned(0x200 + table_len, 8);
            let partition_a_offset = aligned(primary + table_len, a.align());
            let partition_b_offset = aligned(partition_a_offset + la.partition_len, b.align());
            DisaLayout {
                primary,
                table_len,
                descriptor_a_len: la.descriptor_len,
                partition_a_offset,
                partition_a_len: la.partition_len,
                descriptor_b_offset,
                descriptor_b_len: lb.descriptor_len,
                partition_b_offset,
                partition_b_len: lb.partition_len,
                end: partition_b_offset + lb.partition_len,
            }
        },
    }
}

/// The container can be made, and its length can be counted.
pub open spec fn disa_fits(a: DifiPartitionParam, b: Option<DifiPartitionParam>) -> bool {
    &&& a.ok()
    &&& b matches Some(b) ==> b.ok()
    &&& disa_layout(a, b).end <= usize::MAX
}

/// With longer partitions a container does not become shorter.
pub proof fn lemma_disa_grows(
    a: DifiPartitionParam,
    b: Option<DifiPartitionParam>,
    c: DifiPartitionParam,
    d: Option<DifiPartitionParam>,
)
    requires
        a.align() == c.align() > 0,
        layout(a).partition_len <= layout(c).partition_len,
        layout(a).descriptor_len <= layout(c).descriptor_len,
        b is Some == d is Some,
        b matches Some(x) ==> {
            &&& x.align() == d->0.align() > 0
            &&& layout(x).partition_len <= layout(d->0).partition_len
            &&& layout(x).descriptor_len <= layout(d->0).descriptor_len
        },
    ensures
        disa_layout(a, b).end <= disa_layout(c, d).end,
{
    let l = layout(a);
    let m = layout(c);
    if b is Some {
        let lb = layout(b->0);
        let mb = layout(d->0);
        let x = disa_layout(a, b);
        let y = disa_layout(c, d);
        lemma_counted_grows(l.descriptor_len, m.descriptor_len, 8);
        lemma_counted_grows(
            x.descriptor_b_offset + lb.descriptor_len,
            y.descriptor_b_offset + mb.descriptor_len,
            8,
        );
        lemma_counted_grows(0x200 + x.table_len, 0x200 + y.table_len, 8);
        lemma_counted_grows(x.primary + x.table_len, y.primary + y.table_len, a.align());
        lemma_counted_grows(
            x.partition_a_offset + l.partition_len,
            y.partition_a_offset + m.partition_len,
            b->0.align(),
        );
    } else {
        let x = disa_layout(a, b);
        let y = disa_layout(c, d);
        lemma_counted_grows(0x200 + l.descriptor_len, 0x200 + m.descriptor_len, 8);
        lemma_counted_grows(x.primary + l.descriptor_len, y.primary + m.descriptor_len, a.align());
    }
}

/// The layout in machine integers.
#[derive(Clone, Copy, PartialEq, Eq, Structural, Debug)]
pub struct DisaInfo {
    pub primary: usize,
    pub table_len: usize,
    pub descriptor_a_len: usize,
    pub partition_a_offset: usize,
    pub partition_a_len: usize,
    pub descriptor_b_offset: usize,
    pub descriptor_b_len: usize,
    pub partition_b_offset: usize,
    pub partition_b_len: usize,
    pub end: usize,
}

impl DisaInfo {
    pub open spec fn view(self) -> DisaLayout {
        DisaLayout {
            primary: self.primary as int,
            table_len: self.table_len as int,
            descriptor_a_len: self.descriptor_a_len as int,
            partition_a_offset: self.partition_a_offset as int,
            partition_a_len: self.partition_a_len as int,
            descriptor_b_offset: self.descriptor_b_offset as int,
            descriptor_b_len: self.descriptor_b_len as int,
            partition_b_offset: self.partition_b_offset as int,
            partition_b_len: self.partition_b_len as int,
            end: self.end as int,
        }
    }
}

/// The parts follow each other.
pub proof fn lemma_disa_layout(a: DifiPartitionParam, b: Option<DifiPartitionParam>)
    requires
        a.ok(),
        b matches Some(b) ==> b.ok(),
    ensures
        ({
            let l = disa_layout(a, b);
            &&& l.descriptor_a_len >= DESCRIPTOR_HEAD + 0x20
            &&& l.descriptor_a_len <= l.table_len
            &&& b is Some ==> l.descriptor_a_len <= l.descriptor_b_offset && l.descriptor_b_offset
                + l.descriptor_b_len <= l.table_len && l.descriptor_b_len >= DESCRIPTOR_HEAD + 0x20
            &&& 0x200 + l.table_len <= l.primary
            &&& l.primary + l.table_len <= l.partition_a_offset
            &&& l.partition_a_len > 0
            &&& b is Some ==> l.partition_a_offset + l.partition_a_len <= l.partition_b_offset
            &&& b is Some ==> l.partition_b_offset + l.partition_b_len == l.end
            &&& b is None ==> l.partition_a_offset + l.partition_a_len == l.end
            &&& l.partition_b_len >= 0
            &&& l.descriptor_b_offset >= 0
            &&& l.partition_b_offset >= 0
            &&& layout(a).partition_len <= l.end
            &&& layout(a).descriptor_len <= l.end
            &&& b matches Some(b) ==> layout(b).partition_len <= l.end && layout(b).descriptor_len
                <= l.end
        }),
{
    let l = disa_layout(a, b);
    let la = layout(a);
    lemma_layout(a);
    match b {
        None => {
            lemma_counted(0x200 + la.descriptor_len, 8);
            lemma_counted(l.primary + la.descriptor_len, a.align());
        },
        Some(b) => {
            let lb = layout(b);
            lemma_layout(b);
            lemma_counted(la.descriptor_len, 8);
            lemma_counted(l.descriptor_b_offset + lb.descriptor_len, 8);
            lemma_counted(0x200 + l.table_len, 8);
            lemma_counted(l.primary + l.table_len, a.align());
            lemma_counted(l.partition_a_offset + la.partition_len, b.align());
        },
    }
}

pub open spec fn param_of(b: Option<&DifiPartitionParam>) -> Option<DifiPartitionParam> {
    match b {
        None => None,
        Some(p) => Some(*p),
    }
}

/// Calculates where the parts of a new container are.
fn calculate_info(a: &DifiPartitionParam, b: Option<&DifiPartitionParam>) -> (info: DisaInfo)
    requires
        disa_fits(*a, param_of(b)),
    ensures
        info.view() == disa_layout(*a, param_of(b)),
{
    let ghost gb = param_of(b);
    proof {
        lemma_disa_layout(*a, gb);
        lemma_layout(*a);
    }
    let (descriptor_a_len, partition_a_len) = DifiPartition::calculate_size(a);
    let align_a: usize = a.get_align();
    match b {
        None => {
            let table_len: usize = descriptor_a_len;
            let primary: usize = align_up(SECONDARY_TABLE + table_len, 8);
            let partition_a_offset: usize = align_up(primary + table_len, align_a);
            DisaInfo {
                primary,
                table_len,
                descriptor_a_len,
                partition_a_offset,
                partition_a_len,
                descriptor_b_offset: 0,
                descriptor_b_len: 0,
                partition_b_offset: 0,
                partition_b_len: 0,
                end: partition_a_offset + partition_a_len,
            }
        },
        Some(b) => {
            let (descriptor_b_len, partition_b_len) = DifiPartition::calculate_size(b);
            let align_b: usize = b.get_align();
            let descriptor_b_offset: usize = align_up(descriptor_a_len, 8);
            let table_len: usize = align_up(descriptor_b_offset + descriptor_b_len, 8);
            let primary: usize = align_up(SECONDARY_TABLE + table_len, 8);
            let partition_a_offset: usize = align_up(primary + table_len, align_a);
            let partition_b_offset: usize = align_up(partition_a_offset + partition_a_len, align_b);
            DisaInfo {
                primary,
                table_len,
                descriptor_a_len,
                partition_a_offset,
                partition_a_len,
                descriptor_b_offset,
                descriptor_b_len,
                partition_b_offset,
                partition_b_len,
                end: partition_b_offset + partition_b_len,
            }
        },
    }
}

/// The header of a new container.
pub open spec fn header_fields(a: DifiPartitionParam, b: Option<DifiPartitionParam>) -> Fields {
    let l = disa_layout(a, b);
    seq![
        (DISA_MAGIC as nat, 4nat),
        (0x40000nat, 4nat),
        (if b is Some {
            2nat
        } else {
            1nat
        }, 4nat),
        (0nat, 4nat),
        (0x200nat, 8nat),
        (l.primary as nat, 8nat),
        (l.table_len as nat, 8nat),
        (0nat, 8nat),
        (l.descriptor_a_len as nat, 8nat),
        (l.descriptor_b_offset as nat, 8nat),
        (l.descriptor_b_len as nat, 8nat),
        (l.partition_a_offset as nat, 8nat),
        (l.partition_a_len as nat, 8nat),
        (l.partition_b_offset as nat, 8nat),
        (l.partition_b_len as nat, 8nat),
        (1nat, 1nat),
    ]
}

fn header_bytes(has_b: bool, info: &DisaInfo, Ghost(a): Ghost<DifiPartitionParam>, Ghost(b): Ghost<Option<DifiPartitionParam>>) -> (r: Vec<u8>)
    requires
        info.view() == disa_layout(a, b),
        has_b == b is Some,
    ensures
        r@ == packed(header_fields(a, b)),
{
    let mut k = Packer::new();
    k.put(DISA_MAGIC, 4);
    k.put(0x40000, 4);
    k.put(if has_b {
        2
    } else {
        1
    }, 4);
    k.put(0, 4);
    k.put(0x200, 8);
    k.put(info.primary as u64, 8);
    k.put(info.table_len as u64, 8);
    k.put(0, 8);
    k.put(info.descriptor_a_len as u64, 8);
    k.put(info.descriptor_b_offset as u64, 8);
    k.put(info.descriptor_b_len as u64, 8);
    k.put(info.partition_a_offset as u64, 8);
    k.put(info.partition_a_len as u64, 8);
    k.put(info.partition_b_offset as u64, 8);
    k.put(info.partition_b_len as u64, 8);
    k.put(1, 1);
    assert(k.fields@ =~= header_fields(a, b));
    k.out
}

pub proof fn lemma_header_fields(a: DifiPartitionParam, b: Option<DifiPartitionParam>)
    requires
        disa_fits(a, b),
    ensures
        packed(header_fields(a, b)).len() == DISA_HEADER_LEN,
        field(packed(header_fields(a, b)), 0, 4) == header_fields(a, b)[0].0,
        field(packed(header_fields(a, b)), 4, 4) == header_fields(a, b)[1].0,
        field(packed(header_fields(a, b)), 8, 4) == header_fields(a, b)[2].0,
        field(packed(header_fields(a, b)), 12, 4) == header_fields(a, b)[3].0,
        field(packed(header_fields(a, b)), 16, 8) == header_fields(a, b)[4].0,
        field(packed(header_fields(a, b)), 24, 8) == header_fields(a, b)[5].0,
        field(packed(header_fields(a, b)), 32, 8) == header_fields(a, b)[6].0,
        field(packed(header_fields(a, b)), 40, 8) == header_fields(a, b)[7].0,
        field(packed(header_fields(a, b)), 48, 8) == header_fields(a, b)[8].0,
        field(packed(header_fields(a, b)), 56, 8) == header_fields(a, b)[9].0,
        field(packed(header_fields(a, b)), 64, 8) == header_fields(a, b)[10].0,
        field(packed(header_fields(a, b)), 72, 8) == header_fields(a, b)[11].0,
        field(packed(header_fields(a, b)), 80, 8) == header_fields(a, b)[12].0,
        field(packed(header_fields(a, b)), 88, 8) == header_fields(a, b)[13].0,
        field(packed(header_fields(a, b)), 96, 8) == header_fields(a, b)[14].0,
        field(packed(header_fields(a, b)), 104, 1) == header_fields(a, b)[15].0,
{
    let f = header_fields(a, b);
    lemma_disa_layout(a, b);
    lemma_pow256();
    assert(start(f, 0) == 0 && f[0].1 == 4);
    assert(start(f, 1) == 4 && f[1].1 == 4);
    assert(start(f, 2) == 8 && f[2].1 == 4);
    assert(start(f, 3) == 12 && f[3].1 == 4);
    assert(start(f, 4) == 16 && f[4].1 == 8);
    assert(start(f, 5) == 24 && f[5].1 == 8);
    assert(start(f, 6) == 32 && f[6].1 == 8);
    assert(start(f, 7) == 40 && f[7].1 == 8);
    assert(start(f, 8) == 48 && f[8].1 == 8);
    assert(start(f, 9) == 56 && f[9].1 == 8);
    assert(start(f, 10) == 64 && f[10].1 == 8);
    assert(start(f, 11) == 72 && f[11].1 == 8);
    assert(start(f, 12) == 80 && f[12].1 == 8);
    assert(start(f, 13) == 88 && f[13].1 == 8);
    assert(start(f, 14) == 96 && f[14].1 == 8);
    assert(start(f, 15) == 104 && f[15].1 == 1);
    assert(start(f, 16) == 105);
    lemma_packed_len(f);
    lemma_field(f, 0);
    lemma_field(f, 1);
    lemma_field(f, 2);
    lemma_field(f, 3);
    lemma_field(f, 4);
    lemma_field(f, 5);
    lemma_field(f, 6);
    lemma_field(f, 7);
    lemma_field(f, 8);
    lemma_field(f, 9);
    lemma_field(f, 10);
    lemma_field(f, 11);
    lemma_field(f, 12);
    lemma_field(f, 13);
    lemma_field(f, 14);
    lemma_field(f, 15);
}

/// What the header of a container tells.
pub open spec fn disa_info(h: Seq<u8>) -> ContainerInfo {
    ContainerInfo {
        selector_pos: TABLE_SELECTOR_POS,
        hash_pos: TABLE_HASH_POS,
        primary: field(h, 0x18, 8) as u64,
        secondary: field(h, 0x10, 8) as u64,
        table_size: field(h, 0x20, 8) as u64,
        count: field(h, 8, 4) as usize,
        first: Member {
            descriptor: Range { offset: field(h, 0x28, 8) as u64, len: field(h, 0x30, 8) as u64 },
            partition: Range { offset: field(h, 0x48, 8) as u64, len: field(h, 0x50, 8) as u64 },
        },
        second: Member {
            descriptor: Range { offset: field(h, 0x38, 8) as u64, len: field(h, 0x40, 8) as u64 },
            partition: Range { offset: field(h, 0x58, 8) as u64, len: field(h, 0x60, 8) as u64 },
        },
    }
}

/// The error for a file that cannot be opened.
pub open spec fn disa_error<S: Signer>(
    file: Seq<u8>,
    signer: Option<(S, [u8; 16])>,
) -> Option<Error> {
    let h = ContainerInfo::header(file);
    if header_error(file, signer) is Some {
        header_error(file, signer)
    } else if field(h, 0, 4) != DISA_MAGIC || field(h, 4, 4) != 0x40000 {
        Some(Error::MagicMismatch)
    } else if field(h, 8, 4) != 1 && field(h, 8, 4) != 2 {
        Some(Error::InvalidValue)
    } else {
        disa_info(h).error(file)
    }
}

fn read_range(h: &Vec<u8>, pos: usize) -> (r: Range)
    requires
        pos + 16 <= h@.len(),
    ensures
        r == (Range {
            offset: field(h@, pos as int, 8) as u64,
            len: field(h@, pos + 8, 8) as u64,
        }),
{
    let _n: usize = h.len();
    Range { offset: read_le(h, pos, 8), len: read_le(h, pos + 8, 8) }
}

/// Headers that differ behind the fields only tell the same.
proof fn lemma_same_header(h: Seq<u8>, g: Seq<u8>)
    requires
        h.len() == HEADER_LEN,
        heads_alike(disa_info(h), h, g),
    ensures
        field(g, 0, 4) == field(h, 0, 4),
        field(g, 4, 4) == field(h, 4, 4),
        field(g, 8, 4) == field(h, 8, 4),
        disa_info(g) == disa_info(h),
{
    assert(h.subrange(0, 0x68) =~= g.subrange(0, 0x68));
    lemma_field_same(h, g, 0, 0x68, 0, 4);
    lemma_field_same(h, g, 0, 0x68, 4, 4);
    lemma_field_same(h, g, 0, 0x68, 8, 4);
    lemma_field_same(h, g, 0, 0x68, 0x10, 8);
    lemma_field_same(h, g, 0, 0x68, 0x18, 8);
    lemma_field_same(h, g, 0, 0x68, 0x20, 8);
    lemma_field_same(h, g, 0, 0x68, 0x28, 8);
    lemma_field_same(h, g, 0, 0x68, 0x30, 8);
    lemma_field_same(h, g, 0, 0x68, 0x38, 8);
    lemma_field_same(h, g, 0, 0x68, 0x40, 8);
    lemma_field_same(h, g, 0, 0x68, 0x48, 8);
    lemma_field_same(h, g, 0, 0x68, 0x50, 8);
    lemma_field_same(h, g, 0, 0x68, 0x58, 8);
    lemma_field_same(h, g, 0, 0x68, 0x60, 8);
}

/// The header is still that of such a container.
pub proof fn lemma_still_named<S: Signer>(a: Disa<S>, b: Disa<S>)
    requires
        a.inv(),
        a.named(),
        b.inner.info == a.inner.info,
        heads_alike(a.inner.info, a.inner.header.bytes(), b.inner.header.bytes()),
    ensures
        b.named(),
{
    lemma_same_header(a.inner.header.bytes(), b.inner.header.bytes());
}

/// The file of a container that has been committed can be opened, with the same partitions.
pub proof fn law_disa_reopen<S: Signer>(d: Disa<S>, g: Disa<S>)
    requires
        d.inv(),
        d.named(),
        d.inner.committed(),
    ensures
        disa_error(d.inner.file@, d.inner.header.signer()) is None,
        container_opened(g.inner, d.inner.file@) && g.inner.info == disa_info(
            ContainerInfo::header(d.inner.file@),
        ) ==> {
            &&& g.inner.partitions@.len() == d.inner.partitions@.len()
            &&& forall|k: int|
                0 <= k < d.inner.partitions@.len() ==> same_file(
                    d.inner.partitions@[k],
                    #[trigger] g.inner.partitions@[k],
                )
        },
{
    lemma_committed_file(d.inner);
    law_container_reopen(d.inner, g.inner);
}

/// A file with one or two partitions.
pub struct Disa<S> {
    pub inner: Container<S>,
}

impl<S: Signer> Disa<S> {
    pub open spec fn inv(&self) -> bool {
        self.inner.inv()
    }

    /// The header is that of such a container.
    pub open spec fn named(&self) -> bool {
        let h = self.inner.header.bytes();
        &&& field(h, 0, 4) == DISA_MAGIC
        &&& field(h, 4, 4) == 0x40000
        &&& field(h, 8, 4) == 1 || field(h, 8, 4) == 2
        &&& disa_info(h) == self.inner.info
    }

    /// The length of a container.
    pub fn calculate_size(
        partition_a_param: &DifiPartitionParam,
        partition_b_param: Option<&DifiPartitionParam>,
    ) -> (r: usize)
        requires
            disa_fits(*partition_a_param, param_of(partition_b_param)),
        ensures
            r == disa_layout(*partition_a_param, param_of(partition_b_param)).end,
    {
        calculate_info(partition_a_param, partition_b_param).end
    }

    /// Opens a container.
    pub fn new(file: Vec<u8>, signer: Option<(S, [u8; 16])>) -> (r: Result<Disa<S>, Error>)
        ensures
            match r {
                Ok(d) => {
                    &&& disa_error(file@, signer) is None
                    &&& container_opened(d.inner, file@)
                    &&& d.inner.info == disa_info(ContainerInfo::header(file@))
                    &&& d.inner.header.signer() == signer
                    &&& d.named()
                },
                Err(e) => disa_error(file@, signer) == Some(e),
            },
    {
        let header = match HeaderFile::open(&file, signer) {
            Ok(h) => h,
            Err(e) => {
                return make_error(e);
            },
        };
        let h = header.data();
        if read_le(h, 0, 4) != DISA_MAGIC || read_le(h, 4, 4) != 0x40000 {
            return make_error(Error::MagicMismatch);
        }
        let count: u64 = read_le(h, 8, 4);
        if count != 1 && count != 2 {
            return make_error(Error::InvalidValue);
        }
        let info = ContainerInfo {
            selector_pos: TABLE_SELECTOR_POS,
            hash_pos: TABLE_HASH_POS,
            primary: read_le(h, 0x18, 8),
            secondary: read_le(h, 0x10, 8),
            table_size: read_le(h, 0x20, 8),
            count: count as usize,
            first: Member { descriptor: read_range(h, 0x28), partition: read_range(h, 0x48) },
            second: Member { descriptor: read_range(h, 0x38), partition: read_range(h, 0x58) },
        };
        assert(info == disa_info(ContainerInfo::header(file@)));
        match Container::open(file, header, info) {
            Ok(inner) => {
                proof {
                    lemma_committed_file(inner);
                }
                Ok(Disa { inner })
            },
            Err(e) => Err(e),
        }
    }

    /// Stores everything that has been written.
    pub fn commit(&mut self) -> (r: Result<(), Error>)
        requires
            old(self).inv(),
        ensures
            r == Ok::<(), Error>(()),
            final(self).inv(),
            final(self).inner.committed(),
            final(self).inner.info == old(self).inner.info,
            final(self).inner.header.signer() == old(self).inner.header.signer(),
            final(self).inner.partitions@.len() == old(self).inner.partitions@.len(),
            old(self).named() ==> final(self).named(),
            forall|k: int|
                0 <= k < old(self).inner.partitions@.len() ==> kept(
                    old(self).inner.partitions@[k],
                    #[trigger] final(self).inner.partitions@[k],
                ),
    {
        let ghost a = *self;
        let r = self.inner.commit();
        proof {
            if a.named() {
                lemma_still_named(a, *self);
            }
        }
        r
    }

    /// How many partitions there are.
    pub fn partition_count(&self) -> (r: usize)
        ensures
            r == self.inner.partitions@.len(),
    {
        self.inner.partitions.len()
    }

    /// One of the partitions.
    pub fn index(&self, index: usize) -> (r: &DifiPartition)
        requires
            index < self.inner.partitions@.len(),
        ensures
            *r == self.inner.partitions@[index as int],
    {
        &self.inner.partitions[index]
    }
}

/// The table of a new container.
pub open spec fn new_table(
    file: Seq<u8>,
    a: DifiPartitionParam,
    b: Option<DifiPartitionParam>,
) -> Seq<u8> {
    let l = disa_layout(a, b);
    let t = spliced(
        file.subrange(SECONDARY_TABLE as int, SECONDARY_TABLE + l.table_len),
        0,
        head_of(a),
    );
    match b {
        None => t,
        Some(b) => spliced(t, l.descriptor_b_offset, head_of(b)),
    }
}

/// The header of a new container, with the hash of the table.
pub open spec fn new_header(
    table: Seq<u8>,
    a: DifiPartitionParam,
    b: Option<DifiPartitionParam>,
) -> Seq<u8> {
    spliced(
        spliced(zeros(HEADER_LEN as nat), 0, packed(header_fields(a, b))),
        TABLE_HASH_POS as int,
        sha256(table),
    )
}

/// Writes the descriptor of a new partition to a table.
fn format_at(table: &mut Vec<u8>, pos: usize, len: usize, p: &DifiPartitionParam)
    requires
        p.ok(),
        layout_fits(*p),
        pos + len <= old(table)@.len(),
        DESCRIPTOR_HEAD <= len,
        head_of(*p).len() == DESCRIPTOR_HEAD,
    ensures
        final(table)@ == spliced(old(table)@, pos as int, head_of(*p)),
{
    let mut d = copy_range(table, pos, len);
    let ghost d0 = d@;
    let r = DifiPartition::format(&mut d, p);
    let _n: usize = table.len();
    overwrite(table, pos, &d);
    assert(table@ =~= spliced(old(table)@, pos as int, head_of(*p)));
}

impl<S: Signer> Disa<S> {
    /// Writes a new container.
    pub fn format(
        file: &mut Vec<u8>,
        signer: Option<(S, [u8; 16])>,
        partition_a_param: &DifiPartitionParam,
        partition_b_param: Option<&DifiPartitionParam>,
    ) -> (r: Result<(), Error>)
        requires
            disa_fits(*partition_a_param, param_of(partition_b_param)),
        ensures
            ({
                let a = *partition_a_param;
                let b = param_of(partition_b_param);
                let l = disa_layout(a, b);
                let table = new_table(old(file)@, a, b);
                let header = new_header(table, a, b);
                if old(file)@.len() < SECONDARY_TABLE + l.table_len {
                    r == Err::<(), Error>(Error::OutOfBound) && final(file)@ == old(file)@
                } else {
                    &&& r == Ok::<(), Error>(())
                    &&& final(file)@ == written(
                        old(file)@,
                        header,
                        sign(signer, header),
                        SECONDARY_TABLE as int,
                        table,
                    )
                    &&& old(file)@.len() >= l.end && block_lens_ok(a) && (b matches Some(b)
                        ==> block_lens_ok(b)) ==> disa_error(final(file)@, signer) is None && (
                    forall|c: Container<S>| #[trigger]
                        container_opened(c, final(file)@) && c.info == disa_info(
                            ContainerInfo::header(final(file)@),
                        ) ==> has_lens(c, a, b))
                }
            }),
    {
        let info = calculate_info(partition_a_param, partition_b_param);
        let ghost a = *partition_a_param;
        let ghost b = param_of(partition_b_param);
        proof {
            lemma_disa_layout(a, b);
            lemma_header_fields(a, b);
            lemma_head(a);
        }
        let n: usize = file.len();
        if n < SECONDARY_TABLE || info.table_len > n - SECONDARY_TABLE {
            return make_error(Error::OutOfBound);
        }
        let fields = header_bytes(partition_b_param.is_some(), &info, Ghost(a), Ghost(b));
        let mut header: Vec<u8> = vec![0u8; HEADER_LEN];
        assert(header@ =~= zeros(HEADER_LEN as nat));
        overwrite(&mut header, 0, &fields);
        let mut table = copy_range(file, SECONDARY_TABLE, info.table_len);
        format_at(&mut table, 0, info.descriptor_a_len, partition_a_param);
        if let Some(p) = partition_b_param {
            proof {
                lemma_head(*p);
            }
            format_at(&mut table, info.descriptor_b_offset, info.descriptor_b_len, p);
        }
        let r = write_new(file, signer, header, TABLE_HASH_POS, SECONDARY_TABLE, &table);
        proof {
            if old(file)@.len() >= info.end && block_lens_ok(a) && (b matches Some(b)
                ==> block_lens_ok(b)) {
                lemma_new_opens(old(file)@, signer, a, b);
            }
        }
        r
    }
}

/// The partitions have the lengths that were asked for.
pub open spec fn has_lens<S>(
    c: Container<S>,
    a: DifiPartitionParam,
    b: Option<DifiPartitionParam>,
) -> bool {
    &&& c.partitions@.len() == if b is Some {
        2int
    } else {
        1
    }
    &&& c.partitions@[0].bytes().len() == a.data_len
    &&& b matches Some(b) ==> c.partitions@[1].bytes().len() == b.data_len
}

/// The parts of a new container do not overlap.
proof fn lemma_new_ranges(
    n: int,
    table: Seq<u8>,
    a: DifiPartitionParam,
    b: Option<DifiPartitionParam>,
)
    requires
        disa_fits(a, b),
        n >= disa_layout(a, b).end,
        sha256(table).len() == 0x20,
    ensures
        ({
            let i = disa_info(new_header(table, a, b));
            &&& i.ok()
            &&& i.table_size > 0
            &&& i.count == if b is Some {
                2int
            } else {
                1
            }
            &&& ranges_ok(n, i.file_ranges())
            &&& ranges_ok(i.table_size as int, i.table_ranges())
        }),
{
    let l = disa_layout(a, b);
    let info = disa_info(new_header(table, a, b));
    lemma_disa_layout(a, b);
    lemma_header_read(table, a, b);
    let fr = info.file_ranges();
    assert(fr[0] == (Range { offset: 0, len: HEAD_LEN as u64 }));
    assert(fr[1] == (Range { offset: l.primary as u64, len: l.table_len as u64 }));
    assert(fr[2] == (Range { offset: SECONDARY_TABLE as u64, len: l.table_len as u64 }));
    assert(fr[3] == info.first.partition);
    if b is Some {
        assert(fr[4] == info.second.partition);
        assert(info.table_ranges()[1] == info.second.descriptor);
    }
    assert(info.table_ranges()[0] == info.first.descriptor);
}

/// The descriptors in the table of a new container can be opened.
#[verifier::spinoff_prover]
#[verifier::rlimit(80)]
proof fn lemma_new_descriptors(
    file: Seq<u8>,
    a: DifiPartitionParam,
    b: Option<DifiPartitionParam>,
    q: Seq<u8>,
)
    requires
        disa_fits(a, b),
        file.len() >= disa_layout(a, b).end,
        block_lens_ok(a),
        b matches Some(b) ==> block_lens_ok(b),
    ensures
        ({
            let l = disa_layout(a, b);
            let t = new_table(file, a, b);
            &&& t.len() == l.table_len
            &&& q.len() == l.partition_a_len ==> openable(t.subrange(0, l.descriptor_a_len), q)
            &&& b is Some && q.len() == l.partition_b_len ==> openable(
                t.subrange(
                    l.descriptor_b_offset,
                    l.descriptor_b_offset + l.descriptor_b_len,
                ),
                q,
            )
        }),
{
    let l = disa_layout(a, b);
    let t = new_table(file, a, b);
    lemma_disa_layout(a, b);
    lemma_head(a);
    if b is Some {
        lemma_head(b->0);
        let e = t.subrange(l.descriptor_b_offset, l.descriptor_b_offset + l.descriptor_b_len);
        assert(e.subrange(0, DESCRIPTOR_HEAD as int) =~= head_of(b->0));
        if q.len() == l.partition_b_len {
            law_formatted_opens(b->0, e, q, arbitrary());
        }
    }
    let d = t.subrange(0, l.descriptor_a_len);
    assert(d.subrange(0, DESCRIPTOR_HEAD as int) =~= head_of(a));
    if q.len() == l.partition_a_len {
        law_formatted_opens(a, d, q, arbitrary());
    }
}

/// Where the descriptors of a new container are, and what they begin with.
proof fn lemma_new_heads(file: Seq<u8>, a: DifiPartitionParam, b: Option<DifiPartitionParam>)
    requires
        disa_fits(a, b),
        file.len() >= disa_layout(a, b).end,
        sha256(new_table(file, a, b)).len() == 0x20,
    ensures
        ({
            let t = new_table(file, a, b);
            let i = disa_info(new_header(t, a, b));
            &&& layout_fits(a)
            &&& i.count == if b is Some {
                2int
            } else {
                1
            }
            &&& cut(t, i.first.descriptor).len() == layout(a).descriptor_len
            &&& cut(t, i.first.descriptor).subrange(0, DESCRIPTOR_HEAD as int) == head_of(a)
            &&& i.first.partition.len == layout(a).partition_len
            &&& b matches Some(b) ==> {
                &&& layout_fits(b)
                &&& cut(t, i.second.descriptor).len() == layout(b).descriptor_len
                &&& cut(t, i.second.descriptor).subrange(0, DESCRIPTOR_HEAD as int) == head_of(b)
                &&& i.second.partition.len == layout(b).partition_len
            }
        }),
{
    let l = disa_layout(a, b);
    let t = new_table(file, a, b);
    let i = disa_info(new_header(t, a, b));
    lemma_disa_layout(a, b);
    lemma_header_read(t, a, b);
    lemma_head(a);
    assert(cut(t, i.first.descriptor).subrange(0, DESCRIPTOR_HEAD as int) =~= head_of(a));
    if b is Some {
        lemma_head(b->0);
        assert(cut(t, i.second.descriptor).subrange(0, DESCRIPTOR_HEAD as int) =~= head_of(b->0));
    }
}

proof fn lemma_has_lens<S: Signer>(
    c: Container<S>,
    f: Seq<u8>,
    file: Seq<u8>,
    a: DifiPartitionParam,
    b: Option<DifiPartitionParam>,
)
    requires
        disa_fits(a, b),
        file.len() >= disa_layout(a, b).end,
        block_lens_ok(a),
        b matches Some(b) ==> block_lens_ok(b),
        sha256(new_table(file, a, b)).len() == 0x20,
        container_opened(c, f),
        c.info == disa_info(new_header(new_table(file, a, b), a, b)),
        c.info.table_of(f) == new_table(file, a, b),
    ensures
        has_lens(c, a, b),
{
    let table = new_table(file, a, b);
    lemma_new_heads(file, a, b);
    lemma_new_len(c, f, table, 0, a);
    if b is Some {
        lemma_new_len(c, f, table, 1, b->0);
    }
}

/// A container that has just been formatted can be opened.
#[verifier::spinoff_prover]
#[verifier::rlimit(80)]
proof fn lemma_new_opens<S: Signer>(
    file: Seq<u8>,
    signer: Option<(S, [u8; 16])>,
    a: DifiPartitionParam,
    b: Option<DifiPartitionParam>,
)
    requires
        disa_fits(a, b),
        file.len() >= disa_layout(a, b).end,
        block_lens_ok(a),
        b matches Some(b) ==> block_lens_ok(b),
        sha256(new_table(file, a, b)).len() == 0x20,
        signer is Some ==> sign(signer, new_header(new_table(file, a, b), a, b)).len() == 0x10,
    ensures
        ({
            let table = new_table(file, a, b);
            let header = new_header(table, a, b);
            let f = written(file, header, sign(signer, header), SECONDARY_TABLE as int, table);
            &&& disa_error(f, signer) is None
            &&& forall|c: Container<S>| #[trigger]
                container_opened(c, f) && c.info == disa_info(ContainerInfo::header(f)) ==> has_lens(
                    c,
                    a,
                    b,
                )
        }),
{
    let l = disa_layout(a, b);
    let table = new_table(file, a, b);
    let header = new_header(table, a, b);
    lemma_disa_layout(a, b);
    lemma_header_read(table, a, b);
    lemma_new_ranges(file.len() as int, table, a, b);
    lemma_new_descriptors(file, a, b, Seq::empty());
    let info = disa_info(header);
    assert(info.secondary == SECONDARY_TABLE);
    assert(header.subrange(TABLE_HASH_POS as int, TABLE_HASH_POS + 0x20) =~= sha256(table));
    assert forall|q: Seq<u8>| q.len() == info.first.partition.len implies #[trigger] openable(
        cut(table, info.first.descriptor),
        q,
    ) by {
        lemma_new_descriptors(file, a, b, q);
    }
    if b is Some {
        assert forall|q: Seq<u8>|
            q.len() == info.second.partition.len implies #[trigger] openable(
            cut(table, info.second.descriptor),
            q,
        ) by {
            lemma_new_descriptors(file, a, b, q);
        }
    }
    lemma_members(info, table);
    lemma_written_opens(info, file, header, signer, table);
    let f = written(file, header, sign(signer, header), SECONDARY_TABLE as int, table);
    assert forall|c: Container<S>| #[trigger]
        container_opened(c, f) && c.info == disa_info(ContainerInfo::header(f)) implies has_lens(
        c,
        a,
        b,
    ) by {
        lemma_has_lens(c, f, file, a, b);
    }
}

/// What the header of a new container tells.
proof fn lemma_header_read(table: Seq<u8>, a: DifiPartitionParam, b: Option<DifiPartitionParam>)
    requires
        disa_fits(a, b),
        sha256(table).len() == 0x20,
    ensures
        ({
            let l = disa_layout(a, b);
            let h = new_header(table, a, b);
            let i = disa_info(h);
            &&& h.len() == HEADER_LEN
            &&& h[TABLE_SELECTOR_POS as int] == 1
            &&& field(h, 0, 4) == DISA_MAGIC
            &&& field(h, 4, 4) == 0x40000
            &&& field(h, 8, 4) == if b is Some {
                2nat
            } else {
                1nat
            }
            &&& i.primary == l.primary
            &&& i.secondary == SECONDARY_TABLE
            &&& i.table_size == l.table_len
            &&& i.first.descriptor == (Range { offset: 0, len: l.descriptor_a_len as u64 })
            &&& i.first.partition == (Range {
                offset: l.partition_a_offset as u64,
                len: l.partition_a_len as u64,
            })
            &&& i.second.descriptor == (Range {
                offset: l.descriptor_b_offset as u64,
                len: l.descriptor_b_len as u64,
            })
            &&& i.second.partition == (Range {
                offset: l.partition_b_offset as u64,
                len: l.partition_b_len as u64,
            })
        }),
{
    let h = new_header(table, a, b);
    let f = packed(header_fields(a, b));
    lemma_disa_layout(a, b);
    lemma_header_fields(a, b);
    assert(h.subrange(0, 0x69) =~= f);
    lemma_field_in(h, 0, 0x69, 0, 4);
    lemma_field_in(h, 0, 0x69, 4, 4);
    lemma_field_in(h, 0, 0x69, 8, 4);
    lemma_field_in(h, 0, 0x69, 0x10, 8);
    lemma_field_in(h, 0, 0x69, 0x18, 8);
    lemma_field_in(h, 0, 0x69, 0x20, 8);
    lemma_field_in(h, 0, 0x69, 0x28, 8);
    lemma_field_in(h, 0, 0x69, 0x30, 8);
    lemma_field_in(h, 0, 0x69, 0x38, 8);
    lemma_field_in(h, 0, 0x69, 0x40, 8);
    lemma_field_in(h, 0, 0x69, 0x48, 8);
    lemma_field_in(h, 0, 0x69, 0x50, 8);
    lemma_field_in(h, 0, 0x69, 0x58, 8);
    lemma_field_in(h, 0, 0x69, 0x60, 8);
    lemma_field_in(h, 0, 0x69, 0x68, 1);
    lemma_field_byte(h, 0x68);
}

} // verus!
