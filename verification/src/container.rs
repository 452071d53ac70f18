use crate::crypto::sha256_of;
use crate::difi_partition::DifiPartition;
use crate::dual_file::DualFile;
use crate::error::{make_error, Error};
use crate::ivfc_level::{IvfcLevel, LevelPlace};
use crate::memory_file::MemoryFile;
use crate::meta_table::same_bytes;
use crate::random_access_file::{copy_range, overwrite, Content, RandomAccessFile, Shape};
use crate::signed_file::{SignedFile, Signer};
use crate::slots::{check_ranges, put_slot, take_range, Range};
use vstd::prelude::*;

verus! {

use crate::crypto::sha256;
use crate::difi_layout::{layout, layout_fits, DifiPartitionParam, DESCRIPTOR_HEAD};
use crate::difi_partition::{
    block_lens_ok, head_of, law_formatted_opens, law_reopen, law_reopen_committed, lemma_opened_inv, lemma_opened_stored, lemma_same_data, open_error, openable, opened,
};
use crate::dual_file::selected;
use crate::ivfc_level::{block_ok, owner, padded, place_ok, places_fit};
use crate::misc::{counted, lemma_counted};
use crate::random_access_file::{all_readable, can_read, same_file, spliced};
use crate::signed_file::signature_of;
use crate::slots::{
    cut, lemma_overlay_len, lemma_overlay_outside, lemma_overlay_slot, overlay, ranges_apart, ranges_error, ranges_ok,
    slots_ok, Slot,
};

/// Where the header of a container is.
pub const HEADER_POS: usize = 0x100;

/// How long the header of a container is.
pub const HEADER_LEN: usize = 0x100;

/// How long the signature is that a container begins with.
pub const SIGNATURE_LEN: usize = 0x10;

/// How much room the signature and the header take.
pub const HEAD_LEN: usize = 0x200;

/// The header of a container, which may have a signature.
pub enum HeaderFile<S> {
    Plain(MemoryFile),
    Signed(SignedFile<MemoryFile, MemoryFile, S>),
}

/// The signature that a signer gives, if there is a signer.
pub open spec fn sign<S: Signer>(signer: Option<(S, [u8; 16])>, header: Seq<u8>) -> Seq<u8> {
    match signer {
        None => Seq::empty(),
        Some((s, key)) => signature_of(s, key@, header),
    }
}

/// The error for a file whose header is too short or has a wrong signature.
pub open spec fn header_error<S: Signer>(
    file: Seq<u8>,
    signer: Option<(S, [u8; 16])>,
) -> Option<Error> {
    if file.len() < HEAD_LEN {
        Some(Error::OutOfBound)
    } else if signer is Some && file.subrange(0, SIGNATURE_LEN as int) != sign(
        signer,
        file.subrange(HEADER_POS as int, HEAD_LEN as int),
    ) {
        Some(Error::SignatureMismatch)
    } else {
        None
    }
}

impl<S: Signer> HeaderFile<S> {
    pub open spec fn bytes(&self) -> Seq<u8> {
        match *self {
            HeaderFile::Plain(f) => f.bytes(),
            HeaderFile::Signed(f) => f.bytes(),
        }
    }

    pub open spec fn signature(&self) -> Seq<u8> {
        match *self {
            HeaderFile::Plain(_) => Seq::empty(),
            HeaderFile::Signed(f) => f.signature.bytes(),
        }
    }

    pub open spec fn signer(&self) -> Option<(S, [u8; 16])> {
        match *self {
            HeaderFile::Plain(_) => None,
            HeaderFile::Signed(f) => Some((f.signer, f.key)),
        }
    }

    pub open spec fn inv(&self) -> bool {
        &&& self.bytes().len() == HEADER_LEN
        &&& *self matches HeaderFile::Signed(f) ==> f.inv()
    }

    /// The signature is that of the header.
    pub open spec fn signed(&self) -> bool {
        self.signature() == sign(self.signer(), self.bytes())
    }

    /// Opens the header of a file, and checks its signature.
    pub fn open(file: &Vec<u8>, signer: Option<(S, [u8; 16])>) -> (r: Result<HeaderFile<S>, Error>)
        ensures
            match r {
                Ok(h) => {
                    &&& header_error(file@, signer) is None
                    &&& h.inv()
                    &&& h.signed()
                    &&& h.signer() == signer
                    &&& h.bytes() == file@.subrange(HEADER_POS as int, HEAD_LEN as int)
                    &&& signer is Some ==> h.signature() == file@.subrange(
                        0,
                        SIGNATURE_LEN as int,
                    )
                },
                Err(e) => header_error(file@, signer) == Some(e),
            },
    {
        if file.len() < HEAD_LEN {
            return make_error(Error::OutOfBound);
        }
        let header = MemoryFile::new(copy_range(file, HEADER_POS, HEADER_LEN));
        match signer {
            None => Ok(HeaderFile::Plain(header)),
            Some((signer, key)) => {
                let signature = MemoryFile::new(copy_range(file, 0, SIGNATURE_LEN));
                match SignedFile::new(signature, header, signer, key) {
                    Ok(f) => Ok(HeaderFile::Signed(f)),
                    Err(e) => Err(e),
                }
            },
        }
    }

    /// Makes a header for a new file. It is not signed yet.
    pub fn create(header: Vec<u8>, signer: Option<(S, [u8; 16])>) -> (r: Result<
        HeaderFile<S>,
        Error,
    >)
        requires
            header@.len() == HEADER_LEN,
        ensures
            r matches Ok(h) && h.inv() && h.bytes() == header@ && h.signer() == signer,
    {
        let header = MemoryFile::new(header);
        match signer {
            None => Ok(HeaderFile::Plain(header)),
            Some((signer, key)) => {
                let signature = MemoryFile::new(vec![0u8; SIGNATURE_LEN]);
                match SignedFile::new_unverified(signature, header, signer, key) {
                    Ok(f) => Ok(HeaderFile::Signed(f)),
                    Err(e) => Err(e),
                }
            },
        }
    }

    /// The bytes of the header.
    pub fn data(&self) -> (r: &Vec<u8>)
        ensures
            r@ == self.bytes(),
    {
        match self {
            HeaderFile::Plain(f) => &f.data,
            HeaderFile::Signed(f) => &f.data.data,
        }
    }

    /// Writes to the header. The signature stays as it is.
    pub fn write(&mut self, pos: usize, buf: &[u8]) -> (r: Result<(), Error>)
        requires
            old(self).inv(),
            pos + buf@.len() <= HEADER_LEN,
        ensures
            r == Ok::<(), Error>(()),
            final(self).inv(),
            final(self).bytes() == spliced(old(self).bytes(), pos as int, buf@),
            final(self).signer() == old(self).signer(),
            final(self).signature() == old(self).signature(),
    {
        match self {
            HeaderFile::Plain(f) => f.write(pos, buf),
            HeaderFile::Signed(f) => f.write(pos, buf),
        }
    }

    /// Signs the header.
    pub fn commit(&mut self) -> (r: Result<(), Error>)
        requires
            old(self).inv(),
        ensures
            r == Ok::<(), Error>(()),
            final(self).inv(),
            final(self).signed(),
            final(self).bytes() == old(self).bytes(),
            final(self).signer() == old(self).signer(),
    {
        match self {
            HeaderFile::Plain(_) => Ok(()),
            HeaderFile::Signed(f) => f.commit(),
        }
    }
}

/// The descriptors of the partitions: a file that is kept twice, with a hash over it.
pub type Table = IvfcLevel<DualFile<MemoryFile, MemoryFile>>;

/// Where a partition is: its descriptor in the table, and its partition file in the file.
#[derive(Clone, Copy, PartialEq, Eq, Structural, Debug)]
pub struct Member {
    pub descriptor: Range,
    pub partition: Range,
}

/// What a header tells.
#[derive(Clone, Copy, PartialEq, Eq, Structural, Debug)]
pub struct ContainerInfo {
    /// Where in the header the byte is that selects the table in use.
    pub selector_pos: usize,
    /// Where in the header the hash of the table is.
    pub hash_pos: usize,
    pub primary: u64,
    pub secondary: u64,
    pub table_size: u64,
    /// How many partitions there are.
    pub count: usize,
    pub first: Member,
    /// The second partition, if there are two.
    pub second: Member,
}

impl ContainerInfo {
    pub open spec fn ok(&self) -> bool {
        &&& self.selector_pos < self.hash_pos
        &&& self.hash_pos + 0x20 <= HEADER_LEN
        &&& 1 <= self.count <= 2
    }

    /// The partitions.
    pub open spec fn members(&self) -> Seq<Member> {
        if self.count == 1 {
            seq![self.first]
        } else {
            seq![self.first, self.second]
        }
    }

    /// The parts of the file.
    pub open spec fn file_ranges(&self) -> Seq<Range> {
        seq![
            Range { offset: 0, len: HEAD_LEN as u64 },
            Range { offset: self.primary, len: self.table_size },
            Range { offset: self.secondary, len: self.table_size },
        ] + Seq::new(self.members().len(), |k: int| self.members()[k].partition)
    }

    /// The parts of the table.
    pub open spec fn table_ranges(&self) -> Seq<Range> {
        Seq::new(self.members().len(), |k: int| self.members()[k].descriptor)
    }

    /// The header in a file.
    pub open spec fn header(file: Seq<u8>) -> Seq<u8> {
        file.subrange(HEADER_POS as int, HEAD_LEN as int)
    }

    /// The table in use.
    pub open spec fn table_of(&self, file: Seq<u8>) -> Seq<u8> {
        selected(
            Self::header(file).subrange(self.selector_pos as int, self.selector_pos + 1),
            cut(file, self.file_ranges()[1]),
            cut(file, self.file_ranges()[2]),
        )
    }

    /// The hash of the table.
    pub open spec fn hash_of(&self, file: Seq<u8>) -> Seq<u8> {
        Self::header(file).subrange(self.hash_pos as int, self.hash_pos + 0x20)
    }

    /// The error for the first partition, from number `k` on, that cannot be opened.
    pub open spec fn members_error(&self, file: Seq<u8>, k: int) -> Option<Error>
        decreases self.members().len() - k,
    {
        if k >= self.members().len() {
            None
        } else {
            match open_error(
                cut(self.table_of(file), self.members()[k].descriptor),
                cut(file, self.members()[k].partition),
            ) {
                Some(e) => Some(e),
                None => self.members_error(file, k + 1),
            }
        }
    }

    /// The error for a container that cannot be opened. Parts that overlap are refused: each part is
    /// held apart from the others, so what is written to one would not show in another.
    pub open spec fn error(&self, file: Seq<u8>) -> Option<Error> {
        if !ranges_ok(file.len() as int, self.file_ranges()) {
            Some(ranges_error(file.len() as int, self.file_ranges()))
        } else if !ranges_ok(self.table_size as int, self.table_ranges()) {
            Some(ranges_error(self.table_size as int, self.table_ranges()))
        } else if self.table_size == 0 {
            Some(Error::SizeMismatch)
        } else if Self::header(file)[self.selector_pos as int] > 1 {
            Some(Error::InvalidValue)
        } else if self.hash_of(file) != sha256(self.table_of(file)) {
            Some(Error::HashMismatch)
        } else {
            self.members_error(file, 0)
        }
    }
}

/// A file with a header, a table and some partitions.
pub struct Container<S> {
    /// The file as it is stored.
    pub file: Vec<u8>,
    pub header: HeaderFile<S>,
    pub info: ContainerInfo,
    pub table: Table,
    pub partitions: Vec<DifiPartition>,
}

pub open spec fn table_shape(n: u64) -> Shape {
    Shape::Parts(
        Box::new(Shape::Bytes(1)),
        Box::new(Shape::Bytes(n as nat)),
        Box::new(Shape::Bytes(n as nat)),
        0,
    )
}

/// The table has one block, over all of it.
pub open spec fn table_ok(t: Table, n: u64) -> bool {
    &&& t.inv()
    &&& t.data.shape() == table_shape(n)
    &&& t.master.bytes().len() == 0x20
    &&& t.external is None
    &&& t.levels@.len() == 1
    &&& t.levels@[0].offset == 0
    &&& t.levels@[0].len == n
    &&& t.levels@[0].block_len == n
    &&& n > 0
    &&& all_readable(t, 0, n as int)
}

impl<S: Signer> Container<S> {
    pub open spec fn partition_ok(&self, k: int) -> bool {
        let p = self.partitions@[k];
        let m = self.info.members()[k];
        &&& p.inv()
        &&& p.descriptor@.len() == m.descriptor.len
        &&& p.partition@.len() == m.partition.len
    }

    pub open spec fn inv(&self) -> bool {
        &&& self.header.inv()
        &&& self.info.ok()
        &&& ranges_ok(self.file@.len() as int, self.info.file_ranges())
        &&& ranges_ok(self.info.table_size as int, self.info.table_ranges())
        &&& table_ok(self.table, self.info.table_size)
        &&& self.partitions@.len() == self.info.members().len()
        &&& forall|k: int| 0 <= k < self.partitions@.len() ==> #[trigger] self.partition_ok(k)
    }

    /// The parts that are stored in the file.
    pub open spec fn slots(&self) -> Seq<Slot> {
        let r = self.info.file_ranges();
        seq![
            (0int, self.header.signature()),
            (HEADER_POS as int, self.header.bytes()),
            (r[1].offset as int, self.table.data.pair0.bytes()),
            (r[2].offset as int, self.table.data.pair1.bytes()),
        ] + Seq::new(
            self.partitions@.len(),
            |k: int|
                (
                    self.info.members()[k].partition.offset as int,
                    self.partitions@[k].stored_partition(),
                ),
        )
    }

    /// Whether the table has the descriptor of partition `k`.
    pub open spec fn listed(&self, k: int) -> bool {
        cut(self.table.bytes(), self.info.members()[k].descriptor)
            == self.partitions@[k].stored_descriptor()
    }

    /// Nothing has been written to partition `k` since the last commit.
    pub open spec fn partition_clean(&self, k: int) -> bool {
        self.partitions@[k].clean()
    }

    /// The file holds what has been written.
    pub open spec fn committed(&self) -> bool {
        &&& self.header.signed()
        &&& self.header.bytes()[self.info.selector_pos as int]
            == self.table.data.selector.bytes()[0]
        &&& self.header.bytes().subrange(self.info.hash_pos as int, self.info.hash_pos + 0x20)
            == self.table.master.bytes()
        &&& self.table.clean()
        &&& self.table.data.clean()
        &&& forall|k: int|
            0 <= k < self.partitions@.len() ==> #[trigger] self.partition_clean(k)
        &&& forall|k: int| 0 <= k < self.partitions@.len() ==> #[trigger] self.listed(k)
        &&& forall|k: int|
            0 <= k < self.slots().len() ==> self.file@.subrange(
                (#[trigger] self.slots()[k]).0,
                self.slots()[k].0 + self.slots()[k].1.len(),
            ) == self.slots()[k].1
    }
}

/// Two headers that differ at most in the selector and the hash of the table.
pub open spec fn heads_alike(info: ContainerInfo, a: Seq<u8>, b: Seq<u8>) -> bool {
    &&& b.len() == a.len()
    &&& forall|i: int|
        0 <= i < a.len() && i != info.selector_pos && !(info.hash_pos <= i < info.hash_pos + 0x20)
            ==> #[trigger] b[i] == a[i]
}

/// What is in front of the header is as it was, but for the signature where there is one.
pub open spec fn lead_kept(signed: bool, a: Seq<u8>, b: Seq<u8>) -> bool {
    forall|i: int|
        (if signed {
            SIGNATURE_LEN as int
        } else {
            0
        }) <= i < HEADER_POS && i < a.len() ==> #[trigger] b[i] == a[i]
}

/// A container stores nothing between its signature and its header.
proof fn lemma_lead_kept<S: Signer>(c: Container<S>)
    requires
        c.inv(),
    ensures
        lead_kept(c.header.signer() is Some, c.file@, overlay(c.file@, c.slots())),
{
    let s = c.slots();
    let fr = c.info.file_ranges();
    let from = c.header.signature().len() as int;
    lemma_slots_ok(c);
    assert(fr[0] == (Range { offset: 0, len: HEAD_LEN as u64 }));
    assert(fr[0].offset + fr[0].len <= c.file@.len());
    assert(s[0] == (0int, c.header.signature()));
    assert(s[1] == (HEADER_POS as int, c.header.bytes()));
    assert forall|k: int| 0 <= k < s.len() implies ranges_apart(
        from,
        HEADER_POS - from,
        (#[trigger] s[k]).0,
        s[k].1.len() as int,
    ) by {
        if k >= 2 {
            assert(s[k].0 == fr[k - 1].offset);
            assert(ranges_apart(
                fr[0].offset as int,
                fr[0].len as int,
                fr[k - 1].offset as int,
                fr[k - 1].len as int,
            ));
        }
    }
    lemma_overlay_len(c.file@, s);
    lemma_overlay_outside(c.file@, s, from, HEADER_POS - from);
    let o = overlay(c.file@, s);
    assert forall|i: int| from <= i < HEADER_POS implies #[trigger] o[i] == c.file@[i] by {
        assert(o.subrange(from, HEADER_POS as int)[i - from] == o[i]);
        assert(c.file@.subrange(from, HEADER_POS as int)[i - from] == c.file@[i]);
    }
}

/// The container has been opened on a file.
pub open spec fn container_opened<S: Signer>(c: Container<S>, file: Seq<u8>) -> bool {
    &&& c.inv()
    &&& c.committed()
    &&& c.file@ == file
    &&& forall|k: int|
        0 <= k < c.partitions@.len() ==> opened(
            #[trigger] c.partitions@[k],
            cut(c.info.table_of(file), c.info.members()[k].descriptor),
            cut(file, c.info.members()[k].partition),
        )
}

/// Whether the table can be read depends on its hash.
proof fn lemma_table_hash(t: Table, n: u64)
    requires
        t.inv(),
        t.clean(),
        t.external is None,
        t.levels@.len() == 1,
        t.levels@[0].offset == 0,
        t.levels@[0].len == n,
        t.levels@[0].block_len == n,
        t.master.bytes().len() == 0x20,
        t.data.bytes().len() == n,
        n > 0,
    ensures
        t.bytes() == t.data.bytes(),
        forall|i: int|
            0 <= i < n ==> #[trigger] t.readable(i) == (t.master.bytes() == sha256(t.data.bytes())),
        all_readable(t, 0, n as int) <==> t.master.bytes() == sha256(t.data.bytes()),
{
    let parts = t.parts();
    let m = t.master.bytes();
    assert(t.level_ok(0));
    assert(t.data.bytes().subrange(0, n as int) =~= t.data.bytes());
    assert(parts[0].bytes == t.data.bytes());
    lemma_counted(n as int, n as int);
    assert(counted(n as int, n as int) == 1) by {
        vstd::arithmetic::div_mod::lemma_fundamental_div_mod_converse(
            2 * n - 1,
            n as int,
            1,
            n - 1,
        );
    }
    assert(parts[0].modified.len() == 1);
    assert(!parts[0].modified[0]) by {
        assert(!t.levels@[0].modified@[0]);
    }
    assert(padded(parts[0].bytes, n as int, 0) =~= t.data.bytes());
    assert(m.subrange(0, 32) =~= m);
    assert forall|i: int| 0 <= i < n implies #[trigger] t.readable(i) == (m == sha256(
        t.data.bytes(),
    )) by {
        vstd::arithmetic::div_mod::lemma_basic_div(i, n as int);
        assert(owner(parts, 1, i) == 0);
        reveal_with_fuel(block_ok, 2);
        assert(block_ok(m, parts, 1, 0) == (m == sha256(t.data.bytes())));
    }
    if m == sha256(t.data.bytes()) {
        assert(all_readable(t, 0, n as int));
    } else {
        assert(!t.readable(0));
    }
}

impl ContainerInfo {
    /// One of the partitions.
    fn member(&self, k: usize) -> (m: Member)
        requires
            self.ok(),
            k < self.count,
        ensures
            m == self.members()[k as int],
    {
        if k == 0 {
            self.first
        } else {
            self.second
        }
    }

    /// Lists the parts of the file.
    fn list_file_ranges(&self) -> (r: Vec<Range>)
        requires
            self.ok(),
        ensures
            r@ == self.file_ranges(),
    {
        let mut r: Vec<Range> = vec![
            Range { offset: 0, len: HEAD_LEN as u64 },
            Range { offset: self.primary, len: self.table_size },
            Range { offset: self.secondary, len: self.table_size },
        ];
        let n: usize = self.count;
        let mut k: usize = 0;
        while k < n
            invariant
                self.ok(),
                n == self.count,
                k <= n == self.members().len(),
                r@ == self.file_ranges().take(3 + k),
            decreases n - k,
        {
            r.push(self.member(k).partition);
            k = k + 1;
            assert(r@ =~= self.file_ranges().take(3 + k));
        }
        assert(r@ =~= self.file_ranges());
        r
    }

    /// Lists the parts of the table.
    fn list_table_ranges(&self) -> (r: Vec<Range>)
        requires
            self.ok(),
        ensures
            r@ == self.table_ranges(),
    {
        let mut r: Vec<Range> = Vec::new();
        let n: usize = self.count;
        let mut k: usize = 0;
        while k < n
            invariant
                self.ok(),
                n == self.count,
                k <= n == self.members().len(),
                r@ == self.table_ranges().take(k as int),
            decreases n - k,
        {
            r.push(self.member(k).descriptor);
            k = k + 1;
            assert(r@ =~= self.table_ranges().take(k as int));
        }
        assert(r@ =~= self.table_ranges());
        r
    }
}

/// Opens the table of a container. It may turn out unreadable.
fn open_table(file: &Vec<u8>, header: &Vec<u8>, info: &ContainerInfo) -> (r: Result<Table, Error>)
    requires
        info.ok(),
        ranges_ok(file@.len() as int, info.file_ranges()),
        header@ == ContainerInfo::header(file@),
    ensures
        match r {
            Ok(t) => {
                &&& info.table_size > 0
                &&& header@[info.selector_pos as int] <= 1
                &&& t.inv()
                &&& t.clean()
                &&& t.data.clean()
                &&& t.data.shape() == table_shape(info.table_size)
                &&& t.master.bytes() == info.hash_of(file@)
                &&& t.external is None
                &&& t.levels@.len() == 1
                &&& t.levels@[0].offset == 0
                &&& t.levels@[0].len == info.table_size
                &&& t.levels@[0].block_len == info.table_size
                &&& t.data.pair0.bytes() == cut(file@, info.file_ranges()[1])
                &&& t.data.pair1.bytes() == cut(file@, info.file_ranges()[2])
                &&& t.data.selector.bytes() == header@.subrange(
                    info.selector_pos as int,
                    info.selector_pos + 1,
                )
                &&& t.data.bytes() == info.table_of(file@)
            },
            Err(e) => if info.table_size == 0 {
                e == Error::SizeMismatch
            } else {
                e == Error::InvalidValue && header@[info.selector_pos as int] > 1
            },
        },
{
    let ghost r = info.file_ranges();
    assert(r[0].offset + r[0].len <= file@.len());
    assert(r[1].offset + r[1].len <= file@.len());
    assert(r[2].offset + r[2].len <= file@.len());
    let _n: usize = file.len();
    let size: usize = info.table_size as usize;
    if size == 0 {
        return make_error(Error::SizeMismatch);
    }
    let selector = MemoryFile::new(copy_range(header, info.selector_pos, 1));
    let master = MemoryFile::new(copy_range(header, info.hash_pos, 0x20));
    let primary = take_range(file, Range { offset: info.primary, len: info.table_size });
    let secondary = take_range(file, Range { offset: info.secondary, len: info.table_size });
    let ghost sel = selector.bytes();
    let data = match DualFile::new(selector, primary, secondary) {
        Ok(f) => f,
        Err(e) => {
            return make_error(e);
        },
    };
    let places: Vec<LevelPlace> = vec![LevelPlace { offset: 0, len: size, block_len: size }];
    proof {
        lemma_counted(size as int, size as int);
        assert(counted(size as int, size as int) == 1) by {
            vstd::arithmetic::div_mod::lemma_fundamental_div_mod_converse(
                2 * size - 1,
                size as int,
                1,
                size - 1,
            );
        }
        assert(place_ok(0x20, size as int, None, places@, 0));
        assert(places_fit(0x20, size as int, None, places@));
    }
    IvfcLevel::new(master, data, None, &places)
}

impl<S: Signer> Container<S> {
    /// Opens a container on a file.
    pub fn open(file: Vec<u8>, header: HeaderFile<S>, info: ContainerInfo) -> (r: Result<
        Container<S>,
        Error,
    >)
        requires
            info.ok(),
            file@.len() >= HEAD_LEN,
            header.inv(),
            header.signed(),
            header.bytes() == ContainerInfo::header(file@),
            header.signature().len() > 0 ==> header.signature() == file@.subrange(
                0,
                SIGNATURE_LEN as int,
            ),
        ensures
            match r {
                Ok(c) => {
                    &&& info.error(file@) is None
                    &&& container_opened(c, file@)
                    &&& c.info == info
                    &&& c.header == header
                },
                Err(e) => info.error(file@) == Some(e),
            },
    {
        let n: usize = file.len();
        let file_ranges = info.list_file_ranges();
        if let Err(e) = check_ranges(n, &file_ranges) {
            return make_error(e);
        }
        let table_ranges = info.list_table_ranges();
        let ghost fr = info.file_ranges();
        assert(fr[1].offset + fr[1].len <= n);
        if let Err(e) = check_ranges(info.table_size as usize, &table_ranges) {
            return make_error(e);
        }
        let table = match open_table(&file, header.data(), &info) {
            Ok(t) => t,
            Err(e) => {
                return make_error(e);
            },
        };
        let mut reader = match open_table(&file, header.data(), &info) {
            Ok(t) => t,
            Err(e) => {
                return make_error(e);
            },
        };
        let size: usize = info.table_size as usize;
        proof {
            lemma_table_hash(table, info.table_size);
            lemma_table_hash(reader, info.table_size);
        }
        let active = match reader.load(0, size) {
            Ok(v) => v,
            Err(e) => {
                return make_error(e);
            },
        };
        assert(active@ =~= info.table_of(file@));
        let count: usize = info.count;
        let mut partitions: Vec<DifiPartition> = Vec::new();
        let mut k: usize = 0;
        while k < count
            invariant
                info.ok(),
                count == info.count,
                k <= count == info.members().len() == partitions@.len() + count - k,
                active@ == info.table_of(file@),
                active@.len() == info.table_size,
                fr == info.file_ranges(),
                ranges_ok(file@.len() as int, fr),
                ranges_ok(info.table_size as int, info.table_ranges()),
                info.error(file@) == info.members_error(file@, 0),
                info.members_error(file@, 0) == info.members_error(file@, k as int),
                forall|j: int|
                    0 <= j < k ==> opened(
                        #[trigger] partitions@[j],
                        cut(active@, info.members()[j].descriptor),
                        cut(file@, info.members()[j].partition),
                    ),
            decreases count - k,
        {
            let m = info.member(k);
            assert(fr[3 + k] == m.partition);
            assert(info.table_ranges()[k as int] == m.descriptor);
            let descriptor = take_range(&active, m.descriptor).into_data();
            let partition = take_range(&file, m.partition).into_data();
            match DifiPartition::new(descriptor, partition) {
                Ok(p) => {
                    partitions.push(p);
                },
                Err(e) => {
                    return make_error(e);
                },
            }
            k = k + 1;
        }
        let c = Container { file, header, info, table, partitions };
        proof {
            lemma_opened(c);
        }
        Ok(c)
    }
}

/// A container that has been opened is committed.
proof fn lemma_opened<S: Signer>(c: Container<S>)
    requires
        c.info.ok(),
        c.header.inv(),
        c.header.signed(),
        c.header.bytes() == ContainerInfo::header(c.file@),
        c.header.signature().len() > 0 ==> c.header.signature() == c.file@.subrange(
            0,
            SIGNATURE_LEN as int,
        ),
        ranges_ok(c.file@.len() as int, c.info.file_ranges()),
        ranges_ok(c.info.table_size as int, c.info.table_ranges()),
        table_ok(c.table, c.info.table_size),
        c.table.clean(),
        c.table.data.clean(),
        c.table.bytes() == c.info.table_of(c.file@),
        c.table.master.bytes() == c.info.hash_of(c.file@),
        c.table.data.pair0.bytes() == cut(c.file@, c.info.file_ranges()[1]),
        c.table.data.pair1.bytes() == cut(c.file@, c.info.file_ranges()[2]),
        c.table.data.selector.bytes() == c.header.bytes().subrange(
            c.info.selector_pos as int,
            c.info.selector_pos + 1,
        ),
        c.partitions@.len() == c.info.members().len(),
        forall|k: int|
            0 <= k < c.partitions@.len() ==> opened(
                #[trigger] c.partitions@[k],
                cut(c.info.table_of(c.file@), c.info.members()[k].descriptor),
                cut(c.file@, c.info.members()[k].partition),
            ),
    ensures
        container_opened(c, c.file@),
{
    let fr = c.info.file_ranges();
    let slots = c.slots();
    assert(fr[0].offset + fr[0].len <= c.file@.len());
    assert(fr[1].offset + fr[1].len <= c.file@.len());
    assert(fr[2].offset + fr[2].len <= c.file@.len());
    assert forall|k: int| 0 <= k < c.partitions@.len() implies #[trigger] c.partition_ok(k)
        && c.partition_clean(k) && c.listed(k) && c.partitions@[k].stored_partition() == cut(
        c.file@,
        c.info.members()[k].partition,
    ) by {
        let p = c.partitions@[k];
        let m = c.info.members()[k];
        assert(fr[3 + k] == m.partition);
        assert(c.info.table_ranges()[k] == m.descriptor);
        let d = cut(c.info.table_of(c.file@), m.descriptor);
        assert(opened(p, d, cut(c.file@, m.partition)));
        lemma_opened_stored(p, d, cut(c.file@, m.partition));
        lemma_opened_inv(p, d, cut(c.file@, m.partition));
    }
    assert forall|k: int| 0 <= k < c.partitions@.len() implies #[trigger] c.partition_clean(
        k,
    ) by {
        assert(c.partition_ok(k));
    }
    assert forall|k: int| 0 <= k < c.partitions@.len() implies #[trigger] c.listed(k) by {
        assert(c.partition_ok(k));
    }
    assert forall|k: int| 0 <= k < slots.len() implies c.file@.subrange(
        (#[trigger] slots[k]).0,
        slots[k].0 + slots[k].1.len(),
    ) == slots[k].1 by {
        if k >= 4 {
            let j = k - 4;
            assert(c.partition_ok(j));
            assert(fr[3 + j] == c.info.members()[j].partition);
            assert(fr[3 + j].offset + fr[3 + j].len <= c.file@.len());
            assert(slots[k] == (
                c.info.members()[j].partition.offset as int,
                c.partitions@[j].stored_partition(),
            ));
        } else if k == 0 {
            assert(slots[0] == (0int, c.header.signature()));
            if c.header.signature().len() == 0 {
                assert(c.file@.subrange(0, 0) =~= c.header.signature());
            }
        } else if k == 1 {
            assert(slots[1] == (HEADER_POS as int, c.header.bytes()));
        } else if k == 2 {
            assert(slots[2] == (fr[1].offset as int, c.table.data.pair0.bytes()));
        } else {
            assert(slots[3] == (fr[2].offset as int, c.table.data.pair1.bytes()));
        }
    }
}

/// The partition holds the same, and can be read wherever it could be read.
pub open spec fn kept(a: DifiPartition, b: DifiPartition) -> bool {
    &&& b.bytes() == a.bytes()
    &&& forall|i: int| a.readable(i) ==> #[trigger] b.readable(i)
}

impl<S: Signer> Container<S> {
    /// Commits a partition and puts its descriptor in the table.
    fn commit_partition(&mut self, k: usize) -> (r: Result<(), Error>)
        requires
            old(self).inv(),
            k < old(self).partitions@.len(),
        ensures
            r == Ok::<(), Error>(()),
            final(self).inv(),
            final(self).file == old(self).file,
            final(self).header == old(self).header,
            final(self).info == old(self).info,
            final(self).partitions@.len() == old(self).partitions@.len(),
            final(self).partition_clean(k as int),
            final(self).listed(k as int),
            kept(old(self).partitions@[k as int], final(self).partitions@[k as int]),
            forall|j: int|
                0 <= j < old(self).partitions@.len() && j != k ==> (#[trigger] final(self).partitions@[j]) == old(self).partitions@[j],
            forall|j: int|
                0 <= j < old(self).partitions@.len() && j != k && old(self).listed(j)
                    ==> #[trigger] final(self).listed(j),
    {
        let ghost a = *self;
        assert(self.partition_ok(k as int));
        let m = self.info.member(k);
        let ghost tr = self.info.table_ranges();
        assert(tr[k as int] == m.descriptor);
        assert(self.table.level_ok(0));
        let n: usize = self.table.len();
        if let Err(e) = self.partitions[k].commit() {
            return make_error(e);
        }
        let image = self.partitions[k].descriptor_image();
        proof {
            lemma_overlay_len(
                self.partitions@[k as int].descriptor@,
                self.partitions@[k as int].descriptor_slots(),
            );
        }
        let ghost t0 = self.table;
        assert(can_read(t0, m.descriptor.offset as int, m.descriptor.len as int));
        let current = match self.table.load(m.descriptor.offset as usize, m.descriptor.len as usize) {
            Ok(v) => v,
            Err(e) => {
                return make_error(e);
            },
        };
        let ghost t1 = self.table;
        assert forall|i: int| 0 <= i < n implies #[trigger] t1.readable(i) by {
            assert(t0.readable(i));
        }
        if !same_bytes(&current, &image) {
            if let Err(e) = self.table.write(m.descriptor.offset as usize, &image) {
                return make_error(e);
            }
            assert forall|i: int| 0 <= i < n implies #[trigger] self.table.readable(i) by {
                assert(t1.readable(i));
            }
            assert(cut(self.table.bytes(), m.descriptor) =~= image@);
        }
        proof {
            assert forall|j: int| 0 <= j < self.partitions@.len() implies #[trigger] self.partition_ok(
                j,
            ) by {
                assert(a.partition_ok(j));
            }
            assert forall|j: int|
                0 <= j < a.partitions@.len() && j != k && a.listed(j) implies #[trigger] self.listed(
                j,
            ) by {
                let d = a.info.members()[j].descriptor;
                assert(tr[j] == d);
                assert(ranges_apart(
                    tr[j].offset as int,
                    tr[j].len as int,
                    tr[k as int].offset as int,
                    tr[k as int].len as int,
                ));
                assert(cut(self.table.bytes(), d) =~= cut(t0.bytes(), d));
            }
        }
        Ok(())
    }
}

/// The slots of a container are within its file and do not overlap.
proof fn lemma_slots_ok<S: Signer>(c: Container<S>)
    requires
        c.inv(),
    ensures
        slots_ok(c.file@.len() as int, c.slots()),
        forall|k: int|
            2 <= k < c.slots().len() ==> (#[trigger] c.slots()[k]).0
                == c.info.file_ranges()[k - 1].offset && c.slots()[k].1.len()
                == c.info.file_ranges()[k - 1].len,
{
    let fr = c.info.file_ranges();
    let s = c.slots();
    let n = c.file@.len() as int;
    let t = c.table.data;
    assert(t.pair0.bytes().len() == c.info.table_size);
    assert(t.pair1.bytes().len() == c.info.table_size);
    assert(c.header.signature().len() <= SIGNATURE_LEN);
    assert(fr[0] == (Range { offset: 0, len: HEAD_LEN as u64 }));
    assert(fr[0].offset + fr[0].len <= n);
    assert forall|k: int| 2 <= k < s.len() implies (#[trigger] s[k]).0 == fr[k - 1].offset
        && s[k].1.len() == fr[k - 1].len by {
        if k >= 4 {
            let p = c.partitions@[k - 4];
            assert(c.partition_ok(k - 4));
            lemma_overlay_len(p.partition@, p.partition_slots());
        }
    }
    assert(s[0] == (0int, c.header.signature()));
    assert(s[1] == (HEADER_POS as int, c.header.bytes()));
    assert forall|k: int| 0 <= k < s.len() implies 0 <= (#[trigger] s[k]).0 && s[k].0
        + s[k].1.len() <= n by {
        if k >= 2 {
            assert(fr[k - 1].offset + fr[k - 1].len <= n);
        }
    }
    assert forall|j: int, k: int| 0 <= j < k < s.len() implies ranges_apart(
        (#[trigger] s[j]).0,
        s[j].1.len() as int,
        (#[trigger] s[k]).0,
        s[k].1.len() as int,
    ) by {
        if k >= 2 {
            let i = if j < 2 {
                0
            } else {
                j - 1
            };
            assert(ranges_apart(
                fr[i].offset as int,
                fr[i].len as int,
                fr[k - 1].offset as int,
                fr[k - 1].len as int,
            ));
        }
    }
}

impl<S: Signer> Container<S> {
    /// Commits the table, and puts its selector and its hash in the header.
    fn commit_table(&mut self) -> (r: Result<(), Error>)
        requires
            old(self).inv(),
        ensures
            r == Ok::<(), Error>(()),
            final(self).inv(),
            final(self).file == old(self).file,
            final(self).info == old(self).info,
            final(self).partitions == old(self).partitions,
            final(self).table.bytes() == old(self).table.bytes(),
            final(self).table.clean(),
            final(self).table.data.clean(),
            final(self).header.signer() == old(self).header.signer(),
            final(self).header.signed(),
            final(self).header.bytes()[final(self).info.selector_pos as int]
                == final(self).table.data.selector.bytes()[0],
            final(self).header.bytes().subrange(
                final(self).info.hash_pos as int,
                final(self).info.hash_pos + 0x20,
            ) == final(self).table.master.bytes(),
            heads_alike(old(self).info, old(self).header.bytes(), final(self).header.bytes()),
    {
        let ghost t0 = self.table;
        let ghost n = self.info.table_size as int;
        if let Err(e) = self.table.commit() {
            return make_error(e);
        }
        let ghost t1 = self.table;
        if let Err(e) = self.table.data.commit() {
            return make_error(e);
        }
        proof {
            lemma_same_data(t1, self.table);
            assert forall|i: int| 0 <= i < n implies #[trigger] self.table.readable(i) by {
                assert(t0.readable(i));
                assert(t1.readable(i));
            }
        }
        assert(self.table.data.selector.bytes().len() == 1);
        if let Err(e) = self.header.write(
            self.info.selector_pos,
            &self.table.data.selector.data,
        ) {
            return make_error(e);
        }
        let ghost h1 = self.header.bytes();
        if let Err(e) = self.header.write(self.info.hash_pos, &self.table.master.data) {
            return make_error(e);
        }
        if let Err(e) = self.header.commit() {
            return make_error(e);
        }
        proof {
            assert(self.header.bytes().subrange(
                self.info.hash_pos as int,
                self.info.hash_pos + 0x20,
            ) =~= self.table.master.bytes());
            assert forall|j: int| 0 <= j < self.partitions@.len() implies #[trigger] self.partition_ok(
                j,
            ) by {
                assert(old(self).partition_ok(j));
            }
        }
        Ok(())
    }

    /// The file to store.
    fn image(&self) -> (r: Vec<u8>)
        requires
            self.inv(),
        ensures
            r@ == overlay(self.file@, self.slots()),
    {
        let n: usize = self.file.len();
        let mut out: Vec<u8> = copy_range(&self.file, 0, n);
        let ghost base = self.file@;
        assert(out@ =~= base);
        let ghost all = self.slots();
        proof {
            lemma_slots_ok(*self);
            assert(all.take(0) =~= Seq::<Slot>::empty());
        }
        let empty: Vec<u8> = Vec::new();
        match &self.header {
            HeaderFile::Plain(f) => {
                put_slot(&mut out, 0, &empty, Ghost(base), Ghost(all), Ghost(0));
                put_slot(&mut out, 0x100, &f.data, Ghost(base), Ghost(all), Ghost(1));
            },
            HeaderFile::Signed(f) => {
                put_slot(&mut out, 0, &f.signature.data, Ghost(base), Ghost(all), Ghost(0));
                put_slot(&mut out, 0x100, &f.data.data, Ghost(base), Ghost(all), Ghost(1));
            },
        }
        put_slot(
            &mut out,
            self.info.primary,
            &self.table.data.pair0.data,
            Ghost(base),
            Ghost(all),
            Ghost(2),
        );
        put_slot(
            &mut out,
            self.info.secondary,
            &self.table.data.pair1.data,
            Ghost(base),
            Ghost(all),
            Ghost(3),
        );
        let count: usize = self.partitions.len();
        let mut k: usize = 0;
        while k < count
            invariant
                k <= count == self.partitions@.len(),
                self.inv(),
                base == self.file@,
                base.len() == n,
                all == self.slots(),
                slots_ok(base.len() as int, all),
                out@ == overlay(base, all.take(4 + k)),
            decreases count - k,
        {
            assert(self.partition_ok(k as int));
            let part = self.partitions[k].partition_image();
            assert(all[4 + k] == (
                self.info.members()[k as int].partition.offset as int,
                part@,
            ));
            put_slot(
                &mut out,
                self.info.member(k).partition.offset,
                &part,
                Ghost(base),
                Ghost(all),
                Ghost(4 + k as int),
            );
            k = k + 1;
        }
        assert(all.take(4 + k) =~= all);
        out
    }

    /// Stores everything that has been written: first the partitions, then the table with their
    /// descriptors, then the header.
    pub fn commit(&mut self) -> (r: Result<(), Error>)
        requires
            old(self).inv(),
        ensures
            r == Ok::<(), Error>(()),
            final(self).inv(),
            final(self).committed(),
            final(self).info == old(self).info,
            final(self).header.signer() == old(self).header.signer(),
            final(self).partitions@.len() == old(self).partitions@.len(),
            forall|k: int|
                0 <= k < old(self).partitions@.len() ==> kept(
                    old(self).partitions@[k],
                    #[trigger] final(self).partitions@[k],
                ),
            final(self).file@ == overlay(old(self).file@, final(self).slots()),
            final(self).file@.len() == old(self).file@.len(),
            lead_kept(
                old(self).header.signer() is Some,
                old(self).file@,
                final(self).file@,
            ),
            heads_alike(old(self).info, old(self).header.bytes(), final(self).header.bytes()),
    {
        let count: usize = self.partitions.len();
        let mut k: usize = 0;
        while k < count
            invariant
                self.inv(),
                k <= count == self.partitions@.len(),
                count == old(self).partitions@.len(),
                self.info == old(self).info,
                self.file == old(self).file,
                self.header == old(self).header,
                forall|j: int| 0 <= j < k ==> #[trigger] self.partition_clean(j),
                forall|j: int| 0 <= j < k ==> #[trigger] self.listed(j),
                forall|j: int|
                    0 <= j < k ==> kept(old(self).partitions@[j], #[trigger] self.partitions@[j]),
                forall|j: int|
                    k <= j < count ==> #[trigger] self.partitions@[j] == old(self).partitions@[j],
            decreases count - k,
        {
            let ghost b = *self;
            if let Err(e) = self.commit_partition(k) {
                return make_error(e);
            }
            assert forall|j: int| 0 <= j < k + 1 implies #[trigger] self.partition_clean(j) by {
                if j < k {
                    assert(b.partition_clean(j));
                    assert(self.partitions@[j] == b.partitions@[j]);
                }
            }
            assert forall|j: int| 0 <= j < k + 1 implies #[trigger] self.listed(j) by {
                if j < k {
                    assert(b.listed(j));
                }
            }
            k = k + 1;
        }
        let ghost b = *self;
        if let Err(e) = self.commit_table() {
            return make_error(e);
        }
        let ghost c = *self;
        let file = self.image();
        self.file = file;
        proof {
            lemma_slots_ok(c);
            lemma_lead_kept(c);
            lemma_overlay_len(c.file@, c.slots());
            assert forall|j: int| 0 <= j < self.partitions@.len() implies #[trigger] self.partition_ok(
                j,
            ) by {
                assert(c.partition_ok(j));
            }
            assert forall|j: int|
                0 <= j < self.partitions@.len() implies #[trigger] self.partition_clean(j) by {
                assert(b.partition_clean(j));
            }
            assert forall|j: int| 0 <= j < self.partitions@.len() implies #[trigger] self.listed(
                j,
            ) by {
                assert(b.listed(j));
            }
            assert(self.slots() == c.slots());
            assert forall|j: int| 0 <= j < self.slots().len() implies self.file@.subrange(
                (#[trigger] self.slots()[j]).0,
                self.slots()[j].0 + self.slots()[j].1.len(),
            ) == self.slots()[j].1 by {
                lemma_overlay_slot(c.file@, c.slots(), j);
            }
        }
        Ok(())
    }
}

/// What the file of a committed container holds.
pub proof fn lemma_committed_file<S: Signer>(c: Container<S>)
    requires
        c.inv(),
        c.committed(),
    ensures
        ContainerInfo::header(c.file@) == c.header.bytes(),
        c.header.signer() is Some ==> c.file@.subrange(0, SIGNATURE_LEN as int)
            == c.header.signature(),
        cut(c.file@, c.info.file_ranges()[1]) == c.table.data.pair0.bytes(),
        cut(c.file@, c.info.file_ranges()[2]) == c.table.data.pair1.bytes(),
        c.info.table_of(c.file@) == c.table.bytes(),
        c.info.hash_of(c.file@) == c.table.master.bytes(),
        forall|k: int|
            0 <= k < c.partitions@.len() ==> cut(c.file@, c.info.members()[k].partition)
                == (#[trigger] c.partitions@[k]).stored_partition(),
{
    let s = c.slots();
    let f = c.file@;
    let fr = c.info.file_ranges();
    assert(s[0] == (0int, c.header.signature()));
    assert(s[1] == (HEADER_POS as int, c.header.bytes()));
    assert(s[2] == (fr[1].offset as int, c.table.data.pair0.bytes()));
    assert(s[3] == (fr[2].offset as int, c.table.data.pair1.bytes()));
    assert(c.table.data.pair0.bytes().len() == c.info.table_size);
    assert(c.table.data.pair1.bytes().len() == c.info.table_size);
    assert(f.subrange(s[1].0, s[1].0 + s[1].1.len()) == s[1].1);
    assert(f.subrange(s[2].0, s[2].0 + s[2].1.len()) == s[2].1);
    assert(f.subrange(s[3].0, s[3].0 + s[3].1.len()) == s[3].1);
    assert(f.subrange(s[0].0, s[0].0 + s[0].1.len()) == s[0].1);
    let h = c.header.bytes();
    let sel = h.subrange(c.info.selector_pos as int, c.info.selector_pos + 1);
    assert(sel[0] == h[c.info.selector_pos as int]);
    lemma_table_hash(c.table, c.info.table_size);
    assert forall|k: int| 0 <= k < c.partitions@.len() implies cut(
        f,
        c.info.members()[k].partition,
    ) == (#[trigger] c.partitions@[k]).stored_partition() by {
        let p = c.partitions@[k];
        assert(c.partition_ok(k));
        lemma_overlay_len(p.partition@, p.partition_slots());
        assert(s[4 + k] == (
            c.info.members()[k].partition.offset as int,
            p.stored_partition(),
        ));
    }
}

/// The partitions of a committed container can be opened.
proof fn lemma_members_open<S: Signer>(c: Container<S>, k: int)
    requires
        c.inv(),
        c.committed(),
        0 <= k <= c.info.members().len(),
    ensures
        c.info.members_error(c.file@, k) is None,
    decreases c.info.members().len() - k,
{
    if k < c.info.members().len() {
        let p = c.partitions@[k];
        lemma_committed_file(c);
        assert(c.partition_ok(k));
        assert(c.listed(k));
        law_reopen(p, p);
        lemma_members_open(c, k + 1);
    }
}

/// A container that has been committed can be opened again, and its partitions are then the same.
pub proof fn law_container_reopen<S: Signer>(c: Container<S>, g: Container<S>)
    requires
        c.inv(),
        c.committed(),
    ensures
        header_error(c.file@, c.header.signer()) is None,
        c.info.error(c.file@) is None,
        container_opened(g, c.file@) && g.info == c.info ==> {
            &&& g.partitions@.len() == c.partitions@.len()
            &&& forall|k: int|
                0 <= k < c.partitions@.len() ==> same_file(
                    c.partitions@[k],
                    #[trigger] g.partitions@[k],
                )
        },
{
    let fr = c.info.file_ranges();
    lemma_committed_file(c);
    lemma_members_open(c, 0);
    lemma_table_hash(c.table, c.info.table_size);
    assert(fr[0].offset + fr[0].len <= c.file@.len());
    assert(c.table.data.selector.bytes()[0] <= 1);
    if container_opened(g, c.file@) && g.info == c.info {
        assert forall|k: int| 0 <= k < c.partitions@.len() implies same_file(
            c.partitions@[k],
            #[trigger] g.partitions@[k],
        ) by {
            assert(c.partition_ok(k));
            assert(c.partition_clean(k));
            assert(c.listed(k));
            law_reopen_committed(c.partitions@[k], g.partitions@[k]);
        }
    }
}

/// A file after a new header, its signature and a new table have been written to it.
pub open spec fn written(
    file: Seq<u8>,
    header: Seq<u8>,
    signature: Seq<u8>,
    table_at: int,
    table: Seq<u8>,
) -> Seq<u8> {
    spliced(
        spliced(
            spliced(spliced(file, 0, zeros(HEAD_LEN as nat)), 0, signature),
            HEADER_POS as int,
            header,
        ),
        table_at,
        table,
    )
}

/// A number of zeros.
pub open spec fn zeros(n: nat) -> Seq<u8> {
    Seq::new(n, |i: int| 0u8)
}

/// Writes a new header and a new table to a file. The header gets the hash of the table.
pub fn write_new<S: Signer>(
    file: &mut Vec<u8>,
    signer: Option<(S, [u8; 16])>,
    header: Vec<u8>,
    hash_pos: usize,
    table_at: usize,
    table: &Vec<u8>,
) -> (r: Result<(), Error>)
    requires
        header@.len() == HEADER_LEN,
        hash_pos + 0x20 <= HEADER_LEN,
        HEAD_LEN <= table_at,
        table_at + table@.len() <= old(file)@.len(),
    ensures
        r == Ok::<(), Error>(()),
        final(file)@ == written(
            old(file)@,
            spliced(header@, hash_pos as int, sha256(table@)),
            sign(signer, spliced(header@, hash_pos as int, sha256(table@))),
            table_at as int,
            table@,
        ),
        sha256(table@).len() == 0x20,
        signer is Some ==> sign(
            signer,
            spliced(header@, hash_pos as int, sha256(table@)),
        ).len() == SIGNATURE_LEN,
{
    let mut h = match HeaderFile::create(header, signer) {
        Ok(h) => h,
        Err(e) => {
            return make_error(e);
        },
    };
    let hash = sha256_of(table);
    if let Err(e) = h.write(hash_pos, &hash) {
        return make_error(e);
    }
    if let Err(e) = h.commit() {
        return make_error(e);
    }
    let blank: Vec<u8> = vec![0u8; HEAD_LEN];
    assert(blank@ =~= zeros(HEAD_LEN as nat));
    overwrite(file, 0, &blank);
    match &h {
        HeaderFile::Plain(_) => {
            let empty: Vec<u8> = Vec::new();
            overwrite(file, 0, &empty);
        },
        HeaderFile::Signed(f) => {
            overwrite(file, 0, &f.signature.data);
        },
    }
    overwrite(file, HEADER_POS, h.data());
    overwrite(file, table_at, table);
    Ok(())
}

/// A container that has just been written can be opened.
pub proof fn lemma_written_opens<S: Signer>(
    info: ContainerInfo,
    file: Seq<u8>,
    header: Seq<u8>,
    signer: Option<(S, [u8; 16])>,
    table: Seq<u8>,
)
    requires
        info.ok(),
        info.table_size > 0,
        ranges_ok(file.len() as int, info.file_ranges()),
        ranges_ok(info.table_size as int, info.table_ranges()),
        table.len() == info.table_size,
        header.len() == HEADER_LEN,
        header[info.selector_pos as int] == 1,
        header.subrange(info.hash_pos as int, info.hash_pos + 0x20) == sha256(table),
        signer is Some ==> sign(signer, header).len() == SIGNATURE_LEN,
        forall|k: int, q: Seq<u8>|
            0 <= k < info.count && q.len() == info.members()[k].partition.len ==> #[trigger] openable(
                cut(table, info.members()[k].descriptor),
                q,
            ),
    ensures
        ({
            let f = written(file, header, sign(signer, header), info.secondary as int, table);
            &&& f.len() == file.len()
            &&& ContainerInfo::header(f) == header
            &&& info.table_of(f) == table
            &&& header_error(f, signer) is None
            &&& info.error(f) is None
        }),
{
    let sig = sign(signer, header);
    let f = written(file, header, sig, info.secondary as int, table);
    let fr = info.file_ranges();
    let n = file.len() as int;
    assert(fr[0].offset + fr[0].len <= n);
    assert(fr[1].offset + fr[1].len <= n);
    assert(fr[2].offset + fr[2].len <= n);
    assert(ranges_apart(fr[0].offset as int, fr[0].len as int, fr[2].offset as int, fr[2].len as int));
    assert(ContainerInfo::header(f) =~= header);
    if signer is Some {
        assert(f.subrange(0, SIGNATURE_LEN as int) =~= sig);
    }
    let sel = header.subrange(info.selector_pos as int, info.selector_pos + 1);
    assert(sel[0] == 1);
    assert(cut(f, fr[2]) =~= table);
    assert(info.table_of(f) == table);
    assert forall|k: int| 0 <= k < info.count implies #[trigger] open_error(
        cut(table, info.members()[k].descriptor),
        cut(f, info.members()[k].partition),
    ) is None by {
        let m = info.members()[k];
        assert(fr[3 + k] == m.partition);
        assert(fr[3 + k].offset + fr[3 + k].len <= n);
        assert(openable(cut(table, m.descriptor), cut(f, m.partition)));
    }
    reveal_with_fuel(ContainerInfo::members_error, 3);
    assert(info.members_error(f, 0) is None);
}

/// What opens on a file with a new table has partitions of the lengths that were asked for.
pub proof fn lemma_new_len<S: Signer>(
    c: Container<S>,
    file: Seq<u8>,
    table: Seq<u8>,
    k: int,
    p: DifiPartitionParam,
)
    requires
        container_opened(c, file),
        0 <= k < c.info.count,
        p.ok(),
        layout_fits(p),
        block_lens_ok(p),
        c.info.table_of(file) == table,
        cut(table, c.info.members()[k].descriptor).len() == layout(p).descriptor_len,
        cut(table, c.info.members()[k].descriptor).subrange(0, DESCRIPTOR_HEAD as int) == head_of(p),
        c.info.members()[k].partition.len == layout(p).partition_len,
    ensures
        c.partitions@[k].bytes().len() == p.data_len,
{
    let m = c.info.members()[k];
    assert(c.info.file_ranges()[3 + k] == m.partition);
    assert(cut(file, m.partition).len() == m.partition.len);
    law_formatted_opens(
        p,
        cut(table, m.descriptor),
        cut(file, m.partition),
        c.partitions@[k],
    );
}

/// The partitions can be opened where each of them can.
pub proof fn lemma_members(info: ContainerInfo, t: Seq<u8>)
    requires
        1 <= info.count <= 2,
        forall|q: Seq<u8>|
            q.len() == info.first.partition.len ==> #[trigger] openable(
                cut(t, info.first.descriptor),
                q,
            ),
        info.count == 2 ==> forall|q: Seq<u8>|
            q.len() == info.second.partition.len ==> #[trigger] openable(
                cut(t, info.second.descriptor),
                q,
            ),
    ensures
        forall|k: int, q: Seq<u8>|
            0 <= k < info.count && q.len() == info.members()[k].partition.len ==> #[trigger] openable(
                cut(t, info.members()[k].descriptor),
                q,
            ),
{
    assert forall|k: int, q: Seq<u8>|
        0 <= k < info.count && q.len() == info.members()[k].partition.len implies #[trigger] openable(
        cut(t, info.members()[k].descriptor),
        q,
    ) by {
        if k == 0 {
            assert(info.members()[0] == info.first);
            assert(openable(cut(t, info.first.descriptor), q));
        } else {
            assert(info.members()[1] == info.second);
            assert(openable(cut(t, info.second.descriptor), q));
        }
    }
}

} // verus!
