use crate::archive::{Archive, ImageRule};
use crate::container::Container;
use crate::diff::Diff;
use crate::difi_partition::DifiPartition;
use crate::error::{make_error, Error};
use crate::fs_meta::MetaLayout;
use crate::little_endian::{push_le, read_le};
use crate::random_access_file::{Content, RandomAccessFile};
use crate::signed_file::Signer;
use vstd::prelude::*;

verus! {

use crate::archive::{
    front_kept, head_apart, law_archive_reopen, law_held_archive_is_settled, lemma_opened_settled, lemma_settled_same, source_of,
};
use crate::container::{container_opened, ContainerInfo};
use crate::diff::{diff_error, diff_info, law_diff_reopen, lemma_still_named};
use crate::fields::field;
use crate::little_endian::le_bytes;
use crate::random_access_file::{can_read, refused, same_file};
use crate::volume::Volume;
use crate::volume_same::{
    law_held_volume_reads_back, lemma_read_back_before, lemma_reads_back_whole, reads_back,
    reads_back_to,
};
use crate::volume_store::{
    files_as_before, holds, lemma_views_back, lemma_views_same, mount_refused, mounted, parts_same, shown_as, told,
    Source,
};

/// `CTR-9DB0` in little endian.
pub const CTR_9DB0: u64 = 0x3042_4439_2D52_5443;

/// `BDRI` in little endian.
pub const BDRI_MAGIC: u64 = 0x4952_4442;

/// The databases.
#[derive(Clone, Copy, PartialEq, Eq, Structural, Debug)]
pub enum DbType {
    Ticket,
    NandTitle,
    NandImport,
    TmpTitle,
    TmpImport,
    SdTitle,
    SdImport,
}

impl DbType {
    /// The number that the header is signed with.
    pub open spec fn signer_id(self) -> u32 {
        match self {
            DbType::Ticket => 0,
            DbType::SdTitle | DbType::NandTitle => 2,
            DbType::SdImport | DbType::NandImport => 3,
            DbType::TmpTitle => 4,
            DbType::TmpImport => 5,
        }
    }

    fn id(&self) -> (r: u32)
        ensures
            r == self.signer_id(),
    {
        match self {
            DbType::Ticket => 0,
            DbType::SdTitle | DbType::NandTitle => 2,
            DbType::SdImport | DbType::NandImport => 3,
            DbType::TmpTitle => 4,
            DbType::TmpImport => 5,
        }
    }

    /// What the partition begins with: a number and its length in bytes.
    pub open spec fn magic(self) -> (u64, int) {
        match self {
            // TICK
            DbType::Ticket => (0x4B43_4954, 4),
            // NANDTDB and a zero
            DbType::NandTitle => (0x0042_4454_444E_414E, 8),
            // NANDIDB and a zero
            DbType::NandImport => (0x0042_4449_444E_414E, 8),
            // TEMPIDB and a zero
            DbType::TmpTitle | DbType::TmpImport => (0x0042_4449_504D_4554, 8),
            // TEMPTDB and a zero
            DbType::SdTitle | DbType::SdImport => (0x0042_4454_504D_4554, 8),
        }
    }

    fn get_magic(&self) -> (r: (u64, usize))
        ensures
            r.0 == self.magic().0,
            r.1 == self.magic().1,
    {
        match self {
            DbType::Ticket => (0x4B43_4954, 4),
            DbType::NandTitle => (0x0042_4454_444E_414E, 8),
            DbType::NandImport => (0x0042_4449_444E_414E, 8),
            DbType::TmpTitle | DbType::TmpImport => (0x0042_4449_504D_4554, 8),
            DbType::SdTitle | DbType::SdImport => (0x0042_4454_504D_4554, 8),
        }
    }

    /// How long the part before the header is.
    pub open spec fn pre_len(self) -> u64 {
        if self == DbType::Ticket {
            0x10
        } else {
            0x80
        }
    }

    /// What the partition holds behind that part.
    pub open spec fn rule(self) -> ImageRule {
        ImageRule {
            base: self.pre_len(),
            header_len: 0x20,
            magic: BDRI_MAGIC,
            version: 0x30000,
            layout: MetaLayout {
                dir_key_len: 4,
                dir_info_len: 24,
                file_key_len: 12,
                file_info_len: 28,
            },
            cut_off: true,
        }
    }

    fn get_rule(&self) -> (r: ImageRule)
        ensures
            r == self.rule(),
            r.ok(),
    {
        ImageRule {
            base: if matches!(self, DbType::Ticket) {
                0x10
            } else {
                0x80
            },
            header_len: 0x20,
            magic: BDRI_MAGIC,
            version: 0x30000,
            layout: MetaLayout {
                dir_key_len: 4,
                dir_info_len: 24,
                file_key_len: 12,
                file_info_len: 28,
            },
            cut_off: true,
        }
    }
}

/// How the header of a database is signed.
#[derive(Clone, Copy, PartialEq, Eq, Structural, Debug)]
pub struct DbSigner {
    pub id: u32,
}

impl Signer for DbSigner {
    open spec fn blocked(&self, data: Seq<u8>) -> Seq<u8> {
        le_bytes(CTR_9DB0 as nat, 8) + le_bytes(self.id as nat, 4) + data
    }

    fn block(&self, data: Vec<u8>) -> (r: Vec<u8>) {
        let mut data = data;
        let ghost d = data@;
        let mut out: Vec<u8> = Vec::new();
        push_le(&mut out, CTR_9DB0, 8);
        push_le(&mut out, self.id as u64, 4);
        out.append(&mut data);
        assert(out@ =~= self.blocked(d));
        out
    }
}

/// How a database is signed with a key.
pub open spec fn db_signer(db_type: DbType, key: Option<[u8; 16]>) -> Option<(DbSigner, [u8; 16])> {
    match key {
        Some(k) => Some((DbSigner { id: db_type.signer_id() }, k)),
        None => None,
    }
}

/// Where the volume of a database is, or the error for what does not begin like one.
pub open spec fn db_source<F: Content>(p: F, db_type: DbType) -> Result<Source, Error> {
    let (magic, n) = db_type.magic();
    if !can_read(p, 0, n) {
        Err(refused(p, 0, n))
    } else if field(p.bytes(), 0, n) != magic {
        Err(Error::MagicMismatch)
    } else {
        source_of(p, db_type.rule())
    }
}

/// A database of titles or tickets, as a file system.
pub struct Db {
    pub diff: Diff<DbSigner>,
    pub archive: Archive,
    pub db_type: DbType,
}

/// What the container holds is what has been opened.
pub open spec fn db_seen(c: Container<DbSigner>, db_type: DbType, a: Archive) -> bool {
    &&& db_source(c.partitions@[0], db_type) == Ok::<Source, Error>(a.source)
    &&& mounted(c.partitions@, a.source, a.volume, a.store)
}

/// The database has been opened on a file.
pub open spec fn db_opened(s: Db, file: Seq<u8>) -> bool {
    exists|c: Container<DbSigner>| #[trigger]
        container_opened(c, file) && c.info == diff_info(ContainerInfo::header(file)) && db_seen(
            c,
            s.db_type,
            s.archive,
        ) && parts_same(c.partitions@, s.diff.inner.partitions@)
}

/// Opening a database fails with an error: that of the container, that of the header, or that
/// of the volume where the partition holds none.
pub open spec fn db_refused(
    file: Seq<u8>,
    db_type: DbType,
    signer: Option<(DbSigner, [u8; 16])>,
    e: Error,
) -> bool {
    if diff_error(file, signer) is Some {
        diff_error(file, signer) == Some(e)
    } else {
        exists|c: Container<DbSigner>| #[trigger]
            container_opened(c, file) && c.info == diff_info(ContainerInfo::header(file)) && (
            match db_source(c.partitions@[0], db_type) {
                Err(x) => x == e,
                Ok(src) => mount_refused(c.partitions@, src, e) && forall|u: Volume| !#[trigger] holds(
                    c.partitions@,
                    src,
                    u,
                ),
            })
    }
}

/// The file can be opened, and what opens holds the volume.
pub open spec fn db_stored(
    file: Seq<u8>,
    db_type: DbType,
    signer: Option<(DbSigner, [u8; 16])>,
    a: Archive,
) -> bool {
    &&& diff_error(file, signer) is None
    &&& forall|c: Container<DbSigner>| #[trigger]
        container_opened(c, file) && c.info == diff_info(ContainerInfo::header(file)) ==> db_source(
            c.partitions@[0],
            db_type,
        ) == Ok::<Source, Error>(a.source) && holds(c.partitions@, a.source, a.volume)
}

/// The file can be opened, and what opens holds the volume and can be stored again.
pub open spec fn db_kept(
    file: Seq<u8>,
    db_type: DbType,
    signer: Option<(DbSigner, [u8; 16])>,
    a: Archive,
) -> bool {
    &&& db_stored(file, db_type, signer, a)
    &&& forall|c: Container<DbSigner>| #[trigger]
        container_opened(c, file) && c.info == diff_info(ContainerInfo::header(file)) ==> a.settled(
            c.partitions@,
            db_type.rule(),
        )
}

/// Whether the partition of a container begins as that of a database does.
fn check_magic(c: &mut Container<DbSigner>, db_type: &DbType) -> (r: Result<(), Error>)
    requires
        old(c).inv(),
    ensures
        final(c).inv(),
        *final(c) == (Container { partitions: final(c).partitions, ..*old(c) }),
        parts_same(old(c).partitions@, final(c).partitions@),
        ({
            let p = old(c).partitions@[0];
            let (magic, n) = db_type.magic();
            r == if !can_read(p, 0, n) {
                Err::<(), Error>(refused(p, 0, n))
            } else if field(p.bytes(), 0, n) != magic {
                Err(Error::MagicMismatch)
            } else {
                Ok(())
            }
        }),
{
    let ghost a = *c;
    let ghost p = c.partitions@[0];
    let (magic, n) = db_type.get_magic();
    assert(a.partition_ok(0));
    proof {
        assert forall|k: int| 0 <= k < a.partitions@.len() implies (#[trigger] a.partitions@[k]).inv() by {
            assert(a.partition_ok(k));
        }
    }
    let found = c.partitions[0].load(0, n);
    proof {
        crate::archive::lemma_container_parts(a, *c);
    }
    match found {
        Ok(v) => {
            assert(v@.subrange(0, n as int) =~= v@);
            if read_le(&v, 0, n) != magic {
                return make_error(Error::MagicMismatch);
            }
            Ok(())
        },
        Err(e) => Err(e),
    }
}

impl Db {
    pub open spec fn inv(&self) -> bool {
        &&& self.diff.inv()
        &&& self.archive.volume.inv()
    }

    /// The volume is sound, and all of it has its place in the container.
    pub open spec fn settled(&self) -> bool {
        &&& self.diff.named()
        &&& self.archive.settled(self.diff.inner.partitions@, self.db_type.rule())
        &&& db_source(self.diff.inner.partitions@[0], self.db_type) == Ok::<Source, Error>(
            self.archive.source,
        )
    }

    /// Opens a database.
    pub fn new(file: Vec<u8>, db_type: DbType, key: Option<[u8; 16]>) -> (r: Result<Db, Error>)
        ensures
            db_open_gives(file@, db_type, key, r),
    {
        let ghost f = file@;
        let signer = match key {
            Some(k) => Some((DbSigner { id: db_type.id() }, k)),
            None => None,
        };
        let mut diff = match Diff::new(file, signer) {
            Ok(d) => d,
            Err(e) => {
                return make_error(e);
            },
        };
        let ghost d = diff;
        assert(container_opened(d.inner, f) && d.inner.info == diff_info(ContainerInfo::header(f)));
        if let Err(e) = check_magic(&mut diff.inner, &db_type) {
            return make_error(e);
        }
        let ghost m = diff;
        let rule = db_type.get_rule();
        let found = Archive::open(&mut diff.inner, &rule);
        match found {
            Ok(archive) => {
                proof {
                    let p0 = d.inner.partitions@;
                    let p1 = m.inner.partitions@;
                    let p2 = diff.inner.partitions@;
                    lemma_db_views(p0, p1, p2, db_type, archive);
                }
                Ok(Db { diff, archive, db_type })
            },
            Err(e) => {
                proof {
                    let p0 = d.inner.partitions@;
                    let p1 = m.inner.partitions@;
                    assert(same_file(p0[0], p1[0]));
                    lemma_source_same(p0[0], p1[0], rule);
                    assert forall|src: Source, u: Volume| #[trigger]
                        holds(p0, src, u) implies holds(p1, src, u) by {
                        lemma_views_same(p0, p1, src);
                    }
                    assert forall|src: Source, x: Error| #[trigger]
                        mount_refused(p1, src, x) implies mount_refused(p0, src, x) by {
                        lemma_views_same(p0, p1, src);
                    }
                }
                Err(e)
            },
        }
    }

    /// Stores everything that has been changed.
    pub fn commit(&mut self) -> (r: Result<(), Error>)
        requires
            old(self).inv(),
        ensures
            final(self).inv(),
            final(self).db_type == old(self).db_type,
            final(self).diff.inner.header.signer() == old(self).diff.inner.header.signer(),
            old(self).settled() ==> {
                &&& r == Ok::<(), Error>(())
                &&& final(self).settled()
                &&& files_as_before(old(self).archive.volume, final(self).archive.volume)
                &&& old(self).archive.volume.sound() ==> final(self).archive.volume.sound()
                &&& db_kept(
                    final(self).diff.inner.file@,
                    final(self).db_type,
                    final(self).diff.inner.header.signer(),
                    final(self).archive,
                )
            },
    {
        let ghost d = self.diff;
        let ghost a = self.archive;
        let ghost rule = self.db_type.rule();
        let r = self.archive.commit(&mut self.diff.inner);
        proof {
            if old(self).settled() {
                lemma_still_named(d, self.diff);
                lemma_magic_kept(
                    d.inner.partitions@[0],
                    self.diff.inner.partitions@[0],
                    self.db_type,
                );
                lemma_db_stored(*self);
            }
        }
        r
    }
}

proof fn lemma_source_same<F: Content>(p: F, q: F, rule: ImageRule)
    requires
        same_file(p, q),
    ensures
        source_of(q, rule) == source_of(p, rule),
{
    crate::archive::lemma_can_read_same(p, q);
}

/// What has been opened after a look at the partition is what the partition holds.
proof fn lemma_db_views(
    p0: Seq<DifiPartition>,
    p1: Seq<DifiPartition>,
    p2: Seq<DifiPartition>,
    db_type: DbType,
    a: Archive,
)
    requires
        p0.len() == 1,
        parts_same(p0, p1),
        parts_same(p1, p2),
        source_of(p1[0], db_type.rule()) == Ok::<Source, Error>(a.source),
    ensures
        parts_same(p0, p2),
        source_of(p0[0], db_type.rule()) == Ok::<Source, Error>(a.source),
        mounted(p1, a.source, a.volume, a.store) ==> mounted(p0, a.source, a.volume, a.store),
        forall|u: Volume| #[trigger] holds(p0, a.source, u) ==> holds(p1, a.source, u),
        told(a.source, a.volume, a.store, p1) ==> told(a.source, a.volume, a.store, p2),
        shown_as(p1, a.source, a.volume) ==> shown_as(p2, a.source, a.volume),
{
    assert(same_file(p0[0], p1[0]));
    assert(same_file(p1[0], p2[0]));
    lemma_source_same(p1[0], p0[0], db_type.rule());
    lemma_views_same(p0, p1, a.source);
    lemma_views_back(p1, p2, a.source);
    assert(p1[0].shape() == p0[0].shape());
    assert(p2[0].shape() == p1[0].shape());
}

/// The first bytes of the partition stay where what is in front of the archive does.
proof fn lemma_magic_kept(p: DifiPartition, q: DifiPartition, db_type: DbType)
    requires
        front_kept(p, q, db_type.pre_len() as int),
        db_source(p, db_type) is Ok,
    ensures
        can_read(q, 0, db_type.magic().1),
        field(q.bytes(), 0, db_type.magic().1) == db_type.magic().0,
{
    let n = db_type.magic().1;
    assert(p.bytes().subrange(0, n) =~= q.bytes().subrange(0, n));
    assert forall|i: int| 0 <= i < n implies #[trigger] q.readable(i) by {
        assert(p.readable(i));
    }
}

/// What has been committed can be opened again.
proof fn lemma_db_stored(d: Db)
    requires
        d.inv(),
        d.settled(),
        d.diff.inner.committed(),
        holds(d.diff.inner.partitions@, d.archive.source, d.archive.volume),
    ensures
        db_kept(d.diff.inner.file@, d.db_type, d.diff.inner.header.signer(), d.archive),
{
    let f = d.diff.inner.file@;
    let rule = d.db_type.rule();
    law_diff_reopen(d.diff, d.diff);
    assert forall|c: Container<DbSigner>| #[trigger]
        container_opened(c, f) && c.info == diff_info(ContainerInfo::header(f)) implies db_source(
        c.partitions@[0],
        d.db_type,
    ) == Ok::<Source, Error>(d.archive.source) && holds(
        c.partitions@,
        d.archive.source,
        d.archive.volume,
    ) && d.archive.settled(c.partitions@, rule) by {
        let g = Diff { inner: c, unique_id: d.diff.unique_id };
        law_diff_reopen(d.diff, g);
        let p = d.diff.inner.partitions@;
        let q = c.partitions@;
        law_archive_reopen(d.archive, p, q, rule);
        crate::archive::lemma_can_read_same(p[0], q[0]);
    }
}

/// What opening a database gives: the archive that the file holds, or an error that says why the
/// file holds none.
pub open spec fn db_open_gives(
    file: Seq<u8>,
    t: DbType,
    key: Option<[u8; 16]>,
    r: Result<Db, Error>,
) -> bool {
    &&& r matches Ok(s) ==> {
        &&& s.inv()
        &&& s.db_type == t
        &&& s.diff.named()
        &&& s.diff.inner.header.signer() == db_signer(t, key)
        &&& db_opened(s, file)
    }
    &&& r matches Err(e) ==> db_refused(file, t, db_signer(t, key), e)
    &&& forall|a: Archive| #[trigger]
        db_stored(file, t, db_signer(t, key), a) ==> (r matches Ok(s) && s.archive.source
            == a.source && s.archive.volume.framed() && s.archive.store.ready(s.archive.volume)
            && told(
            a.source,
            s.archive.volume,
            s.archive.store,
            s.diff.inner.partitions@,
        ) && shown_as(s.diff.inner.partitions@, a.source, s.archive.volume))
}

/// A database that has been committed reads back when it is opened again: it has the same
/// directories and files, and each file reads as it did before the commit, as far as the data area
/// is stored. What is behind reads as zeros.
pub proof fn law_db_reads_back(
    before: Archive,
    a: Archive,
    file: Seq<u8>,
    t: DbType,
    key: Option<[u8; 16]>,
    s: Db,
)
    requires
        before.volume.sound(),
        a.volume.sound(),
        files_as_before(before.volume, a.volume),
        db_stored(file, t, db_signer(t, key), a),
        db_open_gives(file, t, key, Ok(s)),
    ensures
        reads_back_to(before.volume, s.archive.volume, s.archive.store.data_len as int),
        before.volume.data.bytes().len() <= s.archive.store.data_len ==> reads_back(
            before.volume,
            s.archive.volume,
        ),
{
    let c = choose|c: Container<DbSigner>| #[trigger]
        container_opened(c, file) && c.info == diff_info(ContainerInfo::header(file)) && db_seen(
            c,
            s.db_type,
            s.archive,
        ) && parts_same(c.partitions@, s.diff.inner.partitions@);
    lemma_views_same(c.partitions@, s.diff.inner.partitions@, a.source);
    law_held_volume_reads_back(
        c.partitions@,
        a.source,
        a.volume,
        s.archive.volume,
        s.archive.store,
    );
    let n = s.archive.store.data_len as int;
    lemma_read_back_before(before.volume, a.volume, s.archive.volume, n);
    if before.volume.data.bytes().len() <= n {
        lemma_reads_back_whole(before.volume, s.archive.volume, n);
    }
}

/// A database that holds a volume can be changed and stored once it is opened, where no part of the
/// volume lies over another one or over the header.
pub proof fn law_held_db_is_settled(
    a: Archive,
    file: Seq<u8>,
    t: DbType,
    key: Option<[u8; 16]>,
    s: Db,
)
    requires
        db_stored(file, t, db_signer(t, key), a),
        db_open_gives(file, t, key, Ok(s)),
        s.archive.store.apart(s.archive.volume),
        head_apart(s.archive, s.diff.inner.partitions@[0], t.rule()),
    ensures
        s.settled(),
{
    let c = choose|c: Container<DbSigner>| #[trigger]
        container_opened(c, file) && c.info == diff_info(ContainerInfo::header(file)) && db_seen(
            c,
            s.db_type,
            s.archive,
        ) && parts_same(c.partitions@, s.diff.inner.partitions@);
    let p = c.partitions@;
    let q = s.diff.inner.partitions@;
    assert(same_file(p[0], q[0]));
    crate::archive::lemma_can_read_same(p[0], q[0]);
    law_held_archive_is_settled(s.archive, q, t.rule());
}

/// A database that has been committed can be changed and stored again once it is opened.
pub proof fn law_opened_db_is_settled(
    a: Archive,
    file: Seq<u8>,
    t: DbType,
    key: Option<[u8; 16]>,
    s: Db,
)
    requires
        db_kept(file, t, db_signer(t, key), a),
        db_open_gives(file, t, key, Ok(s)),
    ensures
        s.settled(),
{
    let c = choose|c: Container<DbSigner>| #[trigger]
        container_opened(c, file) && c.info == diff_info(ContainerInfo::header(file)) && db_seen(
            c,
            s.db_type,
            s.archive,
        ) && parts_same(c.partitions@, s.diff.inner.partitions@);
    let p = c.partitions@;
    let q = s.diff.inner.partitions@;
    lemma_settled_same(a, p, q, t.rule());
    lemma_opened_settled(a, s.archive, q, t.rule());
    assert(same_file(p[0], q[0]));
    crate::archive::lemma_can_read_same(p[0], q[0]);
}

} // verus!
