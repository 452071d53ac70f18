use crate::container::Container;
use crate::difi_partition::DifiPartition;
use crate::error::{make_error, Error};
use crate::fields::Packer;
use crate::fs_info::{fs_info_bytes, read_fs_info, FS_INFO_LEN};
use crate::fs_meta::MetaLayout;
use crate::little_endian::read_le;
use crate::random_access_file::{Content, RandomAccessFile};
use crate::signed_file::Signer;
use crate::volume::Volume;
use crate::volume_store::{Source, Store};
use vstd::prelude::*;

verus! {

use crate::container::{heads_alike, kept, lead_kept};
use crate::container::zeros;
use crate::fields::{
    field, lemma_field, lemma_field_in, lemma_field_same, lemma_packed_len, lemma_pow256, packed, start, Fields,
};
use crate::fs_info::fs_info_at;
use crate::random_access_file::{can_read, refused, same_file};
use crate::volume::fixed;
use crate::volume::lemma_list;
use crate::volume_more::more_to;
use crate::volume_store::{
    covered, files_as_before, holds, holds_sound, kept_outside, law_flushed_volume_is_held, lemma_holds_same, mount_refused,
    lemma_views_same, mounted, parts_inv, parts_kept, parts_more, parts_same, shown_as, stored, told,
};

/// What the first partition of an archive begins with.
#[derive(Clone, Copy, PartialEq, Eq, Structural, Debug)]
pub struct ImageRule {
    /// Where the header is. Offsets are counted from there.
    pub base: u64,
    pub header_len: usize,
    /// The first four bytes of the header as a number.
    pub magic: u64,
    pub version: u64,
    pub layout: MetaLayout,
    /// Whether the data area may end after the partition does.
    pub cut_off: bool,
}

impl ImageRule {
    pub open spec fn ok(&self) -> bool {
        &&& 0x10 <= self.header_len <= 0x1000
        &&& self.base <= 0x1000
        &&& self.layout.short()
        &&& self.layout.file_info_len >= 20
    }
}

/// Where the volume is according to the header, or the error for a header that is not right.
pub open spec fn source_of<F: Content>(p: F, rule: ImageRule) -> Result<Source, Error> {
    let d = p.bytes();
    let b = rule.base as int;
    if !can_read(p, b, rule.header_len as int) {
        Err(refused(p, b, rule.header_len as int))
    } else if field(d, b, 4) != rule.magic || field(d, b + 4, 4) != rule.version {
        Err(Error::MagicMismatch)
    } else {
        let at = b + field(d, b + 8, 8);
        if !can_read(p, at, FS_INFO_LEN as int) {
            Err(refused(p, at, FS_INFO_LEN as int))
        } else {
            Ok(
                Source {
                    info: fs_info_at(d.subrange(at, at + FS_INFO_LEN), 0),
                    layout: rule.layout,
                    base: rule.base,
                    cut_off: rule.cut_off,
                },
            )
        }
    }
}

/// The same partition has the same header.
pub proof fn lemma_source_kept<F: Content, G: Content>(p: F, q: G, rule: ImageRule, skip: Set<int>)
    requires
        rule.ok(),
        source_of(p, rule) is Ok,
        q.bytes().len() == p.bytes().len(),
        forall|i: int| p.readable(i) ==> #[trigger] q.readable(i),
        forall|i: int|
            0 <= i < p.bytes().len() && !skip.contains(i) ==> #[trigger] q.bytes()[i] == p.bytes()[i],
        forall|i: int| #[trigger] skip.contains(i) ==> !in_head(p, rule, i),
    ensures
        source_of(q, rule) == source_of(p, rule),
{
    let b = rule.base as int;
    let n = rule.header_len as int;
    let d = p.bytes();
    let e = q.bytes();
    assert forall|i: int| in_head(p, rule, i) implies #[trigger] e[i] == d[i] by {
        assert(!skip.contains(i));
    }
    assert forall|i: int| b <= i < b + n implies #[trigger] q.readable(i) by {
        assert(p.readable(i));
    }
    assert(d.subrange(b, b + n) =~= e.subrange(b, b + n));
    lemma_field_same(d, e, b, b + n, b, 4);
    lemma_field_same(d, e, b, b + n, b + 4, 4);
    lemma_field_same(d, e, b, b + n, b + 8, 8);
    let at = b + field(d, b + 8, 8);
    assert forall|i: int| at <= i < at + FS_INFO_LEN implies #[trigger] q.readable(i) by {
        assert(p.readable(i));
    }
    assert(d.subrange(at, at + FS_INFO_LEN) =~= e.subrange(at, at + FS_INFO_LEN));
}

/// The positions of the header and of the info on the volume.
pub open spec fn in_head<F: Content>(p: F, rule: ImageRule, i: int) -> bool {
    let b = rule.base as int;
    let at = b + field(p.bytes(), b + 8, 8);
    b <= i < b + rule.header_len || at <= i < at + FS_INFO_LEN
}

fn read_source(parts: &mut Vec<DifiPartition>, rule: &ImageRule) -> (r: Result<Source, Error>)
    requires
        parts_inv(old(parts)@),
        1 <= old(parts)@.len(),
        rule.ok(),
    ensures
        parts_same(old(parts)@, final(parts)@),
        r == source_of(old(parts)@[0], *rule),
{
    let ghost p0 = parts@;
    let ghost d = p0[0].bytes();
    let b: usize = rule.base as usize;
    let header = match parts[0].load(b, rule.header_len) {
        Ok(h) => h,
        Err(e) => {
            return make_error(e);
        },
    };
    let ghost p1 = parts@;
    let ghost n = rule.header_len as int;
    proof {
        lemma_field_in(d, b as int, b + n, b as int, 4);
        lemma_field_in(d, b as int, b + n, b + 4, 4);
        lemma_field_in(d, b as int, b + n, b + 8, 8);
    }
    if read_le(&header, 0, 4) != rule.magic || read_le(&header, 4, 4) != rule.version {
        return make_error(Error::MagicMismatch);
    }
    let offset: u64 = read_le(&header, 8, 8);
    let total: usize = parts[0].len();
    if offset > total as u64 {
        return make_error(Error::OutOfBound);
    }
    if b > usize::MAX - offset as usize {
        return make_error(Error::OutOfBound);
    }
    let at: usize = b + offset as usize;
    let data = match parts[0].load(at, FS_INFO_LEN) {
        Ok(h) => h,
        Err(e) => {
            return make_error(e);
        },
    };
    let info = read_fs_info(&data, 0);
    assert(parts@[0].shape() == p0[0].shape());
    assert(same_file(p0[0], p1[0]));
    assert(at == b + field(d, b + 8, 8));
    assert(data@ == d.subrange(at as int, at + FS_INFO_LEN));
    assert(can_read(p0[0], at as int, FS_INFO_LEN as int)) by {
        assert forall|i: int| at <= i < at + FS_INFO_LEN implies #[trigger] p0[0].readable(i) by {
            assert(p1[0].readable(i));
        }
    }
    Ok(Source { info, layout: rule.layout, base: rule.base, cut_off: rule.cut_off })
}

/// The volume of an archive, and where it is stored.
pub struct Archive {
    pub volume: Volume,
    pub store: Store,
    pub source: Source,
}

/// No part of the volume is where the header is.
pub open spec fn head_apart(a: Archive, p: DifiPartition, rule: ImageRule) -> bool {
    forall|i: int| #[trigger] covered(a.store.ranges(a.volume), i) ==> !in_head(p, rule, i)
}

impl Archive {
    /// The volume is sound and has its place in the partitions.
    pub open spec fn settled(&self, parts: Seq<DifiPartition>, rule: ImageRule) -> bool {
        &&& self.volume.framed()
        &&& self.store.ready(self.volume)
        &&& told(self.source, self.volume, self.store, parts)
        &&& self.store.apart(self.volume)
        &&& self.store.tables_below(self.volume)
        &&& source_of(parts[0], rule) == Ok::<Source, Error>(self.source)
        &&& head_apart(*self, parts[0], rule)
    }
}

proof fn lemma_settled_room(a: Archive, parts: Seq<DifiPartition>, rule: ImageRule)
    requires
        a.settled(parts, rule),
    ensures
        a.store.room(a.volume, parts),
{
    let g = a.store.ranges(a.volume);
    let n = parts[0].bytes().len();
    assert(g[0].0 + g[0].1 <= n);
    assert(g[1].0 + g[1].1 <= n);
    assert(g[2].0 + g[2].1 <= n);
    assert(g[3].0 + g[3].1 <= n);
    assert(g[4].0 + g[4].1 <= n);
    assert(g[5].0 + g[5].1 <= n);
    assert forall|k: int| 0 <= k < 6 implies (#[trigger] g[k]).0 + g[k].1 <= n by {
        if k == 0 || k == 1 || k == 2 || k == 3 || k == 4 || k == 5 {
        }
    }
}

/// A container in which partitions have been replaced by others of the same shape.
pub proof fn lemma_container_parts<S: Signer>(a: Container<S>, b: Container<S>)
    requires
        a.inv(),
        b == (Container { partitions: b.partitions, ..a }),
        b.partitions@.len() == a.partitions@.len(),
        forall|k: int|
            0 <= k < a.partitions@.len() ==> (#[trigger] b.partitions@[k]).inv()
                && b.partitions@[k].shape() == a.partitions@[k].shape(),
    ensures
        b.inv(),
{
    assert forall|k: int| 0 <= k < b.partitions@.len() implies #[trigger] b.partition_ok(k) by {
        assert(a.partition_ok(k));
    }
}

impl Archive {
    /// Opens the volume of a container.
    pub fn open<S: Signer>(c: &mut Container<S>, rule: &ImageRule) -> (r: Result<Archive, Error>)
        requires
            old(c).inv(),
            rule.ok(),
        ensures
            final(c).inv(),
            *final(c) == (Container { partitions: final(c).partitions, ..*old(c) }),
            parts_same(old(c).partitions@, final(c).partitions@),
            match source_of(old(c).partitions@[0], *rule) {
                Err(e) => r == Err::<Archive, Error>(e),
                Ok(src) => {
                    &&& r matches Ok(a) ==> a.source == src && mounted(
                        old(c).partitions@,
                        src,
                        a.volume,
                        a.store,
                    )
                    &&& src.info.data_block_count != src.info.fat_size ==> r == Err::<
                        Archive,
                        Error,
                    >(Error::SizeMismatch)
                    &&& r matches Err(e) ==> mount_refused(old(c).partitions@, src, e)
                    &&& forall|u: Volume| #[trigger]
                        holds(old(c).partitions@, src, u) ==> (r matches Ok(a) && a.volume.framed()
                            && a.store.ready(a.volume) && shown_as(
                            old(c).partitions@,
                            src,
                            a.volume,
                        ) && told(src, a.volume, a.store, old(c).partitions@))
                },
            },
    {
        let ghost a = *c;
        let ghost p0 = c.partitions@;
        proof {
            assert forall|k: int| 0 <= k < p0.len() implies (#[trigger] p0[k]).inv() by {
                assert(a.partition_ok(k));
            }
        }
        let source = match read_source(&mut c.partitions, rule) {
            Ok(s) => s,
            Err(e) => {
                proof {
                    lemma_container_parts(a, *c);
                }
                return make_error(e);
            },
        };
        let ghost p1 = c.partitions@;
        let found = Volume::mount(&mut c.partitions, &source);
        proof {
            let p2 = c.partitions@;
            assert forall|k: int| 0 <= k < p0.len() implies (#[trigger] p2[k]).inv() && same_file(
                p0[k],
                p2[k],
            ) && p2[k].shape() == p0[k].shape() by {
                assert(same_file(p0[k], p1[k]));
                assert(p1[k].shape() == p0[k].shape());
            }
            lemma_container_parts(a, *c);
            lemma_views_same(p0, p1, source);
        }
        match found {
            Ok((volume, store)) => Ok(Archive { volume, store, source }),
            Err(e) => Err(e),
        }
    }

    /// Stores the volume in its container.
    pub fn commit<S: Signer>(&mut self, c: &mut Container<S>) -> (r: Result<(), Error>)
        requires
            old(self).volume.inv(),
            old(c).inv(),
        ensures
            final(self).volume.inv(),
            final(self).volume.fs == old(self).volume.fs,
            final(self).store == old(self).store,
            final(self).source == old(self).source,
            final(c).inv(),
            final(c).info == old(c).info,
            final(c).header.signer() == old(c).header.signer(),
            heads_alike(
                old(c).info,
                old(c).header.bytes(),
                final(c).header.bytes(),
            ),
            r is Ok ==> final(c).committed(),
            final(c).file@.len() == old(c).file@.len(),
            lead_kept(old(c).header.signer() is Some, old(c).file@, final(c).file@),
            forall|rule: ImageRule|
                rule.ok() && #[trigger] old(self).settled(old(c).partitions@, rule) ==> {
                    &&& r == Ok::<(), Error>(())
                    &&& files_as_before(old(self).volume, final(self).volume)
                    &&& old(self).volume.sound() ==> final(self).volume.sound()
                    &&& final(self).settled(final(c).partitions@, rule)
                    &&& holds(final(c).partitions@, final(self).source, final(self).volume)
                    &&& front_kept(
                        old(c).partitions@[0],
                        final(c).partitions@[0],
                        old(self).source.base as int,
                    )
                    &&& head_kept(old(c).partitions@[0], final(c).partitions@[0], rule)
                },
    {
        let ghost a = *self;
        let ghost b = *c;
        let ghost p0 = c.partitions@;
        proof {
            assert forall|k: int| 0 <= k < p0.len() implies (#[trigger] p0[k]).inv() by {
                assert(b.partition_ok(k));
            }
            assert forall|rule: ImageRule| #[trigger] a.settled(p0, rule) implies a.store.room(
                a.volume,
                p0,
            ) by {
                lemma_settled_room(a, p0, rule);
            }
        }
        let flushed = self.volume.flush(&mut c.partitions, &self.store);
        let ghost p1 = c.partitions@;
        proof {
            lemma_container_parts(b, *c);
        }
        if let Err(e) = flushed {
            return make_error(e);
        }
        if let Err(e) = c.commit() {
            return make_error(e);
        }
        proof {
            let p2 = c.partitions@;
            assert forall|rule: ImageRule| rule.ok() && #[trigger] a.settled(p0, rule) implies {
                &&& self.settled(p2, rule)
                &&& holds(p2, self.source, self.volume)
                &&& front_kept(p0[0], p2[0], a.source.base as int)
                &&& head_kept(p0[0], p2[0], rule)
            } by {
                lemma_committed_archive(a, *self, p0, p1, p2, rule);
                lemma_front_kept(a, p0, p1, p2, rule);
            }
        }
        Ok(())
    }
}

/// What is in front of the archive is as it was.
pub open spec fn front_kept(p: DifiPartition, q: DifiPartition, n: int) -> bool {
    &&& q.bytes().len() == p.bytes().len()
    &&& forall|i: int|
        0 <= i < n && i < p.bytes().len() ==> #[trigger] q.bytes()[i] == p.bytes()[i]
    &&& forall|i: int| 0 <= i < n && p.readable(i) ==> #[trigger] q.readable(i)
}

/// The header of the archive is as it was.
pub open spec fn head_kept(p: DifiPartition, q: DifiPartition, rule: ImageRule) -> bool {
    let b = rule.base as int;
    forall|i: int|
        b <= i < b + rule.header_len && i < p.bytes().len() ==> #[trigger] q.bytes()[i]
            == p.bytes()[i]
}

/// No part of an archive is in front of it, or in its header.
proof fn lemma_front_kept(
    a: Archive,
    p0: Seq<DifiPartition>,
    p1: Seq<DifiPartition>,
    p2: Seq<DifiPartition>,
    rule: ImageRule,
)
    requires
        a.settled(p0, rule),
        parts_kept(p0, p1),
        kept_outside(p0[0], p1[0], a.store.ranges(a.volume)),
        parts_more(p1, p2),
    ensures
        front_kept(p0[0], p2[0], a.source.base as int),
        head_kept(p0[0], p2[0], rule),
{
    let r = a.store.ranges(a.volume);
    let n = a.source.base as int;
    assert(kept(p1[0], p2[0]));
    assert forall|i: int| 0 <= i < n implies !#[trigger] covered(r, i) by {
        if covered(r, i) {
            let k = choose|k: int| 0 <= k < r.len() && (#[trigger] r[k]).0 <= i < r[k].0 + r[k].1;
            assert(r[k].0 <= i < r[k].0 + r[k].1);
            assert(0 <= k < 6);
        }
    }
    assert forall|i: int| 0 <= i < n && i < p0[0].bytes().len() implies #[trigger] p2[0].bytes()[i]
        == p0[0].bytes()[i] by {
        assert(!covered(r, i));
        assert(p1[0].bytes()[i] == p0[0].bytes()[i]);
    }
    assert forall|i: int|
        rule.base <= i < rule.base + rule.header_len && i
            < p0[0].bytes().len() implies #[trigger] p2[0].bytes()[i] == p0[0].bytes()[i] by {
        assert(in_head(p0[0], rule, i));
        assert(!covered(r, i));
        assert(p1[0].bytes()[i] == p0[0].bytes()[i]);
    }
    assert forall|i: int| 0 <= i < n && p0[0].readable(i) implies #[trigger] p2[0].readable(i) by {
        assert(!covered(r, i));
        assert(p1[0].readable(i));
    }
}

proof fn lemma_committed_archive(
    a: Archive,
    b: Archive,
    p0: Seq<DifiPartition>,
    p1: Seq<DifiPartition>,
    p2: Seq<DifiPartition>,
    rule: ImageRule,
)
    requires
        rule.ok(),
        a.settled(p0, rule),
        b.store == a.store,
        b.source == a.source,
        b.volume.framed(),
        files_as_before(a.volume, b.volume),
        b.store.written(b.volume),
        parts_kept(p0, p1),
        kept_outside(p0[0], p1[0], a.store.ranges(a.volume)),
        stored(b.volume, b.store, p1),
        parts_more(p1, p2),
    ensures
        b.settled(p2, rule),
        holds(p2, b.source, b.volume),
{
    let r = a.store.ranges(a.volume);
    assert(b.store.ranges(b.volume) == r);
    let skip = Set::new(|i: int| covered(r, i));
    lemma_source_kept(p0[0], p1[0], rule, skip);
    assert(kept(p1[0], p2[0]));
    lemma_source_kept(p1[0], p2[0], rule, Set::empty());
    assert(p2.len() == p0.len());
    assert(p1[a.store.data_part as int].bytes().len() == p0[a.store.data_part as int].bytes().len());
    assert(kept(p1[a.store.data_part as int], p2[a.store.data_part as int]));
    assert(p1[0].bytes().len() == p0[0].bytes().len());
    assert(told(b.source, b.volume, b.store, p1));
    assert(told(b.source, b.volume, b.store, p2));
    assert(b.store.ready(b.volume));
    assert(b.store.apart(b.volume));
    assert(head_apart(b, p2[0], rule)) by {
        let n = rule.header_len as int;
        let at = rule.base as int;
        assert(p0[0].bytes().subrange(at, at + n) =~= p2[0].bytes().subrange(at, at + n)) by {
            assert forall|i: int| at <= i < at + n implies p2[0].bytes()[i] == p0[0].bytes()[i] by {
                assert(in_head(p0[0], rule, i));
                assert(!covered(r, i));
                assert(p1[0].bytes()[i] == p0[0].bytes()[i]);
            }
        }
        lemma_field_same(p0[0].bytes(), p2[0].bytes(), at, at + n, at + 8, 8);
    }
    law_flushed_volume_is_held(b.source, b.volume, b.store, p1, p2);
}

/// The fields that every header begins with.
pub open spec fn head_fields(rule: ImageRule, image_size: u64, block_len: u32) -> Fields {
    seq![
        (rule.magic as nat, 4),
        (rule.version as nat, 4),
        (rule.header_len as nat, 8),
        (image_size as nat, 8),
        (block_len as nat, 4),
    ]
}

/// A new header. The info on the volume is behind it.
#[verifier::opaque]
pub open spec fn image_head(rule: ImageRule, image_size: u64, block_len: u32) -> Seq<u8> {
    packed(head_fields(rule, image_size, block_len)) + zeros((rule.header_len - 0x1C) as nat)
}

proof fn lemma_image_head(rule: ImageRule, image_size: u64, block_len: u32)
    requires
        rule.ok(),
        rule.header_len >= 0x1C,
        rule.magic <= u32::MAX,
        rule.version <= u32::MAX,
    ensures
        ({
            let h = image_head(rule, image_size, block_len);
            &&& h.len() == rule.header_len
            &&& field(h, 0, 4) == rule.magic
            &&& field(h, 4, 4) == rule.version
            &&& field(h, 8, 8) == rule.header_len
        }),
{
    reveal(image_head);
    let f = head_fields(rule, image_size, block_len);
    let h = image_head(rule, image_size, block_len);
    lemma_pow256();
    assert(start(f, 0) == 0);
    assert(start(f, 1) == 4);
    assert(start(f, 2) == 8);
    assert(start(f, 3) == 16);
    assert(start(f, 4) == 24);
    assert(start(f, 5) == 28);
    lemma_packed_len(f);
    lemma_field(f, 0);
    lemma_field(f, 1);
    lemma_field(f, 2);
    assert(h.subrange(0, 0x1C) =~= packed(f));
    lemma_field_in(h, 0, 0x1C, 0, 4);
    lemma_field_in(h, 0, 0x1C, 4, 4);
    lemma_field_in(h, 0, 0x1C, 8, 8);
}

impl Archive {
    /// Writes a header and the info on the volume to the first partition.
    fn write_head(
        parts: &mut Vec<DifiPartition>,
        rule: &ImageRule,
        image_size: u64,
        source: &Source,
    ) -> (r: Result<(), Error>)
        requires
            parts_inv(old(parts)@),
            1 <= old(parts)@.len(),
            rule.ok(),
            rule.header_len >= 0x1C,
            rule.magic <= u32::MAX,
            rule.version <= u32::MAX,
            source.layout == rule.layout,
            source.base == rule.base,
            source.cut_off == rule.cut_off,
            rule.base + rule.header_len + FS_INFO_LEN <= old(parts)@[0].bytes().len(),
        ensures
            r == Ok::<(), Error>(()),
            parts_kept(old(parts)@, final(parts)@),
            forall|k: int| 1 <= k < old(parts)@.len() ==> #[trigger] final(parts)@[k] == old(parts)@[k],
            source_of(final(parts)@[0], *rule) == Ok::<Source, Error>(*source),
            final(parts)@[0].bytes().subrange(rule.base as int, rule.base + rule.header_len)
                == image_head(*rule, image_size, source.info.block_len),
            forall|i: int|
                in_head(final(parts)@[0], *rule, i) ==> rule.base <= i < rule.base + rule.header_len
                    + FS_INFO_LEN,
    {
        let ghost p0 = parts@;
        let mut k = Packer::new();
        k.put(rule.magic, 4);
        k.put(rule.version, 4);
        k.put(rule.header_len as u64, 8);
        k.put(image_size, 8);
        k.put(source.info.block_len as u64, 4);
        assert(k.fields@ =~= head_fields(*rule, image_size, source.info.block_len));
        let mut out = k.out;
        proof {
            reveal(image_head);
            lemma_image_head(*rule, image_size, source.info.block_len);
            lemma_packed_len(k.fields@);
            let f = k.fields@;
            assert(start(f, 0) == 0);
            assert(start(f, 1) == 4);
            assert(start(f, 2) == 8);
            assert(start(f, 3) == 16);
            assert(start(f, 4) == 24);
            assert(start(f, 5) == 28);
        }
        let rest_len: usize = rule.header_len - 0x1C;
        let mut rest: Vec<u8> = vec![0u8; rest_len];
        assert(rest@ =~= zeros((rule.header_len - 0x1C) as nat));
        out.append(&mut rest);
        let ghost h = image_head(*rule, image_size, source.info.block_len);
        assert(out@ == h);
        let mut info = fs_info_bytes(&source.info);
        let ghost g = info@;
        out.append(&mut info);
        let b: usize = rule.base as usize;
        let _n: usize = parts[0].len();
        if let Err(e) = parts[0].write(b, &out) {
            return make_error(e);
        }
        proof {
            let p = parts@[0];
            let d = p.bytes();
            let n = rule.header_len as int;
            assert(d.subrange(b as int, b + n) =~= h);
            lemma_field_in(d, b as int, b + n, b as int, 4);
            lemma_field_in(d, b as int, b + n, b + 4, 4);
            lemma_field_in(d, b as int, b + n, b + 8, 8);
            assert(d.subrange(b + n, b + n + FS_INFO_LEN) =~= g);
            assert(can_read(p, b as int, n));
            assert(can_read(p, b + n, FS_INFO_LEN as int));
            assert forall|k: int| 0 <= k < p0.len() implies (#[trigger] parts@[k]).inv()
                && parts@[k].shape() == p0[k].shape() && parts@[k].bytes().len()
                == p0[k].bytes().len() by {}
        }
        Ok(())
    }

    /// Stores a new volume in a container that has just been made.
    pub fn create<S: Signer>(
        &mut self,
        c: &mut Container<S>,
        rule: &ImageRule,
        image_size: u64,
    ) -> (r: Result<(), Error>)
        requires
            old(c).inv(),
            rule.ok(),
            rule.header_len >= 0x1C,
            rule.magic <= u32::MAX,
            rule.version <= u32::MAX,
            old(self).source.layout == rule.layout,
            old(self).source.base == rule.base,
            old(self).source.cut_off == rule.cut_off,
            rule.base + rule.header_len + FS_INFO_LEN <= old(c).partitions@[0].bytes().len(),
            old(self).volume.framed(),
            old(self).store.ready(old(self).volume),
            told(old(self).source, old(self).volume, old(self).store, old(c).partitions@),
            old(self).store.apart(old(self).volume),
            old(self).volume.data.data@.len() <= old(self).store.data_len,
            forall|i: int| #[trigger]
                covered(old(self).store.ranges(old(self).volume), i) ==> !(rule.base <= i < rule.base
                    + rule.header_len + FS_INFO_LEN),
        ensures
            r == Ok::<(), Error>(()),
            final(c).inv(),
            final(c).committed(),
            final(c).info == old(c).info,
            final(c).file@.len() == old(c).file@.len(),
            final(c).header.signer() == old(c).header.signer(),
            heads_alike(
                old(c).info,
                old(c).header.bytes(),
                final(c).header.bytes(),
            ),
            final(self).store == old(self).store,
            final(self).source == old(self).source,
            files_as_before(old(self).volume, final(self).volume),
            old(self).volume.sound() ==> final(self).volume.sound(),
            final(self).settled(final(c).partitions@, *rule),
            holds(final(c).partitions@, final(self).source, final(self).volume),
            final(c).partitions@[0].bytes().len() == old(c).partitions@[0].bytes().len(),
            final(c).partitions@[0].bytes().subrange(rule.base as int, rule.base + rule.header_len)
                == image_head(*rule, image_size, final(self).source.info.block_len),
    {
        let ghost b = *c;
        let ghost p0 = c.partitions@;
        proof {
            assert forall|k: int| 0 <= k < p0.len() implies (#[trigger] p0[k]).inv() by {
                assert(b.partition_ok(k));
            }
        }
        let wrote = Archive::write_head(&mut c.partitions, rule, image_size, &self.source);
        proof {
            lemma_container_parts(b, *c);
            let p1 = c.partitions@;
            assert(p1[0].bytes().len() == p0[0].bytes().len());
            assert(p1[self.store.data_part as int].bytes().len()
                == p0[self.store.data_part as int].bytes().len());
            assert(told(self.source, self.volume, self.store, p1));
            assert(head_apart(*self, p1[0], *rule)) by {
                assert forall|i: int| #[trigger]
                    covered(self.store.ranges(self.volume), i) implies !in_head(p1[0], *rule, i) by {}
            }
            if p0.len() == 1 {
                lemma_list(self.volume, -1);
                lemma_list(self.volume, -2);
            }
            assert(self.settled(p1, *rule));
        }
        if let Err(e) = wrote {
            return make_error(e);
        }
        let ghost q = c.partitions@[0];
        let r = self.commit(c);
        proof {
            let from = rule.base as int;
            let to = rule.base + rule.header_len;
            assert(head_kept(q, c.partitions@[0], *rule));
            assert(front_kept(q, c.partitions@[0], self.source.base as int));
            assert(c.partitions@[0].bytes().subrange(from, to) =~= q.bytes().subrange(from, to));
        }
        r
    }
}

/// A container that shows the same partitions holds the same archive.
pub proof fn law_archive_reopen(
    a: Archive,
    parts: Seq<DifiPartition>,
    later: Seq<DifiPartition>,
    rule: ImageRule,
)
    requires
        rule.ok(),
        a.settled(parts, rule),
        holds(parts, a.source, a.volume),
        later.len() == parts.len(),
        forall|k: int| 0 <= k < parts.len() ==> same_file(parts[k], #[trigger] later[k]),
    ensures
        source_of(later[0], rule) == Ok::<Source, Error>(a.source),
        holds(later, a.source, a.volume),
        a.settled(later, rule),
{
    lemma_settled_same(a, parts, later, rule);
    lemma_holds_same(parts, later, a.source, a.volume);
}

/// An archive that is settled in some partitions is settled in any that show the same.
pub proof fn lemma_settled_same(
    a: Archive,
    parts: Seq<DifiPartition>,
    later: Seq<DifiPartition>,
    rule: ImageRule,
)
    requires
        rule.ok(),
        a.settled(parts, rule),
        later.len() == parts.len(),
        forall|k: int| 0 <= k < parts.len() ==> same_file(parts[k], #[trigger] later[k]),
    ensures
        a.settled(later, rule),
{
    assert(same_file(parts[0], later[0]));
    assert(parts.len() == 2 ==> same_file(parts[1], later[1]));
    lemma_source_kept(parts[0], later[0], rule, Set::empty());
    assert forall|i: int| #[trigger]
        covered(a.store.ranges(a.volume), i) implies !in_head(later[0], rule, i) by {
        assert(!in_head(parts[0], rule, i));
    }
}

/// What is opened of partitions that hold a volume is settled there, where no part of it lies over
/// another one or over the header.
pub proof fn law_held_archive_is_settled(s: Archive, parts: Seq<DifiPartition>, rule: ImageRule)
    requires
        s.volume.framed(),
        s.store.ready(s.volume),
        told(s.source, s.volume, s.store, parts),
        shown_as(parts, s.source, s.volume),
        s.store.apart(s.volume),
        source_of(parts[0], rule) == Ok::<Source, Error>(s.source),
        head_apart(s, parts[0], rule),
    ensures
        s.settled(parts, rule),
{
    let u = choose|u: Volume| #[trigger]
        holds(parts, s.source, u) && s.volume.tree() == u.tree() && s.volume.chains == u.chains
            && more_to(u.data, s.volume.data, s.source.data_stored(parts)) && (u.sound()
            ==> s.volume.sound()) && (holds_sound(parts, s.source) ==> u.sound());
    assert(holds(parts, s.source, u));
}

/// What is opened of partitions in which an archive is settled is settled there, too.
pub proof fn lemma_opened_settled(
    a: Archive,
    s: Archive,
    parts: Seq<DifiPartition>,
    rule: ImageRule,
)
    requires
        a.settled(parts, rule),
        s.source == a.source,
        s.volume.framed(),
        s.store.ready(s.volume),
        told(s.source, s.volume, s.store, parts),
        shown_as(parts, s.source, s.volume),
    ensures
        s.settled(parts, rule),
{
    let u = choose|u: Volume| #[trigger]
        holds(parts, s.source, u) && s.volume.tree() == u.tree() && s.volume.chains == u.chains
            && more_to(u.data, s.volume.data, s.source.data_stored(parts)) && (u.sound()
            ==> s.volume.sound()) && (holds_sound(parts, s.source) ==> u.sound());
    assert(s.store.ranges(s.volume) =~= a.store.ranges(a.volume));
}

/// Files that hold the same can be read alike.
pub proof fn lemma_can_read_same<F: Content>(p: F, q: F)
    requires
        same_file(p, q),
    ensures
        forall|pos: int, len: int| #[trigger] can_read(q, pos, len) == can_read(p, pos, len),
        q.bytes() == p.bytes(),
{
    assert forall|pos: int, len: int| #[trigger] can_read(q, pos, len) == can_read(p, pos, len) by {
        if can_read(p, pos, len) {
            assert forall|i: int| pos <= i < pos + len implies #[trigger] q.readable(i) by {
                assert(p.readable(i));
            }
        }
        if can_read(q, pos, len) {
            assert forall|i: int| pos <= i < pos + len implies #[trigger] p.readable(i) by {
                assert(q.readable(i));
            }
        }
    }
}

/// The blocks of the tables have not changed.
pub open spec fn tables_stay(a: Volume, b: Volume) -> bool {
    forall|k: int|
        k < 0 && a.chains@.contains_key(k) ==> #[trigger] b.chains@.contains_key(k) && b.chains@[k]
            == a.chains@[k]
}

/// An archive that is settled stays so whatever is done with its volume, as long as the volume
/// is sound: it can then be stored again.
pub proof fn law_settled_stays(
    a: Archive,
    b: Archive,
    parts: Seq<DifiPartition>,
    rule: ImageRule,
)
    requires
        a.settled(parts, rule),
        b.store == a.store,
        b.source == a.source,
        b.volume.framed(),
        fixed(a.volume, b.volume),
        tables_stay(a.volume, b.volume),
    ensures
        b.settled(parts, rule),
{
    let v = a.volume;
    let w = b.volume;
    assert(w.fs.dirs.shape() == v.fs.dirs.shape());
    assert(w.fs.files.shape() == v.fs.files.shape());
    assert(b.store.ranges(w) == a.store.ranges(v));
    assert(v.chains@.contains_key(-1) ==> w.chains@.contains_key(-1) && w.chains@[-1]
        == v.chains@[-1]);
    assert(v.chains@.contains_key(-2) ==> w.chains@.contains_key(-2) && w.chains@[-2]
        == v.chains@[-2]);
    assert(b.store.ready(w));
    assert(told(b.source, w, b.store, parts));
    assert(b.store.apart(w));
}

} // verus!
