use crate::error::{make_error, Error};
use crate::little_endian::{push_le, read_u32, u32_bytes};
use crate::meta_list::{Lists, Meta};
use crate::random_access_file::{Content, RandomAccessFile};
use std::collections::HashMap;
use vstd::prelude::*;

verus! {

use crate::little_endian::{le32, le_bytes, le_number, lemma_le32_of_bytes, lemma_le_bytes_len};
use crate::meta_list::{
    absent, entries, hash_words, lemma_empty, no_lists, lemma_bounds, lemma_extended,
    lemma_info_set, lemma_key_in_bucket, lemma_removed, lemma_reused, listed, lists_extended,
    lists_removed, lists_reused, live, meta_extended, meta_freed, meta_reused, meta_unlinked,
    new_row, next_free, room,
};
use crate::random_access_file::{all_readable, same_file, spliced};
use vstd::arithmetic::div_mod::*;
use vstd::arithmetic::mul::*;

/// The words of the bucket file.
pub open spec fn words(h: Seq<u8>) -> Seq<nat> {
    Seq::new((h.len() / 4) as nat, |b: int| le32(h, 4 * b))
}

/// The entries of the table file.
pub open spec fn rows(t: Seq<u8>, row_len: int) -> Seq<Seq<u8>> {
    Seq::new(
        (t.len() as int / row_len) as nat,
        |e: int| t.subrange(e * row_len, e * row_len + row_len),
    )
}

/// An entry is within the file.
pub proof fn lemma_row_within(n: int, row_len: int, e: int)
    requires
        row_len > 0,
        0 <= n,
        0 <= e < n / row_len,
    ensures
        0 <= e * row_len,
        e * row_len + row_len <= n,
{
    lemma_fundamental_div_mod(n, row_len);
    lemma_mod_bound(n, row_len);
    lemma_mul_inequality(e + 1, n / row_len, row_len);
    lemma_mul_is_distributive_add_other_way(row_len, e, 1);
    lemma_mul_is_commutative(n / row_len, row_len);
    lemma_mul_nonnegative(e, row_len);
}

/// Two entries do not overlap.
pub proof fn lemma_rows_apart(row_len: int, x: int, y: int)
    requires
        row_len > 0,
        x < y,
    ensures
        x * row_len + row_len <= y * row_len,
{
    lemma_mul_inequality(x + 1, y, row_len);
    lemma_mul_is_distributive_add_other_way(row_len, x, 1);
}

/// Writing within an entry changes that entry only.
pub proof fn lemma_rows_write(t: Seq<u8>, row_len: int, e: int, off: int, data: Seq<u8>)
    requires
        row_len > 0,
        0 <= e < t.len() as int / row_len,
        0 <= off,
        off + data.len() <= row_len,
    ensures
        rows(spliced(t, e * row_len + off, data), row_len) == rows(t, row_len).update(
            e,
            spliced(rows(t, row_len)[e], off, data),
        ),
{
    let t2 = spliced(t, e * row_len + off, data);
    let r2 = rows(t, row_len).update(e, spliced(rows(t, row_len)[e], off, data));
    assert forall|x: int| 0 <= x < r2.len() implies rows(t2, row_len)[x] == r2[x] by {
        lemma_row_within(t.len() as int, row_len, x);
        lemma_row_within(t.len() as int, row_len, e);
        if x < e {
            lemma_rows_apart(row_len, x, e);
        } else if e < x {
            lemma_rows_apart(row_len, e, x);
        }
        assert(rows(t2, row_len)[x] =~= r2[x]);
    }
    assert(rows(t2, row_len) =~= r2);
}

/// Writing a word of the bucket file changes that word only.
pub proof fn lemma_words_write(h: Seq<u8>, b: int, v: nat)
    requires
        0 <= b < h.len() / 4,
        v < 0x1_0000_0000,
    ensures
        words(spliced(h, 4 * b, le_bytes(v, 4))) == words(h).update(b, v),
{
    lemma_le32_of_bytes(v);
    let h2 = spliced(h, 4 * b, le_bytes(v, 4));
    assert forall|x: int| 0 <= x < h.len() / 4 implies words(h2)[x] == words(h).update(b, v)[x] by {
        if x == b {
            assert(h2.subrange(4 * x, 4 * x + 4) =~= le_bytes(v, 4));
        } else {
            assert(h2.subrange(4 * x, 4 * x + 4) =~= h.subrange(4 * x, 4 * x + 4));
        }
    }
    assert(words(h2) =~= words(h).update(b, v));
}

/// How many entries a table has.
#[derive(Clone, Copy, PartialEq, Eq, Structural, Debug)]
pub struct MetaTableStat {
    pub total: usize,
    pub free: usize,
}

/// A hash table that is stored in two files. Each entry has a key and an info, both of a fixed
/// length, and keeps its index as long as it exists.
pub struct MetaTable<F> {
    pub hash: F,
    pub table: F,
    pub key_len: usize,
    pub info_len: usize,
    pub ref_count: HashMap<u32, u32>,
    pub lists: Ghost<Lists>,
}

/// The content of the two files as a hash table.
pub open spec fn model_of<F: Content>(hash: F, table: F, key_len: int, info_len: int) -> Meta {
    Meta {
        heads: words(hash.bytes()),
        rows: rows(table.bytes(), key_len + info_len + 4),
        key_len: key_len as nat,
        info_len: info_len as nat,
    }
}

/// All that the lists reach is initialized.
pub open spec fn ready<F: Content>(hash: F, table: F, m: Meta) -> bool {
    &&& all_readable(hash, 0, hash.bytes().len() as int)
    &&& all_readable(table, 0, (m.count() * m.row_len()) as int)
}

impl<F: RandomAccessFile> MetaTable<F> {
    /// What holds of a table in memory, whatever its content.
    pub open spec fn inv(&self) -> bool {
        &&& self.hash.inv()
        &&& self.table.inv()
        &&& self.key_len % 4 == 0
        &&& 8 <= self.key_len + self.info_len <= usize::MAX - 4
        &&& 4 <= self.hash.bytes().len() <= usize::MAX
        &&& self.table.bytes().len() <= usize::MAX
    }

    pub open spec fn row_len(&self) -> int {
        self.key_len + self.info_len + 4
    }

    /// The stored table.
    pub open spec fn model(&self) -> Meta {
        model_of(self.hash, self.table, self.key_len as int, self.info_len as int)
    }

    /// The table is stored as it should be.
    pub open spec fn wf(&self) -> bool {
        &&& self.inv()
        &&& listed(self.model(), self.lists@)
        &&& ready(self.hash, self.table, self.model())
    }

    /// The entries: key and info of each index in use.
    pub open spec fn entries(&self) -> Map<int, (Seq<u8>, Seq<u8>)> {
        entries(self.model(), self.lists@)
    }

    /// The number of entries that can be added.
    pub open spec fn room(&self) -> int {
        room(self.model(), self.lists@)
    }

    /// The index that the next entry will get.
    pub open spec fn next_free(&self) -> int {
        next_free(self.model(), self.lists@)
    }

    /// The parts that no operation changes.
    pub open spec fn shape(&self) -> (usize, usize, int, int) {
        (
            self.key_len,
            self.info_len,
            self.hash.bytes().len() as int,
            self.table.bytes().len() as int,
        )
    }

    /// The number of entries that the table file has space for.
    pub fn capacity(&self) -> (n: usize)
        requires
            self.inv(),
        ensures
            n == self.model().rows.len(),
    {
        self.table.len() / (self.key_len + self.info_len + 4)
    }

    /// Reads `len` bytes of an entry.
    fn load_part(&mut self, index: u32, off: usize, len: usize) -> (r: Result<Vec<u8>, Error>)
        requires
            old(self).inv(),
            off + len <= old(self).row_len(),
        ensures
            final(self).inv(),
            same_file(old(self).table, final(self).table),
            *final(self) == (MetaTable { table: final(self).table, ..*old(self) }),
            r matches Ok(v) ==> v@.len() == len,
            old(self).wf() && index < old(self).model().count() ==> (r matches Ok(v) && v@
                == old(self).model().rows[index as int].subrange(off as int, off + len)),
    {
        let row_len: usize = self.key_len + self.info_len + 4;
        let ghost rl = row_len as int;
        proof {
            if old(self).wf() && index < old(self).model().count() {
                let m = old(self).model();
                lemma_row_within(self.table.bytes().len() as int, rl, index as int);
                lemma_rows_apart(rl, index as int, m.count() as int);
                assert(m.rows[index as int].subrange(off as int, off + len)
                    =~= self.table.bytes().subrange(
                    index * rl + off,
                    index * rl + off + len,
                ));
            }
            lemma_mul_nonnegative(index as int, rl);
        }
        match (index as usize).checked_mul(row_len) {
            None => make_error(Error::OutOfBound),
            Some(start) => match start.checked_add(off) {
                None => make_error(Error::OutOfBound),
                Some(pos) => self.table.load(pos, len),
            },
        }
    }

    /// Reads a whole entry.
    fn load_row(&mut self, index: u32) -> (r: Result<Vec<u8>, Error>)
        requires
            old(self).inv(),
        ensures
            final(self).inv(),
            same_file(old(self).table, final(self).table),
            *final(self) == (MetaTable { table: final(self).table, ..*old(self) }),
            r matches Ok(v) ==> v@.len() == old(self).row_len(),
            index < old(self).model().rows.len() && all_readable(
                old(self).table,
                index * old(self).row_len(),
                old(self).row_len(),
            ) ==> (r matches Ok(v) && v@ == old(self).model().rows[index as int]),
    {
        let row_len: usize = self.key_len + self.info_len + 4;
        proof {
            if index < old(self).model().rows.len() {
                lemma_row_within(self.table.bytes().len() as int, row_len as int, index as int);
            }
            lemma_mul_nonnegative(index as int, row_len as int);
        }
        match (index as usize).checked_mul(row_len) {
            None => make_error(Error::OutOfBound),
            Some(pos) => self.table.load(pos, row_len),
        }
    }

    /// Writes bytes of an entry.
    fn store_part(&mut self, index: u32, off: usize, data: &[u8]) -> (r: Result<(), Error>)
        requires
            old(self).inv(),
            off + data@.len() <= old(self).row_len(),
        ensures
            final(self).inv(),
            final(self).shape() == old(self).shape(),
            *final(self) == (MetaTable { table: final(self).table, ..*old(self) }),
            index < old(self).model().rows.len() ==> {
                &&& r == Ok::<(), Error>(())
                &&& final(self).model() == (Meta {
                    rows: old(self).model().rows.update(
                        index as int,
                        spliced(old(self).model().rows[index as int], off as int, data@),
                    ),
                    ..old(self).model()
                })
                &&& forall|i: int|
                    old(self).table.readable(i) || index * old(self).row_len() + off <= i < index
                        * old(self).row_len() + off + data@.len()
                        ==> #[trigger] final(self).table.readable(i)
            },
    {
        let row_len: usize = self.key_len + self.info_len + 4;
        let ghost rl = row_len as int;
        proof {
            if index < old(self).model().rows.len() {
                lemma_row_within(self.table.bytes().len() as int, rl, index as int);
                lemma_rows_write(self.table.bytes(), rl, index as int, off as int, data@);
            }
            lemma_mul_nonnegative(index as int, rl);
        }
        match (index as usize).checked_mul(row_len) {
            None => make_error(Error::OutOfBound),
            Some(start) => match start.checked_add(off) {
                None => make_error(Error::OutOfBound),
                Some(pos) => self.table.write(pos, data),
            },
        }
    }

    /// Reads the link of an entry.
    fn load_link(&mut self, index: u32) -> (r: Result<u32, Error>)
        requires
            old(self).inv(),
        ensures
            final(self).inv(),
            same_file(old(self).table, final(self).table),
            *final(self) == (MetaTable { table: final(self).table, ..*old(self) }),
            old(self).wf() && index < old(self).model().count() ==> (r matches Ok(v) && v as nat
                == old(self).model().link(index as int)),
    {
        let off: usize = self.key_len + self.info_len;
        match self.load_part(index, off, 4) {
            Ok(v) => {
                assert(v@.subrange(0, 4) =~= v@);
                Ok(read_u32(&v, 0))
            },
            Err(e) => Err(e),
        }
    }

    /// Reads the first entry of a bucket.
    fn load_head(&mut self, bucket: usize) -> (r: Result<u32, Error>)
        requires
            old(self).inv(),
            bucket < old(self).hash.bytes().len() / 4,
        ensures
            final(self).inv(),
            same_file(old(self).hash, final(self).hash),
            *final(self) == (MetaTable { hash: final(self).hash, ..*old(self) }),
            old(self).wf() ==> (r matches Ok(v) && v as nat == old(self).model().heads[bucket as int]),
    {
        match self.hash.load(4 * bucket, 4) {
            Ok(v) => {
                assert(v@.subrange(0, 4) =~= v@);
                Ok(read_u32(&v, 0))
            },
            Err(e) => Err(e),
        }
    }

    /// Sets the first entry of a bucket.
    fn store_head(&mut self, bucket: usize, index: u32) -> (r: Result<(), Error>)
        requires
            old(self).inv(),
            bucket < old(self).hash.bytes().len() / 4,
        ensures
            final(self).inv(),
            final(self).shape() == old(self).shape(),
            *final(self) == (MetaTable { hash: final(self).hash, ..*old(self) }),
            r == Ok::<(), Error>(()),
            final(self).model() == (Meta {
                heads: old(self).model().heads.update(bucket as int, index as nat),
                ..old(self).model()
            }),
            forall|i: int|
                old(self).hash.readable(i) ==> #[trigger] final(self).hash.readable(i),
    {
        proof {
            lemma_words_write(self.hash.bytes(), bucket as int, index as nat);
        }
        let v = u32_bytes(index);
        self.hash.write(4 * bucket, &v)
    }

    /// The bucket of a key.
    fn bucket(&self, key: &[u8]) -> (b: usize)
        requires
            self.inv(),
            key@.len() == self.key_len,
        ensures
            b == self.model().bucket(key@),
            b < self.hash.bytes().len() / 4,
    {
        let mut h: u32 = 0x1234_5678;
        let mut i: usize = 0;
        let n: usize = self.key_len / 4;
        while i < n
            invariant
                i <= n,
                4 * n == key@.len() <= usize::MAX,
                h == hash_words(key@, i as nat),
            decreases n - i,
        {
            h = (h >> 1) | (h << 31);
            let w: u32 = read_u32(key, 4 * i);
            h = h ^ w;
            i += 1;
        }
        let buckets: usize = self.hash.len() / 4;
        proof {
            lemma_mod_bound(h as int, buckets as int);
        }
        (h as usize) % buckets
    }
}

/// A list is shorter than the table.
pub proof fn lemma_list_len(m: Meta, g: Lists, b: int)
    requires
        listed(m, g),
        0 <= b < g.lists.len(),
    ensures
        g.lists[b].len() < m.count(),
{
    let l = g.lists[b];
    assert forall|i: int, j: int| 0 <= i < l.len() && 0 <= j < l.len() && i != j implies l[i]
        != l[j] by {
        assert(g.pos[g.item(b, i)] == (b, i));
        assert(g.pos[g.item(b, j)] == (b, j));
    }
    assert(l.no_duplicates());
    l.unique_seq_to_set();
    let s = vstd::set_lib::set_int_range(1, m.count() as int);
    vstd::set_lib::lemma_int_range(1, m.count() as int);
    assert(l.to_set().subset_of(s)) by {
        assert forall|e: int| l.to_set().contains(e) implies s.contains(e) by {
            let i = choose|i: int| 0 <= i < l.len() && l[i] == e;
            assert(g.item(b, i) == e);
        }
    }
    vstd::set_lib::lemma_len_subset(l.to_set(), s);
}

/// A table that holds the same is as well stored.
pub proof fn lemma_same_meta<F: RandomAccessFile>(a: MetaTable<F>, b: MetaTable<F>)
    requires
        same_meta(a, b),
    ensures
        b.model() == a.model(),
        a.wf() ==> b.wf(),
        b.entries() == a.entries(),
        b.room() == a.room(),
        b.next_free() == a.next_free(),
{
}

/// Two tables that hold the same.
pub open spec fn same_meta<F: RandomAccessFile>(a: MetaTable<F>, b: MetaTable<F>) -> bool {
    &&& same_file(a.hash, b.hash)
    &&& same_file(a.table, b.table)
    &&& b.hash.inv() == a.hash.inv()
    &&& b.table.inv() == a.table.inv()
    &&& b.key_len == a.key_len
    &&& b.info_len == a.info_len
    &&& b.ref_count == a.ref_count
    &&& b.lists == a.lists
}

impl<F: RandomAccessFile> MetaTable<F> {
    /// Finds the entry with this key, and returns its info and its index.
    pub fn get(&mut self, key: &[u8]) -> (r: Result<(Vec<u8>, u32), Error>)
        requires
            old(self).inv(),
            key@.len() == old(self).key_len,
        ensures
            final(self).inv(),
            same_meta(*old(self), *final(self)),
            r matches Ok(v) ==> v.0@.len() == old(self).info_len,
            old(self).wf() ==> match r {
                Ok(v) => old(self).entries().contains_pair(v.1 as int, (key@, v.0@)),
                Err(e) => e == Error::NotFound && absent(
                    old(self).model(),
                    old(self).lists@,
                    key@,
                ),
            },
    {
        let ghost m = self.model();
        let ghost g = self.lists@;
        let ghost wf = self.wf();
        let h: usize = self.bucket(key);
        let row_len: usize = self.key_len + self.info_len + 4;
        let key_len: usize = self.key_len;
        let info_len: usize = self.info_len;
        let mut fuel: usize = self.table.len() / row_len;
        let mut index: u32 = match self.load_head(h) {
            Ok(index) => index,
            Err(e) => {
                return make_error(e);
            },
        };
        let ghost mut i: int = g.lists[h as int].len() - 1;
        proof {
            if wf {
                lemma_list_len(m, g, h as int);
                assert(m.head(h as int) == g.top(h as int));
                lemma_div_is_ordered_by_denominator(self.table.bytes().len() as int, 1, row_len as int);
            }
        }
        while index != 0
            invariant
                self.inv(),
                same_meta(*old(self), *self),
                wf == old(self).wf(),
                wf ==> self.wf(),
                m == self.model(),
                m == old(self).model(),
                g == self.lists@,
                g == old(self).lists@,
                key_len == self.key_len,
                info_len == self.info_len,
                key@.len() == key_len,
                row_len == key_len + info_len + 4,
                h == m.bucket(key@),
                h < m.heads.len(),
                wf ==> {
                    &&& -1 <= i < g.lists[h as int].len()
                    &&& i < fuel
                    &&& index == (if i < 0 {
                        0
                    } else {
                        g.item(h as int, i)
                    })
                    &&& forall|j: int|
                        i < j < g.lists[h as int].len() ==> m.key(#[trigger] g.item(h as int, j))
                            != key@
                },
            decreases fuel,
        {
            if fuel == 0 {
                return make_error(Error::InvalidValue);
            }
            proof {
                if wf {
                    assert(index == g.item(h as int, i));
                }
            }
            let other = match self.load_part(index, 0, key_len) {
                Ok(other) => other,
                Err(e) => {
                    return make_error(e);
                },
            };
            if same_bytes(key, &other) {
                let info = match self.load_part(index, key_len, info_len) {
                    Ok(info) => info,
                    Err(e) => {
                        return make_error(e);
                    },
                };
                proof {
                    if wf {
                        assert(live(m, g, index as int));
                    }
                }
                return Ok((info, index));
            }
            index = match self.load_link(index) {
                Ok(index) => index,
                Err(e) => {
                    return make_error(e);
                },
            };
            fuel = fuel - 1;
            proof {
                i = i - 1;
            }
        }
        proof {
            if wf {
                assert forall|e: int| live(m, g, e) implies #[trigger] m.key(e) != key@ by {
                    if m.key(e) == key@ {
                        lemma_key_in_bucket(m, g, e);
                        assert(g.item(h as int, g.pos[e].1) == e);
                    }
                }
            }
        }
        make_error(Error::NotFound)
    }

    /// Reads the info and the key of an entry.
    pub fn get_at(&mut self, index: u32) -> (r: Result<(Vec<u8>, Vec<u8>), Error>)
        requires
            old(self).inv(),
        ensures
            final(self).inv(),
            same_meta(*old(self), *final(self)),
            r matches Ok(v) ==> v.0@.len() == old(self).info_len && v.1@.len() == old(self).key_len,
            old(self).wf() && old(self).entries().contains_key(index as int) ==> (r matches Ok(v)
                && old(self).entries()[index as int] == (v.1@, v.0@)),
    {
        let key_len: usize = self.key_len;
        let info_len: usize = self.info_len;
        let info = match self.load_part(index, key_len, info_len) {
            Ok(info) => info,
            Err(e) => {
                return make_error(e);
            },
        };
        let key = match self.load_part(index, 0, key_len) {
            Ok(key) => key,
            Err(e) => {
                return make_error(e);
            },
        };
        Ok((info, key))
    }

    /// Sets the info of an entry.
    pub fn set(&mut self, index: u32, info: &[u8]) -> (r: Result<(), Error>)
        requires
            old(self).inv(),
            info@.len() == old(self).info_len,
        ensures
            final(self).inv(),
            final(self).shape() == old(self).shape(),
            final(self).ref_count == old(self).ref_count,
            old(self).wf() && old(self).entries().contains_key(index as int) ==> {
                &&& r == Ok::<(), Error>(())
                &&& final(self).wf()
                &&& final(self).entries() == old(self).entries().insert(
                    index as int,
                    (old(self).entries()[index as int].0, info@),
                )
                &&& final(self).room() == old(self).room()
                &&& final(self).next_free() == old(self).next_free()
            },
    {
        let key_len: usize = self.key_len;
        let r = self.store_part(index, key_len, info);
        proof {
            if old(self).wf() && old(self).entries().contains_key(index as int) {
                lemma_info_set(
                    old(self).model(),
                    old(self).lists@,
                    self.model(),
                    index as int,
                    info@,
                );
            }
        }
        r
    }
}

impl<F: RandomAccessFile> MetaTable<F> {
    /// Takes an entry out of the list of its bucket.
    fn unlink(&mut self, index: u32) -> (r: Result<(), Error>)
        requires
            old(self).inv(),
        ensures
            final(self).inv(),
            final(self).shape() == old(self).shape(),
            final(self).ref_count == old(self).ref_count,
            final(self).lists == old(self).lists,
            old(self).wf() && live(old(self).model(), old(self).lists@, index as int) ==> {
                &&& r == Ok::<(), Error>(())
                &&& final(self).model() == meta_unlinked(
                    old(self).model(),
                    old(self).lists@,
                    index as int,
                )
                &&& forall|i: int|
                    old(self).hash.readable(i) ==> #[trigger] final(self).hash.readable(i)
                &&& forall|i: int|
                    old(self).table.readable(i) ==> #[trigger] final(self).table.readable(i)
            },
    {
        let ghost m = self.model();
        let ghost g = self.lists@;
        let ghost wf = self.wf() && live(m, g, index as int);
        let key_len: usize = self.key_len;
        let info_len: usize = self.info_len;
        let row_len: usize = key_len + info_len + 4;
        proof {
            if wf {
                let p = g.pos[index as int];
                assert(g.item(p.0, p.1) == index);
            }
        }
        let key = match self.load_part(index, 0, key_len) {
            Ok(key) => key,
            Err(e) => {
                return make_error(e);
            },
        };
        let collision: u32 = match self.load_link(index) {
            Ok(collision) => collision,
            Err(e) => {
                return make_error(e);
            },
        };
        let h: usize = self.bucket(&key);
        let mut fuel: usize = self.table.len() / row_len;
        let mut prev: u32 = 0;
        let mut other: u32 = match self.load_head(h) {
            Ok(other) => other,
            Err(e) => {
                return make_error(e);
            },
        };
        let ghost mut i: int = g.lists[h as int].len() - 1;
        proof {
            if wf {
                lemma_key_in_bucket(m, g, index as int);
                lemma_list_len(m, g, h as int);
                assert(m.head(h as int) == g.top(h as int));
                lemma_div_is_ordered_by_denominator(
                    self.table.bytes().len() as int,
                    1,
                    row_len as int,
                );
            }
        }
        while other != index
            invariant
                self.inv(),
                same_meta(*old(self), *self),
                wf == (old(self).wf() && live(m, g, index as int)),
                wf ==> self.wf(),
                m == self.model(),
                m == old(self).model(),
                g == self.lists@,
                g == old(self).lists@,
                h < m.heads.len(),
                wf ==> {
                    &&& g.pos[index as int].0 == h
                    &&& g.pos[index as int].1 <= i < g.lists[h as int].len()
                    &&& i < fuel
                    &&& other == g.item(h as int, i)
                    &&& g.item(h as int, g.pos[index as int].1) == index
                    &&& prev == (if i == g.lists[h as int].len() - 1 {
                        0
                    } else {
                        g.item(h as int, i + 1)
                    })
                },
            decreases fuel,
        {
            if fuel == 0 || other == 0 {
                return make_error(Error::InvalidValue);
            }
            proof {
                if wf {
                    assert(i > g.pos[index as int].1);
                    assert(m.link(other as int) == g.below(h as int, i));
                    assert(g.below(h as int, i) == g.item(h as int, i - 1));
                    assert(g.item(h as int, i - 1) >= 1);
                }
            }
            let next = self.load_link(other);
            prev = other;
            other = match next {
                Ok(other) => other,
                Err(e) => {
                    return make_error(e);
                },
            };
            fuel = fuel - 1;
            proof {
                i = i - 1;
            }
        }
        proof {
            if wf {
                assert(g.pos[g.item(h as int, i)] == (h as int, i));
                if i < g.lists[h as int].len() - 1 {
                    assert(g.item(h as int, i + 1) >= 1);
                }
            }
        }
        if prev == 0 {
            self.store_head(h, collision)
        } else {
            let off: usize = key_len + info_len;
            let v = u32_bytes(collision);
            self.store_part(prev, off, &v)
        }
    }

    /// Removes an entry. Its index is the next one to be used.
    pub fn remove(&mut self, index: u32) -> (r: Result<(), Error>)
        requires
            old(self).inv(),
        ensures
            final(self).inv(),
            final(self).shape() == old(self).shape(),
            final(self).ref_count == old(self).ref_count,
            old(self).wf() && old(self).entries().contains_key(index as int) ==> {
                &&& r == Ok::<(), Error>(())
                &&& final(self).wf()
                &&& final(self).entries() == old(self).entries().remove(index as int)
                &&& final(self).room() == old(self).room() + 1
                &&& final(self).next_free() == index
            },
    {
        let ghost m = self.model();
        let ghost g = self.lists@;
        let ghost wf = self.wf() && live(m, g, index as int);
        let key_len: usize = self.key_len;
        let info_len: usize = self.info_len;
        let row_len: usize = key_len + info_len + 4;
        if let Err(e) = self.unlink(index) {
            return make_error(e);
        }
        let ghost u = self.model();
        proof {
            if wf {
                lemma_rows_apart(row_len as int, 0, m.count() as int);
                lemma_mul_basics(row_len as int);
                assert(u.rows[0] == m.rows[0]) by {
                    let p = g.pos[index as int];
                    if p.1 < g.lists[p.0].len() - 1 {
                        assert(g.item(p.0, p.1 + 1) >= 1);
                    }
                }
            }
        }
        let dummy = match self.load_row(0) {
            Ok(dummy) => dummy,
            Err(e) => {
                return make_error(e);
            },
        };
        let ghost t1 = *self;
        if let Err(e) = self.store_part(index, 0, &dummy) {
            return make_error(e);
        }
        let ghost t2 = *self;
        let off: usize = key_len + info_len;
        let v = u32_bytes(index);
        if let Err(e) = self.store_part(0, off, &v) {
            return make_error(e);
        }
        self.lists = Ghost(lists_removed(g, m.heads.len() as int, index as int));
        proof {
            if wf {
                lemma_removed(m, g, index as int);
                let b = meta_freed(u, index as int);
                assert(spliced(t1.model().rows[index as int], 0, dummy@) =~= dummy@) by {
                    lemma_row_within(
                        t1.table.bytes().len() as int,
                        row_len as int,
                        index as int,
                    );
                }
                assert(t2.model().rows[0] == u.rows[0]);
                assert(self.model().rows =~= b.rows);
                assert(self.model().count() == m.count());
            }
        }
        Ok(())
    }
}

/// What an addition gives: an error if the key is there or if there is no room, else the index
/// of the new entry.
pub open spec fn add_gives<F: RandomAccessFile>(
    a: MetaTable<F>,
    b: MetaTable<F>,
    key: Seq<u8>,
    info: Seq<u8>,
    r: Result<u32, Error>,
) -> bool {
    if !absent(a.model(), a.lists@, key) {
        r == Err::<u32, Error>(Error::AlreadyExist) && same_meta(a, b)
    } else if a.room() == 0 {
        r == Err::<u32, Error>(Error::NoSpace) && same_meta(a, b)
    } else {
        &&& r matches Ok(index)
        &&& index == a.next_free()
        &&& index >= 1
        &&& !a.entries().contains_key(index as int)
        &&& b.wf()
        &&& b.entries() == a.entries().insert(index as int, (key, info))
        &&& b.room() == a.room() - 1
        &&& b.model().max() == a.model().max()
    }
}

impl<F: RandomAccessFile> MetaTable<F> {
    /// Adds an entry, and returns its index.
    pub fn add(&mut self, key: &[u8], info: &[u8]) -> (r: Result<u32, Error>)
        requires
            old(self).inv(),
            key@.len() == old(self).key_len,
            info@.len() == old(self).info_len,
        ensures
            final(self).inv(),
            final(self).shape() == old(self).shape(),
            final(self).ref_count == old(self).ref_count,
            old(self).wf() ==> old(self).room() >= 0,
            old(self).wf() ==> add_gives(*old(self), *final(self), key@, info@, r),
    {
        let ghost m = self.model();
        let ghost g = self.lists@;
        let ghost wf = self.wf();
        match self.get(key) {
            Ok(found) => {
                proof {
                    if wf {
                        assert(live(m, g, found.1 as int));
                        assert(m.key(found.1 as int) == key@);
                    }
                }
                return make_error(Error::AlreadyExist);
            },
            Err(Error::NotFound) => {},
            Err(e) => {
                return make_error(e);
            },
        }
        let key_len: usize = self.key_len;
        let info_len: usize = self.info_len;
        let row_len: usize = key_len + info_len + 4;
        let off: usize = key_len + info_len;
        let h: usize = self.bucket(key);
        let collision: u32 = match self.load_head(h) {
            Ok(collision) => collision,
            Err(e) => {
                return make_error(e);
            },
        };
        let first: u32 = match self.load_link(0) {
            Ok(first) => first,
            Err(e) => {
                return make_error(e);
            },
        };
        let ghost n = m.heads.len() as int;
        proof {
            if wf {
                assert(m.head(n) == g.top(n));
                if g.lists[n].len() > 0 {
                    assert(g.item(n, g.lists[n].len() - 1) >= 1);
                }
            }
        }
        let ghost t0 = *self;
        let index: u32;
        if first == 0 {
            let header = match self.load_part(0, 0, 8) {
                Ok(header) => header,
                Err(e) => {
                    return make_error(e);
                },
            };
            proof {
                if wf {
                    assert(header@.subrange(0, 4) =~= m.rows[0].subrange(0, 4));
                    assert(header@.subrange(4, 8) =~= m.rows[0].subrange(4, 8));
                }
            }
            let count: u32 = read_u32(&header, 0);
            let max: u32 = read_u32(&header, 4);
            if count == max {
                return make_error(Error::NoSpace);
            }
            if count == u32::MAX {
                return make_error(Error::InvalidValue);
            }
            let v = u32_bytes(count + 1);
            if let Err(e) = self.store_part(0, 0, &v) {
                return make_error(e);
            }
            index = count;
        } else {
            proof {
                if wf {
                    lemma_reused(m, g, key@, info@);
                }
            }
            let next: u32 = match self.load_link(first) {
                Ok(next) => next,
                Err(e) => {
                    return make_error(e);
                },
            };
            let v = u32_bytes(next);
            if let Err(e) = self.store_part(0, off, &v) {
                return make_error(e);
            }
            index = first;
        }
        let ghost t1 = *self;
        if let Err(e) = self.store_head(h, index) {
            return make_error(e);
        }
        let ghost t2 = *self;
        let mut row: Vec<u8> = Vec::new();
        append_bytes(&mut row, key);
        append_bytes(&mut row, info);
        push_le(&mut row, collision as u64, 4);
        proof {
            lemma_le_bytes_len(collision as nat, 4);
        }
        if let Err(e) = self.store_part(index, 0, &row) {
            return make_error(e);
        }
        self.lists = Ghost(
            if first == 0 {
                lists_extended(g, h as int, index as int)
            } else {
                lists_reused(g, h as int, n, index as int)
            },
        );
        proof {
            if wf {
                lemma_bounds(m, g);
                assert(row@ =~= new_row(key@, info@, m.heads[h as int]));
                assert(spliced(t2.model().rows[index as int], 0, row@) =~= row@) by {
                    lemma_row_within(
                        t2.table.bytes().len() as int,
                        row_len as int,
                        index as int,
                    );
                }
                assert(self.model().rows[0].subrange(4, 8) =~= m.rows[0].subrange(4, 8));
                if first == 0 {
                    lemma_extended(m, g, key@, info@);
                    assert(self.model().rows =~= meta_extended(m, key@, info@).rows);
                    lemma_mul_is_distributive_add_other_way(row_len as int, index as int, 1);
                    assert(self.model().count() == m.count() + 1);
                } else {
                    assert(self.model().rows =~= meta_reused(m, key@, info@).rows);
                    assert(self.model().count() == m.count());
                }
            }
        }
        Ok(index)
    }

    /// Counts the entries.
    pub fn stat(&mut self) -> (r: Result<MetaTableStat, Error>)
        requires
            old(self).inv(),
        ensures
            final(self).inv(),
            same_meta(*old(self), *final(self)),
            old(self).wf() ==> (r matches Ok(s) && s.total == old(self).model().max() - 1 && s.free
                == old(self).room()),
    {
        let ghost m = self.model();
        let ghost g = self.lists@;
        let ghost wf = self.wf();
        let ghost n = m.heads.len() as int;
        let header = match self.load_part(0, 0, 8) {
            Ok(header) => header,
            Err(e) => {
                return make_error(e);
            },
        };
        proof {
            if wf {
                assert(header@.subrange(0, 4) =~= m.rows[0].subrange(0, 4));
                assert(header@.subrange(4, 8) =~= m.rows[0].subrange(4, 8));
            }
        }
        let count: u32 = read_u32(&header, 0);
        let max: u32 = read_u32(&header, 4);
        let row_len: usize = self.key_len + self.info_len + 4;
        let mut fuel: usize = self.table.len() / row_len;
        let mut index: u32 = match self.load_link(0) {
            Ok(index) => index,
            Err(e) => {
                return make_error(e);
            },
        };
        let mut dummies: usize = 0;
        let ghost mut i: int = g.lists[n].len() - 1;
        proof {
            if wf {
                lemma_list_len(m, g, n);
                assert(m.head(n) == g.top(n));
            }
        }
        while index != 0
            invariant
                self.inv(),
                same_meta(*old(self), *self),
                wf == old(self).wf(),
                wf ==> self.wf(),
                m == self.model(),
                m == old(self).model(),
                g == self.lists@,
                g == old(self).lists@,
                n == m.heads.len(),
                dummies + fuel <= usize::MAX,
                wf ==> {
                    &&& -1 <= i < g.lists[n].len()
                    &&& i < fuel
                    &&& dummies == g.lists[n].len() - 1 - i
                    &&& index == (if i < 0 {
                        0
                    } else {
                        g.item(n, i)
                    })
                },
            decreases fuel,
        {
            if fuel == 0 {
                return make_error(Error::InvalidValue);
            }
            proof {
                if wf {
                    assert(m.link(g.item(n, i)) == g.below(n, i));
                    if i > 0 {
                        assert(g.below(n, i) == g.item(n, i - 1));
                    }
                }
            }
            dummies = dummies + 1;
            index = match self.load_link(index) {
                Ok(index) => index,
                Err(e) => {
                    return make_error(e);
                },
            };
            fuel = fuel - 1;
            proof {
                i = i - 1;
            }
        }
        if max == 0 || max < count {
            return make_error(Error::InvalidValue);
        }
        let free = ((max - count) as usize).checked_add(dummies);
        match free {
            None => make_error(Error::InvalidValue),
            Some(free) => Ok(MetaTableStat { total: max as usize - 1, free }),
        }
    }
}

/// Adds bytes at the end.
pub fn append_bytes(out: &mut Vec<u8>, data: &[u8])
    ensures
        final(out)@ == old(out)@ + data@,
{
    let n: usize = data.len();
    let mut i: usize = 0;
    while i < n
        invariant
            i <= n == data@.len(),
            out@ == old(out)@ + data@.take(i as int),
        decreases n - i,
    {
        out.push(data[i]);
        assert(data@.take(i + 1) =~= data@.take(i as int).push(data@[i as int]));
        i += 1;
    }
    assert(data@.take(n as int) =~= data@);
}

/// The two files hold a hash table with these lists.
pub open spec fn stored<F: Content>(hash: F, table: F, key_len: int, info_len: int, g: Lists) -> bool {
    &&& listed(model_of(hash, table, key_len, info_len), g)
    &&& ready(hash, table, model_of(hash, table, key_len, info_len))
}

impl<F: RandomAccessFile> MetaTable<F> {
    /// Makes the two files hold a table that has no entries yet and room for
    /// `entry_count - 1`.
    pub fn format(
        hash: &mut F,
        table: &mut F,
        entry_count: usize,
        key_len: usize,
        info_len: usize,
    ) -> (r: Result<(), Error>)
        requires
            old(hash).inv(),
            old(table).inv(),
            8 <= key_len + info_len <= usize::MAX - 4,
            4 <= old(hash).bytes().len(),
            1 <= entry_count <= u32::MAX,
            entry_count * (key_len + info_len + 4) <= old(table).bytes().len(),
        ensures
            final(hash).inv(),
            final(table).inv(),
            r == Ok::<(), Error>(()),
            final(hash).bytes().len() == old(hash).bytes().len(),
            final(table).bytes().len() == old(table).bytes().len(),
            ({
                let m = model_of(*final(hash), *final(table), key_len as int, info_len as int);
                let g = no_lists(m.heads.len());
                &&& stored(*final(hash), *final(table), key_len as int, info_len as int, g)
                &&& entries(m, g) == Map::<int, (Seq<u8>, Seq<u8>)>::empty()
                &&& m.max() == entry_count
                &&& room(m, g) == entry_count - 1
                &&& next_free(m, g) == 1
            }),
    {
        let row_len: usize = key_len + info_len + 4;
        let n: usize = hash.len();
        let zeros: Vec<u8> = vec![0u8; n];
        let ghost h0 = *hash;
        if let Err(e) = hash.write(0, &zeros) {
            return make_error(e);
        }
        let mut header: Vec<u8> = Vec::new();
        push_le(&mut header, 1, 4);
        push_le(&mut header, entry_count as u64, 4);
        proof {
            lemma_le_bytes_len(1, 4);
            lemma_le_bytes_len(entry_count as nat, 4);
        }
        let mut i: usize = 8;
        let ghost start = header@;
        while i < key_len + info_len
            invariant
                8 <= i <= key_len + info_len <= usize::MAX - 4,
                header@.len() == i,
                start.len() == 8,
                header@.take(8) == start,
            decreases key_len + info_len - i,
        {
            header.push(0);
            assert(header@.take(8) =~= start);
            i += 1;
        }
        push_le(&mut header, 0, 4);
        let ghost t0 = *table;
        proof {
            lemma_le_bytes_len(0, 4);
            lemma_mul_inequality(1, entry_count as int, row_len as int);
            lemma_mul_basics(row_len as int);
            lemma_div_is_ordered(
                entry_count * row_len,
                t0.bytes().len() as int,
                row_len as int,
            );
            lemma_div_multiples_vanish(entry_count as int, row_len as int);
            lemma_mul_is_commutative(entry_count as int, row_len as int);
        }
        let _len: usize = table.len();
        if let Err(e) = table.write(0, &header) {
            return make_error(e);
        }
        proof {
            let m = model_of(*hash, *table, key_len as int, info_len as int);
            let kl = key_len + info_len;
            assert(hash.bytes() =~= zeros@);
            lemma_le32_of_bytes(0);
            lemma_le32_of_bytes(1);
            lemma_le32_of_bytes(entry_count as nat);
            assert forall|b: int| 0 <= b < m.heads.len() implies #[trigger] m.heads[b] == 0 by {
                lemma_zero_bytes(hash.bytes().subrange(4 * b, 4 * b + 4));
            }
            assert forall|e: int| 0 <= e < m.rows.len() implies (#[trigger] m.rows[e]).len()
                == m.row_len() by {
                lemma_row_within(table.bytes().len() as int, row_len as int, e);
            }
            assert(m.rows[0] =~= header@);
            assert(m.rows[0].subrange(0, 4) =~= start.subrange(0, 4)) by {
                assert(header@.take(8) =~= start);
            }
            assert(start.subrange(0, 4) =~= le_bytes(1, 4));
            assert(m.rows[0].subrange(4, 8) =~= start.subrange(4, 8)) by {
                assert(header@.take(8) =~= start);
            }
            assert(start.subrange(4, 8) =~= le_bytes(entry_count as nat, 4));
            assert(m.rows[0].subrange(kl, kl + 4) =~= le_bytes(0, 4));
            lemma_empty(m);
        }
        Ok(())
    }

    /// Opens the table that the two files hold.
    pub fn new(hash: F, table: F, key_len: usize, info_len: usize) -> (r: Result<
        MetaTable<F>,
        Error,
    >)
        requires
            hash.inv(),
            table.inv(),
            key_len % 4 == 0,
            8 <= key_len + info_len <= usize::MAX - 4,
        ensures
            hash.bytes().len() % 4 != 0 || hash.bytes().len() == 0 ==> r == Err::<
                MetaTable<F>,
                Error,
            >(Error::SizeMismatch),
            hash.bytes().len() % 4 == 0 && hash.bytes().len() > 0 ==> {
                &&& r matches Ok(t)
                &&& t.inv()
                &&& t.hash == hash
                &&& t.table == table
                &&& t.key_len == key_len
                &&& t.info_len == info_len
                &&& t.ref_count@ == Map::<u32, u32>::empty()
                &&& (exists|g: Lists|
                    #[trigger] stored(hash, table, key_len as int, info_len as int, g)) ==> t.wf()
            },
    {
        let n: usize = hash.len();
        let _len: usize = table.len();
        if n % 4 != 0 || n == 0 {
            return make_error(Error::SizeMismatch);
        }
        let ghost g = choose|g: Lists|
            #[trigger] stored(hash, table, key_len as int, info_len as int, g);
        Ok(
            MetaTable {
                hash,
                table,
                key_len,
                info_len,
                ref_count: HashMap::new(),
                lists: Ghost(g),
            },
        )
    }

    /// The number of handles that are open for an index.
    pub open spec fn handles(&self, index: u32) -> int {
        if self.ref_count@.contains_key(index) {
            self.ref_count@[index] as int
        } else {
            0
        }
    }

    /// Counts one more handle for an index.
    pub fn acquire_ticket(&mut self, index: u32) -> (t: RefTicket)
        ensures
            t.index == index,
            *final(self) == (MetaTable { ref_count: final(self).ref_count, ..*old(self) }),
            final(self).handles(index) == if old(self).handles(index) == u32::MAX {
                u32::MAX as int
            } else {
                old(self).handles(index) + 1
            },
            forall|i: u32| i != index ==> #[trigger] final(self).handles(i) == old(self).handles(i),
    {
        broadcast use vstd::std_specs::hash::group_hash_axioms;

        let previous: u32 = match self.ref_count.get(&index) {
            Some(n) => *n,
            None => 0,
        };
        let next: u32 = if previous == u32::MAX {
            previous
        } else {
            previous + 1
        };
        self.ref_count.insert(index, next);
        RefTicket { index }
    }
}

/// A handle that is open for an index of a table.
#[derive(Debug, PartialEq, Eq, Structural)]
pub struct RefTicket {
    pub index: u32,
}

impl RefTicket {
    /// Succeeds if this is the only handle for its index.
    pub fn check_exclusive<F: RandomAccessFile>(&self, table: &MetaTable<F>) -> (r: Result<
        (),
        Error,
    >)
        ensures
            r == (if table.handles(self.index) == 1 {
                Ok::<(), Error>(())
            } else {
                Err::<(), Error>(Error::Busy)
            }),
    {
        broadcast use vstd::std_specs::hash::group_hash_axioms;

        match table.ref_count.get(&self.index) {
            Some(n) => if *n == 1 {
                Ok(())
            } else {
                make_error(Error::Busy)
            },
            None => make_error(Error::Busy),
        }
    }

    /// Gives the handle back.
    pub fn release<F: RandomAccessFile>(self, table: &mut MetaTable<F>)
        ensures
            *final(table) == (MetaTable { ref_count: final(table).ref_count, ..*old(table) }),
            final(table).handles(self.index) == if old(table).handles(self.index) == 0 {
                0
            } else {
                old(table).handles(self.index) - 1
            },
            forall|i: u32|
                i != self.index ==> #[trigger] final(table).handles(i) == old(table).handles(i),
    {
        broadcast use vstd::std_specs::hash::group_hash_axioms;

        let previous: u32 = match table.ref_count.get(&self.index) {
            Some(n) => *n,
            None => 0,
        };
        if previous <= 1 {
            table.ref_count.remove(&self.index);
        } else {
            table.ref_count.insert(self.index, previous - 1);
        }
    }
}

/// Zeros stand for zero.
pub proof fn lemma_zero_bytes(s: Seq<u8>)
    requires
        forall|i: int| 0 <= i < s.len() ==> #[trigger] s[i] == 0,
    ensures
        le_number(s) == 0,
    decreases s.len(),
{
    if s.len() > 0 {
        assert forall|i: int| 0 <= i < s.skip(1).len() implies #[trigger] s.skip(1)[i] == 0 by {
            assert(s.skip(1)[i] == s[i + 1]);
        }
        lemma_zero_bytes(s.skip(1));
    }
}

/// Whether the bytes are the same.
pub fn same_bytes(a: &[u8], b: &[u8]) -> (r: bool)
    ensures
        r == (a@ == b@),
{
    let n: usize = a.len();
    if b.len() != n {
        return false;
    }
    let mut i: usize = 0;
    while i < n
        invariant
            i <= n == a@.len() == b@.len(),
            forall|j: int| 0 <= j < i ==> a@[j] == b@[j],
        decreases n - i,
    {
        if a[i] != b[i] {
            return false;
        }
        i += 1;
    }
    assert(a@ =~= b@);
    true
}

/// The keys in a table have one length.
pub proof fn lemma_key_len<F: RandomAccessFile>(t: MetaTable<F>, e: int)
    requires
        t.wf(),
        t.entries().contains_key(e),
    ensures
        t.entries()[e].0.len() == t.key_len,
{
    let m = t.model();
    assert(live(m, t.lists@, e));
    lemma_row_within(t.table.bytes().len() as int, t.key_len + t.info_len + 4, e);
}

} // verus!
