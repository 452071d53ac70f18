use vstd::prelude::*;

verus! {

use crate::little_endian::{le32, le_bytes, lemma_le32_of_bytes, lemma_le_number_bound};
use crate::random_access_file::spliced;

/// The hash of the first `n` words of a key.
pub open spec fn hash_words(key: Seq<u8>, n: nat) -> u32
    decreases n,
{
    if n == 0 {
        0x1234_5678
    } else {
        let h = hash_words(key, (n - 1) as nat);
        ((h >> 1) | (h << 31)) ^ (le32(key, 4 * (n - 1)) as u32)
    }
}

/// The hash of a key: its words are rotated in, one by one.
pub open spec fn key_hash(key: Seq<u8>) -> u32 {
    hash_words(key, key.len() / 4)
}

/// A hash table as it is stored: the first entry of each bucket, and the entries. An entry
/// has a key, an info and the index of the next entry of its list. Entry 0 is a header: its
/// first word counts the entries that were ever used, the second one tells how many there can
/// be, and its list is that of the entries that are free again.
pub struct Meta {
    pub heads: Seq<nat>,
    pub rows: Seq<Seq<u8>>,
    pub key_len: nat,
    pub info_len: nat,
}

impl Meta {
    pub open spec fn row_len(self) -> nat {
        self.key_len + self.info_len + 4
    }

    pub open spec fn key(self, e: int) -> Seq<u8> {
        self.rows[e].take(self.key_len as int)
    }

    pub open spec fn info(self, e: int) -> Seq<u8> {
        self.rows[e].subrange(self.key_len as int, (self.key_len + self.info_len) as int)
    }

    /// The entry behind entry `e` in its list, or 0.
    pub open spec fn link(self, e: int) -> nat {
        le32(self.rows[e], (self.key_len + self.info_len) as int)
    }

    /// The number of entries that were ever used, the header being one.
    pub open spec fn count(self) -> nat {
        le32(self.rows[0], 0)
    }

    /// The number of entries that there can be, the header being one.
    pub open spec fn max(self) -> nat {
        le32(self.rows[0], 4)
    }

    /// The first entry of list `b`, or 0. The list behind the last bucket holds the free entries.
    pub open spec fn head(self, b: int) -> nat {
        if b < self.heads.len() {
            self.heads[b]
        } else {
            self.link(0)
        }
    }

    pub open spec fn bucket(self, key: Seq<u8>) -> int {
        (key_hash(key) as int) % (self.heads.len() as int)
    }
}

/// The lists of a hash table, each with its first entry at the end, and the place of each entry.
pub struct Lists {
    pub lists: Seq<Seq<int>>,
    pub pos: Seq<(int, int)>,
}

impl Lists {
    pub open spec fn item(self, b: int, i: int) -> int {
        self.lists[b][i]
    }

    /// What entry `i` of list `b` is linked to.
    pub open spec fn below(self, b: int, i: int) -> int {
        if i == 0 {
            0
        } else {
            self.lists[b][i - 1]
        }
    }

    /// The first entry of list `b`, or 0.
    pub open spec fn top(self, b: int) -> int {
        if self.lists[b].len() == 0 {
            0
        } else {
            self.lists[b].last()
        }
    }
}

pub open spec fn sized(m: Meta, g: Lists) -> bool {
    &&& m.heads.len() > 0
    &&& m.key_len + m.info_len >= 8
    &&& forall|e: int| 0 <= e < m.rows.len() ==> (#[trigger] m.rows[e]).len() == m.row_len()
    &&& 1 <= m.count() <= m.max() <= m.rows.len()
    &&& g.lists.len() == m.heads.len() + 1
    &&& g.pos.len() == m.count()
}

pub open spec fn threaded(m: Meta, g: Lists) -> bool {
    forall|b: int, i: int|
        0 <= b < g.lists.len() && 0 <= i < g.lists[b].len() ==> {
            let e = #[trigger] g.item(b, i);
            1 <= e < m.count() && g.pos[e] == (b, i) && m.link(e) == g.below(b, i)
        }
}

pub open spec fn headed(m: Meta, g: Lists) -> bool {
    forall|b: int| 0 <= b < g.lists.len() ==> #[trigger] m.head(b) == g.top(b)
}

pub open spec fn placed(m: Meta, g: Lists) -> bool {
    forall|e: int|
        1 <= e < m.count() ==> {
            let p = #[trigger] g.pos[e];
            0 <= p.0 < g.lists.len() && 0 <= p.1 < g.lists[p.0].len() && g.item(p.0, p.1) == e
        }
}

/// Whether entry `e` is in use.
pub open spec fn live(m: Meta, g: Lists, e: int) -> bool {
    1 <= e < m.count() && g.pos[e].0 < m.heads.len()
}

pub open spec fn keyed(m: Meta, g: Lists) -> bool {
    forall|e: int| live(m, g, e) ==> m.bucket(#[trigger] m.key(e)) == g.pos[e].0
}

pub open spec fn distinct(m: Meta, g: Lists) -> bool {
    forall|e: int, f: int|
        live(m, g, e) && live(m, g, f) && e != f ==> #[trigger] m.key(e) != #[trigger] m.key(f)
}

/// The stored table has these lists, each entry in use is in the list of the bucket of its key,
/// and no two of them have the same key.
pub open spec fn listed(m: Meta, g: Lists) -> bool {
    &&& sized(m, g)
    &&& threaded(m, g)
    &&& headed(m, g)
    &&& placed(m, g)
    &&& keyed(m, g)
    &&& distinct(m, g)
}

/// The entries in use, with key and info.
pub open spec fn entries(m: Meta, g: Lists) -> Map<int, (Seq<u8>, Seq<u8>)> {
    Map::new(|e: int| live(m, g, e), |e: int| (m.key(e), m.info(e)))
}

/// The number of entries that can be added.
pub open spec fn room(m: Meta, g: Lists) -> int {
    m.max() - m.count() + g.lists[m.heads.len() as int].len()
}

/// The entry that the next addition will use.
pub open spec fn next_free(m: Meta, g: Lists) -> int {
    if m.link(0) != 0 {
        m.link(0) as int
    } else {
        m.count() as int
    }
}

/// An entry with this key, info and link.
pub open spec fn new_row(key: Seq<u8>, info: Seq<u8>, link: nat) -> Seq<u8> {
    key + info + le_bytes(link, 4)
}

pub proof fn lemma_new_row(m: Meta, e: int, key: Seq<u8>, info: Seq<u8>, link: nat)
    requires
        m.rows[e] == new_row(key, info, link),
        key.len() == m.key_len,
        info.len() == m.info_len,
        link < 0x1_0000_0000,
    ensures
        m.rows[e].len() == m.row_len(),
        m.key(e) == key,
        m.info(e) == info,
        m.link(e) == link,
{
    lemma_le32_of_bytes(link);
    assert(m.key(e) =~= key);
    assert(m.info(e) =~= info);
    let kl = (m.key_len + m.info_len) as int;
    assert(m.rows[e].subrange(kl, kl + 4) =~= le_bytes(link, 4));
}

/// The header with another first free entry.
pub open spec fn with_link(row: Seq<u8>, kl: int, v: nat) -> Seq<u8> {
    spliced(row, kl, le_bytes(v, 4))
}

/// The header with another count.
pub open spec fn with_count(row: Seq<u8>, v: nat) -> Seq<u8> {
    spliced(row, 0, le_bytes(v, 4))
}

pub proof fn lemma_with_link(a: Meta, b: Meta, v: nat)
    requires
        a.rows.len() > 0,
        b.rows.len() > 0,
        a.key_len == b.key_len,
        a.info_len == b.info_len,
        a.key_len + a.info_len >= 8,
        a.rows[0].len() == a.row_len(),
        v < 0x1_0000_0000,
        b.rows[0] == with_link(a.rows[0], (a.key_len + a.info_len) as int, v),
    ensures
        b.rows[0].len() == a.row_len(),
        b.count() == a.count(),
        b.max() == a.max(),
        b.link(0) == v,
{
    lemma_le32_of_bytes(v);
    let kl = (a.key_len + a.info_len) as int;
    assert(b.rows[0].subrange(0, 4) =~= a.rows[0].subrange(0, 4));
    assert(b.rows[0].subrange(4, 8) =~= a.rows[0].subrange(4, 8));
    assert(b.rows[0].subrange(kl, kl + 4) =~= le_bytes(v, 4));
}

pub proof fn lemma_with_count(a: Meta, b: Meta, v: nat)
    requires
        a.rows.len() > 0,
        b.rows.len() > 0,
        a.key_len == b.key_len,
        a.info_len == b.info_len,
        a.key_len + a.info_len >= 8,
        a.rows[0].len() == a.row_len(),
        v < 0x1_0000_0000,
        b.rows[0] == with_count(a.rows[0], v),
    ensures
        b.rows[0].len() == a.row_len(),
        b.count() == v,
        b.max() == a.max(),
        b.link(0) == a.link(0),
{
    lemma_le32_of_bytes(v);
    let kl = (a.key_len + a.info_len) as int;
    assert(b.rows[0].subrange(0, 4) =~= le_bytes(v, 4));
    assert(b.rows[0].subrange(4, 8) =~= a.rows[0].subrange(4, 8));
    assert(b.rows[0].subrange(kl, kl + 4) =~= a.rows[0].subrange(kl, kl + 4));
}

pub proof fn lemma_bounds(m: Meta, g: Lists)
    requires
        sized(m, g),
    ensures
        m.count() < 0x1_0000_0000,
        m.max() < 0x1_0000_0000,
        forall|e: int| 0 <= e < m.rows.len() ==> #[trigger] m.link(e) < 0x1_0000_0000,
{
    assert(m.rows[0].len() == m.row_len());
    lemma_le32_bound(m.rows[0], 0);
    lemma_le32_bound(m.rows[0], 4);
    assert forall|e: int| 0 <= e < m.rows.len() implies #[trigger] m.link(e) < 0x1_0000_0000 by {
        assert(m.rows[e].len() == m.row_len());
        lemma_le32_bound(m.rows[e], (m.key_len + m.info_len) as int);
    }
}

pub proof fn lemma_le32_bound(s: Seq<u8>, p: int)
    requires
        0 <= p,
        p + 4 <= s.len(),
    ensures
        le32(s, p) < 0x1_0000_0000,
{
    lemma_le_number_bound(s.subrange(p, p + 4));
}

/// Another info for an entry.
pub open spec fn with_info(row: Seq<u8>, kl: int, info: Seq<u8>) -> Seq<u8> {
    spliced(row, kl, info)
}

/// Setting the info of an entry changes nothing else.
pub proof fn lemma_info_set(a: Meta, g: Lists, b: Meta, e: int, info: Seq<u8>)
    requires
        listed(a, g),
        1 <= e < a.rows.len(),
        info.len() == a.info_len,
        b == (Meta {
            rows: a.rows.update(e, with_info(a.rows[e], a.key_len as int, info)),
            ..a
        }),
    ensures
        listed(b, g),
        live(a, g, e) ==> entries(b, g) == entries(a, g).insert(e, (a.key(e), info)),
        !live(a, g, e) ==> entries(b, g) == entries(a, g),
        room(b, g) == room(a, g),
        next_free(b, g) == next_free(a, g),
{
    let kl = a.key_len as int;
    let el = (a.key_len + a.info_len) as int;
    assert(a.rows[e].len() == a.row_len());
    assert(b.rows[e].take(kl) =~= a.rows[e].take(kl));
    assert(b.rows[e].subrange(kl, el) =~= info);
    assert(b.rows[e].subrange(el, el + 4) =~= a.rows[e].subrange(el, el + 4));
    assert(forall|x: int| 0 <= x < a.rows.len() ==> #[trigger] b.key(x) == a.key(x));
    assert(forall|x: int| 0 <= x < a.rows.len() ==> #[trigger] b.link(x) == a.link(x));
    assert(forall|x: int| #[trigger] b.head(x) == a.head(x));
    assert(forall|x: int| #[trigger] live(b, g, x) == live(a, g, x));
    if live(a, g, e) {
        assert(entries(b, g) =~= entries(a, g).insert(e, (a.key(e), info)));
    } else {
        assert(entries(b, g) =~= entries(a, g));
    }
}

/// A key that is in the table is in the list of its bucket.
pub proof fn lemma_key_in_bucket(m: Meta, g: Lists, e: int)
    requires
        listed(m, g),
        live(m, g, e),
    ensures
        0 <= g.pos[e].1 < g.lists[m.bucket(m.key(e))].len(),
        g.item(m.bucket(m.key(e)), g.pos[e].1) == e,
{
    let p = g.pos[e];
    assert(m.bucket(m.key(e)) == p.0);
}

/// The lists after a free entry has been taken for bucket `h`.
pub open spec fn lists_reused(g: Lists, h: int, free: int, e: int) -> Lists {
    Lists {
        lists: g.lists.update(free, g.lists[free].drop_last()).update(h, g.lists[h].push(e)),
        pos: g.pos.update(e, (h, g.lists[h].len() as int)),
    }
}

/// The table after a free entry has been taken for a new key.
pub open spec fn meta_reused(m: Meta, key: Seq<u8>, info: Seq<u8>) -> Meta {
    let h = m.bucket(key);
    let e = m.link(0) as int;
    let kl = (m.key_len + m.info_len) as int;
    Meta {
        heads: m.heads.update(h, e as nat),
        rows: m.rows.update(0, with_link(m.rows[0], kl, m.link(e))).update(
            e,
            new_row(key, info, m.heads[h]),
        ),
        ..m
    }
}

/// The table after an entry that was never used has been taken for a new key.
pub open spec fn meta_extended(m: Meta, key: Seq<u8>, info: Seq<u8>) -> Meta {
    let h = m.bucket(key);
    let e = m.count() as int;
    Meta {
        heads: m.heads.update(h, e as nat),
        rows: m.rows.update(0, with_count(m.rows[0], m.count() + 1)).update(
            e,
            new_row(key, info, m.heads[h]),
        ),
        ..m
    }
}

pub open spec fn lists_extended(g: Lists, h: int, e: int) -> Lists {
    Lists { lists: g.lists.update(h, g.lists[h].push(e)), pos: g.pos.push((h, g.lists[h].len() as int)) }
}

/// No entry in use has this key.
pub open spec fn absent(m: Meta, g: Lists, key: Seq<u8>) -> bool {
    forall|e: int| live(m, g, e) ==> #[trigger] m.key(e) != key
}

pub proof fn lemma_bucket(m: Meta, key: Seq<u8>)
    requires
        m.heads.len() > 0,
    ensures
        0 <= m.bucket(key) < m.heads.len(),
{
    vstd::arithmetic::div_mod::lemma_mod_bound(key_hash(key) as int, m.heads.len() as int);
}

pub proof fn lemma_reused(m: Meta, g: Lists, key: Seq<u8>, info: Seq<u8>)
    requires
        listed(m, g),
        m.link(0) != 0,
        key.len() == m.key_len,
        info.len() == m.info_len,
        absent(m, g, key),
    ensures
        1 <= m.link(0) < m.count(),
        m.link(m.link(0) as int) < 0x1_0000_0000,
        ({
            let b = meta_reused(m, key, info);
            let e = m.link(0) as int;
            let f = lists_reused(g, m.bucket(key), m.heads.len() as int, e);
            &&& listed(b, f)
            &&& !live(m, g, e)
            &&& entries(b, f) == entries(m, g).insert(e, (key, info))
            &&& room(b, f) == room(m, g) - 1
        }),
{
    let b = meta_reused(m, key, info);
    let e = m.link(0) as int;
    let h = m.bucket(key);
    let n = m.heads.len() as int;
    let f = lists_reused(g, h, n, e);
    let kl = (m.key_len + m.info_len) as int;
    lemma_bucket(m, key);
    lemma_bounds(m, g);
    assert(m.head(n) == g.top(n));
    let k = g.lists[n].len() - 1;
    assert(g.item(n, k) == e);
    assert(m.link(e) == g.below(n, k));
    assert(m.head(h) == g.top(h));
    assert(m.heads[h] < 0x1_0000_0000) by {
        if g.lists[h].len() > 0 {
            assert(g.item(h, g.lists[h].len() - 1) == m.heads[h]);
        }
    }
    lemma_with_link(m, b, m.link(e));
    lemma_new_row(b, e, key, info, m.heads[h]);
    assert(forall|x: int| 1 <= x < m.rows.len() && x != e ==> #[trigger] b.rows[x] == m.rows[x]);
    assert(forall|x: int| 1 <= x && x != e ==> #[trigger] live(b, f, x) == live(m, g, x));
    assert(sized(b, f));
    assert(threaded(b, f)) by {
        assert forall|c: int, i: int| 0 <= c < f.lists.len() && 0 <= i < f.lists[c].len() implies {
            let x = #[trigger] f.item(c, i);
            1 <= x < b.count() && f.pos[x] == (c, i) && b.link(x) == f.below(c, i)
        } by {
            if c == h && i == g.lists[h].len() {
                assert(f.item(c, i) == e);
            } else {
                let x = g.item(c, i);
                assert(f.item(c, i) == x);
                assert(g.pos[x] == (c, i));
                assert(x != e);
                assert(b.rows[x] == m.rows[x]);
                assert(f.below(c, i) == g.below(c, i));
                assert(m.link(x) == g.below(c, i));
            }
        }
    }
    assert(headed(b, f)) by {
        assert forall|c: int| 0 <= c < f.lists.len() implies #[trigger] b.head(c) == f.top(c) by {
            assert(m.head(c) == g.top(c));
        }
    }
    assert(placed(b, f)) by {
        assert forall|x: int| 1 <= x < b.count() implies ({
            let p = #[trigger] f.pos[x];
            0 <= p.0 < f.lists.len() && 0 <= p.1 < f.lists[p.0].len() && f.item(p.0, p.1) == x
        }) by {
            if x != e {
                let p = g.pos[x];
                assert(g.item(p.0, p.1) == x);
                assert(!(p.0 == n && p.1 == k));
                assert(f.item(p.0, p.1) == x);
            } else {
                assert(f.item(h, g.lists[h].len() as int) == e);
            }
        }
    }
    assert(keyed(b, f)) by {
        assert forall|x: int| live(b, f, x) implies b.bucket(#[trigger] b.key(x)) == f.pos[x].0 by {
            if x != e {
                assert(live(m, g, x));
                assert(b.key(x) == m.key(x));
            }
        }
    }
    assert(distinct(b, f)) by {
        assert forall|x: int, y: int| live(b, f, x) && live(b, f, y) && x != y implies
            #[trigger] b.key(x) != #[trigger] b.key(y) by {
            if x != e {
                assert(live(m, g, x));
                assert(b.key(x) == m.key(x));
            }
            if y != e {
                assert(live(m, g, y));
                assert(b.key(y) == m.key(y));
            }
        }
    }
    assert(live(b, f, e));
    assert(entries(b, f) =~= entries(m, g).insert(e, (key, info)));
}

pub proof fn lemma_extended(m: Meta, g: Lists, key: Seq<u8>, info: Seq<u8>)
    requires
        listed(m, g),
        m.link(0) == 0,
        m.count() < m.max(),
        key.len() == m.key_len,
        info.len() == m.info_len,
        absent(m, g, key),
    ensures
        ({
            let b = meta_extended(m, key, info);
            let e = m.count() as int;
            let f = lists_extended(g, m.bucket(key), e);
            &&& listed(b, f)
            &&& !live(m, g, e)
            &&& entries(b, f) == entries(m, g).insert(e, (key, info))
            &&& room(b, f) == room(m, g) - 1
        }),
{
    let b = meta_extended(m, key, info);
    let e = m.count() as int;
    let h = m.bucket(key);
    let n = m.heads.len() as int;
    let f = lists_extended(g, h, e);
    lemma_bucket(m, key);
    lemma_bounds(m, g);
    assert(m.head(h) == g.top(h));
    assert(m.heads[h] < 0x1_0000_0000) by {
        if g.lists[h].len() > 0 {
            assert(g.item(h, g.lists[h].len() - 1) == m.heads[h]);
        }
    }
    lemma_with_count(m, b, m.count() + 1);
    lemma_new_row(b, e, key, info, m.heads[h]);
    assert(forall|x: int| 1 <= x < m.rows.len() && x != e ==> #[trigger] b.rows[x] == m.rows[x]);
    assert(forall|x: int| x != e ==> #[trigger] live(b, f, x) == live(m, g, x));
    assert(sized(b, f));
    assert(threaded(b, f)) by {
        assert forall|c: int, i: int| 0 <= c < f.lists.len() && 0 <= i < f.lists[c].len() implies {
            let x = #[trigger] f.item(c, i);
            1 <= x < b.count() && f.pos[x] == (c, i) && b.link(x) == f.below(c, i)
        } by {
            if c == h && i == g.lists[h].len() {
                assert(f.item(c, i) == e);
            } else {
                let x = g.item(c, i);
                assert(f.item(c, i) == x);
                assert(g.pos[x] == (c, i));
                assert(b.rows[x] == m.rows[x]);
                assert(f.below(c, i) == g.below(c, i));
                assert(m.link(x) == g.below(c, i));
            }
        }
    }
    assert(headed(b, f)) by {
        assert forall|c: int| 0 <= c < f.lists.len() implies #[trigger] b.head(c) == f.top(c) by {
            assert(m.head(c) == g.top(c));
        }
    }
    assert(placed(b, f)) by {
        assert forall|x: int| 1 <= x < b.count() implies ({
            let p = #[trigger] f.pos[x];
            0 <= p.0 < f.lists.len() && 0 <= p.1 < f.lists[p.0].len() && f.item(p.0, p.1) == x
        }) by {
            if x != e {
                let p = g.pos[x];
                assert(g.item(p.0, p.1) == x);
                assert(f.item(p.0, p.1) == x);
            } else {
                assert(f.item(h, g.lists[h].len() as int) == e);
            }
        }
    }
    assert(keyed(b, f)) by {
        assert forall|x: int| live(b, f, x) implies b.bucket(#[trigger] b.key(x)) == f.pos[x].0 by {
            if x != e {
                assert(live(m, g, x));
                assert(b.key(x) == m.key(x));
            }
        }
    }
    assert(distinct(b, f)) by {
        assert forall|x: int, y: int| live(b, f, x) && live(b, f, y) && x != y implies
            #[trigger] b.key(x) != #[trigger] b.key(y) by {
            if x != e {
                assert(live(m, g, x));
                assert(b.key(x) == m.key(x));
            }
            if y != e {
                assert(live(m, g, y));
                assert(b.key(y) == m.key(y));
            }
        }
    }
    assert(live(b, f, e));
    assert(entries(b, f) =~= entries(m, g).insert(e, (key, info)));
}

/// The lists after entry `e` has been taken out of its bucket and put to the free ones.
pub open spec fn lists_removed(g: Lists, free: int, e: int) -> Lists {
    let h = g.pos[e].0;
    let i = g.pos[e].1;
    let n = g.lists[free].len() as int;
    Lists {
        lists: g.lists.update(h, g.lists[h].remove(i)).update(free, g.lists[free].push(e)),
        pos: Seq::new(
            g.pos.len(),
            |x: int|
                if x == e {
                    (free, n)
                } else if g.pos[x].0 == h && g.pos[x].1 > i {
                    (h, g.pos[x].1 - 1)
                } else {
                    g.pos[x]
                },
        ),
    }
}

/// The table after entry `e` has been unlinked from its bucket.
pub open spec fn meta_unlinked(m: Meta, g: Lists, e: int) -> Meta {
    let h = g.pos[e].0;
    let i = g.pos[e].1;
    let kl = (m.key_len + m.info_len) as int;
    if i == g.lists[h].len() - 1 {
        Meta { heads: m.heads.update(h, m.link(e)), ..m }
    } else {
        let x = g.lists[h][i + 1];
        Meta { rows: m.rows.update(x, with_link(m.rows[x], kl, m.link(e))), ..m }
    }
}

/// The table after entry `e`, which is in no bucket any more, has become the first free one. It
/// is a copy of the header, and so linked to the entry that was the first free one.
pub open spec fn meta_freed(m: Meta, e: int) -> Meta {
    let kl = (m.key_len + m.info_len) as int;
    Meta {
        rows: m.rows.update(e, m.rows[0]).update(0, with_link(m.rows[0], kl, e as nat)),
        ..m
    }
}

/// An entry with another link has the same key and info.
pub proof fn lemma_relinked(a: Meta, b: Meta, x: int, v: nat)
    requires
        a.key_len == b.key_len,
        a.info_len == b.info_len,
        a.rows[x].len() == a.row_len(),
        v < 0x1_0000_0000,
        b.rows[x] == with_link(a.rows[x], (a.key_len + a.info_len) as int, v),
    ensures
        b.rows[x].len() == a.row_len(),
        b.key(x) == a.key(x),
        b.info(x) == a.info(x),
        b.link(x) == v,
{
    lemma_le32_of_bytes(v);
    let kl = (a.key_len + a.info_len) as int;
    assert(b.key(x) =~= a.key(x));
    assert(b.info(x) =~= a.info(x));
    assert(b.rows[x].subrange(kl, kl + 4) =~= le_bytes(v, 4));
}

pub proof fn lemma_removed(m: Meta, g: Lists, e: int)
    requires
        listed(m, g),
        live(m, g, e),
    ensures
        ({
            let b = meta_freed(meta_unlinked(m, g, e), e);
            let f = lists_removed(g, m.heads.len() as int, e);
            &&& listed(b, f)
            &&& entries(b, f) == entries(m, g).remove(e)
            &&& room(b, f) == room(m, g) + 1
            &&& next_free(b, f) == e
        }),
{
    let u = meta_unlinked(m, g, e);
    let b = meta_freed(u, e);
    let n = m.heads.len() as int;
    let f = lists_removed(g, n, e);
    let h = g.pos[e].0;
    let i = g.pos[e].1;
    let top = g.lists[h].len() - 1;
    let kl = (m.key_len + m.info_len) as int;
    lemma_bounds(m, g);
    assert(g.item(h, i) == e);
    assert(m.link(e) == g.below(h, i));
    let above = g.lists[h][i + 1];
    if i < top {
        assert(g.item(h, i + 1) == above);
        assert(g.pos[above] == (h, i + 1));
        lemma_relinked(m, u, above, m.link(e));
    }
    assert(u.rows[0] == m.rows[0]);
    lemma_with_link(u, b, e as nat);
    assert(forall|x: int|
        1 <= x < m.rows.len() && x != e ==> #[trigger] b.key(x) == m.key(x) && b.info(x) == m.info(
            x,
        ));
    assert(forall|x: int|
        1 <= x < m.rows.len() && x != e && !(i < top && x == above) ==> #[trigger] b.link(x)
            == m.link(x));
    assert(b.link(e) == m.link(0));
    assert(forall|x: int| x != e ==> #[trigger] live(b, f, x) == live(m, g, x));
    assert(sized(b, f));
    assert(m.head(n) == g.top(n));
    assert(threaded(b, f)) by {
        assert forall|c: int, j: int| 0 <= c < f.lists.len() && 0 <= j < f.lists[c].len() implies {
            let x = #[trigger] f.item(c, j);
            1 <= x < b.count() && f.pos[x] == (c, j) && b.link(x) == f.below(c, j)
        } by {
            if c == n && j == g.lists[n].len() {
                assert(f.item(c, j) == e);
            } else if c == h && j >= i {
                let x = g.item(h, j + 1);
                assert(f.item(c, j) == x);
                assert(g.pos[x] == (h, j + 1));
                assert(m.link(x) == g.below(h, j + 1));
                if j == i {
                    assert(x == above);
                    assert(f.below(c, j) == g.below(h, i));
                } else {
                    assert(x != above);
                    assert(f.below(c, j) == g.lists[h][j]);
                }
            } else {
                let x = g.item(c, j);
                assert(f.item(c, j) == x);
                assert(g.pos[x] == (c, j));
                assert(x != e);
                assert(m.link(x) == g.below(c, j));
                assert(f.below(c, j) == g.below(c, j));
                if i < top {
                    assert(x != above);
                }
            }
        }
    }
    assert(headed(b, f)) by {
        assert forall|c: int| 0 <= c < f.lists.len() implies #[trigger] b.head(c) == f.top(c) by {
            assert(m.head(c) == g.top(c));
        }
    }
    assert(placed(b, f)) by {
        assert forall|x: int| 1 <= x < b.count() implies ({
            let p = #[trigger] f.pos[x];
            0 <= p.0 < f.lists.len() && 0 <= p.1 < f.lists[p.0].len() && f.item(p.0, p.1) == x
        }) by {
            if x != e {
                let p = g.pos[x];
                assert(g.item(p.0, p.1) == x);
                let q = f.pos[x];
                assert(f.item(q.0, q.1) == x);
            } else {
                assert(f.item(n, g.lists[n].len() as int) == e);
            }
        }
    }
    assert(keyed(b, f)) by {
        assert forall|x: int| live(b, f, x) implies b.bucket(#[trigger] b.key(x)) == f.pos[x].0 by {
            assert(x != e);
            assert(live(m, g, x));
            assert(m.bucket(m.key(x)) == g.pos[x].0);
        }
    }
    assert(distinct(b, f)) by {
        assert forall|x: int, y: int| live(b, f, x) && live(b, f, y) && x != y implies
            #[trigger] b.key(x) != #[trigger] b.key(y) by {
            assert(x != e && y != e);
            assert(live(m, g, x) && live(m, g, y));
            assert(m.key(x) != m.key(y));
        }
    }
    assert(entries(b, f) =~= entries(m, g).remove(e));
}

/// The lists of a table without entries.
pub open spec fn no_lists(buckets: nat) -> Lists {
    Lists { lists: Seq::new(buckets + 1, |b: int| Seq::<int>::empty()), pos: seq![(0, 0)] }
}

/// A table with an empty header and empty buckets has no entries.
pub proof fn lemma_empty(m: Meta)
    requires
        m.heads.len() > 0,
        forall|b: int| 0 <= b < m.heads.len() ==> #[trigger] m.heads[b] == 0,
        m.key_len + m.info_len >= 8,
        forall|e: int| 0 <= e < m.rows.len() ==> (#[trigger] m.rows[e]).len() == m.row_len(),
        m.count() == 1,
        1 <= m.max() <= m.rows.len(),
        m.link(0) == 0,
    ensures
        listed(m, no_lists(m.heads.len())),
        entries(m, no_lists(m.heads.len())) == Map::<int, (Seq<u8>, Seq<u8>)>::empty(),
        room(m, no_lists(m.heads.len())) == m.max() - 1,
        next_free(m, no_lists(m.heads.len())) == 1,
{
    let g = no_lists(m.heads.len());
    assert(entries(m, g) =~= Map::<int, (Seq<u8>, Seq<u8>)>::empty());
}

} // verus!
