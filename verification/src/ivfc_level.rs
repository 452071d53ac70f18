use crate::crypto::sha256_of;
use crate::error::{make_error, Error};
use crate::memory_file::MemoryFile;
use crate::meta_table::same_bytes;
use crate::misc::divide_up;
use crate::random_access_file::{copy_range, Content, RandomAccessFile, Shape, WholeFile};
use vstd::prelude::*;

verus! {

use crate::crypto::sha256;
use crate::misc::{counted, lemma_counted};
use crate::random_access_file::{all_readable, can_read, same_file, spliced};
use vstd::arithmetic::div_mod::*;
use vstd::arithmetic::mul::*;

/// The length of the hash of a block.
pub const HASH_LEN: usize = 0x20;

/// The content of a level: its bytes, the length of its blocks, and which of them have been
/// written since the last commit.
pub struct Part {
    pub bytes: Seq<u8>,
    pub block_len: int,
    pub modified: Seq<bool>,
}

/// Block `b` of some bytes, filled up with zeros.
pub open spec fn padded(s: Seq<u8>, block_len: int, b: int) -> Seq<u8> {
    Seq::new(
        block_len as nat,
        |i: int|
            if b * block_len + i < s.len() {
                s[b * block_len + i]
            } else {
                0
            },
    )
}

/// The bytes of level `k`. Below the first level there are the hashes of its blocks.
pub open spec fn level_bytes(master: Seq<u8>, parts: Seq<Part>, k: nat) -> Seq<u8> {
    if k == 0 {
        master
    } else {
        parts[k - 1].bytes
    }
}

/// The block of level `k` that position `i` is in.
pub open spec fn owner(parts: Seq<Part>, k: nat, i: int) -> int {
    if k == 0 {
        0
    } else {
        i / parts[k - 1].block_len
    }
}

/// Whether block `b` of level `k` may be read: it has been written, or its hash is stored in the
/// level below, where that may be read.
pub open spec fn block_ok(master: Seq<u8>, parts: Seq<Part>, k: nat, b: int) -> bool
    decreases k,
{
    if k == 0 {
        true
    } else {
        let p = parts[k - 1];
        let below = (k - 1) as nat;
        ||| p.modified[b]
        ||| {
            &&& forall|i: int|
                32 * b <= i < 32 * b + 32 ==> block_ok(
                    master,
                    parts,
                    below,
                    #[trigger] owner(parts, below, i),
                )
            &&& level_bytes(master, parts, below).subrange(32 * b, 32 * b + 32) == sha256(
                padded(p.bytes, p.block_len, b),
            )
        }
    }
}

/// Whether the byte at position `i` of level `k` may be read.
pub open spec fn below_ok(master: Seq<u8>, parts: Seq<Part>, k: nat, i: int) -> bool {
    block_ok(master, parts, k, owner(parts, k, i))
}

/// What may be read of a level depends on the levels below it only.
proof fn lemma_lower_same(master: Seq<u8>, a: Seq<Part>, b: Seq<Part>, k: nat, n: nat)
    requires
        k <= n <= a.len(),
        n <= b.len(),
        forall|j: int| 0 <= j < n ==> #[trigger] a[j] == b[j],
    ensures
        forall|x: int| #[trigger] block_ok(master, b, k, x) == block_ok(master, a, k, x),
        forall|i: int| #[trigger] below_ok(master, b, k, i) == below_ok(master, a, k, i),
    decreases k,
{
    if k > 0 {
        lemma_lower_same(master, a, b, (k - 1) as nat, n);
        assert(a[k - 1] == b[k - 1]);
        assert(level_bytes(master, a, (k - 1) as nat) == level_bytes(master, b, (k - 1) as nat)) by {
            if k > 1 {
                assert(a[k - 2] == b[k - 2]);
            }
        }
        let below = (k - 1) as nat;
        assert forall|i: int| #[trigger] owner(b, below, i) == owner(a, below, i) by {
            if below > 0 {
                assert(a[below - 1] == b[below - 1]);
            }
        }
        assert forall|x: int| #[trigger] block_ok(master, b, k, x) == block_ok(master, a, k, x) by {
            if block_ok(master, a, k, x) && !a[k - 1].modified[x] {
                assert forall|i: int| 32 * x <= i < 32 * x + 32 implies block_ok(
                    master,
                    b,
                    below,
                    #[trigger] owner(b, below, i),
                ) by {
                    assert(block_ok(master, a, below, owner(a, below, i)));
                }
            }
            if block_ok(master, b, k, x) && !b[k - 1].modified[x] {
                assert forall|i: int| 32 * x <= i < 32 * x + 32 implies block_ok(
                    master,
                    a,
                    below,
                    #[trigger] owner(a, below, i),
                ) by {
                    assert(block_ok(master, b, below, owner(b, below, i)));
                }
            }
        }
    }
}

/// The blocks of each level have a flag and, in the level below, room for a hash.
pub open spec fn shaped(master: Seq<u8>, parts: Seq<Part>) -> bool {
    forall|k: int|
        0 <= k < parts.len() ==> {
            let p = #[trigger] parts[k];
            &&& p.block_len > 0
            &&& p.modified.len() == counted(p.bytes.len() as int, p.block_len)
            &&& 32 * p.modified.len() <= level_bytes(master, parts, k as nat).len()
        }
}

/// The block that the hash of block `x` is in is a block of the level below.
proof fn lemma_owner_in_range(master: Seq<u8>, parts: Seq<Part>, k: nat, x: int, i: int)
    requires
        shaped(master, parts),
        1 <= k < parts.len(),
        0 <= x < parts[k as int].modified.len(),
        32 * x <= i < 32 * x + 32,
    ensures
        0 <= owner(parts, k, i) < parts[k - 1].modified.len(),
{
    let p = parts[k as int];
    let q = parts[k - 1];
    lemma_count_of(q.bytes.len() as int, q.block_len, i);
}

/// Level `k` has become no worse: what could be read can be read, and reads the same.
pub open spec fn no_worse(
    m1: Seq<u8>,
    a: Seq<Part>,
    m2: Seq<u8>,
    b: Seq<Part>,
    k: nat,
) -> bool {
    &&& level_bytes(m2, b, k) == level_bytes(m1, a, k)
    &&& forall|x: int|
        k > 0 && 0 <= x < a[k - 1].modified.len() && block_ok(m1, a, k, x) ==> #[trigger] block_ok(
            m2,
            b,
            k,
            x,
        )
}

/// If a level is no worse, so is a level above it that has not changed.
proof fn lemma_upward(
    m1: Seq<u8>,
    a: Seq<Part>,
    m2: Seq<u8>,
    b: Seq<Part>,
    k: nat,
    n: nat,
)
    requires
        1 <= k <= n <= a.len(),
        a.len() == b.len(),
        shaped(m1, a),
        no_worse(m1, a, m2, b, k),
        b[k - 1].block_len == a[k - 1].block_len,
        forall|j: int| k <= j < n ==> #[trigger] a[j] == b[j],
    ensures
        no_worse(m1, a, m2, b, n),
    decreases n,
{
    if n > k {
        lemma_upward(m1, a, m2, b, k, (n - 1) as nat);
        assert(a[n - 1] == b[n - 1]);
        if n - 1 > k {
            assert(a[n - 2] == b[n - 2]);
        }
        assert forall|x: int|
            0 <= x < a[n - 1].modified.len() && block_ok(m1, a, n, x) implies #[trigger] block_ok(
            m2,
            b,
            n,
            x,
        ) by {
            if !a[n - 1].modified[x] {
                let below = (n - 1) as nat;
                assert forall|i: int| 32 * x <= i < 32 * x + 32 implies block_ok(
                    m2,
                    b,
                    below,
                    #[trigger] owner(b, below, i),
                ) by {
                    assert(owner(b, below, i) == owner(a, below, i));
                    lemma_owner_in_range(m1, a, below, x, i);
                    assert(block_ok(m1, a, below, owner(a, below, i)));
                }
            }
        }
    }
}

/// The flags with those of the blocks of a range set.
pub open spec fn marked(m: Seq<bool>, block_len: int, pos: int, end: int) -> Seq<bool> {
    Seq::new(
        m.len(),
        |b: int| m[b] || (pos < end && pos / block_len <= b <= (end - 1) / block_len),
    )
}

/// A level with bytes written to it.
pub open spec fn part_written(p: Part, pos: int, data: Seq<u8>) -> Part {
    Part {
        bytes: spliced(p.bytes, pos, data),
        block_len: p.block_len,
        modified: marked(p.modified, p.block_len, pos, pos + data.len()),
    }
}

/// Writing to level `k`, counted from 1, makes no block of it unreadable, and makes the written
/// blocks readable.
proof fn lemma_written(master: Seq<u8>, a: Seq<Part>, k: nat, pos: int, data: Seq<u8>)
    requires
        shaped(master, a),
        1 <= k <= a.len(),
        0 <= pos,
        pos + data.len() <= a[k - 1].bytes.len(),
    ensures
        ({
            let b = a.update(k - 1, part_written(a[k - 1], pos, data));
            &&& forall|x: int|
                0 <= x < a[k - 1].modified.len() && block_ok(master, a, k, x)
                    ==> #[trigger] block_ok(master, b, k, x)
            &&& forall|i: int|
                pos <= i < pos + data.len() ==> block_ok(master, b, k, #[trigger] owner(b, k, i))
        }),
{
    let p = a[k - 1];
    let q = part_written(p, pos, data);
    let b = a.update(k - 1, q);
    let below = (k - 1) as nat;
    let bl = p.block_len;
    let end = pos + data.len();
    lemma_lower_same(master, a, b, below, below);
    assert forall|x: int| 0 <= x < p.modified.len() && block_ok(master, a, k, x) implies
        #[trigger] block_ok(master, b, k, x) by {
        if !q.modified[x] {
            assert(padded(q.bytes, bl, x) =~= padded(p.bytes, bl, x)) by {
                assert forall|i: int| 0 <= i < bl implies #[trigger] padded(q.bytes, bl, x)[i]
                    == padded(p.bytes, bl, x)[i] by {
                    let t = x * bl + i;
                    lemma_mul_nonnegative(x, bl);
                    if pos <= t < end {
                        lemma_fundamental_div_mod_converse(t, bl, x, i);
                        lemma_div_is_ordered(pos, t, bl);
                        lemma_div_is_ordered(t, end - 1, bl);
                    }
                }
            }
            assert forall|i: int| #[trigger] owner(b, below, i) == owner(a, below, i) by {}
            assert forall|i: int| 32 * x <= i < 32 * x + 32 implies block_ok(
                master,
                b,
                below,
                #[trigger] owner(b, below, i),
            ) by {
                assert(block_ok(master, a, below, owner(a, below, i)));
            }
            assert(level_bytes(master, b, below) == level_bytes(master, a, below));
        }
    }
    assert forall|i: int| pos <= i < end implies block_ok(
        master,
        b,
        k,
        #[trigger] owner(b, k, i),
    ) by {
        lemma_count_of(p.bytes.len() as int, bl, i);
        lemma_div_is_ordered(pos, i, bl);
        lemma_div_is_ordered(i, end - 1, bl);
        assert(q.modified[i / bl]);
    }
}

/// A level of the tree of hashes: where its bytes are.
pub struct Level {
    pub offset: usize,
    pub len: usize,
    pub block_len: usize,
    pub modified: Vec<bool>,
}

/// A file whose blocks are checked against their hashes. The hashes are kept in another level,
/// whose blocks are checked in the same way, and so on down to the hashes of the first level.
///
/// The levels are ranges of `data`. The bytes of the last one may be in a file of their own.
pub struct IvfcLevel<D> {
    pub master: MemoryFile,
    pub data: D,
    pub external: Option<MemoryFile>,
    pub levels: Vec<Level>,
}

/// The ranges of two levels have no position in common.
pub open spec fn levels_apart(a: Level, b: Level) -> bool {
    a.offset + a.len <= b.offset || b.offset + b.len <= a.offset
}

impl<D: RandomAccessFile> IvfcLevel<D> {
    /// Whether level `k`, counted from 0, has a file of its own.
    pub open spec fn is_external(&self, k: int) -> bool {
        self.external is Some && k == self.levels@.len() - 1
    }

    pub open spec fn part(&self, k: int) -> Part {
        let l = self.levels@[k];
        Part {
            bytes: if self.is_external(k) {
                self.external->0.bytes()
            } else {
                self.data.bytes().subrange(l.offset as int, l.offset + l.len)
            },
            block_len: l.block_len as int,
            modified: l.modified@,
        }
    }

    pub open spec fn parts(&self) -> Seq<Part> {
        Seq::new(self.levels@.len(), |k: int| self.part(k))
    }

    /// Nothing has been written since the last commit.
    pub open spec fn clean(&self) -> bool {
        forall|k: int, b: int|
            0 <= k < self.levels@.len() && 0 <= b < self.levels@[k].modified@.len()
                ==> !#[trigger] self.levels@[k].modified@[b]
    }

    pub open spec fn level_ok(&self, k: int) -> bool {
        let l = self.levels@[k];
        let below = if k == 0 {
            self.master.bytes().len() as int
        } else {
            self.levels@[k - 1].len as int
        };
        &&& l.block_len > 0
        &&& l.modified@.len() == counted(l.len as int, l.block_len as int)
        &&& 32 * l.modified@.len() <= below
        &&& if self.is_external(k) {
            self.external->0.bytes().len() == l.len
        } else {
            l.offset + l.len <= self.data.bytes().len()
        }
    }
}

impl<D: RandomAccessFile> Content for IvfcLevel<D> {
    open spec fn inv(&self) -> bool {
        &&& self.data.inv()
        &&& all_readable(self.data, 0, self.data.bytes().len() as int)
        &&& self.data.bytes().len() <= usize::MAX
        &&& self.levels@.len() > 0
        &&& forall|k: int| 0 <= k < self.levels@.len() ==> #[trigger] self.level_ok(k)
        &&& forall|j: int, k: int|
            0 <= j < k < self.levels@.len() && !self.is_external(k) ==> levels_apart(
                #[trigger] self.levels@[j],
                #[trigger] self.levels@[k],
            )
    }

    open spec fn bytes(&self) -> Seq<u8> {
        self.parts().last().bytes
    }

    open spec fn readable(&self, i: int) -> bool {
        0 <= i < self.bytes().len() && below_ok(
            self.master.bytes(),
            self.parts(),
            self.parts().len(),
            i,
        )
    }

    open spec fn durable(&self) -> Seq<u8> {
        self.bytes()
    }

    open spec fn staged(&self) -> bool {
        false
    }

    open spec fn shape(&self) -> Shape {
        Shape::Parts(
            Box::new(self.master.shape()),
            Box::new(self.data.shape()),
            Box::new(
                match self.external {
                    Some(f) => f.shape(),
                    None => Shape::Bytes(0),
                },
            ),
            0,
        )
    }

    open spec fn committable(&self) -> bool {
        true
    }
}

/// Two files that hold the same.
pub open spec fn same_levels<D: RandomAccessFile>(a: IvfcLevel<D>, b: IvfcLevel<D>) -> bool {
    &&& b.master == a.master
    &&& b.external == a.external
    &&& b.levels == a.levels
    &&& same_file(a.data, b.data)
    &&& b.data.inv()
    &&& b.data.durable() == a.data.durable()
    &&& b.data.staged() == a.data.staged()
    &&& b.data.shape() == a.data.shape()
}

proof fn lemma_same_levels<D: RandomAccessFile>(a: IvfcLevel<D>, b: IvfcLevel<D>)
    requires
        a.inv(),
        same_levels(a, b),
    ensures
        b.inv(),
        b.parts() == a.parts(),
        same_file(a, b),
{
    assert forall|k: int| 0 <= k < b.levels@.len() implies #[trigger] b.level_ok(k) by {
        assert(a.level_ok(k));
    }
    assert(b.parts() =~= a.parts());
    assert forall|j: int, k: int|
        0 <= j < k < b.levels@.len() && !b.is_external(k) implies levels_apart(
        #[trigger] b.levels@[j],
        #[trigger] b.levels@[k],
    ) by {
        assert(!a.is_external(k));
    }
}

impl<D: RandomAccessFile> IvfcLevel<D> {
    /// Reads bytes of level `k`, counted from 0, unchecked.
    fn raw_load(&mut self, k: usize, pos: usize, len: usize) -> (r: Result<Vec<u8>, Error>)
        requires
            old(self).inv(),
            k < old(self).levels@.len(),
            pos + len <= old(self).levels@[k as int].len,
        ensures
            final(self).inv(),
            same_levels(*old(self), *final(self)),
            r matches Ok(v) && v@ == old(self).parts()[k as int].bytes.subrange(
                pos as int,
                pos + len,
            ),
    {
        assert(self.level_ok(k as int));
        if k == self.levels.len() - 1 {
            if let Some(f) = &self.external {
                return Ok(copy_range(&f.data, pos, len));
            }
        }
        let offset: usize = self.levels[k].offset;
        let ghost before = *self;
        match self.data.load(offset + pos, len) {
            Ok(v) => {
                proof {
                    lemma_same_levels(before, *self);
                    let l = before.levels@[k as int];
                    assert(v@ =~= before.parts()[k as int].bytes.subrange(pos as int, pos + len));
                }
                Ok(v)
            },
            Err(e) => {
                assert(can_read(before.data, offset + pos, len as int));
                Err(e)
            },
        }
    }

    /// Calculates the hash of a block of level `k`, counted from 0.
    fn block_hash(&mut self, k: usize, b: usize) -> (r: Result<Vec<u8>, Error>)
        requires
            old(self).inv(),
            k < old(self).levels@.len(),
            b < old(self).levels@[k as int].modified@.len(),
        ensures
            final(self).inv(),
            same_levels(*old(self), *final(self)),
            r matches Ok(v) && v@.len() == 32 && v@ == sha256(
                padded(
                    old(self).parts()[k as int].bytes,
                    old(self).parts()[k as int].block_len,
                    b as int,
                ),
            ),
    {
        assert(self.level_ok(k as int));
        let block_len: usize = self.levels[k].block_len;
        let len: usize = self.levels[k].len;
        let ghost bl = block_len as int;
        proof {
            lemma_counted(len as int, bl);
            lemma_mul_inequality(b as int, counted(len as int, bl) - 1, bl);
            lemma_mul_is_distributive_sub_other_way(bl, counted(len as int, bl), 1);
            lemma_mul_nonnegative(b as int, bl);
        }
        let begin: usize = b * block_len;
        let part: usize = if block_len < len - begin {
            block_len
        } else {
            len - begin
        };
        let mut block = match self.raw_load(k, begin, part) {
            Ok(block) => block,
            Err(e) => {
                return make_error(e);
            },
        };
        let ghost bytes = old(self).parts()[k as int].bytes;
        let ghost want = padded(bytes, bl, b as int);
        assert(block@ =~= want.take(part as int));
        let mut i: usize = part;
        while i < block_len
            invariant
                part <= i <= block_len,
                bl == block_len,
                want == padded(bytes, bl, b as int),
                begin == b * bl,
                part < block_len ==> begin + part == bytes.len(),
                block@ == want.take(i as int),
            decreases block_len - i,
        {
            block.push(0);
            assert(want.take(i + 1) =~= want.take(i as int).push(want[i as int]));
            i += 1;
        }
        assert(want.take(block_len as int) =~= want);
        Ok(sha256_of(&block))
    }

    /// Whether block `b` of level `k`, counted from 1, may be read.
    fn check_block(&mut self, k: usize, b: usize) -> (r: Result<bool, Error>)
        requires
            old(self).inv(),
            1 <= k <= old(self).levels@.len(),
            b < old(self).levels@[k - 1].modified@.len(),
        ensures
            final(self).inv(),
            same_levels(*old(self), *final(self)),
            r == Ok::<bool, Error>(
                block_ok(old(self).master.bytes(), old(self).parts(), k as nat, b as int),
            ),
        decreases k,
    {
        let ghost master = self.master.bytes();
        let ghost parts = self.parts();
        assert(self.level_ok(k - 1));
        if self.levels[k - 1].modified[b] {
            return Ok(true);
        }
        let stored: Vec<u8>;
        if k == 1 {
            let _n: usize = self.master.data.len();
            stored = copy_range(&self.master.data, 32 * b, 32);
        } else {
            assert(self.level_ok(k - 2));
            let below_len: usize = self.levels[k - 2].block_len;
            let total: usize = self.levels[k - 2].len;
            let ghost bl = below_len as int;
            let mut c: usize = 32 * b / below_len;
            let last: usize = (32 * b + 31) / below_len;
            proof {
                lemma_div_is_ordered(32 * b, 32 * b + 31, bl);
            }
            let ghost first = c as int;
            while c <= last
                invariant
                    self.inv(),
                    old(self).inv(),
                    same_levels(*old(self), *self),
                    self.parts() == parts,
                    parts == old(self).parts(),
                    master == old(self).master.bytes(),
                    2 <= k <= old(self).levels@.len(),
                    bl == below_len == parts[k - 2].block_len,
                    bl > 0,
                    total == old(self).levels@[k - 2].len,
                    old(self).levels@[k - 2].modified@.len() == counted(total as int, bl),
                    !parts[k - 1].modified[b as int],
                    32 * b + 32 <= total,
                    first == 32 * b / bl,
                    last == (32 * b + 31) / bl,
                    first <= c <= last + 1,
                    forall|x: int|
                        first <= x < c ==> #[trigger] block_ok(master, parts, (k - 1) as nat, x),
                decreases last + 1 - c,
            {
                proof {
                    lemma_count_of(total as int, bl, 32 * b + 31);
                }
                match self.check_block(k - 1, c) {
                    Ok(ok) => {
                        if !ok {
                            proof {
                                assert(!block_ok(master, parts, (k - 1) as nat, c as int));
                                lemma_block_hit(bl, 32 * b, 32 * b + 32, c as int);
                                let i = choose|i: int|
                                    32 * b <= i < 32 * b + 32 && #[trigger] (i / bl) == c;
                                assert(owner(parts, (k - 1) as nat, i) == c);
                            }
                            return Ok(false);
                        }
                    },
                    Err(e) => {
                        return make_error(e);
                    },
                }
                proof {
                    lemma_same_trans(*old(self), *self);
                }
                c = c + 1;
            }
            proof {
                assert forall|i: int| 32 * b <= i < 32 * b + 32 implies block_ok(
                    master,
                    parts,
                    (k - 1) as nat,
                    #[trigger] owner(parts, (k - 1) as nat, i),
                ) by {
                    lemma_div_is_ordered(32 * b, i, bl);
                    lemma_div_is_ordered(i, 32 * b + 31, bl);
                }
            }
            stored = match self.raw_load(k - 2, 32 * b, 32) {
                Ok(v) => v,
                Err(e) => {
                    return make_error(e);
                },
            };
        }
        proof {
            lemma_same_trans(*old(self), *self);
        }
        let hash = match self.block_hash(k - 1, b) {
            Ok(hash) => hash,
            Err(e) => {
                return make_error(e);
            },
        };
        proof {
            let below = (k - 1) as nat;
            assert(stored@ == level_bytes(master, parts, below).subrange(32 * b, 32 * b + 32));
            if k == 1 {
                assert forall|i: int| 32 * b <= i < 32 * b + 32 implies block_ok(
                    master,
                    parts,
                    below,
                    #[trigger] owner(parts, below, i),
                ) by {
                    assert(block_ok(master, parts, 0, owner(parts, 0, i)));
                }
            }
        }
        Ok(same_bytes(&stored, &hash))
    }
}

proof fn lemma_same_trans<D: RandomAccessFile>(a: IvfcLevel<D>, b: IvfcLevel<D>)
    requires
        a.inv(),
        same_levels(a, b),
    ensures
        b.parts() == a.parts(),
{
    lemma_same_levels(a, b);
}

/// The block of a position is one of the blocks.
proof fn lemma_count_of(len: int, block_len: int, i: int)
    requires
        block_len > 0,
        0 <= i < len,
    ensures
        0 <= i / block_len < counted(len, block_len),
        (i / block_len) * block_len <= i < (i / block_len) * block_len + block_len,
{
    let n = counted(len, block_len);
    let b = i / block_len;
    lemma_counted(len, block_len);
    lemma_fundamental_div_mod(i, block_len);
    lemma_mod_bound(i, block_len);
    lemma_div_pos_is_pos(i, block_len);
    lemma_mul_is_commutative(b, block_len);
    if b >= n {
        lemma_mul_inequality(n, b, block_len);
    }
}

/// A block between those of the first and the last position of a range has a position of it.
proof fn lemma_block_hit(block_len: int, begin: int, end: int, c: int)
    requires
        block_len > 0,
        0 <= begin < end,
        begin / block_len <= c <= (end - 1) / block_len,
    ensures
        exists|i: int| begin <= i < end && #[trigger] (i / block_len) == c,
{
    if c == begin / block_len {
        assert(begin <= begin < end && begin / block_len == c);
    } else {
        let i = c * block_len;
        lemma_fundamental_div_mod(begin, block_len);
        lemma_mod_bound(begin, block_len);
        lemma_fundamental_div_mod(end - 1, block_len);
        lemma_mod_bound(end - 1, block_len);
        lemma_mul_is_commutative(begin / block_len, block_len);
        lemma_mul_is_commutative((end - 1) / block_len, block_len);
        lemma_mul_inequality(begin / block_len + 1, c, block_len);
        lemma_mul_is_distributive_add_other_way(block_len, begin / block_len, 1);
        lemma_mul_inequality(c, (end - 1) / block_len, block_len);
        lemma_fundamental_div_mod_converse(i, block_len, c, 0);
        assert(begin <= i < end && i / block_len == c);
    }
}

/// Sets the flags of the blocks from `first` to `last`.
fn mark(flags: &mut Vec<bool>, first: usize, last: usize)
    requires
        first <= last < old(flags)@.len(),
    ensures
        final(flags)@.len() == old(flags)@.len(),
        forall|b: int|
            0 <= b < old(flags)@.len() ==> #[trigger] final(flags)@[b] == (old(flags)@[b] || first
                <= b <= last),
{
    let n: usize = flags.len();
    let mut i: usize = first;
    while i <= last
        invariant
            first <= i <= last + 1,
            last < n == flags@.len() == old(flags)@.len(),
            forall|b: int|
                0 <= b < flags@.len() ==> #[trigger] flags@[b] == (old(flags)@[b] || first <= b
                    < i),
        decreases last + 1 - i,
    {
        flags.set(i, true);
        i += 1;
    }
}

/// Bytes outside the written range are kept.
proof fn lemma_range_kept(s: Seq<u8>, pos: int, data: Seq<u8>, offset: int, len: int)
    requires
        0 <= pos,
        pos + data.len() <= s.len(),
        0 <= offset,
        offset + len <= s.len(),
        0 <= len,
        pos + data.len() <= offset || offset + len <= pos,
    ensures
        spliced(s, pos, data).subrange(offset, offset + len) == s.subrange(offset, offset + len),
{
    assert(spliced(s, pos, data).subrange(offset, offset + len) =~= s.subrange(
        offset,
        offset + len,
    ));
}

proof fn lemma_shaped<D: RandomAccessFile>(f: IvfcLevel<D>)
    requires
        f.inv(),
    ensures
        shaped(f.master.bytes(), f.parts()),
        f.parts().len() == f.levels@.len(),
        forall|k: int|
            0 <= k < f.levels@.len() ==> (#[trigger] f.parts()[k]).bytes.len() == f.levels@[k].len,
{
    let parts = f.parts();
    assert forall|k: int| 0 <= k < f.levels@.len() implies (#[trigger] parts[k]).bytes.len()
        == f.levels@[k].len by {
        assert(f.level_ok(k));
    }
    assert forall|k: int| 0 <= k < parts.len() implies ({
        let p = #[trigger] parts[k];
        &&& p.block_len > 0
        &&& p.modified.len() == counted(p.bytes.len() as int, p.block_len)
        &&& 32 * p.modified.len() <= level_bytes(f.master.bytes(), parts, k as nat).len()
    }) by {
        assert(f.level_ok(k));
        if k > 0 {
            assert(parts[k - 1].bytes.len() == f.levels@[k - 1].len);
        }
    }
}

/// What a write to level `k` did to the file.
spec fn level_changed<D: RandomAccessFile>(
    a: IvfcLevel<D>,
    b: IvfcLevel<D>,
    k: int,
    pos: int,
    buf: Seq<u8>,
) -> bool {
    let la = a.levels@[k];
    let lb = b.levels@[k];
    &&& b.master == a.master
    &&& b.levels@.len() == a.levels@.len()
    &&& forall|j: int|
        0 <= j < a.levels@.len() && j != k ==> #[trigger] b.levels@[j] == a.levels@[j]
    &&& lb.offset == la.offset
    &&& lb.len == la.len
    &&& lb.block_len == la.block_len
    &&& lb.modified@ == marked(la.modified@, la.block_len as int, pos, pos + buf.len())
    &&& if a.is_external(k) {
        &&& b.data == a.data
        &&& b.external is Some
        &&& b.external->0.bytes() == spliced(a.external->0.bytes(), pos, buf)
    } else {
        &&& b.external == a.external
        &&& b.data.inv()
        &&& b.data.bytes() == spliced(a.data.bytes(), la.offset + pos, buf)
        &&& all_readable(b.data, 0, a.data.bytes().len() as int)
    }
}

proof fn lemma_level_written<D: RandomAccessFile>(
    a: IvfcLevel<D>,
    b: IvfcLevel<D>,
    k: int,
    pos: int,
    buf: Seq<u8>,
)
    requires
        a.inv(),
        0 <= k < a.levels@.len(),
        0 <= pos,
        pos + buf.len() <= a.levels@[k].len,
        level_changed(a, b, k, pos, buf),
    ensures
        b.inv(),
        b.parts() == a.parts().update(k, part_written(a.parts()[k], pos, buf)),
{
    let want = a.parts().update(k, part_written(a.parts()[k], pos, buf));
    assert(a.level_ok(k));
    assert forall|j: int| 0 <= j < a.levels@.len() implies b.parts()[j] == want[j] by {
        assert(a.level_ok(j));
        if j == k {
            assert(b.part(j).bytes =~= want[j].bytes);
        } else if !a.is_external(k) && !a.is_external(j) {
            if j < k {
                assert(levels_apart(a.levels@[j], a.levels@[k]));
            } else {
                assert(levels_apart(a.levels@[k], a.levels@[j]));
            }
            lemma_range_kept(
                a.data.bytes(),
                a.levels@[k].offset + pos,
                buf,
                a.levels@[j].offset as int,
                a.levels@[j].len as int,
            );
        }
    }
    assert(b.parts() =~= want);
    assert forall|j: int| 0 <= j < b.levels@.len() implies #[trigger] b.level_ok(j) by {
        assert(a.level_ok(j));
        if j > 0 {
            assert(b.levels@[j - 1].len == a.levels@[j - 1].len);
        }
    }
    assert forall|j: int, l: int|
        0 <= j < l < b.levels@.len() && !b.is_external(l) implies levels_apart(
        #[trigger] b.levels@[j],
        #[trigger] b.levels@[l],
    ) by {
        assert(!a.is_external(l));
        assert(levels_apart(a.levels@[j], a.levels@[l]));
    }
}

impl<D: RandomAccessFile> IvfcLevel<D> {
    /// Writes bytes of level `k`, counted from 0.
    fn write_level(&mut self, k: usize, pos: usize, buf: &[u8]) -> (r: Result<(), Error>)
        requires
            old(self).inv(),
            k < old(self).levels@.len(),
            pos + buf@.len() <= old(self).levels@[k as int].len,
        ensures
            final(self).inv(),
            r == Ok::<(), Error>(()),
            final(self).master == old(self).master,
            final(self).levels@.len() == old(self).levels@.len(),
            final(self).parts() == old(self).parts().update(
                k as int,
                part_written(old(self).parts()[k as int], pos as int, buf@),
            ),
            final(self).external is Some == old(self).external is Some,
            final(self).data.bytes().len() == old(self).data.bytes().len(),
            final(self).data.shape() == old(self).data.shape(),
            final(self).external is Some ==> final(self).external->0.bytes().len()
                == old(self).external->0.bytes().len(),
            forall|j: int|
                0 <= j < old(self).levels@.len() && j != k ==> #[trigger] final(self).levels@[j]
                    == old(self).levels@[j],
            final(self).levels@[k as int].offset == old(self).levels@[k as int].offset,
            final(self).levels@[k as int].len == old(self).levels@[k as int].len,
            final(self).levels@[k as int].block_len == old(self).levels@[k as int].block_len,
            old(self).data.staged() ==> final(self).data.staged() && final(self).data.durable()
                == old(self).data.durable(),
    {
        let len: usize = buf.len();
        let ghost a = *self;
        let top: usize = self.levels.len() - 1;
        assert(self.level_ok(k as int));
        proof {
            lemma_shaped(a);
        }
        let is_external: bool = k == top && self.external.is_some();
        if is_external {
            let mut f = self.external.take().unwrap();
            let put = f.write(pos, buf);
            self.external = Some(f);
            if let Err(e) = put {
                return make_error(e);
            }
        } else {
            let offset: usize = self.levels[k].offset;
            if let Err(e) = self.data.write(offset + pos, buf) {
                return make_error(e);
            }
        }
        let ghost m = *self;
        if len > 0 {
            let block_len: usize = self.levels[k].block_len;
            proof {
                lemma_count_of(
                    self.levels@[k as int].len as int,
                    block_len as int,
                    pos + len - 1,
                );
                lemma_div_is_ordered(pos as int, pos + len - 1, block_len as int);
            }
            let first: usize = pos / block_len;
            let last: usize = (pos + len - 1) / block_len;
            let l = &mut self.levels[k];
            mark(&mut l.modified, first, last);
        }
        proof {
            let la = a.levels@[k as int];
            assert(self.levels@[k as int].modified@ =~= marked(
                la.modified@,
                la.block_len as int,
                pos as int,
                pos + buf@.len(),
            ));
            lemma_level_written(a, *self, k as int, pos as int, buf@);
        }
        Ok(())
    }
}

/// A level in which block `x` counts as stored.
pub open spec fn part_cleaned(p: Part, x: int) -> Part {
    Part { modified: p.modified.update(x, false), ..p }
}

/// The levels after the hash of block `x` of level `k`, counted from 1, has been stored.
pub open spec fn parts_stored(a: Seq<Part>, k: nat, x: int, h: Seq<u8>) -> Seq<Part> {
    if k == 1 {
        a.update(0, part_cleaned(a[0], x))
    } else {
        a.update(k - 2, part_written(a[k - 2], 32 * x, h)).update(
            k - 1,
            part_cleaned(a[k - 1], x),
        )
    }
}

pub open spec fn master_stored(m: Seq<u8>, k: nat, x: int, h: Seq<u8>) -> Seq<u8> {
    if k == 1 {
        spliced(m, 32 * x, h)
    } else {
        m
    }
}

proof fn lemma_shaped_kept(m1: Seq<u8>, a: Seq<Part>, m2: Seq<u8>, b: Seq<Part>)
    requires
        shaped(m1, a),
        m2.len() == m1.len(),
        b.len() == a.len(),
        forall|j: int|
            0 <= j < a.len() ==> (#[trigger] b[j]).block_len == a[j].block_len
                && b[j].bytes.len() == a[j].bytes.len() && b[j].modified.len()
                == a[j].modified.len(),
    ensures
        shaped(m2, b),
{
    assert forall|k: int| 0 <= k < b.len() implies ({
        let p = #[trigger] b[k];
        &&& p.block_len > 0
        &&& p.modified.len() == counted(p.bytes.len() as int, p.block_len)
        &&& 32 * p.modified.len() <= level_bytes(m2, b, k as nat).len()
    }) by {
        let p = a[k];
        if k > 0 {
            let q = b[k - 1];
        }
    }
}

/// Storing the hash of a block makes no block unreadable, in its level or above.
#[verifier::spinoff_prover]
#[verifier::rlimit(60)]
proof fn lemma_hash_stored(m: Seq<u8>, a: Seq<Part>, k: nat, x: int, h: Seq<u8>)
    requires
        shaped(m, a),
        1 <= k <= a.len(),
        0 <= x < a[k - 1].modified.len(),
        h.len() == 32,
        h == sha256(padded(a[k - 1].bytes, a[k - 1].block_len, x)),
    ensures
        no_worse(m, a, master_stored(m, k, x, h), parts_stored(a, k, x, h), a.len()),
        shaped(master_stored(m, k, x, h), parts_stored(a, k, x, h)),
{
    let m2 = master_stored(m, k, x, h);
    let b = parts_stored(a, k, x, h);
    let below = (k - 1) as nat;
    let p = a[k - 1];
    lemma_shaped_kept(m, a, m2, b);
    assert(32 * p.modified.len() <= level_bytes(m, a, below).len());
    if k > 1 {
        lemma_written(m, a, below, 32 * x, h);
        let b1 = a.update(k - 2, part_written(a[k - 2], 32 * x, h));
        lemma_lower_same(m, b1, b, below, below);
    }
    assert forall|y: int|
        0 <= y < p.modified.len() && block_ok(m, a, k, y) implies #[trigger] block_ok(m2, b, k, y) by {
        if y == x {
            assert(level_bytes(m2, b, below).subrange(32 * y, 32 * y + 32) =~= h);
            assert forall|i: int| 32 * y <= i < 32 * y + 32 implies block_ok(
                m2,
                b,
                below,
                #[trigger] owner(b, below, i),
            ) by {
                if k > 1 {
                    let b1 = a.update(k - 2, part_written(a[k - 2], 32 * x, h));
                    assert(owner(b1, below, i) == owner(b, below, i));
                    assert(block_ok(m, b1, below, owner(b1, below, i)));
                }
            }
        } else if !p.modified[y] {
            assert(level_bytes(m2, b, below).subrange(32 * y, 32 * y + 32) =~= level_bytes(
                m,
                a,
                below,
            ).subrange(32 * y, 32 * y + 32));
            assert forall|i: int| 32 * y <= i < 32 * y + 32 implies block_ok(
                m2,
                b,
                below,
                #[trigger] owner(b, below, i),
            ) by {
                assert(owner(a, below, i) == owner(b, below, i));
                assert(block_ok(m, a, below, owner(a, below, i)));
                if k > 1 {
                    let b1 = a.update(k - 2, part_written(a[k - 2], 32 * x, h));
                    lemma_owner_in_range(m, a, below, y, i);
                    assert(block_ok(m, b1, below, owner(a, below, i)));
                }
            }
        }
    }
    assert(no_worse(m, a, m2, b, k));
    lemma_upward(m, a, m2, b, k, a.len());
}

proof fn lemma_no_worse_trans(
    m1: Seq<u8>,
    a: Seq<Part>,
    m2: Seq<u8>,
    b: Seq<Part>,
    m3: Seq<u8>,
    c: Seq<Part>,
    k: nat,
)
    requires
        no_worse(m1, a, m2, b, k),
        no_worse(m2, b, m3, c, k),
        1 <= k,
        b[k - 1].modified.len() == a[k - 1].modified.len(),
    ensures
        no_worse(m1, a, m3, c, k),
{
    assert forall|x: int|
        0 <= x < a[k - 1].modified.len() && block_ok(m1, a, k, x) implies #[trigger] block_ok(
        m3,
        c,
        k,
        x,
    ) by {
        assert(block_ok(m2, b, k, x));
    }
}

/// The shape of the levels, which does not change.
pub open spec fn same_shape<D: RandomAccessFile>(a: IvfcLevel<D>, b: IvfcLevel<D>) -> bool {
    &&& b.levels@.len() == a.levels@.len()
    &&& b.external is Some == a.external is Some
    &&& b.master.bytes().len() == a.master.bytes().len()
    &&& b.data.bytes().len() == a.data.bytes().len()
    &&& b.data.shape() == a.data.shape()
    &&& b.external is Some ==> b.external->0.bytes().len() == a.external->0.bytes().len()
    &&& forall|k: int|
        0 <= k < a.levels@.len() ==> (#[trigger] b.levels@[k]).offset == a.levels@[k].offset
            && b.levels@[k].len == a.levels@[k].len && b.levels@[k].block_len
            == a.levels@[k].block_len && b.levels@[k].modified@.len()
            == a.levels@[k].modified@.len()
}

proof fn lemma_shape_kept<D: RandomAccessFile>(
    a: IvfcLevel<D>,
    m: IvfcLevel<D>,
    b: IvfcLevel<D>,
    k: int,
)
    requires
        a.inv(),
        m.inv(),
        b.inv(),
        0 <= k < a.levels@.len(),
        m.levels@.len() == a.levels@.len(),
        b.levels@.len() == a.levels@.len(),
        m.external is Some == a.external is Some,
        b.external == m.external,
        m.master.bytes().len() == a.master.bytes().len(),
        b.master == m.master,
        m.data.bytes().len() == a.data.bytes().len(),
        m.data.shape() == a.data.shape(),
        m.external is Some ==> m.external->0.bytes().len() == a.external->0.bytes().len(),
        b.data == m.data,
        forall|j: int|
            0 <= j < a.levels@.len() ==> (#[trigger] m.levels@[j]).offset == a.levels@[j].offset
                && m.levels@[j].len == a.levels@[j].len && m.levels@[j].block_len
                == a.levels@[j].block_len,
        forall|j: int|
            0 <= j < a.levels@.len() && j != k ==> #[trigger] b.levels@[j] == m.levels@[j],
        b.levels@[k].offset == m.levels@[k].offset,
        b.levels@[k].len == m.levels@[k].len,
        b.levels@[k].block_len == m.levels@[k].block_len,
    ensures
        same_shape(a, b),
{
    assert forall|j: int| 0 <= j < a.levels@.len() implies (#[trigger] b.levels@[j]).offset
        == a.levels@[j].offset && b.levels@[j].len == a.levels@[j].len && b.levels@[j].block_len
        == a.levels@[j].block_len && b.levels@[j].modified@.len() == a.levels@[j].modified@.len() by {
        assert(m.levels@[j].len == a.levels@[j].len);
        assert(a.level_ok(j));
        assert(b.level_ok(j));
    }
}

proof fn lemma_cleaned<D: RandomAccessFile>(a: IvfcLevel<D>, b: IvfcLevel<D>, k: int, x: int)
    requires
        a.inv(),
        0 <= k < a.levels@.len(),
        0 <= x < a.levels@[k].modified@.len(),
        b.master == a.master,
        b.data == a.data,
        b.external == a.external,
        b.levels@.len() == a.levels@.len(),
        forall|j: int|
            0 <= j < a.levels@.len() && j != k ==> #[trigger] b.levels@[j] == a.levels@[j],
        b.levels@[k].offset == a.levels@[k].offset,
        b.levels@[k].len == a.levels@[k].len,
        b.levels@[k].block_len == a.levels@[k].block_len,
        b.levels@[k].modified@ == a.levels@[k].modified@.update(x, false),
    ensures
        b.inv(),
        b.parts() == a.parts().update(k, part_cleaned(a.parts()[k], x)),
{
    let want = a.parts().update(k, part_cleaned(a.parts()[k], x));
    assert forall|j: int| 0 <= j < a.levels@.len() implies b.parts()[j] == want[j] by {}
    assert(b.parts() =~= want);
    assert forall|j: int| 0 <= j < b.levels@.len() implies #[trigger] b.level_ok(j) by {
        assert(a.level_ok(j));
        if j > 0 {
            assert(b.levels@[j - 1].len == a.levels@[j - 1].len);
        }
    }
    assert forall|j: int, l: int|
        0 <= j < l < b.levels@.len() && !b.is_external(l) implies levels_apart(
        #[trigger] b.levels@[j],
        #[trigger] b.levels@[l],
    ) by {
        assert(!a.is_external(l));
        assert(levels_apart(a.levels@[j], a.levels@[l]));
    }
}

impl<D: RandomAccessFile> IvfcLevel<D> {
    /// Writes hashes of the first level.
    fn write_master(&mut self, pos: usize, buf: &[u8]) -> (r: Result<(), Error>)
        requires
            old(self).inv(),
            pos + buf@.len() <= old(self).master.bytes().len(),
        ensures
            final(self).inv(),
            r == Ok::<(), Error>(()),
            final(self).master.bytes() == spliced(old(self).master.bytes(), pos as int, buf@),
            final(self).data == old(self).data,
            final(self).external == old(self).external,
            final(self).levels == old(self).levels,
            final(self).parts() == old(self).parts(),
    {
        let ghost a = *self;
        let r = self.master.write(pos, buf);
        proof {
            assert(self.parts() =~= a.parts());
            assert forall|j: int| 0 <= j < self.levels@.len() implies #[trigger] self.level_ok(
                j,
            ) by {
                assert(a.level_ok(j));
            }
            assert forall|j: int, l: int|
                0 <= j < l < self.levels@.len() && !self.is_external(l) implies levels_apart(
                #[trigger] self.levels@[j],
                #[trigger] self.levels@[l],
            ) by {
                assert(!a.is_external(l));
                assert(levels_apart(a.levels@[j], a.levels@[l]));
            }
        }
        r
    }

    /// Stores the hash of a block of level `k`, counted from 1.
    #[verifier::spinoff_prover]
    #[verifier::rlimit(60)]
    fn store_hash(&mut self, k: usize, x: usize) -> (r: Result<(), Error>)
        requires
            old(self).inv(),
            1 <= k <= old(self).levels@.len(),
            x < old(self).levels@[k - 1].modified@.len(),
        ensures
            final(self).inv(),
            same_shape(*old(self), *final(self)),
            r == Ok::<(), Error>(()),
            no_worse(
                old(self).master.bytes(),
                old(self).parts(),
                final(self).master.bytes(),
                final(self).parts(),
                old(self).parts().len(),
            ),
            final(self).levels@[k - 1].modified@ == old(self).levels@[k - 1].modified@.update(
                x as int,
                false,
            ),
            forall|j: int|
                k <= j < old(self).levels@.len() ==> #[trigger] final(self).levels@[j] == old(self).levels@[j],
            old(self).data.staged() ==> final(self).data.staged() && final(self).data.durable()
                == old(self).data.durable(),
    {
        let ghost a = *self;
        proof {
            lemma_shaped(a);
            assert(a.level_ok(k - 1));
        }
        let h = match self.block_hash(k - 1, x) {
            Ok(h) => h,
            Err(e) => {
                return make_error(e);
            },
        };
        proof {
            lemma_same_levels(a, *self);
            lemma_hash_stored(a.master.bytes(), a.parts(), k as nat, x as int, h@);
        }
        let ghost a2 = *self;
        if k == 1 {
            let _n: usize = self.master.len();
            if let Err(e) = self.write_master(32 * x, &h) {
                return make_error(e);
            }
        } else {
            assert(self.level_ok(k - 2));
            if let Err(e) = self.write_level(k - 2, 32 * x, &h) {
                return make_error(e);
            }
        }
        let ghost m = *self;
        let l = &mut self.levels[k - 1];
        l.modified.set(x, false);
        proof {
            lemma_cleaned(m, *self, k - 1, x as int);
            assert(self.parts() == parts_stored(a.parts(), k as nat, x as int, h@));
            lemma_shape_kept(a, m, *self, k - 1);
        }
        Ok(())
    }
}

/// How many bytes there are from a position to the end of its block, or to the end of the file
/// where that is nearer.
pub open spec fn block_rest(pos: int, block_len: int, len: int) -> int {
    let rest = block_len - pos % block_len;
    if rest < len - pos {
        rest
    } else {
        len - pos
    }
}

impl<D: RandomAccessFile> RandomAccessFile for IvfcLevel<D> {
    /// A block of the last level is checked as a whole, so the rest of it is a run.
    fn run_len(&self, pos: usize) -> (n: usize)
        ensures
            n == block_rest(
                pos as int,
                self.levels@.last().block_len as int,
                self.bytes().len() as int,
            ),
    {
        let count: usize = self.levels.len();
        proof {
            lemma_shaped(*self);
            assert(self.level_ok(count - 1));
        }
        let block_len: usize = self.levels[count - 1].block_len;
        let total: usize = self.levels[count - 1].len;
        let rest: usize = block_len - pos % block_len;
        let n: usize = if rest < total - pos {
            rest
        } else {
            total - pos
        };
        proof {
            let bl = block_len as int;
            let p = pos as int;
            lemma_fundamental_div_mod(p, bl);
            assert forall|i: int| pos <= i < pos + n implies #[trigger] self.readable(i)
                == self.readable(p) by {
                lemma_mul_is_commutative(bl, p / bl);
                lemma_mod_bound(p, bl);
                lemma_fundamental_div_mod_converse(i, bl, p / bl, p % bl + (i - p));
            }
        }
        n
    }

    fn load(&mut self, pos: usize, len: usize) -> (r: Result<Vec<u8>, Error>)
        ensures
            same_levels(*old(self), *final(self)),
    {
        let n: usize = self.levels.len();
        let total: usize = self.levels[n - 1].len;
        let ghost a = *self;
        let ghost master = self.master.bytes();
        let ghost parts = self.parts();
        proof {
            lemma_shaped(a);
            assert(a.level_ok(n - 1));
        }
        if len > total || pos > total - len {
            return make_error(Error::OutOfBound);
        }
        let block_len: usize = self.levels[n - 1].block_len;
        let ghost bl = block_len as int;
        if len > 0 {
            let mut b: usize = pos / block_len;
            let last: usize = (pos + len - 1) / block_len;
            let ghost first = b as int;
            proof {
                lemma_div_is_ordered(pos as int, pos + len - 1, bl);
            }
            while b <= last
                invariant
                    self.inv(),
                    a == *old(self),
                    a.inv(),
                    same_levels(a, *self),
                    self.parts() == parts,
                    parts == a.parts(),
                    master == a.master.bytes(),
                    n == a.levels@.len() == parts.len(),
                    n > 0,
                    bl == block_len == parts[n - 1].block_len,
                    bl > 0,
                    total == parts[n - 1].bytes.len(),
                    a.levels@[n - 1].modified@.len() == counted(total as int, bl),
                    len > 0,
                    pos + len <= total,
                    first == pos as int / bl,
                    last == (pos + len - 1) / bl,
                    first <= b <= last + 1,
                    forall|x: int|
                        first <= x < b ==> #[trigger] block_ok(master, parts, n as nat, x),
                decreases last + 1 - b,
            {
                proof {
                    lemma_count_of(total as int, bl, pos + len - 1);
                }
                match self.check_block(n, b) {
                    Ok(ok) => {
                        proof {
                            lemma_same_levels(a, *self);
                        }
                        if !ok {
                            proof {
                                lemma_block_hit(bl, pos as int, pos + len, b as int);
                                let i = choose|i: int|
                                    pos <= i < pos + len && #[trigger] (i / bl) == b;
                                assert(owner(parts, n as nat, i) == b);
                                assert(!a.readable(i));
                            }
                            return make_error(Error::HashMismatch);
                        }
                    },
                    Err(e) => {
                        return make_error(e);
                    },
                }
                b = b + 1;
            }
            proof {
                assert forall|i: int| pos <= i < pos + len implies #[trigger] a.readable(i) by {
                    lemma_div_is_ordered(pos as int, i, bl);
                    lemma_div_is_ordered(i, pos + len - 1, bl);
                    assert(owner(parts, n as nat, i) == i / bl);
                }
            }
        }
        let ghost mid = *self;
        let r = self.raw_load(n - 1, pos, len);
        proof {
            lemma_same_levels(mid, *self);
            lemma_same_levels(a, mid);
            lemma_same_levels(a, *self);
        }
        r
    }

    fn write(&mut self, pos: usize, buf: &[u8]) -> (r: Result<(), Error>)
        ensures
            same_shape(*old(self), *final(self)),
            final(self).master == old(self).master,
            old(self).data.staged() ==> final(self).data.staged() && final(self).data.durable()
                == old(self).data.durable(),
    {
        let n: usize = self.levels.len();
        let total: usize = self.levels[n - 1].len;
        let len: usize = buf.len();
        let ghost a = *self;
        proof {
            lemma_shaped(a);
            assert(a.level_ok(n - 1));
        }
        if len > total || pos > total - len {
            return make_error(Error::OutOfBound);
        }
        let r = self.write_level(n - 1, pos, buf);
        proof {
            let master = a.master.bytes();
            let pa = a.parts();
            let pb = self.parts();
            lemma_written(master, pa, n as nat, pos as int, buf@);
            assert forall|i: int|
                a.readable(i) || pos <= i < pos + len implies #[trigger] self.readable(i) by {
                assert(owner(pb, n as nat, i) == owner(pa, n as nat, i));
                lemma_count_of(total as int, pa[n - 1].block_len, i);
                if a.readable(i) {
                    assert(block_ok(master, pa, n as nat, owner(pa, n as nat, i)));
                } else {
                    assert(block_ok(master, pb, n as nat, owner(pb, n as nat, i)));
                }
            }
            lemma_shape_kept(a, *self, *self, n - 1);
        }
        r
    }

    fn len(&self) -> (n: usize) {
        let top: usize = self.levels.len() - 1;
        proof {
            lemma_shaped(*self);
        }
        self.levels[top].len
    }

    fn commit(&mut self) -> (r: Result<(), Error>)
        ensures
            final(self).clean(),
            same_shape(*old(self), *final(self)),
            old(self).data.staged() ==> final(self).data.staged() && final(self).data.durable()
                == old(self).data.durable(),
    {
        let n: usize = self.levels.len();
        let ghost a = *self;
        let ghost ma = a.master.bytes();
        let ghost pa = a.parts();
        let mut k: usize = n;
        proof {
            lemma_shaped(a);
        }
        while k > 0
            invariant
                self.inv(),
                a == *old(self),
                a.inv(),
                pa == a.parts(),
                ma == a.master.bytes(),
                same_shape(a, *self),
                n == a.levels@.len() == pa.len(),
                0 <= k <= n,
                n > 0,
                no_worse(ma, pa, self.master.bytes(), self.parts(), n as nat),
                forall|j: int, b: int|
                    k <= j < n && 0 <= b < self.levels@[j].modified@.len()
                        ==> !#[trigger] self.levels@[j].modified@[b],
                a.data.staged() ==> self.data.staged() && self.data.durable() == a.data.durable(),
            decreases k,
        {
            let count: usize = self.levels[k - 1].modified.len();
            let mut x: usize = 0;
            while x < count
                invariant
                    self.inv(),
                    a == *old(self),
                    a.inv(),
                    pa == a.parts(),
                    ma == a.master.bytes(),
                    same_shape(a, *self),
                    n == a.levels@.len() == pa.len(),
                    0 < k <= n,
                    x <= count == self.levels@[k - 1].modified@.len(),
                    no_worse(ma, pa, self.master.bytes(), self.parts(), n as nat),
                    forall|j: int, b: int|
                        k <= j < n && 0 <= b < self.levels@[j].modified@.len()
                            ==> !#[trigger] self.levels@[j].modified@[b],
                    forall|b: int| 0 <= b < x ==> !#[trigger] self.levels@[k - 1].modified@[b],
                    a.data.staged() ==> self.data.staged() && self.data.durable()
                        == a.data.durable(),
                decreases count - x,
            {
                if self.levels[k - 1].modified[x] {
                    let ghost b0 = *self;
                    if let Err(e) = self.store_hash(k, x) {
                        return make_error(e);
                    }
                    proof {
                        lemma_shaped(b0);
                        assert(a.level_ok(n - 1));
                        assert(b0.level_ok(n - 1));
                        lemma_no_worse_trans(
                            ma,
                            pa,
                            b0.master.bytes(),
                            b0.parts(),
                            self.master.bytes(),
                            self.parts(),
                            n as nat,
                        );
                        assert(same_shape(a, *self)) by {
                            assert forall|j: int| 0 <= j < a.levels@.len() implies (
                            #[trigger] self.levels@[j]).offset == a.levels@[j].offset
                                && self.levels@[j].len == a.levels@[j].len
                                && self.levels@[j].block_len == a.levels@[j].block_len
                                && self.levels@[j].modified@.len()
                                == a.levels@[j].modified@.len() by {
                                assert(b0.levels@[j].offset == a.levels@[j].offset);
                            }
                        }
                        assert forall|j: int, b: int|
                            k <= j < n && 0 <= b
                                < self.levels@[j].modified@.len() implies !#[trigger] self.levels@[j].modified@[b] by {
                            assert(self.levels@[j] == b0.levels@[j]);
                        }
                    }
                }
                x = x + 1;
            }
            k = k - 1;
        }
        proof {
            lemma_shaped(*self);
            assert(a.level_ok(n - 1));
            assert forall|i: int| a.readable(i) implies #[trigger] self.readable(i) by {
                let pb = self.parts();
                assert(pb[n - 1].block_len == pa[n - 1].block_len);
                lemma_count_of(pa[n - 1].bytes.len() as int, pa[n - 1].block_len, i);
                assert(owner(pb, n as nat, i) == owner(pa, n as nat, i));
                assert(block_ok(ma, pa, n as nat, owner(pa, n as nat, i)));
            }
        }
        Ok(())
    }
}

/// Where a level is to be.
#[derive(Clone, Copy, PartialEq, Eq, Structural, Debug)]
pub struct LevelPlace {
    pub offset: usize,
    pub len: usize,
    pub block_len: usize,
}

/// The level fits where it is to be.
pub open spec fn place_ok(
    master_len: int,
    data_len: int,
    external: Option<int>,
    places: Seq<LevelPlace>,
    k: int,
) -> bool {
    let p = places[k];
    &&& p.block_len > 0
    &&& 32 * counted(p.len as int, p.block_len as int) <= (if k == 0 {
        master_len
    } else {
        places[k - 1].len as int
    })
    &&& if external is Some && k == places.len() - 1 {
        external->0 == p.len
    } else {
        p.offset + p.len <= data_len
    }
}

/// The levels fit, and do not overlap.
pub open spec fn places_fit(
    master_len: int,
    data_len: int,
    external: Option<int>,
    places: Seq<LevelPlace>,
) -> bool {
    &&& places.len() > 0
    &&& forall|k: int|
        0 <= k < places.len() ==> place_ok(
            master_len,
            data_len,
            external,
            places,
            #[trigger] at_index(k),
        )
    &&& forall|j: int, k: int|
        0 <= j < k < places.len() && !(external is Some && k == places.len() - 1) ==> places_apart(
            #[trigger] places[j],
            #[trigger] places[k],
        )
}

pub open spec fn at_index(k: int) -> int {
    k
}

pub open spec fn places_apart(a: LevelPlace, b: LevelPlace) -> bool {
    a.offset + a.len <= b.offset || b.offset + b.len <= a.offset
}

pub open spec fn opt_len(f: Option<MemoryFile>) -> Option<int> {
    match f {
        Some(f) => Some(f.bytes().len() as int),
        None => None,
    }
}

impl<D: WholeFile> IvfcLevel<D> {
    /// Opens a tree of hashes.
    pub fn new(
        master: MemoryFile,
        data: D,
        external: Option<MemoryFile>,
        places: &Vec<LevelPlace>,
    ) -> (r: Result<IvfcLevel<D>, Error>)
        requires
            data.inv(),
        ensures
            r is Ok <==> places_fit(
                master.bytes().len() as int,
                data.bytes().len() as int,
                opt_len(external),
                places@,
            ),
            r matches Ok(f) ==> {
                &&& f.inv()
                &&& f.clean()
                &&& f.master == master
                &&& f.data == data
                &&& f.external == external
                &&& f.levels@.len() == places@.len()
                &&& forall|k: int|
                    0 <= k < places@.len() ==> (#[trigger] f.levels@[k]).offset == places@[k].offset
                        && f.levels@[k].len == places@[k].len && f.levels@[k].block_len
                        == places@[k].block_len
            },
    {
        proof {
            data.always_whole();
        }
        let n: usize = places.len();
        if n == 0 {
            return make_error(Error::InvalidValue);
        }
        let master_len: usize = master.len();
        let data_len: usize = data.len();
        let has_external: bool = external.is_some();
        let external_len: usize = match &external {
            Some(f) => f.data.len(),
            None => 0,
        };
        let ghost ext = opt_len(external);
        let mut levels: Vec<Level> = Vec::new();
        let mut k: usize = 0;
        while k < n
            invariant
                k <= n == places@.len(),
                n > 0,
                has_external == external is Some,
                ext == opt_len(external),
                ext is Some == has_external,
                has_external ==> external_len == ext->0,
                master_len == master.bytes().len(),
                data_len == data.bytes().len(),
                levels@.len() == k,
                forall|j: int|
                    0 <= j < k ==> place_ok(
                        master_len as int,
                        data_len as int,
                        ext,
                        places@,
                        #[trigger] at_index(j),
                    ),
                forall|i: int, j: int|
                    0 <= i < j < k && !(has_external && j == n - 1) ==> places_apart(
                        #[trigger] places@[i],
                        #[trigger] places@[j],
                    ),
                forall|j: int|
                    0 <= j < k ==> (#[trigger] levels@[j]).offset == places@[j].offset
                        && levels@[j].len == places@[j].len && levels@[j].block_len
                        == places@[j].block_len && levels@[j].modified@.len() == counted(
                        places@[j].len as int,
                        places@[j].block_len as int,
                    ),
                forall|j: int, b: int|
                    0 <= j < k && 0 <= b < levels@[j].modified@.len()
                        ==> !#[trigger] levels@[j].modified@[b],
            decreases n - k,
        {
            let p: LevelPlace = places[k];
            let last: bool = has_external && k == n - 1;
            proof {
                assert(at_index(k as int) == k);
            }
            if p.block_len == 0 {
                return make_error(Error::InvalidValue);
            }
            let count: usize = divide_up(p.len, p.block_len);
            let below: usize = if k == 0 {
                master_len
            } else {
                places[k - 1].len
            };
            if count > below / 32 {
                return make_error(Error::SizeMismatch);
            }
            if last {
                if external_len != p.len {
                    return make_error(Error::SizeMismatch);
                }
            } else {
                if p.len > data_len || p.offset > data_len - p.len {
                    return make_error(Error::OutOfBound);
                }
                let mut j: usize = 0;
                while j < k
                    invariant
                        j <= k < n == places@.len(),
                        p == places@[k as int],
                        !last,
                        last == (has_external && k == n - 1),
                        ext == opt_len(external),
                        ext is Some == has_external,
                        master_len == master.bytes().len(),
                        data_len == data.bytes().len(),
                        p.offset + p.len <= data_len,
                        forall|i: int|
                            0 <= i < k ==> place_ok(
                                master_len as int,
                                data_len as int,
                                ext,
                                places@,
                                #[trigger] at_index(i),
                            ),
                        forall|i: int| 0 <= i < j ==> places_apart(#[trigger] places@[i], p),
                    decreases k - j,
                {
                    let q: LevelPlace = places[j];
                    assert(place_ok(
                        master_len as int,
                        data_len as int,
                        ext,
                        places@,
                        at_index(j as int),
                    ));
                    if !(q.offset + q.len <= p.offset || p.offset + p.len <= q.offset) {
                        assert(!places_apart(places@[j as int], places@[k as int]));
                        return make_error(Error::InvalidValue);
                    }
                    j = j + 1;
                }
            }
            let modified: Vec<bool> = vec![false; count];
            let ghost before = levels@;
            levels.push(
                Level { offset: p.offset, len: p.len, block_len: p.block_len, modified },
            );
            proof {
                assert forall|i: int, b: int|
                    0 <= i < k + 1 && 0 <= b
                        < levels@[i].modified@.len() implies !#[trigger] levels@[i].modified@[b] by {
                    if i < k {
                        assert(levels@[i] == before[i]);
                        assert(!before[i].modified@[b]);
                    }
                }
            }
            k = k + 1;
        }
        let f = IvfcLevel { master, data, external, levels };
        proof {
            assert forall|j: int| 0 <= j < f.levels@.len() implies #[trigger] f.level_ok(j) by {
                assert(place_ok(
                    master_len as int,
                    data_len as int,
                    ext,
                    places@,
                    at_index(j),
                ));
                assert(f.levels@[j].offset == places@[j].offset);
                if j > 0 {
                    assert(f.levels@[j - 1].len == places@[j - 1].len);
                }
            }
            assert forall|i: int, j: int|
                0 <= i < j < f.levels@.len() && !f.is_external(j) implies levels_apart(
                #[trigger] f.levels@[i],
                #[trigger] f.levels@[j],
            ) by {
                assert(places_apart(places@[i], places@[j]));
            }
        }
        Ok(f)
    }
}

} // verus!
