use crate::error::{make_error, Error};
use crate::little_endian::{read_u32, u32_bytes};
use crate::memory_file::MemoryFile;
use crate::misc::divide_up;
use crate::random_access_file::{copy_range, overwrite, Content, RandomAccessFile, Shape, WholeFile};
use vstd::prelude::*;

verus! {

use crate::little_endian::{le32, le_bytes, lemma_le32_of_bytes};
use crate::misc::{counted, lemma_counted};
use crate::random_access_file::{all_readable, can_read, same_file, spliced};
use vstd::arithmetic::div_mod::*;
use vstd::arithmetic::mul::*;

/// Bit `k` of a word.
pub open spec fn word_bit(w: u32, k: int) -> bool {
    (w >> (k as u32)) & 1 == 1
}

proof fn lemma_set_bit(w: u32, s: u32, k: u32)
    requires
        s < 32,
        k < 32,
    ensures
        word_bit(w | (1u32 << s), k as int) == (k == s || word_bit(w, k as int)),
{
    assert((((w | (1u32 << s)) >> k) & 1 == 1) == (k == s || ((w >> k) & 1 == 1))) by (bit_vector)
        requires
            s < 32,
            k < 32,
    ;
}

proof fn lemma_xor_bit(a: u32, b: u32, k: u32)
    requires
        k < 32,
    ensures
        word_bit(a ^ b, k as int) == (word_bit(a, k as int) != word_bit(b, k as int)),
{
    assert((((a ^ b) >> k) & 1 == 1) == (((a >> k) & 1 == 1) != ((b >> k) & 1 == 1)))
        by (bit_vector)
        requires
            k < 32,
    ;
}

proof fn lemma_zero_bit(k: u32)
    requires
        k < 32,
    ensures
        !word_bit(0, k as int),
{
    assert((0u32 >> k) & 1 == 0) by (bit_vector)
        requires
            k < 32,
    ;
}

/// The bit for block `b`: each word has the bits of 32 blocks, the first one in its highest bit.
pub open spec fn block_bit(w: u32, b: int) -> bool {
    word_bit(w, 31 - b % 32)
}

/// Whether the selector tells that block `b` is in the second file.
pub open spec fn selector_bit(selector: Seq<u8>, b: int) -> bool {
    block_bit(le32(selector, 4 * (b / 32)) as u32, b)
}

/// The content of two files of which the selector tells for each block which one is in use.
pub open spec fn shown(selector: Seq<u8>, a: Seq<u8>, b: Seq<u8>, block_len: int) -> Seq<u8> {
    Seq::new(
        a.len(),
        |i: int|
            if selector_bit(selector, i / block_len) {
                b[i]
            } else {
                a[i]
            },
    )
}

/// The content where for a dirty block the other file is in use than the selector tells.
pub open spec fn merged(
    selector: Seq<u8>,
    dirty: Seq<u32>,
    a: Seq<u8>,
    b: Seq<u8>,
    block_len: int,
) -> Seq<u8> {
    Seq::new(
        a.len(),
        |i: int|
            if picked(selector, dirty, i / block_len) {
                b[i]
            } else {
                a[i]
            },
    )
}

/// Whether block `b` is read from the second file.
pub open spec fn picked(selector: Seq<u8>, dirty: Seq<u32>, b: int) -> bool {
    selector_bit(selector, b) != block_bit(dirty[b / 32], b)
}

/// A file that is kept twice, block by block. What is written goes to the copy of the block that
/// the selector does not tell; with a commit the selector tells that copy.
pub struct DpfsLevel<S> {
    pub selector: S,
    pub pair0: MemoryFile,
    pub pair1: MemoryFile,
    pub block_len: usize,
    pub len: usize,
    pub dirty: Vec<u32>,
}

impl<S: RandomAccessFile> DpfsLevel<S> {
    /// Nothing has been written since the last commit.
    pub open spec fn clean(&self) -> bool {
        forall|i: int| 0 <= i < self.dirty@.len() ==> #[trigger] self.dirty@[i] == 0
    }

    /// What a level shows that is made anew of the same files.
    pub open spec fn reopened(&self) -> Seq<u8> {
        shown(
            self.selector.bytes(),
            self.pair0.bytes(),
            self.pair1.bytes(),
            self.block_len as int,
        )
    }

}

impl<S: WholeFile> DpfsLevel<S> {
    pub fn new(selector: S, pair0: MemoryFile, pair1: MemoryFile, block_len: usize) -> (r: Result<
        DpfsLevel<S>,
        Error,
    >)
        requires
            selector.inv(),
            block_len > 0,
        ensures
            ({
                let len = pair0.bytes().len() as int;
                let chunks = counted(counted(len, block_len as int), 32);
                if pair1.bytes().len() != len || 4 * chunks > selector.bytes().len() {
                    r == Err::<DpfsLevel<S>, Error>(Error::SizeMismatch)
                } else {
                    &&& r matches Ok(f)
                    &&& f.inv()
                    &&& f.clean()
                    &&& f.selector == selector
                    &&& f.pair0 == pair0
                    &&& f.pair1 == pair1
                    &&& f.block_len == block_len
                    &&& f.bytes() == shown(
                        selector.bytes(),
                        pair0.bytes(),
                        pair1.bytes(),
                        block_len as int,
                    )
                }
            }),
    {
        proof {
            selector.always_whole();
        }
        let len: usize = pair0.len();
        if pair1.len() != len {
            return make_error(Error::SizeMismatch);
        }
        let block_count: usize = divide_up(len, block_len);
        let chunk_count: usize = divide_up(block_count, 32);
        proof {
            lemma_counted(len as int, block_len as int);
            lemma_counted(block_count as int, 32);
        }
        let selector_len: usize = selector.len();
        if chunk_count > selector_len / 4 {
            return make_error(Error::SizeMismatch);
        }
        let dirty: Vec<u32> = vec![0u32; chunk_count];
        let f = DpfsLevel { selector, pair0, pair1, block_len, len, dirty };
        proof {
            lemma_clean_merged(
                selector.bytes(),
                dirty@,
                pair0.bytes(),
                pair1.bytes(),
                block_len as int,
            );
        }
        Ok(f)
    }
}

/// Which word the bit of a block is in.
proof fn lemma_chunk_of(len: int, block_len: int, i: int)
    requires
        block_len > 0,
        0 <= i < len,
    ensures
        0 <= i / block_len < counted(len, block_len),
        0 <= (i / block_len) / 32 < counted(counted(len, block_len), 32),
        (i / block_len) * block_len <= i < (i / block_len) * block_len + block_len,
{
    let n = counted(len, block_len);
    let b = i / block_len;
    lemma_counted(len, block_len);
    lemma_fundamental_div_mod(i, block_len);
    lemma_mod_bound(i, block_len);
    lemma_div_pos_is_pos(i, block_len);
    lemma_mul_is_commutative(b, block_len);
    if b >= n {
        lemma_mul_inequality(n, b, block_len);
    }
    lemma_counted(n, 32);
}

/// Where no block is dirty, the selector tells the content.
pub proof fn lemma_clean_merged(
    selector: Seq<u8>,
    dirty: Seq<u32>,
    a: Seq<u8>,
    b: Seq<u8>,
    block_len: int,
)
    requires
        block_len > 0,
        dirty.len() == counted(counted(a.len() as int, block_len), 32),
        forall|i: int| 0 <= i < dirty.len() ==> #[trigger] dirty[i] == 0,
    ensures
        merged(selector, dirty, a, b, block_len) == shown(selector, a, b, block_len),
{
    assert forall|i: int| 0 <= i < a.len() implies merged(selector, dirty, a, b, block_len)[i]
        == shown(selector, a, b, block_len)[i] by {
        lemma_chunk_of(a.len() as int, block_len, i);
        let x = i / block_len;
        lemma_zero_bit((31 - x % 32) as u32);
    }
    assert(merged(selector, dirty, a, b, block_len) =~= shown(selector, a, b, block_len));
}

impl<S: RandomAccessFile> Content for DpfsLevel<S> {
    open spec fn inv(&self) -> bool {
        &&& self.selector.inv()
        &&& self.block_len > 0
        &&& self.len == self.pair0.bytes().len()
        &&& self.len == self.pair1.bytes().len()
        &&& self.dirty@.len() == counted(counted(self.len as int, self.block_len as int), 32)
        &&& 4 * self.dirty@.len() <= self.selector.bytes().len()
        &&& all_readable(self.selector, 0, self.selector.bytes().len() as int)
    }

    open spec fn bytes(&self) -> Seq<u8> {
        merged(
            self.selector.bytes(),
            self.dirty@,
            self.pair0.bytes(),
            self.pair1.bytes(),
            self.block_len as int,
        )
    }

    open spec fn readable(&self, i: int) -> bool {
        0 <= i < self.len
    }

    open spec fn durable(&self) -> Seq<u8> {
        shown(
            self.selector.durable(),
            self.pair0.durable(),
            self.pair1.durable(),
            self.block_len as int,
        )
    }

    /// The selector shows what is stored of it, and what is written to it is staged too.
    open spec fn staged(&self) -> bool {
        self.selector.durable() == self.selector.bytes() && self.selector.staged()
    }

    open spec fn shape(&self) -> Shape {
        Shape::Parts(
            Box::new(self.selector.shape()),
            Box::new(self.pair0.shape()),
            Box::new(self.pair1.shape()),
            self.block_len as nat,
        )
    }

    open spec fn committable(&self) -> bool {
        true
    }
}

/// A position in block `i`.
proof fn lemma_block(block_len: int, i: int, t: int)
    requires
        block_len > 0,
        0 <= i,
        i * block_len <= t < i * block_len + block_len,
    ensures
        t / block_len == i,
{
    lemma_fundamental_div_mod_converse(t, block_len, i, t - i * block_len);
}

/// The bits after one block has been marked.
proof fn lemma_marked(selector: Seq<u8>, a: Seq<u32>, b: Seq<u32>, k: int)
    requires
        0 <= k,
        0 <= k / 32 < a.len(),
        b == a.update(k / 32, a[k / 32] | (1u32 << ((31 - k % 32) as u32))),
    ensures
        picked(selector, b, k) == !selector_bit(selector, k),
        forall|x: int|
            x != k && 0 <= x && 0 <= x / 32 < a.len() ==> #[trigger] picked(selector, b, x) == picked(
                selector,
                a,
                x,
            ),
{
    let w = a[k / 32];
    let s = (31 - k % 32) as u32;
    lemma_set_bit(w, s, s);
    assert forall|x: int| x != k && 0 <= x && 0 <= x / 32 < a.len() implies #[trigger] picked(
        selector,
        b,
        x,
    ) == picked(selector, a, x) by {
        if x / 32 == k / 32 {
            let j = (31 - x % 32) as u32;
            assert(j != s) by {
                lemma_fundamental_div_mod(x, 32);
                lemma_fundamental_div_mod(k, 32);
            }
            lemma_set_bit(w, s, j);
        }
    }
}

/// What is shown after the copy of block `k` that was not in use has been written.
proof fn lemma_block_put(
    selector: Seq<u8>,
    dirty: Seq<u32>,
    dirty2: Seq<u32>,
    a: Seq<u8>,
    b: Seq<u8>,
    block_len: int,
    k: int,
    begin: int,
    end: int,
    data: Seq<u8>,
)
    requires
        block_len > 0,
        0 <= k,
        k * block_len == begin <= end <= begin + block_len,
        end <= a.len(),
        end == a.len() || end == begin + block_len,
        a.len() == b.len(),
        begin < end,
        dirty.len() == counted(counted(a.len() as int, block_len), 32),
        dirty2 == dirty.update(k / 32, dirty[k / 32] | (1u32 << ((31 - k % 32) as u32))),
        data.len() == end - begin,
    ensures
        ({
            let one = selector_bit(selector, k);
            let a2 = if one {
                spliced(a, begin, data)
            } else {
                a
            };
            let b2 = if one {
                b
            } else {
                spliced(b, begin, data)
            };
            &&& merged(selector, dirty2, a2, b2, block_len) == spliced(
                merged(selector, dirty, a, b, block_len),
                begin,
                data,
            )
            &&& shown(selector, a2, b2, block_len) == shown(selector, a, b, block_len)
        }),
{
    let one = selector_bit(selector, k);
    let a2 = if one {
        spliced(a, begin, data)
    } else {
        a
    };
    let b2 = if one {
        b
    } else {
        spliced(b, begin, data)
    };
    lemma_mul_nonnegative(k, block_len);
    lemma_chunk_of(a.len() as int, block_len, begin);
    lemma_block(block_len, k, begin);
    lemma_marked(selector, dirty, dirty2, k);
    let m = merged(selector, dirty, a, b, block_len);
    let m2 = merged(selector, dirty2, a2, b2, block_len);
    let s = shown(selector, a, b, block_len);
    let s2 = shown(selector, a2, b2, block_len);
    assert forall|i: int| 0 <= i < a.len() implies m2[i] == spliced(m, begin, data)[i] && s2[i]
        == s[i] by {
        lemma_chunk_of(a.len() as int, block_len, i);
        let x = i / block_len;
        if begin <= i < end {
            lemma_block(block_len, k, i);
        } else {
            if x == k {
                assert(x * block_len == begin);
            }
            assert(x != k);
            assert(picked(selector, dirty2, x) == picked(selector, dirty, x));
        }
    }
    assert(m2 =~= spliced(m, begin, data));
    assert(s2 =~= s);
}

impl<S: RandomAccessFile> DpfsLevel<S> {
    /// Reads the selector bit of a block.
    fn select(&mut self, block: usize) -> (r: Result<bool, Error>)
        requires
            old(self).inv(),
            block < counted(old(self).len as int, old(self).block_len as int),
        ensures
            final(self).inv(),
            r == Ok::<bool, Error>(selector_bit(old(self).selector.bytes(), block as int)),
            same_file(old(self).selector, final(self).selector),
            final(self).selector.durable() == old(self).selector.durable(),
            final(self).selector.staged() == old(self).selector.staged(),
            final(self).selector.shape() == old(self).selector.shape(),
            *final(self) == (DpfsLevel { selector: final(self).selector, ..*old(self) }),
    {
        proof {
            lemma_counted(
                counted(self.len as int, self.block_len as int),
                32,
            );
        }
        let chunk: usize = block / 32;
        let ghost s0 = self.selector;
        let _n: usize = self.selector.len();
        match self.selector.load(4 * chunk, 4) {
            Ok(v) => {
                assert(v@.subrange(0, 4) =~= v@);
                let word: u32 = read_u32(&v, 0);
                let shift: u32 = 31 - (block % 32) as u32;
                Ok((word >> shift) & 1 == 1)
            },
            Err(e) => {
                assert(can_read(s0, 4 * chunk, 4));
                Err(e)
            },
        }
    }

    /// Whether a block has been written since the last commit.
    fn is_dirty(&self, block: usize) -> (r: bool)
        requires
            self.inv(),
            block < counted(self.len as int, self.block_len as int),
        ensures
            r == block_bit(self.dirty@[block as int / 32], block as int),
    {
        proof {
            lemma_counted(
                counted(self.len as int, self.block_len as int),
                32,
            );
        }
        let shift: u32 = 31 - (block % 32) as u32;
        (self.dirty[block / 32] >> shift) & 1 == 1
    }

    /// Reads a part of a block.
    fn load_in_block(&mut self, block: usize, pos: usize, len: usize) -> (r: Result<Vec<u8>, Error>)
        requires
            old(self).inv(),
            block < counted(old(self).len as int, old(self).block_len as int),
            block * old(self).block_len <= pos,
            pos + len <= block * old(self).block_len + old(self).block_len,
            pos + len <= old(self).len,
        ensures
            final(self).inv(),
            same_file(old(self).selector, final(self).selector),
            final(self).selector.durable() == old(self).selector.durable(),
            final(self).selector.staged() == old(self).selector.staged(),
            final(self).selector.shape() == old(self).selector.shape(),
            *final(self) == (DpfsLevel { selector: final(self).selector, ..*old(self) }),
            r matches Ok(v) && v@ == old(self).bytes().subrange(pos as int, pos + len),
    {
        let one: bool = match self.select(block) {
            Ok(one) => one,
            Err(e) => {
                return make_error(e);
            },
        };
        let second: bool = one != self.is_dirty(block);
        let v = if second {
            copy_range(&self.pair1.data, pos, len)
        } else {
            copy_range(&self.pair0.data, pos, len)
        };
        proof {
            let bl = self.block_len as int;
            let src = if second {
                self.pair1.bytes()
            } else {
                self.pair0.bytes()
            };
            let m = old(self).bytes();
            assert forall|i: int| pos <= i < pos + len implies m[i] == src[i] by {
                lemma_block(bl, block as int, i);
            }
            assert(m.subrange(pos as int, pos + len) =~= src.subrange(pos as int, pos + len));
        }
        Ok(v)
    }
}

impl<S: RandomAccessFile> WholeFile for DpfsLevel<S> {
    proof fn always_whole(&self) {
    }
}

impl<S: RandomAccessFile> RandomAccessFile for DpfsLevel<S> {
    fn load(&mut self, pos: usize, len: usize) -> (r: Result<Vec<u8>, Error>) {
        if len > self.len || pos > self.len - len {
            return make_error(Error::OutOfBound);
        }
        let block_len: usize = self.block_len;
        let mut result: Vec<u8> = Vec::new();
        let mut i: usize = pos / block_len;
        let mut skip: usize = pos % block_len;
        let mut done: usize = 0;
        let ghost bl = block_len as int;
        let ghost m = self.bytes();
        proof {
            lemma_fundamental_div_mod(pos as int, bl);
            lemma_mod_bound(pos as int, bl);
            lemma_mul_is_commutative(i as int, bl);
            assert(m.subrange(pos as int, pos as int) =~= Seq::empty());
        }
        while done < len
            invariant
                self.inv(),
                self.shape() == old(self).shape(),
                same_file(*old(self), *self),
                self.durable() == old(self).durable(),
                self.staged() == old(self).staged(),
                m == old(self).bytes(),
                m.len() == self.len,
                bl == block_len == self.block_len,
                done <= len,
                pos + len <= self.len,
                skip < block_len,
                done < len ==> i * bl + skip == pos + done,
                result@ == m.subrange(pos as int, pos + done),
            decreases len - done,
        {
            let rest: usize = block_len - skip;
            let part: usize = if rest < len - done {
                rest
            } else {
                len - done
            };
            proof {
                lemma_block(bl, i as int, pos + done);
                lemma_chunk_of(self.len as int, bl, pos + done);
            }
            let ghost before = *self;
            let mut piece = match self.load_in_block(i, pos + done, part) {
                Ok(piece) => piece,
                Err(e) => {
                    return make_error(e);
                },
            };
            assert(self.bytes() == before.bytes());
            assert(self.len == before.len);
            assert(forall|x: int| #[trigger] self.readable(x) == before.readable(x));
            proof {
                assert(m.subrange(pos as int, pos + done) + m.subrange(
                    pos + done,
                    pos + done + part,
                ) =~= m.subrange(pos as int, pos + done + part));
            }
            result.append(&mut piece);
            done = done + part;
            i = i + 1;
            skip = 0;
            proof {
                lemma_mul_is_distributive_add_other_way(bl, i - 1, 1);
            }
        }
        Ok(result)
    }

    fn write(&mut self, pos: usize, buf: &[u8]) -> (r: Result<(), Error>)
        ensures
            final(self).block_len == old(self).block_len,
            final(self).selector.bytes() == old(self).selector.bytes(),
            final(self).selector.durable() == old(self).selector.durable(),
            final(self).reopened() == old(self).reopened(),
    {
        let len: usize = buf.len();
        if len > self.len || pos > self.len - len {
            return make_error(Error::OutOfBound);
        }
        let block_len: usize = self.block_len;
        let mut i: usize = pos / block_len;
        let mut skip: usize = pos % block_len;
        let mut done: usize = 0;
        let ghost bl = block_len as int;
        let ghost m = self.bytes();
        proof {
            lemma_fundamental_div_mod(pos as int, bl);
            lemma_mod_bound(pos as int, bl);
            lemma_mul_is_commutative(i as int, bl);
            assert(buf@.take(0) =~= Seq::empty());
            assert(spliced(m, pos as int, buf@.take(0)) =~= m);
        }
        while done < len
            invariant
                self.inv(),
                self.shape() == old(self).shape(),
                self.len == old(self).len,
                m == old(self).bytes(),
                m.len() == self.len,
                bl == block_len == self.block_len,
                len == buf@.len(),
                done <= len,
                pos + len <= self.len,
                skip < block_len,
                done < len ==> i * bl + skip == pos + done,
                self.bytes() == spliced(m, pos as int, buf@.take(done as int)),
                old(self).staged() ==> self.staged() && self.durable() == old(self).durable(),
                self.block_len == old(self).block_len,
                self.selector.bytes() == old(self).selector.bytes(),
                self.selector.durable() == old(self).selector.durable(),
                self.reopened() == old(self).reopened(),
            decreases len - done,
        {
            let begin: usize = pos + done - skip;
            let whole: usize = if block_len < self.len - begin {
                block_len
            } else {
                self.len - begin
            };
            let rest: usize = whole - skip;
            let part: usize = if rest < len - done {
                rest
            } else {
                len - done
            };
            proof {
                lemma_block(bl, i as int, pos + done);
                lemma_chunk_of(self.len as int, bl, pos + done);
            }
            let ghost before = *self;
            let mut block = match self.load_in_block(i, begin, whole) {
                Ok(block) => block,
                Err(e) => {
                    return make_error(e);
                },
            };
            let ghost shown_before = block@;
            overwrite(&mut block, skip, vstd::slice::slice_subrange(buf, done, done + part));
            let one: bool = match self.select(i) {
                Ok(one) => one,
                Err(e) => {
                    return make_error(e);
                },
            };
            let put = if one {
                self.pair0.write(begin, &block)
            } else {
                self.pair1.write(begin, &block)
            };
            if let Err(e) = put {
                return make_error(e);
            }
            let shift: u32 = 31 - (i % 32) as u32;
            let word: u32 = self.dirty[i / 32] | (1u32 << shift);
            self.dirty.set(i / 32, word);
            proof {
                lemma_block_put(
                    before.selector.bytes(),
                    before.dirty@,
                    self.dirty@,
                    before.pair0.bytes(),
                    before.pair1.bytes(),
                    bl,
                    i as int,
                    begin as int,
                    begin + whole,
                    block@,
                );
                let b0 = before.bytes();
                let want = spliced(m, pos as int, buf@.take(done + part));
                assert(spliced(b0, begin as int, block@) =~= want) by {
                    assert forall|x: int| 0 <= x < m.len() implies #[trigger] spliced(
                        b0,
                        begin as int,
                        block@,
                    )[x] == want[x] by {
                        if begin <= x < begin + whole {
                            assert(shown_before[x - begin] == b0[x]);
                        }
                    }
                }
            }
            done = done + part;
            i = i + 1;
            skip = 0;
            proof {
                lemma_mul_is_distributive_add_other_way(bl, i - 1, 1);
            }
        }
        assert(buf@.take(len as int) =~= buf@);
        Ok(())
    }

    fn len(&self) -> (n: usize) {
        self.len
    }

    fn commit(&mut self) -> (r: Result<(), Error>)
        ensures
            final(self).clean(),
            final(self).pair0 == old(self).pair0,
            final(self).pair1 == old(self).pair1,
            final(self).block_len == old(self).block_len,
            final(self).len == old(self).len,
            final(self).reopened() == old(self).bytes(),
            old(self).selector.staged() ==> final(self).selector.staged()
                && final(self).selector.durable() == old(self).selector.durable(),
    {
        let n: usize = self.dirty.len();
        let mut i: usize = 0;
        let ghost m = self.bytes();
        let ghost bl = self.block_len as int;
        while i < n
            invariant
                self.inv(),
                self.shape() == old(self).shape(),
                n == self.dirty@.len(),
                i <= n,
                bl == self.block_len,
                m == old(self).bytes(),
                self.bytes() == m,
                self.pair0 == old(self).pair0,
                self.pair1 == old(self).pair1,
                self.block_len == old(self).block_len,
                self.len == old(self).len,
                forall|j: int| 0 <= j < i ==> #[trigger] self.dirty@[j] == 0,
                old(self).selector.staged() ==> self.selector.staged() && self.selector.durable()
                    == old(self).selector.durable(),
            decreases n - i,
        {
            let word: u32 = self.dirty[i];
            if word != 0 {
                let ghost before = *self;
                let _len: usize = self.selector.len();
                let old_word: u32 = match self.selector.load(4 * i, 4) {
                    Ok(v) => {
                        assert(v@.subrange(0, 4) =~= v@);
                        read_u32(&v, 0)
                    },
                    Err(e) => {
                        assert(can_read(before.selector, 4 * i, 4));
                        return make_error(e);
                    },
                };
                let bytes = u32_bytes(old_word ^ word);
                if let Err(e) = self.selector.write(4 * i, &bytes) {
                    return make_error(e);
                }
                self.dirty.set(i, 0);
                proof {
                    lemma_flipped(
                        before.selector.bytes(),
                        before.dirty@,
                        self.selector.bytes(),
                        self.dirty@,
                        i as int,
                        old_word ^ word,
                    );
                    assert forall|x: int| 0 <= x < m.len() implies #[trigger] self.bytes()[x]
                        == m[x] by {
                        lemma_chunk_of(self.len as int, bl, x);
                        assert(before.bytes()[x] == m[x]);
                        assert(picked(self.selector.bytes(), self.dirty@, x / bl) == picked(
                            before.selector.bytes(),
                            before.dirty@,
                            x / bl,
                        ));
                    }
                    assert(self.bytes() =~= m);
                }
            }
            i = i + 1;
        }
        proof {
            lemma_clean_merged(
                self.selector.bytes(),
                self.dirty@,
                self.pair0.bytes(),
                self.pair1.bytes(),
                bl,
            );
        }
        Ok(())
    }
}

/// Flipping the selector bits of the dirty blocks of a word, and making them clean, picks the
/// same copies.
proof fn lemma_flipped(s: Seq<u8>, d: Seq<u32>, s2: Seq<u8>, d2: Seq<u32>, i: int, w: u32)
    requires
        0 <= i < d.len(),
        4 * d.len() <= s.len(),
        w == (le32(s, 4 * i) as u32) ^ d[i],
        s2 == spliced(s, 4 * i, le_bytes(w as nat, 4)),
        d2 == d.update(i, 0),
    ensures
        forall|b: int|
            0 <= b && b / 32 < d.len() ==> #[trigger] picked(s2, d2, b) == picked(s, d, b),
{
    lemma_le32_of_bytes(w as nat);
    assert forall|b: int| 0 <= b && b / 32 < d.len() implies #[trigger] picked(s2, d2, b) == picked(
        s,
        d,
        b,
    ) by {
        let x = b / 32;
        if x == i {
            assert(s2.subrange(4 * x, 4 * x + 4) =~= le_bytes(w as nat, 4));
            let k = (31 - b % 32) as u32;
            lemma_xor_bit(le32(s, 4 * i) as u32, d[i], k);
            lemma_zero_bit(k);
        } else {
            assert(s2.subrange(4 * x, 4 * x + 4) =~= s.subrange(4 * x, 4 * x + 4));
        }
    }
}

} // verus!
