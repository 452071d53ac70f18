use crate::crypto::aes128_encrypt;
use crate::error::{make_error, Error};
use crate::pad_cache::{get_cached, new_cache, put_cached};
use crate::random_access_file::{Content, RandomAccessFile, Shape};
use lru::LruCache;
use vstd::prelude::*;

verus! {

use crate::big_endian::{be_bytes, number};
use crate::crypto::aes128;
use crate::pad_cache::{cache_cap, cache_items, has_key, other_key, without_key};
use crate::random_access_file::{can_read, spliced};

/// The counter of a block: the last eight bytes are a number in big endian, which counts up and
/// wraps around.
pub open spec fn seeked(ctr: Seq<u8>, block_index: int) -> Seq<u8> {
    ctr.take(8) + be_bytes((number(ctr.skip(8)) + block_index) as nat, 8)
}

/// The block that data is combined with.
pub open spec fn pad_of(key: Seq<u8>, ctr: Seq<u8>, block_index: int) -> Seq<u8> {
    aes128(key, seeked(ctr, block_index))
}

/// The lowest bytes of a sum.
proof fn lemma_be_step(s: Seq<u8>, k: int, carry: nat, t: Seq<u8>)
    requires
        0 < k <= s.len(),
        t.len() == s.len() - k,
    ensures
        be_bytes(number(s.take(k)) + carry, k as nat) + t == be_bytes(
            (number(s.take(k - 1)) + (carry + s[k - 1]) / 256) as nat,
            (k - 1) as nat,
        ) + (seq![((carry + s[k - 1]) % 256) as u8] + t),
{
    let a = s.take(k);
    assert(a.drop_last() =~= s.take(k - 1));
    let v = number(a) + carry;
    let x = number(s.take(k - 1));
    assert(number(a) == x * 256 + s[k - 1]);
    assert(v / 256 == x + (carry + s[k - 1]) / 256);
    assert(v % 256 == (carry + s[k - 1]) % 256);
    assert(be_bytes(v, k as nat) == be_bytes(v / 256, (k - 1) as nat).push((v % 256) as u8));
    assert(be_bytes(v, k as nat) + t =~= be_bytes(v / 256, (k - 1) as nat) + (seq![
        (v % 256) as u8,
    ] + t));
}

/// Moves a counter on by a number of blocks.
pub fn seek_ctr(ctr: &mut [u8; 16], block_index: usize)
    requires
        block_index <= usize::MAX - 0x100,
    ensures
        final(ctr)@ == seeked(old(ctr)@, block_index as int),
{
    let ghost c0 = ctr@;
    let ghost s = c0.skip(8);
    let mut rest: usize = block_index;
    let mut i: usize = 16;
    proof {
        assert(s.take(8) =~= s);
        assert(c0.skip(16) =~= Seq::<u8>::empty());
        assert(be_bytes(number(s) + rest as nat, 8) =~= be_bytes(number(s.take(8)) + rest as nat, 8)
            + c0.skip(16));
    }
    let ghost all = be_bytes(number(s) + block_index as nat, 8);
    while i > 8
        invariant
            8 <= i <= 16,
            ctr@.len() == 16,
            s == c0.skip(8),
            c0.len() == 16,
            rest <= usize::MAX - 0x100,
            forall|k: int| 0 <= k < i ==> #[trigger] ctr@[k] == c0[k],
            all == be_bytes(number(s.take(i - 8)) + rest as nat, (i - 8) as nat) + ctr@.skip(
                i as int,
            ),
        decreases i,
    {
        let ghost before = ctr@;
        i = i - 1;
        let sum: usize = rest + ctr[i] as usize;
        proof {
            lemma_be_step(s, i + 1 - 8, rest as nat, before.skip(i + 1));
            assert(s[i - 8] == before[i as int]);
        }
        ctr[i] = (sum % 256) as u8;
        rest = sum / 256;
        assert(ctr@.skip(i as int) =~= seq![(sum % 256) as u8] + before.skip(i + 1));
    }
    proof {
        assert(s.take(0) =~= Seq::<u8>::empty());
        assert(all =~= ctr@.skip(8));
        assert(ctr@ =~= c0.take(8) + ctr@.skip(8));
        assert(ctr@ =~= seeked(c0, block_index as int));
    }
}

/// How many blocks there are until the pads repeat, where they do.
pub const REPEAT_BLOCKS: usize = 0x20;

/// A file that is encrypted with AES in counter mode.
pub struct AesCtrFile<F> {
    pub data: F,
    pub key: [u8; 16],
    pub ctr: [u8; 16],
    /// Whether the pads repeat.
    pub repeat_ctr: bool,
    /// The pads that were used last.
    pub cache: LruCache<usize, [u8; 16]>,
}

/// The byte that data at a position is combined with.
pub open spec fn pad_byte(key: Seq<u8>, ctr: Seq<u8>, repeat: bool, i: int) -> u8 {
    pad_of(
        key,
        ctr,
        if repeat {
            (i / 16) % (REPEAT_BLOCKS as int)
        } else {
            i / 16
        },
    )[i % 16]
}

/// Bytes combined with the pad. Doing it twice gives the bytes back.
pub open spec fn crypted(key: Seq<u8>, ctr: Seq<u8>, repeat: bool, pos: int, data: Seq<u8>) -> Seq<
    u8,
> {
    Seq::new(data.len(), |i: int| data[i] ^ pad_byte(key, ctr, repeat, pos + i))
}

/// Decryption undoes encryption.
pub proof fn law_crypted_twice(
    key: Seq<u8>,
    ctr: Seq<u8>,
    repeat: bool,
    pos: int,
    data: Seq<u8>,
)
    ensures
        crypted(key, ctr, repeat, pos, crypted(key, ctr, repeat, pos, data)) == data,
{
    let once = crypted(key, ctr, repeat, pos, data);
    assert forall|i: int| 0 <= i < data.len() implies crypted(key, ctr, repeat, pos, once)[i] == data[i] by {
        lemma_xor_twice(data[i], pad_byte(key, ctr, repeat, pos + i));
    }
    assert(crypted(key, ctr, repeat, pos, once) =~= data);
}

proof fn lemma_xor_twice(a: u8, b: u8)
    ensures
        (a ^ b) ^ b == a,
{
    assert((a ^ b) ^ b == a) by (bit_vector);
}

/// The pads that are cached are right.
pub open spec fn pads_ok(c: LruCache<usize, [u8; 16]>, key: Seq<u8>, ctr: Seq<u8>) -> bool {
    &&& cache_cap(c) == 16
    &&& forall|i: int|
        0 <= i < cache_items(c).len() ==> (#[trigger] cache_items(c)[i]).1@ == pad_of(
            key,
            ctr,
            cache_items(c)[i].0 as int,
        )
}

proof fn lemma_filtered(s: Seq<(usize, [u8; 16])>, k: usize)
    ensures
        forall|i: int|
            0 <= i < without_key(s, k).len() ==> s.contains(#[trigger] without_key(s, k)[i]),
{
    let p = other_key(k);
    assert forall|i: int| 0 <= i < without_key(s, k).len() implies s.contains(
        #[trigger] without_key(s, k)[i],
    ) by {
        assert(s.filter(p).contains(s.filter(p)[i]));
        s.lemma_filter_contains_rev(p, without_key(s, k)[i]);
    }
}

impl<F: RandomAccessFile> AesCtrFile<F> {
    /// Opens an encrypted file.
    pub fn new(data: F, key: [u8; 16], ctr: [u8; 16]) -> (r: AesCtrFile<F>)
        requires
            data.inv(),
        ensures
            r.inv(),
            r.data == data,
            r.key == key,
            r.ctr == ctr,
            !r.repeat_ctr,
            r.bytes() == crypted(key@, ctr@, false, 0, data.bytes()),
    {
        AesCtrFile { data, key, ctr, repeat_ctr: false, cache: new_cache(16) }
    }

    /// Opens an encrypted file whose pads may repeat.
    pub fn with_repeat(data: F, key: [u8; 16], ctr: [u8; 16], repeat_ctr: bool) -> (r: AesCtrFile<F>)
        requires
            data.inv(),
        ensures
            r.inv(),
            r.data == data,
            r.key == key,
            r.ctr == ctr,
            r.repeat_ctr == repeat_ctr,
            r.bytes() == crypted(key@, ctr@, repeat_ctr, 0, data.bytes()),
    {
        AesCtrFile { data, key, ctr, repeat_ctr, cache: new_cache(16) }
    }

    /// The pad of a block.
    fn get_pad(&mut self, block_index: usize) -> (r: [u8; 16])
        requires
            old(self).inv(),
            block_index <= usize::MAX - 0x100,
        ensures
            final(self).inv(),
            *final(self) == (AesCtrFile { cache: final(self).cache, ..*old(self) }),
            r@ == pad_of(old(self).key@, old(self).ctr@, block_index as int),
    {
        let ghost before = cache_items(self.cache);
        proof {
            lemma_filtered(before, block_index);
        }
        match get_cached(&mut self.cache, block_index) {
            Some(pad) => {
                proof {
                    let after = cache_items(self.cache);
                    let j = choose|j: int| 0 <= j < before.len() && before[j] == (block_index, pad);
                    assert(before[j].1@ == pad_of(self.key@, self.ctr@, block_index as int));
                    assert forall|i: int| 0 <= i < after.len() implies (#[trigger] after[i]).1@
                        == pad_of(self.key@, self.ctr@, after[i].0 as int) by {
                        if i > 0 {
                            assert(after[i] == without_key(before, block_index)[i - 1]);
                            assert(before.contains(after[i]));
                        }
                    }
                }
                pad
            },
            None => {
                let mut ctr: [u8; 16] = self.ctr;
                seek_ctr(&mut ctr, block_index);
                let pad = aes128_encrypt(&self.key, &ctr);
                let ghost full = before.len() == cache_cap(self.cache);
                put_cached(&mut self.cache, block_index, pad);
                proof {
                    let after = cache_items(self.cache);
                    let rest = if full {
                        before.drop_last()
                    } else {
                        before
                    };
                    assert(!has_key(before, block_index));
                    assert(after =~= seq![(block_index, pad)] + rest);
                    assert forall|i: int| 0 <= i < after.len() implies (#[trigger] after[i]).1@
                        == pad_of(self.key@, self.ctr@, after[i].0 as int) by {
                        if i > 0 {
                            assert(after[i] == rest[i - 1]);
                            assert(rest[i - 1] == before[i - 1]);
                        }
                    }
                }
                pad
            },
        }
    }

    /// Combines bytes of a position with the pad.
    fn crypt(&mut self, pos: usize, buf: &[u8]) -> (r: Vec<u8>)
        requires
            old(self).inv(),
            pos + buf@.len() <= usize::MAX,
        ensures
            final(self).inv(),
            *final(self) == (AesCtrFile { cache: final(self).cache, ..*old(self) }),
            r@ == crypted(old(self).key@, old(self).ctr@, old(self).repeat_ctr, pos as int, buf@),
    {
        let ghost a = *self;
        let n: usize = buf.len();
        let mut out: Vec<u8> = Vec::new();
        let mut i: usize = 0;
        while i < n
            invariant
                i <= n == buf@.len(),
                pos + n <= usize::MAX,
                self.inv(),
                *self == (AesCtrFile { cache: self.cache, ..a }),
                out@ == crypted(a.key@, a.ctr@, a.repeat_ctr, pos as int, buf@.take(i as int)),
            decreases n - i,
        {
            let block: usize = (pos + i) / 16;
            assert(block <= usize::MAX - 0x100);
            let index: usize = if self.repeat_ctr {
                block % REPEAT_BLOCKS
            } else {
                block
            };
            let pad = self.get_pad(index);
            let first: usize = i;
            while i < n && (pos + i) / 16 == block
                invariant
                    i <= n == buf@.len(),
                    first <= i,
                    i == first ==> first < n && (pos + first) as int / 16 == block,
                    pos + n <= usize::MAX,
                    self.inv(),
                    *self == (AesCtrFile { cache: self.cache, ..a }),
                    index == if a.repeat_ctr {
                        block as int % (REPEAT_BLOCKS as int)
                    } else {
                        block as int
                    },
                    pad@ == pad_of(a.key@, a.ctr@, index as int),
                    pad@.len() == 16,
                    out@ == crypted(a.key@, a.ctr@, a.repeat_ctr, pos as int, buf@.take(i as int)),
                decreases n - i,
            {
                let b: u8 = buf[i] ^ pad[(pos + i) % 16];
                out.push(b);
                assert(out@ =~= crypted(a.key@, a.ctr@, a.repeat_ctr, pos as int, buf@.take(i + 1)));
                i = i + 1;
            }
            assert(i > first);
        }
        assert(buf@.take(n as int) =~= buf@);
        out
    }
}

impl<F: RandomAccessFile> Content for AesCtrFile<F> {
    open spec fn inv(&self) -> bool {
        &&& self.data.inv()
        &&& pads_ok(self.cache, self.key@, self.ctr@)
    }

    open spec fn bytes(&self) -> Seq<u8> {
        crypted(self.key@, self.ctr@, self.repeat_ctr, 0, self.data.bytes())
    }

    open spec fn readable(&self, i: int) -> bool {
        self.data.readable(i)
    }

    open spec fn durable(&self) -> Seq<u8> {
        crypted(self.key@, self.ctr@, self.repeat_ctr, 0, self.data.durable())
    }

    open spec fn staged(&self) -> bool {
        self.data.staged()
    }

    open spec fn shape(&self) -> Shape {
        self.data.shape()
    }

    open spec fn committable(&self) -> bool {
        true
    }
}

impl<F: RandomAccessFile> RandomAccessFile for AesCtrFile<F> {
    fn load(&mut self, pos: usize, len: usize) -> (r: Result<Vec<u8>, Error>)
        ensures
            final(self).key == old(self).key,
            final(self).ctr == old(self).ctr,
            final(self).repeat_ctr == old(self).repeat_ctr,
    {
        let ghost a = *self;
        let total: usize = self.data.len();
        proof {
            assert(can_read(a, pos as int, len as int) == can_read(a.data, pos as int, len as int))
                by {
                assert forall|i: int| #[trigger] a.readable(i) == a.data.readable(i) by {}
                if can_read(a, pos as int, len as int) {
                    assert forall|i: int| pos <= i < pos + len implies #[trigger] a.data.readable(
                        i,
                    ) by {
                        assert(a.readable(i));
                    }
                }
            }
        }
        match self.data.load(pos, len) {
            Ok(buf) => {
                let out = self.crypt(pos, &buf);
                assert(out@ =~= a.bytes().subrange(pos as int, pos + len));
                Ok(out)
            },
            Err(e) => Err(e),
        }
    }

    fn write(&mut self, pos: usize, buf: &[u8]) -> (r: Result<(), Error>)
        ensures
            final(self).key == old(self).key,
            final(self).ctr == old(self).ctr,
            final(self).repeat_ctr == old(self).repeat_ctr,
    {
        let ghost a = *self;
        let n: usize = self.data.len();
        let len: usize = buf.len();
        if len > n || pos > n - len {
            return make_error(Error::OutOfBound);
        }
        let out = self.crypt(pos, buf);
        let r = self.data.write(pos, &out);
        proof {
            let b = self.bytes();
            let c = spliced(a.bytes(), pos as int, buf@);
            assert forall|i: int| 0 <= i < b.len() implies b[i] == c[i] by {
                if pos <= i < pos + len {
                    lemma_xor_twice(buf@[i - pos], pad_byte(a.key@, a.ctr@, a.repeat_ctr, i));
                    assert(out@[i - pos] == buf@[i - pos] ^ pad_byte(
                        a.key@,
                        a.ctr@,
                        a.repeat_ctr,
                        pos + (i - pos),
                    ));
                }
            }
            assert(b =~= c);
        }
        r
    }

    fn len(&self) -> (n: usize) {
        self.data.len()
    }

    fn commit(&mut self) -> (r: Result<(), Error>) {
        Ok(())
    }
}

} // verus!
