use crate::error::{make_error, Error};
use crate::random_access_file::{copy_range, overwrite, Content, RandomAccessFile, Shape};
use vstd::prelude::*;

verus! {

use crate::random_access_file::{all_readable, can_read, same_file, spliced};

/// A copy of a range of a file, in memory. A byte of it is known or not, as it could be read or
/// not. What is written to it is written back to the file later.
pub struct Shadow {
    pub data: Vec<u8>,
    /// Which bytes are known.
    pub known: Vec<bool>,
}

/// The shadow holds what can be read of a file from `pos` on.
pub open spec fn shows<F: Content>(s: Shadow, f: F, pos: int) -> bool {
    forall|i: int|
        0 <= i < s.data@.len() ==> {
            &&& #[trigger] s.known@[i] == f.readable(pos + i)
            &&& s.known@[i] ==> s.data@[i] == f.bytes()[pos + i]
            &&& !s.known@[i] ==> s.data@[i] == 0
        }
}

/// What the shadow knows is in the file.
pub open spec fn agrees<F: Content>(s: Shadow, f: F, pos: int) -> bool {
    forall|i: int|
        0 <= i < s.data@.len() && #[trigger] s.known@[i] ==> f.readable(pos + i)
            && f.bytes()[pos + i] == s.data@[i]
}

/// The flags with those of a range set.
pub open spec fn set_range(m: Seq<bool>, pos: int, len: int) -> Seq<bool> {
    Seq::new(m.len(), |i: int| m[i] || pos <= i < pos + len)
}

/// Only the range of a file has been changed.
pub open spec fn changed_within<F: Content>(a: F, b: F, pos: int, len: int) -> bool {
    &&& b.bytes().len() == a.bytes().len()
    &&& forall|i: int| a.readable(i) ==> #[trigger] b.readable(i)
    &&& forall|i: int|
        0 <= i < a.bytes().len() && !(pos <= i < pos + len) ==> #[trigger] b.bytes()[i]
            == a.bytes()[i]
}

/// A byte of a shadow, and whether it is known.
pub open spec fn cell(s: Shadow, i: int) -> (bool, u8) {
    (s.known@[i], s.data@[i])
}

impl Shadow {
    /// A shadow of nothing that can be read.
    pub fn blank(len: usize) -> (s: Shadow)
        ensures
            s.inv(),
            s.bytes().len() == len,
            forall|i: int| !#[trigger] s.readable(i),
            forall|i: int| 0 <= i < len ==> !#[trigger] s.known@[i],
            forall|i: int| 0 <= i < len ==> #[trigger] s.data@[i] == 0,
    {
        Shadow { data: vec![0u8; len], known: vec![false; len] }
    }

    /// Notes bytes that are known.
    fn note(&mut self, k: usize, v: &Vec<u8>)
        requires
            old(self).inv(),
            k + v@.len() <= old(self).data@.len(),
        ensures
            final(self).inv(),
            final(self).data@ == spliced(old(self).data@, k as int, v@),
            final(self).known@ == set_range(old(self).known@, k as int, v@.len() as int),
    {
        overwrite(&mut self.data, k, v);
        let n: usize = v.len();
        let _total: usize = self.known.len();
        let mut i: usize = 0;
        assert(self.known@ =~= set_range(old(self).known@, k as int, 0));
        while i < n
            invariant
                i <= n == v@.len(),
                old(self).inv(),
                k + n <= self.known@.len() <= usize::MAX,
                self.known@.len() == old(self).known@.len(),
                self.data@ == spliced(old(self).data@, k as int, v@),
                self.known@ == set_range(old(self).known@, k as int, i as int),
            decreases n - i,
        {
            self.known.set(k + i, true);
            i = i + 1;
            assert(self.known@ =~= set_range(old(self).known@, k as int, i as int));
        }
    }

    /// Makes a shadow of a range of a file.
    pub fn of<F: RandomAccessFile>(file: &mut F, pos: u64, len: u64) -> (r: Result<Shadow, Error>)
        requires
            old(file).inv(),
        ensures
            final(file).inv(),
            same_file(*old(file), *final(file)),
            final(file).shape() == old(file).shape(),
            match r {
                Ok(s) => {
                    &&& pos + len <= old(file).bytes().len()
                    &&& s.inv()
                    &&& s.bytes().len() == len
                    &&& shows(s, *old(file), pos as int)
                },
                Err(e) => e == Error::OutOfBound && pos + len > old(file).bytes().len(),
            },
    {
        let n: usize = file.len();
        if len > n as u64 || pos > n as u64 - len {
            return make_error(Error::OutOfBound);
        }
        let total: usize = len as usize;
        let at: usize = pos as usize;
        let mut s = Shadow::blank(total);
        let mut k: usize = 0;
        while k < total
            invariant
                k <= total == s.data@.len(),
                at == pos,
                at + total <= n == file.bytes().len(),
                s.inv(),
                file.inv(),
                same_file(*old(file), *file),
                file.shape() == old(file).shape(),
                forall|i: int|
                    0 <= i < k ==> (#[trigger] s.known@[i] == old(file).readable(at + i) && (
                    s.known@[i] ==> s.data@[i] == old(file).bytes()[at + i]) && (!s.known@[i]
                        ==> s.data@[i] == 0)),
                forall|i: int| k <= i < total ==> !#[trigger] s.known@[i],
                forall|i: int| k <= i < total ==> #[trigger] s.data@[i] == 0,
            decreases total - k,
        {
            let run: usize = file.run_len(at + k);
            let m: usize = if run < total - k {
                run
            } else {
                total - k
            };
            let ghost f0 = *file;
            let ghost s0 = s;
            match file.load(at + k, m) {
                Ok(v) => {
                    s.note(k, &v);
                    proof {
                        assert forall|i: int| 0 <= i < k + m implies (#[trigger] s.known@[i] == old(
                            file,
                        ).readable(at + i) && (s.known@[i] ==> s.data@[i] == old(
                            file,
                        ).bytes()[at + i]) && (!s.known@[i] ==> s.data@[i] == 0)) by {
                            if i < k {
                                assert(s0.known@[i] == old(file).readable(at + i));
                            } else {
                                assert(f0.readable(at + i));
                                assert(v@[i - k] == f0.bytes()[at + i]);
                            }
                        }
                        assert forall|i: int| k + m <= i < total implies !#[trigger] s.known@[i] by {
                            assert(!s0.known@[i]);
                        }
                        assert forall|i: int| k + m <= i < total implies #[trigger] s.data@[i]
                            == 0 by {
                            assert(s.data@[i] == s0.data@[i]);
                        }
                    }
                },
                Err(_) => {
                    proof {
                        if f0.readable(at + k) {
                            assert forall|i: int| at + k <= i < at + k + m implies
                                #[trigger] f0.readable(i) by {
                                assert(f0.readable(i) == f0.readable(at + k));
                            }
                            assert(all_readable(f0, at + k, m as int));
                            assert(can_read(f0, at + k, m as int));
                        }
                        assert forall|i: int| k <= i < k + m implies !#[trigger] old(file).readable(
                            at + i,
                        ) by {
                            assert(f0.readable(at + i) == f0.readable(at + k));
                        }
                    }
                },
            }
            k = k + m;
        }
        Ok(s)
    }

    /// Whether the byte at position `k` is known and is another one in the other shadow.
    fn differs(&self, other: &Shadow, k: usize) -> (r: bool)
        requires
            self.inv(),
            other.inv(),
            k < self.data@.len() == other.data@.len(),
        ensures
            !r ==> (self.known@[k as int] ==> other.known@[k as int] && other.data@[k as int]
                == self.data@[k as int]),
            r ==> self.known@[k as int],
    {
        self.known[k] && !(other.known[k] && other.data[k] == self.data[k])
    }

    /// Writes to a file what is known and is not in it.
    pub fn flush<F: RandomAccessFile>(&self, file: &mut F, pos: u64) -> (r: Result<(), Error>)
        requires
            self.inv(),
            old(file).inv(),
        ensures
            final(file).inv(),
            final(file).shape() == old(file).shape(),
            if pos + self.data@.len() <= old(file).bytes().len() {
                &&& r == Ok::<(), Error>(())
                &&& changed_within(*old(file), *final(file), pos as int, self.data@.len() as int)
                &&& agrees(*self, *final(file), pos as int)
            } else {
                r == Err::<(), Error>(Error::OutOfBound) && same_file(*old(file), *final(file))
            },
    {
        let n: usize = self.data.len();
        let stored = match Shadow::of(file, pos, n as u64) {
            Ok(s) => s,
            Err(e) => {
                return make_error(e);
            },
        };
        let _total: usize = file.len();
        let at: usize = pos as usize;
        let mut k: usize = 0;
        while k < n
            invariant
                k <= n == self.data@.len() == stored.data@.len(),
                self.inv(),
                stored.inv(),
                file.inv(),
                file.shape() == old(file).shape(),
                at == pos,
                at + n <= file.bytes().len() <= usize::MAX,
                changed_within(*old(file), *file, at as int, n as int),
                shows(stored, *old(file), at as int),
                forall|i: int|
                    0 <= i < k && #[trigger] self.known@[i] ==> file.readable(at + i)
                        && file.bytes()[at + i] == self.data@[i],
                forall|i: int| at + k <= i < at + n ==> #[trigger] file.bytes()[i] == old(file).bytes()[i],
            decreases n - k,
        {
            let mut end: usize = k;
            while end < n && self.differs(&stored, end)
                invariant
                    k <= end <= n == self.data@.len() == stored.data@.len(),
                    self.inv(),
                    stored.inv(),
                decreases n - end,
            {
                end = end + 1;
            }
            let ghost f0 = *file;
            if end > k {
                let piece = copy_range(&self.data, k, end - k);
                if let Err(e) = file.write(at + k, &piece) {
                    return make_error(e);
                }
                proof {
                    assert forall|i: int| 0 <= i < end && #[trigger] self.known@[i] implies file.readable(at + i)
                        && file.bytes()[at + i] == self.data@[i] by {
                        if k <= i {
                            assert(file.bytes()[at + i] == piece@[i - k]);
                        } else {
                            assert(f0.readable(at + i));
                        }
                    }
                    assert forall|i: int|
                        0 <= i < file.bytes().len() && !(at <= i < at + n) implies
                        #[trigger] file.bytes()[i] == old(file).bytes()[i] by {
                        assert(f0.bytes()[i] == old(file).bytes()[i]);
                    }
                    assert forall|i: int| old(file).readable(i) implies #[trigger] file.readable(
                        i,
                    ) by {
                        assert(f0.readable(i));
                    }
                    assert forall|i: int| at + end <= i < at + n implies #[trigger] file.bytes()[i]
                        == old(file).bytes()[i] by {
                        assert(f0.bytes()[i] == old(file).bytes()[i]);
                    }
                }
                k = end;
            } else {
                proof {
                    if self.known@[k as int] {
                        assert(stored.known@[k as int]);
                        assert(old(file).readable(at + k));
                        assert(file.bytes()[at + k] == old(file).bytes()[at + k]);
                    }
                }
                k = k + 1;
            }
        }
        Ok(())
    }
}

impl Content for Shadow {
    open spec fn inv(&self) -> bool {
        self.known@.len() == self.data@.len()
    }

    open spec fn bytes(&self) -> Seq<u8> {
        self.data@
    }

    open spec fn readable(&self, i: int) -> bool {
        0 <= i < self.data@.len() && self.known@[i]
    }

    open spec fn durable(&self) -> Seq<u8> {
        self.data@
    }

    open spec fn staged(&self) -> bool {
        false
    }

    open spec fn shape(&self) -> Shape {
        Shape::Bytes(self.data@.len())
    }

    open spec fn committable(&self) -> bool {
        true
    }
}

impl RandomAccessFile for Shadow {
    fn load(&mut self, pos: usize, len: usize) -> (r: Result<Vec<u8>, Error>)
        ensures
            *final(self) == *old(self),
    {
        let n: usize = self.data.len();
        if len > n || pos > n - len {
            return make_error(Error::OutOfBound);
        }
        let mut k: usize = 0;
        while k < len
            invariant
                k <= len,
                pos + len <= n == self.data@.len(),
                self.inv(),
                forall|i: int| pos <= i < pos + k ==> #[trigger] self.readable(i),
            decreases len - k,
        {
            if !self.known[pos + k] {
                assert(!self.readable(pos + k));
                return make_error(Error::HashMismatch);
            }
            k = k + 1;
        }
        Ok(copy_range(&self.data, pos, len))
    }

    fn write(&mut self, pos: usize, buf: &[u8]) -> (r: Result<(), Error>)
        ensures
            pos + buf@.len() <= old(self).data@.len() ==> {
                &&& final(self).known@ == set_range(old(self).known@, pos as int, buf@.len() as int)
            },
            pos + buf@.len() > old(self).data@.len() ==> *final(self) == *old(self),
    {
        let n: usize = self.data.len();
        let len: usize = buf.len();
        if len > n || pos > n - len {
            return make_error(Error::OutOfBound);
        }
        overwrite(&mut self.data, pos, buf);
        let mut k: usize = 0;
        let ghost s0 = *old(self);
        assert(self.known@ =~= set_range(s0.known@, pos as int, 0));
        while k < len
            invariant
                k <= len == buf@.len(),
                pos + len <= n == self.data@.len(),
                self.inv(),
                s0.inv(),
                s0 == *old(self),
                self.data@ == spliced(s0.data@, pos as int, buf@),
                self.known@ == set_range(s0.known@, pos as int, k as int),
            decreases len - k,
        {
            self.known.set(pos + k, true);
            k = k + 1;
            assert(self.known@ =~= set_range(s0.known@, pos as int, k as int));
        }
        Ok(())
    }

    fn len(&self) -> (n: usize) {
        self.data.len()
    }

    fn commit(&mut self) -> (r: Result<(), Error>)
        ensures
            *final(self) == *old(self),
    {
        Ok(())
    }
}

} // verus!
