use crate::error::{make_error, Error};
use crate::random_access_file::{Content, RandomAccessFile, Shape};
use vstd::prelude::*;

verus! {

use crate::random_access_file::{all_readable, spliced};

/// A part of a file, as a file.
pub struct SubFile<F> {
    pub parent: F,
    pub begin: usize,
    pub len: usize,
}

impl<F: RandomAccessFile> SubFile<F> {
    /// Takes `len` bytes of a file, from `begin` on.
    pub fn new(parent: F, begin: usize, len: usize) -> (r: Result<SubFile<F>, Error>)
        requires
            parent.inv(),
        ensures
            match r {
                Ok(f) => f.inv() && f.parent == parent && f.begin == begin && f.len == len,
                Err(e) => e == Error::OutOfBound && begin + len > parent.bytes().len(),
            },
    {
        let n: usize = parent.len();
        if len > n || begin > n - len {
            return make_error(Error::OutOfBound);
        }
        Ok(SubFile { parent, begin, len })
    }
}

impl<F: RandomAccessFile> Content for SubFile<F> {
    open spec fn inv(&self) -> bool {
        &&& self.parent.inv()
        &&& self.begin + self.len <= self.parent.bytes().len() <= usize::MAX
    }

    open spec fn bytes(&self) -> Seq<u8> {
        self.parent.bytes().subrange(self.begin as int, self.begin + self.len)
    }

    open spec fn readable(&self, i: int) -> bool {
        0 <= i < self.len && self.parent.readable(self.begin + i)
    }

    open spec fn durable(&self) -> Seq<u8> {
        self.parent.durable().subrange(self.begin as int, self.begin + self.len)
    }

    open spec fn staged(&self) -> bool {
        self.parent.staged()
    }

    open spec fn shape(&self) -> Shape {
        Shape::Parts(
            Box::new(self.parent.shape()),
            Box::new(Shape::Bytes(self.begin as nat)),
            Box::new(Shape::Bytes(self.len as nat)),
            0,
        )
    }

    open spec fn committable(&self) -> bool {
        true
    }
}

impl<F: RandomAccessFile> RandomAccessFile for SubFile<F> {
    fn load(&mut self, pos: usize, len: usize) -> (r: Result<Vec<u8>, Error>) {
        if len > self.len || pos > self.len - len {
            return make_error(Error::OutOfBound);
        }
        let ghost a = *self;
        let r = self.parent.load(self.begin + pos, len);
        proof {
            let b = a.begin as int;
            assert(self.bytes() =~= a.bytes());
            assert forall|i: int| #[trigger] self.readable(i) == a.readable(i) by {
                assert(self.parent.readable(b + i) == a.parent.readable(b + i));
            }
            if all_readable(a, pos as int, len as int) {
                assert forall|i: int| b + pos <= i < b + pos + len implies
                    #[trigger] a.parent.readable(i) by {
                    assert(a.readable(i - b));
                }
            }
            if all_readable(a.parent, b + pos, len as int) {
                assert forall|i: int| pos <= i < pos + len implies #[trigger] a.readable(i) by {
                    assert(a.parent.readable(b + i));
                }
            }
            if r is Ok {
                assert(r->Ok_0@ =~= a.bytes().subrange(pos as int, pos + len));
            }
        }
        r
    }

    fn write(&mut self, pos: usize, buf: &[u8]) -> (r: Result<(), Error>) {
        let n: usize = buf.len();
        if n > self.len || pos > self.len - n {
            return make_error(Error::OutOfBound);
        }
        let ghost a = *self;
        let r = self.parent.write(self.begin + pos, buf);
        proof {
            let b = a.begin as int;
            assert(self.bytes() =~= spliced(a.bytes(), pos as int, buf@));
            assert forall|i: int| a.readable(i) implies #[trigger] self.readable(i) by {
                assert(a.parent.readable(b + i));
            }
            assert forall|i: int| pos <= i < pos + n implies #[trigger] self.readable(i) by {
                assert(self.parent.readable(b + i));
            }
        }
        r
    }

    fn len(&self) -> (n: usize) {
        self.len
    }

    fn commit(&mut self) -> (r: Result<(), Error>)
        ensures
            *final(self) == *old(self),
    {
        Ok(())
    }
}

} // verus!
