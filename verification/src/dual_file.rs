use crate::error::{make_error, Error};
use crate::random_access_file::{Content, RandomAccessFile, Shape, WholeFile};
use vstd::prelude::*;

verus! {

use crate::random_access_file::{all_readable, same_file};

/// A file that is kept twice. A selector byte tells which of the two is in use. What is written
/// goes to the other one, and becomes the file in use with a commit.
pub struct DualFile<S, P> {
    pub selector: S,
    pub pair0: P,
    pub pair1: P,
    pub modified: bool,
}

/// The bytes of the one of two files that the selector byte tells.
pub open spec fn selected(selector: Seq<u8>, a: Seq<u8>, b: Seq<u8>) -> Seq<u8> {
    if selector[0] == 0 {
        a
    } else {
        b
    }
}

impl<S: RandomAccessFile, P: RandomAccessFile> DualFile<S, P> {
    /// Whether the second file is the one to read from.
    pub open spec fn second(&self) -> bool {
        (self.selector.bytes()[0] == 1) != self.modified
    }

    /// Nothing has been written since the last commit.
    pub open spec fn clean(&self) -> bool {
        !self.modified
    }

}

impl<S: WholeFile, P: WholeFile> DualFile<S, P> {
    pub fn new(selector: S, pair0: P, pair1: P) -> (r: Result<DualFile<S, P>, Error>)
        requires
            selector.inv(),
            pair0.inv(),
            pair1.inv(),
        ensures
            selector.bytes().len() != 1 || pair0.bytes().len() != pair1.bytes().len() ==> r
                == Err::<DualFile<S, P>, Error>(Error::SizeMismatch),
            selector.bytes().len() == 1 && pair0.bytes().len() == pair1.bytes().len() ==> if selector.bytes()[0]
                > 1 {
                r == Err::<DualFile<S, P>, Error>(Error::InvalidValue)
            } else {
                &&& r matches Ok(f)
                &&& f.inv()
                &&& same_file(selector, f.selector)
                &&& f.selector.durable() == selector.durable()
                &&& f.selector.staged() == selector.staged()
                &&& f.selector.shape() == selector.shape()
                &&& f.pair0 == pair0
                &&& f.pair1 == pair1
                &&& f.clean()
            },
    {
        proof {
            selector.always_whole();
            pair0.always_whole();
            pair1.always_whole();
        }
        let mut selector = selector;
        if selector.len() != 1 || pair0.len() != pair1.len() {
            return make_error(Error::SizeMismatch);
        }
        let ghost s0 = selector;
        let byte = match selector.load(0, 1) {
            Ok(v) => v[0],
            Err(e) => {
                assert(can_load(s0));
                return make_error(e);
            },
        };
        if byte > 1 {
            return make_error(Error::InvalidValue);
        }
        Ok(DualFile { selector, pair0, pair1, modified: false })
    }
}

impl<S: RandomAccessFile, P: RandomAccessFile> DualFile<S, P> {
    /// Reads the selector byte.
    fn select(&mut self) -> (r: Result<bool, Error>)
        requires
            old(self).inv(),
        ensures
            final(self).inv(),
            r == Ok::<bool, Error>(old(self).selector.bytes()[0] == 1),
            same_file(old(self).selector, final(self).selector),
            final(self).selector.durable() == old(self).selector.durable(),
            final(self).selector.staged() == old(self).selector.staged(),
            final(self).selector.shape() == old(self).selector.shape(),
            final(self).pair0 == old(self).pair0,
            final(self).pair1 == old(self).pair1,
            final(self).modified == old(self).modified,
    {
        let ghost s0 = self.selector;
        match self.selector.load(0, 1) {
            Ok(v) => Ok(v[0] == 1),
            Err(e) => {
                assert(can_load(s0));
                Err(e)
            },
        }
    }
}

spec fn can_load<S: Content>(s: S) -> bool {
    crate::random_access_file::can_read(s, 0, 1)
}

impl<S: RandomAccessFile, P: RandomAccessFile> Content for DualFile<S, P> {
    open spec fn inv(&self) -> bool {
        &&& self.selector.inv()
        &&& self.pair0.inv()
        &&& self.pair1.inv()
        &&& self.selector.bytes().len() == 1
        &&& self.selector.bytes()[0] <= 1
        &&& self.pair0.bytes().len() == self.pair1.bytes().len()
        &&& all_readable(self.selector, 0, 1)
        &&& all_readable(self.pair0, 0, self.pair0.bytes().len() as int)
        &&& all_readable(self.pair1, 0, self.pair1.bytes().len() as int)
    }

    open spec fn bytes(&self) -> Seq<u8> {
        if self.second() {
            self.pair1.bytes()
        } else {
            self.pair0.bytes()
        }
    }

    open spec fn readable(&self, i: int) -> bool {
        0 <= i < self.pair0.bytes().len()
    }

    open spec fn durable(&self) -> Seq<u8> {
        selected(self.selector.durable(), self.pair0.durable(), self.pair1.durable())
    }

    /// The selector shows what is stored of it.
    open spec fn staged(&self) -> bool {
        self.selector.durable() == self.selector.bytes()
    }

    open spec fn shape(&self) -> Shape {
        Shape::Parts(
            Box::new(self.selector.shape()),
            Box::new(self.pair0.shape()),
            Box::new(self.pair1.shape()),
            0,
        )
    }

    open spec fn committable(&self) -> bool {
        true
    }
}

impl<S: RandomAccessFile, P: RandomAccessFile> WholeFile for DualFile<S, P> {
    proof fn always_whole(&self) {
    }
}

impl<S: RandomAccessFile, P: RandomAccessFile> RandomAccessFile for DualFile<S, P> {
    fn load(&mut self, pos: usize, len: usize) -> (r: Result<Vec<u8>, Error>) {
        let second: bool = match self.select() {
            Ok(one) => one != self.modified,
            Err(e) => {
                return make_error(e);
            },
        };
        if second {
            self.pair1.load(pos, len)
        } else {
            self.pair0.load(pos, len)
        }
    }

    fn write(&mut self, pos: usize, buf: &[u8]) -> (r: Result<(), Error>) {
        let n: usize = self.pair0.len();
        let len: usize = buf.len();
        if len > n || pos > n - len {
            return make_error(Error::OutOfBound);
        }
        let one: bool = match self.select() {
            Ok(one) => one,
            Err(e) => {
                return make_error(e);
            },
        };
        let ghost before = *self;
        if one {
            if !self.modified {
                match self.pair1.load(0, n) {
                    Ok(all) => {
                        if let Err(e) = self.pair0.write(0, &all) {
                            return make_error(e);
                        }
                        assert(self.pair0.bytes() =~= before.pair1.bytes());
                    },
                    Err(e) => {
                        return make_error(e);
                    },
                }
                self.modified = true;
            }
            self.pair0.write(pos, buf)
        } else {
            if !self.modified {
                match self.pair0.load(0, n) {
                    Ok(all) => {
                        if let Err(e) = self.pair1.write(0, &all) {
                            return make_error(e);
                        }
                        assert(self.pair1.bytes() =~= before.pair0.bytes());
                    },
                    Err(e) => {
                        return make_error(e);
                    },
                }
                self.modified = true;
            }
            self.pair1.write(pos, buf)
        }
    }

    fn len(&self) -> (n: usize) {
        self.pair0.len()
    }

    fn commit(&mut self) -> (r: Result<(), Error>)
        ensures
            final(self).clean(),
            final(self).pair0 == old(self).pair0,
            final(self).pair1 == old(self).pair1,
            old(self).pair0.durable() == old(self).pair0.bytes() && old(self).pair1.durable() == old(self).pair1.bytes() && final(self).staged() ==> final(self).durable() == old(self).bytes(),
            old(self).clean() ==> final(self).selector == old(self).selector,
            old(self).selector.staged() ==> final(self).selector.durable() == old(self).selector.durable() && final(self).selector.staged(),
    {
        if self.modified {
            let one: bool = match self.select() {
                Ok(one) => one,
                Err(e) => {
                    return make_error(e);
                },
            };
            let flipped: Vec<u8> = if one {
                vec![0u8]
            } else {
                vec![1u8]
            };
            let ghost s0 = self.selector;
            if let Err(e) = self.selector.write(0, &flipped) {
                return make_error(e);
            }
            assert(self.selector.bytes()[0] == flipped@[0]);
            self.modified = false;
        }
        Ok(())
    }
}

} // verus!
