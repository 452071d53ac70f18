use crate::error::{make_error, Error};
use crate::random_access_file::{copy_range, overwrite, Content, RandomAccessFile, Shape, WholeFile};
use vstd::prelude::*;

verus! {

use crate::random_access_file::{all_readable, same_file};

/// A `RandomAccessFile` that is a plain byte vector.
pub struct MemoryFile {
    pub data: Vec<u8>,
}

impl MemoryFile {
    /// Makes a file out of its content.
    pub fn new(data: Vec<u8>) -> (f: MemoryFile)
        ensures
            f.inv(),
            f.bytes() == data@,
    {
        MemoryFile { data }
    }

    /// Makes a file that holds a copy of the content of another one.
    pub fn from_file<F: RandomAccessFile>(file: &mut F) -> (r: Result<MemoryFile, Error>)
        requires
            old(file).inv(),
        ensures
            final(file).inv(),
            same_file(*old(file), *final(file)),
            match r {
                Ok(f) => f.inv() && f.bytes() == old(file).bytes()
                    && all_readable(
                    *old(file),
                    0,
                    old(file).bytes().len() as int,
                ),
                Err(e) => e == Error::HashMismatch && !all_readable(
                    *old(file),
                    0,
                    old(file).bytes().len() as int,
                ),
            },
    {
        let n: usize = file.len();
        match file.load(0, n) {
            Ok(data) => {
                assert(data@ =~= old(file).bytes());
                Ok(MemoryFile { data })
            },
            Err(e) => Err(e),
        }
    }

    /// Gives the content back.
    pub fn into_data(self) -> (data: Vec<u8>)
        ensures
            data@ == self.bytes(),
    {
        self.data
    }
}

impl Content for MemoryFile {
    open spec fn inv(&self) -> bool {
        true
    }

    open spec fn bytes(&self) -> Seq<u8> {
        self.data@
    }

    open spec fn readable(&self, i: int) -> bool {
        true
    }

    open spec fn durable(&self) -> Seq<u8> {
        self.data@
    }

    open spec fn staged(&self) -> bool {
        false
    }

    open spec fn shape(&self) -> Shape {
        Shape::Bytes(self.data@.len())
    }

    open spec fn committable(&self) -> bool {
        true
    }
}

impl WholeFile for MemoryFile {
    proof fn always_whole(&self) {
    }
}

impl RandomAccessFile for MemoryFile {
    fn load(&mut self, pos: usize, len: usize) -> (r: Result<Vec<u8>, Error>) {
        let n: usize = self.data.len();
        if len > n || pos > n - len {
            return make_error(Error::OutOfBound);
        }
        Ok(copy_range(&self.data, pos, len))
    }

    fn write(&mut self, pos: usize, buf: &[u8]) -> (r: Result<(), Error>) {
        let n: usize = self.data.len();
        let len: usize = buf.len();
        if len > n || pos > n - len {
            return make_error(Error::OutOfBound);
        }
        overwrite(&mut self.data, pos, buf);
        Ok(())
    }

    fn len(&self) -> (n: usize) {
        self.data.len()
    }

    fn commit(&mut self) -> (r: Result<(), Error>) {
        Ok(())
    }
}

} // verus!
