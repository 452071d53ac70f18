use crate::error::{make_error, Error};
use crate::little_endian::{push_le, read_le};
use crate::meta_table::same_bytes;
use crate::random_access_file::{Content, RandomAccessFile, Shape};
use crate::wear_leveling::crc16_ninty;
use vstd::prelude::*;

verus! {

use crate::little_endian::{le_number, lemma_le_number_of_bytes};
use crate::random_access_file::{all_readable, can_read, same_file};
use crate::wear_leveling::crc16;

/// A place where a checksum is kept.
pub trait CrcStub: Sized {
    spec fn stub_inv(&self) -> bool;

    /// Whether what is kept stands for the checksum.
    spec fn accepts(&self, crc: u16) -> bool;

    spec fn stub_shape(&self) -> Shape;

    /// Whether what is kept is initialized.
    spec fn kept(&self) -> bool;

    /// Compares a checksum with the one that is kept.
    fn verify(&mut self, crc: u16) -> (r: Result<bool, Error>)
        requires
            old(self).stub_inv(),
        ensures
            final(self).stub_inv(),
            r == if old(self).kept() {
                Ok::<bool, Error>(old(self).accepts(crc))
            } else {
                Err::<bool, Error>(Error::HashMismatch)
            },
            final(self).kept() == old(self).kept(),
            forall|c: u16| #[trigger] final(self).accepts(c) == old(self).accepts(c),
            final(self).stub_shape() == old(self).stub_shape(),
    ;

    /// Keeps a checksum.
    fn sign(&mut self, crc: u16) -> (r: Result<(), Error>)
        requires
            old(self).stub_inv(),
        ensures
            final(self).stub_inv(),
            r == Ok::<(), Error>(()),
            final(self).accepts(crc),
            final(self).kept(),
            final(self).stub_shape() == old(self).stub_shape(),
    ;
}

/// The same bytes of files that hold the same are initialized.
proof fn lemma_whole_same<F: Content>(a: F, b: F, n: int)
    requires
        same_file(a, b),
    ensures
        all_readable(b, 0, n) == all_readable(a, 0, n),
{
    if all_readable(a, 0, n) {
        assert forall|i: int| 0 <= i < n implies #[trigger] b.readable(i) by {
            assert(a.readable(i));
        }
    }
    if all_readable(b, 0, n) {
        assert forall|i: int| 0 <= i < n implies #[trigger] a.readable(i) by {
            assert(b.readable(i));
        }
    }
}

/// A checksum that is kept in two bytes.
pub struct SimpleCrcStub<F> {
    pub parent: F,
}

impl<F: RandomAccessFile> SimpleCrcStub<F> {
    pub fn new(parent: F) -> (r: Result<SimpleCrcStub<F>, Error>)
        requires
            parent.inv(),
        ensures
            if parent.bytes().len() != 2 {
                r == Err::<SimpleCrcStub<F>, Error>(Error::SizeMismatch)
            } else {
                r matches Ok(s) && s.parent == parent && s.stub_inv()
            },
    {
        if parent.len() != 2 {
            return make_error(Error::SizeMismatch);
        }
        Ok(SimpleCrcStub { parent })
    }
}

impl<F: RandomAccessFile> CrcStub for SimpleCrcStub<F> {
    open spec fn stub_inv(&self) -> bool {
        &&& self.parent.inv()
        &&& self.parent.bytes().len() == 2
    }

    open spec fn kept(&self) -> bool {
        all_readable(self.parent, 0, 2)
    }

    open spec fn accepts(&self, crc: u16) -> bool {
        le_number(self.parent.bytes()) == crc
    }

    open spec fn stub_shape(&self) -> Shape {
        self.parent.shape()
    }

    fn verify(&mut self, crc: u16) -> (r: Result<bool, Error>) {
        let ghost p = self.parent;
        let found = self.parent.load(0, 2);
        proof {
            lemma_whole_same(p, self.parent, 2);
        }
        match found {
            Ok(v) => {
                assert(v@ =~= p.bytes());
                assert(v@.subrange(0, 2) =~= v@);
                Ok(read_le(&v, 0, 2) == crc as u64)
            },
            Err(e) => Err(e),
        }
    }

    fn sign(&mut self, crc: u16) -> (r: Result<(), Error>) {
        let mut v: Vec<u8> = Vec::new();
        push_le(&mut v, crc as u64, 2);
        proof {
            crate::little_endian::lemma_le_bytes_len(crc as nat, 2);
            assert(vstd::arithmetic::power::pow(256, 2) == 0x1_0000) by {
                reveal(vstd::arithmetic::power::pow);
                vstd::arithmetic::power::lemma_pow1(256);
                vstd::arithmetic::power::lemma_pow_adds(256, 1, 1);
            }
            lemma_le_number_of_bytes(crc as nat, 2);
        }
        let r = self.parent.write(0, &v);
        assert(self.parent.bytes() =~= v@);
        r
    }
}

/// The checksum in one byte.
pub open spec fn folded(crc: u16) -> u8 {
    (crc % 0x100) as u8 ^ (crc / 0x100) as u8
}

/// Folds a checksum into one byte.
pub fn fold(crc: u16) -> (r: u8)
    ensures
        r == folded(crc),
{
    (crc % 0x100) as u8 ^ (crc / 0x100) as u8
}

/// A checksum that is kept in one byte, its two bytes combined.
pub struct XorCrcStub<F> {
    pub parent: F,
}

impl<F: RandomAccessFile> XorCrcStub<F> {
    pub fn new(parent: F) -> (r: Result<XorCrcStub<F>, Error>)
        requires
            parent.inv(),
        ensures
            if parent.bytes().len() != 1 {
                r == Err::<XorCrcStub<F>, Error>(Error::SizeMismatch)
            } else {
                r matches Ok(s) && s.parent == parent && s.stub_inv()
            },
    {
        if parent.len() != 1 {
            return make_error(Error::SizeMismatch);
        }
        Ok(XorCrcStub { parent })
    }
}

impl<F: RandomAccessFile> CrcStub for XorCrcStub<F> {
    open spec fn stub_inv(&self) -> bool {
        &&& self.parent.inv()
        &&& self.parent.bytes().len() == 1
    }

    open spec fn kept(&self) -> bool {
        all_readable(self.parent, 0, 1)
    }

    open spec fn accepts(&self, crc: u16) -> bool {
        self.parent.bytes()[0] == folded(crc)
    }

    open spec fn stub_shape(&self) -> Shape {
        self.parent.shape()
    }

    fn verify(&mut self, crc: u16) -> (r: Result<bool, Error>) {
        let ghost p = self.parent;
        let found = self.parent.load(0, 1);
        proof {
            lemma_whole_same(p, self.parent, 1);
        }
        match found {
            Ok(v) => Ok(v[0] == fold(crc)),
            Err(e) => Err(e),
        }
    }

    fn sign(&mut self, crc: u16) -> (r: Result<(), Error>) {
        let v: Vec<u8> = vec![fold(crc)];
        self.parent.write(0, &v)
    }
}

/// A file with a checksum over all of it.
pub struct CrcFile<C, F> {
    pub crc_stub: C,
    pub data: F,
}

impl<C: CrcStub, F: RandomAccessFile> CrcFile<C, F> {
    /// Opens a file. The checksum is verified unless the file is yet to be initialized.
    pub fn new(crc_stub: C, data: F, initialized: bool) -> (r: Result<CrcFile<C, F>, Error>)
        requires
            crc_stub.stub_inv(),
            data.inv(),
        ensures
            match r {
                Ok(f) => {
                    &&& f.inv()
                    &&& f.bytes() == data.bytes()
                    &&& all_readable(data, 0, data.bytes().len() as int)
                    &&& initialized ==> crc_stub.kept() && crc_stub.accepts(crc16(data.bytes()))
                    &&& forall|c: u16| #[trigger] f.crc_stub.accepts(c) == crc_stub.accepts(c)
                },
                Err(e) => if !all_readable(data, 0, data.bytes().len() as int) || initialized
                    && !crc_stub.kept() {
                    e == Error::HashMismatch
                } else {
                    initialized && !crc_stub.accepts(crc16(data.bytes())) && e
                        == Error::SignatureMismatch
                },
            },
    {
        let mut crc_stub = crc_stub;
        let mut data = data;
        let n: usize = data.len();
        let all = match data.load(0, n) {
            Ok(v) => v,
            Err(e) => {
                return make_error(e);
            },
        };
        assert(all@ =~= data.bytes());
        if initialized {
            match crc_stub.verify(crc16_ninty(&all)) {
                Ok(right) => {
                    if !right {
                        return make_error(Error::SignatureMismatch);
                    }
                },
                Err(e) => {
                    return make_error(e);
                },
            }
        }
        Ok(CrcFile { crc_stub, data })
    }
}

impl<C: CrcStub, F: RandomAccessFile> Content for CrcFile<C, F> {
    open spec fn inv(&self) -> bool {
        &&& self.crc_stub.stub_inv()
        &&& self.data.inv()
        &&& all_readable(self.data, 0, self.data.bytes().len() as int)
    }

    open spec fn bytes(&self) -> Seq<u8> {
        self.data.bytes()
    }

    open spec fn readable(&self, i: int) -> bool {
        0 <= i < self.data.bytes().len()
    }

    open spec fn durable(&self) -> Seq<u8> {
        self.data.durable()
    }

    open spec fn staged(&self) -> bool {
        self.data.staged()
    }

    open spec fn shape(&self) -> Shape {
        Shape::Parts(
            Box::new(self.crc_stub.stub_shape()),
            Box::new(self.data.shape()),
            Box::new(Shape::Bytes(0)),
            0,
        )
    }

    open spec fn committable(&self) -> bool {
        true
    }
}

impl<C: CrcStub, F: RandomAccessFile> RandomAccessFile for CrcFile<C, F> {
    fn load(&mut self, pos: usize, len: usize) -> (r: Result<Vec<u8>, Error>) {
        self.data.load(pos, len)
    }

    fn write(&mut self, pos: usize, buf: &[u8]) -> (r: Result<(), Error>) {
        self.data.write(pos, buf)
    }

    fn len(&self) -> (n: usize) {
        self.data.len()
    }

    fn commit(&mut self) -> (r: Result<(), Error>)
        ensures
            final(self).crc_stub.accepts(crc16(final(self).bytes())),
    {
        let ghost d = self.data;
        let n: usize = self.data.len();
        match self.data.load(0, n) {
            Ok(all) => {
                assert(all@ =~= self.data.bytes());
                self.crc_stub.sign(crc16_ninty(&all))
            },
            Err(e) => {
                assert(can_read(d, 0, n as int));
                Err(e)
            },
        }
    }
}

/// A file that is kept twice, with the same content.
pub struct MirroredFile<F0, F1> {
    pub data0: F0,
    pub data1: F1,
}

impl<F0: RandomAccessFile, F1: RandomAccessFile> MirroredFile<F0, F1> {
    /// Opens two files that must hold the same.
    pub fn new(data0: F0, data1: F1) -> (r: Result<MirroredFile<F0, F1>, Error>)
        requires
            data0.inv(),
            data1.inv(),
        ensures
            ({
                let n = data0.bytes().len() as int;
                if n != data1.bytes().len() {
                    r == Err::<MirroredFile<F0, F1>, Error>(Error::SizeMismatch)
                } else if !all_readable(data0, 0, n) || !all_readable(data1, 0, n) {
                    r == Err::<MirroredFile<F0, F1>, Error>(Error::HashMismatch)
                } else if data0.bytes() != data1.bytes() {
                    r == Err::<MirroredFile<F0, F1>, Error>(Error::SignatureMismatch)
                } else {
                    r matches Ok(f) && f.inv() && f.bytes() == data0.bytes()
                }
            }),
    {
        let mut data0 = data0;
        let mut data1 = data1;
        let n: usize = data0.len();
        if n != data1.len() {
            return make_error(Error::SizeMismatch);
        }
        let all0 = match data0.load(0, n) {
            Ok(v) => v,
            Err(e) => {
                return make_error(e);
            },
        };
        let all1 = match data1.load(0, n) {
            Ok(v) => v,
            Err(e) => {
                return make_error(e);
            },
        };
        assert(all0@ =~= data0.bytes());
        assert(all1@ =~= data1.bytes());
        if !same_bytes(&all0, &all1) {
            return make_error(Error::SignatureMismatch);
        }
        Ok(MirroredFile { data0, data1 })
    }
}

impl<F0: RandomAccessFile, F1: RandomAccessFile> Content for MirroredFile<F0, F1> {
    open spec fn inv(&self) -> bool {
        &&& self.data0.inv()
        &&& self.data1.inv()
        &&& self.data0.bytes() == self.data1.bytes()
        &&& all_readable(self.data0, 0, self.data0.bytes().len() as int)
        &&& all_readable(self.data1, 0, self.data1.bytes().len() as int)
    }

    open spec fn bytes(&self) -> Seq<u8> {
        self.data0.bytes()
    }

    open spec fn readable(&self, i: int) -> bool {
        0 <= i < self.data0.bytes().len()
    }

    open spec fn durable(&self) -> Seq<u8> {
        self.data0.durable()
    }

    open spec fn staged(&self) -> bool {
        self.data0.staged()
    }

    open spec fn shape(&self) -> Shape {
        Shape::Parts(
            Box::new(self.data0.shape()),
            Box::new(self.data1.shape()),
            Box::new(Shape::Bytes(0)),
            0,
        )
    }

    open spec fn committable(&self) -> bool {
        true
    }
}

impl<F0: RandomAccessFile, F1: RandomAccessFile> RandomAccessFile for MirroredFile<F0, F1> {
    fn load(&mut self, pos: usize, len: usize) -> (r: Result<Vec<u8>, Error>) {
        self.data0.load(pos, len)
    }

    fn write(&mut self, pos: usize, buf: &[u8]) -> (r: Result<(), Error>) {
        if let Err(e) = self.data0.write(pos, buf) {
            return make_error(e);
        }
        self.data1.write(pos, buf)
    }

    fn len(&self) -> (n: usize) {
        self.data0.len()
    }

    fn commit(&mut self) -> (r: Result<(), Error>) {
        Ok(())
    }
}

} // verus!
