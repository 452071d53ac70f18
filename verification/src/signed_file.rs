use crate::crypto::{aes_cmac_of, sha256_of};
use crate::error::{make_error, Error};
use crate::meta_table::same_bytes;
use crate::random_access_file::{Content, RandomAccessFile, Shape};
use vstd::prelude::*;

verus! {

use crate::crypto::{aes_cmac, sha256};
use crate::random_access_file::all_readable;

/// Abstract interface for transforming the file data into a block ready for hash and CMAC.
pub trait Signer {
    /// The block for some data.
    spec fn blocked(&self, data: Seq<u8>) -> Seq<u8>;

    /// Makes the block for some data.
    fn block(&self, data: Vec<u8>) -> (r: Vec<u8>)
        ensures
            r@ == self.blocked(data@),
    ;

    /// Makes the hash of the block for some data.
    fn hash(&self, data: Vec<u8>) -> (r: Vec<u8>)
        ensures
            r@ == sha256(self.blocked(data@)),
    {
        let block = self.block(data);
        sha256_of(&block)
    }
}

/// The signature of some data.
pub open spec fn signature_of<S: Signer>(signer: S, key: Seq<u8>, data: Seq<u8>) -> Seq<u8> {
    aes_cmac(key, sha256(signer.blocked(data)))
}

/// A file with an AES-CMAC signature, which is kept in another file.
pub struct SignedFile<F, G, S> {
    pub signature: F,
    pub data: G,
    pub signer: S,
    /// The key of the signature.
    pub key: [u8; 16],
}

impl<F: RandomAccessFile, G: RandomAccessFile, S: Signer> SignedFile<F, G, S> {
    /// Opens a file without a look at its signature.
    pub fn new_unverified(signature: F, data: G, signer: S, key: [u8; 16]) -> (r: Result<
        SignedFile<F, G, S>,
        Error,
    >)
        requires
            signature.inv(),
            data.inv(),
        ensures
            if signature.bytes().len() != 16 {
                r == Err::<SignedFile<F, G, S>, Error>(Error::SizeMismatch)
            } else {
                r == Ok::<SignedFile<F, G, S>, Error>(
                    (SignedFile { signature, data, signer, key }),
                ) && r->Ok_0.inv()
            },
    {
        if signature.len() != 16 {
            return make_error(Error::SizeMismatch);
        }
        Ok(SignedFile { signature, data, signer, key })
    }

    /// Opens a file and checks its signature.
    pub fn new(signature: F, data: G, signer: S, key: [u8; 16]) -> (r: Result<
        SignedFile<F, G, S>,
        Error,
    >)
        requires
            signature.inv(),
            data.inv(),
        ensures
            ({
                let readable = all_readable(signature, 0, 16) && all_readable(
                    data,
                    0,
                    data.bytes().len() as int,
                );
                let right = signature.bytes() == signature_of(signer, key@, data.bytes());
                match r {
                    Ok(f) => {
                        &&& signature.bytes().len() == 16 && readable && right
                        &&& f.inv()
                        &&& f.bytes() == data.bytes()
                        &&& f.data.shape() == data.shape()
                        &&& f.signature.bytes() == signature.bytes()
                        &&& f.signer == signer
                        &&& f.key == key
                    },
                    Err(e) => if signature.bytes().len() != 16 {
                        e == Error::SizeMismatch
                    } else if !readable {
                        e == Error::HashMismatch
                    } else {
                        !right && e == Error::SignatureMismatch
                    },
                }
            }),
    {
        let mut signature = signature;
        let mut data = data;
        if signature.len() != 16 {
            return make_error(Error::SizeMismatch);
        }
        let stored = match signature.load(0, 16) {
            Ok(v) => v,
            Err(e) => {
                return make_error(e);
            },
        };
        assert(stored@ =~= signature.bytes());
        let n: usize = data.len();
        let all = match data.load(0, n) {
            Ok(v) => v,
            Err(e) => {
                return make_error(e);
            },
        };
        assert(all@ =~= data.bytes());
        let hash = signer.hash(all);
        let right = aes_cmac_of(&key, &hash);
        if !same_bytes(&stored, &right) {
            return make_error(Error::SignatureMismatch);
        }
        Ok(SignedFile { signature, data, signer, key })
    }

    /// The signature for the content of the file.
    fn calculate_signature(&mut self) -> (r: Result<Vec<u8>, Error>)
        requires
            old(self).inv(),
        ensures
            final(self).inv(),
            final(self).signature == old(self).signature,
            final(self).signer == old(self).signer,
            final(self).key == old(self).key,
            final(self).bytes() == old(self).bytes(),
            forall|i: int| #[trigger] final(self).readable(i) == old(self).readable(i),
            final(self).data.shape() == old(self).data.shape(),
            if old(self).committable() {
                r matches Ok(v) && v@ == signature_of(
                    old(self).signer,
                    old(self).key@,
                    old(self).bytes(),
                ) && v@.len() == 16
            } else {
                r == Err::<Vec<u8>, Error>(Error::HashMismatch)
            },
    {
        let n: usize = self.data.len();
        let ghost d0 = self.data;
        let all = match self.data.load(0, n) {
            Ok(v) => v,
            Err(e) => {
                return make_error(e);
            },
        };
        assert(all@ =~= d0.bytes());
        let hash = self.signer.hash(all);
        Ok(aes_cmac_of(&self.key, &hash))
    }
}

impl<F: RandomAccessFile, G: RandomAccessFile, S: Signer> Content for SignedFile<F, G, S> {
    open spec fn inv(&self) -> bool {
        &&& self.signature.inv()
        &&& self.signature.bytes().len() == 16
        &&& self.data.inv()
    }

    open spec fn bytes(&self) -> Seq<u8> {
        self.data.bytes()
    }

    open spec fn readable(&self, i: int) -> bool {
        self.data.readable(i)
    }

    open spec fn durable(&self) -> Seq<u8> {
        self.data.durable()
    }

    open spec fn staged(&self) -> bool {
        self.data.staged()
    }

    open spec fn shape(&self) -> Shape {
        Shape::Parts(
            Box::new(self.signature.shape()),
            Box::new(self.data.shape()),
            Box::new(Shape::Bytes(0)),
            0,
        )
    }

    open spec fn committable(&self) -> bool {
        all_readable(self.data, 0, self.data.bytes().len() as int)
    }
}

impl<F: RandomAccessFile, G: RandomAccessFile, S: Signer> RandomAccessFile for SignedFile<F, G, S> {
    fn load(&mut self, pos: usize, len: usize) -> (r: Result<Vec<u8>, Error>) {
        proof {
            let a = *self;
            if all_readable(a.data, pos as int, len as int) {
                assert forall|i: int| pos <= i < pos + len implies #[trigger] a.readable(i) by {
                    assert(a.data.readable(i));
                }
            }
            if all_readable(a, pos as int, len as int) {
                assert forall|i: int| pos <= i < pos + len implies #[trigger] a.data.readable(i) by {
                    assert(a.readable(i));
                }
            }
        }
        self.data.load(pos, len)
    }

    fn write(&mut self, pos: usize, buf: &[u8]) -> (r: Result<(), Error>)
        ensures
            final(self).signature == old(self).signature,
            final(self).signer == old(self).signer,
            final(self).key == old(self).key,
    {
        self.data.write(pos, buf)
    }

    fn len(&self) -> (n: usize) {
        self.data.len()
    }

    fn commit(&mut self) -> (r: Result<(), Error>)
        ensures
            final(self).signature.bytes() == if old(self).committable() {
                signature_of(old(self).signer, old(self).key@, old(self).bytes())
            } else {
                old(self).signature.bytes()
            },
            final(self).signer == old(self).signer,
            final(self).key == old(self).key,
    {
        let signature = match self.calculate_signature() {
            Ok(v) => v,
            Err(e) => {
                return make_error(e);
            },
        };
        let ghost a = *self;
        let r = self.signature.write(0, &signature);
        assert(self.signature.bytes() =~= signature@);
        assert forall|i: int| old(self).readable(i) implies #[trigger] self.readable(i) by {
            assert(a.readable(i) == old(self).readable(i));
        }
        r
    }
}

} // verus!
