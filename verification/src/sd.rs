use crate::aes_ctr_file::AesCtrFile;
use crate::crypto::sha256_of;
use crate::key_engine::scramble;
use crate::memory_file::MemoryFile;
use crate::random_access_file::{Content, RandomAccessFile};
use vstd::prelude::*;

verus! {

use crate::aes_ctr_file::{crypted, law_crypted_twice};
use crate::crypto::sha256;
use crate::key_engine::scrambled;
use crate::paths::{names, Names};

/// The text of a path, with a slash before each name.
pub open spec fn path_text(p: Names) -> Seq<u8>
    decreases p.len(),
{
    if p.len() == 0 {
        Seq::empty()
    } else {
        path_text(p.drop_last()) + seq![0x2Fu8] + p.last()
    }
}

/// Text with a zero at its end, two bytes for each character.
pub open spec fn wide(t: Seq<u8>) -> Seq<u8> {
    Seq::new(
        2 * (t.len() + 1),
        |i: int|
            if i % 2 == 0 && i / 2 < t.len() {
                t[i / 2]
            } else {
                0
            },
    )
}

/// The counter that a file on the card is encrypted with, which comes of its path.
pub open spec fn path_ctr(p: Names) -> Seq<u8> {
    let hash = sha256(wide(path_text(p)));
    Seq::new(16, |i: int| hash[i] ^ hash[i + 16])
}

/// The text of a path.
fn get_text(path: &Vec<Vec<u8>>) -> (r: Vec<u8>)
    ensures
        r@ == path_text(names(path@)),
{
    let ghost p = names(path@);
    let mut out: Vec<u8> = Vec::new();
    let n: usize = path.len();
    let mut i: usize = 0;
    assert(p.take(0) =~= Seq::<Seq<u8>>::empty());
    while i < n
        invariant
            i <= n == path@.len(),
            p == names(path@),
            out@ == path_text(p.take(i as int)),
        decreases n - i,
    {
        let ghost before = out@;
        out.push(0x2F);
        let len: usize = path[i].len();
        let mut k: usize = 0;
        while k < len
            invariant
                i < n == path@.len(),
                k <= len == path@[i as int]@.len(),
                out@ == before + seq![0x2Fu8] + path@[i as int]@.take(k as int),
            decreases len - k,
        {
            out.push(path[i][k]);
            k = k + 1;
            assert(out@ =~= before + seq![0x2Fu8] + path@[i as int]@.take(k as int));
        }
        i = i + 1;
        proof {
            let q = p.take(i as int);
            assert(q.drop_last() =~= p.take(i - 1));
            assert(q.last() =~= path@[i - 1]@.take(len as int));
        }
    }
    assert(p.take(n as int) =~= p);
    out
}

/// Text with a zero at its end, two bytes for each character.
fn widen(t: &Vec<u8>) -> (r: Vec<u8>)
    ensures
        r@ == wide(t@),
{
    let mut out: Vec<u8> = Vec::new();
    let n: usize = t.len();
    let mut i: usize = 0;
    while i < n
        invariant
            i <= n == t@.len(),
            out@.len() == 2 * i,
            forall|k: int| 0 <= k < 2 * i ==> #[trigger] out@[k] == wide(t@)[k],
        decreases n - i,
    {
        out.push(t[i]);
        out.push(0);
        i = i + 1;
    }
    out.push(0);
    out.push(0);
    assert(out@ =~= wide(t@));
    out
}

/// The counter that a file on the card is encrypted with.
pub fn get_ctr(path: &Vec<Vec<u8>>) -> (r: [u8; 16])
    ensures
        r@ == path_ctr(names(path@)),
{
    let text = get_text(path);
    let wide_text = widen(&text);
    let hash = sha256_of(&wide_text);
    let mut ctr: [u8; 16] = [0u8; 16];
    let mut i: usize = 0;
    while i < 16
        invariant
            i <= 16,
            ctr@.len() == 16,
            hash@.len() == 32,
            forall|k: int| 0 <= k < i ==> #[trigger] ctr@[k] == hash@[k] ^ hash@[k + 16],
        decreases 16 - i,
    {
        ctr[i] = hash[i] ^ hash[i + 16];
        i = i + 1;
    }
    assert(ctr@ =~= path_ctr(names(path@)));
    ctr
}

/// A card. Its files are encrypted, each with a counter of its own.
pub struct Sd {
    pub key: [u8; 16],
}

impl Sd {
    /// Takes the key of a card from the two halves.
    pub fn new(key_x: [u8; 16], key_y: [u8; 16]) -> (r: Sd)
        ensures
            scrambled(key_x@, key_y@, r.key@),
    {
        Sd { key: scramble(key_x, key_y) }
    }

    /// What is stored for a file, from what the file holds, and the other way round.
    pub open spec fn ciphered(&self, path: Names, data: Seq<u8>) -> Seq<u8> {
        crypted(self.key@, path_ctr(path), false, 0, data)
    }

    /// Opens a file from what is stored for it.
    pub fn open(&self, path: &Vec<Vec<u8>>, stored: Vec<u8>) -> (r: AesCtrFile<MemoryFile>)
        ensures
            r.inv(),
            r.bytes() == self.ciphered(names(path@), stored@),
            r.bytes().len() == stored@.len(),
            forall|i: int| 0 <= i < stored@.len() ==> r.readable(i),
    {
        AesCtrFile::new(MemoryFile::new(stored), self.key, get_ctr(path))
    }

    /// Turns what is stored for a file into what the file holds, and the other way round.
    pub fn cipher(&self, path: &Vec<Vec<u8>>, data: Vec<u8>) -> (r: Vec<u8>)
        ensures
            r@ == self.ciphered(names(path@), data@),
    {
        let n: usize = data.len();
        let mut file = self.open(path, data);
        match file.load(0, n) {
            Ok(r) => {
                assert(r@ =~= self.ciphered(names(path@), data@));
                r
            },
            Err(_) => Vec::new(),
        }
    }
}

/// What is stored for a file gives back what the file holds.
pub proof fn law_stored_file_opens(sd: Sd, path: Names, data: Seq<u8>)
    ensures
        sd.ciphered(path, sd.ciphered(path, data)) == data,
{
    law_crypted_twice(sd.key@, path_ctr(path), false, 0, data);
}

} // verus!
