use crate::error::Error;
use vstd::prelude::*;

verus! {

/// `old_bytes` with `data` written over it from `pos` on.
pub open spec fn spliced(old_bytes: Seq<u8>, pos: int, data: Seq<u8>) -> Seq<u8> {
    Seq::new(
        old_bytes.len(),
        |i: int| if pos <= i < pos + data.len() { data[i - pos] } else { old_bytes[i] },
    )
}

/// How a file is made up of others, and the lengths of those.
pub enum Shape {
    /// A number of bytes.
    Bytes(nat),
    /// Three files, the last of which may be absent, and the length of the blocks.
    Parts(Box<Shape>, Box<Shape>, Box<Shape>, nat),
}

/// What a file holds, as its contracts speak of it.
pub trait Content {
    /// What holds of a file between calls.
    spec fn inv(&self) -> bool;

    /// The bytes of the file. What stands at an uninitialized position has no meaning.
    spec fn bytes(&self) -> Seq<u8>;

    /// Whether the byte at position `i` is initialized.
    spec fn readable(&self, i: int) -> bool;

    /// The bytes that a file shows that is opened anew on the same storage.
    spec fn durable(&self) -> Seq<u8>;

    /// Whether writing is safe for now: what has been written reaches `durable` with a later
    /// commit only.
    spec fn staged(&self) -> bool;

    /// How the file is made up. Nothing that is done with the file changes it.
    spec fn shape(&self) -> Shape;

    /// Whether a commit can be made: whether what it has to read is initialized.
    spec fn committable(&self) -> bool;
}

/// Interface to a file that supports random access.
///
/// A `RandomAccessFile` acts like a byte array of a fixed length. A byte of it may be
/// uninitialized: reading it then fails with `HashMismatch` until something is written there.
///
/// Many implementations act as a layer: they transform data between this interface and some
/// other `RandomAccessFile`s that are the underlying storage.
pub trait RandomAccessFile: Content + Sized {
    /// Reads `len` bytes at position `pos`.
    fn load(&mut self, pos: usize, len: usize) -> (r: Result<Vec<u8>, Error>)
        requires
            old(self).inv(),
        ensures
            final(self).inv(),
            same_file(*old(self), *final(self)),
            final(self).staged() == old(self).staged(),
            final(self).durable() == old(self).durable(),
            final(self).shape() == old(self).shape(),
            load_gives(*old(self), pos as int, len as int, r),
    ;

    /// Writes the bytes of `buf` at position `pos`.
    fn write(&mut self, pos: usize, buf: &[u8]) -> (r: Result<(), Error>)
        requires
            old(self).inv(),
        ensures
            final(self).inv(),
            write_gives(*old(self), *final(self), pos as int, buf@, r),
            old(self).staged() ==> final(self).staged() && final(self).durable() == old(self).durable(),
            final(self).shape() == old(self).shape(),
    ;

    /// The length of the file.
    fn len(&self) -> (n: usize)
        requires
            self.inv(),
        ensures
            n == self.bytes().len(),
    ;

    /// How many bytes from a position on are surely all initialized or all not.
    fn run_len(&self, pos: usize) -> (n: usize)
        requires
            self.inv(),
            pos < self.bytes().len(),
        ensures
            1 <= n <= self.bytes().len() - pos,
            forall|i: int| pos <= i < pos + n ==> #[trigger] self.readable(i) == self.readable(pos as int),
    {
        1
    }

    /// Flushes the changes to the underlying storage, so that a file that is opened on that
    /// storage afterwards holds the same bytes. The storage itself is not flushed.
    fn commit(&mut self) -> (r: Result<(), Error>)
        requires
            old(self).inv(),
        ensures
            r == if old(self).committable() {
                Ok::<(), Error>(())
            } else {
                Err::<(), Error>(Error::HashMismatch)
            },
            final(self).inv(),
            final(self).bytes() == old(self).bytes(),
            forall|i: int| old(self).readable(i) ==> #[trigger] final(self).readable(i),
            final(self).shape() == old(self).shape(),
    ;

    /// Reads bytes at position `pos` into `buf`. The length is that of `buf`.
    fn read(&mut self, pos: usize, buf: &mut [u8]) -> (r: Result<(), Error>)
        requires
            old(self).inv(),
        ensures
            final(self).inv(),
            same_file(*old(self), *final(self)),
            final(self).staged() == old(self).staged(),
            final(self).durable() == old(self).durable(),
            final(self).shape() == old(self).shape(),
            read_gives(*old(self), pos as int, old(buf)@, final(buf)@, r),
    {
        let n: usize = buf.len();
        match self.load(pos, n) {
            Ok(data) => {
                copy_into(buf, &data);
                Ok(())
            },
            Err(e) => Err(e),
        }
    }
}

/// A file all of whose bytes are always initialized.
pub trait WholeFile: RandomAccessFile {
    proof fn always_whole(&self)
        requires
            self.inv(),
        ensures
            all_readable(*self, 0, self.bytes().len() as int),
    ;
}

/// `a` and `b` hold the same bytes, and the same of them are initialized.
pub open spec fn same_file<F: Content>(a: F, b: F) -> bool {
    &&& b.bytes() == a.bytes()
    &&& forall|i: int| #[trigger] b.readable(i) == a.readable(i)
}

/// Whether the `len` bytes from `pos` on are all initialized.
pub open spec fn all_readable<F: Content>(f: F, pos: int, len: int) -> bool {
    forall|i: int| pos <= i < pos + len ==> #[trigger] f.readable(i)
}

/// Whether `len` bytes can be read at `pos`.
pub open spec fn can_read<F: Content>(f: F, pos: int, len: int) -> bool {
    pos + len <= f.bytes().len() && all_readable(f, pos, len)
}

/// The error for a range that cannot be read.
pub open spec fn refused<F: Content>(f: F, pos: int, len: int) -> Error {
    if pos + len > f.bytes().len() {
        Error::OutOfBound
    } else {
        Error::HashMismatch
    }
}

/// What reading `len` bytes at `pos` gives: the bytes where they can be read, else the error.
pub open spec fn load_gives<F: Content>(
    f: F,
    pos: int,
    len: int,
    r: Result<Vec<u8>, Error>,
) -> bool {
    match r {
        Ok(v) => can_read(f, pos, len) && v@ == f.bytes().subrange(pos, pos + len),
        Err(e) => !can_read(f, pos, len) && e == refused(f, pos, len),
    }
}

/// What reading at `pos` into `before` gives: `after` holds the bytes where they can be read;
/// else it is as it was, and there is the error.
pub open spec fn read_gives<F: Content>(
    f: F,
    pos: int,
    before: Seq<u8>,
    after: Seq<u8>,
    r: Result<(), Error>,
) -> bool {
    match r {
        Ok(_) => can_read(f, pos, before.len() as int) && after == f.bytes().subrange(
            pos,
            pos + before.len(),
        ),
        Err(e) => !can_read(f, pos, before.len() as int) && after == before && e == refused(
            f,
            pos,
            before.len() as int,
        ),
    }
}

/// What writing `data` at `pos` makes of `a`. Past the end nothing is written. Else `b` holds
/// the data and is else as before, and what was initialized or has been written is initialized.
pub open spec fn write_gives<F: Content>(
    a: F,
    b: F,
    pos: int,
    data: Seq<u8>,
    r: Result<(), Error>,
) -> bool {
    if pos + data.len() > a.bytes().len() {
        r == Err::<(), Error>(Error::OutOfBound) && same_file(a, b)
    } else {
        &&& r == Ok::<(), Error>(())
        &&& b.bytes() == spliced(a.bytes(), pos, data)
        &&& forall|i: int|
            a.readable(i) || pos <= i < pos + data.len() ==> #[trigger] b.readable(i)
    }
}

/// Copies `data` over `buf`, which is as long.
pub fn copy_into(buf: &mut [u8], data: &Vec<u8>)
    requires
        old(buf)@.len() == data@.len(),
    ensures
        final(buf)@ == data@,
{
    let n: usize = buf.len();
    let mut i: usize = 0;
    while i < n
        invariant
            i <= n == buf@.len() == data@.len(),
            buf@.take(i as int) == data@.take(i as int),
        decreases n - i,
    {
        buf[i] = data[i];
        i += 1;
        assert(buf@.take(i as int) =~= data@.take(i as int));
    }
    assert(buf@ =~= buf@.take(n as int));
    assert(data@ =~= data@.take(n as int));
}

/// Copies `data` over the front of `buf`.
pub fn copy_front(buf: &mut [u8], data: &Vec<u8>)
    requires
        data@.len() <= old(buf)@.len(),
    ensures
        final(buf)@ == data@ + old(buf)@.skip(data@.len() as int),
{
    let n: usize = data.len();
    let mut i: usize = 0;
    assert(buf@ =~= data@.take(0) + buf@.skip(0));
    while i < n
        invariant
            i <= n == data@.len() <= buf@.len(),
            buf@.len() == old(buf)@.len(),
            buf@ == data@.take(i as int) + old(buf)@.skip(i as int),
        decreases n - i,
    {
        buf[i] = data[i];
        i += 1;
        assert(buf@ =~= data@.take(i as int) + old(buf)@.skip(i as int));
    }
    assert(data@ =~= data@.take(n as int));
}

/// Copies out `len` bytes of `data` from `pos` on.
pub fn copy_range(data: &[u8], pos: usize, len: usize) -> (r: Vec<u8>)
    requires
        pos + len <= data@.len(),
    ensures
        r@ == data@.subrange(pos as int, pos + len),
{
    let _n: usize = data.len();
    vstd::slice::slice_to_vec(vstd::slice::slice_subrange(data, pos, pos + len))
}

/// Writes `buf` over `data` from `pos` on.
pub fn overwrite(data: &mut Vec<u8>, pos: usize, buf: &[u8])
    requires
        pos + buf@.len() <= old(data)@.len(),
    ensures
        final(data)@ == spliced(old(data)@, pos as int, buf@),
{
    let n: usize = buf.len();
    let _total: usize = data.len();
    let mut i: usize = 0;
    while i < n
        invariant
            i <= n == buf@.len(),
            pos + n <= data@.len() <= usize::MAX,
            data@ == spliced(old(data)@, pos as int, buf@.take(i as int)),
        decreases n - i,
    {
        data.set(pos + i, buf[i]);
        i += 1;
        assert(data@ =~= spliced(old(data)@, pos as int, buf@.take(i as int)));
    }
    assert(buf@.take(n as int) =~= buf@);
}

} // verus!
