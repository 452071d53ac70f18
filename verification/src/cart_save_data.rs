use crate::aes_ctr_file::AesCtrFile;
use crate::error::{make_error, Error};
use crate::memory_file::MemoryFile;
use crate::random_access_file::{copy_range, Content, RandomAccessFile};
use crate::save_data::{SaveData, SaveDataFormatParam, SaveDataType};
use crate::volume_store::Stat;
use crate::wear_leveling::WearLeveling;
use vstd::prelude::*;

verus! {

use crate::aes_ctr_file::crypted;
use crate::archive::Archive;
use crate::random_access_file::{can_read, same_file};
use crate::save_data::{
    capacity_is, format_fits, save_blank, save_kept, save_open_gives, save_size,
};
use crate::volume::same_volume;
use crate::volume_store::{files_as_before, stat_is};
use crate::wear_leveling::{new_chip, virtual_count, wear_byte, wear_len_ok, wear_parse};

/// How a cartridge stores its save data.
#[derive(Clone, Copy, PartialEq, Eq, Debug)]
pub struct CartFormat {
    pub wear_leveling: bool,
    pub key: [u8; 16],
    pub key_cmac: [u8; 16],
    pub repeat_ctr: bool,
}

impl CartFormat {
    pub open spec fn save_type(self) -> SaveDataType {
        SaveDataType::Cart(self.key_cmac)
    }
}

/// The counter that the encryption begins with.
pub open spec fn cart_ctr() -> Seq<u8> {
    Seq::new(16, |i: int| 0u8)
}

/// What is stored on a cartridge, without the wear leveling.
pub open spec fn cart_stored(raw: Seq<u8>, format: CartFormat) -> Result<Seq<u8>, Error> {
    if format.wear_leveling {
        match wear_parse(raw) {
            Err(e) => Err(e),
            Ok(b) => Ok(
                Seq::new(((b.len() - 1) * 0x1000) as nat, |i: int| wear_byte(raw, b, i)),
            ),
        }
    } else {
        Ok(raw)
    }
}

/// The save data on a cartridge.
pub open spec fn cart_image(raw: Seq<u8>, format: CartFormat) -> Result<Seq<u8>, Error> {
    match cart_stored(raw, format) {
        Err(e) => Err(e),
        Ok(d) => Ok(crypted(format.key@, cart_ctr(), format.repeat_ctr, 0, d)),
    }
}

/// The storage of a cartridge.
pub enum CartStore {
    Plain(AesCtrFile<MemoryFile>),
    Wear(AesCtrFile<WearLeveling>),
}

impl CartStore {
    pub open spec fn inv(&self) -> bool {
        match *self {
            CartStore::Plain(f) => f.inv(),
            CartStore::Wear(f) => f.inv(),
        }
    }

    /// The save data.
    pub open spec fn bytes(&self) -> Seq<u8> {
        match *self {
            CartStore::Plain(f) => f.bytes(),
            CartStore::Wear(f) => f.bytes(),
        }
    }

    /// The cartridge as it is stored.
    pub open spec fn raw(&self) -> Seq<u8> {
        match *self {
            CartStore::Plain(f) => f.data.data@,
            CartStore::Wear(f) => f.data.file@,
        }
    }

    /// The storage is that of a cartridge of a format.
    pub open spec fn has_format(&self, format: CartFormat) -> bool {
        match *self {
            CartStore::Plain(f) => !format.wear_leveling && f.key@ == format.key@ && f.ctr@
                == cart_ctr() && f.repeat_ctr == format.repeat_ctr,
            CartStore::Wear(f) => format.wear_leveling && f.key@ == format.key@ && f.ctr@
                == cart_ctr() && f.repeat_ctr == format.repeat_ctr,
        }
    }

    /// Opens the storage of a cartridge.
    fn open(raw: Vec<u8>, format: &CartFormat) -> (r: Result<CartStore, Error>)
        ensures
            match cart_image(raw@, *format) {
                Err(e) => r == Err::<CartStore, Error>(e),
                Ok(d) => r matches Ok(s) && s.inv() && s.bytes() == d && s.has_format(*format)
                    && s.raw() == raw@,
            },
    {
        let ctr: [u8; 16] = [0u8; 16];
        assert(ctr@ =~= cart_ctr());
        if format.wear_leveling {
            match WearLeveling::new(raw) {
                Ok(w) => {
                    let ghost b = w.blocks@;
                    let ghost f = w.file@;
                    assert(w.bytes() =~= Seq::new(
                        ((b.len() - 1) * 0x1000) as nat,
                        |i: int| wear_byte(f, b, i),
                    ));
                    Ok(
                        CartStore::Wear(
                            AesCtrFile::with_repeat(w, format.key, ctr, format.repeat_ctr),
                        ),
                    )
                },
                Err(e) => Err(e),
            }
        } else {
            let f = MemoryFile::new(raw);
            Ok(
                CartStore::Plain(AesCtrFile::with_repeat(f, format.key, ctr, format.repeat_ctr)),
            )
        }
    }

    /// Reads all of the save data.
    fn load_all(&mut self) -> (r: Vec<u8>)
        requires
            old(self).inv(),
        ensures
            final(self).inv(),
            final(self).bytes() == old(self).bytes(),
            forall|f: CartFormat| #[trigger] old(self).has_format(f) ==> final(self).has_format(f),
            r@ == old(self).bytes(),
    {
        match self {
            CartStore::Plain(f) => load_whole(f),
            CartStore::Wear(f) => load_whole(f),
        }
    }

    /// Writes what has changed of the save data.
    fn update(&mut self, before: &Vec<u8>, after: &Vec<u8>)
        requires
            old(self).inv(),
            before@ == old(self).bytes(),
            after@.len() == before@.len(),
        ensures
            final(self).inv(),
            final(self).bytes() == after@,
            forall|f: CartFormat| #[trigger] old(self).has_format(f) ==> final(self).has_format(f),
    {
        match self {
            CartStore::Plain(f) => write_changes(f, before, after),
            CartStore::Wear(f) => write_changes(f, before, after),
        }
    }

    /// Stores what has been written.
    fn commit(&mut self) -> (r: Result<(), Error>)
        requires
            old(self).inv(),
        ensures
            final(self).inv(),
            r == Ok::<(), Error>(()),
            final(self).bytes() == old(self).bytes(),
            forall|f: CartFormat| #[trigger]
                old(self).has_format(f) ==> final(self).has_format(f) && cart_image(
                    final(self).raw(),
                    f,
                ) == Ok::<Seq<u8>, Error>(old(self).bytes()),
    {
        match self {
            CartStore::Plain(f) => Ok(()),
            CartStore::Wear(f) => {
                let ghost d = f.data.bytes();
                let r = f.data.commit();
                proof {
                    let w = f.data;
                    let b = w.blocks@;
                    assert(w.bytes() =~= Seq::new(
                        ((b.len() - 1) * 0x1000) as nat,
                        |i: int| wear_byte(w.file@, b, i),
                    ));
                }
                r
            },
        }
    }

    /// The cartridge as it is stored.
    fn image(&self) -> (r: Vec<u8>)
        ensures
            r@ == self.raw(),
    {
        match self {
            CartStore::Plain(f) => {
                let n: usize = f.data.data.len();
                let r = copy_range(&f.data.data, 0, n);
                assert(r@ =~= f.data.data@);
                r
            },
            CartStore::Wear(f) => {
                let n: usize = f.data.file.len();
                let r = copy_range(&f.data.file, 0, n);
                assert(r@ =~= f.data.file@);
                r
            },
        }
    }
}

fn load_whole<F: RandomAccessFile>(f: &mut AesCtrFile<F>) -> (r: Vec<u8>)
    requires
        old(f).inv(),
        forall|i: int| #[trigger] old(f).readable(i),
    ensures
        final(f).inv(),
        same_file(*old(f), *final(f)),
        final(f).key == old(f).key,
        final(f).ctr == old(f).ctr,
        final(f).repeat_ctr == old(f).repeat_ctr,
        r@ == old(f).bytes(),
{
    let ghost a = *f;
    let n: usize = f.len();
    match f.load(0, n) {
        Ok(v) => {
            assert(v@ =~= a.bytes());
            v
        },
        Err(_) => {
            assert(can_read(a, 0, n as int));
            Vec::new()
        },
    }
}

/// Writes the parts of a file that are to change.
fn write_changes<F: RandomAccessFile>(f: &mut AesCtrFile<F>, before: &Vec<u8>, after: &Vec<u8>)
    requires
        old(f).inv(),
        before@ == old(f).bytes(),
        after@.len() == before@.len(),
    ensures
        final(f).inv(),
        final(f).bytes() == after@,
        final(f).key == old(f).key,
        final(f).ctr == old(f).ctr,
        final(f).repeat_ctr == old(f).repeat_ctr,
{
    let ghost a = *f;
    let n: usize = after.len();
    let mut i: usize = 0;
    assert(f.bytes() =~= after@.take(0) + before@.skip(0));
    while i < n
        invariant
            i <= n == after@.len() == before@.len(),
            f.inv(),
            f.key == a.key,
            f.ctr == a.ctr,
            f.repeat_ctr == a.repeat_ctr,
            f.bytes() == after@.take(i as int) + before@.skip(i as int),
        decreases n - i,
    {
        let len: usize = if n - i < 0x200 {
            n - i
        } else {
            0x200
        };
        let x = copy_range(before, i, len);
        let y = copy_range(after, i, len);
        let ghost b = f.bytes();
        if !crate::meta_table::same_bytes(&x, &y) {
            let _r = f.write(i, &y);
        }
        proof {
            let c = after@.take(i + len) + before@.skip(i + len);
            assert forall|k: int| 0 <= k < n implies f.bytes()[k] == c[k] by {
                if i <= k < i + len {
                    assert(y@[k - i] == after@[k]);
                    assert(x@[k - i] == before@[k]);
                }
            }
            assert(f.bytes() =~= c);
        }
        i = i + len;
    }
    assert(f.bytes() =~= after@);
}

/// Save data on a cartridge.
pub struct CartSaveData {
    pub store: CartStore,
    pub save_data: SaveData,
}

impl CartSaveData {
    pub open spec fn inv(&self) -> bool {
        &&& self.store.inv()
        &&& self.save_data.inv()
        &&& self.store.bytes() == self.save_data.disa.inner.file@
    }

    /// How long the save data is that a cartridge of a length can hold.
    pub open spec fn room(len: int, format: CartFormat) -> int {
        if format.wear_leveling {
            (virtual_count(len) - 1) * 0x1000
        } else {
            len
        }
    }

    /// Makes new save data that fills a cartridge.
    pub fn format(file: &mut Vec<u8>, format: &CartFormat, param: &SaveDataFormatParam) -> (r: Result<
        (),
        Error,
    >)
        requires
            format.wear_leveling && !wear_len_ok(old(file)@.len() as int) || format_fits(
                *param,
                CartSaveData::room(old(file)@.len() as int, *format),
            ),
        ensures
            ({
                let n = old(file)@.len() as int;
                let room = CartSaveData::room(n, *format);
                if format.wear_leveling && !wear_len_ok(n) {
                    r == Err::<(), Error>(Error::SizeMismatch) && final(file)@ == old(file)@
                } else if save_size(*param, 1) > room {
                    &&& r == Err::<(), Error>(Error::NoSpace)
                    &&& final(file)@ == if format.wear_leveling {
                        new_chip(old(file)@)
                    } else {
                        old(file)@
                    }
                } else {
                    &&& r == Ok::<(), Error>(())
                    &&& cart_image(final(file)@, *format) matches Ok(d) && exists|
                        a: Archive,
                        k: int,
                    | #[trigger]
                        save_blank(*param, k, a) && capacity_is(*param, room, k) && save_kept(
                            d,
                            format.save_type().signer(),
                            a,
                        )
                }
            }),
    {
        let n: usize = file.len();
        if format.wear_leveling {
            if let Err(e) = WearLeveling::format(file) {
                return make_error(e);
            }
        }
        let raw = copy_range(file, 0, n);
        assert(raw@ =~= file@);
        let mut store = match CartStore::open(raw, format) {
            Ok(s) => s,
            Err(e) => {
                return make_error(e);
            },
        };
        let before = store.load_all();
        let len: usize = before.len();
        let mut image = copy_range(&before, 0, len);
        if let Err(e) = SaveData::format(&mut image, SaveDataType::Cart(format.key_cmac), param) {
            return make_error(e);
        }
        store.update(&before, &image);
        if let Err(e) = store.commit() {
            return make_error(e);
        }
        *file = store.image();
        Ok(())
    }

    /// Opens the save data of a cartridge.
    pub fn new(file: Vec<u8>, format: &CartFormat) -> (r: Result<CartSaveData, Error>)
        ensures
            match cart_image(file@, *format) {
                Err(e) => r == Err::<CartSaveData, Error>(e),
                Ok(d) => match r {
                    Ok(s) => s.inv() && s.store.has_format(*format) && s.store.bytes() == d
                        && save_open_gives(d, format.save_type(), Ok(s.save_data)),
                    Err(e) => save_open_gives(d, format.save_type(), Err(e)),
                },
            },
    {
        let mut store = match CartStore::open(file, format) {
            Ok(s) => s,
            Err(e) => {
                return make_error(e);
            },
        };
        let image = store.load_all();
        match SaveData::new(image, SaveDataType::Cart(format.key_cmac)) {
            Ok(save_data) => Ok(CartSaveData { store, save_data }),
            Err(e) => Err(e),
        }
    }

    /// Stores everything that has been changed.
    pub fn commit(&mut self) -> (r: Result<(), Error>)
        requires
            old(self).inv(),
        ensures
            final(self).save_data.inv(),
            old(self).save_data.settled() ==> {
                &&& r == Ok::<(), Error>(())
                &&& final(self).inv()
                &&& final(self).save_data.settled()
                &&& files_as_before(
                    old(self).save_data.archive.volume,
                    final(self).save_data.archive.volume,
                )
                &&& old(self).save_data.archive.volume.sound()
                    ==> final(self).save_data.archive.volume.sound()
                &&& forall|f: CartFormat| #[trigger]
                    old(self).store.has_format(f) ==> {
                        &&& final(self).store.has_format(f)
                        &&& cart_image(final(self).store.raw(), f) matches Ok(d) && save_kept(
                            d,
                            final(self).save_data.disa.inner.header.signer(),
                            final(self).save_data.archive,
                        )
                    }
            },
    {
        let n: usize = self.save_data.disa.inner.file.len();
        let before = copy_range(&self.save_data.disa.inner.file, 0, n);
        assert(before@ =~= self.save_data.disa.inner.file@);
        if let Err(e) = self.save_data.commit() {
            return make_error(e);
        }
        self.store.update(&before, &self.save_data.disa.inner.file);
        self.store.commit()
    }

    /// Tells how much of the save data is in use.
    pub fn stat(&mut self) -> (r: Result<Stat, Error>)
        requires
            old(self).inv(),
        ensures
            final(self).inv(),
            final(self).store == old(self).store,
            same_volume(
                old(self).save_data.archive.volume,
                final(self).save_data.archive.volume,
            ),
            old(self).save_data.archive.volume.sound() ==> (r matches Ok(s) && stat_is(
                s,
                old(self).save_data.archive.volume,
            )),
    {
        self.save_data.stat()
    }
}

} // verus!
