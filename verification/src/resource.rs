use crate::db::{Db, DbType};
use crate::error::{make_error, Error};
use crate::ext_data::{ExtData, ExtDataFormatParam, ExtImages};
use crate::key_engine::scramble;
use crate::keys::{array16, hash_movable, BootKeys};
use crate::nand::Nand;
use crate::paths::{db_path, ext_meta_path, sd_ext_base, sd_save_path};
use crate::random_access_file::copy_range;
use crate::save_data::{SaveData, SaveDataFormatParam, SaveDataType};
use crate::sd::Sd;
use vstd::prelude::*;

verus! {

use crate::db::db_open_gives;
use crate::ext_data::{ext_fits, ext_format_gives, ext_open_gives};
use crate::key_engine::scrambled;
use crate::keys::{is_db_key_x, movable_name, otp_intact};
use crate::paths::{db_names, sd_ext_names, sd_save_names};
use crate::save_data::{format_fits, save_made, save_open_gives, save_size};
use crate::sd::law_stored_file_opens;

/// The second half of a console's keys, from a file that holds it.
pub open spec fn key_y_of(movable: Option<Vec<u8>>, nand: Option<(Nand, Vec<u8>)>) -> Option<
    Seq<u8>,
> {
    match nand {
        Some(n) => Some(n.1@.subrange(0x110, 0x120)),
        None => match movable {
            Some(m) => Some(m@.subrange(0x110, 0x120)),
            None => None,
        },
    }
}

/// The error that the given files are refused with: a file is too short, or the one-time memory
/// cannot be read or is broken.
pub open spec fn resource_error(
    boot9: Option<Vec<u8>>,
    movable: Option<Vec<u8>>,
    nand: Option<(Nand, Vec<u8>)>,
    otp: Option<Vec<u8>>,
) -> Option<Error> {
    if boot9 matches Some(b) && b@.len() < 0xDAD0 {
        Some(Error::OutOfBound)
    } else if nand matches Some(n) && n.1@.len() < 0x120 {
        Some(Error::OutOfBound)
    } else if nand is None && (movable matches Some(m) && m@.len() < 0x120) {
        Some(Error::OutOfBound)
    } else {
        match (otp, boot9) {
            (None, _) => None,
            (Some(_), None) => Some(Error::MissingBoot9),
            (Some(o), Some(b)) => if o@.len() < 0x100 {
                Some(Error::OutOfBound)
            } else if !otp_intact(b@, o@) {
                Some(Error::BrokenOtp)
            } else {
                None
            },
        }
    }
}

/// A key comes of two halves where both are there.
pub open spec fn key_from(x: Option<Seq<u8>>, y: Option<Seq<u8>>, k: Option<[u8; 16]>) -> bool {
    match (x, y) {
        (Some(x), Some(y)) => k matches Some(k) && scrambled(x, y, k@),
        _ => k is None,
    }
}

/// A part of the boot ROM.
pub open spec fn boot_part(boot9: Option<Vec<u8>>, pos: int) -> Option<Seq<u8>> {
    match boot9 {
        Some(b) => Some(b@.subrange(pos, pos + 16)),
        None => None,
    }
}

/// What archives are found and opened with.
pub struct Resource {
    pub sd: Option<Sd>,
    pub nand: Option<Nand>,
    pub key_sign: Option<[u8; 16]>,
    pub key_db: Option<[u8; 16]>,
    pub id0: Option<Vec<u8>>,
}

fn copy_key(data: &Vec<u8>) -> (r: Result<[u8; 16], Error>)
    ensures
        data@.len() < 0x120 ==> r == Err::<[u8; 16], Error>(Error::OutOfBound),
        data@.len() >= 0x120 ==> (r matches Ok(k) && k@ == data@.subrange(0x110, 0x120)),
{
    if data.len() < 0x120 {
        return make_error(Error::OutOfBound);
    }
    Ok(array16(data, 0x110))
}

impl Resource {
    /// Derives the keys from the files that hold them. With the content of the console's storage
    /// comes the file of that storage, which goes before the one given by itself.
    pub fn new(
        boot9: Option<Vec<u8>>,
        movable: Option<Vec<u8>>,
        sd: bool,
        nand: Option<(Nand, Vec<u8>)>,
        otp: Option<Vec<u8>>,
    ) -> (r: Result<Resource, Error>)
        ensures
            match resource_error(boot9, movable, nand, otp) {
                Some(e) => r == Err::<Resource, Error>(e),
                None => {
                    let y = key_y_of(movable, nand);
                    &&& r matches Ok(res)
                    &&& key_from(boot_part(boot9, 0xD9E0), y, res.key_sign)
                    &&& match (res.id0, y) {
                        (Some(id0), Some(y)) => id0@ == movable_name(y),
                        (i, y) => i is None && y is None,
                    }
                    &&& if sd {
                        key_from(
                            boot_part(boot9, 0xD9F0),
                            y,
                            match res.sd {
                                Some(s) => Some(s.key),
                                None => None,
                            },
                        )
                    } else {
                        res.sd is None
                    }
                    &&& res.nand == match nand {
                        Some(n) => Some(n.0),
                        None => None,
                    }
                    &&& match (otp, boot9) {
                        (Some(o), Some(b)) => res.key_db matches Some(k) && exists|x: Seq<u8>|
                            #[trigger]
                            is_db_key_x(b@, o@, x) && scrambled(
                                x,
                                b@.subrange(0xDAC0, 0xDAD0),
                                k@,
                            ),
                        _ => res.key_db is None,
                    }
                },
            },
    {
        let mut keys: Option<BootKeys> = None;
        let ghost mut rom = Seq::<u8>::empty();
        match &boot9 {
            Some(b) => {
                match BootKeys::read(b) {
                    Some(k) => {
                        keys = Some(k);
                    },
                    None => {
                        return make_error(Error::OutOfBound);
                    },
                }
                proof {
                    rom = b@;
                }
            },
            None => {},
        }
        let mut key_y: Option<[u8; 16]> = None;
        let mut storage: Option<Nand> = None;
        match nand {
            Some((n, m)) => {
                match copy_key(&m) {
                    Ok(k) => {
                        key_y = Some(k);
                    },
                    Err(e) => {
                        return make_error(e);
                    },
                }
                storage = Some(n);
            },
            None => {
                if let Some(m) = &movable {
                    match copy_key(m) {
                        Ok(k) => {
                            key_y = Some(k);
                        },
                        Err(e) => {
                            return make_error(e);
                        },
                    }
                }
            },
        }
        let mut id0: Option<Vec<u8>> = None;
        let mut key_sign: Option<[u8; 16]> = None;
        let mut card: Option<Sd> = None;
        if let Some(y) = key_y {
            id0 = Some(hash_movable(y));
            if let Some(k) = &keys {
                key_sign = Some(scramble(k.key_x_sign, y));
                if sd {
                    card = Some(Sd::new(k.key_x_dec, y));
                }
            }
        }
        let mut key_db: Option<[u8; 16]> = None;
        if let Some(o) = &otp {
            match &keys {
                Some(k) => {
                    if o.len() < 0x100 {
                        return make_error(Error::OutOfBound);
                    }
                    match k.db_key_x(o, Ghost(rom)) {
                        Ok(x) => {
                            key_db = Some(scramble(x, k.key_y_db));
                        },
                        Err(e) => {
                            return make_error(e);
                        },
                    }
                },
                None => {
                    return make_error(Error::MissingBoot9);
                },
            }
        }
        Ok(Resource { sd: card, nand: storage, key_sign, key_db, id0 })
    }

    /// The card, and the key of signatures.
    fn card(&self) -> (r: Result<(&Sd, [u8; 16]), Error>)
        ensures
            match (self.sd, self.key_sign) {
                (None, _) => r == Err::<(&Sd, [u8; 16]), Error>(Error::MissingSd),
                (Some(_), None) => r == Err::<(&Sd, [u8; 16]), Error>(Error::MissingBoot9),
                (Some(sd), Some(key)) => r matches Ok(v) && *v.0 == sd && v.1 == key,
            },
    {
        match &self.sd {
            None => make_error(Error::MissingSd),
            Some(sd) => match self.key_sign {
                None => make_error(Error::MissingBoot9),
                Some(key) => Ok((sd, key)),
            },
        }
    }

    /// The name of the console's directory in its storage, and the key of signatures.
    fn storage(&self) -> (r: Result<(Vec<u8>, [u8; 16]), Error>)
        ensures
            match (self.nand, self.id0, self.key_sign) {
                (None, _, _) => r == Err::<(Vec<u8>, [u8; 16]), Error>(Error::MissingNand),
                (Some(_), None, _) => r == Err::<(Vec<u8>, [u8; 16]), Error>(Error::MissingNand),
                (Some(_), Some(_), None) => r == Err::<(Vec<u8>, [u8; 16]), Error>(
                    Error::MissingBoot9,
                ),
                (Some(_), Some(id0), Some(key)) => r matches Ok(v) && v.0@ == id0@ && v.1 == key,
            },
    {
        if self.nand.is_none() {
            return make_error(Error::MissingNand);
        }
        match &self.id0 {
            None => make_error(Error::MissingNand),
            Some(id0) => match self.key_sign {
                None => make_error(Error::MissingBoot9),
                Some(key) => {
                    let n: usize = id0.len();
                    let name = copy_range(id0, 0, n);
                    assert(name@ =~= id0@);
                    Ok((name, key))
                },
            },
        }
    }

    /// What keeps archives on the card from being opened.
    pub open spec fn card_error(&self) -> Option<Error> {
        match (self.sd, self.key_sign) {
            (None, _) => Some(Error::MissingSd),
            (Some(_), None) => Some(Error::MissingBoot9),
            _ => None,
        }
    }

    /// What keeps archives in the console's storage from being opened.
    pub open spec fn storage_error(&self) -> Option<Error> {
        match (self.nand, self.id0, self.key_sign) {
            (Some(_), Some(_), None) => Some(Error::MissingBoot9),
            (Some(_), Some(_), Some(_)) => None,
            _ => Some(Error::MissingNand),
        }
    }

    /// Opens save data on the card from what is stored for it.
    pub fn open_sd_save(&self, id: u64, stored: Vec<u8>) -> (r: Result<SaveData, Error>)
        ensures
            match self.card_error() {
                Some(e) => r == Err::<SaveData, Error>(e),
                None => save_open_gives(
                    self.sd->0.ciphered(sd_save_names(id), stored@),
                    SaveDataType::Sd(self.key_sign->0, id),
                    r,
                ),
            },
    {
        let (sd, key) = match self.card() {
            Ok(v) => v,
            Err(e) => {
                return make_error(e);
            },
        };
        let file = sd.cipher(&sd_save_path(id), stored);
        SaveData::new(file, SaveDataType::Sd(key, id))
    }

    /// Makes save data on the card. Gives what is to be stored for it.
    pub fn format_sd_save(&self, id: u64, param: &SaveDataFormatParam, len: usize) -> (r: Result<
        Vec<u8>,
        Error,
    >)
        requires
            format_fits(*param, len as int),
        ensures
            save_size(*param, 1) > len ==> r == Err::<Vec<u8>, Error>(Error::NoSpace),
            save_size(*param, 1) <= len ==> match self.card_error() {
                Some(e) => r == Err::<Vec<u8>, Error>(e),
                None => r matches Ok(stored) && save_made(
                    self.sd->0.ciphered(sd_save_names(id), stored@),
                    SaveDataType::Sd(self.key_sign->0, id),
                    *param,
                    len as int,
                ),
            },
    {
        if SaveData::calculate_capacity(param, len) == 0 {
            return make_error(Error::NoSpace);
        }
        let (sd, key) = match self.card() {
            Ok(v) => v,
            Err(e) => {
                return make_error(e);
            },
        };
        let mut file: Vec<u8> = vec![0u8; len];
        if let Err(e) = SaveData::format(&mut file, SaveDataType::Sd(key, id), param) {
            return make_error(e);
        }
        let path = sd_save_path(id);
        proof {
            law_stored_file_opens(*sd, sd_save_names(id), file@);
        }
        Ok(sd.cipher(&path, file))
    }

    /// Opens save data in the console's storage.
    pub fn open_nand_save(&self, id: u32, stored: Vec<u8>) -> (r: Result<SaveData, Error>)
        ensures
            match self.storage_error() {
                Some(e) => r == Err::<SaveData, Error>(e),
                None => save_open_gives(
                    stored@,
                    SaveDataType::Nand(self.key_sign->0, id),
                    r,
                ),
            },
    {
        match self.storage() {
            Ok((_, key)) => SaveData::new(stored, SaveDataType::Nand(key, id)),
            Err(e) => make_error(e),
        }
    }

    /// Makes save data in the console's storage. Gives what is to be stored for it.
    pub fn format_nand_save(&self, id: u32, param: &SaveDataFormatParam, len: usize) -> (r: Result<
        Vec<u8>,
        Error,
    >)
        requires
            format_fits(*param, len as int),
        ensures
            save_size(*param, 1) > len ==> r == Err::<Vec<u8>, Error>(Error::NoSpace),
            save_size(*param, 1) <= len ==> match self.storage_error() {
                Some(e) => r == Err::<Vec<u8>, Error>(e),
                None => r matches Ok(stored) && save_made(
                    stored@,
                    SaveDataType::Nand(self.key_sign->0, id),
                    *param,
                    len as int,
                ),
            },
    {
        if SaveData::calculate_capacity(param, len) == 0 {
            return make_error(Error::NoSpace);
        }
        match self.storage() {
            Ok((_, key)) => {
                let mut file: Vec<u8> = vec![0u8; len];
                match SaveData::format(&mut file, SaveDataType::Nand(key, id), param) {
                    Ok(()) => Ok(file),
                    Err(e) => make_error(e),
                }
            },
            Err(e) => make_error(e),
        }
    }

    /// Opens save data in a file of its own.
    pub fn open_bare_save(&self, stored: Vec<u8>) -> (r: Result<SaveData, Error>)
        ensures
            save_open_gives(stored@, SaveDataType::Bare, r),
    {
        SaveData::new(stored, SaveDataType::Bare)
    }

    /// Makes save data in a file of its own. Gives what is to be stored for it.
    pub fn format_bare_save(&self, param: &SaveDataFormatParam, len: usize) -> (r: Result<
        Vec<u8>,
        Error,
    >)
        requires
            format_fits(*param, len as int),
        ensures
            save_size(*param, 1) > len ==> r == Err::<Vec<u8>, Error>(Error::NoSpace),
            save_size(*param, 1) <= len ==> (r matches Ok(stored) && save_made(
                stored@,
                SaveDataType::Bare,
                *param,
                len as int,
            )),
    {
        let mut file: Vec<u8> = vec![0u8; len];
        match SaveData::format(&mut file, SaveDataType::Bare, param) {
            Ok(()) => Ok(file),
            Err(e) => make_error(e),
        }
    }

    /// Opens extra data on the card from what is stored for its list of files.
    pub fn open_sd_ext(&self, id: u64, stored: Vec<u8>) -> (r: Result<ExtData, Error>)
        ensures
            match self.card_error() {
                Some(e) => r == Err::<ExtData, Error>(e),
                None => ext_open_gives(
                    self.sd->0.ciphered(sd_ext_names(id), stored@),
                    None,
                    id,
                    self.key_sign->0,
                    r,
                ),
            },
    {
        let (sd, key) = match self.card() {
            Ok(v) => v,
            Err(e) => {
                return make_error(e);
            },
        };
        let file = sd.cipher(&ext_meta_path(sd_ext_base(), id), stored);
        ExtData::new(file, None, id, key)
    }

    /// Makes extra data on the card. Gives what is to be stored for its list of files.
    pub fn format_sd_ext(&self, id: u64, param: &ExtDataFormatParam) -> (r: Result<
        ExtImages,
        Error,
    >)
        requires
            ext_fits(*param),
        ensures
            match self.card_error() {
                Some(e) => r == Err::<ExtImages, Error>(e),
                None => exists|made: ExtImages| #[trigger]
                    ext_format_gives(
                        id,
                        self.key_sign->0,
                        None,
                        *param,
                        Ok::<ExtImages, Error>(made),
                    ) && (r matches Ok(f) && f.quota is None && f.meta@ == self.sd->0.ciphered(
                        sd_ext_names(id),
                        made.meta@,
                    )),
            },
    {
        let (sd, key) = match self.card() {
            Ok(v) => v,
            Err(e) => {
                return make_error(e);
            },
        };
        match ExtData::format(id, key, None, param) {
            Ok(f) => {
                let ghost made = f;
                let meta = sd.cipher(&ext_meta_path(sd_ext_base(), id), f.meta);
                assert(ext_format_gives(id, key, None, *param, Ok::<ExtImages, Error>(made)));
                Ok(ExtImages { meta, quota: None })
            },
            Err(e) => make_error(e),
        }
    }

    /// Opens extra data in the console's storage on its list of files and its quota.
    pub fn open_nand_ext(&self, id: u64, meta: Vec<u8>, quota: Vec<u8>) -> (r: Result<
        ExtData,
        Error,
    >)
        ensures
            match self.storage_error() {
                Some(e) => r == Err::<ExtData, Error>(e),
                None => ext_open_gives(meta@, Some(quota), id, self.key_sign->0, r),
            },
    {
        match self.storage() {
            Ok((_, key)) => ExtData::new(meta, Some(quota), id, key),
            Err(e) => make_error(e),
        }
    }

    /// Makes extra data in the console's storage, with a quota of 1048576 blocks.
    pub fn format_nand_ext(&self, id: u64, param: &ExtDataFormatParam) -> (r: Result<
        ExtImages,
        Error,
    >)
        requires
            ext_fits(*param),
        ensures
            match self.storage_error() {
                Some(e) => r == Err::<ExtImages, Error>(e),
                None => ext_format_gives(
                    id,
                    self.key_sign->0,
                    Some((1024 * 1024) as u32),
                    *param,
                    r,
                ),
            },
    {
        match self.storage() {
            Ok((_, key)) => ExtData::format(id, key, Some(1024 * 1024), param),
            Err(e) => make_error(e),
        }
    }

    /// What keeps a database from being opened.
    pub open spec fn db_error(&self, t: DbType) -> Option<Error> {
        if on_card(t) {
            self.card_error()
        } else if self.nand is None {
            Some(Error::MissingNand)
        } else if self.key_db is None {
            Some(Error::MissingOtp)
        } else {
            None
        }
    }

    /// The key that a database is signed with.
    pub open spec fn db_key(&self, t: DbType) -> Option<[u8; 16]> {
        if on_card(t) {
            self.key_sign
        } else {
            self.key_db
        }
    }

    /// What the file of a database holds, from what is stored for it.
    pub open spec fn db_file(&self, t: DbType, stored: Seq<u8>) -> Seq<u8> {
        if on_card(t) {
            self.sd->0.ciphered(db_names(t), stored)
        } else {
            stored
        }
    }

    /// Opens a database from what is stored for it.
    pub fn open_db(&self, db_type: DbType, stored: Vec<u8>) -> (r: Result<Db, Error>)
        ensures
            match self.db_error(db_type) {
                Some(e) => r == Err::<Db, Error>(e),
                None => db_open_gives(
                    self.db_file(db_type, stored@),
                    db_type,
                    self.db_key(db_type),
                    r,
                ),
            },
    {
        match db_type {
            DbType::SdTitle | DbType::SdImport => {
                let (sd, key) = match self.card() {
                    Ok(v) => v,
                    Err(e) => {
                        return make_error(e);
                    },
                };
                let file = sd.cipher(&db_path(&db_type), stored);
                Db::new(file, db_type, Some(key))
            },
            _ => {
                if self.nand.is_none() {
                    return make_error(Error::MissingNand);
                }
                match self.key_db {
                    None => make_error(Error::MissingOtp),
                    Some(key) => Db::new(stored, db_type, Some(key)),
                }
            },
        }
    }
}

/// The databases that are on the card.
pub open spec fn on_card(t: DbType) -> bool {
    t is SdTitle || t is SdImport
}

} // verus!
