use rand::Rng;
use save3ds::cart_save_data::{CartFormat, CartSaveData, CartStore};
use save3ds::db::{Db, DbType};
use save3ds::error::Error;
use save3ds::ext_data::{
    ExtData, ExtDataFormatParam, EXT_HEADER_LEN, NEW_UNIQUE_ID, QUOTA_LEN,
};
use save3ds::fits::{can_make_ext, can_make_file, can_make_save};
use save3ds::fs_info::FS_INFO_LEN;
use save3ds::fs_meta::FileMeta;
use save3ds::random_access_file::RandomAccessFile;
use save3ds::save_data::{
    SaveData, SaveDataBlockType, SaveDataFormatParam, SaveDataType, SAVE_FILE_LEN, SAVE_HEADER_LEN,
};
use save3ds::volume::Volume;
use save3ds::wear_leveling::WearLeveling;
use std::collections::{HashMap, HashSet};

#[test]
fn save_data_struct_size() {
    assert_eq!(SAVE_HEADER_LEN, 0x20);
    assert_eq!(SAVE_FILE_LEN, 24);
    assert_eq!(FS_INFO_LEN, 0x68);
}

#[test]
fn save_ext_common_struct_size() {
    assert_eq!(FS_INFO_LEN, 0x68);
}

#[test]
fn ext_data_struct_size() {
    assert_eq!(EXT_HEADER_LEN, 0x138);
    assert_eq!(SAVE_FILE_LEN, 24);
    assert_eq!(QUOTA_LEN, 0x48);
}

fn random_bytes(len: usize) -> Vec<u8> {
    let mut data = vec![0; len];
    rand::thread_rng().fill(&mut data[..]);
    data
}

fn gen_name() -> [u8; 16] {
    let mut name = [0; 16];
    name[0] = rand::thread_rng().gen_range(0..5);
    name
}

fn gen_len() -> usize {
    let mut rng = rand::thread_rng();
    if rng.gen_range(0..5) == 0 {
        0
    } else {
        rng.gen_range(0..4096 * 5)
    }
}

fn random_save_param() -> SaveDataFormatParam {
    let mut rng = rand::thread_rng();
    SaveDataFormatParam {
        block_type: if rng.gen() { SaveDataBlockType::Small } else { SaveDataBlockType::Large },
        max_dir: rng.gen_range(10..100),
        dir_buckets: rng.gen_range(10..100),
        max_file: rng.gen_range(10..100),
        file_buckets: rng.gen_range(10..100),
        duplicate_data: rng.gen(),
    }
}

struct ModelDir {
    ino: u32,
    parent: u32,
    name: [u8; 16],
}

struct ModelFile {
    ino: u32,
    parent: u32,
    name: [u8; 16],
    data: Vec<u8>,
}

/// What an archive should hold.
struct Model {
    dirs: Vec<ModelDir>,
    files: Vec<ModelFile>,
}

impl Model {
    fn new() -> Model {
        Model { dirs: vec![ModelDir { ino: 1, parent: 0, name: [0; 16] }], files: vec![] }
    }

    fn used(&self, parent: u32, name: &[u8; 16]) -> bool {
        self.dirs.iter().any(|d| d.ino != 1 && d.parent == parent && d.name == *name)
            || self.files.iter().any(|f| f.parent == parent && f.name == *name)
    }

    fn empty(&self, ino: u32) -> bool {
        !self.dirs.iter().any(|d| d.ino != 1 && d.parent == ino)
            && !self.files.iter().any(|f| f.parent == ino)
    }

    fn within(&self, ino: u32, top: u32) -> bool {
        let mut at = ino;
        while at != 1 {
            if at == top {
                return true;
            }
            at = self.dirs.iter().find(|d| d.ino == at).unwrap().parent;
        }
        top == 1
    }
}

fn listed(list: Vec<(Vec<u8>, u32)>) -> HashSet<([u8; 16], u32)> {
    list.into_iter()
        .map(|(n, i)| {
            let mut name = [0; 16];
            name.copy_from_slice(&n);
            (name, i)
        })
        .collect()
}

/// Does something at random with the directories of a volume.
fn fuzz_dirs(vol: &mut Volume, model: &mut Model, max_dir: usize) {
    let mut rng = rand::thread_rng();
    let at = rng.gen_range(0..model.dirs.len());
    let ino = model.dirs[at].ino;
    match rng.gen_range(0..5) {
        0 | 1 => {
            let name = gen_name();
            let dir = vol.open_dir(ino).unwrap();
            match dir.new_sub_dir(vol, &name) {
                Ok(d) => {
                    assert!(!model.used(ino, &name));
                    assert!(model.dirs.len() - 1 < max_dir);
                    model.dirs.push(ModelDir { ino: d.get_ino(), parent: ino, name });
                    d.close(vol);
                }
                Err(Error::AlreadyExist) => assert!(model.used(ino, &name)),
                Err(Error::NoSpace) => assert_eq!(model.dirs.len() - 1, max_dir),
                _ => unreachable!(),
            }
            dir.close(vol);
        }
        2 => {
            let dir = vol.open_dir(ino).unwrap();
            match dir.delete(vol) {
                Ok(()) => {
                    assert!(ino != 1 && model.empty(ino));
                    model.dirs.remove(at);
                }
                Err(Error::DeletingRoot) => assert_eq!(ino, 1),
                Err(Error::NotEmpty) => assert!(!model.empty(ino)),
                _ => unreachable!(),
            }
        }
        3 => {
            let dir = vol.open_dir(ino).unwrap();
            let dirs: HashSet<([u8; 16], u32)> = model
                .dirs
                .iter()
                .filter(|d| d.ino != 1 && d.parent == ino)
                .map(|d| (d.name, d.ino))
                .collect();
            let files: HashSet<([u8; 16], u32)> = model
                .files
                .iter()
                .filter(|f| f.parent == ino)
                .map(|f| (f.name, f.ino))
                .collect();
            assert_eq!(listed(dir.list_sub_dir(vol).unwrap()), dirs);
            assert_eq!(listed(dir.list_sub_file(vol).unwrap()), files);
            if ino != 1 {
                assert_eq!(dir.get_parent_ino(vol).unwrap(), model.dirs[at].parent);
            }
            dir.close(vol);
        }
        _ => {
            let to = model.dirs[rng.gen_range(0..model.dirs.len())].ino;
            if ino == 1 || model.within(to, ino) {
                return;
            }
            let name = gen_name();
            let mut dir = vol.open_dir(ino).unwrap();
            let target = vol.open_dir(to).unwrap();
            match dir.rename(vol, &target, &name) {
                Ok(()) => {
                    assert!(!model.used(to, &name));
                    model.dirs[at].parent = to;
                    model.dirs[at].name = name;
                }
                Err(Error::AlreadyExist) => assert!(model.used(to, &name)),
                _ => unreachable!(),
            }
            target.close(vol);
            dir.close(vol);
        }
    }
}

/// Does something at random with the files of a volume.
fn fuzz_files(vol: &mut Volume, model: &mut Model, max_file: usize) {
    let mut rng = rand::thread_rng();
    let parent = model.dirs[rng.gen_range(0..model.dirs.len())].ino;
    let operation = rng.gen_range(0..8);
    let stat = vol.stat().unwrap();
    if operation < 2 {
        let name = gen_name();
        let len = gen_len();
        let blocks = (len + stat.block_len - 1) / stat.block_len;
        let dir = vol.open_dir(parent).unwrap();
        match dir.new_sub_file(vol, &name, len) {
            Ok(f) => {
                assert!(!model.used(parent, &name));
                let data = random_bytes(len);
                f.write(vol, 0, &data).unwrap();
                model.files.push(ModelFile { ino: f.get_ino(), parent, name, data });
                f.close(vol);
            }
            Err(Error::AlreadyExist) => assert!(model.used(parent, &name)),
            Err(Error::NoSpace) => {
                assert!(model.files.len() == max_file || blocks > stat.free_blocks)
            }
            _ => unreachable!(),
        }
        dir.close(vol);
        return;
    }
    if model.files.is_empty() {
        return;
    }
    let at = rng.gen_range(0..model.files.len());
    let ino = model.files[at].ino;
    let len = model.files[at].data.len();
    let dir = vol.open_dir(model.files[at].parent).unwrap();
    let mut file = dir.open_sub_file(vol, &model.files[at].name).unwrap();
    dir.close(vol);
    assert_eq!(file.get_ino(), ino);
    assert_eq!(file.len(), len);
    match operation {
        2 => {
            file.delete(vol).unwrap();
            model.files.remove(at);
            return;
        }
        3 => {
            let new_len = gen_len();
            match file.resize(vol, new_len) {
                Ok(()) => {
                    let mut data = std::mem::take(&mut model.files[at].data);
                    if new_len > len {
                        let more = random_bytes(new_len - len);
                        file.write(vol, len, &more).unwrap();
                        data.extend_from_slice(&more);
                    } else {
                        data.truncate(new_len);
                    }
                    model.files[at].data = data;
                }
                Err(Error::NoSpace) => assert!(new_len > len),
                _ => unreachable!(),
            }
        }
        4 => {
            let name = gen_name();
            let target = vol.open_dir(parent).unwrap();
            match file.rename(vol, &target, &name) {
                Ok(()) => {
                    assert!(!model.used(parent, &name));
                    model.files[at].name = name;
                    model.files[at].parent = parent;
                }
                Err(Error::AlreadyExist) => assert!(model.used(parent, &name)),
                _ => unreachable!(),
            }
            target.close(vol);
        }
        5 => {
            if len > 0 {
                let pos = rng.gen_range(0..len);
                let n = rng.gen_range(1..len - pos + 1);
                let data = random_bytes(n);
                file.write(vol, pos, &data).unwrap();
                model.files[at].data[pos..pos + n].copy_from_slice(&data);
            }
        }
        _ => {
            let mut data = vec![0; len];
            file.read(vol, 0, &mut data).unwrap();
            assert_eq!(data, model.files[at].data);
        }
    }
    file.close(vol);
}

fn check_all(vol: &mut Volume, model: &Model) {
    for f in &model.files {
        let file = vol.open_file(f.ino).unwrap();
        let mut data = vec![0; f.data.len()];
        file.read(vol, 0, &mut data).unwrap();
        assert_eq!(data, f.data);
        assert_eq!(file.get_parent_ino(vol).unwrap(), f.parent);
        file.close(vol);
    }
}

#[test]
fn save_data_fs_fuzz() {
    let mut rng = rand::thread_rng();
    for _ in 0..10 {
        let param = random_save_param();
        let len = rng.gen_range(100_000..1_000_000);
        assert!(can_make_save(&param, len));
        let mut raw = vec![0; len];
        SaveData::format(&mut raw, SaveDataType::Bare, &param).unwrap();
        let mut save = SaveData::new(raw, SaveDataType::Bare).unwrap();
        let mut model = Model::new();
        for _ in 0..300 {
            if rng.gen() {
                fuzz_dirs(&mut save.archive.volume, &mut model, param.max_dir);
            } else {
                fuzz_files(&mut save.archive.volume, &mut model, param.max_file);
            }
            if rng.gen_range(0..50) == 0 {
                save.commit().unwrap();
                save = SaveData::new(save.disa.inner.file, SaveDataType::Bare).unwrap();
                check_all(&mut save.archive.volume, &model);
            }
        }
        save.commit().unwrap();
        save = SaveData::new(save.disa.inner.file, SaveDataType::Bare).unwrap();
        check_all(&mut save.archive.volume, &model);
    }
}

fn cart_image(store: CartStore) -> Vec<u8> {
    match store {
        CartStore::Plain(f) => f.data.into_data(),
        CartStore::Wear(f) => f.data.file,
    }
}

#[test]
fn a_cartridge_that_cannot_be_formatted() {
    let mut param = random_save_param();
    let mut format = CartFormat {
        wear_leveling: true,
        key: [1; 16],
        key_cmac: [2; 16],
        repeat_ctr: true,
    };
    let mut raw = vec![0x55; 0x30_000];
    assert_eq!(CartSaveData::format(&mut raw, &format, &param), Err(Error::SizeMismatch));
    assert_eq!(raw, vec![0x55; 0x30_000]);
    param.max_file = 100_000;
    param.duplicate_data = true;
    let mut raw = vec![0x55; 0x20_000];
    assert_eq!(CartSaveData::format(&mut raw, &format, &param), Err(Error::NoSpace));
    let mut chip = vec![0x55; 0x20_000];
    WearLeveling::format(&mut chip).unwrap();
    assert_eq!(raw, chip);
    format.wear_leveling = false;
    let mut raw = vec![0x55; 0x20_000];
    assert_eq!(CartSaveData::format(&mut raw, &format, &param), Err(Error::NoSpace));
    assert_eq!(raw, vec![0x55; 0x20_000]);
}

#[test]
fn cart_save_data_fs_fuzz() {
    let mut rng = rand::thread_rng();
    for _ in 0..10 {
        let param = random_save_param();
        let format = CartFormat {
            wear_leveling: rng.gen(),
            key: rng.gen(),
            key_cmac: rng.gen(),
            repeat_ctr: rng.gen(),
        };
        let len = [0x20_000, 0x80_000, 0x100_000][rng.gen_range(0..3)];
        let mut raw = vec![0; len];
        CartSaveData::format(&mut raw, &format, &param).unwrap();
        let mut cart = CartSaveData::new(raw, &format).unwrap();
        let mut model = Model::new();
        for _ in 0..150 {
            if rng.gen() {
                fuzz_dirs(&mut cart.save_data.archive.volume, &mut model, param.max_dir);
            } else {
                fuzz_files(&mut cart.save_data.archive.volume, &mut model, param.max_file);
            }
            if rng.gen_range(0..40) == 0 {
                cart.commit().unwrap();
                cart = CartSaveData::new(cart_image(cart.store), &format).unwrap();
                check_all(&mut cart.save_data.archive.volume, &model);
            }
        }
        cart.commit().unwrap();
        cart = CartSaveData::new(cart_image(cart.store), &format).unwrap();
        check_all(&mut cart.save_data.archive.volume, &model);
    }
}

/// Makes a file of extra data, and keeps its content.
fn new_ext_file(
    ext: &mut ExtData,
    bodies: &mut HashMap<u32, Vec<u8>>,
    parent: u32,
    name: &[u8; 16],
    data: &[u8],
) -> Result<u32, Error> {
    let dir = ext.archive.volume.open_dir(parent).unwrap();
    let made = ext.new_sub_file(&dir, name);
    dir.close(&mut ext.archive.volume);
    let meta = made?;
    let ino = meta.get_ino();
    let mut body = None;
    if !data.is_empty() {
        ext.reserve(ino, data.len()).unwrap();
        body = Some(ext.make_file(ino, data.len(), NEW_UNIQUE_ID).unwrap());
    }
    let mut file = ext.open_file(meta, body).unwrap();
    file.write(ext, 0, data).unwrap();
    file.commit(ext).unwrap();
    if let Some(d) = &file.data {
        bodies.insert(ino, d.inner.file.clone());
    }
    file.meta.close(&mut ext.archive.volume.fs);
    Ok(ino)
}

fn ext_fuzz(quota: Option<u32>) {
    let mut rng = rand::thread_rng();
    for _ in 0..10 {
        let param = ExtDataFormatParam {
            max_dir: rng.gen_range(10..100),
            dir_buckets: rng.gen_range(10..100),
            max_file: rng.gen_range(10..100),
            file_buckets: rng.gen_range(10..100),
        };
        assert!(can_make_ext(&param));
        let images = ExtData::format(0, [0; 16], quota, &param).unwrap();
        let mut ext = ExtData::new(images.meta, images.quota, 0, [0; 16]).unwrap();
        let mut bodies: HashMap<u32, Vec<u8>> = HashMap::new();
        let mut model = Model::new();
        for _ in 0..150 {
            match rng.gen_range(0..4) {
                0 => fuzz_dirs(&mut ext.archive.volume, &mut model, param.max_dir),
                1 => {
                    let parent = model.dirs[rng.gen_range(0..model.dirs.len())].ino;
                    let name = gen_name();
                    let data = random_bytes(gen_len());
                    match new_ext_file(&mut ext, &mut bodies, parent, &name, &data) {
                        Ok(ino) => {
                            assert!(!model.used(parent, &name));
                            model.files.push(ModelFile { ino, parent, name, data });
                        }
                        Err(Error::AlreadyExist) => assert!(model.used(parent, &name)),
                        Err(Error::NoSpace) => assert_eq!(model.files.len(), param.max_file),
                        _ => unreachable!(),
                    }
                }
                2 => {
                    if model.files.is_empty() {
                        continue;
                    }
                    let at = rng.gen_range(0..model.files.len());
                    let ino = model.files[at].ino;
                    let meta = FileMeta::open_ino(&mut ext.archive.volume.fs, ino).unwrap();
                    let mut file = ext.open_file(meta, bodies.get(&ino).cloned()).unwrap();
                    let len = model.files[at].data.len();
                    assert_eq!(file.len(), len);
                    let mut data = vec![0; len];
                    file.read(0, &mut data).unwrap();
                    assert_eq!(data, model.files[at].data);
                    assert_eq!(file.resize(5), Err(Error::Unsupported));
                    if rng.gen() {
                        bodies.remove(&ino);
                        file.delete(&mut ext).unwrap();
                        model.files.remove(at);
                    } else {
                        let data = random_bytes(len);
                        file.write(&ext, 0, &data).unwrap();
                        file.commit(&ext).unwrap();
                        if let Some(d) = &file.data {
                            bodies.insert(ino, d.inner.file.clone());
                        }
                        model.files[at].data = data;
                        file.meta.close(&mut ext.archive.volume.fs);
                    }
                }
                _ => {
                    ext.commit().unwrap();
                    let quota = match ext.quota_file {
                        Some(mut q) => {
                            q.commit().unwrap();
                            Some(q.inner.file)
                        }
                        None => None,
                    };
                    ext = ExtData::new(ext.meta_file.inner.file, quota, 0, [0; 16]).unwrap();
                }
            }
        }
    }
}

#[test]
fn ext_data_fs_fuzz() {
    ext_fuzz(None);
}

#[test]
fn ext_data_with_quota() {
    ext_fuzz(Some(1024 * 1024));
}

#[test]
fn a_small_quota_is_refused() {
    let param = ExtDataFormatParam { max_dir: 10, dir_buckets: 3, max_file: 10, file_buckets: 3 };
    assert!(matches!(ExtData::format(0, [0; 16], Some(3), &param), Err(Error::NoSpace)));
}

#[test]
fn uncommitted_changes_are_not_stored() {
    let param = SaveDataFormatParam {
        block_type: SaveDataBlockType::Small,
        max_dir: 10,
        dir_buckets: 3,
        max_file: 10,
        file_buckets: 3,
        duplicate_data: true,
    };
    let mut raw = vec![0; 200_000];
    SaveData::format(&mut raw, SaveDataType::Bare, &param).unwrap();
    let before = raw.clone();
    let mut save = SaveData::new(raw, SaveDataType::Bare).unwrap();
    let vol = &mut save.archive.volume;
    let root = vol.open_root().unwrap();
    root.new_sub_dir(vol, &[1; 16]).unwrap().close(vol);
    root.close(vol);
    assert_eq!(save.disa.inner.file, before);
}

#[test]
fn archives_that_cannot_be_opened() {
    let param = SaveDataFormatParam {
        block_type: SaveDataBlockType::Small,
        max_dir: 10,
        dir_buckets: 3,
        max_file: 10,
        file_buckets: 3,
        duplicate_data: false,
    };
    let mut small = vec![0; 1000];
    assert_eq!(SaveData::format(&mut small, SaveDataType::Bare, &param), Err(Error::NoSpace));
    assert_eq!(small, vec![0; 1000]);

    let zeros = vec![0; 100_000];
    assert!(matches!(SaveData::new(zeros.clone(), SaveDataType::Bare), Err(Error::MagicMismatch)));
    assert!(matches!(Db::new(zeros, DbType::Ticket, None), Err(Error::MagicMismatch)));

    let mut raw = vec![0; 100_000];
    SaveData::format(&mut raw, SaveDataType::Sd([1; 16], 2), &param).unwrap();
    assert!(SaveData::new(raw.clone(), SaveDataType::Sd([1; 16], 2)).is_ok());
    assert!(matches!(
        SaveData::new(raw, SaveDataType::Sd([1; 16], 3)),
        Err(Error::SignatureMismatch)
    ));
}

#[test]
fn new_save_data_is_as_the_parameters_tell() {
    for _ in 0..10 {
        let param = random_save_param();
        let len = rand::thread_rng().gen_range(200_000..400_000);
        let capacity = SaveData::calculate_capacity(&param, len);
        assert!(capacity > 0);
        assert!(SaveData::calculate_size(&param, capacity) <= len);
        assert!(SaveData::calculate_size(&param, capacity + 1) > len);
        assert!(SaveData::calculate_size(&param, capacity + 100) > len);
        let mut raw = vec![0; len];
        SaveData::format(&mut raw, SaveDataType::Bare, &param).unwrap();
        let mut save = SaveData::new(raw, SaveDataType::Bare).unwrap();
        let stat = save.stat().unwrap();
        let block_len = match param.block_type {
            SaveDataBlockType::Small => 512,
            SaveDataBlockType::Large => 4096,
        };
        assert_eq!(stat.block_len, block_len);
        assert_eq!(stat.free_blocks, capacity);
        assert_eq!((stat.free_files, stat.total_files), (param.max_file, param.max_file));
        assert_eq!((stat.free_dirs, stat.total_dirs), (param.max_dir, param.max_dir + 1));
        let first = &mut save.disa.inner.partitions[0];
        let blocks = (first.len() / block_len) as u64;
        let head = first.load(0, SAVE_HEADER_LEN).unwrap();
        assert_eq!(&head[..4], b"SAVE");
        assert_eq!(&head[16..24], &blocks.to_le_bytes());
        assert_eq!(&head[24..28], &(block_len as u32).to_le_bytes());
    }
}

#[test]
fn the_front_of_bare_save_data_is_kept() {
    let param = random_save_param();
    let mut raw = vec![0; 200_000];
    SaveData::format(&mut raw, SaveDataType::Bare, &param).unwrap();
    let front = random_bytes(0x100);
    raw[..0x100].copy_from_slice(&front);
    let mut save = SaveData::new(raw, SaveDataType::Bare).unwrap();
    let vol = &mut save.archive.volume;
    let root = vol.open_root().unwrap();
    root.new_sub_dir(vol, &[1; 16]).unwrap().close(vol);
    root.close(vol);
    save.commit().unwrap();
    assert_eq!(&save.disa.inner.file[..0x100], &front[..]);
}

#[test]
fn a_file_that_has_no_space_takes_none() {
    let param = random_save_param();
    let mut raw = vec![0; 200_000];
    SaveData::format(&mut raw, SaveDataType::Bare, &param).unwrap();
    let mut save = SaveData::new(raw, SaveDataType::Bare).unwrap();
    let vol = &mut save.archive.volume;
    let before = vol.stat().unwrap();
    let root = vol.open_root().unwrap();
    assert!(matches!(root.new_sub_file(vol, &[1; 16], 1_000_000), Err(Error::NoSpace)));
    root.close(vol);
    let after = vol.stat().unwrap();
    assert_eq!(after.free_files, before.free_files);
    assert_eq!(after.free_blocks, before.free_blocks);
}

#[test]
fn the_list_of_new_extra_data() {
    let param = ExtDataFormatParam { max_dir: 10, dir_buckets: 3, max_file: 10, file_buckets: 3 };
    let images = ExtData::format(5, [1; 16], None, &param).unwrap();
    let mut ext = ExtData::new(images.meta, None, 5, [1; 16]).unwrap();
    assert_eq!(ext.meta_file.unique_id(), 0x0123_4567_89AB_CDEF);
    let first = &mut ext.meta_file.inner.partitions[0];
    let blocks = (first.len() / 4096) as u64;
    let head = first.load(0, EXT_HEADER_LEN).unwrap();
    assert_eq!(&head[16..24], &blocks.to_le_bytes());
}

#[test]
fn what_can_be_made() {
    let mut param = random_save_param();
    param.duplicate_data = false;
    param.block_type = SaveDataBlockType::Small;
    assert!(can_make_save(&param, 0x2000_0000));
    param.max_file = 0xFFFF_FFFE;
    assert!(can_make_save(&param, 100_000));
    param.max_file = 0xFFFF_FFFF;
    assert!(!can_make_save(&param, 100_000));
    param.max_file = 10;
    assert!(can_make_save(&param, 0x7FFF_FFFC * 512));
    assert!(!can_make_save(&param, 0x7FFF_FFFE * 512));
    param.dir_buckets = 0;
    assert!(!can_make_save(&param, 100_000));
    let mut ext = ExtDataFormatParam { max_dir: 1, dir_buckets: 1, max_file: 1, file_buckets: 1 };
    ext.max_dir = 0xFFFF_FFFD;
    assert!(can_make_ext(&ext));
    ext.max_dir = 0xFFFF_FFFE;
    assert!(!can_make_ext(&ext));
    assert!(can_make_file(0x4000_0000));
    assert!(!can_make_file(0));
    assert!(!can_make_file(0x1000_0000_0000));
}
