use rand::distributions::Standard;
use rand::Rng;
use save3ds::error::Error;
use save3ds::fat::{Fat, FatFile};
use save3ds::fat_table::ENTRY_LEN;
use save3ds::fs_meta::{DirMeta, FileMeta, FsMeta, MetaLayout};
use save3ds::memory_file::MemoryFile;
use save3ds::meta_table::MetaTable;
use save3ds::save_data::{SAVE_DIR_LEN, SAVE_FILE_LEN, SAVE_KEY_LEN};
use std::collections::HashSet;

fn random_bytes(len: usize) -> Vec<u8> {
    rand::thread_rng().sample_iter(&Standard).take(len).collect()
}

#[test]
fn fat_struct_size() {
    assert_eq!(ENTRY_LEN, 8);
}

#[test]
fn fat_fuzz() {
    struct File {
        image: Vec<u8>,
        fat_file: FatFile,
        start_block: usize,
    }

    let mut rng = rand::thread_rng();
    for _ in 0..100 {
        let block_len = rng.gen_range(1..10);
        let block_count = rng.gen_range(1..100);
        let mut table = MemoryFile::new(vec![0; 8 * (block_count + 1)]);
        let mut data = MemoryFile::new(vec![0; block_count * block_len]);
        Fat::format(&mut table).unwrap();
        let mut fat = Fat::new(table, block_count * block_len, block_len).unwrap();
        let mut free_block_count = block_count;
        let mut files: Vec<File> = vec![];

        for _ in 0..10_000 {
            assert_eq!(fat.free_blocks(), free_block_count);
            let operation = rng.gen_range(1..20);
            if operation < 2 {
                let file_block_count = rng.gen_range(1..block_count / 2 + 2);
                match FatFile::create(&mut fat, file_block_count) {
                    Err(Error::NoSpace) => assert!(file_block_count > free_block_count),
                    Ok((fat_file, start_block)) => {
                        assert!(file_block_count <= free_block_count);
                        free_block_count -= file_block_count;
                        let image = random_bytes(file_block_count * block_len);
                        fat_file.write(&mut data, 0, block_len, 0, &image).unwrap();
                        files.push(File { image, fat_file, start_block });
                    }
                    _ => unreachable!(),
                }
                continue;
            }
            if files.is_empty() {
                continue;
            }
            let file_index = rng.gen_range(0..files.len());
            if operation < 4 {
                let start = files[file_index].start_block;
                files[file_index].fat_file = FatFile::open(&mut fat, start).unwrap();
            } else if operation < 10 {
                let file = &mut files[file_index];
                let len = file.image.len();
                let pos = rng.gen_range(0..len);
                let data_len = rng.gen_range(1..len - pos + 1);
                if operation < 7 {
                    let a = random_bytes(data_len);
                    file.fat_file.write(&mut data, 0, block_len, pos, &a).unwrap();
                    file.image[pos..pos + data_len].copy_from_slice(&a);
                } else {
                    let mut a = vec![0; data_len];
                    file.fat_file.read(&mut data, 0, block_len, pos, &mut a).unwrap();
                    assert_eq!(a, &file.image[pos..pos + data_len]);
                }
            } else if operation < 14 {
                let file = files.remove(file_index);
                free_block_count += file.image.len() / block_len;
                file.fat_file.delete(&mut fat).unwrap();
            } else {
                let file = &mut files[file_index];
                let file_block_count = file.image.len() / block_len;
                let new_block_count = rng.gen_range(1..file_block_count * 2 + 1);
                if new_block_count > file_block_count {
                    let delta = new_block_count - file_block_count;
                    match file.fat_file.resize(&mut fat, new_block_count) {
                        Err(Error::NoSpace) => assert!(delta > free_block_count),
                        Ok(()) => {
                            let mut a = random_bytes(delta * block_len);
                            file.fat_file
                                .write(&mut data, 0, block_len, file_block_count * block_len, &a)
                                .unwrap();
                            file.image.append(&mut a);
                            free_block_count -= delta;
                        }
                        _ => unreachable!(),
                    }
                } else {
                    let delta = file_block_count - new_block_count;
                    file.fat_file.resize(&mut fat, new_block_count).unwrap();
                    file.image.truncate(new_block_count * block_len);
                    free_block_count += delta;
                }
            }
        }
    }
}

#[test]
fn fs_struct_size() {
    assert_eq!(SAVE_DIR_LEN, 16);
    assert_eq!(SAVE_FILE_LEN, 24);
}

const LAYOUT: MetaLayout = MetaLayout {
    dir_key_len: SAVE_KEY_LEN,
    dir_info_len: SAVE_DIR_LEN,
    file_key_len: SAVE_KEY_LEN,
    file_info_len: SAVE_FILE_LEN,
};

fn new_fs(
    dir_entry_count: usize,
    dir_buckets: usize,
    file_entry_count: usize,
    file_buckets: usize,
) -> FsMeta<MemoryFile> {
    let made = FsMeta::format(
        MemoryFile::new(vec![0; dir_buckets * 4]),
        MemoryFile::new(vec![0; dir_entry_count * (SAVE_DIR_LEN + SAVE_KEY_LEN + 4)]),
        dir_entry_count,
        MemoryFile::new(vec![0; file_buckets * 4]),
        MemoryFile::new(vec![0; file_entry_count * (SAVE_FILE_LEN + SAVE_KEY_LEN + 4)]),
        file_entry_count,
        LAYOUT,
    )
    .unwrap();
    FsMeta::new(made.dirs.hash, made.dirs.table, made.files.hash, made.files.table, LAYOUT).unwrap()
}

struct Dir {
    meta: DirMeta,
    name: [u8; 16],
    parent: usize,
    sub_dir_name: HashSet<[u8; 16]>,
    sub_file_name: HashSet<[u8; 16]>,
}

struct File {
    meta: FileMeta,
    name: [u8; 16],
    parent: usize,
}

fn names(list: Vec<(Vec<u8>, u32)>) -> HashSet<[u8; 16]> {
    list.into_iter()
        .map(|n| {
            let mut name = [0; 16];
            name.copy_from_slice(&n.0);
            name
        })
        .collect()
}

fn new_name(used: &HashSet<[u8; 16]>) -> [u8; 16] {
    loop {
        let name: [u8; 16] = rand::thread_rng().gen();
        if !used.contains(&name) {
            return name;
        }
    }
}

fn fuzz_fs(operations: u32) {
    let mut rng = rand::thread_rng();
    for _ in 0..100 {
        let dir_entry_count = rng.gen_range(10..1000);
        let dir_buckets = rng.gen_range(10..100);
        let file_entry_count = rng.gen_range(10..1000);
        let file_buckets = rng.gen_range(10..100);
        let mut fs = new_fs(dir_entry_count, dir_buckets, file_entry_count, file_buckets);

        let mut dirs = vec![Dir {
            meta: DirMeta::open_ino(&mut fs, 1).unwrap(),
            name: [0; 16],
            parent: 0xFFFF_FFFF,
            sub_dir_name: HashSet::new(),
            sub_file_name: HashSet::new(),
        }];
        let mut files: Vec<File> = vec![];

        for _ in 0..1000 {
            match rng.gen_range(0..operations) {
                0 => {
                    if dirs.len() == 1 {
                        continue;
                    }
                    let index = rng.gen_range(1..dirs.len());
                    let name = dirs[index].name;
                    let meta = dirs[dirs[index].parent].meta.open_sub_dir(&mut fs, &name).unwrap();
                    std::mem::replace(&mut dirs[index].meta, meta).close(&mut fs);
                }
                1 => {
                    let parent = rng.gen_range(0..dirs.len());
                    let name = new_name(&dirs[parent].sub_dir_name);
                    match dirs[parent].meta.new_sub_dir(&mut fs, &name, &[0; SAVE_DIR_LEN]) {
                        Err(Error::NoSpace) => assert_eq!(dirs.len(), dir_entry_count - 1),
                        Ok(meta) => {
                            assert!(dirs.len() < dir_entry_count - 1);
                            assert!(dirs[parent].sub_dir_name.insert(name));
                            dirs.push(Dir {
                                meta,
                                name,
                                parent,
                                sub_dir_name: HashSet::new(),
                                sub_file_name: HashSet::new(),
                            })
                        }
                        _ => unreachable!(),
                    }
                }
                2 => {
                    if dirs.len() == 1 {
                        continue;
                    }
                    let index = rng.gen_range(1..dirs.len());
                    let dir = dirs.remove(index);
                    let ino = dir.meta.get_ino();
                    match dir.meta.delete(&mut fs) {
                        Ok(()) => {
                            assert!(dir.sub_dir_name.is_empty() && dir.sub_file_name.is_empty());
                            let mut parent = dir.parent;
                            if parent > index {
                                parent -= 1;
                            }
                            assert!(dirs[parent].sub_dir_name.remove(&dir.name));
                            for dir in dirs.iter_mut() {
                                if dir.parent > index && dir.parent != 0xFFFF_FFFF {
                                    dir.parent -= 1;
                                }
                            }
                            for file in files.iter_mut() {
                                if file.parent > index {
                                    file.parent -= 1;
                                }
                            }
                        }
                        Err(Error::NotEmpty) => {
                            assert!(!dir.sub_dir_name.is_empty() || !dir.sub_file_name.is_empty());
                            let meta = DirMeta::open_ino(&mut fs, ino).unwrap();
                            dirs.insert(
                                index,
                                Dir {
                                    meta,
                                    name: dir.name,
                                    parent: dir.parent,
                                    sub_dir_name: dir.sub_dir_name,
                                    sub_file_name: dir.sub_file_name,
                                },
                            );
                        }
                        _ => unreachable!(),
                    }
                }
                3 => {
                    let index = rng.gen_range(0..dirs.len());
                    assert_eq!(
                        names(dirs[index].meta.list_sub_dir(&mut fs).unwrap()),
                        dirs[index].sub_dir_name
                    );
                    assert_eq!(
                        names(dirs[index].meta.list_sub_file(&mut fs).unwrap()),
                        dirs[index].sub_file_name
                    );
                }
                4 => {
                    if files.is_empty() {
                        continue;
                    }
                    let index = rng.gen_range(0..files.len());
                    let name = files[index].name;
                    let meta =
                        dirs[files[index].parent].meta.open_sub_file(&mut fs, &name).unwrap();
                    std::mem::replace(&mut files[index].meta, meta).close(&mut fs);
                }
                5 => {
                    let parent = rng.gen_range(0..dirs.len());
                    let name = new_name(&dirs[parent].sub_file_name);
                    match dirs[parent].meta.new_sub_file(&mut fs, &name, &[0; SAVE_FILE_LEN]) {
                        Err(Error::NoSpace) => assert_eq!(files.len(), file_entry_count - 1),
                        Ok(meta) => {
                            assert!(files.len() < file_entry_count - 1);
                            assert!(dirs[parent].sub_file_name.insert(name));
                            files.push(File { meta, name, parent })
                        }
                        _ => unreachable!(),
                    }
                }
                6 => {
                    if files.is_empty() {
                        continue;
                    }
                    let index = rng.gen_range(0..files.len());
                    let file = files.remove(index);
                    file.meta.delete(&mut fs).unwrap();
                    assert!(dirs[file.parent].sub_file_name.remove(&file.name));
                }
                7 => {
                    if files.is_empty() {
                        continue;
                    }
                    let index = rng.gen_range(0..files.len());
                    let parent = rng.gen_range(0..dirs.len());
                    let name = new_name(&dirs[parent].sub_file_name);
                    let old_parent = files[index].parent;
                    let old_name = files[index].name;
                    assert!(dirs[old_parent].sub_file_name.remove(&old_name));
                    files[index].name = name;
                    files[index].parent = parent;
                    assert!(dirs[parent].sub_file_name.insert(name));
                    files[index].meta.rename(&mut fs, &dirs[parent].meta, &name).unwrap();
                }
                8 => {
                    if dirs.len() == 1 {
                        continue;
                    }
                    let index = rng.gen_range(1..dirs.len());
                    let parent = rng.gen_range(0..dirs.len());
                    if parent == index {
                        continue;
                    }
                    let name = new_name(&dirs[parent].sub_file_name);
                    let old_parent = dirs[index].parent;
                    let old_name = dirs[index].name;
                    assert!(dirs[old_parent].sub_dir_name.remove(&old_name));
                    dirs[index].name = name;
                    dirs[index].parent = parent;
                    assert!(dirs[parent].sub_dir_name.insert(name));
                    let ino = dirs[parent].meta.get_ino();
                    let target = DirMeta::open_ino(&mut fs, ino).unwrap();
                    dirs[index].meta.rename(&mut fs, &target, &name).unwrap();
                    target.close(&mut fs);
                }
                _ => unreachable!(),
            }
        }
    }
}

#[test]
fn fs_meta_fs_fuzz() {
    fuzz_fs(9);
}

#[test]
fn fs_fs_fuzz() {
    fuzz_fs(4);
}

fn fuzz_meta() {
    #[derive(Clone)]
    struct Image {
        key: [u8; 4],
        info: [u8; 4],
        pos: u32,
    }

    let mut rng = rand::thread_rng();
    for _ in 0..100 {
        let mut key_set: HashSet<[u8; 4]> = HashSet::new();
        let entry_count = rng.gen_range(10..1000);
        let buckets = rng.gen_range(10..100);
        let mut hash = MemoryFile::new(vec![0; buckets * 4]);
        let mut table = MemoryFile::new(vec![0; entry_count * 12]);
        MetaTable::format(&mut hash, &mut table, entry_count, 4, 4).unwrap();
        let mut meta = MetaTable::new(hash, table, 4, 4).unwrap();
        let mut chains: Vec<Image> = vec![];
        let mut occupied = 1;

        for _ in 0..1000 {
            let operation = rng.gen_range(0..5);
            if operation == 0 {
                let key = loop {
                    let key: [u8; 4] = rng.gen();
                    if key_set.insert(key) {
                        break key;
                    }
                };
                let info: [u8; 4] = rng.gen();
                match meta.add(&key, &info) {
                    Err(Error::NoSpace) => assert_eq!(occupied, entry_count),
                    Ok(pos) => {
                        chains.push(Image { key, info, pos });
                        occupied += 1;
                    }
                    _ => unreachable!(),
                }
                continue;
            }
            if chains.is_empty() {
                continue;
            }
            let image_i = rng.gen_range(0..chains.len());
            match operation {
                1 => {
                    meta.remove(chains[image_i].pos).unwrap();
                    key_set.remove(&chains[image_i].key);
                    chains.remove(image_i);
                    occupied -= 1;
                }
                2 => {
                    if rng.gen() {
                        let key = loop {
                            let key: [u8; 4] = rng.gen();
                            if !key_set.contains(&key) {
                                break key;
                            }
                        };
                        assert!(matches!(meta.get(&key), Err(Error::NotFound)));
                    } else {
                        let (info, pos) = meta.get(&chains[image_i].key).unwrap();
                        assert_eq!(info, chains[image_i].info);
                        assert_eq!(pos, chains[image_i].pos);
                    }
                }
                3 => {
                    let (info, key) = meta.get_at(chains[image_i].pos).unwrap();
                    assert_eq!(info, chains[image_i].info);
                    assert_eq!(key, chains[image_i].key);
                }
                _ => {
                    let info: [u8; 4] = rng.gen();
                    chains[image_i].info = info;
                    meta.set(chains[image_i].pos, &info).unwrap();
                }
            }
        }
    }
}

#[test]
fn fs_meta_meta_fuzz() {
    fuzz_meta();
}

#[test]
fn fs_meta_fuzz() {
    fuzz_meta();
}

#[test]
fn a_directory_can_get_the_name_that_it_has() {
    let mut fs = new_fs(5, 3, 5, 3);
    let root = DirMeta::open_ino(&mut fs, 1).unwrap();
    let mut dir = root.new_sub_dir(&mut fs, &[1; 16], &[0; SAVE_DIR_LEN]).unwrap();
    let other = root.new_sub_dir(&mut fs, &[2; 16], &[0; SAVE_DIR_LEN]).unwrap();
    dir.rename(&mut fs, &root, &[1; 16]).unwrap();
    let listed = names(root.list_sub_dir(&mut fs).unwrap());
    assert_eq!(listed, HashSet::from([[1; 16], [2; 16]]));
    other.close(&mut fs);
    dir.close(&mut fs);
    root.close(&mut fs);
}
