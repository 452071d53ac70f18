use save3ds::clear::{clear, next_to_clear};
use save3ds::ext_data::{ExtData, ExtDataFormatParam, NEW_UNIQUE_ID};
use save3ds::ext_frontend::{
    attr_of_file, find_file, find_named, find_to_move, find_to_unlink, move_file, named_in, new_file,
    read, truncate, unlink,
};
use save3ds::frontend::{lookup, mkdir, mknod, opendir, Errno, Ino};
use save3ds::error::Error;
use save3ds::names::NameType;
use save3ds::save_data::{SaveData, SaveDataBlockType, SaveDataFormatParam, SaveDataType};
use save3ds::transfer::{extract_file, import_file};

const TEXT: NameType = NameType::Text;

fn new_save() -> SaveData {
    let param = SaveDataFormatParam {
        block_type: SaveDataBlockType::Small,
        max_dir: 10,
        dir_buckets: 3,
        max_file: 10,
        file_buckets: 3,
        duplicate_data: true,
    };
    let mut raw = vec![0; 200_000];
    SaveData::format(&mut raw, SaveDataType::Bare, &param).unwrap();
    SaveData::new(raw, SaveDataType::Bare).unwrap()
}

#[test]
fn everything_below_the_root_is_cleared() {
    let mut save = new_save();
    let fresh = save.stat().unwrap();
    let vol = &mut save.archive.volume;
    let mut parent = 1;
    for name in [b"a", b"b", b"c"] {
        mknod(vol, TEXT, false, parent, b"file\\+3000").unwrap();
        mkdir(vol, TEXT, false, parent, b"side").unwrap();
        parent = mkdir(vol, TEXT, false, parent, name).unwrap().ino;
    }
    assert_eq!(opendir(vol, TEXT, 1).unwrap().len(), 5);
    clear(vol).unwrap();
    assert_eq!(opendir(vol, TEXT, 1).unwrap().len(), 2);
    assert_eq!(lookup(vol, TEXT, false, 1, b"a"), Err(Errno::NotFound));
    assert!(mkdir(vol, TEXT, false, 1, b"a").is_ok());
    clear(vol).unwrap();
    let stat = save.stat().unwrap();
    assert_eq!(stat.free_blocks, fresh.free_blocks);
    assert_eq!(stat.free_files, fresh.free_files);
    save.commit().unwrap();
    let mut again = SaveData::new(save.disa.inner.file, SaveDataType::Bare).unwrap();
    assert_eq!(opendir(&mut again.archive.volume, TEXT, 1).unwrap().len(), 2);
}

#[test]
fn nothing_is_cleared_below_an_open_directory() {
    let mut save = new_save();
    let vol = &mut save.archive.volume;
    let ino = mkdir(vol, TEXT, false, 1, b"a").unwrap().ino;
    let open = vol.open_dir(ino as u32).unwrap();
    assert_eq!(clear(vol), Err(Error::Busy));
    open.close(vol);
    clear(vol).unwrap();
}

#[test]
fn a_file_of_extra_data_for_the_host() {
    let param = ExtDataFormatParam { max_dir: 10, dir_buckets: 3, max_file: 10, file_buckets: 3 };
    let images = ExtData::format(0, [0; 16], None, &param).unwrap();
    let mut ext = ExtData::new(images.meta, images.quota, 0, [0; 16]).unwrap();
    let (parent, name, argument) = named_in(TEXT, 1, b"icon\\+100").unwrap();
    assert_eq!((parent, &name[..5], &argument[..]), (1, &b"icon\0"[..], &b"100"[..]));
    assert_eq!(named_in(TEXT, 1, b"name that is too long"), Err(Errno::NameTooLong));
    assert_eq!(named_in(TEXT, Ino::File(1).to_os(), b"icon"), Err(Errno::NotDirectory));

    let dir = ext.archive.volume.open_dir(parent).unwrap();
    assert!(find_file(&mut ext, &dir, &name).is_none());
    let meta = ext.new_sub_file(&dir, &name).unwrap();
    let ino = meta.get_ino();
    let body = ext.make_file(ino, 100, NEW_UNIQUE_ID).unwrap();
    let mut file = ext.open_file(meta, Some(body)).unwrap();
    assert_eq!(read(&mut file, 90, 50), Ok(vec![0; 10]));
    assert_eq!(read(&mut file, 100, 50), Ok(vec![]));
    assert_eq!(save3ds::ext_frontend::write(&ext, &mut file, true, 0, b"x"), Err(Errno::ReadOnly));
    assert_eq!(save3ds::ext_frontend::write(&ext, &mut file, false, 98, b"xyz"), Err(Errno::Io));
    assert_eq!(save3ds::ext_frontend::write(&ext, &mut file, false, 97, b"xyz"), Ok(()));
    assert_eq!(read(&mut file, 97, 50), Ok(b"xyz".to_vec()));
    assert_eq!(truncate(&mut file, false, Some(1)), Err(Errno::Io));
    assert_eq!(truncate(&mut file, false, None).unwrap().size, 100);
    file.commit(&ext).unwrap();
    let stored = file.data.as_ref().unwrap().inner.file.clone();
    file.meta.close(&mut ext.archive.volume.fs);

    let found = find_file(&mut ext, &dir, &name).unwrap();
    assert_eq!(found.get_ino(), ino);
    dir.close(&mut ext.archive.volume);
    let mut file = ext.open_file(found, Some(stored)).unwrap();
    assert_eq!(read(&mut file, 97, 3), Ok(b"xyz".to_vec()));
    let listed = opendir(&mut ext.archive.volume, TEXT, 1).unwrap();
    assert_eq!(listed.len(), 3);
}

#[test]
fn what_is_imported_is_extracted() {
    let mut save = new_save();
    let vol = &mut save.archive.volume;
    let data: Vec<u8> = (0..5000).map(|i| (i % 251) as u8).collect();
    let mut name = [0; 16];
    name[..4].copy_from_slice(b"data");
    let ino = import_file(vol, 1, &name, &data).unwrap();
    assert_eq!(import_file(vol, 1, &name, &data), Err(Error::AlreadyExist));
    assert_eq!(import_file(vol, 1, &[1; 16], &[0; 1_000_000]), Err(Error::NoSpace));
    let empty = import_file(vol, 1, &[2; 16], &[]).unwrap();
    assert_eq!(extract_file(vol, ino), Ok(data.clone()));
    assert_eq!(extract_file(vol, empty), Ok(vec![]));
    save.commit().unwrap();
    let mut again = SaveData::new(save.disa.inner.file, SaveDataType::Bare).unwrap();
    let vol = &mut again.archive.volume;
    assert_eq!(extract_file(vol, ino), Ok(data));
    assert_eq!(lookup(vol, TEXT, false, 1, b"data").unwrap().ino, Ino::File(ino).to_os());
}

#[test]
fn files_of_extra_data_are_made_and_moved() {
    let param = ExtDataFormatParam { max_dir: 5, dir_buckets: 3, max_file: 2, file_buckets: 3 };
    let images = ExtData::format(1, [2; 16], Some(100), &param).unwrap();
    let mut ext = ExtData::new(images.meta, images.quota, 1, [2; 16]).unwrap();
    let root = ext.archive.volume.open_root().unwrap();
    let (mut file, body) = new_file(&mut ext, &root, &[1; 16], 5000).unwrap();
    assert_eq!(file.len(), 5000);
    assert_eq!(file.data.as_ref().unwrap().inner.file, body.unwrap());
    assert!(matches!(new_file(&mut ext, &root, &[1; 16], 10), Err(Error::AlreadyExist)));
    let (other, body) = new_file(&mut ext, &root, &[2; 16], 0).unwrap();
    assert_eq!((other.len(), body.is_none()), (0, true));
    assert!(matches!(new_file(&mut ext, &root, &[3; 16], 10), Err(Error::NoSpace)));
    let ino = file.get_ino();

    let again = find_file(&mut ext, &root, &[1; 16]).unwrap();
    let again = ext.open_file(again, None).unwrap();
    assert_eq!(
        move_file(&mut ext, &mut file, Some(again), &root, &[1; 16]),
        Err(Errno::Io)
    );
    assert_eq!(move_file(&mut ext, &mut file, Some(other), &root, &[2; 16]), Ok(()));
    assert_eq!(file.get_ino(), ino);
    assert_eq!(move_file(&mut ext, &mut file, None, &root, &[2; 16]), Err(Errno::Exists));
    let (mut small, _) = new_file(&mut ext, &root, &[4; 16], 10).unwrap();
    assert_eq!(move_file(&mut ext, &mut small, Some(file), &root, &[2; 16]), Ok(()));
    assert!(find_file(&mut ext, &root, &[4; 16]).is_none());
    assert!(matches!(new_file(&mut ext, &root, &[5; 16], 1_000_000), Err(Error::NoSpace)));
}

#[test]
fn what_is_to_be_cleared_next() {
    let mut save = new_save();
    let vol = &mut save.archive.volume;
    assert_eq!(next_to_clear(vol), Ok(None));
    let dir = mkdir(vol, TEXT, false, 1, b"a").unwrap().ino;
    let sub = mkdir(vol, TEXT, false, dir, b"b").unwrap().ino;
    let below = mknod(vol, TEXT, false, dir, b"below").unwrap().ino;
    let top = mknod(vol, TEXT, false, 1, b"top").unwrap().ino;
    let mut told = vec![];
    while let Some((ino, is_dir)) = next_to_clear(vol).unwrap() {
        if is_dir {
            vol.open_dir(ino).unwrap().delete(vol).unwrap();
            told.push(Ino::Dir(ino).to_os());
        } else {
            vol.open_file(ino).unwrap().delete(vol).unwrap();
            told.push(Ino::File(ino).to_os());
        }
    }
    assert_eq!(told, vec![sub, below, dir, top]);
    assert_eq!(opendir(vol, TEXT, 1).unwrap().len(), 2);
}

#[test]
fn extra_data_for_the_host_by_name() {
    let param = ExtDataFormatParam { max_dir: 5, dir_buckets: 3, max_file: 3, file_buckets: 3 };
    let images = ExtData::format(1, [2; 16], Some(100), &param).unwrap();
    let mut ext = ExtData::new(images.meta, images.quota, 1, [2; 16]).unwrap();
    let file_ino = Ino::File(1).to_os();

    let make = save3ds::ext_frontend::mknod;
    assert_eq!(make(&mut ext, TEXT, true, 1, b"a"), Err(Errno::ReadOnly));
    assert_eq!(make(&mut ext, TEXT, false, 1, b"name that is too long"), Err(Errno::NameTooLong));
    assert_eq!(make(&mut ext, TEXT, false, file_ino, b"a"), Err(Errno::NotDirectory));
    let (attr, stored) = make(&mut ext, TEXT, false, 1, b"a\\+5000").unwrap();
    let (ino, body) = stored.unwrap();
    assert_eq!((attr.ino, attr.size), (Ino::File(ino).to_os(), 0));
    assert_eq!(make(&mut ext, TEXT, false, 1, b"a"), Err(Errno::Exists));
    let huge = b"h\\+1000000";
    assert_eq!(make(&mut ext, TEXT, false, 1, huge), Err(Errno::NoSpace));
    let (empty, stored) = make(&mut ext, TEXT, false, 1, b"b").unwrap();
    assert!(stored.is_none());
    assert_eq!(make(&mut ext, TEXT, false, 1, b"c"), Err(Errno::NoSpace));

    assert_eq!(find_named(&mut ext, TEXT, file_ino, b"a").err(), Some(Errno::NotDirectory));
    assert!(find_named(&mut ext, TEXT, 1, b"none").unwrap().is_none());
    let meta = find_named(&mut ext, TEXT, 1, b"a").unwrap().unwrap();
    assert_eq!(meta.get_ino(), ino);
    let told = attr_of_file(&mut ext, false, meta, Some(body.clone())).unwrap();
    assert_eq!((told.ino, told.size), (attr.ino, 5000));
    let meta = find_named(&mut ext, TEXT, 1, b"b").unwrap().unwrap();
    assert_eq!(attr_of_file(&mut ext, false, meta, None).unwrap().ino, empty.ino);
    let meta = find_named(&mut ext, TEXT, 1, b"a").unwrap().unwrap();
    let mut damaged = body.clone();
    damaged[0] ^= 1;
    assert_eq!(attr_of_file(&mut ext, false, meta, Some(damaged)), Err(Errno::NotFound));

    let go = find_to_move;
    let long = b"name that is too long";
    assert_eq!(go(&mut ext, TEXT, true, 1, b"a", 1, b"c").err(), Some(Errno::ReadOnly));
    assert_eq!(go(&mut ext, TEXT, false, file_ino, b"a", 1, long).err(), Some(Errno::NameTooLong));
    assert_eq!(go(&mut ext, TEXT, false, 1, long, file_ino, b"a").err(), Some(Errno::NameTooLong));
    assert_eq!(go(&mut ext, TEXT, false, 1, b"a", file_ino, b"c").err(), Some(Errno::NotDirectory));
    let (found, parent, name) = go(&mut ext, TEXT, false, 1, b"a", 1, b"c").unwrap();
    assert_eq!((found.as_ref().map(|f| f.get_ino()), parent, &name[..2]), (Some(ino), 1, &b"c\0"[..]));
    found.unwrap().close(&mut ext.archive.volume.fs);
    assert!(go(&mut ext, TEXT, false, 1, b"none", 1, b"c").unwrap().0.is_none());

    assert_eq!(find_to_unlink(&mut ext, TEXT, true, 1, b"a").err(), Some(Errno::ReadOnly));
    assert_eq!(find_to_unlink(&mut ext, TEXT, false, 1, b"none").err(), Some(Errno::NotFound));
    let first = find_to_unlink(&mut ext, TEXT, false, 1, b"a").unwrap();
    let second = find_to_unlink(&mut ext, TEXT, false, 1, b"a").unwrap();
    let file = ext.open_file(first, Some(body.clone())).unwrap();
    assert_eq!(unlink(&mut ext, file), Err(Errno::Io));
    let file = ext.open_file(second, Some(body)).unwrap();
    assert_eq!(unlink(&mut ext, file), Ok(()));
    assert!(find_named(&mut ext, TEXT, 1, b"a").unwrap().is_none());
}
