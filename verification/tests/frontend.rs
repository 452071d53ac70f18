use save3ds::frontend::{
    getattr, lookup, make_dir_attr, make_file_attr, mkdir, mknod, opendir, read, rename, rmdir,
    truncate, unlink, Attr, Errno, Ino,
};
use save3ds::error::Error;
use save3ds::fs_meta::FileMeta;
use save3ds::names::NameType;
use save3ds::save_data::{SaveData, SaveDataBlockType, SaveDataFormatParam, SaveDataType};

fn new_save() -> SaveData {
    let param = SaveDataFormatParam {
        block_type: SaveDataBlockType::Small,
        max_dir: 3,
        dir_buckets: 3,
        max_file: 5,
        file_buckets: 3,
        duplicate_data: true,
    };
    let mut raw = vec![0; 100_000];
    SaveData::format(&mut raw, SaveDataType::Bare, &param).unwrap();
    SaveData::new(raw, SaveDataType::Bare).unwrap()
}

const TEXT: NameType = NameType::Text;

#[test]
fn numbers_for_the_host() {
    assert_eq!(Ino::Dir(7).to_os(), 7);
    assert_eq!(Ino::File(7).to_os(), 0x1_0000_0007);
    assert_eq!(Ino::from_os(7), Ino::Dir(7));
    assert_eq!(Ino::from_os(0x1_0000_0007), Ino::File(7));
    assert_eq!(Ino::from_os(Ino::File(u32::MAX).to_os()), Ino::File(u32::MAX));
}

#[test]
fn attributes_for_the_host() {
    assert_eq!(
        make_dir_attr(false, 5, 2),
        Attr { ino: 5, is_dir: true, size: 0, blocks: 0, perm: 0o755, nlink: 4 }
    );
    assert_eq!(make_dir_attr(true, 5, 0).perm, 0o555);
    assert_eq!(
        make_file_attr(false, 5, 100),
        Attr { ino: 0x1_0000_0005, is_dir: false, size: 100, blocks: 1, perm: 0o644, nlink: 1 }
    );
    assert_eq!(make_file_attr(true, 5, 100).perm, 0o444);
}

#[test]
fn a_session_of_the_host() {
    let mut save = new_save();
    let vol = &mut save.archive.volume;

    let dir = mkdir(vol, TEXT, false, 1, b"docs").unwrap();
    assert!(dir.is_dir);
    assert_eq!(mkdir(vol, TEXT, false, 1, b"docs"), Err(Errno::Exists));
    assert_eq!(mkdir(vol, TEXT, true, 1, b"x"), Err(Errno::ReadOnly));
    assert_eq!(mkdir(vol, TEXT, false, 1, b"name that is too long"), Err(Errno::NameTooLong));

    let file = mknod(vol, TEXT, false, dir.ino, b"a.txt\\+1000").unwrap();
    assert!(!file.is_dir);
    assert_eq!(file.size, 0);
    assert_eq!(getattr(vol, false, file.ino).unwrap().size, 1000);
    assert_eq!(mknod(vol, TEXT, false, dir.ino, b"a.txt"), Err(Errno::Exists));
    assert_eq!(mknod(vol, TEXT, false, file.ino, b"b"), Err(Errno::NotDirectory));
    assert_eq!(mknod(vol, TEXT, false, dir.ino, b"big\\+999999"), Err(Errno::NoSpace));
    assert_eq!(getattr(vol, false, 1).unwrap().nlink, 3);

    assert_eq!(lookup(vol, TEXT, false, 1, b"docs"), Ok(getattr(vol, false, dir.ino).unwrap()));
    assert_eq!(lookup(vol, TEXT, false, dir.ino, b"a.txt").unwrap().ino, file.ino);
    assert_eq!(lookup(vol, TEXT, false, dir.ino, b"none"), Err(Errno::NotFound));
    assert_eq!(lookup(vol, TEXT, false, file.ino, b"none"), Err(Errno::NotDirectory));
    assert_eq!(lookup(vol, TEXT, false, 1, b"\\q"), Err(Errno::NameTooLong));

    let ino = match Ino::from_os(file.ino) {
        Ino::File(i) => i,
        Ino::Dir(_) => unreachable!(),
    };
    let mut handle = vol.open_file(ino).unwrap();
    assert_eq!(read(vol, &handle, 0, 10), Ok(vec![0; 10]));
    assert_eq!(save3ds::frontend::write(vol, &mut handle, true, 0, b"x"), Err(Errno::ReadOnly));
    assert_eq!(save3ds::frontend::write(vol, &mut handle, false, 0, &[7; 1000]), Ok(()));
    assert_eq!(save3ds::frontend::write(vol, &mut handle, false, 990, &[8; 20]), Ok(()));
    assert_eq!(read(vol, &handle, 985, 100).unwrap(), [&[7; 5][..], &[8; 20][..]].concat());
    assert_eq!(read(vol, &handle, 2000, 100), Ok(vec![]));
    assert_eq!(save3ds::frontend::write(vol, &mut handle, false, 1_000_000, &[1]), Err(Errno::NoSpace));
    assert_eq!(truncate(vol, &mut handle, false, Some(3)).unwrap().size, 3);
    assert_eq!(truncate(vol, &mut handle, false, None).unwrap().size, 3);
    assert_eq!(read(vol, &handle, 0, 100), Ok(vec![7; 3]));
    assert_eq!(unlink(vol, TEXT, false, dir.ino, b"none"), Err(Errno::NotFound));
    handle.close(vol);

    assert_eq!(rename(vol, TEXT, false, dir.ino, b"a.txt", 1, b"b.txt"), Ok(()));
    let other = mknod(vol, TEXT, false, 1, b"c.txt").unwrap();
    assert_ne!(other.ino, file.ino);
    assert_eq!(rename(vol, TEXT, false, 1, b"b.txt", 1, b"c.txt"), Ok(()));
    assert_eq!(lookup(vol, TEXT, false, 1, b"c.txt").unwrap().ino, file.ino);
    assert_eq!(rename(vol, TEXT, false, 1, b"c.txt", 1, b"docs"), Err(Errno::Exists));
    assert_eq!(rename(vol, TEXT, false, 1, b"none", 1, b"x"), Err(Errno::NotFound));

    let sub = mkdir(vol, TEXT, false, dir.ino, b"sub").unwrap();
    assert_eq!(rmdir(vol, TEXT, false, 1, b"docs"), Err(Errno::NotEmpty));
    let list = opendir(vol, TEXT, sub.ino).unwrap();
    assert_eq!(list.len(), 2);
    assert_eq!((list[0].ino, list[1].ino), (sub.ino, dir.ino));
    assert_eq!(rename(vol, TEXT, false, dir.ino, b"sub", 1, b"moved"), Ok(()));
    let list = opendir(vol, TEXT, 1).unwrap();
    let names: Vec<&[u8]> = list.iter().map(|e| &e.name[..]).collect();
    assert_eq!(names, vec![&b"."[..], b"..", b"moved", b"docs", b"c.txt"]);
    assert_eq!((list[0].ino, list[1].ino), (1, 1));
    assert_eq!(opendir(vol, TEXT, file.ino).err(), Some(Errno::NotDirectory));

    assert_eq!(rmdir(vol, TEXT, false, 1, b"docs"), Ok(()));
    assert_eq!(rmdir(vol, TEXT, false, 1, b"docs"), Err(Errno::NotFound));
    assert_eq!(unlink(vol, TEXT, false, 1, b"c.txt"), Ok(()));

    save.commit().unwrap();
    let mut again = SaveData::new(save.disa.inner.file, SaveDataType::Bare).unwrap();
    assert_eq!(opendir(&mut again.archive.volume, TEXT, 1).unwrap().len(), 3);
}

#[test]
fn an_open_file_is_busy() {
    let mut save = new_save();
    let vol = &mut save.archive.volume;
    let file = mknod(vol, TEXT, false, 1, b"a").unwrap();
    let ino = match Ino::from_os(file.ino) {
        Ino::File(i) => i,
        Ino::Dir(_) => unreachable!(),
    };
    let handle = vol.open_file(ino).unwrap();
    assert_eq!(unlink(vol, TEXT, false, 1, b"a"), Err(Errno::Io));
    handle.close(vol);
    assert_eq!(unlink(vol, TEXT, false, 1, b"a"), Ok(()));
}

/// The blocks of a file that is deleted while it is open are free, and the file stays.
#[test]
fn an_open_file_loses_its_blocks() {
    let mut save = new_save();
    let fresh = save.stat().unwrap();
    let vol = &mut save.archive.volume;
    let file = mknod(vol, TEXT, false, 1, b"a\\+3000").unwrap();
    let ino = match Ino::from_os(file.ino) {
        Ino::File(i) => i,
        Ino::Dir(_) => unreachable!(),
    };
    mknod(vol, TEXT, false, 1, b"b").unwrap();
    assert_eq!(vol.stat().unwrap().free_blocks, fresh.free_blocks - 6);
    let handle = vol.open_file(ino).unwrap();
    assert_eq!(rename(vol, TEXT, false, 1, b"b", 1, b"a"), Err(Errno::Io));
    assert_eq!(vol.stat().unwrap().free_blocks, fresh.free_blocks);
    assert_eq!(opendir(vol, TEXT, 1).unwrap().len(), 4);
    handle.close(vol);
}

/// A file that is moved onto itself is open when it is to be deleted.
#[test]
fn a_file_is_not_moved_onto_itself() {
    let mut save = new_save();
    let fresh = save.stat().unwrap();
    let vol = &mut save.archive.volume;
    let file = mknod(vol, TEXT, false, 1, b"a\\+3000").unwrap();
    assert_eq!(rename(vol, TEXT, false, 1, b"a", 1, b"a"), Err(Errno::Io));
    assert_eq!(vol.stat().unwrap().free_blocks, fresh.free_blocks);
    assert_eq!(opendir(vol, TEXT, 1).unwrap()[2].ino, file.ino);
}

#[test]
fn a_size_that_does_not_fit_the_blocks_is_refused() {
    let mut save = new_save();
    let vol = &mut save.archive.volume;
    let file = mknod(vol, TEXT, false, 1, b"a\\+3000").unwrap();
    let ino = match Ino::from_os(file.ino) {
        Ino::File(i) => i,
        Ino::Dir(_) => unreachable!(),
    };
    let meta = FileMeta::open_ino(&mut vol.fs, ino).unwrap();
    let info = meta.get_info(&mut vol.fs).unwrap();
    let mut wrong = info.clone();
    wrong[12] = 0;
    wrong[13] = 0x10;
    meta.set_info(&mut vol.fs, &wrong).unwrap();
    assert!(matches!(vol.open_file(ino), Err(Error::SizeMismatch)));
    meta.set_info(&mut vol.fs, &info).unwrap();
    meta.close(&mut vol.fs);
    let opened = vol.open_file(ino).unwrap();
    assert_eq!(opened.len(), 3000);
    opened.close(vol);
}

#[test]
fn a_file_is_read_up_to_what_was_never_written() {
    let param = SaveDataFormatParam {
        block_type: SaveDataBlockType::Large,
        max_dir: 3,
        dir_buckets: 3,
        max_file: 5,
        file_buckets: 3,
        duplicate_data: false,
    };
    let mut raw = vec![0; 200_000];
    SaveData::format(&mut raw, SaveDataType::Bare, &param).unwrap();
    let mut save = SaveData::new(raw, SaveDataType::Bare).unwrap();
    let vol = &mut save.archive.volume;
    let file = mknod(vol, TEXT, false, 1, b"a\\+15000").unwrap();
    let ino = match Ino::from_os(file.ino) {
        Ino::File(i) => i,
        Ino::Dir(_) => unreachable!(),
    };
    let mut handle = vol.open_file(ino).unwrap();
    assert_eq!(save3ds::frontend::write(vol, &mut handle, false, 0, &[7; 4096]), Ok(()));
    assert_eq!(save3ds::frontend::write(vol, &mut handle, false, 8192, &[8; 4096]), Ok(()));
    let mut shown = vec![7; 4096];
    shown.resize(15000, 0);
    assert!(read(vol, &handle, 0, 20000) == Ok(shown.clone()));
    assert!(read(vol, &handle, 8192, 4096) == Ok(vec![8; 4096]));
    handle.close(vol);
    assert!(save3ds::transfer::extract_file(vol, ino) == Ok(shown));
}

#[test]
fn nothing_is_resized_where_nothing_may_be_written() {
    let mut save = new_save();
    let vol = &mut save.archive.volume;
    let file = mknod(vol, TEXT, false, 1, b"a\\+1000").unwrap();
    let ino = match Ino::from_os(file.ino) {
        Ino::File(i) => i,
        Ino::Dir(_) => unreachable!(),
    };
    let free = vol.stat().unwrap().free_blocks;
    let mut handle = vol.open_file(ino).unwrap();
    assert_eq!(truncate(vol, &mut handle, true, Some(3)), Err(Errno::ReadOnly));
    assert_eq!(truncate(vol, &mut handle, true, Some(1000)).unwrap().size, 1000);
    assert_eq!(truncate(vol, &mut handle, true, None).unwrap().size, 1000);
    assert_eq!(truncate(vol, &mut handle, false, Some(1_000_000)), Err(Errno::Io));
    assert_eq!(handle.len(), 1000);
    handle.close(vol);
    assert_eq!(vol.stat().unwrap().free_blocks, free);
    assert_eq!(unlink(vol, TEXT, false, 1, b"a"), Ok(()));
    let stat = vol.stat().unwrap();
    assert_eq!((stat.free_blocks, stat.free_files), (free + 2, 5));
}

#[test]
fn what_is_refused_changes_nothing() {
    let mut save = new_save();
    let vol = &mut save.archive.volume;
    let docs = mkdir(vol, TEXT, false, 1, b"docs").unwrap();
    mknod(vol, TEXT, false, 1, b"a\\+1000").unwrap();
    let before = vol.stat().unwrap();
    assert_eq!(mknod(vol, TEXT, false, 1, b"b\\+999999"), Err(Errno::NoSpace));
    assert_eq!(mknod(vol, TEXT, false, 1, b"a\\+10"), Err(Errno::Exists));
    assert_eq!(mkdir(vol, TEXT, false, 1, b"docs"), Err(Errno::Exists));
    let after = vol.stat().unwrap();
    assert_eq!(
        (after.free_blocks, after.free_files, after.free_dirs),
        (before.free_blocks, before.free_files, before.free_dirs)
    );
    let sub = mkdir(vol, TEXT, false, docs.ino, b"sub").unwrap();
    assert_eq!(rename(vol, TEXT, false, docs.ino, b"sub", 1, b"docs"), Err(Errno::Io));
    assert_eq!(rename(vol, TEXT, false, 1, b"docs", 1, b"docs"), Err(Errno::Io));
    assert_eq!(lookup(vol, TEXT, false, docs.ino, b"sub").unwrap().ino, sub.ino);
    assert_eq!(rmdir(vol, TEXT, false, docs.ino, b"sub"), Ok(()));
    assert_eq!(vol.stat().unwrap().free_dirs, before.free_dirs);
}
