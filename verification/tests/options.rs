use save3ds::db::DbType;
use save3ds::error::Error;
use save3ds::options::{
    choose_archive, choose_operation, get_default_bucket, get_param, parse_decimal, read_key,
    to_db_type, to_ext_data_format_param, to_save_data_format_param, ArchiveOption,
    FileSystemOperation,
};
use save3ds::save_data::SaveDataBlockType;

#[test]
fn default_buckets() {
    assert_eq!(get_default_bucket(0), Some(3));
    assert_eq!(get_default_bucket(2), Some(3));
    assert_eq!(get_default_bucket(3), Some(3));
    assert_eq!(get_default_bucket(4), Some(5));
    assert_eq!(get_default_bucket(18), Some(19));
    assert_eq!(get_default_bucket(19), Some(19));
    assert_eq!(get_default_bucket(20), Some(23));
    assert_eq!(get_default_bucket(100), Some(101));
    assert_eq!(get_default_bucket(usize::MAX), None);
}

#[test]
fn parameters_are_looked_up() {
    assert_eq!(get_param(b"a:1,b:2,a:3", b"a"), Some(b"3".to_vec()));
    assert_eq!(get_param(b"a:1,b", b"b"), None);
    assert_eq!(get_param(b"x:y:z", b"x"), Some(b"y:z".to_vec()));
    assert_eq!(get_param(b"", b""), None);
    assert_eq!(get_param(b":", b""), Some(vec![]));
    assert_eq!(parse_decimal(b"007"), Some(7));
    assert_eq!(parse_decimal(b"+12"), Some(12));
    assert_eq!(parse_decimal(b"-1"), None);
    assert_eq!(parse_decimal(b""), None);
    assert_eq!(parse_decimal(b"99999999999999999999999"), None);
}

#[test]
fn format_parameters() {
    let (p, len) = to_save_data_format_param(b"", 512).unwrap();
    assert_eq!(p.block_type, SaveDataBlockType::Small);
    assert_eq!((p.max_dir, p.dir_buckets, p.max_file, p.file_buckets), (100, 101, 100, 101));
    assert!(p.duplicate_data);
    assert_eq!(len, 512 * 1024);

    let (p, len) = to_save_data_format_param(
        b"block_len:4096,max_dir:7,max_file:30,file_buckets:5,duplicate_data:false,len:100000",
        512,
    )
    .unwrap();
    assert_eq!(p.block_type, SaveDataBlockType::Large);
    assert_eq!((p.max_dir, p.dir_buckets, p.max_file, p.file_buckets), (7, 7, 30, 5));
    assert!(!p.duplicate_data);
    assert_eq!(len, 100000);

    assert!(matches!(to_save_data_format_param(b"block_len:1024", 512), Err(Error::InvalidValue)));
    assert!(matches!(to_save_data_format_param(b"len:x", 512), Err(Error::InvalidValue)));
    assert!(matches!(
        to_save_data_format_param(b"duplicate_data:yes", 512),
        Err(Error::InvalidValue)
    ));

    let p = to_ext_data_format_param(b"max_file:10").unwrap();
    assert_eq!((p.max_dir, p.dir_buckets, p.max_file, p.file_buckets), (100, 101, 10, 11));
    assert!(matches!(to_ext_data_format_param(b"max_dir:"), Err(Error::InvalidValue)));
}

#[test]
fn keys_are_read() {
    assert_eq!(
        read_key(b"000102030405060708090a0B0c0D0e0f"),
        Some([0, 1, 2, 3, 4, 5, 6, 7, 8, 9, 10, 11, 12, 13, 14, 15])
    );
    assert_eq!(read_key(b"00010203"), None);
    assert_eq!(read_key(b"000102030405060708090a0B0c0D0e0g"), None);
    assert_eq!(read_key(b"000102030405060708090a0B0c0D0e+1"), None);
}

#[test]
fn operations_are_chosen() {
    assert_eq!(
        choose_operation(false, false, false, true),
        Some((FileSystemOperation::Mount(true), true))
    );
    assert_eq!(
        choose_operation(false, true, false, false),
        Some((FileSystemOperation::Import, false))
    );
    assert_eq!(
        choose_operation(false, false, true, false),
        Some((FileSystemOperation::Extract, true))
    );
    assert_eq!(
        choose_operation(true, false, false, false),
        Some((FileSystemOperation::Touch, true))
    );
    assert_eq!(choose_operation(true, true, false, false), None);
}

#[test]
fn databases_are_named() {
    assert_eq!(to_db_type(b"nandtitle"), Some(DbType::NandTitle));
    assert_eq!(to_db_type(b"ticket"), Some(DbType::Ticket));
    assert_eq!(to_db_type(b"sdimport"), Some(DbType::SdImport));
    assert_eq!(to_db_type(b"sd"), None);
}

#[test]
fn one_archive_is_chosen() {
    let all = [
        ArchiveOption::SdSave,
        ArchiveOption::SdExt,
        ArchiveOption::NandSave,
        ArchiveOption::NandExt,
        ArchiveOption::Bare,
        ArchiveOption::Db,
        ArchiveOption::Cart,
    ];
    assert_eq!(choose_archive(&[false; 7]), None);
    for i in 0..7 {
        let mut given = [false; 7];
        given[i] = true;
        assert_eq!(choose_archive(&given), Some(all[i]));
        given[(i + 3) % 7] = true;
        assert_eq!(choose_archive(&given), None);
    }
    assert_eq!(ArchiveOption::NandSave.default_block_len(), 4096);
    assert_eq!(ArchiveOption::SdSave.default_block_len(), 512);
    assert_eq!(ArchiveOption::NandSave.id_digits(), 8);
    assert_eq!(ArchiveOption::NandExt.id_digits(), 16);
}
