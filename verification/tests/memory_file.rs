use save3ds::memory_file::MemoryFile;
use save3ds::random_access_file::RandomAccessFile;

#[test]
fn memory_file_test() {
    let mut file = MemoryFile::new(vec![9, 9, 9, 9, 9, 9, 9, 9, 9]);
    let buf = [1, 3, 5, 7];
    file.write(2, &buf).unwrap();
    file.write(4, &buf).unwrap();
    let mut buf2 = [0; 7];
    file.read(2, &mut buf2).unwrap();
    assert_eq!(buf2, [1, 3, 1, 3, 5, 7, 9]);
}
