use save3ds::names::NameType;

fn to_str(name: &[u8; 16]) -> String {
    String::from_utf8(NameType::Text.name_3ds_to_str(name)).unwrap()
}

fn from_os(text: &str) -> Option<(Vec<u8>, String)> {
    NameType::Text
        .name_os_to_3ds(text.as_bytes())
        .map(|(name, rest)| (name, String::from_utf8(rest).unwrap()))
}

#[test]
fn test_string_conversion() {
    assert_eq!(to_str(&[b'a', b'b', b'c', 0, 0, 0, 0, 0, 0, 0, 0, 0, 0, 0, 0, 0]), "abc");
    assert_eq!(
        to_str(&[b'a', b'b', b'c', 0, 0, 0, b'd', 0, 0, 0, 0, 0, 0, 0, 0, 0]),
        "abc\\x00\\x00\\x00d"
    );
    assert_eq!(
        to_str(&[b'a', b'/', b'\n', 0, 0, 0, 0, 0, 0, 0, 0, 0, 0, 0, 0, 0]),
        "a\\x2f\\x0a"
    );
    assert_eq!(to_str(&[0, 0, 0, 0, 0, 0, 0, 0, 0, 0, 0, 0, 0, 0, 0, 0]), "\\x00");

    assert_eq!(
        from_os("abc"),
        Some((vec![b'a', b'b', b'c', 0, 0, 0, 0, 0, 0, 0, 0, 0, 0, 0, 0, 0], "".to_string()))
    );
    assert_eq!(
        from_os("a\\x12c"),
        Some((vec![b'a', 0x12, b'c', 0, 0, 0, 0, 0, 0, 0, 0, 0, 0, 0, 0, 0], "".to_string()))
    );
    assert_eq!(
        from_os("a\\x12\x34c"),
        Some((vec![b'a', 0x12, 0x34, b'c', 0, 0, 0, 0, 0, 0, 0, 0, 0, 0, 0, 0], "".to_string()))
    );
    assert_eq!(
        from_os("a\\x12\x34c\\+x\\yz"),
        Some((
            vec![b'a', 0x12, 0x34, b'c', 0, 0, 0, 0, 0, 0, 0, 0, 0, 0, 0, 0],
            "x\\yz".to_string()
        ))
    );
    assert_eq!(
        from_os("a\\x12\x34c\\+"),
        Some((vec![b'a', 0x12, 0x34, b'c', 0, 0, 0, 0, 0, 0, 0, 0, 0, 0, 0, 0], "".to_string()))
    );
    assert_eq!(from_os("a\\2c"), None);
    assert_eq!(from_os("a\\x1"), None);
    assert_eq!(from_os("a\\x"), None);
    assert_eq!(from_os("a\\"), None);
    assert!(from_os("aaaaaaaaaaaaaaaa").is_some());
    assert!(from_os("aaaaaaaaaaaaaaaaa").is_none());
}

#[test]
fn numbers_as_names() {
    let name = 0x0123_4567_89ab_cdefu64.to_le_bytes();
    let text = NameType::Number.name_3ds_to_str(&name);
    assert_eq!(text, b"0123456789abcdef".to_vec());
    assert_eq!(NameType::Number.name_str_to_3ds(&text), Some(name.to_vec()));
    assert_eq!(NameType::Number.name_str_to_3ds(b"F"), Some(15u64.to_le_bytes().to_vec()));
    assert_eq!(NameType::Number.name_str_to_3ds(b"0F"), Some(15u64.to_le_bytes().to_vec()));
    assert_eq!(NameType::Number.name_str_to_3ds(b"+1"), None);
    assert_eq!(NameType::Number.name_str_to_3ds(b"00000000000000001"), None);
    assert_eq!(NameType::Text.name_str_to_3ds(b"a\\x+1"), None);
    assert_eq!(NameType::Number.name_str_to_3ds(b""), None);
    assert_eq!(NameType::Number.name_str_to_3ds(b"+"), None);
    assert_eq!(NameType::Number.name_str_to_3ds(b"12g"), None);
    assert_eq!(NameType::Number.name_str_to_3ds(b"10000000000000000"), None);
}

#[test]
fn every_byte_comes_back() {
    for a in 0..=255u8 {
        let mut name = [0; 16];
        name[0] = a;
        name[7] = b'+';
        name[6] = b'\\';
        name[15] = 255 - a;
        let text = NameType::Text.name_3ds_to_str(&name);
        assert_eq!(NameType::Text.name_os_to_3ds(&text), Some((name.to_vec(), vec![])));
    }
}
