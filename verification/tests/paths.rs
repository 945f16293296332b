use diskscan::EntryPath;

fn crc16(text: &str) -> u16 {
    crc::Crc::<u16>::new(&crc::CRC_16_ISO_IEC_14443_3_A).checksum(text.as_bytes())
}

fn strings(parts: &[&str]) -> Vec<String> {
    parts.iter().map(|p| p.to_string()).collect()
}

#[test]
fn crc() {
    assert_eq!(
        EntryPath::calc_crc(&strings(&["part1", "part2"])).unwrap(),
        crc16("part1") ^ crc16("part2")
    );
    assert_eq!(
        EntryPath::from("/data", "/data/dir/test").unwrap().get_crc(),
        EntryPath::calc_crc(&strings(&["/data", "dir", "test"])).unwrap()
    );
}

#[test]
fn from() {
    assert_eq!(
        EntryPath::from("/data/", "/data/test").unwrap().parts(),
        &strings(&["/data/", "test"])
    );
    assert_eq!(
        EntryPath::from("/data/", "/data").unwrap().parts(),
        &strings(&["/data/"])
    );
    assert_eq!(
        EntryPath::from("/data", "/data/file").unwrap().parts(),
        &strings(&["/data", "file"])
    );
    assert_eq!(
        EntryPath::from("/data/", "/data").unwrap(),
        EntryPath::new("/data/".to_string())
    );
}

#[test]
fn get_path() {
    assert_eq!(
        std::path::PathBuf::from(EntryPath::from("/data/", "/data/").unwrap().get_path()),
        std::path::PathBuf::from("/data")
    );
    assert_eq!(
        std::path::PathBuf::from(EntryPath::from("/data/", "/data/test").unwrap().get_path()),
        std::path::PathBuf::from("/data/test")
    );
    assert_eq!(
        std::path::PathBuf::from(
            EntryPath::from("/data/mnt", "/data/mnt/test").unwrap().get_path()
        ),
        std::path::PathBuf::from("/data/mnt/test")
    );
}

#[test]
fn cmp_and_eq() {
    assert_eq!(
        EntryPath::from("/data/", "/data/test").unwrap(),
        EntryPath::from("/data/", "/data/test").unwrap()
    );
    assert!(
        EntryPath::from("/data/", "/data/").unwrap()
            < EntryPath::from("/data/", "/data/test").unwrap()
    );
    assert!(
        EntryPath::from("/data/", "/data/test").unwrap()
            > EntryPath::from("/data/", "/data/").unwrap()
    );
    assert!(EntryPath::from("/data/", "/data/test")
        .unwrap()
        .partial_cmp(&EntryPath::from("/data/", "/data/other").unwrap())
        .is_none());
}

#[test]
fn root_spelling() {
    let with = EntryPath::from("/data/", "/data/a/b").unwrap();
    let without = EntryPath::from("/data", "/data/a/b").unwrap();
    assert_eq!(with.parts()[1..], without.parts()[1..]);
    assert_eq!(
        EntryPath::from("/data/", "/x/y").is_none(),
        EntryPath::from("/data", "/x/y").is_none()
    );
}
