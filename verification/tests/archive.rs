use bad_apple::archive::{encode_entry, ArchiveReader};

#[test]
fn an_archive_is_read_back_as_it_was_written() {
    let long_name = "b".repeat(255);
    let mut archive = encode_entry("a", &[]).unwrap();
    archive.extend(encode_entry(&long_name, &[1, 2, 3]).unwrap());
    let mut reader = ArchiveReader::new(&archive);
    assert_eq!(reader.next_file(), Some(("a", &[][..])));
    assert_eq!(reader.next_file(), Some((long_name.as_str(), &[1u8, 2, 3][..])));
    assert_eq!(reader.next_file(), None);
    assert_eq!(reader.next_file(), None);
    assert_eq!(reader.position(), archive.len());
}

#[test]
fn an_entry_is_laid_out_as_the_format_says() {
    assert_eq!(encode_entry("a", &[]), Some(vec![1, b'a', 0, 0, 0, 0]));
    assert_eq!(encode_entry("", &[9]), Some(vec![0, 1, 0, 0, 0, 9]));
    let payload = vec![7u8; 0x0102];
    let bytes = encode_entry("1.png", &payload).unwrap();
    assert_eq!(&bytes[..10], &[5, b'1', b'.', b'p', b'n', b'g', 0x02, 0x01, 0x00, 0x00]);
    assert_eq!(bytes.len(), 10 + 0x0102);
}

#[test]
fn a_name_of_more_than_255_bytes_is_not_encoded() {
    assert_eq!(encode_entry(&"n".repeat(256), &[1]), None);
    assert!(encode_entry(&"n".repeat(255), &[1]).is_some());
}

#[test]
fn the_length_of_a_name_counts_bytes() {
    let bytes = encode_entry("é", &[]).unwrap();
    assert_eq!(bytes, vec![2, 0xC3, 0xA9, 0, 0, 0, 0]);
    let mut reader = ArchiveReader::new(&bytes);
    assert_eq!(reader.next_file(), Some(("é", &[][..])));
}

#[test]
fn an_empty_archive_has_no_entry() {
    let mut reader = ArchiveReader::new(&[]);
    assert_eq!(reader.next_file(), None);
    assert_eq!(reader.position(), 0);
}

#[test]
fn an_entry_that_is_cut_off_is_not_read() {
    let whole = encode_entry("frame", &[1, 2, 3, 4]).unwrap();
    for cut in 1..whole.len() {
        let mut reader = ArchiveReader::new(&whole[..cut]);
        assert_eq!(reader.next_file(), None);
        assert_eq!(reader.position(), 0);
    }
}

#[test]
fn a_name_that_is_not_utf8_ends_the_reading() {
    let bytes = [2, 0xFF, 0xFE, 1, 0, 0, 0, 42];
    let mut reader = ArchiveReader::new(&bytes);
    assert_eq!(reader.next_file(), None);
    assert_eq!(reader.position(), 1);
}

#[test]
fn entries_follow_each_other_without_padding() {
    let mut archive = Vec::new();
    for i in 0..20u8 {
        let name = format!("{}.png", i);
        archive.extend(encode_entry(&name, &vec![i; i as usize * 3]).unwrap());
    }
    let mut reader = ArchiveReader::new(&archive);
    for i in 0..20u8 {
        let (name, data) = reader.next_file().unwrap();
        assert_eq!(name, format!("{}.png", i));
        assert_eq!(data, &vec![i; i as usize * 3][..]);
    }
    assert_eq!(reader.next_file(), None);
}

#[test]
fn a_name_that_is_not_utf8_is_found_before_the_payload_is_missed() {
    // the payload is cut off, and the name is not UTF-8
    let bytes = [2, 0xFF, 0xFE, 9, 0, 0, 0, 42];
    let mut reader = ArchiveReader::new(&bytes);
    assert_eq!(reader.next_file(), None);
    assert_eq!(reader.position(), 1);
    // the name itself is cut off
    let mut reader = ArchiveReader::new(&bytes[..2]);
    assert_eq!(reader.next_file(), None);
    assert_eq!(reader.position(), 0);
}
