use sss_unpack::bytes::{uint16_from_bytes, uint16_to_bytes, uint32_from_bytes, uint32_to_bytes};
use sss_unpack::entry::{FileEntry, FileList};
use sss_unpack::error::ArchiveError;

fn record(name: &[u8], start: u16, end: u16, length: u32) -> Vec<u8> {
    let mut r = name.to_vec();
    r.resize(12, 0);
    r.extend_from_slice(&[0, 0]);
    r.extend_from_slice(&start.to_be_bytes());
    r.extend_from_slice(&[0, 0]);
    r.extend_from_slice(&end.to_be_bytes());
    r.extend_from_slice(&length.to_be_bytes());
    r
}

#[test]
fn integers_are_big_endian() {
    assert_eq!(uint16_from_bytes([0x12, 0x34]), 0x1234);
    assert_eq!(uint32_from_bytes([0x12, 0x34, 0x56, 0x78]), 0x1234_5678);
    assert_eq!(uint16_to_bytes(0x1234), vec![0x12, 0x34]);
    assert_eq!(uint32_to_bytes(0x1234_5678), vec![0x12, 0x34, 0x56, 0x78]);
    assert_eq!(uint16_to_bytes(1), vec![0, 1]);
    assert_eq!(uint32_to_bytes(2050), vec![0, 0, 0x08, 0x02]);
}

#[test]
fn integers_round_trip() {
    for v in [0u16, 1, 255, 256, 0xFFFF] {
        let b = uint16_to_bytes(v);
        assert_eq!(uint16_from_bytes([b[0], b[1]]), v);
    }
    for v in [0u32, 1, 0x100, 0x1_0000, 0xFFFF_FFFF] {
        let b = uint32_to_bytes(v);
        assert_eq!(uint32_from_bytes([b[0], b[1], b[2], b[3]]), v);
    }
}

#[test]
fn entry_serializes_to_record_layout() {
    let e = FileEntry { name: String::from("A.TXT"), start: 1, end: 2, length: 5 };
    let r = e.serialize();
    assert_eq!(r.len(), 24);
    assert_eq!(r, record(b"A.TXT", 1, 2, 5));
}

#[test]
fn twelve_byte_name_fills_field() {
    let e = FileEntry { name: String::from("ABCDEFGH.TXT"), start: 3, end: 4, length: 0x0102_0304 };
    let r = e.serialize();
    assert_eq!(&r[0..12], b"ABCDEFGH.TXT");
    assert_eq!(r[20..24], [1, 2, 3, 4]);
    let back = FileEntry::parse_file_listing(&r).unwrap();
    assert_eq!(back.name, "ABCDEFGH.TXT");
    assert_eq!((back.start, back.end, back.length), (3, 4, 0x0102_0304));
}

#[test]
fn record_decodes_name_and_numbers() {
    let mut r = record(b"HELLO", 0x0102, 0x0304, 0x0506_0708);
    // reserved bytes are ignored on read
    r[12] = 9;
    r[17] = 9;
    let e = FileEntry::parse_file_listing(&r).unwrap();
    assert_eq!(e.name, "HELLO");
    assert_eq!(e.start, 0x0102);
    assert_eq!(e.end, 0x0304);
    assert_eq!(e.length, 0x0506_0708);
}

#[test]
fn name_stops_at_first_null() {
    let mut r = record(b"AB", 1, 1, 1);
    r[3] = b'Z';
    let e = FileEntry::parse_file_listing(&r).unwrap();
    assert_eq!(e.name, "AB");
}

#[test]
fn leading_null_is_padding_whatever_follows() {
    let mut r = vec![0xFFu8; 24];
    r[0] = 0;
    assert!(FileEntry::parse_file_listing(&r).is_none());
    assert!(FileEntry::parse_file_listing(&[0u8; 24]).is_none());
}

#[test]
fn name_that_is_not_utf8_does_not_decode() {
    let r = record(&[0xFF, 0xFE], 1, 1, 1);
    assert!(FileEntry::parse_file_listing(&r).is_none());
}

#[test]
fn build_lays_out_two_files() {
    let files = vec![(String::from("A"), 5u64), (String::from("B"), 2050u64)];
    let list = FileList::build(&files).unwrap();
    assert_eq!(list.files.len(), 2);
    let a = &list.files[0];
    assert_eq!((a.name.as_str(), a.start, a.end, a.length), ("A", 1, 1, 5));
    let b = &list.files[1];
    assert_eq!((b.name.as_str(), b.start, b.end, b.length), ("B", 2, 2, 2050));
}

#[test]
fn end_field_counts_from_start() {
    // end = (start + length) / 2048 + 1
    let files = vec![(String::from("A"), 4096u64), (String::from("B"), 1u64)];
    let list = FileList::build(&files).unwrap();
    assert_eq!(list.files[0].end, 3);
    assert_eq!(list.files[1].start, 4);
}

#[test]
fn header_grows_by_sectors() {
    // 86 records take 2064 bytes: the header takes two sectors.
    let files: Vec<(String, u64)> = (0..86).map(|i| (format!("F{}", i), 1u64)).collect();
    let list = FileList::build(&files).unwrap();
    assert_eq!(list.files[0].start, 2);
    let header = list.serialize();
    assert_eq!(header.len(), 2 * 2048);
    // 85 records take 2040 bytes: one sector.
    let files: Vec<(String, u64)> = (0..85).map(|i| (format!("F{}", i), 1u64)).collect();
    let list = FileList::build(&files).unwrap();
    assert_eq!(list.files[0].start, 1);
    assert_eq!(list.serialize().len(), 2048);
}

#[test]
fn header_serializes_records_then_zeros() {
    let files = vec![(String::from("A"), 5u64), (String::from("B"), 2050u64)];
    let header = FileList::build(&files).unwrap().serialize();
    assert_eq!(header.len(), 2048);
    assert_eq!(&header[0..24], &record(b"A", 1, 1, 5)[..]);
    assert_eq!(&header[24..48], &record(b"B", 2, 2, 2050)[..]);
    assert!(header[48..].iter().all(|b| *b == 0));
}

#[test]
fn build_rejects_bad_names() {
    let long = vec![(String::from("THIRTEEN.CHAR"), 1u64)];
    assert_eq!(FileList::build(&long).err(), Some(ArchiveError::InvalidName));
    let empty = vec![(String::new(), 1u64)];
    assert_eq!(FileList::build(&empty).err(), Some(ArchiveError::InvalidName));
    let nul = vec![(String::from("A\0B"), 1u64)];
    assert_eq!(FileList::build(&nul).err(), Some(ArchiveError::InvalidName));
}

#[test]
fn build_rejects_numbers_that_do_not_fit() {
    let huge = vec![(String::from("A"), 0x1_0000_0000u64)];
    assert_eq!(FileList::build(&huge).err(), Some(ArchiveError::TooLarge));
    // A length whose end sector passes 0xFFFF.
    let big = vec![(String::from("A"), 0xFFFF_FFFFu64)];
    assert_eq!(FileList::build(&big).err(), Some(ArchiveError::TooLarge));
}
