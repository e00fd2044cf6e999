use sss_unpack::archive::{append_padded, file_contents, get_header_length, pack, parse_files_from_header, unpack};
use sss_unpack::entry::FileEntry;
use sss_unpack::error::ArchiveError;

fn file(name: &str, contents: Vec<u8>) -> (String, Vec<u8>) {
    (String::from(name), contents)
}

fn pattern(len: usize) -> Vec<u8> {
    (0..len).map(|i| (i % 251) as u8 + 1).collect()
}

#[test]
fn two_file_example() {
    let files = vec![file("A", b"hello".to_vec()), file("B", pattern(2050))];
    let blob = pack(&files).unwrap();
    assert_eq!(get_header_length(&blob), Ok(1));
    assert_eq!(blob.len(), 2048 + 2048 + 2 * 2048);
    let entries = parse_files_from_header(&blob).unwrap();
    assert_eq!(entries.len(), 2);
    assert_eq!(entries[0].start, 1);
    assert_eq!(entries[0].length, 5);
    let out = unpack(&blob).unwrap();
    assert_eq!(out.len(), 2);
    assert_eq!(out[0].0, "A");
    assert_eq!(out[0].1, b"hello".to_vec());
    assert_eq!(out[1].0, "B");
    assert_eq!(out[1].1, pattern(2050));
    // the rest of A's sector is zero padding
    assert!(blob[2048 + 5..4096].iter().all(|b| *b == 0));
}

#[test]
fn round_trip_with_exact_sector_last() {
    let files = vec![file("SMALL.DAT", pattern(100)), file("EXACT.DAT", pattern(2048))];
    let blob = pack(&files).unwrap();
    let out = unpack(&blob).unwrap();
    assert_eq!(out, files);
}

#[test]
fn round_trip_with_empty_last() {
    let files = vec![file("ONE", pattern(7)), file("EMPTY", vec![])];
    let blob = pack(&files).unwrap();
    assert_eq!(unpack(&blob).unwrap(), files);
}

#[test]
fn empty_file_followed_by_another_is_looked_for_too_far() {
    // The empty file's end field is 1 although it takes no sector, so the
    // next file's start points one sector past where its contents stand.
    let files = vec![file("EMPTY", vec![]), file("X", b"x".to_vec())];
    let blob = pack(&files).unwrap();
    assert_eq!(blob.len(), 4096);
    let entries = parse_files_from_header(&blob).unwrap();
    assert_eq!(entries[1].start, 2);
    assert_eq!(unpack(&blob), Err(ArchiveError::Truncated));
}

#[test]
fn archive_size_is_whole_sectors() {
    for lens in [vec![0usize], vec![1], vec![2047], vec![2048], vec![2049, 3], vec![5, 2050]] {
        let files: Vec<(String, Vec<u8>)> =
            lens.iter().enumerate().map(|(i, l)| file(&format!("F{}", i), pattern(*l))).collect();
        let blob = pack(&files).unwrap();
        assert_eq!(blob.len() % 2048, 0);
    }
}

#[test]
fn padding_takes_whole_sectors() {
    for (len, expected) in [(0usize, 0usize), (1, 2048), (2047, 2048), (2048, 2048), (2049, 4096)] {
        let mut out = vec![9u8; 3];
        let content = pattern(len);
        append_padded(&mut out, &content);
        assert_eq!(out.len(), 3 + expected);
        assert_eq!(&out[3..3 + len], &content[..]);
        assert!(out[3 + len..].iter().all(|b| *b == 0));
    }
}

#[test]
fn header_length_matches_first_start() {
    let files: Vec<(String, Vec<u8>)> = (0..100).map(|i| file(&format!("F{}", i), pattern(3))).collect();
    let blob = pack(&files).unwrap();
    let h = get_header_length(&blob).unwrap();
    assert_eq!(h, 2);
    let entries = parse_files_from_header(&blob).unwrap();
    assert_eq!(entries.len(), 100);
    assert_eq!(entries[0].start as usize, h);
    assert!(blob[100 * 24..h * 2048].iter().all(|b| *b == 0));
}

#[test]
fn same_files_pack_identically() {
    let a = vec![file("A", pattern(10)), file("B", pattern(3000))];
    let b = vec![file("A", pattern(10)), file("B", pattern(3000))];
    assert_eq!(pack(&a).unwrap(), pack(&b).unwrap());
}

#[test]
fn short_blob_is_format_error() {
    assert_eq!(get_header_length(&[1u8; 23]), Err(ArchiveError::Format));
    assert_eq!(unpack(&[]), Err(ArchiveError::Format));
    assert_eq!(unpack(&[b'A'; 23]), Err(ArchiveError::Format));
}

#[test]
fn leading_null_is_format_error() {
    let mut blob = vec![0u8; 4096];
    blob[1] = b'A';
    blob[15] = 1;
    assert_eq!(get_header_length(&blob), Err(ArchiveError::Format));
    assert_eq!(unpack(&blob).err(), Some(ArchiveError::Format));
}

#[test]
fn header_past_end_is_truncated() {
    let files = vec![file("A", pattern(5))];
    let blob = pack(&files).unwrap();
    assert_eq!(parse_files_from_header(&blob[..2000]).err(), Some(ArchiveError::Truncated));
}

#[test]
fn contents_past_end_are_truncated() {
    let files = vec![file("A", pattern(5))];
    let blob = pack(&files).unwrap();
    assert_eq!(unpack(&blob[..2050]), Err(ArchiveError::Truncated));
    let e = FileEntry { name: String::from("A"), start: 1, end: 1, length: 5 };
    assert_eq!(file_contents(&blob[..2052], &e), Err(ArchiveError::Truncated));
    assert_eq!(file_contents(&blob[..2053], &e), Ok(pattern(5)));
}

#[test]
fn pack_rejects_bad_input() {
    let files = vec![file("NAME_TOO_LONG", vec![1])];
    assert_eq!(pack(&files), Err(ArchiveError::InvalidName));
    let files = vec![file("A", vec![1]), file("", vec![2])];
    assert_eq!(pack(&files), Err(ArchiveError::InvalidName));
}

#[test]
fn empty_list_packs_to_unreadable_header() {
    let blob = pack(&vec![]).unwrap();
    assert_eq!(blob, vec![0u8; 2048]);
    assert_eq!(unpack(&blob), Err(ArchiveError::Format));
}
