use std::io::{Cursor, Write};

use wie::archive::{
    admit_content, admit_entry, count_central_headers, extract_zip, name_is_unsafe, Archive,
    MAX_ENTRIES, MAX_TOTAL_BYTES,
};
use wie::error::WieError;
use wie::zip_index::MAX_ENTRY_BYTES;
use zip::{write::SimpleFileOptions, ZipWriter};

fn fixture(entries: &[(&str, &[u8])]) -> Vec<u8> {
    let mut writer = ZipWriter::new(Cursor::new(Vec::new()));
    for (name, bytes) in entries {
        writer
            .start_file(
                *name,
                SimpleFileOptions::default().compression_method(zip::CompressionMethod::Stored),
            )
            .unwrap();
        writer.write_all(bytes).unwrap();
    }
    writer.finish().unwrap().into_inner()
}

fn content<'a>(files: &'a [(String, Vec<u8>)], name: &str) -> Option<&'a Vec<u8>> {
    files.iter().find(|file| file.0 == name).map(|file| &file.1)
}

fn invalid(reason: &str) -> WieError {
    WieError::FatalError(format!("Invalid zip archive: {reason}"))
}

#[test]
fn selected_metadata_does_not_decompress_other_entries() {
    let mut data = fixture(&[("manifest", b"name"), ("payload", b"large")]);
    let payload = data.windows(5).position(|bytes| bytes == b"large").unwrap();
    data[payload] ^= 1;
    let mut archive = Archive::new(&data).unwrap();
    assert_eq!(archive.read("manifest").unwrap(), Some(b"name".to_vec()));
    assert!(archive.read("payload").is_err());
    assert!(extract_zip(&data).is_err());
}

#[test]
fn rejects_duplicates_traversal_truncation_and_oversized_entries() {
    let mut duplicate = fixture(&[("one", b"1"), ("two", b"2")]);
    for index in 0..duplicate.len() - 2 {
        if &duplicate[index..index + 3] == b"two" {
            duplicate[index..index + 3].copy_from_slice(b"one");
        }
    }
    assert!(Archive::new(&duplicate).is_err());
    assert!(Archive::new(&fixture(&[("../escape", b"1")])).is_err());
    let mut data = fixture(&[("file", b"bytes")]);
    assert!(Archive::new(&data[..data.len() - 8]).is_err());
    let central = data.windows(4).position(|bytes| bytes == b"PK\x01\x02").unwrap();
    data[central + 24..central + 28].copy_from_slice(&((MAX_ENTRY_BYTES + 1) as u32).to_le_bytes());
    assert!(Archive::new(&data).is_err());
}

#[test]
fn preserves_guest_paths_and_empty_files() {
    let data = fixture(&[("/res/./data", b""), ("a//b", b"x")]);
    let files = extract_zip(&data).unwrap();
    assert_eq!(content(&files, "/res/./data"), Some(&Vec::new()));
    assert_eq!(content(&files, "a//b"), Some(&b"x".to_vec()));
}

#[test]
fn each_rule_names_its_reason() {
    let mut duplicate = fixture(&[("one", b"1"), ("two", b"2")]);
    for index in 0..duplicate.len() - 2 {
        if &duplicate[index..index + 3] == b"two" {
            duplicate[index..index + 3].copy_from_slice(b"one");
        }
    }
    assert_eq!(Archive::new(&duplicate).err(), Some(invalid("duplicate entry name")));
    assert_eq!(
        Archive::new(&fixture(&[("a\\..\\b", b"1")])).err(),
        Some(invalid("unsafe entry path"))
    );
    let mut large = fixture(&[("file", b"bytes")]);
    let central = large.windows(4).position(|bytes| bytes == b"PK\x01\x02").unwrap();
    large[central + 24..central + 28]
        .copy_from_slice(&((MAX_ENTRY_BYTES + 1) as u32).to_le_bytes());
    assert_eq!(
        Archive::new(&large).err(),
        Some(invalid("decompressed size limit exceeded"))
    );
    assert_eq!(
        Archive::new(&vec![0; MAX_ENTRY_BYTES as usize + 1]).err(),
        Some(invalid("compressed size limit exceeded"))
    );
    assert!(Archive::new(b"no archive").is_err());
}

#[test]
fn a_length_that_differs_from_the_index_is_refused() {
    let mut data = fixture(&[("file", b"bytes")]);
    let central = data.windows(4).position(|bytes| bytes == b"PK\x01\x02").unwrap();
    data[central + 24..central + 28].copy_from_slice(&4u32.to_le_bytes());
    let mut archive = Archive::new(&data).unwrap();
    assert_eq!(archive.read("file"), Err(invalid("entry length mismatch")));
}

#[test]
fn names_keep_the_order_of_the_index_and_directories_have_no_content() {
    let mut writer = ZipWriter::new(Cursor::new(Vec::new()));
    let options = SimpleFileOptions::default();
    writer.add_directory("res", options).unwrap();
    writer.start_file("res/b", options).unwrap();
    writer.write_all(&[7; 1000]).unwrap();
    writer.start_file("a", options).unwrap();
    writer.write_all(b"x").unwrap();
    let data = writer.finish().unwrap().into_inner();
    let mut archive = Archive::new(&data).unwrap();
    assert_eq!(archive.names(), vec!["res/", "res/b", "a"]);
    assert_eq!(archive.read("res/"), Ok(None));
    assert_eq!(archive.read("missing"), Ok(None));
    assert_eq!(archive.read("res/b"), Ok(Some(vec![7; 1000])));
    let kept = archive.extract_matching(|name: &str| name.starts_with("res/")).unwrap();
    assert_eq!(kept, vec![("res/b".to_string(), vec![7; 1000])]);
    let files = extract_zip(&data).unwrap();
    assert_eq!(files, vec![("a".to_string(), b"x".to_vec()), ("res/b".to_string(), vec![7; 1000])]);
}

#[test]
fn extracted_files_come_in_the_order_of_their_names() {
    let data = fixture(&[("b", b"1"), ("ab", b"2"), ("a", b"3"), ("\u{e9}", b"4"), ("a/", b""), ("B", b"5")]);
    let files = extract_zip(&data).unwrap();
    let names: Vec<&str> = files.iter().map(|file| file.0.as_str()).collect();
    assert_eq!(names, vec!["B", "a", "ab", "b", "\u{e9}"]);
    assert!(files.windows(2).all(|pair| pair[0].0 < pair[1].0));
    let contents: Vec<&[u8]> = files.iter().map(|file| file.1.as_slice()).collect();
    assert_eq!(contents, vec![&b"5"[..], b"3", b"2", b"1", b"4"]);
}

#[test]
fn central_headers_are_counted_and_checked() {
    let mut header = vec![0u8; 46];
    header[..4].copy_from_slice(b"PK\x01\x02");
    header[28] = 2;
    header.extend_from_slice(b"ab");
    assert_eq!(count_central_headers(&header, 0), Ok(1));
    assert_eq!(count_central_headers(&header, 1), Ok(0));
    assert_eq!(count_central_headers(&header, usize::MAX), Ok(0));
    assert_eq!(count_central_headers(&header[..40], 0), Err(invalid("short central header")));
    assert_eq!(count_central_headers(&header[..47], 0), Err(invalid("short entry name")));
    let mut extra = header.clone();
    extra[30] = 1;
    assert_eq!(count_central_headers(&extra, 0), Err(invalid("short central entry")));
    let twice = [header.clone(), header.clone()].concat();
    assert_eq!(count_central_headers(&twice, 0), Err(invalid("duplicate entry name")));
    let mut many = Vec::new();
    for index in 0..MAX_ENTRIES + 1 {
        let mut next = header.clone();
        next[46] = (index % 256) as u8;
        next[47] = (index / 256) as u8;
        many.extend_from_slice(&next);
    }
    assert_eq!(count_central_headers(&many, 0), Err(invalid("entry count limit exceeded")));
    assert_eq!(count_central_headers(&many[48..], 0), Ok(MAX_ENTRIES));
}

#[test]
fn entries_are_admitted_within_the_limits() {
    let seen = vec!["a".chars().collect::<Vec<char>>()];
    assert_eq!(admit_entry(&seen, "b", 5, 7), Ok(12));
    assert_eq!(admit_entry(&seen, "a", 5, 7), Err(invalid("duplicate decoded entry name")));
    assert_eq!(admit_entry(&seen, "b/..", 5, 7), Err(invalid("unsafe entry path")));
    assert_eq!(admit_entry(&seen, "b", u64::MAX, 1), Err(invalid("size overflow")));
    assert_eq!(
        admit_entry(&seen, "b", 1, MAX_TOTAL_BYTES),
        Err(invalid("decompressed size limit exceeded"))
    );
    assert_eq!(admit_content(vec![1, 2], 2), Ok(vec![1, 2]));
    assert_eq!(admit_content(vec![1, 2], 3), Err(invalid("entry length mismatch")));
    assert!(name_is_unsafe("a\0b"));
    assert!(name_is_unsafe("a\\.."));
    assert!(!name_is_unsafe("a/...//b"));
}
