use minitar::archive::{
    append_to_archive, create_archive, extract_from_archive, get_archive_files, update_archive,
    MemberFile,
};
use minitar::header::{decode_header, encode_header, FileMeta, TarError};

fn meta(name: &str) -> FileMeta {
    FileMeta {
        name: name.as_bytes().to_vec(),
        mode: 0o644,
        uid: 1000,
        gid: 1000,
        mtime: 1700000000,
        typeflag: b'0',
        uname: b"user".to_vec(),
        gname: b"group".to_vec(),
        devmajor: 0,
        devminor: 0,
    }
}

fn member(name: &str, content: Vec<u8>) -> MemberFile {
    MemberFile {
        meta: meta(name),
        content,
    }
}

#[test]
fn create_two_files_exact_length() {
    // 512 (header) + 512 (5 bytes + pad) + 512 (header)
    // + 1024 (512 bytes + one full pad block) + 1024 (end marker)
    let files = vec![
        member("x.txt", vec![b'a'; 5]),
        member("y.txt", vec![b'b'; 512]),
    ];
    let archive = create_archive(&files).unwrap();
    assert_eq!(archive.len(), 3584);
}

#[test]
fn header_roundtrip_recovers_name_and_size() {
    let m = meta("dir/file.txt");
    let block = encode_header(&m, 1234).unwrap();
    assert_eq!(block.len(), 512);
    let rec = decode_header(&block).unwrap();
    assert_eq!(rec.name, b"dir/file.txt".to_vec());
    assert_eq!(rec.size, 1234);
    assert_eq!(rec.mode, 0o644);
    assert_eq!(rec.uid, 1000);
    assert_eq!(rec.mtime, 1700000000);
    assert_eq!(rec.typeflag, b'0');
}

#[test]
fn header_has_ustar_magic_and_checksum_format() {
    let block = encode_header(&meta("m.txt"), 7).unwrap();
    assert_eq!(&block[257..263], b"ustar\0");
    assert_eq!(&block[263..265], b"00");
    // six octal digits, a NUL and a space
    for k in 148..154 {
        assert!(block[k].is_ascii_digit());
    }
    assert_eq!(block[154], 0);
    assert_eq!(block[155], b' ');
}

#[test]
fn flipping_any_byte_outside_checksum_is_detected() {
    let block = encode_header(&meta("flip.txt"), 99).unwrap();
    assert!(decode_header(&block).is_ok());
    for i in 0..512 {
        if (148..156).contains(&i) {
            continue;
        }
        let mut bad = block.clone();
        bad[i] ^= 0x55;
        assert_eq!(decode_header(&bad).unwrap_err(), TarError::CorruptHeaderError);
    }
}

#[test]
fn corrupt_checksum_field_is_detected() {
    let mut block = encode_header(&meta("c.txt"), 3).unwrap();
    block[148] = b'7';
    block[149] = b'7';
    assert_eq!(decode_header(&block).unwrap_err(), TarError::CorruptHeaderError);
}

#[test]
fn list_on_empty_or_tiny_archive_is_empty() {
    assert!(get_archive_files(&Vec::new()).unwrap().is_empty());
    assert!(get_archive_files(&vec![0u8; 511]).unwrap().is_empty());
    assert!(extract_from_archive(&vec![0u8; 100]).unwrap().is_empty());
}

#[test]
fn list_returns_members_in_written_order() {
    let files = vec![
        member("first", vec![1, 2, 3]),
        member("second", vec![4; 600]),
        member("third", Vec::new()),
    ];
    let archive = create_archive(&files).unwrap();
    let records = get_archive_files(&archive).unwrap();
    assert_eq!(records.len(), 3);
    assert_eq!(records[0].name, b"first".to_vec());
    assert_eq!(records[1].name, b"second".to_vec());
    assert_eq!(records[2].name, b"third".to_vec());
    assert_eq!(records[0].size, 3);
    assert_eq!(records[1].size, 600);
    assert_eq!(records[2].size, 0);
}

#[test]
fn extract_reproduces_contents_exactly() {
    let files = vec![
        member("a.bin", (0..=255).collect::<Vec<u8>>()),
        member("b.bin", vec![9; 512]),
        member("empty", Vec::new()),
    ];
    let archive = create_archive(&files).unwrap();
    let out = extract_from_archive(&archive).unwrap();
    assert_eq!(out.len(), 3);
    for (got, want) in out.iter().zip(files.iter()) {
        assert_eq!(got.name, want.meta.name);
        assert_eq!(got.content, want.content);
    }
}

#[test]
fn append_adjusts_length_by_marker_and_member() {
    let archive = create_archive(&vec![member("x.txt", vec![b'x'; 5])]).unwrap();
    let old_len = archive.len();
    let appended = append_to_archive(&archive, &vec![member("w.txt", vec![b'w'; 100])]).unwrap();
    // header block + one content block for 100 bytes
    assert_eq!(appended.len(), old_len - 1024 + (512 + 512) + 1024);
    let records = get_archive_files(&appended).unwrap();
    assert_eq!(records.len(), 2);
    assert_eq!(records[0].name, b"x.txt".to_vec());
    assert_eq!(records[1].name, b"w.txt".to_vec());
}

#[test]
fn append_on_short_archive_is_malformed() {
    let short = vec![0u8; 500];
    let r = append_to_archive(&short, &vec![member("w.txt", vec![1])]);
    assert_eq!(r.unwrap_err(), TarError::MalformedArchiveError);
}

#[test]
fn update_of_absent_member_fails_without_write() {
    let archive = create_archive(&vec![member("x.txt", vec![1, 2])]).unwrap();
    let before = archive.clone();
    let r = update_archive(&archive, &vec![member("z.txt", vec![3])]);
    assert_eq!(r.unwrap_err(), TarError::MembershipError);
    assert_eq!(archive, before);
}

#[test]
fn update_of_present_member_appends_fresh_copy() {
    let archive = create_archive(&vec![member("x.txt", vec![1, 2])]).unwrap();
    let updated = update_archive(&archive, &vec![member("x.txt", vec![7, 8, 9])]).unwrap();
    let records = get_archive_files(&updated).unwrap();
    assert_eq!(records.len(), 2);
    assert_eq!(records[0].name, b"x.txt".to_vec());
    assert_eq!(records[1].name, b"x.txt".to_vec());
    // the later copy wins on extraction order
    let out = extract_from_archive(&updated).unwrap();
    assert_eq!(out[1].content, vec![7, 8, 9]);
}

#[test]
fn oversized_fields_are_encoding_errors() {
    let mut long_name = meta("n");
    long_name.name = vec![b'n'; 101];
    assert_eq!(
        encode_header(&long_name, 0).unwrap_err(),
        TarError::EncodingError
    );
    let ok = meta("n");
    assert_eq!(
        encode_header(&ok, 0o100000000000).unwrap_err(),
        TarError::EncodingError
    );
    let mut bad_mode = meta("n");
    bad_mode.mode = 0o10000000;
    let r = create_archive(&vec![MemberFile {
        meta: bad_mode,
        content: vec![1],
    }]);
    assert_eq!(r.unwrap_err(), TarError::EncodingError);
}

#[test]
fn scanner_stops_at_zero_block_and_skips_bodies() {
    // a member whose content is all zero bytes must not end the scan early
    let files = vec![member("zeros", vec![0u8; 700]), member("tail", vec![5])];
    let archive = create_archive(&files).unwrap();
    let records = get_archive_files(&archive).unwrap();
    assert_eq!(records.len(), 2);
    assert_eq!(records[1].name, b"tail".to_vec());
}

#[test]
fn append_equals_create_of_concatenation() {
    let first = vec![member("x.txt", vec![1; 5])];
    let second = vec![member("y.txt", vec![2; 600])];
    let mut both = first.clone();
    both.extend(second.iter().cloned());
    let appended = append_to_archive(&create_archive(&first).unwrap(), &second).unwrap();
    assert_eq!(appended, create_archive(&both).unwrap());
}

#[test]
fn archive_ends_with_zero_end_marker() {
    let archive = create_archive(&vec![member("x.txt", vec![3; 7])]).unwrap();
    assert_eq!(archive.len() % 512, 0);
    assert!(archive[archive.len() - 1024..].iter().all(|&b| b == 0));
}

#[test]
fn truncated_archive_is_malformed() {
    let archive = create_archive(&vec![member("x", vec![1; 10])]).unwrap();
    // cut off the end marker and part of the member
    let cut = archive[..archive.len() - 1536].to_vec();
    let r = get_archive_files(&cut);
    assert_eq!(r.unwrap_err(), TarError::MalformedArchiveError);
}
