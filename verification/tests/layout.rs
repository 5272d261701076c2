//! The byte layout, the file names, the checksum and the messages.

use body_store::bytes::{push_le, read_le};
use body_store::error::{BodyStoreError, IoError, IoErrorKind};
use body_store::format::{
    check_file_header, decode_body_header, encode_body_header, file_header, BodyHeader,
    BODY_HEADER_SIZE, DEFAULT_SEGMENT_SIZE, FILE_HEADER_SIZE, TOAST_VERSION,
};
use body_store::job::BodyId;
use body_store::names::{segment_file_name, segment_seq, segment_seqs};
use body_store::scan::{scan_segment, ReadAt, SegmentScanner};
use body_store::store::{check_body, BodyStore};
use body_store::text::{parse_u64, push_decimal, push_decimal_padded, push_hex};

/// The checksum of `bytes`, as a store records it.
fn recorded_crc(bytes: &[u8]) -> u32 {
    let mut bs = BodyStore::open(&Vec::new(), DEFAULT_SEGMENT_SIZE).finish();
    let write = bs.write_body(bytes);
    decode_body_header(&write.header).crc
}

/// CRC-32 (IEEE), bit by bit.
fn crc_by_bits(bytes: &[u8]) -> u32 {
    let mut c: u32 = 0xFFFF_FFFF;
    for b in bytes {
        c ^= *b as u32;
        for _ in 0..8 {
            c = if c & 1 == 1 { (c >> 1) ^ 0xEDB8_8320 } else { c >> 1 };
        }
    }
    !c
}

#[test]
fn sizes_and_version() {
    assert_eq!(FILE_HEADER_SIZE, 16);
    assert_eq!(BODY_HEADER_SIZE, 20);
    assert_eq!(TOAST_VERSION, 1);
    assert_eq!(DEFAULT_SEGMENT_SIZE, 67_108_864);
}

#[test]
fn checksums_of_known_strings() {
    assert_eq!(recorded_crc(b""), 0);
    assert_eq!(recorded_crc(b"123456789"), 0xCBF4_3926);
    assert_eq!(recorded_crc(b"hello world"), 0x0D4A_1185);
    let long: Vec<u8> = (0..1024).map(|i: usize| (i % 256) as u8).collect();
    assert_eq!(recorded_crc(&long), 0xB70B_4C26);
}

#[test]
fn checksum_is_the_bitwise_division_at_every_length() {
    let mut x: u32 = 12345;
    let mut bytes: Vec<u8> = Vec::new();
    for _ in 0..700 {
        assert_eq!(recorded_crc(&bytes), crc_by_bits(&bytes));
        x = x.wrapping_mul(1_664_525).wrapping_add(1_013_904_223);
        bytes.push((x >> 24) as u8);
    }
}

#[test]
fn checked_body_is_handed_out_unchanged() {
    assert_eq!(check_body(BodyId(1), 7, 7, vec![1, 2, 3]).unwrap(), [1, 2, 3]);
    match check_body(BodyId(1), 7, 8, vec![1, 2, 3]) {
        Err(BodyStoreError::BadCrc { expected, found, body_id }) => {
            assert_eq!((expected, found, body_id), (7, 8, BodyId(1)));
        }
        other => panic!("expected BadCrc, got {:?}", other),
    }
}

#[test]
fn reading_an_unknown_id_is_not_found() {
    let bs = BodyStore::open(&Vec::new(), 100).finish();
    match bs.read_body(BodyId(4), &[0; 20], vec![1]) {
        Err(BodyStoreError::NotFound(id)) => assert_eq!(id, BodyId(4)),
        other => panic!("expected NotFound, got {:?}", other),
    }
}

#[test]
fn file_header_bytes_are_fixed() {
    let header = file_header();
    assert_eq!(header, [b'T', b'B', b'O', b'D', 1, 0, 0, 0, 0, 0, 0, 0, 0, 0, 0, 0]);
    assert!(check_file_header(&header).is_ok());
}

#[test]
fn reserved_bytes_of_the_file_header_are_ignored() {
    let mut header = file_header();
    header[8..16].copy_from_slice(&[0xFF; 8]);
    assert!(check_file_header(&header).is_ok());
}

#[test]
fn each_magic_byte_is_checked() {
    for i in 0..4 {
        let mut header = file_header();
        header[i] ^= 1;
        // The magic is looked at before the version.
        header[4] = 9;
        assert!(matches!(check_file_header(&header), Err(BodyStoreError::BadMagic)));
    }
}

#[test]
fn version_is_little_endian() {
    let mut header = file_header();
    header[4..8].copy_from_slice(&[1, 2, 3, 4]);
    match check_file_header(&header) {
        Err(BodyStoreError::BadVersion(v)) => assert_eq!(v, 0x0403_0201),
        other => panic!("expected BadVersion, got {:?}", other),
    }
}

#[test]
fn body_header_round_trip() {
    let h = BodyHeader { body_id: BodyId(0x0807_0605_0403_0201), len: 0x0C0B_0A09, crc: 0x100F_0E0D };
    let mut bytes = encode_body_header(h);
    let expected: Vec<u8> = (1..17).chain([0, 0, 0, 0]).collect();
    assert_eq!(bytes, expected);
    assert_eq!(decode_body_header(&bytes), h);
    bytes[16..20].copy_from_slice(&[0xFF; 4]);
    assert_eq!(decode_body_header(&bytes), h);
}

#[test]
fn little_endian_integers() {
    let mut out = vec![0xAAu8];
    push_le(&mut out, 0x0102_0304, 4);
    assert_eq!(out, [0xAA, 4, 3, 2, 1]);
    assert_eq!(read_le(&out, 1, 4), 0x0102_0304);
    assert_eq!(read_le(&[0xFF; 8], 0, 8), u64::MAX);
}

#[test]
fn file_names_have_at_least_six_digits() {
    assert_eq!(segment_file_name(0), "body.000000");
    assert_eq!(segment_file_name(7), "body.000007");
    assert_eq!(segment_file_name(123456), "body.123456");
    assert_eq!(segment_file_name(1234567), "body.1234567");
    assert_eq!(segment_file_name(u64::MAX), "body.18446744073709551615");
}

#[test]
fn file_names_tell_their_number() {
    for seq in [0, 1, 9, 10, 999_999, 1_000_000, u64::MAX - 1, u64::MAX] {
        assert_eq!(segment_seq(&segment_file_name(seq)), Some(seq));
    }
}

#[test]
fn file_names_are_read_as_integers() {
    assert_eq!(segment_seq("body.5"), Some(5));
    assert_eq!(segment_seq("body.+5"), Some(5));
    assert_eq!(segment_seq("body.0000000000000000000000005"), Some(5));
    assert_eq!(segment_seq("body.18446744073709551615"), Some(u64::MAX));
    assert_eq!(segment_seq("body.18446744073709551616"), None);
    assert_eq!(segment_seq("body."), None);
    assert_eq!(segment_seq("body.+"), None);
    assert_eq!(segment_seq("body.++1"), None);
    assert_eq!(segment_seq("body.-1"), None);
    assert_eq!(segment_seq("body. 1"), None);
    assert_eq!(segment_seq("body.1x"), None);
    assert_eq!(segment_seq("body.1_000"), None);
    assert_eq!(segment_seq("Body.1"), None);
    assert_eq!(segment_seq("body1"), None);
    assert_eq!(segment_seq("body"), None);
    assert_eq!(segment_seq(""), None);
    assert_eq!(segment_seq("body.\u{661}"), None);
}

#[test]
fn numbers_of_a_directory_are_sorted_and_single() {
    let names: Vec<String> = ["body.000010", "notes", "body.000002", "body.2", "body.000007"]
        .iter()
        .map(|s| s.to_string())
        .collect();
    assert_eq!(segment_seqs(&names), [2, 7, 10]);
    assert_eq!(segment_seqs(&Vec::new()), []);
}

#[test]
fn numbers_as_text() {
    let mut out = String::from("n=");
    push_decimal(&mut out, 0);
    push_decimal(&mut out, 1203);
    assert_eq!(out, "n=01203");
    let mut out = String::new();
    push_decimal_padded(&mut out, 42, 6);
    assert_eq!(out, "000042");
    let mut out = String::new();
    push_hex(&mut out, 0xDEAD_BEEF, 8);
    push_hex(&mut out, 0x1F, 8);
    assert_eq!(out, "deadbeef0000001f");
    let digits: Vec<char> = "ab77".chars().collect();
    assert_eq!(parse_u64(&digits, 2), Some(77));
    assert_eq!(parse_u64(&digits, 1), None);
    assert_eq!(parse_u64(&digits, 4), None);
}

#[test]
fn messages_tell_what_happened() {
    let io = IoError { kind: IoErrorKind::Other, message: "disk full".to_string() };
    assert_eq!(BodyStoreError::from(io).message(), "TOAST I/O: disk full");
    assert_eq!(BodyStoreError::BadMagic.message(), "TOAST bad magic");
    assert_eq!(BodyStoreError::BadVersion(12).message(), "TOAST bad version: 12");
    assert_eq!(
        BodyStoreError::BadCrc { expected: 0xAB, found: 0xFFFF_0000, body_id: BodyId(31) }.message(),
        "TOAST CRC mismatch for body 31: expected 000000ab, got ffff0000"
    );
    assert_eq!(BodyStoreError::NotFound(BodyId(7)).message(), "TOAST body 7 not found");
}

#[test]
fn short_file_is_invalid_data() {
    for len in 1..16 {
        match scan_segment(&vec![0; len]) {
            Err(BodyStoreError::Io(e)) => {
                assert_eq!(e.kind, IoErrorKind::InvalidData);
                assert_eq!(e.message, "TOAST segment file shorter than file header");
            }
            other => panic!("expected an I/O error, got {:?}", other),
        }
    }
}

#[test]
fn file_without_bytes_holds_nothing() {
    let scan = scan_segment(&[]).unwrap();
    assert!(scan.entries.is_empty());
    assert_eq!(scan.consumed, 0);
}

#[test]
fn scan_finds_the_records_in_order() {
    let mut image = file_header();
    for (id, body) in [(9u64, "abc"), (4, ""), (5, "defgh")] {
        let h = BodyHeader { body_id: BodyId(id), len: body.len() as u32, crc: 0 };
        image.extend(encode_body_header(h));
        image.extend_from_slice(body.as_bytes());
    }
    let scan = scan_segment(&image).unwrap();
    let found: Vec<(u64, u64, u32)> =
        scan.entries.iter().map(|e| (e.body_id.0, e.body_offset, e.len)).collect();
    assert_eq!(found, [(9, 36, 3), (4, 59, 0), (5, 79, 5)]);
    assert_eq!(scan.consumed, 84);
    assert_eq!(scan.consumed as usize, image.len());
}

#[test]
fn incomplete_record_ends_the_scan() {
    let mut image = file_header();
    let h = BodyHeader { body_id: BodyId(1), len: 3, crc: 0 };
    image.extend(encode_body_header(h));
    image.extend_from_slice(b"abc");
    image.extend(encode_body_header(BodyHeader { body_id: BodyId(2), len: 100, crc: 0 }));
    image.extend_from_slice(&[0; 99]);
    let scan = scan_segment(&image).unwrap();
    assert_eq!(scan.entries.len(), 1);
    assert_eq!(scan.consumed, 39);
    image.push(0);
    let scan = scan_segment(&image).unwrap();
    assert_eq!(scan.entries.len(), 2);
    assert_eq!(scan.consumed, 159);
}

#[test]
fn scan_reads_headers_only() {
    let mut scanner = SegmentScanner::begin(16 + 20 + 1_000_000 + 7).unwrap();
    assert_eq!(scanner.next_read(), Some(ReadAt { offset: 0, len: 16 }));
    scanner.supply(&file_header()).unwrap();
    assert_eq!(scanner.next_read(), Some(ReadAt { offset: 16, len: 20 }));
    let h = BodyHeader { body_id: BodyId(3), len: 1_000_000, crc: 0 };
    scanner.supply(&encode_body_header(h)).unwrap();
    assert_eq!(scanner.next_read(), None);
    let scan = scanner.finish();
    assert_eq!(scan.entries.len(), 1);
    assert_eq!(scan.consumed, 1_000_036);
}
