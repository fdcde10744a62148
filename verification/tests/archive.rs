use aos_archive::pack::pack_directory;
use aos_archive::schema::{
    decode_entry, decode_header, encode_entry, encode_header, filename_to_string,
    string_to_filename, AosV2Entry, AosV2Hdr, ArchiveFile,
};
use aos_archive::unpack::unpack_archive;
use aos_archive::AosError;

fn file(name: &str, data: &[u8]) -> ArchiveFile {
    ArchiveFile { name: String::from(name), data: data.to_vec() }
}

#[test]
fn header_round_trip() {
    let mut name = vec![0u8; 261];
    name[0] = b'x';
    name[1] = b'.';
    name[2] = b'a';
    let h = AosV2Hdr {
        unknown1: 0xDEAD_BEEF,
        data_offset: 353,
        toc_length: 80,
        archive_name: name.clone(),
    };
    let bytes = encode_header(&h);
    assert_eq!(bytes.len(), 273);
    let back = decode_header(&bytes).unwrap();
    assert_eq!(back.unknown1, 0xDEAD_BEEF);
    assert_eq!(back.data_offset, 353);
    assert_eq!(back.toc_length, 80);
    assert_eq!(back.archive_name, name);
}

#[test]
fn header_encodes_little_endian() {
    let h = AosV2Hdr {
        unknown1: 1,
        data_offset: 0x0102_0304,
        toc_length: 40,
        archive_name: vec![0u8; 261],
    };
    let bytes = encode_header(&h);
    assert_eq!(&bytes[0..4], &[1, 0, 0, 0]);
    assert_eq!(&bytes[4..8], &[0x04, 0x03, 0x02, 0x01]);
    assert_eq!(&bytes[8..12], &[40, 0, 0, 0]);
    assert!(bytes[12..].iter().all(|&b| b == 0));
}

#[test]
fn entry_round_trip() {
    let buf = string_to_filename("hello.txt").unwrap();
    let e = AosV2Entry { filename: buf.clone(), offset: 7, length: 9 };
    let bytes = encode_entry(&e);
    assert_eq!(bytes.len(), 40);
    let back = decode_entry(&bytes).unwrap();
    assert_eq!(back.filename, buf);
    assert_eq!(back.offset, 7);
    assert_eq!(back.length, 9);
}

#[test]
fn decode_header_rejects_short_input() {
    assert_eq!(decode_header(&[0u8; 272]), Err(AosError::TruncatedInput));
    assert_eq!(decode_entry(&[0u8; 39]), Err(AosError::TruncatedInput));
}

#[test]
fn filename_buffer_boundary() {
    let just_fits = "a".repeat(31);
    let buf = string_to_filename(&just_fits).unwrap();
    assert_eq!(buf.len(), 32);
    assert_eq!(&buf[..31], just_fits.as_bytes());
    assert_eq!(buf[31], 0);

    let too_long = "a".repeat(32);
    assert_eq!(string_to_filename(&too_long), Err(AosError::FilenameTooLong));
    let way_too_long = "a".repeat(100);
    assert_eq!(string_to_filename(&way_too_long), Err(AosError::FilenameTooLong));
}

#[test]
fn filename_decodes_up_to_null() {
    let mut buf = vec![0u8; 32];
    buf[..5].copy_from_slice(b"ab.cd");
    buf[6] = b'z'; // bytes after the terminator are ignored
    let s = filename_to_string(&buf).unwrap();
    assert_eq!(s, "ab.cd");
}

#[test]
fn filename_decodes_multibyte_utf8() {
    let mut buf = vec![0u8; 32];
    let name = "h\u{e9}llo.bin";
    buf[..name.len()].copy_from_slice(name.as_bytes());
    let e = AosV2Entry { filename: buf, offset: 0, length: 0 };
    assert_eq!(e.get_filename_str().unwrap(), name);
}

#[test]
fn filename_rejects_invalid_utf8() {
    let mut buf = vec![0u8; 32];
    buf[0] = 0xFF;
    buf[1] = 0xFE;
    let e = AosV2Entry { filename: buf, offset: 0, length: 0 };
    assert_eq!(e.get_filename_str(), Err(AosError::InvalidFilename));
}

#[test]
fn filename_with_no_null_uses_whole_buffer() {
    let buf = vec![b'x'; 32];
    let s = filename_to_string(&buf).unwrap();
    assert_eq!(s, "x".repeat(32));
}

#[test]
fn pack_two_files_scenario() {
    let files = vec![file("a.txt", b"abcd"), file("b.bin", &[0x01, 0x02])];
    let bytes = pack_directory(&files, "testdir").unwrap();
    assert_eq!(bytes.len(), 273 + 80 + 6);

    let header = decode_header(&bytes).unwrap();
    assert_eq!(header.unknown1, 0);
    assert_eq!(header.toc_length, 80);
    assert_eq!(header.data_offset, 353);
    assert_eq!(&header.archive_name[..11], b"testdir.aos");
    assert!(header.archive_name[11..].iter().all(|&b| b == 0));

    let e0 = decode_entry(&bytes[273..313]).unwrap();
    assert_eq!(e0.get_filename_str().unwrap(), "a.txt");
    assert_eq!(e0.offset, 0);
    assert_eq!(e0.length, 4);
    let e1 = decode_entry(&bytes[313..353]).unwrap();
    assert_eq!(e1.get_filename_str().unwrap(), "b.bin");
    assert_eq!(e1.offset, 4);
    assert_eq!(e1.length, 2);

    assert_eq!(&bytes[353..], &[0x61, 0x62, 0x63, 0x64, 0x01, 0x02]);

    let out = unpack_archive(&bytes).unwrap();
    assert_eq!(out.len(), 2);
    assert_eq!(out[0].name, "a.txt");
    assert_eq!(out[0].data, b"abcd");
    assert_eq!(out[1].name, "b.bin");
    assert_eq!(out[1].data, &[0x01, 0x02]);
}

#[test]
fn pack_toc_length_is_count_times_entry_size() {
    for n in 1..5usize {
        let files: Vec<ArchiveFile> =
            (0..n).map(|i| file(&format!("f{i}"), &[i as u8; 3])).collect();
        let bytes = pack_directory(&files, "d").unwrap();
        let header = decode_header(&bytes).unwrap();
        assert_eq!(header.toc_length as usize, n * 40);
    }
}

#[test]
fn pack_empty_list_is_an_error() {
    let files: Vec<ArchiveFile> = Vec::new();
    assert_eq!(pack_directory(&files, "d"), Err(AosError::EmptyDirectory));
}

#[test]
fn pack_rejects_long_filename() {
    let files = vec![file("ok.txt", b"x"), file(&"b".repeat(32), b"y")];
    assert_eq!(pack_directory(&files, "d"), Err(AosError::FilenameTooLong));
    let files = vec![file(&"c".repeat(31), b"x")];
    assert!(pack_directory(&files, "d").is_ok());
}

#[test]
fn pack_truncates_long_archive_name() {
    let files = vec![file("a", b"z")];
    let long_dir = "d".repeat(300);
    let bytes = pack_directory(&files, &long_dir).unwrap();
    let header = decode_header(&bytes).unwrap();
    assert_eq!(header.archive_name.len(), 261);
    assert_eq!(&header.archive_name[..260], "d".repeat(260).as_bytes());
    assert_eq!(header.archive_name[260], 0);
}

#[test]
fn pack_unpack_round_trip_many_files() {
    let files = vec![
        file("one.txt", b"first file"),
        file("two.bin", &[0, 1, 2, 3, 254, 255]),
        file("empty", b""),
        file("last.dat", &[42; 1000]),
    ];
    let bytes = pack_directory(&files, "dir").unwrap();
    let out = unpack_archive(&bytes).unwrap();
    assert_eq!(out.len(), files.len());
    for (orig, back) in files.iter().zip(out.iter()) {
        assert_eq!(orig.name, back.name);
        assert_eq!(orig.data, back.data);
    }
}

#[test]
fn unpack_rejects_short_header() {
    assert_eq!(unpack_archive(&[]), Err(AosError::TruncatedInput));
    assert_eq!(unpack_archive(&[7u8; 272]), Err(AosError::TruncatedInput));
}

fn header_bytes(toc_length: u32) -> Vec<u8> {
    let h = AosV2Hdr {
        unknown1: 0,
        data_offset: 0,
        toc_length,
        archive_name: vec![0u8; 261],
    };
    encode_header(&h)
}

#[test]
fn unpack_rejects_misaligned_toc() {
    // 41 is not a multiple of the 40-byte entry size.
    let mut bytes = header_bytes(41);
    bytes.extend_from_slice(&[0u8; 100]);
    assert_eq!(unpack_archive(&bytes), Err(AosError::MalformedToc));
}

#[test]
fn unpack_rejects_missing_toc_bytes() {
    // The header promises one entry but only half of it follows.
    let mut bytes = header_bytes(40);
    bytes.extend_from_slice(&[0u8; 20]);
    assert_eq!(unpack_archive(&bytes), Err(AosError::TruncatedInput));
}

#[test]
fn unpack_rejects_entry_past_end_of_data() {
    let mut bytes = header_bytes(40);
    let e = AosV2Entry {
        filename: string_to_filename("f.bin").unwrap(),
        offset: 0,
        length: 100,
    };
    bytes.extend_from_slice(&encode_entry(&e));
    bytes.extend_from_slice(&[9u8; 99]); // one byte short
    assert_eq!(unpack_archive(&bytes), Err(AosError::TruncatedData));
}

#[test]
fn unpack_rejects_invalid_stored_filename() {
    let mut bytes = header_bytes(40);
    let mut bad_name = vec![0u8; 32];
    bad_name[0] = 0xC0; // never valid in UTF-8
    let e = AosV2Entry { filename: bad_name, offset: 0, length: 0 };
    bytes.extend_from_slice(&encode_entry(&e));
    assert_eq!(unpack_archive(&bytes), Err(AosError::InvalidFilename));
}

#[test]
fn unpack_honours_each_entrys_own_offset() {
    // Entries stored out of order and overlapping: each is read at its own
    // offset and length, no contiguity assumed.
    let mut bytes = header_bytes(80);
    let e0 = AosV2Entry {
        filename: string_to_filename("tail").unwrap(),
        offset: 3,
        length: 3,
    };
    let e1 = AosV2Entry {
        filename: string_to_filename("head").unwrap(),
        offset: 0,
        length: 4,
    };
    bytes.extend_from_slice(&encode_entry(&e0));
    bytes.extend_from_slice(&encode_entry(&e1));
    bytes.extend_from_slice(b"abcdef");
    let out = unpack_archive(&bytes).unwrap();
    assert_eq!(out[0].name, "tail");
    assert_eq!(out[0].data, b"def");
    assert_eq!(out[1].name, "head");
    assert_eq!(out[1].data, b"abcd");
}
