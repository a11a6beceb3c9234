use future2_utils::archive::{check_table, extract, overlapping, place, xor_bytes, Span};
use future2_utils::bigfile::{
    decode_bigfile, encode_bigfile, pack_bitmaps, unpack_bitmaps, BigFile, BigFileDescriptor,
};
use future2_utils::cursor::Reader;
use future2_utils::error::{CodecError, Warning};

fn two_members() -> Vec<Vec<u8>> {
    vec![vec![0x00, 0xFF], vec![0x10, 0x20, 0x30]]
}

fn two_member_archive() -> Vec<u8> {
    vec![
        0x02, 0x00, 0x00, 0x00, 0x29, 0x15, 0x00, 0x00, 0x00, 0x02, 0x00, 0x00, 0x00, 0x17, 0x00,
        0x00, 0x00, 0x03, 0x00, 0x00, 0x00, 0x29, 0xD6, 0x39, 0x09, 0x19,
    ]
}

#[test]
fn bigfile_encodes_two_members() {
    assert_eq!(encode_bigfile(&two_members(), 0x29), Ok(two_member_archive()));
}

#[test]
fn bigfile_round_trip_recovers_members_and_key() {
    let found = decode_bigfile(&two_member_archive()).unwrap();
    assert_eq!(found.encrypt_key, 0x29);
    assert_eq!(found.members, two_members());
    assert_eq!(found.warnings, Vec::<Warning>::new());
}

#[test]
fn bigfile_round_trip_with_empty_members_and_other_keys() {
    let members: Vec<Vec<u8>> = vec![vec![], vec![1, 2, 3, 4, 5, 6, 7], vec![], vec![0xFF; 300]];
    for key in [0x00u8, 0x01, 0x7F, 0xFF] {
        let archive = encode_bigfile(&members, key).unwrap();
        assert_eq!(archive.len(), 5 + 8 * 4 + 307);
        let found = decode_bigfile(&archive).unwrap();
        assert_eq!(found.encrypt_key, key);
        assert_eq!(found.members, members);
        assert_eq!(found.warnings, Vec::<Warning>::new());
    }
}

#[test]
fn bigfile_with_zero_members_is_five_bytes() {
    let archive = encode_bigfile(&Vec::new(), 0x29).unwrap();
    assert_eq!(archive, vec![0x00, 0x00, 0x00, 0x00, 0x29]);
    let found = decode_bigfile(&archive).unwrap();
    assert_eq!(found.encrypt_key, 0x29);
    assert_eq!(found.members, Vec::<Vec<u8>>::new());
}

#[test]
fn bigfile_start_beyond_buffer_is_out_of_range() {
    let mut archive = two_member_archive();
    // the second member now starts at 0x117
    archive[14] = 0x01;
    assert_eq!(decode_bigfile(&archive).err(), Some(CodecError::OffsetOutOfRange));
}

#[test]
fn bigfile_size_beyond_buffer_is_out_of_range() {
    let mut archive = two_member_archive();
    archive[17] = 0x04;
    assert_eq!(decode_bigfile(&archive).err(), Some(CodecError::OffsetOutOfRange));
    archive[17] = 0x03;
    assert!(decode_bigfile(&archive).is_ok());
}

#[test]
fn bigfile_truncated_header_is_reported() {
    let archive = two_member_archive();
    assert_eq!(decode_bigfile(&archive[..4]).err(), Some(CodecError::TruncatedInput));
    assert_eq!(decode_bigfile(&archive[..20]).err(), Some(CodecError::TruncatedInput));
    assert_eq!(decode_bigfile(&[]).err(), Some(CodecError::TruncatedInput));
}

#[test]
fn bigfile_overlapping_members_give_a_warning() {
    let mut archive = two_member_archive();
    // the second member now starts at 0x16, inside the first
    archive[13] = 0x16;
    let found = decode_bigfile(&archive).unwrap();
    assert_eq!(found.warnings, vec![Warning::OverlappingMembers]);
    assert_eq!(found.members[0], vec![0x00, 0xFF]);
    assert_eq!(found.members[1], vec![0xFF, 0x10, 0x20]);
}

#[test]
fn bigfile_header_codec_round_trip() {
    let header = BigFile {
        encrypt_key: 7,
        file_descriptors: vec![
            BigFileDescriptor { start_at: 0x0102_0304, size: 0xA0B0_C0D0 },
            BigFileDescriptor { start_at: 1, size: 2 },
        ],
    };
    let bytes = header.encode().unwrap();
    assert_eq!(
        bytes,
        vec![2, 0, 0, 0, 7, 0x04, 0x03, 0x02, 0x01, 0xD0, 0xC0, 0xB0, 0xA0, 1, 0, 0, 0, 2, 0, 0, 0]
    );
    let mut reader = Reader::new(&bytes);
    assert_eq!(BigFile::decode(&mut reader), Ok(header));
    assert_eq!(reader.position(), 21);
}

#[test]
fn xor_is_its_own_inverse() {
    let data: Vec<u8> = (0..=255).collect();
    for key in [0u8, 0x29, 0xFF] {
        let once = xor_bytes(&data, key);
        assert_eq!(once[0x29], 0x29 ^ key);
        assert_eq!(xor_bytes(&once, key), data);
    }
    assert_eq!(xor_bytes(&[0x00, 0xFF, 0x10], 0x29), vec![0x29, 0xD6, 0x39]);
}

#[test]
fn place_lays_members_back_to_back() {
    let spans = place(21, &two_members()).unwrap();
    assert_eq!(
        spans,
        vec![Span { start_at: 21, size: 2 }, Span { start_at: 23, size: 3 }]
    );
    assert!(!overlapping(&spans));
    assert_eq!(check_table(&spans), Vec::<Warning>::new());
}

#[test]
fn place_refuses_what_32_bits_cannot_count() {
    assert_eq!(place(u32::MAX as usize - 4, &two_members()), Err(CodecError::Overflow));
    assert!(place(u32::MAX as usize - 5, &two_members()).is_ok());
}

#[test]
fn overlapping_sees_shared_bytes_only() {
    let touching = [Span { start_at: 0, size: 4 }, Span { start_at: 4, size: 4 }];
    assert!(!overlapping(&touching));
    let sharing = [Span { start_at: 0, size: 5 }, Span { start_at: 4, size: 4 }];
    assert!(overlapping(&sharing));
    let empty_inside = [Span { start_at: 0, size: 5 }, Span { start_at: 2, size: 0 }];
    assert!(!overlapping(&empty_inside));
    let out_of_order = [Span { start_at: 8, size: 4 }, Span { start_at: 0, size: 9 }];
    assert!(overlapping(&out_of_order));
    assert_eq!(check_table(&out_of_order), vec![Warning::OverlappingMembers]);
}

#[test]
fn extract_cuts_a_member_out() {
    let bytes = [1u8, 2, 3, 4, 5];
    assert_eq!(extract(&bytes, Span { start_at: 1, size: 3 }), Ok(vec![2, 3, 4]));
    assert_eq!(extract(&bytes, Span { start_at: 5, size: 0 }), Ok(vec![]));
    assert_eq!(
        extract(&bytes, Span { start_at: 3, size: 3 }),
        Err(CodecError::OffsetOutOfRange)
    );
    assert_eq!(
        extract(&bytes, Span { start_at: u32::MAX, size: u32::MAX }),
        Err(CodecError::OffsetOutOfRange)
    );
}

fn tiny_bmp() -> Vec<u8> {
    let mut bmp: Vec<u8> = vec![b'B', b'M', 58, 0, 0, 0, 0, 0, 0, 0, 54, 0, 0, 0];
    bmp.extend_from_slice(&[40, 0, 0, 0, 1, 0, 0, 0, 1, 0, 0, 0, 1, 0, 24, 0]);
    bmp.extend_from_slice(&[0; 24]);
    bmp.extend_from_slice(&[0x11, 0x22, 0x33, 0x00]);
    bmp
}

#[test]
fn pack_and_unpack_bitmaps_round_trip() {
    let files = vec![tiny_bmp(), tiny_bmp()];
    let archive = pack_bitmaps(&files, 0x29, false).unwrap();
    assert_eq!(archive.len(), 5 + 16 + 2 * 44);
    assert_eq!(archive[21], 40 ^ 0x29);
    assert_eq!(unpack_bitmaps(&archive), Ok(files));
}

#[test]
fn pack_raw_keeps_the_file_header() {
    let files = vec![tiny_bmp()];
    let archive = pack_bitmaps(&files, 0x29, true).unwrap();
    assert_eq!(archive.len(), 5 + 8 + 58);
    assert_eq!(decode_bigfile(&archive).unwrap().members, files);
}

#[test]
fn pack_leaves_nothing_of_a_file_shorter_than_its_header() {
    let files = vec![tiny_bmp(), vec![b'B', b'M', 0]];
    let archive = pack_bitmaps(&files, 0x29, false).unwrap();
    assert_eq!(decode_bigfile(&archive).unwrap().members, vec![tiny_bmp()[14..].to_vec(), vec![]]);
    let archive = pack_bitmaps(&files, 0x29, true).unwrap();
    assert_eq!(decode_bigfile(&archive).unwrap().members, files);
}

#[test]
fn unpack_refuses_a_member_without_an_info_header() {
    let archive = encode_bigfile(&vec![vec![1, 2, 3]], 0).unwrap();
    assert_eq!(unpack_bitmaps(&archive), Err(CodecError::TruncatedInput));
}
