use future2_utils::cursor::Reader;
use future2_utils::error::{CodecError, Warning};
use future2_utils::s10str::{
    decode_s10str, decode_title, encode_s10str, encode_title, S10StrEntry, S10StrFile,
    S10StrFileDescriptor,
};

fn entry(title: &str, payload: &[u8]) -> S10StrEntry {
    S10StrEntry { title: title.to_string(), payload: payload.to_vec() }
}

// One entry, "hi" with the payload AA: the count, the title padded to 520
// bytes, then the start 4 + 528 = 0x214, the size 1, and the payload.
fn hi_archive() -> Vec<u8> {
    let mut bytes: Vec<u8> = vec![0x01, 0x00, 0x00, 0x00, 0x68, 0x00, 0x69, 0x00];
    bytes.extend_from_slice(&[0u8; 516]);
    bytes.extend_from_slice(&[0x14, 0x02, 0x00, 0x00, 0x01, 0x00, 0x00, 0x00, 0xAA]);
    bytes
}

#[test]
fn s10str_encodes_a_padded_title() {
    let bytes = encode_s10str(&vec![entry("hi", &[0xAA])]).unwrap();
    assert_eq!(bytes.len(), 4 + 528 + 1);
    assert_eq!(bytes, hi_archive());
}

#[test]
fn s10str_decoding_recovers_the_title() {
    let found = decode_s10str(&hi_archive()).unwrap();
    assert_eq!(found.entries, vec![entry("hi", &[0xAA])]);
    assert_eq!(found.warnings, Vec::<Warning>::new());
}

#[test]
fn s10str_title_is_recovered_wherever_the_member_starts() {
    let mut bytes = hi_archive();
    // a start of 0x20C names the last byte of the title and the three after it
    bytes[524] = 0x0C;
    let found = decode_s10str(&bytes).unwrap();
    assert_eq!(found.entries.len(), 1);
    assert_eq!(found.entries[0].title, "hi");
    assert_eq!(found.entries[0].payload, vec![0x0C]);
}

#[test]
fn s10str_round_trip_of_several_entries() {
    let entries = vec![
        entry("", &[]),
        entry("track one", &[1, 2, 3]),
        entry("日本語のタイトル", &[0xFF; 100]),
        entry("clef \u{1D11E} and face \u{1F600}", &[9]),
        entry("inner\0nul", &[4, 5]),
    ];
    let bytes = encode_s10str(&entries).unwrap();
    assert_eq!(bytes.len(), 4 + 528 * 5 + 106);
    let found = decode_s10str(&bytes).unwrap();
    assert_eq!(found.entries, entries);
    assert_eq!(found.warnings, Vec::<Warning>::new());
}

#[test]
fn s10str_with_zero_entries_is_four_bytes() {
    let bytes = encode_s10str(&Vec::new()).unwrap();
    assert_eq!(bytes, vec![0, 0, 0, 0]);
    assert_eq!(decode_s10str(&bytes).unwrap().entries, Vec::<S10StrEntry>::new());
}

#[test]
fn title_of_260_units_is_accepted_and_261_refused() {
    let fits: String = "a".repeat(260);
    let field = encode_title(&fits).unwrap();
    assert_eq!(field[518], b'a');
    assert_eq!(field[519], 0);
    assert_eq!(decode_title(&field), Ok(fits.clone()));
    let bytes = encode_s10str(&vec![entry(&fits, &[1])]).unwrap();
    assert_eq!(decode_s10str(&bytes).unwrap().entries, vec![entry(&fits, &[1])]);

    let too_long: String = "a".repeat(261);
    assert_eq!(encode_title(&too_long), Err(CodecError::TitleTooLong));
    assert_eq!(
        encode_s10str(&vec![entry("ok", &[]), entry(&too_long, &[1])]),
        Err(CodecError::TitleTooLong)
    );
}

#[test]
fn title_length_counts_surrogate_pairs_as_two_units() {
    // 130 characters of four bytes each: exactly 520 bytes
    let fits: String = "\u{1F600}".repeat(130);
    assert!(encode_title(&fits).is_ok());
    let too_long: String = "\u{1F600}".repeat(129) + "abc";
    assert_eq!(encode_title(&too_long), Err(CodecError::TitleTooLong));
}

#[test]
fn title_is_encoded_as_utf16le() {
    let field = encode_title("h\u{E9}\u{20AC}\u{10000}\u{1F600}\u{10FFFF}").unwrap();
    assert_eq!(
        &field[..18],
        &[
            0x68, 0x00, 0xE9, 0x00, 0xAC, 0x20, 0x00, 0xD8, 0x00, 0xDC, 0x3D, 0xD8, 0x00, 0xDE,
            0xFF, 0xDB, 0xFF, 0xDF, 
        ]
    );
    assert!(field[18..].iter().all(|b| *b == 0));
    assert_eq!(field.len(), 520);
    assert_eq!(
        decode_title(&field),
        Ok("h\u{E9}\u{20AC}\u{10000}\u{1F600}\u{10FFFF}".to_string())
    );
}

#[test]
fn title_keeps_the_edges_of_the_surrogate_range() {
    let text = "\u{D7FF}\u{E000}\u{FFFF}";
    let field = encode_title(text).unwrap();
    assert_eq!(&field[..6], &[0xFF, 0xD7, 0x00, 0xE0, 0xFF, 0xFF]);
    assert_eq!(decode_title(&field), Ok(text.to_string()));
}

#[test]
fn trailing_nuls_of_a_title_are_trimmed() {
    assert_eq!(decode_title(&[0x68, 0, 0x69, 0, 0, 0, 0, 0]), Ok("hi".to_string()));
    assert_eq!(decode_title(&[0x68, 0, 0, 0, 0x69, 0, 0, 0]), Ok("h\0i".to_string()));
    assert_eq!(decode_title(&[0, 0, 0, 0]), Ok(String::new()));
    assert_eq!(decode_title(&[]), Ok(String::new()));
    // a title that ends in U+0000 cannot be told from its padding
    let bytes = encode_s10str(&vec![entry("a\0", &[])]).unwrap();
    assert_eq!(decode_s10str(&bytes).unwrap().entries, vec![entry("a", &[])]);
}

#[test]
fn invalid_utf16_title_is_refused() {
    // a lone low surrogate
    assert_eq!(decode_title(&[0x00, 0xDC, 0x68, 0x00]), Err(CodecError::InvalidUtf16));
    // a high surrogate without its low one
    assert_eq!(decode_title(&[0x00, 0xD8, 0x68, 0x00]), Err(CodecError::InvalidUtf16));
    // a high surrogate at the end
    assert_eq!(decode_title(&[0x68, 0x00, 0x00, 0xD8]), Err(CodecError::InvalidUtf16));
    // an odd number of bytes
    assert_eq!(decode_title(&[0x68, 0x00, 0x69]), Err(CodecError::InvalidUtf16));

    let mut bytes = hi_archive();
    bytes[4] = 0x00;
    bytes[5] = 0xDC;
    assert_eq!(decode_s10str(&bytes).err(), Some(CodecError::InvalidUtf16));
}

#[test]
fn s10str_title_is_looked_at_before_the_member() {
    let mut bytes = hi_archive();
    // the member now reaches beyond the archive
    bytes[528] = 0x02;
    assert_eq!(decode_s10str(&bytes).err(), Some(CodecError::OffsetOutOfRange));
    // and the title is broken too
    bytes[5] = 0xDC;
    assert_eq!(decode_s10str(&bytes).err(), Some(CodecError::InvalidUtf16));
}

#[test]
fn s10str_truncated_header_is_reported() {
    let bytes = hi_archive();
    assert_eq!(decode_s10str(&bytes[..3]).err(), Some(CodecError::TruncatedInput));
    assert_eq!(decode_s10str(&bytes[..531]).err(), Some(CodecError::TruncatedInput));
    assert_eq!(decode_s10str(&bytes[..532]).err(), Some(CodecError::OffsetOutOfRange));
}

#[test]
fn s10str_overlapping_members_give_a_warning() {
    let mut bytes = encode_s10str(&vec![entry("a", &[1, 2]), entry("b", &[3, 4])]).unwrap();
    let second_start = 4 + 528 + 520;
    assert_eq!(bytes[second_start], bytes[520 + 4] + 2);
    bytes[second_start] -= 1;
    let found = decode_s10str(&bytes).unwrap();
    assert_eq!(found.warnings, vec![Warning::OverlappingMembers]);
    assert_eq!(found.entries[1].payload, vec![2, 3]);
}

#[test]
fn s10str_header_codec_round_trip() {
    let mut title = [0u8; 520];
    title[0] = 0x41;
    title[519] = 0x7F;
    let header = S10StrFile {
        file_descriptors: vec![S10StrFileDescriptor {
            title_u16le: title,
            start_at: 0x0102_0304,
            size: 5,
        }],
    };
    let bytes = header.encode().unwrap();
    assert_eq!(bytes.len(), 532);
    assert_eq!(&bytes[..5], &[1, 0, 0, 0, 0x41]);
    assert_eq!(&bytes[523..], &[0x7F, 0x04, 0x03, 0x02, 0x01, 5, 0, 0, 0]);
    let mut reader = Reader::new(&bytes);
    assert_eq!(S10StrFile::decode(&mut reader), Ok(header));
    assert_eq!(reader.position(), 532);
}
