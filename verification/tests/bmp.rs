use future2_utils::bmp::{
    encode_bmp_from_dib, strip_bmp_to_dib, BitmapFileHeader, BitmapInfoHeader,
};
use future2_utils::color::ImageColor;
use future2_utils::cursor::Reader;
use future2_utils::error::CodecError;

fn one_pixel_bmp() -> Vec<u8> {
    let mut bmp: Vec<u8> = vec![b'B', b'M', 58, 0, 0, 0, 0, 0, 0, 0, 54, 0, 0, 0];
    bmp.extend_from_slice(&[40, 0, 0, 0]);
    bmp.extend_from_slice(&[1, 0, 0, 0]);
    bmp.extend_from_slice(&[1, 0, 0, 0]);
    bmp.extend_from_slice(&[1, 0, 24, 0]);
    bmp.extend_from_slice(&[0, 0, 0, 0]);
    bmp.extend_from_slice(&[4, 0, 0, 0]);
    bmp.extend_from_slice(&[0x12, 0x0B, 0, 0]);
    bmp.extend_from_slice(&[0x12, 0x0B, 0, 0]);
    bmp.extend_from_slice(&[0, 0, 0, 0]);
    bmp.extend_from_slice(&[0, 0, 0, 0]);
    bmp.extend_from_slice(&[0x10, 0x20, 0x30, 0x00]);
    bmp
}

#[test]
fn bmp_stripped_and_wrapped_is_identical() {
    let bmp = one_pixel_bmp();
    assert_eq!(bmp.len(), 58);
    let dib = strip_bmp_to_dib(&bmp);
    assert_eq!(dib.len(), 44);
    assert_eq!(&dib[..], &bmp[14..]);
    assert_eq!(encode_bmp_from_dib(&dib), Ok(bmp));
}

#[test]
fn bmp_with_a_palette_round_trips() {
    let info = BitmapInfoHeader {
        width: 4,
        height: 1,
        bit_count: 8,
        compression: 0,
        size_image: 4,
        x_pels_per_meter: 2834,
        y_pels_per_meter: 2834,
        clr_important: 0,
        colorpalette: vec![
            ImageColor { b: 1, g: 2, r: 3, a: 0 },
            ImageColor { b: 4, g: 5, r: 6, a: 0 },
            ImageColor { b: 7, g: 8, r: 9, a: 0 },
        ],
    };
    let mut dib = info.encode().unwrap();
    assert_eq!(dib.len(), 40 + 12);
    dib.extend_from_slice(&[0, 1, 2, 1]);
    let bmp = encode_bmp_from_dib(&dib).unwrap();
    assert_eq!(&bmp[..14], &[b'B', b'M', 70, 0, 0, 0, 0, 0, 0, 0, 66, 0, 0, 0]);
    assert_eq!(strip_bmp_to_dib(&bmp), dib);
    let mut reader = Reader::new(&bmp);
    assert_eq!(
        BitmapFileHeader::decode(&mut reader),
        Ok(BitmapFileHeader { size: 70, off_bits: 14 + 40 + 4 * 3 })
    );
}

#[test]
fn strip_leaves_nothing_of_a_file_without_a_whole_header() {
    assert_eq!(strip_bmp_to_dib(&[]), Vec::<u8>::new());
    assert_eq!(strip_bmp_to_dib(&one_pixel_bmp()[..13]), Vec::<u8>::new());
    assert_eq!(strip_bmp_to_dib(&one_pixel_bmp()[..14]), Vec::<u8>::new());
    assert_eq!(strip_bmp_to_dib(&one_pixel_bmp()[..15]), vec![40]);
}

#[test]
fn strip_does_not_look_at_the_header() {
    let mut blob = one_pixel_bmp();
    blob[0] = b'X';
    assert_eq!(strip_bmp_to_dib(&blob), one_pixel_bmp()[14..].to_vec());
}

#[test]
fn wrap_refuses_a_dib_without_its_header_or_palette() {
    let dib = &one_pixel_bmp()[14..];
    assert_eq!(encode_bmp_from_dib(&dib[..39]), Err(CodecError::TruncatedInput));
    assert!(encode_bmp_from_dib(&dib[..40]).is_ok());
    let mut with_palette = dib.to_vec();
    // two palette entries are declared, one is there
    with_palette[32] = 2;
    assert_eq!(encode_bmp_from_dib(&with_palette), Err(CodecError::TruncatedInput));
    with_palette[32] = 1;
    let bmp = encode_bmp_from_dib(&with_palette).unwrap();
    assert_eq!(bmp[10], 58);
}

#[test]
fn file_header_encodes_to_14_bytes() {
    let header = BitmapFileHeader { size: 0x0102_0304, off_bits: 54 };
    let bytes = header.encode();
    assert_eq!(bytes, vec![0x42, 0x4D, 0x04, 0x03, 0x02, 0x01, 0, 0, 0, 0, 54, 0, 0, 0]);
    let mut reader = Reader::new(&bytes);
    assert_eq!(BitmapFileHeader::decode(&mut reader), Ok(header));
    assert_eq!(reader.position(), 14);
}

#[test]
fn file_header_with_wrong_magic_is_refused() {
    let mut bytes = BitmapFileHeader { size: 14, off_bits: 14 }.encode();
    bytes[1] = b'N';
    assert_eq!(BitmapFileHeader::decode(&mut Reader::new(&bytes)), Err(CodecError::BadMagic));
    assert_eq!(
        BitmapFileHeader::decode(&mut Reader::new(&[b'M', b'B'])),
        Err(CodecError::BadMagic)
    );
    assert_eq!(
        BitmapFileHeader::decode(&mut Reader::new(&[b'B'])),
        Err(CodecError::TruncatedInput)
    );
    assert_eq!(
        BitmapFileHeader::decode(&mut Reader::new(&[b'B', b'M', 1, 2, 3])),
        Err(CodecError::TruncatedInput)
    );
}

#[test]
fn info_header_round_trip_with_negative_height() {
    let info = BitmapInfoHeader {
        width: 640,
        height: -480,
        bit_count: 32,
        compression: 3,
        size_image: 640 * 480 * 4,
        x_pels_per_meter: -1,
        y_pels_per_meter: i32::MIN,
        clr_important: 9,
        colorpalette: vec![ImageColor { b: 1, g: 2, r: 3, a: 4 }],
    };
    let bytes = info.encode().unwrap();
    assert_eq!(bytes.len(), 44);
    assert_eq!(&bytes[0..4], &[40, 0, 0, 0]);
    assert_eq!(&bytes[4..8], &[0x80, 0x02, 0, 0]);
    assert_eq!(&bytes[8..12], &[0x20, 0xFE, 0xFF, 0xFF]);
    assert_eq!(&bytes[12..16], &[1, 0, 32, 0]);
    assert_eq!(&bytes[24..28], &[0xFF, 0xFF, 0xFF, 0xFF]);
    assert_eq!(&bytes[28..32], &[0, 0, 0, 0x80]);
    assert_eq!(&bytes[32..36], &[1, 0, 0, 0]);
    assert_eq!(&bytes[36..40], &[9, 0, 0, 0]);
    assert_eq!(&bytes[40..44], &[1, 2, 3, 4]);
    let mut reader = Reader::new(&bytes);
    assert_eq!(BitmapInfoHeader::decode(&mut reader), Ok(info));
    assert_eq!(reader.position(), 44);
}
