use future2_utils::color::{ColorMode, ImageColor};
use future2_utils::cursor::Reader;
use future2_utils::error::{CodecError, Warning};
use future2_utils::imagefile::{
    decode_imagefile, encode_imagefile, encode_rgba_image, ImageFile,
};
use future2_utils::pixels::{decode_pixels, rgb555_to_rgba};
use future2_utils::raster::Raster;

fn header(width: u32, height: u32, bit_depth: u16, palette: Vec<ImageColor>) -> ImageFile {
    let tagged = bit_depth == 4 || bit_depth == 8 || bit_depth == 24;
    let stride = match bit_depth {
        16 => (2 * width + 3) / 4 * 4,
        32 => 4 * width,
        _ => 0,
    };
    ImageFile {
        width,
        height,
        bit_depth,
        bitmap_image_size: stride * height,
        constant_2834_if_colorpalette_use_otherwise_0: if tagged { 2834 } else { 0 },
        colorpalette: palette,
    }
}

fn red_green() -> Vec<ImageColor> {
    vec![ImageColor { b: 0, g: 0, r: 255, a: 0 }, ImageColor { b: 0, g: 255, r: 0, a: 0 }]
}

fn three_colors() -> Vec<ImageColor> {
    vec![
        ImageColor { b: 1, g: 2, r: 3, a: 0 },
        ImageColor { b: 11, g: 12, r: 13, a: 255 },
        ImageColor { b: 21, g: 22, r: 23, a: 55 },
    ]
}

#[test]
fn imagefile_2x2_palette8_decodes_top_down() {
    let header = header(2, 2, 8, red_green());
    let rows: Vec<u8> = vec![0x00, 0x01, 0x00, 0x00, 0x01, 0x00, 0x00, 0x00];
    let bytes = encode_imagefile(&header, &rows).unwrap();
    let image = decode_imagefile(&bytes).unwrap();
    assert_eq!(image.header, header);
    assert_eq!(image.raster.width(), 2);
    assert_eq!(image.raster.height(), 2);
    assert_eq!(
        image.raster.as_bytes(),
        &[0, 255, 0, 255, 255, 0, 0, 255, 255, 0, 0, 255, 0, 255, 0, 255]
    );
    assert_eq!(image.warnings, Vec::<Warning>::new());
}

#[test]
fn imagefile_header_layout() {
    let header = ImageFile {
        width: 0x0102_0304,
        height: 0x0506_0708,
        bit_depth: 8,
        bitmap_image_size: 0x1112_1314,
        constant_2834_if_colorpalette_use_otherwise_0: 2834,
        colorpalette: three_colors(),
    };
    let bytes = header.encode().unwrap();
    let expected: Vec<u8> = vec![
        0x28, 0, 0, 0, 0x04, 0x03, 0x02, 0x01, 0x08, 0x07, 0x06, 0x05, 1, 0, 8, 0, 0, 0, 0, 0,
        0x14, 0x13, 0x12, 0x11, 0x12, 0x0B, 0, 0, 0x12, 0x0B, 0, 0, 3, 0, 0, 0, 3, 0, 0, 0, 1, 2,
        3, 0, 11, 12, 13, 255, 21, 22, 23, 55,
    ];
    assert_eq!(bytes, expected);
    assert_eq!(encode_imagefile(&header, &[9, 8, 7]).unwrap()[52..], [9, 8, 7]);
    let mut reader = Reader::new(&bytes);
    let (read, warnings) = ImageFile::decode(&mut reader).unwrap();
    assert_eq!(read, header);
    assert_eq!(warnings, Vec::<Warning>::new());
    assert_eq!(reader.position(), 52);
}

#[test]
fn palette4_odd_width_ignores_the_last_low_nibble() {
    let header = header(3, 2, 4, three_colors());
    // two bytes of pixels and two of padding to a row; the low nibble of
    // the second byte names no palette entry and is never looked at
    let rows: Vec<u8> = vec![0x01, 0x2F, 0xEE, 0xEE, 0x21, 0x0A, 0xDD, 0xDD];
    let bytes = encode_imagefile(&header, &rows).unwrap();
    let image = decode_imagefile(&bytes).unwrap();
    assert_eq!(
        image.raster.as_bytes(),
        &[
            23, 22, 21, 200, 13, 12, 11, 0, 3, 2, 1, 255, // stored second, shown first
            3, 2, 1, 255, 13, 12, 11, 0, 23, 22, 21, 200,
        ]
    );
    let other: Vec<u8> = vec![0x01, 0x20, 0x00, 0x00, 0x21, 0x05, 0x11, 0x11];
    let same = decode_imagefile(&encode_imagefile(&header, &other).unwrap()).unwrap();
    assert_eq!(same.raster.as_bytes(), image.raster.as_bytes());
}

#[test]
fn palette4_even_width_reads_both_nibbles() {
    let header = header(2, 1, 4, three_colors());
    let ok = encode_imagefile(&header, &[0x21, 0, 0, 0]).unwrap();
    assert_eq!(
        decode_imagefile(&ok).unwrap().raster.as_bytes(),
        &[23, 22, 21, 200, 13, 12, 11, 0]
    );
    let bad = encode_imagefile(&header, &[0x23, 0, 0, 0]).unwrap();
    assert_eq!(decode_imagefile(&bad).err(), Some(CodecError::PaletteIndexOutOfRange));
}

#[test]
fn rgb555_rows_decode_with_padding() {
    let header = header(1, 2, 16, vec![]);
    assert_eq!(header.bitmap_image_size, 8);
    let rows: Vec<u8> = vec![0x1F, 0x00, 0xAA, 0xAA, 0xE0, 0x83, 0xBB, 0xBB];
    let bytes = encode_imagefile(&header, &rows).unwrap();
    let image = decode_imagefile(&bytes).unwrap();
    // 0x83E0: the top bit is ignored, green is 31
    assert_eq!(image.raster.as_bytes(), &[0, 255, 0, 255, 0, 0, 255, 255]);
    assert_eq!(image.warnings, Vec::<Warning>::new());
}

#[test]
fn rgb555_expansion() {
    assert_eq!(rgb555_to_rgba(0x7FFF), [255, 255, 255, 255]);
    assert_eq!(rgb555_to_rgba(0x0000), [0, 0, 0, 255]);
    assert_eq!(rgb555_to_rgba(0x001F), [0, 0, 255, 255]);
    assert_eq!(rgb555_to_rgba(0x8000), [0, 0, 0, 255]);
    assert_eq!(rgb555_to_rgba(0x7C00), [255, 0, 0, 255]);
    assert_eq!(rgb555_to_rgba(0x03E0), [0, 255, 0, 255]);
    // (1 * 33) / 4 = 8, (2 * 33) / 4 = 16, (3 * 33) / 4 = 24
    assert_eq!(rgb555_to_rgba((1 << 10) | (2 << 5) | 3), [8, 16, 24, 255]);
    assert_eq!(rgb555_to_rgba((16 << 10) | (30 << 5) | 4), [132, 247, 33, 255]);
}

#[test]
fn rgb555_expansion_never_decreases() {
    let mut last: u8 = 0;
    for c in 0u16..32 {
        let blue = rgb555_to_rgba(c)[2];
        assert_eq!(blue as u16, c * 8 + c / 4);
        assert!(blue >= last);
        last = blue;
    }
    assert_eq!(last, 255);
}

#[test]
fn bgr888_rows_decode_with_padding() {
    let header = header(2, 2, 24, vec![]);
    let rows: Vec<u8> = vec![
        1, 2, 3, 4, 5, 6, 0xEE, 0xEE, // stored first, shown last
        11, 12, 13, 14, 15, 16, 0xDD, 0xDD,
    ];
    let bytes = encode_imagefile(&header, &rows).unwrap();
    let image = decode_imagefile(&bytes).unwrap();
    assert_eq!(
        image.raster.as_bytes(),
        &[13, 12, 11, 255, 16, 15, 14, 255, 3, 2, 1, 255, 6, 5, 4, 255]
    );
    assert_eq!(image.warnings, Vec::<Warning>::new());
}

#[test]
fn bgra8888_rows_decode_with_inverted_alpha() {
    let header = header(1, 2, 32, vec![]);
    let rows: Vec<u8> = vec![1, 2, 3, 0, 11, 12, 13, 200];
    let bytes = encode_imagefile(&header, &rows).unwrap();
    let image = decode_imagefile(&bytes).unwrap();
    assert_eq!(image.raster.as_bytes(), &[13, 12, 11, 55, 3, 2, 1, 255]);
    assert_eq!(image.warnings, Vec::<Warning>::new());
}

#[test]
fn rgba_image_round_trip_inverts_alpha() {
    let rgba: Vec<u8> = vec![
        1, 2, 3, 4, 5, 6, 7, 8, // top row
        9, 10, 11, 12, 13, 14, 15, 16, // middle row
        17, 18, 19, 20, 21, 22, 23, 255,
    ];
    let raster = Raster::new(2, 3, rgba).unwrap();
    let bytes = encode_rgba_image(&raster).unwrap();
    assert_eq!(bytes.len(), 40 + 24);
    assert_eq!(&bytes[0x0E..0x10], &[32, 0]);
    assert_eq!(&bytes[0x14..0x18], &[24, 0, 0, 0]);
    assert_eq!(&bytes[0x18..0x28], &[0; 16]);
    // the bottom row comes first, each pixel as B, G, R, A
    assert_eq!(&bytes[40..48], &[19, 18, 17, 20, 23, 22, 21, 255]);
    let image = decode_imagefile(&bytes).unwrap();
    assert_eq!(
        image.raster.as_bytes(),
        &[
            1, 2, 3, 251, 5, 6, 7, 247, 9, 10, 11, 243, 13, 14, 15, 239, 17, 18, 19, 235, 21, 22,
            23, 0,
        ]
    );
    assert_eq!(image.header.bit_depth, 32);
    assert_eq!(image.warnings, Vec::<Warning>::new());
}

#[test]
fn palette8_round_trip_looks_every_index_up() {
    let palette = three_colors();
    let header = header(5, 3, 8, palette.clone());
    let indices: [[u8; 5]; 3] = [[0, 1, 2, 1, 0], [2, 2, 2, 2, 2], [1, 0, 1, 0, 1]];
    let mut rows: Vec<u8> = Vec::new();
    for row in indices.iter() {
        rows.extend_from_slice(row);
        rows.extend_from_slice(&[0xFF, 0xFF, 0xFF]);
    }
    let image = decode_imagefile(&encode_imagefile(&header, &rows).unwrap()).unwrap();
    let shown = image.raster.as_bytes();
    for y in 0..3 {
        for x in 0..5 {
            let c = palette[indices[2 - y][x] as usize];
            assert_eq!(&shown[(y * 5 + x) * 4..][..4], &[c.r, c.g, c.b, 255 - c.a]);
        }
    }
}

#[test]
fn pixel_bytes_consumed_are_the_aligned_rows() {
    let palette = three_colors();
    let data = vec![0u8; 64];
    for (mode, width, stride) in [
        (ColorMode::Palette4, 3u32, 4usize),
        (ColorMode::Palette4, 9, 8),
        (ColorMode::Palette8, 5, 8),
        (ColorMode::Rgb555_16, 3, 8),
        (ColorMode::Bgr888_24, 3, 12),
        (ColorMode::Bgra888_32, 3, 12),
    ] {
        assert_eq!(mode.aligned_row_bytes(width), stride as u64);
        let mut reader = Reader::new(&data);
        reader.set_position(7);
        let raster = decode_pixels(&mut reader, mode, &palette, width, 3).unwrap();
        assert_eq!(raster.len(), 4 * width as usize * 3);
        assert_eq!(reader.position(), 7 + stride * 3);
    }
}

#[test]
fn decode_pixels_hands_rows_out_in_stored_order() {
    let mut reader = Reader::new(&[9, 9, 1, 2, 3, 0, 11, 12, 13, 200]);
    reader.set_position(2);
    let raster = decode_pixels(&mut reader, ColorMode::Bgra888_32, &[], 1, 2).unwrap();
    assert_eq!(raster, vec![3, 2, 1, 255, 13, 12, 11, 55]);
    assert_eq!(reader.position(), 10);
}

#[test]
fn truncated_header_is_refused() {
    let bytes = encode_imagefile(&header(2, 2, 8, red_green()), &[0; 8]).unwrap();
    assert_eq!(decode_imagefile(&[]).err(), Some(CodecError::TruncatedInput));
    assert_eq!(decode_imagefile(&bytes[..39]).err(), Some(CodecError::TruncatedInput));
    // the palette is cut short
    assert_eq!(decode_imagefile(&bytes[..47]).err(), Some(CodecError::TruncatedInput));
    // the palette is whole, the rows are missing
    assert_eq!(decode_imagefile(&bytes[..48]).err(), Some(CodecError::TruncatedPixelData));
}

#[test]
fn wrong_constants_are_refused() {
    let bytes = encode_imagefile(&header(2, 2, 8, red_green()), &[0; 8]).unwrap();
    for at in [0usize, 12, 16] {
        let mut broken = bytes.clone();
        broken[at] ^= 0x02;
        assert_eq!(decode_imagefile(&broken).err(), Some(CodecError::BadHeaderSize));
    }
    // a short file with a wrong constant is short first
    let mut broken = bytes[..39].to_vec();
    broken[0] = 0x29;
    assert_eq!(decode_imagefile(&broken).err(), Some(CodecError::TruncatedInput));
}

#[test]
fn unsupported_bit_depth_is_refused() {
    for depth in [0u16, 1, 12, 15, 33, 64] {
        let bytes = encode_imagefile(&header(2, 2, depth, red_green()), &[0; 16]).unwrap();
        assert_eq!(decode_imagefile(&bytes).err(), Some(CodecError::UnsupportedBitDepth));
        assert_eq!(ColorMode::from_bit_depth(depth), Err(CodecError::UnsupportedBitDepth));
    }
}

#[test]
fn truncated_pixel_data_is_refused() {
    let header = header(2, 2, 8, red_green());
    let rows: Vec<u8> = vec![0, 1, 0, 0, 1, 0, 0];
    let bytes = encode_imagefile(&header, &rows).unwrap();
    assert_eq!(decode_imagefile(&bytes).err(), Some(CodecError::TruncatedPixelData));
}

#[test]
fn missing_palette_entry_is_refused() {
    let header = header(2, 2, 8, red_green());
    let rows: Vec<u8> = vec![0, 1, 0, 0, 1, 2, 0, 0];
    let bytes = encode_imagefile(&header, &rows).unwrap();
    assert_eq!(decode_imagefile(&bytes).err(), Some(CodecError::PaletteIndexOutOfRange));
    // an index in the padding is never looked up
    let rows: Vec<u8> = vec![0, 1, 9, 9, 1, 0, 9, 9];
    assert!(decode_imagefile(&encode_imagefile(&header, &rows).unwrap()).is_ok());
}

#[test]
fn the_first_bad_row_decides_the_error() {
    let header = header(2, 2, 8, red_green());
    // the first row holds a bad index, the second is cut short
    let rows: Vec<u8> = vec![0, 7, 0, 0, 1, 0];
    let bytes = encode_imagefile(&header, &rows).unwrap();
    assert_eq!(decode_imagefile(&bytes).err(), Some(CodecError::PaletteIndexOutOfRange));
    // the first row is fine and the second is cut short, bad index or not
    let rows: Vec<u8> = vec![0, 1, 0, 0, 7, 0];
    let bytes = encode_imagefile(&header, &rows).unwrap();
    assert_eq!(decode_imagefile(&bytes).err(), Some(CodecError::TruncatedPixelData));
}

#[test]
fn odd_fields_give_warnings_and_no_failure() {
    let rows: Vec<u8> = vec![0x00, 0x01, 0x00, 0x00, 0x01, 0x00, 0x00, 0x00];
    let good = encode_imagefile(&header(2, 2, 8, red_green()), &rows).unwrap();
    let shown = decode_imagefile(&good).unwrap().raster.as_bytes().to_vec();

    let mut bytes = good.clone();
    bytes[0x18] = 0;
    bytes[0x19] = 0;
    let image = decode_imagefile(&bytes).unwrap();
    assert_eq!(
        image.warnings,
        vec![Warning::ModeTagCopyMismatch, Warning::ModeTagMismatch]
    );
    assert_eq!(image.raster.as_bytes(), &shown[..]);
    assert_eq!(image.header.constant_2834_if_colorpalette_use_otherwise_0, 0);

    let mut bytes = good.clone();
    bytes[0x1C] = 0;
    assert_eq!(decode_imagefile(&bytes).unwrap().warnings, vec![Warning::ModeTagCopyMismatch]);

    let mut bytes = good.clone();
    bytes[0x14] = 8;
    assert_eq!(
        decode_imagefile(&bytes).unwrap().warnings,
        vec![Warning::BitmapImageSizeMismatch]
    );

    let mut bytes = good.clone();
    bytes[0x24] = 3;
    let image = decode_imagefile(&bytes).unwrap();
    assert_eq!(image.warnings, vec![Warning::PaletteCountMismatch]);
    assert_eq!(image.header.colorpalette.len(), 2);

    let mut bytes = good.clone();
    bytes[0x14] = 1;
    bytes[0x18] = 1;
    bytes[0x24] = 0;
    assert_eq!(
        decode_imagefile(&bytes).unwrap().warnings,
        vec![
            Warning::ModeTagCopyMismatch,
            Warning::PaletteCountMismatch,
            Warning::ModeTagMismatch,
            Warning::BitmapImageSizeMismatch,
        ]
    );
}

#[test]
fn stored_image_size_is_expected_in_the_16_and_32_bit_modes() {
    let mut h = header(3, 2, 16, vec![]);
    assert_eq!(h.bitmap_image_size, 16);
    let bytes = encode_imagefile(&h, &[0; 16]).unwrap();
    assert_eq!(decode_imagefile(&bytes).unwrap().warnings, Vec::<Warning>::new());
    h.bitmap_image_size = 12;
    let bytes = encode_imagefile(&h, &[0; 16]).unwrap();
    assert_eq!(
        decode_imagefile(&bytes).unwrap().warnings,
        vec![Warning::BitmapImageSizeMismatch]
    );
    h.bitmap_image_size = 16;
    h.constant_2834_if_colorpalette_use_otherwise_0 = 2834;
    let bytes = encode_imagefile(&h, &[0; 16]).unwrap();
    assert_eq!(decode_imagefile(&bytes).unwrap().warnings, vec![Warning::ModeTagMismatch]);
}

#[test]
fn empty_images_decode_to_empty_rasters() {
    let image = decode_imagefile(&encode_imagefile(&header(0, 5, 8, vec![]), &[]).unwrap()).unwrap();
    assert_eq!(image.raster.width(), 0);
    assert_eq!(image.raster.height(), 5);
    assert_eq!(image.raster.as_bytes(), &[] as &[u8]);
    let image = decode_imagefile(&encode_imagefile(&header(5, 0, 32, vec![]), &[]).unwrap()).unwrap();
    assert_eq!(image.raster.as_bytes(), &[] as &[u8]);
}

#[test]
fn bytes_behind_the_rows_are_left_alone() {
    let header = header(1, 1, 32, vec![]);
    let bytes = encode_imagefile(&header, &[1, 2, 3, 4, 0xEE, 0xEE]).unwrap();
    let image = decode_imagefile(&bytes).unwrap();
    assert_eq!(image.raster.as_bytes(), &[3, 2, 1, 251]);
}
