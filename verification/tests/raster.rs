use future2_utils::color::{ColorMode, ImageColor};
use future2_utils::error::CodecError;
use future2_utils::raster::Raster;

#[test]
fn raster_needs_four_bytes_for_each_pixel() {
    assert!(Raster::new(2, 3, vec![0; 24]).is_some());
    assert!(Raster::new(2, 3, vec![0; 23]).is_none());
    assert!(Raster::new(2, 3, vec![0; 25]).is_none());
    assert!(Raster::new(0, 3, vec![]).is_some());
    assert!(Raster::new(u32::MAX, u32::MAX, vec![]).is_none());
    assert!(Raster::new(u32::MAX, 0, vec![]).is_some());
    let raster = Raster::new(1, 2, vec![1, 2, 3, 4, 5, 6, 7, 8]).unwrap();
    assert_eq!(raster.width(), 1);
    assert_eq!(raster.height(), 2);
    assert_eq!(raster.as_bytes(), &[1, 2, 3, 4, 5, 6, 7, 8]);
}

#[test]
fn flip_reverses_the_rows() {
    let bytes: Vec<u8> = (0..24).collect();
    let raster = Raster::new(2, 3, bytes.clone()).unwrap();
    let flipped = raster.flip_vertical();
    assert_eq!(flipped.width(), 2);
    assert_eq!(flipped.height(), 3);
    assert_eq!(
        flipped.as_bytes(),
        &[16, 17, 18, 19, 20, 21, 22, 23, 8, 9, 10, 11, 12, 13, 14, 15, 0, 1, 2, 3, 4, 5, 6, 7]
    );
    assert_eq!(flipped.flip_vertical().as_bytes(), &bytes[..]);
    let single = Raster::new(3, 1, (0..12).collect()).unwrap();
    assert_eq!(single.flip_vertical().as_bytes(), single.as_bytes());
    let empty = Raster::new(0, 4, vec![]).unwrap();
    assert_eq!(empty.flip_vertical().height(), 4);
}

#[test]
fn to_bgra_exchanges_red_and_blue() {
    let raster = Raster::new(2, 1, vec![1, 2, 3, 4, 5, 6, 7, 8]).unwrap();
    assert_eq!(raster.to_bgra(), vec![3, 2, 1, 4, 7, 6, 5, 8]);
}

#[test]
fn palette_entry_shows_with_inverted_alpha() {
    assert_eq!(ImageColor { b: 1, g: 2, r: 3, a: 0 }.to_rgba(), [3, 2, 1, 255]);
    assert_eq!(ImageColor { b: 1, g: 2, r: 3, a: 255 }.to_rgba(), [3, 2, 1, 0]);
    assert_eq!(ImageColor { b: 1, g: 2, r: 3, a: 100 }.to_rgba(), [3, 2, 1, 155]);
}

#[test]
fn color_modes_by_bit_depth() {
    let modes = [
        (4u16, ColorMode::Palette4, true, true),
        (8, ColorMode::Palette8, true, true),
        (16, ColorMode::Rgb555_16, false, false),
        (24, ColorMode::Bgr888_24, true, false),
        (32, ColorMode::Bgra888_32, false, false),
    ];
    for (depth, mode, tagged, indexed) in modes {
        assert_eq!(ColorMode::from_bit_depth(depth), Ok(mode));
        assert_eq!(mode.bit_depth(), depth);
        assert_eq!(mode.is_2834(), tagged);
        assert_eq!(mode.has_padding(), tagged);
        assert_eq!(mode.is_colorpalette(), indexed);
    }
    assert_eq!(ColorMode::from_bit_depth(2), Err(CodecError::UnsupportedBitDepth));
}

#[test]
fn rows_are_aligned_to_four_bytes() {
    assert_eq!(ColorMode::Palette4.aligned_row_bytes(0), 0);
    assert_eq!(ColorMode::Palette4.aligned_row_bytes(1), 4);
    assert_eq!(ColorMode::Palette4.aligned_row_bytes(8), 4);
    assert_eq!(ColorMode::Palette4.aligned_row_bytes(9), 8);
    assert_eq!(ColorMode::Palette8.aligned_row_bytes(4), 4);
    assert_eq!(ColorMode::Palette8.aligned_row_bytes(5), 8);
    assert_eq!(ColorMode::Rgb555_16.aligned_row_bytes(1), 4);
    assert_eq!(ColorMode::Rgb555_16.aligned_row_bytes(2), 4);
    assert_eq!(ColorMode::Rgb555_16.aligned_row_bytes(3), 8);
    assert_eq!(ColorMode::Bgr888_24.aligned_row_bytes(1), 4);
    assert_eq!(ColorMode::Bgr888_24.aligned_row_bytes(5), 16);
    assert_eq!(ColorMode::Bgra888_32.aligned_row_bytes(5), 20);
    assert_eq!(ColorMode::Palette4.aligned_row_bytes(u32::MAX), 0x8000_0000);
    assert_eq!(ColorMode::Bgra888_32.aligned_row_bytes(u32::MAX), 0x3_FFFF_FFFC);
}

#[test]
fn stored_image_size_by_mode() {
    assert_eq!(ColorMode::Palette4.expected_image_size(9, 3), 0);
    assert_eq!(ColorMode::Palette8.expected_image_size(9, 3), 0);
    assert_eq!(ColorMode::Bgr888_24.expected_image_size(9, 3), 0);
    assert_eq!(ColorMode::Rgb555_16.expected_image_size(3, 3), 24);
    assert_eq!(ColorMode::Bgra888_32.expected_image_size(3, 3), 36);
    assert_eq!(
        ColorMode::Bgra888_32.expected_image_size(u32::MAX, u32::MAX),
        0x3_FFFF_FFFC * 0xFFFF_FFFF
    );
}
