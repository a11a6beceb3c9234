//! The ImageFile format: a header of 40 bytes, a palette, and pixel rows
//! stored bottom-up.
//!
//! | offset | field                | size |
//! |--------|----------------------|------|
//! | 0x00   | header size, `0x28`  | 4    |
//! | 0x04   | width                | 4    |
//! | 0x08   | height               | 4    |
//! | 0x0C   | constant `1`         | 2    |
//! | 0x0E   | bit depth            | 2    |
//! | 0x10   | constant `0`         | 4    |
//! | 0x14   | stored image size    | 4    |
//! | 0x18   | mode tag             | 4    |
//! | 0x1C   | mode tag, again      | 4    |
//! | 0x20   | palette count        | 4    |
//! | 0x24   | palette count, again | 4    |
//! | 0x28   | palette, then pixels |      |
use vstd::prelude::*;
use crate::color::{palette_at, palette_bytes, ColorMode, ImageColor};
use crate::cursor::{Reader, Writer};
use crate::error::{CodecError, Warning};
use crate::pixels::{decode_pixels, decode_rows, lemma_decode_rows_len};
use crate::raster::{flip_rows, Raster};
use crate::wire::{le_u16, le_u32, u16_le, u32_le};

verus! {

/// The size of the fixed part of the header, and the value of its first field.
pub const HEADER_SIZE: u32 = 0x28;

/// The header of an image together with its palette. The fields that the
/// stored form holds twice are held once.
#[derive(Debug, PartialEq, Eq)]
pub struct ImageFile {
    pub width: u32,
    pub height: u32,
    pub bit_depth: u16,
    pub bitmap_image_size: u32,
    pub constant_2834_if_colorpalette_use_otherwise_0: u32,
    pub colorpalette: Vec<ImageColor>,
}

/// What an `ImageFile` holds.
pub struct ImageFileView {
    pub width: u32,
    pub height: u32,
    pub bit_depth: u16,
    pub bitmap_image_size: u32,
    pub mode_tag: u32,
    pub palette: Seq<ImageColor>,
}

impl View for ImageFile {
    type V = ImageFileView;

    open spec fn view(&self) -> ImageFileView {
        ImageFileView {
            width: self.width,
            height: self.height,
            bit_depth: self.bit_depth,
            bitmap_image_size: self.bitmap_image_size,
            mode_tag: self.constant_2834_if_colorpalette_use_otherwise_0,
            palette: self.colorpalette@,
        }
    }
}

/// The 40 bytes of the fixed part of a header.
pub open spec fn header_fixed(h: ImageFileView) -> Seq<u8> {
    u32_le(HEADER_SIZE) + u32_le(h.width) + u32_le(h.height) + u16_le(1) + u16_le(h.bit_depth)
        + u32_le(0) + u32_le(h.bitmap_image_size) + u32_le(h.mode_tag) + u32_le(h.mode_tag)
        + u32_le(h.palette.len() as u32) + u32_le(h.palette.len() as u32)
}

/// The stored form of a header: the fixed part, then the palette.
pub open spec fn header_bytes(h: ImageFileView) -> Seq<u8> {
    header_fixed(h) + palette_bytes(h.palette)
}

/// The stored form of an image: the header, then the pixel rows as given.
pub open spec fn imagefile_bytes(h: ImageFileView, rows: Seq<u8>) -> Seq<u8> {
    header_bytes(h) + rows
}

/// The warnings about the two fields that are stored twice.
pub open spec fn copy_warnings(tag: u32, tag_again: u32, count: u32, count_again: u32) -> Seq<
    Warning,
> {
    (if tag_again != tag {
        seq![Warning::ModeTagCopyMismatch]
    } else {
        Seq::empty()
    }) + (if count_again != count {
        seq![Warning::PaletteCountMismatch]
    } else {
        Seq::empty()
    })
}

/// The warnings about the fields whose value follows from the colour mode.
pub open spec fn mode_warnings(mode: ColorMode, h: ImageFileView) -> Seq<Warning> {
    (if h.mode_tag != mode.mode_tag() {
        seq![Warning::ModeTagMismatch]
    } else {
        Seq::empty()
    }) + (if h.bitmap_image_size != mode.image_size(h.width as nat, h.height as nat) {
        seq![Warning::BitmapImageSizeMismatch]
    } else {
        Seq::empty()
    })
}

/// The header and palette at the start of `b`, with the warnings about the
/// fields stored twice. The 40 bytes must be there and hold their three
/// constants; then the palette must be there.
pub open spec fn parse_header(b: Seq<u8>) -> Result<(ImageFileView, Seq<Warning>), CodecError> {
    if b.len() < 40 {
        Err(CodecError::TruncatedInput)
    } else if le_u32(b, 0) != HEADER_SIZE || le_u16(b, 12) != 1 || le_u32(b, 16) != 0 {
        Err(CodecError::BadHeaderSize)
    } else if b.len() < 40 + 4 * le_u32(b, 32) {
        Err(CodecError::TruncatedInput)
    } else {
        Ok(
            (
                ImageFileView {
                    width: le_u32(b, 4),
                    height: le_u32(b, 8),
                    bit_depth: le_u16(b, 14),
                    bitmap_image_size: le_u32(b, 20),
                    mode_tag: le_u32(b, 24),
                    palette: palette_at(b, 40, le_u32(b, 32) as nat),
                },
                copy_warnings(le_u32(b, 24), le_u32(b, 28), le_u32(b, 32), le_u32(b, 36)),
            ),
        )
    }
}

/// The number of bytes that a header and its palette take.
pub open spec fn header_len(h: ImageFileView) -> nat {
    40 + 4 * h.palette.len()
}

/// A decoded image: its header, its pixels as a top-down raster, and what
/// the decoder found odd.
pub struct DecodedImage {
    pub header: ImageFile,
    pub raster: Raster,
    pub warnings: Vec<Warning>,
}

/// What a `DecodedImage` holds.
pub struct DecodedImageView {
    pub header: ImageFileView,
    pub rgba: Seq<u8>,
    pub warnings: Seq<Warning>,
}

impl View for DecodedImage {
    type V = DecodedImageView;

    open spec fn view(&self) -> DecodedImageView {
        DecodedImageView {
            header: self.header@,
            rgba: self.raster.bytes(),
            warnings: self.warnings@,
        }
    }
}

/// What decoding the pixel rows `rows` of an image with the header `h`
/// gives, after `noted` was found odd about the header. The bit depth must
/// name a colour mode; then the rows are decoded in stored order and handed
/// out top-down.
pub open spec fn parse_rows(h: ImageFileView, noted: Seq<Warning>, rows: Seq<u8>) -> Result<
    DecodedImageView,
    CodecError,
> {
    match ColorMode::of_depth(h.bit_depth) {
        None => Err(CodecError::UnsupportedBitDepth),
        Some(mode) => match decode_rows(mode, h.palette, rows, h.width as nat, h.height as nat) {
            Err(e) => Err(e),
            Ok(stored) => Ok(
                DecodedImageView {
                    header: h,
                    rgba: flip_rows(stored, 4 * h.width as nat, h.height as nat),
                    warnings: noted + mode_warnings(mode, h),
                },
            ),
        },
    }
}

/// What decoding the image file `b` gives: the header and the palette are
/// read first, then the rows behind the palette are decoded.
pub open spec fn parse_imagefile(b: Seq<u8>) -> Result<DecodedImageView, CodecError> {
    match parse_header(b) {
        Err(e) => Err(e),
        Ok((h, noted)) => parse_rows(h, noted, b.subrange(header_len(h) as int, b.len() as int)),
    }
}

impl ImageFile {
    /// Reads a header and its palette at the reader's position. On success
    /// the reader stands behind the palette.
    pub fn decode(reader: &mut Reader) -> (r: Result<(ImageFile, Vec<Warning>), CodecError>)
        ensures
            final(reader).data == old(reader).data,
            match parse_header(old(reader).rest()) {
                Ok((h, warnings)) => r is Ok && r->Ok_0.0@ == h && r->Ok_0.1@ == warnings && final(reader).pos == old(reader).pos + header_len(h),
                Err(e) => r == Err::<(ImageFile, Vec<Warning>), CodecError>(e),
            },
    {
        let ghost b = reader.rest();
        let ghost start = reader.pos as int;
        if reader.remaining() < 40 {
            return Err(CodecError::TruncatedInput);
        }
        assert(forall|k: int| 0 <= k < b.len() ==> b[k] == reader.data@[start + k]);
        let header_size: u32 = reader.read_u32()?;
        let width: u32 = reader.read_u32()?;
        let height: u32 = reader.read_u32()?;
        let constant_1: u16 = reader.read_u16()?;
        let bit_depth: u16 = reader.read_u16()?;
        let constant_0: u32 = reader.read_u32()?;
        let bitmap_image_size: u32 = reader.read_u32()?;
        let tag: u32 = reader.read_u32()?;
        let tag_again: u32 = reader.read_u32()?;
        let count: u32 = reader.read_u32()?;
        let count_again: u32 = reader.read_u32()?;
        assert(reader.pos == start + 40);
        if header_size != HEADER_SIZE || constant_1 != 1 || constant_0 != 0 {
            return Err(CodecError::BadHeaderSize);
        }
        if (reader.remaining() as u64) < 4 * (count as u64) {
            return Err(CodecError::TruncatedInput);
        }
        let mut colorpalette: Vec<ImageColor> = Vec::new();
        let mut i: u32 = 0;
        while i < count
            invariant
                0 <= i <= count,
                reader.data == old(reader).data,
                b == old(reader).rest(),
                start == old(reader).pos,
                start + 40 + 4 * count <= reader.data@.len(),
                reader.pos == start + 40 + 4 * i,
                colorpalette@ == palette_at(b, 40, i as nat),
            decreases count - i,
        {
            let blue: u8 = reader.read_u8()?;
            let green: u8 = reader.read_u8()?;
            let red: u8 = reader.read_u8()?;
            let alpha: u8 = reader.read_u8()?;
            colorpalette.push(ImageColor { b: blue, g: green, r: red, a: alpha });
            i = i + 1;
            assert(colorpalette@ =~= palette_at(b, 40, i as nat));
        }
        let mut warnings: Vec<Warning> = Vec::new();
        if tag_again != tag {
            warnings.push(Warning::ModeTagCopyMismatch);
        }
        if count_again != count {
            warnings.push(Warning::PaletteCountMismatch);
        }
        assert(warnings@ =~= copy_warnings(tag, tag_again, count, count_again));
        Ok(
            (
                ImageFile {
                    width,
                    height,
                    bit_depth,
                    bitmap_image_size,
                    constant_2834_if_colorpalette_use_otherwise_0: tag,
                    colorpalette,
                },
                warnings,
            ),
        )
    }

    /// The stored form of the header and its palette. A palette of more
    /// entries than a 32-bit count can hold is refused, and so is one whose
    /// stored form no buffer can hold.
    pub fn encode(&self) -> (r: Result<Vec<u8>, CodecError>)
        ensures
            self@.palette.len() <= u32::MAX && header_len(self@) <= usize::MAX ==> r is Ok
                && r->Ok_0@ == header_bytes(self@),
            !(self@.palette.len() <= u32::MAX && header_len(self@) <= usize::MAX) ==> r == Err::<
                Vec<u8>,
                CodecError,
            >(CodecError::Overflow),
    {
        let n: usize = self.colorpalette.len();
        if n > u32::MAX as usize || n > (usize::MAX - 40) / 4 {
            return Err(CodecError::Overflow);
        }
        let count: u32 = n as u32;
        let mut w = Writer::new();
        w.write_u32(HEADER_SIZE)?;
        w.write_u32(self.width)?;
        w.write_u32(self.height)?;
        w.write_u16(1)?;
        w.write_u16(self.bit_depth)?;
        w.write_u32(0)?;
        w.write_u32(self.bitmap_image_size)?;
        w.write_u32(self.constant_2834_if_colorpalette_use_otherwise_0)?;
        w.write_u32(self.constant_2834_if_colorpalette_use_otherwise_0)?;
        w.write_u32(count)?;
        w.write_u32(count)?;
        assert(w.buf@ == header_fixed(self@));
        let mut i: usize = 0;
        while i < n
            invariant
                0 <= i <= n,
                n == self.colorpalette@.len(),
                40 + 4 * n <= usize::MAX,
                w.limit == usize::MAX,
                w.pos == 40 + 4 * i,
                w.at_end(),
                w.buf@ == header_fixed(self@) + palette_bytes(self.colorpalette@.subrange(0, i as int)),
            decreases n - i,
        {
            let c: ImageColor = self.colorpalette[i];
            let ghost before = w.buf@;
            w.write_u8(c.b)?;
            w.write_u8(c.g)?;
            w.write_u8(c.r)?;
            w.write_u8(c.a)?;
            assert(w.buf@ =~= header_fixed(self@) + palette_bytes(
                self.colorpalette@.subrange(0, i + 1),
            )) by {
                let now = palette_bytes(self.colorpalette@.subrange(0, i + 1));
                let was = palette_bytes(self.colorpalette@.subrange(0, i as int));
                assert(w.buf@ =~= before + seq![c.b, c.g, c.r, c.a]);
                assert(now =~= was + c.wire());
            }
            i = i + 1;
        }
        assert(self.colorpalette@.subrange(0, n as int) =~= self.colorpalette@);
        Ok(w.into_bytes())
    }
}

/// The header of an image of `width` by `height` pixels in the 32-bit mode,
/// without a palette.
pub open spec fn rgba_header(width: u32, height: u32) -> ImageFileView {
    ImageFileView {
        width,
        height,
        bit_depth: 32,
        bitmap_image_size: (4 * width * height) as u32,
        mode_tag: 0,
        palette: Seq::empty(),
    }
}

/// The stored form of a top-down raster as an image in the 32-bit mode: the
/// rows bottom-up, each pixel as B, G, R, A with the alpha as it is.
pub open spec fn rgba_image_bytes(width: u32, height: u32, rgba: Seq<u8>) -> Seq<u8> {
    imagefile_bytes(
        rgba_header(width, height),
        crate::raster::swap_red_blue(flip_rows(rgba, 4 * width as nat, height as nat)),
    )
}

/// Encodes an image from its header, its palette and its pixel rows, which
/// are stored as they are given: bottom-up and padded. A palette of more
/// entries than a 32-bit count can hold is refused, and so is an image that
/// no buffer can hold.
pub fn encode_imagefile(header: &ImageFile, pixel_rows: &[u8]) -> (r: Result<Vec<u8>, CodecError>)
    ensures
        header@.palette.len() <= u32::MAX && header_len(header@) + pixel_rows@.len() <= usize::MAX
            ==> r is Ok && r->Ok_0@ == imagefile_bytes(header@, pixel_rows@),
        !(header@.palette.len() <= u32::MAX && header_len(header@) + pixel_rows@.len()
            <= usize::MAX) ==> r == Err::<Vec<u8>, CodecError>(CodecError::Overflow),
{
    let head: Vec<u8> = header.encode()?;
    let mut w = Writer::append_to(head);
    w.write_all(pixel_rows)?;
    Ok(w.into_bytes())
}

/// Encodes a top-down raster as an image in the 32-bit mode. The alpha is
/// stored as it is, so decoding the result gives the raster with its alpha
/// inverted. A raster of more bytes than the 32-bit size field can hold is
/// refused, and so is an image that no buffer can hold.
pub fn encode_rgba_image(raster: &Raster) -> (r: Result<Vec<u8>, CodecError>)
    ensures
        4 * raster.w() * raster.h() <= u32::MAX && 40 + 4 * raster.w() * raster.h() <= usize::MAX
            ==> r is Ok && r->Ok_0@ == rgba_image_bytes(
            raster.w() as u32,
            raster.h() as u32,
            raster.bytes(),
        ),
        !(4 * raster.w() * raster.h() <= u32::MAX && 40 + 4 * raster.w() * raster.h()
            <= usize::MAX) ==> r == Err::<Vec<u8>, CodecError>(CodecError::Overflow),
{
    let size: usize = raster.as_bytes().len();
    if size > u32::MAX as usize {
        return Err(CodecError::Overflow);
    }
    let header = ImageFile {
        width: raster.width(),
        height: raster.height(),
        bit_depth: 32,
        bitmap_image_size: size as u32,
        constant_2834_if_colorpalette_use_otherwise_0: 0,
        colorpalette: Vec::new(),
    };
    assert(header@ == rgba_header(raster.w() as u32, raster.h() as u32));
    let rows: Vec<u8> = raster.flip_vertical().to_bgra();
    encode_imagefile(&header, rows.as_slice())
}

/// Decodes an image file: the header and the palette, then the pixel rows,
/// which are handed out as a top-down raster. Fields that do not hold what
/// the colour mode calls for are reported as warnings.
pub fn decode_imagefile(bytes: &[u8]) -> (r: Result<DecodedImage, CodecError>)
    ensures
        match parse_imagefile(bytes@) {
            Ok(image) => r is Ok && r->Ok_0@ == image && r->Ok_0.raster.w() == image.header.width
                && r->Ok_0.raster.h() == image.header.height,
            Err(e) => r is Err && r->Err_0 == e,
        },
{
    let mut reader = Reader::new(bytes);
    let (header, mut warnings) = ImageFile::decode(&mut reader)?;
    let mode: ColorMode = ColorMode::from_bit_depth(header.bit_depth)?;
    let ghost copies = warnings@;
    if header.constant_2834_if_colorpalette_use_otherwise_0 != (if mode.is_2834() {
        2834
    } else {
        0
    }) {
        warnings.push(Warning::ModeTagMismatch);
    }
    if header.bitmap_image_size as u128 != mode.expected_image_size(header.width, header.height) {
        warnings.push(Warning::BitmapImageSizeMismatch);
    }
    assert(warnings@ =~= copies + mode_warnings(mode, header@));
    assert(reader.rest() =~= bytes@.subrange(header_len(header@) as int, bytes@.len() as int));
    let rows: Vec<u8> = decode_pixels(
        &mut reader,
        mode,
        header.colorpalette.as_slice(),
        header.width,
        header.height,
    )?;
    proof {
        lemma_decode_rows_len(
            mode,
            header.colorpalette@,
            bytes@.subrange(header_len(header@) as int, bytes@.len() as int),
            header.width as nat,
            header.height as nat,
        );
    }
    let raster: Raster = Raster::of_size(header.width, header.height, rows).flip_vertical();
    Ok(DecodedImage { header, raster, warnings })
}

/// Where each field stands in the fixed part of a header.
proof fn lemma_header_fixed_layout(h: ImageFileView)
    ensures
        header_fixed(h).len() == 40,
        header_fixed(h).subrange(0, 4) == u32_le(HEADER_SIZE),
        header_fixed(h).subrange(4, 8) == u32_le(h.width),
        header_fixed(h).subrange(8, 12) == u32_le(h.height),
        header_fixed(h).subrange(12, 14) == u16_le(1),
        header_fixed(h).subrange(14, 16) == u16_le(h.bit_depth),
        header_fixed(h).subrange(16, 20) == u32_le(0),
        header_fixed(h).subrange(20, 24) == u32_le(h.bitmap_image_size),
        header_fixed(h).subrange(24, 28) == u32_le(h.mode_tag),
        header_fixed(h).subrange(28, 32) == u32_le(h.mode_tag),
        header_fixed(h).subrange(32, 36) == u32_le(h.palette.len() as u32),
        header_fixed(h).subrange(36, 40) == u32_le(h.palette.len() as u32),
{
    let f = header_fixed(h);
    assert(f.len() == 40);
    assert(f.subrange(0, 4) =~= u32_le(HEADER_SIZE));
    assert(f.subrange(4, 8) =~= u32_le(h.width));
    assert(f.subrange(8, 12) =~= u32_le(h.height));
    assert(f.subrange(12, 14) =~= u16_le(1));
    assert(f.subrange(14, 16) =~= u16_le(h.bit_depth));
    assert(f.subrange(16, 20) =~= u32_le(0));
    assert(f.subrange(20, 24) =~= u32_le(h.bitmap_image_size));
    assert(f.subrange(24, 28) =~= u32_le(h.mode_tag));
    assert(f.subrange(28, 32) =~= u32_le(h.mode_tag));
    assert(f.subrange(32, 36) =~= u32_le(h.palette.len() as u32));
    assert(f.subrange(36, 40) =~= u32_le(h.palette.len() as u32));
}

/// What each field of a stored header reads as.
proof fn lemma_header_fields(h: ImageFileView, tail: Seq<u8>)
    ensures
        ({
            let b = header_bytes(h) + tail;
            &&& b.len() == header_len(h) + tail.len()
            &&& le_u32(b, 0) == HEADER_SIZE
            &&& le_u32(b, 4) == h.width
            &&& le_u32(b, 8) == h.height
            &&& le_u16(b, 12) == 1
            &&& le_u16(b, 14) == h.bit_depth
            &&& le_u32(b, 16) == 0
            &&& le_u32(b, 20) == h.bitmap_image_size
            &&& le_u32(b, 24) == h.mode_tag
            &&& le_u32(b, 28) == h.mode_tag
            &&& le_u32(b, 32) == h.palette.len() as u32
            &&& le_u32(b, 36) == h.palette.len() as u32
        }),
{
    let f = header_fixed(h);
    let b = header_bytes(h) + tail;
    lemma_header_fixed_layout(h);
    assert(b.subrange(0, 40) =~= f);
    assert forall|i: int, j: int| 0 <= i <= j <= 40 implies #[trigger] b.subrange(i, j)
        == f.subrange(i, j) by {
        assert(b.subrange(i, j) =~= f.subrange(i, j));
    }
    crate::wire::lemma_field_u32(b, 0, HEADER_SIZE);
    crate::wire::lemma_field_u32(b, 4, h.width);
    crate::wire::lemma_field_u32(b, 8, h.height);
    crate::wire::lemma_field_u16(b, 12, 1);
    crate::wire::lemma_field_u16(b, 14, h.bit_depth);
    crate::wire::lemma_field_u32(b, 16, 0);
    crate::wire::lemma_field_u32(b, 20, h.bitmap_image_size);
    crate::wire::lemma_field_u32(b, 24, h.mode_tag);
    crate::wire::lemma_field_u32(b, 28, h.mode_tag);
    crate::wire::lemma_field_u32(b, 32, h.palette.len() as u32);
    crate::wire::lemma_field_u32(b, 36, h.palette.len() as u32);
}

/// Reading back a stored header gives the header and its palette, with no
/// warning about the fields stored twice, whatever follows the palette.
pub proof fn lemma_header_round_trip(h: ImageFileView, tail: Seq<u8>)
    requires
        h.palette.len() <= u32::MAX,
    ensures
        header_bytes(h).len() == header_len(h),
        parse_header(header_bytes(h) + tail) == Ok::<(ImageFileView, Seq<Warning>), CodecError>(
            (h, Seq::empty()),
        ),
{
    let n = h.palette.len() as u32;
    lemma_header_fields(h, tail);
    lemma_header_fixed_layout(h);
    crate::color::lemma_palette_round_trip(header_fixed(h), h.palette, tail);
    assert(copy_warnings(h.mode_tag, h.mode_tag, n, n) =~= Seq::<Warning>::empty());
}

/// Decoding an encoded image gives the header and the palette back without
/// a warning about them, and decodes the pixel rows that were given.
pub proof fn lemma_imagefile_round_trip(h: ImageFileView, rows: Seq<u8>)
    requires
        h.palette.len() <= u32::MAX,
    ensures
        parse_imagefile(imagefile_bytes(h, rows)) == parse_rows(h, Seq::empty(), rows),
{
    lemma_header_round_trip(h, rows);
    let b = imagefile_bytes(h, rows);
    assert(b.subrange(header_len(h) as int, b.len() as int) =~= rows);
}

/// Byte `c` of pixel `x` of row `y` of a decoded image, counted from the
/// top, is byte `c` of pixel `x` of the stored row that is as far from the
/// end as `y` is from the start.
pub proof fn lemma_image_pixel(
    h: ImageFileView,
    noted: Seq<Warning>,
    rows: Seq<u8>,
    x: int,
    y: int,
    c: int,
)
    requires
        parse_rows(h, noted, rows) is Ok,
        0 <= x < h.width,
        0 <= y < h.height,
        0 <= c < 4,
    ensures
        ColorMode::of_depth(h.bit_depth) is Some,
        parse_rows(h, noted, rows)->Ok_0.rgba.len() == 4 * h.width * h.height,
        0 <= (y * h.width + x) * 4 + c < 4 * h.width * h.height,
        parse_rows(h, noted, rows)->Ok_0.rgba[(y * h.width + x) * 4 + c] == crate::pixels::pixel(
            ColorMode::of_depth(h.bit_depth)->Some_0,
            h.palette,
            crate::pixels::stored_row(
                ColorMode::of_depth(h.bit_depth)->Some_0,
                rows,
                h.width as nat,
                h.height - 1 - y,
            ),
            x,
        )[c],
{
    let mode = ColorMode::of_depth(h.bit_depth)->Some_0;
    let w = h.width as nat;
    let n = h.height as nat;
    let stored = decode_rows(mode, h.palette, rows, w, n)->Ok_0;
    crate::pixels::lemma_decoded_pixel(mode, h.palette, rows, w, n, x, n - 1 - y, c);
    crate::raster::lemma_flip_rows_at(stored, 4 * w, n, y, 4 * x + c);
    assert((y * w + x) * 4 + c == y * (4 * w) + (4 * x + c)) by (nonlinear_arith);
    assert((4 * w) * n == 4 * w * n);
    assert((n - 1 - y) * (4 * w) + (4 * x + c) == (n - 1 - y) * (4 * w) + 4 * x + c);
}

/// The rows that the encoder stores for a raster decode to the raster with
/// its rows flipped and its alpha inverted, and flipping that gives the
/// raster with its alpha inverted.
proof fn lemma_rgba_rows(w: nat, n: nat, rgba: Seq<u8>)
    requires
        rgba.len() == 4 * w * n,
    ensures
        decode_rows(
            ColorMode::Bgra888_32,
            Seq::empty(),
            crate::raster::swap_red_blue(flip_rows(rgba, 4 * w, n)),
            w,
            n,
        ) == Ok::<Seq<u8>, CodecError>(crate::raster::invert_alpha(flip_rows(rgba, 4 * w, n))),
        flip_rows(crate::raster::invert_alpha(flip_rows(rgba, 4 * w, n)), 4 * w, n)
            == crate::raster::invert_alpha(rgba),
{
    let flipped = flip_rows(rgba, 4 * w, n);
    let rows = crate::raster::swap_red_blue(flipped);
    let p = w * n;
    assert(4 * w * n == 4 * p && (4 * w) * n == 4 * p) by (nonlinear_arith)
        requires
            p == w * n,
    ;
    assert(rows.len() == 4 * p);
    crate::pixels::lemma_decode_rows_bgra(Seq::empty(), rows, w, n);
    assert(rows.subrange(0, (4 * w * n) as int) =~= rows);
    crate::raster::lemma_swap_red_blue_twice(flipped);
    crate::raster::lemma_invert_alpha_flip(flipped, w, n);
    crate::raster::lemma_flip_rows_twice(rgba, 4 * w, n);
}

/// The rows that the encoder stores for a raster decode, under the header
/// it writes, to the raster with its alpha inverted.
proof fn lemma_rgba_parse_rows(width: u32, height: u32, rgba: Seq<u8>)
    requires
        rgba.len() == 4 * width * height,
        rgba.len() <= u32::MAX,
    ensures
        parse_rows(
            rgba_header(width, height),
            Seq::empty(),
            crate::raster::swap_red_blue(flip_rows(rgba, 4 * width as nat, height as nat)),
        ) == Ok::<DecodedImageView, CodecError>(
            DecodedImageView {
                header: rgba_header(width, height),
                rgba: crate::raster::invert_alpha(rgba),
                warnings: Seq::empty(),
            },
        ),
{
    let h = rgba_header(width, height);
    let w = width as nat;
    let n = height as nat;
    let mode = ColorMode::Bgra888_32;
    lemma_rgba_rows(w, n, rgba);
    assert(ColorMode::of_depth(h.bit_depth) == Some(mode));
    assert(mode.row_len(w) == 4 * w);
    assert(mode.image_size(w, n) == 4 * w * n);
    assert(h.bitmap_image_size == 4 * w * n);
    assert(mode_warnings(mode, h) =~= Seq::<Warning>::empty());
    assert(Seq::<Warning>::empty() + mode_warnings(mode, h) =~= Seq::<Warning>::empty());
}

/// Decoding the encoding of a raster gives the raster back with the alpha
/// of every pixel inverted, under the header the encoder wrote, and without
/// a warning.
pub proof fn lemma_rgba_image_round_trip(width: u32, height: u32, rgba: Seq<u8>)
    requires
        rgba.len() == 4 * width * height,
        rgba.len() <= u32::MAX,
    ensures
        parse_imagefile(rgba_image_bytes(width, height, rgba)) == Ok::<
            DecodedImageView,
            CodecError,
        >(
            DecodedImageView {
                header: rgba_header(width, height),
                rgba: crate::raster::invert_alpha(rgba),
                warnings: Seq::empty(),
            },
        ),
{
    let rows = crate::raster::swap_red_blue(flip_rows(rgba, 4 * width as nat, height as nat));
    lemma_imagefile_round_trip(rgba_header(width, height), rows);
    lemma_rgba_parse_rows(width, height, rgba);
}

} // verus!
