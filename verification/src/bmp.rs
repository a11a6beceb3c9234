//! The two headers of a Windows bitmap file, and the step between a bitmap
//! file and the same bitmap without its file header (a DIB).
//!
//! The file header takes 14 bytes: `B`, `M`, the size of the file, a zero,
//! and the offset of the pixel data, each of the three a 32-bit integer. The
//! info header that follows takes 40 bytes and is followed by the palette.
use vstd::prelude::*;
use vstd::slice::slice_to_vec;
use crate::color::{palette_at, palette_bytes, ImageColor};
use crate::cursor::{Reader, Writer};
use crate::error::CodecError;
use crate::wire::{
    bits_i32, bits_to_i32, i32_bits, i32_to_bits, le_u16, le_u32, lemma_field_u16,
    lemma_field_u32, lemma_i32_round_trip, lemma_u32_bytes_round_trip, u16_le, u32_le,
};

verus! {

/// The header at the start of a bitmap file: the size of the whole file and
/// the offset of the pixel data, both in bytes.
#[derive(Clone, Copy, Debug, PartialEq, Eq, Structural)]
pub struct BitmapFileHeader {
    pub size: u32,
    pub off_bits: u32,
}

impl BitmapFileHeader {
    /// The 14 bytes of the header as stored.
    pub open spec fn wire(self) -> Seq<u8> {
        seq![0x42u8, 0x4Du8] + u32_le(self.size) + u32_le(0) + u32_le(self.off_bits)
    }

    /// The header at the start of `b`. The magic is looked at as soon as its
    /// two bytes are there.
    pub open spec fn parse(b: Seq<u8>) -> Result<BitmapFileHeader, CodecError> {
        if b.len() < 2 {
            Err(CodecError::TruncatedInput)
        } else if b[0] != 0x42 || b[1] != 0x4D {
            Err(CodecError::BadMagic)
        } else if b.len() < 14 {
            Err(CodecError::TruncatedInput)
        } else {
            Ok(BitmapFileHeader { size: le_u32(b, 2), off_bits: le_u32(b, 10) })
        }
    }

    /// The stored form of the header.
    pub fn encode(&self) -> (out: Vec<u8>)
        ensures
            out@ == self.wire(),
    {
        let mut w = Writer::new();
        let _ = w.write_u8(0x42);
        let _ = w.write_u8(0x4D);
        let _ = w.write_u32(self.size);
        let _ = w.write_u32(0);
        let _ = w.write_u32(self.off_bits);
        w.into_bytes()
    }

    /// Reads a header at the reader's position. On success the reader
    /// stands behind it.
    pub fn decode(reader: &mut Reader) -> (r: Result<BitmapFileHeader, CodecError>)
        ensures
            final(reader).data == old(reader).data,
            r == BitmapFileHeader::parse(old(reader).rest()),
            r is Ok ==> final(reader).pos == old(reader).pos + 14,
    {
        let ghost b = reader.rest();
        let ghost start = reader.pos as int;
        assert(forall|k: int| 0 <= k < b.len() ==> b[k] == reader.data@[start + k]);
        if reader.remaining() < 2 {
            return Err(CodecError::TruncatedInput);
        }
        let m0: u8 = reader.read_u8()?;
        let m1: u8 = reader.read_u8()?;
        if m0 != 0x42 || m1 != 0x4D {
            return Err(CodecError::BadMagic);
        }
        if reader.remaining() < 12 {
            return Err(CodecError::TruncatedInput);
        }
        let size: u32 = reader.read_u32()?;
        let reserved: u32 = reader.read_u32()?;
        let off_bits: u32 = reader.read_u32()?;
        Ok(BitmapFileHeader { size, off_bits })
    }
}

/// The info header of a bitmap together with its palette. The header size
/// of 40, the plane count of 1 and the count of palette entries are not
/// held: the encoder writes them.
#[derive(Debug, PartialEq, Eq)]
pub struct BitmapInfoHeader {
    pub width: i32,
    pub height: i32,
    pub bit_count: u16,
    pub compression: u32,
    pub size_image: u32,
    pub x_pels_per_meter: i32,
    pub y_pels_per_meter: i32,
    pub clr_important: u32,
    pub colorpalette: Vec<ImageColor>,
}

/// What a `BitmapInfoHeader` holds.
pub struct BitmapInfoView {
    pub width: i32,
    pub height: i32,
    pub bit_count: u16,
    pub compression: u32,
    pub size_image: u32,
    pub x_pels_per_meter: i32,
    pub y_pels_per_meter: i32,
    pub clr_important: u32,
    pub palette: Seq<ImageColor>,
}

impl View for BitmapInfoHeader {
    type V = BitmapInfoView;

    open spec fn view(&self) -> BitmapInfoView {
        BitmapInfoView {
            width: self.width,
            height: self.height,
            bit_count: self.bit_count,
            compression: self.compression,
            size_image: self.size_image,
            x_pels_per_meter: self.x_pels_per_meter,
            y_pels_per_meter: self.y_pels_per_meter,
            clr_important: self.clr_important,
            palette: self.colorpalette@,
        }
    }
}

/// The 40 bytes of the fixed part of an info header.
pub open spec fn info_fixed(h: BitmapInfoView) -> Seq<u8> {
    u32_le(40) + u32_le(i32_bits(h.width)) + u32_le(i32_bits(h.height)) + u16_le(1) + u16_le(
        h.bit_count,
    ) + u32_le(h.compression) + u32_le(h.size_image) + u32_le(i32_bits(h.x_pels_per_meter))
        + u32_le(i32_bits(h.y_pels_per_meter)) + u32_le(h.palette.len() as u32) + u32_le(
        h.clr_important,
    )
}

/// The stored form of an info header: the fixed part, then the palette.
pub open spec fn info_bytes(h: BitmapInfoView) -> Seq<u8> {
    info_fixed(h) + palette_bytes(h.palette)
}

/// The number of bytes that an info header and its palette take.
pub open spec fn info_len(h: BitmapInfoView) -> nat {
    40 + 4 * h.palette.len()
}

/// The info header at the start of `b`, with as many palette entries as its
/// count of used colours says. The 40 bytes must be there, then the palette.
pub open spec fn parse_info(b: Seq<u8>) -> Result<BitmapInfoView, CodecError> {
    if b.len() < 40 {
        Err(CodecError::TruncatedInput)
    } else if b.len() < 40 + 4 * le_u32(b, 32) {
        Err(CodecError::TruncatedInput)
    } else {
        Ok(
            BitmapInfoView {
                width: bits_i32(le_u32(b, 4)),
                height: bits_i32(le_u32(b, 8)),
                bit_count: le_u16(b, 14),
                compression: le_u32(b, 16),
                size_image: le_u32(b, 20),
                x_pels_per_meter: bits_i32(le_u32(b, 24)),
                y_pels_per_meter: bits_i32(le_u32(b, 28)),
                clr_important: le_u32(b, 36),
                palette: palette_at(b, 40, le_u32(b, 32) as nat),
            },
        )
    }
}

impl BitmapInfoHeader {
    /// Reads an info header and its palette at the reader's position. On
    /// success the reader stands behind the palette.
    pub fn decode(reader: &mut Reader) -> (r: Result<BitmapInfoHeader, CodecError>)
        ensures
            final(reader).data == old(reader).data,
            match parse_info(old(reader).rest()) {
                Ok(h) => r is Ok && r->Ok_0@ == h && final(reader).pos == old(reader).pos
                    + info_len(h),
                Err(e) => r is Err && r->Err_0 == e,
            },
    {
        let ghost b = reader.rest();
        let ghost start = reader.pos as int;
        if reader.remaining() < 40 {
            return Err(CodecError::TruncatedInput);
        }
        assert(forall|k: int| 0 <= k < b.len() ==> b[k] == reader.data@[start + k]);
        let header_size: u32 = reader.read_u32()?;
        let width: u32 = reader.read_u32()?;
        let height: u32 = reader.read_u32()?;
        let planes: u16 = reader.read_u16()?;
        let bit_count: u16 = reader.read_u16()?;
        let compression: u32 = reader.read_u32()?;
        let size_image: u32 = reader.read_u32()?;
        let x_pels: u32 = reader.read_u32()?;
        let y_pels: u32 = reader.read_u32()?;
        let clr_used: u32 = reader.read_u32()?;
        let clr_important: u32 = reader.read_u32()?;
        assert(reader.pos == start + 40);
        if (reader.remaining() as u64) < 4 * (clr_used as u64) {
            return Err(CodecError::TruncatedInput);
        }
        let mut colorpalette: Vec<ImageColor> = Vec::new();
        let mut i: u32 = 0;
        while i < clr_used
            invariant
                0 <= i <= clr_used,
                reader.data == old(reader).data,
                b == old(reader).rest(),
                start == old(reader).pos,
                start + 40 + 4 * clr_used <= reader.data@.len(),
                reader.pos == start + 40 + 4 * i,
                colorpalette@ == palette_at(b, 40, i as nat),
            decreases clr_used - i,
        {
            let blue: u8 = reader.read_u8()?;
            let green: u8 = reader.read_u8()?;
            let red: u8 = reader.read_u8()?;
            let alpha: u8 = reader.read_u8()?;
            colorpalette.push(ImageColor { b: blue, g: green, r: red, a: alpha });
            i = i + 1;
            assert(colorpalette@ =~= palette_at(b, 40, i as nat));
        }
        Ok(
            BitmapInfoHeader {
                width: bits_to_i32(width),
                height: bits_to_i32(height),
                bit_count,
                compression,
                size_image,
                x_pels_per_meter: bits_to_i32(x_pels),
                y_pels_per_meter: bits_to_i32(y_pels),
                clr_important,
                colorpalette,
            },
        )
    }

    /// The stored form of the info header and its palette. A palette of
    /// more entries than a 32-bit count can hold is refused, and so is one
    /// whose stored form no buffer can hold.
    pub fn encode(&self) -> (r: Result<Vec<u8>, CodecError>)
        ensures
            self@.palette.len() <= u32::MAX && info_len(self@) <= usize::MAX ==> r is Ok
                && r->Ok_0@ == info_bytes(self@),
            !(self@.palette.len() <= u32::MAX && info_len(self@) <= usize::MAX) ==> r == Err::<
                Vec<u8>,
                CodecError,
            >(CodecError::Overflow),
    {
        let n: usize = self.colorpalette.len();
        if n > u32::MAX as usize || n > (usize::MAX - 40) / 4 {
            return Err(CodecError::Overflow);
        }
        let mut w = Writer::new();
        w.write_u32(40)?;
        w.write_u32(i32_to_bits(self.width))?;
        w.write_u32(i32_to_bits(self.height))?;
        w.write_u16(1)?;
        w.write_u16(self.bit_count)?;
        w.write_u32(self.compression)?;
        w.write_u32(self.size_image)?;
        w.write_u32(i32_to_bits(self.x_pels_per_meter))?;
        w.write_u32(i32_to_bits(self.y_pels_per_meter))?;
        w.write_u32(n as u32)?;
        w.write_u32(self.clr_important)?;
        assert(w.buf@ == info_fixed(self@));
        let mut i: usize = 0;
        while i < n
            invariant
                0 <= i <= n,
                n == self.colorpalette@.len(),
                40 + 4 * n <= usize::MAX,
                w.limit == usize::MAX,
                w.pos == 40 + 4 * i,
                w.at_end(),
                w.buf@ == info_fixed(self@) + palette_bytes(self.colorpalette@.subrange(0, i as int)),
            decreases n - i,
        {
            let c: ImageColor = self.colorpalette[i];
            let ghost before = w.buf@;
            w.write_u8(c.b)?;
            w.write_u8(c.g)?;
            w.write_u8(c.r)?;
            w.write_u8(c.a)?;
            assert(w.buf@ =~= info_fixed(self@) + palette_bytes(
                self.colorpalette@.subrange(0, i + 1),
            )) by {
                let now = palette_bytes(self.colorpalette@.subrange(0, i + 1));
                let was = palette_bytes(self.colorpalette@.subrange(0, i as int));
                assert(w.buf@ =~= before + seq![c.b, c.g, c.r, c.a]);
                assert(now =~= was + c.wire());
            }
            i = i + 1;
        }
        assert(self.colorpalette@.subrange(0, n as int) =~= self.colorpalette@);
        Ok(w.into_bytes())
    }
}

/// The bitmap `b` without its file header: what stands behind the first 14
/// bytes, which is nothing in a file of fewer bytes than that.
pub open spec fn dib_of_bmp(b: Seq<u8>) -> Seq<u8> {
    if b.len() < 14 {
        Seq::empty()
    } else {
        b.subrange(14, b.len() as int)
    }
}

/// The file header that goes before the DIB `d`: the size of the file is 14
/// more than that of the DIB, and the pixel data starts behind the two
/// headers and the palette.
pub open spec fn file_header_for(d: Seq<u8>, palette_len: nat) -> BitmapFileHeader {
    BitmapFileHeader { size: (14 + d.len()) as u32, off_bits: (14 + 40 + 4 * palette_len) as u32 }
}

/// The bitmap file of the DIB `d`. The info header and the palette of the
/// DIB must be there, and the file must not take more bytes than its 32-bit
/// size field can hold.
pub open spec fn bmp_of_dib(d: Seq<u8>) -> Result<Seq<u8>, CodecError> {
    match parse_info(d) {
        Err(e) => Err(e),
        Ok(info) => if 14 + d.len() > u32::MAX {
            Err(CodecError::Overflow)
        } else {
            Ok(file_header_for(d, info.palette.len()).wire() + d)
        },
    }
}

/// Takes the file header off a bitmap file. The first 14 bytes are dropped
/// without a look at what they hold; of a shorter file nothing is left.
pub fn strip_bmp_to_dib(bmp_bytes: &[u8]) -> (dib: Vec<u8>)
    ensures
        dib@ == dib_of_bmp(bmp_bytes@),
{
    let len: usize = bmp_bytes.len();
    if len < 14 {
        Vec::new()
    } else {
        slice_to_vec(&bmp_bytes[14..len])
    }
}

/// Puts a file header before a DIB. The palette length is read from the
/// info header of the DIB.
pub fn encode_bmp_from_dib(dib_bytes: &[u8]) -> (r: Result<Vec<u8>, CodecError>)
    ensures
        match bmp_of_dib(dib_bytes@) {
            Ok(bmp) => r is Ok && r->Ok_0@ == bmp,
            Err(e) => r is Err && r->Err_0 == e,
        },
{
    let mut reader = Reader::new(dib_bytes);
    let info: BitmapInfoHeader = BitmapInfoHeader::decode(&mut reader)?;
    let len: usize = dib_bytes.len();
    if len > u32::MAX as usize - 14 {
        return Err(CodecError::Overflow);
    }
    let n: usize = info.colorpalette.len();
    assert(40 + 4 * n <= len);
    let header = BitmapFileHeader { size: (14 + len) as u32, off_bits: (54 + 4 * n) as u32 };
    let mut w = Writer::append_to(header.encode());
    w.write_all(dib_bytes)?;
    Ok(w.into_bytes())
}

/// Where each field stands in the fixed part of an info header.
proof fn lemma_info_fixed_layout(h: BitmapInfoView)
    ensures
        info_fixed(h).len() == 40,
        info_fixed(h).subrange(4, 8) == u32_le(i32_bits(h.width)),
        info_fixed(h).subrange(8, 12) == u32_le(i32_bits(h.height)),
        info_fixed(h).subrange(14, 16) == u16_le(h.bit_count),
        info_fixed(h).subrange(16, 20) == u32_le(h.compression),
        info_fixed(h).subrange(20, 24) == u32_le(h.size_image),
        info_fixed(h).subrange(24, 28) == u32_le(i32_bits(h.x_pels_per_meter)),
        info_fixed(h).subrange(28, 32) == u32_le(i32_bits(h.y_pels_per_meter)),
        info_fixed(h).subrange(32, 36) == u32_le(h.palette.len() as u32),
        info_fixed(h).subrange(36, 40) == u32_le(h.clr_important),
{
    let f = info_fixed(h);
    assert(f.len() == 40);
    assert(f.subrange(4, 8) =~= u32_le(i32_bits(h.width)));
    assert(f.subrange(8, 12) =~= u32_le(i32_bits(h.height)));
    assert(f.subrange(14, 16) =~= u16_le(h.bit_count));
    assert(f.subrange(16, 20) =~= u32_le(h.compression));
    assert(f.subrange(20, 24) =~= u32_le(h.size_image));
    assert(f.subrange(24, 28) =~= u32_le(i32_bits(h.x_pels_per_meter)));
    assert(f.subrange(28, 32) =~= u32_le(i32_bits(h.y_pels_per_meter)));
    assert(f.subrange(32, 36) =~= u32_le(h.palette.len() as u32));
    assert(f.subrange(36, 40) =~= u32_le(h.clr_important));
}

/// Reading back a stored info header gives the header and its palette,
/// whatever follows the palette.
pub proof fn lemma_info_round_trip(h: BitmapInfoView, tail: Seq<u8>)
    requires
        h.palette.len() <= u32::MAX,
    ensures
        info_bytes(h).len() == info_len(h),
        parse_info(info_bytes(h) + tail) == Ok::<BitmapInfoView, CodecError>(h),
{
    let f = info_fixed(h);
    let b = info_bytes(h) + tail;
    lemma_info_fixed_layout(h);
    assert forall|i: int, j: int| 0 <= i <= j <= 40 implies #[trigger] b.subrange(i, j)
        == f.subrange(i, j) by {
        assert(b.subrange(i, j) =~= f.subrange(i, j));
    }
    lemma_field_u32(b, 4, i32_bits(h.width));
    lemma_field_u32(b, 8, i32_bits(h.height));
    lemma_field_u16(b, 14, h.bit_count);
    lemma_field_u32(b, 16, h.compression);
    lemma_field_u32(b, 20, h.size_image);
    lemma_field_u32(b, 24, i32_bits(h.x_pels_per_meter));
    lemma_field_u32(b, 28, i32_bits(h.y_pels_per_meter));
    lemma_field_u32(b, 32, h.palette.len() as u32);
    lemma_field_u32(b, 36, h.clr_important);
    lemma_i32_round_trip(h.width);
    lemma_i32_round_trip(h.height);
    lemma_i32_round_trip(h.x_pels_per_meter);
    lemma_i32_round_trip(h.y_pels_per_meter);
    crate::color::lemma_palette_round_trip(f, h.palette, tail);
}

/// Whether `b` is a bitmap file as the encoder writes it: behind the magic
/// stand the length of the file, a zero, and the offset of the pixel data
/// right behind the info header and the palette that the info header
/// declares.
pub open spec fn well_formed_bmp(b: Seq<u8>) -> bool {
    &&& BitmapFileHeader::parse(b) is Ok
    &&& le_u32(b, 2) == b.len()
    &&& le_u32(b, 6) == 0
    &&& parse_info(b.subrange(14, b.len() as int)) is Ok
    &&& le_u32(b, 10) == 14 + 40 + 4 * parse_info(b.subrange(14, b.len() as int))->Ok_0.palette.len()
}

/// Reading back a stored file header gives the header, whatever follows it.
pub proof fn lemma_file_header_round_trip(h: BitmapFileHeader, tail: Seq<u8>)
    ensures
        h.wire().len() == 14,
        BitmapFileHeader::parse(h.wire() + tail) == Ok::<BitmapFileHeader, CodecError>(h),
{
    let b = h.wire() + tail;
    assert(b[0] == 0x42 && b[1] == 0x4D);
    assert(b.subrange(2, 6) =~= u32_le(h.size));
    assert(b.subrange(10, 14) =~= u32_le(h.off_bits));
    lemma_field_u32(b, 2, h.size);
    lemma_field_u32(b, 10, h.off_bits);
}

/// Taking the file header off a well-formed bitmap file and putting one
/// before the rest gives the file back, byte for byte.
pub proof fn lemma_bmp_round_trip(b: Seq<u8>)
    requires
        well_formed_bmp(b),
    ensures
        bmp_of_dib(dib_of_bmp(b)) == Ok::<Seq<u8>, CodecError>(b),
{
    let d = b.subrange(14, b.len() as int);
    let info = parse_info(d)->Ok_0;
    let h = file_header_for(d, info.palette.len());
    assert(h.size == le_u32(b, 2));
    assert(h.off_bits == le_u32(b, 10));
    lemma_u32_bytes_round_trip(b, 2);
    lemma_u32_bytes_round_trip(b, 6);
    lemma_u32_bytes_round_trip(b, 10);
    assert(h.wire() =~= b.subrange(0, 2) + b.subrange(2, 6) + b.subrange(6, 10) + b.subrange(
        10,
        14,
    ));
    assert(h.wire() + d =~= b);
}

/// Putting a file header before a DIB and taking it off again gives the DIB
/// back, and the header that was put there names the length of the file and
/// the offset behind the palette.
pub proof fn lemma_dib_round_trip(d: Seq<u8>)
    requires
        bmp_of_dib(d) is Ok,
    ensures
        dib_of_bmp(bmp_of_dib(d)->Ok_0) == d,
        well_formed_bmp(bmp_of_dib(d)->Ok_0),
{
    let info = parse_info(d)->Ok_0;
    let h = file_header_for(d, info.palette.len());
    let b = h.wire() + d;
    lemma_file_header_round_trip(h, d);
    assert(b.subrange(14, b.len() as int) =~= d);
    assert(b.subrange(6, 10) =~= u32_le(0));
    lemma_field_u32(b, 6, 0);
}

} // verus!
