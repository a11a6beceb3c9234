//! Palette entries and the five colour modes of an image.
use vstd::prelude::*;
use crate::error::CodecError;

verus! {

/// A palette entry, stored as the four bytes B, G, R, A. The stored alpha is
/// inverted: a stored `a` of 0 is fully opaque.
#[derive(Clone, Copy, Debug, PartialEq, Eq, Structural)]
pub struct ImageColor {
    pub b: u8,
    pub g: u8,
    pub r: u8,
    pub a: u8,
}

impl ImageColor {
    /// The four bytes of the entry as stored.
    pub open spec fn wire(self) -> Seq<u8> {
        seq![self.b, self.g, self.r, self.a]
    }

    /// The entry as an R, G, B, A pixel, with the alpha it is displayed with.
    pub open spec fn rgba(self) -> Seq<u8> {
        seq![self.r, self.g, self.b, (255 - self.a) as u8]
    }

    /// The entry whose stored bytes start at `b[at]`.
    pub open spec fn at(b: Seq<u8>, at: int) -> ImageColor
        recommends
            0 <= at,
            at + 4 <= b.len(),
    {
        ImageColor { b: b[at], g: b[at + 1], r: b[at + 2], a: b[at + 3] }
    }

    /// The entry as an R, G, B, A pixel.
    pub fn to_rgba(&self) -> (out: [u8; 4])
        ensures
            out@ == self.rgba(),
    {
        let out: [u8; 4] = [self.r, self.g, self.b, 255 - self.a];
        assert(out@ =~= self.rgba());
        out
    }
}

/// The stored bytes of a palette: four for each entry, in order.
pub open spec fn palette_bytes(palette: Seq<ImageColor>) -> Seq<u8> {
    Seq::new(4 * palette.len(), |i: int| palette[i / 4].wire()[i % 4])
}

/// The `n` palette entries whose stored bytes start at `b[at]`.
pub open spec fn palette_at(b: Seq<u8>, at: int, n: nat) -> Seq<ImageColor> {
    Seq::new(n, |i: int| ImageColor::at(b, at + 4 * i))
}

/// Reading back the stored bytes of a palette gives the palette, whatever
/// stands before and behind them.
pub proof fn lemma_palette_round_trip(head: Seq<u8>, palette: Seq<ImageColor>, tail: Seq<u8>)
    ensures
        palette_at(head + palette_bytes(palette) + tail, head.len() as int, palette.len())
            == palette,
{
    let b = head + palette_bytes(palette) + tail;
    assert forall|i: int| 0 <= i < palette.len() implies ImageColor::at(b, head.len() + 4 * i)
        == palette[i] by {
        let k = head.len() + 4 * i;
        assert(b[k] == palette_bytes(palette)[4 * i]);
        assert(b[k + 1] == palette_bytes(palette)[4 * i + 1]);
        assert(b[k + 2] == palette_bytes(palette)[4 * i + 2]);
        assert(b[k + 3] == palette_bytes(palette)[4 * i + 3]);
    }
    assert(palette_at(b, head.len() as int, palette.len()) =~= palette);
}

/// How the pixels of an image are stored.
#[derive(Clone, Copy, Debug, PartialEq, Eq, Structural)]
pub enum ColorMode {
    /// Two pixels to a byte, each a palette index; the high nibble comes first.
    Palette4,
    /// One byte to a pixel, a palette index.
    Palette8,
    /// Two bytes to a pixel: a little-endian word with five bits each of B, G, R.
    Rgb555_16,
    /// Three bytes to a pixel: B, G, R.
    Bgr888_24,
    /// Four bytes to a pixel: B, G, R and the inverted alpha.
    Bgra888_32,
}

/// The value of the mode tag of an image whose pixels are palette indices or
/// 24-bit colours.
pub const MODE_TAG: u32 = 2834;

impl ColorMode {
    /// The mode that goes with a bit depth, if there is one.
    pub open spec fn of_depth(bit_depth: u16) -> Option<ColorMode> {
        if bit_depth == 4 {
            Some(ColorMode::Palette4)
        } else if bit_depth == 8 {
            Some(ColorMode::Palette8)
        } else if bit_depth == 16 {
            Some(ColorMode::Rgb555_16)
        } else if bit_depth == 24 {
            Some(ColorMode::Bgr888_24)
        } else if bit_depth == 32 {
            Some(ColorMode::Bgra888_32)
        } else {
            None
        }
    }

    /// The number of bits that one pixel takes.
    pub open spec fn depth(self) -> u16 {
        match self {
            ColorMode::Palette4 => 4,
            ColorMode::Palette8 => 8,
            ColorMode::Rgb555_16 => 16,
            ColorMode::Bgr888_24 => 24,
            ColorMode::Bgra888_32 => 32,
        }
    }

    /// Whether the pixels are palette indices.
    pub open spec fn indexed(self) -> bool {
        self == ColorMode::Palette4 || self == ColorMode::Palette8
    }

    /// Whether an image of this mode carries the mode tag 2834 and a stored
    /// image size of zero: the palette modes and the 24-bit mode.
    pub open spec fn tagged(self) -> bool {
        self.indexed() || self == ColorMode::Bgr888_24
    }

    /// The number of bytes that the `w` pixels of a row take, before padding.
    pub open spec fn raw_row_len(self, w: nat) -> nat {
        match self {
            ColorMode::Palette4 => (w + 1) / 2,
            ColorMode::Palette8 => w,
            ColorMode::Rgb555_16 => 2 * w,
            ColorMode::Bgr888_24 => 3 * w,
            ColorMode::Bgra888_32 => 4 * w,
        }
    }

    /// The number of bytes from the start of one stored row to the start of
    /// the next: the raw length, rounded up to a multiple of four.
    pub open spec fn row_len(self, w: nat) -> nat {
        (self.raw_row_len(w) + 3) / 4 * 4
    }

    /// The mode tag that an image of this mode should carry.
    pub open spec fn mode_tag(self) -> u32 {
        if self.tagged() {
            MODE_TAG
        } else {
            0
        }
    }

    /// The stored image size that an image of this mode should carry: the
    /// size of its pixel rows in the 16-bit and 32-bit modes, zero otherwise.
    pub open spec fn image_size(self, w: nat, h: nat) -> nat {
        if self.tagged() {
            0
        } else {
            self.row_len(w) * h
        }
    }

    /// The mode that goes with `bit_depth`; a depth other than 4, 8, 16, 24
    /// and 32 is refused.
    pub fn from_bit_depth(bit_depth: u16) -> (r: Result<ColorMode, CodecError>)
        ensures
            match ColorMode::of_depth(bit_depth) {
                Some(mode) => r == Ok::<ColorMode, CodecError>(mode),
                None => r == Err::<ColorMode, CodecError>(CodecError::UnsupportedBitDepth),
            },
    {
        if bit_depth == 4 {
            Ok(ColorMode::Palette4)
        } else if bit_depth == 8 {
            Ok(ColorMode::Palette8)
        } else if bit_depth == 16 {
            Ok(ColorMode::Rgb555_16)
        } else if bit_depth == 24 {
            Ok(ColorMode::Bgr888_24)
        } else if bit_depth == 32 {
            Ok(ColorMode::Bgra888_32)
        } else {
            Err(CodecError::UnsupportedBitDepth)
        }
    }

    /// The number of bits that one pixel takes.
    pub fn bit_depth(&self) -> (d: u16)
        ensures
            d == self.depth(),
            ColorMode::of_depth(d) == Some(*self),
    {
        match self {
            ColorMode::Palette4 => 4,
            ColorMode::Palette8 => 8,
            ColorMode::Rgb555_16 => 16,
            ColorMode::Bgr888_24 => 24,
            ColorMode::Bgra888_32 => 32,
        }
    }

    /// Whether an image of this mode carries the mode tag 2834.
    pub fn is_2834(&self) -> (r: bool)
        ensures
            r == self.tagged(),
            r == (self.mode_tag() == 2834),
    {
        match self {
            ColorMode::Palette4 | ColorMode::Palette8 => true,
            ColorMode::Bgr888_24 => true,
            _ => false,
        }
    }

    /// Whether the stored image size of this mode is left at zero, as it is
    /// for the modes whose rows usually end in padding: the palette modes
    /// and the 24-bit mode.
    pub fn has_padding(&self) -> (r: bool)
        ensures
            r == self.tagged(),
            r ==> forall|w: nat, h: nat| self.image_size(w, h) == 0,
    {
        match self {
            ColorMode::Palette4 | ColorMode::Palette8 => true,
            ColorMode::Bgr888_24 => true,
            _ => false,
        }
    }

    /// Whether the pixels are palette indices.
    pub fn is_colorpalette(&self) -> (r: bool)
        ensures
            r == self.indexed(),
    {
        match self {
            ColorMode::Palette4 | ColorMode::Palette8 => true,
            _ => false,
        }
    }

    /// The stored image size that an image of this mode and size should
    /// carry.
    pub fn expected_image_size(&self, width: u32, height: u32) -> (n: u128)
        ensures
            n == self.image_size(width as nat, height as nat),
    {
        if self.is_2834() {
            0
        } else {
            let stride: u64 = self.aligned_row_bytes(width);
            assert(stride * height <= 0x8_0000_0000_0000_0000) by (nonlinear_arith)
                requires
                    stride <= 0x4_0000_0000,
                    height <= 0xffff_ffff,
            ;
            (stride as u128) * (height as u128)
        }
    }

    /// The number of bytes from the start of one stored row of `width`
    /// pixels to the start of the next.
    pub fn aligned_row_bytes(&self, width: u32) -> (n: u64)
        ensures
            n == self.row_len(width as nat),
            n % 4 == 0,
            n <= 4 * width + 3,
    {
        let w: u64 = width as u64;
        let raw: u64 = match self {
            ColorMode::Palette4 => (w + 1) / 2,
            ColorMode::Palette8 => w,
            ColorMode::Rgb555_16 => 2 * w,
            ColorMode::Bgr888_24 => 3 * w,
            ColorMode::Bgra888_32 => 4 * w,
        };
        (raw + 3) / 4 * 4
    }
}

} // verus!
