//! Errors and warnings shared by every codec.
use vstd::prelude::*;

verus! {

/// Why a codec call failed. Every failure is final: the codecs recover nothing
/// internally.
#[derive(Clone, Copy, Debug, PartialEq, Eq, Structural)]
pub enum CodecError {
    /// The first two bytes of a bitmap file header are not `B`, `M`.
    BadMagic,
    /// One of the fixed fields of an image header does not hold its constant.
    BadHeaderSize,
    /// The bit depth is not one of 4, 8, 16, 24, 32.
    UnsupportedBitDepth,
    /// A header or a table ends before its last field.
    TruncatedInput,
    /// The pixel rows end before the last row is complete.
    TruncatedPixelData,
    /// A descriptor, or a seek, names bytes outside the buffer.
    OffsetOutOfRange,
    /// A title needs more than 520 bytes of UTF-16LE.
    TitleTooLong,
    /// A pixel names a palette entry that the palette does not have.
    PaletteIndexOutOfRange,
    /// A stored title is not UTF-16LE.
    InvalidUtf16,
    /// A write would pass the limit of the buffer, or a length does not fit
    /// the 32-bit field that stores it.
    Overflow,
}

/// An anomaly that a decoder reports without failing.
#[derive(Clone, Copy, Debug, PartialEq, Eq, Structural)]
pub enum Warning {
    /// The mode tag is not the one that goes with the bit depth.
    ModeTagMismatch,
    /// The second copy of the mode tag differs from the first.
    ModeTagCopyMismatch,
    /// The stored pixel data size is not the one that goes with the bit depth.
    BitmapImageSizeMismatch,
    /// The second copy of the palette count differs from the first.
    PaletteCountMismatch,
    /// Two members of an archive share bytes.
    OverlappingMembers,
}

} // verus!
