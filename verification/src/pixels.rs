//! The pixel planes: stored rows of pixels in one of five colour modes, and
//! the R, G, B, A raster they decode to.
//!
//! Rows are stored bottom-up, each padded to a multiple of four bytes. A
//! raster holds four bytes for each pixel, in the order R, G, B, A.
use vstd::prelude::*;
use crate::color::{ColorMode, ImageColor};
use crate::cursor::Reader;
use crate::error::CodecError;
use crate::wire::le_u16;

verus! {

/// A five-bit channel stretched to eight bits.
pub open spec fn expand5(c: int) -> int {
    c * 33 / 4
}

/// The pixel of a 15-bit colour word: the lowest five bits are blue, the
/// next five green, the next five red, and the top bit is ignored.
pub open spec fn rgb555_rgba(word: u16) -> Seq<u8> {
    seq![
        expand5(word as int / 1024 % 32) as u8,
        expand5(word as int / 32 % 32) as u8,
        expand5(word as int % 32) as u8,
        255u8,
    ]
}

/// The stretch takes 0 to 0 and 31 to 255, stays within a byte, and never
/// decreases as the channel grows.
pub proof fn lemma_expand5_monotonic(c: int, d: int)
    requires
        0 <= c <= d <= 31,
    ensures
        expand5(0) == 0,
        expand5(31) == 255,
        0 <= expand5(c) <= expand5(d) <= 255,
        expand5(c) == 8 * c + c / 4,
{
}

/// The palette index of pixel `x` of a stored row.
pub open spec fn palette_index(mode: ColorMode, row: Seq<u8>, x: int) -> int {
    if mode == ColorMode::Palette4 {
        if x % 2 == 0 {
            row[x / 2] as int / 16
        } else {
            row[x / 2] as int % 16
        }
    } else {
        row[x] as int
    }
}

/// Whether pixel `x` of a stored row can be decoded: in the palette modes its
/// index must name an entry of the palette.
pub open spec fn pixel_ok(mode: ColorMode, palette: Seq<ImageColor>, row: Seq<u8>, x: int) -> bool {
    mode.indexed() ==> palette_index(mode, row, x) < palette.len()
}

/// The four bytes R, G, B, A of pixel `x` of a stored row.
pub open spec fn pixel(mode: ColorMode, palette: Seq<ImageColor>, row: Seq<u8>, x: int) -> Seq<u8> {
    match mode {
        ColorMode::Palette4 | ColorMode::Palette8 => palette[palette_index(mode, row, x)].rgba(),
        ColorMode::Rgb555_16 => rgb555_rgba(le_u16(row, 2 * x)),
        ColorMode::Bgr888_24 => seq![row[3 * x + 2], row[3 * x + 1], row[3 * x], 255u8],
        ColorMode::Bgra888_32 => seq![
            row[4 * x + 2],
            row[4 * x + 1],
            row[4 * x],
            (255 - row[4 * x + 3]) as u8,
        ],
    }
}

/// Whether each of the `w` pixels of a stored row can be decoded.
pub open spec fn row_ok(mode: ColorMode, palette: Seq<ImageColor>, row: Seq<u8>, w: nat) -> bool {
    forall|x: int| 0 <= x < w ==> pixel_ok(mode, palette, row, x)
}

/// The raster of the `w` pixels of a stored row, left to right.
pub open spec fn row_rgba(mode: ColorMode, palette: Seq<ImageColor>, row: Seq<u8>, w: nat) -> Seq<
    u8,
> {
    Seq::new(4 * w, |i: int| pixel(mode, palette, row, i / 4)[i % 4])
}

/// Stored row `r` of the pixel data.
pub open spec fn stored_row(mode: ColorMode, data: Seq<u8>, w: nat, r: int) -> Seq<u8> {
    data.subrange(r * mode.row_len(w), (r + 1) * mode.row_len(w))
}

/// The first `h` stored rows decoded one after the other, in stored order.
/// The first row that is incomplete, or that holds a pixel that cannot be
/// decoded, ends the decoding with its error; an incomplete row is noticed
/// before any of its pixels is looked at.
pub open spec fn decode_rows(
    mode: ColorMode,
    palette: Seq<ImageColor>,
    data: Seq<u8>,
    w: nat,
    h: nat,
) -> Result<Seq<u8>, CodecError>
    decreases h,
{
    if h == 0 {
        Ok(Seq::empty())
    } else {
        match decode_rows(mode, palette, data, w, (h - 1) as nat) {
            Err(e) => Err(e),
            Ok(below) => {
                let row = stored_row(mode, data, w, h - 1);
                if data.len() < h * mode.row_len(w) {
                    Err(CodecError::TruncatedPixelData)
                } else if !row_ok(mode, palette, row, w) {
                    Err(CodecError::PaletteIndexOutOfRange)
                } else {
                    Ok(below + row_rgba(mode, palette, row, w))
                }
            },
        }
    }
}

/// Where the decoding succeeds the raster holds four bytes for each pixel,
/// and the pixel data holds every row.
pub proof fn lemma_decode_rows_len(
    mode: ColorMode,
    palette: Seq<ImageColor>,
    data: Seq<u8>,
    w: nat,
    h: nat,
)
    ensures
        decode_rows(mode, palette, data, w, h) is Ok ==> decode_rows(
            mode,
            palette,
            data,
            w,
            h,
        )->Ok_0.len() == 4 * w * h && h * mode.row_len(w) <= data.len(),
    decreases h,
{
    if h == 0 {
        assert(4 * w * h == 0) by (nonlinear_arith)
            requires
                h == 0,
        ;
        assert(h * mode.row_len(w) == 0) by (nonlinear_arith)
            requires
                h == 0,
        ;
    } else {
        lemma_decode_rows_len(mode, palette, data, w, (h - 1) as nat);
        assert(4 * w * (h - 1) + 4 * w == 4 * w * h) by (nonlinear_arith);
        if decode_rows(mode, palette, data, w, h) is Ok {
            let below = decode_rows(mode, palette, data, w, (h - 1) as nat)->Ok_0;
            let row = stored_row(mode, data, w, h - 1);
            assert(decode_rows(mode, palette, data, w, h)->Ok_0 == below + row_rgba(
                mode,
                palette,
                row,
                w,
            ));
        }
    }
}

/// Once the decoding has failed at some row, it fails in the same way for
/// every greater number of rows.
pub proof fn lemma_decode_rows_err(
    mode: ColorMode,
    palette: Seq<ImageColor>,
    data: Seq<u8>,
    w: nat,
    k: nat,
    h: nat,
)
    requires
        k <= h,
        decode_rows(mode, palette, data, w, k) is Err,
    ensures
        decode_rows(mode, palette, data, w, h) == decode_rows(mode, palette, data, w, k),
    decreases h,
{
    if k < h {
        lemma_decode_rows_err(mode, palette, data, w, k, (h - 1) as nat);
    }
}

/// Where the decoding succeeds, byte `c` of pixel `x` of row `y` of the
/// raster is byte `c` of pixel `x` of stored row `y`, and that pixel can be
/// decoded.
pub proof fn lemma_decoded_pixel(
    mode: ColorMode,
    palette: Seq<ImageColor>,
    data: Seq<u8>,
    w: nat,
    h: nat,
    x: int,
    y: int,
    c: int,
)
    requires
        decode_rows(mode, palette, data, w, h) is Ok,
        0 <= x < w,
        0 <= y < h,
        0 <= c < 4,
    ensures
        0 <= y * (4 * w) + 4 * x + c < 4 * w * h,
        decode_rows(mode, palette, data, w, h)->Ok_0.len() == 4 * w * h,
        decode_rows(mode, palette, data, w, h)->Ok_0[y * (4 * w) + 4 * x + c] == pixel(
            mode,
            palette,
            stored_row(mode, data, w, y),
            x,
        )[c],
        pixel_ok(mode, palette, stored_row(mode, data, w, y), x),
    decreases h,
{
    lemma_decode_rows_len(mode, palette, data, w, h);
    lemma_decode_rows_len(mode, palette, data, w, (h - 1) as nat);
    let below = decode_rows(mode, palette, data, w, (h - 1) as nat)->Ok_0;
    let row = stored_row(mode, data, w, h - 1);
    assert(decode_rows(mode, palette, data, w, h)->Ok_0 == below + row_rgba(mode, palette, row, w));
    assert(4 * w * (h - 1) + 4 * w == 4 * w * h) by (nonlinear_arith);
    assert(4 * w * (h - 1) == (h - 1) * (4 * w)) by (nonlinear_arith);
    assert(0 <= y * (4 * w) && y * (4 * w) + 4 * w <= 4 * w * h) by (nonlinear_arith)
        requires
            0 <= y < h,
    ;
    if y == h - 1 {
        assert(row_rgba(mode, palette, row, w)[4 * x + c] == pixel(mode, palette, row, x)[c]);
    } else {
        lemma_decoded_pixel(mode, palette, data, w, (h - 1) as nat, x, y, c);
        assert(y * (4 * w) + 4 * w <= 4 * w * (h - 1)) by (nonlinear_arith)
            requires
                0 <= y < h - 1,
        ;
    }
}

/// Whether two stored rows of `w` pixels hold the same pixels: they agree in
/// every byte before the padding, but for the unused low nibble of the last
/// byte of a row of 4-bit pixels of odd width.
pub open spec fn same_pixels(mode: ColorMode, a: Seq<u8>, b: Seq<u8>, w: nat) -> bool {
    forall|k: int|
        0 <= k < mode.raw_row_len(w) ==> if mode == ColorMode::Palette4 && w % 2 == 1 && k == w
            / 2 {
            #[trigger] a[k] / 16 == b[k] / 16
        } else {
            a[k] == b[k]
        }
}

/// Neither the padding of a row nor an unused nibble reaches the raster:
/// two rows that hold the same pixels decode alike.
pub proof fn lemma_row_padding_ignored(
    mode: ColorMode,
    palette: Seq<ImageColor>,
    a: Seq<u8>,
    b: Seq<u8>,
    w: nat,
)
    requires
        same_pixels(mode, a, b, w),
    ensures
        row_ok(mode, palette, a, w) == row_ok(mode, palette, b, w),
        row_rgba(mode, palette, a, w) == row_rgba(mode, palette, b, w),
{
    assert forall|x: int| 0 <= x < w implies pixel(mode, palette, a, x) == pixel(
        mode,
        palette,
        b,
        x,
    ) && pixel_ok(mode, palette, a, x) == pixel_ok(mode, palette, b, x) by {
        match mode {
            ColorMode::Palette4 => {
                assert(a[x / 2] / 16 == b[x / 2] / 16);
                if x % 2 == 1 {
                    assert(a[x / 2] == b[x / 2]);
                }
            },
            ColorMode::Palette8 => {
                assert(a[x] == b[x]);
            },
            ColorMode::Rgb555_16 => {
                assert(a[2 * x] == b[2 * x]);
                assert(a[2 * x + 1] == b[2 * x + 1]);
            },
            ColorMode::Bgr888_24 => {
                assert(a[3 * x] == b[3 * x]);
                assert(a[3 * x + 1] == b[3 * x + 1]);
                assert(a[3 * x + 2] == b[3 * x + 2]);
            },
            ColorMode::Bgra888_32 => {
                assert(a[4 * x] == b[4 * x]);
                assert(a[4 * x + 1] == b[4 * x + 1]);
                assert(a[4 * x + 2] == b[4 * x + 2]);
                assert(a[4 * x + 3] == b[4 * x + 3]);
            },
        }
    }
    assert(row_rgba(mode, palette, a, w) =~= row_rgba(mode, palette, b, w));
}

/// Two pixel planes of one length whose stored rows hold the same pixels
/// decode alike, and every stored row starts at a multiple of four bytes.
pub proof fn lemma_padding_ignored(
    mode: ColorMode,
    palette: Seq<ImageColor>,
    a: Seq<u8>,
    b: Seq<u8>,
    w: nat,
    h: nat,
)
    requires
        a.len() == b.len(),
        forall|r: int|
            0 <= r < h ==> same_pixels(
                mode,
                #[trigger] stored_row(mode, a, w, r),
                stored_row(mode, b, w, r),
                w,
            ),
    ensures
        decode_rows(mode, palette, a, w, h) == decode_rows(mode, palette, b, w, h),
        forall|r: int| (#[trigger] (r * mode.row_len(w))) % 4 == 0,
    decreases h,
{
    if h > 0 {
        lemma_padding_ignored(mode, palette, a, b, w, (h - 1) as nat);
        lemma_row_padding_ignored(
            mode,
            palette,
            stored_row(mode, a, w, h - 1),
            stored_row(mode, b, w, h - 1),
            w,
        );
    } else {
        let n = mode.row_len(w);
        assert forall|r: int| (#[trigger] (r * n)) % 4 == 0 by {
            let q = (mode.raw_row_len(w) + 3) / 4;
            assert(r * n == 4 * (r * q)) by (nonlinear_arith)
                requires
                    n == q * 4,
            ;
        }
    }
}

/// In the 32-bit mode the decoded raster is the pixel data itself, with red
/// and blue exchanged and the alpha inverted in every pixel.
pub proof fn lemma_decode_rows_bgra(palette: Seq<ImageColor>, data: Seq<u8>, w: nat, h: nat)
    requires
        4 * w * h <= data.len(),
    ensures
        decode_rows(ColorMode::Bgra888_32, palette, data, w, h) == Ok::<Seq<u8>, CodecError>(
            crate::raster::invert_alpha(
                crate::raster::swap_red_blue(data.subrange(0, (4 * w * h) as int)),
            ),
        ),
    decreases h,
{
    let mode = ColorMode::Bgra888_32;
    let goal = crate::raster::invert_alpha(
        crate::raster::swap_red_blue(data.subrange(0, (4 * w * h) as int)),
    );
    assert(mode.row_len(w) == 4 * w);
    if h == 0 {
        assert(4 * w * h == 0) by (nonlinear_arith)
            requires
                h == 0,
        ;
        assert(goal =~= Seq::<u8>::empty());
    } else {
        let low = 4 * w * (h - 1);
        assert(low + 4 * w == 4 * w * h) by (nonlinear_arith)
            requires
                low == 4 * w * (h - 1),
        ;
        assert(low == (h - 1) * (4 * w) && 4 * w * h == h * (4 * w)) by (nonlinear_arith)
            requires
                low == 4 * w * (h - 1),
        ;
        assert(low == 4 * (w * (h - 1)) && low >= 0) by (nonlinear_arith)
            requires
                low == 4 * w * (h - 1),
                h >= 1,
        ;
        lemma_decode_rows_bgra(palette, data, w, (h - 1) as nat);
        let below = crate::raster::invert_alpha(
            crate::raster::swap_red_blue(data.subrange(0, low)),
        );
        let row = stored_row(mode, data, w, h - 1);
        assert(row == data.subrange(low, low + 4 * w));
        assert(row_ok(mode, palette, row, w));
        let got = below + row_rgba(mode, palette, row, w);
        assert(got.len() == goal.len());
        assert forall|i: int| 0 <= i < goal.len() implies got[i] == goal[i] by {
            if i >= low {
                let j = i - low;
                assert(j % 4 == i % 4);
                assert(got[i] == pixel(mode, palette, row, j / 4)[j % 4]);
            }
        }
        assert(got =~= goal);
    }
}

/// If the decoding fails at the row behind the first `y`, it fails in the
/// same way for every greater number of rows.
proof fn lemma_decode_rows_err_at(
    mode: ColorMode,
    palette: Seq<ImageColor>,
    data: Seq<u8>,
    w: nat,
    y: nat,
    h: nat,
)
    requires
        y < h,
    ensures
        decode_rows(mode, palette, data, w, y + 1) is Err ==> decode_rows(mode, palette, data, w, h)
            == decode_rows(mode, palette, data, w, y + 1),
{
    if decode_rows(mode, palette, data, w, y + 1) is Err {
        lemma_decode_rows_err(mode, palette, data, w, y + 1, h);
    }
}

/// The pixel of a 15-bit colour word.
pub fn rgb555_to_rgba(word: u16) -> (out: [u8; 4])
    ensures
        out@ == rgb555_rgba(word),
{
    let b: u16 = word % 32;
    let g: u16 = word / 32 % 32;
    let r: u16 = word / 1024 % 32;
    let out: [u8; 4] = [(r * 33 / 4) as u8, (g * 33 / 4) as u8, (b * 33 / 4) as u8, 255];
    assert(out@ =~= rgb555_rgba(word));
    out
}

/// Decodes pixel `x` of a stored row; a palette index without an entry is
/// refused.
fn decode_pixel(mode: ColorMode, palette: &[ImageColor], row: &[u8], x: usize) -> (r: Result<
    [u8; 4],
    CodecError,
>)
    requires
        x < u32::MAX,
        mode.raw_row_len((x + 1) as nat) <= row@.len(),
    ensures
        pixel_ok(mode, palette@, row@, x as int) ==> r is Ok && r->Ok_0@ == pixel(
            mode,
            palette@,
            row@,
            x as int,
        ),
        !pixel_ok(mode, palette@, row@, x as int) ==> r == Err::<[u8; 4], CodecError>(
            CodecError::PaletteIndexOutOfRange,
        ),
{
    let n: usize = row.len();
    assert(mode.raw_row_len((x + 1) as nat) <= n);
    match mode {
        ColorMode::Palette4 => {
            let byte: u8 = row[x / 2];
            let index: usize = if x % 2 == 0 {
                (byte / 16) as usize
            } else {
                (byte % 16) as usize
            };
            if index >= palette.len() {
                return Err(CodecError::PaletteIndexOutOfRange);
            }
            Ok(palette[index].to_rgba())
        },
        ColorMode::Palette8 => {
            let index: usize = row[x] as usize;
            if index >= palette.len() {
                return Err(CodecError::PaletteIndexOutOfRange);
            }
            Ok(palette[index].to_rgba())
        },
        ColorMode::Rgb555_16 => {
            let lo: u16 = row[2 * x] as u16;
            let hi: u16 = row[2 * x + 1] as u16;
            Ok(rgb555_to_rgba(lo + 256 * hi))
        },
        ColorMode::Bgr888_24 => {
            let out: [u8; 4] = [row[3 * x + 2], row[3 * x + 1], row[3 * x], 255];
            assert(out@ =~= pixel(mode, palette@, row@, x as int));
            Ok(out)
        },
        ColorMode::Bgra888_32 => {
            let out: [u8; 4] = [row[4 * x + 2], row[4 * x + 1], row[4 * x], 255 - row[4 * x + 3]];
            assert(out@ =~= pixel(mode, palette@, row@, x as int));
            Ok(out)
        },
    }
}

/// Decodes the `width` pixels of a stored row and appends them to `out`.
fn decode_row(
    mode: ColorMode,
    palette: &[ImageColor],
    row: &[u8],
    width: u32,
    out: &mut Vec<u8>,
) -> (r: Result<(), CodecError>)
    requires
        mode.raw_row_len(width as nat) <= row@.len(),
    ensures
        row_ok(mode, palette@, row@, width as nat) ==> r is Ok && final(out)@ == old(out)@
            + row_rgba(mode, palette@, row@, width as nat),
        !row_ok(mode, palette@, row@, width as nat) ==> r == Err::<(), CodecError>(
            CodecError::PaletteIndexOutOfRange,
        ),
{
    let mut x: usize = 0;
    while x < width as usize
        invariant
            0 <= x <= width,
            mode.raw_row_len(width as nat) <= row@.len(),
            forall|k: int| 0 <= k < x ==> pixel_ok(mode, palette@, row@, k),
            out@ == old(out)@ + row_rgba(mode, palette@, row@, x as nat),
        decreases width - x,
    {
        let px: [u8; 4] = match decode_pixel(mode, palette, row, x) {
            Ok(px) => px,
            Err(e) => {
                return Err(e);
            },
        };
        let ghost before = out@;
        out.push(px[0]);
        out.push(px[1]);
        out.push(px[2]);
        out.push(px[3]);
        assert(out@ =~= old(out)@ + row_rgba(mode, palette@, row@, (x + 1) as nat)) by {
            let next = row_rgba(mode, palette@, row@, (x + 1) as nat);
            let prev = row_rgba(mode, palette@, row@, x as nat);
            assert forall|i: int| 0 <= i < 4 * x implies next[i] == prev[i] by {}
            assert(next[4 * x] == px@[0]);
            assert(next[4 * x + 1] == px@[1]);
            assert(next[4 * x + 2] == px@[2]);
            assert(next[4 * x + 3] == px@[3]);
        }
        x = x + 1;
    }
    Ok(())
}

/// Decodes `height` stored rows of `width` pixels at the reader's position
/// into a raster in stored order, bottom row first. On success the reader
/// has moved over every row, padding included.
pub fn decode_pixels(
    reader: &mut Reader,
    mode: ColorMode,
    palette: &[ImageColor],
    width: u32,
    height: u32,
) -> (r: Result<Vec<u8>, CodecError>)
    ensures
        final(reader).data == old(reader).data,
        match decode_rows(mode, palette@, old(reader).rest(), width as nat, height as nat) {
            Ok(raster) => r is Ok && r->Ok_0@ == raster && final(reader).pos == old(reader).pos
                + mode.row_len(width as nat) * height,
            Err(e) => r == Err::<Vec<u8>, CodecError>(e),
        },
{
    let stride: u64 = mode.aligned_row_bytes(width);
    let ghost data = reader.rest();
    let ghost len = mode.row_len(width as nat) as int;
    let ghost off = 0int;
    let mut out: Vec<u8> = Vec::new();
    let mut y: u32 = 0;
    proof {
        assert(0 * len == 0);
    }
    while y < height
        invariant
            0 <= y <= height,
            stride == len,
            len == mode.row_len(width as nat),
            mode.raw_row_len(width as nat) <= len,
            reader.data == old(reader).data,
            data == old(reader).rest(),
            off == y * len,
            0 <= off <= data.len(),
            reader.pos == old(reader).pos + off,
            decode_rows(mode, palette@, data, width as nat, y as nat) == Ok::<
                Seq<u8>,
                CodecError,
            >(out@),
        decreases height - y,
    {
        proof {
            assert((y + 1) * len == off + len) by (nonlinear_arith)
                requires
                    off == y * len,
            ;
            assert(reader.rest() =~= data.subrange(off, data.len() as int));
            assert(stored_row(mode, data, width as nat, y as int) == data.subrange(
                off,
                off + len,
            ));
            lemma_decode_rows_err_at(mode, palette@, data, width as nat, y as nat, height as nat);
        }
        if stride > reader.remaining() as u64 {
            assert(data.len() < (y + 1) * len);
            return Err(CodecError::TruncatedPixelData);
        }
        let row: Vec<u8> = match reader.read_exact(stride as usize) {
            Ok(row) => row,
            Err(e) => {
                return Err(e);
            },
        };
        assert(row@ =~= data.subrange(off, off + len));
        match decode_row(mode, palette, row.as_slice(), width, &mut out) {
            Ok(()) => {},
            Err(e) => {
                return Err(e);
            },
        }
        y = y + 1;
        proof {
            off = off + len;
        }
    }
    proof {
        assert(y * len == len * height) by (nonlinear_arith)
            requires
                y == height,
        ;
    }
    Ok(out)
}

} // verus!
