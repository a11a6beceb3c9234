//! The R, G, B, A raster that decoded images are handed out in, and the
//! vertical flip between the stored bottom-up order of rows and the top-down
//! order of a raster.
use vstd::prelude::*;
use vstd::arithmetic::div_mod::{lemma_fundamental_div_mod, lemma_fundamental_div_mod_converse};
use vstd::slice::slice_to_vec;

verus! {

/// The rows of `s`, each `n` bytes long, in reverse order: byte `j` of row
/// `y` of the result is byte `j` of row `h - 1 - y` of `s`.
pub open spec fn flip_rows(s: Seq<u8>, n: nat, h: nat) -> Seq<u8> {
    Seq::new(n * h, |i: int| s[(h - 1 - i / (n as int)) * n + i % (n as int)])
}

/// Each pixel of an R, G, B, A raster with its first and third byte
/// exchanged: the same pixels in the order B, G, R, A, and back.
pub open spec fn swap_red_blue(s: Seq<u8>) -> Seq<u8> {
    Seq::new(
        s.len(),
        |i: int|
            if i % 4 == 0 {
                s[i + 2]
            } else if i % 4 == 2 {
                s[i - 2]
            } else {
                s[i]
            },
    )
}

/// Each pixel of a raster with its alpha replaced by 255 minus that alpha.
pub open spec fn invert_alpha(s: Seq<u8>) -> Seq<u8> {
    Seq::new(
        s.len(),
        |i: int|
            if i % 4 == 3 {
                (255 - s[i]) as u8
            } else {
                s[i]
            },
    )
}

/// Where byte `j` of row `y` stands, and that it stands within the rows.
pub proof fn lemma_row_index(n: nat, h: nat, y: int, j: int)
    requires
        0 <= y < h,
        0 <= j < n,
    ensures
        0 <= y * n + j < n * h,
        (y * n + j) / (n as int) == y,
        (y * n + j) % (n as int) == j,
{
    lemma_fundamental_div_mod_converse(y * n + j, n as int, y, j);
    assert(y * n + n <= n * h) by (nonlinear_arith)
        requires
            0 <= y < h,
            0 <= n,
    ;
    assert(0 <= y * n) by (nonlinear_arith)
        requires
            0 <= y,
            0 <= n,
    ;
}

/// Every position within the rows is byte `i % n` of row `i / n`.
pub proof fn lemma_index_row(n: nat, h: nat, i: int)
    requires
        0 <= i < n * h,
    ensures
        n > 0,
        0 <= i / (n as int) < h,
        0 <= i % (n as int) < n,
        i == (i / (n as int)) * n + i % (n as int),
{
    if n == 0 {
        assert(n * h == 0) by (nonlinear_arith)
            requires
                n == 0,
        ;
    }
    lemma_fundamental_div_mod(i, n as int);
    let q = i / (n as int);
    assert(n * q == q * n) by (nonlinear_arith);
    if q >= h {
        assert(q * n >= n * h) by (nonlinear_arith)
            requires
                q >= h,
                n >= 0,
        ;
    }
    if q < 0 {
        assert(q * n <= -n) by (nonlinear_arith)
            requires
                q <= -1,
                n >= 0,
        ;
    }
}

/// Byte `j` of row `y` of the flipped rows is byte `j` of row `h - 1 - y`.
pub proof fn lemma_flip_rows_at(s: Seq<u8>, n: nat, h: nat, y: int, j: int)
    requires
        0 <= y < h,
        0 <= j < n,
    ensures
        flip_rows(s, n, h).len() == n * h,
        0 <= y * n + j < n * h,
        flip_rows(s, n, h)[y * n + j] == s[(h - 1 - y) * n + j],
{
    lemma_row_index(n, h, y, j);
}

/// Flipping twice gives the rows back.
pub proof fn lemma_flip_rows_twice(s: Seq<u8>, n: nat, h: nat)
    requires
        s.len() == n * h,
    ensures
        flip_rows(flip_rows(s, n, h), n, h) == s,
{
    let once = flip_rows(s, n, h);
    let twice = flip_rows(once, n, h);
    assert forall|i: int| 0 <= i < n * h implies twice[i] == s[i] by {
        lemma_index_row(n, h, i);
        let y = i / (n as int);
        let j = i % (n as int);
        lemma_flip_rows_at(s, n, h, h - 1 - y, j);
    }
    assert(twice =~= s);
}

/// Exchanging red and blue twice gives the raster back.
pub proof fn lemma_swap_red_blue_twice(s: Seq<u8>)
    requires
        s.len() % 4 == 0,
    ensures
        swap_red_blue(swap_red_blue(s)) == s,
{
    assert(swap_red_blue(swap_red_blue(s)) =~= s);
}

/// Inverting the alpha of every pixel and flipping the rows can be done in
/// either order.
pub proof fn lemma_invert_alpha_flip(s: Seq<u8>, w: nat, h: nat)
    requires
        s.len() == 4 * w * h,
    ensures
        flip_rows(invert_alpha(s), 4 * w, h) == invert_alpha(flip_rows(s, 4 * w, h)),
{
    let n = 4 * w;
    let a = flip_rows(invert_alpha(s), n, h);
    let b = invert_alpha(flip_rows(s, n, h));
    assert(a.len() == b.len());
    assert forall|i: int| 0 <= i < n * h implies a[i] == b[i] by {
        lemma_index_row(n, h, i);
        let q = i / (n as int);
        let r = i % (n as int);
        let src = (h - 1 - q) * n + r;
        lemma_row_index(n, h, h - 1 - q, r);
        let t = (h - 1 - 2 * q) * w;
        assert(src - i == 4 * t) by (nonlinear_arith)
            requires
                src == (h - 1 - q) * n + r,
                i == q * n + r,
                n == 4 * w,
                t == (h - 1 - 2 * q) * w,
        ;
        assert(src % 4 == i % 4);
    }
    assert(a =~= b);
}

/// The rows of `data`, each `n` bytes long, in reverse order.
fn flipped(data: &[u8], n: usize, h: usize) -> (out: Vec<u8>)
    requires
        data@.len() == n * h,
    ensures
        out@ == flip_rows(data@, n as nat, h as nat),
{
    let mut out: Vec<u8> = Vec::new();
    let mut y: usize = 0;
    let ghost goal = flip_rows(data@, n as nat, h as nat);
    let ghost done = 0int;
    while y < h
        invariant
            0 <= y <= h,
            data@.len() == n * h,
            goal == flip_rows(data@, n as nat, h as nat),
            done == y * n,
            0 <= done <= n * h,
            out@ == goal.subrange(0, done),
        decreases h - y,
    {
        let ghost src = (h - 1 - y) * n;
        proof {
            assert((y + 1) * n == done + n) by (nonlinear_arith)
                requires
                    done == y * n,
            ;
            assert((h - y) * n == src + n) by (nonlinear_arith)
                requires
                    src == (h - 1 - y) * n,
            ;
            assert(0 <= src && src + n <= n * h) by (nonlinear_arith)
                requires
                    src == (h - 1 - y) * n,
                    0 <= y < h,
                    0 <= n,
            ;
            assert(done + n <= n * h) by (nonlinear_arith)
                requires
                    done == y * n,
                    0 <= y < h,
                    0 <= n,
            ;
        }
        let len: usize = data.len();
        let start: usize = (h - 1 - y) * n;
        let row: Vec<u8> = slice_to_vec(&data[start..start + n]);
        let ghost before = out@;
        out.extend_from_slice(row.as_slice());
        assert(out@ =~= goal.subrange(0, done + n)) by {
            assert forall|i: int| done <= i < done + n implies goal[i] == data@[src + (i - done)] by {
                lemma_flip_rows_at(data@, n as nat, h as nat, y as int, i - done);
            }
        }
        y = y + 1;
        proof {
            done = done + n;
        }
    }
    proof {
        assert(y * n == n * h) by (nonlinear_arith)
            requires
                y == h,
        ;
        assert(goal.subrange(0, done) =~= goal);
    }
    out
}

/// A picture of `width` by `height` pixels, four bytes R, G, B, A for each,
/// row after row. It always holds exactly `4 * width * height` bytes.
pub struct Raster {
    width: u32,
    height: u32,
    rgba: Vec<u8>,
}

impl Raster {
    #[verifier::type_invariant]
    spec fn complete(self) -> bool {
        self.rgba@.len() == 4 * self.width * self.height
    }

    /// The number of pixels in a row.
    pub closed spec fn w(self) -> nat {
        self.width as nat
    }

    /// The number of rows.
    pub closed spec fn h(self) -> nat {
        self.height as nat
    }

    /// The bytes of the pixels, row after row.
    pub closed spec fn bytes(self) -> Seq<u8> {
        self.rgba@
    }

    /// The raster of the given size over the given bytes; none if the bytes
    /// are not exactly four for each pixel.
    pub fn new(width: u32, height: u32, rgba: Vec<u8>) -> (r: Option<Raster>)
        ensures
            rgba@.len() == 4 * width * height ==> r is Some && r->Some_0.w() == width
                && r->Some_0.h() == height && r->Some_0.bytes() == rgba@,
            rgba@.len() != 4 * width * height ==> r is None,
    {
        assert(4 * width * height <= 0x4_0000_0000_0000_0000) by (nonlinear_arith)
            requires
                width <= 0xffff_ffff,
                height <= 0xffff_ffff,
        ;
        let need: u128 = 4 * (width as u128) * (height as u128);
        if rgba.len() as u128 == need {
            Some(Raster { width, height, rgba })
        } else {
            None
        }
    }

    /// The raster of the given size over bytes that are known to be four
    /// for each pixel.
    pub(crate) fn of_size(width: u32, height: u32, rgba: Vec<u8>) -> (r: Raster)
        requires
            rgba@.len() == 4 * width * height,
        ensures
            r.w() == width,
            r.h() == height,
            r.bytes() == rgba@,
    {
        Raster { width, height, rgba }
    }

    /// The number of pixels in a row.
    pub fn width(&self) -> (n: u32)
        ensures
            n == self.w(),
    {
        self.width
    }

    /// The number of rows.
    pub fn height(&self) -> (n: u32)
        ensures
            n == self.h(),
    {
        self.height
    }

    /// The bytes of the pixels, row after row.
    pub fn as_bytes(&self) -> (out: &[u8])
        ensures
            out@ == self.bytes(),
            out@.len() == 4 * self.w() * self.h(),
    {
        proof {
            use_type_invariant(self);
        }
        self.rgba.as_slice()
    }

    /// The bytes of the pixels with red and blue exchanged: B, G, R, A for
    /// each pixel, the alpha as it is.
    pub fn to_bgra(&self) -> (out: Vec<u8>)
        ensures
            out@ == swap_red_blue(self.bytes()),
    {
        proof {
            use_type_invariant(self);
        }
        let n: usize = self.rgba.len();
        assert(n == 4 * (self.width * self.height)) by (nonlinear_arith)
            requires
                n == 4 * self.width * self.height,
        ;
        let mut out: Vec<u8> = Vec::new();
        let mut i: usize = 0;
        while i < n
            invariant
                0 <= i <= n,
                n == self.rgba@.len(),
                n % 4 == 0,
                i % 4 == 0,
                out@ == swap_red_blue(self.rgba@).subrange(0, i as int),
            decreases n - i,
        {
            out.push(self.rgba[i + 2]);
            out.push(self.rgba[i + 1]);
            out.push(self.rgba[i]);
            out.push(self.rgba[i + 3]);
            i = i + 4;
            assert(out@ =~= swap_red_blue(self.rgba@).subrange(0, i as int));
        }
        assert(swap_red_blue(self.rgba@).subrange(0, n as int) =~= swap_red_blue(self.rgba@));
        out
    }

    /// The same picture with its rows in reverse order, top for bottom.
    pub fn flip_vertical(&self) -> (out: Raster)
        ensures
            out.w() == self.w(),
            out.h() == self.h(),
            out.bytes() == flip_rows(self.bytes(), 4 * self.w(), self.h()),
    {
        proof {
            use_type_invariant(self);
        }
        if self.height == 0 || self.width == 0 {
            assert(4 * self.width * self.height == 0) by (nonlinear_arith)
                requires
                    self.height == 0 || self.width == 0,
            ;
            assert(4 * self.width as nat * self.height as nat == 0) by (nonlinear_arith)
                requires
                    self.height == 0 || self.width == 0,
            ;
            assert(flip_rows(self.rgba@, 4 * self.w(), self.h()) =~= Seq::<u8>::empty());
            assert(self.rgba@ =~= Seq::<u8>::empty());
            return Raster { width: self.width, height: self.height, rgba: Vec::new() };
        }
        let len: usize = self.rgba.len();
        assert(4 * self.width <= len && self.height <= len) by (nonlinear_arith)
            requires
                len == 4 * self.width * self.height,
                self.height >= 1,
                self.width >= 1,
        ;
        let n: usize = 4 * (self.width as usize);
        let h: usize = self.height as usize;
        let rgba: Vec<u8> = flipped(self.rgba.as_slice(), n, h);
        assert(rgba@.len() == 4 * self.width * self.height);
        Raster { width: self.width, height: self.height, rgba }
    }
}

} // verus!
