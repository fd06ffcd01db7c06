//! Captured pixels: a top-down buffer of 32-bit BGRA pixels, and the ways
//! the tool reshapes it (cropping, darkening, making it opaque, turning it
//! bottom-up for the clipboard).

use vstd::prelude::*;

verus! {

broadcast use vstd::std_specs::vec::group_vec_axioms;

/// A captured image: `width * height` pixels of four bytes (blue, green,
/// red, alpha), row after row from the top.
pub struct Capture {
    pub bgra: Vec<u8>,
    pub width: i32,
    pub height: i32,
}

/// `v` limited to `lo..=hi`, as `i32::clamp` gives it (for `lo <= hi`).
pub open spec fn clamp(v: int, lo: int, hi: int) -> int {
    if v < lo {
        lo
    } else if v > hi {
        hi
    } else {
        v
    }
}

/// The length of the buffer of a `width` by `height` image; a negative
/// side counts as zero.
pub open spec fn buffer_size(width: int, height: int) -> int {
    let w = if width < 0 {
        0
    } else {
        width
    };
    let h = if height < 0 {
        0
    } else {
        height
    };
    w * h * 4
}

/// The bytes of pixels `x..x + w` of row `row` of an image `stride` pixels wide.
pub open spec fn row_bytes(src: Seq<u8>, stride: int, row: int, x: int, w: int) -> Seq<u8> {
    src.subrange((row * stride + x) * 4, (row * stride + x + w) * 4)
}

/// The first `m` rows of the crop of `src` (an image `stride` pixels wide)
/// to pixels `x..x + w` of rows `y..`, one after another.
pub open spec fn crop_rows(src: Seq<u8>, stride: int, x: int, y: int, w: int, m: nat) -> Seq<u8>
    decreases m,
{
    if m == 0 {
        Seq::empty()
    } else {
        crop_rows(src, stride, x, y, w, (m - 1) as nat) + row_bytes(src, stride, y + m - 1, x, w)
    }
}

/// The first `m` rows of `src` (an image `stride` pixels wide and `h` rows
/// high) taken from the bottom up.
pub open spec fn bottom_up_rows(src: Seq<u8>, stride: int, h: int, m: nat) -> Seq<u8>
    decreases m,
{
    if m == 0 {
        Seq::empty()
    } else {
        bottom_up_rows(src, stride, h, (m - 1) as nat) + row_bytes(src, stride, h - m, 0, stride)
    }
}

impl Capture {
    /// The buffer holds exactly the pixels of a `width` by `height` image.
    pub open spec fn wf(&self) -> bool {
        &&& 0 <= self.width
        &&& 0 <= self.height
        &&& self.bgra@.len() == self.width * self.height * 4
    }
}

/// The byte length of a `width` by `height` image buffer (negative sides
/// count as zero).
pub fn buffer_len(width: i32, height: i32) -> (r: usize)
    requires
        buffer_size(width as int, height as int) <= usize::MAX,
    ensures
        r == buffer_size(width as int, height as int),
{
    let w: usize = if width < 0 {
        0
    } else {
        width as usize
    };
    let h: usize = if height < 0 {
        0
    } else {
        height as usize
    };
    assert(w * h <= w * h * 4) by (nonlinear_arith);
    w * h * 4
}

proof fn lemma_row_in_bounds(row: int, stride: int, x: int, w: int, h: int)
    requires
        0 <= row < h,
        0 <= x,
        0 <= w,
        x + w <= stride,
    ensures
        0 <= (row * stride + x) * 4,
        (row * stride + x) * 4 <= (row * stride + x + w) * 4,
        (row * stride + x + w) * 4 <= stride * h * 4,
        (row * stride + x + w) * 4 == (row * stride + x) * 4 + w * 4,
{
    assert(0 <= row * stride) by (nonlinear_arith)
        requires
            0 <= row,
            0 <= x,
            x + w <= stride,
            0 <= w,
    ;
    assert(row * stride + stride <= stride * h) by (nonlinear_arith)
        requires
            row < h,
            0 <= x,
            0 <= w,
            x + w <= stride,
    ;
}

proof fn lemma_rows_len(stride: int, w: int, m: int)
    requires
        0 <= w,
        0 <= m,
    ensures
        (m - 1) * w * 4 + w * 4 == m * w * 4,
{
    assert((m - 1) * w * 4 + w * 4 == m * w * 4) by (nonlinear_arith);
}

/// Copies bytes `from..from + n` of `src` to the end of `out`.
fn push_bytes(out: &mut Vec<u8>, src: &Vec<u8>, from: usize, n: usize)
    requires
        from + n <= src@.len(),
    ensures
        final(out)@ == old(out)@ + src@.subrange(from as int, from + n),
{
    let total = src.len();
    let mut k: usize = 0;
    while k < n
        invariant
            total == src@.len(),
            from + n <= src@.len(),
            k <= n,
            out@ == old(out)@ + src@.subrange(from as int, from + k),
        decreases n - k,
    {
        out.push(src[from + k]);
        assert(src@.subrange(from as int, from + k + 1) =~= src@.subrange(from as int, from + k).push(
            src@[from + k],
        ));
        assert(out@ =~= old(out)@ + src@.subrange(from as int, from + k + 1));
        k = k + 1;
    }
}

impl Capture {
    /// The part of the image in the rectangle at `(x, y)` of size
    /// `width` by `height`, cut down to the image: the corner is limited to
    /// the image, then the size to what lies between it and the far edges.
    pub fn crop(&self, x: i32, y: i32, width: i32, height: i32) -> (r: Capture)
        requires
            self.wf(),
        ensures
            r.wf(),
            r.width == clamp(width as int, 0, self.width - clamp(x as int, 0, self.width as int)),
            r.height == clamp(height as int, 0, self.height - clamp(y as int, 0, self.height as int)),
            r.bgra@ == crop_rows(
                self.bgra@,
                self.width as int,
                clamp(x as int, 0, self.width as int),
                clamp(y as int, 0, self.height as int),
                r.width as int,
                r.height as nat,
            ),
    {
        let x = if x < 0 {
            0
        } else if x > self.width {
            self.width
        } else {
            x
        };
        let y = if y < 0 {
            0
        } else if y > self.height {
            self.height
        } else {
            y
        };
        let width = if width < 0 {
            0
        } else if width > self.width - x {
            self.width - x
        } else {
            width
        };
        let height = if height < 0 {
            0
        } else if height > self.height - y {
            self.height - y
        } else {
            height
        };
        let stride = self.width as usize;
        let total = self.bgra.len();
        let mut bgra: Vec<u8> = Vec::new();
        let mut m: i32 = 0;
        while m < height
            invariant
                self.wf(),
                0 <= x <= self.width,
                0 <= y <= self.height,
                0 <= width <= self.width - x,
                0 <= height <= self.height - y,
                stride == self.width,
                total == self.bgra@.len(),
                0 <= m <= height,
                bgra@ == crop_rows(self.bgra@, stride as int, x as int, y as int, width as int, m as nat),
                bgra@.len() == m * width * 4,
            decreases height - m,
        {
            let row = (y + m) as usize;
            proof {
                lemma_row_in_bounds(row as int, stride as int, x as int, width as int, self.height as int);
                lemma_rows_len(stride as int, width as int, m + 1);
            }
            let start = (row * stride + x as usize) * 4;
            let row_len = width as usize * 4;
            push_bytes(&mut bgra, &self.bgra, start, row_len);
            m = m + 1;
        }
        proof {
            assert(height * width * 4 == width * height * 4) by (nonlinear_arith);
        }
        Capture { bgra, width, height }
    }
}

/// The image at half brightness: every byte halved.
pub fn darkened(bgra: &Vec<u8>) -> (r: Vec<u8>)
    ensures
        r@.len() == bgra@.len(),
        forall|i: int| 0 <= i < bgra@.len() ==> #[trigger] r@[i] == bgra@[i] / 2,
{
    let mut r: Vec<u8> = Vec::new();
    let mut k: usize = 0;
    while k < bgra.len()
        invariant
            k <= bgra@.len(),
            r@.len() == k,
            forall|i: int| 0 <= i < k ==> #[trigger] r@[i] == bgra@[i] / 2,
        decreases bgra@.len() - k,
    {
        let b = bgra[k];
        let half = b >> 1;
        assert(half == b / 2) by (bit_vector)
            requires
                half == b >> 1,
        ;
        r.push(half);
        k = k + 1;
    }
    r
}

/// Sets the alpha byte of every pixel to fully opaque.
pub fn set_opaque(bgra: &mut Vec<u8>)
    ensures
        final(bgra)@.len() == old(bgra)@.len(),
        forall|i: int|
            0 <= i < old(bgra)@.len() ==> #[trigger] final(bgra)@[i] == if i % 4 == 3 {
                0xFFu8
            } else {
                old(bgra)@[i]
            },
{
    let n = bgra.len();
    let mut k: usize = 0;
    while k < n
        invariant
            n == bgra@.len(),
            n == old(bgra)@.len(),
            k <= n,
            forall|i: int|
                0 <= i < n ==> #[trigger] bgra@[i] == if i % 4 == 3 && i < k {
                    0xFFu8
                } else {
                    old(bgra)@[i]
                },
        decreases n - k,
    {
        if k % 4 == 3 {
            bgra.set(k, 0xFF);
        }
        k = k + 1;
    }
}

/// The rows of an image from the bottom up, as a bottom-up bitmap holds
/// them; the pixels of each row stay in order.
pub fn rows_bottom_up(capture: &Capture) -> (r: Vec<u8>)
    requires
        capture.wf(),
    ensures
        r@ == bottom_up_rows(
            capture.bgra@,
            capture.width as int,
            capture.height as int,
            capture.height as nat,
        ),
        r@.len() == capture.bgra@.len(),
{
    let stride = capture.width as usize;
    let h = capture.height as usize;
    let total = capture.bgra.len();
    let mut out: Vec<u8> = Vec::new();
    let mut m: usize = 0;
    while m < h
        invariant
            capture.wf(),
            stride == capture.width,
            h == capture.height,
            total == capture.bgra@.len(),
            m <= h,
            out@ == bottom_up_rows(capture.bgra@, stride as int, h as int, m as nat),
            out@.len() == m * stride * 4,
        decreases h - m,
    {
        let row = h - 1 - m;
        proof {
            lemma_row_in_bounds(row as int, stride as int, 0, stride as int, h as int);
            lemma_rows_len(stride as int, stride as int, m + 1);
        }
        push_bytes(&mut out, &capture.bgra, row * stride * 4, stride * 4);
        m = m + 1;
    }
    proof {
        assert(h * stride * 4 == stride * h * 4) by (nonlinear_arith);
    }
    out
}

} // verus!

verus! {

proof fn lemma_crop_rows_whole(src: Seq<u8>, w: int, m: nat)
    requires
        0 <= w,
        m * w * 4 <= src.len(),
    ensures
        crop_rows(src, w, 0, 0, w, m) == src.take(m * w * 4),
    decreases m,
{
    if m > 0 {
        let k = (m - 1) as nat;
        assert(k * w * 4 <= m * w * 4 && ((k * w + 0 + w) * 4) == m * w * 4 && (k * w + 0) * 4 == k
            * w * 4) by (nonlinear_arith)
            requires
                0 <= w,
                k + 1 == m,
        ;
        lemma_crop_rows_whole(src, w, k);
        assert(row_bytes(src, w, 0 + m - 1, 0, w) == src.subrange(k * w * 4, m * w * 4));
        assert(crop_rows(src, w, 0, 0, w, m) == crop_rows(src, w, 0, 0, w, k) + row_bytes(
            src,
            w,
            0 + m - 1,
            0,
            w,
        ));
        assert(src.take(k * w * 4) + src.subrange(k * w * 4, m * w * 4) =~= src.take(m * w * 4));
        assert(crop_rows(src, w, 0, 0, w, k) == src.take(k * w * 4));
        assert(crop_rows(src, w, 0, 0, w, m) == src.take(m * w * 4));
    } else {
        assert(m * w * 4 == 0) by (nonlinear_arith)
            requires
                m == 0,
        ;
        assert(src.take(0) =~= Seq::<u8>::empty());
    }
}

/// Cropping an image to its own rectangle gives it back unchanged.
pub proof fn lemma_crop_whole(c: Capture)
    requires
        c.wf(),
    ensures
        crop_rows(c.bgra@, c.width as int, 0, 0, c.width as int, c.height as nat) == c.bgra@,
        clamp(0, 0, c.width as int) == 0,
        clamp(c.width as int, 0, c.width - clamp(0, 0, c.width as int)) == c.width,
        clamp(0, 0, c.height as int) == 0,
        clamp(c.height as int, 0, c.height - clamp(0, 0, c.height as int)) == c.height,
{
    assert(c.height * c.width * 4 == c.width * c.height * 4) by (nonlinear_arith);
    lemma_crop_rows_whole(c.bgra@, c.width as int, c.height as nat);
    assert(c.bgra@.take(c.bgra@.len() as int) =~= c.bgra@);
}

} // verus!

verus! {

proof fn lemma_row_bytes_len(src: Seq<u8>, stride: int, row: int, x: int, w: int)
    requires
        0 <= w,
        0 <= (row * stride + x) * 4,
        (row * stride + x + w) * 4 <= src.len(),
    ensures
        row_bytes(src, stride, row, x, w).len() == w * 4,
{
}

/// Row `row` of a crop is the stretch of row `y + row` of the image from
/// pixel `x` on, `w` pixels long: the crop holds its rows one after another.
pub proof fn lemma_crop_row(src: Seq<u8>, stride: int, x: int, y: int, w: int, m: nat, row: int)
    requires
        0 <= x,
        0 <= y,
        0 <= w,
        x + w <= stride,
        (y + m) * stride * 4 <= src.len(),
        0 <= row < m,
    ensures
        crop_rows(src, stride, x, y, w, m).len() == m * w * 4,
        crop_rows(src, stride, x, y, w, m).subrange(row * w * 4, (row + 1) * w * 4) == row_bytes(
            src,
            stride,
            y + row,
            x,
            w,
        ),
    decreases m,
{
    let k = (m - 1) as nat;
    let prev = crop_rows(src, stride, x, y, w, k);
    let last = row_bytes(src, stride, y + m - 1, x, w);
    assert(crop_rows(src, stride, x, y, w, m) == prev + last);
    lemma_row_in_bounds(y + k, stride, x, w, y + m);
    assert((y + m) * stride * 4 == stride * (y + m) * 4) by (nonlinear_arith);
    lemma_row_bytes_len(src, stride, y + k, x, w);
    if k > 0 {
        lemma_crop_row(src, stride, x, y, w, k, if row < k { row } else { 0 });
    }
    assert(prev.len() == k * w * 4) by {
        if k == 0 {
            assert(k * w * 4 == 0) by (nonlinear_arith)
                requires
                    k == 0,
            ;
        }
    }
    assert(k * w * 4 + w * 4 == m * w * 4) by (nonlinear_arith)
        requires
            k + 1 == m,
    ;
    if row < k {
        assert((row + 1) * w * 4 <= k * w * 4 && 0 <= row * w * 4 && row * w * 4 <= (row + 1) * w * 4)
            by (nonlinear_arith)
            requires
                0 <= row < k,
                0 <= w,
        ;
        assert((prev + last).subrange(row * w * 4, (row + 1) * w * 4) =~= prev.subrange(
            row * w * 4,
            (row + 1) * w * 4,
        ));
    } else {
        assert(row * w * 4 == k * w * 4 && (row + 1) * w * 4 == m * w * 4) by (nonlinear_arith)
            requires
                row == k,
                k + 1 == m,
        ;
        assert((prev + last).subrange(row * w * 4, (row + 1) * w * 4) =~= last);
    }
}

} // verus!

verus! {

/// Row `row` of the bottom-up buffer is row `h - 1 - row` of the image:
/// the clipboard bitmap holds the image upside down, row by row.
pub proof fn lemma_bottom_up_row(src: Seq<u8>, stride: int, h: int, m: nat, row: int)
    requires
        0 <= stride,
        m <= h,
        h * stride * 4 <= src.len(),
        0 <= row < m,
    ensures
        bottom_up_rows(src, stride, h, m).len() == m * stride * 4,
        bottom_up_rows(src, stride, h, m).subrange(row * stride * 4, (row + 1) * stride * 4)
            == row_bytes(src, stride, h - 1 - row, 0, stride),
    decreases m,
{
    let k = (m - 1) as nat;
    let prev = bottom_up_rows(src, stride, h, k);
    let last = row_bytes(src, stride, h - m, 0, stride);
    assert(bottom_up_rows(src, stride, h, m) == prev + last);
    lemma_row_in_bounds(h - m, stride, 0, stride, h);
    assert(h * stride * 4 == stride * h * 4) by (nonlinear_arith);
    lemma_row_bytes_len(src, stride, h - m, 0, stride);
    if k > 0 {
        lemma_bottom_up_row(src, stride, h, k, if row < k { row } else { 0 });
    }
    assert(prev.len() == k * stride * 4) by {
        if k == 0 {
            assert(k * stride * 4 == 0) by (nonlinear_arith)
                requires
                    k == 0,
            ;
        }
    }
    assert(k * stride * 4 + stride * 4 == m * stride * 4) by (nonlinear_arith)
        requires
            k + 1 == m,
    ;
    if row < k {
        assert((row + 1) * stride * 4 <= k * stride * 4 && 0 <= row * stride * 4 && row * stride * 4
            <= (row + 1) * stride * 4) by (nonlinear_arith)
            requires
                0 <= row < k,
                0 <= stride,
        ;
        assert((prev + last).subrange(row * stride * 4, (row + 1) * stride * 4) =~= prev.subrange(
            row * stride * 4,
            (row + 1) * stride * 4,
        ));
    } else {
        assert(row * stride * 4 == k * stride * 4 && (row + 1) * stride * 4 == m * stride * 4)
            by (nonlinear_arith)
            requires
                row == k,
                k + 1 == m,
        ;
        assert((prev + last).subrange(row * stride * 4, (row + 1) * stride * 4) =~= last);
    }
}

} // verus!
