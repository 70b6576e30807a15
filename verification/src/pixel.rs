//! Block averaging: reducing a raw interleaved pixel buffer to a grid of
//! per-block average colors.
//!
//! The mathematical model sums a block's bytes row by row (`row_sum`,
//! `block_sum_rows`) and divides by the block area with truncating integer
//! division (`block_avg`).

use vstd::arithmetic::div_mod::{
    lemma_div_denominator, lemma_div_multiples_vanish, lemma_fundamental_div_mod,
    lemma_multiply_divide_lt,
};
use vstd::arithmetic::mul::lemma_mul_is_commutative;
use vstd::prelude::*;

verus! {

/// A raw decoded image: row-major, channel-interleaved bytes.
pub struct Image {
    pub width: u32,
    pub height: u32,
    pub channels: u32,
    pub buffer: Vec<u8>,
}

impl Image {
    /// The buffer holds exactly one byte per pixel and channel, and the
    /// channel count is RGB or RGBA.
    pub open spec fn wf(&self) -> bool {
        (self.channels == 3 || self.channels == 4) && self.buffer@.len() == self.width as int
            * self.height as int * self.channels as int
    }
}

/// The byte of channel `k` of the pixel at `(x, y)` in a `w`-wide image
/// with `b` interleaved channels.
pub open spec fn pixel_byte(buf: Seq<u8>, w: int, b: int, x: int, y: int, k: int) -> u8 {
    buf[(y * w + x) * b + k]
}

/// Sum of channel `k` over the `n` pixels `(x0, y) .. (x0 + n - 1, y)`.
pub open spec fn row_sum(buf: Seq<u8>, w: int, b: int, y: int, x0: int, n: int, k: int) -> int
    decreases n,
{
    if n <= 0 {
        0
    } else {
        row_sum(buf, w, b, y, x0, n - 1, k) + pixel_byte(buf, w, b, x0 + n - 1, y, k)
    }
}

/// Sum of channel `k` over the first `rows` pixel rows of the `s`-sized
/// block whose top-left corner is `(bx * s, by * s)`.
pub open spec fn block_sum_rows(
    buf: Seq<u8>,
    w: int,
    b: int,
    s: int,
    bx: int,
    by: int,
    k: int,
    rows: int,
) -> int
    decreases rows,
{
    if rows <= 0 {
        0
    } else {
        block_sum_rows(buf, w, b, s, bx, by, k, rows - 1) + row_sum(
            buf,
            w,
            b,
            by * s + rows - 1,
            bx * s,
            s,
            k,
        )
    }
}

/// Sum of channel `k` over the whole block `(bx, by)`.
pub open spec fn block_sum(buf: Seq<u8>, w: int, b: int, s: int, bx: int, by: int, k: int) -> int {
    block_sum_rows(buf, w, b, s, bx, by, k, s)
}

/// The truncated mean of channel `k` over block `(bx, by)`.
pub open spec fn block_avg(buf: Seq<u8>, w: int, b: int, s: int, bx: int, by: int, k: int) -> int {
    block_sum(buf, w, b, s, bx, by, k) / (s * s)
}

/// Linear position of channel `k` of block `(bx, by)` in a block grid that
/// is `cw` blocks wide with `c` channels per block.
pub open spec fn cell_idx(cw: int, c: int, bx: int, by: int, k: int) -> int {
    (by * cw + bx) * c + k
}

/// Linear position of channel `k` of group `p` in a buffer of `c`-byte
/// groups.
pub open spec fn flat_idx(c: int, p: int, k: int) -> int {
    p * c + k
}

/// `grid` is exactly the block-average grid of the pixel buffer `buf`:
/// `cw * ch` blocks of size `s`, each reduced to `c` channels.
pub open spec fn grid_matches(
    grid: Seq<u8>,
    buf: Seq<u8>,
    w: int,
    b: int,
    s: int,
    cw: int,
    ch: int,
    c: int,
) -> bool {
    grid.len() == (ch * cw) * c && forall|bx: int, by: int, k: int|
        0 <= bx < cw && 0 <= by < ch && 0 <= k < c ==> grid[cell_idx(cw, c, bx, by, k)]
            == block_avg(buf, w, b, s, bx, by, k)
}

/// In a mixed-radix position `hi * base + lo`, increasing the high digit,
/// or keeping it and increasing the low digit, increases the position.
pub proof fn lemma_radix_lt(base: int, hi1: int, lo1: int, hi2: int, lo2: int)
    by (nonlinear_arith)
    requires
        0 <= lo1 < base,
        0 <= lo2,
        hi1 < hi2 || (hi1 == hi2 && lo1 < lo2),
    ensures
        hi1 * base + lo1 < hi2 * base + lo2,
{
}

/// A digit pair `(hi, lo)` with `hi < n` stays below `n * base`.
pub proof fn lemma_radix_bound(base: int, hi: int, lo: int, n: int)
    by (nonlinear_arith)
    requires
        0 <= lo < base,
        0 <= hi < n,
    ensures
        0 <= hi * base + lo < n * base,
{
}

/// Cell positions grow with the lexicographic order of `(by, bx, k)`.
pub proof fn lemma_cell_idx_lt(
    cw: int,
    c: int,
    bx1: int,
    by1: int,
    k1: int,
    bx2: int,
    by2: int,
    k2: int,
)
    requires
        0 <= bx1 < cw,
        0 <= k1 < c,
        0 <= bx2 <= cw,
        0 <= k2 <= c,
        0 <= by1,
        0 <= by2,
        by1 < by2 || (by1 == by2 && bx1 < bx2) || (by1 == by2 && bx1 == bx2 && k1 < k2),
    ensures
        cell_idx(cw, c, bx1, by1, k1) < cell_idx(cw, c, bx2, by2, k2),
{
    if by1 == by2 && bx1 == bx2 {
    } else {
        lemma_radix_lt(cw, by1, bx1, by2, bx2);
        lemma_radix_lt(c, by1 * cw + bx1, k1, by2 * cw + bx2, k2);
    }
}

/// A pixel's byte position lies inside a `w * h * b` buffer.
pub proof fn lemma_pixel_index(w: int, h: int, b: int, x: int, y: int, k: int)
    by (nonlinear_arith)
    requires
        1 <= b,
        0 <= x < w,
        0 <= y < h,
        0 <= k < b,
    ensures
        0 <= y * w + x < w * h,
        w * h <= w * h * b,
        0 <= (y * w + x) * b + k < w * h * b,
{
}

/// Row sums of `n` bytes stay within `[0, 255 * n]`.
pub proof fn lemma_row_sum_bounds(buf: Seq<u8>, w: int, b: int, y: int, x0: int, n: int, k: int)
    requires
        n >= 0,
    ensures
        0 <= row_sum(buf, w, b, y, x0, n, k) <= 255 * n,
    decreases n,
{
    if n > 0 {
        lemma_row_sum_bounds(buf, w, b, y, x0, n - 1, k);
    }
}

/// Partial block sums of `rows` rows stay within `[0, 255 * rows * s]`.
pub proof fn lemma_block_sum_rows_bounds(
    buf: Seq<u8>,
    w: int,
    b: int,
    s: int,
    bx: int,
    by: int,
    k: int,
    rows: int,
)
    requires
        s >= 1,
        rows >= 0,
    ensures
        0 <= block_sum_rows(buf, w, b, s, bx, by, k, rows) <= 255 * rows * s,
    decreases rows,
{
    if rows > 0 {
        lemma_block_sum_rows_bounds(buf, w, b, s, bx, by, k, rows - 1);
        lemma_row_sum_bounds(buf, w, b, by * s + rows - 1, bx * s, s, k);
        assert(255 * (rows - 1) * s + 255 * s == 255 * rows * s) by (nonlinear_arith);
    }
}

/// A partial sum plus one more byte stays within the block-area bound.
proof fn lemma_sum_fits(s: int, dy: int, dx: int, p: int, q: int)
    by (nonlinear_arith)
    requires
        1 <= s,
        0 <= dy < s,
        0 <= dx < s,
        0 <= p <= 255 * dy * s,
        0 <= q <= 255 * dx,
    ensures
        p + q + 255 <= 255 * s * s,
{
}

/// Accumulates, for every block and output channel, the sum of all source
/// bytes of that channel over the block, into a wide buffer in cell order.
/// Channels at and beyond `final_bytes_per_pixel` (alpha) are dropped.
#[verifier::loop_isolation(false)]
pub fn accumulate_pixels(
    chunks_in_width: u32,
    chunks_in_height: u32,
    final_bytes_per_pixel: u32,
    bytes_per_pixel: u32,
    buffer: &Vec<u8>,
    pixels_per_chunk: u32,
    width: u32,
) -> (acc: Vec<u32>)
    requires
        pixels_per_chunk >= 1,
        1 <= final_bytes_per_pixel <= bytes_per_pixel,
        width as int == chunks_in_width as int * pixels_per_chunk as int,
        chunks_in_height as int * pixels_per_chunk as int <= u32::MAX as int,
        buffer@.len() == width as int * (chunks_in_height as int * pixels_per_chunk as int)
            * bytes_per_pixel as int,
        255 * pixels_per_chunk as int * pixels_per_chunk as int <= u32::MAX as int,
    ensures
        acc@.len() == (chunks_in_height as int * chunks_in_width as int)
            * final_bytes_per_pixel as int,
        forall|bx: int, by: int, k: int|
            0 <= bx < chunks_in_width as int && 0 <= by < chunks_in_height as int && 0 <= k
                < final_bytes_per_pixel as int ==> acc@[cell_idx(
                chunks_in_width as int,
                final_bytes_per_pixel as int,
                bx,
                by,
                k,
            )] == block_sum(
                buffer@,
                width as int,
                bytes_per_pixel as int,
                pixels_per_chunk as int,
                bx,
                by,
                k,
            ),
        forall|i: int|
            0 <= i < acc@.len() ==> acc@[i] <= 255 * pixels_per_chunk as int
                * pixels_per_chunk as int,
{
    let ghost cw = chunks_in_width as int;
    let ghost ch = chunks_in_height as int;
    let ghost cc = final_bytes_per_pixel as int;
    let ghost bb = bytes_per_pixel as int;
    let ghost ss = pixels_per_chunk as int;
    let ghost ww = width as int;
    let buffer_len: usize = buffer.len();
    let mut acc: Vec<u32> = Vec::new();
    proof {
        assert(cell_idx(cw, cc, 0, 0, 0) == 0 && cell_idx(cw, cc, 0, ch, 0) == (ch * cw) * cc)
            by (nonlinear_arith);
    }
    let mut by: u32 = 0;
    while by < chunks_in_height
        invariant
            by <= chunks_in_height,
            acc@.len() == cell_idx(cw, cc, 0, by as int, 0),
            forall|bx2: int, by2: int, k2: int|
                0 <= bx2 < cw && 0 <= by2 < ch && 0 <= k2 < cc && by2 < by as int ==> acc@[cell_idx(
                    cw,
                    cc,
                    bx2,
                    by2,
                    k2,
                )] == block_sum(buffer@, ww, bb, ss, bx2, by2, k2),
            forall|i: int| 0 <= i < acc@.len() ==> acc@[i] <= 255 * ss * ss,
        decreases ch - by,
    {
        let mut bx: u32 = 0;
        while bx < chunks_in_width
            invariant
                bx <= chunks_in_width,
                by < chunks_in_height,
                acc@.len() == cell_idx(cw, cc, bx as int, by as int, 0),
                forall|bx2: int, by2: int, k2: int|
                    0 <= bx2 < cw && 0 <= by2 < ch && 0 <= k2 < cc && (by2 < by as int || (by2
                        == by as int && bx2 < bx as int)) ==> acc@[cell_idx(cw, cc, bx2, by2, k2)]
                        == block_sum(buffer@, ww, bb, ss, bx2, by2, k2),
                forall|i: int| 0 <= i < acc@.len() ==> acc@[i] <= 255 * ss * ss,
            decreases cw - bx,
        {
            let mut k: u32 = 0;
            while k < final_bytes_per_pixel
                invariant
                    k <= final_bytes_per_pixel,
                    bx < chunks_in_width,
                    by < chunks_in_height,
                    acc@.len() == cell_idx(cw, cc, bx as int, by as int, k as int),
                    forall|bx2: int, by2: int, k2: int|
                        0 <= bx2 < cw && 0 <= by2 < ch && 0 <= k2 < cc && (by2 < by as int || (by2
                            == by as int && bx2 < bx as int) || (by2 == by as int && bx2
                            == bx as int && k2 < k as int)) ==> acc@[cell_idx(cw, cc, bx2, by2, k2)]
                            == block_sum(buffer@, ww, bb, ss, bx2, by2, k2),
                    forall|i: int| 0 <= i < acc@.len() ==> acc@[i] <= 255 * ss * ss,
                decreases cc - k,
            {
                let mut sum: u32 = 0;
                let mut dy: u32 = 0;
                while dy < pixels_per_chunk
                    invariant
                        dy <= pixels_per_chunk,
                        bx < chunks_in_width,
                        by < chunks_in_height,
                        k < final_bytes_per_pixel,
                        sum as int == block_sum_rows(
                            buffer@,
                            ww,
                            bb,
                            ss,
                            bx as int,
                            by as int,
                            k as int,
                            dy as int,
                        ),
                    decreases ss - dy,
                {
                    proof {
                        lemma_radix_bound(ss, by as int, dy as int, ch);
                    }
                    let y: u32 = by * pixels_per_chunk + dy;
                    let mut dx: u32 = 0;
                    while dx < pixels_per_chunk
                        invariant
                            dx <= pixels_per_chunk,
                            bx < chunks_in_width,
                            by < chunks_in_height,
                            k < final_bytes_per_pixel,
                            dy < pixels_per_chunk,
                            y as int == by as int * ss + dy as int,
                            sum as int == block_sum_rows(
                                buffer@,
                                ww,
                                bb,
                                ss,
                                bx as int,
                                by as int,
                                k as int,
                                dy as int,
                            ) + row_sum(
                                buffer@,
                                ww,
                                bb,
                                y as int,
                                bx as int * ss,
                                dx as int,
                                k as int,
                            ),
                        decreases ss - dx,
                    {
                        proof {
                            lemma_radix_bound(ss, bx as int, dx as int, cw);
                            lemma_radix_bound(ss, by as int, dy as int, ch);
                            lemma_pixel_index(ww, ch * ss, bb, bx as int * ss + dx as int, y as int, k as int);
                            lemma_block_sum_rows_bounds(buffer@, ww, bb, ss, bx as int, by as int, k as int, dy as int);
                            lemma_row_sum_bounds(buffer@, ww, bb, y as int, bx as int * ss, dx as int, k as int);
                            lemma_sum_fits(
                                ss,
                                dy as int,
                                dx as int,
                                block_sum_rows(buffer@, ww, bb, ss, bx as int, by as int, k as int, dy as int),
                                row_sum(buffer@, ww, bb, y as int, bx as int * ss, dx as int, k as int),
                            );
                        }
                        let x: u32 = bx * pixels_per_chunk + dx;
                        let idx: usize = (y as usize * width as usize + x as usize)
                            * bytes_per_pixel as usize + k as usize;
                        sum = sum + buffer[idx] as u32;
                        dx = dx + 1;
                    }
                    dy = dy + 1;
                }
                proof {
                    lemma_block_sum_rows_bounds(buffer@, ww, bb, ss, bx as int, by as int, k as int, ss);
                }
                let ghost acc0 = acc@;
                acc.push(sum);
                proof {
                    assert forall|bx2: int, by2: int, k2: int|
                        0 <= bx2 < cw && 0 <= by2 < ch && 0 <= k2 < cc && (by2 < by as int || (by2
                            == by as int && bx2 < bx as int) || (by2 == by as int && bx2
                            == bx as int && k2 < k as int + 1)) implies acc@[cell_idx(
                        cw,
                        cc,
                        bx2,
                        by2,
                        k2,
                    )] == block_sum(buffer@, ww, bb, ss, bx2, by2, k2) by {
                        if by2 < by as int || (by2 == by as int && bx2 < bx as int) || (by2
                            == by as int && bx2 == bx as int && k2 < k as int) {
                            lemma_cell_idx_lt(cw, cc, bx2, by2, k2, bx as int, by as int, k as int);
                            assert(acc@[cell_idx(cw, cc, bx2, by2, k2)] == acc0[cell_idx(
                                cw,
                                cc,
                                bx2,
                                by2,
                                k2,
                            )]);
                        } else {
                            assert(cell_idx(cw, cc, bx2, by2, k2) == acc0.len());
                        }
                    }
                }
                k = k + 1;
            }
            proof {
                assert((by as int * cw + bx as int) * cc + cc == (by as int * cw + bx as int + 1)
                    * cc) by (nonlinear_arith);
            }
            bx = bx + 1;
        }
        proof {
            assert((by as int * cw + cw) * cc == ((by as int + 1) * cw) * cc) by (nonlinear_arith);
        }
        by = by + 1;
    }
    acc
}

/// Divides every accumulated cell by the block area `s * s` with
/// truncating division and narrows the result to one byte.
#[verifier::loop_isolation(false)]
pub fn reduce_pixels(
    chunks_in_width: u32,
    chunks_in_height: u32,
    final_bytes_per_pixel: u32,
    temp_color_buffer: Vec<u32>,
    pixels_per_chunk: u32,
) -> (color_buffer: Vec<u8>)
    requires
        pixels_per_chunk >= 1,
        temp_color_buffer@.len() == (chunks_in_height as int * chunks_in_width as int)
            * final_bytes_per_pixel as int,
        forall|i: int|
            0 <= i < temp_color_buffer@.len() ==> temp_color_buffer@[i] < 256
                * pixels_per_chunk as int * pixels_per_chunk as int,
    ensures
        color_buffer@.len() == temp_color_buffer@.len(),
        forall|i: int|
            0 <= i < color_buffer@.len() ==> color_buffer@[i] as int == temp_color_buffer@[i] as int
                / (pixels_per_chunk as int * pixels_per_chunk as int),
{
    let ghost ss = pixels_per_chunk as int;
    let mut color_buffer: Vec<u8> = Vec::new();
    let mut i: usize = 0;
    while i < temp_color_buffer.len()
        invariant
            i <= temp_color_buffer@.len(),
            color_buffer@.len() == i as int,
            forall|j: int|
                0 <= j < i as int ==> color_buffer@[j] as int == temp_color_buffer@[j] as int / (ss
                    * ss),
        decreases temp_color_buffer@.len() - i,
    {
        let v: u32 = temp_color_buffer[i] / pixels_per_chunk / pixels_per_chunk;
        proof {
            lemma_div_denominator(temp_color_buffer@[i as int] as int, ss, ss);
            assert(256 * ss * ss == (ss * ss) * 256) by (nonlinear_arith);
            lemma_multiply_divide_lt(temp_color_buffer@[i as int] as int, ss * ss, 256);
        }
        color_buffer.push(v as u8);
        i = i + 1;
    }
    color_buffer
}

/// Reduces an image to its grid of per-block average colors, keeping the
/// first `final_bytes_per_pixel` channels of every pixel.  The block size
/// must divide both dimensions evenly.
pub fn pixelate(image: &Image, final_bytes_per_pixel: u32, pixels_per_chunk: u32) -> (r: (
    Vec<u8>,
    u32,
    u32,
))
    requires
        image.wf(),
        1 <= final_bytes_per_pixel <= image.channels,
        1 <= pixels_per_chunk,
        image.width as int % pixels_per_chunk as int == 0,
        image.height as int % pixels_per_chunk as int == 0,
        255 * pixels_per_chunk as int * pixels_per_chunk as int <= u32::MAX as int,
    ensures
        r.1 as int == image.width as int / pixels_per_chunk as int,
        r.2 as int == image.height as int / pixels_per_chunk as int,
        grid_matches(
            r.0@,
            image.buffer@,
            image.width as int,
            image.channels as int,
            pixels_per_chunk as int,
            r.1 as int,
            r.2 as int,
            final_bytes_per_pixel as int,
        ),
{
    let ghost ss = pixels_per_chunk as int;
    let chunks_in_width: u32 = image.width / pixels_per_chunk;
    let chunks_in_height: u32 = image.height / pixels_per_chunk;
    proof {
        lemma_fundamental_div_mod(image.width as int, ss);
        lemma_fundamental_div_mod(image.height as int, ss);
        lemma_mul_is_commutative(ss, chunks_in_width as int);
        lemma_mul_is_commutative(ss, chunks_in_height as int);
    }
    let temp_color_buffer = accumulate_pixels(
        chunks_in_width,
        chunks_in_height,
        final_bytes_per_pixel,
        image.channels,
        &image.buffer,
        pixels_per_chunk,
        image.width,
    );
    proof {
        assert(255 * ss * ss < 256 * ss * ss) by (nonlinear_arith)
            requires
                ss >= 1,
        ;
    }
    let color_buffer = reduce_pixels(
        chunks_in_width,
        chunks_in_height,
        final_bytes_per_pixel,
        temp_color_buffer,
        pixels_per_chunk,
    );
    proof {
        assert forall|bx: int, by: int, k: int|
            0 <= bx < chunks_in_width as int && 0 <= by < chunks_in_height as int && 0 <= k
                < final_bytes_per_pixel as int implies color_buffer@[cell_idx(
            chunks_in_width as int,
            final_bytes_per_pixel as int,
            bx,
            by,
            k,
        )] == block_avg(
            image.buffer@,
            image.width as int,
            image.channels as int,
            ss,
            bx,
            by,
            k,
        ) by {
            lemma_cell_idx_lt(
                chunks_in_width as int,
                final_bytes_per_pixel as int,
                bx,
                by,
                k,
                0,
                chunks_in_height as int,
                0,
            );
        }
    }
    (color_buffer, chunks_in_width, chunks_in_height)
}

/// Keeps the first `final_bytes_per_pixel` channels of every pixel and
/// drops the rest: alpha never reaches an output buffer.
#[verifier::loop_isolation(false)]
pub fn strip_channels(image: &Image, final_bytes_per_pixel: u32) -> (out: Vec<u8>)
    requires
        image.wf(),
        1 <= final_bytes_per_pixel <= image.channels,
    ensures
        out@.len() == (image.width as int * image.height as int) * final_bytes_per_pixel as int,
        forall|p: int, k: int|
            0 <= p < image.width as int * image.height as int && 0 <= k
                < final_bytes_per_pixel as int ==> out@[flat_idx(
                final_bytes_per_pixel as int,
                p,
                k,
            )] == image.buffer@[flat_idx(image.channels as int, p, k)],
{
    let ghost np = image.width as int * image.height as int;
    let ghost cc = final_bytes_per_pixel as int;
    let ghost bb = image.channels as int;
    let buffer_len: usize = image.buffer.len();
    proof {
        assert(np <= np * bb && np * bb == image.buffer@.len()) by (nonlinear_arith)
            requires
                bb >= 1,
                np >= 0,
                image.buffer@.len() == np * bb,
        ;
    }
    let num_pixels: usize = (image.width as usize) * (image.height as usize);
    let mut out: Vec<u8> = Vec::new();
    let mut p: usize = 0;
    while p < num_pixels
        invariant
            0 <= p <= num_pixels,
            num_pixels as int == np,
            out@.len() == p as int * cc,
            forall|p2: int, k2: int|
                0 <= p2 < np && 0 <= k2 < cc && p2 < p as int ==> out@[flat_idx(cc, p2, k2)]
                    == image.buffer@[flat_idx(bb, p2, k2)],
        decreases np - p,
    {
        let mut k: usize = 0;
        while k < final_bytes_per_pixel as usize
            invariant
                0 <= k as int <= cc,
                p < num_pixels,
                num_pixels as int == np,
                out@.len() == p as int * cc + k as int,
                forall|p2: int, k2: int|
                    0 <= p2 < np && 0 <= k2 < cc && (p2 < p as int || (p2 == p as int && k2
                        < k as int)) ==> out@[flat_idx(cc, p2, k2)] == image.buffer@[flat_idx(
                        bb,
                        p2,
                        k2,
                    )],
            decreases cc - k,
        {
            proof {
                lemma_radix_bound(bb, p as int, k as int, np);
            }
            let ghost out0 = out@;
            out.push(image.buffer[p * (image.channels as usize) + k]);
            proof {
                assert forall|p2: int, k2: int|
                    0 <= p2 < np && 0 <= k2 < cc && (p2 < p as int || (p2 == p as int && k2 < k as int
                        + 1)) implies out@[flat_idx(cc, p2, k2)] == image.buffer@[flat_idx(
                    bb,
                    p2,
                    k2,
                )] by {
                    if p2 < p as int || (p2 == p as int && k2 < k as int) {
                        lemma_radix_lt(cc, p2, k2, p as int, k as int);
                        assert(out@[flat_idx(cc, p2, k2)] == out0[flat_idx(cc, p2, k2)]);
                    } else {
                        assert(flat_idx(cc, p2, k2) == out0.len());
                    }
                }
            }
            k = k + 1;
        }
        proof {
            assert(p as int * cc + cc == (p as int + 1) * cc) by (nonlinear_arith);
        }
        p = p + 1;
    }
    out
}

/// A row of constant bytes sums to the byte times the row length.
pub proof fn lemma_row_sum_uniform(
    buf: Seq<u8>,
    w: int,
    b: int,
    y: int,
    x0: int,
    n: int,
    k: int,
    v: u8,
)
    requires
        n >= 0,
        forall|x: int| x0 <= x < x0 + n ==> pixel_byte(buf, w, b, x, y, k) == v,
    ensures
        row_sum(buf, w, b, y, x0, n, k) == n * v as int,
    decreases n,
{
    if n > 0 {
        lemma_row_sum_uniform(buf, w, b, y, x0, n - 1, k, v);
        assert((n - 1) * v as int + v as int == n * v as int) by (nonlinear_arith);
    } else {
        assert(n * v as int == 0) by (nonlinear_arith)
            requires
                n == 0,
        ;
    }
}

/// A block of constant bytes sums to the byte times the number of bytes.
pub proof fn lemma_block_sum_uniform(
    buf: Seq<u8>,
    w: int,
    b: int,
    s: int,
    bx: int,
    by: int,
    k: int,
    rows: int,
    v: u8,
)
    requires
        s >= 1,
        rows >= 0,
        forall|x: int, y: int|
            bx * s <= x < bx * s + s && by * s <= y < by * s + rows ==> pixel_byte(
                buf,
                w,
                b,
                x,
                y,
                k,
            ) == v,
    ensures
        block_sum_rows(buf, w, b, s, bx, by, k, rows) == (rows * s) * v as int,
    decreases rows,
{
    if rows > 0 {
        lemma_block_sum_uniform(buf, w, b, s, bx, by, k, rows - 1, v);
        lemma_row_sum_uniform(buf, w, b, by * s + rows - 1, bx * s, s, k, v);
        assert(((rows - 1) * s) * v as int + s * v as int == (rows * s) * v as int)
            by (nonlinear_arith);
    } else {
        assert((rows * s) * v as int == 0) by (nonlinear_arith)
            requires
                rows == 0,
        ;
    }
}

/// Averaging a uniform-color image: every block of the resulting grid holds
/// exactly the original constant color, whatever the image and block sizes.
pub proof fn lemma_uniform_image_blocks(
    grid: Seq<u8>,
    buf: Seq<u8>,
    w: int,
    h: int,
    b: int,
    s: int,
    cw: int,
    ch: int,
    c: int,
    color: Seq<u8>,
)
    requires
        s >= 1,
        c >= 1,
        b >= c,
        cw >= 0,
        ch >= 0,
        w == cw * s,
        h == ch * s,
        color.len() == c,
        forall|x: int, y: int, k: int|
            0 <= x < w && 0 <= y < h && 0 <= k < c ==> pixel_byte(buf, w, b, x, y, k) == color[k],
        grid_matches(grid, buf, w, b, s, cw, ch, c),
    ensures
        forall|bx: int, by: int, k: int|
            0 <= bx < cw && 0 <= by < ch && 0 <= k < c ==> grid[cell_idx(cw, c, bx, by, k)]
                == color[k],
{
    assert forall|bx: int, by: int, k: int|
        0 <= bx < cw && 0 <= by < ch && 0 <= k < c implies grid[cell_idx(cw, c, bx, by, k)]
        == color[k] by {
        let v = color[k];
        assert forall|x: int, y: int|
            bx * s <= x < bx * s + s && by * s <= y < by * s + s implies pixel_byte(
            buf,
            w,
            b,
            x,
            y,
            k,
        ) == v by {
            lemma_radix_bound(s, bx, x - bx * s, cw);
            lemma_radix_bound(s, by, y - by * s, ch);
        }
        lemma_block_sum_uniform(buf, w, b, s, bx, by, k, s, v);
        assert(s * s >= 1) by (nonlinear_arith)
            requires
                s >= 1,
        ;
        lemma_div_multiples_vanish(v as int, s * s);
        assert(block_sum(buf, w, b, s, bx, by, k) == (s * s) * v as int);
        assert(block_avg(buf, w, b, s, bx, by, k) == v as int);
        assert(grid[cell_idx(cw, c, bx, by, k)] == block_avg(buf, w, b, s, bx, by, k));
    }
}

} // verus!
