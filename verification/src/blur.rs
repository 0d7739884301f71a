//! Turning a raw screen capture into a blurred backdrop.
//!
//! The work is done at a fraction of the screen resolution: downscaling is
//! itself a box filter, the upscale back to full size is done by the renderer
//! when the texture is drawn, and three box passes in between approximate a
//! Gaussian.

use crate::capture::Frame;
use vstd::prelude::*;

verus! {

/// Longest edge of the working image. Small enough to be cheap, large enough
/// that the upscale does not show blocking.
pub const WORKING_EDGE: u32 = 480;

/// Box passes per axis. Three approximate a Gaussian of the same radius.
pub const PASSES: usize = 3;

/// Largest radius whose window sums fit in 32 bits.
pub const MAX_RADIUS: u32 = 8_405_023;

pub struct Image {
    pub width: u32,
    pub height: u32,
    /// Tightly packed RGB, three bytes per pixel.
    pub rgb: Vec<u8>,
}

impl Image {
    pub open spec fn wf(self) -> bool {
        self.rgb@.len() == self.width * self.height * 3
    }
}

// ---------------------------------------------------------------------------
// Division
// ---------------------------------------------------------------------------

/// 2^32 divided by the divisor, rounded up.
pub open spec fn reciprocal_of(divisor: int) -> int {
    (0x1_0000_0000 + divisor - 1) / divisor
}

/// `n` divided by way of the reciprocal of the divisor.
pub open spec fn quotient(n: int, divisor: int) -> int {
    n * reciprocal_of(divisor) / 0x1_0000_0000
}

/// Division by a divisor fixed for a whole image, as a multiply and a shift.
/// The blur divides once per channel per pixel per pass, and a hardware
/// divide there is most of what the blur costs.
#[derive(Clone, Copy)]
pub struct Divisor {
    reciprocal: u64,
}

/// The reciprocal overshoots by less than one part in 2^32, which cannot carry
/// a quotient over the next integer while `n` stays below 2^32 / divisor.
pub proof fn quotient_is_exact(n: int, divisor: int)
    requires
        n >= 0,
        divisor >= 1,
        n * (divisor - 1) < 0x1_0000_0000,
    ensures
        quotient(n, divisor) == n / divisor,
{
    let m = reciprocal_of(divisor);
    let q = n / divisor;
    let r = n % divisor;
    let full = 0x1_0000_0000int;
    // m * divisor lies between 2^32 and 2^32 + divisor - 1.
    let e = m * divisor - full;
    assert(0 <= e <= divisor - 1) by (nonlinear_arith)
        requires
            divisor >= 1,
            full == 0x1_0000_0000,
            m == (full + divisor - 1) / divisor,
            e == m * divisor - full,
    ;
    assert(n == q * divisor + r && 0 <= r < divisor) by (nonlinear_arith)
        requires
            divisor >= 1,
            q == n / divisor,
            r == n % divisor,
    ;
    // divisor * (n * m) == n * 2^32 + n * e
    let product = n * m;
    assert(divisor * product == n * full + n * e) by (nonlinear_arith)
        requires
            product == n * m,
            e == m * divisor - full,
    ;
    assert(0 <= n * e < full) by (nonlinear_arith)
        requires
            n >= 0,
            0 <= e <= divisor - 1,
            n * (divisor - 1) < full,
    ;
    assert(q * full <= product < (q + 1) * full) by (nonlinear_arith)
        requires
            divisor >= 1,
            divisor * product == n * full + n * e,
            0 <= n * e < full,
            n == q * divisor + r,
            0 <= r < divisor,
            full == 0x1_0000_0000,
    ;
    assert(product / full == q) by (nonlinear_arith)
        requires
            full == 0x1_0000_0000,
            q * full <= product < (q + 1) * full,
    ;
}

impl Divisor {
    #[verifier::type_invariant]
    spec fn fits(self) -> bool {
        self.reciprocal <= 0x1_0000_0000
    }

    /// The divisor that this divides by.
    pub closed spec fn divides_by(self, divisor: int) -> bool {
        self.reciprocal == reciprocal_of(divisor)
    }

    pub fn new(divisor: u32) -> (r: Self)
        requires
            divisor > 0,
        ensures
            r.divides_by(divisor as int),
    {
        let wide: u64 = divisor as u64;
        let reciprocal: u64 = (0x1_0000_0000 + wide - 1) / wide;
        proof {
            assert(reciprocal <= 0x1_0000_0000) by (nonlinear_arith)
                requires
                    wide >= 1,
                    reciprocal == (0x1_0000_0000 + wide - 1) / (wide as int),
            ;
        }
        Divisor { reciprocal }
    }

    /// `n / divisor`, exact for every `n` this module produces.
    pub fn divide(self, n: u32) -> (r: u32)
        ensures
            forall|divisor: int| #[trigger] self.divides_by(divisor) ==> r == quotient(n as int, divisor),
            forall|divisor: int| #[trigger]
                self.divides_by(divisor) && divisor >= 1 && n * (divisor - 1) < 0x1_0000_0000 ==> r == n as int
                    / divisor,
    {
        let ghost m = self.reciprocal as int;
        proof {
            use_type_invariant(&self);
            assert(0 <= n * m <= 0xFFFF_FFFF * 0x1_0000_0000) by (nonlinear_arith)
                requires
                    0 <= n <= 0xFFFF_FFFF,
                    0 <= m <= 0x1_0000_0000,
            ;
        }
        let product: u64 = n as u64 * self.reciprocal;
        assert(product >> 32 == product / 0x1_0000_0000) by (bit_vector);
        proof {
            assert forall|divisor: int| #[trigger]
                self.divides_by(divisor) && divisor >= 1 && n * (divisor - 1) < 0x1_0000_0000 implies quotient(
                n as int,
                divisor,
            ) == n as int / divisor by {
                quotient_is_exact(n as int, divisor);
            }
        }
        (product >> 32) as u32
    }
}

// ---------------------------------------------------------------------------
// What a box pass gives
// ---------------------------------------------------------------------------

/// Channel `c` of pixel `x` of a row, the outermost pixels repeated beyond
/// either edge.
pub open spec fn row_at(row: Seq<u8>, c: int, x: int) -> int {
    let last = row.len() as int / 3 - 1;
    row[3 * (if x < 0 {
        0
    } else if x > last {
        last
    } else {
        x
    }) + c] as int
}

/// Channel `c` summed over the pixels from `from` up to `to`.
pub open spec fn row_sum(row: Seq<u8>, c: int, from: int, to: int) -> int
    decreases to - from,
{
    if to <= from {
        0
    } else {
        row_sum(row, c, from, to - 1) + row_at(row, c, to - 1)
    }
}

/// Channel `c` of pixel `x` after one box pass: the window around the pixel
/// averaged and rounded, as a byte.
pub open spec fn box_byte(row: Seq<u8>, radius: int, x: int, c: int) -> u8 {
    (quotient(row_sum(row, c, x - radius, x + radius + 1) + radius, 2 * radius + 1) % 256) as u8
}

/// Row `y` of an image that is `width` pixels wide.
pub open spec fn row_of(rgb: Seq<u8>, width: int, y: int) -> Seq<u8> {
    rgb.subrange(y * (3 * width), (y + 1) * (3 * width))
}

/// An image after one box pass along every row.
pub open spec fn rows_blurred(rgb: Seq<u8>, width: int, radius: int) -> Seq<u8> {
    Seq::new(
        rgb.len(),
        |i: int| box_byte(row_of(rgb, width, i / (3 * width)), radius, i % (3 * width) / 3, i % 3),
    )
}

/// An image after `passes` box passes along every row. A row of one pixel is
/// left as it is.
pub open spec fn passes_blurred(rgb: Seq<u8>, width: int, radius: int, passes: nat) -> Seq<u8>
    decreases passes,
{
    if passes == 0 || width <= 1 {
        rgb
    } else {
        rows_blurred(
            passes_blurred(rgb, width, radius, (passes - 1) as nat),
            width,
            radius,
        )
    }
}

/// An image with its rows and columns exchanged.
pub open spec fn transposed(rgb: Seq<u8>, width: int, height: int) -> Seq<u8> {
    Seq::new(
        rgb.len(),
        |i: int| rgb[3 * ((i / 3 % height) * width + i / 3 / height) + i % 3],
    )
}

/// An image blurred along its rows, then along its columns.
pub open spec fn box_blurred(rgb: Seq<u8>, width: int, height: int, radius: int) -> Seq<u8> {
    let across = transposed(passes_blurred(rgb, width, radius, PASSES as nat), width, height);
    transposed(passes_blurred(across, height, radius, PASSES as nat), height, width)
}

// ---------------------------------------------------------------------------
// Facts about windows and indices
// ---------------------------------------------------------------------------

proof fn lemma_row_sum_bounds(row: Seq<u8>, c: int, from: int, to: int)
    requires
        from <= to,
    ensures
        0 <= row_sum(row, c, from, to) <= 255 * (to - from),
    decreases to - from,
{
    if from < to {
        lemma_row_sum_bounds(row, c, from, to - 1);
    }
}

/// A window loses its first pixel.
proof fn lemma_row_sum_first(row: Seq<u8>, c: int, from: int, to: int)
    requires
        from < to,
    ensures
        row_sum(row, c, from, to) == row_at(row, c, from) + row_sum(row, c, from + 1, to),
    decreases to - from,
{
    if from + 1 < to {
        lemma_row_sum_first(row, c, from, to - 1);
    } else {
        assert(row_sum(row, c, from, from) == 0);
        assert(row_sum(row, c, from + 1, to) == 0);
    }
}

/// Past the left edge there are only copies of the first pixel.
proof fn lemma_row_sum_left(row: Seq<u8>, c: int, n: int)
    requires
        n >= 0,
        row.len() >= 3,
    ensures
        row_sum(row, c, -n, 1) == (n + 1) * row_at(row, c, 0),
    decreases n,
{
    if n == 0 {
        assert(row_sum(row, c, 0, 0) == 0);
    } else {
        lemma_row_sum_first(row, c, -n, 1);
        lemma_row_sum_left(row, c, n - 1);
        assert(row_at(row, c, -n) == row_at(row, c, 0));
        assert((n + 1) * row_at(row, c, 0) == n * row_at(row, c, 0) + row_at(row, c, 0))
            by (nonlinear_arith);
    }
}

/// Where byte `k` of row `y` lies.
proof fn lemma_row_index(y: int, row_len: int, k: int)
    requires
        row_len >= 1,
        0 <= k < row_len,
        y >= 0,
    ensures
        (y * row_len + k) / row_len == y,
        (y * row_len + k) % row_len == k,
{
    vstd::arithmetic::div_mod::lemma_fundamental_div_mod_converse(
        y * row_len + k,
        row_len,
        y,
        k,
    );
}

// ---------------------------------------------------------------------------
// The passes
// ---------------------------------------------------------------------------

/// Channel `c` of pixel `x` of the row of `width` pixels at `start`, the last
/// pixel repeated beyond the right edge.
fn pixel_at(src: &Vec<u8>, start: usize, width: usize, x: usize, c: usize) -> (r: u32)
    requires
        width >= 1,
        c < 3,
        start + 3 * width <= src@.len(),
    ensures
        r == row_at(src@.subrange(start as int, start + 3 * width), c as int, x as int),
{
    let clamped: usize = if x < width {
        x
    } else {
        width - 1
    };
    let ghost row = src@.subrange(start as int, start + 3 * width);
    let _ = src.len();
    assert(row[3 * clamped + c] == src@[start + 3 * clamped + c]);
    src[start + 3 * clamped + c] as u32
}

/// One box pass over channel `c` of one row: a running sum over the window,
/// which costs the same whatever the radius.
fn blur_channel(
    src: &Vec<u8>,
    dst: &mut Vec<u8>,
    start: usize,
    width: usize,
    c: usize,
    radius: u32,
    window: Divisor,
)
    requires
        width >= 1,
        c < 3,
        start + 3 * width <= src@.len(),
        old(dst)@.len() == src@.len(),
        radius <= MAX_RADIUS,
        window.divides_by(2 * radius + 1),
    ensures
        final(dst)@.len() == old(dst)@.len(),
        forall|i: int|
            0 <= i < final(dst)@.len() ==> #[trigger] final(dst)@[i] == (if start <= i < start + 3 * width
                && (i - start) % 3 == c {
                box_byte(
                    src@.subrange(start as int, start + 3 * width),
                    radius as int,
                    (i - start) / 3,
                    c as int,
                )
            } else {
                old(dst)@[i]
            }),
{
    let ghost row = src@.subrange(start as int, start + 3 * width);
    let ghost r = radius as int;
    let ghost begun = dst@;
    let _ = src.len();
    // The window centred on the first pixel reaches `radius` pixels past the
    // left edge, each of them a copy of the first.
    let first: u32 = pixel_at(src, start, width, 0, c);
    proof {
        lemma_row_sum_left(row, c as int, r);
        assert(0 <= first * (radius + 1) <= 255 * (radius + 1)) by (nonlinear_arith)
            requires
                0 <= first <= 255,
                radius >= 0,
        ;
        assert(first * (radius + 1) == (radius + 1) * first) by (nonlinear_arith);
    }
    let mut sum: u32 = first * (radius + 1);
    let mut k: u32 = 1;
    while k <= radius
        invariant
            1 <= k <= radius + 1,
            radius <= MAX_RADIUS,
            r == radius,
            width >= 1,
            c < 3,
            start + 3 * width <= src@.len(),
            row == src@.subrange(start as int, start + 3 * width),
            sum == row_sum(row, c as int, -r, k as int),
        decreases radius + 1 - k,
    {
        proof {
            lemma_row_sum_bounds(row, c as int, -r, k + 1);
        }
        sum += pixel_at(src, start, width, k as usize, c);
        k += 1;
    }

    let mut x: usize = 0;
    while x < width
        invariant
            x <= width,
            width >= 1,
            c < 3,
            radius <= MAX_RADIUS,
            r == radius,
            start + 3 * width <= src@.len(),
            src@.len() <= usize::MAX,
            row == src@.subrange(start as int, start + 3 * width),
            dst@.len() == src@.len(),
            begun.len() == dst@.len(),
            window.divides_by(2 * r + 1),
            sum == row_sum(row, c as int, x - r, x + r + 1),
            forall|i: int|
                0 <= i < dst@.len() ==> #[trigger] dst@[i] == (if start <= i < start + 3 * x && (i
                    - start) % 3 == c {
                    box_byte(row, r, (i - start) / 3, c as int)
                } else {
                    begun[i]
                }),
        decreases width - x,
    {
        proof {
            lemma_row_sum_bounds(row, c as int, x - r, x + r + 1);
            lemma_row_sum_first(row, c as int, x - r, x + r + 2);
            lemma_row_sum_bounds(row, c as int, x - r + 1, x + r + 2);
        }
        // Beyond the right edge every position shows the last pixel.
        let entering: u32 = if width - x > radius as usize {
            pixel_at(src, start, width, x + radius as usize + 1, c)
        } else {
            pixel_at(src, start, width, width - 1, c)
        };
        let leaving: u32 = if x >= radius as usize {
            pixel_at(src, start, width, x - radius as usize, c)
        } else {
            pixel_at(src, start, width, 0, c)
        };
        assert(entering == row_at(row, c as int, x + r + 1));
        assert(leaving == row_at(row, c as int, x - r));
        // Rounded rather than truncated: truncating loses half a level on
        // average on every pass, and with six of them the whole backdrop
        // comes out visibly darker than the desktop it was taken from.
        let level: u32 = window.divide(sum + radius);
        assert((level as u8) == (level % 256) as u8) by (bit_vector);
        let at: usize = start + 3 * x + c;
        let byte: u8 = #[verifier::truncate] (level as u8);
        dst.set(at, byte);
        assert(byte == box_byte(row, r, x as int, c as int));
        assert((at - start) / 3 == x && (at - start) % 3 == c);
        sum = sum + entering - leaving;
        x += 1;
    }
}

/// One box pass over the row of `width` pixels at `start`, from `src` into
/// `dst`, edges clamped to the outermost pixel.
fn blur_row(
    src: &Vec<u8>,
    dst: &mut Vec<u8>,
    start: usize,
    width: usize,
    radius: u32,
    window: Divisor,
)
    requires
        width >= 1,
        start + 3 * width <= src@.len(),
        old(dst)@.len() == src@.len(),
        radius <= MAX_RADIUS,
        window.divides_by(2 * radius + 1),
    ensures
        final(dst)@.len() == old(dst)@.len(),
        forall|i: int|
            0 <= i < final(dst)@.len() ==> #[trigger] final(dst)@[i] == (if start <= i < start + 3 * width {
                box_byte(
                    src@.subrange(start as int, start + 3 * width),
                    radius as int,
                    (i - start) / 3,
                    (i - start) % 3,
                )
            } else {
                old(dst)@[i]
            }),
{
    blur_channel(src, dst, start, width, 0, radius, window);
    blur_channel(src, dst, start, width, 1, radius, window);
    blur_channel(src, dst, start, width, 2, radius, window);
}

/// [`PASSES`] box passes along every row, edges clamped to the outermost
/// pixel. `scratch` is traded back and forth with the image's own buffer.
pub fn blur_rows(image: &mut Image, scratch: &mut Vec<u8>, radius: u32)
    requires
        old(image).wf(),
        old(scratch)@.len() == old(image).rgb@.len(),
        radius <= MAX_RADIUS,
    ensures
        final(image).wf(),
        final(image).width == old(image).width,
        final(image).height == old(image).height,
        final(scratch)@.len() == old(scratch)@.len(),
        final(image).rgb@ == passes_blurred(
            old(image).rgb@,
            old(image).width as int,
            radius as int,
            PASSES as nat,
        ),
{
    if image.width <= 1 || image.height == 0 {
        proof {
            if image.width > 1 {
                lemma_passes_empty(image.rgb@, image.width as int, radius as int, PASSES as nat);
            }
        }
        return;
    }
    let ghost begun = image.rgb@;
    let ghost w = image.width as int;
    let ghost h = image.height as int;
    let _ = image.rgb.len();
    proof {
        assert(w * h * 3 == h * (3 * w)) by (nonlinear_arith);
        assert(h * (3 * w) >= 3 * w) by (nonlinear_arith)
            requires
                h >= 1,
                w >= 1,
        ;
    }
    let width: usize = image.width as usize;
    let row_len: usize = width * 3;
    let window = Divisor::new(radius * 2 + 1);
    let mut pass: usize = 0;
    while pass < PASSES
        invariant
            pass <= PASSES,
            w == image.width,
            h == image.height,
            w > 1,
            h >= 1,
            width == w,
            row_len == 3 * w,
            h * (3 * w) == begun.len(),
            image.wf(),
            image.rgb@.len() == begun.len(),
            scratch@.len() == begun.len(),
            begun.len() <= usize::MAX,
            radius <= MAX_RADIUS,
            window.divides_by(2 * radius + 1),
            image.rgb@ == passes_blurred(begun, w, radius as int, pass as nat),
        decreases PASSES - pass,
    {
        let mut start: usize = 0;
        let ghost mut y: int = 0;
        let ghost after = rows_blurred(image.rgb@, w, radius as int);
        let end: usize = image.rgb.len();
        while start < end
            invariant
                end == begun.len(),
                w > 1,
                h >= 1,
                width == w,
                row_len == 3 * w,
                h * (3 * w) == begun.len(),
                0 <= y <= h,
                start == y * (3 * w),
                image.rgb@.len() == begun.len(),
                scratch@.len() == begun.len(),
                begun.len() <= usize::MAX,
                radius <= MAX_RADIUS,
                window.divides_by(2 * radius + 1),
                after == rows_blurred(image.rgb@, w, radius as int),
                forall|i: int| 0 <= i < start ==> #[trigger] scratch@[i] == after[i],
            decreases end - start,
        {
            proof {
                assert(y < h) by (nonlinear_arith)
                    requires
                        y * (3 * w) < h * (3 * w),
                        w >= 1,
                ;
                assert((y + 1) * (3 * w) <= h * (3 * w)) by (nonlinear_arith)
                    requires
                        y + 1 <= h,
                        w >= 1,
                ;
                assert((y + 1) * (3 * w) == y * (3 * w) + 3 * w) by (nonlinear_arith);
            }
            let ghost earlier = scratch@;
            blur_row(&image.rgb, scratch, start, width, radius, window);
            proof {
                assert forall|i: int| 0 <= i < start + row_len implies #[trigger] scratch@[i]
                    == after[i] by {
                    if i >= start {
                        let k = i - start;
                        lemma_row_index(y, 3 * w, k);
                        assert(i % 3 == k % 3) by {
                            assert(y * (3 * w) == 3 * (y * w)) by (nonlinear_arith);
                        }
                        assert(row_of(image.rgb@, w, y) == image.rgb@.subrange(
                            start as int,
                            start + 3 * width,
                        ));
                    } else {
                        assert(scratch@[i] == earlier[i]);
                    }
                }
                y = y + 1;
            }
            start += row_len;
        }
        assert(scratch@ =~= after);
        std::mem::swap(&mut image.rgb, scratch);
        pass += 1;
    }
}

proof fn lemma_passes_empty(rgb: Seq<u8>, width: int, radius: int, passes: nat)
    requires
        rgb.len() == 0,
    ensures
        passes_blurred(rgb, width, radius, passes) == rgb,
    decreases passes,
{
    if passes > 0 && width > 1 {
        lemma_passes_empty(rgb, width, radius, (passes - 1) as nat);
        assert(rows_blurred(rgb, width, radius) =~= rgb);
    }
}

proof fn lemma_passes_len(rgb: Seq<u8>, width: int, radius: int, passes: nat)
    ensures
        passes_blurred(rgb, width, radius, passes).len() == rgb.len(),
    decreases passes,
{
    if passes > 0 && width > 1 {
        lemma_passes_len(rgb, width, radius, (passes - 1) as nat);
    }
}

/// Byte `c` of pixel `x`, `y` lies inside the image, and its place tells `x`,
/// `y` and `c`.
proof fn lemma_pixel_index(width: int, height: int, x: int, y: int, c: int)
    requires
        0 <= x < width,
        0 <= y < height,
        0 <= c < 3,
    ensures
        0 <= 3 * (y * width + x) + c < width * height * 3,
        (3 * (y * width + x) + c) / 3 == y * width + x,
        (3 * (y * width + x) + c) % 3 == c,
        (y * width + x) / width == y,
        (y * width + x) % width == x,
        width * height * 3 == height * width * 3,
{
    lemma_row_index(y, width, x);
    assert(0 <= y * width && y * width + width <= width * height) by (nonlinear_arith)
        requires
            0 <= y,
            y + 1 <= height,
            width >= 1,
    ;
    assert(width * height == height * width) by (nonlinear_arith);
}

/// Every byte of an image is one of a pixel's three.
proof fn lemma_index_pixel(width: int, height: int, i: int)
    requires
        width >= 1,
        height >= 0,
        0 <= i < width * height * 3,
    ensures
        0 <= i / 3 % width < width,
        0 <= i / 3 / width < height,
        i == 3 * (i / 3 / width * width + i / 3 % width) + i % 3,
{
    let p = i / 3;
    assert(0 <= p < width * height);
    vstd::arithmetic::div_mod::lemma_fundamental_div_mod(p, width);
    assert(p == p / width * width + p % width) by (nonlinear_arith)
        requires
            p == width * (p / width) + p % width,
    ;
    assert(0 <= p / width < height) by (nonlinear_arith)
        requires
            0 <= p < width * height,
            p == width * (p / width) + p % width,
            0 <= p % width < width,
            width >= 1,
    ;
}

/// Exchange the image's rows and columns. `scratch` ends up with the buffer
/// that held the image before.
pub fn transpose(image: &mut Image, scratch: &mut Vec<u8>)
    requires
        old(image).wf(),
        old(scratch)@.len() == old(image).rgb@.len(),
    ensures
        final(image).wf(),
        final(image).width == old(image).height,
        final(image).height == old(image).width,
        final(image).rgb@ == transposed(
            old(image).rgb@,
            old(image).width as int,
            old(image).height as int,
        ),
        final(scratch)@ == old(image).rgb@,
{
    let ghost begun = image.rgb@;
    let ghost w = image.width as int;
    let ghost h = image.height as int;
    let ghost after = transposed(begun, w, h);
    let _ = image.rgb.len();
    let (width, height) = (image.width, image.height);
    assert(w * h * 3 == h * w * 3) by (nonlinear_arith);
    let mut y: u32 = 0;
    while y < height
        invariant
            w == width,
            h == height,
            y <= height,
            image.rgb@ == begun,
            begun.len() == w * h * 3,
            begun.len() == h * w * 3,
            begun.len() <= usize::MAX,
            scratch@.len() == begun.len(),
            after == transposed(begun, w, h),
            forall|i: int|
                0 <= i < after.len() && i / 3 % h < y ==> #[trigger] scratch@[i] == after[i],
        decreases height - y,
    {
        let mut x: u32 = 0;
        while x < width
            invariant
                w == width,
                h == height,
                x <= width,
                y < height,
                image.rgb@ == begun,
                begun.len() == w * h * 3,
                begun.len() == h * w * 3,
                begun.len() <= usize::MAX,
                scratch@.len() == begun.len(),
                after == transposed(begun, w, h),
                forall|i: int|
                    0 <= i < after.len() && (i / 3 % h < y || (i / 3 % h == y && i / 3 / h < x))
                        ==> #[trigger] scratch@[i] == after[i],
            decreases width - x,
        {
            proof {
                lemma_pixel_index(w, h, x as int, y as int, 0);
                lemma_pixel_index(w, h, x as int, y as int, 1);
                lemma_pixel_index(w, h, x as int, y as int, 2);
                lemma_pixel_index(h, w, y as int, x as int, 0);
                lemma_pixel_index(h, w, y as int, x as int, 1);
                lemma_pixel_index(h, w, y as int, x as int, 2);
                lemma_product_fits(w, h, x as int, y as int);
                lemma_product_fits(h, w, y as int, x as int);
            }
            let from: usize = (y as usize * width as usize + x as usize) * 3;
            let to: usize = (x as usize * height as usize + y as usize) * 3;
            let ghost earlier = scratch@;
            scratch.set(to, image.rgb[from]);
            scratch.set(to + 1, image.rgb[from + 1]);
            scratch.set(to + 2, image.rgb[from + 2]);
            proof {
                assert forall|i: int|
                    0 <= i < after.len() && (i / 3 % h < y || (i / 3 % h == y && i / 3 / h < x + 1))
                    implies #[trigger] scratch@[i] == after[i] by {
                    if i / 3 % h == y && i / 3 / h == x {
                        lemma_index_pixel(h, w, i);
                        assert(i == to + i % 3);
                    } else {
                        assert(i != to && i != to + 1 && i != to + 2);
                        assert(scratch@[i] == earlier[i]);
                    }
                }
            }
            x += 1;
        }
        proof {
            assert forall|i: int| 0 <= i < after.len() && i / 3 % h < y + 1 implies #[trigger] scratch@[i]
                == after[i] by {
                assert(w >= 1) by (nonlinear_arith)
                    requires
                        0 <= i < w * h * 3,
                        w >= 0,
                        h >= 1,
                ;
                lemma_index_pixel(h, w, i);
            }
        }
        y += 1;
    }
    proof {
        assert forall|i: int| 0 <= i < after.len() implies #[trigger] scratch@[i] == after[i] by {
            assert(h >= 1) by (nonlinear_arith)
                requires
                    0 <= i < w * h * 3,
                    w >= 0,
                    h >= 0,
            ;
            lemma_index_pixel(h, w, i);
        }
        assert(scratch@ =~= after);
    }
    std::mem::swap(&mut image.rgb, scratch);
    image.width = height;
    image.height = width;
}

/// Parts of a pixel's index are no larger than the whole.
proof fn lemma_product_fits(width: int, height: int, x: int, y: int)
    requires
        0 <= x < width,
        0 <= y < height,
    ensures
        0 <= y * width <= width * height * 3,
        0 <= y * width + x <= width * height * 3,
{
    lemma_pixel_index(width, height, x, y, 0);
    assert(0 <= y * width) by (nonlinear_arith)
        requires
            0 <= y,
            0 <= width,
    ;
}

/// [`PASSES`] box blurs of `radius` on each axis.
///
/// All the horizontal passes run back to back and one transpose turns the
/// columns into rows for the vertical ones: two transposes in all rather than
/// two per pass, and two buffers traded back and forth rather than a fresh one
/// for every step.
pub fn box_blur(image: &mut Image, radius: u32)
    requires
        old(image).wf(),
        radius <= MAX_RADIUS,
    ensures
        final(image).wf(),
        final(image).width == old(image).width,
        final(image).height == old(image).height,
        final(image).rgb@ == box_blurred(
            old(image).rgb@,
            old(image).width as int,
            old(image).height as int,
            radius as int,
        ),
{
    let many: usize = image.rgb.len();
    let mut scratch: Vec<u8> = vec![0u8; many];
    blur_rows(image, &mut scratch, radius);
    transpose(image, &mut scratch);
    blur_rows(image, &mut scratch, radius);
    transpose(image, &mut scratch);
}

// ---------------------------------------------------------------------------
// Downscaling
// ---------------------------------------------------------------------------

/// The factor that brings the longer edge down to [`WORKING_EDGE`].
pub open spec fn factor_of(width: int, height: int) -> int {
    let longest = if width < height {
        height
    } else {
        width
    };
    if longest == 0 {
        1
    } else {
        (longest + WORKING_EDGE - 1) / (WORKING_EDGE as int)
    }
}

/// The distance between two samples of a block.
pub open spec fn step_of(factor: int) -> int {
    if factor <= 1 {
        1
    } else {
        factor / 2
    }
}

/// How many samples are taken of a block along each axis.
pub open spec fn samples_of(factor: int) -> int {
    if factor == 1 {
        1
    } else if factor % 2 == 0 {
        2
    } else {
        3
    }
}

/// The byte at `offset` of the pixel at `x`, `y`.
pub open spec fn byte_at(frame: Frame, x: int, y: int, offset: int) -> int {
    frame.data@[y * frame.stride + x * 4 + offset] as int
}

/// The first `n` samples in one row of the block at `x`, `y`, summed.
pub open spec fn samples_across(
    frame: Frame,
    factor: int,
    x: int,
    row: int,
    offset: int,
    n: int,
) -> int
    decreases n,
{
    if n <= 0 {
        0
    } else {
        samples_across(frame, factor, x, row, offset, n - 1) + byte_at(
            frame,
            x * factor + (n - 1) * step_of(factor),
            row,
            offset,
        )
    }
}

/// The first `n` rows of samples of the block at `x`, `y`, summed.
pub open spec fn samples_down(
    frame: Frame,
    factor: int,
    x: int,
    y: int,
    offset: int,
    n: int,
) -> int
    decreases n,
{
    if n <= 0 {
        0
    } else {
        samples_down(frame, factor, x, y, offset, n - 1) + samples_across(
            frame,
            factor,
            x,
            y * factor + (n - 1) * step_of(factor),
            offset,
            samples_of(factor),
        )
    }
}

/// The samples of the block at `x`, `y` averaged and rounded.
pub open spec fn block_average(frame: Frame, factor: int, x: int, y: int, offset: int) -> int {
    let count = samples_of(factor) * samples_of(factor);
    (samples_down(frame, factor, x, y, offset, samples_of(factor)) + count / 2) / count
}

/// Where the red, green or blue byte of a pixel lies.
pub open spec fn offset_of(frame: Frame, c: int) -> int {
    if c == 0 {
        frame.channels.0 as int
    } else if c == 1 {
        frame.channels.1 as int
    } else {
        frame.channels.2 as int
    }
}

/// Every block of the frame averaged down to one pixel.
pub open spec fn scaled(frame: Frame, factor: int) -> Seq<u8> {
    let width = frame.width as int / factor;
    let height = frame.height as int / factor;
    Seq::new(
        (width * height * 3) as nat,
        |i: int|
            block_average(
                frame,
                factor,
                i / 3 % width,
                i / 3 / width,
                offset_of(frame, i % 3),
            ) as u8,
    )
}

/// A frame has room for at least one block, and its buffer holds as many rows
/// of `stride` bytes as it says, each wide enough for its pixels.
pub open spec fn scalable(frame: Frame, factor: int) -> bool {
    &&& frame.width as int / factor > 0
    &&& frame.height as int / factor > 0
    &&& frame.stride >= frame.width * 4
    &&& frame.data@.len() >= frame.stride * frame.height
}

pub fn scale_factor(width: u32, height: u32) -> (r: u32)
    ensures
        r == factor_of(width as int, height as int),
        r >= 1,
        // The smallest factor that brings both edges within 480 pixels.
        width <= 480 * r && height <= 480 * r,
        r == 1 || width > 480 * (r - 1) || height > 480 * (r - 1),
{
    proof {
        factor_is_the_smallest_that_fits(width as int, height as int);
    }
    let longest: u32 = if width < height {
        height
    } else {
        width
    };
    if longest == 0 {
        1
    } else {
        (longest - 1) / WORKING_EDGE + 1
    }
}

/// The samples lie inside their block.
proof fn lemma_samples_inside(factor: int)
    requires
        factor >= 1,
    ensures
        1 <= samples_of(factor) <= 3,
        1 <= step_of(factor),
        (samples_of(factor) - 1) * step_of(factor) < factor,
        samples_of(factor) * step_of(factor) >= factor,
{
    let n = samples_of(factor);
    let step = step_of(factor);
    if n == 2 {
        assert((n - 1) * step == step && n * step == 2 * step);
    } else if n == 3 {
        assert((n - 1) * step == 2 * step && n * step == 3 * step);
    }
}

/// Where a pixel of the frame lies in the buffer.
proof fn lemma_byte_inside(width: int, height: int, stride: int, x: int, y: int, offset: int)
    requires
        0 <= x < width,
        0 <= y < height,
        stride >= width * 4,
        0 <= offset < 4,
    ensures
        0 <= y * stride <= stride * height,
        0 <= y * stride + x * 4 + offset < stride * height,
{
    assert(0 <= y * stride && y * stride + stride <= stride * height) by (nonlinear_arith)
        requires
            0 <= y,
            y + 1 <= height,
            stride >= 0,
    ;
}

/// A block lies inside the frame.
proof fn lemma_block_inside(size: int, factor: int, x: int, d: int)
    requires
        factor >= 1,
        0 <= x < size / factor,
        0 <= d < factor,
    ensures
        0 <= x * factor <= x * factor + d < size,
{
    assert(0 <= x * factor && x * factor + factor <= size) by (nonlinear_arith)
        requires
            factor >= 1,
            0 <= x,
            x + 1 <= size / factor,
    ;
}

/// The samples of one channel of the block at `x`, `y`, summed.
fn sum_block(frame: &Frame, data: &[u8], factor: u32, x: u32, y: u32, offset: usize) -> (r: u32)
    requires
        factor >= 1,
        scalable(*frame, factor as int),
        data@ == frame.data@,
        x < frame.width as int / factor as int,
        y < frame.height as int / factor as int,
        offset < 4,
    ensures
        r == samples_down(
            *frame,
            factor as int,
            x as int,
            y as int,
            offset as int,
            samples_of(factor as int),
        ),
        r <= 255 * (samples_of(factor as int) * samples_of(factor as int)),
{
    let ghost f = factor as int;
    let samples: u32 = if factor == 1 {
        1
    } else if factor % 2 == 0 {
        2
    } else {
        3
    };
    let step: u32 = if factor <= 1 {
        1
    } else {
        factor / 2
    };
    let _ = data.len();
    let mut sum: u32 = 0;
    let mut dy: u32 = 0;
    while dy < samples
        invariant
            f == factor,
            factor >= 1,
            scalable(*frame, f),
            data@ == frame.data@,
            data@.len() <= usize::MAX,
            x < frame.width as int / f,
            y < frame.height as int / f,
            offset < 4,
            samples == samples_of(f),
            step == step_of(f),
            dy <= samples <= 3,
            sum == samples_down(*frame, f, x as int, y as int, offset as int, dy as int),
            sum <= 255 * (samples * dy),
        decreases samples - dy,
    {
        proof {
            lemma_samples_inside(f);
            assert(0 <= dy * step <= (samples_of(f) - 1) * step_of(f)) by (nonlinear_arith)
                requires
                    0 <= dy <= samples_of(f) - 1,
                    step == step_of(f),
                    step >= 0,
            ;
            lemma_block_inside(frame.height as int, f, y as int, dy * step);
            assert(0 <= samples * dy <= 6) by (nonlinear_arith)
                requires
                    0 <= dy <= samples - 1,
                    samples <= 3,
            ;
            assert(samples * (dy + 1) == samples * dy + samples) by (nonlinear_arith);
        }
        let row: u32 = y * factor + dy * step;
        let ghost begun = sum;
        let mut dx: u32 = 0;
        while dx < samples
            invariant
                f == factor,
                factor >= 1,
                scalable(*frame, f),
                data@ == frame.data@,
                data@.len() <= usize::MAX,
                x < frame.width as int / f,
                offset < 4,
                samples == samples_of(f),
                step == step_of(f),
                dx <= samples <= 3,
                row < frame.height,
                begun <= 255 * 6,
                sum == begun + samples_across(
                    *frame,
                    f,
                    x as int,
                    row as int,
                    offset as int,
                    dx as int,
                ),
                sum <= begun + 255 * dx,
            decreases samples - dx,
        {
            proof {
                lemma_samples_inside(f);
                assert(0 <= dx * step <= (samples_of(f) - 1) * step_of(f)) by (nonlinear_arith)
                    requires
                        0 <= dx <= samples_of(f) - 1,
                        step == step_of(f),
                        step >= 0,
                ;
                lemma_block_inside(frame.width as int, f, x as int, dx * step);
            }
            let column: u32 = x * factor + dx * step;
            proof {
                lemma_byte_inside(
                    frame.width as int,
                    frame.height as int,
                    frame.stride as int,
                    column as int,
                    row as int,
                    offset as int,
                );
            }
            let at: usize = row as usize * frame.stride as usize + column as usize * 4 + offset;
            sum += data[at] as u32;
            dx += 1;
        }
        dy += 1;
    }
    sum
}

/// `sum` divided by the `n` samples that it is made of, rounded to a byte.
fn average(sum: u32, n: u32, count: Divisor) -> (r: u8)
    requires
        count.divides_by(n as int),
        1 <= n <= 9,
        sum <= 255 * n,
    ensures
        r == (sum + n as int / 2) / n as int,
{
    let half: u32 = n / 2;
    proof {
        assert((sum + half) * (n - 1) < 0x1_0000_0000) by (nonlinear_arith)
            requires
                0 <= sum <= 255 * n,
                1 <= n <= 9,
                0 <= half <= n,
        ;
        assert(0 <= (sum + half) / n as int <= 255) by (nonlinear_arith)
            requires
                0 <= sum <= 255 * n,
                1 <= n <= 9,
                0 <= half < n,
        ;
    }
    count.divide(sum + half) as u8
}

/// Average each `factor` x `factor` block down to one RGB pixel, sampling
/// every `max(factor / 2, 1)`-th pixel on both axes: a 2x2 grid inside the
/// block for an even `factor`, 3x3 for an odd one. Reading every source pixel
/// is the single most expensive thing the launcher does on a slow CPU, and the
/// difference never survives three box passes.
pub fn downscale(frame: &Frame, factor: u32) -> (r: Option<Image>)
    requires
        frame.wf(),
        factor >= 1,
    ensures
        match r {
            Some(image) => scalable(*frame, factor as int) && image.wf() && image.width
                == frame.width as int / factor as int && image.height == frame.height as int
                / factor as int && image.rgb@ == scaled(*frame, factor as int),
            None => !scalable(*frame, factor as int),
        },
{
    let ghost f = factor as int;
    let width: u32 = frame.width / factor;
    let height: u32 = frame.height / factor;
    if width == 0 || height == 0 {
        return None;
    }
    // Checked once here rather than per sample: every block below lies inside
    // the frame, so a buffer that holds that many rows of `stride` bytes, each
    // wide enough for the frame's pixels, holds every sample. A frame that
    // does not is not worth a partial backdrop.
    let data = frame.data.bytes();
    proof {
        assert(0 <= frame.stride * frame.height <= 0xFFFF_FFFF * 0xFFFF_FFFF) by (nonlinear_arith)
            requires
                0 <= frame.stride <= 0xFFFF_FFFF,
                0 <= frame.height <= 0xFFFF_FFFF,
        ;
    }
    if (frame.stride as u64) < frame.width as u64 * 4 || (data.len() as u64) < frame.stride as u64
        * frame.height as u64 {
        return None;
    }
    let (red, green, blue) = frame.channels;
    let samples: u32 = if factor == 1 {
        1
    } else if factor % 2 == 0 {
        2
    } else {
        3
    };
    assert(1 <= samples * samples <= 9) by (nonlinear_arith)
        requires
            1 <= samples <= 3,
    ;
    let count: u32 = samples * samples;
    let by = Divisor::new(count);
    let ghost after = scaled(*frame, f);
    let ghost w = width as int;
    let ghost h = height as int;
    let mut rgb: Vec<u8> = Vec::new();
    let mut y: u32 = 0;
    assert(w * h * 3 >= 0) by (nonlinear_arith)
        requires
            w >= 0,
            h >= 0,
    ;
    while y < height
        invariant
            y <= height,
            f == factor,
            factor >= 1,
            w == width,
            h == height,
            w == frame.width as int / f,
            h == frame.height as int / f,
            w > 0,
            frame.wf(),
            scalable(*frame, f),
            data@ == frame.data@,
            (red, green, blue) == frame.channels,
            samples == samples_of(f),
            count == samples * samples,
            1 <= count <= 9,
            by.divides_by(count as int),
            after == scaled(*frame, f),
            after.len() == w * h * 3,
            rgb@.len() == y * w * 3,
            forall|i: int| 0 <= i < rgb@.len() ==> #[trigger] rgb@[i] == after[i],
        decreases height - y,
    {
        let mut x: u32 = 0;
        while x < width
            invariant
                x <= width,
                y < height,
                f == factor,
                factor >= 1,
                w == width,
                h == height,
                w == frame.width as int / f,
                h == frame.height as int / f,
                w > 0,
                frame.wf(),
                scalable(*frame, f),
                data@ == frame.data@,
                (red, green, blue) == frame.channels,
                samples == samples_of(f),
                count == samples * samples,
                1 <= count <= 9,
                by.divides_by(count as int),
                after == scaled(*frame, f),
                after.len() == w * h * 3,
                rgb@.len() == (y * w + x) * 3,
                forall|i: int| 0 <= i < rgb@.len() ==> #[trigger] rgb@[i] == after[i],
            decreases width - x,
        {
            let r: u8 = average(sum_block(frame, data, factor, x, y, red), count, by);
            let g: u8 = average(sum_block(frame, data, factor, x, y, green), count, by);
            let b: u8 = average(sum_block(frame, data, factor, x, y, blue), count, by);
            proof {
                lemma_pixel_index(w, h, x as int, y as int, 0);
                lemma_pixel_index(w, h, x as int, y as int, 1);
                lemma_pixel_index(w, h, x as int, y as int, 2);
                let at = 3 * (y * w + x);
                assert(after[at] == r);
                assert(after[at + 1] == g);
                assert(after[at + 2] == b);
            }
            rgb.push(r);
            rgb.push(g);
            rgb.push(b);
            x += 1;
        }
        assert((y + 1) * w == y * w + w) by (nonlinear_arith);
        y += 1;
    }
    assert(h * w == w * h) by (nonlinear_arith);
    assert(rgb@ =~= after);
    Some(Image { width, height, rgb })
}

/// What a frame looks like behind the launcher: downscaled, and blurred unless
/// the radius is zero.
pub open spec fn backdrop(frame: Frame, radius: int) -> Seq<u8> {
    let factor = factor_of(frame.width as int, frame.height as int);
    let small = scaled(frame, factor);
    if radius == 0 {
        small
    } else {
        box_blurred(
            small,
            frame.width as int / factor,
            frame.height as int / factor,
            if radius / factor < 1 {
                1
            } else {
                radius / factor
            },
        )
    }
}

/// Downscale `frame`, blur it, and hand back something ready to upload as a
/// texture. `radius` is expressed in full resolution pixels.
pub fn blurred(frame: &Frame, radius: u32) -> (r: Option<Image>)
    requires
        frame.wf(),
        scalable(*frame, factor_of(frame.width as int, frame.height as int)) ==> radius as int
            / factor_of(frame.width as int, frame.height as int) <= MAX_RADIUS,
    ensures
        ({
            let factor = factor_of(frame.width as int, frame.height as int);
            match r {
                Some(image) => scalable(*frame, factor) && image.wf() && image.width
                    == frame.width as int / factor && image.height == frame.height as int / factor
                    && image.rgb@ == backdrop(*frame, radius as int),
                None => !scalable(*frame, factor),
            }
        }),
        // The radius that was asked for reaches the blur, scaled down with the
        // image and never to nothing.
        r matches Some(image) ==> {
            let factor = factor_of(frame.width as int, frame.height as int);
            let (width, height) = (frame.width as int / factor, frame.height as int / factor);
            let small = scaled(*frame, factor);
            &&& radius == 0 ==> image.rgb@ == small
            &&& 0 < radius < factor ==> image.rgb@ == box_blurred(small, width, height, 1)
            &&& radius >= factor && radius > 0 ==> image.rgb@ == box_blurred(
                small,
                width,
                height,
                radius as int / factor,
            )
        },
{
    proof {
        radius_reaches_the_blur(*frame, radius as int);
    }
    let factor: u32 = scale_factor(frame.width, frame.height);
    match downscale(frame, factor) {
        Some(image) => {
            let mut image = image;
            if radius > 0 {
                let small: u32 = if radius / factor < 1 {
                    1
                } else {
                    radius / factor
                };
                box_blur(&mut image, small);
            }
            Some(image)
        },
        None => None,
    }
}

// ---------------------------------------------------------------------------
// What the blur keeps
// ---------------------------------------------------------------------------

/// Exchanging rows and columns twice changes nothing.
pub proof fn transposing_twice_changes_nothing(rgb: Seq<u8>, width: int, height: int)
    requires
        width >= 0,
        height >= 0,
        rgb.len() == width * height * 3,
    ensures
        transposed(transposed(rgb, width, height), height, width) == rgb,
{
    let once = transposed(rgb, width, height);
    let twice = transposed(once, height, width);
    assert forall|i: int| 0 <= i < rgb.len() implies #[trigger] twice[i] == rgb[i] by {
        assert(width >= 1 && height >= 1) by (nonlinear_arith)
            requires
                0 <= i < width * height * 3,
                width >= 0,
                height >= 0,
        ;
        lemma_index_pixel(width, height, i);
        let x = i / 3 % width;
        let y = i / 3 / width;
        lemma_pixel_index(height, width, y, x, i % 3);
    }
    assert(twice =~= rgb);
}

/// The factor is the smallest that brings both edges within 480 pixels.
pub proof fn factor_is_the_smallest_that_fits(width: int, height: int)
    requires
        width >= 0,
        height >= 0,
    ensures
        ({
            let f = factor_of(width, height);
            &&& f >= 1
            &&& width <= 480 * f && height <= 480 * f
            &&& f == 1 || width > 480 * (f - 1) || height > 480 * (f - 1)
        }),
{
}

/// The radius that is asked for, in pixels of the screen, reaches the blur: the
/// image that was scaled down by a factor is blurred by the radius divided by
/// it, and by one pixel where that would be nothing.
pub proof fn radius_reaches_the_blur(frame: Frame, radius: int)
    requires
        radius >= 0,
    ensures
        ({
            let f = factor_of(frame.width as int, frame.height as int);
            let (width, height) = (frame.width as int / f, frame.height as int / f);
            let small = scaled(frame, f);
            &&& radius == 0 ==> backdrop(frame, radius) == small
            &&& 0 < radius < f ==> backdrop(frame, radius) == box_blurred(small, width, height, 1)
            &&& radius >= f ==> backdrop(frame, radius) == box_blurred(
                small,
                width,
                height,
                radius / f,
            )
        }),
{
    let f = factor_of(frame.width as int, frame.height as int);
    factor_is_the_smallest_that_fits(frame.width as int, frame.height as int);
    if radius < f {
        assert(radius / f == 0) by (nonlinear_arith)
            requires
                0 <= radius < f,
        ;
    } else {
        assert(radius / f >= 1) by (nonlinear_arith)
            requires
                1 <= f <= radius,
        ;
    }
}

/// The blur is three passes along the rows, then three along the columns; an
/// axis of one pixel is left alone.
pub proof fn blur_is_three_passes_each_way(rgb: Seq<u8>, width: int, height: int, radius: int)
    ensures
        ({
            let one = rows_blurred(rgb, width, radius);
            let two = rows_blurred(one, width, radius);
            let along = if width <= 1 {
                rgb
            } else {
                rows_blurred(two, width, radius)
            };
            let turned = transposed(along, width, height);
            let four = rows_blurred(turned, height, radius);
            let five = rows_blurred(four, height, radius);
            let down = if height <= 1 {
                turned
            } else {
                rows_blurred(five, height, radius)
            };
            box_blurred(rgb, width, height, radius) == transposed(down, height, width)
        }),
{
    reveal_with_fuel(passes_blurred, 4);
}

/// In a pass every pixel of a row becomes the rounded mean of the pixels that
/// are at most `radius` away from it in that row, the outermost ones repeated
/// beyond the edges, as long as the sums are small enough.
pub proof fn pass_averages_each_pixel(
    rgb: Seq<u8>,
    width: int,
    height: int,
    radius: int,
    x: int,
    y: int,
    c: int,
)
    requires
        rgb.len() == width * height * 3,
        0 <= x < width,
        0 <= y < height,
        0 <= c < 3,
        0 <= radius,
        (255 * (2 * radius + 1) + radius) * (2 * radius) < 0x1_0000_0000,
    ensures
        rows_blurred(rgb, width, radius)[3 * (y * width + x) + c] as int == (row_sum(
            rgb.subrange(y * (3 * width), (y + 1) * (3 * width)),
            c,
            x - radius,
            x + radius + 1,
        ) + radius) / (2 * radius + 1),
{
    let i = 3 * (y * width + x) + c;
    let row = rgb.subrange(y * (3 * width), (y + 1) * (3 * width));
    lemma_pixel_index(width, height, x, y, c);
    let row_len = 3 * width;
    assert(i == y * row_len + (3 * x + c)) by (nonlinear_arith)
        requires
            i == 3 * (y * width + x) + c,
            row_len == 3 * width,
    ;
    lemma_row_index(y, row_len, 3 * x + c);
    let sum = row_sum(row, c, x - radius, x + radius + 1);
    lemma_row_sum_bounds(row, c, x - radius, x + radius + 1);
    assert((sum + radius) * (2 * radius) < 0x1_0000_0000) by (nonlinear_arith)
        requires
            0 <= sum <= 255 * (2 * radius + 1),
            0 <= radius,
            (255 * (2 * radius + 1) + radius) * (2 * radius) < 0x1_0000_0000,
    ;
    pass_is_the_rounded_mean(row, radius, x, c);
}

/// The sum over a window takes each pixel once, and beyond an edge the
/// outermost pixel.
pub proof fn window_takes_each_pixel_once(row: Seq<u8>, c: int, from: int, to: int)
    requires
        from <= to,
        row.len() >= 3,
        row.len() % 3 == 0,
    ensures
        row_sum(row, c, from, from) == 0,
        row_sum(row, c, from, to + 1) - row_sum(row, c, from, to) == (if to < 0 {
            row[c]
        } else if 3 * to >= row.len() {
            row[row.len() - 3 + c]
        } else {
            row[3 * to + c]
        }),
{
}

/// A pass looks no further than its radius: a pixel of two rows comes out the
/// same if they agree that far around it.
pub proof fn pass_looks_no_further_than_its_radius(
    a: Seq<u8>,
    b: Seq<u8>,
    radius: int,
    x: int,
    c: int,
)
    requires
        0 <= radius,
        forall|k: int|
            x - radius <= k <= x + radius ==> #[trigger] row_at(a, c, k) == row_at(b, c, k),
    ensures
        box_byte(a, radius, x, c) == box_byte(b, radius, x, c),
{
    lemma_equal_sums(a, b, c, x - radius, x + radius + 1);
}

proof fn lemma_equal_sums(a: Seq<u8>, b: Seq<u8>, c: int, from: int, to: int)
    requires
        forall|k: int| from <= k < to ==> #[trigger] row_at(a, c, k) == row_at(b, c, k),
    ensures
        row_sum(a, c, from, to) == row_sum(b, c, from, to),
    decreases to - from,
{
    if from < to {
        lemma_equal_sums(a, b, c, from, to - 1);
        assert(row_at(a, c, to - 1) == row_at(b, c, to - 1));
    }
}

/// Exchanging rows and columns puts the pixel at `x`, `y` at `y`, `x`.
pub proof fn transposing_moves_each_pixel(
    rgb: Seq<u8>,
    width: int,
    height: int,
    x: int,
    y: int,
    c: int,
)
    requires
        rgb.len() == width * height * 3,
        0 <= x < width,
        0 <= y < height,
        0 <= c < 3,
    ensures
        transposed(rgb, width, height)[3 * (x * height + y) + c] == rgb[3 * (y * width + x) + c],
{
    lemma_pixel_index(height, width, y, x, c);
    lemma_pixel_index(width, height, x, y, c);
}

/// The byte of channel `c` of the pixel at `x`, `y` of a frame.
pub open spec fn channel_at(frame: Frame, x: int, y: int, c: int) -> int {
    frame.data@[y * frame.stride + 4 * x + (if c == 0 {
        frame.channels.0
    } else if c == 1 {
        frame.channels.1
    } else {
        frame.channels.2
    })] as int
}

/// Without scaling every pixel is taken as it is.
pub proof fn unscaled_pixels_are_kept(frame: Frame, x: int, y: int, c: int)
    requires
        0 <= x < frame.width,
        0 <= y < frame.height,
        0 <= c < 3,
    ensures
        scaled(frame, 1)[3 * (y * frame.width + x) + c] == channel_at(frame, x, y, c),
{
    assert(frame.width as int / 1 == frame.width && frame.height as int / 1 == frame.height);
    lemma_scaled_pixel(frame, 1, x, y, c);
    lemma_channel(frame, x, y, c);
    assert(samples_of(1) * samples_of(1) == 1);
    assert(x * 1 + 0 * step_of(1) == x && y * 1 + 0 * step_of(1) == y);
    reveal_with_fuel(samples_across, 2);
    reveal_with_fuel(samples_down, 2);
}

/// An even factor averages a grid of two by two pixels inside each block.
pub proof fn even_factors_average_four_pixels(frame: Frame, factor: int, x: int, y: int, c: int)
    requires
        factor >= 2,
        factor % 2 == 0,
        0 <= x < frame.width as int / factor,
        0 <= y < frame.height as int / factor,
        0 <= c < 3,
    ensures
        ({
            let (left, top, half) = (x * factor, y * factor, factor / 2);
            scaled(frame, factor)[3 * (y * (frame.width as int / factor) + x) + c] == (channel_at(
                frame,
                left,
                top,
                c,
            ) + channel_at(frame, left + half, top, c) + channel_at(frame, left, top + half, c)
                + channel_at(frame, left + half, top + half, c) + 2) / 4
        }),
{
    let (left, top, half) = (x * factor, y * factor, factor / 2);
    lemma_scaled_pixel(frame, factor, x, y, c);
    lemma_channel(frame, left, top, c);
    lemma_channel(frame, left + half, top, c);
    lemma_channel(frame, left, top + half, c);
    lemma_channel(frame, left + half, top + half, c);
    assert(0 * step_of(factor) == 0 && 1 * step_of(factor) == half);
    reveal_with_fuel(samples_across, 3);
    reveal_with_fuel(samples_down, 3);
}

/// An odd factor averages a grid of three by three pixels inside each block.
pub proof fn odd_factors_average_nine_pixels(frame: Frame, factor: int, x: int, y: int, c: int)
    requires
        factor >= 3,
        factor % 2 == 1,
        0 <= x < frame.width as int / factor,
        0 <= y < frame.height as int / factor,
        0 <= c < 3,
    ensures
        ({
            let (l, t, h, w) = (x * factor, y * factor, factor / 2, factor - 1);
            scaled(frame, factor)[3 * (y * (frame.width as int / factor) + x) + c] == (channel_at(
                frame,
                l,
                t,
                c,
            ) + channel_at(frame, l + h, t, c) + channel_at(frame, l + w, t, c) + channel_at(
                frame,
                l,
                t + h,
                c,
            ) + channel_at(frame, l + h, t + h, c) + channel_at(frame, l + w, t + h, c)
                + channel_at(frame, l, t + w, c) + channel_at(frame, l + h, t + w, c) + channel_at(
                frame,
                l + w,
                t + w,
                c,
            ) + 4) / 9
        }),
{
    let (l, t, h, w) = (x * factor, y * factor, factor / 2, factor - 1);
    lemma_scaled_pixel(frame, factor, x, y, c);
    lemma_channel(frame, l, t, c);
    lemma_channel(frame, l + h, t, c);
    lemma_channel(frame, l + w, t, c);
    lemma_channel(frame, l, t + h, c);
    lemma_channel(frame, l + h, t + h, c);
    lemma_channel(frame, l + w, t + h, c);
    lemma_channel(frame, l, t + w, c);
    lemma_channel(frame, l + h, t + w, c);
    lemma_channel(frame, l + w, t + w, c);
    assert(0 * step_of(factor) == 0 && 1 * step_of(factor) == h && 2 * step_of(factor) == w);
    reveal_with_fuel(samples_across, 4);
    reveal_with_fuel(samples_down, 4);
}

proof fn lemma_channel(frame: Frame, x: int, y: int, c: int)
    requires
        0 <= c < 3,
    ensures
        byte_at(frame, x, y, offset_of(frame, c)) == channel_at(frame, x, y, c),
        0 <= channel_at(frame, x, y, c) <= 255,
{
}

proof fn lemma_scaled_pixel(frame: Frame, factor: int, x: int, y: int, c: int)
    requires
        factor >= 1,
        0 <= x < frame.width as int / factor,
        0 <= y < frame.height as int / factor,
        0 <= c < 3,
    ensures
        scaled(frame, factor)[3 * (y * (frame.width as int / factor) + x) + c] == block_average(
            frame,
            factor,
            x,
            y,
            offset_of(frame, c),
        ) as u8,
{
    lemma_pixel_index(frame.width as int / factor, frame.height as int / factor, x, y, c);
}

/// Every byte of channel `c` lies between `low` and `high`.
pub open spec fn between(rgb: Seq<u8>, c: int, low: int, high: int) -> bool {
    forall|i: int| 0 <= i < rgb.len() && i % 3 == c ==> low <= #[trigger] rgb[i] <= high
}

proof fn lemma_row_sum_between(row: Seq<u8>, c: int, from: int, to: int, low: int, high: int)
    requires
        from <= to,
        forall|x: int| low <= #[trigger] row_at(row, c, x) <= high,
    ensures
        low * (to - from) <= row_sum(row, c, from, to) <= high * (to - from),
    decreases to - from,
{
    if from < to {
        lemma_row_sum_between(row, c, from, to - 1, low, high);
        assert(low * (to - from) == low * (to - 1 - from) + low) by (nonlinear_arith);
        assert(high * (to - from) == high * (to - 1 - from) + high) by (nonlinear_arith);
        assert(low <= row_at(row, c, to - 1) <= high);
    } else {
        assert(low * 0 == 0 && high * 0 == 0);
    }
}

/// A window filled with `level` is averaged to `level`, though the average is
/// taken by way of a reciprocal that overshoots.
pub open spec fn averages_true(radius: int, level: int) -> bool {
    quotient(level * (2 * radius + 1) + radius, 2 * radius + 1) == level
}

/// The reciprocal, times the divisor, overshoots 2^32 by less than the divisor.
proof fn lemma_reciprocal(d: int)
    requires
        d >= 1,
    ensures
        0 <= reciprocal_of(d) * d - 0x1_0000_0000 <= d - 1,
        reciprocal_of(d) >= 0,
{
    let m = reciprocal_of(d);
    assert(0 <= m * d - 0x1_0000_0000 <= d - 1 && m >= 0) by (nonlinear_arith)
        requires
            d >= 1,
            m == (0x1_0000_0000 + d - 1) / d,
    ;
}

/// Every level is averaged to itself while the window sums stay within 2^31:
/// the overshoot then stays under the half that rounding leaves.
pub proof fn small_windows_average_true(radius: int, level: int)
    requires
        0 <= radius,
        0 <= level <= 255,
        511 * radius + 255 <= 0x8000_0000,
    ensures
        averages_true(radius, level),
{
    let d = 2 * radius + 1;
    let n = level * d + radius;
    let m = reciprocal_of(d);
    let full = 0x1_0000_0000int;
    let e = m * d - full;
    lemma_reciprocal(d);
    assert(0 <= n <= 511 * radius + 255) by (nonlinear_arith)
        requires
            n == level * (2 * radius + 1) + radius,
            0 <= level <= 255,
            radius >= 0,
    ;
    let product = n * m;
    assert(d * product == n * full + n * e) by (nonlinear_arith)
        requires
            product == n * m,
            e == m * d - full,
    ;
    assert(0 <= n * e <= radius * full) by (nonlinear_arith)
        requires
            0 <= n <= 0x8000_0000,
            0 <= e <= 2 * radius,
            full == 0x1_0000_0000,
    ;
    assert(level * full <= product) by (nonlinear_arith)
        requires
            d * product == n * full + n * e,
            n * e >= 0,
            n == level * d + radius,
            radius >= 0,
            d >= 1,
            full == 0x1_0000_0000,
    ;
    assert(product < (level + 1) * full) by (nonlinear_arith)
        requires
            d * product == n * full + n * e,
            n * e <= radius * full,
            n == level * d + radius,
            d == 2 * radius + 1,
            radius >= 0,
            full == 0x1_0000_0000,
    ;
    assert(product / full == level) by (nonlinear_arith)
        requires
            full == 0x1_0000_0000,
            level * full <= product < (level + 1) * full,
    ;
}

/// A rounded average lies between its bounds.
proof fn lemma_average_between(n: int, radius: int, low: int, high: int)
    requires
        0 <= radius,
        0 <= low,
        low * (2 * radius + 1) + radius <= n <= high * (2 * radius + 1) + radius,
        averages_true(radius, high),
    ensures
        low <= quotient(n, 2 * radius + 1) <= high,
{
    let d = 2 * radius + 1;
    let m = reciprocal_of(d);
    let full = 0x1_0000_0000int;
    lemma_reciprocal(d);
    let top = high * d + radius;
    assert(n * m <= top * m) by (nonlinear_arith)
        requires
            n <= top,
            m >= 0,
    ;
    assert(low * full <= n * m) by (nonlinear_arith)
        requires
            n >= low * d + radius,
            radius >= 0,
            low >= 0,
            m * d >= full,
            m >= 0,
    ;
    assert(low <= (n * m) / full <= (top * m) / full) by (nonlinear_arith)
        requires
            full == 0x1_0000_0000,
            low * full <= n * m <= top * m,
    ;
}

proof fn lemma_pass_between(rgb: Seq<u8>, width: int, radius: int, c: int, low: int, high: int)
    requires
        width >= 1,
        0 <= c < 3,
        0 <= radius,
        averages_true(radius, high),
        0 <= low <= high <= 255,
        rgb.len() as int % (3 * width) == 0,
        between(rgb, c, low, high),
    ensures
        between(rows_blurred(rgb, width, radius), c, low, high),
{
    let after = rows_blurred(rgb, width, radius);
    let row_len = 3 * width;
    assert forall|i: int| 0 <= i < after.len() && i % 3 == c implies low <= #[trigger] after[i]
        <= high by {
        let y = i / row_len;
        let k = i % row_len;
        let row = row_of(rgb, width, y);
        vstd::arithmetic::div_mod::lemma_fundamental_div_mod(i, row_len);
        let rows = rgb.len() as int / row_len;
        vstd::arithmetic::div_mod::lemma_fundamental_div_mod(rgb.len() as int, row_len);
        assert(0 <= y * row_len && (y + 1) * row_len <= rgb.len()) by (nonlinear_arith)
            requires
                0 <= i < rgb.len(),
                i == row_len * y + k,
                0 <= k < row_len,
                rgb.len() == row_len * rows,
        ;
        assert((y + 1) * row_len == y * row_len + row_len) by (nonlinear_arith);
        assert(y * row_len == 3 * (y * width)) by (nonlinear_arith)
            requires
                row_len == 3 * width,
        ;
        assert(row.len() == row_len);
        assert forall|x: int| low <= #[trigger] row_at(row, c, x) <= high by {
            let p = if x < 0 {
                0
            } else if x > width - 1 {
                width - 1
            } else {
                x
            };
            assert(row[3 * p + c] == rgb[y * row_len + 3 * p + c]);
            assert((y * row_len + 3 * p + c) % 3 == c);
        }
        let x = k / 3;
        let sum = row_sum(row, c, x - radius, x + radius + 1);
        lemma_row_sum_between(row, c, x - radius, x + radius + 1, low, high);
        lemma_average_between(sum + radius, radius, low, high);
    }
}

proof fn lemma_passes_between(
    rgb: Seq<u8>,
    width: int,
    radius: int,
    passes: nat,
    c: int,
    low: int,
    high: int,
)
    requires
        width >= 0,
        0 <= c < 3,
        0 <= radius,
        averages_true(radius, high),
        0 <= low <= high <= 255,
        width >= 1 ==> rgb.len() as int % (3 * width) == 0,
        between(rgb, c, low, high),
    ensures
        between(passes_blurred(rgb, width, radius, passes), c, low, high),
        passes_blurred(rgb, width, radius, passes).len() == rgb.len(),
    decreases passes,
{
    if passes > 0 && width > 1 {
        lemma_passes_between(rgb, width, radius, (passes - 1) as nat, c, low, high);
        lemma_pass_between(
            passes_blurred(rgb, width, radius, (passes - 1) as nat),
            width,
            radius,
            c,
            low,
            high,
        );
    }
}

proof fn lemma_transposed_between(
    rgb: Seq<u8>,
    width: int,
    height: int,
    c: int,
    low: int,
    high: int,
)
    requires
        width >= 0,
        height >= 0,
        rgb.len() == width * height * 3,
        0 <= c < 3,
        between(rgb, c, low, high),
    ensures
        between(transposed(rgb, width, height), c, low, high),
{
    let after = transposed(rgb, width, height);
    assert forall|i: int| 0 <= i < after.len() && i % 3 == c implies low <= #[trigger] after[i]
        <= high by {
        assert(width >= 1 && height >= 1 && width * height * 3 == height * width * 3)
            by (nonlinear_arith)
            requires
                0 <= i < width * height * 3,
                width >= 0,
                height >= 0,
        ;
        lemma_index_pixel(height, width, i);
        lemma_pixel_index(width, height, i / 3 / height, i / 3 % height, c);
    }
}

proof fn lemma_whole_rows(width: int, height: int)
    requires
        width >= 1,
        height >= 0,
    ensures
        (width * height * 3) % (3 * width) == 0,
{
    assert(width * height * 3 == height * (3 * width)) by (nonlinear_arith);
    vstd::arithmetic::div_mod::lemma_mod_multiples_basic(height, 3 * width);
}

/// Blurring makes no channel of any pixel darker than the darkest or brighter
/// than the brightest the image had, for every radius at which the brightest
/// is averaged to itself. [`small_windows_average_true`] says which those are.
pub proof fn blurring_stays_between(
    rgb: Seq<u8>,
    width: int,
    height: int,
    radius: int,
    c: int,
    low: int,
    high: int,
)
    requires
        width >= 0,
        height >= 0,
        rgb.len() == width * height * 3,
        0 <= c < 3,
        0 <= radius,
        averages_true(radius, high),
        0 <= low <= high <= 255,
        between(rgb, c, low, high),
    ensures
        between(box_blurred(rgb, width, height, radius), c, low, high),
{
    let one = passes_blurred(rgb, width, radius, PASSES as nat);
    let two = transposed(one, width, height);
    let three = passes_blurred(two, height, radius, PASSES as nat);
    assert(width * height * 3 == height * width * 3) by (nonlinear_arith);
    if width >= 1 {
        lemma_whole_rows(width, height);
    }
    lemma_passes_between(rgb, width, radius, PASSES as nat, c, low, high);
    lemma_transposed_between(one, width, height, c, low, high);
    if height >= 1 {
        lemma_whole_rows(height, width);
    }
    lemma_passes_between(two, height, radius, PASSES as nat, c, low, high);
    lemma_transposed_between(three, height, width, c, low, high);
}

/// Every pixel of the image has the same color.
pub open spec fn flat(rgb: Seq<u8>, color: (u8, u8, u8)) -> bool {
    forall|i: int|
        0 <= i < rgb.len() ==> #[trigger] rgb[i] == (if i % 3 == 0 {
            color.0
        } else if i % 3 == 1 {
            color.1
        } else {
            color.2
        })
}

/// Blurring a flat image changes nothing, for every radius at which its levels
/// are averaged to themselves.
pub proof fn blurring_a_flat_image_changes_nothing(
    rgb: Seq<u8>,
    width: int,
    height: int,
    radius: int,
    color: (u8, u8, u8),
)
    requires
        width >= 0,
        height >= 0,
        rgb.len() == width * height * 3,
        0 <= radius,
        averages_true(radius, color.0 as int),
        averages_true(radius, color.1 as int),
        averages_true(radius, color.2 as int),
        flat(rgb, color),
    ensures
        box_blurred(rgb, width, height, radius) == rgb,
{
    let after = box_blurred(rgb, width, height, radius);
    blurring_stays_between(rgb, width, height, radius, 0, color.0 as int, color.0 as int);
    blurring_stays_between(rgb, width, height, radius, 1, color.1 as int, color.1 as int);
    blurring_stays_between(rgb, width, height, radius, 2, color.2 as int, color.2 as int);
    lemma_passes_len(rgb, width, radius, PASSES as nat);
    lemma_passes_len(
        transposed(passes_blurred(rgb, width, radius, PASSES as nat), width, height),
        height,
        radius,
        PASSES as nat,
    );
    assert(after =~= rgb);
}

/// A pass gives exactly the rounded mean of the window, as long as the sum
/// stays below 2^32 divided by the size of the window.
pub proof fn pass_is_the_rounded_mean(row: Seq<u8>, radius: int, x: int, c: int)
    requires
        0 <= radius,
        (row_sum(row, c, x - radius, x + radius + 1) + radius) * (2 * radius) < 0x1_0000_0000,
    ensures
        box_byte(row, radius, x, c) as int == (row_sum(row, c, x - radius, x + radius + 1) + radius)
            / (2 * radius + 1),
{
    let d = 2 * radius + 1;
    let sum = row_sum(row, c, x - radius, x + radius + 1);
    lemma_row_sum_bounds(row, c, x - radius, x + radius + 1);
    quotient_is_exact(sum + radius, d);
    assert(0 <= (sum + radius) / d <= 255) by (nonlinear_arith)
        requires
            0 <= sum <= 255 * d,
            0 <= radius < d,
    ;
}

} // verus!
