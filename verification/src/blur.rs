//! Box blur: a separable, iterated moving-window average over an 8-bit image.

use vstd::prelude::*;
use crate::image::MonoImage;

verus! {

// ---------------------------------------------------------------------------
// Mathematical model
// ---------------------------------------------------------------------------

/// Index `j` moved into `0..len`: positions before the line read its first element,
/// positions after it read its last one.
pub open spec fn clamp_index(j: int, len: int) -> int {
    if j < 0 {
        0
    } else if j >= len {
        len - 1
    } else {
        j
    }
}

/// Sum of `line[clamp_index(j)]` for `j` in `lo..hi`.
pub open spec fn clamped_sum(line: Seq<int>, lo: int, hi: int) -> int
    decreases hi - lo,
{
    if hi <= lo {
        0
    } else {
        clamped_sum(line, lo, hi - 1) + line[clamp_index(hi - 1, line.len() as int)]
    }
}

/// Sum of the `2 * radius + 1` elements centered at `k`, the line being extended
/// beyond both ends by copies of its end elements.
pub open spec fn box_sum(line: Seq<int>, radius: int, k: int) -> int {
    clamped_sum(line, k - radius, k + radius + 1)
}

/// Row `y` of a `width`-wide image stored line after line.
pub open spec fn image_row(a: Seq<int>, width: int, y: int) -> Seq<int> {
    Seq::new(width as nat, |x: int| a[y * width + x])
}

/// Column `x` of a `width` x `height` image stored line after line.
pub open spec fn image_column(a: Seq<int>, width: int, height: int, x: int) -> Seq<int> {
    Seq::new(height as nat, |y: int| a[y * width + x])
}

/// Horizontal box sums of every pixel.
pub open spec fn horizontal_sums(a: Seq<int>, width: int, height: int, radius: int) -> Seq<int> {
    Seq::new(
        (width * height) as nat,
        |i: int| box_sum(image_row(a, width, i / width), radius, i % width),
    )
}

/// Vertical box sums of every pixel.
pub open spec fn vertical_sums(a: Seq<int>, width: int, height: int, radius: int) -> Seq<int> {
    Seq::new(
        (width * height) as nat,
        |i: int| box_sum(image_column(a, width, height, i % width), radius, i / width),
    )
}

/// Square of the box side: the number of pixels that each box sum adds up.
pub open spec fn box_area(radius: int) -> int {
    (2 * radius + 1) * (2 * radius + 1)
}

/// One blur iteration: horizontal then vertical box sums, divided (rounding down)
/// by the box area.
pub open spec fn blur_once(a: Seq<int>, width: int, height: int, radius: int) -> Seq<int> {
    vertical_sums(horizontal_sums(a, width, height, radius), width, height, radius).map_values(
        |v: int| v / box_area(radius),
    )
}

/// `n` blur iterations.
pub open spec fn blur_iterated(a: Seq<int>, width: int, height: int, radius: int, n: nat) -> Seq<int>
    decreases n,
{
    if n == 0 {
        a
    } else {
        blur_once(blur_iterated(a, width, height, radius, (n - 1) as nat), width, height, radius)
    }
}

/// The `width` x `height` area of an 8-bit buffer that starts at `base` and has
/// `stride` elements between lines, stored compactly line after line.
pub open spec fn area_pixels(src: Seq<u8>, base: int, stride: int, width: int, height: int) -> Seq<int> {
    Seq::new((width * height) as nat, |i: int| src[base + (i / width) * stride + i % width] as int)
}

// ---------------------------------------------------------------------------
// Lemmas on clamped sums
// ---------------------------------------------------------------------------

proof fn lemma_clamped_sum_prepend(line: Seq<int>, lo: int, hi: int)
    requires
        lo < hi,
    ensures
        clamped_sum(line, lo, hi) == line[clamp_index(lo, line.len() as int)] + clamped_sum(
            line,
            lo + 1,
            hi,
        ),
    decreases hi - lo,
{
    let n = line.len() as int;
    if lo + 1 < hi {
        lemma_clamped_sum_prepend(line, lo, hi - 1);
        assert(clamped_sum(line, lo + 1, hi) == clamped_sum(line, lo + 1, hi - 1) + line[clamp_index(
            hi - 1,
            n,
        )]);
    } else {
        assert(clamped_sum(line, lo + 1, hi) == 0);
        assert(clamped_sum(line, lo, lo) == 0);
        assert(clamped_sum(line, lo, hi) == clamped_sum(line, lo, lo) + line[clamp_index(lo, n)]);
    }
}

/// Moving the window one element to the right drops its first element and adds the next one.
proof fn lemma_box_sum_slide(line: Seq<int>, radius: int, k: int)
    requires
        radius >= 0,
    ensures
        box_sum(line, radius, k) == box_sum(line, radius, k - 1) - line[clamp_index(
            k - 1 - radius,
            line.len() as int,
        )] + line[clamp_index(k + radius, line.len() as int)],
{
    lemma_clamped_sum_prepend(line, k - 1 - radius, k + radius);
}

/// The part of the first window that lies before the line is `radius` copies of its first element.
proof fn lemma_clamped_sum_left_edge(line: Seq<int>, radius: int)
    requires
        radius >= 0,
        line.len() > 0,
    ensures
        clamped_sum(line, -radius, 1) == (radius + 1) * line[0],
    decreases radius,
{
    if radius > 0 {
        lemma_clamped_sum_prepend(line, -radius, 1);
        lemma_clamped_sum_left_edge(line, radius - 1);
        assert(clamp_index(-radius, line.len() as int) == 0);
        assert(-radius + 1 == -(radius - 1));
        assert((radius + 1) * line[0] == radius * line[0] + line[0]) by (nonlinear_arith);
    } else {
        assert(clamped_sum(line, 0, 0) == 0);
        assert(clamped_sum(line, 0, 1) == clamped_sum(line, 0, 0) + line[clamp_index(0, line.len() as int)]);
    }
}

proof fn lemma_clamped_sum_bounds(line: Seq<int>, lo: int, hi: int, max: int)
    requires
        lo <= hi,
        line.len() > 0,
        forall|k: int| 0 <= k < line.len() ==> 0 <= #[trigger] line[k] <= max,
    ensures
        0 <= clamped_sum(line, lo, hi) <= (hi - lo) * max,
    decreases hi - lo,
{
    if lo < hi {
        lemma_clamped_sum_bounds(line, lo, hi - 1, max);
        let c = clamp_index(hi - 1, line.len() as int);
        assert(0 <= line[c] <= max);
        assert(clamped_sum(line, lo, hi) == clamped_sum(line, lo, hi - 1) + line[c]);
        assert((hi - lo) * max == (hi - 1 - lo) * max + max) by (nonlinear_arith);
    } else {
        assert(clamped_sum(line, lo, hi) == 0);
        assert(hi - lo == 0);
        assert((hi - lo) * max == 0) by (nonlinear_arith)
            requires
                hi - lo == 0,
        ;
    }
}

/// Each box sum lies between 0 and `2 * radius + 1` times the largest element.
pub proof fn lemma_box_sum_bounds(line: Seq<int>, radius: int, k: int, max: int)
    requires
        radius >= 0,
        line.len() > 0,
        forall|j: int| 0 <= j < line.len() ==> 0 <= #[trigger] line[j] <= max,
    ensures
        0 <= box_sum(line, radius, k) <= (2 * radius + 1) * max,
{
    lemma_clamped_sum_bounds(line, k - radius, k + radius + 1, max);
}

proof fn lemma_mul_succ(k: int, step: int)
    ensures
        (k + 1) * step == k * step + step,
        (k - 1) * step == k * step - step,
{
    assert((k + 1) * step == k * step + step) by (nonlinear_arith);
    assert((k - 1) * step == k * step - step) by (nonlinear_arith);
}

proof fn lemma_mul_le(a: int, b: int, step: int)
    requires
        step > 0,
    ensures
        a <= b <==> a * step <= b * step,
        a < b <==> a * step < b * step,
{
    if a <= b {
        assert(a * step <= b * step) by (nonlinear_arith)
            requires
                a <= b,
                step > 0,
        ;
    } else {
        assert(a * step > b * step) by (nonlinear_arith)
            requires
                a > b,
                step > 0,
        ;
    }
    if a < b {
        assert(a * step < b * step) by (nonlinear_arith)
            requires
                a < b,
                step > 0,
        ;
    } else {
        assert(a * step >= b * step) by (nonlinear_arith)
            requires
                a >= b,
                step > 0,
        ;
    }
}

proof fn lemma_mul_sub(a: int, b: int, step: int)
    ensures
        a * step - b * step == (a - b) * step,
        a * step + b * step == (a + b) * step,
{
    assert(a * step - b * step == (a - b) * step) by (nonlinear_arith);
    assert(a * step + b * step == (a + b) * step) by (nonlinear_arith);
}

// ---------------------------------------------------------------------------
// One blurring pass along a line
// ---------------------------------------------------------------------------

/// A value that the blur can sum: an 8-bit pixel or a 32-bit partial sum.
trait BlurSample: Copy {
    spec fn sample_value(&self) -> int;

    fn to_sum(&self) -> (r: u32)
        ensures
            r as int == self.sample_value(),
    ;
}

impl BlurSample for u8 {
    spec fn sample_value(&self) -> int {
        *self as int
    }

    fn to_sum(&self) -> (r: u32) {
        *self as u32
    }
}

impl BlurSample for u32 {
    spec fn sample_value(&self) -> int {
        *self as int
    }

    fn to_sum(&self) -> (r: u32) {
        *self
    }
}

/// The `len` elements of `s` that start at `base` and lie `step` apart.
spec fn strided_line<T: BlurSample>(s: Seq<T>, base: int, step: int, len: int) -> Seq<int> {
    Seq::new(len as nat, |k: int| s[base + k * step].sample_value())
}

/// Writes into `pix_sum[dst_base + k * step]`, for each `k < length`, the box sum of radius
/// `box_radius` around element `k` of the line of `src` that starts at `src_base` with elements
/// `step` apart. Nothing else in `pix_sum` changes.
fn box_blur_pass<T: BlurSample>(
    src: &[T],
    src_base: usize,
    pix_sum: &mut Vec<u32>,
    dst_base: usize,
    box_radius: u32,
    length: usize,
    step: usize,
)
    requires
        length >= 1,
        step >= 1,
        box_radius < u32::MAX,
        (length + 2 * box_radius + 1) * step <= usize::MAX,
        src_base + (length - 1) * step < src@.len(),
        dst_base + (length - 1) * step < old(pix_sum)@.len(),
        forall|k: int|
            0 <= k < length ==> 0 <= #[trigger] strided_line(src@, src_base as int, step as int, length as int)[k]
                <= (u32::MAX as int) / (2 * box_radius + 1),
    ensures
        final(pix_sum)@.len() == old(pix_sum)@.len(),
        forall|k: int|
            0 <= k < length ==> #[trigger] final(pix_sum)@[dst_base + k * step] == box_sum(
                strided_line(src@, src_base as int, step as int, length as int),
                box_radius as int,
                k,
            ),
        forall|j: int|
            0 <= j < old(pix_sum)@.len() && (forall|k: int|
                0 <= k < length ==> j != dst_base + #[trigger] (k * step)) ==> final(pix_sum)@[j] == old(
                pix_sum,
            )@[j],
{
    let ghost line = strided_line(src@, src_base as int, step as int, length as int);
    let ghost len = length as int;
    let ghost r = box_radius as int;
    let ghost st = step as int;
    let ghost max: int = (u32::MAX as int) / (2 * r + 1);
    let ghost pix0 = pix_sum@;
    let src_len = src.len();
    let dst_len = pix_sum.len();
    proof {
        assert((2 * r + 1) * max <= u32::MAX) by (nonlinear_arith)
            requires
                max == (u32::MAX as int) / (2 * r + 1),
                r >= 0,
        ;
        assert forall|j: int| 0 <= j < len implies 0 <= #[trigger] line[j] <= max by {}
        lemma_mul_le(len - 1, len + 2 * r + 1, st);
        lemma_mul_le(r, len + 2 * r + 1, st);
    }
    // sum for the first element (the part of the window before the line repeats the first element)
    let first = src[src_base].to_sum();
    proof {
        assert(line[0] == first);
        lemma_clamped_sum_left_edge(line, r);
        assert((r + 1) * max <= (2 * r + 1) * max) by (nonlinear_arith)
            requires
                r >= 0,
                max >= 0,
        ;
        assert((r + 1) * first <= (r + 1) * max) by (nonlinear_arith)
            requires
                r >= 0,
                first <= max,
        ;
    }
    let mut acc: u32 = (box_radius + 1) * first;
    let last_ofs = (length - 1) * step;
    let radius_ofs = box_radius as usize * step;
    let mut i = step;
    let ghost mut k: int = 1;
    while i <= radius_ofs
        invariant
            1 <= k <= r + 1,
            i == k * st,
            st == step,
            r == box_radius,
            len == length,
            st >= 1,
            r < u32::MAX,
            len >= 1,
            last_ofs == (len - 1) * st,
            radius_ofs == r * st,
            (len + 2 * r + 1) * st <= usize::MAX,
            src_base + last_ofs < src@.len(),
            src@.len() == src_len,
            line == strided_line(src@, src_base as int, st, len),
            line.len() == len,
            forall|j: int| 0 <= j < len ==> 0 <= #[trigger] line[j] <= max,
            (2 * r + 1) * max <= u32::MAX,
            acc == clamped_sum(line, -r, k),
        decreases radius_ofs + st - i,
    {
        proof {
            lemma_mul_le(k, r, st);
            lemma_mul_le(k, len - 1, st);
            lemma_mul_succ(k, st);
            lemma_mul_le(k + 1, len + 2 * r + 1, st);
            lemma_clamped_sum_bounds(line, -r, k + 1, max);
            assert((k + 1 + r) * max <= (2 * r + 1) * max) by (nonlinear_arith)
                requires
                    k <= r,
                    max >= 0,
            ;
        }
        let idx = if i < last_ofs { i } else { last_ofs };
        proof {
            let c = clamp_index(k, len);
            if k < len - 1 {
                assert(idx == k * st);
                assert(c == k);
            } else {
                assert(idx == (len - 1) * st);
                assert(c == len - 1);
            }
            assert(line[c] == src@[src_base + c * st].sample_value());
        }
        acc = acc + src[src_base + idx].to_sum();
        i = i + step;
        proof {
            k = k + 1;
        }
    }
    proof {
        lemma_mul_le(k, r, st);
        assert(k == r + 1);
    }
    pix_sum.set(dst_base, acc);
    proof {
        assert(dst_base + 0 * st == dst_base);
    }
    // starting region: the element leaving the window lies before the line
    let mut i = step;
    let ghost mut k: int = 1;
    let start_end = if last_ofs < radius_ofs { last_ofs } else { radius_ofs };
    while i <= start_end
        invariant
            1 <= k,
            k <= len,
            k <= r + 1,
            i == k * st,
            st == step,
            r == box_radius,
            len == length,
            st >= 1,
            r < u32::MAX,
            len >= 1,
            last_ofs == (len - 1) * st,
            radius_ofs == r * st,
            start_end == if last_ofs < radius_ofs { last_ofs } else { radius_ofs },
            (len + 2 * r + 1) * st <= usize::MAX,
            src_base + last_ofs < src@.len(),
            dst_base + last_ofs < pix_sum@.len(),
            pix_sum@.len() == pix0.len(),
            pix_sum@.len() == dst_len,
            line == strided_line(src@, src_base as int, st, len),
            line.len() == len,
            forall|j: int| 0 <= j < len ==> 0 <= #[trigger] line[j] <= max,
            (2 * r + 1) * max <= u32::MAX,
            forall|j: int| 0 <= j < k ==> #[trigger] pix_sum@[dst_base + j * st] == box_sum(line, r, j),
            forall|j: int|
                0 <= j < pix0.len() && (forall|kk: int| 0 <= kk < len ==> j != dst_base + #[trigger] (kk * st))
                    ==> pix_sum@[j] == pix0[j],
        decreases start_end + st - i,
    {
        proof {
            lemma_mul_le(k, r, st);
            lemma_mul_le(k, len - 1, st);
            lemma_mul_succ(k, st);
            lemma_mul_sub(k, r, st);
            lemma_mul_le(k + r, len + 2 * r + 1, st);
            lemma_mul_le(k + r, len - 1, st);
            lemma_box_sum_slide(line, r, k);
            lemma_box_sum_bounds(line, r, k, max);
            lemma_box_sum_bounds(line, r, k - 1, max);
            lemma_clamped_sum_prepend(line, k - 1 - r, k + r);
            lemma_clamped_sum_bounds(line, k - r, k + r, max);
        }
        let prev = pix_sum[dst_base + i - step];
        proof {
            assert(dst_base + i - step == dst_base + (k - 1) * st);
            assert(prev == box_sum(line, r, k - 1));
        }
        let far = i + radius_ofs;
        let idx = if last_ofs < far { last_ofs } else { far };
        proof {
            let c = clamp_index(k + r, len);
            if last_ofs < far {
                assert(c == len - 1);
            } else {
                assert(idx == (k + r) * st);
                assert(c == k + r);
            }
            assert(line[c] == src@[src_base + c * st].sample_value());
            assert(clamp_index(k - 1 - r, len) == 0);
            assert(line[0] == src@[src_base + 0 * st].sample_value());
            assert(src_base + 0 * st == src_base);
        }
        let v = prev - src[src_base].to_sum() + src[src_base + idx].to_sum();
        pix_sum.set(dst_base + i, v);
        proof {
            assert forall|j: int| 0 <= j < k + 1 implies #[trigger] pix_sum@[dst_base + j * st] == box_sum(
                line,
                r,
                j,
            ) by {
                if j < k {
                    lemma_mul_le(j, k, st);
                }
            }
            assert forall|j: int|
                0 <= j < pix0.len() && (forall|kk: int| 0 <= kk < len ==> j != dst_base + #[trigger] (kk * st))
                    implies pix_sum@[j] == pix0[j] by {
                assert(j != dst_base + k * st);
            }
        }
        i = i + step;
        proof {
            k = k + 1;
        }
    }
    proof {
        lemma_mul_le(len - 1, r, st);
        lemma_mul_le(k, len - 1, st);
        lemma_mul_le(k, r, st);
        if len - 1 < r {
            assert(k == len);
        } else {
            assert(k == r + 1);
        }
    }
    if length > box_radius as usize {
        // middle region: the whole window lies inside the line
        let rp1_ofs = (box_radius as usize + 1) * step;
        proof {
            lemma_mul_le(r + 1, len + 2 * r + 1, st);
            lemma_mul_le(len - r, len + 2 * r + 1, st);
        }
        let mid_end = (length - box_radius as usize) * step;
        let mut i = rp1_ofs;
        let ghost mut k: int = r + 1;
        while i < mid_end
            invariant
                r + 1 <= k,
                k <= len - r || k == r + 1,
                i == k * st,
                rp1_ofs == (r + 1) * st,
                mid_end == (len - r) * st,
            st == step,
            r == box_radius,
            len == length,
            st >= 1,
            r < u32::MAX,
            len > r,
            last_ofs == (len - 1) * st,
            radius_ofs == r * st,
            (len + 2 * r + 1) * st <= usize::MAX,
            src_base + last_ofs < src@.len(),
            src@.len() == src_len,
            dst_base + last_ofs < pix_sum@.len(),
            pix_sum@.len() == pix0.len(),
            pix_sum@.len() == dst_len,
            line == strided_line(src@, src_base as int, st, len),
            line.len() == len,
            forall|j: int| 0 <= j < len ==> 0 <= #[trigger] line[j] <= max,
            (2 * r + 1) * max <= u32::MAX,
            forall|j: int|
                0 <= j < pix0.len() && (forall|kk: int| 0 <= kk < len ==> j != dst_base + #[trigger] (kk * st))
                    ==> pix_sum@[j] == pix0[j],
                forall|j: int| 0 <= j < k ==> #[trigger] pix_sum@[dst_base + j * st] == box_sum(line, r, j),
            decreases mid_end - i,
        {
            proof {
                lemma_mul_le(k, len - r, st);
                lemma_mul_le(k + 1, len - r, st);
                lemma_mul_succ(k, st);
                lemma_mul_sub(k, r + 1, st);
                lemma_mul_sub(k, r, st);
                lemma_mul_le(k + r, len - 1, st);
                lemma_mul_le(k - r - 1, len - 1, st);
                lemma_mul_le(0, k - r - 1, st);
                lemma_mul_le(k, len - 1, st);
                lemma_mul_le(k + 1, len + 2 * r + 1, st);
                lemma_box_sum_slide(line, r, k);
                lemma_box_sum_bounds(line, r, k, max);
                lemma_clamped_sum_prepend(line, k - 1 - r, k + r);
                lemma_clamped_sum_bounds(line, k - r, k + r, max);
            }
            let prev = pix_sum[dst_base + i - step];
            proof {
                assert(dst_base + i - step == dst_base + (k - 1) * st);
                assert(prev == box_sum(line, r, k - 1));
                assert(clamp_index(k - 1 - r, len) == k - 1 - r);
                assert(clamp_index(k + r, len) == k + r);
                assert(line[k - 1 - r] == src@[src_base + (k - 1 - r) * st].sample_value());
                assert(line[k + r] == src@[src_base + (k + r) * st].sample_value());
            }
            let v = prev - src[src_base + i - rp1_ofs].to_sum() + src[src_base + i + radius_ofs].to_sum();
            pix_sum.set(dst_base + i, v);
            proof {
                assert forall|j: int| 0 <= j < k + 1 implies #[trigger] pix_sum@[dst_base + j * st]
                    == box_sum(line, r, j) by {
                    if j < k {
                        lemma_mul_le(j, k, st);
                    }
                }
                assert forall|j: int|
                    0 <= j < pix0.len() && (forall|kk: int|
                        0 <= kk < len ==> j != dst_base + #[trigger] (kk * st)) implies pix_sum@[j]
                    == pix0[j] by {
                    assert(j != dst_base + k * st);
                }
            }
            i = i + step;
            proof {
                k = k + 1;
            }
        }
        let ghost mark = k;
        proof {
            lemma_mul_le(k, len - r, st);
            assert(mark >= len - r);
        }
        // end region: the window reaches beyond the line's end
        proof {
            lemma_mul_le(len, len + 2 * r + 1, st);
        }
        let full_end = length * step;
        let mut i = mid_end;
        let ghost mut k: int = len - r;
        while i < full_end
            invariant
                len - r <= k <= len,
                mark >= len - r,
                mark <= len,
                i == k * st,
                rp1_ofs == (r + 1) * st,
                full_end == len * st,
            st == step,
            r == box_radius,
            len == length,
            st >= 1,
            r < u32::MAX,
            len > r,
            last_ofs == (len - 1) * st,
            radius_ofs == r * st,
            (len + 2 * r + 1) * st <= usize::MAX,
            src_base + last_ofs < src@.len(),
            src@.len() == src_len,
            dst_base + last_ofs < pix_sum@.len(),
            pix_sum@.len() == pix0.len(),
            pix_sum@.len() == dst_len,
            line == strided_line(src@, src_base as int, st, len),
            line.len() == len,
            forall|j: int| 0 <= j < len ==> 0 <= #[trigger] line[j] <= max,
            (2 * r + 1) * max <= u32::MAX,
            forall|j: int|
                0 <= j < pix0.len() && (forall|kk: int| 0 <= kk < len ==> j != dst_base + #[trigger] (kk * st))
                    ==> pix_sum@[j] == pix0[j],
                forall|j: int|
                    0 <= j < (if k < mark { mark } else { k }) ==> #[trigger] pix_sum@[dst_base + j * st]
                        == box_sum(line, r, j),
            decreases full_end - i,
        {
            proof {
                lemma_mul_le(k, len, st);
                lemma_mul_le(k + 1, len, st);
                lemma_mul_le(k, len - 1, st);
                lemma_mul_succ(k, st);
                lemma_mul_sub(k, r + 1, st);
                lemma_mul_sub(k, r, st);
                lemma_mul_le(k + r, len - 1, st);
                lemma_mul_le(k, r + 1, st);
                lemma_mul_le(k + r, len + 2 * r + 1, st);
                lemma_mul_le(k + 1, len + 2 * r + 1, st);
                lemma_box_sum_slide(line, r, k);
                lemma_box_sum_bounds(line, r, k, max);
                lemma_clamped_sum_prepend(line, k - 1 - r, k + r);
                lemma_clamped_sum_bounds(line, k - r, k + r, max);
            }
            let prev = pix_sum[dst_base + i - step];
            proof {
                assert(dst_base + i - step == dst_base + (k - 1) * st);
                assert(prev == box_sum(line, r, k - 1));
            }
            let near = if i > rp1_ofs { i - rp1_ofs } else { 0 };
            let far = i + radius_ofs;
            let idx = if far < last_ofs { far } else { last_ofs };
            proof {
                let c0 = clamp_index(k - 1 - r, len);
                if k > r + 1 {
                    assert(c0 == k - 1 - r);
                    assert(near == (k - 1 - r) * st);
                } else {
                    assert(c0 == 0);
                    assert(near == 0 * st);
                }
                assert(line[c0] == src@[src_base + c0 * st].sample_value());
                let c1 = clamp_index(k + r, len);
                if far < last_ofs {
                    assert(c1 == k + r);
                } else {
                    assert(c1 == len - 1);
                }
                assert(idx == c1 * st);
                assert(line[c1] == src@[src_base + c1 * st].sample_value());
            }
            let v = prev - src[src_base + near].to_sum() + src[src_base + idx].to_sum();
            let ghost old_pix = pix_sum@;
            pix_sum.set(dst_base + i, v);
            proof {
                assert(v == box_sum(line, r, k));
                assert forall|j: int|
                    0 <= j < (if k + 1 < mark { mark } else { k + 1 }) implies #[trigger] pix_sum@[dst_base + j
                    * st] == box_sum(line, r, j) by {
                    if j != k {
                        if j < k {
                            lemma_mul_le(j, k, st);
                        } else {
                            lemma_mul_le(k, j, st);
                        }
                        lemma_mul_le(j, len - 1, st);
                        assert(old_pix[dst_base + j * st] == box_sum(line, r, j));
                    }
                }
                assert forall|j: int|
                    0 <= j < pix0.len() && (forall|kk: int|
                        0 <= kk < len ==> j != dst_base + #[trigger] (kk * st)) implies pix_sum@[j]
                    == pix0[j] by {
                    assert(j != dst_base + k * st);
                }
            }
            i = i + step;
            proof {
                k = k + 1;
            }
        }
        proof {
            lemma_mul_le(k, len, st);
        }
    }
}


// ---------------------------------------------------------------------------
// Index arithmetic
// ---------------------------------------------------------------------------

proof fn lemma_index_join(y: int, x: int, width: int)
    requires
        width > 0,
        0 <= x < width,
    ensures
        (y * width + x) / width == y,
        (y * width + x) % width == x,
{
    vstd::arithmetic::div_mod::lemma_fundamental_div_mod_converse(y * width + x, width, y, x);
}

proof fn lemma_index_split(i: int, width: int, height: int)
    requires
        width > 0,
        0 <= i < width * height,
    ensures
        0 <= i / width < height,
        0 <= i % width < width,
        i == (i / width) * width + i % width,
        i == width * (i / width) + i % width,
{
    vstd::arithmetic::div_mod::lemma_fundamental_div_mod(i, width);
    vstd::arithmetic::div_mod::lemma_mod_pos_bound(i, width);
    vstd::arithmetic::div_mod::lemma_div_pos_is_pos(i, width);
    assert(width * (i / width) == (i / width) * width) by (nonlinear_arith);
    if i / width >= height {
        lemma_mul_le(height, i / width, width);
        assert(height * width == width * height) by (nonlinear_arith);
    }
}

/// Pixel `(x, y)` lies inside a `width` x `height` image stored line after line.
proof fn lemma_index_in_image(y: int, x: int, width: int, height: int)
    requires
        0 <= y < height,
        0 <= x < width,
    ensures
        0 <= y * width + x < width * height,
        y * width + width <= width * height,
{
    lemma_mul_le(y + 1, height, width);
    lemma_mul_succ(y, width);
    lemma_mul_le(0, y, width);
    assert(height * width == width * height) by (nonlinear_arith);
}

proof fn lemma_le_div(a: int, b: int, c: int)
    requires
        b > 0,
        a >= 0,
        a * b <= c,
    ensures
        a <= c / b,
{
    vstd::arithmetic::div_mod::lemma_fundamental_div_mod(c, b);
    vstd::arithmetic::div_mod::lemma_mod_pos_bound(c, b);
    let q = c / b;
    if a > q {
        lemma_mul_le(q + 1, a, b);
        lemma_mul_succ(q, b);
        assert(b * q == q * b) by (nonlinear_arith);
    }
}

proof fn lemma_div_le(v: int, d: int, m: int)
    requires
        d > 0,
        0 <= v <= m * d,
        m >= 0,
    ensures
        0 <= v / d <= m,
{
    vstd::arithmetic::div_mod::lemma_div_pos_is_pos(v, d);
    vstd::arithmetic::div_mod::lemma_div_is_ordered(v, m * d, d);
    vstd::arithmetic::div_mod::lemma_div_by_multiple(m, d);
}

/// The sums that a blur iteration forms stay within 32 bits.
proof fn lemma_blur_sums_fit(r: int)
    requires
        0 < r < 2047,
    ensures
        255 * (2 * r + 1) <= (u32::MAX as int) / (2 * r + 1),
        255 <= (u32::MAX as int) / (2 * r + 1),
        255 * box_area(r) <= u32::MAX,
        (2 * r + 1) * (255 * (2 * r + 1)) == 255 * box_area(r),
        box_area(r) > 0,
{
    assert(255 * (2 * r + 1) * (2 * r + 1) <= u32::MAX) by (nonlinear_arith)
        requires
            0 < r < 2047,
    ;
    assert(255 * (2 * r + 1) * (2 * r + 1) == 255 * box_area(r)) by (nonlinear_arith);
    assert((2 * r + 1) * (255 * (2 * r + 1)) == 255 * box_area(r)) by (nonlinear_arith);
    assert(255 * (2 * r + 1) <= 255 * (2 * r + 1) * (2 * r + 1)) by (nonlinear_arith)
        requires
            0 < r,
    ;
    lemma_le_div(255 * (2 * r + 1), 2 * r + 1, u32::MAX as int);
    lemma_le_div(255, 2 * r + 1, u32::MAX as int);
    assert(box_area(r) > 0) by (nonlinear_arith)
        requires
            0 < r,
    ;
}

// ---------------------------------------------------------------------------
// Whole-image blur
// ---------------------------------------------------------------------------

/// The values of a buffer of sums, as integers.
spec fn sums_model(s: Seq<u32>) -> Seq<int> {
    s.map_values(|v: u32| v as int)
}

/// Fills `blurred[0 .. width * height]` with the box-blurred `width` x `height` area of `src`
/// that starts at `src_base` with `src_line_stride` elements between lines; `blurred` is stored
/// with `width` elements per line. Pixels beyond the border count as copies of the border pixel.
fn box_blur(
    src: &[u8],
    src_base: usize,
    blurred: &mut Vec<u8>,
    width: u32,
    height: u32,
    src_line_stride: usize,
    box_radius: u32,
    iterations: usize,
)
    requires
        iterations > 0,
        box_radius > 0,
        width > 0 && height > 0 ==> {
            &&& box_radius < 2047
            &&& width * height <= u32::MAX
            &&& src_base + (height - 1) * src_line_stride + width <= src@.len()
            &&& height * src_line_stride <= usize::MAX
            &&& width + 2 * box_radius + 1 <= usize::MAX
            &&& (height + 2 * box_radius + 1) * width <= usize::MAX
            &&& width * height <= old(blurred)@.len()
        },
    ensures
        final(blurred)@.len() == old(blurred)@.len(),
        width == 0 || height == 0 ==> final(blurred)@ == old(blurred)@,
        width > 0 && height > 0 ==> {
            &&& forall|i: int|
                0 <= i < width * height ==> #[trigger] final(blurred)@[i] as int == blur_iterated(
                    area_pixels(src@, src_base as int, src_line_stride as int, width as int, height as int),
                    width as int,
                    height as int,
                    box_radius as int,
                    iterations as nat,
                )[i]
            &&& forall|i: int|
                width * height <= i < old(blurred)@.len() ==> #[trigger] final(blurred)@[i]
                    == old(blurred)@[i]
        },
{
    if width == 0 || height == 0 {
        return;
    }
    let ghost w = width as int;
    let ghost h = height as int;
    let ghost r = box_radius as int;
    let ghost input = area_pixels(src@, src_base as int, src_line_stride as int, w, h);
    let ghost blurred0 = blurred@;
    proof {
        lemma_blur_sums_fit(r);
        assert(w * h == h * w) by (nonlinear_arith);
    }
    let src_len = src.len();
    let n = (width * height) as usize;
    let wu = width as usize;
    let hu = height as usize;
    let mut src_array: Vec<u32> = vec![0u32; n];
    let mut dest_array: Vec<u32> = vec![0u32; n];
    let divisor = (2 * box_radius + 1) * (2 * box_radius + 1);
    for it in 0..iterations
        invariant
            w == width,
            h == height,
            r == box_radius,
            w > 0,
            h > 0,
            0 < r < 2047,
            n == w * h,
            wu == w,
            hu == h,
            divisor == box_area(r),
            src_array@.len() == n,
            dest_array@.len() == n,
            src@.len() == src_len,
            src_base + (h - 1) * src_line_stride + w <= src@.len(),
            h * src_line_stride <= usize::MAX,
            w + 2 * r + 1 <= usize::MAX,
            (h + 2 * r + 1) * w <= usize::MAX,
            input == area_pixels(src@, src_base as int, src_line_stride as int, w, h),
            it > 0 ==> sums_model(dest_array@) == blur_iterated(input, w, h, r, it as nat),
            it > 0 ==> forall|i: int| 0 <= i < n ==> #[trigger] dest_array@[i] <= 255,
    {
        std::mem::swap(&mut src_array, &mut dest_array);
        let ghost prev = blur_iterated(input, w, h, r, it as nat);
        proof {
            lemma_blur_sums_fit(r);
            if it == 0 {
                assert(prev == input);
            }
        }
        // horizontal neighborhood sums
        if it == 0 {
            let mut s_offs: usize = 0;
            let mut d_offs: usize = 0;
            let mut y: usize = 0;
            while y < hu
                invariant
                    0 <= y <= h,
                    src@.len() == src_len,
                    w == width,
                    h == height,
                    r == box_radius,
                    w > 0,
                    h > 0,
                    0 < r < 2047,
                    n == w * h,
                    wu == w,
                    hu == h,
                    it == 0,
                    prev == input,
                    s_offs == y * src_line_stride,
                    d_offs == y * w,
                    dest_array@.len() == n,
                    src_base + (h - 1) * src_line_stride + w <= src@.len(),
                    h * src_line_stride <= usize::MAX,
                    w + 2 * r + 1 <= usize::MAX,
                    input == area_pixels(src@, src_base as int, src_line_stride as int, w, h),
                    forall|yy: int, x: int|
                        0 <= yy < y && 0 <= x < w ==> #[trigger] dest_array@[yy * w + x] == box_sum(
                            image_row(prev, w, yy),
                            r,
                            x,
                        ),
                decreases hu - y,
            {
                proof {
                    lemma_blur_sums_fit(r);
                    lemma_mul_le(y as int + 1, h, w);
                    lemma_mul_succ(y as int, w);
                    lemma_mul_succ(y as int, src_line_stride as int);
                    if src_line_stride > 0 {
                        lemma_mul_le(y as int, h - 1, src_line_stride as int);
                        lemma_mul_le(y as int + 1, h, src_line_stride as int);
                    } else {
                        assert(y * src_line_stride == 0);
                        assert((y + 1) * src_line_stride == 0);
                    }
                    assert(h * w == w * h) by (nonlinear_arith);
                    assert forall|k: int| 0 <= k < w implies #[trigger] strided_line(
                        src@,
                        (src_base + s_offs) as int,
                        1,
                        w,
                    )[k] == image_row(prev, w, y as int)[k] by {
                        lemma_index_join(y as int, k, w);
                        lemma_index_in_image(y as int, k, w, h);
                    }
                    assert(strided_line(src@, (src_base + s_offs) as int, 1, w) =~= image_row(
                        prev,
                        w,
                        y as int,
                    ));
                    assert forall|k: int| 0 <= k < w implies 0 <= #[trigger] strided_line(
                        src@,
                        (src_base + s_offs) as int,
                        1,
                        w,
                    )[k] <= (u32::MAX as int) / (2 * r + 1) by {}
                }
                let ghost before = dest_array@;
                box_blur_pass(src, src_base + s_offs, &mut dest_array, d_offs, box_radius, wu, 1);
                proof {
                    assert forall|yy: int, x: int|
                        0 <= yy < y + 1 && 0 <= x < w implies #[trigger] dest_array@[yy * w + x]
                        == box_sum(image_row(prev, w, yy), r, x) by {
                        if yy < y {
                            lemma_index_in_image(yy, x, w, h);
                            lemma_mul_le(yy + 1, y as int, w);
                            lemma_mul_succ(yy, w);
                            assert forall|k: int| 0 <= k < w implies yy * w + x != d_offs + #[trigger] (k
                                * 1) by {}
                        } else {
                            assert(dest_array@[d_offs + x * 1] == box_sum(
                                strided_line(src@, (src_base + s_offs) as int, 1, w),
                                r,
                                x,
                            ));
                        }
                    }
                }
                s_offs = s_offs + src_line_stride;
                d_offs = d_offs + wu;
                y = y + 1;
            }
        } else {
            let mut offs: usize = 0;
            let mut y: usize = 0;
            while y < hu
                invariant
                    0 <= y <= h,
                    w == width,
                    h == height,
                    r == box_radius,
                    w > 0,
                    h > 0,
                    0 < r < 2047,
                    n == w * h,
                    wu == w,
                    hu == h,
                    offs == y * w,
                    dest_array@.len() == n,
                    src_array@.len() == n,
                    w + 2 * r + 1 <= usize::MAX,
                    sums_model(src_array@) == prev,
                    forall|i: int| 0 <= i < n ==> #[trigger] src_array@[i] <= 255,
                    forall|yy: int, x: int|
                        0 <= yy < y && 0 <= x < w ==> #[trigger] dest_array@[yy * w + x] == box_sum(
                            image_row(prev, w, yy),
                            r,
                            x,
                        ),
                decreases hu - y,
            {
                proof {
                    lemma_blur_sums_fit(r);
                    lemma_mul_le(y as int + 1, h, w);
                    lemma_mul_succ(y as int, w);
                    assert(h * w == w * h) by (nonlinear_arith);
                    assert forall|k: int| 0 <= k < w implies #[trigger] strided_line(
                        src_array@,
                        offs as int,
                        1,
                        w,
                    )[k] == image_row(prev, w, y as int)[k] by {
                        lemma_index_in_image(y as int, k, w, h);
                    }
                    assert(strided_line(src_array@, offs as int, 1, w) =~= image_row(prev, w, y as int));
                    assert forall|k: int| 0 <= k < w implies 0 <= #[trigger] strided_line(
                        src_array@,
                        offs as int,
                        1,
                        w,
                    )[k] <= (u32::MAX as int) / (2 * r + 1) by {
                        lemma_index_in_image(y as int, k, w, h);
                    }
                }
                box_blur_pass(&src_array, offs, &mut dest_array, offs, box_radius, wu, 1);
                proof {
                    assert forall|yy: int, x: int|
                        0 <= yy < y + 1 && 0 <= x < w implies #[trigger] dest_array@[yy * w + x]
                        == box_sum(image_row(prev, w, yy), r, x) by {
                        if yy < y {
                            lemma_index_in_image(yy, x, w, h);
                            lemma_mul_le(yy + 1, y as int, w);
                            lemma_mul_succ(yy, w);
                            assert forall|k: int| 0 <= k < w implies yy * w + x != offs + #[trigger] (k * 1) by {}
                        } else {
                            assert(dest_array@[offs + x * 1] == box_sum(
                                strided_line(src_array@, offs as int, 1, w),
                                r,
                                x,
                            ));
                        }
                    }
                }
                offs = offs + wu;
                y = y + 1;
            }
        }
        let ghost hsum = horizontal_sums(prev, w, h, r);
        proof {
            assert forall|i: int| 0 <= i < n implies #[trigger] sums_model(dest_array@)[i] == hsum[i] by {
                lemma_index_split(i, w, h);
                let yy = i / w;
                let x = i % w;
                assert(dest_array@[yy * w + x] == box_sum(image_row(prev, w, yy), r, x));
            }
            assert(sums_model(dest_array@) =~= hsum);
            assert forall|i: int| 0 <= i < n implies #[trigger] hsum[i] <= 255 * (2 * r + 1) by {
                lemma_index_split(i, w, h);
                let yy = i / w;
                assert forall|x: int| 0 <= x < w implies 0 <= #[trigger] image_row(prev, w, yy)[x] <= 255 by {
                    lemma_index_in_image(yy, x, w, h);
                }
                lemma_box_sum_bounds(image_row(prev, w, yy), r, i % w, 255);
            }
        }
        std::mem::swap(&mut src_array, &mut dest_array);
        // vertical neighborhood sums
        for offs in 0..wu
            invariant
                w == width,
                h == height,
                r == box_radius,
                w > 0,
                h > 0,
                0 < r < 2047,
                n == w * h,
                wu == w,
                hu == h,
                dest_array@.len() == n,
                src_array@.len() == n,
                (h + 2 * r + 1) * w <= usize::MAX,
                sums_model(src_array@) == hsum,
                forall|i: int| 0 <= i < n ==> 0 <= #[trigger] hsum[i] <= 255 * (2 * r + 1),
                forall|yy: int, x: int|
                    0 <= yy < h && 0 <= x < offs ==> #[trigger] dest_array@[yy * w + x] == box_sum(
                        image_column(hsum, w, h, x),
                        r,
                        yy,
                    ),
        {
            proof {
                lemma_blur_sums_fit(r);
                lemma_index_in_image(h - 1, offs as int, w, h);
                assert forall|k: int| 0 <= k < h implies #[trigger] strided_line(
                    src_array@,
                    offs as int,
                    w,
                    h,
                )[k] == image_column(hsum, w, h, offs as int)[k] by {
                    lemma_index_in_image(k, offs as int, w, h);
                }
                assert(strided_line(src_array@, offs as int, w, h) =~= image_column(
                    hsum,
                    w,
                    h,
                    offs as int,
                ));
                assert forall|k: int| 0 <= k < h implies 0 <= #[trigger] strided_line(
                    src_array@,
                    offs as int,
                    w,
                    h,
                )[k] <= (u32::MAX as int) / (2 * r + 1) by {
                    lemma_index_in_image(k, offs as int, w, h);
                }
            }
            box_blur_pass(&src_array, offs, &mut dest_array, offs, box_radius, hu, wu);
            proof {
                assert forall|yy: int, x: int|
                    0 <= yy < h && 0 <= x < offs + 1 implies #[trigger] dest_array@[yy * w + x]
                    == box_sum(image_column(hsum, w, h, x), r, yy) by {
                    lemma_index_in_image(yy, x, w, h);
                    if x < offs {
                        assert forall|k: int| 0 <= k < h implies yy * w + x != offs + #[trigger] (k * w) by {
                            lemma_mul_sub(yy, k, w);
                            if yy - k >= 1 {
                                lemma_mul_le(1, yy - k, w);
                            } else {
                                lemma_mul_le(yy - k, 0, w);
                            }
                        }
                    } else {
                        assert(yy * w == w * yy) by (nonlinear_arith);
                        assert(dest_array@[offs + yy * w] == box_sum(
                            strided_line(src_array@, offs as int, w, h),
                            r,
                            yy,
                        ));
                    }
                }
            }
        }
        let ghost vsum = vertical_sums(hsum, w, h, r);
        proof {
            assert forall|i: int| 0 <= i < n implies #[trigger] sums_model(dest_array@)[i] == vsum[i] by {
                lemma_index_split(i, w, h);
                let yy = i / w;
                let x = i % w;
                assert(dest_array@[yy * w + x] == box_sum(image_column(hsum, w, h, x), r, yy));
            }
            assert(sums_model(dest_array@) =~= vsum);
            assert forall|i: int| 0 <= i < n implies 0 <= #[trigger] vsum[i] <= 255 * box_area(r) by {
                lemma_index_split(i, w, h);
                let x = i % w;
                assert forall|yy: int| 0 <= yy < h implies 0 <= #[trigger] image_column(hsum, w, h, x)[yy] <= 255
                    * (2 * r + 1) by {
                    lemma_index_in_image(yy, x, w, h);
                }
                lemma_box_sum_bounds(image_column(hsum, w, h, x), r, i / w, 255 * (2 * r + 1));
            }
        }
        // normalize
        for i in 0..n
            invariant
                n == w * h,
                r == box_radius,
                0 < r < 2047,
                divisor == box_area(r),
                divisor > 0,
                dest_array@.len() == n,
                vsum.len() == n,
                forall|j: int| 0 <= j < n ==> 0 <= #[trigger] vsum[j] <= 255 * box_area(r),
                forall|j: int| 0 <= j < i ==> #[trigger] dest_array@[j] as int == vsum[j] / box_area(r),
                forall|j: int| i <= j < n ==> #[trigger] dest_array@[j] as int == vsum[j],
        {
            let v = dest_array[i] / divisor;
            dest_array.set(i, v);
        }
        proof {
            assert forall|i: int| 0 <= i < n implies #[trigger] sums_model(dest_array@)[i] == blur_once(
                prev,
                w,
                h,
                r,
            )[i] by {}
            assert(sums_model(dest_array@) =~= blur_once(prev, w, h, r));
            assert(blur_iterated(input, w, h, r, (it + 1) as nat) == blur_once(prev, w, h, r));
            assert forall|i: int| 0 <= i < n implies #[trigger] dest_array@[i] <= 255 by {
                lemma_blur_sums_fit(r);
                lemma_div_le(vsum[i], box_area(r), 255);
            }
        }
    }
    // the last sums are the result
    for i in 0..n
        invariant
            n == w * h,
            n <= blurred0.len(),
            blurred@.len() == blurred0.len(),
            dest_array@.len() == n,
            sums_model(dest_array@) == blur_iterated(input, w, h, r, iterations as nat),
            forall|j: int| 0 <= j < n ==> #[trigger] dest_array@[j] <= 255,
            forall|j: int| 0 <= j < i ==> #[trigger] blurred@[j] as int == blur_iterated(
                input,
                w,
                h,
                r,
                iterations as nat,
            )[j],
            forall|j: int| i <= j < blurred0.len() ==> #[trigger] blurred@[j] == blurred0[j],
    {
        let v = dest_array[i] as u8;
        proof {
            assert(sums_model(dest_array@)[i as int] == dest_array@[i as int] as int);
        }
        blurred.set(i, v);
    }
}


/// The `width` x `height` area of `img` at `(x, y)` after `iterations` box blurs of radius `radius`.
pub open spec fn blurred_area(
    img: MonoImage,
    x: int,
    y: int,
    width: int,
    height: int,
    radius: int,
    iterations: nat,
) -> Seq<int> {
    blur_iterated(
        area_pixels(img.pixels@, x + y * img.bytes_per_line, img.bytes_per_line as int, width, height),
        width,
        height,
        radius,
        iterations,
    )
}

/// What `apply_box_blur_into` needs to run: the area to blur starts inside `img` and its last
/// line ends within `img`'s buffer, and the sums and offsets fit the machine's integers.
pub open spec fn box_blur_fits(
    img: MonoImage,
    src_pos: [i32; 2],
    box_radius: u32,
    width: u32,
    height: u32,
) -> bool {
    let x = src_pos[0] as int;
    let y = src_pos[1] as int;
    let stride = img.bytes_per_line as int;
    &&& x >= 0
    &&& y >= 0
    &&& x + y * stride <= img.pixels@.len()
    &&& width > 0 && height > 0 ==> {
        &&& box_radius < 2047
        &&& width * height <= u32::MAX
        &&& x + y * stride + (height - 1) * stride + width <= img.pixels@.len()
        &&& height * stride <= usize::MAX
        &&& width + 2 * box_radius + 1 <= usize::MAX
        &&& (height + 2 * box_radius + 1) * width <= usize::MAX
    }
}

/// Writes into `dest` the blurred fragment of `img` that starts at `src_pos` and has `dest`'s
/// size; the result fills `dest`'s first `width * height` bytes, `width` bytes per line.
pub fn apply_box_blur_into(
    img: &MonoImage,
    src_pos: [i32; 2],
    box_radius: u32,
    iterations: usize,
    dest: &mut MonoImage,
)
    requires
        img.wf(),
        old(dest).wf(),
        img.width >= old(dest).width,
        img.height >= old(dest).height,
        iterations > 0,
        box_radius > 0,
        box_blur_fits(*img, src_pos, box_radius, old(dest).width, old(dest).height),
    ensures
        final(dest).wf(),
        final(dest).width == old(dest).width,
        final(dest).height == old(dest).height,
        final(dest).bytes_per_line == old(dest).bytes_per_line,
        final(dest).pixels@.len() == old(dest).pixels@.len(),
        forall|i: int|
            0 <= i < old(dest).width * old(dest).height ==> #[trigger] final(dest).pixels@[i] as int
                == blurred_area(
                *img,
                src_pos[0] as int,
                src_pos[1] as int,
                old(dest).width as int,
                old(dest).height as int,
                box_radius as int,
                iterations as nat,
            )[i],
        forall|i: int|
            old(dest).width * old(dest).height <= i < old(dest).pixels@.len()
                ==> #[trigger] final(dest).pixels@[i] == old(dest).pixels@[i],
{
    let src_x = src_pos[0];
    let src_y = src_pos[1];
    let w = dest.width;
    let h = dest.height;
    proof {
        if w > 0 && h > 0 {
            lemma_mul_le(w as int, dest.bytes_per_line as int, h as int);
            assert(w * h == h * w) by (nonlinear_arith);
            assert(dest.bytes_per_line * h == h * dest.bytes_per_line) by (nonlinear_arith);
        }
    }
    let _len = img.pixels.len();
    let base = src_x as usize + src_y as usize * img.bytes_per_line;
    box_blur(&img.pixels, base, &mut dest.pixels, w, h, img.bytes_per_line, box_radius, iterations);
    proof {
        if w == 0 || h == 0 {
            assert(w * h == 0) by (nonlinear_arith)
                requires
                    w == 0 || h == 0,
            ;
        }
    }
}

/// A copy of `img` blurred `iterations` times with a box of radius `box_radius`.
pub fn apply_box_blur(img: &MonoImage, box_radius: u32, iterations: usize) -> (r: MonoImage)
    requires
        img.wf(),
        iterations > 0,
        box_radius > 0,
        img.width * img.height <= usize::MAX,
        box_blur_fits(*img, [0, 0], box_radius, img.width, img.height),
    ensures
        r.wf(),
        r.width == img.width,
        r.height == img.height,
        r.bytes_per_line == img.width,
        forall|i: int|
            0 <= i < img.width * img.height ==> #[trigger] r.pixels@[i] as int == blurred_area(
                *img,
                0,
                0,
                img.width as int,
                img.height as int,
                box_radius as int,
                iterations as nat,
            )[i],
{
    let mut blurred_img = MonoImage::new(img.width, img.height);
    apply_box_blur_into(img, [0, 0], box_radius, iterations, &mut blurred_img);
    blurred_img
}


// ---------------------------------------------------------------------------
// Laws of the blur
// ---------------------------------------------------------------------------

proof fn lemma_clamped_sum_range(line: Seq<int>, lo: int, hi: int, mn: int, mx: int)
    requires
        lo <= hi,
        line.len() > 0,
        forall|k: int| 0 <= k < line.len() ==> mn <= #[trigger] line[k] <= mx,
    ensures
        (hi - lo) * mn <= clamped_sum(line, lo, hi) <= (hi - lo) * mx,
    decreases hi - lo,
{
    if lo < hi {
        lemma_clamped_sum_range(line, lo, hi - 1, mn, mx);
        let c = clamp_index(hi - 1, line.len() as int);
        assert(mn <= line[c] <= mx);
        assert((hi - lo) * mn == (hi - 1 - lo) * mn + mn) by (nonlinear_arith);
        assert((hi - lo) * mx == (hi - 1 - lo) * mx + mx) by (nonlinear_arith);
    } else {
        assert((hi - lo) * mn == 0 && (hi - lo) * mx == 0) by (nonlinear_arith)
            requires
                hi - lo == 0,
        ;
    }
}

/// One blur iteration keeps every value within the range `mn ..= mx` of the input's values.
pub proof fn lemma_blur_once_range(a: Seq<int>, w: int, h: int, r: int, mn: int, mx: int)
    requires
        w > 0,
        h > 0,
        r >= 0,
        0 <= mn <= mx,
        a.len() == w * h,
        forall|i: int| 0 <= i < w * h ==> mn <= #[trigger] a[i] <= mx,
    ensures
        blur_once(a, w, h, r).len() == w * h,
        forall|i: int| 0 <= i < w * h ==> mn <= #[trigger] blur_once(a, w, h, r)[i] <= mx,
{
    let d = 2 * r + 1;
    let hs = horizontal_sums(a, w, h, r);
    let vs = vertical_sums(hs, w, h, r);
    assert forall|i: int| 0 <= i < w * h implies d * mn <= #[trigger] hs[i] <= d * mx by {
        lemma_index_split(i, w, h);
        let y = i / w;
        let row = image_row(a, w, y);
        assert forall|k: int| 0 <= k < row.len() implies mn <= #[trigger] row[k] <= mx by {
            lemma_index_in_image(y, k, w, h);
        }
        lemma_clamped_sum_range(row, i % w - r, i % w + r + 1, mn, mx);
    }
    assert forall|i: int| 0 <= i < w * h implies d * (d * mn) <= #[trigger] vs[i] <= d * (d * mx) by {
        lemma_index_split(i, w, h);
        let x = i % w;
        let col = image_column(hs, w, h, x);
        assert forall|k: int| 0 <= k < col.len() implies d * mn <= #[trigger] col[k] <= d * mx by {
            lemma_index_in_image(k, x, w, h);
        }
        lemma_clamped_sum_range(col, i / w - r, i / w + r + 1, d * mn, d * mx);
    }
    assert forall|i: int| 0 <= i < w * h implies mn <= #[trigger] blur_once(a, w, h, r)[i] <= mx by {
        assert(d * (d * mn) == mn * box_area(r)) by (nonlinear_arith)
            requires
                d == 2 * r + 1,
        ;
        assert(d * (d * mx) == mx * box_area(r)) by (nonlinear_arith)
            requires
                d == 2 * r + 1,
        ;
        assert(box_area(r) > 0) by (nonlinear_arith)
            requires
                r >= 0,
        ;
        lemma_le_div(mn, box_area(r), vs[i]);
        lemma_div_le(vs[i], box_area(r), mx);
    }
}

/// Any number of blur iterations keeps every value within the range `mn ..= mx` of the
/// input's values.
pub proof fn lemma_blur_range(a: Seq<int>, w: int, h: int, r: int, n: nat, mn: int, mx: int)
    requires
        w > 0,
        h > 0,
        r >= 0,
        0 <= mn <= mx,
        a.len() == w * h,
        forall|i: int| 0 <= i < w * h ==> mn <= #[trigger] a[i] <= mx,
    ensures
        blur_iterated(a, w, h, r, n).len() == w * h,
        forall|i: int| 0 <= i < w * h ==> mn <= #[trigger] blur_iterated(a, w, h, r, n)[i] <= mx,
    decreases n,
{
    if n > 0 {
        lemma_blur_range(a, w, h, r, (n - 1) as nat, mn, mx);
        lemma_blur_once_range(blur_iterated(a, w, h, r, (n - 1) as nat), w, h, r, mn, mx);
    }
}

/// Blurring a uniform image leaves it unchanged.
pub proof fn lemma_blur_keeps_uniform(a: Seq<int>, w: int, h: int, r: int, n: nat, c: int)
    requires
        w > 0,
        h > 0,
        r >= 0,
        c >= 0,
        a.len() == w * h,
        forall|i: int| 0 <= i < w * h ==> #[trigger] a[i] == c,
    ensures
        forall|i: int| 0 <= i < w * h ==> #[trigger] blur_iterated(a, w, h, r, n)[i] == c,
{
    lemma_blur_range(a, w, h, r, n, c, c);
}


proof fn lemma_clamped_sum_monotone(small: Seq<int>, large: Seq<int>, lo: int, hi: int)
    requires
        small.len() == large.len(),
        small.len() > 0,
        forall|k: int| 0 <= k < small.len() ==> #[trigger] small[k] <= large[k],
    ensures
        clamped_sum(small, lo, hi) <= clamped_sum(large, lo, hi),
    decreases hi - lo,
{
    if lo < hi {
        lemma_clamped_sum_monotone(small, large, lo, hi - 1);
        let c = clamp_index(hi - 1, small.len() as int);
        assert(small[c] <= large[c]);
    }
}

/// One blur iteration keeps the pointwise order of two images: where one image is nowhere
/// brighter than another, its blur is nowhere brighter than the other's.
pub proof fn lemma_blur_once_monotone(a: Seq<int>, b: Seq<int>, w: int, h: int, r: int)
    requires
        w > 0,
        h > 0,
        r >= 0,
        a.len() == w * h,
        b.len() == w * h,
        forall|i: int| 0 <= i < w * h ==> #[trigger] a[i] <= b[i],
    ensures
        blur_once(a, w, h, r).len() == w * h,
        blur_once(b, w, h, r).len() == w * h,
        forall|i: int|
            0 <= i < w * h ==> #[trigger] blur_once(a, w, h, r)[i] <= blur_once(b, w, h, r)[i],
{
    let ha = horizontal_sums(a, w, h, r);
    let hb = horizontal_sums(b, w, h, r);
    let va = vertical_sums(ha, w, h, r);
    let vb = vertical_sums(hb, w, h, r);
    assert forall|i: int| 0 <= i < w * h implies #[trigger] ha[i] <= hb[i] by {
        lemma_index_split(i, w, h);
        let y = i / w;
        let ra = image_row(a, w, y);
        let rb = image_row(b, w, y);
        assert forall|k: int| 0 <= k < ra.len() implies #[trigger] ra[k] <= rb[k] by {
            lemma_index_in_image(y, k, w, h);
        }
        lemma_clamped_sum_monotone(ra, rb, i % w - r, i % w + r + 1);
    }
    assert forall|i: int| 0 <= i < w * h implies #[trigger] va[i] <= vb[i] by {
        lemma_index_split(i, w, h);
        let x = i % w;
        let ca = image_column(ha, w, h, x);
        let cb = image_column(hb, w, h, x);
        assert forall|k: int| 0 <= k < ca.len() implies #[trigger] ca[k] <= cb[k] by {
            lemma_index_in_image(k, x, w, h);
        }
        lemma_clamped_sum_monotone(ca, cb, i / w - r, i / w + r + 1);
    }
    assert forall|i: int|
        0 <= i < w * h implies #[trigger] blur_once(a, w, h, r)[i] <= blur_once(b, w, h, r)[i] by {
        assert(box_area(r) > 0) by (nonlinear_arith)
            requires
                r >= 0,
        ;
        vstd::arithmetic::div_mod::lemma_div_is_ordered(va[i], vb[i], box_area(r));
    }
}

/// Any number of blur iterations keeps the pointwise order of two images.
pub proof fn lemma_blur_monotone(a: Seq<int>, b: Seq<int>, w: int, h: int, r: int, n: nat)
    requires
        w > 0,
        h > 0,
        r >= 0,
        a.len() == w * h,
        b.len() == w * h,
        forall|i: int| 0 <= i < w * h ==> #[trigger] a[i] <= b[i],
    ensures
        blur_iterated(a, w, h, r, n).len() == w * h,
        blur_iterated(b, w, h, r, n).len() == w * h,
        forall|i: int|
            0 <= i < w * h ==> #[trigger] blur_iterated(a, w, h, r, n)[i] <= blur_iterated(
                b,
                w,
                h,
                r,
                n,
            )[i],
    decreases n,
{
    if n > 0 {
        let m = (n - 1) as nat;
        lemma_blur_monotone(a, b, w, h, r, m);
        lemma_blur_once_monotone(blur_iterated(a, w, h, r, m), blur_iterated(b, w, h, r, m), w, h, r);
    }
}

/// `m` blur iterations followed by `n` more are `m + n` iterations.
pub proof fn lemma_blur_iterated_add(a: Seq<int>, w: int, h: int, r: int, m: nat, n: nat)
    ensures
        blur_iterated(blur_iterated(a, w, h, r, m), w, h, r, n) == blur_iterated(a, w, h, r, m + n),
    decreases n,
{
    if n > 0 {
        lemma_blur_iterated_add(a, w, h, r, m, (n - 1) as nat);
        assert((m + n - 1) as nat == m + (n - 1) as nat);
    }
}

/// Blurring a compact result again continues the blur: when `once` holds, `width` bytes per
/// line, the `width` x `height` area of `img` at `(x, y)` blurred `m` times, then blurring
/// `once` `n` more times gives that area of `img` blurred `m + n` times.
pub proof fn lemma_blur_composes(
    img: MonoImage,
    once: MonoImage,
    x: int,
    y: int,
    width: int,
    height: int,
    radius: int,
    m: nat,
    n: nat,
)
    requires
        width > 0,
        height > 0,
        once.bytes_per_line == width,
        once.pixels@.len() >= width * height,
        forall|i: int|
            0 <= i < width * height ==> #[trigger] once.pixels@[i] as int == blurred_area(
                img,
                x,
                y,
                width,
                height,
                radius,
                m,
            )[i],
    ensures
        blurred_area(once, 0, 0, width, height, radius, n) == blurred_area(
            img,
            x,
            y,
            width,
            height,
            radius,
            m + n,
        ),
{
    let first = blurred_area(img, x, y, width, height, radius, m);
    let again = area_pixels(once.pixels@, 0, width, width, height);
    assert forall|i: int| 0 <= i < width * height implies #[trigger] again[i] == first[i] by {
        lemma_index_split(i, width, height);
    }
    let src = area_pixels(img.pixels@, x + y * img.bytes_per_line, img.bytes_per_line as int, width, height);
    if m > 0 {
        assert(first.len() == width * height);
    } else {
        assert(first == src);
    }
    assert(again =~= first);
    lemma_blur_iterated_add(src, width, height, radius, m, n);
}

/// Blurring two images whose `width` x `height` areas at `(x, y)` are pointwise ordered gives
/// pointwise ordered results: what `apply_box_blur_into` writes for the darker image is nowhere
/// brighter than what it writes for the brighter one.
pub proof fn lemma_blurred_area_monotone(
    darker: MonoImage,
    brighter: MonoImage,
    x: int,
    y: int,
    width: int,
    height: int,
    radius: int,
    iterations: nat,
)
    requires
        width > 0,
        height > 0,
        radius >= 0,
        forall|yy: int, xx: int|
            0 <= yy < height && 0 <= xx < width ==> #[trigger] darker.pixels@[x + y
                * darker.bytes_per_line + yy * darker.bytes_per_line + xx] <= brighter.pixels@[x + y
                * brighter.bytes_per_line + yy * brighter.bytes_per_line + xx],
    ensures
        forall|i: int|
            0 <= i < width * height ==> #[trigger] blurred_area(
                darker,
                x,
                y,
                width,
                height,
                radius,
                iterations,
            )[i] <= blurred_area(brighter, x, y, width, height, radius, iterations)[i],
{
    let a = area_pixels(darker.pixels@, x + y * darker.bytes_per_line, darker.bytes_per_line as int, width, height);
    let b = area_pixels(
        brighter.pixels@,
        x + y * brighter.bytes_per_line,
        brighter.bytes_per_line as int,
        width,
        height,
    );
    assert forall|i: int| 0 <= i < width * height implies #[trigger] a[i] <= b[i] by {
        lemma_index_split(i, width, height);
        let yy = i / width;
        let xx = i % width;
        assert(darker.pixels@[x + y * darker.bytes_per_line + yy * darker.bytes_per_line + xx]
            <= brighter.pixels@[x + y * brighter.bytes_per_line + yy * brighter.bytes_per_line + xx]);
    }
    lemma_blur_monotone(a, b, width, height, radius, iterations);
}

} // verus!
