//! Block matching: finding where a reference block best fits an image, by a coarse-to-fine
//! search that minimizes the sum of absolute pixel differences.

use vstd::prelude::*;
use vstd::arithmetic::power2::*;
use crate::blur::area_pixels;
use crate::image::{MonoImage, Rect};
use crate::powers::{IntPowerOf2, NonNegPowerOf2};

verus! {

// ---------------------------------------------------------------------------
// Sum of absolute differences
// ---------------------------------------------------------------------------

/// Absolute value.
pub open spec fn abs_int(v: int) -> int {
    if v < 0 {
        -v
    } else {
        v
    }
}

/// Sum of `|a[i] - b[i]|` over the first `n` elements.
pub open spec fn abs_diff_sum(a: Seq<int>, b: Seq<int>, n: int) -> int
    decreases n,
{
    if n <= 0 {
        0
    } else {
        abs_diff_sum(a, b, n - 1) + abs_int(a[n - 1] - b[n - 1])
    }
}

/// `block` placed at `(x, y)` lies within `image`.
pub open spec fn block_inside(image: MonoImage, block: MonoImage, x: int, y: int) -> bool {
    &&& 0 <= x
    &&& 0 <= y
    &&& x + block.width <= image.width
    &&& y + block.height <= image.height
}

/// Sum of absolute differences between `block` and the pixels of `image` under it when placed
/// at `(x, y)`.
pub open spec fn block_sad(image: MonoImage, block: MonoImage, x: int, y: int) -> int {
    let w = block.width as int;
    let h = block.height as int;
    abs_diff_sum(
        area_pixels(image.pixels@, x + y * image.bytes_per_line, image.bytes_per_line as int, w, h),
        area_pixels(block.pixels@, 0, block.bytes_per_line as int, w, h),
        w * h,
    )
}

/// Why block matching failed.
#[derive(Clone, Copy, Debug, PartialEq, Eq, Structural)]
pub enum BlockMatchError {
    /// The reference block (`block_width` x `block_height`) placed at `(x, y)` does not fit
    /// within the image (`image_width` x `image_height`).
    RefBlockOutside { block_width: u32, block_height: u32, x: i32, y: i32, image_width: u32, image_height: u32 },
}

/// The error reported when `block` placed at `(x, y)` leaves `image`.
pub open spec fn outside_error(image: MonoImage, block: MonoImage, x: int, y: int) -> BlockMatchError {
    BlockMatchError::RefBlockOutside {
        block_width: block.width,
        block_height: block.height,
        x: x as i32,
        y: y as i32,
        image_width: image.width,
        image_height: image.height,
    }
}

proof fn lemma_abs_diff_sum_bound(a: Seq<int>, b: Seq<int>, n: int)
    requires
        n >= 0,
        forall|i: int| 0 <= i < n ==> 0 <= #[trigger] a[i] <= 255 && 0 <= b[i] <= 255,
    ensures
        0 <= abs_diff_sum(a, b, n) <= 255 * n,
    decreases n,
{
    if n > 0 {
        lemma_abs_diff_sum_bound(a, b, n - 1);
        assert(0 <= a[n - 1] <= 255);
    }
}

proof fn lemma_mul_nonneg_le(a: int, b: int, c: int)
    requires
        0 <= a <= b,
        c >= 0,
    ensures
        a * c <= b * c,
        0 <= a * c,
{
    assert(a * c <= b * c) by (nonlinear_arith)
        requires
            0 <= a <= b,
            c >= 0,
    ;
    assert(0 <= a * c) by (nonlinear_arith)
        requires
            0 <= a,
            c >= 0,
    ;
}

proof fn lemma_row_index(y: int, x: int, w: int)
    requires
        w > 0,
        0 <= x < w,
        y >= 0,
    ensures
        (y * w + x) / w == y,
        (y * w + x) % w == x,
        (y + 1) * w == y * w + w,
{
    vstd::arithmetic::div_mod::lemma_fundamental_div_mod_converse(y * w + x, w, y, x);
    assert((y + 1) * w == y * w + w) by (nonlinear_arith);
}

/// Sum of absolute differences between `ref_block` and the pixels of `image` under it when
/// placed at `pos`; fails if the block does not fit within the image there.
pub fn calc_sum_abs_diff(image: &MonoImage, ref_block: &MonoImage, pos: (i32, i32)) -> (r: Result<
    u64,
    BlockMatchError,
>)
    requires
        image.wf(),
        ref_block.wf(),
        ref_block.width * ref_block.height * 255 <= u64::MAX,
        block_inside(*image, *ref_block, pos.0 as int, pos.1 as int) ==> image.width <= i32::MAX
            && image.height <= i32::MAX,
    ensures
        block_inside(*image, *ref_block, pos.0 as int, pos.1 as int) ==> r == Ok::<u64, BlockMatchError>(
            block_sad(*image, *ref_block, pos.0 as int, pos.1 as int) as u64,
        ),
        !block_inside(*image, *ref_block, pos.0 as int, pos.1 as int) ==> r == Err::<u64, BlockMatchError>(
            outside_error(*image, *ref_block, pos.0 as int, pos.1 as int),
        ),
{
    let mut sum = 0u64;
    if !image.img_rect().contains_rect(
        &Rect { x: pos.0, y: pos.1, width: ref_block.width, height: ref_block.height },
    ) {
        return Err(
            BlockMatchError::RefBlockOutside {
                block_width: ref_block.width,
                block_height: ref_block.height,
                x: pos.0,
                y: pos.1,
                image_width: image.width,
                image_height: image.height,
            },
        );
    }
    let bw = ref_block.width as usize;
    let bh = ref_block.height as usize;
    let img_stride = image.bytes_per_line;
    let blk_stride = ref_block.bytes_per_line;
    let img_len = image.pixels.len();
    let blk_len = ref_block.pixels.len();
    let ghost iw = image.width as int;
    let ghost ih = image.height as int;
    let ghost w = bw as int;
    let ghost h = bh as int;
    let ghost a = area_pixels(
        image.pixels@,
        pos.0 + pos.1 * image.bytes_per_line,
        image.bytes_per_line as int,
        w,
        h,
    );
    let ghost b = area_pixels(ref_block.pixels@, 0, ref_block.bytes_per_line as int, w, h);
    if bw == 0 || bh == 0 {
        proof {
            assert(w * h == 0) by (nonlinear_arith)
                requires
                    w == 0 || h == 0,
            ;
        }
        return Ok(sum);
    }
    proof {
        // the block's last line ends within both buffers
        lemma_mul_nonneg_le(pos.1 as int + h, ih, img_stride as int);
        lemma_mul_nonneg_le(h, h, blk_stride as int);
        assert((pos.1 + h) * img_stride == pos.1 * img_stride + h * img_stride) by (nonlinear_arith);
        assert(ih * img_stride == img_stride * ih) by (nonlinear_arith);
        assert(h * blk_stride == blk_stride * h) by (nonlinear_arith);
        lemma_mul_nonneg_le(0, pos.1 as int, img_stride as int);
        lemma_mul_nonneg_le(pos.1 as int + 1, pos.1 as int + h, img_stride as int);
        assert((pos.1 + 1) * img_stride == pos.1 * img_stride + img_stride) by (nonlinear_arith);
    }
    let start = pos.0 as usize + pos.1 as usize * img_stride;
    let mut img_ofs: usize = 0;
    let mut blk_ofs: usize = 0;
    let mut row: usize = 0;
    while row < bh
        invariant
            0 <= row <= h,
            w == bw,
            h == bh,
            w > 0,
            h > 0,
            img_stride == image.bytes_per_line,
            blk_stride == ref_block.bytes_per_line,
            img_stride >= iw,
            blk_stride >= w,
            image.pixels@.len() == img_len,
            ref_block.pixels@.len() == blk_len,
            img_len == img_stride * ih,
            blk_len == blk_stride * h,
            iw == image.width,
            ih == image.height,
            0 <= pos.0,
            0 <= pos.1,
            pos.0 + w <= iw,
            pos.1 + h <= ih,
            start == pos.0 + pos.1 * img_stride,
            img_ofs == row * img_stride,
            blk_ofs == row * blk_stride,
            a == area_pixels(image.pixels@, pos.0 + pos.1 * image.bytes_per_line, image.bytes_per_line as int, w, h),
            b == area_pixels(ref_block.pixels@, 0, ref_block.bytes_per_line as int, w, h),
            w * h * 255 <= u64::MAX,
            sum == abs_diff_sum(a, b, row * w),
        decreases bh - row,
    {
        proof {
            lemma_mul_nonneg_le(row as int + 1, h, img_stride as int);
            lemma_mul_nonneg_le(row as int + 1, h, blk_stride as int);
            lemma_mul_nonneg_le(pos.1 as int + row + 1, ih, img_stride as int);
            assert((row + 1) * img_stride == row * img_stride + img_stride) by (nonlinear_arith);
            assert((row + 1) * blk_stride == row * blk_stride + blk_stride) by (nonlinear_arith);
            assert((pos.1 + row + 1) * img_stride == pos.1 * img_stride + row * img_stride + img_stride)
                by (nonlinear_arith);
            assert(h * blk_stride == blk_stride * h) by (nonlinear_arith);
            assert(ih * img_stride == img_stride * ih) by (nonlinear_arith);
        }
        let mut col: usize = 0;
        while col < bw
            invariant
                0 <= col <= w,
                0 <= row < h,
                w == bw,
                h == bh,
                w > 0,
                h > 0,
                img_stride == image.bytes_per_line,
                blk_stride == ref_block.bytes_per_line,
                image.pixels@.len() == img_len,
                ref_block.pixels@.len() == blk_len,
                start + img_ofs + w <= img_len,
                blk_ofs + w <= blk_len,
                start == pos.0 + pos.1 * img_stride,
                img_ofs == row * img_stride,
                blk_ofs == row * blk_stride,
                a == area_pixels(image.pixels@, pos.0 + pos.1 * image.bytes_per_line, image.bytes_per_line as int, w, h),
                b == area_pixels(ref_block.pixels@, 0, ref_block.bytes_per_line as int, w, h),
                w * h * 255 <= u64::MAX,
                sum == abs_diff_sum(a, b, row * w + col),
            decreases bw - col,
        {
            proof {
                lemma_row_index(row as int, col as int, w);
                let i = row * w + col;
                lemma_mul_nonneg_le(row as int + 1, h, w);
                assert(h * w == w * h) by (nonlinear_arith);
                assert(i < w * h);
                assert(a[i] == image.pixels@[start + img_ofs + col] as int);
                assert(b[i] == ref_block.pixels@[blk_ofs + col] as int);
                assert forall|j: int| 0 <= j < i + 1 implies 0 <= #[trigger] a[j] <= 255 && 0 <= b[j] <= 255 by {
                    lemma_mul_nonneg_le(row as int + 1, h, w);
                    assert(h * w == w * h) by (nonlinear_arith);
                }
                lemma_abs_diff_sum_bound(a, b, i + 1);
                lemma_mul_nonneg_le(row as int + 1, h, w);
                lemma_mul_nonneg_le(i + 1, w * h, 255);
                assert(h * w == w * h) by (nonlinear_arith);
                assert(w * h * 255 == 255 * (w * h)) by (nonlinear_arith);
            }
            let img_val = image.pixels[start + img_ofs + col];
            let blk_val = ref_block.pixels[blk_ofs + col];
            let diff: u64 = if img_val >= blk_val {
                (img_val - blk_val) as u64
            } else {
                (blk_val - img_val) as u64
            };
            sum = sum + diff;
            col = col + 1;
        }
        img_ofs = img_ofs + img_stride;
        blk_ofs = blk_ofs + blk_stride;
        proof {
            lemma_row_index(row as int, 0, w);
        }
        row = row + 1;
    }
    proof {
        assert(h * w == w * h) by (nonlinear_arith);
    }
    Ok(sum)
}


// ---------------------------------------------------------------------------
// Coarse-to-fine search
// ---------------------------------------------------------------------------

/// State of a search, as mathematical values. Positions are in units of `2^-shift` pixel.
pub struct SearchModel {
    pub initial_x: int,
    pub initial_y: int,
    /// Center of the current level's search.
    pub center_x: int,
    pub center_y: int,
    /// Half the side of the current level's search square.
    pub radius: int,
    /// The current level's step is `2^step_exp` pixels.
    pub step_exp: int,
    /// The finest level's step is `2^final_exp` pixels.
    pub final_exp: int,
    pub shift: int,
    /// Sums of absolute differences received so far at the current level, in scan order.
    pub fed: Seq<u64>,
}

/// The current level's step, in position units.
pub open spec fn level_step(m: SearchModel) -> int {
    pow2((m.step_exp + m.shift) as nat) as int
}

/// Number of positions per row (and per column) of the current level's scan.
pub open spec fn scan_side(m: SearchModel) -> int {
    2 * m.radius / level_step(m) + 1
}

/// Number of positions the current level checks.
pub open spec fn scan_count(m: SearchModel) -> int {
    scan_side(m) * scan_side(m)
}

/// The `i`-th position of the current level's scan: rows from top to bottom, each from left
/// to right, `level_step(m)` apart, starting at the top-left corner of the search square.
pub open spec fn scan_pos(m: SearchModel, i: int) -> (int, int) {
    let n = scan_side(m);
    (m.center_x - m.radius + (i % n) * level_step(m), m.center_y - m.radius + (i / n) * level_step(m))
}

/// All levels are done.
pub open spec fn search_finished(m: SearchModel) -> bool {
    m.step_exp < m.final_exp
}

/// Index of the first element that is smaller than all before it and than `u64::MAX`, and no
/// larger than any after it; `-1` if every element is `u64::MAX`.
pub open spec fn first_min_index(s: Seq<u64>) -> int
    decreases s.len(),
{
    if s.len() == 0 {
        -1
    } else {
        let p = first_min_index(s.drop_last());
        let cur = if p < 0 {
            u64::MAX as int
        } else {
            s[p] as int
        };
        if (s.last() as int) < cur {
            s.len() - 1
        } else {
            p
        }
    }
}

/// The next level after the current one received `sads`: centered on the first position with
/// the smallest sum (or where it was, if every sum is `u64::MAX`), with the current step as
/// its radius and half the current step as its step.
pub open spec fn next_level(m: SearchModel, sads: Seq<u64>) -> SearchModel {
    let i = first_min_index(sads);
    let c = if i >= 0 {
        scan_pos(m, i)
    } else {
        (m.center_x, m.center_y)
    };
    SearchModel {
        center_x: c.0,
        center_y: c.1,
        radius: level_step(m),
        step_exp: m.step_exp - 1,
        fed: Seq::empty(),
        ..m
    }
}

/// The state after receiving the sum for the position last queried.
pub open spec fn after_feed(m: SearchModel, sad: u64) -> SearchModel {
    if m.fed.len() + 1 < scan_count(m) {
        SearchModel { fed: m.fed.push(sad), ..m }
    } else {
        next_level(m, m.fed.push(sad))
    }
}

/// The state of a new search.
pub open spec fn initial_model(
    initial_pos: (i32, i32),
    search_radius: u32,
    initial_step: NonNegPowerOf2,
    final_step: IntPowerOf2,
) -> SearchModel {
    let no_search = pow2(initial_step.0 as nat) > search_radius;
    let shift: int = if !no_search && final_step.0 < 0 {
        -final_step.0
    } else {
        0
    };
    let scale = pow2(shift as nat) as int;
    SearchModel {
        initial_x: initial_pos.0 * scale,
        initial_y: initial_pos.1 * scale,
        center_x: initial_pos.0 * scale,
        center_y: initial_pos.1 * scale,
        radius: search_radius * scale,
        step_exp: if no_search {
            final_step.0 - 1
        } else {
            initial_step.0 as int
        },
        final_exp: final_step.0 as int,
        shift,
        fed: Seq::empty(),
    }
}

/// The state of a sub-pixel refinement of a whole-pixel search: around `initial_pos` moved by
/// the whole-pixel translation `whole`, within one pixel, with a step of half a pixel, down to
/// a step of `2^final_step` pixels; positions count units of `2^final_step` pixel.
pub open spec fn refine_model(initial_pos: (i32, i32), whole: (i64, i64), final_step: IntPowerOf2) -> SearchModel {
    let shift: int = -final_step.0;
    let scale = pow2(shift as nat) as int;
    SearchModel {
        initial_x: initial_pos.0 * scale,
        initial_y: initial_pos.1 * scale,
        center_x: (initial_pos.0 + whole.0) * scale,
        center_y: (initial_pos.1 + whole.1) * scale,
        radius: scale,
        step_exp: -1,
        final_exp: final_step.0 as int,
        shift,
        fed: Seq::empty(),
    }
}

/// The position chosen from a level is the first one with the smallest sum: its sum is below
/// `u64::MAX`, no larger than any other, and smaller than every one before it. When no sum is
/// below `u64::MAX`, no position is chosen.
pub proof fn lemma_first_min_index(s: Seq<u64>)
    ensures
        first_min_index(s) >= 0 ==> {
            let i = first_min_index(s);
            &&& i < s.len()
            &&& (s[i] as int) < u64::MAX
            &&& forall|j: int| 0 <= j < s.len() ==> s[i] <= #[trigger] s[j]
            &&& forall|j: int| 0 <= j < i ==> s[i] < #[trigger] s[j]
        },
        first_min_index(s) < 0 ==> first_min_index(s) == -1 && forall|j: int|
            0 <= j < s.len() ==> #[trigger] s[j] == u64::MAX,
    decreases s.len(),
{
    if s.len() > 0 {
        let t = s.drop_last();
        lemma_first_min_index(t);
        assert forall|j: int| 0 <= j < t.len() implies #[trigger] s[j] == t[j] by {}
    }
}

/// Every position that a level checks lies within its search square.
pub proof fn lemma_scan_within_radius(m: SearchModel, i: int)
    requires
        m.radius >= 0,
        m.step_exp + m.shift >= 0,
        0 <= i < scan_count(m),
    ensures
        m.center_x - m.radius <= scan_pos(m, i).0 <= m.center_x + m.radius,
        m.center_y - m.radius <= scan_pos(m, i).1 <= m.center_y + m.radius,
{
    let st = level_step(m);
    let n = scan_side(m);
    lemma_pow2_pos((m.step_exp + m.shift) as nat);
    vstd::arithmetic::div_mod::lemma_div_pos_is_pos(2 * m.radius, st);
    lemma_scan_index(n, i);
    lemma_side_offset(m.radius, st, i % n);
    lemma_side_offset(m.radius, st, i / n);
}

proof fn lemma_scan_index(n: int, i: int)
    requires
        n > 0,
        0 <= i < n * n,
    ensures
        0 <= i % n < n,
        0 <= i / n < n,
        i == (i / n) * n + i % n,
{
    vstd::arithmetic::div_mod::lemma_fundamental_div_mod(i, n);
    vstd::arithmetic::div_mod::lemma_mod_pos_bound(i, n);
    vstd::arithmetic::div_mod::lemma_div_pos_is_pos(i, n);
    assert(n * (i / n) == (i / n) * n) by (nonlinear_arith);
    if i / n >= n {
        lemma_mul_nonneg_le(n, i / n, n);
    }
}

/// An index `j` of a scan row or column (`j <= 2 * radius / step`) is at most `2 * radius`
/// away from the square's edge.
proof fn lemma_side_offset(radius: int, st: int, j: int)
    requires
        radius >= 0,
        st > 0,
        0 <= j < 2 * radius / st + 1,
    ensures
        0 <= j * st <= 2 * radius,
{
    lemma_mul_nonneg_le(j, 2 * radius / st, st);
    vstd::arithmetic::div_mod::lemma_fundamental_div_mod(2 * radius, st);
    vstd::arithmetic::div_mod::lemma_mod_pos_bound(2 * radius, st);
    assert(st * (2 * radius / st) == (2 * radius / st) * st) by (nonlinear_arith);
}

/// Moving one step further along a scan row (or column) stays within the square exactly when
/// the next index is still below the side length.
proof fn lemma_side_next(radius: int, st: int, j: int)
    requires
        radius >= 0,
        st > 0,
        0 <= j,
    ensures
        (j + 1) * st <= 2 * radius <==> j + 1 < 2 * radius / st + 1,
        (j + 1) * st == j * st + st,
{
    assert((j + 1) * st == j * st + st) by (nonlinear_arith);
    vstd::arithmetic::div_mod::lemma_fundamental_div_mod(2 * radius, st);
    vstd::arithmetic::div_mod::lemma_mod_pos_bound(2 * radius, st);
    let q = 2 * radius / st;
    assert(st * q == q * st) by (nonlinear_arith);
    if j + 1 <= q {
        lemma_mul_nonneg_le(j + 1, q, st);
    } else {
        lemma_mul_nonneg_le(q + 1, j + 1, st);
        assert((q + 1) * st == q * st + st) by (nonlinear_arith);
    }
}

/// The positions of a search around `initial_pos` within `search_radius`, starting with a
/// step of `2^initial_step` pixels, counted in units of `2^-shift` pixel, stay far within
/// `i64`: the initial position widened by the search's reach and two more pixels fits within
/// `pos_bound()` units.
pub open spec fn search_units_fit(
    initial_pos: (i32, i32),
    search_radius: u32,
    initial_step: NonNegPowerOf2,
    shift: nat,
) -> bool {
    let reach = search_radius + pow2((initial_step.0 + 1) as nat) + 2;
    &&& (abs_int(initial_pos.0 as int) + reach) * pow2(shift) <= pos_bound()
    &&& (abs_int(initial_pos.1 as int) + reach) * pow2(shift) <= pos_bound()
}

proof fn lemma_exp_bound(e: nat)
    requires
        pow2(e) <= pos_bound(),
    ensures
        e <= 50,
{
    if e > 50 {
        lemma_pow2_strictly_increases(50, e);
        lemma2_to64_rest();
        assert(pow2(50) == pos_bound());
    }
}

/// Whole-pixel positions fit within `i64` with room to spare.
proof fn lemma_units_fit_unscaled(initial_pos: (i32, i32), search_radius: u32, initial_step: NonNegPowerOf2)
    requires
        initial_step.0 < 32,
    ensures
        search_units_fit(initial_pos, search_radius, initial_step, 0),
{
    lemma_pow2_le((initial_step.0 + 1) as nat, 32);
    lemma2_to64();
    lemma2_to64_rest();
}

/// What `search_units_fit` gives: the shifts stay below 51 bits, and the initial position, the
/// radius and the budget of a new search fit within `pos_bound()` units.
proof fn lemma_units_fit(initial_pos: (i32, i32), search_radius: u32, initial_step: NonNegPowerOf2, shift: nat)
    requires
        initial_step.0 < 32,
        search_units_fit(initial_pos, search_radius, initial_step, shift),
    ensures
        shift <= 50,
        initial_step.0 + shift + 1 <= 50,
        -pos_bound() <= initial_pos.0 * pow2(shift) <= pos_bound(),
        -pos_bound() <= initial_pos.1 * pow2(shift) <= pos_bound(),
        0 <= search_radius * pow2(shift),
        search_radius * pow2(shift) + pow2((initial_step.0 + shift + 1) as nat) <= pos_bound(),
{
    let sc = pow2(shift) as int;
    let p1 = pow2((initial_step.0 + 1) as nat) as int;
    lemma_pow2_pos(shift);
    lemma_pow2_pos((initial_step.0 + 1) as nat);
    lemma_pow2_adds((initial_step.0 + 1) as nat, shift);
    assert(((initial_step.0 + 1) as nat + shift) as nat == (initial_step.0 + shift + 1) as nat);
    let a0 = abs_int(initial_pos.0 as int);
    let a1 = abs_int(initial_pos.1 as int);
    let rr = search_radius as int;
    assert((a0 + rr + p1 + 2) * sc == a0 * sc + rr * sc + p1 * sc + 2 * sc) by (nonlinear_arith);
    assert((a1 + rr + p1 + 2) * sc == a1 * sc + rr * sc + p1 * sc + 2 * sc) by (nonlinear_arith);
    assert(0 <= a0 * sc && 0 <= a1 * sc && 0 <= rr * sc) by (nonlinear_arith)
        requires
            a0 >= 0,
            a1 >= 0,
            rr >= 0,
            sc > 0,
    ;
    assert(-(a0 * sc) <= initial_pos.0 * sc <= a0 * sc) by (nonlinear_arith)
        requires
            a0 == abs_int(initial_pos.0 as int),
            sc > 0,
    ;
    assert(-(a1 * sc) <= initial_pos.1 * sc <= a1 * sc) by (nonlinear_arith)
        requires
            a1 == abs_int(initial_pos.1 as int),
            sc > 0,
    ;
    assert(p1 * sc == pow2((initial_step.0 + shift + 1) as nat));
    assert(sc <= p1 * sc) by (nonlinear_arith)
        requires
            p1 >= 1,
            sc > 0,
    ;
    lemma_exp_bound(shift);
    lemma_exp_bound((initial_step.0 + shift + 1) as nat);
}

/// Positions of a refinement around `initial_pos` moved by `whole`, counted in units of
/// `2^-shift` pixel, stay far within `i64`.
pub open spec fn refine_units_fit(initial_pos: (i32, i32), whole: (i64, i64), shift: nat) -> bool {
    &&& (abs_int(initial_pos.0 as int) + abs_int(whole.0 as int) + 2) * pow2(shift) <= pos_bound()
    &&& (abs_int(initial_pos.1 as int) + abs_int(whole.1 as int) + 2) * pow2(shift) <= pos_bound()
}

proof fn lemma_refine_coord(p: int, w: int, sc: int)
    requires
        sc >= 1,
        (abs_int(p) + abs_int(w) + 2) * sc <= pos_bound(),
    ensures
        sc <= pos_bound(),
        abs_int(w) <= pos_bound(),
        -pos_bound() <= p * sc <= pos_bound(),
        -pos_bound() <= (p + w) * sc <= pos_bound(),
        abs_int((p + w) * sc - p * sc) + sc <= pos_bound(),
{
    let a = abs_int(p);
    let b = abs_int(w);
    assert((a + b + 2) * sc == a * sc + b * sc + 2 * sc) by (nonlinear_arith);
    assert(0 <= a * sc && 0 <= b * sc && b <= b * sc) by (nonlinear_arith)
        requires
            a >= 0,
            b >= 0,
            sc >= 1,
    ;
    assert(-(a * sc) <= p * sc <= a * sc) by (nonlinear_arith)
        requires
            a == abs_int(p),
            sc > 0,
    ;
    assert((p + w) * sc - p * sc == w * sc) by (nonlinear_arith);
    assert(-(b * sc) <= w * sc <= b * sc) by (nonlinear_arith)
        requires
            b == abs_int(w),
            sc > 0,
    ;
    assert((p + w) * sc == p * sc + w * sc) by (nonlinear_arith);
}

proof fn lemma_refine_units_fit(initial_pos: (i32, i32), whole: (i64, i64), shift: nat)
    requires
        refine_units_fit(initial_pos, whole, shift),
    ensures
        shift <= 50,
        abs_int(whole.0 as int) <= pos_bound(),
        abs_int(whole.1 as int) <= pos_bound(),
        -pos_bound() <= initial_pos.0 * pow2(shift) <= pos_bound(),
        -pos_bound() <= initial_pos.1 * pow2(shift) <= pos_bound(),
        -pos_bound() <= (initial_pos.0 + whole.0) * pow2(shift) <= pos_bound(),
        -pos_bound() <= (initial_pos.1 + whole.1) * pow2(shift) <= pos_bound(),
        abs_int((initial_pos.0 + whole.0) * pow2(shift) - initial_pos.0 * pow2(shift)) + pow2(shift)
            <= pos_bound(),
        abs_int((initial_pos.1 + whole.1) * pow2(shift) - initial_pos.1 * pow2(shift)) + pow2(shift)
            <= pos_bound(),
{
    lemma_pow2_pos(shift);
    lemma_refine_coord(initial_pos.0 as int, whole.0 as int, pow2(shift) as int);
    lemma_refine_coord(initial_pos.1 as int, whole.1 as int, pow2(shift) as int);
    lemma_exp_bound(shift);
}

/// A search for the translation of a reference block, driven by its caller: the caller asks
/// for the next position to check (`query`), computes the sum of absolute differences there,
/// and hands it back (`feed`), until no position is left; `translation` then gives the result.
///
/// Each level checks every position of a square grid (the first one `search_radius` around
/// the initial position with the initial step, each next one around the best position found,
/// with the previous step as radius and half of it as step) and moves to the first position
/// with the smallest sum; the last level has the final step.
pub struct BlockSearch {
    initial_x: i64,
    initial_y: i64,
    center_x: i64,
    center_y: i64,
    radius: i64,
    step: i64,
    step_exp: i64,
    final_exp: i64,
    shift: u32,
    x: i64,
    y: i64,
    min_sad: u64,
    best_x: i64,
    best_y: i64,
    fed: Ghost<Seq<u64>>,
    col: Ghost<int>,
    row: Ghost<int>,
    budget: Ghost<int>,
}

impl View for BlockSearch {
    type V = SearchModel;

    closed spec fn view(&self) -> SearchModel {
        SearchModel {
            initial_x: self.initial_x as int,
            initial_y: self.initial_y as int,
            center_x: self.center_x as int,
            center_y: self.center_y as int,
            radius: self.radius as int,
            step_exp: self.step_exp as int,
            final_exp: self.final_exp as int,
            shift: self.shift as int,
            fed: self.fed@,
        }
    }
}

/// Bound on the magnitude of the initial position, in position units.
pub open spec fn pos_bound() -> int {
    0x4_0000_0000_0000
}

impl BlockSearch {
    /// Bound on how far, in position units, any position the search checks lies from the
    /// initial position.
    pub closed spec fn position_budget(&self) -> int {
        self.budget@
    }

    /// The search's bookkeeping agrees with its model, and all positions stay far within `i64`.
    pub closed spec fn wf(&self) -> bool {
        let m = self@;
        &&& self.final_exp - 1 <= self.step_exp < 32
        &&& self.shift <= 50
        &&& 0 <= self.radius
        &&& -pos_bound() <= self.initial_x <= pos_bound()
        &&& -pos_bound() <= self.initial_y <= pos_bound()
        &&& self.budget@ <= 2 * pos_bound()
        &&& abs_int(self.center_x - self.initial_x) + self.radius <= self.budget@
        &&& abs_int(self.center_y - self.initial_y) + self.radius <= self.budget@
        &&& !search_finished(m) ==> {
            &&& self.final_exp + self.shift >= 0
            &&& abs_int(self.center_x - self.initial_x) + self.radius + pow2(
                (self.step_exp + self.shift + 1) as nat,
            ) <= self.budget@
            &&& abs_int(self.center_y - self.initial_y) + self.radius + pow2(
                (self.step_exp + self.shift + 1) as nat,
            ) <= self.budget@
        }
        &&& !search_finished(m) ==> {
            let n = scan_side(m);
            let k = m.fed.len() as int;
            let fi = first_min_index(m.fed);
            &&& self.step as int == level_step(m)
            &&& 0 <= self.col@ < n
            &&& 0 <= self.row@ < n
            &&& k == self.row@ * n + self.col@
            &&& self.x == self.center_x - self.radius + self.col@ * self.step
            &&& self.y == self.center_y - self.radius + self.row@ * self.step
            &&& fi >= 0 ==> fi < k && self.min_sad == m.fed[fi] && (self.best_x as int, self.best_y as int)
                == scan_pos(m, fi)
            &&& fi < 0 ==> self.min_sad == u64::MAX && self.best_x == self.center_x && self.best_y
                == self.center_y
        }
    }
}


proof fn lemma_pow2_le(a: nat, b: nat)
    requires
        a <= b,
    ensures
        pow2(a) <= pow2(b),
{
    if a < b {
        lemma_pow2_strictly_increases(a, b);
    }
}

proof fn lemma_pow2_shl(e: u64)
    requires
        e < 63,
    ensures
        (1u64 << e) as int == pow2(e as nat),
        pow2(e as nat) <= i64::MAX,
{
    lemma_pow2_le(e as nat, 62);
    lemma2_to64_rest();
    vstd::bits::lemma_u64_pow2_no_overflow(e as nat);
    vstd::bits::lemma_u64_shl_is_mul(1, e);
}

impl BlockSearch {
    /// Starts a search around `initial_pos` within `search_radius` pixels, with steps from
    /// `2^initial_step` pixels down to `2^final_step` pixels. When the initial step exceeds the
    /// search radius there is nothing to search: the search is finished from the start, with
    /// a zero translation.
    pub fn new(
        initial_pos: (i32, i32),
        search_radius: u32,
        initial_step: NonNegPowerOf2,
        final_step: IntPowerOf2,
    ) -> (s: BlockSearch)
        requires
            initial_step.0 < 32,
            final_step.0 <= initial_step.0,
            pow2(initial_step.0 as nat) <= search_radius && final_step.0 < 0 ==> search_units_fit(
                initial_pos,
                search_radius,
                initial_step,
                (-final_step.0) as nat,
            ),
        ensures
            s.wf(),
            s@ == initial_model(initial_pos, search_radius, initial_step, final_step),
            s.position_budget() == s@.radius + pow2((initial_step.0 + s@.shift + 1) as nat),
    {
        let finished = initial_step.as_int() > search_radius;
        let shift: u32 = if !finished && final_step.0 < 0 {
            proof {
                lemma_units_fit(initial_pos, search_radius, initial_step, (-final_step.0) as nat);
            }
            (0 - final_step.0) as u32
        } else {
            0
        };
        let e0 = initial_step.0;
        proof {
            if shift == 0 {
                lemma_units_fit_unscaled(initial_pos, search_radius, initial_step);
            }
            lemma_units_fit(initial_pos, search_radius, initial_step, shift as nat);
            lemma_pow2_shl(shift as u64);
            lemma_pow2_shl((e0 + shift) as u64);
            lemma_pow2_pos((e0 + shift) as nat);
        }
        let scale: i64 = (1u64 << shift as u64) as i64;
        let ix = initial_pos.0 as i64 * scale;
        let iy = initial_pos.1 as i64 * scale;
        let radius = search_radius as i64 * scale;
        let step_exp: i64 = if finished {
            final_step.0 as i64 - 1
        } else {
            e0 as i64
        };
        let step: i64 = if finished {
            1
        } else {
            (1u64 << (e0 + shift) as u64) as i64
        };
        let ghost budget = radius + pow2((e0 + shift + 1) as nat);
        proof {
            assert(first_min_index(Seq::<u64>::empty()) == -1);
        }
        let s = BlockSearch {
            initial_x: ix,
            initial_y: iy,
            center_x: ix,
            center_y: iy,
            radius,
            step,
            step_exp,
            final_exp: final_step.0 as i64,
            shift,
            x: ix - radius,
            y: iy - radius,
            min_sad: u64::MAX,
            best_x: ix,
            best_y: iy,
            fed: Ghost(Seq::empty()),
            col: Ghost(0),
            row: Ghost(0),
            budget: Ghost(budget),
        };
        proof {
            if !finished {
                vstd::arithmetic::div_mod::lemma_div_pos_is_pos(2 * radius as int, step as int);
                assert(0 * step == 0);
            }
        }
        s
    }

    /// Continues a whole-pixel search that found the translation `whole` from `initial_pos` with
    /// sub-pixel levels, the first one within one pixel with a step of half a pixel, down to a
    /// step of `2^final_step` pixels.
    pub fn refine(initial_pos: (i32, i32), whole: (i64, i64), final_step: IntPowerOf2) -> (s: BlockSearch)
        requires
            final_step.0 < 0,
            refine_units_fit(initial_pos, whole, (-final_step.0) as nat),
        ensures
            s.wf(),
            s@ == refine_model(initial_pos, whole, final_step),
    {
        proof {
            lemma_refine_units_fit(initial_pos, whole, (-final_step.0) as nat);
        }
        let shift: u32 = (0 - final_step.0) as u32;
        proof {
            lemma_pow2_pos((shift - 1) as nat);
            lemma_pow2_shl(shift as u64);
            lemma_pow2_shl((shift - 1) as u64);
            lemma_pow2_unfold(shift as nat);
        }
        let scale: i64 = (1u64 << shift as u64) as i64;
        let wx = initial_pos.0 as i64 + whole.0;
        let wy = initial_pos.1 as i64 + whole.1;
        let ix = initial_pos.0 as i64 * scale;
        let iy = initial_pos.1 as i64 * scale;
        let cx = wx * scale;
        let cy = wy * scale;
        let step: i64 = (1u64 << (shift - 1) as u64) as i64;
        let ghost budget = abs_int(cx - ix) + abs_int(cy - iy) + 2 * scale;
        proof {
            assert(first_min_index(Seq::<u64>::empty()) == -1);
            assert(scale == 2 * step);
            vstd::arithmetic::div_mod::lemma_div_multiples_vanish(4, step as int);
            assert((2 * scale) / (step as int) == 4);
            assert(0 * step == 0);
        }
        BlockSearch {
            initial_x: ix,
            initial_y: iy,
            center_x: cx,
            center_y: cy,
            radius: scale,
            step,
            step_exp: -1,
            final_exp: final_step.0 as i64,
            shift,
            x: cx - scale,
            y: cy - scale,
            min_sad: u64::MAX,
            best_x: cx,
            best_y: cy,
            fed: Ghost(Seq::empty()),
            col: Ghost(0),
            row: Ghost(0),
            budget: Ghost(budget),
        }
    }

    /// All levels are done.
    pub fn is_finished(&self) -> (r: bool)
        requires
            self.wf(),
        ensures
            r == search_finished(self@),
    {
        self.step_exp < self.final_exp
    }

    /// Exponent of the current level's step: it is `2^level_exp()` pixels.
    pub fn level_exp(&self) -> (r: i32)
        requires
            self.wf(),
            !search_finished(self@),
        ensures
            r == self@.step_exp,
    {
        self.step_exp as i32
    }

    /// Number of fractional bits of positions and translations: they count units of
    /// `2^-unit_shift()` pixel.
    pub fn unit_shift(&self) -> (r: u32)
        requires
            self.wf(),
        ensures
            r == self@.shift,
    {
        self.shift
    }

    /// The next position to check, or `None` when the search is finished.
    pub fn query(&self) -> (r: Option<(i64, i64)>)
        requires
            self.wf(),
        ensures
            r is None <==> search_finished(self@),
            r matches Some(p) ==> (p.0 as int, p.1 as int) == scan_pos(self@, self@.fed.len() as int),
    {
        if self.step_exp < self.final_exp {
            None
        } else {
            proof {
                let m = self@;
                let n = scan_side(m);
                vstd::arithmetic::div_mod::lemma_fundamental_div_mod_converse(
                    m.fed.len() as int,
                    n,
                    self.row@,
                    self.col@,
                );
            }
            Some((self.x, self.y))
        }
    }

    /// Takes the sum of absolute differences at the position last queried, and moves on.
    pub fn feed(&mut self, sad: u64)
        requires
            old(self).wf(),
            !search_finished(old(self)@),
        ensures
            final(self).wf(),
            final(self)@ == after_feed(old(self)@, sad),
            final(self).position_budget() == old(self).position_budget(),
    {
        let ghost m = self@;
        let ghost n = scan_side(m);
        let ghost k = m.fed.len() as int;
        let ghost st = level_step(m);
        proof {
            lemma_pow2_pos((m.step_exp + m.shift) as nat);
            lemma_pow2_unfold((m.step_exp + m.shift + 1) as nat);
            vstd::arithmetic::div_mod::lemma_fundamental_div_mod_converse(k, n, self.row@, self.col@);
            assert(m.fed.push(sad).drop_last() =~= m.fed);
            lemma_side_offset(m.radius, st, self.col@);
            lemma_side_offset(m.radius, st, self.row@);
            lemma_side_next(m.radius, st, self.col@);
            lemma_side_next(m.radius, st, self.row@);
        }
        if sad < self.min_sad {
            self.min_sad = sad;
            self.best_x = self.x;
            self.best_y = self.y;
        }
        self.fed = Ghost(self.fed@.push(sad));
        let ghost fed1 = self.fed@;
        let ghost fi = first_min_index(fed1);
        proof {
            assert(fed1.drop_last() =~= m.fed);
            assert(k < n * n) by (nonlinear_arith)
                requires
                    k == self.row@ * n + self.col@,
                    0 <= self.col@ < n,
                    0 <= self.row@ < n,
            ;
            if fi >= 0 {
                lemma_first_min_index(fed1);
                lemma_scan_index(n, fi);
                lemma_scan_within_radius(m, fi);
            }
        }
        if self.x + self.step <= self.center_x + self.radius {
            self.x = self.x + self.step;
            self.col = Ghost(self.col@ + 1);
            proof {
                assert(k + 1 < n * n) by (nonlinear_arith)
                    requires
                        k == self.row@ * n + self.col@ - 1,
                        self.col@ < n,
                        0 <= self.row@ < n,
                ;
            }
        } else if self.y + self.step <= self.center_y + self.radius {
            self.x = self.center_x - self.radius;
            self.y = self.y + self.step;
            self.col = Ghost(0);
            self.row = Ghost(self.row@ + 1);
            proof {
                assert(k + 1 == self.row@ * n) by (nonlinear_arith)
                    requires
                        k == (self.row@ - 1) * n + n - 1,
                ;
                assert(k + 1 < n * n) by (nonlinear_arith)
                    requires
                        k + 1 == self.row@ * n,
                        self.row@ < n,
                        n > 0,
                ;
                assert(0 * st == 0);
            }
        } else {
            proof {
                assert(k + 1 == n * n) by (nonlinear_arith)
                    requires
                        k == (n - 1) * n + n - 1,
                ;
            }
            self.center_x = self.best_x;
            self.center_y = self.best_y;
            self.radius = self.step;
            self.step_exp = self.step_exp - 1;
            self.fed = Ghost(Seq::empty());
            proof {
                assert(self@ == next_level(m, fed1));
                assert(pow2((self.step_exp + self.shift + 1) as nat) == st);
            }
            if self.step_exp >= self.final_exp {
                proof {
                    lemma_pow2_unfold((m.step_exp + m.shift) as nat);
                }
                self.step = self.step / 2;
                self.x = self.center_x - self.radius;
                self.y = self.center_y - self.radius;
                self.min_sad = u64::MAX;
                self.best_x = self.center_x;
                self.best_y = self.center_y;
                self.col = Ghost(0);
                self.row = Ghost(0);
                proof {
                    let m2 = self@;
                    lemma_pow2_pos((m2.step_exp + m2.shift) as nat);
                    vstd::arithmetic::div_mod::lemma_div_pos_is_pos(2 * m2.radius, level_step(m2));
                    assert(0 * self.step == 0);
                }
            }
        }
    }

    /// How far the current center lies from the initial position, in units of
    /// `2^-unit_shift()` pixel; when the search is finished, this is its result.
    pub fn translation(&self) -> (t: (i64, i64))
        requires
            self.wf(),
        ensures
            t.0 == self@.center_x - self@.initial_x,
            t.1 == self@.center_y - self@.initial_y,
    {
        (self.center_x - self.initial_x, self.center_y - self.initial_y)
    }
}


impl BlockSearch {
    /// Every position the search checks lies within `position_budget()` of the initial position.
    pub proof fn lemma_query_within_budget(&self)
        requires
            self.wf(),
            !search_finished(self@),
        ensures
            abs_int(scan_pos(self@, self@.fed.len() as int).0 - self@.initial_x) <= self.position_budget(),
            abs_int(scan_pos(self@, self@.fed.len() as int).1 - self@.initial_y) <= self.position_budget(),
            self@.fed.len() < scan_count(self@),
    {
        let m = self@;
        let n = scan_side(m);
        let k = m.fed.len() as int;
        lemma_pow2_pos((m.step_exp + m.shift) as nat);
        vstd::arithmetic::div_mod::lemma_div_pos_is_pos(2 * m.radius, level_step(m));
        assert(k < n * n) by (nonlinear_arith)
            requires
                k == self.row@ * n + self.col@,
                0 <= self.col@ < n,
                0 <= self.row@ < n,
        ;
        lemma_scan_within_radius(m, k);
        lemma_pow2_pos((m.step_exp + m.shift + 1) as nat);
    }
}

// ---------------------------------------------------------------------------
// Whole-pixel search on an image
// ---------------------------------------------------------------------------

/// Index of the first position of the current level, from index `from` on, at which the block
/// does not fit within the image; `-1` if there is none.
pub open spec fn first_outside(m: SearchModel, image: MonoImage, block: MonoImage, from: int) -> int
    decreases scan_count(m) - from,
{
    if from < 0 || from >= scan_count(m) {
        -1
    } else if !block_inside(image, block, scan_pos(m, from).0, scan_pos(m, from).1) {
        from
    } else {
        first_outside(m, image, block, from + 1)
    }
}

/// The sums of absolute differences of the whole current level: those already received,
/// followed by those at the remaining positions.
pub open spec fn level_sads(m: SearchModel, image: MonoImage, block: MonoImage) -> Seq<u64> {
    m.fed + Seq::new(
        (scan_count(m) - m.fed.len()) as nat,
        |j: int|
            block_sad(image, block, scan_pos(m, m.fed.len() + j).0, scan_pos(m, m.fed.len() + j).1)
                as u64,
    )
}

/// What a search from state `m` yields when the sums come from placing `block` on `image`:
/// the translation found, or the first position checked at which the block does not fit.
pub open spec fn search_outcome(m: SearchModel, image: MonoImage, block: MonoImage) -> Result<
    (int, int),
    (int, int),
>
    decreases m.step_exp - m.final_exp + 1,
{
    if search_finished(m) {
        Ok((m.center_x - m.initial_x, m.center_y - m.initial_y))
    } else {
        let f = first_outside(m, image, block, m.fed.len() as int);
        if f >= 0 {
            Err(scan_pos(m, f))
        } else {
            search_outcome(next_level(m, level_sads(m, image, block)), image, block)
        }
    }
}

proof fn lemma_first_outside_fed(m1: SearchModel, m2: SearchModel, image: MonoImage, block: MonoImage, from: int)
    requires
        m1 == (SearchModel { fed: m2.fed, ..m2 }) || (SearchModel { fed: m1.fed, ..m2 }) == m1,
    ensures
        first_outside(m1, image, block, from) == first_outside(m2, image, block, from),
    decreases scan_count(m1) - from,
{
    if 0 <= from < scan_count(m1) {
        lemma_first_outside_fed(m1, m2, image, block, from + 1);
    }
}

/// Receiving the sum at a position where the block fits does not change the outcome.
proof fn lemma_outcome_feed(m: SearchModel, image: MonoImage, block: MonoImage)
    requires
        !search_finished(m),
        m.fed.len() < scan_count(m),
        block_inside(
            image,
            block,
            scan_pos(m, m.fed.len() as int).0,
            scan_pos(m, m.fed.len() as int).1,
        ),
    ensures
        search_outcome(
            after_feed(
                m,
                block_sad(
                    image,
                    block,
                    scan_pos(m, m.fed.len() as int).0,
                    scan_pos(m, m.fed.len() as int).1,
                ) as u64,
            ),
            image,
            block,
        ) == search_outcome(m, image, block),
{
    let k = m.fed.len() as int;
    let p = scan_pos(m, k);
    let sad = block_sad(image, block, p.0, p.1) as u64;
    let n = scan_count(m);
    assert(first_outside(m, image, block, k) == first_outside(m, image, block, k + 1));
    if k + 1 < n {
        let m2 = SearchModel { fed: m.fed.push(sad), ..m };
        lemma_first_outside_fed(m2, m, image, block, k + 1);
        assert(level_sads(m2, image, block) =~= level_sads(m, image, block));
        assert(next_level(m2, level_sads(m2, image, block)) == next_level(m, level_sads(m, image, block)));
    } else {
        assert(first_outside(m, image, block, k + 1) == -1);
        assert(level_sads(m, image, block) =~= m.fed.push(sad));
    }
}

/// The outcome of a search that checks, next, a position where the block does not fit.
proof fn lemma_outcome_outside(m: SearchModel, image: MonoImage, block: MonoImage)
    requires
        !search_finished(m),
        m.fed.len() < scan_count(m),
        !block_inside(
            image,
            block,
            scan_pos(m, m.fed.len() as int).0,
            scan_pos(m, m.fed.len() as int).1,
        ),
    ensures
        search_outcome(m, image, block) == Err::<(int, int), (int, int)>(scan_pos(m, m.fed.len() as int)),
{
}

/// Every whole-pixel position a search around `initial_pos` within `search_radius`, starting
/// with a step of `2^initial_step`, can check lies within `i32`.
pub open spec fn search_window_fits(
    initial_pos: (i32, i32),
    search_radius: u32,
    initial_step: NonNegPowerOf2,
) -> bool {
    let reach = search_radius + pow2((initial_step.0 + 1) as nat);
    &&& i32::MIN <= initial_pos.0 - reach
    &&& initial_pos.0 + reach <= i32::MAX
    &&& i32::MIN <= initial_pos.1 - reach
    &&& initial_pos.1 + reach <= i32::MAX
}

/// Finds the translation of `ref_block`, placed at `initial_pos` in `image`, that best matches
/// the underlying pixels, by a whole-pixel coarse-to-fine search (see `BlockSearch`) with steps
/// from `2^initial_step` down to `2^final_step` pixels. Fails at the first position checked
/// at which the block does not fit within the image.
pub fn determine_translation_by_block_matching(
    image: &MonoImage,
    ref_block: &MonoImage,
    initial_pos: (i32, i32),
    search_radius: u32,
    initial_step: NonNegPowerOf2,
    final_step: IntPowerOf2,
) -> (r: Result<(i64, i64), BlockMatchError>)
    requires
        image.wf(),
        ref_block.wf(),
        ref_block.width * ref_block.height * 255 <= u64::MAX,
        image.width <= i32::MAX,
        image.height <= i32::MAX,
        initial_step.0 < 32,
        final_step.0 <= initial_step.0,
        pow2(initial_step.0 as nat) <= search_radius ==> {
            &&& 0 <= final_step.0
            &&& search_window_fits(initial_pos, search_radius, initial_step)
        },
    ensures
        match search_outcome(
            initial_model(initial_pos, search_radius, initial_step, final_step),
            *image,
            *ref_block,
        ) {
            Ok(t) => {
                &&& r == Ok::<(i64, i64), BlockMatchError>((t.0 as i64, t.1 as i64))
                &&& abs_int(t.0) <= search_radius + pow2((initial_step.0 + 1) as nat)
                &&& abs_int(t.1) <= search_radius + pow2((initial_step.0 + 1) as nat)
            },
            Err(p) => r == Err::<(i64, i64), BlockMatchError>(outside_error(*image, *ref_block, p.0, p.1)),
        },
{
    if initial_step.as_int() > search_radius {
        proof {
            lemma_no_search_when_step_exceeds_radius(
                initial_pos,
                search_radius,
                initial_step,
                final_step,
                *image,
                *ref_block,
            );
        }
        return Ok((0, 0));
    }
    let mut search = BlockSearch::new(initial_pos, search_radius, initial_step, final_step);
    let ghost m0 = search@;
    let ghost outcome = search_outcome(m0, *image, *ref_block);
    proof {
        lemma2_to64();
        let shift: int = if final_step.0 < 0 {
            -final_step.0
        } else {
            0
        };
        assert(shift == 0);
        assert(pow2(shift as nat) == 1);
        assert(initial_pos.0 * 1 == initial_pos.0);
        assert(initial_pos.1 * 1 == initial_pos.1);
        assert(m0.initial_x == initial_pos.0);
        assert(m0.initial_y == initial_pos.1);
    }
    loop
        invariant
            search.wf(),
            image.wf(),
            ref_block.wf(),
            ref_block.width * ref_block.height * 255 <= u64::MAX,
            image.width <= i32::MAX,
            image.height <= i32::MAX,
            search@.shift == 0,
            search@.initial_x == initial_pos.0,
            search@.initial_y == initial_pos.1,
            search.position_budget() == search_radius + pow2((initial_step.0 + 1) as nat),
            search_window_fits(initial_pos, search_radius, initial_step),
            search_outcome(search@, *image, *ref_block) == outcome,
            outcome == search_outcome(
                initial_model(initial_pos, search_radius, initial_step, final_step),
                *image,
                *ref_block,
            ),
        ensures
            search_finished(search@),
            search_outcome(search@, *image, *ref_block) == outcome,
        decreases search@.step_exp - search@.final_exp + 1, scan_count(search@) - search@.fed.len(),
    {
        match search.query() {
            None => {
                break ;
            },
            Some(p) => {
                proof {
                    search.lemma_query_within_budget();
                }
                let px = p.0 as i32;
                let py = p.1 as i32;
                match calc_sum_abs_diff(image, ref_block, (px, py)) {
                    Err(e) => {
                        proof {
                            lemma_outcome_outside(search@, *image, *ref_block);
                        }
                        return Err(e);
                    },
                    Ok(sad) => {
                        proof {
                            lemma_outcome_feed(search@, *image, *ref_block);
                        }
                        search.feed(sad);
                    },
                }
            },
        }
    }
    Ok(search.translation())
}


/// When the initial step exceeds the search radius, nothing is searched and the translation
/// found is zero, whatever the image.
pub proof fn lemma_no_search_when_step_exceeds_radius(
    initial_pos: (i32, i32),
    search_radius: u32,
    initial_step: NonNegPowerOf2,
    final_step: IntPowerOf2,
    image: MonoImage,
    block: MonoImage,
)
    requires
        pow2(initial_step.0 as nat) > search_radius,
    ensures
        search_outcome(initial_model(initial_pos, search_radius, initial_step, final_step), image, block)
            == Ok::<(int, int), (int, int)>((0, 0)),
{
}


/// Why a search with sub-pixel levels failed: the reference block left the image at a
/// whole-pixel level, or the sub-pixel sum reported an error.
#[derive(Debug, PartialEq, Eq)]
pub enum TranslationError<E> {
    Outside(BlockMatchError),
    Subpixel(E),
}

/// The final step of the whole-pixel part of a search down to `2^final_step` pixels.
pub open spec fn whole_pixel_final(final_step: IntPowerOf2) -> IntPowerOf2 {
    if final_step.0 >= 0 {
        final_step
    } else {
        IntPowerOf2(0)
    }
}

/// Finds the translation of `ref_block`, placed at `initial_pos` in `image`, that best matches
/// the underlying pixels, with steps from `2^initial_step` down to `2^final_step` pixels.
/// Whole-pixel levels are searched as `determine_translation_by_block_matching` does; the
/// sub-pixel levels that follow, when `final_step` is negative, take their sums from
/// `subpixel_sad`, called with positions in units of `2^final_step` pixel. The translation
/// found counts units of `2^final_step` pixel when `final_step` is negative, pixels otherwise.
/// Fails at the first whole-pixel position checked at which the block does not fit within the
/// image, or with the first error of `subpixel_sad`.
pub fn determine_translation_with_subpixel<E, F: Fn(i64, i64) -> Result<u64, E>>(
    image: &MonoImage,
    ref_block: &MonoImage,
    initial_pos: (i32, i32),
    search_radius: u32,
    initial_step: NonNegPowerOf2,
    final_step: IntPowerOf2,
    subpixel_sad: F,
) -> (r: Result<(i64, i64), TranslationError<E>>)
    requires
        image.wf(),
        ref_block.wf(),
        ref_block.width * ref_block.height * 255 <= u64::MAX,
        image.width <= i32::MAX,
        image.height <= i32::MAX,
        initial_step.0 < 32,
        final_step.0 <= initial_step.0,
        pow2(initial_step.0 as nat) <= search_radius ==> {
            &&& final_step.0 < 0 ==> search_units_fit(
                initial_pos,
                search_radius,
                initial_step,
                (-final_step.0) as nat,
            )
            &&& search_window_fits(initial_pos, search_radius, initial_step)
        },
        forall|x: i64, y: i64| #[trigger] subpixel_sad.requires((x, y)),
    ensures
        pow2(initial_step.0 as nat) > search_radius ==> r == Ok::<(i64, i64), TranslationError<E>>((0, 0)),
        pow2(initial_step.0 as nat) <= search_radius ==> {
            let m0 = initial_model(initial_pos, search_radius, initial_step, whole_pixel_final(final_step));
            let f = first_outside(m0, *image, *ref_block, 0);
            &&& f >= 0 ==> r == Err::<(i64, i64), TranslationError<E>>(
                TranslationError::Outside(outside_error(*image, *ref_block, scan_pos(m0, f).0, scan_pos(m0, f).1)),
            )
            &&& match search_outcome(m0, *image, *ref_block) {
                Err(p) => r == Err::<(i64, i64), TranslationError<E>>(
                    TranslationError::Outside(outside_error(*image, *ref_block, p.0, p.1)),
                ),
                Ok(t) => if final_step.0 >= 0 {
                    r == Ok::<(i64, i64), TranslationError<E>>((t.0 as i64, t.1 as i64))
                } else {
                    let scale = pow2((-final_step.0) as nat) as int;
                    let m1 = refine_model(initial_pos, (t.0 as i64, t.1 as i64), final_step);
                    &&& !(r matches Err(TranslationError::Outside(_)))
                    &&& r matches Ok(u) ==> {
                        &&& abs_int(u.0 - t.0 * scale) < 2 * scale
                        &&& abs_int(u.1 - t.1 * scale) < 2 * scale
                        &&& exists|sads: Seq<u64>|
                            #![trigger feed_all(m1, sads)]
                            {
                                &&& sums_answered(subpixel_sad, m1, sads)
                                &&& search_finished(feed_all(m1, sads))
                                &&& u.0 == feed_all(m1, sads).center_x - feed_all(m1, sads).initial_x
                                &&& u.1 == feed_all(m1, sads).center_y - feed_all(m1, sads).initial_y
                            }
                    }
                    &&& r matches Err(TranslationError::Subpixel(e)) ==> exists|sads: Seq<u64>|
                        #![trigger feed_all(m1, sads)]
                        {
                            &&& sums_answered(subpixel_sad, m1, sads)
                            &&& !search_finished(feed_all(m1, sads))
                            &&& subpixel_sad.ensures(query_pos(feed_all(m1, sads)), Err::<u64, E>(e))
                        }
                },
            }
        },
{
    if initial_step.as_int() > search_radius {
        return Ok((0, 0));
    }
    let whole_final = if final_step.0 >= 0 {
        final_step
    } else {
        IntPowerOf2(0)
    };
    let ghost m0 = initial_model(initial_pos, search_radius, initial_step, whole_final);
    proof {
        assert(whole_final == whole_pixel_final(final_step));
        if first_outside(m0, *image, *ref_block, 0) >= 0 {
            lemma_fails_at_first_outside_position(m0, *image, *ref_block);
        }
    }
    let whole = match determine_translation_by_block_matching(
        image,
        ref_block,
        initial_pos,
        search_radius,
        initial_step,
        whole_final,
    ) {
        Err(e) => {
            return Err(TranslationError::Outside(e));
        },
        Ok(t) => t,
    };
    if final_step.0 >= 0 {
        return Ok(whole);
    }
    proof {
        let sc = pow2((-final_step.0) as nat) as int;
        let reach = search_radius + pow2((initial_step.0 + 1) as nat) + 2;
        lemma_pow2_pos((-final_step.0) as nat);
        lemma_mul_nonneg_le(abs_int(initial_pos.0 as int) + abs_int(whole.0 as int) + 2, abs_int(initial_pos.0 as int) + reach, sc);
        lemma_mul_nonneg_le(abs_int(initial_pos.1 as int) + abs_int(whole.1 as int) + 2, abs_int(initial_pos.1 as int) + reach, sc);
    }
    let mut search = BlockSearch::refine(initial_pos, whole, final_step);
    let ghost m1 = search@;
    let ghost mut sads: Seq<u64> = Seq::empty();
    let ghost scale = pow2((-final_step.0) as nat) as int;
    let ghost c0x = (initial_pos.0 + whole.0) * scale;
    let ghost c0y = (initial_pos.1 + whole.1) * scale;
    proof {
        let m = search@;
        lemma_pow2_unfold(m.shift as nat);
        assert(level_step(m) * 2 == scale);
        assert(scan_count(m) >= 0) by (nonlinear_arith)
            requires
                scan_count(m) == scan_side(m) * scan_side(m),
        ;
        assert(m.center_x == c0x && m.center_y == c0y);
        assert(!search_finished(m));
        lemma_pow2_pos(m.shift as nat);
    }
    loop
        invariant
            search.wf(),
            forall|x: i64, y: i64| #[trigger] subpixel_sad.requires((x, y)),
            final_step.0 < 0,
            pow2(initial_step.0 as nat) <= search_radius,
            m0 == initial_model(initial_pos, search_radius, initial_step, whole_pixel_final(final_step)),
            first_outside(m0, *image, *ref_block, 0) < 0,
            search_outcome(m0, *image, *ref_block) is Ok,
            whole.0 == search_outcome(m0, *image, *ref_block)->Ok_0.0,
            whole.1 == search_outcome(m0, *image, *ref_block)->Ok_0.1,
            scale == pow2((-final_step.0) as nat),
            c0x == (initial_pos.0 + whole.0) * scale,
            c0y == (initial_pos.1 + whole.1) * scale,
            search@.initial_x == initial_pos.0 * scale,
            search@.initial_y == initial_pos.1 * scale,
            within_refinement(search@, c0x, c0y, 2 * scale),
            m1 == refine_model(initial_pos, whole, final_step),
            search@ == feed_all(m1, sads),
            sums_answered(subpixel_sad, m1, sads),
        ensures
            search_finished(search@),
        decreases search@.step_exp - search@.final_exp + 1, scan_count(search@) - search@.fed.len(),
    {
        match search.query() {
            None => {
                break ;
            },
            Some(p) => {
                proof {
                    search.lemma_query_within_budget();
                }
                proof {
                    assert(p == query_pos(search@));
                }
                match subpixel_sad(p.0, p.1) {
                    Err(e) => {
                        proof {
                            let t = search_outcome(m0, *image, *ref_block)->Ok_0;
                            assert((t.0 as i64, t.1 as i64) == whole);
                            assert(subpixel_sad.ensures(query_pos(feed_all(m1, sads)), Err::<u64, E>(e)));
                            assert(sums_answered(subpixel_sad, m1, sads) && !search_finished(
                                feed_all(m1, sads),
                            ));
                        }
                        return Err(TranslationError::Subpixel(e));
                    },
                    Ok(sad) => {
                        proof {
                            lemma_refinement_step(search@, sad, c0x, c0y, 2 * scale);
                            lemma_answer_one_more(subpixel_sad, m1, sads, sad);
                            sads = sads.push(sad);
                        }
                        search.feed(sad);
                    },
                }
            },
        }
    }
    proof {
        assert(c0x - initial_pos.0 * scale == whole.0 * scale) by (nonlinear_arith)
            requires
                c0x == (initial_pos.0 + whole.0) * scale,
        ;
        assert(c0y - initial_pos.1 * scale == whole.1 * scale) by (nonlinear_arith)
            requires
                c0y == (initial_pos.1 + whole.1) * scale,
        ;
        let t = search_outcome(m0, *image, *ref_block)->Ok_0;
        assert((t.0 as i64, t.1 as i64) == whole);
        assert(sums_answered(subpixel_sad, m1, sads) && search_finished(feed_all(m1, sads)));
    }
    Ok(search.translation())
}

/// The state of a search from `m` after receiving the sums `sads` in turn.
pub open spec fn feed_all(m: SearchModel, sads: Seq<u64>) -> SearchModel
    decreases sads.len(),
{
    if sads.len() == 0 {
        m
    } else {
        after_feed(feed_all(m, sads.drop_last()), sads.last())
    }
}

/// The next position that a search in state `m` checks.
pub open spec fn query_pos(m: SearchModel) -> (i64, i64) {
    (scan_pos(m, m.fed.len() as int).0 as i64, scan_pos(m, m.fed.len() as int).1 as i64)
}

/// The `j`-th of `sads` is what `f` answered at the position a search from `m` checked after
/// receiving the sums before it.
pub open spec fn answered_at<E, F: Fn(i64, i64) -> Result<u64, E>>(
    f: F,
    m: SearchModel,
    sads: Seq<u64>,
    j: int,
) -> bool {
    let mj = feed_all(m, sads.take(j));
    &&& !search_finished(mj)
    &&& f.ensures(query_pos(mj), Ok::<u64, E>(sads[j]))
}

/// Each of `sads` is what `f` answered at the position that a search from `m`, fed the sums
/// before it, checked.
pub open spec fn sums_answered<E, F: Fn(i64, i64) -> Result<u64, E>>(
    f: F,
    m: SearchModel,
    sads: Seq<u64>,
) -> bool {
    forall|j: int| 0 <= j < sads.len() ==> #[trigger] answered_at(f, m, sads, j)
}

proof fn lemma_answer_one_more<E, F: Fn(i64, i64) -> Result<u64, E>>(
    f: F,
    m: SearchModel,
    sads: Seq<u64>,
    sad: u64,
)
    requires
        sums_answered(f, m, sads),
        !search_finished(feed_all(m, sads)),
        f.ensures(query_pos(feed_all(m, sads)), Ok::<u64, E>(sad)),
    ensures
        sums_answered(f, m, sads.push(sad)),
        feed_all(m, sads.push(sad)) == after_feed(feed_all(m, sads), sad),
{
    let s2 = sads.push(sad);
    assert(s2.drop_last() =~= sads);
    assert(s2.take(sads.len() as int) =~= sads);
    assert forall|j: int| 0 <= j < s2.len() implies #[trigger] answered_at(f, m, s2, j) by {
        if j < sads.len() {
            assert(s2.take(j) =~= sads.take(j));
            assert(answered_at(f, m, sads, j));
        }
    }
}

/// A refinement from `(c0x, c0y)` stays within `bound` of it: what the current level and the
/// levels after it can still move the center, plus the current radius, is within `bound`.
spec fn within_refinement(m: SearchModel, c0x: int, c0y: int, bound: int) -> bool {
    &&& m.radius >= 1
    &&& !search_finished(m) ==> {
        &&& m.step_exp + m.shift >= 0
        &&& m.final_exp + m.shift >= 0
        &&& m.fed.len() <= scan_count(m)
        &&& abs_int(m.center_x - c0x) + m.radius + 2 * level_step(m) <= bound
        &&& abs_int(m.center_y - c0y) + m.radius + 2 * level_step(m) <= bound
    }
    &&& search_finished(m) ==> {
        &&& abs_int(m.center_x - c0x) + m.radius <= bound
        &&& abs_int(m.center_y - c0y) + m.radius <= bound
    }
}

/// Receiving a sum keeps a search within its refinement bound.
proof fn lemma_refinement_step(m: SearchModel, sad: u64, c0x: int, c0y: int, bound: int)
    requires
        !search_finished(m),
        m.fed.len() < scan_count(m),
        within_refinement(m, c0x, c0y, bound),
    ensures
        within_refinement(after_feed(m, sad), c0x, c0y, bound),
        after_feed(m, sad).initial_x == m.initial_x,
        after_feed(m, sad).initial_y == m.initial_y,
{
    let m2 = after_feed(m, sad);
    let st = level_step(m);
    lemma_pow2_pos((m.step_exp + m.shift) as nat);
    if m.fed.len() + 1 >= scan_count(m) {
        let sads = m.fed.push(sad);
        let i = first_min_index(sads);
        lemma_first_min_index(sads);
        if i >= 0 {
            lemma_scan_within_radius(m, i);
        }
        if !search_finished(m2) {
            lemma_pow2_unfold((m.step_exp + m.shift) as nat);
            assert(level_step(m2) * 2 == st);
            lemma_pow2_pos((m2.step_exp + m2.shift) as nat);
            vstd::arithmetic::div_mod::lemma_div_pos_is_pos(2 * m2.radius, level_step(m2));
            assert(scan_count(m2) > 0) by (nonlinear_arith)
                requires
                    scan_side(m2) >= 1,
                    scan_count(m2) == scan_side(m2) * scan_side(m2),
            ;
        }
    }
}

/// A search fails at the first position of its first level at which the block does not fit
/// within the image, whatever the later levels would check.
pub proof fn lemma_fails_at_first_outside_position(m: SearchModel, image: MonoImage, block: MonoImage)
    requires
        !search_finished(m),
        m.fed.len() == 0,
        first_outside(m, image, block, 0) >= 0,
    ensures
        search_outcome(m, image, block) == Err::<(int, int), (int, int)>(
            scan_pos(m, first_outside(m, image, block, 0)),
        ),
{
}
} // verus!
