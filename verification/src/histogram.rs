//! Histograms of 8-bit image areas, and histogram stretching.

use vstd::prelude::*;
use crate::blur::area_pixels;
use crate::image::{MonoImage, Rect};

verus! {

/// Number of the first `n` elements of `s` that equal `v`.
pub open spec fn value_count(s: Seq<int>, v: int, n: int) -> int
    decreases n,
{
    if n <= 0 {
        0
    } else {
        value_count(s, v, n - 1) + if s[n - 1] == v {
            1int
        } else {
            0
        }
    }
}

/// Offset in `img`'s buffer of the first pixel of `area`.
pub open spec fn area_offset(img: MonoImage, area: Rect) -> int {
    area.y * img.bytes_per_line + area.x
}

/// The pixels of `area`, line after line.
pub open spec fn area_values(img: MonoImage, area: Rect) -> Seq<int> {
    area_pixels(
        img.pixels@,
        area_offset(img, area),
        img.bytes_per_line as int,
        area.width as int,
        area.height as int,
    )
}

/// Reading `area` stays within `img`'s buffer.
pub open spec fn area_readable(img: MonoImage, area: Rect) -> bool {
    &&& area.x >= 0
    &&& area.y >= 0
    &&& area_offset(img, area) <= img.pixels@.len()
    &&& area.width > 0 && area.height > 0 ==> area_offset(img, area) + (area.height - 1) * img.bytes_per_line
        + area.width <= img.pixels@.len()
}

proof fn lemma_value_count_bound(s: Seq<int>, v: int, n: int)
    requires
        n >= 0,
    ensures
        0 <= value_count(s, v, n) <= n,
    decreases n,
{
    if n > 0 {
        lemma_value_count_bound(s, v, n - 1);
    }
}

/// Histogram of `area` of `img`: entry `v` counts the area's pixels of value `v`.
pub fn area_histogram(img: &MonoImage, area: &Rect) -> (hist: Vec<usize>)
    requires
        img.wf(),
        area_readable(*img, *area),
        area.width * area.height <= usize::MAX,
    ensures
        hist.len() == 256,
        forall|v: int|
            0 <= v < 256 ==> #[trigger] hist[v] as int == value_count(
                area_values(*img, *area),
                v,
                area.width * area.height,
            ),
        forall|v: int|
            0 <= v < 256 ==> #[trigger] hist[v] as int == Set::new(
                |p: (int, int)|
                    {
                        &&& area.x <= p.0 < area.x + area.width
                        &&& area.y <= p.1 < area.y + area.height
                        &&& img.pixel_at(p.0, p.1) == v
                    },
            ).len(),
{
    proof {
        assert forall|v: int| 0 <= v < 256 implies #[trigger] value_count(
            area_values(*img, *area),
            v,
            area.width * area.height,
        ) == Set::new(
            |p: (int, int)|
                {
                    &&& area.x <= p.0 < area.x + area.width
                    &&& area.y <= p.1 < area.y + area.height
                    &&& img.pixel_at(p.0, p.1) == v
                },
        ).len() by {
            lemma_area_histogram_counts_pixels(*img, *area, v);
        }
    }
    let mut histogram: Vec<usize> = vec![0usize; 256];
    let ghost vals = area_values(*img, *area);
    proof {
        assert forall|v: int| 0 <= v < 256 implies #[trigger] histogram[v] as int == value_count(vals, v, 0) by {
            assert(vstd::pervasive::cloned(0usize, histogram@[v]));
        }
    }
    let w = area.width as usize;
    let h = area.height as usize;
    if w == 0 || h == 0 {
        proof {
            assert(area.width * area.height == 0) by (nonlinear_arith)
                requires
                    area.width == 0 || area.height == 0,
            ;
        }
        return histogram;
    }
    let stride = img.bytes_per_line;
    let len = img.pixels.len();
    let ghost start = area_offset(*img, *area);
    proof {
        assert(0 <= area.y * stride) by (nonlinear_arith)
            requires
                area.y >= 0,
        ;
    }
    let start_ofs = area.y as usize * stride + area.x as usize;
    let mut row: usize = 0;
    while row < h
        invariant
            0 <= row <= h,
            w == area.width,
            h == area.height,
            w > 0,
            h > 0,
            stride == img.bytes_per_line,
            img.pixels@.len() == len,
            start_ofs == start,
            start == area_offset(*img, *area),
            start + (h - 1) * stride + w <= len,
            w * h <= usize::MAX,
            vals == area_values(*img, *area),
            histogram@.len() == 256,
            forall|v: int| 0 <= v < 256 ==> #[trigger] histogram[v] as int == value_count(vals, v, row * w),
        decreases h - row,
    {
        proof {
            assert(row * stride <= (h - 1) * stride) by (nonlinear_arith)
                requires
                    row <= h - 1,
                    stride >= 0,
            ;
        }
        let row_ofs = row * stride;
        let mut col: usize = 0;
        while col < w
            invariant
                0 <= col <= w,
                0 <= row < h,
                w == area.width,
                h == area.height,
                w > 0,
                stride == img.bytes_per_line,
                img.pixels@.len() == len,
                start_ofs == start,
                start == area_offset(*img, *area),
                row_ofs == row * stride,
                start + row_ofs + w <= len,
                w * h <= usize::MAX,
                vals == area_values(*img, *area),
                histogram@.len() == 256,
                forall|v: int| 0 <= v < 256 ==> #[trigger] histogram[v] as int == value_count(vals, v, row * w + col),
            decreases w - col,
        {
            let val = img.pixels[start_ofs + row_ofs + col];
            proof {
                let i = row * w + col;
                vstd::arithmetic::div_mod::lemma_fundamental_div_mod_converse(i, w as int, row as int, col as int);
                assert(i < w * h) by (nonlinear_arith)
                    requires
                        i == row * w + col,
                        col < w,
                        row < h,
                ;
                assert(i / (w as int) == row && i % (w as int) == col);
                assert(vals.len() == area.width * area.height);
                assert(0 <= i < vals.len());
                assert(start + (i / (w as int)) * stride + i % (w as int) == start_ofs + row_ofs + col);
                assert(vals[i] == img.pixels@[start + (i / (w as int)) * stride + i % (w as int)] as int);
                assert(vals[i] == val as int);
                lemma_value_count_bound(vals, val as int, i);
                assert forall|v: int| 0 <= v < 256 implies #[trigger] value_count(vals, v, i + 1) == value_count(
                    vals,
                    v,
                    i,
                ) + if v == val {
                    1int
                } else {
                    0
                } by {}
            }
            let c = histogram[val as usize];
            histogram.set(val as usize, c + 1);
            col = col + 1;
        }
        proof {
            assert(row * w + w == (row + 1) * w) by (nonlinear_arith);
            if row + 1 < h {
                assert((row + 1) * stride <= (h - 1) * stride) by (nonlinear_arith)
                    requires
                        row + 1 <= h - 1,
                        stride >= 0,
                ;
            }
        }
        row = row + 1;
    }
    proof {
        assert(h * w == w * h) by (nonlinear_arith);
    }
    histogram
}

/// Number of the first `n` entries of `hist` that are not zero.
pub open spec fn nonzero_count(hist: Seq<usize>, n: int) -> int
    decreases n,
{
    if n <= 0 {
        0
    } else {
        nonzero_count(hist, n - 1) + if hist[n - 1] > 0 {
            1int
        } else {
            0
        }
    }
}

/// Number of histogram entries that are not zero.
pub fn count_nonzero_bins(hist: &Vec<usize>) -> (r: usize)
    ensures
        r == nonzero_count(hist@, hist@.len() as int),
        r == hist@.filter(|x: usize| x > 0).len(),
{
    proof {
        lemma_nonzero_bins_counted(hist@);
    }
    let mut count: usize = 0;
    let mut i: usize = 0;
    while i < hist.len()
        invariant
            0 <= i <= hist@.len(),
            count == nonzero_count(hist@, i as int),
            count <= i,
        decreases hist@.len() - i,
    {
        if hist[i] > 0 {
            count = count + 1;
        }
        i = i + 1;
    }
    count
}

/// Index of the first non-zero entry, or `None` if all are zero.
pub fn first_nonzero_bin(hist: &Vec<usize>) -> (r: Option<usize>)
    ensures
        r is None ==> forall|j: int| 0 <= j < hist@.len() ==> #[trigger] hist@[j] == 0,
        r matches Some(i) ==> i < hist@.len() && hist@[i as int] > 0 && forall|j: int|
            0 <= j < i ==> #[trigger] hist@[j] == 0,
{
    let mut i: usize = 0;
    while i < hist.len()
        invariant
            0 <= i <= hist@.len(),
            forall|j: int| 0 <= j < i ==> #[trigger] hist@[j] == 0,
        decreases hist@.len() - i,
    {
        if hist[i] > 0 {
            return Some(i);
        }
        i = i + 1;
    }
    None
}

/// Index of the last non-zero entry, or `None` if all are zero.
pub fn last_nonzero_bin(hist: &Vec<usize>) -> (r: Option<usize>)
    ensures
        r is None ==> forall|j: int| 0 <= j < hist@.len() ==> #[trigger] hist@[j] == 0,
        r matches Some(i) ==> i < hist@.len() && hist@[i as int] > 0 && forall|j: int|
            i < j < hist@.len() ==> #[trigger] hist@[j] == 0,
{
    let mut i: usize = hist.len();
    while i > 0
        invariant
            0 <= i <= hist@.len(),
            forall|j: int| i <= j < hist@.len() ==> #[trigger] hist@[j] == 0,
        decreases i,
    {
        if hist[i - 1] > 0 {
            return Some(i - 1);
        }
        i = i - 1;
    }
    None
}

/// Number of histogram entries from the first non-zero one to the last non-zero one, or
/// `None` if all are zero.
pub fn histogram_width(hist: &Vec<usize>) -> (r: Option<usize>)
    ensures
        r is None <==> forall|j: int| 0 <= j < hist@.len() ==> #[trigger] hist@[j] == 0,
        r matches Some(wd) ==> exists|first: int, last: int|
            {
                &&& 0 <= first <= last < hist@.len()
                &&& hist@[first] > 0
                &&& hist@[last] > 0
                &&& forall|j: int| 0 <= j < first ==> #[trigger] hist@[j] == 0
                &&& forall|j: int| last < j < hist@.len() ==> #[trigger] hist@[j] == 0
                &&& wd == last - first + 1
            },
{
    let _n = hist.len();
    match first_nonzero_bin(hist) {
        None => None,
        Some(first) => {
            match last_nonzero_bin(hist) {
                None => None,
                Some(last) => {
                    proof {
                        if last < first {
                            assert(hist@[last as int] == 0);
                        }
                    }
                    Some(last - first + 1)
                },
            }
        },
    }
}

/// Value `v` after stretching the range `low ..= high` to `0 ..= 255`: values up to `low`
/// become 0, and values from `high` on become 255.
pub open spec fn stretched_value(v: u8, low: u8, high: u8) -> u8 {
    let d = if v > low {
        v - low
    } else {
        0
    };
    let q = 255 * d / ((high - low) as int);
    if q > 255 {
        255
    } else {
        q as u8
    }
}

/// Stretches the histogram of `image` so that `low ..= high` spans `0 ..= 255`; bytes beyond
/// each line's `width` pixels are left as they are.
pub fn stretch_histogram_mono8(image: &mut MonoImage, low: u8, high: u8)
    requires
        old(image).wf(),
        high > low,
    ensures
        final(image).wf(),
        final(image).width == old(image).width,
        final(image).height == old(image).height,
        final(image).bytes_per_line == old(image).bytes_per_line,
        forall|x: int, y: int|
            0 <= x < old(image).width && 0 <= y < old(image).height ==> #[trigger] final(image).pixel_at(x, y)
                == stretched_value(old(image).pixel_at(x, y), low, high),
        forall|i: int|
            0 <= i < old(image).pixels@.len() && i % (old(image).bytes_per_line as int) >= old(image).width
                ==> #[trigger] final(image).pixels@[i] == old(image).pixels@[i],
{
    let ghost old_img = image.pixels@;
    let w = image.width as usize;
    let h = image.height as usize;
    let stride = image.bytes_per_line;
    let len = image.pixels.len();
    let range = (high - low) as u32;
    let mut y: usize = 0;
    while y < h
        invariant
            0 <= y <= h,
            w == image.width,
            h == image.height,
            stride == image.bytes_per_line,
            stride >= w,
            image.pixels@.len() == len,
            len == stride * h,
            image.wf(),
            range == high - low,
            range > 0,
            forall|x: int, yy: int|
                0 <= x < w && 0 <= yy < y ==> #[trigger] image.pixels@[yy * stride + x] == stretched_value(
                    old_img[yy * stride + x],
                    low,
                    high,
                ),
            forall|i: int|
                0 <= i < len && (i >= y * stride || i % (stride as int) >= w) ==> #[trigger] image.pixels@[i]
                    == old_img[i],
        decreases h - y,
    {
        proof {
            assert((y + 1) * stride <= h * stride) by (nonlinear_arith)
                requires
                    y + 1 <= h,
                    stride >= 0,
            ;
            assert((y + 1) * stride == y * stride + stride) by (nonlinear_arith);
            assert(h * stride == stride * h) by (nonlinear_arith);
        }
        let line_ofs = y * stride;
        let mut x: usize = 0;
        while x < w
            invariant
                0 <= x <= w,
                0 <= y < h,
                w == image.width,
                h == image.height,
                stride == image.bytes_per_line,
                stride >= w,
                image.pixels@.len() == len,
                len == stride * h,
                image.wf(),
                line_ofs == y * stride,
                line_ofs + stride <= len,
                range == high - low,
                range > 0,
                forall|xx: int, yy: int|
                    0 <= xx < w && 0 <= yy < y ==> #[trigger] image.pixels@[yy * stride + xx] == stretched_value(
                        old_img[yy * stride + xx],
                        low,
                        high,
                    ),
                forall|xx: int| 0 <= xx < x ==> #[trigger] image.pixels@[line_ofs + xx] == stretched_value(
                    old_img[line_ofs + xx],
                    low,
                    high,
                ),
                forall|i: int|
                    0 <= i < len && (i >= line_ofs + x || i % (stride as int) >= w) ==> #[trigger] image.pixels@[i]
                        == old_img[i],
            decreases w - x,
        {
            let v = image.pixels[line_ofs + x];
            proof {
                vstd::arithmetic::div_mod::lemma_fundamental_div_mod_converse(
                    line_ofs + x,
                    stride as int,
                    y as int,
                    x as int,
                );
                assert(v == old_img[line_ofs + x]);
            }
            let d: u32 = if v > low {
                (v - low) as u32
            } else {
                0
            };
            let q = 255 * d / range;
            let nv: u8 = if q > 255 {
                255
            } else {
                q as u8
            };
            let ghost before = image.pixels@;
            image.pixels.set(line_ofs + x, nv);
            proof {
                assert forall|xx: int, yy: int|
                    0 <= xx < w && 0 <= yy < y implies #[trigger] image.pixels@[yy * stride + xx]
                    == stretched_value(old_img[yy * stride + xx], low, high) by {
                    assert(yy * stride + xx < line_ofs) by (nonlinear_arith)
                        requires
                            yy <= y - 1,
                            xx < w,
                            w <= stride,
                            line_ofs == y * stride,
                    ;
                }
                assert forall|i: int|
                    0 <= i < len && (i >= line_ofs + x + 1 || i % (stride as int) >= w) implies #[trigger] image.pixels@[i]
                    == old_img[i] by {
                    if i == line_ofs + x {
                        assert((line_ofs + x) % (stride as int) == x);
                    }
                }
            }
            x = x + 1;
        }
        proof {
            assert forall|xx: int, yy: int|
                0 <= xx < w && 0 <= yy < y + 1 implies #[trigger] image.pixels@[yy * stride + xx] == stretched_value(
                old_img[yy * stride + xx],
                low,
                high,
            ) by {
                if yy == y {
                    assert(image.pixels@[line_ofs + xx] == stretched_value(old_img[line_ofs + xx], low, high));
                }
            }
        }
        y = y + 1;
    }
    proof {
        assert forall|x: int, yy: int|
            0 <= x < w && 0 <= yy < h implies #[trigger] image.pixel_at(x, yy) == stretched_value(
            old_img[yy * stride + x],
            low,
            high,
        ) by {
            assert(image.pixels@[yy * stride + x] == stretched_value(old_img[yy * stride + x], low, high));
        }
    }
}


/// Sum, over the values `0 .. m`, of how many of the first `n` elements of `s` equal them.
pub open spec fn counts_total(s: Seq<int>, n: int, m: int) -> int
    decreases m,
{
    if m <= 0 {
        0
    } else {
        counts_total(s, n, m - 1) + value_count(s, m - 1, n)
    }
}

proof fn lemma_counts_total_step(s: Seq<int>, n: int, m: int)
    requires
        n > 0,
        m >= 0,
    ensures
        counts_total(s, n, m) == counts_total(s, n - 1, m) + if 0 <= s[n - 1] < m {
            1int
        } else {
            0
        },
    decreases m,
{
    if m > 0 {
        lemma_counts_total_step(s, n, m - 1);
    }
}

/// A histogram counts every pixel once: when all values lie in `0 .. 256`, the counts of the
/// first `n` values add up to `n`.
pub proof fn lemma_counts_total(s: Seq<int>, n: int)
    requires
        0 <= n <= s.len(),
        forall|i: int| 0 <= i < n ==> 0 <= #[trigger] s[i] < 256,
    ensures
        counts_total(s, n, 256) == n,
    decreases n,
{
    if n > 0 {
        lemma_counts_total(s, n - 1);
        lemma_counts_total_step(s, n, 256);
    } else {
        lemma_counts_total_zero(s, 256);
    }
}

proof fn lemma_counts_total_zero(s: Seq<int>, m: int)
    requires
        m >= 0,
    ensures
        counts_total(s, 0, m) == 0,
    decreases m,
{
    if m > 0 {
        lemma_counts_total_zero(s, m - 1);
    }
}

/// The histogram of an area counts each of its pixels once: its entries add up to the number of
/// pixels in the area.
pub proof fn lemma_histogram_total(img: MonoImage, area: Rect)
    ensures
        counts_total(area_values(img, area), area.width * area.height, 256) == area.width * area.height,
{
    let s = area_values(img, area);
    let n = area.width * area.height;
    assert(n >= 0) by (nonlinear_arith)
        requires
            n == area.width * area.height,
            area.width >= 0,
            area.height >= 0,
    ;
    assert forall|i: int| 0 <= i < n implies 0 <= #[trigger] s[i] < 256 by {}
    lemma_counts_total(s, n);
}

/// Stretching maps values up to `low` to 0 and values from `high` on to 255, and keeps the
/// order of values.
pub proof fn lemma_stretch_ends_and_order(v1: u8, v2: u8, low: u8, high: u8)
    requires
        high > low,
    ensures
        v1 <= low ==> stretched_value(v1, low, high) == 0,
        v1 >= high ==> stretched_value(v1, low, high) == 255,
        v1 <= v2 ==> stretched_value(v1, low, high) <= stretched_value(v2, low, high),
{
    let m = (high - low) as int;
    let d1: int = if v1 > low {
        v1 - low
    } else {
        0
    };
    let d2: int = if v2 > low {
        v2 - low
    } else {
        0
    };
    if v1 >= high {
        assert(255 * d1 >= 255 * m);
        vstd::arithmetic::div_mod::lemma_div_is_ordered(255 * m, 255 * d1, m);
        vstd::arithmetic::div_mod::lemma_div_by_multiple(255, m);
    }
    if v1 <= v2 {
        vstd::arithmetic::div_mod::lemma_div_is_ordered(255 * d1, 255 * d2, m);
    }
}

/// The pixels of `area` whose row-major index within the area is below `n` and whose value is `v`.
spec fn area_prefix_set(img: MonoImage, area: Rect, v: int, n: int) -> Set<(int, int)> {
    Set::new(
        |p: (int, int)|
            {
                &&& area.x <= p.0 < area.x + area.width
                &&& area.y <= p.1 < area.y + area.height
                &&& (p.1 - area.y) * area.width + (p.0 - area.x) < n
                &&& img.pixel_at(p.0, p.1) == v
            },
    )
}

proof fn lemma_area_prefix(img: MonoImage, area: Rect, v: int, n: int)
    requires
        0 <= n <= area.width * area.height,
    ensures
        area_prefix_set(img, area, v, n).finite(),
        area_prefix_set(img, area, v, n).len() == value_count(area_values(img, area), v, n),
    decreases n,
{
    let w = area.width as int;
    let s_n = area_prefix_set(img, area, v, n);
    if n == 0 {
        assert forall|p: (int, int)| !s_n.contains(p) by {
            if area.x <= p.0 < area.x + w && area.y <= p.1 {
                assert((p.1 - area.y) * w >= 0) by (nonlinear_arith)
                    requires
                        p.1 - area.y >= 0,
                        w >= 0,
                ;
            }
        }
        assert(s_n =~= Set::empty());
    } else {
        let i = n - 1;
        lemma_area_prefix(img, area, v, i);
        let prev = area_prefix_set(img, area, v, i);
        assert(w > 0) by (nonlinear_arith)
            requires
                0 <= i < w * area.height,
                w >= 0,
        ;
        vstd::arithmetic::div_mod::lemma_fundamental_div_mod(i, w);
        vstd::arithmetic::div_mod::lemma_mod_pos_bound(i, w);
        vstd::arithmetic::div_mod::lemma_div_pos_is_pos(i, w);
        let q = i / w;
        let r = i % w;
        assert(q < area.height) by (nonlinear_arith)
            requires
                i == w * q + r,
                0 <= r,
                i < w * area.height,
                w > 0,
        ;
        let pos = (area.x + r, area.y + q);
        assert((pos.1 - area.y) * w + (pos.0 - area.x) == i) by (nonlinear_arith)
            requires
                pos.1 - area.y == q,
                pos.0 - area.x == r,
                i == w * q + r,
        ;
        let vals = area_values(img, area);
        assert(vals.len() == w * area.height);
        assert((area.y + q) * img.bytes_per_line + (area.x + r) == area.y * img.bytes_per_line + area.x + q
            * img.bytes_per_line + r) by (nonlinear_arith);
        assert(vals[i] == img.pixel_at(pos.0, pos.1) as int);
        assert forall|p: (int, int)|
            area.x <= p.0 < area.x + w && area.y <= p.1 && (p.1 - area.y) * w + (p.0 - area.x) == i implies p
            == pos by {
            vstd::arithmetic::div_mod::lemma_fundamental_div_mod_converse(i, w, p.1 - area.y, p.0 - area.x);
        }
        if vals[i] == v {
            assert(s_n =~= prev.insert(pos));
            assert(!prev.contains(pos));
        } else {
            assert(s_n =~= prev);
        }
    }
}

/// Entry `v` of an area's histogram is the number of pixels `(x, y)` of the area at which the
/// image has value `v`.
pub proof fn lemma_area_histogram_counts_pixels(img: MonoImage, area: Rect, v: int)
    ensures
        Set::new(
            |p: (int, int)|
                {
                    &&& area.x <= p.0 < area.x + area.width
                    &&& area.y <= p.1 < area.y + area.height
                    &&& img.pixel_at(p.0, p.1) == v
                },
        ).finite(),
        value_count(area_values(img, area), v, area.width * area.height) == Set::new(
            |p: (int, int)|
                {
                    &&& area.x <= p.0 < area.x + area.width
                    &&& area.y <= p.1 < area.y + area.height
                    &&& img.pixel_at(p.0, p.1) == v
                },
        ).len(),
{
    let w = area.width as int;
    let h = area.height as int;
    assert(0 <= w * h) by (nonlinear_arith)
        requires
            w >= 0,
            h >= 0,
    ;
    lemma_area_prefix(img, area, v, w * h);
    let all = Set::new(
        |p: (int, int)|
            {
                &&& area.x <= p.0 < area.x + area.width
                &&& area.y <= p.1 < area.y + area.height
                &&& img.pixel_at(p.0, p.1) == v
            },
    );
    assert forall|p: (int, int)| all.contains(p) implies (p.1 - area.y) * w + (p.0 - area.x) < w * h by {
        assert((p.1 - area.y) * w + (p.0 - area.x) < w * h) by (nonlinear_arith)
            requires
                0 <= p.1 - area.y < h,
                0 <= p.0 - area.x < w,
        ;
    }
    assert(all =~= area_prefix_set(img, area, v, w * h));
}

/// The number of non-zero entries of a histogram is the length of the sequence of its entries
/// that are above zero, counted from index 0 on.
pub proof fn lemma_nonzero_bins_counted(hist: Seq<usize>)
    ensures
        nonzero_count(hist, hist.len() as int) == hist.filter(|x: usize| x > 0).len(),
    decreases hist.len(),
{
    if hist.len() > 0 {
        let init = hist.drop_last();
        lemma_nonzero_bins_counted(init);
        assert(init.push(hist.last()) =~= hist);
        init.lemma_filter_push(hist.last(), |x: usize| x > 0);
        lemma_nonzero_count_prefix(hist, hist.len() as int - 1);
    } else {
        reveal(Seq::filter);
    }
}

proof fn lemma_nonzero_count_prefix(hist: Seq<usize>, n: int)
    requires
        0 <= n <= hist.len(),
    ensures
        nonzero_count(hist, n) == nonzero_count(hist.take(n), n),
    decreases n,
{
    if n > 0 {
        lemma_nonzero_count_prefix(hist, n - 1);
        lemma_nonzero_count_prefix(hist.take(n), n - 1);
        assert(hist.take(n).take(n - 1) =~= hist.take(n - 1));
    }
}

} // verus!
