//! Geometry of quality analysis: the part of the frames common to the whole stabilized video,
//! its division into estimation areas, and the candidate positions of the stabilization anchor.

use vstd::prelude::*;
use crate::image::{Rect, rect_has, rect_intersection};

verus! {

/// `a / b` rounded up.
pub fn updiv(a: usize, b: usize) -> (r: usize)
    requires
        b > 0,
        a + b <= usize::MAX,
    ensures
        r == (a + b - 1) / (b as int),
        r * b >= a,
        (r - 1) * b < a || r == 0,
{
    let r = (a + b - 1) / b;
    proof {
        vstd::arithmetic::div_mod::lemma_fundamental_div_mod((a + b - 1) as int, b as int);
        vstd::arithmetic::div_mod::lemma_mod_pos_bound((a + b - 1) as int, b as int);
        assert(b * r == r * b) by (nonlinear_arith);
        assert((r - 1) * b == r * b - b) by (nonlinear_arith);
    }
    r
}

/// The frame rectangle moved by `t`.
pub open spec fn translated_frame(img_size: (u32, u32), t: (i32, i32)) -> Rect {
    Rect { x: t.0, y: t.1, width: img_size.0, height: img_size.1 }
}

/// The part common to the frame and the frame moved by each of the first `k` translations.
pub open spec fn common_part(img_size: (u32, u32), translations: Seq<(i32, i32)>, k: int) -> Option<Rect>
    decreases k,
{
    if k <= 0 {
        Some(Rect { x: 0, y: 0, width: img_size.0, height: img_size.1 })
    } else {
        match common_part(img_size, translations, k - 1) {
            None => None,
            Some(r) => rect_intersection(r, translated_frame(img_size, translations[k - 1])),
        }
    }
}

/// The part of the frames common to all of them once each is moved by its translation;
/// `None` if they have no pixel in common.
pub fn find_intersection(img_size: (u32, u32), translations: &[(i32, i32)]) -> (r: Option<Rect>)
    ensures
        r == common_part(img_size, translations@, translations@.len() as int),
{
    let mut r = Rect { x: 0, y: 0, width: img_size.0, height: img_size.1 };
    let mut i: usize = 0;
    while i < translations.len()
        invariant
            0 <= i <= translations@.len(),
            common_part(img_size, translations@, i as int) == Some(r),
        decreases translations@.len() - i,
    {
        let t = translations[i];
        match r.intersection(&Rect { x: t.0, y: t.1, width: img_size.0, height: img_size.1 }) {
            Some(next) => r = next,
            None => {
                proof {
                    lemma_common_part_stays_empty(img_size, translations@, i as int + 1, translations@.len() as int);
                }
                return None;
            },
        }
        i = i + 1;
    }
    Some(r)
}

proof fn lemma_common_part_stays_empty(img_size: (u32, u32), ts: Seq<(i32, i32)>, k: int, n: int)
    requires
        0 <= k <= n,
        common_part(img_size, ts, k) is None,
    ensures
        common_part(img_size, ts, n) is None,
    decreases n - k,
{
    if k < n {
        lemma_common_part_stays_empty(img_size, ts, k + 1, n);
    }
}

/// The common part holds exactly the pixels that lie in the frame and in every moved frame.
pub proof fn lemma_common_part_pixels(img_size: (u32, u32), ts: Seq<(i32, i32)>, k: int, px: int, py: int)
    requires
        0 <= k <= ts.len(),
    ensures
        (match common_part(img_size, ts, k) {
            Some(r) => rect_has(r, px, py),
            None => false,
        }) <==> (rect_has(Rect { x: 0, y: 0, width: img_size.0, height: img_size.1 }, px, py)
            && forall|j: int| 0 <= j < k ==> rect_has(#[trigger] translated_frame(img_size, ts[j]), px, py)),
    decreases k,
{
    if k > 0 {
        lemma_common_part_pixels(img_size, ts, k - 1, px, py);
        if let Some(r) = common_part(img_size, ts, k - 1) {
            crate::image::lemma_intersection_pixels(r, translated_frame(img_size, ts[k - 1]), px, py);
        }
        if !rect_has(translated_frame(img_size, ts[k - 1]), px, py) {
            assert(!(forall|j: int| 0 <= j < k ==> rect_has(#[trigger] translated_frame(img_size, ts[j]), px, py)));
        }
    }
}

/// Rectangle of quality-estimation area `area_idx`: areas of `area_size` x `area_size` pixels,
/// `num_areas_horz` per row, cover the `region_width` x `region_height` region row after row;
/// those in the last column and row are cut to the region.
pub open spec fn area_rect(
    area_idx: int,
    num_areas_horz: int,
    area_size: int,
    region_width: int,
    region_height: int,
) -> Rect {
    let ax = (area_idx % num_areas_horz) * area_size;
    let ay = (area_idx / num_areas_horz) * area_size;
    Rect {
        x: ax as i32,
        y: ay as i32,
        width: crate::image::min_int(area_size as u32 as int, region_width - ax) as u32,
        height: crate::image::min_int(area_size as u32 as int, region_height - ay) as u32,
    }
}

/// The rectangle of quality-estimation area `area_idx`.
pub fn quality_area_rect(
    area_idx: usize,
    num_areas_horz: usize,
    area_size: usize,
    region_width: u32,
    region_height: u32,
) -> (r: Rect)
    requires
        num_areas_horz > 0,
        (area_idx % num_areas_horz) * area_size <= region_width,
        (area_idx / num_areas_horz) * area_size <= region_height,
    ensures
        r == area_rect(
            area_idx as int,
            num_areas_horz as int,
            area_size as int,
            region_width as int,
            region_height as int,
        ),
{
    let area_col = area_idx % num_areas_horz;
    let area_row = area_idx / num_areas_horz;
    proof {
        vstd::arithmetic::div_mod::lemma_div_pos_is_pos(area_idx as int, num_areas_horz as int);
        vstd::arithmetic::div_mod::lemma_mod_pos_bound(area_idx as int, num_areas_horz as int);
        assert(area_col * area_size >= 0) by (nonlinear_arith)
            requires
                area_col >= 0,
                area_size >= 0,
        ;
        assert(area_row * area_size >= 0) by (nonlinear_arith)
            requires
                area_row >= 0,
                area_size >= 0,
        ;
    }
    let area_x = area_col * area_size;
    let area_y = area_row * area_size;
    let aw = area_size as u32;
    let rw = region_width - area_x as u32;
    let rh = region_height - area_y as u32;
    Rect {
        x: area_x as i32,
        y: area_y as i32,
        width: if aw < rw { aw } else { rw },
        height: if aw < rh { aw } else { rh },
    }
}

/// With `updiv(w, a)` areas per row and `updiv(h, a)` rows of them, every pixel of the
/// `w` x `h` region lies in exactly one area, all of which lie within the region.
pub proof fn lemma_areas_tile_region(w: int, h: int, a: int, px: int, py: int)
    requires
        0 < a <= u32::MAX,
        0 <= w <= i32::MAX,
        0 <= h <= i32::MAX,
        0 <= px < w,
        0 <= py < h,
    ensures
        ({
            let nh = (w + a - 1) / a;
            let nv = (h + a - 1) / a;
            let idx = (py / a) * nh + px / a;
            &&& 0 <= idx < nh * nv
            &&& rect_has(area_rect(idx, nh, a, w, h), px, py)
            &&& forall|j: int|
                0 <= j < nh * nv && rect_has(#[trigger] area_rect(j, nh, a, w, h), px, py) ==> j == idx
        }),
{
    let nh = (w + a - 1) / a;
    let nv = (h + a - 1) / a;
    let cx = px / a;
    let cy = py / a;
    let idx = cy * nh + cx;
    lemma_div_facts(px, a);
    lemma_div_facts(py, a);
    lemma_div_facts(w + a - 1, a);
    lemma_div_facts(h + a - 1, a);
    // column and row indices are within the grid
    assert(cx < nh) by {
        lemma_lt_div(px, w, a);
    }
    assert(cy < nv) by {
        lemma_lt_div(py, h, a);
    }
    assert(cx * a <= px);
    lemma_grid_index(idx, nh, cx, cy);
    assert(idx < nh * nv) by (nonlinear_arith)
        requires
            idx == cy * nh + cx,
            0 <= cx < nh,
            0 <= cy < nv,
    ;
    assert(cx * a <= w) by (nonlinear_arith)
        requires
            cx * a <= px,
            px < w,
    ;
    assert forall|j: int|
        0 <= j < nh * nv && rect_has(#[trigger] area_rect(j, nh, a, w, h), px, py) implies j == idx by {
        lemma_div_facts(j, nh);
        let jx = j % nh;
        let jy = j / nh;
        if jy >= nv {
            assert(jy * nh >= nv * nh) by (nonlinear_arith)
                requires
                    jy >= nv,
                    nh > 0,
            ;
            assert(nv * nh == nh * nv) by (nonlinear_arith);
        }
        assert(jx * a <= (nh - 1) * a) by (nonlinear_arith)
            requires
                jx <= nh - 1,
                a > 0,
        ;
        assert(jy * a <= (nv - 1) * a) by (nonlinear_arith)
            requires
                jy <= nv - 1,
                a > 0,
        ;
        assert((nh - 1) * a == nh * a - a) by (nonlinear_arith);
        assert((nv - 1) * a == nv * a - a) by (nonlinear_arith);
        assert(jx * a >= 0) by (nonlinear_arith)
            requires
                jx >= 0,
                a > 0,
        ;
        assert(jy * a >= 0) by (nonlinear_arith)
            requires
                jy >= 0,
                a > 0,
        ;
        lemma_cell_unique(jx, px, a, w);
        lemma_cell_unique(jy, py, a, h);
        assert(j == jy * nh + jx);
    }
}

proof fn lemma_div_facts(x: int, d: int)
    requires
        x >= 0,
        d > 0,
    ensures
        x == (x / d) * d + x % d,
        0 <= x % d < d,
        0 <= x / d,
        (x / d) * d <= x,
        x < (x / d + 1) * d,
{
    vstd::arithmetic::div_mod::lemma_fundamental_div_mod(x, d);
    vstd::arithmetic::div_mod::lemma_mod_pos_bound(x, d);
    vstd::arithmetic::div_mod::lemma_div_pos_is_pos(x, d);
    assert(d * (x / d) == (x / d) * d) by (nonlinear_arith);
    assert((x / d + 1) * d == (x / d) * d + d) by (nonlinear_arith);
}

/// `x < w` puts `x / a` below `w / a` rounded up.
proof fn lemma_lt_div(x: int, w: int, a: int)
    requires
        0 <= x < w,
        a > 0,
    ensures
        x / a < (w + a - 1) / a,
{
    lemma_div_facts(x, a);
    lemma_div_facts(w + a - 1, a);
    let q = (w + a - 1) / a;
    if x / a >= q {
        assert((x / a) * a >= q * a) by (nonlinear_arith)
            requires
                x / a >= q,
                a > 0,
        ;
    }
}

proof fn lemma_grid_index(idx: int, nh: int, cx: int, cy: int)
    requires
        nh > 0,
        0 <= cx < nh,
        0 <= cy,
        idx == cy * nh + cx,
    ensures
        idx % nh == cx,
        idx / nh == cy,
{
    vstd::arithmetic::div_mod::lemma_fundamental_div_mod_converse(idx, nh, cy, cx);
}

/// Only the cell `p / a` of a row (or column) of `a`-sized cells holds `p`.
proof fn lemma_cell_unique(jx: int, p: int, a: int, w: int)
    requires
        jx >= 0,
        a > 0,
        0 <= p < w,
        (jx * a) <= p < jx * a + crate::image::min_int(a as u32 as int, w - jx * a),
        a <= u32::MAX,
    ensures
        jx == p / a,
{
    lemma_div_facts(p, a);
    let q = p / a;
    assert(a as u32 as int == a);
    if jx < q {
        assert((jx + 1) * a <= q * a) by (nonlinear_arith)
            requires
                jx + 1 <= q,
                a > 0,
        ;
        assert((jx + 1) * a == jx * a + a) by (nonlinear_arith);
    } else if jx > q {
        assert((q + 1) * a <= jx * a) by (nonlinear_arith)
            requires
                q + 1 <= jx,
                a > 0,
        ;
    }
}

/// Candidate positions of the stabilization anchor, `blk_size` x `blk_size` blocks in the
/// middle half of a `w` x `h` image, `blk_size / 2` apart.
pub open spec fn anchor_candidate(w: int, h: int, blk_size: int, i: int) -> (u32, u32) {
    let step = blk_size / 2;
    let nx = (3 * w / 4 - blk_size - w / 4) / step + 1;
    ((w / 4 + (i % nx) * step) as u32, (h / 4 + (i / nx) * step) as u32)
}

/// Number of candidate positions of the stabilization anchor.
pub open spec fn anchor_candidate_count(w: int, h: int, blk_size: int) -> int {
    let step = blk_size / 2;
    ((3 * w / 4 - blk_size - w / 4) / step + 1) * ((3 * h / 4 - blk_size - h / 4) / step + 1)
}

proof fn lemma_anchor_line(len: int, blk: int, j: int)
    requires
        blk >= 2,
        blk <= len / 4,
        0 <= j,
    ensures
        3 * len / 4 - blk - len / 4 >= 0,
        len / 4 + (j + 1) * (blk / 2) <= 3 * len / 4 - blk <==> j + 1 < (3 * len / 4 - blk - len / 4)
            / (blk / 2) + 1,
        (j + 1) * (blk / 2) == j * (blk / 2) + blk / 2,
{
    let st = blk / 2;
    let d = 3 * len / 4 - blk - len / 4;
    assert(3 * len / 4 >= 3 * (len / 4)) by {
        lemma_div_facts(len, 4);
        lemma_div_facts(3 * len, 4);
        if 3 * len / 4 < 3 * (len / 4) {
            assert((3 * len / 4 + 1) * 4 <= 3 * (len / 4) * 4) by (nonlinear_arith)
                requires
                    3 * len / 4 + 1 <= 3 * (len / 4),
            ;
        }
    }
    assert((j + 1) * st == j * st + st) by (nonlinear_arith);
    lemma_div_facts(d, st);
    let q = d / st;
    if j + 1 <= q {
        assert((j + 1) * st <= q * st) by (nonlinear_arith)
            requires
                j + 1 <= q,
                st > 0,
        ;
    } else {
        assert((j + 1) * st >= (q + 1) * st) by (nonlinear_arith)
            requires
                j + 1 >= q + 1,
                st > 0,
        ;
    }
}

/// The candidate positions of the stabilization anchor, rows from top to bottom, each from
/// left to right.
pub fn anchor_candidates(w: u32, h: u32, blk_size: u32) -> (r: Vec<(u32, u32)>)
    requires
        2 <= blk_size,
        blk_size <= w / 4,
        blk_size <= h / 4,
        3 * w <= u32::MAX,
        3 * h <= u32::MAX,
    ensures
        r.len() == anchor_candidate_count(w as int, h as int, blk_size as int),
        forall|i: int|
            0 <= i < r.len() ==> #[trigger] r[i] == anchor_candidate(w as int, h as int, blk_size as int, i),
{
    let ghost st = (blk_size / 2) as int;
    let ghost nx = (3 * w / 4 - blk_size - w / 4) / st + 1;
    let ghost ny = (3 * h / 4 - blk_size - h / 4) / st + 1;
    proof {
        lemma_anchor_line(w as int, blk_size as int, 0);
        lemma_anchor_line(h as int, blk_size as int, 0);
        lemma_div_facts((3 * w / 4 - blk_size - w / 4) as int, st);
        lemma_div_facts((3 * h / 4 - blk_size - h / 4) as int, st);
    }
    let mut r: Vec<(u32, u32)> = Vec::new();
    let y_end = 3 * h / 4 - blk_size;
    let x_end = 3 * w / 4 - blk_size;
    let mut y = h / 4;
    let ghost mut row: int = 0;
    while y <= y_end
        invariant
            st == blk_size / 2,
            st >= 1,
            2 <= blk_size <= w / 4,
            blk_size <= h / 4,
            3 * w <= u32::MAX,
            3 * h <= u32::MAX,
            y_end == 3 * h / 4 - blk_size,
            x_end == 3 * w / 4 - blk_size,
            nx == (3 * w / 4 - blk_size - w / 4) / st + 1,
            ny == (3 * h / 4 - blk_size - h / 4) / st + 1,
            nx >= 1,
            0 <= row,
            y == h / 4 + row * st,
            y <= y_end ==> row < ny,
            y > y_end ==> row == ny,
            r.len() == row * nx,
            forall|i: int|
                0 <= i < r.len() ==> #[trigger] r[i] == anchor_candidate(w as int, h as int, blk_size as int, i),
        decreases y_end + st - y,
    {
        let mut x = w / 4;
        let ghost mut col: int = 0;
        proof {
            lemma_anchor_line(w as int, blk_size as int, 0);
        }
        while x <= x_end
            invariant
                st == blk_size / 2,
                st >= 1,
                2 <= blk_size <= w / 4,
                3 * w <= u32::MAX,
                x_end == 3 * w / 4 - blk_size,
                nx == (3 * w / 4 - blk_size - w / 4) / st + 1,
                0 <= col,
                0 <= row,
                x == w / 4 + col * st,
                x <= x_end ==> col < nx,
                x > x_end ==> col == nx,
                y == h / 4 + row * st,
                r.len() == row * nx + col,
                forall|i: int|
                    0 <= i < r.len() ==> #[trigger] r[i] == anchor_candidate(
                        w as int,
                        h as int,
                        blk_size as int,
                        i,
                    ),
            decreases x_end + st - x,
        {
            proof {
                lemma_anchor_line(w as int, blk_size as int, col);
                lemma_grid_index(row * nx + col, nx, col, row);
            }
            r.push((x, y));
            x = x + blk_size / 2;
            proof {
                col = col + 1;
            }
        }
        proof {
            lemma_anchor_line(h as int, blk_size as int, row);
            assert(row * nx + nx == (row + 1) * nx) by (nonlinear_arith);
        }
        y = y + blk_size / 2;
        proof {
            row = row + 1;
        }
    }
    r
}

} // verus!
