//! 8-bit grayscale images and integer rectangles.

use vstd::prelude::*;

verus! {

/// An axis-aligned rectangle of pixels: `width` x `height` pixels starting at `(x, y)`.
#[derive(Clone, Copy, Debug, PartialEq, Eq, Structural)]
pub struct Rect {
    pub x: i32,
    pub y: i32,
    pub width: u32,
    pub height: u32,
}

/// Pixel `(px, py)` lies in rectangle `r`.
pub open spec fn rect_has(r: Rect, px: int, py: int) -> bool {
    &&& r.x <= px < r.x + r.width
    &&& r.y <= py < r.y + r.height
}

/// Rectangle `inner` lies within rectangle `outer`.
pub open spec fn rect_within(outer: Rect, inner: Rect) -> bool {
    &&& outer.x <= inner.x
    &&& outer.y <= inner.y
    &&& inner.x + inner.width <= outer.x + outer.width
    &&& inner.y + inner.height <= outer.y + outer.height
}

/// The smaller of two integers.
pub open spec fn min_int(a: int, b: int) -> int {
    if a < b {
        a
    } else {
        b
    }
}

/// The larger of two integers.
pub open spec fn max_int(a: int, b: int) -> int {
    if a < b {
        b
    } else {
        a
    }
}

/// The common part of two rectangles; `None` when they share no pixel.
pub open spec fn rect_intersection(a: Rect, b: Rect) -> Option<Rect> {
    let x0 = max_int(a.x as int, b.x as int);
    let y0 = max_int(a.y as int, b.y as int);
    let x1 = min_int(a.x + a.width, b.x + b.width);
    let y1 = min_int(a.y + a.height, b.y + b.height);
    if x0 < x1 && y0 < y1 {
        Some(Rect { x: x0 as i32, y: y0 as i32, width: (x1 - x0) as u32, height: (y1 - y0) as u32 })
    } else {
        None
    }
}

impl Rect {
    /// Tells whether `other` lies within this rectangle.
    pub fn contains_rect(&self, other: &Rect) -> (r: bool)
        ensures
            r == rect_within(*self, *other),
    {
        let sx = self.x as i64;
        let sy = self.y as i64;
        let ox = other.x as i64;
        let oy = other.y as i64;
        sx <= ox && sy <= oy && ox + other.width as i64 <= sx + self.width as i64 && oy
            + other.height as i64 <= sy + self.height as i64
    }

    /// The common part of this rectangle and `other`, or `None` if they share no pixel.
    pub fn intersection(&self, other: &Rect) -> (r: Option<Rect>)
        ensures
            r == rect_intersection(*self, *other),
    {
        let x0 = if self.x < other.x { other.x } else { self.x };
        let y0 = if self.y < other.y { other.y } else { self.y };
        let ax1 = self.x as i64 + self.width as i64;
        let bx1 = other.x as i64 + other.width as i64;
        let ay1 = self.y as i64 + self.height as i64;
        let by1 = other.y as i64 + other.height as i64;
        let x1 = if ax1 < bx1 { ax1 } else { bx1 };
        let y1 = if ay1 < by1 { ay1 } else { by1 };
        if (x0 as i64) < x1 && (y0 as i64) < y1 {
            Some(Rect { x: x0, y: y0, width: (x1 - x0 as i64) as u32, height: (y1 - y0 as i64) as u32 })
        } else {
            None
        }
    }
}

/// The intersection of two rectangles holds exactly the pixels that lie in both.
pub proof fn lemma_intersection_pixels(a: Rect, b: Rect, px: int, py: int)
    ensures
        match rect_intersection(a, b) {
            Some(i) => rect_has(i, px, py) <==> (rect_has(a, px, py) && rect_has(b, px, py)),
            None => !(rect_has(a, px, py) && rect_has(b, px, py)),
        },
{
}

/// Rectangle `r` grown by `delta` pixels on each side.
pub fn modify_rect(r: &Rect, delta: i32) -> (m: Rect)
    requires
        delta >= 0,
        r.x - delta >= i32::MIN,
        r.y - delta >= i32::MIN,
        r.width + 2 * delta <= u32::MAX,
        r.height + 2 * delta <= u32::MAX,
    ensures
        m.x == r.x - delta,
        m.y == r.y - delta,
        m.width == r.width + 2 * delta,
        m.height == r.height + 2 * delta,
{
    Rect {
        x: r.x - delta,
        y: r.y - delta,
        width: r.width + 2 * delta as u32,
        height: r.height + 2 * delta as u32,
    }
}

/// An 8-bit grayscale image stored line after line, `bytes_per_line` bytes apart.
pub struct MonoImage {
    pub width: u32,
    pub height: u32,
    pub bytes_per_line: usize,
    pub pixels: Vec<u8>,
}

impl MonoImage {
    /// Lines hold at least `width` pixels and the buffer holds exactly `height` lines.
    pub open spec fn wf(&self) -> bool {
        &&& self.bytes_per_line >= self.width
        &&& self.pixels@.len() == self.bytes_per_line * self.height
    }

    /// Value of pixel `(x, y)`.
    pub open spec fn pixel_at(&self, x: int, y: int) -> u8 {
        self.pixels@[y * self.bytes_per_line + x]
    }

    /// A black image with lines of exactly `width` pixels.
    pub fn new(width: u32, height: u32) -> (img: MonoImage)
        requires
            width * height <= usize::MAX,
        ensures
            img.wf(),
            img.width == width,
            img.height == height,
            img.bytes_per_line == width,
            forall|i: int| 0 <= i < img.pixels@.len() ==> #[trigger] img.pixels@[i] == 0,
    {
        let n = width as usize * height as usize;
        let pixels = vec![0u8; n];
        proof {
            assert forall|i: int| 0 <= i < pixels@.len() implies #[trigger] pixels@[i] == 0 by {
                assert(vstd::pervasive::cloned(0u8, pixels@[i]));
            }
        }
        MonoImage { width, height, bytes_per_line: width as usize, pixels }
    }

    /// An image made of the given pixel buffer, or `None` if the buffer does not hold
    /// `height` lines of `bytes_per_line >= width` bytes.
    pub fn from_raw(width: u32, height: u32, bytes_per_line: usize, pixels: Vec<u8>) -> (r: Option<
        MonoImage,
    >)
        ensures
            r is Some <==> (bytes_per_line >= width && pixels@.len() == bytes_per_line * height),
            r matches Some(img) ==> {
                &&& img.wf()
                &&& img.width == width
                &&& img.height == height
                &&& img.bytes_per_line == bytes_per_line
                &&& img.pixels@ == pixels@
            },
    {
        if bytes_per_line < width as usize {
            return None;
        }
        let len = pixels.len();
        if height == 0 {
            if len == 0 {
                return Some(MonoImage { width, height, bytes_per_line, pixels });
            }
            return None;
        }
        if len / (height as usize) == bytes_per_line && len % (height as usize) == 0 {
            proof {
                vstd::arithmetic::div_mod::lemma_fundamental_div_mod(len as int, height as int);
                assert(len == height * (len / (height as usize)) + len % (height as usize));
                assert(height * bytes_per_line == bytes_per_line * height) by (nonlinear_arith);
            }
            Some(MonoImage { width, height, bytes_per_line, pixels })
        } else {
            proof {
                if len == bytes_per_line * height {
                    vstd::arithmetic::div_mod::lemma_fundamental_div_mod_converse(
                        len as int,
                        height as int,
                        bytes_per_line as int,
                        0,
                    );
                }
            }
            None
        }
    }

    /// Width in pixels.
    pub fn width(&self) -> (r: u32)
        ensures
            r == self.width,
    {
        self.width
    }

    /// Height in pixels.
    pub fn height(&self) -> (r: u32)
        ensures
            r == self.height,
    {
        self.height
    }

    /// Distance between the starts of consecutive lines, in bytes.
    pub fn bytes_per_line(&self) -> (r: usize)
        ensures
            r == self.bytes_per_line,
    {
        self.bytes_per_line
    }

    /// The rectangle `(0, 0)`, `width` x `height`.
    pub fn img_rect(&self) -> (r: Rect)
        ensures
            r == (Rect { x: 0, y: 0, width: self.width, height: self.height }),
    {
        Rect { x: 0, y: 0, width: self.width, height: self.height }
    }
}

} // verus!
