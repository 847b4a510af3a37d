//! Bookkeeping of a video's alignment: where the reference block is, and how far each frame
//! lies from the first one.

use vstd::prelude::*;
use crate::image::{modify_rect, Rect};

verus! {

/// Shifts of the frames aligned so far, each relative to the first frame (whose own shift is
/// zero), and the rectangle of the reference block in the last frame aligned.
pub struct AlignmentTrack {
    shifts: Vec<(i64, i64)>,
    ref_block_rect: Rect,
}

impl AlignmentTrack {
    /// The first frame's shift is zero.
    pub open spec fn wf(&self) -> bool {
        self.shifts_spec().len() >= 1 && self.shifts_spec()[0] == (0i64, 0i64)
    }

    /// Shifts of the frames recorded so far, the first frame's included.
    pub closed spec fn shifts_spec(&self) -> Seq<(i64, i64)> {
        self.shifts@
    }

    /// The reference block's rectangle in the last frame recorded.
    pub closed spec fn rect_spec(&self) -> Rect {
        self.ref_block_rect
    }

    /// A track of the first frame alone, with the reference block at `ref_block_rect`.
    pub fn new(ref_block_rect: Rect) -> (t: AlignmentTrack)
        ensures
            t.wf(),
            t.shifts_spec() == seq![(0i64, 0i64)],
            t.rect_spec() == ref_block_rect,
    {
        let mut shifts = Vec::new();
        shifts.push((0i64, 0i64));
        AlignmentTrack { shifts, ref_block_rect }
    }

    /// Records the next frame, in which the reference block was found moved by `t` from where
    /// it was in the previous frame: the frame lies `t` closer to the first frame's origin than
    /// the previous one, and the reference block moves by `t`.
    pub fn record(&mut self, t: (i64, i64))
        requires
            old(self).wf(),
            i64::MIN <= old(self).shifts_spec().last().0 - t.0 <= i64::MAX,
            i64::MIN <= old(self).shifts_spec().last().1 - t.1 <= i64::MAX,
            i32::MIN <= old(self).rect_spec().x + t.0 <= i32::MAX,
            i32::MIN <= old(self).rect_spec().y + t.1 <= i32::MAX,
        ensures
            final(self).wf(),
            final(self).shifts_spec() == old(self).shifts_spec().push(
                (
                    (old(self).shifts_spec().last().0 - t.0) as i64,
                    (old(self).shifts_spec().last().1 - t.1) as i64,
                ),
            ),
            final(self).rect_spec() == (Rect {
                x: (old(self).rect_spec().x + t.0) as i32,
                y: (old(self).rect_spec().y + t.1) as i32,
                ..old(self).rect_spec()
            }),
    {
        let prev = self.shifts[self.shifts.len() - 1];
        self.shifts.push((prev.0 - t.0, prev.1 - t.1));
        self.ref_block_rect.x = (self.ref_block_rect.x as i64 + t.0) as i32;
        self.ref_block_rect.y = (self.ref_block_rect.y as i64 + t.1) as i32;
    }

    /// The shifts of all frames recorded, the first frame's included.
    pub fn shifts(&self) -> (r: &Vec<(i64, i64)>)
        ensures
            r@ == self.shifts_spec(),
    {
        &self.shifts
    }

    /// The reference block's rectangle in the last frame recorded.
    pub fn ref_block_rect(&self) -> (r: Rect)
        ensures
            r == self.rect_spec(),
    {
        self.ref_block_rect
    }

    /// The area of the next frame to search: the reference block's rectangle grown by `delta`
    /// pixels on each side.
    pub fn search_area(&self, delta: i32) -> (r: Rect)
        requires
            delta >= 0,
            self.rect_spec().x - delta >= i32::MIN,
            self.rect_spec().y - delta >= i32::MIN,
            self.rect_spec().width + 2 * delta <= u32::MAX,
            self.rect_spec().height + 2 * delta <= u32::MAX,
        ensures
            r.x == self.rect_spec().x - delta,
            r.y == self.rect_spec().y - delta,
            r.width == self.rect_spec().width + 2 * delta,
            r.height == self.rect_spec().height + 2 * delta,
    {
        modify_rect(&self.ref_block_rect, delta)
    }
}

/// Sum of the first `k` block shifts recorded, component by component.
pub open spec fn shift_sum(ts: Seq<(i64, i64)>, k: int) -> (int, int)
    decreases k,
{
    if k <= 0 {
        (0, 0)
    } else {
        let s = shift_sum(ts, k - 1);
        (s.0 + ts[k - 1].0, s.1 + ts[k - 1].1)
    }
}

/// Recording block shifts `ts` one after another leaves frame `k` shifted from the first frame
/// by minus the sum of the first `k` block shifts.
pub proof fn lemma_shifts_accumulate(frames: Seq<(i64, i64)>, ts: Seq<(i64, i64)>)
    requires
        frames.len() == ts.len() + 1,
        frames[0] == (0i64, 0i64),
        forall|k: int|
            0 <= k < ts.len() ==> #[trigger] frames[k + 1] == ((frames[k].0 - ts[k].0) as i64, (frames[k].1
                - ts[k].1) as i64) && i64::MIN <= frames[k].0 - ts[k].0 <= i64::MAX && i64::MIN
                <= frames[k].1 - ts[k].1 <= i64::MAX,
    ensures
        forall|k: int|
            #![trigger frames[k]]
            0 <= k < frames.len() ==> frames[k].0 == -shift_sum(ts, k).0 && frames[k].1 == -shift_sum(ts, k).1,
{
    assert forall|k: int| #![trigger frames[k]] 0 <= k < frames.len() implies frames[k].0 == -shift_sum(ts, k).0
        && frames[k].1 == -shift_sum(ts, k).1 by {
        lemma_shifts_prefix(frames, ts, k);
    }
}

proof fn lemma_shifts_prefix(frames: Seq<(i64, i64)>, ts: Seq<(i64, i64)>, k: int)
    requires
        frames.len() == ts.len() + 1,
        frames[0] == (0i64, 0i64),
        forall|k: int|
            0 <= k < ts.len() ==> #[trigger] frames[k + 1] == ((frames[k].0 - ts[k].0) as i64, (frames[k].1
                - ts[k].1) as i64) && i64::MIN <= frames[k].0 - ts[k].0 <= i64::MAX && i64::MIN
                <= frames[k].1 - ts[k].1 <= i64::MAX,
        0 <= k < frames.len(),
    ensures
        frames[k].0 == -shift_sum(ts, k).0,
        frames[k].1 == -shift_sum(ts, k).1,
    decreases k,
{
    if k > 0 {
        lemma_shifts_prefix(frames, ts, k - 1);
        assert(frames[(k - 1) + 1] == ((frames[k - 1].0 - ts[k - 1].0) as i64, (frames[k - 1].1 - ts[k
            - 1].1) as i64));
    }
}

} // verus!
