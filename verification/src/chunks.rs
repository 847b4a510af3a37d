//! Splitting a video's frames into consecutive chunks.

use vstd::prelude::*;
use crate::image::min_int;

verus! {

/// A chunk of frames `first_frame .. end_frame` (0-based, end excluded); `number` is 1-based.
#[derive(Clone, Copy, Debug, PartialEq, Eq, Structural)]
pub struct FrameChunk {
    pub number: usize,
    pub first_frame: usize,
    pub end_frame: usize,
}

/// How many chunks of `frames_per_chunk` frames start before `num_images` when the first one
/// starts at `start`.
pub open spec fn chunks_available(num_images: int, start: int, frames_per_chunk: int) -> int {
    if start >= num_images {
        0
    } else {
        (num_images - start + frames_per_chunk - 1) / frames_per_chunk
    }
}

/// Number of chunks: those that start before the last frame, at most `num_chunks` of them.
pub open spec fn chunk_count(
    num_images: int,
    first_frame: int,
    frames_per_chunk: int,
    num_chunks: Option<usize>,
) -> int {
    let start = first_frame - 1;
    if start >= num_images {
        0
    } else if frames_per_chunk == 0 {
        match num_chunks {
            Some(n) => n as int,
            None => 0,
        }
    } else {
        match num_chunks {
            Some(n) => min_int(n as int, chunks_available(num_images, start, frames_per_chunk)),
            None => chunks_available(num_images, start, frames_per_chunk),
        }
    }
}

/// Chunk `i`: `frames_per_chunk` frames from frame `first_frame - 1 + i * frames_per_chunk`,
/// cut short by the video's end.
pub open spec fn chunk_at(num_images: int, first_frame: int, frames_per_chunk: int, i: int) -> FrameChunk {
    let begin = first_frame - 1 + i * frames_per_chunk;
    FrameChunk {
        number: (i + 1) as usize,
        first_frame: begin as usize,
        end_frame: min_int(begin + frames_per_chunk, num_images) as usize,
    }
}

/// What `plan_chunks` needs to terminate without overflow.
pub open spec fn chunk_plan_fits(
    num_images: usize,
    first_frame: usize,
    num_chunk_frames: usize,
    num_chunks: Option<usize>,
) -> bool {
    &&& first_frame >= 1
    &&& num_chunk_frames > 0 || num_chunks is Some
    &&& num_images + num_chunk_frames <= usize::MAX
}

proof fn lemma_chunk_start(num_images: int, start: int, cf: int, i: int)
    requires
        cf > 0,
        0 <= start < num_images,
        i >= 0,
    ensures
        start + i * cf < num_images <==> i < chunks_available(num_images, start, cf),
        (i + 1) * cf == i * cf + cf,
        i * cf >= 0,
{
    let q = chunks_available(num_images, start, cf);
    let d = num_images - start;
    assert((i + 1) * cf == i * cf + cf) by (nonlinear_arith);
    assert(i * cf >= 0) by (nonlinear_arith)
        requires
            i >= 0,
            cf > 0,
    ;
    vstd::arithmetic::div_mod::lemma_fundamental_div_mod(d + cf - 1, cf);
    vstd::arithmetic::div_mod::lemma_mod_pos_bound(d + cf - 1, cf);
    assert(cf * q == q * cf) by (nonlinear_arith);
    if i < q {
        assert(i * cf <= (q - 1) * cf) by (nonlinear_arith)
            requires
                i <= q - 1,
                cf > 0,
        ;
        assert((q - 1) * cf == q * cf - cf) by (nonlinear_arith);
    } else {
        assert(i * cf >= q * cf) by (nonlinear_arith)
            requires
                i >= q,
                cf > 0,
        ;
    }
}

/// The chunks that `num_chunk_frames`-frame pieces of a video of `num_images` frames form,
/// starting at the 1-based frame `first_frame`, at most `num_chunks` of them if given.
pub fn plan_chunks(
    num_images: usize,
    first_frame: usize,
    num_chunk_frames: usize,
    num_chunks: Option<usize>,
) -> (chunks: Vec<FrameChunk>)
    requires
        chunk_plan_fits(num_images, first_frame, num_chunk_frames, num_chunks),
    ensures
        chunks.len() == chunk_count(num_images as int, first_frame as int, num_chunk_frames as int, num_chunks),
        forall|i: int|
            0 <= i < chunks.len() ==> #[trigger] chunks[i] == chunk_at(
                num_images as int,
                first_frame as int,
                num_chunk_frames as int,
                i,
            ),
{
    let ghost count = chunk_count(num_images as int, first_frame as int, num_chunk_frames as int, num_chunks);
    let ghost start = first_frame - 1;
    let ghost cf = num_chunk_frames as int;
    let mut chunks: Vec<FrameChunk> = Vec::new();
    let mut src_frame_idx = first_frame - 1;
    let mut chunk_idx: usize = 0;
    loop
        invariant
            chunk_plan_fits(num_images, first_frame, num_chunk_frames, num_chunks),
            start == first_frame - 1,
            cf == num_chunk_frames,
            count == chunk_count(num_images as int, first_frame as int, cf, num_chunks),
            chunk_idx <= count,
            chunks.len() == chunk_idx,
            src_frame_idx == start + chunk_idx * cf,
            forall|i: int|
                0 <= i < chunks.len() ==> #[trigger] chunks[i] == chunk_at(
                    num_images as int,
                    first_frame as int,
                    cf,
                    i,
                ),
        ensures
            chunks.len() == count,
            forall|i: int|
                0 <= i < chunks.len() ==> #[trigger] chunks[i] == chunk_at(
                    num_images as int,
                    first_frame as int,
                    cf,
                    i,
                ),
        decreases count - chunk_idx,
    {
        proof {
            if cf > 0 && start < num_images {
                lemma_chunk_start(num_images as int, start, cf, chunk_idx as int);
            } else if cf == 0 {
                assert(chunk_idx * cf == 0);
            }
        }
        let more_chunks = match num_chunks {
            Some(n) => chunk_idx < n,
            None => true,
        };
        if !(src_frame_idx < num_images && more_chunks) {
            proof {
                if start >= num_images && cf > 0 {
                    assert(chunk_idx * cf >= 0) by (nonlinear_arith)
                        requires
                            cf > 0,
                    ;
                }
            }
            break ;
        }
        proof {
            if start >= num_images && cf > 0 {
                assert(chunk_idx * cf >= 0) by (nonlinear_arith)
                    requires
                        cf > 0,
                ;
            }
        }
        let end_candidate = src_frame_idx + num_chunk_frames;
        let end_frame = if end_candidate < num_images {
            end_candidate
        } else {
            num_images
        };
        chunks.push(FrameChunk { number: chunk_idx + 1, first_frame: src_frame_idx, end_frame });
        src_frame_idx = src_frame_idx + num_chunk_frames;
        chunk_idx = chunk_idx + 1;
        proof {
            assert(chunk_idx * cf == (chunk_idx - 1) * cf + cf) by (nonlinear_arith);
        }
    }
    chunks
}

/// The number of frames from the 1-based frame `first_frame` to the last frame that the
/// chunks can reach: `num_chunks` chunks of `num_chunk_frames` frames if given, else the video's end.
pub fn frames_to_process(
    num_images: usize,
    first_frame: usize,
    num_chunk_frames: usize,
    num_chunks: Option<usize>,
) -> (r: usize)
    requires
        num_images >= 1,
        first_frame >= 1,
        num_chunks matches Some(n) ==> first_frame - 1 + n * num_chunk_frames <= usize::MAX,
        first_frame - 1 <= min_int(
            num_images - 1,
            match num_chunks {
                Some(n) => first_frame - 1 + n * num_chunk_frames,
                None => num_images - 1,
            },
        ),
    ensures
        r == min_int(
            num_images - 1,
            match num_chunks {
                Some(n) => first_frame - 1 + n * num_chunk_frames,
                None => num_images - 1,
            },
        ) - (first_frame - 1) + 1,
{
    let first_src_frame = first_frame - 1;
    let reach = match num_chunks {
        Some(n) => first_src_frame + n * num_chunk_frames,
        None => num_images - 1,
    };
    let last_src_frame = if num_images - 1 < reach {
        num_images - 1
    } else {
        reach
    };
    last_src_frame - first_src_frame + 1
}

/// Consecutive chunks meet: each one starts where the previous one would end without the
/// video's end, and all but a chunk cut by the video's end hold `num_chunk_frames` frames.
pub proof fn lemma_chunks_consecutive(num_images: int, first_frame: int, num_chunk_frames: int, i: int)
    requires
        num_images >= 0,
        first_frame >= 1,
        num_chunk_frames >= 0,
        i >= 0,
        first_frame - 1 + (i + 1) * num_chunk_frames <= usize::MAX,
        num_images <= usize::MAX,
    ensures
        chunk_at(num_images, first_frame, num_chunk_frames, i + 1).first_frame == chunk_at(
            num_images,
            first_frame,
            num_chunk_frames,
            i,
        ).first_frame + num_chunk_frames,
        chunk_at(num_images, first_frame, num_chunk_frames, i).first_frame + num_chunk_frames
            <= num_images ==> chunk_at(num_images, first_frame, num_chunk_frames, i).end_frame
            == chunk_at(num_images, first_frame, num_chunk_frames, i + 1).first_frame,
{
    assert((i + 1) * num_chunk_frames == i * num_chunk_frames + num_chunk_frames) by (nonlinear_arith);
    assert(i * num_chunk_frames >= 0) by (nonlinear_arith)
        requires
            i >= 0,
            num_chunk_frames >= 0,
    ;
}

/// With chunks of at least one frame, every frame from the first one requested to the video's
/// end that lies within the chunks' reach belongs to exactly one chunk: chunk `(f - start) / n`.
pub proof fn lemma_frame_in_one_chunk(
    num_images: usize,
    first_frame: usize,
    num_chunk_frames: usize,
    num_chunks: Option<usize>,
    f: int,
)
    requires
        chunk_plan_fits(num_images, first_frame, num_chunk_frames, num_chunks),
        num_chunk_frames > 0,
        first_frame - 1 <= f < num_images,
        num_chunks matches Some(n) ==> f < first_frame - 1 + n * num_chunk_frames,
    ensures
        ({
            let i = (f - (first_frame - 1)) / (num_chunk_frames as int);
            let c = chunk_at(num_images as int, first_frame as int, num_chunk_frames as int, i);
            &&& 0 <= i < chunk_count(num_images as int, first_frame as int, num_chunk_frames as int, num_chunks)
            &&& c.first_frame <= f < c.end_frame
            &&& forall|j: int|
                0 <= j < chunk_count(num_images as int, first_frame as int, num_chunk_frames as int, num_chunks)
                    && #[trigger] chunk_at(num_images as int, first_frame as int, num_chunk_frames as int, j).first_frame <= f
                    < chunk_at(num_images as int, first_frame as int, num_chunk_frames as int, j).end_frame
                    ==> j == i
        }),
{
    let start = first_frame - 1;
    let cf = num_chunk_frames as int;
    let d = f - start;
    let i = d / cf;
    vstd::arithmetic::div_mod::lemma_fundamental_div_mod(d, cf);
    vstd::arithmetic::div_mod::lemma_mod_pos_bound(d, cf);
    vstd::arithmetic::div_mod::lemma_div_pos_is_pos(d, cf);
    assert(cf * i == i * cf) by (nonlinear_arith);
    lemma_chunk_start(num_images as int, start, cf, i);
    assert(start + i * cf <= f);
    assert(start + i * cf < num_images);
    match num_chunks {
        Some(n) => {
            if i >= n {
                assert(i * cf >= n * cf) by (nonlinear_arith)
                    requires
                        i >= n,
                        cf > 0,
                ;
            }
        },
        None => {},
    }
    assert forall|j: int|
        0 <= j < chunk_count(num_images as int, first_frame as int, cf, num_chunks) && #[trigger] chunk_at(
            num_images as int,
            first_frame as int,
            cf,
            j,
        ).first_frame <= f < chunk_at(num_images as int, first_frame as int, cf, j).end_frame implies j
        == i by {
        lemma_chunk_start(num_images as int, start, cf, j);
        if j < i {
            assert((j + 1) * cf <= i * cf) by (nonlinear_arith)
                requires
                    j + 1 <= i,
                    cf > 0,
            ;
        } else if j > i {
            assert((i + 1) * cf <= j * cf) by (nonlinear_arith)
                requires
                    i + 1 <= j,
                    cf > 0,
            ;
        }
    }
}

} // verus!
