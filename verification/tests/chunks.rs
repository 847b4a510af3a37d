use asv_tools::chunks::{frames_to_process, plan_chunks, FrameChunk};

fn c(number: usize, first_frame: usize, end_frame: usize) -> FrameChunk {
    FrameChunk { number, first_frame, end_frame }
}

#[test]
fn chunks_cover_the_video() {
    assert_eq!(plan_chunks(10, 1, 4, None), vec![c(1, 0, 4), c(2, 4, 8), c(3, 8, 10)]);
}

#[test]
fn chunks_from_a_later_frame() {
    assert_eq!(plan_chunks(10, 3, 3, None), vec![c(1, 2, 5), c(2, 5, 8), c(3, 8, 10)]);
}

#[test]
fn chunks_limited_in_number() {
    assert_eq!(plan_chunks(100, 1, 10, Some(2)), vec![c(1, 0, 10), c(2, 10, 20)]);
    assert_eq!(plan_chunks(15, 1, 10, Some(5)), vec![c(1, 0, 10), c(2, 10, 15)]);
    assert_eq!(plan_chunks(15, 1, 10, Some(0)), vec![]);
}

#[test]
fn chunks_beyond_the_end_are_none() {
    assert_eq!(plan_chunks(10, 11, 4, None), vec![]);
    assert_eq!(plan_chunks(10, 10, 4, None), vec![c(1, 9, 10)]);
}

#[test]
fn empty_chunks_when_no_frames_per_chunk() {
    assert_eq!(plan_chunks(10, 2, 0, Some(2)), vec![c(1, 1, 1), c(2, 1, 1)]);
}

#[test]
fn frames_to_process_counts() {
    assert_eq!(frames_to_process(10, 1, 4, None), 10);
    assert_eq!(frames_to_process(100, 1, 10, Some(2)), 21);
    assert_eq!(frames_to_process(100, 5, 10, Some(2)), 21);
    assert_eq!(frames_to_process(15, 1, 10, Some(5)), 15);
    assert_eq!(frames_to_process(10, 10, 4, None), 1);
}
