use asv_tools::alignment::AlignmentTrack;
use asv_tools::image::Rect;

#[test]
fn track_accumulates_shifts() {
    let mut track = AlignmentTrack::new(Rect { x: 50, y: 60, width: 64, height: 64 });
    assert_eq!(track.shifts(), &vec![(0, 0)]);
    track.record((2, -1));
    track.record((1, 3));
    assert_eq!(track.shifts(), &vec![(0, 0), (-2, 1), (-3, -2)]);
    assert_eq!(track.ref_block_rect(), Rect { x: 53, y: 62, width: 64, height: 64 });
    assert_eq!(track.search_area(18), Rect { x: 35, y: 44, width: 100, height: 100 });
}
