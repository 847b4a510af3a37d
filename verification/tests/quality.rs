use asv_tools::image::Rect;
use asv_tools::quality::{anchor_candidates, find_intersection, quality_area_rect, updiv};

#[test]
fn updiv_rounds_up() {
    assert_eq!(updiv(0, 40), 0);
    assert_eq!(updiv(1, 40), 1);
    assert_eq!(updiv(40, 40), 1);
    assert_eq!(updiv(41, 40), 2);
    assert_eq!(updiv(639, 40), 16);
}

#[test]
fn intersection_of_shifted_frames() {
    let r = find_intersection((100, 80), &[(0, 0), (3, -2), (-5, 4)]);
    assert_eq!(r, Some(Rect { x: 3, y: 4, width: 92, height: 74 }));
    assert_eq!(find_intersection((100, 80), &[]), Some(Rect { x: 0, y: 0, width: 100, height: 80 }));
    assert_eq!(find_intersection((100, 80), &[(0, 0), (100, 0), (1, 1)]), None);
}

#[test]
fn quality_areas_cover_region() {
    let (w, h, a) = (100u32, 50u32, 40usize);
    let nh = updiv(w as usize, a);
    let nv = updiv(h as usize, a);
    assert_eq!((nh, nv), (3, 2));
    assert_eq!(quality_area_rect(0, nh, a, w, h), Rect { x: 0, y: 0, width: 40, height: 40 });
    assert_eq!(quality_area_rect(2, nh, a, w, h), Rect { x: 80, y: 0, width: 20, height: 40 });
    assert_eq!(quality_area_rect(4, nh, a, w, h), Rect { x: 40, y: 40, width: 40, height: 10 });
    let mut covered = vec![0u32; (w * h) as usize];
    for idx in 0..nh * nv {
        let r = quality_area_rect(idx, nh, a, w, h);
        for y in r.y..r.y + r.height as i32 {
            for x in r.x..r.x + r.width as i32 {
                covered[y as usize * w as usize + x as usize] += 1;
            }
        }
    }
    assert!(covered.iter().all(|&n| n == 1));
}

#[test]
fn anchor_candidates_in_middle_half() {
    let c = anchor_candidates(400, 300, 64);
    // x from 100 while <= 236, step 32: 100, 132, 164, 196, 228; y from 75 while <= 161: 75, 107, 139
    assert_eq!(c.len(), 15);
    assert_eq!(c[0], (100, 75));
    assert_eq!(c[4], (228, 75));
    assert_eq!(c[5], (100, 107));
    assert_eq!(c[14], (228, 139));
}
