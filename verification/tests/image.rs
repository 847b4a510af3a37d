use asv_tools::image::{modify_rect, MonoImage, Rect};

#[test]
fn rect_containment() {
    let outer = Rect { x: 0, y: 0, width: 10, height: 8 };
    assert!(outer.contains_rect(&Rect { x: 0, y: 0, width: 10, height: 8 }));
    assert!(outer.contains_rect(&Rect { x: 3, y: 2, width: 7, height: 6 }));
    assert!(!outer.contains_rect(&Rect { x: 3, y: 2, width: 8, height: 6 }));
    assert!(!outer.contains_rect(&Rect { x: -1, y: 2, width: 2, height: 2 }));
    assert!(!outer.contains_rect(&Rect { x: 1, y: 7, width: 2, height: 2 }));
}

#[test]
fn rect_intersection_values() {
    let a = Rect { x: 0, y: 0, width: 10, height: 8 };
    let b = Rect { x: 4, y: -3, width: 10, height: 8 };
    assert_eq!(a.intersection(&b), Some(Rect { x: 4, y: 0, width: 6, height: 5 }));
    let c = Rect { x: 10, y: 0, width: 5, height: 5 };
    assert_eq!(a.intersection(&c), None);
    assert_eq!(b.intersection(&a), a.intersection(&b));
}

#[test]
fn modify_rect_grows_on_each_side() {
    let r = Rect { x: 10, y: 20, width: 64, height: 32 };
    assert_eq!(modify_rect(&r, 18), Rect { x: -8, y: 2, width: 100, height: 68 });
    assert_eq!(modify_rect(&r, 0), r);
}

#[test]
fn mono_image_construction() {
    let img = MonoImage::new(5, 3);
    assert_eq!(img.width(), 5);
    assert_eq!(img.height(), 3);
    assert_eq!(img.bytes_per_line(), 5);
    assert_eq!(img.pixels, vec![0u8; 15]);
    assert_eq!(img.img_rect(), Rect { x: 0, y: 0, width: 5, height: 3 });
    assert!(MonoImage::from_raw(4, 2, 6, vec![0; 12]).is_some());
    assert!(MonoImage::from_raw(4, 2, 3, vec![0; 6]).is_none());
    assert!(MonoImage::from_raw(4, 2, 6, vec![0; 11]).is_none());
    assert!(MonoImage::from_raw(4, 0, 6, vec![]).is_some());
    assert!(MonoImage::from_raw(4, 0, 6, vec![1]).is_none());
}
