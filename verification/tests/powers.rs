use asv_tools::powers::{is_power_of_2, IntPowerOf2, NonNegPowerOf2};

#[test]
fn power_of_two_detection() {
    assert!(!is_power_of_2(0));
    assert!(is_power_of_2(1));
    assert!(is_power_of_2(2));
    assert!(!is_power_of_2(3));
    assert!(is_power_of_2(64));
    assert!(!is_power_of_2(96));
    assert!(is_power_of_2(1usize << 40));
}

#[test]
fn int_power_from_int_gives_exponent() {
    assert_eq!(IntPowerOf2::from_int(1).0, 0);
    assert_eq!(IntPowerOf2::from_int(2).0, 1);
    assert_eq!(IntPowerOf2::from_int(1024).0, 10);
    assert_eq!(IntPowerOf2::from_int(1u32 << 31).0, 31);
}

#[test]
fn int_power_half_goes_negative() {
    let p = IntPowerOf2::new(1);
    assert_eq!(p.half().0, 0);
    assert_eq!(p.half().half().0, -1);
}

#[test]
fn non_neg_power_round_trip() {
    let p = NonNegPowerOf2::from_int(16);
    assert_eq!(p.0, 4);
    assert_eq!(p.as_int(), 16);
    assert_eq!(NonNegPowerOf2::new(31).as_int(), 1u32 << 31);
}

#[test]
fn non_neg_power_half_stops_at_one() {
    assert_eq!(NonNegPowerOf2::new(3).half().0, 2);
    assert_eq!(NonNegPowerOf2::new(0).half().0, 0);
    assert_eq!(NonNegPowerOf2::new(0).half().as_int(), 1);
}
