use score_lib::{explain_enabled, init, Mult};

fn m(num: u64, exp: u32) -> Mult {
    Mult { num, exp }
}

#[test]
fn whole_numbers_and_zero() {
    assert_eq!(Mult::zero(), m(0, 0));
    assert_eq!(Mult::from_int(7), m(7, 0));
}

#[test]
fn sum_is_taken_over_the_larger_exponent() {
    assert_eq!(m(3, 0).checked_plus(m(4, 0)), Some(m(7, 0)));
    assert_eq!(m(3, 1).checked_plus(m(4, 0)), Some(m(11, 1)));
    assert_eq!(m(4, 0).checked_plus(m(3, 1)), Some(m(11, 1)));
    assert_eq!(m(1, 3).checked_plus(m(1, 1)), Some(m(5, 3)));
    assert_eq!(m(5, 2).checked_plus(Mult::zero()), Some(m(5, 2)));
    assert_eq!(Mult::zero().checked_plus(m(5, 2)), Some(m(5, 2)));
}

#[test]
fn sum_that_does_not_fit() {
    assert_eq!(m(u64::MAX, 0).checked_plus(m(1, 0)), None);
    assert_eq!(m(u64::MAX, 0).checked_plus(m(0, 0)), Some(m(u64::MAX, 0)));
    assert_eq!(m(1 << 63, 0).checked_plus(m(1, 1)), None);
    assert_eq!(m(1 << 62, 0).checked_plus(m(1, 1)), Some(m((1 << 63) + 1, 1)));
    assert_eq!(m(1, 0).checked_plus(m(1, 64)), None);
    assert_eq!(m(1, 0).checked_plus(m(1, 63)), Some(m((1 << 63) + 1, 63)));
    assert_eq!(m(0, 0).checked_plus(m(1, 200)), Some(m(1, 200)));
    assert_eq!(m(1, 0).checked_plus(m(1, 200)), None);
}

#[test]
fn half_and_three_halves() {
    assert_eq!(m(5, 0).checked_half(), Some(m(5, 1)));
    assert_eq!(m(5, u32::MAX).checked_half(), None);
    assert_eq!(m(4, 0).checked_times_three_halves(), Some(m(12, 1)));
    assert_eq!(m(12, 1).checked_times_three_halves(), Some(m(36, 2)));
    assert_eq!(m(u64::MAX / 3 + 1, 0).checked_times_three_halves(), None);
    assert_eq!(m(u64::MAX / 3, 0).checked_times_three_halves(), Some(m(u64::MAX, 1)));
    assert_eq!(m(1, u32::MAX).checked_times_three_halves(), None);
}

#[test]
fn product_with_a_whole_number() {
    assert_eq!(m(5, 3).checked_times(3), Some(m(15, 3)));
    assert_eq!(m(5, 3).checked_times(0), Some(m(0, 3)));
    assert_eq!(m(u64::MAX, 0).checked_times(2), None);
}

#[test]
fn final_score_is_the_floor_of_the_product() {
    assert_eq!(m(2, 0).floor_times(38), 76);
    assert_eq!(m(3, 1).floor_times(5), 7);
    assert_eq!(m(3, 1).floor_times(4), 6);
    assert_eq!(m(1, 2).floor_times(3), 0);
    assert_eq!(m(0, 0).floor_times(1000), 0);
    assert_eq!(m(u64::MAX, 0).floor_times(u64::MAX), (u64::MAX as u128) * (u64::MAX as u128));
    assert_eq!(m(u64::MAX, 127).floor_times(u64::MAX), 1);
    assert_eq!(m(u64::MAX, 128).floor_times(u64::MAX), 0);
    assert_eq!(m(u64::MAX, u32::MAX).floor_times(u64::MAX), 0);
    let exact = (3.0_f64 / 2.0 * 5.0).floor();
    assert_eq!(m(3, 1).floor_times(5) as f64, exact);
}

#[test]
fn comparing_with_a_whole_number() {
    assert!(m(12, 0).is_int(12));
    assert!(m(24, 1).is_int(12));
    assert!(!m(25, 1).is_int(12));
    assert!(!m(24, 1).is_int(24));
    assert!(m(0, 70).is_int(0));
    assert!(!m(1, 70).is_int(1));
    assert!(m(1 << 63, 63).is_int(1));
}

#[test]
fn explain_mode_is_what_init_was_given() {
    assert!(explain_enabled(&init(true)));
    assert!(!explain_enabled(&init(false)));
}
