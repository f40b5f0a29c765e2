use syrup::detection::{Reliability, Timestamp};

#[test]
fn a_clock_reading_before_the_epoch_is_zero() {
    assert_eq!(Timestamp::from_clock(None), Timestamp(0));
    assert_eq!(Timestamp::from_clock(Some(1234)), Timestamp(1234));
}

#[test]
fn now_is_after_the_epoch_and_ordered() {
    let first = Timestamp::now();
    let second = Timestamp::now();
    assert!(first.0 > 0);
    assert!(first <= second);
    assert!(second.0 <= u64::MAX as u128 * 1000 + 999);
}

#[test]
fn reliability_grades_compare() {
    assert_eq!(Reliability::Heuristic, Reliability::Heuristic);
    assert_ne!(Reliability::Corroborated, Reliability::Unreliable);
}
