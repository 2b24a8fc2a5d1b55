//! Deadlines, and the clock they are read against.

use lorica::clock::{calibrate, nearest_hz, Miscalibration, KNOWN_HZ};
use lorica::{Clock, Deadline};

#[test]
fn a_reading_beside_one_of_the_four_rates_is_that_rate() {
    assert_eq!(nearest_hz(996), Some(1_000));
    assert_eq!(nearest_hz(1_004), Some(1_000));
    assert_eq!(nearest_hz(252), Some(250));
    assert_eq!(nearest_hz(291), Some(300));
    assert_eq!(nearest_hz(97), Some(100));
}

/// 500 Hz is not a rate the kernel builds, and rounding it to either neighbour would put every
/// deadline out by a factor approaching two.
#[test]
fn a_reading_beside_none_of_them_is_refused() {
    assert_eq!(nearest_hz(500), None);
    assert_eq!(nearest_hz(0), None);
    assert_eq!(nearest_hz(150), None);
}

#[test]
fn the_tolerance_is_a_tenth_of_the_rate() {
    for hz in KNOWN_HZ {
        assert_eq!(nearest_hz(u64::from(hz)), Some(hz));
    }
    assert_eq!(nearest_hz(90), Some(100));
    assert_eq!(nearest_hz(89), None);
    assert_eq!(nearest_hz(1_100), Some(1_000));
    assert_eq!(nearest_hz(1_101), None);
    assert_eq!(nearest_hz(275), Some(250));
    assert_eq!(nearest_hz(u64::MAX), None);
}

#[test]
fn two_readings_name_the_rate() {
    assert_eq!(
        calibrate(1_000, 1_050, 200_000_000),
        Ok(Clock { hz: 250, jiffies: 1_050 })
    );
    assert_eq!(calibrate(1_000, 1_000, 200_000_000), Err(Miscalibration::Stopped));
    assert_eq!(calibrate(1_001, 1_000, 200_000_000), Err(Miscalibration::Stopped));
    assert_eq!(
        calibrate(1_000, 1_100, 200_000_000),
        Err(Miscalibration::Unrecognised { raw: 500 })
    );
}

#[test]
fn a_deadline_is_a_number_of_ticks_ahead() {
    let clock = Clock { hz: 250, jiffies: 1_000 };
    assert_eq!(clock.deadline(4), Deadline(2_000));
    assert_eq!(clock.deadline(u64::MAX), Deadline(u64::MAX));
    assert_eq!(Deadline::after(10, 5), Deadline(15));
}

#[test]
fn a_deadline_expires_once_and_for_good() {
    let deadline = Deadline::after(100, 10);
    for now in 100..110 {
        assert!(!deadline.expired(now), "{now}");
    }
    for now in 110..120 {
        assert!(deadline.expired(now), "{now}");
    }
}

#[test]
fn a_deadline_that_is_never_never_expires() {
    let never = Deadline::never();
    assert!(never.is_never());
    for now in [0, 1, u64::MAX] {
        assert!(!never.expired(now));
    }
    assert!(!Deadline(7).is_never());
}
