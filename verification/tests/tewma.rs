use pactlers::protocol::{Cmd, N_ADCS};
use pactlers::tewma::{Tewmas, THRESHOLD};

#[test]
fn starts_at_zero() {
    let t = Tewmas::default();
    for i in 0..N_ADCS as u8 {
        assert_eq!(t.ewma(i), 0);
    }
}

#[test]
fn moves_halfway_and_reports_large_moves() {
    let mut t = Tewmas::default();
    assert_eq!(t.update(0, 100), Some(Cmd::new(0, 50)));
    assert_eq!(t.ewma(0), 50);
    assert_eq!(t.update(0, 100), Some(Cmd::new(0, 75)));
    assert_eq!(t.update(0, 100), Some(Cmd::new(0, 87)));
    // 93 is within THRESHOLD of 87: nothing is sent
    assert_eq!(t.update(0, 100), None);
    assert_eq!(t.ewma(0), 93);
    // 96 is 9 away from 87: still nothing
    assert_eq!(t.update(0, 100), None);
    assert_eq!(t.ewma(0), 96);
    // 98 is 11 away from 87: sent
    assert_eq!(t.update(0, 100), Some(Cmd::new(0, 98)));
}

#[test]
fn change_of_exactly_threshold_is_not_reported() {
    let mut t = Tewmas::default();
    // average becomes 10, which is exactly THRESHOLD away from 0
    assert_eq!(t.update(1, 2 * THRESHOLD), None);
    assert_eq!(t.ewma(1), THRESHOLD);
    // average becomes 15: reported
    assert_eq!(t.update(1, 2 * THRESHOLD), Some(Cmd::new(1, 15)));
}

#[test]
fn channels_are_independent() {
    let mut t = Tewmas::default();
    assert_eq!(t.update(4, 4000), Some(Cmd::new(4, 2000)));
    for i in 0..4u8 {
        assert_eq!(t.ewma(i), 0);
    }
    assert_eq!(t.update(2, 0), None);
    assert_eq!(t.ewma(4), 2000);
}

#[test]
fn falling_readings_are_reported() {
    let mut t = Tewmas::default();
    assert_eq!(t.update(3, 4095), Some(Cmd::new(3, 2047)));
    assert_eq!(t.update(3, 0), Some(Cmd::new(3, 1023)));
    assert_eq!(t.ewma(3), 1023);
}

#[test]
fn steady_reading_settles_within_one() {
    let mut t = Tewmas::default();
    let mut last = None;
    for _ in 0..20 {
        if let Some(c) = t.update(0, 3000) {
            last = Some(c);
        }
    }
    assert_eq!(t.ewma(0), 2999);
    let c = last.unwrap();
    assert!(2999 - c.volume <= THRESHOLD);
}

#[test]
fn largest_twelve_bit_readings_do_not_overflow() {
    let mut t = Tewmas::default();
    for _ in 0..50 {
        t.update(0, 4095);
    }
    assert!(t.ewma(0) <= 4095);
}
