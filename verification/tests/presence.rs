use mindcub3r::presence::{infrared_near, PresenceCheck, PresenceStep};

#[test]
fn five_near_readings_confirm_a_cube() {
    let mut check = PresenceCheck::new();
    for _ in 0..4 {
        assert_eq!(check.observe(true), PresenceStep::SampleAgain);
    }
    assert_eq!(check.observe(true), PresenceStep::Present);
    assert_eq!(check.near_samples(), 5);
}

#[test]
fn one_far_reading_ends_the_check() {
    let mut check = PresenceCheck::new();
    assert_eq!(check.observe(true), PresenceStep::SampleAgain);
    assert_eq!(check.observe(true), PresenceStep::SampleAgain);
    assert_eq!(check.observe(false), PresenceStep::Absent);
}

#[test]
fn infrared_threshold() {
    assert!(infrared_near(0));
    assert!(infrared_near(17));
    assert!(!infrared_near(18));
    assert!(!infrared_near(100));
}
