use fleet_dispatch::{Multiplier, Speed, MAX_UPDATES_PER_SECOND, NANOS_PER_SECOND};

#[test]
fn multipliers_are_positive() {
    assert!(Multiplier::new(0).is_none());
    assert_eq!(Multiplier::new(1).unwrap().get(), 1);
    assert_eq!(Multiplier::new(255).unwrap().get(), 255);
    assert!(Speed::fast_forward(0).is_none());
    assert!(Speed::slow_motion(0).is_none());
    assert_eq!(Speed::default(), Speed::RealTime);
}

#[test]
fn durations_are_scaled_by_the_speed() {
    assert_eq!(NANOS_PER_SECOND, 1_000_000_000);
    assert_eq!(Speed::RealTime.adjust_duration(1_000_000_000), 1_000_000_000);
    assert_eq!(Speed::fast_forward(200).unwrap().adjust_duration(1_000_000_000), 5_000_000);
    assert_eq!(Speed::fast_forward(3).unwrap().adjust_duration(1_000_000_000), 333_333_333);
    assert_eq!(Speed::slow_motion(2).unwrap().adjust_duration(1_000_000_000), 2_000_000_000);
    assert_eq!(Speed::slow_motion(255).unwrap().adjust_second(), 255_000_000_000);
    assert_eq!(Speed::RealTime.adjust_second(), 1_000_000_000);
}

#[test]
fn snapshot_interval_is_at_least_a_second() {
    assert_eq!(MAX_UPDATES_PER_SECOND, 4);
    assert_eq!(Speed::RealTime.snapshot_interval(), 1);
    assert_eq!(Speed::slow_motion(200).unwrap().snapshot_interval(), 1);
    assert_eq!(Speed::fast_forward(1).unwrap().snapshot_interval(), 1);
    assert_eq!(Speed::fast_forward(3).unwrap().snapshot_interval(), 1);
    assert_eq!(Speed::fast_forward(4).unwrap().snapshot_interval(), 1);
    assert_eq!(Speed::fast_forward(8).unwrap().snapshot_interval(), 2);
    assert_eq!(Speed::fast_forward(200).unwrap().snapshot_interval(), 50);
    assert_eq!(Speed::fast_forward(255).unwrap().snapshot_interval(), 63);
}

#[test]
fn speeds_go_over_the_wire_as_numbers() {
    assert_eq!(Speed::RealTime.to_i32(), 0);
    assert_eq!(Speed::fast_forward(200).unwrap().to_i32(), 200);
    assert_eq!(Speed::slow_motion(3).unwrap().to_i32(), -3);
    assert_eq!(Speed::from_i32(0), Speed::RealTime);
    assert_eq!(Speed::from_i32(200), Speed::fast_forward(200).unwrap());
    assert_eq!(Speed::from_i32(1), Speed::fast_forward(1).unwrap());
    assert_eq!(Speed::from_i32(255), Speed::fast_forward(255).unwrap());
    assert_eq!(Speed::from_i32(-2), Speed::slow_motion(2).unwrap());
    assert_eq!(Speed::from_i32(-3), Speed::slow_motion(3).unwrap());
    assert_eq!(Speed::from_i32(-128), Speed::slow_motion(128).unwrap());
    assert_eq!(Speed::from_i32(-255), Speed::slow_motion(255).unwrap());
}

#[test]
fn observers_reckon_simulated_time_by_the_speed() {
    assert_eq!(Speed::RealTime.simulated_time(50), 50);
    assert_eq!(Speed::fast_forward(200).unwrap().simulated_time(50), 10_000);
    assert_eq!(Speed::slow_motion(4).unwrap().simulated_time(50), 12);
    // a second of simulated time, paced and reckoned back
    let speed = Speed::fast_forward(7).unwrap();
    assert_eq!(speed.adjust_second(), 142_857_142);
    assert_eq!(speed.simulated_time(speed.adjust_second()), 999_999_994);
    let speed = Speed::slow_motion(7).unwrap();
    assert_eq!(speed.simulated_time(speed.adjust_second()), 1_000_000_000);
}

#[test]
fn speed_comes_back_from_the_wire_as_it_was_sent() {
    let mut speeds = vec![Speed::RealTime];
    for rate in 1..=255u8 {
        speeds.push(Speed::fast_forward(rate).unwrap());
        speeds.push(Speed::slow_motion(rate).unwrap());
    }
    for speed in speeds {
        assert_eq!(Speed::from_i32(speed.to_i32()), speed);
    }
    for n in -255..=255 {
        assert_eq!(Speed::from_i32(n).to_i32(), n);
    }
}
