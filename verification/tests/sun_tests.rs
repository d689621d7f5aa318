use asch::sun::{sun_angle_milli, wrap_diff_tenth_milli, TimeOfDay};

fn angle(h: u8, m: u8) -> f64 {
    sun_angle_milli(&TimeOfDay::new(h, m)) as f64 / 1000.0
}

#[test]
fn test_sun_angle_from_time() {
    assert_eq!(angle(0, 0), 165.0);
    assert_eq!(angle(1, 0), -180.0);
    assert_eq!(angle(2, 0), -165.0);
    assert_eq!(angle(3, 0), -150.0);
    assert_eq!(angle(4, 0), -135.0);
    assert_eq!(angle(5, 0), -120.0);
    assert_eq!(angle(6, 0), -105.0);
    assert_eq!(angle(7, 0), -90.0);
    assert_eq!(angle(8, 0), -75.0);
    assert_eq!(angle(9, 0), -60.0);
    assert_eq!(angle(10, 0), -45.0);
    assert_eq!(angle(11, 0), -30.0);
    assert_eq!(angle(12, 0), -15.0);
    assert_eq!(angle(13, 0), 0.0);
    assert_eq!(angle(14, 0), 15.0);
    assert_eq!(angle(15, 0), 30.0);
    assert_eq!(angle(16, 0), 45.0);
    assert_eq!(angle(17, 0), 60.0);
    assert_eq!(angle(18, 0), 75.0);
    assert_eq!(angle(19, 0), 90.0);
    assert_eq!(angle(20, 0), 105.0);
    assert_eq!(angle(21, 0), 120.0);
    assert_eq!(angle(22, 0), 135.0);
    assert_eq!(angle(23, 0), 150.0);
}

#[test]
fn sun_angle_minute_granularity() {
    // One minute turns the sun a quarter of a degree.
    assert_eq!(sun_angle_milli(&TimeOfDay::new(13, 1)), 250);
    assert_eq!(sun_angle_milli(&TimeOfDay::new(13, 40)), 10_000);
    assert_eq!(sun_angle_milli(&TimeOfDay::new(12, 59)), -250);
}

#[test]
fn wrap_diff_shortest_path() {
    assert_eq!(wrap_diff_tenth_milli(100_000, 100_200), -200);
    assert_eq!(wrap_diff_tenth_milli(100_000, 100_500), -500);
    assert_eq!(wrap_diff_tenth_milli(1_650_000, -1_750_000), -200_000);
    assert_eq!(wrap_diff_tenth_milli(-1_750_000, 1_650_000), 200_000);
    assert_eq!(wrap_diff_tenth_milli(0, 7_200_000), 0);
}
