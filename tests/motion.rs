use traffic_sim::geometry::{isqrt, point_distance, Point};
use traffic_sim::kinematics::{accelerate, brake};

#[test]
fn isqrt_of_squares_and_between() {
    assert_eq!(isqrt(0), 0);
    assert_eq!(isqrt(1), 1);
    assert_eq!(isqrt(15), 3);
    assert_eq!(isqrt(16), 4);
    assert_eq!(isqrt(u64::MAX), 4_294_967_295);
}

#[test]
fn distance_is_euclidean_in_three_dimensions() {
    let a = Point::new(0, 0, 0);
    let b = Point::new(3_000, 4_000, 0);
    assert_eq!(point_distance(&a, &b), 5_000);
    let c = Point::new(1, 2, 3);
    let d = Point::new(3, 5, 9);
    assert_eq!(point_distance(&c, &d), 7);
    assert_eq!(point_distance(&d, &c), 7);
}

#[test]
fn free_acceleration_over_one_step() {
    // 5 units/s² for one second from rest: half of 5·1² units travelled.
    assert_eq!(accelerate(0, 5_000, 1_000, 100_000), (2_500, 5_000));
}

#[test]
fn acceleration_splits_the_step_at_the_speed_limit() {
    // From 98 units/s at 5 units/s², the limit of 100 is reached after 0.4 s:
    // 98·0.4 + 5·0.4²/2 = 39.6 units, then 0.6 s at 100 units/s.
    assert_eq!(accelerate(98_000, 5_000, 1_000, 100_000), (99_600, 100_000));
}

#[test]
fn cruising_at_or_above_the_limit() {
    assert_eq!(accelerate(100_000, 5_000, 1_000, 100_000), (100_000, 100_000));
    assert_eq!(accelerate(120_000, 5_000, 500, 100_000), (50_000, 100_000));
    assert_eq!(accelerate(20_000, 5_000, 1_000, 10_000), (10_000, 10_000));
}

#[test]
fn zero_acceleration_keeps_the_velocity() {
    assert_eq!(accelerate(10_000, 0, 1_000, 100_000), (10_000, 10_000));
    assert_eq!(brake(20_000, 0, 1_000, 0, 0, 2_000), (20_000, 20_000));
}

#[test]
fn braking_at_the_required_rate() {
    // 20 units/s toward 0 with 100 units left and a 2 s lead: 60 units of braking
    // distance, so 20²/(2·60) = 3.334 units/s² (rounded up to a whole milli-unit).
    assert_eq!(brake(20_000, 10_000, 1_000, 100_000, 0, 2_000), (18_333, 16_666));
}

#[test]
fn braking_splits_the_step_at_the_target() {
    // Full braking at 10 units/s² stops from 20 units/s after 2 s and 20 units.
    assert_eq!(brake(20_000, 10_000, 3_000, 0, 0, 2_000), (20_000, 0));
    // Toward 10 units/s at 20 units/s²: 0.5 s and 7.5 units, then 0.5 s at 10 units/s.
    assert_eq!(brake(20_000, 20_000, 1_000, 38_490, 10_000, 2_000), (12_500, 10_000));
}

#[test]
fn no_braking_at_or_below_the_target() {
    assert_eq!(brake(10_000, 20_000, 1_000, 50_000, 10_000, 2_000), (10_000, 10_000));
}

#[test]
fn braking_with_capacity_stops_short_of_the_hazard() {
    // A hazard 100 units ahead with speed 5: whatever the step, the vehicle is either
    // down to 5 units/s or still short of the hazard.
    for t in [250u64, 1_000, 2_000, 4_000, 8_000] {
        let (d, v) = brake(20_000, 10_000, t, 100_000, 5_000, 2_000);
        assert!(v >= 5_000 && v <= 20_000);
        assert!(v == 5_000 || d < 100_000);
    }
}
