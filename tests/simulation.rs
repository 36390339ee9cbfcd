use traffic_sim::geometry::Point;
use traffic_sim::vehicle::SimError;
use traffic_sim::world::{sample_world, update_comp, RoadData, VehicleData, World, WorldError};

/// Two segments end to end along the x axis, the first `len` milli-units long; the end
/// limit equals the speed limit, so the end of a segment calls for no braking.
fn straight_world(len: i64) -> World {
    let mut w = World::new();
    w.add_road(Point::new(0, 0, 0), Point::new(len, 0, 0), 1, 100_000, vec![], vec![1], 100_000)
        .unwrap();
    w.add_road(Point::new(len, 0, 0), Point::new(len, 1_000_000, 0), 1, 100_000, vec![0], vec![], 100_000)
        .unwrap();
    w
}

#[test]
fn sample_world_has_two_roads_and_two_vehicles() {
    let w = sample_world();
    assert_eq!(w.roads.len(), 2);
    assert_eq!(w.vehicles.len(), 2);
    assert_eq!(w.roads[0].length, 500_000);
    assert_eq!(w.roads[1].length, 500_000);
    assert_eq!(w.vehicles[0].path, vec![1]);
    assert_eq!(w.vehicles[1].path, vec![0]);
    assert_eq!(w.vehicles[1].destination_position, 311_000);
}

#[test]
fn acceleration_follows_the_closed_form() {
    let mut w = straight_world(2_000_000);
    w.add_vehicle(0, 0, 5_000, 10_000, 0, 10_000, 1, 500_000).unwrap();
    for k in 1..=20u64 {
        update_comp(1_000, &mut w).unwrap();
        assert_eq!(w.vehicles[0].position, 2_500 * k * k);
        assert_eq!(w.vehicles[0].velocity, 5_000 * k);
    }
    // 100 = 0 + 5·20, and 5·20²/2 = 1000 units travelled.
    assert_eq!(w.vehicles[0].velocity, 100_000);
    assert_eq!(w.vehicles[0].position, 1_000_000);
    update_comp(1_000, &mut w).unwrap();
    assert_eq!(w.vehicles[0].velocity, 100_000);
    assert_eq!(w.vehicles[0].position, 1_100_000);
}

#[test]
fn vehicle_crosses_to_the_next_segment() {
    let mut w = straight_world(500_000);
    w.add_vehicle(0, 0, 5_000, 10_000, 0, 10_000, 1, 900_000).unwrap();
    for _ in 0..14 {
        update_comp(1_000, &mut w).unwrap();
    }
    assert_eq!(w.vehicles[0].on_road, 0);
    assert_eq!(w.vehicles[0].position, 490_000);
    // the fifteenth step ends 562.5 units along: 62.5 units into the next segment
    update_comp(1_000, &mut w).unwrap();
    let v = &w.vehicles[0];
    assert_eq!(v.on_road, 1);
    assert_eq!(v.next_leg, 1);
    assert_eq!(v.position, 62_500);
    assert_eq!(v.velocity, 75_000);
    assert_eq!(w.roads[0].obstacle_map.len(), 1);
    assert_eq!(w.roads[1].obstacle_map.get(&60_990), Some(&75_000));
    assert_eq!(w.roads[1].obstacle_map.len(), 2);
}

#[test]
fn overshoot_is_carried_onto_the_next_segment() {
    let mut w = World::new();
    w.add_road(Point::new(0, 0, 0), Point::new(100_000, 0, 0), 1, 100_000, vec![], vec![1], 100_000)
        .unwrap();
    w.add_road(Point::new(100_000, 0, 0), Point::new(1_100_000, 0, 0), 1, 100_000, vec![0], vec![], 0)
        .unwrap();
    w.add_vehicle(0, 0, 40_000, 10_000, 0, 50_000, 1, 1_000_000).unwrap();
    // the limit is reached after 2.5 s and 125 units, then 0.5 s at 100 units/s: 175 units
    update_comp(3_000, &mut w).unwrap();
    let v = &w.vehicles[0];
    assert_eq!(v.on_road, 1);
    assert_eq!(v.position, 75_000);
    assert_eq!(v.velocity, 100_000);
    assert_eq!(v.next_leg, v.path.len());
}

#[test]
fn entering_a_slower_segment_brings_the_velocity_down() {
    let mut w = World::new();
    w.add_road(Point::new(0, 0, 0), Point::new(500_000, 0, 0), 1, 100_000, vec![], vec![1], 100_000)
        .unwrap();
    w.add_road(Point::new(500_000, 0, 0), Point::new(900_000, 0, 0), 1, 50_000, vec![0], vec![], 50_000)
        .unwrap();
    w.add_vehicle(450_000, 100_000, 0, 10_000, 0, 10_000, 1, 800_000).unwrap();
    update_comp(1_000, &mut w).unwrap();
    let v = &w.vehicles[0];
    assert_eq!(v.on_road, 1);
    assert_eq!(v.position, 50_000);
    assert_eq!(v.velocity, 50_000);
    update_comp(1_000, &mut w).unwrap();
    assert_eq!(w.vehicles[0].position, 100_000);
    assert_eq!(w.vehicles[0].velocity, 50_000);
}

#[test]
fn rear_vehicle_does_not_pass_through_the_lead() {
    let mut w = straight_world(500_000);
    w.add_vehicle(30_000, 10_000, 0, 20_000, 0, 100_000, 1, 900_000).unwrap();
    w.add_vehicle(0, 20_000, 0, 20_000, 0, 100_000, 1, 900_000).unwrap();
    update_comp(1_000, &mut w).unwrap();
    assert_eq!(w.vehicles[0].position, 40_000);
    assert_eq!(w.roads[0].obstacle_map.get(&38_490), Some(&10_000));
    assert!(w.vehicles[1].velocity <= 10_000);
    assert_eq!(w.vehicles[1].velocity, 10_000);
    assert_eq!(w.vehicles[1].position, 12_500);
}

#[test]
fn arrived_vehicle_is_removed_and_the_rest_kept() {
    let mut w = straight_world(500_000);
    w.add_vehicle(0, 10_000, 0, 10_000, 0, 10_000, 1, 900_000).unwrap();
    w.add_vehicle(100_000, 0, 0, 10_000, 0, 10_000, 0, 100_000).unwrap();
    w.add_vehicle(20_000, 10_000, 0, 10_000, 0, 10_000, 1, 800_000).unwrap();
    update_comp(1_000, &mut w).unwrap();
    assert_eq!(w.vehicles.len(), 2);
    assert_eq!(w.vehicles[0].position, 10_000);
    assert_eq!(w.vehicles[0].destination_position, 900_000);
    assert_eq!(w.vehicles[1].position, 30_000);
    assert_eq!(w.vehicles[1].destination_position, 800_000);
    // the arrived vehicle left no entry behind
    assert_eq!(w.roads[0].obstacle_map.len(), 3);
    assert_eq!(w.roads[0].obstacle_map.get(&98_490), None);
    update_comp(1_000, &mut w).unwrap();
    assert_eq!(w.vehicles.len(), 2);
}

#[test]
fn destination_braking_brings_the_vehicle_to_rest() {
    let mut w = straight_world(500_000);
    w.add_vehicle(0, 20_000, 0, 10_000, 0, 10_000, 0, 40_000).unwrap();
    let mut ticks = 0;
    while !w.vehicles.is_empty() && ticks < 50 {
        update_comp(1_000, &mut w).unwrap();
        ticks += 1;
    }
    assert!(w.vehicles.is_empty());
}

#[test]
fn exhausted_path_ends_the_run() {
    let mut w = straight_world(500_000);
    w.add_vehicle(500_000, 0, 0, 10_000, 0, 10_000, 0, 900_000).unwrap();
    assert_eq!(update_comp(1_000, &mut w), Err(SimError::PathExhausted));
}

#[test]
fn add_road_rejects_out_of_range_values() {
    let mut w = World::new();
    let far = Point::new(0x4000_0001, 0, 0);
    assert_eq!(
        w.add_road(Point::new(0, 0, 0), far, 1, 100_000, vec![], vec![], 10_000),
        Err(WorldError::CoordinateOutOfRange)
    );
    assert_eq!(
        w.add_road(Point::new(0, 0, 0), Point::new(1, 0, 0), 1, 0x8000_0001, vec![], vec![], 10_000),
        Err(WorldError::ValueOutOfRange)
    );
    assert_eq!(w.roads.len(), 0);
}

#[test]
fn add_vehicle_rejects_bad_vehicles() {
    let mut w = straight_world(500_000);
    assert_eq!(w.add_vehicle(0, 0, 5_000, 10_000, 2, 10_000, 1, 1_000), Err(WorldError::UnknownRoad));
    assert_eq!(w.add_vehicle(0, 0, 5_000, 10_000, 0, 10_000, 9, 1_000), Err(WorldError::UnknownRoad));
    assert_eq!(
        w.add_vehicle(0, 0x8000_0001, 5_000, 10_000, 0, 10_000, 1, 1_000),
        Err(WorldError::ValueOutOfRange)
    );
    assert_eq!(w.add_vehicle(0, 0, 5_000, 10_000, 1, 10_000, 0, 1_000), Err(WorldError::NoRoute));
    assert_eq!(w.vehicles.len(), 0);
    assert_eq!(w.add_vehicle(0, 0, 5_000, 10_000, 0, 10_000, 1, 1_000), Ok(()));
    assert_eq!(w.vehicles[0].path, vec![1]);
    assert_eq!(w.vehicles[0].next_leg, 0);
}

#[test]
fn reset_empties_the_world() {
    let mut w = sample_world();
    w.reset();
    assert_eq!(w.roads.len(), 0);
    assert_eq!(w.vehicles.len(), 0);
}

fn road_data(from: (i64, i64), to: (i64, i64), to_road: Vec<usize>) -> RoadData {
    RoadData {
        from: Point::new(from.0, from.1, 0),
        to: Point::new(to.0, to.1, 0),
        lanes: 1,
        speed_limit: 100_000,
        from_road: vec![],
        to_road,
        end_speed_limit: 10_000,
    }
}

fn vehicle_data(on_road: usize, destination: usize) -> VehicleData {
    VehicleData {
        position: 0,
        velocity: 0,
        acceleration: 5_000,
        break_deceleration: 10_000,
        on_road,
        watch_distance: 200_000,
        destination,
        destination_position: 250_000,
    }
}

#[test]
fn load_replaces_the_world() {
    let mut w = sample_world();
    let roads = vec![
        road_data((0, 0), (100_000, 0), vec![1]),
        road_data((100_000, 0), (200_000, 0), vec![2]),
        road_data((200_000, 0), (300_000, 0), vec![]),
    ];
    assert_eq!(w.load(roads, vec![vehicle_data(0, 2), vehicle_data(1, 1)]), Ok(()));
    assert_eq!(w.roads.len(), 3);
    assert_eq!(w.vehicles.len(), 2);
    assert_eq!(w.vehicles[0].path, vec![1, 2]);
    assert_eq!(w.vehicles[1].path, Vec::<usize>::new());
}

#[test]
fn load_rejects_faulty_descriptions() {
    let mut w = World::new();
    let bad_ref = vec![road_data((0, 0), (100_000, 0), vec![3])];
    assert_eq!(w.load(bad_ref, vec![]), Err(WorldError::UnknownRoad));
    assert_eq!(w.roads.len(), 0);
    let bad_point = vec![road_data((0, 0), (0x4000_0001, 0), vec![])];
    assert_eq!(w.load(bad_point, vec![]), Err(WorldError::CoordinateOutOfRange));
    let roads = vec![road_data((0, 0), (100_000, 0), vec![]), road_data((100_000, 0), (200_000, 0), vec![])];
    assert_eq!(w.load(roads, vec![vehicle_data(0, 1)]), Err(WorldError::NoRoute));
    assert_eq!(w.roads.len(), 0);
    assert_eq!(w.vehicles.len(), 0);
}

#[test]
fn velocity_stays_within_the_speed_limit() {
    let mut w = straight_world(2_000_000);
    w.add_vehicle(0, 0, 7_000, 10_000, 0, 10_000, 1, 1_500_000).unwrap();
    for _ in 0..40 {
        update_comp(700, &mut w).unwrap();
        let v = &w.vehicles[0];
        assert!(v.velocity <= w.roads[v.on_road].speed_limit);
    }
    assert_eq!(w.vehicles[0].velocity, 100_000);
}

#[test]
fn zero_length_segment_is_crossed_at_once() {
    let mut w = World::new();
    w.add_road(Point::new(0, 0, 0), Point::new(0, 0, 0), 1, 100_000, vec![], vec![1], 10_000).unwrap();
    w.add_road(Point::new(0, 0, 0), Point::new(100_000, 0, 0), 1, 100_000, vec![0], vec![], 10_000)
        .unwrap();
    assert_eq!(w.roads[0].length, 0);
    w.add_vehicle(0, 0, 5_000, 10_000, 0, 10_000, 1, 90_000).unwrap();
    update_comp(1_000, &mut w).unwrap();
    assert_eq!(w.vehicles[0].on_road, 1);
    assert_eq!(w.vehicles[0].position, 2_500);
    assert_eq!(w.vehicles[0].velocity, 5_000);
}

#[test]
fn end_of_segment_limit_slows_the_vehicle() {
    // speed 30 units/s, 40 units from a segment end limited to 10 units/s, watching 50
    let mut w = World::new();
    w.add_road(Point::new(0, 0, 0), Point::new(100_000, 0, 0), 1, 100_000, vec![], vec![1], 10_000)
        .unwrap();
    w.add_road(Point::new(100_000, 0, 0), Point::new(200_000, 0, 0), 1, 100_000, vec![0], vec![], 10_000)
        .unwrap();
    w.add_vehicle(60_000, 30_000, 0, 50_000, 0, 50_000, 1, 90_000).unwrap();
    update_comp(1_000, &mut w).unwrap();
    // the lead of 2 s at 30 units/s exceeds the 40 units left: full braking at 50 units/s²
    // reaches 10 units/s after 0.4 s and 8 units, then 0.6 s at 10 units/s
    assert_eq!(w.vehicles[0].velocity, 10_000);
    assert_eq!(w.vehicles[0].position, 74_000);
}

#[test]
fn longest_step_is_accepted() {
    let mut w = straight_world(2_000_000);
    w.add_vehicle(0, 0, 1_000, 10_000, 0, 10_000, 1, 900_000).unwrap();
    update_comp(traffic_sim::kinematics::TICK_MAX, &mut w).unwrap();
    let v = &w.vehicles[0];
    assert_eq!(v.velocity, 100_000);
    // past both segments: on the last one, beyond its end, with no segment left
    assert_eq!(v.on_road, 1);
    assert_eq!(v.position, 99_857_600 - 2_000_000);
    assert_eq!(update_comp(1_000, &mut w), Err(SimError::PathExhausted));
}
