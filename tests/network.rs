use traffic_sim::geometry::Point;
use traffic_sim::road::{end_key_of, trail_key_of, Hazard, Road};
use traffic_sim::route::find_shortest_path;

fn segment(from: (i64, i64), to: (i64, i64), to_road: Vec<usize>) -> Road {
    Road::new(
        Point::new(from.0, from.1, 0),
        Point::new(to.0, to.1, 0),
        1,
        100_000,
        Vec::new(),
        to_road,
        10_000,
    )
}

#[test]
fn new_road_measures_and_seeds_its_end() {
    let r = segment((0, 10_000), (500_000, 10_000), vec![1]);
    assert_eq!(r.length, 500_000);
    assert_eq!(r.obstacle_map.len(), 1);
    assert_eq!(r.obstacle_map.get(&500_000), Some(&10_000));
}

#[test]
fn keys_are_quantized_to_a_tenth_of_a_unit() {
    assert_eq!(end_key_of(500_000), 500_000);
    assert_eq!(end_key_of(500_049), 500_000);
    assert_eq!(end_key_of(500_050), 500_100);
    assert_eq!(trail_key_of(12_345), 10_790);
    assert_eq!(trail_key_of(0), -1_510);
}

#[test]
fn trailing_entry_round_trip_keeps_the_end_entry() {
    let mut r = segment((0, 0), (500_000, 0), vec![]);
    let k = trail_key_of(499_990);
    r.obstacle_map.insert(k, 7_000);
    assert_eq!(r.obstacle_map.len(), 2);
    r.obstacle_map.remove(&k);
    assert_eq!(r.obstacle_map.len(), 1);
    assert_eq!(r.obstacle_map.get(&end_key_of(r.length)), Some(&10_000));
}

#[test]
fn scan_finds_the_nearest_entry_in_sight() {
    let mut r = segment((0, 0), (500_000, 0), vec![]);
    r.obstacle_map.insert(58_490, 10_000);
    r.obstacle_map.insert(38_490, 12_000);
    r.obstacle_map.insert(8_490, 3_000);
    assert_eq!(r.nearest_obstacle(10_000, 100_000), Some(Hazard { distance: 28_490, speed: 12_000 }));
    assert_eq!(r.nearest_obstacle(38_490, 100_000), Some(Hazard { distance: 0, speed: 12_000 }));
    assert_eq!(r.nearest_obstacle(60_000, 100_000), None);
    assert_eq!(r.nearest_obstacle(450_000, 50_000), Some(Hazard { distance: 50_000, speed: 10_000 }));
    assert_eq!(r.nearest_obstacle(450_000, 49_999), None);
}

#[test]
fn route_follows_the_network() {
    let roads = vec![
        segment((0, 10_000), (500_000, 10_000), vec![1]),
        segment((500_000, -10_000), (0, -10_000), vec![0]),
    ];
    assert_eq!(find_shortest_path(&roads, 0, 1), Some(vec![0, 1]));
    assert_eq!(find_shortest_path(&roads, 1, 0), Some(vec![1, 0]));
    assert_eq!(find_shortest_path(&roads, 1, 1), Some(vec![1]));
    assert_eq!(find_shortest_path(&roads, 0, 0), Some(vec![0]));
}

#[test]
fn route_prefers_the_cheaper_branch() {
    let roads = vec![
        segment((0, 0), (100_000, 0), vec![2, 1]),
        segment((100_000, 0), (200_000, 0), vec![3]),
        segment((100_000, 0), (100_000, 500_000), vec![3]),
        segment((200_000, 0), (300_000, 0), vec![]),
    ];
    assert_eq!(find_shortest_path(&roads, 0, 3), Some(vec![0, 1, 3]));
}

#[test]
fn unreachable_destination_has_no_route() {
    let roads = vec![
        segment((0, 0), (100_000, 0), vec![1]),
        segment((100_000, 0), (200_000, 0), vec![0]),
        segment((200_000, 0), (300_000, 0), vec![]),
    ];
    assert_eq!(find_shortest_path(&roads, 0, 2), None);
    assert_eq!(find_shortest_path(&roads, 2, 0), None);
}

#[test]
fn out_of_range_successors_are_not_followed() {
    let roads = vec![
        segment((0, 0), (100_000, 0), vec![7, 1]),
        segment((100_000, 0), (200_000, 0), vec![]),
    ];
    assert_eq!(find_shortest_path(&roads, 0, 1), Some(vec![0, 1]));
}
