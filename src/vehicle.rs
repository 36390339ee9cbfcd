//! Vehicles and the per-vehicle step of the kinematics engine: segment transition,
//! obstacle scan, regime selection (destination braking, obstacle braking, free
//! acceleration), and the arrival check.
use vstd::prelude::*;
use crate::kinematics::{
    accelerate,
    accelerated,
    brake,
    braked,
    lemma_brake_stops_short,
    early_distance,
    DISP_MAX,
    SPEED_MAX,
    TICK_MAX,
};
use crate::road::{nearest, trail_key, trail_key_of, Hazard, Road, RoadView, POSITION_MAX};

verus! {

/// How far short of its destination position a stopped vehicle counts as arrived,
/// in milli-units.
pub const ARRIVAL_TOLERANCE: u64 = 10_000;

/// Longest segment the network holds, in milli-units.
pub const LENGTH_MAX: u64 = 0x1_0000_0000;

/// A fault that ends a run.
#[derive(Clone, Copy, Debug, PartialEq, Eq, Structural)]
pub enum SimError {
    /// A vehicle came to the end of its segment with no segment left in its path.
    PathExhausted,
}

/// A vehicle on the network.
#[derive(Debug)]
pub struct Vehicle {
    /// Distance along `on_road`.
    pub position: u64,
    pub velocity: u64,
    /// Rate used while under the speed limit.
    pub acceleration: u64,
    /// Largest rate of braking, as a magnitude.
    pub break_deceleration: u64,
    /// Index of the segment the vehicle is on.
    pub on_road: usize,
    /// How far ahead the vehicle senses hazards.
    pub watch_distance: u64,
    /// Index of the segment the vehicle is bound for.
    pub destination: usize,
    /// Where on `destination` it is to stop.
    pub destination_position: u64,
    /// The route, from the segment after the one the vehicle started on up to
    /// `destination`; fixed once computed.
    pub path: Vec<usize>,
    /// Index in `path` of the segment to take next.
    pub next_leg: usize,
}

pub struct VehicleView {
    pub position: u64,
    pub velocity: u64,
    pub acceleration: u64,
    pub break_deceleration: u64,
    pub on_road: usize,
    pub watch_distance: u64,
    pub destination: usize,
    pub destination_position: u64,
    pub path: Seq<usize>,
    pub next_leg: usize,
}

impl View for Vehicle {
    type V = VehicleView;

    open spec fn view(&self) -> VehicleView {
        VehicleView {
            position: self.position,
            velocity: self.velocity,
            acceleration: self.acceleration,
            break_deceleration: self.break_deceleration,
            on_road: self.on_road,
            watch_distance: self.watch_distance,
            destination: self.destination,
            destination_position: self.destination_position,
            path: self.path@,
            next_leg: self.next_leg,
        }
    }
}

pub open spec fn roads_view(roads: Seq<Road>) -> Seq<RoadView> {
    roads.map_values(|r: Road| r@)
}

pub open spec fn vehicles_view(vehicles: Seq<Vehicle>) -> Seq<VehicleView> {
    vehicles.map_values(|v: Vehicle| v@)
}

/// A segment whose values lie within the ranges the arithmetic is proved for.
pub open spec fn road_wf(r: RoadView) -> bool {
    &&& r.from.in_range()
    &&& r.to.in_range()
    &&& r.length <= LENGTH_MAX
    &&& r.speed_limit <= SPEED_MAX
    &&& r.end_speed_limit <= SPEED_MAX
    &&& forall|k: i64| #[trigger] r.obstacles.contains_key(k) ==> r.obstacles[k] <= SPEED_MAX
}

pub open spec fn roads_wf(roads: Seq<RoadView>) -> bool {
    forall|i: int| 0 <= i < roads.len() ==> road_wf(#[trigger] roads[i])
}

/// A vehicle whose segment indices are valid among `n` segments and whose values lie
/// within the ranges the arithmetic is proved for.
pub open spec fn vehicle_wf(v: VehicleView, n: nat) -> bool {
    &&& v.on_road < n
    &&& v.destination < n
    &&& v.next_leg <= v.path.len() <= usize::MAX
    &&& forall|i: int| 0 <= i < v.path.len() ==> #[trigger] v.path[i] < n
    &&& v.position <= POSITION_MAX
    &&& v.velocity <= SPEED_MAX
    &&& v.acceleration <= SPEED_MAX
    &&& v.break_deceleration <= SPEED_MAX
    &&& v.watch_distance <= POSITION_MAX
    &&& v.destination_position <= POSITION_MAX
}

/// The length of each segment.
pub open spec fn lengths(roads: Seq<RoadView>) -> Seq<u64> {
    roads.map_values(|r: RoadView| r.length)
}

/// The vehicle after crossing, along its path, every segment end it is at or past, the
/// distance beyond each end carried onto the next segment. It stops on the first segment
/// it lies within, or where its path is used up.
pub open spec fn crossed(lens: Seq<u64>, v: VehicleView) -> VehicleView
    decreases v.path.len() - v.next_leg,
{
    if v.next_leg < v.path.len() <= usize::MAX && v.position >= lens[v.on_road as int] {
        crossed(
            lens,
            VehicleView {
                on_road: v.path[v.next_leg as int],
                next_leg: (v.next_leg + 1) as usize,
                position: (v.position - lens[v.on_road as int]) as u64,
                ..v
            },
        )
    } else {
        v
    }
}

/// Crossing keeps what a vehicle is and never moves it forward; it ends within a segment
/// or with the path used up, and keeps a well-formed vehicle well-formed.
pub proof fn lemma_crossed(lens: Seq<u64>, v: VehicleView)
    ensures
        ({
            let w = crossed(lens, v);
            &&& w.velocity == v.velocity
            &&& w.acceleration == v.acceleration
            &&& w.break_deceleration == v.break_deceleration
            &&& w.watch_distance == v.watch_distance
            &&& w.destination == v.destination
            &&& w.destination_position == v.destination_position
            &&& w.path == v.path
            &&& w.position <= v.position
            &&& v.path.len() <= usize::MAX ==> (w.next_leg >= v.path.len() || w.position
                < lens[w.on_road as int])
            &&& vehicle_wf(v, lens.len()) ==> vehicle_wf(w, lens.len())
        }),
    decreases v.path.len() - v.next_leg,
{
    if v.next_leg < v.path.len() <= usize::MAX && v.position >= lens[v.on_road as int] {
        let u = VehicleView {
            on_road: v.path[v.next_leg as int],
            next_leg: (v.next_leg + 1) as usize,
            position: (v.position - lens[v.on_road as int]) as u64,
            ..v
        };
        lemma_crossed(lens, u);
        if vehicle_wf(v, lens.len()) {
            assert(vehicle_wf(u, lens.len()));
        }
    }
}

/// Whether a vehicle on its destination segment is closer to its stopping point than the
/// distance `velocity² / break_deceleration` it needs to stop.
pub open spec fn destination_braking(v: VehicleView) -> bool {
    &&& v.on_road == v.destination
    &&& (v.destination_position - v.position) * v.break_deceleration < v.velocity * v.velocity
}

/// Distance from a vehicle to its stopping point; 0 once past it.
pub open spec fn distance_to_stop(v: VehicleView) -> int {
    if v.destination_position > v.position {
        v.destination_position - v.position
    } else {
        0
    }
}

/// Whether a hazard calls for braking: it is not at the vehicle's own position and its
/// speed is below the vehicle's.
pub open spec fn brakes_for(h: Option<Hazard>, velocity: u64) -> bool {
    h matches Some(h) && h.distance != 0 && velocity > h.speed
}

/// Displacement and new velocity of a vehicle over a step, by regime: destination
/// braking toward 0, else obstacle braking toward the hazard's speed, else free
/// acceleration toward the segment's speed limit.
pub open spec fn motion(roads: Seq<RoadView>, v: VehicleView, t: int, margin_ms: int) -> (int, int) {
    let road = roads[v.on_road as int];
    let h = nearest(road.obstacles, v.position as int, v.watch_distance as int);
    if destination_braking(v) {
        braked(v.velocity as int, v.break_deceleration as int, t, distance_to_stop(v), 0, margin_ms)
    } else if brakes_for(h, v.velocity) {
        braked(
            v.velocity as int,
            v.break_deceleration as int,
            t,
            h->0.distance as int,
            h->0.speed as int,
            margin_ms,
        )
    } else {
        accelerated(v.velocity as int, v.acceleration as int, t, road.speed_limit as int)
    }
}

/// Whether a vehicle has arrived: on its destination segment, within the tolerance of its
/// stopping point or past it, and stopped.
pub open spec fn arrived(v: VehicleView) -> bool {
    &&& v.on_road == v.destination
    &&& v.position + ARRIVAL_TOLERANCE >= v.destination_position
    &&& v.velocity == 0
}

/// The segments with `r`'s obstacle map changed to `m`.
pub open spec fn with_map(roads: Seq<RoadView>, r: int, m: Map<i64, u64>) -> Seq<RoadView> {
    roads.update(r, roads[r].with_obstacles(m))
}

/// The segments once a vehicle's trailing-hazard entry has been withdrawn, as a step does
/// first.
pub open spec fn withdrawn(roads: Seq<RoadView>, v: VehicleView) -> Seq<RoadView> {
    with_map(
        roads,
        v.on_road as int,
        roads[v.on_road as int].obstacles.remove(trail_key(v.position as int) as i64),
    )
}

/// The vehicle moved by a displacement and given a new velocity.
pub open spec fn moved(v: VehicleView, m: (int, int)) -> VehicleView {
    VehicleView { position: (v.position + m.0) as u64, velocity: m.1 as u64, ..v }
}

/// The vehicle with its velocity brought down to the speed limit of its segment.
pub open spec fn within_limit(roads: Seq<RoadView>, v: VehicleView) -> VehicleView {
    let limit = roads[v.on_road as int].speed_limit;
    VehicleView {
        velocity: if v.velocity > limit {
            limit
        } else {
            v.velocity
        },
        ..v
    }
}

/// One vehicle's step. A vehicle at or past the end of its segment with no segment left in
/// its path fails the step. Otherwise: withdraw its trailing-hazard entry, cross any
/// segment end it is at or past, move it by its regime, cross the segment ends its motion
/// took it past (on the same step, the distance beyond each end carried over), bring its
/// velocity within the limit of the segment it ends on, and publish its entry there again
/// unless it has arrived. The result is the segments, the vehicle, and whether it has
/// arrived.
#[verifier::opaque]
pub open spec fn step(roads: Seq<RoadView>, v: VehicleView, t: int, margin_ms: int) -> Result<
    (Seq<RoadView>, VehicleView, bool),
    SimError,
> {
    let lens = lengths(roads);
    let v1 = crossed(lens, v);
    if v1.position >= lens[v1.on_road as int] {
        Err(SimError::PathExhausted)
    } else {
        let roads1 = withdrawn(roads, v);
        let v2 = within_limit(roads, crossed(lens, moved(v1, motion(roads1, v1, t, margin_ms))));
        if arrived(v2) {
            Ok((roads1, v2, true))
        } else {
            let r = v2.on_road as int;
            Ok(
                (
                    with_map(
                        roads1,
                        r,
                        roads1[r].obstacles.insert(trail_key(v2.position as int) as i64, v2.velocity),
                    ),
                    v2,
                    false,
                ),
            )
        }
    }
}

/// Where the vehicle ends up after crossing every segment end it is at or past: its
/// segment, next leg and position.
fn crossing(vehicle: &Vehicle, roads: &Vec<Road>) -> (r: (usize, usize, u64))
    requires
        vehicle_wf(vehicle@, roads@.len()),
    ensures
        r.0 == crossed(lengths(roads_view(roads@)), vehicle@).on_road,
        r.1 == crossed(lengths(roads_view(roads@)), vehicle@).next_leg,
        r.2 == crossed(lengths(roads_view(roads@)), vehicle@).position,
{
    let ghost lens = lengths(roads_view(roads@));
    let mut on_road = vehicle.on_road;
    let mut next_leg = vehicle.next_leg;
    let mut position = vehicle.position;
    while next_leg < vehicle.path.len() && position >= roads[on_road].length
        invariant
            lens == lengths(roads_view(roads@)),
            vehicle_wf(VehicleView { on_road, next_leg, position, ..vehicle@ }, roads@.len()),
            crossed(lens, VehicleView { on_road, next_leg, position, ..vehicle@ }) == crossed(
                lens,
                vehicle@,
            ),
        decreases vehicle.path.len() - next_leg,
    {
        assert(lens[on_road as int] == roads@[on_road as int].length);
        let len = roads[on_road].length;
        on_road = vehicle.path[next_leg];
        next_leg = next_leg + 1;
        position = position - len;
    }
    assert(lens[on_road as int] == roads@[on_road as int].length);
    (on_road, next_leg, position)
}

/// Crosses every segment end the vehicle is at or past, then scans the obstacle map of
/// the segment it is on ahead of it. Fails, changing nothing, where the vehicle is left
/// past the end of a segment with no segment left in its path.
pub fn check_road_obstacle(vehicle: &mut Vehicle, roads: &Vec<Road>) -> (r: Result<
    Option<Hazard>,
    SimError,
>)
    requires
        vehicle_wf(old(vehicle)@, roads@.len()),
    ensures
        ({
            let v1 = crossed(lengths(roads_view(roads@)), old(vehicle)@);
            if v1.position >= roads@[v1.on_road as int].length {
                &&& r == Err::<Option<Hazard>, SimError>(SimError::PathExhausted)
                &&& final(vehicle)@ == old(vehicle)@
            } else {
                &&& final(vehicle)@ == v1
                &&& r == Ok::<Option<Hazard>, SimError>(
                    nearest(
                        roads@[v1.on_road as int].obstacle_map@,
                        v1.position as int,
                        v1.watch_distance as int,
                    ),
                )
            }
        }),
        vehicle_wf(final(vehicle)@, roads@.len()),
{
    proof {
        lemma_crossed(lengths(roads_view(roads@)), vehicle@);
    }
    let (on_road, next_leg, position) = crossing(vehicle, roads);
    assert(lengths(roads_view(roads@))[on_road as int] == roads@[on_road as int].length);
    if position >= roads[on_road].length {
        return Err(SimError::PathExhausted);
    }
    vehicle.on_road = on_road;
    vehicle.next_leg = next_leg;
    vehicle.position = position;
    Ok(roads[on_road].nearest_obstacle(position, vehicle.watch_distance))
}

/// Whether the vehicle must start braking for its stopping point.
pub fn check_destination_start_break(vehicle: &Vehicle) -> (r: bool)
    requires
        vehicle.position <= POSITION_MAX,
        vehicle.destination_position <= POSITION_MAX,
        vehicle.velocity <= SPEED_MAX,
        vehicle.break_deceleration <= SPEED_MAX,
    ensures
        r == destination_braking(vehicle@),
{
    if vehicle.on_road == vehicle.destination {
        let v: u128 = vehicle.velocity as u128;
        let b: u128 = vehicle.break_deceleration as u128;
        if vehicle.destination_position < vehicle.position {
            // past the stopping point: any braking capacity calls for braking
            assert(vehicle.break_deceleration > 0 ==> (vehicle.destination_position
                - vehicle.position) * vehicle.break_deceleration < 0) by (nonlinear_arith)
                requires
                    vehicle.destination_position < vehicle.position,
            ;
            assert(vehicle.break_deceleration == 0 ==> (vehicle.destination_position
                - vehicle.position) * vehicle.break_deceleration == 0) by (nonlinear_arith);
            assert(vehicle.velocity > 0 <==> vehicle.velocity * vehicle.velocity > 0) by (nonlinear_arith);
            assert(vehicle.velocity * vehicle.velocity >= 0) by (nonlinear_arith);
            return vehicle.break_deceleration > 0 || vehicle.velocity > 0;
        }
        let remaining: u128 = (vehicle.destination_position - vehicle.position) as u128;
        proof {
            assert(remaining * b <= POSITION_MAX * SPEED_MAX) by (nonlinear_arith)
                requires
                    remaining <= POSITION_MAX,
                    b <= SPEED_MAX,
            ;
            assert(v * v <= SPEED_MAX * SPEED_MAX) by (nonlinear_arith)
                requires
                    v <= SPEED_MAX,
            ;
        }
        return remaining * b < v * v;
    }
    false
}

/// Free acceleration toward the speed limit over `t` milliseconds.
pub fn increase_speed(vehicle: &mut Vehicle, speed_limit: u64, t: u64)
    requires
        old(vehicle).velocity <= SPEED_MAX,
        old(vehicle).acceleration <= SPEED_MAX,
        old(vehicle).position <= LENGTH_MAX,
        speed_limit <= SPEED_MAX,
        t <= TICK_MAX,
    ensures
        final(vehicle)@ == (VehicleView {
            position: (old(vehicle).position + accelerated(
                old(vehicle).velocity as int,
                old(vehicle).acceleration as int,
                t as int,
                speed_limit as int,
            ).0) as u64,
            velocity: accelerated(
                old(vehicle).velocity as int,
                old(vehicle).acceleration as int,
                t as int,
                speed_limit as int,
            ).1 as u64,
            ..old(vehicle)@
        }),
        0 <= accelerated(
            old(vehicle).velocity as int,
            old(vehicle).acceleration as int,
            t as int,
            speed_limit as int,
        ).0 <= DISP_MAX,
        final(vehicle).position <= POSITION_MAX,
        final(vehicle).velocity <= speed_limit,
{
    let (d, v) = accelerate(vehicle.velocity, vehicle.acceleration, t, speed_limit);
    vehicle.position = vehicle.position + d;
    vehicle.velocity = v;
}

/// Braking toward `target`, `dist` ahead, over `t` milliseconds.
pub fn decrease_speed(vehicle: &mut Vehicle, t: u64, dist: u64, target: u64, margin_ms: u64)
    requires
        old(vehicle).velocity <= SPEED_MAX,
        old(vehicle).break_deceleration <= SPEED_MAX,
        old(vehicle).position <= LENGTH_MAX,
        dist <= POSITION_MAX,
        target <= SPEED_MAX,
        t <= TICK_MAX,
        margin_ms <= TICK_MAX,
    ensures
        final(vehicle)@ == (VehicleView {
            position: (old(vehicle).position + braked(
                old(vehicle).velocity as int,
                old(vehicle).break_deceleration as int,
                t as int,
                dist as int,
                target as int,
                margin_ms as int,
            ).0) as u64,
            velocity: braked(
                old(vehicle).velocity as int,
                old(vehicle).break_deceleration as int,
                t as int,
                dist as int,
                target as int,
                margin_ms as int,
            ).1 as u64,
            ..old(vehicle)@
        }),
        0 <= braked(
            old(vehicle).velocity as int,
            old(vehicle).break_deceleration as int,
            t as int,
            dist as int,
            target as int,
            margin_ms as int,
        ).0 <= DISP_MAX,
        final(vehicle).position <= POSITION_MAX,
        final(vehicle).velocity <= old(vehicle).velocity,
{
    let (d, v) = brake(vehicle.velocity, vehicle.break_deceleration, t, dist, target, margin_ms);
    vehicle.position = vehicle.position + d;
    vehicle.velocity = v;
}

/// Whether the vehicle has arrived at its destination.
pub fn has_arrived(vehicle: &Vehicle) -> (r: bool)
    requires
        vehicle.position <= POSITION_MAX,
    ensures
        r == arrived(vehicle@),
{
    vehicle.on_road == vehicle.destination && vehicle.position + ARRIVAL_TOLERANCE
        >= vehicle.destination_position && vehicle.velocity == 0
}

/// What the scan finds lies within the watch distance and carries a speed that the
/// segment's map holds.
proof fn lemma_nearest_in_range(r: RoadView, position: int, watch: int)
    requires
        road_wf(r),
        0 <= position,
        0 <= watch <= POSITION_MAX,
    ensures
        nearest(r.obstacles, position, watch) matches Some(h) ==> {
            &&& h.distance <= watch
            &&& h.speed <= SPEED_MAX
        },
{
    if exists|k: i64| crate::road::is_nearest(r.obstacles, position, watch, k) {
        let k = choose|k: i64| crate::road::is_nearest(r.obstacles, position, watch, k);
        assert(r.obstacles.contains_key(k));
    }
}

/// Advances one vehicle by a step of `t` milliseconds, keeping its trailing-hazard entry
/// in the obstacle maps up to date. `Ok(true)` where the vehicle has arrived. A failed step
/// changes nothing.
pub fn step_vehicle(vehicle: &mut Vehicle, roads: &mut Vec<Road>, t: u64, margin_ms: u64) -> (r:
    Result<bool, SimError>)
    requires
        roads_wf(roads_view(old(roads)@)),
        vehicle_wf(old(vehicle)@, old(roads)@.len()),
        t <= TICK_MAX,
        margin_ms <= TICK_MAX,
    ensures
        final(roads)@.len() == old(roads)@.len(),
        match step(roads_view(old(roads)@), old(vehicle)@, t as int, margin_ms as int) {
            Ok(res) => {
                &&& r == Ok::<bool, SimError>(res.2)
                &&& roads_view(final(roads)@) == res.0
                &&& final(vehicle)@ == res.1
                &&& roads_wf(res.0)
                &&& vehicle_wf(res.1, old(roads)@.len())
            },
            Err(e) => {
                &&& r == Err::<bool, SimError>(e)
                &&& final(roads)@ == old(roads)@
                &&& final(vehicle)@ == old(vehicle)@
            },
        },
{
    reveal(step);
    let ghost rv0 = roads_view(roads@);
    let ghost v0 = vehicle@;
    let ghost lens = lengths(rv0);
    proof {
        lemma_crossed(lens, v0);
    }
    let (first_road, _, first_position) = crossing(vehicle, roads);
    assert(lens[first_road as int] == roads@[first_road as int].length);
    if first_position >= roads[first_road].length {
        return Err(SimError::PathExhausted);
    }
    let stale = trail_key_of(vehicle.position);
    let cur = vehicle.on_road;
    roads[cur].obstacle_map.remove(&stale);
    let ghost rv1 = roads_view(roads@);
    assert(rv1 =~= with_map(rv0, cur as int, rv0[cur as int].obstacles.remove(stale)));
    assert(roads_wf(rv1)) by {
        assert forall|i: int| 0 <= i < rv1.len() implies road_wf(#[trigger] rv1[i]) by {
            assert(road_wf(rv0[i]));
            if i == cur as int {
                assert forall|k: i64| #[trigger] rv1[i].obstacles.contains_key(k) implies rv1[i].obstacles[k]
                    <= SPEED_MAX by {
                    assert(rv0[i].obstacles.contains_key(k));
                }
            }
        }
    }
    assert(lengths(rv1) =~= lens);
    let hazard = match check_road_obstacle(vehicle, roads) {
        Ok(h) => h,
        Err(e) => {
            return Err(e);
        },
    };
    let ghost v1 = vehicle@;
    assert(v1 == crossed(lens, v0));
    assert(rv1[v1.on_road as int] == roads@[v1.on_road as int]@);
    assert(hazard == nearest(rv1[v1.on_road as int].obstacles, v1.position as int, v1.watch_distance as int));
    proof {
        lemma_nearest_in_range(rv1[v1.on_road as int], v1.position as int, v1.watch_distance as int);
    }
    let limit = roads[vehicle.on_road].speed_limit;
    assert(limit == rv1[v1.on_road as int].speed_limit);
    if check_destination_start_break(vehicle) {
        let dist: u64 = if vehicle.destination_position > vehicle.position {
            vehicle.destination_position - vehicle.position
        } else {
            0
        };
        decrease_speed(vehicle, t, dist, 0, margin_ms);
    } else {
        match hazard {
            Some(h) => {
                if h.distance != 0 && vehicle.velocity > h.speed {
                    decrease_speed(vehicle, t, h.distance, h.speed, margin_ms);
                } else {
                    increase_speed(vehicle, limit, t);
                }
            },
            None => {
                increase_speed(vehicle, limit, t);
            },
        }
    }
    assert(vehicle@ == moved(v1, motion(rv1, v1, t as int, margin_ms as int)));
    let ghost v_moved = vehicle@;
    proof {
        lemma_crossed(lens, v_moved);
    }
    let (last_road, last_leg, last_position) = crossing(vehicle, roads);
    vehicle.on_road = last_road;
    vehicle.next_leg = last_leg;
    vehicle.position = last_position;
    assert(vehicle@ == crossed(lens, v_moved));
    let last_limit = roads[last_road].speed_limit;
    if vehicle.velocity > last_limit {
        vehicle.velocity = last_limit;
    }
    assert(vehicle@ == within_limit(rv0, crossed(lens, v_moved)));
    if has_arrived(vehicle) {
        return Ok(true);
    }
    let key = trail_key_of(vehicle.position);
    let now = vehicle.on_road;
    roads[now].obstacle_map.insert(key, vehicle.velocity);
    let ghost rv2 = roads_view(roads@);
    assert(rv2 =~= with_map(rv1, now as int, rv1[now as int].obstacles.insert(key, vehicle.velocity)));
    assert(roads_wf(rv2)) by {
        assert forall|i: int| 0 <= i < rv2.len() implies road_wf(#[trigger] rv2[i]) by {
            assert(road_wf(rv1[i]));
            if i == now as int {
                assert forall|k: i64| #[trigger] rv2[i].obstacles.contains_key(k) implies rv2[i].obstacles[k]
                    <= SPEED_MAX by {
                    if k != key {
                        assert(rv1[i].obstacles.contains_key(k));
                    }
                }
            }
        }
    }
    Ok(false)
}

/// After every step a vehicle is within the speed limit of the segment it ends on, also on
/// a step that takes it onto a slower segment, and its velocity is never negative.
pub proof fn lemma_step_respects_speed_limit(
    roads: Seq<RoadView>,
    v: VehicleView,
    t: int,
    margin_ms: int,
)
    ensures
        step(roads, v, t, margin_ms) matches Ok(res) ==> 0 <= res.1.velocity <= roads[res.1.on_road as int].speed_limit,
{
    reveal(step);
}

/// A vehicle whose motion over the step takes it past the end of its segment, with a
/// segment left in its path, ends the step on that next segment, on the same step, at the
/// distance it travelled beyond the end: the overshoot is carried over, not lost.
pub proof fn lemma_step_crosses_to_next_segment(
    roads: Seq<RoadView>,
    v: VehicleView,
    t: int,
    margin_ms: int,
)
    requires
        vehicle_wf(v, roads.len()),
        v.position < roads[v.on_road as int].length,
        v.next_leg < v.path.len(),
        ({
            let p = moved(v, motion(withdrawn(roads, v), v, t, margin_ms)).position;
            &&& p >= roads[v.on_road as int].length
            &&& p - roads[v.on_road as int].length < roads[v.path[v.next_leg as int] as int].length
        }),
    ensures
        ({
            let p = moved(v, motion(withdrawn(roads, v), v, t, margin_ms)).position;
            let res = step(roads, v, t, margin_ms)->Ok_0.1;
            &&& step(roads, v, t, margin_ms) is Ok
            &&& res.on_road == v.path[v.next_leg as int]
            &&& res.next_leg == v.next_leg + 1
            &&& res.position == p - roads[v.on_road as int].length
        }),
{
    reveal(step);
    let lens = lengths(roads);
    assert(crossed(lens, v) == v);
    let w = moved(v, motion(withdrawn(roads, v), v, t, margin_ms));
    let u = VehicleView {
        on_road: w.path[w.next_leg as int],
        next_leg: (w.next_leg + 1) as usize,
        position: (w.position - lens[w.on_road as int]) as u64,
        ..w
    };
    assert(crossed(lens, w) == crossed(lens, u));
    assert(crossed(lens, u) == u);
}

/// The hazard a vehicle sees in its step, once across to the segment it moves on.
pub open spec fn hazard_seen(roads: Seq<RoadView>, v: VehicleView) -> Option<Hazard> {
    let v1 = crossed(lengths(roads), v);
    nearest(
        withdrawn(roads, v)[v1.on_road as int].obstacles,
        v1.position as int,
        v1.watch_distance as int,
    )
}

/// A vehicle that brakes for a hazard ahead, with braking capacity enough to shed its
/// excess speed over the distance left once the early-stop lead is taken off, does not
/// reach the hazard within the step unless it is down to the hazard's speed.
pub proof fn lemma_step_stops_short_of_hazard(
    roads: Seq<RoadView>,
    v: VehicleView,
    t: int,
    margin_ms: int,
)
    requires
        0 <= t,
        0 <= margin_ms,
        ({
            let v1 = crossed(lengths(roads), v);
            let h = hazard_seen(roads, v);
            let e = early_distance(v1.velocity as int, h->0.distance as int, margin_ms);
            &&& !destination_braking(v1)
            &&& brakes_for(h, v1.velocity)
            &&& e > 0
            &&& v1.velocity * v1.velocity - h->0.speed * h->0.speed <= 2 * e * v1.break_deceleration
        }),
    ensures
        ({
            let v1 = crossed(lengths(roads), v);
            let h = hazard_seen(roads, v)->0;
            let m = motion(withdrawn(roads, v), v1, t, margin_ms);
            &&& h.speed <= m.1 <= v1.velocity
            &&& m.1 > h.speed ==> m.0 < h.distance
        }),
{
    let v1 = crossed(lengths(roads), v);
    let h = hazard_seen(roads, v)->0;
    lemma_brake_stops_short(
        v1.velocity as int,
        v1.break_deceleration as int,
        t,
        h.distance as int,
        h.speed as int,
        margin_ms,
    );
}

} // verus!
