//! The world: the road network and the vehicles on it, and the tick that advances them.
use vstd::prelude::*;
use crate::geometry::{distance, Point};
use crate::kinematics::{SPEED_MAX, TICK_MAX};
use crate::road::{end_key, Road, RoadView, POSITION_MAX};
use crate::route::{consistent, find_shortest_path, is_route, reachable, route_cost};
use crate::vehicle::{
    arrived,
    roads_view,
    roads_wf,
    step,
    step_vehicle,
    vehicle_wf,
    vehicles_view,
    SimError,
    Vehicle,
    VehicleView,
    LENGTH_MAX,
};

verus! {

/// Default early-stop lead: braking aims to be done this many milliseconds of travel, at
/// the speed braking starts from, short of the hazard.
pub const EARLY_STOP_MS: u64 = 2000;

/// The road network and the vehicles on it.
#[derive(Debug)]
pub struct World {
    pub roads: Vec<Road>,
    /// In order of insertion, less those that have arrived.
    pub vehicles: Vec<Vehicle>,
    /// The early-stop lead braking uses, in milliseconds.
    pub early_stop_ms: u64,
}

/// The state after the first `n` vehicles have taken their step, in order: the segments
/// and the vehicles that have not arrived.
pub open spec fn tick_prefix(
    roads: Seq<RoadView>,
    vehicles: Seq<VehicleView>,
    n: nat,
    t: int,
    margin_ms: int,
) -> Result<(Seq<RoadView>, Seq<VehicleView>), SimError>
    decreases n,
{
    if n == 0 {
        Ok((roads, Seq::empty()))
    } else {
        match tick_prefix(roads, vehicles, (n - 1) as nat, t, margin_ms) {
            Err(e) => Err(e),
            Ok(state) => match step(state.0, vehicles[n - 1], t, margin_ms) {
                Err(e) => Err(e),
                Ok(res) => Ok(
                    (
                        res.0,
                        if res.2 {
                            state.1
                        } else {
                            state.1.push(res.1)
                        },
                    ),
                ),
            },
        }
    }
}

/// One tick: every vehicle takes its step in order, and those that have arrived leave.
pub open spec fn tick(roads: Seq<RoadView>, vehicles: Seq<VehicleView>, t: int, margin_ms: int) -> Result<
    (Seq<RoadView>, Seq<VehicleView>),
    SimError,
> {
    tick_prefix(roads, vehicles, vehicles.len(), t, margin_ms)
}

/// Once a step fails, the tick fails with the same error.
proof fn lemma_tick_prefix_err(
    roads: Seq<RoadView>,
    vehicles: Seq<VehicleView>,
    k: nat,
    n: nat,
    t: int,
    margin_ms: int,
)
    requires
        k <= n,
        tick_prefix(roads, vehicles, k, t, margin_ms) is Err,
    ensures
        tick_prefix(roads, vehicles, n, t, margin_ms) == tick_prefix(roads, vehicles, k, t, margin_ms),
    decreases n - k,
{
    if k < n {
        lemma_tick_prefix_err(roads, vehicles, k, (n - 1) as nat, t, margin_ms);
    }
}


/// A configuration fault, found when a segment or a vehicle is added or a world is loaded.
#[derive(Clone, Copy, Debug, PartialEq, Eq, Structural)]
pub enum WorldError {
    /// A coordinate lies beyond `COORD_LIMIT`.
    CoordinateOutOfRange,
    /// A speed, rate, position or distance lies beyond the range the arithmetic is proved for.
    ValueOutOfRange,
    /// A segment index names no segment.
    UnknownRoad,
    /// No route leads from a vehicle's segment to its destination.
    NoRoute,
}

/// A segment as a world description gives it.
#[derive(Debug)]
pub struct RoadData {
    pub from: Point,
    pub to: Point,
    pub lanes: u8,
    pub speed_limit: u64,
    pub from_road: Vec<usize>,
    pub to_road: Vec<usize>,
    pub end_speed_limit: u64,
}

/// A vehicle as a world description gives it.
#[derive(Clone, Copy, Debug, PartialEq, Eq, Structural)]
pub struct VehicleData {
    pub position: u64,
    pub velocity: u64,
    pub acceleration: u64,
    pub break_deceleration: u64,
    pub on_road: usize,
    pub watch_distance: u64,
    pub destination: usize,
    pub destination_position: u64,
}

/// Why a segment with these values cannot be added, if it cannot.
pub open spec fn road_error(from: Point, to: Point, speed_limit: u64, end_speed_limit: u64) -> Option<
    WorldError,
> {
    if !from.in_range() || !to.in_range() {
        Some(WorldError::CoordinateOutOfRange)
    } else if speed_limit > SPEED_MAX || end_speed_limit > SPEED_MAX {
        Some(WorldError::ValueOutOfRange)
    } else {
        None
    }
}

/// A new segment: its length computed and its obstacle map holding only the
/// end-of-segment entry.
pub open spec fn new_road(
    from: Point,
    to: Point,
    lanes: u8,
    speed_limit: u64,
    from_road: Seq<usize>,
    to_road: Seq<usize>,
    end_speed_limit: u64,
) -> RoadView {
    RoadView {
        from,
        to,
        length: distance(from, to) as u64,
        lanes,
        speed_limit,
        from_road,
        to_road,
        obstacles: Map::empty().insert(end_key(distance(from, to)) as i64, end_speed_limit),
        end_speed_limit,
    }
}

/// Why a vehicle with these values cannot be added to a network, if it cannot.
pub open spec fn vehicle_error(roads: Seq<RoadView>, d: VehicleData) -> Option<WorldError> {
    if d.on_road >= roads.len() || d.destination >= roads.len() {
        Some(WorldError::UnknownRoad)
    } else if d.velocity > SPEED_MAX || d.acceleration > SPEED_MAX || d.break_deceleration > SPEED_MAX
        || d.position > POSITION_MAX || d.watch_distance > POSITION_MAX || d.destination_position
        > POSITION_MAX {
        Some(WorldError::ValueOutOfRange)
    } else if !reachable(roads, d.on_road as int, d.destination as int) {
        Some(WorldError::NoRoute)
    } else {
        None
    }
}

/// `v` is the vehicle `d` describes, placed on the network: its values are those of `d`,
/// and its path is a route from its segment to its destination that repeats no segment,
/// less its first segment, and of least cost where the planner's estimate is consistent;
/// empty exactly when the vehicle starts on its destination.
pub open spec fn placed(v: VehicleView, d: VehicleData, roads: Seq<RoadView>) -> bool {
    &&& v.position == d.position
    &&& v.velocity == d.velocity
    &&& v.acceleration == d.acceleration
    &&& v.break_deceleration == d.break_deceleration
    &&& v.on_road == d.on_road
    &&& v.watch_distance == d.watch_distance
    &&& v.destination == d.destination
    &&& v.destination_position == d.destination_position
    &&& v.next_leg == 0
    &&& (v.path.len() == 0 <==> d.on_road == d.destination)
    &&& exists|p: Seq<usize>|
        is_route(roads, p, d.on_road as int, d.destination as int) && p.no_duplicates()
            && v.path == p.drop_first() && (consistent(roads, d.destination as int) ==> forall|
            q: Seq<usize>,
        |
            is_route(roads, q, d.on_road as int, d.destination as int) ==> route_cost(roads, p)
                <= route_cost(roads, q))
}

/// The first fault among segment descriptions, in order.
pub open spec fn roads_error(ds: Seq<RoadData>) -> Option<WorldError>
    decreases ds.len(),
{
    if ds.len() == 0 {
        None
    } else {
        match road_error(ds[0].from, ds[0].to, ds[0].speed_limit, ds[0].end_speed_limit) {
            Some(e) => Some(e),
            None => roads_error(ds.drop_first()),
        }
    }
}

/// The segments that descriptions give.
pub open spec fn built_roads(ds: Seq<RoadData>) -> Seq<RoadView> {
    ds.map_values(
        |d: RoadData|
            new_road(
                d.from,
                d.to,
                d.lanes,
                d.speed_limit,
                d.from_road@,
                d.to_road@,
                d.end_speed_limit,
            ),
    )
}

/// Every segment index that the segments hold names a segment.
pub open spec fn references_valid(roads: Seq<RoadView>) -> bool {
    &&& forall|i: int, k: int|
        0 <= i < roads.len() && 0 <= k < roads[i].to_road.len() ==> #[trigger] roads[i].to_road[k]
            < roads.len()
    &&& forall|i: int, k: int|
        0 <= i < roads.len() && 0 <= k < roads[i].from_road.len() ==> #[trigger] roads[i].from_road[k]
            < roads.len()
}

/// The first fault among vehicle descriptions, in order.
pub open spec fn vehicles_error(roads: Seq<RoadView>, ds: Seq<VehicleData>) -> Option<WorldError>
    decreases ds.len(),
{
    if ds.len() == 0 {
        None
    } else {
        match vehicle_error(roads, ds[0]) {
            Some(e) => Some(e),
            None => vehicles_error(roads, ds.drop_first()),
        }
    }
}

/// The fault that stops a world description from loading: the first faulty segment, else
/// a segment index naming no segment, else the first faulty vehicle.
pub open spec fn load_error(roads: Seq<RoadData>, vehicles: Seq<VehicleData>) -> Option<WorldError> {
    match roads_error(roads) {
        Some(e) => Some(e),
        None => if !references_valid(built_roads(roads)) {
            Some(WorldError::UnknownRoad)
        } else {
            vehicles_error(built_roads(roads), vehicles)
        },
    }
}


/// What a step never changes about a vehicle: its rates, its watch distance, where it is
/// bound and its route.
pub open spec fn same_vehicle(a: VehicleView, b: VehicleView) -> bool {
    &&& a.acceleration == b.acceleration
    &&& a.break_deceleration == b.break_deceleration
    &&& a.watch_distance == b.watch_distance
    &&& a.destination == b.destination
    &&& a.destination_position == b.destination_position
    &&& a.path == b.path
}

/// Whether vehicle `i` arrives during the tick: the outcome of its own step.
pub open spec fn arrives_in_tick(
    roads: Seq<RoadView>,
    vehicles: Seq<VehicleView>,
    i: int,
    t: int,
    margin_ms: int,
) -> bool {
    step(tick_prefix(roads, vehicles, i as nat, t, margin_ms)->Ok_0.0, vehicles[i], t, margin_ms)->Ok_0.2
}

/// `idx` maps the kept vehicles, in order, to the vehicles they were, and leaves out
/// exactly those that arrived.
pub open spec fn keeps_unarrived(
    roads: Seq<RoadView>,
    vehicles: Seq<VehicleView>,
    n: nat,
    kept: Seq<VehicleView>,
    idx: Seq<int>,
    t: int,
    margin_ms: int,
) -> bool {
    &&& idx.len() == kept.len()
    &&& forall|j: int|
        0 <= j < idx.len() ==> 0 <= #[trigger] idx[j] < n && same_vehicle(kept[j], vehicles[idx[j]])
    &&& forall|j: int, k: int| 0 <= j < k < idx.len() ==> #[trigger] idx[j] < #[trigger] idx[k]
    &&& forall|i: int|
        0 <= i < n ==> ((exists|j: int| 0 <= j < idx.len() && idx[j] == i) <==> !arrives_in_tick(
            roads,
            vehicles,
            i,
            t,
            margin_ms,
        ))
}

/// A step keeps what a vehicle is, and reports whether it has arrived.
proof fn lemma_step_outcome(roads: Seq<RoadView>, v: VehicleView, t: int, margin_ms: int)
    requires
        step(roads, v, t, margin_ms) is Ok,
    ensures
        same_vehicle(step(roads, v, t, margin_ms)->Ok_0.1, v),
        step(roads, v, t, margin_ms)->Ok_0.2 == arrived(step(roads, v, t, margin_ms)->Ok_0.1),
{
    reveal(step);
    let lens = crate::vehicle::lengths(roads);
    let v1 = crate::vehicle::crossed(lens, v);
    crate::vehicle::lemma_crossed(lens, v);
    let m = crate::vehicle::motion(crate::vehicle::withdrawn(roads, v), v1, t, margin_ms);
    crate::vehicle::lemma_crossed(lens, crate::vehicle::moved(v1, m));
}

#[verifier::spinoff_prover]
proof fn lemma_tick_prefix_removes_arrived(
    roads: Seq<RoadView>,
    vehicles: Seq<VehicleView>,
    n: nat,
    t: int,
    margin_ms: int,
)
    requires
        n <= vehicles.len(),
        tick_prefix(roads, vehicles, n, t, margin_ms) is Ok,
    ensures
        forall|j: int|
            0 <= j < tick_prefix(roads, vehicles, n, t, margin_ms)->Ok_0.1.len() ==> !arrived(
                #[trigger] tick_prefix(roads, vehicles, n, t, margin_ms)->Ok_0.1[j],
            ),
        exists|idx: Seq<int>|
            keeps_unarrived(
                roads,
                vehicles,
                n,
                tick_prefix(roads, vehicles, n, t, margin_ms)->Ok_0.1,
                idx,
                t,
                margin_ms,
            ),
    decreases n,
{
    if n == 0 {
        let idx = Seq::<int>::empty();
        let kept = tick_prefix(roads, vehicles, n, t, margin_ms)->Ok_0.1;
        assert(kept == Seq::<VehicleView>::empty());
        assert(keeps_unarrived(roads, vehicles, n, kept, idx, t, margin_ms));
    } else {
        let m = (n - 1) as nat;
        lemma_tick_prefix_removes_arrived(roads, vehicles, m, t, margin_ms);
        let state = tick_prefix(roads, vehicles, m, t, margin_ms)->Ok_0;
        let res = step(state.0, vehicles[m as int], t, margin_ms)->Ok_0;
        let kept = tick_prefix(roads, vehicles, n, t, margin_ms)->Ok_0.1;
        let idx0 = choose|idx: Seq<int>|
            keeps_unarrived(roads, vehicles, m, state.1, idx, t, margin_ms);
        assert(arrives_in_tick(roads, vehicles, m as int, t, margin_ms) == res.2);
        lemma_step_outcome(state.0, vehicles[m as int], t, margin_ms);
        if res.2 {
            assert(kept == state.1);
            assert(keeps_unarrived(roads, vehicles, n, kept, idx0, t, margin_ms)) by {
                assert forall|i: int| 0 <= i < n implies ((exists|j: int|
                    0 <= j < idx0.len() && idx0[j] == i) <==> !arrives_in_tick(
                    roads,
                    vehicles,
                    i,
                    t,
                    margin_ms,
                )) by {
                    if i == m {
                        if exists|j: int| 0 <= j < idx0.len() && idx0[j] == i {
                            let j = choose|j: int| 0 <= j < idx0.len() && idx0[j] == i;
                            assert(idx0[j] < m);
                        }
                    }
                }
            }
        } else {
            assert(kept == state.1.push(res.1));
            let idx = idx0.push(m as int);
            assert(keeps_unarrived(roads, vehicles, n, kept, idx, t, margin_ms)) by {
                assert forall|j: int| 0 <= j < idx.len() implies 0 <= #[trigger] idx[j] < n
                    && same_vehicle(kept[j], vehicles[idx[j]]) by {
                    if j < idx0.len() {
                        assert(idx[j] == idx0[j]);
                        assert(kept[j] == state.1[j]);
                    }
                }
                assert forall|j: int, k: int| 0 <= j < k < idx.len() implies #[trigger] idx[j]
                    < #[trigger] idx[k] by {
                    if k < idx0.len() {
                        assert(idx[j] == idx0[j] && idx[k] == idx0[k]);
                    } else {
                        assert(idx[j] == idx0[j]);
                    }
                }
                assert forall|i: int| 0 <= i < n implies ((exists|j: int|
                    0 <= j < idx.len() && idx[j] == i) <==> !arrives_in_tick(
                    roads,
                    vehicles,
                    i,
                    t,
                    margin_ms,
                )) by {
                    if i == m {
                        assert(idx[idx0.len() as int] == i);
                    } else {
                        if exists|j: int| 0 <= j < idx.len() && idx[j] == i {
                            let j = choose|j: int| 0 <= j < idx.len() && idx[j] == i;
                            assert(j < idx0.len());
                            assert(idx0[j] == i);
                        }
                        if exists|j: int| 0 <= j < idx0.len() && idx0[j] == i {
                            let j = choose|j: int| 0 <= j < idx0.len() && idx0[j] == i;
                            assert(idx[j] == i);
                        }
                    }
                }
            }
        }
        assert forall|j: int| 0 <= j < kept.len() implies !arrived(#[trigger] kept[j]) by {
            if j < state.1.len() {
                assert(kept[j] == state.1[j]);
            }
        }
    }
}

/// Across a tick, the vehicles that remain are exactly those that did not arrive, each
/// still the vehicle it was, in the order they had: none of them has arrived, and every
/// vehicle that arrived is gone.
pub proof fn lemma_tick_removes_arrived(
    roads: Seq<RoadView>,
    vehicles: Seq<VehicleView>,
    t: int,
    margin_ms: int,
)
    requires
        tick(roads, vehicles, t, margin_ms) is Ok,
    ensures
        forall|j: int|
            0 <= j < tick(roads, vehicles, t, margin_ms)->Ok_0.1.len() ==> !arrived(
                #[trigger] tick(roads, vehicles, t, margin_ms)->Ok_0.1[j],
            ),
        exists|idx: Seq<int>|
            keeps_unarrived(
                roads,
                vehicles,
                vehicles.len(),
                tick(roads, vehicles, t, margin_ms)->Ok_0.1,
                idx,
                t,
                margin_ms,
            ),
{
    lemma_tick_prefix_removes_arrived(roads, vehicles, vehicles.len(), t, margin_ms);
}

impl World {
    pub open spec fn wf(&self) -> bool {
        &&& roads_wf(roads_view(self.roads@))
        &&& forall|i: int|
            0 <= i < self.vehicles@.len() ==> vehicle_wf(
                #[trigger] self.vehicles@[i]@,
                self.roads@.len(),
            )
        &&& self.early_stop_ms <= TICK_MAX
    }

    /// An empty world.
    pub fn new() -> (w: World)
        ensures
            w.roads@.len() == 0,
            w.vehicles@.len() == 0,
            w.early_stop_ms == EARLY_STOP_MS,
            w.wf(),
    {
        World { roads: Vec::new(), vehicles: Vec::new(), early_stop_ms: EARLY_STOP_MS }
    }

    /// Removes every segment and every vehicle.
    pub fn reset(&mut self)
        requires
            old(self).wf(),
        ensures
            final(self).roads@.len() == 0,
            final(self).vehicles@.len() == 0,
            final(self).early_stop_ms == old(self).early_stop_ms,
            final(self).wf(),
    {
        self.roads.clear();
        self.vehicles.clear();
        assert(roads_view(self.roads@) =~= Seq::<RoadView>::empty());
    }

    /// Adds a segment from `from` to `to`. The segment indices it names are not checked
    /// here: a segment may name one that is added after it.
    pub fn add_road(
        &mut self,
        from: Point,
        to: Point,
        lanes: u8,
        speed_limit: u64,
        from_road: Vec<usize>,
        to_road: Vec<usize>,
        end_speed_limit: u64,
    ) -> (r: Result<(), WorldError>)
        requires
            old(self).wf(),
        ensures
            r == match road_error(from, to, speed_limit, end_speed_limit) {
                Some(e) => Err::<(), WorldError>(e),
                None => Ok(()),
            },
            r is Err ==> roads_view(final(self).roads@) == roads_view(old(self).roads@),
            r is Ok ==> roads_view(final(self).roads@) == roads_view(old(self).roads@).push(
                new_road(from, to, lanes, speed_limit, from_road@, to_road@, end_speed_limit),
            ),
            final(self).vehicles@ == old(self).vehicles@,
            final(self).early_stop_ms == old(self).early_stop_ms,
            final(self).wf(),
    {
        if !from.is_in_range() || !to.is_in_range() {
            return Err(WorldError::CoordinateOutOfRange);
        }
        if speed_limit > SPEED_MAX || end_speed_limit > SPEED_MAX {
            return Err(WorldError::ValueOutOfRange);
        }
        let ghost before = roads_view(self.roads@);
        let road = Road::new(from, to, lanes, speed_limit, from_road, to_road, end_speed_limit);
        self.roads.push(road);
        assert(roads_view(self.roads@) =~= before.push(road@));
        assert(crate::vehicle::road_wf(road@)) by {
            assert forall|k: i64| #[trigger] road@.obstacles.contains_key(k) implies road@.obstacles[k]
                <= SPEED_MAX by {
                assert(k == end_key(distance(from, to)) as i64);
            }
        }
        Ok(())
    }


    /// Replaces the whole world with the one described: every segment, in order, then
    /// every vehicle, in order, each with its route. Fails with the first fault found, and
    /// then leaves the world empty.
    pub fn load(&mut self, roads: Vec<RoadData>, vehicles: Vec<VehicleData>) -> (r: Result<
        (),
        WorldError,
    >)
        requires
            old(self).wf(),
        ensures
            r == match load_error(roads@, vehicles@) {
                Some(e) => Err::<(), WorldError>(e),
                None => Ok(()),
            },
            r is Err ==> final(self).roads@.len() == 0 && final(self).vehicles@.len() == 0,
            r is Ok ==> {
                &&& roads_view(final(self).roads@) == built_roads(roads@)
                &&& final(self).vehicles@.len() == vehicles@.len()
                &&& forall|i: int|
                    0 <= i < vehicles@.len() ==> placed(
                        #[trigger] final(self).vehicles@[i]@,
                        vehicles@[i],
                        built_roads(roads@),
                    )
            },
            final(self).early_stop_ms == old(self).early_stop_ms,
            final(self).wf(),
    {
        self.reset();
        let ghost ds = roads@;
        let n = roads.len();
        let mut pending = roads;
        let mut i: usize = 0;
        assert(roads_view(self.roads@) =~= built_roads(ds.subrange(0, 0)));
        assert(ds.subrange(0, n as int) =~= ds);
        while i < n
            invariant
                self.wf(),
                self.vehicles@.len() == 0,
                self.early_stop_ms == old(self).early_stop_ms,
                n == ds.len(),
                ds == roads@,
                i <= n,
                pending@ == ds.subrange(i as int, n as int),
                roads_view(self.roads@) == built_roads(ds.subrange(0, i as int)),
                roads_error(ds) == roads_error(ds.subrange(i as int, n as int)),
            decreases n - i,
        {
            let d = pending.remove(0);
            assert(ds.subrange(i as int, n as int).drop_first() =~= ds.subrange(i + 1, n as int));
            assert(ds.subrange(i as int, n as int)[0] == d);
            let ghost before = roads_view(self.roads@);
            match self.add_road(
                d.from,
                d.to,
                d.lanes,
                d.speed_limit,
                d.from_road,
                d.to_road,
                d.end_speed_limit,
            ) {
                Err(e) => {
                    self.reset();
                    return Err(e);
                },
                Ok(()) => {},
            }
            assert(built_roads(ds.subrange(0, i + 1)) =~= built_roads(ds.subrange(0, i as int)).push(
                new_road(d.from, d.to, d.lanes, d.speed_limit, d.from_road@, d.to_road@, d.end_speed_limit),
            ));
            i = i + 1;
        }
        assert(ds.subrange(0, n as int) =~= ds);
        assert(roads_error(ds.subrange(n as int, n as int)) is None);
        let ghost rv = roads_view(self.roads@);
        assert(rv == built_roads(ds));
        let count = self.roads.len();
        let mut a: usize = 0;
        while a < count
            invariant
                count == self.roads@.len(),
                rv == roads_view(self.roads@),
                rv == built_roads(ds),
                ds == roads@,
                roads_error(ds) is None,
                self.wf(),
                self.vehicles@.len() == 0,
                self.early_stop_ms == old(self).early_stop_ms,
                a <= count,
                forall|i: int, k: int|
                    0 <= i < a && 0 <= k < rv[i].to_road.len() ==> #[trigger] rv[i].to_road[k] < rv.len(),
                forall|i: int, k: int|
                    0 <= i < a && 0 <= k < rv[i].from_road.len() ==> #[trigger] rv[i].from_road[k]
                        < rv.len(),
            decreases count - a,
        {
            let mut k: usize = 0;
            while k < self.roads[a].to_road.len()
                invariant
                    count == self.roads@.len(),
                    rv == roads_view(self.roads@),
                    rv == built_roads(ds),
                    ds == roads@,
                    roads_error(ds) is None,
                    self.wf(),
                    self.vehicles@.len() == 0,
                    self.early_stop_ms == old(self).early_stop_ms,
                    a < count,
                    k <= rv[a as int].to_road.len(),
                    forall|k1: int| 0 <= k1 < k ==> #[trigger] rv[a as int].to_road[k1] < rv.len(),
                decreases rv[a as int].to_road.len() - k,
            {
                if self.roads[a].to_road[k] >= count {
                    assert(rv[a as int].to_road[k as int] >= rv.len());
                    self.reset();
                    return Err(WorldError::UnknownRoad);
                }
                k = k + 1;
            }
            let mut k: usize = 0;
            while k < self.roads[a].from_road.len()
                invariant
                    count == self.roads@.len(),
                    rv == roads_view(self.roads@),
                    rv == built_roads(ds),
                    ds == roads@,
                    roads_error(ds) is None,
                    self.wf(),
                    self.vehicles@.len() == 0,
                    self.early_stop_ms == old(self).early_stop_ms,
                    a < count,
                    k <= rv[a as int].from_road.len(),
                    forall|k1: int| 0 <= k1 < k ==> #[trigger] rv[a as int].from_road[k1] < rv.len(),
                decreases rv[a as int].from_road.len() - k,
            {
                if self.roads[a].from_road[k] >= count {
                    assert(rv[a as int].from_road[k as int] >= rv.len());
                    self.reset();
                    return Err(WorldError::UnknownRoad);
                }
                k = k + 1;
            }
            a = a + 1;
        }
        assert(references_valid(rv));
        let ghost vs = vehicles@;
        let m = vehicles.len();
        let mut j: usize = 0;
        assert(vs.subrange(0, m as int) =~= vs);
        while j < m
            invariant
                self.wf(),
                self.early_stop_ms == old(self).early_stop_ms,
                roads_view(self.roads@) == rv,
                rv == built_roads(ds),
                ds == roads@,
                roads_error(ds) is None,
                references_valid(rv),
                m == vs.len(),
                vs == vehicles@,
                j <= m,
                self.vehicles@.len() == j,
                forall|i: int|
                    0 <= i < j ==> placed(#[trigger] self.vehicles@[i]@, vs[i], rv),
                vehicles_error(rv, vs) == vehicles_error(rv, vs.subrange(j as int, m as int)),
            decreases m - j,
        {
            let d = vehicles[j];
            assert(vs.subrange(j as int, m as int).drop_first() =~= vs.subrange(j + 1, m as int));
            assert(vs.subrange(j as int, m as int)[0] == d);
            let ghost before = self.vehicles@;
            match self.add_vehicle(
                d.position,
                d.velocity,
                d.acceleration,
                d.break_deceleration,
                d.on_road,
                d.watch_distance,
                d.destination,
                d.destination_position,
            ) {
                Err(e) => {
                    self.reset();
                    return Err(e);
                },
                Ok(()) => {},
            }
            assert forall|i: int| 0 <= i < j + 1 implies placed(#[trigger] self.vehicles@[i]@, vs[i], rv) by {
                if i < j {
                    assert(self.vehicles@[i] == self.vehicles@.drop_last()[i]);
                }
            }
            j = j + 1;
        }
        assert(vehicles_error(rv, vs.subrange(m as int, m as int)) is None);
        Ok(())
    }

    /// Adds a vehicle on segment `on_road`, bound for `destination_position` on segment
    /// `destination`, with its route found by the route planner.
    pub fn add_vehicle(
        &mut self,
        position: u64,
        velocity: u64,
        acceleration: u64,
        break_deceleration: u64,
        on_road: usize,
        watch_distance: u64,
        destination: usize,
        destination_position: u64,
    ) -> (r: Result<(), WorldError>)
        requires
            old(self).wf(),
        ensures
            r == match vehicle_error(
                roads_view(old(self).roads@),
                (VehicleData {
                    position,
                    velocity,
                    acceleration,
                    break_deceleration,
                    on_road,
                    watch_distance,
                    destination,
                    destination_position,
                }),
            ) {
                Some(e) => Err::<(), WorldError>(e),
                None => Ok(()),
            },
            r is Err ==> final(self).vehicles@ == old(self).vehicles@,
            r is Ok ==> {
                &&& final(self).vehicles@.len() == old(self).vehicles@.len() + 1
                &&& final(self).vehicles@.drop_last() == old(self).vehicles@
                &&& placed(
                    final(self).vehicles@.last()@,
                    (VehicleData {
                        position,
                        velocity,
                        acceleration,
                        break_deceleration,
                        on_road,
                        watch_distance,
                        destination,
                        destination_position,
                    }),
                    roads_view(old(self).roads@),
                )
            },
            final(self).roads@ == old(self).roads@,
            final(self).early_stop_ms == old(self).early_stop_ms,
            final(self).wf(),
    {
        let n = self.roads.len();
        if on_road >= n || destination >= n {
            return Err(WorldError::UnknownRoad);
        }
        if velocity > SPEED_MAX || acceleration > SPEED_MAX || break_deceleration > SPEED_MAX
            || position > POSITION_MAX || watch_distance > POSITION_MAX || destination_position
            > POSITION_MAX {
            return Err(WorldError::ValueOutOfRange);
        }
        match find_shortest_path(&self.roads, on_road, destination) {
            None => Err(WorldError::NoRoute),
            Some(route) => {
                let ghost full = route@;
                let mut path = route;
                path.remove(0);
                assert(path@.len() == path.len());
                assert(path@ == full.drop_first());
                assert(path@.len() == 0 <==> on_road == destination) by {
                    if on_road != destination {
                        assert(full.len() >= 2);
                    }
                }
                let vehicle = Vehicle {
                    position,
                    velocity,
                    acceleration,
                    break_deceleration,
                    on_road,
                    watch_distance,
                    destination,
                    destination_position,
                    path,
                    next_leg: 0,
                };
                assert(forall|i: int| 0 <= i < path@.len() ==> #[trigger] path@[i] == full[i + 1]);
                let ghost before = self.vehicles@;
                self.vehicles.push(vehicle);
                assert(self.vehicles@.drop_last() =~= before);
                assert(self.vehicles@.last() == vehicle);
                Ok(())
            },
        }
    }
}

/// Advances every vehicle by a step of `t` milliseconds, in order, then removes those
/// that have arrived. Fails, ending the run, where a vehicle reaches the end of its
/// segment with no segment left in its path.
pub fn update_comp(t: u64, world: &mut World) -> (r: Result<(), SimError>)
    requires
        old(world).wf(),
        t <= TICK_MAX,
    ensures
        match tick(
            roads_view(old(world).roads@),
            vehicles_view(old(world).vehicles@),
            t as int,
            old(world).early_stop_ms as int,
        ) {
            Ok(res) => {
                &&& r == Ok::<(), SimError>(())
                &&& roads_view(final(world).roads@) == res.0
                &&& vehicles_view(final(world).vehicles@) == res.1
                &&& final(world).early_stop_ms == old(world).early_stop_ms
                &&& final(world).wf()
            },
            Err(e) => r == Err::<(), SimError>(e),
        },
{
    let ghost rv0 = roads_view(world.roads@);
    let ghost vs0 = vehicles_view(world.vehicles@);
    let ghost n_roads = world.roads@.len();
    let margin_ms = world.early_stop_ms;
    let mut pending: Vec<Vehicle> = Vec::new();
    std::mem::swap(&mut pending, &mut world.vehicles);
    let mut kept: Vec<Vehicle> = Vec::new();
    let n = pending.len();
    let mut i: usize = 0;
    assert(vehicles_view(kept@) =~= Seq::<VehicleView>::empty());
    while i < n
        invariant
            0 <= i <= n,
            n == vs0.len(),
            rv0 == roads_view(old(world).roads@),
            vs0 == vehicles_view(old(world).vehicles@),
            pending@.len() == n - i,
            forall|j: int| 0 <= j < n - i ==> #[trigger] pending@[j]@ == vs0[i + j],
            forall|j: int| 0 <= j < n - i ==> vehicle_wf(#[trigger] pending@[j]@, n_roads),
            forall|j: int| 0 <= j < kept@.len() ==> vehicle_wf(#[trigger] kept@[j]@, n_roads),
            world.roads@.len() == n_roads,
            roads_wf(roads_view(world.roads@)),
            tick_prefix(rv0, vs0, i as nat, t as int, margin_ms as int) == Ok::<
                (Seq<RoadView>, Seq<VehicleView>),
                SimError,
            >((roads_view(world.roads@), vehicles_view(kept@))),
            margin_ms == old(world).early_stop_ms,
            margin_ms == world.early_stop_ms,
            margin_ms <= TICK_MAX,
            t <= TICK_MAX,
        decreases n - i,
    {
        let ghost before = pending@;
        let mut v = pending.remove(0);
        assert(v@ == vs0[i as int]);
        assert forall|j: int| 0 <= j < n - i - 1 implies #[trigger] pending@[j]@ == vs0[i + 1 + j] by {
            assert(pending@[j] == before[j + 1]);
        }
        assert forall|j: int| 0 <= j < n - i - 1 implies vehicle_wf(#[trigger] pending@[j]@, n_roads) by {
            assert(pending@[j] == before[j + 1]);
        }
        let ghost kept_before = kept@;
        let ghost roads_before = roads_view(world.roads@);
        match step_vehicle(&mut v, &mut world.roads, t, margin_ms) {
            Err(e) => {
                proof {
                    assert(step(roads_before, vs0[i as int], t as int, margin_ms as int) == Err::<
                        (Seq<RoadView>, VehicleView, bool),
                        SimError,
                    >(e));
                    assert(tick_prefix(rv0, vs0, (i + 1) as nat, t as int, margin_ms as int) == Err::<
                        (Seq<RoadView>, Seq<VehicleView>),
                        SimError,
                    >(e));
                    lemma_tick_prefix_err(rv0, vs0, (i + 1) as nat, n as nat, t as int, margin_ms as int);
                    assert(tick(rv0, vs0, t as int, margin_ms as int) == Err::<
                        (Seq<RoadView>, Seq<VehicleView>),
                        SimError,
                    >(e));
                }
                return Err(e);
            },
            Ok(arrived) => {
                if !arrived {
                    kept.push(v);
                    assert(vehicles_view(kept@) =~= vehicles_view(kept_before).push(v@));
                }
            },
        }
        i = i + 1;
    }
    world.vehicles = kept;
    Ok(())
}

/// A world of two opposed 500-unit segments, each leading into the other, with speed
/// limit 100 and end-of-segment limit 10, and a vehicle starting from rest on each, bound
/// for the other segment.
pub fn sample_world() -> (w: World)
    ensures
        w.wf(),
        w.early_stop_ms == EARLY_STOP_MS,
        roads_view(w.roads@) == seq![
            new_road(
                Point { x: 0, y: 10_000, z: 0 },
                Point { x: 500_000, y: 10_000, z: 0 },
                1,
                100_000,
                seq![0usize],
                seq![1usize],
                10_000,
            ),
            new_road(
                Point { x: 500_000, y: -10_000i64, z: 0 },
                Point { x: 0, y: -10_000i64, z: 0 },
                1,
                100_000,
                seq![1usize],
                seq![0usize],
                10_000,
            ),
        ],
        w.vehicles@.len() == 2,
        w.vehicles@[0].path@ == seq![1usize],
        w.vehicles@[1].path@ == seq![0usize],
        placed(
            w.vehicles@[0]@,
            (VehicleData {
                position: 0,
                velocity: 0,
                acceleration: 5_000,
                break_deceleration: 10_000,
                on_road: 0,
                watch_distance: 200_000,
                destination: 1,
                destination_position: 250_000,
            }),
            roads_view(w.roads@),
        ),
        placed(
            w.vehicles@[1]@,
            (VehicleData {
                position: 0,
                velocity: 0,
                acceleration: 4_000,
                break_deceleration: 7_000,
                on_road: 1,
                watch_distance: 250_000,
                destination: 0,
                destination_position: 311_000,
            }),
            roads_view(w.roads@),
        ),
{
    let mut world = World::new();
    assert(roads_view(world.roads@) =~= Seq::<RoadView>::empty());
    let r0 = world.add_road(
        Point::new(0, 10_000, 0),
        Point::new(500_000, 10_000, 0),
        1,
        100_000,
        vec![0],
        vec![1],
        10_000,
    );
    assert(r0 is Ok);
    let r1 = world.add_road(
        Point::new(500_000, -10_000, 0),
        Point::new(0, -10_000, 0),
        1,
        100_000,
        vec![1],
        vec![0],
        10_000,
    );
    assert(r1 is Ok);
    let ghost rv = roads_view(world.roads@);
    assert(rv[0].to_road == seq![1usize]);
    assert(rv[1].to_road == seq![0usize]);
    assert(is_route(rv, seq![0usize, 1usize], 0, 1)) by {
        assert(rv[0].to_road[0] == 1usize);
    }
    assert(is_route(rv, seq![1usize, 0usize], 1, 0)) by {
        assert(rv[1].to_road[0] == 0usize);
    }
    let r2 = world.add_vehicle(0, 0, 5_000, 10_000, 0, 200_000, 1, 250_000);
    assert(r2 is Ok);
    let r3 = world.add_vehicle(0, 0, 4_000, 7_000, 1, 250_000, 0, 311_000);
    assert(r3 is Ok);
    assert(world.vehicles@[0] == world.vehicles@.drop_last()[0]);
    proof {
        lemma_two_segment_route(rv, 0, 1, world.vehicles@[0]@.path);
        lemma_two_segment_route(rv, 1, 0, world.vehicles@[1]@.path);
    }
    world
}

/// On a network of two segments, a route between the two that repeats no segment is the
/// direct one.
proof fn lemma_two_segment_route(rv: Seq<RoadView>, a: usize, b: usize, path: Seq<usize>)
    requires
        rv.len() == 2,
        a != b,
        exists|p: Seq<usize>|
            is_route(rv, p, a as int, b as int) && p.no_duplicates() && path == p.drop_first(),
    ensures
        path == seq![b],
{
    let p = choose|p: Seq<usize>|
        is_route(rv, p, a as int, b as int) && p.no_duplicates() && path == p.drop_first();
    assert(p.len() >= 2);
    if p.len() > 2 {
        assert(p[1] < 2);
        assert(p[1] != p[0]);
        assert(p[1] != p[p.len() - 1]);
    }
    assert(path =~= seq![b]);
}

} // verus!
