//! Road segments and the obstacle map each one carries: a sparse index from a quantized
//! position along the segment to the speed that is in force there.
use vstd::prelude::*;
use std::collections::HashMap;
use vstd::std_specs::iter::IteratorSpec;
use crate::geometry::{distance, point_distance, Point};

verus! {

broadcast use vstd::std_specs::hash::group_hash_axioms;

/// Positions are quantized to a tenth of a world unit, in milli-units.
pub const QUANTUM: u64 = 100;

/// How far behind its quantized position a vehicle publishes itself: a run-behind margin
/// of one and a half units plus a hundredth of a unit that keeps the keys of vehicles
/// apart from the keys of road ends, which are whole quanta.
pub const TRAIL_OFFSET: i64 = 1510;

/// Largest position the obstacle map is keyed for, in milli-units.
pub const POSITION_MAX: u64 = 0x1000_0000_0000_0000;

/// A position rounded to the nearest quantum (halves round up).
pub open spec fn quantize(p: int) -> int {
    (p + QUANTUM / 2) / (QUANTUM as int) * QUANTUM
}

/// Key of the permanent entry that marks the end of a segment of the given length.
pub open spec fn end_key(length: int) -> int {
    quantize(length)
}

/// Key of the trailing-hazard entry of a vehicle at the given position.
pub open spec fn trail_key(position: int) -> int {
    quantize(position) - TRAIL_OFFSET
}

/// Whether an entry at `key` is ahead of a vehicle at `position` and within `watch`.
pub open spec fn in_sight(key: int, position: int, watch: int) -> bool {
    position <= key <= position + watch
}

/// `key` is the nearest entry of `m` in sight.
pub open spec fn is_nearest(m: Map<i64, u64>, position: int, watch: int, key: i64) -> bool {
    &&& m.contains_key(key)
    &&& in_sight(key as int, position, watch)
    &&& forall|j: i64|
        #![trigger m.contains_key(j)]
        m.contains_key(j) && in_sight(j as int, position, watch) ==> key <= j
}

/// The nearest hazard ahead: how far it is and the speed in force there.
#[derive(Clone, Copy, Debug, PartialEq, Eq, Structural)]
pub struct Hazard {
    pub distance: u64,
    pub speed: u64,
}

/// The nearest entry of `m` in sight of a vehicle at `position` watching `watch` ahead,
/// if there is one.
pub open spec fn nearest(m: Map<i64, u64>, position: int, watch: int) -> Option<Hazard> {
    if exists|k: i64| is_nearest(m, position, watch, k) {
        let k = choose|k: i64| is_nearest(m, position, watch, k);
        Some(Hazard { distance: (k - position) as u64, speed: m[k] })
    } else {
        None
    }
}

/// A directed road segment.
#[derive(Debug)]
pub struct Road {
    pub from: Point,
    pub to: Point,
    /// Distance from `from` to `to`, fixed at creation.
    pub length: u64,
    pub lanes: u8,
    pub speed_limit: u64,
    /// Segments that lead into this one.
    pub from_road: Vec<usize>,
    /// Segments reachable after this one.
    pub to_road: Vec<usize>,
    pub obstacle_map: HashMap<i64, u64>,
    /// The speed a vehicle must be down to by the end of the segment.
    pub end_speed_limit: u64,
}

pub struct RoadView {
    pub from: Point,
    pub to: Point,
    pub length: u64,
    pub lanes: u8,
    pub speed_limit: u64,
    pub from_road: Seq<usize>,
    pub to_road: Seq<usize>,
    pub obstacles: Map<i64, u64>,
    pub end_speed_limit: u64,
}

impl View for Road {
    type V = RoadView;

    open spec fn view(&self) -> RoadView {
        RoadView {
            from: self.from,
            to: self.to,
            length: self.length,
            lanes: self.lanes,
            speed_limit: self.speed_limit,
            from_road: self.from_road@,
            to_road: self.to_road@,
            obstacles: self.obstacle_map@,
            end_speed_limit: self.end_speed_limit,
        }
    }
}

impl RoadView {
    /// The same segment with another obstacle map.
    pub open spec fn with_obstacles(self, obstacles: Map<i64, u64>) -> RoadView {
        RoadView { obstacles, ..self }
    }
}

/// The key of the end-of-segment entry, computed.
pub fn end_key_of(length: u64) -> (k: i64)
    requires
        length <= POSITION_MAX,
    ensures
        k == end_key(length as int),
{
    ((length + QUANTUM / 2) / QUANTUM * QUANTUM) as i64
}

/// The key of a vehicle's trailing-hazard entry, computed.
pub fn trail_key_of(position: u64) -> (k: i64)
    requires
        position <= POSITION_MAX,
    ensures
        k == trail_key(position as int),
{
    ((position + QUANTUM / 2) / QUANTUM * QUANTUM) as i64 - TRAIL_OFFSET
}

impl Road {
    /// A segment from `from` to `to`, its obstacle map seeded with the end-of-segment
    /// entry that holds `end_speed_limit`.
    pub fn new(
        from: Point,
        to: Point,
        lanes: u8,
        speed_limit: u64,
        from_road: Vec<usize>,
        to_road: Vec<usize>,
        end_speed_limit: u64,
    ) -> (r: Road)
        requires
            from.in_range(),
            to.in_range(),
        ensures
            r@ == (RoadView {
                from,
                to,
                length: distance(from, to) as u64,
                lanes,
                speed_limit,
                from_road: from_road@,
                to_road: to_road@,
                obstacles: Map::empty().insert(
                    end_key(distance(from, to)) as i64,
                    end_speed_limit,
                ),
                end_speed_limit,
            }),
            r.length == distance(from, to),
            r.length <= 0x1_0000_0000,
    {
        let length = point_distance(&from, &to);
        let mut obstacle_map: HashMap<i64, u64> = HashMap::new();
        obstacle_map.insert(end_key_of(length), end_speed_limit);
        Road {
            from,
            to,
            length,
            lanes,
            speed_limit,
            from_road,
            to_road,
            obstacle_map,
            end_speed_limit,
        }
    }

    /// The nearest entry of the obstacle map in sight of a vehicle at `position` that
    /// watches `watch` ahead: its distance and speed, or `None` where no entry is in sight.
    pub fn nearest_obstacle(&self, position: u64, watch: u64) -> (r: Option<Hazard>)
        ensures
            r == nearest(self.obstacle_map@, position as int, watch as int),
    {
        let ghost m = self.obstacle_map@;
        let ghost items = vstd::std_specs::hash::spec_hash_map_iter(&self.obstacle_map).remaining();
        let ghost mut seen: int = 0;
        let mut best: Option<(i64, u64)> = None;
        for entry in it: self.obstacle_map.iter()
            invariant
                m == self.obstacle_map@,
                it.seq() == items,
                seen == it.index(),
                best is None ==> forall|j: int|
                    0 <= j < it.index() ==> !in_sight(
                        *it.seq()[j].0 as int,
                        position as int,
                        watch as int,
                    ),
                best matches Some(b) ==> {
                    &&& m.contains_key(b.0)
                    &&& m[b.0] == b.1
                    &&& in_sight(b.0 as int, position as int, watch as int)
                    &&& forall|j: int|
                        0 <= j < it.index() && in_sight(
                            *it.seq()[j].0 as int,
                            position as int,
                            watch as int,
                        ) ==> b.0 <= *it.seq()[j].0
                },
        {
            let (k, s) = entry;
            let key: i128 = *k as i128;
            if position as i128 <= key && key <= position as i128 + watch as i128 {
                match best {
                    None => {
                        best = Some((*k, *s));
                    },
                    Some(b) => {
                        if *k < b.0 {
                            best = Some((*k, *s));
                        }
                    },
                }
            }
            proof {
                seen = seen + 1;
            }
        }
        assert(seen == items.len());
        proof {
            assert forall|j: i64|
                #![trigger m.contains_key(j)]
                m.contains_key(j) implies exists|i: int|
                    0 <= i < items.len() && *items[i].0 == j by {
                assert(items.contains((&j, &m[j])));
            }
        }
        match best {
            None => {
                assert(!exists|k: i64| is_nearest(m, position as int, watch as int, k)) by {
                    if exists|k: i64| is_nearest(m, position as int, watch as int, k) {
                        let k = choose|k: i64| is_nearest(m, position as int, watch as int, k);
                        assert(m.contains_key(k));
                    }
                }
                None
            },
            Some(b) => {
                assert(is_nearest(m, position as int, watch as int, b.0));
                let ghost k = choose|k: i64| is_nearest(m, position as int, watch as int, k);
                assert(k == b.0) by {
                    assert(m.contains_key(k));
                    assert(m.contains_key(b.0));
                }
                Some(Hazard { distance: (b.0 as i128 - position as i128) as u64, speed: b.1 })
            },
        }
    }
}

/// Publishing a trailing-hazard entry and withdrawing it again at the same key leaves the
/// map as withdrawing alone would, and leaves the end-of-segment entry untouched.
pub proof fn lemma_trail_round_trip(m: Map<i64, u64>, length: int, position: int, speed: u64)
    requires
        0 <= length <= POSITION_MAX,
        0 <= position <= POSITION_MAX,
        m.contains_key(end_key(length) as i64),
    ensures
        m.insert(trail_key(position) as i64, speed).remove(trail_key(position) as i64) == m.remove(
            trail_key(position) as i64,
        ),
        m.insert(trail_key(position) as i64, speed).remove(trail_key(position) as i64).contains_key(
            end_key(length) as i64,
        ),
        m.insert(trail_key(position) as i64, speed).remove(trail_key(position) as i64)[end_key(
            length,
        ) as i64] == m[end_key(length) as i64],
{
    let qe = (length + QUANTUM / 2) / (QUANTUM as int);
    let qt = (position + QUANTUM / 2) / (QUANTUM as int);
    assert(0 <= qe <= POSITION_MAX);
    assert(0 <= qt <= POSITION_MAX);
    assert(end_key(length) == qe * 100);
    assert(trail_key(position) == qt * 100 - 1510);
    assert(end_key(length) != trail_key(position));
    assert(m.insert(trail_key(position) as i64, speed).remove(trail_key(position) as i64) =~= m.remove(
        trail_key(position) as i64,
    ));
}

} // verus!
