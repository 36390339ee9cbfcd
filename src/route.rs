//! Route planning: best-first (A*) search over the road network.
//!
//! The cost of stepping from one segment to the next is the distance from the end of the
//! first to the start of the second; the heuristic is the distance from the end of a
//! segment to the end of the destination segment. Entries of equal priority leave the
//! frontier in the order they were added.
use vstd::prelude::*;
use crate::geometry::{distance, point_distance};
use crate::road::{Road, RoadView};
use crate::vehicle::{road_wf, roads_view, roads_wf};

verus! {

/// Segment `j` can be entered from segment `i`.
pub open spec fn edge(roads: Seq<RoadView>, i: int, j: int) -> bool {
    &&& 0 <= i < roads.len()
    &&& 0 <= j < roads.len()
    &&& roads[i].to_road.contains(j as usize)
}

/// `p` is a route from `start` to `dest`: it begins at `start`, ends at `dest`, and each
/// segment of it can be entered from the one before.
pub open spec fn is_route(roads: Seq<RoadView>, p: Seq<usize>, start: int, dest: int) -> bool {
    &&& p.len() > 0
    &&& p[0] == start
    &&& p[p.len() - 1] == dest
    &&& forall|k: int| 0 <= k < p.len() ==> #[trigger] p[k] < roads.len()
    &&& forall|k: int| 0 <= k < p.len() - 1 ==> edge(roads, #[trigger] p[k] as int, p[k + 1] as int)
}

/// Some route leads from `start` to `dest`.
pub open spec fn reachable(roads: Seq<RoadView>, start: int, dest: int) -> bool {
    exists|p: Seq<usize>| is_route(roads, p, start, dest)
}

/// Cost of entering segment `j` from segment `i`: the distance from the end of `i` to the
/// start of `j`.
pub open spec fn entry_cost(roads: Seq<RoadView>, i: int, j: int) -> int {
    distance(roads[i].to, roads[j].from)
}

/// The search's estimate of the cost from segment `i` to segment `dest`: the distance
/// between their end points.
pub open spec fn estimate(roads: Seq<RoadView>, i: int, dest: int) -> int {
    distance(roads[i].to, roads[dest].to)
}

/// Cost of a route: the sum of the costs of entering each of its segments after the first.
pub open spec fn route_cost(roads: Seq<RoadView>, p: Seq<usize>) -> int
    decreases p.len(),
{
    if p.len() <= 1 {
        0
    } else {
        entry_cost(roads, p[0] as int, p[1] as int) + route_cost(roads, p.drop_first())
    }
}

/// The estimate never drops by more than the cost of a step toward `dest`.
pub open spec fn consistent(roads: Seq<RoadView>, dest: int) -> bool {
    forall|i: int, j: int|
        #[trigger] edge(roads, i, j) ==> estimate(roads, i, dest) <= entry_cost(roads, i, j)
            + estimate(roads, j, dest)
}

/// The cost of a route splits at any of its segments.
proof fn lemma_route_cost_split(roads: Seq<RoadView>, p: Seq<usize>, k: int)
    requires
        0 <= k < p.len(),
    ensures
        route_cost(roads, p) == route_cost(roads, p.subrange(0, k + 1)) + route_cost(
            roads,
            p.subrange(k, p.len() as int),
        ),
    decreases p.len(),
{
    if k == 0 {
        assert(p.subrange(0, p.len() as int) =~= p);
        assert(route_cost(roads, p.subrange(0, 1)) == 0);
    } else {
        let d = p.drop_first();
        lemma_route_cost_split(roads, d, k - 1);
        assert(p.subrange(0, k + 1).drop_first() =~= d.subrange(0, k));
        assert(d.subrange(k - 1, d.len() as int) =~= p.subrange(k, p.len() as int));
    }
}

/// Along a route, a consistent estimate drops by at most the route's cost.
proof fn lemma_estimate_along_route(roads: Seq<RoadView>, p: Seq<usize>, a: int, b: int, dest: int)
    requires
        consistent(roads, dest),
        is_route(roads, p, a, b),
    ensures
        estimate(roads, a, dest) <= route_cost(roads, p) + estimate(roads, b, dest),
    decreases p.len(),
{
    if p.len() > 1 {
        let d = p.drop_first();
        assert(is_route(roads, d, p[1] as int, b)) by {
            assert forall|k: int| 0 <= k < d.len() - 1 implies edge(
                roads,
                #[trigger] d[k] as int,
                d[k + 1] as int,
            ) by {
                assert(edge(roads, p[k + 1] as int, p[k + 2] as int));
            }
            assert forall|k: int| 0 <= k < d.len() implies #[trigger] d[k] < roads.len() by {
                assert(p[k + 1] < roads.len());
            }
        }
        lemma_estimate_along_route(roads, d, p[1] as int, b, dest);
        assert(edge(roads, p[0] as int, p[1] as int));
    }
}

/// The part of a route from its `k`-th segment on is a route.
proof fn lemma_route_suffix(roads: Seq<RoadView>, p: Seq<usize>, a: int, b: int, k: int)
    requires
        is_route(roads, p, a, b),
        0 <= k < p.len(),
    ensures
        is_route(roads, p.subrange(k, p.len() as int), p[k] as int, b),
{
    let s = p.subrange(k, p.len() as int);
    assert forall|i: int| 0 <= i < s.len() - 1 implies edge(roads, #[trigger] s[i] as int, s[i + 1] as int) by {
        assert(edge(roads, p[k + i] as int, p[k + i + 1] as int));
    }
    assert forall|i: int| 0 <= i < s.len() implies #[trigger] s[i] < roads.len() by {
        assert(p[k + i] < roads.len());
    }
}

/// The part of a route up to its `k`-th segment is a route.
proof fn lemma_route_prefix(roads: Seq<RoadView>, p: Seq<usize>, a: int, b: int, k: int)
    requires
        is_route(roads, p, a, b),
        0 <= k < p.len(),
    ensures
        is_route(roads, p.subrange(0, k + 1), a, p[k] as int),
{
    let s = p.subrange(0, k + 1);
    assert forall|i: int| 0 <= i < s.len() - 1 implies edge(roads, #[trigger] s[i] as int, s[i + 1] as int) by {
        assert(edge(roads, p[i] as int, p[i + 1] as int));
    }
    assert forall|i: int| 0 <= i < s.len() implies #[trigger] s[i] < roads.len() by {
        assert(p[i] < roads.len());
    }
}

/// The first segment of a route that is not closed, where its last one is not.
proof fn lemma_first_open(closed: Seq<bool>, p: Seq<usize>, i: int) -> (k: int)
    requires
        0 <= i < p.len(),
        forall|j: int| 0 <= j < p.len() ==> 0 <= #[trigger] p[j] < closed.len(),
        !closed[p[p.len() - 1] as int],
        forall|j: int| 0 <= j < i ==> closed[#[trigger] p[j] as int],
    ensures
        i <= k < p.len(),
        !closed[p[k] as int],
        forall|j: int| 0 <= j < k ==> closed[#[trigger] p[j] as int],
    decreases p.len() - i,
{
    if !closed[p[i] as int] {
        i
    } else {
        lemma_first_open(closed, p, i + 1)
    }
}

/// An entry of the frontier: priority `f`, cost so far `g`, and the segment.
#[derive(Clone, Copy)]
struct Frontier {
    f: u128,
    g: u128,
    node: usize,
}

/// Number of `true` entries.
spec fn count_true(s: Seq<bool>) -> nat
    decreases s.len(),
{
    if s.len() == 0 {
        0
    } else {
        count_true(s.drop_last()) + if s.last() {
            1nat
        } else {
            0nat
        }
    }
}

proof fn lemma_count_true_bound(s: Seq<bool>)
    ensures
        count_true(s) <= s.len(),
    decreases s.len(),
{
    if s.len() > 0 {
        lemma_count_true_bound(s.drop_last());
    }
}

proof fn lemma_count_true_set(s: Seq<bool>, i: int)
    requires
        0 <= i < s.len(),
        !s[i],
    ensures
        count_true(s.update(i, true)) == count_true(s) + 1,
    decreases s.len(),
{
    let t = s.update(i, true);
    if i == s.len() - 1 {
        assert(t.drop_last() =~= s.drop_last());
    } else {
        assert(t.drop_last() =~= s.drop_last().update(i, true));
        lemma_count_true_set(s.drop_last(), i);
    }
}

proof fn lemma_count_true_none(s: Seq<bool>)
    requires
        forall|i: int| 0 <= i < s.len() ==> !s[i],
    ensures
        count_true(s) == 0,
    decreases s.len(),
{
    if s.len() > 0 {
        lemma_count_true_none(s.drop_last());
    }
}

/// A route from `start` stays within any set of segments that holds `start` and every
/// segment that can be entered from a segment of the set.
proof fn lemma_route_stays_inside(
    roads: Seq<RoadView>,
    known: Seq<Option<u128>>,
    p: Seq<usize>,
    start: int,
    dest: int,
    k: int,
)
    requires
        known.len() == roads.len(),
        is_route(roads, p, start, dest),
        known[start] is Some,
        forall|x: int, j: int|
            0 <= x < roads.len() && known[x] is Some && #[trigger] edge(roads, x, j) ==> known[j] is Some,
        0 <= k < p.len(),
    ensures
        known[p[k] as int] is Some,
    decreases k,
{
    if k > 0 {
        lemma_route_stays_inside(roads, known, p, start, dest, k - 1);
        assert(edge(roads, p[k - 1] as int, p[k] as int));
    }
}

/// Takes out the first entry of least priority.
fn pop_min(queue: &mut Vec<Frontier>) -> (r: (Frontier, Ghost<int>))
    requires
        old(queue).len() > 0,
    ensures
        0 <= r.1@ < old(queue).len(),
        r.0 == old(queue)@[r.1@],
        final(queue)@ == old(queue)@.remove(r.1@),
        forall|j: int| 0 <= j < old(queue).len() ==> r.0.f <= #[trigger] old(queue)@[j].f,
        forall|j: int| 0 <= j < r.1@ ==> r.0.f < #[trigger] old(queue)@[j].f,
{
    let mut best: usize = 0;
    let mut i: usize = 1;
    while i < queue.len()
        invariant
            1 <= i <= queue.len(),
            best < i,
            forall|j: int| 0 <= j < i ==> queue@[best as int].f <= #[trigger] queue@[j].f,
            forall|j: int| 0 <= j < best ==> queue@[best as int].f < #[trigger] queue@[j].f,
        decreases queue.len() - i,
    {
        if queue[i].f < queue[best].f {
            best = i;
        }
        i = i + 1;
    }
    let e = queue.remove(best);
    (e, Ghost(best as int))
}

/// Cost of entering segment `j` from segment `i`.
fn step_cost(roads: &Vec<Road>, i: usize, j: usize) -> (c: u128)
    requires
        i < roads.len(),
        j < roads.len(),
        roads_wf(roads_view(roads@)),
    ensures
        c == distance(roads@[i as int].to, roads@[j as int].from),
        c <= 0x1_0000_0000,
{
    assert(road_wf(roads_view(roads@)[i as int]));
    assert(road_wf(roads_view(roads@)[j as int]));
    point_distance(&roads[i].to, &roads[j].from) as u128
}

/// Estimated cost from segment `i` to segment `dest`.
fn heuristic(roads: &Vec<Road>, i: usize, dest: usize) -> (h: u128)
    requires
        i < roads.len(),
        dest < roads.len(),
        roads_wf(roads_view(roads@)),
    ensures
        h == distance(roads@[i as int].to, roads@[dest as int].to),
        h <= 0x1_0000_0000,
{
    assert(road_wf(roads_view(roads@)[i as int]));
    assert(road_wf(roads_view(roads@)[dest as int]));
    point_distance(&roads[i].to, &roads[dest].to) as u128
}

proof fn lemma_still_queued(q0: Seq<Frontier>, qi: int, y: usize, g: u128)
    requires
        0 <= qi < q0.len(),
        q0[qi].node != y,
        exists|q: int| 0 <= q < q0.len() && (#[trigger] q0[q]).node == y && q0[q].g == g,
    ensures
        exists|q: int|
            0 <= q < q0.remove(qi).len() && (#[trigger] q0.remove(qi)[q]).node == y && q0.remove(qi)[q].g
                == g,
{
    let q = choose|q: int| 0 <= q < q0.len() && (#[trigger] q0[q]).node == y && q0[q].g == g;
    let q1 = q0.remove(qi);
    if q < qi {
        assert(q1[q] == q0[q]);
    } else {
        assert(q1[q - 1] == q0[q]);
    }
}

/// Under a consistent estimate, the frontier entry of least priority carries a cost no
/// greater than that of any route to its segment.
proof fn lemma_pop_is_optimal(
    rv: Seq<RoadView>,
    dist: Seq<Option<u128>>,
    closed: Seq<bool>,
    queue: Seq<Frontier>,
    start: int,
    dest: int,
    e: Frontier,
    r: Seq<usize>,
)
    requires
        consistent(rv, dest),
        dist.len() == rv.len(),
        closed.len() == rv.len(),
        0 <= start < rv.len(),
        is_route(rv, r, start, e.node as int),
        !closed[e.node as int],
        dist[e.node as int] is Some,
        e.f == e.g + estimate(rv, e.node as int, dest),
        e.g >= dist[e.node as int]->0,
        dist[start] == Some(0u128),
        forall|q: int| 0 <= q < queue.len() ==> e.f <= #[trigger] queue[q].f,
        forall|q: int|
            0 <= q < queue.len() ==> (#[trigger] queue[q]).f == queue[q].g + estimate(
                rv,
                queue[q].node as int,
                dest,
            ),
        forall|y: int|
            0 <= y < rv.len() && #[trigger] dist[y] is Some && !closed[y] ==> exists|q: int|
                0 <= q < queue.len() && (#[trigger] queue[q]).node == y && queue[q].g == dist[y]->0,
        forall|z: int, y: int|
            0 <= z < rv.len() && closed[z] && #[trigger] edge(rv, z, y) && !closed[y] ==> dist[y] is Some
                && dist[y]->0 <= dist[z]->0 + entry_cost(rv, z, y),
        forall|x: int, p: Seq<usize>|
            0 <= x < rv.len() && closed[x] && #[trigger] is_route(rv, p, start, x) ==> dist[x] is Some
                && dist[x]->0 <= route_cost(rv, p),
    ensures
        dist[e.node as int]->0 <= route_cost(rv, r),
{
    let k = lemma_first_open(closed, r, 0);
    let y = r[k] as int;
    lemma_route_cost_split(rv, r, k);
    lemma_route_suffix(rv, r, start, e.node as int, k);
    lemma_estimate_along_route(rv, r.subrange(k, r.len() as int), y, e.node as int, dest);
    if k == 0 {
        assert(route_cost(rv, r.subrange(0, 1)) == 0);
    } else {
        let z = r[k - 1] as int;
        assert(edge(rv, z, y));
        lemma_route_prefix(rv, r, start, e.node as int, k - 1);
        assert(dist[z]->0 <= route_cost(rv, r.subrange(0, k)));
        let pre = r.subrange(0, k + 1);
        lemma_route_cost_split(rv, pre, k - 1);
        assert(pre.subrange(0, k) =~= r.subrange(0, k));
        assert(route_cost(rv, pre.subrange(k - 1, k + 1)) == entry_cost(rv, z, y)) by {
            let two = pre.subrange(k - 1, k + 1);
            assert(two[0] == z && two[1] == y);
            assert(two.drop_first().len() == 1);
            assert(route_cost(rv, two.drop_first()) == 0);
        }
    }
    assert(dist[y] is Some);
    let q = choose|q: int|
        0 <= q < queue.len() && (#[trigger] queue[q]).node == y && queue[q].g == dist[y]->0;
    assert(e.f <= queue[q].f);
}

/// Order of segments along the predecessor links: a closed segment ranks by when it was
/// closed, any other above all closed ones.
spec fn rank(closed: Seq<bool>, stamp: Seq<nat>, c: nat, x: int) -> nat {
    if closed[x] {
        stamp[x] + 1
    } else {
        c + 1
    }
}

/// Weight of one closed segment in the bound on costs.
spec fn cost_unit() -> int {
    0x2_0000_0000
}

/// The segments of a route from `start_road` to `destination_road`, found by A* search;
/// `None` where no route exists.
#[verifier::rlimit(100)]
#[verifier::spinoff_prover]
pub fn find_shortest_path(roads: &Vec<Road>, start_road: usize, destination_road: usize) -> (r:
    Option<Vec<usize>>)
    requires
        start_road < roads.len(),
        destination_road < roads.len(),
        roads_wf(roads_view(roads@)),
    ensures
        match r {
            Some(p) => {
                &&& is_route(roads_view(roads@), p@, start_road as int, destination_road as int)
                &&& p@.no_duplicates()
                &&& start_road == destination_road ==> p@ == seq![start_road]
                &&& consistent(roads_view(roads@), destination_road as int) ==> forall|q: Seq<usize>|
                    is_route(roads_view(roads@), q, start_road as int, destination_road as int)
                        ==> route_cost(roads_view(roads@), p@) <= route_cost(roads_view(roads@), q)
            },
            None => !reachable(roads_view(roads@), start_road as int, destination_road as int),
        },
{
    let ghost rv = roads_view(roads@);
    let n = roads.len();
    let mut dist: Vec<Option<u128>> = Vec::new();
    let mut prev: Vec<Option<usize>> = Vec::new();
    let mut closed: Vec<bool> = Vec::new();
    let mut i: usize = 0;
    while i < n
        invariant
            i <= n,
            dist@.len() == i,
            prev@.len() == i,
            closed@.len() == i,
            forall|j: int| 0 <= j < i ==> #[trigger] dist@[j] == None::<u128>,
            forall|j: int| 0 <= j < i ==> #[trigger] prev@[j] == None::<usize>,
            forall|j: int| 0 <= j < i ==> !#[trigger] closed@[j],
        decreases n - i,
    {
        let ghost d0 = dist@;
        let ghost p0 = prev@;
        let ghost c0 = closed@;
        dist.push(None);
        prev.push(None);
        closed.push(false);
        assert(dist@ == d0.push(None));
        assert(forall|j: int| 0 <= j < i ==> dist@[j] == d0[j]);
        i = i + 1;
    }
    let ghost d_init = dist@;
    dist[start_road] = Some(0);
    assert forall|x: int| 0 <= x < n && x != start_road implies dist@[x] is None by {
        assert(dist@[x] == d_init[x]);
    }
    proof {
        lemma_count_true_none(closed@);
    }
    let mut queue: Vec<Frontier> = Vec::new();
    queue.push(Frontier { f: heuristic(roads, start_road, destination_road), g: 0, node: start_road });
    assert(queue@[0].node == start_road);
    assert forall|x: int|
        0 <= x < n && #[trigger] dist@[x] is Some && !closed@[x] implies exists|q: int|
            0 <= q < queue@.len() && (#[trigger] queue@[q]).node == x && queue@[q].g == dist@[x]->0 by {
        assert(x == start_road);
        assert(queue@[0].node == x);
    }
    let ghost mut stamp: Seq<nat> = Seq::new(n as nat, |x: int| 0nat);
    let ghost mut c: nat = 0;
    let mut found = false;
    while !found && queue.len() > 0
        invariant
            n == roads.len(),
            rv == roads_view(roads@),
            roads_wf(rv),
            start_road < n,
            destination_road < n,
            dist@.len() == n,
            prev@.len() == n,
            closed@.len() == n,
            stamp.len() == n,
            c == count_true(closed@),
            c <= n,
            dist@[start_road as int] == Some(0u128),
            prev@[start_road as int] is None,
            c > 0 ==> closed@[start_road as int],
            c == 0 ==> forall|q: int| 0 <= q < queue@.len() ==> (#[trigger] queue@[q]).node == start_road,
            forall|x: int| 0 <= x < n && #[trigger] closed@[x] ==> dist@[x] is Some && stamp[x] < c,
            forall|x: int|
                0 <= x < n && #[trigger] dist@[x] is Some && x != start_road ==> prev@[x] is Some,
            forall|x: int|
                0 <= x < n && #[trigger] prev@[x] is Some ==> {
                    let m = prev@[x]->0 as int;
                    &&& 0 <= m < n
                    &&& closed@[m]
                    &&& edge(rv, m, x)
                    &&& closed@[x] ==> stamp[m] < stamp[x]
                    &&& dist@[x]->0 == dist@[m]->0 + entry_cost(rv, m, x)
                    &&& dist@[x] is Some
                },
            forall|x: int, j: int|
                0 <= x < n && closed@[x] && #[trigger] edge(rv, x, j) ==> dist@[j] is Some,
            forall|q: int|
                0 <= q < queue@.len() ==> {
                    let e = #[trigger] queue@[q];
                    &&& e.node < n
                    &&& dist@[e.node as int] is Some
                    &&& e.g <= c * cost_unit()
                    &&& e.f <= c * cost_unit() + 0x1_0000_0000
                    &&& e.f == e.g + estimate(rv, e.node as int, destination_road as int)
                    &&& e.g >= dist@[e.node as int]->0
                },
            !found ==> !closed@[destination_road as int],
            !found ==> forall|x: int|
                0 <= x < n && #[trigger] dist@[x] is Some && !closed@[x] ==> exists|q: int|
                    0 <= q < queue@.len() && (#[trigger] queue@[q]).node == x && queue@[q].g == dist@[x]->0,
            found ==> dist@[destination_road as int] is Some && !closed@[destination_road as int],
            forall|z: int, y: int|
                0 <= z < n && closed@[z] && #[trigger] edge(rv, z, y) && !closed@[y] ==> dist@[y]->0
                    <= dist@[z]->0 + entry_cost(rv, z, y),
            consistent(rv, destination_road as int) ==> forall|x: int, p: Seq<usize>|
                0 <= x < n && closed@[x] && #[trigger] is_route(rv, p, start_road as int, x) ==> dist@[x]->0
                    <= route_cost(rv, p),
            found && consistent(rv, destination_road as int) ==> forall|p: Seq<usize>|
                #[trigger] is_route(rv, p, start_road as int, destination_road as int) ==> dist@[destination_road
                    as int]->0 <= route_cost(rv, p),
        decreases n - c, queue@.len(),
    {
        let ghost q0 = queue@;
        let popped = pop_min(&mut queue);
        let e = popped.0;
        let ghost qi = popped.1@;
        let x = e.node;
        assert(q0[qi] == e);
        assert forall|q: int| 0 <= q < queue@.len() implies q0.contains(#[trigger] queue@[q]) by {
            if q < qi {
                assert(queue@[q] == q0[q]);
            } else {
                assert(queue@[q] == q0[q + 1]);
            }
        }
        if closed[x] {
            assert forall|y: int|
                0 <= y < n && #[trigger] dist@[y] is Some && !closed@[y] implies exists|q: int|
                    0 <= q < queue@.len() && (#[trigger] queue@[q]).node == y && queue@[q].g == dist@[y]->0 by {
                lemma_still_queued(q0, qi, y as usize, dist@[y]->0);
            }
        } else if x == destination_road {
            proof {
                if consistent(rv, destination_road as int) {
                    assert forall|p: Seq<usize>|
                        #[trigger] is_route(rv, p, start_road as int, destination_road as int) implies dist@[
                        destination_road as int]->0 <= route_cost(rv, p) by {
                        lemma_pop_is_optimal(
                            rv,
                            dist@,
                            closed@,
                            q0,
                            start_road as int,
                            destination_road as int,
                            e,
                            p,
                        );
                    }
                }
            }
            found = true;
        } else {
            let gx: u128 = match dist[x] {
                Some(d) => d,
                None => 0,
            };
            proof {
                if consistent(rv, destination_road as int) {
                    assert forall|p: Seq<usize>|
                        #[trigger] is_route(rv, p, start_road as int, x as int) implies gx <= route_cost(
                        rv,
                        p,
                    ) by {
                        lemma_pop_is_optimal(
                            rv,
                            dist@,
                            closed@,
                            q0,
                            start_road as int,
                            destination_road as int,
                            e,
                            p,
                        );
                    }
                }
            }
            let ghost closed0 = closed@;
            closed[x] = true;
            proof {
                lemma_count_true_set(closed0, x as int);
                lemma_count_true_bound(closed@);
                stamp = stamp.update(x as int, c);
                c = c + 1;
            }
            assert forall|y: int|
                0 <= y < n && #[trigger] dist@[y] is Some && !closed@[y] implies exists|q: int|
                    0 <= q < queue@.len() && (#[trigger] queue@[q]).node == y && queue@[q].g == dist@[y]->0 by {
                lemma_still_queued(q0, qi, y as usize, dist@[y]->0);
            }
            let mut k: usize = 0;
            while k < roads[x].to_road.len()
                invariant
                    n == roads.len(),
                    rv == roads_view(roads@),
                    roads_wf(rv),
                    start_road < n,
                    destination_road < n,
                    x < n,
                    x != destination_road,
                    !found,
                    dist@.len() == n,
                    prev@.len() == n,
                    closed@.len() == n,
                    stamp.len() == n,
                    c == count_true(closed@),
                    1 <= c <= n,
                    closed@[x as int],
                    gx <= (c - 1) * cost_unit(),
                    k <= rv[x as int].to_road.len(),
                    forall|k1: int|
                        0 <= k1 < k && (#[trigger] rv[x as int].to_road[k1]) < n ==> dist@[rv[x
                            as int].to_road[k1] as int] is Some,
                    dist@[start_road as int] == Some(0u128),
                    prev@[start_road as int] is None,
                    closed@[start_road as int],
                    forall|y: int| 0 <= y < n && #[trigger] closed@[y] ==> dist@[y] is Some && stamp[y] < c,
                    forall|y: int|
                        0 <= y < n && #[trigger] dist@[y] is Some && y != start_road ==> prev@[y] is Some,
                    forall|y: int|
                        0 <= y < n && #[trigger] prev@[y] is Some ==> {
                            let m = prev@[y]->0 as int;
                            &&& 0 <= m < n
                            &&& closed@[m]
                            &&& edge(rv, m, y)
                            &&& closed@[y] ==> stamp[m] < stamp[y]
                            &&& dist@[y]->0 == dist@[m]->0 + entry_cost(rv, m, y)
                            &&& dist@[y] is Some
                        },
                    forall|y: int, j: int|
                        0 <= y < n && y != x && closed@[y] && #[trigger] edge(rv, y, j) ==> dist@[j] is Some,
                    forall|q: int|
                        0 <= q < queue@.len() ==> {
                            let e = #[trigger] queue@[q];
                            &&& e.node < n
                            &&& dist@[e.node as int] is Some
                            &&& e.g <= c * cost_unit()
                            &&& e.f <= c * cost_unit() + 0x1_0000_0000
                            &&& e.f == e.g + estimate(rv, e.node as int, destination_road as int)
                            &&& e.g >= dist@[e.node as int]->0
                        },
                    !closed@[destination_road as int],
                    gx == dist@[x as int]->0,
                    forall|z: int, y: int|
                        0 <= z < n && z != x && closed@[z] && #[trigger] edge(rv, z, y) && !closed@[y]
                            ==> dist@[y]->0 <= dist@[z]->0 + entry_cost(rv, z, y),
                    forall|k1: int|
                        0 <= k1 < k && (#[trigger] rv[x as int].to_road[k1]) < n && !closed@[rv[x
                            as int].to_road[k1] as int] ==> dist@[rv[x as int].to_road[k1] as int]->0
                            <= gx + entry_cost(rv, x as int, rv[x as int].to_road[k1] as int),
                    consistent(rv, destination_road as int) ==> forall|y: int, p: Seq<usize>|
                        0 <= y < n && closed@[y] && #[trigger] is_route(rv, p, start_road as int, y)
                            ==> dist@[y]->0 <= route_cost(rv, p),
                    forall|y: int|
                        0 <= y < n && #[trigger] dist@[y] is Some && !closed@[y] ==> exists|q: int|
                            0 <= q < queue@.len() && (#[trigger] queue@[q]).node == y && queue@[q].g == dist@[y]->0,
                decreases roads[x as int].to_road.len() - k,
            {
                let j = roads[x].to_road[k];
                assert(rv[x as int].to_road[k as int] == j);
                if j < n && !closed[j] {
                    let g: u128 = gx + step_cost(roads, x, j);
                    let better = match dist[j] {
                        None => true,
                        Some(d) => g < d,
                    };
                    if better {
                        let ghost q1 = queue@;
                        let ghost d1 = dist@;
                        let ghost p1 = prev@;
                        assert(edge(rv, x as int, j as int)) by {
                            assert(rv[x as int].to_road[k as int] == j);
                        }
                        dist[j] = Some(g);
                        prev[j] = Some(x);
                        let f: u128 = g + heuristic(roads, j, destination_road);
                        queue.push(Frontier { f, g, node: j });
                        assert(queue@[q1.len() as int].node == j);
                        assert forall|q: int| 0 <= q < queue@.len() implies {
                            let e = #[trigger] queue@[q];
                            &&& e.node < n
                            &&& dist@[e.node as int] is Some
                            &&& e.g <= c * cost_unit()
                            &&& e.f <= c * cost_unit() + 0x1_0000_0000
                            &&& e.f == e.g + estimate(rv, e.node as int, destination_road as int)
                            &&& e.g >= dist@[e.node as int]->0
                        } by {
                            if q < q1.len() {
                                assert(queue@[q] == q1[q]);
                            }
                        }
                        assert forall|y: int|
                            0 <= y < n && #[trigger] dist@[y] is Some && !closed@[y] implies exists|q: int|
                                0 <= q < queue@.len() && (#[trigger] queue@[q]).node == y && queue@[q].g == dist@[y]->0 by {
                            if y != j {
                                assert(d1[y] is Some);
                                let q = choose|q: int|
                                    0 <= q < q1.len() && (#[trigger] q1[q]).node == y && q1[q].g == d1[y]->0;
                                assert(queue@[q] == q1[q]);
                            } else {
                                assert(queue@[q1.len() as int].node == y);
                            }
                        }
                        assert forall|y: int|
                            0 <= y < n && #[trigger] prev@[y] is Some implies {
                                let m = prev@[y]->0 as int;
                                &&& 0 <= m < n
                                &&& closed@[m]
                                &&& edge(rv, m, y)
                                &&& closed@[y] ==> stamp[m] < stamp[y]
                                &&& dist@[y]->0 == dist@[m]->0 + entry_cost(rv, m, y)
                                &&& dist@[y] is Some
                            } by {
                            if y != j {
                                assert(p1[y] is Some);
                            }
                        }
                    }
                }
                k = k + 1;
            }
            assert forall|y: int, j: int|
                0 <= y < n && closed@[y] && #[trigger] edge(rv, y, j) implies dist@[j] is Some by {
                if y == x {
                    let k1 = choose|k1: int|
                        0 <= k1 < rv[x as int].to_road.len() && rv[x as int].to_road[k1] == j as usize;
                    assert(rv[x as int].to_road[k1] < n);
                }
            }
            assert forall|z: int, y: int|
                0 <= z < n && closed@[z] && #[trigger] edge(rv, z, y) && !closed@[y] implies dist@[y]->0
                    <= dist@[z]->0 + entry_cost(rv, z, y) by {
                if z == x {
                    let k1 = choose|k1: int|
                        0 <= k1 < rv[x as int].to_road.len() && rv[x as int].to_road[k1] == y as usize;
                    assert(rv[x as int].to_road[k1] < n);
                }
            }
        }
    }
    if !found {
        proof {
            assert forall|x: int, j: int|
                0 <= x < n && dist@[x] is Some && #[trigger] edge(rv, x, j) implies dist@[j] is Some by {
                if !closed@[x] {
                    assert(dist@[x] is Some);
                }
            }
            if reachable(rv, start_road as int, destination_road as int) {
                let p = choose|p: Seq<usize>|
                    is_route(rv, p, start_road as int, destination_road as int);
                lemma_route_stays_inside(
                    rv,
                    dist@,
                    p,
                    start_road as int,
                    destination_road as int,
                    p.len() - 1,
                );
                assert(dist@[destination_road as int] is Some);
            }
        }
        return None;
    }
    let mut rev: Vec<usize> = Vec::new();
    rev.push(destination_road);
    let mut cur: usize = destination_road;
    let ghost mut fwd: Seq<usize> = seq![destination_road];
    while prev[cur].is_some()
        invariant
            n == roads.len(),
            rv == roads_view(roads@),
            cur < n,
            start_road < n,
            destination_road < n,
            dist@.len() == n,
            prev@.len() == n,
            closed@.len() == n,
            stamp.len() == n,
            dist@[cur as int] is Some,
            cur != destination_road ==> closed@[cur as int],
            !closed@[destination_road as int],
            forall|y: int| 0 <= y < n && #[trigger] closed@[y] ==> dist@[y] is Some && stamp[y] < c,
            forall|y: int|
                0 <= y < n && #[trigger] dist@[y] is Some && y != start_road ==> prev@[y] is Some,
            forall|y: int|
                0 <= y < n && #[trigger] prev@[y] is Some ==> {
                    let m = prev@[y]->0 as int;
                    &&& 0 <= m < n
                    &&& closed@[m]
                    &&& edge(rv, m, y)
                    &&& closed@[y] ==> stamp[m] < stamp[y]
                    &&& dist@[y]->0 == dist@[m]->0 + entry_cost(rv, m, y)
                    &&& dist@[y] is Some
                },
            rev@.len() > 0,
            rev@[0] == destination_road,
            rev@[rev@.len() - 1] == cur,
            forall|k: int| 0 <= k < rev@.len() ==> #[trigger] rev@[k] < n,
            forall|k: int|
                0 <= k < rev@.len() - 1 ==> edge(rv, rev@[k + 1] as int, #[trigger] rev@[k] as int),
            forall|k: int, l: int|
                0 <= k < l < rev@.len() ==> rank(closed@, stamp, c, #[trigger] rev@[k] as int) > rank(
                    closed@,
                    stamp,
                    c,
                    #[trigger] rev@[l] as int,
                ),
            prev@[start_road as int] is None,
            dist@[start_road as int] == Some(0u128),
            cur == destination_road ==> rev@ == seq![destination_road],
            fwd.len() == rev@.len(),
            forall|i: int| 0 <= i < fwd.len() ==> #[trigger] fwd[i] == rev@[rev@.len() - 1 - i],
            route_cost(rv, fwd) + dist@[cur as int]->0 == dist@[destination_road as int]->0,
            consistent(rv, destination_road as int) ==> forall|p: Seq<usize>|
                #[trigger] is_route(rv, p, start_road as int, destination_road as int) ==> dist@[destination_road
                    as int]->0 <= route_cost(rv, p),
        decreases rank(closed@, stamp, c, cur as int),
    {
        let m = prev[cur].unwrap();
        let ghost r0 = rev@;
        rev.push(m);
        assert forall|k: int, l: int| 0 <= k < l < rev@.len() implies rank(
            closed@,
            stamp,
            c,
            #[trigger] rev@[k] as int,
        ) > rank(closed@, stamp, c, #[trigger] rev@[l] as int) by {
            if l == r0.len() {
                assert(rev@[k] == r0[k]);
                if k < r0.len() - 1 {
                    assert(rank(closed@, stamp, c, r0[k] as int) > rank(
                        closed@,
                        stamp,
                        c,
                        r0[r0.len() - 1] as int,
                    ));
                }
            } else {
                assert(rev@[k] == r0[k] && rev@[l] == r0[l]);
            }
        }
        assert forall|k: int| 0 <= k < rev@.len() - 1 implies edge(
            rv,
            rev@[k + 1] as int,
            #[trigger] rev@[k] as int,
        ) by {
            if k < r0.len() - 1 {
                assert(rev@[k] == r0[k] && rev@[k + 1] == r0[k + 1]);
            }
        }
        proof {
            let f0 = fwd;
            fwd = seq![m] + f0;
            assert(fwd.drop_first() =~= f0);
            assert(f0[0] == cur);
            assert forall|i: int| 0 <= i < fwd.len() implies #[trigger] fwd[i] == rev@[rev@.len() - 1 - i] by {
                if i > 0 {
                    assert(fwd[i] == f0[i - 1]);
                    assert(rev@[rev@.len() - 1 - i] == r0[r0.len() - 1 - (i - 1)]);
                }
            }
        }
        cur = m;
    }
    let len = rev.len();
    let mut path: Vec<usize> = Vec::new();
    let mut k: usize = len;
    while k > 0
        invariant
            k <= len,
            len == rev@.len(),
            path@.len() == len - k,
            forall|i: int| 0 <= i < path@.len() ==> path@[i] == rev@[len - 1 - i],
        decreases k,
    {
        k = k - 1;
        path.push(rev[k]);
    }
    assert(is_route(rv, path@, start_road as int, destination_road as int)) by {
        assert forall|i: int| 0 <= i < path@.len() - 1 implies edge(
            rv,
            #[trigger] path@[i] as int,
            path@[i + 1] as int,
        ) by {
            assert(path@[i] == rev@[len - 1 - i]);
            assert(path@[i + 1] == rev@[(len - 1 - i) - 1]);
        }
        assert forall|i: int| 0 <= i < path@.len() implies #[trigger] path@[i] < rv.len() by {
            assert(path@[i] == rev@[len - 1 - i]);
        }
    }
    assert(path@.no_duplicates()) by {
        assert forall|i: int, j: int| 0 <= i < path@.len() && 0 <= j < path@.len() && i != j implies path@[i]
            != path@[j] by {
            assert(path@[i] == rev@[len - 1 - i]);
            assert(path@[j] == rev@[len - 1 - j]);
            if len - 1 - i < len - 1 - j {
                assert(rank(closed@, stamp, c, rev@[len - 1 - i] as int) > rank(
                    closed@,
                    stamp,
                    c,
                    rev@[len - 1 - j] as int,
                ));
            } else {
                assert(rank(closed@, stamp, c, rev@[len - 1 - j] as int) > rank(
                    closed@,
                    stamp,
                    c,
                    rev@[len - 1 - i] as int,
                ));
            }
        }
    }
    if start_road == destination_road {
        assert(path@ =~= seq![start_road]);
    }
    assert(path@ =~= fwd);
    Some(path)
}

} // verus!
