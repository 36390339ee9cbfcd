//! Closed-form motion over one time step, with the regime switch
//! (reaching a target speed part-way through the step) handled exactly.
use vstd::prelude::*;
use vstd::arithmetic::div_mod::{
    lemma_div_by_multiple,
    lemma_div_is_ordered,
    lemma_fundamental_div_mod,
    lemma_mod_pos_bound,
};

verus! {

/// Largest speed, speed limit, acceleration or deceleration, in milli-units per second
/// (or per second squared).
pub const SPEED_MAX: u64 = 0x8000_0000;

/// Longest time step, in milliseconds.
pub const TICK_MAX: u64 = 0x10_0000;

/// Largest distance the braking computation accepts, in milli-units.
pub const DIST_MAX: u64 = 0x4000_0000_0000_0000;

/// Bound on the displacement of one time step, in milli-units.
pub const DISP_MAX: u64 = 0x20_0000_0000_0000;

/// Displacement, in milli-units rounded down, of uniformly accelerated motion that starts
/// at velocity `v0` with rate `a` (negative when braking) and lasts `dt` milliseconds:
/// `v0·dt + a·dt²/2`.
pub open spec fn travel(v0: int, a: int, dt: int) -> int {
    (2000 * v0 + a * dt) * dt / 2_000_000
}

/// Displacement and final velocity of a step of `t` milliseconds spent accelerating at `a`
/// toward the speed limit `limit`. Where the limit is crossed within the step, the step is
/// split at the moment it is reached and the rest is driven at the limit. A vehicle at or
/// above the limit drives the whole step at the limit.
pub open spec fn accelerated(v0: int, a: int, t: int, limit: int) -> (int, int) {
    if v0 < limit {
        if a * t > (limit - v0) * 1000 {
            let ts = (limit - v0) * 1000 / a;
            (travel(v0, a, ts) + travel(limit, 0, t - ts), limit)
        } else {
            (travel(v0, a, t), v0 + a * t / 1000)
        }
    } else {
        (travel(limit, 0, t), limit)
    }
}

/// The distance left for braking once the early-stop lead, `margin_ms` milliseconds of
/// travel at the current speed, is taken off; never negative.
pub open spec fn early_distance(v0: int, dist: int, margin_ms: int) -> int {
    let e = dist - v0 * margin_ms / 1000;
    if e < 0 {
        0
    } else {
        e
    }
}

/// The deceleration `(v0² − target²) / (2·e)`, rounded up, that brings `v0` down to
/// `target` over the distance `e`.
pub open spec fn required_deceleration(v0: int, target: int, e: int) -> int {
    (v0 * v0 - target * target + 2 * e - 1) / (2 * e)
}

/// The braking rate used: the required deceleration, capped at the vehicle's maximum `b`.
/// With no distance left, the maximum.
pub open spec fn braking_rate(v0: int, b: int, dist: int, target: int, margin_ms: int) -> int {
    let e = early_distance(v0, dist, margin_ms);
    if e == 0 {
        b
    } else {
        let r = required_deceleration(v0, target, e);
        if r < b {
            r
        } else {
            b
        }
    }
}

/// Displacement and final velocity of a step of `t` milliseconds spent braking toward
/// `target`, which lies `dist` ahead. Where the target is reached within the step, the
/// step is split there and the rest is driven at the target speed.
pub open spec fn braked(v0: int, b: int, t: int, dist: int, target: int, margin_ms: int) -> (
    int,
    int,
) {
    if v0 > target {
        let a = braking_rate(v0, b, dist, target, margin_ms);
        if a * t > (v0 - target) * 1000 {
            let ts = (v0 - target) * 1000 / a;
            (travel(v0, -a, ts) + travel(target, 0, t - ts), target)
        } else {
            (travel(v0, -a, t), v0 - a * t / 1000)
        }
    } else {
        (travel(v0, 0, t), v0)
    }
}

proof fn lemma_div_floor(x: int, d: int)
    requires
        0 <= x,
        0 < d,
    ensures
        d * (x / d) <= x < d * (x / d) + d,
        0 <= x / d,
{
    lemma_fundamental_div_mod(x, d);
    lemma_mod_pos_bound(x, d);
    assert(0 <= x / d) by (nonlinear_arith)
        requires
            d * (x / d) + d > x >= 0,
            d > 0,
    ;
}

proof fn lemma_div_at_most(x: int, d: int, q: int)
    requires
        0 <= x <= q * d,
        0 < d,
    ensures
        x / d <= q,
{
    lemma_div_is_ordered(x, q * d, d);
    if q >= 0 {
        lemma_div_by_multiple(q, d);
    } else {
        assert(q * d < 0) by (nonlinear_arith)
            requires
                q < 0,
                d > 0,
        ;
    }
}

proof fn lemma_div_below(x: int, d: int, q: int)
    requires
        0 <= x < q * d,
        0 < d,
    ensures
        x / d < q,
{
    lemma_div_floor(x, d);
    assert(x / d < q) by (nonlinear_arith)
        requires
            d * (x / d) <= x,
            x < q * d,
            d > 0,
    ;
}

proof fn lemma_travel_bounds(v0: int, a: int, dt: int)
    requires
        0 <= v0 <= SPEED_MAX,
        -SPEED_MAX <= a <= SPEED_MAX,
        0 <= dt <= TICK_MAX,
        a * dt + 1000 * v0 >= 0,
    ensures
        0 <= travel(v0, a, dt) <= DISP_MAX / 2,
        0 <= (2000 * v0 + a * dt) * dt <= 0x100_0000_0000_0000_0000,
{
    let n = 2000 * v0 + a * dt;
    assert(0 <= n <= 0x10_0000_0000_0000) by (nonlinear_arith)
        requires
            n == 2000 * v0 + a * dt,
            0 <= v0 <= SPEED_MAX,
            -SPEED_MAX <= a <= SPEED_MAX,
            0 <= dt <= TICK_MAX,
            a * dt + 1000 * v0 >= 0,
    ;
    assert(0 <= n * dt <= 0x100_0000_0000_0000_0000) by (nonlinear_arith)
        requires
            0 <= n <= 0x10_0000_0000_0000,
            0 <= dt <= TICK_MAX,
    ;
    lemma_div_at_most(n * dt, 2_000_000, (DISP_MAX / 2) as int);
    lemma_div_floor(n * dt, 2_000_000);
}

/// `travel` computed in machine integers; `accelerating` gives the sign of the rate.
fn travel_at(v0: u64, a: u64, accelerating: bool, dt: u64) -> (d: u64)
    requires
        v0 <= SPEED_MAX,
        a <= SPEED_MAX,
        dt <= TICK_MAX,
        !accelerating ==> a * dt <= 1000 * v0,
    ensures
        d == travel(v0 as int, if accelerating { a as int } else { -a }, dt as int),
        d <= DISP_MAX / 2,
{
    let ghost rate: int = if accelerating { a as int } else { -a };
    proof {
        assert(rate * dt == if accelerating { a * dt } else { -(a * dt) }) by (nonlinear_arith)
            requires
                rate == if accelerating { a as int } else { -a },
        ;
        lemma_travel_bounds(v0 as int, rate, dt as int);
        assert(a * dt <= SPEED_MAX * TICK_MAX) by (nonlinear_arith)
            requires
                a <= SPEED_MAX,
                dt <= TICK_MAX,
        ;
    }
    let base: u128 = 2000 * (v0 as u128);
    let change: u128 = (a as u128) * (dt as u128);
    let n: u128 = if accelerating {
        base + change
    } else {
        base - change
    };
    assert(n == 2000 * v0 + rate * dt);
    let d: u128 = n * (dt as u128) / 2_000_000;
    d as u64
}

/// One step of `t` milliseconds under acceleration `a` toward the speed limit `limit`:
/// the displacement and the new velocity. At or above the limit the vehicle drives at the
/// limit.
pub fn accelerate(v0: u64, a: u64, t: u64, limit: u64) -> (r: (u64, u64))
    requires
        v0 <= SPEED_MAX,
        a <= SPEED_MAX,
        t <= TICK_MAX,
        limit <= SPEED_MAX,
    ensures
        r.0 == accelerated(v0 as int, a as int, t as int, limit as int).0,
        r.1 == accelerated(v0 as int, a as int, t as int, limit as int).1,
        r.0 <= DISP_MAX,
        r.1 <= limit,
{
    if v0 < limit {
        proof {
            assert(a * t <= SPEED_MAX * TICK_MAX) by (nonlinear_arith)
                requires
                    a <= SPEED_MAX,
                    t <= TICK_MAX,
            ;
        }
        let gain: u64 = a * t;
        let gap: u64 = (limit - v0) * 1000;
        if gain > gap {
            assert(a > 0) by (nonlinear_arith)
                requires
                    gain == a * t,
                    gain > gap,
                    gap >= 0,
            ;
            let ts: u64 = gap / a;
            proof {
                lemma_div_floor(gap as int, a as int);
                assert(ts < t) by (nonlinear_arith)
                    requires
                        a * ts <= gap,
                        gap < gain,
                        gain == a * t,
                        a > 0,
                ;
            }
            let d1 = travel_at(v0, a, true, ts);
            let d2 = travel_at(limit, 0, true, t - ts);
            (d1 + d2, limit)
        } else {
            proof {
                lemma_div_at_most(gain as int, 1000, (limit - v0) as int);
            }
            let d = travel_at(v0, a, true, t);
            (d, v0 + gain / 1000)
        }
    } else {
        (travel_at(limit, 0, true, t), limit)
    }
}

/// One step of `t` milliseconds spent braking toward `target`, `dist` ahead, with maximum
/// deceleration `b` and an early-stop lead of `margin_ms` milliseconds of travel: the
/// displacement and the new velocity. At or below the target the vehicle cruises.
pub fn brake(v0: u64, b: u64, t: u64, dist: u64, target: u64, margin_ms: u64) -> (r: (u64, u64))
    requires
        v0 <= SPEED_MAX,
        b <= SPEED_MAX,
        t <= TICK_MAX,
        dist <= DIST_MAX,
        target <= SPEED_MAX,
        margin_ms <= TICK_MAX,
    ensures
        r.0 == braked(v0 as int, b as int, t as int, dist as int, target as int, margin_ms as int).0,
        r.1 == braked(v0 as int, b as int, t as int, dist as int, target as int, margin_ms as int).1,
        r.0 <= DISP_MAX,
        r.1 <= v0,
{
    if v0 > target {
        proof {
            assert(v0 * margin_ms <= SPEED_MAX * TICK_MAX) by (nonlinear_arith)
                requires
                    v0 <= SPEED_MAX,
                    margin_ms <= TICK_MAX,
            ;
        }
        let lead: u64 = v0 * margin_ms / 1000;
        let e: u64 = if dist > lead {
            dist - lead
        } else {
            0
        };
        let a: u64 = if e == 0 {
            b
        } else {
            proof {
                assert(target * target <= v0 * v0 <= SPEED_MAX * SPEED_MAX) by (nonlinear_arith)
                    requires
                        target < v0 <= SPEED_MAX,
                ;
            }
            let x: u128 = (v0 as u128) * (v0 as u128) - (target as u128) * (target as u128);
            let two_e: u128 = 2 * (e as u128);
            let req: u128 = (x + two_e - 1) / two_e;
            if req < b as u128 {
                req as u64
            } else {
                b
            }
        };
        assert(a == braking_rate(v0 as int, b as int, dist as int, target as int, margin_ms as int));
        assert(a <= SPEED_MAX);
        proof {
            assert(a * t <= SPEED_MAX * TICK_MAX) by (nonlinear_arith)
                requires
                    a <= SPEED_MAX,
                    t <= TICK_MAX,
            ;
        }
        let loss: u64 = a * t;
        let gap: u64 = (v0 - target) * 1000;
        if loss > gap {
            assert(a > 0) by (nonlinear_arith)
                requires
                    loss == a * t,
                    loss > gap,
                    gap >= 0,
            ;
            let ts: u64 = gap / a;
            proof {
                lemma_div_floor(gap as int, a as int);
                assert(ts < t) by (nonlinear_arith)
                    requires
                        a * ts <= gap,
                        gap < loss,
                        loss == a * t,
                        a > 0,
                ;
            }
            let d1 = travel_at(v0, a, false, ts);
            let d2 = travel_at(target, 0, true, t - ts);
            (d1 + d2, target)
        } else {
            proof {
                lemma_div_at_most(loss as int, 1000, (v0 - target) as int);
                lemma_div_floor(loss as int, 1000);
            }
            let d = travel_at(v0, a, false, t);
            (d, v0 - loss / 1000)
        }
    } else {
        (travel_at(v0, 0, true, t), v0)
    }
}

/// Acceleration never leaves a vehicle above the speed limit, nor below zero.
pub proof fn lemma_accelerate_respects_limit(v0: int, a: int, t: int, limit: int)
    requires
        0 <= v0,
        0 <= a,
        0 <= t,
    ensures
        0 <= limit ==> 0 <= accelerated(v0, a, t, limit).1 <= limit,
{
    if v0 < limit && a * t <= (limit - v0) * 1000 {
        assert(a * t >= 0) by (nonlinear_arith)
            requires
                0 <= a,
                0 <= t,
        ;
        lemma_div_at_most(a * t, 1000, limit - v0);
        lemma_div_floor(a * t, 1000);
    }
}

/// Braking never raises the velocity, and never takes it below the target or below zero.
pub proof fn lemma_brake_between_target_and_start(
    v0: int,
    b: int,
    t: int,
    dist: int,
    target: int,
    margin_ms: int,
)
    requires
        0 <= target,
        0 <= v0,
        0 <= b,
        0 <= t,
        0 <= margin_ms,
    ensures
        braked(v0, b, t, dist, target, margin_ms).1 <= v0,
        braked(v0, b, t, dist, target, margin_ms).1 >= if v0 < target { v0 } else { target },
{
    if v0 > target {
        let a = braking_rate(v0, b, dist, target, margin_ms);
        let e = early_distance(v0, dist, margin_ms);
        if e != 0 {
            assert(v0 * v0 - target * target > 0) by (nonlinear_arith)
                requires
                    0 <= target < v0,
            ;
            lemma_div_floor(v0 * v0 - target * target + 2 * e - 1, 2 * e);
        }
        if a * t <= (v0 - target) * 1000 {
            assert(a * t >= 0) by (nonlinear_arith)
                requires
                    0 <= a,
                    0 <= t,
            ;
            lemma_div_at_most(a * t, 1000, v0 - target);
            lemma_div_floor(a * t, 1000);
        }
    }
}

/// Braking toward a hazard ahead, with enough braking capacity to shed the excess speed
/// over the distance left once the early-stop lead is taken off, never reaches the hazard
/// above the hazard's speed: if the step ends above the target speed, the vehicle is
/// still short of the hazard.
pub proof fn lemma_brake_stops_short(
    v0: int,
    b: int,
    t: int,
    dist: int,
    target: int,
    margin_ms: int,
)
    requires
        0 <= target < v0,
        0 <= b,
        0 <= t,
        0 <= margin_ms,
        early_distance(v0, dist, margin_ms) > 0,
        v0 * v0 - target * target <= 2 * early_distance(v0, dist, margin_ms) * b,
    ensures
        target <= braked(v0, b, t, dist, target, margin_ms).1 <= v0,
        braked(v0, b, t, dist, target, margin_ms).1 > target ==> braked(
            v0,
            b,
            t,
            dist,
            target,
            margin_ms,
        ).0 < dist,
{
    lemma_brake_between_target_and_start(v0, b, t, dist, target, margin_ms);
    let e = early_distance(v0, dist, margin_ms);
    let x = v0 * v0 - target * target;
    let a = braking_rate(v0, b, dist, target, margin_ms);
    let r = required_deceleration(v0, target, e);
    assert(x > 0) by (nonlinear_arith)
        requires
            0 <= target < v0,
            x == v0 * v0 - target * target,
    ;
    lemma_div_floor(x + 2 * e - 1, 2 * e);
    // the required rate is within capacity, so it is the rate used
    assert(x + 2 * e - 1 < (b + 1) * (2 * e)) by (nonlinear_arith)
        requires
            x <= 2 * e * b,
    ;
    lemma_div_below(x + 2 * e - 1, 2 * e, b + 1);
    assert(a == r);
    assert(2 * e * a >= x) by (nonlinear_arith)
        requires
            (2 * e) * r + 2 * e > x + 2 * e - 1,
            a == r,
    ;
    assert(a >= 1) by (nonlinear_arith)
        requires
            2 * e * a >= x,
            x > 0,
            e > 0,
    ;
    let v1 = braked(v0, b, t, dist, target, margin_ms).1;
    if a * t <= (v0 - target) * 1000 && v1 > target {
        let u = a * t;
        assert(u >= 0) by (nonlinear_arith)
            requires
                a >= 1,
                t >= 0,
                u == a * t,
        ;
        lemma_div_floor(u, 1000);
        assert(u < (v0 - target) * 1000);
        let n = 2000 * v0 - u;
        assert(n * u < 1_000_000 * x) by (nonlinear_arith)
            requires
                n == 2000 * v0 - u,
                0 <= u < (v0 - target) * 1000,
                x == v0 * v0 - target * target,
                0 <= target,
        ;
        assert(n * t < 2_000_000 * e) by (nonlinear_arith)
            requires
                n * u < 1_000_000 * x,
                2 * e * a >= x,
                u == a * t,
                a >= 1,
                e > 0,
        ;
        assert(n >= 0);
        assert(t >= 0);
        assert(n * t >= 0) by (nonlinear_arith)
            requires
                n >= 0,
                t >= 0,
        ;
        assert(travel(v0, -a, t) == n * t / 2_000_000) by {
            assert(-a * t == -u) by (nonlinear_arith)
                requires
                    u == a * t,
            ;
        }
        lemma_div_below(n * t, 2_000_000, e);
    }
}

} // verus!
