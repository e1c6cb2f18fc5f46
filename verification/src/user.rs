//! A road user: one simulated agent with kinematic state and a planned path.
//! Each step it re-evaluates its target speed (speed limit, corner geometry,
//! traffic-light compliance), steers toward its immediate target under a
//! turn-rate limit, integrates its position, and replans on arrival.
//!
//! Angular quantities use the chordal measure: the "turn" between two scaled
//! directions is the Euclidean distance between their horizontal components,
//! in `DIR_SCALE` fixed point (for small angles, `DIR_SCALE` chord units per
//! radian), and the steering-rate limit bounds that chordal change per second.
use crate::geom::{
    abs_i, clamp2, clamp2_spec, delta, delta_spec, dir_scaled, dir_spec, dist_floor, distance_mm,
    in_bounds, isqrt, norm_sq, norm_sq_2, sqrt_floor, wf_dir, Vec3, COORD_BOUND, DIR_SCALE,
};
use crate::path::{astar_ids, is_path, path_cost};
use crate::road::{Node, RoadNetwork, MAX_SPEED};
use crate::traffic_light::{TimedTrafficLight, TrafficLightState};
use vstd::prelude::*;

verus! {

/// Distance below which the immediate target node counts as reached,
/// millimetres.
pub const ARRIVAL_MM: i64 = 500;

/// Largest time step accepted by a tick, milliseconds.
pub const MAX_DT_MS: u64 = 60_000;

/// Largest acceleration or deceleration accepted, millimetres per second
/// squared.
pub const MAX_ACCEL: i64 = 100_000;

/// Largest steering rate accepted, chord units per second.
pub const MAX_STEER: i64 = 10_000_000;

/// Turns below this chordal magnitude put no corner constraint on speed
/// (about 0.018 degrees).
pub const CORNER_EPS: i64 = 20;

/// Cap applied to every target speed, millimetres per second.
pub open spec fn cap_speed(t: int) -> int {
    if t > MAX_SPEED {
        MAX_SPEED as int
    } else {
        t
    }
}

/// Step 2, corner-speed limiting, over plain values. `turn` is the chordal
/// heading change at the next node, `seg` the distance from the next node to
/// the node after it, `dist_next` the distance to the next node. A turn
/// below `CORNER_EPS` puts no constraint. Otherwise the highest speed that
/// can take the corner is `seg * max_steer / turn`; when the agent is faster
/// and within the braking distance required at half deceleration, the target
/// drops to that corner speed.
pub open spec fn corner_limited(
    target: int,
    cur: int,
    decel: int,
    max_steer: int,
    turn: int,
    seg: int,
    dist_next: int,
) -> int {
    if turn < CORNER_EPS {
        target
    } else {
        let max_corner = seg * max_steer / turn;
        let reduction = cur - max_corner;
        if reduction > 0 {
            let bt_ms = reduction * 2000 / decel;
            let bd = cur * bt_ms / 1000;
            if dist_next < bd {
                if max_corner < target {
                    max_corner
                } else {
                    target
                }
            } else {
                target
            }
        } else {
            target
        }
    }
}

/// Step 3, traffic-light compliance, over plain values, for a non-Green
/// phase at path distance `dist`. Desired (comfortable) stopping distance
/// uses deceleration relaxed by 1.5; required (hard) stopping distance uses
/// the full deceleration. Too far: no change. Inside the required distance
/// on Orange: carry through. Inside it otherwise: stop now. Between the
/// two: decelerate smoothly toward the light.
pub open spec fn light_decision(
    target: int,
    cur: int,
    decel: int,
    dist: int,
    phase: TrafficLightState,
) -> (int, bool) {
    let des = 3 * cur * cur / (4 * decel);
    let req = cur * cur / (2 * decel);
    if dist >= des {
        (target, false)
    } else if dist < req && phase == TrafficLightState::Orange {
        (target, false)
    } else if dist < req {
        (0, true)
    } else {
        let t_des = cur * 1500 / decel;
        if t_des <= 0 {
            (0, true)
        } else {
            (dist * 1000 / t_des, true)
        }
    }
}

/// Step 5, speed update, over plain values: move `cur` toward `target` by at
/// most `accel * dt / 1000` upward or `decel * dt / 1000` downward, never
/// overshooting.
pub open spec fn speed_step(cur: int, target: int, accel: int, decel: int, dt: int) -> int {
    if cur < target {
        let inc = accel * dt / 1000;
        if cur + inc > target {
            target
        } else {
            cur + inc
        }
    } else if cur > target {
        let dec = decel * dt / 1000;
        if cur - dec < target {
            target
        } else {
            cur - dec
        }
    } else {
        cur
    }
}

/// The new speed never overshoots: it lies between the old speed and the
/// target (inclusive), and its change is bounded by
/// `max(accel, decel) * dt / 1000`.
pub proof fn lemma_speed_step_bounds(cur: int, target: int, accel: int, decel: int, dt: int)
    requires
        accel >= 1,
        decel >= 1,
        dt >= 1,
    ensures
        cur <= target ==> cur <= speed_step(cur, target, accel, decel, dt) <= target,
        cur >= target ==> target <= speed_step(cur, target, accel, decel, dt) <= cur,
        abs_i(speed_step(cur, target, accel, decel, dt) - cur) <= (if accel >= decel {
            accel
        } else {
            decel
        }) * dt / 1000,
{
    crate::geom::lemma_div_bounds(accel * dt, 1000);
    crate::geom::lemma_div_bounds(decel * dt, 1000);
    assert(accel * dt >= 0 && decel * dt >= 0) by (nonlinear_arith)
        requires
            accel >= 1,
            decel >= 1,
            dt >= 1,
    ;
    if accel >= decel {
        assert(decel * dt <= accel * dt) by (nonlinear_arith)
            requires
                decel <= accel,
                dt >= 1,
        ;
        vstd::arithmetic::div_mod::lemma_div_is_ordered(decel * dt, accel * dt, 1000);
    } else {
        assert(accel * dt <= decel * dt) by (nonlinear_arith)
            requires
                accel <= decel,
                dt >= 1,
        ;
        vstd::arithmetic::div_mod::lemma_div_is_ordered(accel * dt, decel * dt, 1000);
    }
}

/// Exec mirror of `speed_step`.
pub fn speed_step_exec(cur: i64, target: i64, accel: i64, decel: i64, dt: u64) -> (r: i64)
    requires
        0 <= cur <= MAX_SPEED,
        0 <= target <= MAX_SPEED,
        1 <= accel <= MAX_ACCEL,
        1 <= decel <= MAX_ACCEL,
        1 <= dt <= MAX_DT_MS,
    ensures
        r as int == speed_step(cur as int, target as int, accel as int, decel as int, dt as int),
        0 <= r <= MAX_SPEED,
{
    proof {
        assert(0 <= accel * dt <= 6_000_000_000 && 0 <= decel * dt <= 6_000_000_000)
            by (nonlinear_arith)
            requires
                1 <= accel <= 100_000,
                1 <= decel <= 100_000,
                1 <= dt <= 60_000,
        ;
        crate::geom::lemma_div_bounds(accel as int * dt, 1000);
        crate::geom::lemma_div_bounds(decel as int * dt, 1000);
        assert((accel * dt) / 1000 <= 6_000_000 && (decel * dt) / 1000 <= 6_000_000);
    }
    if cur < target {
        let inc: i64 = accel * (dt as i64) / 1000;
        if cur + inc > target {
            target
        } else {
            cur + inc
        }
    } else if cur > target {
        let dec: i64 = decel * (dt as i64) / 1000;
        if cur - dec < target {
            target
        } else {
            cur - dec
        }
    } else {
        cur
    }
}

/// One component of the movement `dir * speed * dt`, rounded toward zero,
/// millimetres.
pub open spec fn move_comp(d: int, speed: int, dt: int) -> int {
    let m = abs_i(d) * speed * dt / 65536000;
    if d >= 0 {
        m
    } else {
        -m
    }
}

/// A coordinate clamped into the simulation arena.
pub open spec fn clamp_coord(c: int) -> int {
    if c < -COORD_BOUND {
        -COORD_BOUND as int
    } else if c > COORD_BOUND {
        COORD_BOUND as int
    } else {
        c
    }
}

/// Step 6, integration: `location + direction * speed * dt`, clamped into
/// the simulation arena.
pub open spec fn integrate_spec(loc: Vec3, dir: Vec3, speed: int, dt: int) -> Vec3 {
    Vec3 {
        x: clamp_coord(loc.x + move_comp(dir.x as int, speed, dt)) as i64,
        y: clamp_coord(loc.y + move_comp(dir.y as int, speed, dt)) as i64,
        z: clamp_coord(loc.z + move_comp(dir.z as int, speed, dt)) as i64,
    }
}

/// One clamped coordinate after a move.
fn integrate_comp(c: i64, d: i64, speed: i64, dt: u64) -> (r: i64)
    requires
        -COORD_BOUND <= c <= COORD_BOUND,
        -DIR_SCALE <= d <= DIR_SCALE,
        0 <= speed <= MAX_SPEED,
        1 <= dt <= MAX_DT_MS,
    ensures
        r as int == clamp_coord(c + move_comp(d as int, speed as int, dt as int)),
        -COORD_BOUND <= r <= COORD_BOUND,
{
    let ad: i64 = if d < 0 {
        -d
    } else {
        d
    };
    proof {
        assert(0 <= ad * speed <= 6_553_600_000 && 0 <= ad * speed * dt <= 393_216_000_000_000_000)
            by (nonlinear_arith)
            requires
                0 <= ad <= 65536,
                0 <= speed <= 100_000,
                1 <= dt <= 60_000,
        ;
        crate::geom::lemma_div_bounds(ad as int * speed * dt, 65536000);
        assert(ad * speed * dt / 65536000 <= 393_216_000_000_000_000);
    }
    let m: i64 = ad * speed * (dt as i64) / 65536000;
    let moved: i64 = if d >= 0 {
        c + m
    } else {
        c - m
    };
    if moved < -COORD_BOUND {
        -COORD_BOUND
    } else if moved > COORD_BOUND {
        COORD_BOUND
    } else {
        moved
    }
}

/// Step 6 over a whole position.
pub fn integrate_exec(loc: &Vec3, dir: &Vec3, speed: i64, dt: u64) -> (r: Vec3)
    requires
        in_bounds(*loc),
        wf_dir(*dir),
        0 <= speed <= MAX_SPEED,
        1 <= dt <= MAX_DT_MS,
    ensures
        r == integrate_spec(*loc, *dir, speed as int, dt as int),
        in_bounds(r),
{
    Vec3 {
        x: integrate_comp(loc.x, dir.x, speed, dt),
        y: integrate_comp(loc.y, dir.y, speed, dt),
        z: integrate_comp(loc.z, dir.z, speed, dt),
    }
}

/// Step 4, steering, over scaled directions: clamp the horizontal movement
/// from the current direction toward the desired one to `budget` chord
/// units, adopt the desired vertical component directly, and rescale to a
/// well-formed direction; a degenerate intermediate vector leaves the
/// direction unchanged.
pub open spec fn steer_spec(cur: Vec3, desired: Vec3, budget: int) -> Vec3 {
    let c = clamp2_spec(desired.x - cur.x, desired.y - cur.y, budget);
    let pre = Vec3 { x: (cur.x + c.0) as i64, y: (cur.y + c.1) as i64, z: desired.z };
    if norm_sq(pre) >= 1 {
        dir_spec(pre)
    } else {
        cur
    }
}

/// The steering step keeps the direction well formed, and the horizontal
/// adjustment it applies before rescaling has chordal magnitude at most
/// `budget`.
pub proof fn lemma_steer_wf(cur: Vec3, desired: Vec3, budget: int)
    requires
        wf_dir(cur),
        wf_dir(desired),
        0 <= budget,
    ensures
        wf_dir(steer_spec(cur, desired, budget)),
        norm_sq_2(
            clamp2_spec(desired.x - cur.x, desired.y - cur.y, budget).0,
            clamp2_spec(desired.x - cur.x, desired.y - cur.y, budget).1,
        ) <= budget * budget,
{
    crate::geom::lemma_clamp2_bounds(desired.x - cur.x, desired.y - cur.y, budget);
    let c = clamp2_spec(desired.x - cur.x, desired.y - cur.y, budget);
    let pre = Vec3 { x: (cur.x + c.0) as i64, y: (cur.y + c.1) as i64, z: desired.z };
    if norm_sq(pre) >= 1 {
        assert(abs_i(c.0) <= abs_i(desired.x - cur.x) && abs_i(c.1) <= abs_i(desired.y - cur.y));
        crate::geom::lemma_dir_spec_wf(pre);
    }
}

/// Exec mirror of the steering step.
pub fn steer_exec(cur: &Vec3, desired: &Vec3, budget: i64) -> (r: Vec3)
    requires
        wf_dir(*cur),
        wf_dir(*desired),
        0 <= budget,
    ensures
        r == steer_spec(*cur, *desired, budget as int),
        wf_dir(r),
{
    proof {
        lemma_steer_wf(*cur, *desired, budget as int);
    }
    let bl: i64 = if budget > 1_000_000_000 {
        1_000_000_000
    } else {
        budget
    };
    proof {
        if budget > 1_000_000_000 {
            // a clamp bound beyond any possible chord leaves the delta whole
            let dx = desired.x - cur.x;
            let dy = desired.y - cur.y;
            assert(norm_sq_2(dx, dy) <= 1_000_000_000 * 1_000_000_000 && norm_sq_2(dx, dy)
                <= budget * budget) by (nonlinear_arith)
                requires
                    -131072 <= dx <= 131072,
                    -131072 <= dy <= 131072,
                    budget > 1_000_000_000,
                    norm_sq_2(dx, dy) == dx * dx + dy * dy,
            ;
        }
    }
    let c = clamp2(desired.x - cur.x, desired.y - cur.y, bl);
    let pre = Vec3 { x: cur.x + c.0, y: cur.y + c.1, z: desired.z };
    proof {
        assert(0 <= pre.x * pre.x <= 86_000_000_000 && 0 <= pre.y * pre.y <= 86_000_000_000 && 0
            <= pre.z * pre.z <= 86_000_000_000) by (nonlinear_arith)
            requires
                -293000 <= pre.x <= 293000,
                -293000 <= pre.y <= 293000,
                -293000 <= pre.z <= 293000,
        ;
    }
    let n = (pre.x as i128) * (pre.x as i128) + (pre.y as i128) * (pre.y as i128) + (pre.z
        as i128) * (pre.z as i128);
    if n >= 1 {
        dir_scaled(&pre)
    } else {
        *cur
    }
}

/// First index in `lights` of a light bound to `node`, or -1 when none is.
pub open spec fn light_for(lights: Seq<TimedTrafficLight>, node: u32) -> int
    decreases lights.len(),
{
    if lights.len() == 0 {
        -1
    } else if lights[0].node == node {
        0
    } else {
        let r = light_for(lights.drop_first(), node);
        if r < 0 {
            -1
        } else {
            r + 1
        }
    }
}

/// `light_for` finds the first matching light, and -1 means no match.
pub proof fn lemma_light_for(lights: Seq<TimedTrafficLight>, node: u32)
    ensures
        light_for(lights, node) == -1 ==> (forall|i: int|
            0 <= i < lights.len() ==> lights[i].node != node),
        light_for(lights, node) >= 0 ==> 0 <= light_for(lights, node) < lights.len() && lights[
            light_for(lights, node)
        ].node == node && (forall|i: int|
            0 <= i < light_for(lights, node) ==> lights[i].node != node),
    decreases lights.len(),
{
    if lights.len() > 0 {
        lemma_light_for(lights.drop_first(), node);
        if lights[0].node != node {
            let r = light_for(lights.drop_first(), node);
            if r >= 0 {
                assert(lights.drop_first()[r] == lights[r + 1]);
                assert(forall|i: int|
                    1 <= i < r + 1 ==> lights[i] == lights.drop_first()[i - 1]
                        && lights.drop_first()[i - 1].node != node);
            } else {
                assert(forall|i: int|
                    1 <= i < lights.len() ==> lights[i] == lights.drop_first()[i - 1]);
            }
        }
    }
}

/// First index in `path` of a node hosting a light, or -1 when none does.
pub open spec fn first_light_on_path(path: Seq<u32>, lights: Seq<TimedTrafficLight>) -> int
    decreases path.len(),
{
    if path.len() == 0 {
        -1
    } else if light_for(lights, path[0]) >= 0 {
        0
    } else {
        let r = first_light_on_path(path.drop_first(), lights);
        if r < 0 {
            -1
        } else {
            r + 1
        }
    }
}

/// `first_light_on_path` finds the first lit node, and -1 means none.
pub proof fn lemma_first_light(path: Seq<u32>, lights: Seq<TimedTrafficLight>)
    ensures
        first_light_on_path(path, lights) == -1 ==> (forall|i: int|
            0 <= i < path.len() ==> light_for(lights, #[trigger] path[i]) == -1),
        first_light_on_path(path, lights) >= 0 ==> 0 <= first_light_on_path(path, lights)
            < path.len() && light_for(lights, path[first_light_on_path(path, lights)]) >= 0 && (
        forall|i: int|
            0 <= i < first_light_on_path(path, lights) ==> light_for(lights, #[trigger] path[i])
                == -1),
    decreases path.len(),
{
    if path.len() > 0 {
        lemma_first_light(path.drop_first(), lights);
        if light_for(lights, path[0]) < 0 {
            let r = first_light_on_path(path.drop_first(), lights);
            if r >= 0 {
                assert(path.drop_first()[r] == path[r + 1]);
                assert(forall|i: int| 1 <= i < r + 1 ==> path[i] == path.drop_first()[i - 1]);
            } else {
                assert(forall|i: int| 1 <= i < path.len() ==> path[i] == path.drop_first()[i - 1]);
            }
        }
    }
}

/// Index of the first light bound to `node`, if any.
fn find_light(lights: &Vec<TimedTrafficLight>, node: u32) -> (r: Option<usize>)
    ensures
        match r {
            Option::Some(li) => li as int == light_for(lights@, node) && li < lights@.len(),
            Option::None => light_for(lights@, node) == -1,
        },
{
    proof {
        lemma_light_for(lights@, node);
    }
    let n = lights.len();
    for i in 0..n
        invariant
            n == lights@.len(),
            light_for(lights@, node) == -1 || light_for(lights@, node) >= i,
            light_for(lights@, node) >= 0 ==> light_for(lights@, node) < n && lights@[light_for(
                lights@,
                node,
            )].node == node,
            forall|j: int| 0 <= j < i ==> lights@[j].node != node,
    {
        if lights[i].node == node {
            proof {
                lemma_light_for(lights@, node);
                if light_for(lights@, node) == -1 {
                    assert(false);
                }
            }
            return Some(i);
        }
    }
    proof {
        if light_for(lights@, node) >= 0 {
            assert(false);
        }
    }
    None
}

/// The first upcoming lit node on the path: its path index and the index of
/// its light.
fn find_first_light(path: &Vec<u32>, lights: &Vec<TimedTrafficLight>) -> (r: Option<
    (usize, usize),
>)
    ensures
        match r {
            Option::Some(kl) => kl.0 as int == first_light_on_path(path@, lights@) && kl.0
                < path@.len() && kl.1 as int == light_for(lights@, path@[kl.0 as int]) && kl.1
                < lights@.len(),
            Option::None => first_light_on_path(path@, lights@) == -1,
        },
{
    proof {
        lemma_first_light(path@, lights@);
    }
    let n = path.len();
    for k in 0..n
        invariant
            n == path@.len(),
            first_light_on_path(path@, lights@) == -1 || first_light_on_path(path@, lights@) >= k,
            first_light_on_path(path@, lights@) >= 0 ==> first_light_on_path(path@, lights@) < n
                && light_for(lights@, path@[first_light_on_path(path@, lights@)]) >= 0,
            forall|j: int| 0 <= j < k ==> light_for(lights@, #[trigger] path@[j]) == -1,
    {
        match find_light(lights, path[k]) {
            Some(li) => {
                proof {
                    lemma_first_light(path@, lights@);
                    if first_light_on_path(path@, lights@) == -1 {
                        assert(light_for(lights@, path@[k as int]) == -1);
                        assert(false);
                    }
                }
                return Some((k, li));
            },
            None => {},
        }
    }
    proof {
        if first_light_on_path(path@, lights@) >= 0 {
            assert(false);
        }
    }
    None
}

/// Sum of the floor lengths of the first `k` path segments, millimetres.
pub open spec fn segs_sum(net: RoadNetwork, path: Seq<u32>, k: int) -> int
    decreases k,
{
    if k <= 0 {
        0
    } else {
        segs_sum(net, path, k - 1) + dist_floor(
            net.node_for(path[k - 1]).spec_location(),
            net.node_for(path[k]).spec_location(),
        )
    }
}

/// Cumulative path distance from `loc` along `path` up to `path[k]`,
/// millimetres: the leg to `path[0]` plus the first `k` segments.
fn path_distance(loc: &Vec3, net: &RoadNetwork, path: &Vec<u32>, k: usize) -> (r: i128)
    requires
        net.wf(),
        in_bounds(*loc),
        k < path@.len(),
        forall|i: int| 0 <= i < path@.len() ==> net.contains_id(#[trigger] path@[i]),
    ensures
        r as int == dist_floor(*loc, net.node_for(path@[0]).spec_location()) + segs_sum(
            *net,
            path@,
            k as int,
        ),
        0 <= r,
{
    proof {
        crate::road::lemma_find_idx(net.spec_nodes(), path@[0]);
    }
    let plen = path.len();
    let first = net.find_node(path[0]);
    let floc = first.location();
    let mut acc: i128 = distance_mm(loc, &floc) as i128;
    let mut j: usize = 1;
    while j <= k
        invariant
            net.wf(),
            in_bounds(*loc),
            k < plen,
            plen == path@.len(),
            forall|i: int| 0 <= i < path@.len() ==> net.contains_id(#[trigger] path@[i]),
            1 <= j <= k + 1,
            0 <= acc,
            acc as int == dist_floor(*loc, net.node_for(path@[0]).spec_location()) + segs_sum(
                *net,
                path@,
                j - 1,
            ),
            acc <= (j as int) * 4_000_000_001,
        decreases k + 1 - j,
    {
        proof {
            crate::road::lemma_find_idx(net.spec_nodes(), path@[j - 1]);
            crate::road::lemma_find_idx(net.spec_nodes(), path@[j as int]);
        }
        let a = net.find_node(path[j - 1]);
        let b = net.find_node(path[j]);
        let d = a.distance_to(b);
        acc = acc + (d as i128);
        j = j + 1;
    }
    acc
}

/// A road user: identity, kinematic state, fixed physical limits, and the
/// planned path (head = immediate target) toward a destination node.
pub struct RoadUser {
    pub id: u32,
    pub location: Vec3,
    pub current_direction: Vec3,
    pub current_speed: i64,
    pub acceleration: i64,
    pub deceleration: i64,
    pub max_steering_angle: i64,
    pub next_nodes: Vec<u32>,
    pub destination_node: u32,
}

impl RoadUser {
    /// Kinematic state and physical limits are within the model's ranges.
    pub open spec fn wf(self) -> bool {
        &&& in_bounds(self.location)
        &&& wf_dir(self.current_direction)
        &&& 0 <= self.current_speed <= MAX_SPEED
        &&& 1 <= self.acceleration <= MAX_ACCEL
        &&& 1 <= self.deceleration <= MAX_ACCEL
        &&& 1 <= self.max_steering_angle <= MAX_STEER
    }

    /// The planned path is non-empty, runs over nodes of `net` joined by
    /// edges, and the destination is a node of `net`.
    pub open spec fn wf_on(self, net: RoadNetwork) -> bool {
        &&& self.next_nodes@.len() >= 1
        &&& (forall|i: int|
            0 <= i < self.next_nodes@.len() ==> net.contains_id(#[trigger] self.next_nodes@[i]))
        &&& (forall|i: int|
            0 <= i < self.next_nodes@.len() - 1 ==> net.node_for(
                #[trigger] self.next_nodes@[i],
            ).spec_next_nodes().contains(self.next_nodes@[i + 1]))
        &&& net.contains_id(self.destination_node)
    }
}

/// Steps 1 and 2: the speed limit of the immediate target node, lowered by
/// the corner constraint when a second planned node bends the path.
pub open spec fn corner_stage(u: RoadUser, net: RoadNetwork) -> int {
    let n0 = net.node_for(u.next_nodes@[0]);
    let base = n0.spec_max_speed() as int;
    if u.next_nodes@.len() < 2 || u.location == n0.spec_location() {
        base
    } else {
        let n1 = net.node_for(u.next_nodes@[1]);
        let da = dir_spec(delta_spec(u.location, n0.spec_location()));
        let db = dir_spec(delta_spec(n0.spec_location(), n1.spec_location()));
        let turn = sqrt_floor(norm_sq_2(db.x - da.x, db.y - da.y));
        corner_limited(
            base,
            u.current_speed as int,
            u.deceleration as int,
            u.max_steering_angle as int,
            turn,
            dist_floor(n0.spec_location(), n1.spec_location()),
            dist_floor(u.location, n0.spec_location()),
        )
    }
}

/// Steps 1 to 3: the target speed for this step together with the
/// "stopping for a light" flag. The first upcoming lit node decides; a
/// missing or Green light leaves the corner-stage target.
pub open spec fn target_and_stop(u: RoadUser, net: RoadNetwork, lights: Seq<TimedTrafficLight>) -> (
    int,
    bool,
) {
    let corner = corner_stage(u, net);
    let k = first_light_on_path(u.next_nodes@, lights);
    if k < 0 {
        (corner, false)
    } else {
        let li = light_for(lights, u.next_nodes@[k]);
        let phase = lights[li].current_state;
        if phase == TrafficLightState::Green {
            (corner, false)
        } else {
            let dist = dist_floor(u.location, net.node_for(u.next_nodes@[0]).spec_location())
                + segs_sum(net, u.next_nodes@, k);
            light_decision(corner, u.current_speed as int, u.deceleration as int, dist, phase)
        }
    }
}

/// Step 4 applied to a road user: steer toward the immediate target node;
/// when the user stands exactly on it, the direction is kept.
pub open spec fn steer_stage(u: RoadUser, net: RoadNetwork, dt: int) -> Vec3 {
    let n0 = net.node_for(u.next_nodes@[0]);
    if u.location == n0.spec_location() {
        u.current_direction
    } else {
        steer_spec(
            u.current_direction,
            dir_spec(delta_spec(u.location, n0.spec_location())),
            u.max_steering_angle * dt / 1000,
        )
    }
}

/// The complete step relation of `RoadUser::tick`: `u1` is `u0` after one
/// step of `dt` milliseconds over `net` with the lights `lights`, and
/// `active` says whether the agent stays in the simulation. Every part of
/// the new state is pinned except which of several equally cheap paths
/// replanning stores.
pub open spec fn tick_rel(
    u0: RoadUser,
    u1: RoadUser,
    net: RoadNetwork,
    lights: Seq<TimedTrafficLight>,
    dt: int,
    active: bool,
) -> bool {
    let new_dir = steer_stage(u0, net, dt);
    let new_speed = speed_step(
        u0.current_speed as int,
        cap_speed(target_and_stop(u0, net, lights).0),
        u0.acceleration as int,
        u0.deceleration as int,
        dt,
    );
    let stopping = target_and_stop(u0, net, lights).1;
    let arrived = !stopping && dist_floor(
        u1.location,
        net.node_for(u0.next_nodes@[0]).spec_location(),
    ) < ARRIVAL_MM;
    let start = u0.next_nodes@[0];
    let dest = u0.destination_node;
    &&& u1.wf()
    &&& u1.id == u0.id
    &&& u1.acceleration == u0.acceleration
    &&& u1.deceleration == u0.deceleration
    &&& u1.max_steering_angle == u0.max_steering_angle
    &&& u1.destination_node == u0.destination_node
    &&& u1.current_direction == new_dir
    &&& u1.current_speed as int == new_speed
    &&& u1.location == integrate_spec(u0.location, new_dir, new_speed, dt)
    &&& (!arrived ==> active && u1.next_nodes == u0.next_nodes)
    &&& ((arrived && start == dest) ==> !active)
    &&& ((arrived && start != dest && active) ==> u1.next_nodes@.len() >= 1 && is_path(
        net,
        seq![start] + u1.next_nodes@,
        start,
        dest,
    ) && (forall|q: Seq<u32>|
        is_path(net, q, start, dest) ==> path_cost(net, seq![start] + u1.next_nodes@)
            <= path_cost(net, q)))
    &&& ((arrived && start != dest && !active) ==> (forall|q: Seq<u32>|
        !is_path(net, q, start, dest)))
    &&& (active ==> u1.wf_on(net))
}

/// The in-order subsequence of `s` at the positions `k` marks true.
pub open spec fn filter_kept(s: Seq<RoadUser>, k: Seq<bool>) -> Seq<RoadUser>
    decreases s.len(),
{
    if s.len() == 0 || s.len() != k.len() {
        Seq::<RoadUser>::empty()
    } else if k[k.len() - 1] {
        filter_kept(s.drop_last(), k.drop_last()).push(s.last())
    } else {
        filter_kept(s.drop_last(), k.drop_last())
    }
}

/// Exec mirror of `corner_stage`.
fn corner_stage_exec(u: &RoadUser, net: &RoadNetwork) -> (r: i64)
    requires
        u.wf(),
        u.wf_on(*net),
        net.wf(),
    ensures
        r as int == corner_stage(*u, *net),
        0 <= r <= MAX_SPEED,
{
    let n0_id = u.next_nodes[0];
    proof {
        crate::road::lemma_find_idx(net.spec_nodes(), n0_id);
    }
    let n0 = net.find_node(n0_id);
    let base = n0.max_speed();
    proof {
        assert(net.node_for(n0_id).wf());
    }
    if u.next_nodes.len() < 2 {
        return base;
    }
    let n0loc = n0.location();
    if u.location == n0loc {
        return base;
    }
    let n1_id = u.next_nodes[1];
    proof {
        crate::road::lemma_find_idx(net.spec_nodes(), n1_id);
        let s = net.spec_nodes();
        let i0 = crate::road::find_idx(s, n0_id);
        assert(net.node_for(n0_id).spec_next_nodes().contains(n1_id));
        let kk = choose|kk: int|
            0 <= kk < s[i0].spec_next_nodes().len() && s[i0].spec_next_nodes()[kk] == n1_id;
        assert(net.contains_id(s[i0].spec_next_nodes()[kk]) && net.node_for(
            s[i0].spec_next_nodes()[kk],
        ).spec_location() != s[i0].spec_location());
        assert(net.node_for(n1_id).spec_location() != net.node_for(n0_id).spec_location());
        assert(net.node_for(n1_id).wf());
    }
    let n1 = net.find_node(n1_id);
    let dv = delta(&u.location, &n0loc);
    proof {
        assert(norm_sq(dv) >= 1) by (nonlinear_arith)
            requires
                dv.x != 0 || dv.y != 0 || dv.z != 0,
        ;
    }
    let da = dir_scaled(&dv);
    let db = n0.direction_to(n1);
    let dx: i64 = db.x - da.x;
    let dy: i64 = db.y - da.y;
    proof {
        assert(0 <= dx * dx <= 17_180_000_000 && 0 <= dy * dy <= 17_180_000_000)
            by (nonlinear_arith)
            requires
                -131072 <= dx <= 131072,
                -131072 <= dy <= 131072,
        ;
    }
    let t2: i64 = dx * dx + dy * dy;
    let turn: i64 = isqrt(t2 as u128) as i64;
    proof {
        crate::geom::lemma_sqrt_floor(t2 as int);
        crate::geom::lemma_sqrt_floor_lt(t2 as int, 300_000);
        assert((t2 as int) < 300_000 * 300_000) by (nonlinear_arith)
            requires
                0 <= (t2 as int) <= 34_360_000_000,
        ;
    }
    if turn < CORNER_EPS {
        return base;
    }
    let seg = n0.distance_to(n1);
    let dist_next = distance_mm(&u.location, &n0loc);
    proof {
        assert(0 <= seg * u.max_steering_angle <= 40_000_000_000_000_000)
            by (nonlinear_arith)
            requires
                0 <= seg <= 4_000_000_000,
                1 <= u.max_steering_angle <= 10_000_000,
        ;
    }
    let num: i128 = (seg as i128) * (u.max_steering_angle as i128);
    let mcw: i128 = num / (turn as i128);
    proof {
        crate::geom::lemma_div_bounds(seg as int * u.max_steering_angle, turn as int);
        assert(seg as int * u.max_steering_angle / (turn as int) <= seg as int
            * u.max_steering_angle) by (nonlinear_arith)
            requires
                ((seg as int * u.max_steering_angle) / (turn as int)) * (turn as int) <= seg as int
                    * u.max_steering_angle,
                (seg as int * u.max_steering_angle) / (turn as int) >= 0,
                turn >= 1,
        ;
    }
    let max_corner: i64 = mcw as i64;
    let reduction: i64 = if u.current_speed > max_corner {
        u.current_speed - max_corner
    } else {
        0
    };
    if reduction > 0 {
        proof {
            assert(0 <= reduction * 2000 <= 200_000_000) by (nonlinear_arith)
                requires
                    0 <= reduction <= 100_000,
            ;
            crate::geom::lemma_div_bounds(reduction as int * 2000, u.deceleration as int);
        }
        let bt: i64 = reduction * 2000 / u.deceleration;
        proof {
            assert((reduction * 2000) / (u.deceleration as int) <= 200_000_000);
            assert(0 <= u.current_speed * bt <= 20_000_000_000_000) by (nonlinear_arith)
                requires
                    0 <= u.current_speed <= 100_000,
                    0 <= bt <= 200_000_000,
            ;
            crate::geom::lemma_div_bounds(u.current_speed as int * bt, 1000);
        }
        let bd: i64 = u.current_speed * bt / 1000;
        if dist_next < bd {
            if max_corner < base {
                return max_corner;
            }
        }
    }
    base
}

/// Exec mirror of `light_decision`, for a non-Green phase.
fn light_decision_exec(
    target: i64,
    cur: i64,
    decel: i64,
    dist: i128,
    phase: TrafficLightState,
) -> (r: (i64, bool))
    requires
        0 <= target <= MAX_SPEED,
        0 <= cur <= MAX_SPEED,
        1 <= decel <= MAX_ACCEL,
        0 <= dist,
    ensures
        r.0 as int == light_decision(target as int, cur as int, decel as int, dist as int, phase).0,
        r.1 == light_decision(target as int, cur as int, decel as int, dist as int, phase).1,
        0 <= r.0 <= 8_000_000_000_000i64,
{
    proof {
        assert(0 <= cur * cur <= 10_000_000_000 && 0 <= 3 * cur * cur <= 30_000_000_000 && 0 <= cur
            * 1500 <= 150_000_000) by (nonlinear_arith)
            requires
                0 <= cur <= 100_000,
        ;
        crate::geom::lemma_div_bounds(3 * (cur as int) * cur, 4 * (decel as int));
        crate::geom::lemma_div_bounds((cur as int) * cur, 2 * (decel as int));
        crate::geom::lemma_div_bounds((cur as int) * 1500, decel as int);
        assert(3 * (cur as int) * cur / (4 * (decel as int)) <= 7_500_000_000) by (nonlinear_arith)
            requires
                (3 * (cur as int) * cur / (4 * (decel as int))) * (4 * (decel as int)) <= 3 * (
                cur as int) * cur <= 30_000_000_000,
                3 * (cur as int) * cur / (4 * (decel as int)) >= 0,
                decel >= 1,
        ;
        assert((cur as int) * 1500 / (decel as int) <= 150_000_000) by (nonlinear_arith)
            requires
                ((cur as int) * 1500 / (decel as int)) * (decel as int) <= (cur as int) * 1500
                    <= 150_000_000,
                (cur as int) * 1500 / (decel as int) >= 0,
                decel >= 1,
        ;
    }
    let des: i64 = 3 * cur * cur / (4 * decel);
    let req: i64 = cur * cur / (2 * decel);
    if dist >= des as i128 {
        (target, false)
    } else if dist < req as i128 && phase == TrafficLightState::Orange {
        (target, false)
    } else if dist < req as i128 {
        (0, true)
    } else {
        let t_des: i64 = cur * 1500 / decel;
        if t_des <= 0 {
            (0, true)
        } else {
            proof {
                crate::geom::lemma_div_bounds(dist as int * 1000, t_des as int);
                assert(dist as int * 1000 / (t_des as int) <= dist as int * 1000)
                    by (nonlinear_arith)
                    requires
                        (dist as int * 1000 / (t_des as int)) * (t_des as int) <= dist as int
                            * 1000,
                        dist as int * 1000 / (t_des as int) >= 0,
                        t_des >= 1,
                ;
                assert(0 <= dist * 1000 <= 8_000_000_000_000) by (nonlinear_arith)
                    requires
                        0 <= dist,
                        dist < des as i128,
                        0 <= des <= 7_500_000_000,
                ;
            }
            let raw: i128 = dist * 1000 / (t_des as i128);
            (raw as i64, true)
        }
    }
}

/// Exec mirror of `cap_speed`.
fn cap_speed_exec(t: i64) -> (r: i64)
    requires
        0 <= t,
    ensures
        r as int == cap_speed(t as int),
        0 <= r <= MAX_SPEED,
{
    if t > MAX_SPEED {
        MAX_SPEED
    } else {
        t
    }
}

impl RoadUser {
    /// Build an agent at `location` headed for `first_node`; the initial
    /// direction is the unit vector from `location` to that node, so the two
    /// positions must differ.
    pub fn new(
        id: u32,
        location: Vec3,
        current_speed: i64,
        acceleration: i64,
        deceleration: i64,
        max_steering_angle: i64,
        first_node: u32,
        destination_node: u32,
        network: &RoadNetwork,
    ) -> (r: RoadUser)
        requires
            network.wf(),
            network.contains_id(first_node),
            network.contains_id(destination_node),
            in_bounds(location),
            location != network.node_for(first_node).spec_location(),
            0 <= current_speed <= MAX_SPEED,
            1 <= acceleration <= MAX_ACCEL,
            1 <= deceleration <= MAX_ACCEL,
            1 <= max_steering_angle <= MAX_STEER,
        ensures
            r.wf(),
            r.wf_on(*network),
            r.id == id,
            r.location == location,
            r.current_speed == current_speed,
            r.acceleration == acceleration,
            r.deceleration == deceleration,
            r.max_steering_angle == max_steering_angle,
            r.destination_node == destination_node,
            r.next_nodes@ == seq![first_node],
            r.current_direction == dir_spec(
                delta_spec(location, network.node_for(first_node).spec_location()),
            ),
    {
        proof {
            crate::road::lemma_find_idx(network.spec_nodes(), first_node);
        }
        let node = network.find_node(first_node);
        let nloc = node.location();
        let dv = delta(&location, &nloc);
        proof {
            if dv.x == 0 && dv.y == 0 && dv.z == 0 {
                assert(location == nloc);
            }
            assert(norm_sq(dv) >= 1) by (nonlinear_arith)
                requires
                    dv.x != 0 || dv.y != 0 || dv.z != 0,
            ;
        }
        let dir = dir_scaled(&dv);
        let mut path: Vec<u32> = Vec::new();
        path.push(first_node);
        proof {
            assert(path@ =~= seq![first_node]);
        }
        RoadUser {
            id,
            location,
            current_direction: dir,
            current_speed,
            acceleration,
            deceleration,
            max_steering_angle,
            next_nodes: path,
            destination_node,
        }
    }

    /// Current position, millimetres.
    pub fn location(&self) -> (r: Vec3)
        ensures
            r == self.location,
    {
        self.location
    }

    /// Current scaled direction.
    pub fn current_direction(&self) -> (r: Vec3)
        ensures
            r == self.current_direction,
    {
        self.current_direction
    }

    /// Current speed, millimetres per second.
    pub fn current_speed(&self) -> (r: i64)
        ensures
            r == self.current_speed,
    {
        self.current_speed
    }

    /// Step 7's replanning: search a lowest-cost path from the immediate
    /// target node (just reached, so dropped from the stored path) to the
    /// destination; an empty resulting path means no path exists.
    pub fn recalculate_path(&mut self, network: &RoadNetwork)
        requires
            old(self).wf(),
            old(self).wf_on(*network),
            network.wf(),
            old(self).next_nodes@[0] != old(self).destination_node,
        ensures
            final(self).wf(),
            final(self).id == old(self).id,
            final(self).location == old(self).location,
            final(self).current_direction == old(self).current_direction,
            final(self).current_speed == old(self).current_speed,
            final(self).acceleration == old(self).acceleration,
            final(self).deceleration == old(self).deceleration,
            final(self).max_steering_angle == old(self).max_steering_angle,
            final(self).destination_node == old(self).destination_node,
            final(self).next_nodes@.len() >= 1 ==> is_path(
                *network,
                seq![old(self).next_nodes@[0]] + final(self).next_nodes@,
                old(self).next_nodes@[0],
                old(self).destination_node,
            ) && final(self).wf_on(*network) && (forall|q: Seq<u32>|
                is_path(*network, q, old(self).next_nodes@[0], old(self).destination_node)
                    ==> path_cost(
                    *network,
                    seq![old(self).next_nodes@[0]] + final(self).next_nodes@,
                ) <= path_cost(*network, q)),
            final(self).next_nodes@.len() == 0 ==> (forall|q: Seq<u32>|
                !is_path(*network, q, old(self).next_nodes@[0], old(self).destination_node)),
    {
        let start = self.next_nodes[0];
        proof {
            crate::path::lemma_heur_admissible(*network, self.destination_node);
        }
        let found = astar_ids(network, start, self.destination_node);
        match found {
            Option::Some(mut p) => {
                let ghost p0 = p@;
                proof {
                    if p@.len() == 1 {
                        assert(p@[0] == start && p@[p@.len() - 1] == self.destination_node);
                        assert(false);
                    }
                }
                p.remove(0);
                proof {
                    assert(p@ =~= p0.drop_first());
                    assert(seq![start] + p@ =~= p0);
                }
                self.next_nodes = p;
                proof {
                    let full = seq![start] + self.next_nodes@;
                    assert(full =~= p0);
                    assert forall|i: int|
                        0 <= i < self.next_nodes@.len() implies network.contains_id(
                        #[trigger] self.next_nodes@[i],
                    ) by {
                        assert(self.next_nodes@[i] == full[i + 1]);
                    }
                    assert forall|i: int|
                        0 <= i < self.next_nodes@.len() - 1 implies network.node_for(
                        #[trigger] self.next_nodes@[i],
                    ).spec_next_nodes().contains(self.next_nodes@[i + 1]) by {
                        assert(self.next_nodes@[i] == full[i + 1] && self.next_nodes@[i + 1]
                            == full[i + 2]);
                    }
                }
            },
            Option::None => {
                self.next_nodes = Vec::new();
            },
        }
    }

    /// One simulation step of `delta_time` milliseconds: re-evaluate the
    /// target speed (speed limit, corner, traffic lights), steer toward the
    /// immediate target, update the speed without overshooting, integrate
    /// the position, and on arrival either finish (at the destination),
    /// replan (elsewhere), or report no path. The result says whether the
    /// agent stays active.
    pub fn tick(
        &mut self,
        network: &RoadNetwork,
        traffic_lights: &Vec<TimedTrafficLight>,
        delta_time: u64,
    ) -> (active: bool)
        requires
            old(self).wf(),
            old(self).wf_on(*network),
            network.wf(),
            1 <= delta_time <= MAX_DT_MS,
        ensures
            tick_rel(
                *old(self),
                *final(self),
                *network,
                traffic_lights@,
                delta_time as int,
                active,
            ),
    {
        let ghost u0 = *self;
        let n0_id = self.next_nodes[0];
        proof {
            crate::road::lemma_find_idx(network.spec_nodes(), n0_id);
        }
        let n0 = network.find_node(n0_id);
        let n0loc = n0.location();
        // Steps 1 and 2: speed limit, corner constraint.
        let corner = corner_stage_exec(self, network);
        // Step 3: traffic-light compliance.
        let mut target: i64 = corner;
        let mut stopping: bool = false;
        match find_first_light(&self.next_nodes, traffic_lights) {
            Option::Some((k, li)) => {
                let phase = traffic_lights[li].get_state();
                if phase != TrafficLightState::Green {
                    let dist = path_distance(&self.location, network, &self.next_nodes, k);
                    let td = light_decision_exec(
                        corner,
                        self.current_speed,
                        self.deceleration,
                        dist,
                        phase,
                    );
                    target = td.0;
                    stopping = td.1;
                }
            },
            Option::None => {},
        }
        proof {
            assert(target as int == target_and_stop(u0, *network, traffic_lights@).0);
            assert(stopping == target_and_stop(u0, *network, traffic_lights@).1);
        }
        let capped = cap_speed_exec(target);
        // Step 4: steering.
        proof {
            assert(0 <= u0.max_steering_angle * delta_time <= 600_000_000_000) by (nonlinear_arith)
                requires
                    1 <= u0.max_steering_angle <= 10_000_000,
                    1 <= delta_time <= 60_000,
                    u0.max_steering_angle == self.max_steering_angle,
            ;
            crate::geom::lemma_div_bounds(u0.max_steering_angle as int * delta_time, 1000);
        }
        let budget: i64 = self.max_steering_angle * (delta_time as i64) / 1000;
        let new_dir = if self.location == n0loc {
            self.current_direction
        } else {
            let dv = delta(&self.location, &n0loc);
            proof {
                if dv.x == 0 && dv.y == 0 && dv.z == 0 {
                    assert(self.location == n0loc);
                }
                assert(norm_sq(dv) >= 1) by (nonlinear_arith)
                    requires
                        dv.x != 0 || dv.y != 0 || dv.z != 0,
                ;
            }
            let desired = dir_scaled(&dv);
            steer_exec(&self.current_direction, &desired, budget)
        };
        // Step 5: speed update without overshoot.
        let new_speed = speed_step_exec(
            self.current_speed,
            capped,
            self.acceleration,
            self.deceleration,
            delta_time,
        );
        // Step 6: integration.
        let new_loc = integrate_exec(&self.location, &new_dir, new_speed, delta_time);
        self.current_direction = new_dir;
        self.current_speed = new_speed;
        self.location = new_loc;
        // Step 7: arrival, then finish or replan.
        let arrive = distance_mm(&self.location, &n0loc);
        if !stopping && arrive < ARRIVAL_MM {
            if n0_id == self.destination_node {
                return false;
            }
            self.recalculate_path(network);
            if self.next_nodes.len() == 0 {
                return false;
            }
            return true;
        }
        true
    }
}

} // verus!
