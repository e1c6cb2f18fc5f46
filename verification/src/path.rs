//! Shortest paths over the road graph: the cost model (ceiling of the
//! Euclidean length of each edge), the straight-line heuristic, and the
//! search itself, delegated to the pathfinding crate's A* behind a trusted
//! wrapper.
use crate::geom::{dist_ceil, dist_floor, sqrt_ceil, sqrt_floor, Vec3};
use crate::road::RoadNetwork;
use vstd::prelude::*;

verus! {

/// `p` walks the directed graph of `net` from `start` to `goal`: non-empty,
/// endpoints as given, every id present, every step an edge.
pub open spec fn is_path(net: RoadNetwork, p: Seq<u32>, start: u32, goal: u32) -> bool {
    &&& p.len() >= 1
    &&& p[0] == start
    &&& p[p.len() - 1] == goal
    &&& (forall|i: int| 0 <= i < p.len() ==> net.contains_id(#[trigger] p[i]))
    &&& (forall|i: int|
        0 <= i < p.len() - 1 ==> net.node_for(#[trigger] p[i]).spec_next_nodes().contains(
            p[i + 1],
        ))
}

/// Total cost of `p`: the sum of the ceiling Euclidean lengths of its edges,
/// millimetres.
pub open spec fn path_cost(net: RoadNetwork, p: Seq<u32>) -> int
    decreases p.len(),
{
    if p.len() <= 1 {
        0
    } else {
        dist_ceil(net.node_for(p[0]).spec_location(), net.node_for(p[1]).spec_location())
            + path_cost(net, p.drop_first())
    }
}

/// The straight-line estimate from `n` to `goal`: the floor Euclidean
/// distance, millimetres.
pub open spec fn heur(net: RoadNetwork, n: u32, goal: u32) -> int {
    dist_floor(net.node_for(n).spec_location(), net.node_for(goal).spec_location())
}

/// The estimate never overestimates the cost of any path to `goal`.
pub open spec fn admissible(net: RoadNetwork, goal: u32) -> bool {
    forall|n: u32, q: Seq<u32>|
        #[trigger] is_path(net, q, n, goal) ==> heur(net, n, goal) <= path_cost(net, q)
}

/// The successor ids of `id` paired with their edge costs, in edge order.
pub fn successor_costs(net: &RoadNetwork, id: u32) -> (r: Vec<(u32, u64)>)
    requires
        net.wf(),
        net.contains_id(id),
    ensures
        r@.len() == net.node_for(id).spec_next_nodes().len(),
        forall|k: int|
            0 <= k < r@.len() ==> (#[trigger] r@[k]).0 == net.node_for(id).spec_next_nodes()[k]
                && r@[k].1 as int == dist_ceil(
                net.node_for(id).spec_location(),
                net.node_for(net.node_for(id).spec_next_nodes()[k]).spec_location(),
            ),
{
    let node = net.find_node(id);
    let mut out: Vec<(u32, u64)> = Vec::new();
    let n = node.next_nodes().len();
    proof {
        let s = net.spec_nodes();
        let i = crate::road::find_idx(s, id);
        crate::road::lemma_find_idx(s, id);
        assert(net.node_for(id).wf());
    }
    for k in 0..n
        invariant
            net.wf(),
            net.contains_id(id),
            *node == net.node_for(id),
            node.wf(),
            n == node.spec_next_nodes().len(),
            out@.len() == k,
            forall|j: int|
                0 <= j < k ==> (#[trigger] out@[j]).0 == node.spec_next_nodes()[j]
                    && out@[j].1 as int == dist_ceil(
                    node.spec_location(),
                    net.node_for(node.spec_next_nodes()[j]).spec_location(),
                ),
    {
        let next_id = node.next_nodes()[k];
        proof {
            let s = net.spec_nodes();
            let i = crate::road::find_idx(s, id);
            crate::road::lemma_find_idx(s, id);
            assert(s[i].spec_next_nodes()[k as int] == next_id);
            assert(net.contains_id(next_id));
            crate::road::lemma_find_idx(s, next_id);
            assert(net.node_for(next_id).wf());
        }
        let next = net.find_node(next_id);
        let c = node.distance_ceil_to(next);
        out.push((next_id, c as u64));
    }
    out
}

/// The straight-line estimate from `id` to `goal`, millimetres.
pub fn heuristic_cost(net: &RoadNetwork, id: u32, goal: u32) -> (r: u64)
    requires
        net.wf(),
        net.contains_id(id),
        net.contains_id(goal),
    ensures
        r as int == heur(*net, id, goal),
{
    proof {
        crate::road::lemma_find_idx(net.spec_nodes(), id);
        crate::road::lemma_find_idx(net.spec_nodes(), goal);
    }
    let a = net.find_node(id);
    let b = net.find_node(goal);
    a.distance_to(b) as u64
}

/// Relies on pathfinding::directed::astar::astar: over the successor lists
/// and costs supplied by `successor_costs`, it returns `Some` path from
/// `start` to `goal` exactly when one exists, containing both endpoints and
/// walking only supplied edges; and whenever the heuristic never
/// overestimates the remaining cost of any path, the returned path has the
/// lowest total cost.
#[verifier::external_body]
pub(crate) fn astar_ids(net: &RoadNetwork, start: u32, goal: u32) -> (r: Option<Vec<u32>>)
    requires
        net.wf(),
        net.contains_id(start),
        net.contains_id(goal),
    ensures
        match r {
            Option::Some(p) => is_path(*net, p@, start, goal) && (admissible(*net, goal)
                ==> forall|q: Seq<u32>|
                is_path(*net, q, start, goal) ==> path_cost(*net, p@) <= path_cost(*net, q)),
            Option::None => forall|q: Seq<u32>| !is_path(*net, q, start, goal),
        },
{
    pathfinding::directed::astar::astar(
        &start,
        |n: &u32| successor_costs(net, *n),
        |n: &u32| heuristic_cost(net, *n, goal),
        |n: &u32| *n == goal,
    ).map(|found: (Vec<u32>, u64)| found.0)
}

/// Cauchy–Schwarz in three dimensions, via the sum-of-squares identity.
proof fn lemma_cauchy_schwarz(x1: int, x2: int, x3: int, y1: int, y2: int, y3: int)
    ensures
        (x1 * y1 + x2 * y2 + x3 * y3) * (x1 * y1 + x2 * y2 + x3 * y3) <= (x1 * x1 + x2 * x2 + x3
            * x3) * (y1 * y1 + y2 * y2 + y3 * y3),
{
    let p = x1 * y1 + x2 * y2 + x3 * y3;
    let q12 = x1 * y2 - x2 * y1;
    let q13 = x1 * y3 - x3 * y1;
    let q23 = x2 * y3 - x3 * y2;
    let a = x1 * y1;
    let b = x2 * y2;
    let c = x3 * y3;
    let r12 = x1 * y2;
    let s12 = x2 * y1;
    let r13 = x1 * y3;
    let s13 = x3 * y1;
    let r23 = x2 * y3;
    let s23 = x3 * y2;
    let xx1 = x1 * x1;
    let xx2 = x2 * x2;
    let xx3 = x3 * x3;
    let yy1 = y1 * y1;
    let yy2 = y2 * y2;
    let yy3 = y3 * y3;
    let m12 = x1 * x2;
    let m13 = x1 * x3;
    let m23 = x2 * x3;
    let n12 = y1 * y2;
    let n13 = y1 * y3;
    let n23 = y2 * y3;
    assert(p * p == a * a + b * b + c * c + 2 * (a * b) + 2 * (a * c) + 2 * (b * c))
        by (nonlinear_arith)
        requires
            p == a + b + c,
    ;
    assert(q12 * q12 == r12 * r12 - 2 * (r12 * s12) + s12 * s12) by (nonlinear_arith)
        requires
            q12 == r12 - s12,
    ;
    assert(q13 * q13 == r13 * r13 - 2 * (r13 * s13) + s13 * s13) by (nonlinear_arith)
        requires
            q13 == r13 - s13,
    ;
    assert(q23 * q23 == r23 * r23 - 2 * (r23 * s23) + s23 * s23) by (nonlinear_arith)
        requires
            q23 == r23 - s23,
    ;
    assert((xx1 + xx2 + xx3) * (yy1 + yy2 + yy3) == xx1 * yy1 + xx1 * yy2 + xx1 * yy3 + xx2 * yy1
        + xx2 * yy2 + xx2 * yy3 + xx3 * yy1 + xx3 * yy2 + xx3 * yy3) by (nonlinear_arith);
    assert(a * a == xx1 * yy1 && b * b == xx2 * yy2 && c * c == xx3 * yy3) by (nonlinear_arith)
        requires
            a == x1 * y1,
            b == x2 * y2,
            c == x3 * y3,
            xx1 == x1 * x1,
            xx2 == x2 * x2,
            xx3 == x3 * x3,
            yy1 == y1 * y1,
            yy2 == y2 * y2,
            yy3 == y3 * y3,
    ;
    assert(a * b == m12 * n12 && a * c == m13 * n13 && b * c == m23 * n23) by (nonlinear_arith)
        requires
            a == x1 * y1,
            b == x2 * y2,
            c == x3 * y3,
            m12 == x1 * x2,
            m13 == x1 * x3,
            m23 == x2 * x3,
            n12 == y1 * y2,
            n13 == y1 * y3,
            n23 == y2 * y3,
    ;
    assert(r12 * r12 == xx1 * yy2 && s12 * s12 == xx2 * yy1 && r12 * s12 == m12 * n12)
        by (nonlinear_arith)
        requires
            r12 == x1 * y2,
            s12 == x2 * y1,
            xx1 == x1 * x1,
            xx2 == x2 * x2,
            yy1 == y1 * y1,
            yy2 == y2 * y2,
            m12 == x1 * x2,
            n12 == y1 * y2,
    ;
    assert(r13 * r13 == xx1 * yy3 && s13 * s13 == xx3 * yy1 && r13 * s13 == m13 * n13)
        by (nonlinear_arith)
        requires
            r13 == x1 * y3,
            s13 == x3 * y1,
            xx1 == x1 * x1,
            xx3 == x3 * x3,
            yy1 == y1 * y1,
            yy3 == y3 * y3,
            m13 == x1 * x3,
            n13 == y1 * y3,
    ;
    assert(r23 * r23 == xx2 * yy3 && s23 * s23 == xx3 * yy2 && r23 * s23 == m23 * n23)
        by (nonlinear_arith)
        requires
            r23 == x2 * y3,
            s23 == x3 * y2,
            xx2 == x2 * x2,
            xx3 == x3 * x3,
            yy2 == y2 * y2,
            yy3 == y3 * y3,
            m23 == x2 * x3,
            n23 == y2 * y3,
    ;
    assert(p * p + q12 * q12 + q13 * q13 + q23 * q23 == (xx1 + xx2 + xx3) * (yy1 + yy2 + yy3));
    assert(q12 * q12 >= 0 && q13 * q13 >= 0 && q23 * q23 >= 0) by (nonlinear_arith);
}

/// Triangle inequality for the rounded distances: the floor distance from
/// `a` to `c` never exceeds the ceiling distance from `a` to `b` plus the
/// floor distance from `b` to `c`.
pub proof fn lemma_dist_triangle(a: Vec3, b: Vec3, c: Vec3)
    requires
        crate::geom::in_bounds(a),
        crate::geom::in_bounds(b),
        crate::geom::in_bounds(c),
    ensures
        dist_floor(a, c) <= dist_ceil(a, b) + dist_floor(b, c),
{
    let u = crate::geom::delta_spec(a, b);
    let v = crate::geom::delta_spec(b, c);
    let w = crate::geom::delta_spec(a, c);
    assert(w.x == u.x + v.x && w.y == u.y + v.y && w.z == u.z + v.z);
    let nu = crate::geom::norm_sq(u);
    let nv = crate::geom::norm_sq(v);
    let nw = crate::geom::norm_sq(w);
    let dot = u.x * v.x + u.y * v.y + u.z * v.z;
    assert(nw == nu + 2 * dot + nv) by (nonlinear_arith)
        requires
            w.x == u.x + v.x,
            w.y == u.y + v.y,
            w.z == u.z + v.z,
            nu == u.x * u.x + u.y * u.y + u.z * u.z,
            nv == v.x * v.x + v.y * v.y + v.z * v.z,
            nw == w.x * w.x + w.y * w.y + w.z * w.z,
            dot == u.x * v.x + u.y * v.y + u.z * v.z,
    ;
    lemma_cauchy_schwarz(u.x as int, u.y as int, u.z as int, v.x as int, v.y as int, v.z as int);
    assert(dot * dot <= nu * nv);
    assert(nu >= 0 && nv >= 0) by (nonlinear_arith)
        requires
            nu == u.x * u.x + u.y * u.y + u.z * u.z,
            nv == v.x * v.x + v.y * v.y + v.z * v.z,
    ;
    assert(nw >= 0) by (nonlinear_arith)
        requires
            nw == w.x * w.x + w.y * w.y + w.z * w.z,
    ;
    crate::geom::lemma_sqrt_floor(nu);
    crate::geom::lemma_sqrt_floor(nv);
    crate::geom::lemma_sqrt_floor(nw);
    let fa = sqrt_floor(nu);
    let ca = sqrt_ceil(nu);
    let fb = sqrt_floor(nv);
    assert(ca * ca >= nu && ca >= 0) by (nonlinear_arith)
        requires
            fa * fa <= nu < (fa + 1) * (fa + 1),
            fa >= 0,
            ca == fa || ca == fa + 1,
            ca == fa ==> fa * fa == nu,
    ;
    // nw < (ca + fb + 1)^2
    if dot <= 0 {
        assert(nw < (ca + fb + 1) * (ca + fb + 1)) by (nonlinear_arith)
            requires
                nw == nu + 2 * dot + nv,
                dot <= 0,
                nu <= ca * ca,
                nv < (fb + 1) * (fb + 1),
                ca >= 0,
                fb >= 0,
        ;
    } else {
        if nu == 0 {
            assert(u.x == 0 && u.y == 0 && u.z == 0) by (nonlinear_arith)
                requires
                    u.x * u.x + u.y * u.y + u.z * u.z == 0,
            ;
            assert(dot == 0);
            assert(false);
        }
        crate::geom::lemma_sqrt_floor_ge(nu, 1);
        assert(ca >= 1);
        assert(dot * dot < (ca * (fb + 1)) * (ca * (fb + 1))) by (nonlinear_arith)
            requires
                dot * dot <= nu * nv,
                nu >= 1,
                0 <= nv < (fb + 1) * (fb + 1),
                nu <= ca * ca,
                ca >= 1,
                fb >= 0,
        ;
        assert(dot < ca * (fb + 1)) by (nonlinear_arith)
            requires
                dot * dot < (ca * (fb + 1)) * (ca * (fb + 1)),
                dot > 0,
                ca * (fb + 1) >= 0,
        ;
        assert(nw < (ca + fb + 1) * (ca + fb + 1)) by (nonlinear_arith)
            requires
                nw == nu + 2 * dot + nv,
                dot <= ca * (fb + 1) - 1,
                nu <= ca * ca,
                nv < (fb + 1) * (fb + 1),
                ca >= 0,
                fb >= 0,
        ;
    }
    crate::geom::lemma_sqrt_floor_lt(nw, ca + fb + 1);
}

/// Any path from `n` to `goal` costs at least the straight-line estimate:
/// the estimate under-counts every edge, by the triangle inequality.
pub proof fn lemma_heur_le_path_cost(net: RoadNetwork, q: Seq<u32>, n: u32, goal: u32)
    requires
        net.wf(),
        is_path(net, q, n, goal),
    ensures
        heur(net, n, goal) <= path_cost(net, q),
    decreases q.len(),
{
    crate::road::lemma_find_idx(net.spec_nodes(), n);
    crate::road::lemma_find_idx(net.spec_nodes(), goal);
    assert(net.node_for(n).wf());
    assert(net.node_for(goal).wf());
    if q.len() == 1 {
        assert(n == goal);
        let z = crate::geom::delta_spec(net.node_for(n).spec_location(), net.node_for(
            goal,
        ).spec_location());
        assert(crate::geom::norm_sq(z) == 0) by (nonlinear_arith)
            requires
                z.x == 0,
                z.y == 0,
                z.z == 0,
        ;
    } else {
        let m = q[1];
        let q2 = q.drop_first();
        crate::road::lemma_find_idx(net.spec_nodes(), m);
        assert(net.node_for(m).wf());
        assert(is_path(net, q2, m, goal)) by {
            assert(q2[0] == q[1]);
            assert(q2[q2.len() - 1] == q[q.len() - 1]);
            assert(forall|i: int| 0 <= i < q2.len() ==> q2[i] == q[i + 1]);
            assert(forall|i: int|
                0 <= i < q2.len() ==> net.contains_id(#[trigger] q2[i]));
            assert forall|i: int|
                0 <= i < q2.len() - 1 implies net.node_for(
                #[trigger] q2[i],
            ).spec_next_nodes().contains(q2[i + 1]) by {
                assert(q2[i] == q[i + 1] && q2[i + 1] == q[i + 2]);
                assert(net.node_for(q[i + 1]).spec_next_nodes().contains(q[i + 2]));
            }
        }
        lemma_heur_le_path_cost(net, q2, m, goal);
        lemma_dist_triangle(
            net.node_for(n).spec_location(),
            net.node_for(m).spec_location(),
            net.node_for(goal).spec_location(),
        );
        assert(path_cost(net, q) == dist_ceil(
            net.node_for(n).spec_location(),
            net.node_for(m).spec_location(),
        ) + path_cost(net, q2));
    }
}

/// The straight-line estimate is admissible on every well-formed network:
/// it never overestimates the cost of any path to the goal. Together with
/// the search's contract, every path that replanning returns has the lowest
/// total cost of all paths to the destination.
pub proof fn lemma_heur_admissible(net: RoadNetwork, goal: u32)
    requires
        net.wf(),
    ensures
        admissible(net, goal),
{
    assert forall|n: u32, q: Seq<u32>| #[trigger] is_path(net, q, n, goal) implies heur(
        net,
        n,
        goal,
    ) <= path_cost(net, q) by {
        lemma_heur_le_path_cost(net, q, n, goal);
    }
}

} // verus!
