//! The road network: an immutable graph of nodes keyed by integer id, with
//! positions, speed limits, directed successor edges and lane adjacency.
use crate::geom::{
    delta, dir_spec, dir_scaled, dist_ceil, dist_floor, distance_ceil_mm, distance_mm, in_bounds,
    norm_sq, wf_dir, Vec3, COORD_BOUND,
};
use vstd::prelude::*;

verus! {

/// Largest speed (millimetres per second) any node may allow.
pub const MAX_SPEED: i64 = 100_000;

/// A point in the road graph: a position, a speed limit, directed successor
/// edges, and optional lane-adjacency relations (kept as data, unused by any
/// behaviour).
#[derive(Debug, Clone)]
pub struct Node {
    pub id: u32,
    pub location: Vec3,
    pub max_speed: i64,
    pub next_nodes: Vec<u32>,
    pub adjacent_node_right: Option<u32>,
    pub adjacent_node_left: Option<u32>,
}

impl Node {
    /// A node's own data is well formed: its position lies in the arena and
    /// its speed limit is positive and bounded.
    pub open spec fn wf(self) -> bool {
        &&& in_bounds(self.location)
        &&& 1 <= self.max_speed <= MAX_SPEED
    }

    /// Build a node from its parts.
    pub fn new(
        id: u32,
        location: Vec3,
        max_speed: i64,
        next_nodes: Vec<u32>,
        adjacent_node_right: Option<u32>,
        adjacent_node_left: Option<u32>,
    ) -> (r: Node)
        requires
            in_bounds(location),
            1 <= max_speed <= MAX_SPEED,
        ensures
            r.wf(),
            r.id == id,
            r.location == location,
            r.max_speed == max_speed,
            r.next_nodes == next_nodes,
            r.adjacent_node_right == adjacent_node_right,
            r.adjacent_node_left == adjacent_node_left,
    {
        Node { id, location, max_speed, next_nodes, adjacent_node_right, adjacent_node_left }
    }

    /// Position of the node, millimetres.
    pub open spec fn spec_location(self) -> Vec3 {
        self.location
    }

    /// Position of the node, millimetres.
    pub fn location(&self) -> (r: Vec3)
        ensures
            r == self.spec_location(),
    {
        self.location
    }

    /// Speed limit at the node, millimetres per second.
    pub open spec fn spec_max_speed(self) -> i64 {
        self.max_speed
    }

    /// Speed limit at the node, millimetres per second.
    pub fn max_speed(&self) -> (r: i64)
        ensures
            r == self.spec_max_speed(),
    {
        self.max_speed
    }

    /// Ids of the successor nodes, in edge order.
    pub open spec fn spec_next_nodes(self) -> Seq<u32> {
        self.next_nodes@
    }

    /// Ids of the successor nodes, in edge order.
    pub fn next_nodes(&self) -> (r: &Vec<u32>)
        ensures
            r@ == self.spec_next_nodes(),
    {
        &self.next_nodes
    }

    /// Id of the lane-adjacent node to the right, if any.
    pub open spec fn spec_adjacent_node_right(self) -> Option<u32> {
        self.adjacent_node_right
    }

    /// Id of the lane-adjacent node to the right, if any.
    pub fn adjacent_node_right(&self) -> (r: Option<u32>)
        ensures
            r == self.spec_adjacent_node_right(),
    {
        self.adjacent_node_right
    }

    /// Id of the lane-adjacent node to the left, if any.
    pub open spec fn spec_adjacent_node_left(self) -> Option<u32> {
        self.adjacent_node_left
    }

    /// Id of the lane-adjacent node to the left, if any.
    pub fn adjacent_node_left(&self) -> (r: Option<u32>)
        ensures
            r == self.spec_adjacent_node_left(),
    {
        self.adjacent_node_left
    }

    /// Floor of the Euclidean distance from this node to `other`,
    /// millimetres.
    pub fn distance_to(&self, other: &Node) -> (r: i64)
        requires
            self.wf(),
            other.wf(),
        ensures
            r as int == dist_floor(self.spec_location(), other.spec_location()),
            0 <= r <= 4 * COORD_BOUND,
    {
        distance_mm(&self.location, &other.location)
    }

    /// Ceiling of the Euclidean distance from this node to `other`,
    /// millimetres.
    pub fn distance_ceil_to(&self, other: &Node) -> (r: i64)
        requires
            self.wf(),
            other.wf(),
        ensures
            r as int == dist_ceil(self.spec_location(), other.spec_location()),
            0 <= r <= 4 * COORD_BOUND + 1,
    {
        distance_ceil_mm(&self.location, &other.location)
    }

    /// The full vector from this node to `other`, millimetres.
    pub fn vector_to(&self, other: &Node) -> (r: Vec3)
        requires
            self.wf(),
            other.wf(),
        ensures
            r == crate::geom::delta_spec(self.spec_location(), other.spec_location()),
    {
        delta(&self.location, &other.location)
    }

    /// The scaled direction from this node to `other`; the two positions
    /// must differ.
    pub fn direction_to(&self, other: &Node) -> (r: Vec3)
        requires
            self.wf(),
            other.wf(),
            self.spec_location() != other.spec_location(),
        ensures
            r == dir_spec(crate::geom::delta_spec(self.spec_location(), other.spec_location())),
            wf_dir(r),
    {
        let d = delta(&self.location, &other.location);
        proof {
            let dd = crate::geom::delta_spec(self.location, other.location);
            assert(norm_sq(dd) >= 1) by (nonlinear_arith)
                requires
                    dd.x != 0 || dd.y != 0 || dd.z != 0,
            ;
        }
        dir_scaled(&d)
    }
}

/// First index in `s` holding a node with id `id`, or -1 when none does.
pub open spec fn find_idx(s: Seq<Node>, id: u32) -> int
    decreases s.len(),
{
    if s.len() == 0 {
        -1
    } else if s[0].id == id {
        0
    } else {
        let r = find_idx(s.drop_first(), id);
        if r < 0 {
            -1
        } else {
            r + 1
        }
    }
}

/// `find_idx` finds the first matching index, and -1 means no match.
pub proof fn lemma_find_idx(s: Seq<Node>, id: u32)
    ensures
        find_idx(s, id) == -1 ==> (forall|i: int| 0 <= i < s.len() ==> s[i].id != id),
        find_idx(s, id) >= 0 ==> 0 <= find_idx(s, id) < s.len() && s[find_idx(s, id)].id == id
            && (forall|i: int| 0 <= i < find_idx(s, id) ==> s[i].id != id),
    decreases s.len(),
{
    if s.len() > 0 {
        lemma_find_idx(s.drop_first(), id);
        if s[0].id != id {
            let r = find_idx(s.drop_first(), id);
            if r >= 0 {
                assert(s.drop_first()[r] == s[r + 1]);
                assert(forall|i: int|
                    1 <= i < r + 1 ==> s[i] == s.drop_first()[i - 1] && s.drop_first()[i - 1].id
                        != id);
            } else {
                assert(forall|i: int| 1 <= i < s.len() ==> s[i] == s.drop_first()[i - 1]);
            }
        }
    }
}

/// The immutable graph store: a collection of nodes with pairwise distinct
/// ids, every referenced id present, and the two endpoints of every directed
/// edge at distinct positions.
pub struct RoadNetwork {
    pub nodes: Vec<Node>,
}

impl RoadNetwork {
    /// The nodes, in storage order.
    pub open spec fn spec_nodes(self) -> Seq<Node> {
        self.nodes@
    }

    /// Some node carries id `id`.
    pub open spec fn contains_id(self, id: u32) -> bool {
        find_idx(self.nodes@, id) >= 0
    }

    /// The node carrying id `id` (meaningful only when `contains_id`).
    pub open spec fn node_for(self, id: u32) -> Node {
        self.nodes@[find_idx(self.nodes@, id)]
    }

    /// Well-formed topology: distinct ids, well-formed nodes, every
    /// successor and adjacency id present, and every directed edge joining
    /// two distinct positions.
    pub open spec fn wf(self) -> bool {
        let s = self.nodes@;
        &&& (forall|i: int, j: int| 0 <= i < j < s.len() ==> s[i].id != s[j].id)
        &&& (forall|i: int| 0 <= i < s.len() ==> (#[trigger] s[i]).wf())
        &&& (forall|i: int, k: int|
            0 <= i < s.len() && 0 <= k < s[i].spec_next_nodes().len() ==> self.contains_id(
                #[trigger] s[i].spec_next_nodes()[k],
            ) && self.node_for(s[i].spec_next_nodes()[k]).spec_location() != s[i].spec_location())
        &&& (forall|i: int|
            0 <= i < s.len() && (#[trigger] s[i]).spec_adjacent_node_right() is Some
                ==> self.contains_id(s[i].spec_adjacent_node_right().unwrap()))
        &&& (forall|i: int|
            0 <= i < s.len() && (#[trigger] s[i]).spec_adjacent_node_left() is Some
                ==> self.contains_id(s[i].spec_adjacent_node_left().unwrap()))
    }

    /// Build the store from a node table with pairwise distinct ids; the
    /// referenced-id and distinct-position conditions of `wf` must hold of
    /// the table, as the topology is assumed validated by its author.
    pub fn new(nodes: Vec<Node>) -> (r: RoadNetwork)
        requires
            (RoadNetwork { nodes }).wf(),
        ensures
            r.wf(),
            r.spec_nodes() == nodes@,
    {
        RoadNetwork { nodes }
    }

    /// Look up a node by id; the id must be present.
    pub fn find_node(&self, id: u32) -> (r: &Node)
        requires
            self.contains_id(id),
        ensures
            *r == self.node_for(id),
            r.id == id,
    {
        proof {
            lemma_find_idx(self.nodes@, id);
        }
        let n = self.nodes.len();
        for i in 0..n
            invariant
                n == self.nodes@.len(),
                find_idx(self.nodes@, id) >= i,
                0 <= find_idx(self.nodes@, id) < n,
                self.nodes@[find_idx(self.nodes@, id)].id == id,
                forall|j: int| 0 <= j < find_idx(self.nodes@, id) ==> self.nodes@[j].id != id,
        {
            if self.nodes[i].id == id {
                return &self.nodes[i];
            }
        }
        unreached()
    }

    /// All node ids, in storage order.
    pub fn all_node_ids(&self) -> (r: Vec<u32>)
        ensures
            r@.len() == self.spec_nodes().len(),
            forall|i: int| 0 <= i < r@.len() ==> r@[i] == self.spec_nodes()[i].id,
    {
        let mut out: Vec<u32> = Vec::new();
        let n = self.nodes.len();
        for i in 0..n
            invariant
                n == self.nodes@.len(),
                out@.len() == i,
                forall|j: int| 0 <= j < i ==> out@[j] == self.nodes@[j].id,
        {
            out.push(self.nodes[i].id);
        }
        out
    }
}

} // verus!
