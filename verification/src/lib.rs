//! A discrete-time kinematic road-traffic simulation: agents follow planned
//! paths through a directed road graph, obeying speed limits, steering-rate
//! limits, corner-speed constraints and traffic-light schedules.
//!
//! All quantities are fixed-point integers: positions in millimetres, times in
//! milliseconds, speeds in millimetres per second, and directions as vectors
//! scaled by `geom::DIR_SCALE`.
use vstd::prelude::*;

pub mod geom;
pub mod path;
pub mod road;
pub mod traffic_light;
pub mod user;

use crate::road::RoadNetwork;
use crate::traffic_light::{phase_at, TimedTrafficLight};
use crate::user::{filter_kept, tick_rel, RoadUser, MAX_DT_MS};

verus! {

/// Largest simulation clock value, milliseconds.
pub const MAX_TIME_MS: u64 = 1_000_000_000_000_000;

/// Some user in `s` carries id `id`.
pub open spec fn has_user_id(s: Seq<RoadUser>, id: u32) -> bool {
    exists|j: int| 0 <= j < s.len() && (#[trigger] s[j]).id == id
}

/// The simulation: the immutable road network, the traffic lights, the
/// active road users, and the accumulated clock.
pub struct Simulator {
    pub current_time: u64,
    pub road_network: RoadNetwork,
    pub current_road_users: Vec<RoadUser>,
    pub traffic_lights: Vec<TimedTrafficLight>,
}

impl Simulator {
    /// Network, lights and users are well formed and the clock is in range.
    pub open spec fn wf(self) -> bool {
        &&& self.road_network.wf()
        &&& self.current_time <= MAX_TIME_MS
        &&& (forall|i: int|
            0 <= i < self.traffic_lights@.len() ==> (#[trigger] self.traffic_lights@[i]).wf())
        &&& (forall|i: int|
            0 <= i < self.current_road_users@.len() ==> (#[trigger] self.current_road_users@[
                i
            ]).wf() && self.current_road_users@[i].wf_on(self.road_network))
    }

    /// Build a simulation over `road_network` and `traffic_lights`, with no
    /// users and the clock at zero.
    pub fn new(road_network: RoadNetwork, traffic_lights: Vec<TimedTrafficLight>) -> (r: Simulator)
        requires
            road_network.wf(),
            forall|i: int|
                0 <= i < traffic_lights@.len() ==> (#[trigger] traffic_lights@[i]).wf(),
        ensures
            r.wf(),
            r.current_time == 0,
            r.road_network == road_network,
            r.current_road_users@.len() == 0,
            r.traffic_lights == traffic_lights,
    {
        Simulator {
            current_time: 0,
            road_network,
            current_road_users: Vec::new(),
            traffic_lights,
        }
    }

    /// Advance the simulation by `delta_time` milliseconds: every light
    /// recomputes its phase at the new absolute time, then every user takes
    /// one kinematic step against those updated lights, and the clock
    /// advances. The surviving users are exactly, in order, the stepped
    /// states of the old users whose step stayed active: users that arrive
    /// at their destination or find no path leave the active set.
    pub fn tick(&mut self, delta_time: u64)
        requires
            old(self).wf(),
            1 <= delta_time <= MAX_DT_MS,
            old(self).current_time + delta_time <= MAX_TIME_MS,
        ensures
            final(self).wf(),
            final(self).current_time == old(self).current_time + delta_time,
            final(self).road_network == old(self).road_network,
            final(self).traffic_lights@.len() == old(self).traffic_lights@.len(),
            forall|i: int|
                0 <= i < final(self).traffic_lights@.len() ==> {
                    let l1 = #[trigger] final(self).traffic_lights@[i];
                    let l0 = old(self).traffic_lights@[i];
                    l1.node == l0.node && l1.schema == l0.schema && l1.current_state == phase_at(
                        l0.schema@,
                        old(self).current_time + delta_time,
                    )
                },
            final(self).current_road_users@.len() <= old(self).current_road_users@.len(),
            forall|i: int|
                0 <= i < final(self).current_road_users@.len() ==> has_user_id(
                    old(self).current_road_users@,
                    (#[trigger] final(self).current_road_users@[i]).id,
                ),
            exists|stepped: Seq<RoadUser>, kept: Seq<bool>|
                {
                    &&& stepped.len() == old(self).current_road_users@.len()
                    &&& kept.len() == stepped.len()
                    &&& (forall|i: int|
                        0 <= i < stepped.len() ==> tick_rel(
                            old(self).current_road_users@[i],
                            #[trigger] stepped[i],
                            old(self).road_network,
                            final(self).traffic_lights@,
                            delta_time as int,
                            kept[i],
                        ))
                    &&& final(self).current_road_users@ == #[trigger] filter_kept(stepped, kept)
                },
    {
        let new_time = self.current_time + delta_time;
        let ghost l0s = self.traffic_lights@;
        let mut ticked: Vec<TimedTrafficLight> = Vec::new();
        while self.traffic_lights.len() > 0
            invariant
                self.road_network == old(self).road_network,
                self.current_road_users == old(self).current_road_users,
                self.current_time == old(self).current_time,
                old(self).wf(),
                new_time == old(self).current_time + delta_time,
                ticked@.len() + self.traffic_lights@.len() == l0s.len(),
                self.traffic_lights@ == l0s.skip(ticked@.len() as int),
                forall|i: int| 0 <= i < l0s.len() ==> (#[trigger] l0s[i]).wf(),
                forall|j: int|
                    0 <= j < ticked@.len() ==> {
                        let l1 = #[trigger] ticked@[j];
                        let l0 = l0s[j];
                        l1.wf() && l1.node == l0.node && l1.schema == l0.schema
                            && l1.current_state == phase_at(l0.schema@, new_time as int)
                    },
            decreases self.traffic_lights@.len(),
        {
            let mut light = self.traffic_lights.remove(0);
            proof {
                let k = ticked@.len() as int;
                assert(l0s.skip(k)[0] == l0s[k]);
                assert(l0s.skip(k).remove(0) =~= l0s.skip(k + 1));
            }
            light.tick(new_time);
            ticked.push(light);
        }
        self.traffic_lights = ticked;
        let ghost u0s = self.current_road_users@;
        let ghost mut done: int = 0;
        let ghost mut stepped: Seq<RoadUser> = Seq::empty();
        let ghost mut keptb: Seq<bool> = Seq::empty();
        let mut kept: Vec<RoadUser> = Vec::new();
        while self.current_road_users.len() > 0
            invariant
                self.road_network == old(self).road_network,
                self.road_network.wf(),
                1 <= delta_time <= MAX_DT_MS,
                new_time == old(self).current_time + delta_time,
                self.traffic_lights@.len() == l0s.len(),
                l0s == old(self).traffic_lights@,
                u0s == old(self).current_road_users@,
                forall|j: int|
                    0 <= j < self.traffic_lights@.len() ==> {
                        let l1 = #[trigger] self.traffic_lights@[j];
                        let l0 = l0s[j];
                        l1.wf() && l1.node == l0.node && l1.schema == l0.schema
                            && l1.current_state == phase_at(l0.schema@, new_time as int)
                    },
                0 <= done <= u0s.len(),
                self.current_road_users@ == u0s.skip(done),
                stepped.len() == done,
                keptb.len() == done,
                forall|i: int|
                    0 <= i < done ==> tick_rel(
                        u0s[i],
                        #[trigger] stepped[i],
                        self.road_network,
                        self.traffic_lights@,
                        delta_time as int,
                        keptb[i],
                    ),
                kept@ == filter_kept(stepped, keptb),
                forall|i: int| 0 <= i < u0s.len() ==> (#[trigger] u0s[i]).wf() && u0s[i].wf_on(
                    self.road_network,
                ),
                kept@.len() <= done,
                forall|i: int|
                    0 <= i < kept@.len() ==> (#[trigger] kept@[i]).wf() && kept@[i].wf_on(
                        self.road_network,
                    ),
                forall|i: int|
                    0 <= i < kept@.len() ==> has_user_id(u0s, (#[trigger] kept@[i]).id),
            decreases self.current_road_users@.len(),
        {
            let mut user = self.current_road_users.remove(0);
            proof {
                assert(u0s.skip(done)[0] == u0s[done]);
                assert(u0s.skip(done).remove(0) =~= u0s.skip(done + 1));
            }
            let active = user.tick(&self.road_network, &self.traffic_lights, delta_time);
            proof {
                let prev_stepped = stepped;
                let prev_keptb = keptb;
                stepped = stepped.push(user);
                keptb = keptb.push(active);
                assert(stepped.drop_last() =~= prev_stepped);
                assert(keptb.drop_last() =~= prev_keptb);
                assert(stepped.last() == user && keptb.last() == active);
            }
            if active {
                kept.push(user);
                proof {
                    assert(u0s[done].id == kept@[kept@.len() - 1].id);
                    assert(has_user_id(u0s, kept@[kept@.len() - 1].id));
                }
            }
            proof {
                done = done + 1;
            }
        }
        self.current_road_users = kept;
        proof {
            assert(stepped.len() == u0s.len() && keptb.len() == stepped.len());
            assert(self.current_road_users@ == filter_kept(stepped, keptb));
            assert forall|i: int| 0 <= i < self.current_road_users@.len() implies has_user_id(
                old(self).current_road_users@,
                (#[trigger] self.current_road_users@[i]).id,
            ) by {
                assert(self.current_road_users@[i] == kept@[i]);
            }
        }
        self.current_time = new_time;
    }

    /// The road network, read-only.
    pub fn road_network(&self) -> (r: &RoadNetwork)
        ensures
            r == &self.road_network,
    {
        &self.road_network
    }

    /// The active road users, read-only.
    pub fn current_road_users(&self) -> (r: &Vec<RoadUser>)
        ensures
            r == &self.current_road_users,
    {
        &self.current_road_users
    }

    /// Insert an externally constructed agent into the active set.
    pub fn add_manual_road_users(&mut self, user: RoadUser)
        requires
            old(self).wf(),
            user.wf(),
            user.wf_on(old(self).road_network),
        ensures
            final(self).wf(),
            final(self).current_road_users@ == old(self).current_road_users@.push(user),
            final(self).current_time == old(self).current_time,
            final(self).road_network == old(self).road_network,
            final(self).traffic_lights == old(self).traffic_lights,
    {
        self.current_road_users.push(user)
    }

    /// The simulation clock, milliseconds.
    pub fn current_time(&self) -> (r: u64)
        ensures
            r == self.current_time,
    {
        self.current_time
    }

    /// The traffic lights, read-only.
    pub fn traffic_lights(&self) -> (r: &Vec<TimedTrafficLight>)
        ensures
            r == &self.traffic_lights,
    {
        &self.traffic_lights
    }
}

} // verus!
