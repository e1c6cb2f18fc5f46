use traffic_simulator::geom::{isqrt, Vec3, DIR_SCALE, DIR_TOL};
use traffic_simulator::road::{Node, RoadNetwork};
use traffic_simulator::traffic_light::{TimedTrafficLight, TrafficLightState};
use traffic_simulator::user::RoadUser;
use traffic_simulator::Simulator;

fn v3(x: i64, y: i64, z: i64) -> Vec3 {
    Vec3 { x, y, z }
}

/// The network of the single-car scenario: a short road that forks at node 1
/// into a fast upper branch and a slow lower branch, a light at the fork.
fn fork_network() -> RoadNetwork {
    RoadNetwork::new(vec![
        Node::new(0, v3(0, 0, 0), 8333, vec![1], None, None),
        Node::new(1, v3(10_000, 0, 0), 8333, vec![2, 4], None, None),
        Node::new(2, v3(10_500, 1_000, 0), 8333, vec![3], None, None),
        Node::new(3, v3(11_000, 20_000, 0), 8333, Vec::new(), None, None),
        Node::new(4, v3(10_500, -1_000, 0), 1389, vec![5], None, None),
        Node::new(5, v3(11_000, -20_000, 0), 8333, Vec::new(), None, None),
    ])
}

#[test]
fn single_node_one_car() {
    let mut simulator = Simulator::new(
        fork_network(),
        vec![TimedTrafficLight::new(
            1,
            vec![
                (10_000, TrafficLightState::Red),
                (10_000, TrafficLightState::Green),
                (3_000, TrafficLightState::Orange),
            ],
        )],
    );

    simulator.add_manual_road_users(RoadUser::new(
        0,
        v3(-1_000, 0, 0),
        0,
        3_500,
        5_000,
        102_944,
        0,
        5,
        simulator.road_network(),
    ));

    let mut current_time: u64 = 0;
    const DELTA_TIME: u64 = 10;
    for i in 0..2000 {
        if i % 10 == 0 {
            println!("Current time: {current_time}");

            for user in simulator.current_road_users().iter() {
                println!(
                    "car @{:?}, => {:?} @ {} mm/s",
                    user.location(),
                    user.current_direction(),
                    user.current_speed()
                );
            }

            for light in simulator.traffic_lights().iter() {
                println!("light @{} => {:?}", light.node(), light.get_state());
            }
        }

        simulator.tick(DELTA_TIME);
        current_time += DELTA_TIME;

        if simulator.current_road_users().is_empty() {
            break;
        }
    }
}

#[test]
fn light_phase_schedule_boundaries() {
    let schedule = vec![
        (10_000, TrafficLightState::Red),
        (10_000, TrafficLightState::Green),
        (3_000, TrafficLightState::Orange),
    ];
    let mut light = TimedTrafficLight::new(7, schedule);
    assert_eq!(light.node(), 7);
    assert_eq!(light.get_state(), TrafficLightState::Red);

    light.tick(5_000);
    assert_eq!(light.get_state(), TrafficLightState::Red);
    // a tie at a cumulative boundary resolves to the earlier entry
    light.tick(10_000);
    assert_eq!(light.get_state(), TrafficLightState::Red);
    light.tick(10_001);
    assert_eq!(light.get_state(), TrafficLightState::Green);
    light.tick(20_000);
    assert_eq!(light.get_state(), TrafficLightState::Green);
    light.tick(20_001);
    assert_eq!(light.get_state(), TrafficLightState::Orange);
    light.tick(22_999);
    assert_eq!(light.get_state(), TrafficLightState::Orange);
    // a whole period wraps back to the start of the cycle
    light.tick(23_000);
    assert_eq!(light.get_state(), TrafficLightState::Red);
}

#[test]
fn light_phase_pure_function_of_time() {
    let schedule = vec![
        (10_000, TrafficLightState::Red),
        (10_000, TrafficLightState::Green),
        (3_000, TrafficLightState::Orange),
    ];
    let period: u64 = 23_000;
    let mut light = TimedTrafficLight::new(0, schedule);
    // idempotence: ticking twice at one absolute time shows one phase
    light.tick(12_345);
    let first = light.get_state();
    light.tick(12_345);
    assert_eq!(light.get_state(), first);
    // periodicity: any whole number of cycles apart shows the same phase
    for k in 0..5u64 {
        light.tick(12_345 + k * period);
        assert_eq!(light.get_state(), first);
    }
    // a detour through another time does not desynchronize the light
    light.tick(22_000);
    assert_eq!(light.get_state(), TrafficLightState::Orange);
    light.tick(12_345 + 3 * period);
    assert_eq!(light.get_state(), first);
}

#[test]
fn red_light_inside_required_distance_forces_stop() {
    // current speed 5 m/s, deceleration 2 m/s^2, light 3 m ahead:
    // required stopping distance 6.25 m > 3 m, so the target speed drops to 0
    // and one 1 s step brakes by the full deceleration.
    let network = RoadNetwork::new(vec![
        Node::new(0, v3(3_000, 0, 0), 8_333, vec![1], None, None),
        Node::new(1, v3(100_000, 0, 0), 8_333, Vec::new(), None, None),
    ]);
    let lights = vec![TimedTrafficLight::new(0, vec![(10_000, TrafficLightState::Red)])];
    let mut simulator = Simulator::new(network, lights);
    simulator.add_manual_road_users(RoadUser::new(
        0,
        v3(0, 0, 0),
        5_000,
        2_000,
        2_000,
        102_944,
        0,
        1,
        simulator.road_network(),
    ));
    simulator.tick(1_000);
    assert_eq!(simulator.current_road_users().len(), 1);
    assert_eq!(simulator.current_road_users()[0].current_speed(), 3_000);
}

#[test]
fn speed_never_overshoots_target() {
    // acceleration toward an 8333 mm/s limit: big steps hit the limit
    // exactly, small steps advance by acceleration * dt
    let network = RoadNetwork::new(vec![
        Node::new(0, v3(1_000_000, 0, 0), 8_333, vec![1], None, None),
        Node::new(1, v3(2_000_000, 0, 0), 8_333, Vec::new(), None, None),
    ]);
    let mut simulator = Simulator::new(network, Vec::new());
    simulator.add_manual_road_users(RoadUser::new(
        0,
        v3(0, 0, 0),
        0,
        3_500,
        5_000,
        102_944,
        0,
        1,
        simulator.road_network(),
    ));
    simulator.tick(1_000);
    // one second at 3500 mm/s^2 from rest
    assert_eq!(simulator.current_road_users()[0].current_speed(), 3_500);
    simulator.tick(60_000);
    // a step large enough to overshoot lands exactly on the limit
    assert_eq!(simulator.current_road_users()[0].current_speed(), 8_333);
    simulator.tick(1_000);
    assert_eq!(simulator.current_road_users()[0].current_speed(), 8_333);
}

#[test]
fn direction_stays_unit_and_turn_is_bounded() {
    // target due +y of the agent while it points +x: one 10 ms step turns by
    // at most max_steering_angle * dt / 1000 chord units
    let network = RoadNetwork::new(vec![
        Node::new(0, v3(0, 500_000, 0), 8_333, vec![1], None, None),
        Node::new(1, v3(0, 1_000_000, 0), 8_333, Vec::new(), None, None),
    ]);
    let mut simulator = Simulator::new(network, Vec::new());
    // initial direction: the diagonal from (-500000, 0, 0) toward node 0
    let user = RoadUser::new(
        0,
        v3(-500_000, 0, 0),
        1_000,
        3_500,
        5_000,
        102_944,
        0,
        1,
        simulator.road_network(),
    );
    let d0 = user.current_direction();
    simulator.add_manual_road_users(user);
    simulator.tick(10);
    let d1 = simulator.current_road_users()[0].current_direction();
    let n1 = d1.x * d1.x + d1.y * d1.y + d1.z * d1.z;
    let lo = (DIR_SCALE - DIR_TOL) * (DIR_SCALE - DIR_TOL);
    let hi = (DIR_SCALE + DIR_TOL) * (DIR_SCALE + DIR_TOL);
    assert!(lo <= n1 && n1 <= hi, "direction norm out of tolerance: {n1}");
    // the horizontal chordal change stays within the budget plus rescaling
    // slop of at most 2 * DIR_TOL
    let budget = 102_944 * 10 / 1000;
    let dx = d1.x - d0.x;
    let dy = d1.y - d0.y;
    let turn2 = dx * dx + dy * dy;
    let cap = budget + 2 * DIR_TOL;
    assert!(turn2 <= cap * cap, "turn {turn2} exceeds cap {}", cap * cap);
}

#[test]
fn straight_line_reaches_destination() {
    // a straight line of nodes, one speed limit, no lights: the agent
    // arrives and is absent from the active set on the following tick
    let network = RoadNetwork::new(vec![
        Node::new(0, v3(1_000, 0, 0), 1_000, vec![1], None, None),
        Node::new(1, v3(2_000, 0, 0), 1_000, vec![2], None, None),
        Node::new(2, v3(3_000, 0, 0), 1_000, Vec::new(), None, None),
    ]);
    let mut simulator = Simulator::new(network, Vec::new());
    simulator.add_manual_road_users(RoadUser::new(
        0,
        v3(0, 0, 0),
        1_000,
        1_000,
        1_000,
        102_944,
        0,
        2,
        simulator.road_network(),
    ));
    simulator.tick(1_000);
    assert_eq!(simulator.current_road_users().len(), 1);
    simulator.tick(1_000);
    assert_eq!(simulator.current_road_users().len(), 1);
    simulator.tick(1_000);
    // reached node 2, the destination: removed within this tick
    assert_eq!(simulator.current_road_users().len(), 0);
    simulator.tick(1_000);
    assert_eq!(simulator.current_road_users().len(), 0);
}

#[test]
fn two_node_network_removal_leaves_empty_set() {
    let network = RoadNetwork::new(vec![
        Node::new(0, v3(1_000, 0, 0), 1_000, vec![1], None, None),
        Node::new(1, v3(2_000, 0, 0), 1_000, Vec::new(), None, None),
    ]);
    let mut simulator = Simulator::new(network, Vec::new());
    simulator.add_manual_road_users(RoadUser::new(
        0,
        v3(0, 0, 0),
        1_000,
        1_000,
        1_000,
        102_944,
        0,
        1,
        simulator.road_network(),
    ));
    simulator.tick(1_000);
    assert_eq!(simulator.current_road_users().len(), 1);
    simulator.tick(1_000);
    assert_eq!(simulator.current_road_users().len(), 0);
}

#[test]
fn replanning_selects_shorter_branch() {
    // two branches join again at the destination; replanning at the branch
    // point picks the lower-total-distance one
    let network = RoadNetwork::new(vec![
        Node::new(0, v3(0, 0, 0), 8_333, vec![1, 2], None, None),
        Node::new(1, v3(5_000, 1_000, 0), 8_333, vec![3], None, None),
        Node::new(2, v3(5_000, 8_000, 0), 8_333, vec![3], None, None),
        Node::new(3, v3(10_000, 0, 0), 8_333, Vec::new(), None, None),
    ]);
    let mut user = RoadUser::new(
        0,
        v3(-1_000, 0, 0),
        0,
        3_500,
        5_000,
        102_944,
        0,
        3,
        &network,
    );
    user.recalculate_path(&network);
    assert_eq!(user.next_nodes, vec![1, 3]);
}

#[test]
fn replanning_without_any_path_empties_the_plan() {
    let network = RoadNetwork::new(vec![
        Node::new(0, v3(1_000, 0, 0), 1_000, Vec::new(), None, None),
        Node::new(1, v3(2_000, 0, 0), 1_000, Vec::new(), None, None),
    ]);
    let mut user = RoadUser::new(
        0,
        v3(0, 0, 0),
        0,
        1_000,
        1_000,
        102_944,
        0,
        1,
        &network,
    );
    user.recalculate_path(&network);
    assert!(user.next_nodes.is_empty());
}

#[test]
fn network_lookup_and_geometry() {
    let network = RoadNetwork::new(vec![
        Node::new(4, v3(0, 0, 0), 1_000, vec![9], Some(9), None),
        Node::new(9, v3(3_000, 4_000, 0), 2_000, Vec::new(), None, Some(4)),
    ]);
    let mut ids = network.all_node_ids();
    ids.sort();
    assert_eq!(ids, vec![4, 9]);
    let a = network.find_node(4);
    let b = network.find_node(9);
    assert_eq!(a.max_speed(), 1_000);
    assert_eq!(b.max_speed(), 2_000);
    assert_eq!(a.next_nodes(), &vec![9]);
    assert_eq!(a.adjacent_node_right(), Some(9));
    assert_eq!(b.adjacent_node_left(), Some(4));
    // 3-4-5 triangle, exactly 5 m
    assert_eq!(a.distance_to(b), 5_000);
    assert_eq!(b.distance_to(a), 5_000);
    assert_eq!(a.distance_ceil_to(b), 5_000);
    let v = a.vector_to(b);
    assert_eq!((v.x, v.y, v.z), (3_000, 4_000, 0));
    // a unit +x direction scales to exactly DIR_SCALE
    let line = RoadNetwork::new(vec![
        Node::new(0, v3(0, 0, 0), 1_000, vec![1], None, None),
        Node::new(1, v3(1_000, 0, 0), 1_000, Vec::new(), None, None),
    ]);
    let d = line.find_node(0).direction_to(line.find_node(1));
    assert_eq!((d.x, d.y, d.z), (DIR_SCALE, 0, 0));
}

#[test]
fn integer_square_root_is_exact_floor() {
    assert_eq!(isqrt(0), 0);
    assert_eq!(isqrt(1), 1);
    assert_eq!(isqrt(2), 1);
    assert_eq!(isqrt(3), 1);
    assert_eq!(isqrt(4), 2);
    assert_eq!(isqrt(10), 3);
    assert_eq!(isqrt(999_999), 999);
    assert_eq!(isqrt(1_000_000), 1_000);
    assert_eq!(isqrt(25_000_000_000_000_000_000), 5_000_000_000);
}

#[test]
fn simulator_clock_and_accessors() {
    let mut simulator = Simulator::new(fork_network(), Vec::new());
    assert_eq!(simulator.current_time(), 0);
    simulator.tick(10);
    simulator.tick(15);
    assert_eq!(simulator.current_time(), 25);
    assert_eq!(simulator.road_network().all_node_ids().len(), 6);
    assert!(simulator.traffic_lights().is_empty());
    assert!(simulator.current_road_users().is_empty());
}
