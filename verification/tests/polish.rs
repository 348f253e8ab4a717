use std::sync::Arc;

use texo_pnr::device::{Device, UnifiedGraph};
use texo_pnr::model::{
    CellPinId, Connection, Design, NetId, PinDirection, PipId, Point, ResourceKind, WireId,
};
use texo_pnr::ordered::{OrderedKey, OrderedMap, OrderedSet};
use texo_pnr::placement::{PinWireCache, Placement};
use texo_pnr::polish::{polish_legal_timing_routes, LegalRoutePolishMetrics};
use texo_pnr::polish_queue::unloaded_arc_cost;
use texo_pnr::polish_subscriptions::LegalRoutePolishSubscriptions;
use texo_pnr::route::{NetRoute, RouteArc};
use texo_pnr::routing_constraints::RoutingConstraints;
use texo_pnr::routing_costs::RoutingCosts;
use texo_pnr::search::HardRoutingBlockers;
use texo_pnr::workspace::RoutingWorkspace;

fn keyed<K: OrderedKey, V: Copy>(entries: &[(K, V)]) -> OrderedMap<K, V> {
    let mut map = OrderedMap::new();
    for &(key, value) in entries {
        map.insert(key, value);
    }
    map
}

fn arcs<V: Copy>(entries: &[((NetId, CellPinId), V)]) -> OrderedMap<Connection, V> {
    let mut map = OrderedMap::new();
    for &((net, sink), value) in entries {
        map.insert(Connection { net, sink }, value);
    }
    map
}

struct LegalPolishFixture {
    design: Design,
    device: Device,
    placement: Placement,
    costs: RoutingCosts,
    routes: Vec<Arc<NetRoute>>,
    target_sink: CellPinId,
    fast_pips: [PipId; 2],
    occupied_detour: WireId,
}

fn legal_polish_fixture() -> LegalPolishFixture {
    let mut design = Design::new();
    let target_source = design.add_cell("target-source".to_string(), ResourceKind::Logic);
    let target_output = design
        .add_pin(target_source, "O".to_string(), PinDirection::Output)
        .unwrap();
    let target_sink_cell = design.add_cell("target-sink".to_string(), ResourceKind::Register);
    let target_sink = design
        .add_pin(target_sink_cell, "I".to_string(), PinDirection::Input)
        .unwrap();
    let obstacle_source = design.add_cell("obstacle-source".to_string(), ResourceKind::Logic);
    let obstacle_output = design
        .add_pin(obstacle_source, "OO".to_string(), PinDirection::Output)
        .unwrap();
    let obstacle_sink_cell = design.add_cell("obstacle-sink".to_string(), ResourceKind::Register);
    let obstacle_sink = design
        .add_pin(obstacle_sink_cell, "II".to_string(), PinDirection::Input)
        .unwrap();
    design
        .add_net("target".to_string(), target_output, vec![target_sink])
        .unwrap();
    design
        .add_net("obstacle".to_string(), obstacle_output, vec![obstacle_sink])
        .unwrap();

    let mut device = Device::new("legal-polish".to_string(), 5, 2).unwrap();
    let driver = device.add_wire("driver".to_string(), Point::new(0, 0), 1).unwrap();
    let slow = device.add_wire("slow".to_string(), Point::new(1, 1), 1).unwrap();
    let fast = device.add_wire("fast".to_string(), Point::new(2, 0), 1).unwrap();
    let target_goal = device.add_wire("target-goal".to_string(), Point::new(4, 0), 1).unwrap();
    let obstacle_driver = device
        .add_wire("obstacle-driver".to_string(), Point::new(0, 1), 1)
        .unwrap();
    let occupied_detour = device
        .add_wire("occupied-detour".to_string(), Point::new(2, 1), 1)
        .unwrap();
    let obstacle_goal = device
        .add_wire("obstacle-goal".to_string(), Point::new(4, 1), 1)
        .unwrap();

    let slow_first = device.add_pip(driver, slow, false, 1).unwrap();
    let slow_last = device.add_pip(slow, target_goal, false, 1).unwrap();
    let fast_first = device.add_pip(driver, fast, false, 1).unwrap();
    let fast_last = device.add_pip(fast, target_goal, false, 1).unwrap();
    // This would be the cheapest target path if polishing were allowed to
    // displace an already-legal connection. The obstacle net owns its
    // middle wire and must remain untouched.
    device.add_pip(driver, occupied_detour, false, 1).unwrap();
    device
        .add_pip(occupied_detour, target_goal, false, 1)
        .unwrap();
    let obstacle_first = device
        .add_pip(obstacle_driver, occupied_detour, false, 1)
        .unwrap();
    let obstacle_last = device
        .add_pip(occupied_detour, obstacle_goal, false, 1)
        .unwrap();

    let add_bel = |device: &mut Device,
                   name: &str,
                   kind: ResourceKind,
                   point: Point,
                   pin: &str,
                   direction: PinDirection,
                   wire: WireId| {
        let bel = device.add_bel(name.to_string(), kind, point).unwrap();
        device.add_bel_pin(bel, pin.to_string(), direction, wire).unwrap();
        bel
    };
    let target_source_bel = add_bel(
        &mut device,
        "target-source",
        ResourceKind::Logic,
        Point::new(0, 0),
        "O",
        PinDirection::Output,
        driver,
    );
    let target_sink_bel = add_bel(
        &mut device,
        "target-sink",
        ResourceKind::Register,
        Point::new(4, 0),
        "I",
        PinDirection::Input,
        target_goal,
    );
    let obstacle_source_bel = add_bel(
        &mut device,
        "obstacle-source",
        ResourceKind::Logic,
        Point::new(0, 1),
        "OO",
        PinDirection::Output,
        obstacle_driver,
    );
    let obstacle_sink_bel = add_bel(
        &mut device,
        "obstacle-sink",
        ResourceKind::Register,
        Point::new(4, 1),
        "II",
        PinDirection::Input,
        obstacle_goal,
    );
    let placement = Placement {
        bindings: vec![
            target_source_bel,
            target_sink_bel,
            obstacle_source_bel,
            obstacle_sink_bel,
        ],
        pin_bindings: OrderedMap::new(),
    };
    let target_route = Arc::new(NetRoute::new(
        NetId(0),
        vec![RouteArc {
            sink: Some(target_sink),
            wires: vec![driver, slow, target_goal],
            pips: vec![slow_first, slow_last],
        }],
    ));
    let obstacle_route = Arc::new(NetRoute::new(
        NetId(1),
        vec![RouteArc {
            sink: Some(obstacle_sink),
            wires: vec![obstacle_driver, occupied_detour, obstacle_goal],
            pips: vec![obstacle_first, obstacle_last],
        }],
    ));
    let mut costs = RoutingCosts::new(
        vec![300, 300, 100, 100, 1, 1, 10, 10],
        keyed(&[(NetId(0), 64), (NetId(1), 1)]),
    );
    costs.set_sink_criticalities(arcs(&[
        ((NetId(0), target_sink), 64),
        ((NetId(1), obstacle_sink), 1),
    ]));
    LegalPolishFixture {
        design,
        device,
        placement,
        costs,
        routes: vec![target_route, obstacle_route],
        target_sink,
        fast_pips: [fast_first, fast_last],
        occupied_detour,
    }
}

type LegalPolishRun = (Vec<Arc<NetRoute>>, LegalRoutePolishMetrics, Vec<u16>, Vec<u16>);

fn run_legal_polish(fixture: &LegalPolishFixture) -> LegalPolishRun {
    let graph = UnifiedGraph::new(&fixture.design, &fixture.device);
    let pin_wires = PinWireCache::build(&graph, &fixture.placement);
    let mut resident = RoutingConstraints::new();
    for route in &fixture.routes {
        resident.add_route(route.clone());
    }
    let mut workspace = RoutingWorkspace::new(&fixture.device);
    let mut routes = workspace
        .prepare_routes(&fixture.device, fixture.routes.len(), &resident)
        .unwrap();
    let metrics = polish_legal_timing_routes(
        &graph,
        &fixture.placement,
        &pin_wires,
        &RoutingConstraints::new(),
        &fixture.costs,
        &mut routes,
        &mut workspace,
    );
    (
        routes.into_iter().map(Option::unwrap).collect(),
        metrics,
        workspace.wires.occupancy,
        workspace.pips.occupancy,
    )
}

#[test]
fn legal_route_polish_improves_one_arc_without_displacing_an_owner() {
    let fixture = legal_polish_fixture();
    let old_arc = fixture.routes[0].arc(fixture.target_sink).unwrap();
    let old_cost = unloaded_arc_cost(NetId(0), old_arc, &fixture.costs, 64);
    let obstacle = fixture.routes[1].clone();

    let (routes, metrics, wire_occupancy, pip_occupancy) = run_legal_polish(&fixture);
    let new_arc = routes[0].arc(fixture.target_sink).unwrap();
    let new_cost = unloaded_arc_cost(NetId(0), new_arc, &fixture.costs, 64);

    assert_eq!(new_arc.pips, fixture.fast_pips);
    assert!(new_cost < old_cost, "old={old_cost}, new={new_cost}");
    assert_eq!(routes[1], obstacle);
    assert!(!new_arc.wires.contains(&fixture.occupied_detour));
    assert_eq!(wire_occupancy[fixture.occupied_detour.0], 1);
    assert!(wire_occupancy.iter().all(|&occupancy| occupancy <= 1));
    assert!(pip_occupancy.iter().all(|&occupancy| occupancy <= 1));
    assert_eq!(
        metrics,
        LegalRoutePolishMetrics {
            passes: 1,
            initial_candidates: 1,
            attempts: 1,
            wakeups: 0,
            improvements: 1,
            objective_reduction: old_cost - new_cost,
        }
    );
}

#[test]
fn legal_route_polish_is_deterministic_and_stops_at_a_strict_fixed_point() {
    let fixture = legal_polish_fixture();
    let first = run_legal_polish(&fixture);
    let second = run_legal_polish(&fixture);

    assert_eq!(first, second);
    assert_eq!(first.1.passes, 1);
    assert_eq!(first.1.improvements, 1);
    // Re-running from the fixed point attempts the initial candidate once
    // and accepts no equal-cost replacement.
    let fixed_fixture = LegalPolishFixture {
        routes: first.0.clone(),
        ..fixture
    };
    let fixed = run_legal_polish(&fixed_fixture);
    assert_eq!(fixed.0, first.0);
    assert_eq!(
        fixed.1,
        LegalRoutePolishMetrics {
            passes: 1,
            initial_candidates: 1,
            attempts: 1,
            wakeups: 0,
            improvements: 0,
            objective_reduction: 0,
        }
    );
}

#[test]
fn legal_route_polish_replaces_stale_resource_subscriptions() {
    let connection = Connection {
        net: NetId(0),
        sink: CellPinId(1),
    };
    let mut subscriptions = LegalRoutePolishSubscriptions::new();
    subscriptions.replace(
        connection,
        HardRoutingBlockers {
            wires: OrderedSet::from_slice(&[WireId(0)]),
            pips: OrderedSet::from_slice(&[PipId(0)]),
        },
    );
    assert_eq!(
        subscriptions.subscribers(&[WireId(0)], &[PipId(0)]),
        OrderedSet::from_slice(&[connection])
    );

    subscriptions.replace(
        connection,
        HardRoutingBlockers {
            wires: OrderedSet::from_slice(&[WireId(1)]),
            pips: OrderedSet::new(),
        },
    );
    assert!(
        subscriptions
            .subscribers(&[WireId(0)], &[PipId(0)])
            .is_empty()
    );
    assert_eq!(
        subscriptions.subscribers(&[WireId(1)], &[]),
        OrderedSet::from_slice(&[connection])
    );
}

#[test]
fn legal_route_polish_wakes_only_a_connection_blocked_by_a_released_resource() {
    let mut design = Design::new();
    let source_a = design.add_cell("source-a".to_string(), ResourceKind::Logic);
    let output_a = design.add_pin(source_a, "O".to_string(), PinDirection::Output).unwrap();
    let alpha_sink_cell = design.add_cell("sink-a".to_string(), ResourceKind::Register);
    let sink_a = design
        .add_pin(alpha_sink_cell, "I".to_string(), PinDirection::Input)
        .unwrap();
    let source_b = design.add_cell("source-b".to_string(), ResourceKind::Logic);
    let output_b = design.add_pin(source_b, "O".to_string(), PinDirection::Output).unwrap();
    let beta_sink_cell = design.add_cell("sink-b".to_string(), ResourceKind::Register);
    let sink_b = design
        .add_pin(beta_sink_cell, "I".to_string(), PinDirection::Input)
        .unwrap();
    let net_a = design.add_net("a".to_string(), output_a, vec![sink_a]).unwrap();
    let net_b = design.add_net("b".to_string(), output_b, vec![sink_b]).unwrap();

    let mut device = Device::new("polish-events".to_string(), 1, 1).unwrap();
    let point = Point::new(0, 0);
    let driver_a = device.add_wire("driver-a".to_string(), point, 1).unwrap();
    let slow_a = device.add_wire("slow-a".to_string(), point, 1).unwrap();
    let goal_a = device.add_wire("goal-a".to_string(), point, 1).unwrap();
    let driver_b = device.add_wire("driver-b".to_string(), point, 1).unwrap();
    let shared = device.add_wire("shared".to_string(), point, 1).unwrap();
    let fast_b = device.add_wire("fast-b".to_string(), point, 1).unwrap();
    let goal_b = device.add_wire("goal-b".to_string(), point, 1).unwrap();

    let a_slow_first = device.add_pip(driver_a, slow_a, false, 1).unwrap();
    let a_slow_last = device.add_pip(slow_a, goal_a, false, 1).unwrap();
    let a_fast_first = device.add_pip(driver_a, shared, false, 1).unwrap();
    let a_fast_last = device.add_pip(shared, goal_a, false, 1).unwrap();
    let b_shared_first = device.add_pip(driver_b, shared, false, 1).unwrap();
    let b_shared_last = device.add_pip(shared, goal_b, false, 1).unwrap();
    let b_fast_first = device.add_pip(driver_b, fast_b, false, 1).unwrap();
    let b_fast_last = device.add_pip(fast_b, goal_b, false, 1).unwrap();

    let add_bel = |device: &mut Device,
                   name: &str,
                   kind: ResourceKind,
                   pin: &str,
                   direction: PinDirection,
                   wire: WireId| {
        let bel = device.add_bel(name.to_string(), kind, point).unwrap();
        device.add_bel_pin(bel, pin.to_string(), direction, wire).unwrap();
        bel
    };
    let alpha_source_bel = add_bel(
        &mut device,
        "source-a",
        ResourceKind::Logic,
        "O",
        PinDirection::Output,
        driver_a,
    );
    let alpha_sink_bel = add_bel(
        &mut device,
        "sink-a",
        ResourceKind::Register,
        "I",
        PinDirection::Input,
        goal_a,
    );
    let beta_source_bel = add_bel(
        &mut device,
        "source-b",
        ResourceKind::Logic,
        "O",
        PinDirection::Output,
        driver_b,
    );
    let beta_sink_bel = add_bel(
        &mut device,
        "sink-b",
        ResourceKind::Register,
        "I",
        PinDirection::Input,
        goal_b,
    );
    let placement = Placement {
        bindings: vec![
            alpha_source_bel,
            alpha_sink_bel,
            beta_source_bel,
            beta_sink_bel,
        ],
        pin_bindings: OrderedMap::new(),
    };
    let route_a = Arc::new(NetRoute::new(
        net_a,
        vec![RouteArc {
            sink: Some(sink_a),
            wires: vec![driver_a, slow_a, goal_a],
            pips: vec![a_slow_first, a_slow_last],
        }],
    ));
    let route_b = Arc::new(NetRoute::new(
        net_b,
        vec![RouteArc {
            sink: Some(sink_b),
            wires: vec![driver_b, shared, goal_b],
            pips: vec![b_shared_first, b_shared_last],
        }],
    ));
    let mut costs = RoutingCosts::new(
        vec![500, 500, 50, 50, 300, 300, 100, 100],
        keyed(&[(net_a, 64), (net_b, 32)]),
    );
    costs.set_sink_criticalities(arcs(&[
        ((net_a, sink_a), 64),
        ((net_b, sink_b), 32),
    ]));
    let fixture = LegalPolishFixture {
        design,
        device,
        placement,
        costs,
        routes: vec![route_a, route_b],
        target_sink: sink_a,
        fast_pips: [a_fast_first, a_fast_last],
        occupied_detour: shared,
    };

    let first = run_legal_polish(&fixture);
    let second = run_legal_polish(&fixture);
    assert_eq!(first, second);
    assert_eq!(first.0[0].arc(sink_a).unwrap().pips, fixture.fast_pips);
    assert_eq!(
        first.0[1].arc(sink_b).unwrap().pips,
        [b_fast_first, b_fast_last]
    );
    assert_eq!(
        first.1,
        LegalRoutePolishMetrics {
            passes: 1,
            initial_candidates: 2,
            attempts: 3,
            wakeups: 1,
            improvements: 2,
            objective_reduction: 26,
        }
    );
    assert!(first.2.iter().all(|&occupancy| occupancy <= 1));
    assert!(first.3.iter().all(|&occupancy| occupancy <= 1));
}

#[test]
fn legal_route_polish_rechecks_siblings_after_growing_their_shared_tree() {
    let mut design = Design::new();
    let source = design.add_cell("source".to_string(), ResourceKind::Logic);
    let output = design.add_pin(source, "O".to_string(), PinDirection::Output).unwrap();
    let high_cell = design.add_cell("high".to_string(), ResourceKind::Register);
    let high_sink = design.add_pin(high_cell, "I".to_string(), PinDirection::Input).unwrap();
    let low_cell = design.add_cell("low".to_string(), ResourceKind::Register);
    let low_sink = design.add_pin(low_cell, "I".to_string(), PinDirection::Input).unwrap();
    let net = design
        .add_net("two-sink".to_string(), output, vec![high_sink, low_sink])
        .unwrap();

    let mut device = Device::new("polish-siblings".to_string(), 1, 1).unwrap();
    let point = Point::new(0, 0);
    let driver = device.add_wire("driver".to_string(), point, 1).unwrap();
    let high_mid = device.add_wire("high-mid".to_string(), point, 1).unwrap();
    let high_goal = device.add_wire("high-goal".to_string(), point, 1).unwrap();
    let low_slow = device.add_wire("low-slow".to_string(), point, 1).unwrap();
    let low_fast = device.add_wire("low-fast".to_string(), point, 1).unwrap();
    let low_goal = device.add_wire("low-goal".to_string(), point, 1).unwrap();
    let high_first = device.add_pip(driver, high_mid, false, 1).unwrap();
    let high_last = device.add_pip(high_mid, high_goal, false, 1).unwrap();
    let low_slow_first = device.add_pip(driver, low_slow, false, 1).unwrap();
    let low_slow_last = device.add_pip(low_slow, low_goal, false, 1).unwrap();
    let low_fast_first = device.add_pip(driver, low_fast, false, 1).unwrap();
    let low_fast_last = device.add_pip(low_fast, low_goal, false, 1).unwrap();

    let add_bel = |device: &mut Device,
                   name: &str,
                   kind: ResourceKind,
                   pin: &str,
                   direction: PinDirection,
                   wire: WireId| {
        let bel = device.add_bel(name.to_string(), kind, point).unwrap();
        device.add_bel_pin(bel, pin.to_string(), direction, wire).unwrap();
        bel
    };
    let source_bel = add_bel(
        &mut device,
        "source",
        ResourceKind::Logic,
        "O",
        PinDirection::Output,
        driver,
    );
    let high_bel = add_bel(
        &mut device,
        "high",
        ResourceKind::Register,
        "I",
        PinDirection::Input,
        high_goal,
    );
    let low_bel = add_bel(
        &mut device,
        "low",
        ResourceKind::Register,
        "I",
        PinDirection::Input,
        low_goal,
    );
    let placement = Placement {
        bindings: vec![source_bel, high_bel, low_bel],
        pin_bindings: OrderedMap::new(),
    };
    let route = Arc::new(NetRoute::new(
        net,
        vec![
            RouteArc {
                sink: Some(high_sink),
                wires: vec![driver, high_mid, high_goal],
                pips: vec![high_first, high_last],
            },
            RouteArc {
                sink: Some(low_sink),
                wires: vec![driver, low_slow, low_goal],
                pips: vec![low_slow_first, low_slow_last],
            },
        ],
    ));
    let mut costs = RoutingCosts::new(
        vec![500, 500, 300, 300, 50, 50],
        keyed(&[(net, 64)]),
    );
    costs.set_sink_criticalities(arcs(&[
        ((net, high_sink), 64),
        ((net, low_sink), 64),
    ]));
    let fixture = LegalPolishFixture {
        design,
        device,
        placement,
        costs,
        routes: vec![route],
        target_sink: low_sink,
        fast_pips: [low_fast_first, low_fast_last],
        occupied_detour: low_slow,
    };

    let (routes, metrics, wire_occupancy, pip_occupancy) = run_legal_polish(&fixture);
    assert_eq!(routes[0].arc(low_sink).unwrap().pips, fixture.fast_pips);
    assert_eq!(
        routes[0].arc(high_sink).unwrap().pips,
        [high_first, high_last]
    );
    assert_eq!(
        metrics,
        LegalRoutePolishMetrics {
            passes: 1,
            initial_candidates: 2,
            attempts: 3,
            wakeups: 1,
            improvements: 1,
            objective_reduction: 10,
        }
    );
    assert!(wire_occupancy.iter().all(|&occupancy| occupancy <= 1));
    assert!(pip_occupancy.iter().all(|&occupancy| occupancy <= 1));
}

#[test]
fn polishing_leaves_untouched_routes_where_they_are_stored() {
    let fixture = legal_polish_fixture();
    let (routes, _, wire_occupancy, _) = run_legal_polish(&fixture);
    assert!(Arc::ptr_eq(&routes[1], &fixture.routes[1]));
    assert!(!Arc::ptr_eq(&routes[0], &fixture.routes[0]));
    let mut expected = vec![0_u16; fixture.device.wires().len()];
    for route in &routes {
        for wire in route.wires() {
            expected[wire.0] += 1;
        }
    }
    assert_eq!(wire_occupancy, expected);
}
