use std::sync::Arc;

use texo_pnr::cost::{routing_step_cost, routing_transition_cost, timing_tree_cost};
use texo_pnr::cycles::{
    prioritize_cycle_connections, CongestionObjective, RoutingConflictCycleDetector,
    RoutingOrderEntry,
};
use texo_pnr::device::{Device, UnifiedGraph};
use texo_pnr::model::{CellPinId, Connection, Design, NetId, PinDirection, Point, ResourceKind, WireId};
use texo_pnr::net_router::ordered_sinks;
use texo_pnr::ordered::{OrderedKey, OrderedMap, OrderedSet};
use texo_pnr::owners::{OwnerIndex, ResourceClass};
use texo_pnr::route::{NetRoute, RouteArc};
use texo_pnr::routing_constraints::RoutingConstraints;
use texo_pnr::routing_costs::{RoutingCosts, MAX_ROUTING_ITERATIONS};
use texo_pnr::search::{
    pip_is_blocked, routing_corridor, HardRoutingBlockers, RouteQuery, RouteQueueEntry,
    RouteSearch, RoutingResourceMetadata,
};
use texo_pnr::victims::{contested_connections, overused_connections, select_connection_victims};

struct Tables {
    wire_points: Vec<Point>,
    wire_capacities: Vec<u16>,
    pip_capacities: Vec<u16>,
}

impl Tables {
    fn of(device: &Device) -> Self {
        Tables {
            wire_points: device.wires().iter().map(|wire| wire.point).collect(),
            wire_capacities: device.wires().iter().map(|wire| wire.capacity).collect(),
            pip_capacities: device.pips().iter().map(|pip| pip.capacity()).collect(),
        }
    }

    fn metadata(&self) -> RoutingResourceMetadata<'_> {
        RoutingResourceMetadata {
            wire_points: &self.wire_points,
            wire_capacities: &self.wire_capacities,
            pip_capacities: &self.pip_capacities,
        }
    }
}

fn keyed<K: OrderedKey, V: Copy>(entries: &[(K, V)]) -> OrderedMap<K, V> {
    let mut map = OrderedMap::new();
    for &(key, value) in entries {
        map.insert(key, value);
    }
    map
}

fn arcs<V: Copy>(entries: &[((NetId, CellPinId), V)]) -> OrderedMap<Connection, V> {
    let mut map = OrderedMap::new();
    for &((net, sink), value) in entries {
        map.insert(Connection { net, sink }, value);
    }
    map
}

/// Tiles with one logic BEL each, whose wires join a channel of the tile;
/// channels of neighboring tiles are joined both ways.
fn rectangular_logic(width: u32, height: u32) -> Device {
    let mut device = Device::new("rectangular".to_string(), width, height).unwrap();
    let mut channels = Vec::new();
    for y in 0..height {
        for x in 0..width {
            let point = Point::new(x, y);
            let input = device.add_wire(format!("in_{x}_{y}"), point, 1).unwrap();
            let output = device.add_wire(format!("out_{x}_{y}"), point, 1).unwrap();
            let channel = device.add_wire(format!("channel_{x}_{y}"), point, 8).unwrap();
            device.add_pip(output, channel, false, 1).unwrap();
            device.add_pip(channel, input, false, 1).unwrap();
            let bel = device
                .add_bel(format!("logic_{x}_{y}"), ResourceKind::Logic, point)
                .unwrap();
            device
                .add_bel_pin(bel, "in".to_string(), PinDirection::Input, input)
                .unwrap();
            device
                .add_bel_pin(bel, "out".to_string(), PinDirection::Output, output)
                .unwrap();
            channels.push(channel);
        }
    }
    for y in 0..height {
        for x in 0..width {
            let here = channels[(y * width + x) as usize];
            if x + 1 < width {
                device
                    .add_pip(here, channels[(y * width + x + 1) as usize], true, 8)
                    .unwrap();
            }
            if y + 1 < height {
                device
                    .add_pip(here, channels[((y + 1) * width + x) as usize], true, 8)
                    .unwrap();
            }
        }
    }
    device
}

#[test]
fn timing_routing_corridor_is_clipped_to_the_device() {
    let device = rectangular_logic(8, 6);

    assert_eq!(
        routing_corridor(Point::new(1, 1), Point::new(6, 4), &device, 3),
        (0, 7, 0, 5),
    );
}

#[test]
fn timing_route_estimate_includes_full_delay_and_hop_bias() {
    let source = Point::new(1, 1);
    let sink = Point::new(6, 1);
    let search = RouteSearch::new(0);

    assert_eq!(search.remaining_cost_estimate(source, sink, 0, 50), 5);
    assert_eq!(search.remaining_cost_estimate(source, sink, 32, 50), 15);
    assert_eq!(search.remaining_cost_estimate(source, sink, 64, 50), 12);
}

#[test]
fn equal_priority_sinks_grow_the_route_tree_nearest_first() {
    let sinks = [CellPinId(7), CellPinId(3), CellPinId(5)];
    let distances =
        keyed(&[(CellPinId(3), 20), (CellPinId(5), 10), (CellPinId(7), 30)]);

    let ordered = ordered_sinks(NetId(0), &sinks, None, &distances);

    assert_eq!(ordered, [CellPinId(5), CellPinId(3), CellPinId(7)]);
}

#[test]
fn timing_routing_prices_full_delay_and_congestion() {
    assert_eq!(routing_step_cost(1_000, 0, 2, 50), 3);
    assert_eq!(routing_step_cost(200, 64, 0, 50), 4);
    assert_eq!(routing_step_cost(200, 32, 0, 50), 4);
    assert_eq!(routing_step_cost(200, 64, 2, 50), 6);
    assert_eq!(timing_tree_cost(200, 64, 50), 4);
    assert_eq!(timing_tree_cost(200, 1, 50), 4);
}

#[test]
fn local_routing_iteration_limit_stays_within_negotiator_bounds() {
    let mut costs = RoutingCosts::new(Vec::new(), OrderedMap::new());
    assert_eq!(costs.max_iterations(), MAX_ROUTING_ITERATIONS);
    costs.set_max_iterations(8);
    assert_eq!(costs.max_iterations(), 8);
    costs.set_max_iterations(0);
    assert_eq!(costs.max_iterations(), 1);
    costs.reset_max_iterations();
    assert_eq!(costs.max_iterations(), MAX_ROUTING_ITERATIONS);
    costs.set_max_iterations(MAX_ROUTING_ITERATIONS + 1);
    assert_eq!(costs.max_iterations(), MAX_ROUTING_ITERATIONS);
}

#[test]
fn alternate_source_estimate_is_explicit_and_positive() {
    let mut costs = RoutingCosts::new(Vec::new(), OrderedMap::new());
    assert_eq!(costs.alternate_source_delay_per_tile_ps(), None);
    costs.set_alternate_source_delay_per_tile_ps(33);
    assert_eq!(costs.alternate_source_delay_per_tile_ps(), Some(33));
    costs.set_alternate_source_delay_per_tile_ps(0);
    assert_eq!(costs.alternate_source_delay_per_tile_ps(), None);
}

#[test]
fn cumulative_quantization_does_not_round_every_pip() {
    assert_eq!(routing_transition_cost(0, 24, 64, 0, 50), 1);
    assert_eq!(routing_transition_cost(24, 48, 64, 0, 50), 0);
    assert_eq!(routing_transition_cost(48, 72, 64, 0, 10), 3);
    assert_eq!(routing_transition_cost(48, 72, 64, 0, 1), 24);
}

#[test]
fn route_frontier_entry_stays_compact() {
    assert_eq!(std::mem::size_of::<RouteQueueEntry>(), 16);
}

#[test]
fn routing_cost_clones_share_immutable_pip_tables() {
    let mut costs = RoutingCosts::new(vec![10, 20], OrderedMap::new());
    costs.set_pip_min_delays_ps(vec![4, 8]);
    let clone = costs.clone();

    assert!(Arc::ptr_eq(&costs.pip_delays_ps, &clone.pip_delays_ps));
    assert!(Arc::ptr_eq(
        &costs.pip_min_delays_ps,
        &clone.pip_min_delays_ps
    ));
    assert_eq!(clone.pip_delays_ps(), [10, 20]);
    assert_eq!(clone.pip_min_delays_ps(), [4, 8]);
}

#[test]
fn timing_routing_accounts_for_delay_to_each_tree_source() {
    let design = Design::new();
    let mut device = Device::new("tree-delay".to_string(), 1, 1).unwrap();
    let slow_tree = device.add_wire("slow-tree".to_string(), Point::new(0, 0), 1).unwrap();
    let fast_tree = device.add_wire("fast-tree".to_string(), Point::new(0, 0), 1).unwrap();
    let goal = device.add_wire("goal".to_string(), Point::new(0, 0), 1).unwrap();
    device.add_pip(slow_tree, goal, false, 1).unwrap();
    device.add_pip(fast_tree, goal, false, 1).unwrap();
    let graph = UnifiedGraph::new(&design, &device);
    let costs = RoutingCosts::new(vec![10, 10], OrderedMap::new());
    let mut search = RouteSearch::new(device.wires().len());
    let starts = OrderedSet::from_slice(&[slow_tree, fast_tree]);
    let tree_delays = vec![100, 0];
    let tables = Tables::of(&device);
    let metadata = tables.metadata();

    let (wires, _) = search
        .shortest_path(
            &RouteQuery {
                graph: graph,
                goal: goal,
                wire_congestion: &[0; 3],
                pip_congestion: &[0; 2],
                blocked_pip_words: &[],
                hard_occupancy: None,
                costs: Some(&costs),
                criticality: 64,
                delay_quantum_ps: 50,
                tree_delays_ps: &tree_delays,
                metadata: metadata,
            },
            &starts,
            None,
            &mut HardRoutingBlockers::new(),
            0,
        )
        .unwrap();

    assert_eq!(wires.last(), Some(&fast_tree));
    assert_ne!(wires.last(), Some(&WireId(0)));
}

#[test]
fn low_criticality_does_not_discount_a_late_tree_branch() {
    let design = Design::new();
    let mut device = Device::new("late-tree".to_string(), 8, 1).unwrap();
    let driver = device.add_wire("driver".to_string(), Point::new(0, 0), 1).unwrap();
    let mut direct_wires = vec![driver];
    for x in 1..7 {
        direct_wires.push(
            device
                .add_wire(format!("direct-{x}"), Point::new(x, 0), 1)
                .unwrap(),
        );
    }
    let goal = device.add_wire("goal".to_string(), Point::new(7, 0), 1).unwrap();
    let late_tree = device
        .add_wire("late-tree-source".to_string(), Point::new(7, 0), 1)
        .unwrap();
    let mut direct_pips = Vec::new();
    for pair in direct_wires.windows(2) {
        direct_pips.push(device.add_pip(pair[0], pair[1], false, 1).unwrap());
    }
    direct_pips.push(
        device
            .add_pip(*direct_wires.last().unwrap(), goal, false, 1)
            .unwrap(),
    );
    device.add_pip(late_tree, goal, false, 1).unwrap();
    let graph = UnifiedGraph::new(&design, &device);
    let costs = RoutingCosts::new(vec![50; device.pips().len()], OrderedMap::new());
    let mut search = RouteSearch::new(device.wires().len());
    let starts = OrderedSet::from_slice(&[driver, late_tree]);
    let mut tree_delays = vec![u64::MAX; device.wires().len()];
    tree_delays[driver.0] = 0;
    tree_delays[late_tree.0] = 5_000;
    let tables = Tables::of(&device);
    let metadata = tables.metadata();

    let (wires, pips) = search
        .shortest_path(
            &RouteQuery {
                graph: graph,
                goal: goal,
                wire_congestion: &vec![0; device.wires().len()],
                pip_congestion: &vec![0; device.pips().len()],
                blocked_pip_words: &[],
                hard_occupancy: None,
                costs: Some(&costs),
                criticality: 1,
                delay_quantum_ps: 50,
                tree_delays_ps: &tree_delays,
                metadata: metadata,
            },
            &starts,
            None,
            &mut HardRoutingBlockers::new(),
            0,
        )
        .unwrap();

    assert_eq!(wires.last(), Some(&driver));
    assert_eq!(pips.len(), direct_pips.len());
}

#[test]
fn timing_corridor_does_not_hide_the_early_tree_source() {
    let design = Design::new();
    let mut device = Device::new("tree-corridor".to_string(), 21, 11).unwrap();
    let driver = device.add_wire("driver".to_string(), Point::new(0, 0), 1).unwrap();
    let direct = device.add_wire("direct".to_string(), Point::new(10, 0), 1).unwrap();
    let goal = device.add_wire("goal".to_string(), Point::new(20, 0), 1).unwrap();
    let late_tree = device.add_wire("late-tree".to_string(), Point::new(20, 5), 1).unwrap();
    let direct_first = device.add_pip(driver, direct, false, 1).unwrap();
    let direct_last = device.add_pip(direct, goal, false, 1).unwrap();
    device.add_pip(late_tree, goal, false, 1).unwrap();
    let graph = UnifiedGraph::new(&design, &device);
    let costs = RoutingCosts::new(vec![100, 100, 1_000], OrderedMap::new());
    let mut search = RouteSearch::new(device.wires().len());
    let starts = OrderedSet::from_slice(&[driver, late_tree]);
    let mut tree_delays = vec![u64::MAX; device.wires().len()];
    tree_delays[driver.0] = 0;
    tree_delays[late_tree.0] = 5_000;
    let tables = Tables::of(&device);
    let metadata = tables.metadata();

    let (wires, pips) = search
        .shortest_path(
            &RouteQuery {
                graph: graph,
                goal: goal,
                wire_congestion: &[0; 4],
                pip_congestion: &[0; 3],
                blocked_pip_words: &[],
                hard_occupancy: None,
                costs: Some(&costs),
                criticality: 64,
                delay_quantum_ps: 50,
                tree_delays_ps: &tree_delays,
                metadata: metadata,
            },
            &starts,
            None,
            &mut HardRoutingBlockers::new(),
            0,
        )
        .unwrap();

    assert_eq!(wires.last(), Some(&driver));
    assert_eq!(pips, vec![direct_last, direct_first]);
}

#[test]
fn single_source_recovery_does_not_reenter_the_retained_tree() {
    let design = Design::new();
    let mut device = Device::new("retained-tree".to_string(), 3, 2).unwrap();
    let start = device.add_wire("start".to_string(), Point::new(0, 0), 1).unwrap();
    let retained = device
        .add_wire("retained-tree".to_string(), Point::new(1, 0), 1)
        .unwrap();
    let detour = device
        .add_wire("legal-detour".to_string(), Point::new(1, 1), 1)
        .unwrap();
    let goal = device.add_wire("goal".to_string(), Point::new(2, 0), 1).unwrap();
    device.add_pip(start, retained, false, 1).unwrap();
    device.add_pip(retained, goal, false, 1).unwrap();
    let detour_first = device.add_pip(start, detour, false, 1).unwrap();
    let detour_last = device.add_pip(detour, goal, false, 1).unwrap();
    let graph = UnifiedGraph::new(&design, &device);
    let costs = RoutingCosts::new(vec![10; 4], OrderedMap::new());
    let mut search = RouteSearch::new(device.wires().len());
    let starts = OrderedSet::from_slice(&[start]);
    let retained_tree = OrderedSet::from_slice(&[start, retained]);
    let tables = Tables::of(&device);
    let metadata = tables.metadata();
    let mut tree_delays = vec![u64::MAX; device.wires().len()];
    tree_delays[start.0] = 0;
    tree_delays[retained.0] = 10;

    let (wires, pips) = search
        .shortest_path(
            &RouteQuery {
                graph: graph,
                goal: goal,
                wire_congestion: &[0; 4],
                pip_congestion: &[0; 4],
                blocked_pip_words: &[],
                hard_occupancy: None,
                costs: Some(&costs),
                criticality: 64,
                delay_quantum_ps: 50,
                tree_delays_ps: &tree_delays,
                metadata: metadata,
            },
            &starts,
            Some(&retained_tree),
            &mut HardRoutingBlockers::new(),
            0,
        )
        .unwrap();

    assert_eq!(wires, vec![goal, detour, start]);
    assert_eq!(pips, vec![detour_last, detour_first]);
}

#[test]
fn routing_avoids_target_blocked_pips() {
    let design = Design::new();
    let mut device = Device::new("blocked-pip".to_string(), 1, 1).unwrap();
    let start = device.add_wire("start".to_string(), Point::new(0, 0), 1).unwrap();
    let direct = device.add_wire("direct".to_string(), Point::new(0, 0), 1).unwrap();
    let detour = device.add_wire("detour".to_string(), Point::new(0, 0), 1).unwrap();
    let goal = device.add_wire("goal".to_string(), Point::new(0, 0), 1).unwrap();
    let blocked = device.add_pip(start, direct, false, 1).unwrap();
    device.add_pip(direct, goal, false, 1).unwrap();
    let detour_first = device.add_pip(start, detour, false, 1).unwrap();
    let detour_last = device.add_pip(detour, goal, false, 1).unwrap();
    let graph = UnifiedGraph::new(&design, &device);
    let mut search = RouteSearch::new(device.wires().len());
    let mut empty_constraints = RoutingConstraints::new();
    empty_constraints.block_pips(&[]);
    assert_eq!(empty_constraints, RoutingConstraints::new());
    assert!(empty_constraints.blocked_pip_words().is_empty());

    let mut constraints = RoutingConstraints::new();
    constraints.block_pips(&[blocked]);
    let mut cloned_constraints = constraints.clone();
    cloned_constraints.block_pips(&[detour_first]);
    assert_eq!(
        cloned_constraints.blocked_pips(),
        &OrderedSet::from_slice(&[blocked, detour_first])
    );
    assert!(pip_is_blocked(
        cloned_constraints.blocked_pip_words(),
        blocked
    ));
    assert!(pip_is_blocked(
        cloned_constraints.blocked_pip_words(),
        detour_first
    ));
    assert_eq!(constraints.blocked_pips(), &OrderedSet::from_slice(&[blocked]));
    assert!(pip_is_blocked(constraints.blocked_pip_words(), blocked));
    assert!(!pip_is_blocked(
        constraints.blocked_pip_words(),
        detour_first
    ));
    let tables = Tables::of(&device);
    let metadata = tables.metadata();

    let (_, pips) = search
        .shortest_path(
            &RouteQuery {
                graph: graph,
                goal: goal,
                wire_congestion: &[0; 4],
                pip_congestion: &[0; 4],
                blocked_pip_words: constraints.blocked_pip_words(),
                hard_occupancy: None,
                costs: None,
                criticality: 0,
                delay_quantum_ps: 50,
                tree_delays_ps: &[0; 4],
                metadata: metadata,
            },
            &OrderedSet::from_slice(&[start]),
            None,
            &mut HardRoutingBlockers::new(),
            0,
        )
        .unwrap();

    assert_eq!(pips, vec![detour_last, detour_first]);
}

#[test]
fn hold_routing_rejects_a_path_below_the_sink_minimum() {
    let design = Design::new();
    let mut device = Device::new("hold-detour".to_string(), 1, 1).unwrap();
    let start = device.add_wire("start".to_string(), Point::new(0, 0), 1).unwrap();
    let fast = device.add_wire("fast".to_string(), Point::new(0, 0), 1).unwrap();
    let slow = device.add_wire("slow".to_string(), Point::new(0, 0), 1).unwrap();
    let goal = device.add_wire("goal".to_string(), Point::new(0, 0), 1).unwrap();
    device.add_pip(start, fast, false, 1).unwrap();
    device.add_pip(fast, goal, false, 1).unwrap();
    let slow_first = device.add_pip(start, slow, false, 1).unwrap();
    let slow_last = device.add_pip(slow, goal, false, 1).unwrap();
    let graph = UnifiedGraph::new(&design, &device);
    let costs = RoutingCosts::new(vec![10, 10, 400, 400], OrderedMap::new());
    let mut search = RouteSearch::new(device.wires().len());
    let tables = Tables::of(&device);
    let metadata = tables.metadata();

    let (_, pips) = search
        .shortest_path(
            &RouteQuery {
                graph: graph,
                goal: goal,
                wire_congestion: &[0; 4],
                pip_congestion: &[0; 4],
                blocked_pip_words: &[],
                hard_occupancy: None,
                costs: Some(&costs),
                criticality: 0,
                delay_quantum_ps: 50,
                tree_delays_ps: &[0],
                metadata: metadata,
            },
            &OrderedSet::from_slice(&[start]),
            None,
            &mut HardRoutingBlockers::new(),
            500,
        )
        .unwrap();

    assert_eq!(pips, vec![slow_last, slow_first]);
}

fn released(entries: &[(usize, CellPinId)]) -> OrderedSet<Connection> {
    let mut set = OrderedSet::new();
    for &(net, sink) in entries {
        set.insert(Connection { net: NetId(net), sink });
    }
    set
}

#[test]
fn exact_conflict_cycle_releases_only_the_recurrent_component() {
    let prefix_sink = CellPinId(0);
    let first_sink = CellPinId(1);
    let second_sink = CellPinId(2);
    let empty = OrderedSet::new();
    let mut detector = RoutingConflictCycleDetector::new();
    let objective = |excess: u64, resources: usize| CongestionObjective { excess, resources };

    assert_eq!(
        detector.observe(
            objective(2, 2),
            &OrderedSet::from_slice(&[90]),
            &empty,
            &released(&[(9, prefix_sink)]),
        ),
        None,
    );
    let first_dirty = released(&[(1, first_sink)]);
    assert_eq!(
        detector.observe(objective(1, 1), &OrderedSet::from_slice(&[10]), &empty, &first_dirty),
        None,
    );
    assert_eq!(
        detector.observe(
            objective(1, 1),
            &OrderedSet::from_slice(&[11]),
            &empty,
            &released(&[(2, second_sink)]),
        ),
        None,
    );

    let cycle = detector
        .observe(objective(1, 1), &OrderedSet::from_slice(&[10]), &empty, &first_dirty)
        .expect("the exact recurrent state closes the two-step cycle");
    assert_eq!(cycle.length, 2);
    assert_eq!(cycle.connections, released(&[(1, first_sink), (2, second_sink)]));
    assert!(!cycle.connections.contains(Connection { net: NetId(9), sink: prefix_sink }));

    assert_eq!(
        detector.observe(objective(1, 1), &OrderedSet::from_slice(&[10]), &empty, &first_dirty),
        None,
        "an escape starts a fresh cycle epoch",
    );
}

#[test]
fn cycle_component_routes_first_in_the_opposite_stable_order() {
    let key = |index| RoutingOrderEntry {
        unconstrained: false,
        criticality: 64,
        hold_constrained: false,
        fanout: 1,
        index,
    };
    let mut order = (0..4).map(key).collect::<Vec<_>>();

    prioritize_cycle_connections(&mut order, &OrderedSet::from_slice(&[0, 2]));

    assert_eq!(
        order
            .into_iter()
            .map(|entry| entry.index)
            .collect::<Vec<_>>(),
        vec![2, 0, 1, 3],
    );
}

fn congested(
    routes: &Vec<Option<Arc<NetRoute>>>,
    constraints: &RoutingConstraints,
    costs: &RoutingCosts,
    capacities: &[u16],
    occupancy: &[u16],
) -> OrderedSet<Connection> {
    let mut dirty = OrderedSet::new();
    let records = overused_connections(routes, ResourceClass::Wire, capacities, occupancy);
    select_connection_victims(&records, capacities, constraints, Some(costs), &mut dirty);
    dirty
}

#[test]
fn capacity_one_conflict_releases_all_unlocked_connections() {
    let critical_sink = CellPinId(0);
    let conflicting_sink = CellPinId(1);
    let retained_sink = CellPinId(2);
    let shared = WireId(1);
    let routes = vec![
        Some(Arc::new(NetRoute::new(
            NetId(0),
            vec![
                RouteArc {
                    sink: Some(conflicting_sink),
                    wires: vec![WireId(3), shared, WireId(4)],
                    pips: vec![],
                },
                RouteArc {
                    sink: Some(retained_sink),
                    wires: vec![WireId(3), WireId(5), WireId(6)],
                    pips: vec![],
                },
            ],
        ))),
        Some(Arc::new(NetRoute::new(
            NetId(1),
            vec![RouteArc {
                sink: Some(critical_sink),
                wires: vec![WireId(0), shared, WireId(2)],
                pips: vec![],
            }],
        ))),
    ];
    let wire_capacities = vec![1; 7];
    let mut costs = RoutingCosts::new(vec![], OrderedMap::new());
    costs.set_sink_criticalities(arcs(&[
        ((NetId(0), conflicting_sink), 1),
        ((NetId(0), retained_sink), 1),
        ((NetId(1), critical_sink), 64),
    ]));

    let dirty = congested(
        &routes,
        &RoutingConstraints::new(),
        &costs,
        &wire_capacities,
        &[1, 2, 1, 1, 1, 1, 1],
    );
    let mut index = OwnerIndex::new();
    for slot in &routes {
        let route = slot.as_ref().unwrap();
        for wire in route.wires() {
            index.claim(wire.0, route.net, 1);
        }
    }
    let records = contested_connections(&routes, ResourceClass::Wire, &index.conflicts);
    let mut indexed_dirty = OrderedSet::new();
    select_connection_victims(
        &records,
        &wire_capacities,
        &RoutingConstraints::new(),
        Some(&costs),
        &mut indexed_dirty,
    );

    assert_eq!(dirty, released(&[(0, conflicting_sink), (1, critical_sink)]));
    assert_eq!(indexed_dirty, dirty);
    index.resolve_conflicts(&routes, &indexed_dirty, ResourceClass::Wire);
    assert_eq!(index.owners.get(shared.0), None);
    assert!(!dirty.contains(Connection { net: NetId(0), sink: retained_sink }));

    let mut locked = RoutingConstraints::new();
    locked.add_route(routes[1].as_ref().unwrap().clone());
    let locked_dirty = congested(
        &routes,
        &locked,
        &costs,
        &wire_capacities,
        &[1, 2, 1, 1, 1, 1, 1],
    );
    assert_eq!(
        locked_dirty,
        released(&[(0, conflicting_sink)]),
        "a route constraint, unlike criticality, remains immovable",
    );
}
