use std::sync::Arc;

use texo_pnr::device::{Device, UnifiedGraph};
use texo_pnr::error::PnrError;
use texo_pnr::model::{
    BelId, CellId, CellPinId, Connection, Design, NetId, PinDirection, Point, ResourceKind, WireId,
};
use texo_pnr::negotiate::RoutingProgress;
use texo_pnr::ordered::{OrderedKey, OrderedMap, OrderedSet};
use texo_pnr::partial::placement_from_partial_bindings;
use texo_pnr::place::{place_and_route, place_with_constraints};
use texo_pnr::placement::{PinWireCache, Placement};
use texo_pnr::placement_constraints::PlacementConstraints;
use texo_pnr::retain::{retain_route_for_sinks, route_reaches_all_sinks};
use texo_pnr::route::{NetRoute, RouteArc};
use texo_pnr::routing::{
    route_with_placement_and_progress, route_with_timing_costs_and_progress,
    route_with_workspace_and_progress,
};
use texo_pnr::routing_constraints::RoutingConstraints;
use texo_pnr::routing_costs::RoutingCosts;
use texo_pnr::workspace::RoutingWorkspace;

fn iterations(log: &[RoutingProgress]) -> Vec<(u32, usize)> {
    log.iter()
        .filter_map(|event| match event {
            RoutingProgress::Iteration { iteration, nets } => Some((*iteration, *nets)),
            RoutingProgress::Net { .. } => None,
        })
        .collect()
}

fn keyed<K: OrderedKey, V: Copy>(entries: &[(K, V)]) -> OrderedMap<K, V> {
    let mut map = OrderedMap::new();
    for &(key, value) in entries {
        map.insert(key, value);
    }
    map
}

fn arcs<V: Copy>(entries: &[((NetId, CellPinId), V)]) -> OrderedMap<Connection, V> {
    let mut map = OrderedMap::new();
    for &((net, sink), value) in entries {
        map.insert(Connection { net, sink }, value);
    }
    map
}

/// Tiles with one logic BEL each, whose wires join a channel of the tile;
/// channels of neighboring tiles are joined both ways.
fn rectangular_logic(width: u32, height: u32) -> Device {
    let mut device = Device::new("rectangular".to_string(), width, height).unwrap();
    let mut channels = Vec::new();
    for y in 0..height {
        for x in 0..width {
            let point = Point::new(x, y);
            let input = device.add_wire(format!("in_{x}_{y}"), point, 1).unwrap();
            let output = device.add_wire(format!("out_{x}_{y}"), point, 1).unwrap();
            let channel = device.add_wire(format!("channel_{x}_{y}"), point, 8).unwrap();
            device.add_pip(output, channel, false, 1).unwrap();
            device.add_pip(channel, input, false, 1).unwrap();
            let bel = device
                .add_bel(format!("logic_{x}_{y}"), ResourceKind::Logic, point)
                .unwrap();
            device
                .add_bel_pin(bel, "in".to_string(), PinDirection::Input, input)
                .unwrap();
            device
                .add_bel_pin(bel, "out".to_string(), PinDirection::Output, output)
                .unwrap();
            channels.push(channel);
        }
    }
    for y in 0..height {
        for x in 0..width {
            let here = channels[(y * width + x) as usize];
            if x + 1 < width {
                device
                    .add_pip(here, channels[(y * width + x + 1) as usize], true, 8)
                    .unwrap();
            }
            if y + 1 < height {
                device
                    .add_pip(here, channels[((y + 1) * width + x) as usize], true, 8)
                    .unwrap();
            }
        }
    }
    device
}

fn two_cell_design() -> Design {
    let mut design = Design::new();
    let source = design.add_cell("source".to_string(), ResourceKind::Logic);
    let source_out = design.add_pin(source, "out".to_string(), PinDirection::Output).unwrap();
    let sink = design.add_cell("sink".to_string(), ResourceKind::Logic);
    let sink_in = design.add_pin(sink, "in".to_string(), PinDirection::Input).unwrap();
    design
        .add_net("source_to_sink".to_string(), source_out, vec![sink_in])
        .unwrap();
    design
}

#[test]
fn binds_bels_and_routes_through_wires_and_pips() {
    let design = two_cell_design();
    let device = rectangular_logic(4, 4);

    let result = place_and_route(&design, &device).unwrap();

    assert_ne!(
        result.placement.bindings()[0],
        result.placement.bindings()[1]
    );
    assert_eq!(result.routes.len(), 1);
    assert!(result.routes[0].wires().first().is_some());
    assert!(result.routes[0].pips().first().is_some());
    assert_eq!(result.total_pips, result.routes[0].pips().len());
}

#[test]
fn locked_routes_are_not_marked_dirty() {
    let design = two_cell_design();
    let device = rectangular_logic(4, 1);
    let implementation = place_and_route(&design, &device).unwrap();
    let mut constraints = RoutingConstraints::new();
    constraints.add_route(implementation.routes[0].clone());
    let mut log = Vec::new();

    route_with_placement_and_progress(
        &design,
        &device,
        implementation.placement,
        &constraints,
        &mut log,
    )
    .unwrap();

    assert_eq!(iterations(&log), vec![(0, 0)]);
}

#[test]
fn reusable_workspace_does_not_leak_occupancy_between_trials() {
    let design = two_cell_design();
    let device = rectangular_logic(4, 1);
    let placement =
        place_with_constraints(&design, &device, &PlacementConstraints::new()).unwrap();
    let mut workspace = RoutingWorkspace::new(&device);

    let first = route_with_workspace_and_progress(
        &design,
        &device,
        placement.clone(),
        &RoutingConstraints::new(),
        &mut workspace,
        &mut Vec::new(),
    )
    .unwrap();
    let second = route_with_workspace_and_progress(
        &design,
        &device,
        placement,
        &RoutingConstraints::new(),
        &mut workspace,
        &mut Vec::new(),
    )
    .unwrap();

    assert_eq!(first, second);
}

#[test]
fn a_route_that_is_no_driver_rooted_tree_is_not_retained() {
    let mut design = Design::new();
    let source = design.add_cell("source".to_string(), ResourceKind::Logic);
    let source_out = design.add_pin(source, "out".to_string(), PinDirection::Output).unwrap();
    let sink = design.add_cell("sink".to_string(), ResourceKind::Logic);
    let sink_in = design.add_pin(sink, "in".to_string(), PinDirection::Input).unwrap();
    design
        .add_net("net".to_string(), source_out, vec![sink_in])
        .unwrap();
    let device = rectangular_logic(2, 1);
    let placement = Placement {
        bindings: vec![BelId(0), BelId(1)],
        pin_bindings: OrderedMap::new(),
    };
    let full = route_with_placement_and_progress(
        &design,
        &device,
        placement.clone(),
        &RoutingConstraints::new(),
        &mut Vec::new(),
    )
    .unwrap();
    let whole = &full.routes[0].arcs[0];
    let headless = NetRoute::new(
        NetId(0),
        vec![RouteArc {
            sink: whole.sink,
            wires: whole.wires[1..].to_vec(),
            pips: whole.pips[1..].to_vec(),
        }],
    );
    let kept = OrderedSet::from_slice(&[sink_in]);
    assert!(
        retain_route_for_sinks(&design, &device, &placement, &full.routes[0], &kept)
            .unwrap()
            .is_some()
    );
    assert!(retain_route_for_sinks(&design, &device, &placement, &headless, &kept).is_err());
}

#[test]
fn partial_route_preserves_shared_tree_and_routes_only_missing_sink_arc() {
    let mut design = Design::new();
    let source = design.add_cell("source".to_string(), ResourceKind::Logic);
    let source_out = design.add_pin(source, "out".to_string(), PinDirection::Output).unwrap();
    let near = design.add_cell("near".to_string(), ResourceKind::Logic);
    let near_in = design.add_pin(near, "in".to_string(), PinDirection::Input).unwrap();
    let far = design.add_cell("far".to_string(), ResourceKind::Logic);
    let far_in = design.add_pin(far, "in".to_string(), PinDirection::Input).unwrap();
    design
        .add_net("fanout".to_string(), source_out, vec![near_in, far_in])
        .unwrap();
    let device = rectangular_logic(3, 1);
    let placement = Placement {
        bindings: vec![BelId(0), BelId(1), BelId(2)],
        pin_bindings: OrderedMap::new(),
    };
    let full = route_with_placement_and_progress(
        &design,
        &device,
        placement.clone(),
        &RoutingConstraints::new(),
        &mut Vec::new(),
    )
    .unwrap();
    let partial = retain_route_for_sinks(
        &design,
        &device,
        &placement,
        &full.routes[0],
        &OrderedSet::from_slice(&[near_in]),
    )
    .unwrap()
    .unwrap();
    assert!(partial.pips().len() < full.routes[0].pips().len());

    let mut constraints = RoutingConstraints::new();
    constraints.add_route(Arc::new(partial.clone()));
    let mut log = Vec::new();
    let rerouted = route_with_placement_and_progress(
        &design,
        &device,
        placement.clone(),
        &constraints,
        &mut log,
    )
    .unwrap();

    assert_eq!(iterations(&log), vec![(0, 1)]);
    assert!(
        partial
            .pips()
            .iter()
            .all(|pip| rerouted.routes[0].pips().contains(pip))
    );
    assert!(
        route_reaches_all_sinks(
            &UnifiedGraph::new(&design, &device),
            &placement,
            &PinWireCache::build(&UnifiedGraph::new(&design, &device), &placement),
            &rerouted.routes[0]
        )
        .unwrap()
    );
}

#[test]
fn rejects_a_timing_table_that_does_not_cover_the_device() {
    let design = two_cell_design();
    let device = rectangular_logic(2, 1);
    let placement =
        place_with_constraints(&design, &device, &PlacementConstraints::new()).unwrap();
    let costs = RoutingCosts::new(Vec::new(), keyed(&[(NetId(0), 64)]));

    assert!(matches!(
        route_with_timing_costs_and_progress(
            &design,
            &device,
            placement,
            &RoutingConstraints::new(),
            &costs,
            &mut Vec::new(),
        ),
        Err(PnrError::InvalidRoutingCosts { .. })
    ));
}

#[test]
fn rejects_a_second_net_at_a_saturated_wire() {
    let mut design = Design::new();
    let source_a = design.add_cell("source_a".to_string(), ResourceKind::Logic);
    let source_a_pin = design
        .add_pin(source_a, "source_a".to_string(), PinDirection::Output)
        .unwrap();
    let sink_a = design.add_cell("sink_a".to_string(), ResourceKind::Logic);
    let sink_a_pin = design
        .add_pin(sink_a, "sink_a".to_string(), PinDirection::Input)
        .unwrap();
    let source_b = design.add_cell("source_b".to_string(), ResourceKind::Logic);
    let source_b_pin = design
        .add_pin(source_b, "source_b".to_string(), PinDirection::Output)
        .unwrap();
    let sink_b = design.add_cell("sink_b".to_string(), ResourceKind::Logic);
    let sink_b_pin = design
        .add_pin(sink_b, "sink_b".to_string(), PinDirection::Input)
        .unwrap();
    design.add_net("first".to_string(), source_a_pin, vec![sink_a_pin]).unwrap();
    design
        .add_net("second".to_string(), source_b_pin, vec![sink_b_pin])
        .unwrap();

    let mut device = Device::new("bottleneck".to_string(), 5, 1).unwrap();
    let source_a_wire = device.add_wire("source_a".to_string(), Point::new(0, 0), 1).unwrap();
    let source_b_wire = device.add_wire("source_b".to_string(), Point::new(1, 0), 1).unwrap();
    let shared = device.add_wire("shared".to_string(), Point::new(2, 0), 1).unwrap();
    let sink_a_wire = device.add_wire("sink_a".to_string(), Point::new(3, 0), 1).unwrap();
    let sink_b_wire = device.add_wire("sink_b".to_string(), Point::new(4, 0), 1).unwrap();

    let source_a_bel = device
        .add_bel("source_a".to_string(), ResourceKind::Logic, Point::new(0, 0))
        .unwrap();
    device
        .add_bel_pin(source_a_bel, "source_a".to_string(), PinDirection::Output, source_a_wire)
        .unwrap();
    let source_b_bel = device
        .add_bel("source_b".to_string(), ResourceKind::Logic, Point::new(1, 0))
        .unwrap();
    device
        .add_bel_pin(source_b_bel, "source_b".to_string(), PinDirection::Output, source_b_wire)
        .unwrap();
    let sink_a_bel = device
        .add_bel("sink_a".to_string(), ResourceKind::Logic, Point::new(3, 0))
        .unwrap();
    device
        .add_bel_pin(sink_a_bel, "sink_a".to_string(), PinDirection::Input, sink_a_wire)
        .unwrap();
    let sink_b_bel = device
        .add_bel("sink_b".to_string(), ResourceKind::Logic, Point::new(4, 0))
        .unwrap();
    device
        .add_bel_pin(sink_b_bel, "sink_b".to_string(), PinDirection::Input, sink_b_wire)
        .unwrap();

    device.add_pip(source_a_wire, shared, false, 1).unwrap();
    device.add_pip(source_b_wire, shared, false, 1).unwrap();
    device.add_pip(shared, sink_a_wire, false, 1).unwrap();
    device.add_pip(shared, sink_b_wire, false, 1).unwrap();

    assert!(matches!(
        place_and_route(&design, &device),
        Err(PnrError::CongestionNotResolved {
            overused_wires: 1,
            overused_pips: 0,
            ..
        })
    ));
}

#[test]
fn stalled_victim_reroutes_the_incumbent_with_an_escape_path() {
    let mut design = Design::new();
    let movable_source = design.add_cell("source_a".to_string(), ResourceKind::Logic);
    let movable_output = design
        .add_pin(movable_source, "O".to_string(), PinDirection::Output)
        .unwrap();
    let movable_sink = design.add_cell("sink_a".to_string(), ResourceKind::Register);
    let movable_input = design
        .add_pin(movable_sink, "I".to_string(), PinDirection::Input)
        .unwrap();
    let bottlenecked_source = design.add_cell("source_b".to_string(), ResourceKind::Logic);
    let bottlenecked_output = design
        .add_pin(bottlenecked_source, "O".to_string(), PinDirection::Output)
        .unwrap();
    let bottlenecked_sink = design.add_cell("sink_b".to_string(), ResourceKind::Register);
    let bottlenecked_input = design
        .add_pin(bottlenecked_sink, "I".to_string(), PinDirection::Input)
        .unwrap();
    design
        .add_net("movable".to_string(), movable_output, vec![movable_input])
        .unwrap();
    design
        .add_net("bottlenecked".to_string(), bottlenecked_output, vec![bottlenecked_input])
        .unwrap();

    let mut device = Device::new("stall-escape".to_string(), 7, 1).unwrap();
    let movable_source_wire = device.add_wire("source_a".to_string(), Point::new(0, 0), 1).unwrap();
    let bottlenecked_source_wire = device.add_wire("source_b".to_string(), Point::new(1, 0), 1).unwrap();
    let shared = device.add_wire("shared".to_string(), Point::new(2, 0), 1).unwrap();
    let alternate_a = device.add_wire("alternate_a".to_string(), Point::new(3, 0), 1).unwrap();
    let alternate_b = device.add_wire("alternate_b".to_string(), Point::new(4, 0), 1).unwrap();
    let movable_sink_wire = device.add_wire("sink_a".to_string(), Point::new(5, 0), 1).unwrap();
    let bottlenecked_sink_wire = device.add_wire("sink_b".to_string(), Point::new(6, 0), 1).unwrap();

    let movable_source_bel = device
        .add_bel("source_a".to_string(), ResourceKind::Logic, Point::new(0, 0))
        .unwrap();
    device
        .add_bel_pin(movable_source_bel, "O".to_string(), PinDirection::Output, movable_source_wire)
        .unwrap();
    let movable_sink_bel = device
        .add_bel("sink_a".to_string(), ResourceKind::Register, Point::new(5, 0))
        .unwrap();
    device
        .add_bel_pin(movable_sink_bel, "I".to_string(), PinDirection::Input, movable_sink_wire)
        .unwrap();
    let bottlenecked_source_bel = device
        .add_bel("source_b".to_string(), ResourceKind::Logic, Point::new(1, 0))
        .unwrap();
    device
        .add_bel_pin(bottlenecked_source_bel, "O".to_string(), PinDirection::Output, bottlenecked_source_wire)
        .unwrap();
    let bottlenecked_sink_bel = device
        .add_bel("sink_b".to_string(), ResourceKind::Register, Point::new(6, 0))
        .unwrap();
    device
        .add_bel_pin(bottlenecked_sink_bel, "I".to_string(), PinDirection::Input, bottlenecked_sink_wire)
        .unwrap();

    device
        .add_pip(movable_source_wire, shared, false, 1)
        .unwrap();
    device.add_pip(shared, movable_sink_wire, false, 1).unwrap();
    device
        .add_pip(movable_source_wire, alternate_a, false, 1)
        .unwrap();
    device.add_pip(alternate_a, alternate_b, false, 1).unwrap();
    device
        .add_pip(alternate_b, movable_sink_wire, false, 1)
        .unwrap();
    device
        .add_pip(bottlenecked_source_wire, shared, false, 1)
        .unwrap();
    device
        .add_pip(shared, bottlenecked_sink_wire, false, 1)
        .unwrap();

    let bindings = keyed(&[
        (movable_source, movable_source_bel),
        (movable_sink, movable_sink_bel),
        (bottlenecked_source, bottlenecked_source_bel),
        (bottlenecked_sink, bottlenecked_sink_bel),
    ]);
    let placement = placement_from_partial_bindings(
        &design,
        &device,
        &PlacementConstraints::new(),
        &bindings,
    )
    .unwrap();
    let routed = route_with_placement_and_progress(
        &design,
        &device,
        placement,
        &RoutingConstraints::new(),
        &mut Vec::new(),
    )
    .unwrap();

    assert!(!routed.routes[0].wires().contains(&shared));
    assert!(routed.routes[1].wires().contains(&shared));
}

#[test]
fn capacity_one_conflicts_release_every_unlocked_connection() {
    let mut design = Design::new();
    let mut endpoints = Vec::new();
    for name in ["a", "b", "c"] {
        let source = design.add_cell(format!("source_{name}"), ResourceKind::Logic);
        let output = design.add_pin(source, "O".to_string(), PinDirection::Output).unwrap();
        let sink = design.add_cell(format!("sink_{name}"), ResourceKind::Register);
        let input = design.add_pin(sink, "I".to_string(), PinDirection::Input).unwrap();
        let net = design.add_net(name.to_string(), output, vec![input]).unwrap();
        endpoints.push((source, sink, input, net));
    }

    let mut device = Device::new("polish-mre".to_string(), 1, 1).unwrap();
    let point = Point::new(0, 0);
    let mut endpoint_wires = Vec::new();
    let mut endpoint_bels = Vec::new();
    for (name, kind, direction, pin) in [
        ("source_a", ResourceKind::Logic, PinDirection::Output, "O"),
        ("sink_a", ResourceKind::Register, PinDirection::Input, "I"),
        ("source_b", ResourceKind::Logic, PinDirection::Output, "O"),
        ("sink_b", ResourceKind::Register, PinDirection::Input, "I"),
        ("source_c", ResourceKind::Logic, PinDirection::Output, "O"),
        ("sink_c", ResourceKind::Register, PinDirection::Input, "I"),
    ] {
        let wire = device.add_wire(name.to_string(), point, 1).unwrap();
        let bel = device.add_bel(name.to_string(), kind, point).unwrap();
        device.add_bel_pin(bel, pin.to_string(), direction, wire).unwrap();
        endpoint_wires.push(wire);
        endpoint_bels.push(bel);
    }
    let [source_a, sink_a, source_b, sink_b, source_c, sink_c] = endpoint_wires.as_slice()
    else {
        unreachable!()
    };
    let x_entry = device.add_wire("x_entry".to_string(), point, 1).unwrap();
    let x_exit = device.add_wire("x_exit".to_string(), point, 1).unwrap();
    let z_entry = device.add_wire("z_entry".to_string(), point, 1).unwrap();
    let z_exit = device.add_wire("z_exit".to_string(), point, 1).unwrap();
    let a_alt = (0..4)
        .map(|index| device.add_wire(format!("a_alt_{index}"), point, 1).unwrap())
        .collect::<Vec<_>>();
    let b_alt = (0..2)
        .map(|index| device.add_wire(format!("b_alt_{index}"), point, 1).unwrap())
        .collect::<Vec<_>>();
    let mut delays = Vec::new();
    let add =
        |device: &mut Device, delays: &mut Vec<u32>, from: WireId, to: WireId, delay: u32| {
            let pip = device.add_pip(from, to, false, 1).unwrap();
            assert_eq!(pip.0, delays.len());
            delays.push(delay);
        };
    add(&mut device, &mut delays, *source_a, x_entry, 50); // 0
    add(&mut device, &mut delays, *source_b, x_entry, 50); // 1
    add(&mut device, &mut delays, x_entry, x_exit, 50); // 2
    add(&mut device, &mut delays, x_exit, z_entry, 50); // 3
    add(&mut device, &mut delays, *source_c, z_entry, 50); // 4
    add(&mut device, &mut delays, z_entry, z_exit, 50); // 5
    add(&mut device, &mut delays, z_exit, *sink_a, 50); // 6
    add(&mut device, &mut delays, x_exit, *sink_b, 50); // 7
    add(&mut device, &mut delays, z_exit, *sink_c, 50); // 8
    let mut previous = *source_a;
    for (index, &wire) in a_alt.iter().chain(std::iter::once(sink_a)).enumerate() {
        add(
            &mut device,
            &mut delays,
            previous,
            wire,
            if index == 0 { 800 } else { 50 },
        );
        previous = wire;
    }
    previous = *source_b;
    for (index, &wire) in b_alt.iter().chain(std::iter::once(sink_b)).enumerate() {
        add(
            &mut device,
            &mut delays,
            previous,
            wire,
            if index == 0 { 350 } else { 50 },
        );
        previous = wire;
    }

    let mut placement_constraints = PlacementConstraints::new();
    let cells = [
        endpoints[0].0,
        endpoints[0].1,
        endpoints[1].0,
        endpoints[1].1,
        endpoints[2].0,
        endpoints[2].1,
    ];
    for (&cell, &bel) in cells.iter().zip(&endpoint_bels) {
        placement_constraints.add_group(vec![cell], vec![vec![bel]]);
    }
    let placement = place_with_constraints(&design, &device, &placement_constraints).unwrap();
    let mut costs = RoutingCosts::new(
        delays,
        keyed(&[
            (endpoints[0].3, 32),
            (endpoints[1].3, 2),
            (endpoints[2].3, 64),
        ]),
    );
    costs.set_sink_criticalities(arcs(&[
        ((endpoints[0].3, endpoints[0].2), 32),
        ((endpoints[1].3, endpoints[1].2), 2),
        ((endpoints[2].3, endpoints[2].2), 64),
    ]));
    let mut log = Vec::new();
    let routed = route_with_timing_costs_and_progress(
        &design,
        &device,
        placement,
        &RoutingConstraints::new(),
        &costs,
        &mut log,
    )
    .unwrap();
    let arc_pips = |net: usize| {
        routed.routes[net].arcs[0]
            .pips
            .iter()
            .map(|pip| pip.0)
            .collect::<Vec<_>>()
    };

    assert_eq!(iterations(&log), [(0, 3), (1, 3), (2, 2)]);
    assert_eq!(arc_pips(0), [9, 10, 11, 12, 13]);
    assert_eq!(arc_pips(1), [14, 15, 16]);
    assert_eq!(arc_pips(2), [4, 5, 8]);
    assert_eq!(routed.total_pips, 11);
}

#[test]
fn a_route_is_retained_whatever_its_counts_say() {
    let design = two_cell_design();
    let device = rectangular_logic(2, 1);
    let placement = Placement {
        bindings: vec![BelId(0), BelId(1)],
        pin_bindings: OrderedMap::new(),
    };
    let full = route_with_placement_and_progress(
        &design,
        &device,
        placement.clone(),
        &RoutingConstraints::new(),
        &mut Vec::new(),
    )
    .unwrap();
    let fresh = &full.routes[0];
    let stale = NetRoute {
        net: fresh.net,
        arcs: fresh.arcs.clone(),
        wire_refs: keyed(&[(fresh.arcs[0].wires[0], 9)]),
        pip_refs: OrderedMap::new(),
    };
    let kept = OrderedSet::from_slice(&[CellPinId(1)]);
    let of_fresh = retain_route_for_sinks(&design, &device, &placement, fresh, &kept).unwrap();
    let of_stale = retain_route_for_sinks(&design, &device, &placement, &stale, &kept).unwrap();
    assert!(of_fresh.is_some());
    assert_eq!(of_fresh, of_stale);
}

#[test]
fn a_used_workspace_routes_and_tells_what_a_fresh_one_does() {
    let design = two_cell_design();
    let device = rectangular_logic(4, 2);
    let mut used = RoutingWorkspace::new(&device);
    let constraints = RoutingConstraints::new();
    for bindings in [[0, 7], [3, 4], [6, 1]] {
        let placement = Placement {
            bindings: bindings.iter().map(|&bel| BelId(bel)).collect(),
            pin_bindings: OrderedMap::new(),
        };
        let mut told = Vec::new();
        let mut told_fresh = Vec::new();
        let again = route_with_workspace_and_progress(
            &design,
            &device,
            placement.clone(),
            &constraints,
            &mut used,
            &mut told,
        )
        .unwrap();
        let fresh = route_with_workspace_and_progress(
            &design,
            &device,
            placement,
            &constraints,
            &mut RoutingWorkspace::new(&device),
            &mut told_fresh,
        )
        .unwrap();
        assert_eq!(again, fresh);
        assert_eq!(told, told_fresh);
        assert_eq!(told.len(), 2);
    }
}
