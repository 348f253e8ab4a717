use std::sync::Arc;

use texo_pnr::components::{floating_components, RigidCell};
use texo_pnr::demand_boxes::{demand_boxes, DemandBox};
use texo_pnr::device::{Device, UnifiedGraph};
use texo_pnr::displacement::Displacement;
use texo_pnr::error::PnrError;
use texo_pnr::families::first_told;
use texo_pnr::model::{
    BelId, BelPinId, CellId, CellPinId, Design, ModelError, NetId, PinDirection, PipId, Point,
    ResourceKind, WireId,
};
use texo_pnr::ordered::OrderedMap;
use texo_pnr::place::place_with_constraints;
use texo_pnr::placement::Placement;
use texo_pnr::placement_constraints::PlacementConstraints;
use texo_pnr::placement_edit::{
    placement_from_complete_bindings, rebind_placement_pins, swap_placement_cells,
};
use texo_pnr::refiner::{PlacementRefinementWorkspace, PlacementRefiner};
use texo_pnr::route::{NetRoute, RouteArc};
use texo_pnr::routing::{route_with_placement, route_with_timing_costs_and_progress};
use texo_pnr::routing_constraints::RoutingConstraints;
use texo_pnr::routing_costs::RoutingCosts;
use texo_pnr::routing_demand::{channel_orientation, RoutingChannelOrientation};
use texo_pnr::units::{any_agrees, ShapeAnswer};

/// Tiles with one logic BEL each, whose wires join a channel of the tile;
/// channels of neighboring tiles are joined both ways.
fn rectangular_logic(width: u32, height: u32) -> Device {
    let mut device = Device::new("rectangular".to_string(), width, height).unwrap();
    let mut channels = Vec::new();
    for y in 0..height {
        for x in 0..width {
            let point = Point::new(x, y);
            let input = device.add_wire(format!("in_{x}_{y}"), point, 1).unwrap();
            let output = device.add_wire(format!("out_{x}_{y}"), point, 1).unwrap();
            let channel = device.add_wire(format!("channel_{x}_{y}"), point, 8).unwrap();
            device.add_pip(output, channel, false, 1).unwrap();
            device.add_pip(channel, input, false, 1).unwrap();
            let bel = device
                .add_bel(format!("logic_{x}_{y}"), ResourceKind::Logic, point)
                .unwrap();
            device
                .add_bel_pin(bel, "in".to_string(), PinDirection::Input, input)
                .unwrap();
            device
                .add_bel_pin(bel, "out".to_string(), PinDirection::Output, output)
                .unwrap();
            channels.push(channel);
        }
    }
    for y in 0..height {
        for x in 0..width {
            let here = channels[(y * width + x) as usize];
            if x + 1 < width {
                device
                    .add_pip(here, channels[(y * width + x + 1) as usize], true, 8)
                    .unwrap();
            }
            if y + 1 < height {
                device
                    .add_pip(here, channels[((y + 1) * width + x) as usize], true, 8)
                    .unwrap();
            }
        }
    }
    device
}

fn two_cell_design() -> Design {
    let mut design = Design::new();
    let source = design.add_cell("source".to_string(), ResourceKind::Logic);
    let source_out = design.add_pin(source, "out".to_string(), PinDirection::Output).unwrap();
    let sink = design.add_cell("sink".to_string(), ResourceKind::Logic);
    let sink_in = design.add_pin(sink, "in".to_string(), PinDirection::Input).unwrap();
    design
        .add_net("source_to_sink".to_string(), source_out, vec![sink_in])
        .unwrap();
    design
}

fn placed(bels: &[usize]) -> Placement {
    Placement {
        bindings: bels.iter().map(|&bel| BelId(bel)).collect(),
        pin_bindings: OrderedMap::new(),
    }
}

#[test]
fn models_reject_unknown_and_reused_objects() {
    assert_eq!(
        Device::new("empty".to_string(), 0, 1).unwrap_err(),
        ModelError::InvalidExtent
    );
    let mut device = Device::new("small".to_string(), 2, 1).unwrap();
    assert_eq!(
        device.add_wire("w".to_string(), Point::new(2, 0), 1).unwrap_err(),
        ModelError::OutsideDevice(Point::new(2, 0))
    );
    let wire = device.add_wire("w".to_string(), Point::new(1, 0), 1).unwrap();
    assert_eq!(
        device
            .add_bel_pin(BelId(0), "p".to_string(), PinDirection::Input, wire)
            .unwrap_err(),
        ModelError::UnknownBel(BelId(0))
    );
    assert_eq!(
        device.add_pip(wire, WireId(9), false, 1).unwrap_err(),
        ModelError::UnknownWire(WireId(9))
    );
    let mut design = Design::new();
    assert_eq!(
        design
            .add_pin(CellId(0), "p".to_string(), PinDirection::Output)
            .unwrap_err(),
        ModelError::UnknownCell(CellId(0))
    );
    let cell = design.add_cell("c".to_string(), ResourceKind::Logic);
    let pin = design.add_pin(cell, "p".to_string(), PinDirection::Output).unwrap();
    assert_eq!(
        design
            .add_net("n".to_string(), pin, vec![CellPinId(8)])
            .unwrap_err(),
        ModelError::UnknownCellPin(CellPinId(8))
    );
    design.add_net("n".to_string(), pin, Vec::new()).unwrap();
    assert_eq!(
        design.add_net("m".to_string(), pin, Vec::new()).unwrap_err(),
        ModelError::ConnectedCellPin(pin)
    );
}

#[test]
fn swapping_two_cells_twice_restores_the_placement() {
    let design = two_cell_design();
    let device = rectangular_logic(3, 1);
    let constraints = PlacementConstraints::new();
    let start =
        placement_from_complete_bindings(&design, &device, &constraints, vec![BelId(0), BelId(2)])
            .unwrap();
    let swapped =
        swap_placement_cells(&design, &device, &constraints, &start, CellId(0), CellId(1)).unwrap();
    assert_eq!(swapped.bindings(), [BelId(2), BelId(0)]);
    let restored =
        swap_placement_cells(&design, &device, &constraints, &swapped, CellId(0), CellId(1))
            .unwrap();
    assert_eq!(restored, start);
    assert!(matches!(
        swap_placement_cells(&design, &device, &constraints, &start, CellId(0), CellId(2)),
        Err(PnrError::InvalidPlacement { .. })
    ));
}

#[test]
fn rebinding_pins_keeps_every_bel_and_rejects_a_short_table() {
    let design = two_cell_design();
    let device = rectangular_logic(2, 1);
    let mut constraints = PlacementConstraints::new();
    constraints.bind_pin_name(CellPinId(1), "in".to_string());
    let rebound =
        rebind_placement_pins(&design, &device, &constraints, &placed(&[1, 0])).unwrap();
    assert_eq!(rebound.bindings(), [BelId(1), BelId(0)]);
    assert_eq!(rebound.pin_binding(CellPinId(1)), Some(BelPinId(0)));
    assert!(matches!(
        rebind_placement_pins(&design, &device, &constraints, &placed(&[1])),
        Err(PnrError::InvalidPlacement { .. })
    ));
}

#[test]
fn rebinding_to_a_name_that_the_bel_lacks_is_refused() {
    let design = two_cell_design();
    let device = rectangular_logic(2, 1);
    let mut constraints = PlacementConstraints::new();
    constraints.bind_pin_name(CellPinId(1), "missing".to_string());
    match rebind_placement_pins(&design, &device, &constraints, &placed(&[1, 0])) {
        Err(PnrError::InvalidPinNameBinding { pin, name, .. }) => {
            assert_eq!(pin, CellPinId(1));
            assert_eq!(name, "missing");
        }
        other => panic!("unexpected {other:?}"),
    }
}

#[test]
fn shared_pips_count_once_in_the_total() {
    let mut design = Design::new();
    let mut sinks = Vec::new();
    for index in 0..2 {
        let source = design.add_cell(format!("source_{index}"), ResourceKind::Logic);
        let out = design.add_pin(source, "out".to_string(), PinDirection::Output).unwrap();
        sinks.push(out);
    }
    for (index, &out) in sinks.iter().enumerate() {
        let sink = design.add_cell(format!("sink_{index}"), ResourceKind::Logic);
        let input = design.add_pin(sink, "in".to_string(), PinDirection::Input).unwrap();
        design.add_net(format!("net_{index}"), out, vec![input]).unwrap();
    }
    let device = rectangular_logic(4, 1);
    let routed = route_with_placement(
        &design,
        &device,
        placed(&[0, 1, 2, 3]),
        &RoutingConstraints::new(),
    )
    .unwrap();
    let separate: usize = routed.routes.iter().map(|route| route.pips().len()).sum();
    let mut every: Vec<PipId> = routed
        .routes
        .iter()
        .flat_map(|route| route.pips().to_vec())
        .collect();
    every.sort();
    every.dedup();
    assert_eq!(routed.total_pips, every.len());
    assert!(every.len() < separate, "both nets pass the middle channel");
}

#[test]
fn trees_decompose_into_sinks_and_free_ends() {
    let mut device = Device::new("tree".to_string(), 1, 1).unwrap();
    let point = Point::new(0, 0);
    let wires: Vec<WireId> = (0..4)
        .map(|index| device.add_wire(format!("w{index}"), point, 1).unwrap())
        .collect();
    let first = device.add_pip(wires[0], wires[1], false, 1).unwrap();
    let second = device.add_pip(wires[1], wires[2], true, 1).unwrap();
    let third = device.add_pip(wires[1], wires[3], false, 1).unwrap();
    let route = NetRoute::from_tree(
        NetId(0),
        wires[0],
        &[(CellPinId(5), wires[2]), (CellPinId(6), wires[1])],
        &[third, first, second],
        &device,
    )
    .unwrap();
    let ends: Vec<(Option<CellPinId>, WireId)> = route
        .arcs
        .iter()
        .map(|arc| (arc.sink, *arc.wires.last().unwrap()))
        .collect();
    assert_eq!(
        ends,
        [(None, wires[3]), (Some(CellPinId(5)), wires[2]), (Some(CellPinId(6)), wires[1])]
    );
    let outside = NetRoute::from_tree(NetId(0), WireId(9), &[], &[], &device).unwrap();
    assert_eq!(outside.wires(), [WireId(9)]);
    assert_eq!(outside.arcs.len(), 1);
    assert_eq!(
        NetRoute::from_tree(NetId(0), WireId(9), &[], &[first], &device).unwrap_err(),
        "physical route is not one driver-rooted tree"
    );
}

#[test]
fn routes_do_not_depend_on_the_order_of_their_arcs() {
    let arcs = |flip: bool| {
        let mut list = vec![
            RouteArc {
                sink: Some(CellPinId(3)),
                wires: vec![WireId(0), WireId(1)],
                pips: vec![PipId(0)],
            },
            RouteArc {
                sink: Some(CellPinId(2)),
                wires: vec![WireId(0), WireId(2)],
                pips: vec![PipId(1)],
            },
            RouteArc { sink: None, wires: vec![WireId(0)], pips: Vec::new() },
        ];
        if flip {
            list.reverse();
        }
        list
    };
    let route = NetRoute::new(NetId(4), arcs(false));
    assert_eq!(route, NetRoute::new(NetId(4), arcs(true)));
    assert_eq!(route.arcs[0].sink, None);
    assert_eq!(route.wire_ref_count(WireId(0)), 3);
}

#[test]
fn the_first_yes_names_the_family() {
    assert_eq!(first_told(&vec![2, 5, 7], &vec![false, true, true], 9), 5);
    assert_eq!(first_told(&vec![2, 5, 7], &vec![false, false, false], 9), 9);
}

#[test]
fn pin_bindings_must_fit_the_device() {
    let design = two_cell_design();
    let device = rectangular_logic(2, 1);
    let mut named = PlacementConstraints::new();
    named.bind_pin_name(CellPinId(9), "in".to_string());
    assert!(matches!(
        place_with_constraints(&design, &device, &named),
        Err(PnrError::InvalidPinNameBinding { pin: CellPinId(9), .. })
    ));
    let mut bound = PlacementConstraints::new();
    bound.bind_pin(CellPinId(1), BelId(0), BelPinId(2));
    assert!(matches!(
        place_with_constraints(&design, &device, &bound),
        Err(PnrError::InvalidPinBinding { pin: CellPinId(1), bel: BelId(0), .. })
    ));
}

#[test]
fn routing_reports_a_missing_cell() {
    let design = two_cell_design();
    let device = rectangular_logic(2, 1);
    assert_eq!(
        route_with_placement(&design, &device, placed(&[0]), &RoutingConstraints::new()),
        Err(PnrError::MissingPlacement { cell: CellId(1) })
    );
}

#[test]
fn routing_reports_a_net_without_a_path() {
    let design = two_cell_design();
    let device = rectangular_logic(2, 1);
    let mut constraints = RoutingConstraints::new();
    let channel = device
        .pips()
        .iter()
        .position(|pip| pip.passes(WireId(2), WireId(5)))
        .unwrap();
    constraints.block_pips(&[PipId(channel)]);
    let error = route_with_placement(&design, &device, placed(&[0, 1]), &constraints).unwrap_err();
    assert_eq!(
        error.message(),
        "net `source_to_sink` is unroutable from source.out via out_0_0 to sink.in via in_1_0"
    );
}

#[test]
fn routing_rejects_restrictions_and_constraints_off_the_device() {
    let design = two_cell_design();
    let device = rectangular_logic(2, 1);
    let mut blocked = RoutingConstraints::new();
    blocked.block_pips(&[PipId(999)]);
    assert!(matches!(
        route_with_placement(&design, &device, placed(&[0, 1]), &blocked),
        Err(PnrError::InvalidRoutingRestriction { .. })
    ));
    let mut locked = RoutingConstraints::new();
    locked.add_route(Arc::new(NetRoute::new(
        NetId(0),
        vec![RouteArc { sink: None, wires: vec![WireId(0)], pips: Vec::new() }],
    )));
    assert!(matches!(
        route_with_placement(&design, &device, placed(&[0, 1]), &locked),
        Err(PnrError::InvalidRoutingConstraint { net: NetId(0), .. })
    ));
}

#[test]
fn routing_rejects_an_immutable_tree_that_enters_a_wire_twice() {
    let mut design = Design::new();
    let source = design.add_cell("source".to_string(), ResourceKind::Logic);
    let out = design.add_pin(source, "out".to_string(), PinDirection::Output).unwrap();
    let sink = design.add_cell("sink".to_string(), ResourceKind::Register);
    let input = design.add_pin(sink, "in".to_string(), PinDirection::Input).unwrap();
    design.add_net("net".to_string(), out, vec![input]).unwrap();
    let mut device = Device::new("diamond".to_string(), 1, 1).unwrap();
    let point = Point::new(0, 0);
    let driver = device.add_wire("driver".to_string(), point, 1).unwrap();
    let left = device.add_wire("left".to_string(), point, 1).unwrap();
    let right = device.add_wire("right".to_string(), point, 1).unwrap();
    let goal = device.add_wire("goal".to_string(), point, 1).unwrap();
    let to_left = device.add_pip(driver, left, false, 1).unwrap();
    let to_right = device.add_pip(driver, right, false, 1).unwrap();
    let from_left = device.add_pip(left, goal, false, 1).unwrap();
    let from_right = device.add_pip(right, goal, false, 1).unwrap();
    let first = device.add_bel("a".to_string(), ResourceKind::Logic, point).unwrap();
    device
        .add_bel_pin(first, "out".to_string(), PinDirection::Output, driver)
        .unwrap();
    let second = device.add_bel("b".to_string(), ResourceKind::Register, point).unwrap();
    device
        .add_bel_pin(second, "in".to_string(), PinDirection::Input, goal)
        .unwrap();
    let mut constraints = RoutingConstraints::new();
    constraints.add_route(Arc::new(NetRoute::new(
        NetId(0),
        vec![
            RouteArc {
                sink: None,
                wires: vec![driver, left, goal],
                pips: vec![to_left, from_left],
            },
            RouteArc {
                sink: Some(input),
                wires: vec![driver, right, goal],
                pips: vec![to_right, from_right],
            },
        ],
    )));
    assert_eq!(
        route_with_placement(&design, &device, placed(&[0, 1]), &constraints),
        Err(PnrError::RouteIsNotTree { net: NetId(0), wires: 4, pips: 4 })
    );
}

#[test]
fn routing_takes_the_faster_of_two_paths_and_builds_a_tree() {
    let mut design = Design::new();
    let source = design.add_cell("source".to_string(), ResourceKind::Logic);
    let out = design.add_pin(source, "out".to_string(), PinDirection::Output).unwrap();
    let sink = design.add_cell("sink".to_string(), ResourceKind::Register);
    let input = design.add_pin(sink, "in".to_string(), PinDirection::Input).unwrap();
    design.add_net("net".to_string(), out, vec![input]).unwrap();
    let mut device = Device::new("choice".to_string(), 1, 1).unwrap();
    let point = Point::new(0, 0);
    let driver = device.add_wire("driver".to_string(), point, 1).unwrap();
    let slow = device.add_wire("slow".to_string(), point, 1).unwrap();
    let fast = device.add_wire("fast".to_string(), point, 1).unwrap();
    let goal = device.add_wire("goal".to_string(), point, 1).unwrap();
    device.add_pip(driver, slow, false, 1).unwrap();
    device.add_pip(slow, goal, false, 1).unwrap();
    let fast_first = device.add_pip(driver, fast, false, 1).unwrap();
    let fast_last = device.add_pip(fast, goal, false, 1).unwrap();
    let first = device.add_bel("a".to_string(), ResourceKind::Logic, point).unwrap();
    device
        .add_bel_pin(first, "out".to_string(), PinDirection::Output, driver)
        .unwrap();
    let second = device.add_bel("b".to_string(), ResourceKind::Register, point).unwrap();
    device
        .add_bel_pin(second, "in".to_string(), PinDirection::Input, goal)
        .unwrap();
    let mut criticalities = OrderedMap::new();
    criticalities.insert(NetId(0), 64);
    let costs = RoutingCosts::new(vec![400, 400, 90, 90], criticalities);
    let routed = route_with_timing_costs_and_progress(
        &design,
        &device,
        placed(&[0, 1]),
        &RoutingConstraints::new(),
        &costs,
        &mut Vec::new(),
    )
    .unwrap();
    let route = &routed.routes[0];
    assert_eq!(route.pips(), [fast_first, fast_last]);
    assert_eq!(route.pips().len() + 1, route.wires().len());
    assert_eq!(routed.total_pips, 2);
}

#[test]
fn bounding_boxes_leave_clock_nets_out() {
    let mut design = two_cell_design();
    let clock = design.add_cell("clock".to_string(), ResourceKind::Clock);
    let out = design.add_pin(clock, "out".to_string(), PinDirection::Output).unwrap();
    design.add_net("clock".to_string(), out, Vec::new()).unwrap();
    let device = rectangular_logic(4, 2);
    let boxes = demand_boxes(&design, &device, &placed(&[4, 3, 0]));
    assert_eq!(
        boxes.boxes,
        [DemandBox { least: Point::new(0, 0), greatest: Point::new(3, 1) }]
    );
    assert_eq!(boxes.excluded_clock_nets, 1);
}

#[test]
fn wire_names_tell_the_channel() {
    assert_eq!(
        channel_orientation("R0C0/H02E0001"),
        Some(RoutingChannelOrientation::Horizontal)
    );
    assert_eq!(
        channel_orientation("R1C2/V06N0003"),
        Some(RoutingChannelOrientation::Vertical)
    );
    assert_eq!(channel_orientation("R0C0/JA"), None);
}

#[test]
fn components_without_an_anchor_float() {
    let adjacency = vec![vec![1], vec![0], vec![3], vec![2], Vec::new()];
    let anchored = vec![false, false, false, true, false];
    assert_eq!(
        floating_components(&adjacency, &anchored),
        vec![vec![0, 1], vec![4]]
    );
}

#[test]
fn rigid_cells_keep_their_offsets() {
    let design = two_cell_design();
    let device = rectangular_logic(4, 1);
    let mut constraints = PlacementConstraints::new();
    constraints.add_group(
        vec![CellId(0), CellId(1)],
        vec![vec![BelId(0), BelId(1)], vec![BelId(2), BelId(3)]],
    );
    let refiner = PlacementRefiner::new(&design, &device, &constraints).unwrap();
    assert_eq!(
        refiner.rigid_cells(),
        [
            RigidCell { unit: 0, column: 0, dx: 0, dy: 0, fixed: None },
            RigidCell { unit: 0, column: 1, dx: 1, dy: 0, fixed: None },
        ]
    );
    assert_eq!(
        refiner.legalization_displacements(
            &vec![Point::new(1, 0)],
            &vec![Some(BelId(2)), Some(BelId(3))],
            None,
        ),
        [
            Displacement { target: Point::new(1, 0), legalized: Point::new(2, 0) },
            Displacement { target: Point::new(2, 0), legalized: Point::new(3, 0) },
        ]
    );
}

#[test]
fn connection_moves_bring_a_sink_next_to_its_driver() {
    let design = two_cell_design();
    let device = rectangular_logic(4, 1);
    let constraints = PlacementConstraints::new();
    let refiner = PlacementRefiner::new(&design, &device, &constraints).unwrap();
    let delays = vec![100; device.pips().len()];
    let moved = refiner
        .refine_connection_delay(placed(&[0, 3]), CellPinId(0), CellPinId(1), false, &delays, 3)
        .unwrap()
        .unwrap();
    assert_eq!(moved.bindings(), [BelId(0), BelId(1)]);
    let proposals = refiner
        .refine_cell_connection_delays(
            placed(&[0, 3]),
            CellId(1),
            &[(CellPinId(0), CellPinId(1))],
            &[0],
            &delays,
            None,
            3,
            4,
        )
        .unwrap();
    assert_eq!(proposals[0].bindings(), [BelId(0), BelId(1)]);
    assert_eq!(
        refiner
            .refine_connection_delay(
                placed(&[0, 1]),
                CellPinId(0),
                CellPinId(1),
                false,
                &delays,
                3,
            )
            .unwrap(),
        None
    );
}

#[test]
fn graphs_name_the_wire_of_a_bound_pin() {
    let design = two_cell_design();
    let device = rectangular_logic(2, 1);
    let graph = UnifiedGraph::new(&design, &device);
    assert_eq!(graph.bound_wire(CellPinId(0), BelId(1)), Ok(WireId(4)));
    assert_eq!(graph.bound_wire(CellPinId(1), BelId(1)), Ok(WireId(3)));
    assert_eq!(
        graph.routing_neighbors(WireId(99)),
        Err(ModelError::UnknownWire(WireId(99)))
    );
}

#[test]
fn workspaces_keep_the_shape_of_one_shared_assignment_table() {
    let design = two_cell_design();
    let device = rectangular_logic(2, 1);
    let assignments = Arc::new(vec![vec![BelId(0), BelId(1)]]);
    let mut constraints = PlacementConstraints::new();
    constraints
        .add_group_with_shared_assignments(vec![CellId(0), CellId(1)], Arc::clone(&assignments));
    let mut workspace = PlacementRefinementWorkspace::new();
    for _ in 0..2 {
        let refiner =
            PlacementRefiner::new_with_workspace(&design, &device, &constraints, &mut workspace)
                .unwrap();
        assert_eq!(refiner.rigid_cells()[1].fixed, Some(Point::new(1, 0)));
        assert_eq!(workspace.validated_group_shapes.len(), 1);
    }
    let mut separate = PlacementConstraints::new();
    separate.add_group(vec![CellId(0), CellId(1)], assignments.to_vec());
    let _ = PlacementRefiner::new_with_workspace(&design, &device, &separate, &mut workspace)
        .unwrap();
    assert_eq!(workspace.validated_group_shapes.len(), 2);
}

#[test]
fn a_noted_shape_counts_where_its_table_and_every_column_agree() {
    let answer = |table: bool, columns: usize, sets: &[bool]| ShapeAnswer {
        table,
        columns,
        sets: sets.to_vec(),
    };
    assert!(!any_agrees(&Vec::new(), 2));
    assert!(!any_agrees(&vec![answer(false, 2, &[]), answer(true, 3, &[])], 2));
    assert!(!any_agrees(&vec![answer(true, 2, &[true, false])], 2));
    assert!(any_agrees(&vec![answer(false, 2, &[]), answer(true, 2, &[true, true])], 2));
}

#[test]
fn a_swap_is_refused_where_another_group_names_a_cell_off_the_design() {
    let design = two_cell_design();
    let device = rectangular_logic(3, 1);
    let mut constraints = PlacementConstraints::new();
    constraints.add_group(vec![CellId(7)], vec![vec![BelId(1)]]);
    let error = swap_placement_cells(
        &design,
        &device,
        &constraints,
        &placed(&[0, 2]),
        CellId(0),
        CellId(1),
    )
    .unwrap_err();
    assert!(matches!(error, PnrError::InvalidPlacement { .. }));
    assert!(error.message().contains("placement group 0"));
}

#[test]
fn a_stale_binding_of_a_bel_that_no_cell_takes_is_ignored() {
    let design = two_cell_design();
    let device = rectangular_logic(3, 1);
    let mut constraints = PlacementConstraints::new();
    constraints.bind_pin(CellPinId(1), BelId(2), BelPinId(999));
    let rebound =
        rebind_placement_pins(&design, &device, &constraints, &placed(&[1, 0])).unwrap();
    assert_eq!(rebound.bindings(), [BelId(1), BelId(0)]);
}

#[test]
fn the_first_group_at_fault_is_named() {
    let design = two_cell_design();
    let device = rectangular_logic(3, 1);
    let mut constraints = PlacementConstraints::new();
    constraints.add_group(vec![CellId(0)], vec![vec![BelId(2)]]);
    constraints.add_group(vec![CellId(5)], vec![vec![BelId(0)]]);
    constraints.add_group(vec![CellId(6)], vec![vec![BelId(1)]]);
    assert!(matches!(
        place_with_constraints(&design, &device, &constraints),
        Err(PnrError::InvalidPlacementConstraint { group: 1, .. })
    ));
}
