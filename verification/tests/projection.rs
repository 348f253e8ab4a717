use std::sync::Arc;

use texo_pnr::device::{Device, UnifiedGraph};
use texo_pnr::model::{
    BelId, CellPinId, Connection, Design, NetId, PinDirection, Point, ResourceKind, WireId,
};
use texo_pnr::ordered::{OrderedKey, OrderedMap, OrderedSet};
use texo_pnr::placement_constraints::PlacementConstraints;
use texo_pnr::projected_cost::{
    assignment_connection_projected_cost, external_unit_connections,
    local_connection_projected_cost_from_starts, projected_retained_tree_starts,
};
use texo_pnr::projection::{
    projected_release_scope_penalty, projected_resource_penalty, RouteCapacityProjection,
};
use texo_pnr::route::{NetRoute, RouteArc};
use texo_pnr::routing_costs::RoutingCosts;
use texo_pnr::units::{PlacementChoices, PlacementUnit};

fn keyed<K: OrderedKey, V: Copy>(entries: &[(K, V)]) -> OrderedMap<K, V> {
    let mut map = OrderedMap::new();
    for &(key, value) in entries {
        map.insert(key, value);
    }
    map
}

fn arcs<V: Copy>(entries: &[((NetId, CellPinId), V)]) -> OrderedMap<Connection, V> {
    let mut map = OrderedMap::new();
    for &((net, sink), value) in entries {
        map.insert(Connection { net, sink }, value);
    }
    map
}


#[test]
fn rigid_macro_boundary_enumeration_includes_every_member_net() {
    let mut design = Design::new();
    let first = design.add_cell("first".to_string(), ResourceKind::Logic);
    let first_out = design.add_pin(first, "O".to_string(), PinDirection::Output).unwrap();
    let second = design.add_cell("second".to_string(), ResourceKind::Logic);
    let second_out = design.add_pin(second, "F".to_string(), PinDirection::Output).unwrap();
    let internal = design.add_pin(second, "FCI".to_string(), PinDirection::Input).unwrap();
    let packed_ff = design.add_cell("packed-ff".to_string(), ResourceKind::Register);
    let packed_di = design
        .add_pin(packed_ff, "DI".to_string(), PinDirection::Input)
        .unwrap();
    let sink_a = design.add_cell("sink-a".to_string(), ResourceKind::Register);
    let sink_a_in = design.add_pin(sink_a, "I".to_string(), PinDirection::Input).unwrap();
    let sink_b = design.add_cell("sink-b".to_string(), ResourceKind::Register);
    let second_sink_input = design.add_pin(sink_b, "I".to_string(), PinDirection::Input).unwrap();
    let sink_c = design.add_cell("sink-c".to_string(), ResourceKind::Register);
    let third_sink_input = design.add_pin(sink_c, "I".to_string(), PinDirection::Input).unwrap();
    design
        .add_net("first-external".to_string(), first_out, vec![sink_a_in])
        .unwrap();
    design
        .add_net("mixed-result-fanout".to_string(), second_out, vec![packed_di, second_sink_input, third_sink_input])
        .unwrap();
    let internal_out = design.add_pin(first, "OI".to_string(), PinDirection::Output).unwrap();
    design
        .add_net("internal".to_string(), internal_out, vec![internal])
        .unwrap();
    let unit = PlacementUnit {
        cells: vec![first, second, packed_ff],
        choices: PlacementChoices::Shared(Arc::new(vec![Vec::new()])),
    };

    assert_eq!(
        external_unit_connections(&design, &unit),
        vec![
            (first_out, sink_a_in),
            (second_out, second_sink_input),
            (second_out, third_sink_input),
        ]
    );
}

#[test]
fn rigid_macro_retained_tree_excludes_every_moving_sink_branch() {
    let mut design = Design::new();
    let source = design.add_cell("source".to_string(), ResourceKind::Logic);
    let driver = design.add_pin(source, "out".to_string(), PinDirection::Output).unwrap();
    let first = design.add_cell("first-macro-member".to_string(), ResourceKind::Register);
    let first_sink = design.add_pin(first, "in".to_string(), PinDirection::Input).unwrap();
    let second = design.add_cell("second-macro-member".to_string(), ResourceKind::Register);
    let second_sink = design.add_pin(second, "in".to_string(), PinDirection::Input).unwrap();
    let net = design
        .add_net("two-moving-sinks".to_string(), driver, vec![first_sink, second_sink])
        .unwrap();
    let unit = PlacementUnit {
        cells: vec![first, second],
        choices: PlacementChoices::Shared(Arc::new(vec![Vec::new()])),
    };
    let trunk = WireId(0);
    let first_leaf = WireId(1);
    let second_leaf = WireId(2);
    let route = NetRoute::new(
        net,
        vec![
            RouteArc {
                sink: None,
                wires: vec![trunk],
                pips: Vec::new(),
            },
            RouteArc {
                sink: Some(first_sink),
                wires: vec![first_leaf],
                pips: Vec::new(),
            },
            RouteArc {
                sink: Some(second_sink),
                wires: vec![second_leaf],
                pips: Vec::new(),
            },
        ],
    );
    let projection = RouteCapacityProjection::new(
        &[Arc::new(route)],
        &RoutingCosts::new(Vec::new(), OrderedMap::new()),
    );

    let mut device = Device::new("retained".to_string(), 1, 1).unwrap();
    for name in ["trunk", "first-leaf", "second-leaf"] {
        device.add_wire(name.to_string(), Point::new(0, 0), 1).unwrap();
    }
    let retained = projected_retained_tree_starts(
        &UnifiedGraph::new(&design, &device),
        &unit,
        &vec![(driver, first_sink), (driver, second_sink)],
        &projection,
    );
    assert_eq!(retained[0].as_ref().unwrap().as_slice(), &[trunk]);
    assert_eq!(retained[1].as_ref().unwrap().as_slice(), &[trunk]);
}

#[test]
fn capacity_projection_prices_the_arc_using_each_resource() {
    let low_sink = CellPinId(0);
    let critical_sink = CellPinId(1);
    let owner = NetId(1);
    let moving = NetId(2);
    let low_only = WireId(0);
    let critical_only = WireId(1);
    let shared = WireId(2);
    let route = NetRoute::new(
        owner,
        vec![
            RouteArc {
                sink: Some(low_sink),
                wires: vec![low_only, shared],
                pips: vec![],
            },
            RouteArc {
                sink: Some(critical_sink),
                wires: vec![critical_only, shared],
                pips: vec![],
            },
        ],
    );
    let mut costs = RoutingCosts::new(vec![], OrderedMap::new());
    costs.set_sink_criticalities(arcs(&[
        ((owner, low_sink), 1),
        ((owner, critical_sink), 64),
    ]));
    let projection = RouteCapacityProjection::new(&[Arc::new(route)], &costs);

    assert_eq!(
        projected_resource_penalty(projection.wire_owners.get(low_only), moving, 1),
        160
    );
    assert_eq!(
        projected_resource_penalty(projection.wire_owners.get(critical_only), moving, 1),
        790
    );
    assert_eq!(
        projected_resource_penalty(projection.wire_owners.get(shared), moving, 1),
        790
    );
    assert_eq!(
        projected_resource_penalty(projection.wire_owners.get(shared), moving, 2),
        0
    );
    assert_eq!(
        projected_resource_penalty(projection.wire_owners.get(shared), owner, 1),
        0
    );
    assert_eq!(
        projected_release_scope_penalty(projection.wire_owners.get(low_only), moving, 1),
        25
    );
    assert_eq!(
        projected_release_scope_penalty(projection.wire_owners.get(shared), moving, 1),
        50
    );
}

#[test]
fn projected_macro_cost_observes_every_external_member_route() {
    let mut design = Design::new();
    let macro_a = design.add_cell("macro-a".to_string(), ResourceKind::Logic);
    let macro_a_out = design.add_pin(macro_a, "O".to_string(), PinDirection::Output).unwrap();
    let macro_b = design.add_cell("macro-b".to_string(), ResourceKind::Logic);
    let macro_b_out = design.add_pin(macro_b, "O".to_string(), PinDirection::Output).unwrap();
    let sink_a = design.add_cell("sink-a".to_string(), ResourceKind::Register);
    let sink_a_in = design.add_pin(sink_a, "I".to_string(), PinDirection::Input).unwrap();
    let sink_b = design.add_cell("sink-b".to_string(), ResourceKind::Register);
    let sink_b_in = design.add_pin(sink_b, "I".to_string(), PinDirection::Input).unwrap();
    design
        .add_net("macro-a-net".to_string(), macro_a_out, vec![sink_a_in])
        .unwrap();
    design
        .add_net("macro-b-net".to_string(), macro_b_out, vec![sink_b_in])
        .unwrap();

    let mut device = Device::new("macro-sibling-projection".to_string(), 5, 1).unwrap();
    let a0_wire = device.add_wire("a0".to_string(), Point::new(0, 0), 1).unwrap();
    let a1_wire = device.add_wire("a1".to_string(), Point::new(4, 0), 1).unwrap();
    let a0_mid = device.add_wire("a0-mid".to_string(), Point::new(1, 0), 1).unwrap();
    let a1_mid = device.add_wire("a1-mid".to_string(), Point::new(3, 0), 1).unwrap();
    let a_goal = device.add_wire("a-goal".to_string(), Point::new(2, 0), 1).unwrap();
    let b0_wire = device.add_wire("b0".to_string(), Point::new(0, 0), 1).unwrap();
    let b1_wire = device.add_wire("b1".to_string(), Point::new(4, 0), 1).unwrap();
    let occupied_mid = device
        .add_wire("b0-occupied-mid".to_string(), Point::new(1, 0), 1)
        .unwrap();
    let free_mid = device.add_wire("b1-free-mid".to_string(), Point::new(3, 0), 1).unwrap();
    let b_goal = device.add_wire("b-goal".to_string(), Point::new(2, 0), 1).unwrap();
    for (from, to) in [
        (a0_wire, a0_mid),
        (a0_mid, a_goal),
        (a1_wire, a1_mid),
        (a1_mid, a_goal),
        (b0_wire, occupied_mid),
        (occupied_mid, b_goal),
        (b1_wire, free_mid),
        (free_mid, b_goal),
    ] {
        device.add_pip(from, to, false, 1).unwrap();
    }
    let add_bel_pin = |device: &mut Device,
                       name: &str,
                       kind: ResourceKind,
                       point: Point,
                       pin_name: &str,
                       direction: PinDirection,
                       wire: WireId| {
        let bel = device.add_bel(name.to_string(), kind, point).unwrap();
        device.add_bel_pin(bel, pin_name.to_string(), direction, wire).unwrap();
        bel
    };
    let a0 = add_bel_pin(
        &mut device,
        "a0-bel",
        ResourceKind::Logic,
        Point::new(0, 0),
        "O",
        PinDirection::Output,
        a0_wire,
    );
    let b0 = add_bel_pin(
        &mut device,
        "b0-bel",
        ResourceKind::Logic,
        Point::new(0, 0),
        "O",
        PinDirection::Output,
        b0_wire,
    );
    let a1 = add_bel_pin(
        &mut device,
        "a1-bel",
        ResourceKind::Logic,
        Point::new(4, 0),
        "O",
        PinDirection::Output,
        a1_wire,
    );
    let b1 = add_bel_pin(
        &mut device,
        "b1-bel",
        ResourceKind::Logic,
        Point::new(4, 0),
        "O",
        PinDirection::Output,
        b1_wire,
    );
    let sink_a_bel = add_bel_pin(
        &mut device,
        "sink-a-bel",
        ResourceKind::Register,
        Point::new(2, 0),
        "I",
        PinDirection::Input,
        a_goal,
    );
    let sink_b_bel = add_bel_pin(
        &mut device,
        "sink-b-bel",
        ResourceKind::Register,
        Point::new(2, 0),
        "I",
        PinDirection::Input,
        b_goal,
    );
    let assignments = Arc::new(vec![vec![a0, b0], vec![a1, b1]]);
    let unit = PlacementUnit {
        cells: vec![macro_a, macro_b],
        choices: PlacementChoices::Shared(assignments),
    };
    let placed = vec![Some(a0), Some(b0), Some(sink_a_bel), Some(sink_b_bel)];
    let graph = UnifiedGraph::new(&design, &device);
    let constraints = PlacementConstraints::new();
    let owner = NetId(2);
    let owner_route = NetRoute::new(
        owner,
        vec![RouteArc {
            sink: None,
            wires: vec![occupied_mid],
            pips: Vec::new(),
        }],
    );
    let projection = RouteCapacityProjection::new(
        &[Arc::new(owner_route)],
        &RoutingCosts::new(vec![5; 8], keyed(&[(owner, 64)])),
    );
    let score = |assignment: &Vec<BelId>, connections: &Vec<(CellPinId, CellPinId)>| {
        let retained = vec![None; connections.len()];
        assignment_connection_projected_cost(
            &graph,
            &constraints,
            &unit,
            assignment,
            connections,
            &retained,
            &placed,
            &[5; 8],
            &projection,
        )
        .unwrap()
    };
    let row0 = unit.choices.assignment(0);
    let row1 = unit.choices.assignment(1);
    let selected_connection = vec![(macro_a_out, sink_a_in)];
    let sibling_connection = vec![(macro_b_out, sink_b_in)];
    let external_connections = external_unit_connections(&design, &unit);

    assert_eq!(score(&row0, &selected_connection), 10);
    assert_eq!(score(&row1, &selected_connection), 10);
    assert_eq!(
        (
            score(&row0, &sibling_connection),
            score(&row1, &sibling_connection),
        ),
        (825, 10),
        "the sibling route sees the occupied resource"
    );
    assert_eq!(
        external_connections,
        vec![selected_connection[0], sibling_connection[0]],
    );
    assert_eq!(
        (
            score(&row0, &external_connections),
            score(&row1, &external_connections)
        ),
        (835, 20),
        "a rigid macro candidate must be ranked by all of its external connections"
    );
}

#[test]
fn projected_connection_grows_from_the_retained_route_tree() {
    let design = Design::new();
    let mut device = Device::new("projected-tree".to_string(), 1, 1).unwrap();
    let driver = device.add_wire("driver".to_string(), Point::new(0, 0), 1).unwrap();
    let retained = device.add_wire("retained".to_string(), Point::new(0, 0), 1).unwrap();
    let goal = device.add_wire("goal".to_string(), Point::new(0, 0), 1).unwrap();
    device.add_pip(driver, goal, false, 1).unwrap();
    device.add_pip(retained, goal, false, 1).unwrap();
    let graph = UnifiedGraph::new(&design, &device);

    assert_eq!(
        local_connection_projected_cost_from_starts(
            &graph,
            &OrderedSet::from_slice(&[driver, retained]),
            goal,
            &[100, 10],
            NetId(0),
            &RouteCapacityProjection::new(
                &[],
                &RoutingCosts::new(Vec::new(), OrderedMap::new()),
            ),
        ),
        Some(10),
    );
}
