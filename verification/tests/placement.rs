use std::sync::Arc;

use texo_pnr::device::Device;
use texo_pnr::error::PnrError;
use texo_pnr::model::{
    BelId, CellId, CellPinId, Connection, Design, NetId, PinDirection, Point, ResourceKind,
};
use texo_pnr::neighbors::{
    fanout_placement_weight, placement_neighbors, refinement_edge_cost, PlacementNeighbor,
    PlacementWeights, MAX_LOCAL_STAR_FANOUT,
};
use texo_pnr::ordered::{OrderedKey, OrderedMap};
use texo_pnr::partial::placement_from_partial_bindings;
use texo_pnr::place::{
    place_and_route, place_with_constraints, refine_placement_with_net_weights,
};
use texo_pnr::placement::Placement;
use texo_pnr::placement_constraints::PlacementConstraints;
use texo_pnr::placement_edit::placement_from_complete_bindings;
use texo_pnr::refiner::{refine_placement_with_net_sink_weights_limited, PlacementRefiner};

fn keyed<K: OrderedKey, V: Copy>(entries: &[(K, V)]) -> OrderedMap<K, V> {
    let mut map = OrderedMap::new();
    for &(key, value) in entries {
        map.insert(key, value);
    }
    map
}

fn arcs<V: Copy>(entries: &[((NetId, CellPinId), V)]) -> OrderedMap<Connection, V> {
    let mut map = OrderedMap::new();
    for &((net, sink), value) in entries {
        map.insert(Connection { net, sink }, value);
    }
    map
}

/// Tiles with one logic BEL each, whose wires join a channel of the tile;
/// channels of neighboring tiles are joined both ways.
fn rectangular_logic(width: u32, height: u32) -> Device {
    let mut device = Device::new("rectangular".to_string(), width, height).unwrap();
    let mut channels = Vec::new();
    for y in 0..height {
        for x in 0..width {
            let point = Point::new(x, y);
            let input = device.add_wire(format!("in_{x}_{y}"), point, 1).unwrap();
            let output = device.add_wire(format!("out_{x}_{y}"), point, 1).unwrap();
            let channel = device.add_wire(format!("channel_{x}_{y}"), point, 8).unwrap();
            device.add_pip(output, channel, false, 1).unwrap();
            device.add_pip(channel, input, false, 1).unwrap();
            let bel = device
                .add_bel(format!("logic_{x}_{y}"), ResourceKind::Logic, point)
                .unwrap();
            device
                .add_bel_pin(bel, "in".to_string(), PinDirection::Input, input)
                .unwrap();
            device
                .add_bel_pin(bel, "out".to_string(), PinDirection::Output, output)
                .unwrap();
            channels.push(channel);
        }
    }
    for y in 0..height {
        for x in 0..width {
            let here = channels[(y * width + x) as usize];
            if x + 1 < width {
                device
                    .add_pip(here, channels[(y * width + x + 1) as usize], true, 8)
                    .unwrap();
            }
            if y + 1 < height {
                device
                    .add_pip(here, channels[((y + 1) * width + x) as usize], true, 8)
                    .unwrap();
            }
        }
    }
    device
}

fn two_cell_design() -> Design {
    let mut design = Design::new();
    let source = design.add_cell("source".to_string(), ResourceKind::Logic);
    let source_out = design.add_pin(source, "out".to_string(), PinDirection::Output).unwrap();
    let sink = design.add_cell("sink".to_string(), ResourceKind::Logic);
    let sink_in = design.add_pin(sink, "in".to_string(), PinDirection::Input).unwrap();
    design
        .add_net("source_to_sink".to_string(), source_out, vec![sink_in])
        .unwrap();
    design
}

fn sink_weighted(weights: &OrderedMap<Connection, u64>) -> PlacementWeights<'_> {
    PlacementWeights { net_weights: None, sink_weights: Some(weights), sink_budgets: None }
}

#[test]
fn complete_bindings_reject_a_group_spliced_from_different_assignment_rows() {
    let design = two_cell_design();
    let device = rectangular_logic(4, 1);
    let mut constraints = PlacementConstraints::new();
    constraints.add_group(vec![CellId(0), CellId(1)], vec![vec![BelId(0), BelId(1)], vec![BelId(2), BelId(3)]]);
    let error = placement_from_complete_bindings(
        &design,
        &device,
        &constraints,
        vec![BelId(0), BelId(3)],
    )
    .unwrap_err();

    assert!(matches!(error, PnrError::InvalidPlacement { .. }));
    assert!(
        error
            .message()
            .contains("does not match one complete legal assignment row")
    );
}

#[test]
fn complete_bindings_match_partial_bindings_and_resolve_pin_names() {
    let mut design = Design::new();
    let cell = design.add_cell("cell".to_string(), ResourceKind::Logic);
    let logical_pin = design
        .add_pin(cell, "logical".to_string(), PinDirection::Output)
        .unwrap();
    let mut device = Device::new("complete-bindings".to_string(), 2, 1).unwrap();
    let first_wire = device.add_wire("first-wire".to_string(), Point::new(0, 0), 1).unwrap();
    let second_wire = device.add_wire("second-wire".to_string(), Point::new(1, 0), 1).unwrap();
    let first = device
        .add_bel("first".to_string(), ResourceKind::Logic, Point::new(0, 0))
        .unwrap();
    device
        .add_bel_pin(first, "physical".to_string(), PinDirection::Output, first_wire)
        .unwrap();
    let second = device
        .add_bel("second".to_string(), ResourceKind::Logic, Point::new(1, 0))
        .unwrap();
    let second_pin = device
        .add_bel_pin(second, "physical".to_string(), PinDirection::Output, second_wire)
        .unwrap();
    let mut constraints = PlacementConstraints::new();
    constraints.bind_pin_name(logical_pin, "physical".to_string());
    constraints.add_group(vec![cell], vec![vec![second]]);
    let partial_bindings = keyed(&[(cell, second)]);

    let partial =
        placement_from_partial_bindings(&design, &device, &constraints, &partial_bindings)
            .unwrap();
    let complete =
        placement_from_complete_bindings(&design, &device, &constraints, vec![second]).unwrap();

    assert_eq!(complete, partial);
    assert_eq!(complete.pin_binding(logical_pin), Some(second_pin));
}

#[test]
fn complete_bindings_validate_table_shape_ownership_and_kind() {
    let design = two_cell_design();
    let mut device = rectangular_logic(2, 1);
    let io = device
        .add_bel("io".to_string(), ResourceKind::Io, Point::new(0, 0))
        .unwrap();

    for bindings in [vec![BelId(0)], vec![BelId(0), BelId(0)], vec![io, BelId(1)]] {
        assert!(matches!(
            placement_from_complete_bindings(
                &design,
                &device,
                &PlacementConstraints::new(),
                bindings,
            ),
            Err(PnrError::InvalidPlacement { .. })
        ));
    }

    let mut shared = PlacementConstraints::new();
    shared.add_shared_resource(&[(CellId(0), 0), (CellId(1), 1)], &[(BelId(0), 7), (BelId(1), 7)]);
    assert!(matches!(
        placement_from_complete_bindings(&design, &device, &shared, vec![BelId(0), BelId(1)],),
        Err(PnrError::InvalidPlacement { .. })
    ));
}

#[test]
fn reports_bel_exhaustion() {
    let design = two_cell_design();
    let device = rectangular_logic(1, 1);

    assert_eq!(
        place_and_route(&design, &device),
        Err(PnrError::NoBel {
            cell: "sink".to_string()
        })
    );
}

#[test]
fn seeds_an_unconnected_unit_at_the_device_center() {
    let mut design = Design::new();
    let cell = design.add_cell("cell".to_string(), ResourceKind::Logic);
    design.add_pin(cell, "out".to_string(), PinDirection::Output).unwrap();
    let device = rectangular_logic(5, 1);

    let placement =
        place_with_constraints(&design, &device, &PlacementConstraints::new()).unwrap();
    let point = device.bels()[placement.bel(cell).unwrap().0].point;

    assert_eq!(point, Point::new(2, 0));
}

#[test]
fn timing_driven_refinement_penalizes_long_edges_quadratically() {
    let ordinary = PlacementNeighbor {
        cell: CellId(0),
        weight: 2,
        timing_driven: false,
        budget: 0,
    };
    let critical = PlacementNeighbor {
        timing_driven: true,
        ..ordinary
    };

    assert_eq!(refinement_edge_cost(ordinary, 3), 6);
    assert_eq!(refinement_edge_cost(critical, 3), 18);
}

#[test]
fn sink_weights_do_not_promote_unrelated_fanout_edges() {
    let mut design = Design::new();
    let source = design.add_cell("source".to_string(), ResourceKind::Logic);
    let source_out = design.add_pin(source, "out".to_string(), PinDirection::Output).unwrap();
    let critical = design.add_cell("critical".to_string(), ResourceKind::Logic);
    let critical_in = design.add_pin(critical, "in".to_string(), PinDirection::Input).unwrap();
    let ordinary = design.add_cell("ordinary".to_string(), ResourceKind::Logic);
    let ordinary_in = design.add_pin(ordinary, "in".to_string(), PinDirection::Input).unwrap();
    design
        .add_net("fanout".to_string(), source_out, vec![critical_in, ordinary_in])
        .unwrap();

    let (_, neighbors) = placement_neighbors(
        &design,
        sink_weighted(&arcs(&[((NetId(0), critical_in), 64)])),
    );
    let critical_edge = neighbors[source.0]
        .iter()
        .find(|edge| edge.cell == critical)
        .unwrap();
    let ordinary_edge = neighbors[source.0]
        .iter()
        .find(|edge| edge.cell == ordinary)
        .unwrap();

    assert_eq!(critical_edge.weight, 2_048);
    assert!(critical_edge.timing_driven);
    assert_eq!(ordinary_edge.weight, 32);
    assert!(!ordinary_edge.timing_driven);
}

#[test]
fn fanout_weight_preserves_square_root_aggregate_influence() {
    assert_eq!(fanout_placement_weight(1), 64);
    assert_eq!(fanout_placement_weight(2), 32);
    assert_eq!(fanout_placement_weight(4), 32);
    assert_eq!(fanout_placement_weight(5), 21);
    assert_eq!(fanout_placement_weight(64), 8);
    assert_eq!(fanout_placement_weight(65), 7);
    assert_eq!(fanout_placement_weight(256), 4);
}

#[test]
fn timing_critical_sink_survives_the_local_star_fanout_cutoff() {
    let mut design = Design::new();
    let source = design.add_cell("source".to_string(), ResourceKind::Logic);
    let source_out = design.add_pin(source, "out".to_string(), PinDirection::Output).unwrap();
    let mut sinks = Vec::new();
    for index in 0..=MAX_LOCAL_STAR_FANOUT {
        let sink = design.add_cell(format!("sink{index}"), ResourceKind::Logic);
        sinks.push((
            sink,
            design.add_pin(sink, "in".to_string(), PinDirection::Input).unwrap(),
        ));
    }
    design
        .add_net("wide_fanout".to_string(), source_out, sinks.iter().map(|&(_, pin)| pin).collect())
        .unwrap();
    let critical = sinks[0];
    let secondary = sinks[1];

    let (_, neighbors) = placement_neighbors(
        &design,
        sink_weighted(&arcs(&[
            ((NetId(0), critical.1), 64),
            ((NetId(0), secondary.1), 32),
        ])),
    );

    assert_eq!(neighbors[source.0].len(), 1);
    assert_eq!(neighbors[source.0][0].cell, critical.0);
    assert_eq!(neighbors[source.0][0].weight, 192);
    assert!(neighbors[source.0][0].timing_driven);
    assert!(neighbors[secondary.0.0].is_empty());
}

#[test]
fn incremental_refinement_starts_from_the_supplied_placement() {
    let design = two_cell_design();
    let device = rectangular_logic(5, 1);
    let initial = Placement {
        bindings: vec![BelId(0), BelId(4)],
        pin_bindings: OrderedMap::new(),
    };

    let refined = refine_placement_with_net_weights(
        &design,
        &device,
        &PlacementConstraints::new(),
        initial,
        &keyed(&[(NetId(0), 64)]),
    )
    .unwrap();
    let source = refined.point(CellId(0), &device).unwrap();
    let sink = refined.point(CellId(1), &device).unwrap();

    assert!(source.manhattan(sink) < 4);
}

#[test]
fn limited_refinement_bounds_changed_units() {
    let design = two_cell_design();
    let device = rectangular_logic(5, 1);
    let initial = Placement {
        bindings: vec![BelId(0), BelId(4)],
        pin_bindings: OrderedMap::new(),
    };

    let refined = refine_placement_with_net_sink_weights_limited(
        &design,
        &device,
        &PlacementConstraints::new(),
        initial.clone(),
        &OrderedMap::new(),
        None,
        1,
    )
    .unwrap();
    let changed = initial
        .bindings()
        .iter()
        .zip(refined.bindings())
        .filter(|(before, after)| before != after)
        .count();

    assert!(changed <= 1);
}

#[test]
fn a_limit_of_zero_keeps_every_cell() {
    let design = two_cell_design();
    let device = rectangular_logic(5, 1);
    let initial = Placement {
        bindings: vec![BelId(0), BelId(4)],
        pin_bindings: OrderedMap::new(),
    };
    let refined = refine_placement_with_net_sink_weights_limited(
        &design,
        &device,
        &PlacementConstraints::new(),
        initial.clone(),
        &OrderedMap::new(),
        None,
        0,
    )
    .unwrap();
    assert_eq!(refined.bindings(), initial.bindings());
}

#[test]
fn inactive_refinement_limits_produce_the_same_placement() {
    let design = two_cell_design();
    let device = rectangular_logic(5, 1);
    let constraints = PlacementConstraints::new();
    let initial = Placement {
        bindings: vec![BelId(0), BelId(4)],
        pin_bindings: OrderedMap::new(),
    };
    let refiner = PlacementRefiner::new(&design, &device, &constraints).unwrap();
    let (broad, move_peak) = refiner
        .refine_with_net_sink_weights_limited_and_move_peak(
            initial.clone(),
            &OrderedMap::new(),
            None,
            10,
        )
        .unwrap();

    assert!(move_peak < 10);
    let equivalent = refiner
        .refine_with_net_sink_weights_limited(initial, &OrderedMap::new(), None, move_peak + 1)
        .unwrap();
    assert_eq!(broad, equivalent);
}

#[test]
fn places_a_target_group_atomically() {
    let design = two_cell_design();
    let device = rectangular_logic(2, 1);
    let mut constraints = PlacementConstraints::new();
    constraints.add_group(vec![CellId(0), CellId(1)], vec![vec![BelId(1), BelId(0)]]);

    let placement = place_with_constraints(&design, &device, &constraints).unwrap();

    assert_eq!(placement.bindings(), &[BelId(1), BelId(0)]);
}

#[test]
fn shared_assignment_groups_reuse_the_complete_row_index() {
    let rows = Arc::new(vec![
        vec![BelId(0), BelId(1)],
        vec![BelId(0), BelId(2)],
        vec![BelId(3), BelId(4)],
    ]);
    let mut constraints = PlacementConstraints::new();
    constraints.add_group_with_shared_assignments(vec![CellId(0), CellId(1)], Arc::clone(&rows));
    constraints.add_group_with_shared_assignments(vec![CellId(2), CellId(3)], rows);

    assert!(Arc::ptr_eq(
        &constraints.group_row_indexes[0],
        &constraints.group_row_indexes[1]
    ));
    assert_eq!(constraints.group_row_indexes[0].rows.get(BelId(0)), Some(&vec![0, 1]));
    assert_eq!(constraints.group_row_indexes[0].rows.get(BelId(3)), Some(&vec![2]));
}

#[test]
fn replaces_and_shrinks_atomic_group_columns_transactionally() {
    let mut constraints = PlacementConstraints::new();
    constraints.add_group(vec![CellId(0), CellId(1)], vec![vec![BelId(0), BelId(1)], vec![BelId(2), BelId(3)]]);

    assert!(constraints.replace_group(
        &vec![CellId(0), CellId(1)],
        vec![CellId(0), CellId(1), CellId(2)],
        vec![
            vec![BelId(0), BelId(1), BelId(4)],
            vec![BelId(2), BelId(3), BelId(5)],
        ],
    ));
    assert!(!constraints.replace_group(
        &vec![CellId(0), CellId(1), CellId(2)],
        vec![CellId(0), CellId(0)],
        vec![vec![BelId(0), BelId(1)]],
    ));
    assert_eq!(
        constraints.groups()[0].cells,
        [CellId(0), CellId(1), CellId(2)]
    );

    assert!(constraints.remove_group_cell(CellId(2)));
    assert_eq!(constraints.groups()[0].cells, [CellId(0), CellId(1)]);
    assert_eq!(
        constraints.groups()[0].assignments.as_ref(),
        &[vec![BelId(0), BelId(1)], vec![BelId(2), BelId(3)]]
    );
    assert!(constraints.remove_group_cell(CellId(1)));
    assert!(constraints.groups().is_empty());
}

#[test]
fn separates_incompatible_values_of_a_shared_site_resource() {
    let design = two_cell_design();
    let device = rectangular_logic(4, 1);
    let mut constraints = PlacementConstraints::new();
    constraints.add_shared_resource(&[(CellId(0), 0), (CellId(1), 1)], &[(BelId(0), 0), (BelId(1), 0), (BelId(2), 1), (BelId(3), 1)]);

    let placement = place_with_constraints(&design, &device, &constraints).unwrap();

    assert_ne!(placement.bindings()[0].0 / 2, placement.bindings()[1].0 / 2);
}

#[test]
fn permits_equal_values_of_a_shared_site_resource() {
    let design = two_cell_design();
    let device = rectangular_logic(2, 1);
    let mut constraints = PlacementConstraints::new();
    constraints.add_shared_resource(&[(CellId(0), 7), (CellId(1), 7)], &[(BelId(0), 0), (BelId(1), 0)]);
    let bindings = keyed(&[(CellId(0), BelId(0)), (CellId(1), BelId(1))]);

    let placement =
        placement_from_partial_bindings(&design, &device, &constraints, &bindings).unwrap();

    assert_eq!(placement.bindings(), &[BelId(0), BelId(1)]);
}

#[test]
fn rejects_a_group_that_reuses_one_bel() {
    let design = two_cell_design();
    let device = rectangular_logic(2, 1);
    let mut constraints = PlacementConstraints::new();
    constraints.add_group(vec![CellId(0), CellId(1)], vec![vec![BelId(0), BelId(0)]]);

    assert!(matches!(
        place_with_constraints(&design, &device, &constraints),
        Err(PnrError::InvalidPlacementConstraint { .. })
    ));
}

#[test]
fn target_pin_override_participates_in_candidate_generation() {
    let mut design = Design::new();
    let cell = design.add_cell("cell".to_string(), ResourceKind::Logic);
    let logical_pin = design
        .add_pin(cell, "logical".to_string(), PinDirection::Output)
        .unwrap();
    let mut device = Device::new("renamed-pin".to_string(), 1, 1).unwrap();
    let wire = device.add_wire("wire".to_string(), Point::new(0, 0), 1).unwrap();
    let bel = device
        .add_bel("bel".to_string(), ResourceKind::Logic, Point::new(0, 0))
        .unwrap();
    let physical_pin = device
        .add_bel_pin(bel, "physical".to_string(), PinDirection::Output, wire)
        .unwrap();
    let mut constraints = PlacementConstraints::new();
    constraints.bind_pin(logical_pin, bel, physical_pin);

    let placement = place_with_constraints(&design, &device, &constraints).unwrap();

    assert_eq!(placement.bel(cell), Some(bel));
    assert_eq!(placement.pin_binding(logical_pin), Some(physical_pin));
}

#[test]
fn target_pin_name_override_is_resolved_after_candidate_selection() {
    let mut design = Design::new();
    let cell = design.add_cell("cell".to_string(), ResourceKind::Logic);
    let logical_pin = design
        .add_pin(cell, "logical".to_string(), PinDirection::Output)
        .unwrap();
    let mut device = Device::new("renamed-pin".to_string(), 2, 1).unwrap();
    let compatible_wire = device.add_wire("compatible".to_string(), Point::new(0, 0), 1).unwrap();
    let incompatible_wire = device
        .add_wire("incompatible".to_string(), Point::new(1, 0), 1)
        .unwrap();
    let compatible = device
        .add_bel("compatible".to_string(), ResourceKind::Logic, Point::new(0, 0))
        .unwrap();
    let physical_pin = device
        .add_bel_pin(compatible, "physical".to_string(), PinDirection::Output, compatible_wire)
        .unwrap();
    let incompatible = device
        .add_bel("incompatible".to_string(), ResourceKind::Logic, Point::new(1, 0))
        .unwrap();
    device
        .add_bel_pin(incompatible, "other".to_string(), PinDirection::Output, incompatible_wire)
        .unwrap();
    let mut constraints = PlacementConstraints::new();
    constraints.bind_pin_name(logical_pin, "physical".to_string());

    let placement = place_with_constraints(&design, &device, &constraints).unwrap();

    assert_eq!(placement.bel(cell), Some(compatible));
    assert_eq!(placement.pin_binding(logical_pin), Some(physical_pin));
}

#[test]
fn placement_separates_distinct_nets_on_shared_bel_pin_wires() {
    let mut design = Design::new();
    let source_a = design.add_cell("source_a".to_string(), ResourceKind::Logic);
    let source_a_pin = design.add_pin(source_a, "A".to_string(), PinDirection::Output).unwrap();
    let source_b = design.add_cell("source_b".to_string(), ResourceKind::Logic);
    let source_b_pin = design.add_pin(source_b, "B".to_string(), PinDirection::Output).unwrap();
    let sink_a = design.add_cell("sink_a".to_string(), ResourceKind::Register);
    let sink_a_pin = design.add_pin(sink_a, "D".to_string(), PinDirection::Input).unwrap();
    let sink_b = design.add_cell("sink_b".to_string(), ResourceKind::Register);
    let sink_b_pin = design.add_pin(sink_b, "D".to_string(), PinDirection::Input).unwrap();
    design.add_net("a".to_string(), source_a_pin, vec![sink_a_pin]).unwrap();
    design.add_net("b".to_string(), source_b_pin, vec![sink_b_pin]).unwrap();

    let mut device = Device::new("shared-register-input".to_string(), 4, 1).unwrap();
    let source_a_wire = device.add_wire("A".to_string(), Point::new(0, 0), 1).unwrap();
    let shared_input = device.add_wire("shared-D".to_string(), Point::new(1, 0), 1).unwrap();
    let separate_input = device.add_wire("separate-D".to_string(), Point::new(2, 0), 1).unwrap();
    let source_b_wire = device.add_wire("B".to_string(), Point::new(3, 0), 1).unwrap();
    let source_a_bel = device
        .add_bel("source-A".to_string(), ResourceKind::Logic, Point::new(0, 0))
        .unwrap();
    device
        .add_bel_pin(source_a_bel, "A".to_string(), PinDirection::Output, source_a_wire)
        .unwrap();
    let source_b_bel = device
        .add_bel("source-B".to_string(), ResourceKind::Logic, Point::new(3, 0))
        .unwrap();
    device
        .add_bel_pin(source_b_bel, "B".to_string(), PinDirection::Output, source_b_wire)
        .unwrap();
    for (name, point, wire) in [
        ("ff-shared-0", Point::new(1, 0), shared_input),
        ("ff-shared-1", Point::new(2, 0), shared_input),
        ("ff-separate", Point::new(2, 0), separate_input),
    ] {
        let bel = device.add_bel(name.to_string(), ResourceKind::Register, point).unwrap();
        device
            .add_bel_pin(bel, "D".to_string(), PinDirection::Input, wire)
            .unwrap();
    }

    let placement =
        place_with_constraints(&design, &device, &PlacementConstraints::new()).unwrap();
    let sink_wire = |cell| {
        let bel = placement.bel(cell).unwrap();
        let pin = device.bels()[bel.0].pins[0];
        device.bel_pins()[pin.0].wire
    };

    assert_ne!(sink_wire(sink_a), sink_wire(sink_b));
}

#[test]
fn every_limit_above_the_peak_moves_the_same_units() {
    let design = two_cell_design();
    let device = rectangular_logic(6, 1);
    let constraints = PlacementConstraints::new();
    let initial = Placement {
        bindings: vec![BelId(0), BelId(5)],
        pin_bindings: OrderedMap::new(),
    };
    let refiner = PlacementRefiner::new(&design, &device, &constraints).unwrap();
    let (broad, peak) = refiner
        .refine_with_net_sink_weights_limited_and_move_peak(
            initial.clone(),
            &OrderedMap::new(),
            None,
            100,
        )
        .unwrap();
    assert_ne!(broad, initial);
    for limit in peak + 1..peak + 4 {
        let (other, also) = refiner
            .refine_with_net_sink_weights_limited_and_move_peak(
                initial.clone(),
                &OrderedMap::new(),
                None,
                limit,
            )
            .unwrap();
        assert_eq!(other, broad);
        assert_eq!(also, peak);
    }
}

#[test]
fn single_cells_are_taken_in_ascending_order() {
    let design = two_cell_design();
    let device = rectangular_logic(2, 1);
    let mut constraints = PlacementConstraints::new();
    constraints.add_shared_resource(
        &[(CellId(1), 1), (CellId(0), 0)],
        &[(BelId(0), 7), (BelId(1), 7)],
    );
    let bindings = keyed(&[(CellId(1), BelId(1)), (CellId(0), BelId(0))]);
    let error =
        placement_from_partial_bindings(&design, &device, &constraints, &bindings).unwrap_err();
    assert!(error.message().contains("cell group beginning at 1"));
}
