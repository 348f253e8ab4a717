use std::collections::BTreeSet;
use std::sync::Arc;

use texo_pnr::device::Device;
use texo_pnr::medians::{weighted_median_coordinate, TimingPull};
use texo_pnr::model::{
    BelId, BelPinId, CellId, CellPinId, Connection, Design, NetId, PinDirection, Point,
    ResourceKind,
};
use texo_pnr::net_span::Axis;
use texo_pnr::ordered::OrderedMap;
use texo_pnr::placement::Placement;
use texo_pnr::placement_constraints::PlacementConstraints;
use texo_pnr::refiner::{PlacementDelayEstimator, PlacementRefiner};

fn arcs<V: Copy>(entries: &[((NetId, CellPinId), V)]) -> OrderedMap<Connection, V> {
    let mut map = OrderedMap::new();
    for &((net, sink), value) in entries {
        map.insert(Connection { net, sink }, value);
    }
    map
}

/// Tiles with one logic BEL each, whose wires join a channel of the tile;
/// channels of neighboring tiles are joined both ways.
fn rectangular_logic(width: u32, height: u32) -> Device {
    let mut device = Device::new("rectangular".to_string(), width, height).unwrap();
    let mut channels = Vec::new();
    for y in 0..height {
        for x in 0..width {
            let point = Point::new(x, y);
            let input = device.add_wire(format!("in_{x}_{y}"), point, 1).unwrap();
            let output = device.add_wire(format!("out_{x}_{y}"), point, 1).unwrap();
            let channel = device.add_wire(format!("channel_{x}_{y}"), point, 8).unwrap();
            device.add_pip(output, channel, false, 1).unwrap();
            device.add_pip(channel, input, false, 1).unwrap();
            let bel = device
                .add_bel(format!("logic_{x}_{y}"), ResourceKind::Logic, point)
                .unwrap();
            device
                .add_bel_pin(bel, "in".to_string(), PinDirection::Input, input)
                .unwrap();
            device
                .add_bel_pin(bel, "out".to_string(), PinDirection::Output, output)
                .unwrap();
            channels.push(channel);
        }
    }
    for y in 0..height {
        for x in 0..width {
            let here = channels[(y * width + x) as usize];
            if x + 1 < width {
                device
                    .add_pip(here, channels[(y * width + x + 1) as usize], true, 8)
                    .unwrap();
            }
            if y + 1 < height {
                device
                    .add_pip(here, channels[((y + 1) * width + x) as usize], true, 8)
                    .unwrap();
            }
        }
    }
    device
}

fn two_cell_design() -> Design {
    let mut design = Design::new();
    let source = design.add_cell("source".to_string(), ResourceKind::Logic);
    let source_out = design.add_pin(source, "out".to_string(), PinDirection::Output).unwrap();
    let sink = design.add_cell("sink".to_string(), ResourceKind::Logic);
    let sink_in = design.add_pin(sink, "in".to_string(), PinDirection::Input).unwrap();
    design
        .add_net("source_to_sink".to_string(), source_out, vec![sink_in])
        .unwrap();
    design
}

fn add_equivalent_logic_cell(
    design: &mut Design,
    name: &str,
) -> (CellId, CellPinId, CellPinId) {
    let cell = design.add_cell(name.to_string(), ResourceKind::Logic);
    let input = design.add_pin(cell, "in".to_string(), PinDirection::Input).unwrap();
    let output = design.add_pin(cell, "out".to_string(), PinDirection::Output).unwrap();
    (cell, input, output)
}

struct ManhattanPlacementDelay<'a>(&'a Device);

impl PlacementDelayEstimator for ManhattanPlacementDelay<'_> {
    fn estimate_delay_ps(
        &self,
        driver_bel: BelId,
        _driver_pin: BelPinId,
        sink_bel: BelId,
        _sink_pin: BelPinId,
    ) -> u64 {
        self.0.bels()[driver_bel.0]
            .point
            .manhattan(self.0.bels()[sink_bel.0].point)
    }
}

#[test]
fn predicted_timing_refinement_reduces_normalized_arc_cost() {
    let design = two_cell_design();
    let sink = design.nets()[0].sinks[0];
    let device = rectangular_logic(7, 1);
    let constraints = PlacementConstraints::new();
    let initial = Placement {
        bindings: vec![BelId(0), BelId(6)],
        pin_bindings: OrderedMap::new(),
    };
    let detailed_placer = PlacementRefiner::new(&design, &device, &constraints).unwrap();
    let predictor = ManhattanPlacementDelay(&device);

    let refined = detailed_placer
        .refine_with_predicted_timing(
            initial.clone(),
            &arcs(&[((NetId(0), sink), 64)]),
            &predictor,
        )
        .unwrap();
    let distance = |placement: &Placement| {
        device.bels()[placement.bindings()[0].0]
            .point
            .manhattan(device.bels()[placement.bindings()[1].0].point)
    };

    assert!(distance(&refined) < distance(&initial));
}

#[test]
fn predicted_detail_uses_an_ordinary_incident_net_without_a_timing_overlay() {
    let design = two_cell_design();
    let device = rectangular_logic(15, 1);
    let mut constraints = PlacementConstraints::new();
    constraints.add_group(vec![CellId(0)], vec![vec![BelId(0)], vec![BelId(10)]]);
    constraints.add_group(vec![CellId(1)], vec![vec![BelId(14)]]);
    let initial = Placement {
        bindings: vec![BelId(0), BelId(14)],
        pin_bindings: OrderedMap::new(),
    };
    let placement_refiner = PlacementRefiner::new(&design, &device, &constraints).unwrap();

    let result = placement_refiner
        .refine_with_predicted_timing(
            initial,
            &OrderedMap::new(),
            &ManhattanPlacementDelay(&device),
        )
        .unwrap();

    assert_eq!(result.bel(CellId(0)), Some(BelId(10)));
    assert_eq!(result.bel(CellId(1)), Some(BelId(14)));
}

#[test]
fn predicted_detail_incident_target_retains_rigid_macro_offsets() {
    let mut design = Design::new();
    let anchor = add_equivalent_logic_cell(&mut design, "anchor");
    let connected = add_equivalent_logic_cell(&mut design, "connected");
    let fixed = add_equivalent_logic_cell(&mut design, "fixed");
    design
        .add_net("macro_to_fixed".to_string(), connected.2, vec![fixed.1])
        .unwrap();
    let device = rectangular_logic(10, 1);
    let mut constraints = PlacementConstraints::new();
    constraints.add_group(vec![anchor.0, connected.0], vec![vec![BelId(0), BelId(2)], vec![BelId(5), BelId(7)]]);
    constraints.add_group(vec![fixed.0], vec![vec![BelId(9)]]);
    let initial = Placement {
        bindings: vec![BelId(0), BelId(2), BelId(9)],
        pin_bindings: OrderedMap::new(),
    };
    let placement_refiner = PlacementRefiner::new(&design, &device, &constraints).unwrap();

    let result = placement_refiner
        .refine_with_predicted_timing(
            initial,
            &OrderedMap::new(),
            &ManhattanPlacementDelay(&device),
        )
        .unwrap();

    assert_eq!(result.bel(anchor.0), Some(BelId(5)));
    assert_eq!(result.bel(connected.0), Some(BelId(7)));
    assert_eq!(result.bel(fixed.0), Some(BelId(9)));
}

#[test]
fn predicted_detail_jumps_across_a_local_basin_and_reaches_a_fixed_point() {
    let design = two_cell_design();
    let sink = design.nets()[0].sinks[0];
    let device = rectangular_logic(15, 1);
    let mut constraints = PlacementConstraints::new();
    constraints.add_group(vec![CellId(0)], vec![vec![BelId(0)], vec![BelId(1)], vec![BelId(10)]]);
    constraints.add_group(vec![CellId(1)], vec![vec![BelId(14)]]);
    let initial = Placement {
        bindings: vec![BelId(0), BelId(14)],
        pin_bindings: OrderedMap::new(),
    };
    let criticalities = arcs(&[((NetId(0), sink), 64)]);
    let predictor = ManhattanPlacementDelay(&device);
    let refiner = PlacementRefiner::new(&design, &device, &constraints).unwrap();

    let (one_sweep, moved) = refiner
        .refine_with_predicted_timing_pass(initial.clone(), &criticalities, &predictor)
        .unwrap();
    let (one_sweep_fixed, fixed_moved) = refiner
        .refine_with_predicted_timing_pass(one_sweep.clone(), &criticalities, &predictor)
        .unwrap();
    let first = refiner
        .refine_with_predicted_timing(initial.clone(), &criticalities, &predictor)
        .unwrap();
    let second = refiner
        .refine_with_predicted_timing(initial, &criticalities, &predictor)
        .unwrap();
    let fixed = refiner
        .refine_with_predicted_timing(first.clone(), &criticalities, &predictor)
        .unwrap();

    assert!(moved > 0, "the first sweep must report its accepted move");
    assert_eq!(fixed_moved, 0, "the fixed-point sweep reports no moves");
    assert_eq!(one_sweep_fixed, one_sweep);
    assert_eq!(one_sweep, first);
    assert_eq!(first, second, "far-target refinement is deterministic");
    assert_eq!(fixed, first, "a second run is already at the fixed point");
    assert_eq!(first.bel(CellId(0)), Some(BelId(10)));
    assert_eq!(first.bel(CellId(1)), Some(BelId(14)));
    assert_eq!(
        device.bels()[BelId(0).0]
            .point
            .manhattan(device.bels()[first.bel(CellId(0)).unwrap().0].point),
        10,
        "the canonical incident-net target crosses the basin in one candidate step"
    );
}

#[test]
fn predicted_detail_skips_a_blocked_target_ring_for_the_next_legal_ring() {
    let design = two_cell_design();
    let sink = design.nets()[0].sinks[0];
    let device = rectangular_logic(6, 1);
    let mut constraints = PlacementConstraints::new();
    constraints.add_group(vec![CellId(0)], vec![
            vec![BelId(0)],
            vec![BelId(1)],
            vec![BelId(4)],
            vec![BelId(5)],
        ]);
    // The critical endpoint itself is the only assignment on target ring
    // zero, but it belongs to this fixed unit and cannot be swapped.
    constraints.add_group(vec![CellId(1)], vec![vec![BelId(4)]]);
    let initial = Placement {
        bindings: vec![BelId(0), BelId(4)],
        pin_bindings: OrderedMap::new(),
    };
    let placer = PlacementRefiner::new(&design, &device, &constraints).unwrap();
    let predictor = ManhattanPlacementDelay(&device);

    let refined = placer
        .refine_with_predicted_timing(
            initial,
            &arcs(&[((NetId(0), sink), 64)]),
            &predictor,
        )
        .unwrap();

    assert_eq!(refined.bel(CellId(0)), Some(BelId(5)));
    assert_eq!(refined.bel(CellId(1)), Some(BelId(4)));
}

#[test]
fn detailed_timing_target_uses_the_criticality_weighted_median() {
    let points = vec![
        TimingPull { point: Point::new(1, 9), weight: 2 },
        TimingPull { point: Point::new(7, 4), weight: 8 },
        TimingPull { point: Point::new(12, 1), weight: 3 },
    ];

    assert_eq!(weighted_median_coordinate(&points, Axis::Column), Some(7));
    assert_eq!(weighted_median_coordinate(&points, Axis::Row), Some(4));
}

#[test]
fn predicted_detail_swaps_occupied_compatible_units() {
    let mut design = Design::new();
    let cells = (0..4)
        .map(|index| add_equivalent_logic_cell(&mut design, &format!("cell{index}")))
        .collect::<Vec<_>>();
    let first_net = design.add_net("first".to_string(), cells[0].2, vec![cells[1].1]).unwrap();
    let second_net = design.add_net("second".to_string(), cells[2].2, vec![cells[3].1]).unwrap();
    let device = rectangular_logic(4, 1);
    let constraints = PlacementConstraints::new();
    let initial = Placement {
        bindings: vec![BelId(0), BelId(3), BelId(1), BelId(2)],
        pin_bindings: OrderedMap::new(),
    };
    let predictor = ManhattanPlacementDelay(&device);
    let detailed_placer = PlacementRefiner::new(&design, &device, &constraints).unwrap();
    let criticalities = arcs(&[
        ((first_net, cells[1].1), 64),
        ((second_net, cells[3].1), 64),
    ]);
    let total_span = |placement: &Placement| {
        [(cells[0].0, cells[1].0), (cells[2].0, cells[3].0)]
            .into_iter()
            .map(|(driver, sink)| {
                let driver = device.bels()[placement.bel(driver).unwrap().0].point;
                let sink = device.bels()[placement.bel(sink).unwrap().0].point;
                driver.manhattan(sink)
            })
            .sum::<u64>()
    };

    let refined = detailed_placer
        .refine_with_predicted_timing(initial.clone(), &criticalities, &predictor)
        .unwrap();

    assert!(total_span(&refined) < total_span(&initial));
    assert_eq!(
        refined.bindings().iter().copied().collect::<BTreeSet<_>>(),
        BTreeSet::from([BelId(0), BelId(1), BelId(2), BelId(3)])
    );
    assert!(
        initial
            .bindings()
            .iter()
            .zip(refined.bindings())
            .filter(|(before, after)| before != after)
            .count()
            >= 2
    );
}

#[test]
fn predicted_detail_swaps_atomic_groups_as_whole_units() {
    let mut design = Design::new();
    let cells = (0..6)
        .map(|index| add_equivalent_logic_cell(&mut design, &format!("cell{index}")))
        .collect::<Vec<_>>();
    let first_net = design.add_net("first".to_string(), cells[0].2, vec![cells[5].1]).unwrap();
    let second_net = design.add_net("second".to_string(), cells[2].2, vec![cells[4].1]).unwrap();
    let device = rectangular_logic(6, 1);
    let assignments = Arc::new(vec![vec![BelId(1), BelId(2)], vec![BelId(3), BelId(4)]]);
    let mut constraints = PlacementConstraints::new();
    constraints
        .add_group_with_shared_assignments(vec![cells[0].0, cells[1].0], Arc::clone(&assignments));
    constraints
        .add_group_with_shared_assignments(vec![cells[2].0, cells[3].0], Arc::clone(&assignments));
    constraints.add_group(vec![cells[4].0], vec![vec![BelId(0)]]);
    constraints.add_group(vec![cells[5].0], vec![vec![BelId(5)]]);
    let initial = Placement {
        bindings: vec![BelId(1), BelId(2), BelId(3), BelId(4), BelId(0), BelId(5)],
        pin_bindings: OrderedMap::new(),
    };
    let predictor = ManhattanPlacementDelay(&device);
    let detailed_placer = PlacementRefiner::new(&design, &device, &constraints).unwrap();
    let criticalities = arcs(&[
        ((first_net, cells[5].1), 64),
        ((second_net, cells[4].1), 64),
    ]);
    let total_span = |placement: &Placement| {
        [(cells[0].0, cells[5].0), (cells[2].0, cells[4].0)]
            .into_iter()
            .map(|(driver, sink)| {
                let driver = device.bels()[placement.bel(driver).unwrap().0].point;
                let sink = device.bels()[placement.bel(sink).unwrap().0].point;
                driver.manhattan(sink)
            })
            .sum::<u64>()
    };

    let refined = detailed_placer
        .refine_with_predicted_timing(initial.clone(), &criticalities, &predictor)
        .unwrap();
    let first_assignment = vec![refined.bindings()[0], refined.bindings()[1]];
    let second_assignment = vec![refined.bindings()[2], refined.bindings()[3]];

    assert!(total_span(&refined) < total_span(&initial));
    assert!(assignments.contains(&first_assignment));
    assert!(assignments.contains(&second_assignment));
    assert_ne!(first_assignment, second_assignment);
}

#[test]
fn predicted_detail_checks_both_sides_of_shared_resource_swap() {
    let mut design = Design::new();
    let cells = (0..3)
        .map(|index| add_equivalent_logic_cell(&mut design, &format!("cell{index}")))
        .collect::<Vec<_>>();
    let net = design
        .add_net("critical".to_string(), cells[0].2, vec![cells[2].1])
        .unwrap();
    let device = rectangular_logic(3, 1);
    let mut constraints = PlacementConstraints::new();
    constraints.add_group(vec![cells[2].0], vec![vec![BelId(2)]]);
    constraints.add_shared_resource(&[(cells[0].0, 0), (cells[1].0, 1), (cells[2].0, 0)], &[(BelId(0), 0), (BelId(1), 1), (BelId(2), 0)]);
    let initial = Placement {
        bindings: vec![BelId(0), BelId(1), BelId(2)],
        pin_bindings: OrderedMap::new(),
    };
    let predictor = ManhattanPlacementDelay(&device);
    let detailed_placer = PlacementRefiner::new(&design, &device, &constraints).unwrap();

    let refined = detailed_placer
        .refine_with_predicted_timing(
            initial.clone(),
            &arcs(&[((net, cells[2].1), 64)]),
            &predictor,
        )
        .unwrap();

    assert_eq!(refined, initial);
}

#[test]
fn groups_with_equal_but_separate_assignments_do_not_swap() {
    let mut design = Design::new();
    let cells = (0..6)
        .map(|index| add_equivalent_logic_cell(&mut design, &format!("cell{index}")))
        .collect::<Vec<_>>();
    let first_net = design.add_net("first".to_string(), cells[0].2, vec![cells[5].1]).unwrap();
    let second_net = design.add_net("second".to_string(), cells[2].2, vec![cells[4].1]).unwrap();
    let device = rectangular_logic(6, 1);
    let assignments = Arc::new(vec![vec![BelId(1), BelId(2)], vec![BelId(3), BelId(4)]]);
    let mut constraints = PlacementConstraints::new();
    constraints
        .add_group_with_shared_assignments(vec![cells[0].0, cells[1].0], Arc::clone(&assignments));
    constraints
        .add_group_with_shared_assignments(vec![cells[2].0, cells[3].0], Arc::new(assignments.to_vec()));
    constraints.add_group(vec![cells[4].0], vec![vec![BelId(0)]]);
    constraints.add_group(vec![cells[5].0], vec![vec![BelId(5)]]);
    let initial = Placement {
        bindings: vec![BelId(1), BelId(2), BelId(3), BelId(4), BelId(0), BelId(5)],
        pin_bindings: OrderedMap::new(),
    };
    let predictor = ManhattanPlacementDelay(&device);
    let detailed_placer = PlacementRefiner::new(&design, &device, &constraints).unwrap();
    let criticalities = arcs(&[
        ((first_net, cells[5].1), 64),
        ((second_net, cells[4].1), 64),
    ]);
    let refined = detailed_placer
        .refine_with_predicted_timing(initial.clone(), &criticalities, &predictor)
        .unwrap();
    assert_eq!(refined.bindings(), initial.bindings());
}

#[test]
fn a_swap_counts_both_of_its_units() {
    let mut design = Design::new();
    let cells: Vec<_> = ["a", "b", "c", "d"]
        .iter()
        .map(|name| add_equivalent_logic_cell(&mut design, name))
        .collect();
    design
        .add_net("a_to_b".to_string(), cells[0].2, vec![cells[1].1])
        .unwrap();
    design
        .add_net("c_to_d".to_string(), cells[2].2, vec![cells[3].1])
        .unwrap();
    let device = rectangular_logic(4, 1);
    let constraints = PlacementConstraints::new();
    let initial = Placement {
        bindings: vec![BelId(0), BelId(3), BelId(1), BelId(2)],
        pin_bindings: OrderedMap::new(),
    };
    let criticalities = arcs(&[((NetId(0), cells[1].1), 64), ((NetId(1), cells[3].1), 64)]);
    let refiner = PlacementRefiner::new(&design, &device, &constraints).unwrap();
    let (refined, moved) = refiner
        .refine_with_predicted_timing_pass(
            initial.clone(),
            &criticalities,
            &ManhattanPlacementDelay(&device),
        )
        .unwrap();
    let elsewhere = initial
        .bindings()
        .iter()
        .zip(refined.bindings())
        .filter(|(before, after)| before != after)
        .count();
    assert!(moved >= 2, "every BEL is taken, so units can only swap");
    assert_eq!(moved, elsewhere);
}
